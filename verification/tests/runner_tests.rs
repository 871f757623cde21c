use xtask::runner::{
    COMMON_MAX_LINE_LENGTH, ExitOutcome, LogLevel, RunError, checked_outcome, init_log,
    log_pipe, split_line_chunks,
};

#[test]
fn it_works() {
    init_log();
}

#[test]
fn sink_starts_at_info_and_empty() {
    let sink = init_log();
    assert_eq!(sink.level, LogLevel::Info);
    assert!(sink.lines.is_empty());
    assert!(sink.enabled(&LogLevel::Error));
    assert!(sink.enabled(&LogLevel::Info));
    assert!(!sink.enabled(&LogLevel::Debug));
}

#[test]
fn chunks_split_at_newlines() {
    let data = b"ab\ncd\n".to_vec();
    let chunks = split_line_chunks(&data, COMMON_MAX_LINE_LENGTH);
    assert_eq!(chunks, vec![b"ab".to_vec(), b"cd".to_vec()]);
}

#[test]
fn a_trailing_partial_line_is_flushed_once() {
    let data = b"ab\ncd".to_vec();
    let chunks = split_line_chunks(&data, COMMON_MAX_LINE_LENGTH);
    assert_eq!(chunks, vec![b"ab".to_vec(), b"cd".to_vec()]);
}

#[test]
fn empty_lines_are_forwarded_as_empty_chunks() {
    let data = b"\n\nx".to_vec();
    let chunks = split_line_chunks(&data, COMMON_MAX_LINE_LENGTH);
    assert_eq!(chunks, vec![b"".to_vec(), b"".to_vec(), b"x".to_vec()]);
}

#[test]
fn a_line_longer_than_the_buffer_is_split_not_dropped() {
    let data = vec![b'x'; 300];
    let chunks = split_line_chunks(&data, COMMON_MAX_LINE_LENGTH);
    assert_eq!(chunks.len(), 3);
    assert_eq!(chunks[0].len(), 120);
    assert_eq!(chunks[1].len(), 120);
    assert_eq!(chunks[2].len(), 60);
    let rejoined: Vec<u8> = chunks.concat();
    assert_eq!(rejoined, data);
}

#[test]
fn ten_thousand_lines_are_forwarded_without_loss() {
    let mut data: Vec<u8> = Vec::new();
    for i in 0..10_000 {
        data.extend_from_slice(format!("line number {}\n", i).as_bytes());
    }
    let chunks = split_line_chunks(&data, COMMON_MAX_LINE_LENGTH);
    assert_eq!(chunks.len(), 10_000);
    let without_newlines: Vec<u8> = data.iter().copied().filter(|b| *b != b'\n').collect();
    let rejoined: Vec<u8> = chunks.concat();
    assert_eq!(rejoined, without_newlines);
    for c in &chunks {
        assert!(c.len() <= COMMON_MAX_LINE_LENGTH);
    }
}

#[test]
fn log_pipe_tags_every_chunk_with_process_and_stream() {
    let mut sink = init_log();
    let name = b"tool".to_vec();
    log_pipe(&mut sink, &name, true, &b"out line\n".to_vec());
    log_pipe(&mut sink, &name, false, &b"err line\n".to_vec());
    assert_eq!(sink.lines.len(), 2);
    assert_eq!(sink.lines[0].proc_name, b"tool".to_vec());
    assert!(sink.lines[0].from_stdout);
    assert_eq!(sink.lines[0].text, b"out line".to_vec());
    assert_eq!(sink.lines[1].proc_name, b"tool".to_vec());
    assert!(!sink.lines[1].from_stdout);
    assert_eq!(sink.lines[1].text, b"err line".to_vec());
    assert_eq!(sink.lines[0].level, LogLevel::Info);
}

#[test]
fn interleaved_streams_lose_nothing() {
    let mut sink = init_log();
    let name = b"busy".to_vec();
    let mut out_data: Vec<u8> = Vec::new();
    for i in 0..10_000 {
        out_data.extend_from_slice(format!("o{}\n", i).as_bytes());
    }
    let err_data = b"warning one\nwarning two\n".to_vec();
    log_pipe(&mut sink, &name, true, &out_data);
    log_pipe(&mut sink, &name, false, &err_data);
    assert_eq!(sink.lines.len(), 10_002);
    assert!(sink.lines[..10_000].iter().all(|l| l.from_stdout));
    assert!(sink.lines[10_000..].iter().all(|l| !l.from_stdout));
}

#[test]
fn failed_status_becomes_the_process_failed_error() {
    let bad = ExitOutcome { succeeded: false, raw_status: 101 };
    assert_eq!(checked_outcome(&bad), Err(RunError::ProcessFailed));
    let good = ExitOutcome { succeeded: true, raw_status: 0 };
    assert!(checked_outcome(&good).is_ok());
}
