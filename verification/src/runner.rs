//! Subprocess output handling: line-buffered forwarding of a captured
//! stream into a logging sink, and exit outcomes. A stream's bytes are cut
//! into chunks at newlines; a chunk is also forced out whenever the
//! fixed-size line buffer fills without one, so no byte is ever dropped and
//! no chunk outgrows the buffer; a final partial line is flushed once at
//! end of stream.

use vstd::prelude::*;

use crate::pathname::{AbsPath, bytes_view, copy_bytes, lemma_bytes_view_push};

verus! {

/// How a command's output streams are handled: captured and forwarded to
/// the log, or inherited from the caller.
#[derive(Clone, Copy, PartialEq, Eq, Structural, Debug)]
pub enum SpawnMode {
    Piped,
    Transparent,
}

/// One command-line argument: literal text, or a path rendered by the host.
pub enum ShellArg {
    Text(String),
    PathArg(AbsPath),
}

/// The view of an argument: the text's characters, or the path's components.
pub enum ArgView {
    TextView(Seq<char>),
    PathView(Seq<Seq<u8>>),
}

pub open spec fn arg_view(a: ShellArg) -> ArgView {
    match a {
        ShellArg::Text(s) => ArgView::TextView(s@),
        ShellArg::PathArg(p) => ArgView::PathView(p@),
    }
}

pub open spec fn args_view(s: Seq<ShellArg>) -> Seq<ArgView> {
    s.map_values(|a: ShellArg| arg_view(a))
}

pub open spec fn env_view(s: Seq<(String, String)>) -> Seq<(Seq<char>, Seq<char>)> {
    s.map_values(|e: (String, String)| (e.0@, e.1@))
}

/// One command to run: program name, arguments, environment overrides, and
/// the output mode. Constructed fresh per invocation; the host resolves the
/// program on its search path and runs it in the project root.
pub struct CommandSpec {
    pub program: String,
    pub args: Vec<ShellArg>,
    pub env: Vec<(String, String)>,
    pub mode: SpawnMode,
}

pub proof fn lemma_args_view_push(s: Seq<ShellArg>, a: ShellArg)
    ensures
        args_view(s.push(a)) =~= args_view(s).push(arg_view(a)),
{
    assert forall|k: int| 0 <= k < s.len() + 1 implies args_view(s.push(a))[k] == args_view(
        s,
    ).push(arg_view(a))[k] by {
        if k < s.len() {
            assert(s.push(a)[k] == s[k]);
        } else {
            assert(s.push(a)[k] == a);
        }
    }
}

/// Length of the line buffer used when forwarding subprocess output.
pub const COMMON_MAX_LINE_LENGTH: usize = 120;

/// Severity of a log line, most severe first.
#[derive(Clone, Copy, PartialEq, Eq, Structural, Debug)]
pub enum LogLevel {
    Error,
    Warn,
    Info,
    Debug,
}

pub open spec fn log_rank(l: LogLevel) -> int {
    match l {
        LogLevel::Error => 0,
        LogLevel::Warn => 1,
        LogLevel::Info => 2,
        LogLevel::Debug => 3,
    }
}

/// One structured log line: severity, the component or process it speaks
/// for, which output stream it came from, and the text itself.
pub struct LogLine {
    pub level: LogLevel,
    pub proc_name: Vec<u8>,
    pub from_stdout: bool,
    pub text: Vec<u8>,
}

pub open spec fn lines_view(s: Seq<LogLine>) -> Seq<(LogLevel, Seq<u8>, bool, Seq<u8>)> {
    s.map_values(|l: LogLine| (l.level, l.proc_name@, l.from_stdout, l.text@))
}

/// The logging sink: a leveled collector of structured lines. Lines below
/// the sink's level are kept; the rest are dropped.
pub struct LogSink {
    pub level: LogLevel,
    pub lines: Vec<LogLine>,
}

pub open spec fn spec_enabled(sink_level: LogLevel, l: LogLevel) -> bool {
    log_rank(l) <= log_rank(sink_level)
}

/// Set up a fresh logging sink at the default level.
pub fn init_log() -> (r: LogSink)
    ensures
        r.level == LogLevel::Info,
        r.lines@.len() == 0,
{
    LogSink { level: LogLevel::Info, lines: Vec::new() }
}

fn rank_of(l: &LogLevel) -> (r: u32)
    ensures
        r as int == log_rank(*l),
{
    match l {
        LogLevel::Error => 0,
        LogLevel::Warn => 1,
        LogLevel::Info => 2,
        LogLevel::Debug => 3,
    }
}

impl LogSink {
    /// Whether a line of severity `l` would be kept.
    pub fn enabled(&self, l: &LogLevel) -> (r: bool)
        ensures
            r == spec_enabled(self.level, *l),
    {
        rank_of(l) <= rank_of(&self.level)
    }

    /// Append `line` when its severity is enabled; drop it otherwise.
    pub fn log(&mut self, line: LogLine)
        ensures
            final(self).level == old(self).level,
            spec_enabled(old(self).level, line.level) ==> final(self).lines@ == old(
                self,
            ).lines@.push(line),
            !spec_enabled(old(self).level, line.level) ==> final(self).lines@ == old(
                self,
            ).lines@,
    {
        let keep = self.enabled(&line.level);
        if keep {
            self.lines.push(line);
        }
    }
}

/// How one subprocess invocation ended: a failed status is a first-class
/// value, distinct from any failure to spawn at all.
pub struct ExitOutcome {
    pub succeeded: bool,
    pub raw_status: i32,
}

/// The error a checked run raises when the process itself failed.
#[derive(Clone, Copy, PartialEq, Eq, Structural, Debug)]
pub enum RunError {
    ProcessFailed,
}

/// Turn an exit outcome into a result: a run that did not succeed becomes
/// the distinguished process-failed error.
pub fn checked_outcome(outcome: &ExitOutcome) -> (r: Result<(), RunError>)
    ensures
        r is Ok <==> outcome.succeeded,
        !outcome.succeeded ==> r == Result::<(), RunError>::Err(RunError::ProcessFailed),
{
    if outcome.succeeded {
        Ok(())
    } else {
        Err(RunError::ProcessFailed)
    }
}

/// The chunks a line-buffered reader flushes, given the remaining stream
/// `s`, the buffer capacity `cap`, and the bytes `buf` already buffered: a
/// newline flushes the buffer (the newline itself is not kept); a byte that
/// fills the buffer flushes it at once; at end of stream a non-empty
/// remainder is flushed.
pub open spec fn spec_line_chunks(s: Seq<u8>, cap: int, buf: Seq<u8>) -> Seq<Seq<u8>>
    decreases s.len(),
{
    if s.len() == 0 {
        if buf.len() > 0 {
            seq![buf]
        } else {
            Seq::empty()
        }
    } else if s[0] == 10u8 {
        seq![buf] + spec_line_chunks(s.drop_first(), cap, Seq::empty())
    } else if buf.len() + 1 >= cap {
        seq![buf.push(s[0])] + spec_line_chunks(s.drop_first(), cap, Seq::empty())
    } else {
        spec_line_chunks(s.drop_first(), cap, buf.push(s[0]))
    }
}

/// A stream with its newlines taken out: exactly the bytes a line-buffered
/// forwarder must deliver.
pub open spec fn strip_newlines(s: Seq<u8>) -> Seq<u8>
    decreases s.len(),
{
    if s.len() == 0 {
        Seq::empty()
    } else if s[0] == 10u8 {
        strip_newlines(s.drop_first())
    } else {
        seq![s[0]] + strip_newlines(s.drop_first())
    }
}

/// All chunks joined back together.
pub open spec fn concat_chunks(cs: Seq<Seq<u8>>) -> Seq<u8>
    decreases cs.len(),
{
    if cs.len() == 0 {
        Seq::empty()
    } else {
        cs[0] + concat_chunks(cs.drop_first())
    }
}

proof fn lemma_concat_chunks_cons(head: Seq<u8>, tail: Seq<Seq<u8>>)
    ensures
        concat_chunks(seq![head] + tail) == head + concat_chunks(tail),
{
    let cs = seq![head] + tail;
    assert(cs[0] == head);
    assert(cs.drop_first() =~= tail);
}

/// No byte is lost and none is invented: the flushed chunks joined together
/// are the buffered bytes followed by the stream without its newlines.
pub proof fn lemma_chunks_no_loss(s: Seq<u8>, cap: int, buf: Seq<u8>)
    ensures
        concat_chunks(spec_line_chunks(s, cap, buf)) == buf + strip_newlines(s),
    decreases s.len(),
{
    if s.len() == 0 {
        if buf.len() > 0 {
            lemma_concat_chunks_cons(buf, Seq::empty());
            assert(seq![buf] + Seq::<Seq<u8>>::empty() =~= seq![buf]);
            assert(buf + Seq::<u8>::empty() =~= buf);
        } else {
            assert(buf + strip_newlines(s) =~= buf);
            assert(buf =~= Seq::<u8>::empty());
        }
    } else if s[0] == 10u8 {
        lemma_chunks_no_loss(s.drop_first(), cap, Seq::empty());
        lemma_concat_chunks_cons(buf, spec_line_chunks(s.drop_first(), cap, Seq::empty()));
        assert(Seq::<u8>::empty() + strip_newlines(s.drop_first()) =~= strip_newlines(
            s.drop_first(),
        ));
    } else if buf.len() + 1 >= cap {
        lemma_chunks_no_loss(s.drop_first(), cap, Seq::empty());
        lemma_concat_chunks_cons(
            buf.push(s[0]),
            spec_line_chunks(s.drop_first(), cap, Seq::empty()),
        );
        assert(Seq::<u8>::empty() + strip_newlines(s.drop_first()) =~= strip_newlines(
            s.drop_first(),
        ));
        assert(buf.push(s[0]) + strip_newlines(s.drop_first()) =~= buf + (seq![s[0]]
            + strip_newlines(s.drop_first())));
    } else {
        lemma_chunks_no_loss(s.drop_first(), cap, buf.push(s[0]));
        assert(buf.push(s[0]) + strip_newlines(s.drop_first()) =~= buf + (seq![s[0]]
            + strip_newlines(s.drop_first())));
    }
}

/// No chunk outgrows the buffer: a flush happens at the latest when the
/// buffer fills.
pub proof fn lemma_chunks_bounded(s: Seq<u8>, cap: int, buf: Seq<u8>)
    requires
        buf.len() < cap,
    ensures
        forall|j: int|
            0 <= j < spec_line_chunks(s, cap, buf).len() ==> #[trigger] spec_line_chunks(
                s,
                cap,
                buf,
            )[j].len() <= cap,
    decreases s.len(),
{
    if s.len() == 0 {
        if buf.len() > 0 {
            assert(spec_line_chunks(s, cap, buf) == seq![buf]);
            assert(spec_line_chunks(s, cap, buf)[0] == buf);
        }
    } else if s[0] == 10u8 {
        lemma_chunks_bounded(s.drop_first(), cap, Seq::empty());
        let rest = spec_line_chunks(s.drop_first(), cap, Seq::empty());
        assert forall|j: int| 0 <= j < spec_line_chunks(s, cap, buf).len() implies #[trigger]
            spec_line_chunks(s, cap, buf)[j].len() <= cap by {
            if j == 0 {
                assert(spec_line_chunks(s, cap, buf)[0] == buf);
            } else {
                assert(spec_line_chunks(s, cap, buf)[j] == rest[j - 1]);
            }
        }
    } else if buf.len() + 1 >= cap {
        lemma_chunks_bounded(s.drop_first(), cap, Seq::empty());
        let rest = spec_line_chunks(s.drop_first(), cap, Seq::empty());
        assert forall|j: int| 0 <= j < spec_line_chunks(s, cap, buf).len() implies #[trigger]
            spec_line_chunks(s, cap, buf)[j].len() <= cap by {
            if j == 0 {
                assert(spec_line_chunks(s, cap, buf)[0] == buf.push(s[0]));
            } else {
                assert(spec_line_chunks(s, cap, buf)[j] == rest[j - 1]);
            }
        }
    } else {
        lemma_chunks_bounded(s.drop_first(), cap, buf.push(s[0]));
        let rest = spec_line_chunks(s.drop_first(), cap, buf.push(s[0]));
        assert forall|j: int| 0 <= j < spec_line_chunks(s, cap, buf).len() implies #[trigger]
            spec_line_chunks(s, cap, buf)[j].len() <= cap by {
            assert(spec_line_chunks(s, cap, buf)[j] == rest[j]);
        }
    }
}

/// Cut a captured stream into the chunks a line-buffered reader flushes.
pub fn split_line_chunks(data: &Vec<u8>, cap: usize) -> (r: Vec<Vec<u8>>)
    requires
        cap >= 1,
    ensures
        bytes_view(r@) == spec_line_chunks(data@, cap as int, Seq::empty()),
{
    let mut out: Vec<Vec<u8>> = Vec::new();
    let mut buf: Vec<u8> = Vec::new();
    let mut i: usize = 0;
    proof {
        assert(data@.skip(0) =~= data@);
        assert(bytes_view(out@) =~= Seq::<Seq<u8>>::empty());
        assert(buf@ =~= Seq::<u8>::empty());
    }
    while i < data.len()
        invariant
            i <= data@.len(),
            cap >= 1,
            buf@.len() < cap,
            bytes_view(out@) + spec_line_chunks(data@.skip(i as int), cap as int, buf@)
                == spec_line_chunks(data@, cap as int, Seq::empty()),
        decreases data@.len() - i,
    {
        let ghost rem = data@.skip(i as int);
        proof {
            assert(rem[0] == data@[i as int]);
            assert(rem.drop_first() =~= data@.skip(i + 1));
        }
        let b = data[i];
        if b == 10u8 {
            let ghost flushed = buf@;
            proof {
                lemma_bytes_view_push(out@, buf);
            }
            let full = buf;
            buf = Vec::new();
            out.push(full);
            proof {
                assert(bytes_view(out@) + spec_line_chunks(
                    data@.skip(i + 1),
                    cap as int,
                    Seq::empty(),
                ) =~= spec_line_chunks(data@, cap as int, Seq::empty()));
            }
        } else {
            buf.push(b);
            if buf.len() >= cap {
                let ghost flushed = buf@;
                proof {
                    lemma_bytes_view_push(out@, buf);
                }
                let full = buf;
                buf = Vec::new();
                out.push(full);
                proof {
                    assert(bytes_view(out@) + spec_line_chunks(
                        data@.skip(i + 1),
                        cap as int,
                        Seq::empty(),
                    ) =~= spec_line_chunks(data@, cap as int, Seq::empty()));
                }
            } else {
                proof {
                    assert(bytes_view(out@) + spec_line_chunks(
                        data@.skip(i + 1),
                        cap as int,
                        buf@,
                    ) =~= spec_line_chunks(data@, cap as int, Seq::empty()));
                }
            }
        }
        i += 1;
    }
    proof {
        assert(data@.skip(data@.len() as int) =~= Seq::<u8>::empty());
    }
    if buf.len() > 0 {
        proof {
            lemma_bytes_view_push(out@, buf);
        }
        out.push(buf);
        proof {
            assert(bytes_view(out@) =~= spec_line_chunks(data@, cap as int, Seq::empty()));
        }
    } else {
        proof {
            assert(bytes_view(out@) + Seq::<Seq<u8>>::empty() =~= bytes_view(out@));
        }
    }
    out
}

/// The log lines that forwarding `chunks` for one stream produces.
pub open spec fn spec_pipe_lines(proc_name: Seq<u8>, from_stdout: bool, chunks: Seq<Seq<u8>>) -> Seq<
    (LogLevel, Seq<u8>, bool, Seq<u8>),
> {
    chunks.map_values(|c: Seq<u8>| (LogLevel::Info, proc_name, from_stdout, c))
}

/// Forward one captured output stream into the sink, line-buffered: each
/// flushed chunk becomes one log line tagged with the process name and the
/// stream it came from.
pub fn log_pipe(sink: &mut LogSink, proc_name: &Vec<u8>, from_stdout: bool, data: &Vec<u8>)
    ensures
        final(sink).level == old(sink).level,
        spec_enabled(old(sink).level, LogLevel::Info) ==> lines_view(final(sink).lines@)
            == lines_view(old(sink).lines@) + spec_pipe_lines(
            proc_name@,
            from_stdout,
            spec_line_chunks(data@, COMMON_MAX_LINE_LENGTH as int, Seq::empty()),
        ),
        !spec_enabled(old(sink).level, LogLevel::Info) ==> final(sink).lines@ == old(
            sink,
        ).lines@,
{
    let chunks = split_line_chunks(data, COMMON_MAX_LINE_LENGTH);
    let ghost cv = bytes_view(chunks@);
    let mut k: usize = 0;
    proof {
        assert(spec_pipe_lines(proc_name@, from_stdout, cv.take(0)) =~= Seq::<
            (LogLevel, Seq<u8>, bool, Seq<u8>),
        >::empty());
        assert(lines_view(old(sink).lines@) + Seq::<
            (LogLevel, Seq<u8>, bool, Seq<u8>),
        >::empty() =~= lines_view(old(sink).lines@));
    }
    while k < chunks.len()
        invariant
            k <= chunks@.len(),
            cv == bytes_view(chunks@),
            sink.level == old(sink).level,
            spec_enabled(old(sink).level, LogLevel::Info) ==> lines_view(sink.lines@)
                == lines_view(old(sink).lines@) + spec_pipe_lines(
                proc_name@,
                from_stdout,
                cv.take(k as int),
            ),
            !spec_enabled(old(sink).level, LogLevel::Info) ==> sink.lines@ == old(sink).lines@,
        decreases chunks@.len() - k,
    {
        let line = LogLine {
            level: LogLevel::Info,
            proc_name: copy_bytes(proc_name),
            from_stdout,
            text: copy_bytes(&chunks[k]),
        };
        let ghost line_snap = line;
        let ghost lv = (line.level, line.proc_name@, line.from_stdout, line.text@);
        let ghost lines_before = sink.lines@;
        sink.log(line);
        proof {
            if spec_enabled(old(sink).level, LogLevel::Info) {
                assert(sink.lines@ == lines_before.push(line_snap));
                assert(lines_view(sink.lines@) =~= lines_view(lines_before).push(lv)) by {
                    assert forall|j: int| 0 <= j < lines_before.len() + 1 implies lines_view(
                        lines_before.push(line_snap),
                    )[j] == lines_view(lines_before).push(lv)[j] by {
                        if j < lines_before.len() {
                            assert(lines_before.push(line_snap)[j] == lines_before[j]);
                        } else {
                            assert(lines_before.push(line_snap)[j] == line_snap);
                        }
                    }
                }
                assert(spec_pipe_lines(proc_name@, from_stdout, cv.take(k + 1)) =~=
                    spec_pipe_lines(proc_name@, from_stdout, cv.take(k as int)).push(lv));
                assert(lines_view(sink.lines@) =~= lines_view(old(sink).lines@)
                    + spec_pipe_lines(proc_name@, from_stdout, cv.take(k + 1)));
            }
        }
        k += 1;
    }
    proof {
        assert(cv.take(chunks@.len() as int) =~= cv);
    }
}

} // verus!
