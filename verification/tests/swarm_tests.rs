use xtask::fstree::{DirTree, FsEntry};
use xtask::pathname::AbsPath;
use xtask::rename::{RenameRule, handle_minify_directory_renaming};
use xtask::pathname::RelPath;
use xtask::runner::{ShellArg, SpawnMode};
use xtask::swarm::{TransformJob, minify, plan_transform_jobs, run_swarm};

fn abs(parts: &[&str]) -> AbsPath {
    AbsPath {
        components: parts.iter().map(|p| p.as_bytes().to_vec()).collect(),
    }
}

fn exts(names: &[&str]) -> Vec<Vec<u8>> {
    names.iter().map(|e| e.as_bytes().to_vec()).collect()
}

fn job(name: &str) -> TransformJob {
    TransformJob { input: abs(&["in", name]), output: abs(&["out", name]) }
}

fn job_names(jobs: &[TransformJob]) -> Vec<Vec<u8>> {
    jobs.iter().map(|j| j.input.components.last().unwrap().clone()).collect()
}

#[test]
fn fifty_jobs_are_each_delivered_exactly_once() {
    let names: Vec<String> = (0..50).map(|i| format!("file{}.html", i)).collect();
    let jobs: Vec<TransformJob> = names.iter().map(|n| job(n)).collect();
    let ok = vec![true; 50];
    let report = run_swarm(jobs, ok, 4);

    assert_eq!(report.completed.len(), 4);
    assert!(report.failed.is_empty());
    let mut seen: Vec<Vec<u8>> = Vec::new();
    for worker in &report.completed {
        seen.extend(job_names(worker));
    }
    assert_eq!(seen.len(), 50);
    let mut expected: Vec<Vec<u8>> = names.iter().map(|n| n.as_bytes().to_vec()).collect();
    seen.sort();
    expected.sort();
    assert_eq!(seen, expected);
}

#[test]
fn a_failing_subset_is_reported_and_the_rest_completes() {
    let jobs: Vec<TransformJob> = (0..20).map(|i| job(&format!("f{}.css", i))).collect();
    // Every third transform fails.
    let ok: Vec<bool> = (0..20).map(|i| i % 3 != 0).collect();
    let report = run_swarm(jobs, ok, 3);

    let mut failed = job_names(&report.failed);
    let mut expected_failed: Vec<Vec<u8>> = (0..20)
        .filter(|i| i % 3 == 0)
        .map(|i| format!("f{}.css", i).into_bytes())
        .collect();
    failed.sort();
    expected_failed.sort();
    assert_eq!(failed, expected_failed);

    let mut done: Vec<Vec<u8>> = Vec::new();
    for worker in &report.completed {
        done.extend(job_names(worker));
    }
    let mut expected_done: Vec<Vec<u8>> = (0..20)
        .filter(|i| i % 3 != 0)
        .map(|i| format!("f{}.css", i).into_bytes())
        .collect();
    done.sort();
    expected_done.sort();
    assert_eq!(done, expected_done);
}

#[test]
fn one_worker_is_enough() {
    let jobs: Vec<TransformJob> = (0..5).map(|i| job(&format!("j{}.js", i))).collect();
    let ok = vec![true; 5];
    let report = run_swarm(jobs, ok, 1);
    assert_eq!(report.completed.len(), 1);
    assert_eq!(report.completed[0].len(), 5);
    assert!(report.failed.is_empty());
}

#[test]
fn jobs_are_planned_only_for_allow_listed_extensions() {
    let tree = DirTree {
        readable: true,
        entries: vec![
            FsEntry::File { name: b"page.html".to_vec() },
            FsEntry::File { name: b"style.css".to_vec() },
            FsEntry::File { name: b"raw.wasm".to_vec() },
            FsEntry::File { name: b"notes".to_vec() },
        ],
    };
    let plan = plan_transform_jobs(
        &tree,
        &abs(&["front"]),
        &abs(&["dist"]),
        &exts(&["html", "css", "js"]),
    )
    .unwrap();
    let names = job_names(&plan.jobs);
    assert_eq!(names, vec![b"page.html".to_vec(), b"style.css".to_vec()]);
    assert_eq!(plan.jobs[0].input.components, abs(&["front", "page.html"]).components);
    assert_eq!(plan.jobs[0].output.components, abs(&["dist", "page.html"]).components);
}

#[test]
fn minify_plans_the_rerouted_output_and_its_directory() {
    let rules = vec![RenameRule {
        source_prefix: abs(&["root", "front", "error_pages"]),
        destination_prefix: RelPath { components: vec![b".error_pages".to_vec()] },
    }];
    let input = abs(&["root", "front", "error_pages", "404.html"]);
    let naive = abs(&["build", "out", "error_pages", "404.html"]);
    let plan = minify(&input, &naive, &rules);

    let resolved = handle_minify_directory_renaming(&rules, &input, &naive);
    assert_eq!(resolved.components, abs(&["build", "out", ".error_pages", "404.html"]).components);

    assert_eq!(plan.command.program, "minhtml");
    assert!(matches!(plan.command.mode, SpawnMode::Piped));
    assert_eq!(plan.command.args.len(), 5);
    match (&plan.command.args[0], &plan.command.args[1], &plan.command.args[2]) {
        (ShellArg::Text(a), ShellArg::Text(b), ShellArg::Text(c)) => {
            assert_eq!(a, "--minify-css");
            assert_eq!(b, "--minify-js");
            assert_eq!(c, "-o");
        }
        _ => panic!("the first three arguments are flags"),
    }
    match (&plan.command.args[3], &plan.command.args[4]) {
        (ShellArg::PathArg(out), ShellArg::PathArg(inp)) => {
            assert_eq!(out.components, resolved.components);
            assert_eq!(inp.components, input.components);
        }
        _ => panic!("the last two arguments are paths"),
    }
    assert_eq!(
        plan.ensure_dir.unwrap().components,
        abs(&["build", "out", ".error_pages"]).components
    );
}
