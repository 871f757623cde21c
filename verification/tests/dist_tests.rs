use xtask::dist::{
    DistAction, DistConfig, build_web_distribution, build_web_distribution_dev,
    prepare_serve_web_distribution, prepare_serve_web_distribution_dev,
    serve_web_distribution, serve_web_distribution_dev, serve_web_distribution_by_path,
};
use xtask::pathname::AbsPath;
use xtask::runner::{ShellArg, SpawnMode};

fn abs(parts: &[&str]) -> AbsPath {
    AbsPath {
        components: parts.iter().map(|p| p.as_bytes().to_vec()).collect(),
    }
}

fn cfg() -> DistConfig {
    DistConfig { project_root: abs(&["home", "proj"]) }
}

fn text_of(a: &ShellArg) -> &str {
    match a {
        ShellArg::Text(s) => s.as_str(),
        ShellArg::PathArg(_) => panic!("expected a literal argument"),
    }
}

fn path_of(a: &ShellArg) -> &AbsPath {
    match a {
        ShellArg::PathArg(p) => p,
        ShellArg::Text(_) => panic!("expected a path argument"),
    }
}

#[test]
fn release_build_runs_the_stages_in_order() {
    let p = build_web_distribution(&cfg());
    assert_eq!(p.stages.len(), 7);
    assert_eq!(p.next, 0);
    assert!(!p.aborted);

    match &p.stages[0] {
        DistAction::Run(c) => {
            assert_eq!(c.program, "cargo");
            assert_eq!(text_of(&c.args[0]), "install");
            assert_eq!(text_of(&c.args[1]), "wasm-pack");
        }
        _ => panic!("stage one installs the packager"),
    }
    match &p.stages[1] {
        DistAction::EnsureDir(d) => {
            assert_eq!(d.components, abs(&["home", "proj", "target", "web-dist"]).components);
        }
        _ => panic!("stage two makes the output directory"),
    }
    match &p.stages[2] {
        DistAction::Run(c) => {
            assert_eq!(c.program, "wasm-pack");
            let flags: Vec<&str> = c.args[..6].iter().map(text_of).collect();
            assert_eq!(
                flags,
                vec!["--verbose", "build", "shards-browser", "--target", "web", "--out-dir"]
            );
            assert_eq!(
                path_of(&c.args[6]).components,
                abs(&["home", "proj", "target", "shards-browser-pkg"]).components
            );
            assert_eq!(c.env.len(), 1);
            assert_eq!(c.env[0].0, "RUSTFLAGS");
            assert_eq!(c.env[0].1, "-Ctarget-cpu=mvp");
        }
        _ => panic!("stage three runs the packager"),
    }
    match &p.stages[3] {
        DistAction::CopyFiltered { from, to, extensions, allow_listed } => {
            assert_eq!(
                from.components,
                abs(&["home", "proj", "target", "shards-browser-pkg"]).components
            );
            assert_eq!(to.components, abs(&["home", "proj", "target", "web-dist"]).components);
            assert_eq!(extensions, &vec![b"js".to_vec(), b"wasm".to_vec()]);
            assert!(*allow_listed);
        }
        _ => panic!("stage four copies the wasm artifacts"),
    }
    match &p.stages[4] {
        DistAction::Run(c) => {
            assert_eq!(text_of(&c.args[1]), "minhtml");
        }
        _ => panic!("stage five installs the minifier"),
    }
    match &p.stages[5] {
        DistAction::MinifySwarm { input, output, extensions, rules } => {
            assert_eq!(input.components, abs(&["home", "proj", "front-page"]).components);
            assert_eq!(output.components, abs(&["home", "proj", "target", "web-dist"]).components);
            assert_eq!(
                extensions,
                &vec![b"html".to_vec(), b"css".to_vec(), b"js".to_vec()]
            );
            assert_eq!(rules.len(), 1);
            assert_eq!(
                rules[0].source_prefix.components,
                abs(&["home", "proj", "front-page", "error_pages"]).components
            );
            assert_eq!(rules[0].destination_prefix.components, vec![b".error_pages".to_vec()]);
        }
        _ => panic!("stage six minifies the front page"),
    }
    match &p.stages[6] {
        DistAction::CopyFiltered { extensions, allow_listed, .. } => {
            assert_eq!(
                extensions,
                &vec![b"html".to_vec(), b"css".to_vec(), b"js".to_vec()]
            );
            assert!(!*allow_listed);
        }
        _ => panic!("stage seven copies the remaining assets"),
    }
}

#[test]
fn dev_build_copies_everything_instead_of_minifying() {
    let p = build_web_distribution_dev(&cfg());
    assert_eq!(p.stages.len(), 5);
    match &p.stages[2] {
        DistAction::Run(c) => {
            assert_eq!(text_of(&c.args[3]), "--dev");
            assert_eq!(
                path_of(&c.args[7]).components,
                abs(&["home", "proj", "target", "shards-browser-dev-pkg"]).components
            );
        }
        _ => panic!("the dev packager run carries the dev flag"),
    }
    match &p.stages[4] {
        DistAction::CopyFiltered { from, to, extensions, allow_listed } => {
            assert_eq!(from.components, abs(&["home", "proj", "front-page"]).components);
            assert_eq!(
                to.components,
                abs(&["home", "proj", "target", "web-dist-dev"]).components
            );
            assert!(extensions.is_empty());
            assert!(!*allow_listed);
        }
        _ => panic!("the dev build ends by copying the whole front page"),
    }
}

#[test]
fn prepare_appends_the_server_install() {
    let p = prepare_serve_web_distribution(&cfg());
    assert_eq!(p.stages.len(), 8);
    match &p.stages[7] {
        DistAction::Run(c) => {
            assert_eq!(text_of(&c.args[1]), "simple-http-server");
        }
        _ => panic!("prepare ends by installing the file server"),
    }
    let pd = prepare_serve_web_distribution_dev(&cfg());
    assert_eq!(pd.stages.len(), 6);
}

#[test]
fn serve_ends_with_the_transparent_server() {
    let p = serve_web_distribution(&cfg());
    assert_eq!(p.stages.len(), 9);
    match &p.stages[8] {
        DistAction::Serve(c) => {
            assert_eq!(c.program, "simple-http-server");
            assert!(matches!(c.mode, SpawnMode::Transparent));
        }
        _ => panic!("serve ends with the server"),
    }
    let pd = serve_web_distribution_dev(&cfg());
    assert_eq!(pd.stages.len(), 7);
}

#[test]
fn the_server_command_pins_address_and_port() {
    let c = serve_web_distribution_by_path(&abs(&["build", "web-dist"]));
    assert_eq!(c.program, "simple-http-server");
    let flags: Vec<&str> = c.args[..6].iter().map(text_of).collect();
    assert_eq!(flags, vec!["--nocache", "-i", "-p", "8080", "--ip", "127.0.0.1"]);
    assert_eq!(path_of(&c.args[6]).components, abs(&["build", "web-dist"]).components);
    assert!(matches!(c.mode, SpawnMode::Transparent));
}

#[test]
fn a_failed_stage_aborts_the_whole_pipeline() {
    let mut p = build_web_distribution(&cfg());
    assert!(p.current().is_some());
    p.advance(true);
    assert!(p.current().is_some());
    p.advance(false);
    assert!(p.aborted);
    assert!(p.current().is_none());
}

#[test]
fn a_pipeline_runs_to_completion_on_success() {
    let mut p = build_web_distribution_dev(&cfg());
    let mut steps = 0;
    while p.current().is_some() {
        p.advance(true);
        steps += 1;
    }
    assert_eq!(steps, 5);
    assert!(!p.aborted);
}
