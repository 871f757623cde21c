//! The distribution orchestrator: each build or serve task is a pipeline of
//! stages — run a tool, make a directory, copy a filtered tree, minify a
//! tree through the swarm, serve the result — executed strictly in order.
//! The host performs one stage at a time and reports its outcome; a failed
//! stage aborts the pipeline, and an aborted pipeline never hands out
//! another stage.

use vstd::prelude::*;

use crate::pathname::{AbsPath, RelPath, bytes_view, lemma_bytes_view_push};
use crate::rename::{RenameRule, rules_view};
use crate::runner::{
    ArgView, CommandSpec, ShellArg, SpawnMode, arg_view, args_view, env_view,
    lemma_args_view_push,
};

verus! {

/// The explicit configuration the orchestrator works from: the project
/// root, fixed at process start. Every other path is derived from it.
pub struct DistConfig {
    pub project_root: AbsPath,
}

/// One pipeline stage, as handed to the host for execution.
pub enum DistAction {
    /// Run a command with piped output; a failed exit status fails the stage.
    Run(CommandSpec),
    /// Make the directory (and its ancestors) exist.
    EnsureDir(AbsPath),
    /// Copy the tree under `from` into `to`, filtered by extension.
    CopyFiltered { from: AbsPath, to: AbsPath, extensions: Vec<Vec<u8>>, allow_listed: bool },
    /// Run the transform swarm over the tree under `input`, minifying every
    /// allow-listed file into `output`, rerouted through `rules`.
    MinifySwarm { input: AbsPath, output: AbsPath, extensions: Vec<Vec<u8>>, rules: Vec<
        RenameRule,
    > },
    /// Run a command with inherited output streams, blocking until it exits.
    Serve(CommandSpec),
}

/// The view of one stage, over the views of everything it carries.
pub enum StageView {
    RunV { program: Seq<char>, args: Seq<ArgView>, env: Seq<(Seq<char>, Seq<char>)> },
    EnsureDirV { dir: Seq<Seq<u8>> },
    CopyFilteredV {
        from: Seq<Seq<u8>>,
        to: Seq<Seq<u8>>,
        extensions: Seq<Seq<u8>>,
        allow_listed: bool,
    },
    MinifySwarmV {
        input: Seq<Seq<u8>>,
        output: Seq<Seq<u8>>,
        extensions: Seq<Seq<u8>>,
        rules: Seq<(Seq<Seq<u8>>, Seq<Seq<u8>>)>,
    },
    ServeV { program: Seq<char>, args: Seq<ArgView>, env: Seq<(Seq<char>, Seq<char>)> },
}

pub open spec fn action_view(a: DistAction) -> StageView {
    match a {
        DistAction::Run(c) => StageView::RunV {
            program: c.program@,
            args: args_view(c.args@),
            env: env_view(c.env@),
        },
        DistAction::EnsureDir(d) => StageView::EnsureDirV { dir: d@ },
        DistAction::CopyFiltered { from, to, extensions, allow_listed } => (
        StageView::CopyFilteredV {
            from: from@,
            to: to@,
            extensions: bytes_view(extensions@),
            allow_listed,
        }),
        DistAction::MinifySwarm { input, output, extensions, rules } => (StageView::MinifySwarmV {
            input: input@,
            output: output@,
            extensions: bytes_view(extensions@),
            rules: rules_view(rules@),
        }),
        DistAction::Serve(c) => StageView::ServeV {
            program: c.program@,
            args: args_view(c.args@),
            env: env_view(c.env@),
        },
    }
}

pub open spec fn stages_view(s: Seq<DistAction>) -> Seq<StageView> {
    s.map_values(|a: DistAction| action_view(a))
}

// ---------- the fixed names of the distribution layout ----------

/// A fixed name, as the bytes of its text.
pub open spec fn nm(s: Seq<char>) -> Seq<u8> {
    vstd::utf8::encode_utf8(s)
}

pub open spec fn spec_build_path(root: Seq<Seq<u8>>) -> Seq<Seq<u8>> {
    root.push(nm("target"@))
}

pub open spec fn spec_web_dist_path(root: Seq<Seq<u8>>, release: bool) -> Seq<Seq<u8>> {
    if release {
        spec_build_path(root).push(nm("web-dist"@))
    } else {
        spec_build_path(root).push(nm("web-dist-dev"@))
    }
}

pub open spec fn spec_wasm_pkg_path(root: Seq<Seq<u8>>, release: bool) -> Seq<Seq<u8>> {
    if release {
        spec_build_path(root).push(nm("shards-browser-pkg"@))
    } else {
        spec_build_path(root).push(nm("shards-browser-dev-pkg"@))
    }
}

pub open spec fn spec_front_page_path(root: Seq<Seq<u8>>) -> Seq<Seq<u8>> {
    root.push(nm("front-page"@))
}

/// The extensions the minify stage rewrites.
pub open spec fn spec_minify_extensions() -> Seq<Seq<u8>> {
    seq![nm("html"@), nm("css"@), nm("js"@)]
}

/// The one rename rule: the error pages land under a hidden name.
pub open spec fn spec_minify_renaming(root: Seq<Seq<u8>>) -> Seq<(Seq<Seq<u8>>, Seq<Seq<u8>>)> {
    seq![(spec_front_page_path(root).push(nm("error_pages"@)), seq![nm(".error_pages"@)])]
}

// ---------- the stage lists of the tasks ----------

pub open spec fn spec_cargo_install(tool: Seq<char>) -> StageView {
    StageView::RunV {
        program: "cargo"@,
        args: seq![ArgView::TextView("install"@), ArgView::TextView(tool)],
        env: Seq::empty(),
    }
}

pub open spec fn spec_wasm_pack_args(pkg: Seq<Seq<u8>>, release: bool) -> Seq<ArgView> {
    if release {
        seq![
            ArgView::TextView("--verbose"@),
            ArgView::TextView("build"@),
            ArgView::TextView("shards-browser"@),
            ArgView::TextView("--target"@),
            ArgView::TextView("web"@),
            ArgView::TextView("--out-dir"@),
            ArgView::PathView(pkg),
        ]
    } else {
        seq![
            ArgView::TextView("--verbose"@),
            ArgView::TextView("build"@),
            ArgView::TextView("shards-browser"@),
            ArgView::TextView("--dev"@),
            ArgView::TextView("--target"@),
            ArgView::TextView("web"@),
            ArgView::TextView("--out-dir"@),
            ArgView::PathView(pkg),
        ]
    }
}

pub open spec fn spec_wasm_pack_stage(pkg: Seq<Seq<u8>>, release: bool) -> StageView {
    StageView::RunV {
        program: "wasm-pack"@,
        args: spec_wasm_pack_args(pkg, release),
        env: seq![("RUSTFLAGS"@, "-Ctarget-cpu=mvp"@)],
    }
}

pub open spec fn spec_serve_args(web_dist: Seq<Seq<u8>>) -> Seq<ArgView> {
    seq![
        ArgView::TextView("--nocache"@),
        ArgView::TextView("-i"@),
        ArgView::TextView("-p"@),
        ArgView::TextView("8080"@),
        ArgView::TextView("--ip"@),
        ArgView::TextView("127.0.0.1"@),
        ArgView::PathView(web_dist),
    ]
}

/// The stages of a build task: install the packager, make the output
/// directory, run the packager, copy the wasm artifacts, then — in release
/// mode — install the minifier, minify the markup and styles, and copy the
/// remaining assets; in dev mode, copy the whole front page.
pub open spec fn spec_build_stages(root: Seq<Seq<u8>>, release: bool) -> Seq<StageView> {
    let web_dist = spec_web_dist_path(root, release);
    let wasm_pkg = spec_wasm_pkg_path(root, release);
    let front_page = spec_front_page_path(root);
    let head = seq![
        spec_cargo_install("wasm-pack"@),
        StageView::EnsureDirV { dir: web_dist },
        spec_wasm_pack_stage(wasm_pkg, release),
        StageView::CopyFilteredV {
            from: wasm_pkg,
            to: web_dist,
            extensions: seq![nm("js"@), nm("wasm"@)],
            allow_listed: true,
        },
    ];
    if release {
        head + seq![
            spec_cargo_install("minhtml"@),
            StageView::MinifySwarmV {
                input: front_page,
                output: web_dist,
                extensions: spec_minify_extensions(),
                rules: spec_minify_renaming(root),
            },
            StageView::CopyFilteredV {
                from: front_page,
                to: web_dist,
                extensions: spec_minify_extensions(),
                allow_listed: false,
            },
        ]
    } else {
        head + seq![
            StageView::CopyFilteredV {
                from: front_page,
                to: web_dist,
                extensions: Seq::empty(),
                allow_listed: false,
            },
        ]
    }
}

/// A prepare task: build, then install the file server.
pub open spec fn spec_prepare_stages(root: Seq<Seq<u8>>, release: bool) -> Seq<StageView> {
    spec_build_stages(root, release) + seq![spec_cargo_install("simple-http-server"@)]
}

/// A serve task: prepare, then serve the output directory.
pub open spec fn spec_serve_stages(root: Seq<Seq<u8>>, release: bool) -> Seq<StageView> {
    spec_prepare_stages(root, release) + seq![
        StageView::ServeV {
            program: "simple-http-server"@,
            args: spec_serve_args(spec_web_dist_path(root, release)),
            env: Seq::empty(),
        },
    ]
}

// ---------- the pipeline ----------

/// A task as a sequence of stages with a cursor: stages run strictly in
/// order, and a failed stage aborts the whole run.
pub struct DistPipeline {
    pub stages: Vec<DistAction>,
    pub next: usize,
    pub aborted: bool,
}

impl DistPipeline {
    pub open spec fn wf(&self) -> bool {
        self.next <= self.stages@.len()
    }

    /// The stage the host must run next, if any.
    pub open spec fn spec_current(&self) -> Option<DistAction> {
        if self.aborted || self.next >= self.stages@.len() {
            None
        } else {
            Some(self.stages@[self.next as int])
        }
    }

    /// The stage the host must run next; `None` once the pipeline has
    /// finished or aborted.
    pub fn current(&self) -> (r: Option<&DistAction>)
        ensures
            match r {
                Some(a) => self.spec_current() == Some(*a),
                None => self.spec_current() is None,
            },
    {
        if self.aborted || self.next >= self.stages.len() {
            None
        } else {
            Some(&self.stages[self.next])
        }
    }

    /// Record the outcome of the current stage: success moves on to the
    /// following stage; failure aborts, and no later stage is ever reached.
    pub fn advance(&mut self, succeeded: bool)
        requires
            !old(self).aborted,
            old(self).next < old(self).stages@.len(),
        ensures
            final(self).stages == old(self).stages,
            succeeded ==> !final(self).aborted && final(self).next == old(self).next + 1,
            !succeeded ==> final(self).aborted && final(self).next == old(self).next
                && final(self).spec_current() is None,
    {
        if succeeded {
            let n = self.stages.len();
            proof {
                assert(self.next < n);
            }
            self.next = self.next + 1;
        } else {
            self.aborted = true;
        }
    }
}

/// An aborted pipeline hands out no further stage: the orchestrator never
/// proceeds to a later stage once an earlier one has failed.
pub proof fn lemma_aborted_pipeline_stops(p: DistPipeline)
    requires
        p.aborted,
    ensures
        p.spec_current() is None,
{
}

// ---------- building the concrete pipelines ----------

fn text_arg(s: &str) -> (r: ShellArg)
    ensures
        arg_view(r) == ArgView::TextView(s@),
{
    ShellArg::Text(s.to_owned())
}

fn name_of(s: &str) -> (r: Vec<u8>)
    ensures
        r@ == nm(s@),
{
    vstd::slice::slice_to_vec(s.as_bytes())
}

fn cargo_install(tool: &str) -> (c: CommandSpec)
    ensures
        action_view(DistAction::Run(c)) == spec_cargo_install(tool@),
{
    let mut args: Vec<ShellArg> = Vec::new();
    let a0 = text_arg("install");
    let a1 = text_arg(tool);
    proof {
        lemma_args_view_push(args@, a0);
    }
    args.push(a0);
    proof {
        lemma_args_view_push(args@, a1);
    }
    args.push(a1);
    let c = CommandSpec {
        program: "cargo".to_owned(),
        args,
        env: Vec::new(),
        mode: SpawnMode::Piped,
    };
    proof {
        assert(args_view(c.args@) =~= seq![
            ArgView::TextView("install"@),
            ArgView::TextView(tool@),
        ]);
        assert(env_view(c.env@) =~= Seq::<(Seq<char>, Seq<char>)>::empty());
    }
    c
}

fn wasm_pack_command(wasm_pkg: AbsPath, release: bool) -> (c: CommandSpec)
    ensures
        action_view(DistAction::Run(c)) == spec_wasm_pack_stage(wasm_pkg@, release),
{
    let ghost pkg = wasm_pkg@;
    let mut args: Vec<ShellArg> = Vec::new();
    let a0 = text_arg("--verbose");
    proof {
        lemma_args_view_push(args@, a0);
    }
    args.push(a0);
    let a1 = text_arg("build");
    proof {
        lemma_args_view_push(args@, a1);
    }
    args.push(a1);
    let a2 = text_arg("shards-browser");
    proof {
        lemma_args_view_push(args@, a2);
    }
    args.push(a2);
    if !release {
        let ad = text_arg("--dev");
        proof {
            lemma_args_view_push(args@, ad);
        }
        args.push(ad);
    }
    let a3 = text_arg("--target");
    proof {
        lemma_args_view_push(args@, a3);
    }
    args.push(a3);
    let a4 = text_arg("web");
    proof {
        lemma_args_view_push(args@, a4);
    }
    args.push(a4);
    let a5 = text_arg("--out-dir");
    proof {
        lemma_args_view_push(args@, a5);
    }
    args.push(a5);
    let a6 = ShellArg::PathArg(wasm_pkg);
    proof {
        lemma_args_view_push(args@, a6);
    }
    args.push(a6);
    let mut env: Vec<(String, String)> = Vec::new();
    env.push(("RUSTFLAGS".to_owned(), "-Ctarget-cpu=mvp".to_owned()));
    let c = CommandSpec { program: "wasm-pack".to_owned(), args, env, mode: SpawnMode::Piped };
    proof {
        assert(args_view(c.args@) =~= spec_wasm_pack_args(pkg, release));
        assert(env_view(c.env@) =~= seq![("RUSTFLAGS"@, "-Ctarget-cpu=mvp"@)]);
    }
    c
}

/// The transparent file-server invocation for one output directory.
pub fn serve_web_distribution_by_path(web_dist_path: &AbsPath) -> (c: CommandSpec)
    ensures
        c.program@ == "simple-http-server"@,
        args_view(c.args@) == spec_serve_args(web_dist_path@),
        env_view(c.env@) == Seq::<(Seq<char>, Seq<char>)>::empty(),
        c.mode == SpawnMode::Transparent,
{
    let mut args: Vec<ShellArg> = Vec::new();
    let a0 = text_arg("--nocache");
    proof {
        lemma_args_view_push(args@, a0);
    }
    args.push(a0);
    let a1 = text_arg("-i");
    proof {
        lemma_args_view_push(args@, a1);
    }
    args.push(a1);
    let a2 = text_arg("-p");
    proof {
        lemma_args_view_push(args@, a2);
    }
    args.push(a2);
    let a3 = text_arg("8080");
    proof {
        lemma_args_view_push(args@, a3);
    }
    args.push(a3);
    let a4 = text_arg("--ip");
    proof {
        lemma_args_view_push(args@, a4);
    }
    args.push(a4);
    let a5 = text_arg("127.0.0.1");
    proof {
        lemma_args_view_push(args@, a5);
    }
    args.push(a5);
    let a6 = ShellArg::PathArg(web_dist_path.duplicate());
    proof {
        lemma_args_view_push(args@, a6);
    }
    args.push(a6);
    let c = CommandSpec {
        program: "simple-http-server".to_owned(),
        args,
        env: Vec::new(),
        mode: SpawnMode::Transparent,
    };
    proof {
        assert(args_view(c.args@) =~= spec_serve_args(web_dist_path@));
        assert(env_view(c.env@) =~= Seq::<(Seq<char>, Seq<char>)>::empty());
    }
    c
}

impl DistConfig {
    fn build_path(&self) -> (r: AbsPath)
        ensures
            r@ == spec_build_path(self.project_root@),
    {
        self.project_root.join_name(&name_of("target"))
    }

    fn web_dist_path(&self, release: bool) -> (r: AbsPath)
        ensures
            r@ == spec_web_dist_path(self.project_root@, release),
    {
        if release {
            self.build_path().join_name(&name_of("web-dist"))
        } else {
            self.build_path().join_name(&name_of("web-dist-dev"))
        }
    }

    fn wasm_pkg_path(&self, release: bool) -> (r: AbsPath)
        ensures
            r@ == spec_wasm_pkg_path(self.project_root@, release),
    {
        if release {
            self.build_path().join_name(&name_of("shards-browser-pkg"))
        } else {
            self.build_path().join_name(&name_of("shards-browser-dev-pkg"))
        }
    }

    fn front_page_path(&self) -> (r: AbsPath)
        ensures
            r@ == spec_front_page_path(self.project_root@),
    {
        self.project_root.join_name(&name_of("front-page"))
    }
}

/// The extensions the minify stage rewrites, as the pipeline carries them.
pub fn minify_extensions() -> (r: Vec<Vec<u8>>)
    ensures
        bytes_view(r@) == spec_minify_extensions(),
{
    let mut r: Vec<Vec<u8>> = Vec::new();
    let e0 = name_of("html");
    proof {
        lemma_bytes_view_push(r@, e0);
    }
    r.push(e0);
    let e1 = name_of("css");
    proof {
        lemma_bytes_view_push(r@, e1);
    }
    r.push(e1);
    let e2 = name_of("js");
    proof {
        lemma_bytes_view_push(r@, e2);
    }
    r.push(e2);
    proof {
        assert(bytes_view(r@) =~= spec_minify_extensions());
    }
    r
}

/// The rename rules the minify stage applies.
pub fn minify_dir_renaming(cfg: &DistConfig) -> (r: Vec<RenameRule>)
    ensures
        rules_view(r@) == spec_minify_renaming(cfg.project_root@),
{
    let source = cfg.front_page_path().join_name(&name_of("error_pages"));
    let mut dest_components: Vec<Vec<u8>> = Vec::new();
    let hidden = name_of(".error_pages");
    proof {
        lemma_bytes_view_push(dest_components@, hidden);
    }
    dest_components.push(hidden);
    let rule = RenameRule {
        source_prefix: source,
        destination_prefix: RelPath { components: dest_components },
    };
    let mut r: Vec<RenameRule> = Vec::new();
    r.push(rule);
    proof {
        assert(rule.destination_prefix@ =~= seq![nm(".error_pages"@)]);
        assert(rules_view(r@) =~= spec_minify_renaming(cfg.project_root@));
    }
    r
}

fn build_web_distribution_by_path(cfg: &DistConfig, release: bool) -> (p: DistPipeline)
    ensures
        p.next == 0,
        !p.aborted,
        stages_view(p.stages@) == spec_build_stages(cfg.project_root@, release),
{
    let ghost root = cfg.project_root@;
    let web_dist = cfg.web_dist_path(release);
    let wasm_pkg = cfg.wasm_pkg_path(release);
    let front_page = cfg.front_page_path();
    let mut stages: Vec<DistAction> = Vec::new();

    let s0 = DistAction::Run(cargo_install("wasm-pack"));
    proof {
        lemma_stages_view_push(stages@, s0);
    }
    stages.push(s0);

    let s1 = DistAction::EnsureDir(web_dist.duplicate());
    proof {
        lemma_stages_view_push(stages@, s1);
    }
    stages.push(s1);

    let s2 = DistAction::Run(wasm_pack_command(wasm_pkg.duplicate(), release));
    proof {
        lemma_stages_view_push(stages@, s2);
    }
    stages.push(s2);

    let mut wasm_exts: Vec<Vec<u8>> = Vec::new();
    let x0 = name_of("js");
    proof {
        lemma_bytes_view_push(wasm_exts@, x0);
    }
    wasm_exts.push(x0);
    let x1 = name_of("wasm");
    proof {
        lemma_bytes_view_push(wasm_exts@, x1);
    }
    wasm_exts.push(x1);
    proof {
        assert(bytes_view(wasm_exts@) =~= seq![nm("js"@), nm("wasm"@)]);
    }
    let s3 = DistAction::CopyFiltered {
        from: wasm_pkg,
        to: web_dist.duplicate(),
        extensions: wasm_exts,
        allow_listed: true,
    };
    proof {
        lemma_stages_view_push(stages@, s3);
    }
    stages.push(s3);

    if release {
        let s4 = DistAction::Run(cargo_install("minhtml"));
        proof {
            lemma_stages_view_push(stages@, s4);
        }
        stages.push(s4);

        let s5 = DistAction::MinifySwarm {
            input: front_page.duplicate(),
            output: web_dist.duplicate(),
            extensions: minify_extensions(),
            rules: minify_dir_renaming(cfg),
        };
        proof {
            lemma_stages_view_push(stages@, s5);
        }
        stages.push(s5);

        let s6 = DistAction::CopyFiltered {
            from: front_page,
            to: web_dist,
            extensions: minify_extensions(),
            allow_listed: false,
        };
        proof {
            lemma_stages_view_push(stages@, s6);
        }
        stages.push(s6);
        proof {
            assert(stages_view(stages@) =~= spec_build_stages(root, release));
        }
    } else {
        let s4 = DistAction::CopyFiltered {
            from: front_page,
            to: web_dist,
            extensions: Vec::new(),
            allow_listed: false,
        };
        proof {
            lemma_stages_view_push(stages@, s4);
        }
        stages.push(s4);
        proof {
            assert(bytes_view(Seq::<Vec<u8>>::empty()) =~= Seq::<Seq<u8>>::empty());
            assert(stages_view(stages@) =~= spec_build_stages(root, release));
        }
    }
    DistPipeline { stages, next: 0, aborted: false }
}

proof fn lemma_stages_view_push(s: Seq<DistAction>, a: DistAction)
    ensures
        stages_view(s.push(a)) =~= stages_view(s).push(action_view(a)),
{
    assert forall|k: int| 0 <= k < s.len() + 1 implies stages_view(s.push(a))[k] == stages_view(
        s,
    ).push(action_view(a))[k] by {
        if k < s.len() {
            assert(s.push(a)[k] == s[k]);
        } else {
            assert(s.push(a)[k] == a);
        }
    }
}

/// The release web build: package the browser application, copy its
/// artifacts, minify the front page, copy the remaining assets.
pub fn build_web_distribution(cfg: &DistConfig) -> (p: DistPipeline)
    ensures
        p.next == 0,
        !p.aborted,
        stages_view(p.stages@) == spec_build_stages(cfg.project_root@, true),
{
    build_web_distribution_by_path(cfg, true)
}

/// The dev web build: the same pipeline without minification; the whole
/// front page is copied as it is.
pub fn build_web_distribution_dev(cfg: &DistConfig) -> (p: DistPipeline)
    ensures
        p.next == 0,
        !p.aborted,
        stages_view(p.stages@) == spec_build_stages(cfg.project_root@, false),
{
    build_web_distribution_by_path(cfg, false)
}

fn prepare_serve_by_path(cfg: &DistConfig, release: bool) -> (p: DistPipeline)
    ensures
        p.next == 0,
        !p.aborted,
        stages_view(p.stages@) == spec_prepare_stages(cfg.project_root@, release),
{
    let mut p = build_web_distribution_by_path(cfg, release);
    let ghost before = p.stages@;
    let s = DistAction::Run(cargo_install("simple-http-server"));
    proof {
        lemma_stages_view_push(before, s);
    }
    p.stages.push(s);
    proof {
        assert(stages_view(p.stages@) =~= spec_prepare_stages(cfg.project_root@, release));
    }
    p
}

fn serve_by_path(cfg: &DistConfig, release: bool) -> (p: DistPipeline)
    ensures
        p.next == 0,
        !p.aborted,
        stages_view(p.stages@) == spec_serve_stages(cfg.project_root@, release),
{
    let mut p = prepare_serve_by_path(cfg, release);
    let ghost before = p.stages@;
    let web_dist = cfg.web_dist_path(release);
    let s = DistAction::Serve(serve_web_distribution_by_path(&web_dist));
    proof {
        lemma_stages_view_push(before, s);
    }
    p.stages.push(s);
    proof {
        assert(stages_view(p.stages@) =~= spec_serve_stages(cfg.project_root@, release));
    }
    p
}

/// The release build followed by installing the file server.
pub fn prepare_serve_web_distribution(cfg: &DistConfig) -> (p: DistPipeline)
    ensures
        p.next == 0,
        !p.aborted,
        stages_view(p.stages@) == spec_prepare_stages(cfg.project_root@, true),
{
    prepare_serve_by_path(cfg, true)
}

/// The dev build followed by installing the file server.
pub fn prepare_serve_web_distribution_dev(cfg: &DistConfig) -> (p: DistPipeline)
    ensures
        p.next == 0,
        !p.aborted,
        stages_view(p.stages@) == spec_prepare_stages(cfg.project_root@, false),
{
    prepare_serve_by_path(cfg, false)
}

/// Build, prepare, and serve the release distribution.
pub fn serve_web_distribution(cfg: &DistConfig) -> (p: DistPipeline)
    ensures
        p.next == 0,
        !p.aborted,
        stages_view(p.stages@) == spec_serve_stages(cfg.project_root@, true),
{
    serve_by_path(cfg, true)
}

/// Build, prepare, and serve the dev distribution.
pub fn serve_web_distribution_dev(cfg: &DistConfig) -> (p: DistPipeline)
    ensures
        p.next == 0,
        !p.aborted,
        stages_view(p.stages@) == spec_serve_stages(cfg.project_root@, false),
{
    serve_by_path(cfg, false)
}

} // verus!
