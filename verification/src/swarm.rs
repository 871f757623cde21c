//! The transform swarm: a fixed set of workers, each owning one bounded
//! queue of capacity one. A producer walks the input tree, builds one job
//! per file whose extension is allow-listed, and delivers it by probing
//! each queue in turn; when all queues are full it lets a worker finish
//! first and retries, so a job is delayed but never dropped. A failing
//! transform is recorded and does not stop the swarm. Delivery is proved
//! exact: every job reaches a worker exactly once, with its outcome.

use vstd::prelude::*;

use vstd::multiset::Multiset;
use vstd::pervasive::VecAdditionalExecFns;

use crate::fstree::{DirTree, spec_walk, spec_walk_issues};
use crate::pathname::{AbsPath, DistributionPath, bytes_view, spec_contains_any_extension};
use crate::rename::{RenameRule, rules_view, spec_resolve};
use crate::runner::{ArgView, CommandSpec, ShellArg, SpawnMode, args_view};
use crate::walker::{WalkError, WalkIssue, issues_view, paths_view, walk};

verus! {

broadcast use {vstd::multiset::group_multiset_axioms, vstd::seq_lib::group_to_multiset_ensures};

/// One unit of transform work: read `input`, write the transformed bytes
/// to `output`. Owned by exactly one worker from acceptance to completion.
pub struct TransformJob {
    pub input: AbsPath,
    pub output: AbsPath,
}

pub open spec fn jobs_view(s: Seq<TransformJob>) -> Seq<(Seq<Seq<u8>>, Seq<Seq<u8>>)> {
    s.map_values(|j: TransformJob| (j.input@, j.output@))
}

/// The jobs the producer builds for the visited files `ps`, in visit order:
/// one per file whose extension is allow-listed, joining its relative path
/// onto both roots.
pub open spec fn spec_transform_jobs(
    ps: Seq<Seq<Seq<u8>>>,
    input_root: Seq<Seq<u8>>,
    output_root: Seq<Seq<u8>>,
    exts: Seq<Seq<u8>>,
) -> Seq<(Seq<Seq<u8>>, Seq<Seq<u8>>)>
    decreases ps.len(),
{
    if ps.len() == 0 {
        Seq::empty()
    } else {
        (if spec_contains_any_extension(ps[0], exts) {
            seq![(input_root + ps[0], output_root + ps[0])]
        } else {
            Seq::empty()
        }) + spec_transform_jobs(ps.drop_first(), input_root, output_root, exts)
    }
}

/// A planned swarm run: the jobs to hand to the workers, and the entries
/// the traversal had to skip.
pub struct TransformPlan {
    pub jobs: Vec<TransformJob>,
    pub issues: Vec<WalkIssue>,
}

/// Walk the tree under `input_root` and build one job per file whose
/// extension is in `extensions` — and for no other file. Only an unreadable
/// root fails.
pub fn plan_transform_jobs(
    tree: &DirTree,
    input_root: &AbsPath,
    output_root: &AbsPath,
    extensions: &Vec<Vec<u8>>,
) -> (r: Result<TransformPlan, WalkError>)
    ensures
        r is Ok <==> tree.readable,
        (r matches Ok(plan) ==> jobs_view(plan.jobs@) == spec_transform_jobs(
            spec_walk(*tree),
            input_root@,
            output_root@,
            bytes_view(extensions@),
        ) && issues_view(plan.issues@) == spec_walk_issues(*tree)),
{
    let report = walk(tree)?;
    let ghost pv = paths_view(report.files@);
    let ghost ev = bytes_view(extensions@);
    let mut jobs: Vec<TransformJob> = Vec::new();
    let mut k: usize = 0;
    proof {
        assert(pv.skip(0) =~= pv);
        assert(jobs_view(jobs@) =~= Seq::<(Seq<Seq<u8>>, Seq<Seq<u8>>)>::empty());
    }
    while k < report.files.len()
        invariant
            k <= report.files@.len(),
            pv == paths_view(report.files@),
            ev == bytes_view(extensions@),
            jobs_view(jobs@) + spec_transform_jobs(
                pv.skip(k as int),
                input_root@,
                output_root@,
                ev,
            ) == spec_transform_jobs(pv, input_root@, output_root@, ev),
        decreases report.files@.len() - k,
    {
        proof {
            assert(pv.skip(k as int)[0] == pv[k as int]);
            assert(pv.skip(k as int).drop_first() =~= pv.skip(k + 1));
            assert(pv[k as int] == report.files@[k as int]@);
        }
        let f = &report.files[k];
        if f.contains_any_extension(extensions) {
            let job = TransformJob { input: input_root.join(f), output: output_root.join(f) };
            let ghost jv = (job.input@, job.output@);
            let ghost jobs_before = jobs@;
            jobs.push(job);
            proof {
                assert forall|j: int| 0 <= j < jobs_before.len() + 1 implies jobs_view(jobs@)[j]
                    == jobs_view(jobs_before).push(jv)[j] by {
                    if j < jobs_before.len() {
                        assert(jobs@[j] == jobs_before[j]);
                    } else {
                        assert(jobs@[j] == jobs@[jobs_before.len() as int]);
                    }
                }
                assert(jobs_view(jobs@) =~= jobs_view(jobs_before).push(jv));
                assert(jobs_view(jobs@) + spec_transform_jobs(
                    pv.skip(k + 1),
                    input_root@,
                    output_root@,
                    ev,
                ) =~= spec_transform_jobs(pv, input_root@, output_root@, ev));
            }
        } else {
            proof {
                assert(Seq::<(Seq<Seq<u8>>, Seq<Seq<u8>>)>::empty() + spec_transform_jobs(
                    pv.skip(k + 1),
                    input_root@,
                    output_root@,
                    ev,
                ) =~= spec_transform_jobs(pv.skip(k as int), input_root@, output_root@, ev));
            }
        }
        k += 1;
    }
    proof {
        assert(pv.skip(report.files@.len() as int) =~= Seq::<Seq<Seq<u8>>>::empty());
        assert(jobs_view(jobs@) + Seq::<(Seq<Seq<u8>>, Seq<Seq<u8>>)>::empty() =~= jobs_view(
            jobs@,
        ));
    }
    Ok(TransformPlan { jobs, issues: report.issues })
}

// ---------- one minify invocation ----------

/// What one transform invocation must do: create the output's directory
/// first, then run the minifier.
pub struct MinifyPlan {
    pub ensure_dir: Option<AbsPath>,
    pub command: CommandSpec,
}

/// The minifier's argument list for one input and its resolved output.
pub open spec fn spec_minify_args(input: Seq<Seq<u8>>, resolved: Seq<Seq<u8>>) -> Seq<ArgView> {
    seq![
        ArgView::TextView("--minify-css"@),
        ArgView::TextView("--minify-js"@),
        ArgView::TextView("-o"@),
        ArgView::PathView(resolved),
        ArgView::PathView(input),
    ]
}

/// Plan one minify run: reroute the output path through the rename rules,
/// make sure its directory will exist, and invoke the minifier on the input
/// with the rerouted output.
pub fn minify(full_input: &AbsPath, full_output: &AbsPath, rules: &Vec<RenameRule>) -> (r:
    MinifyPlan)
    ensures
        ({
            let resolved = spec_resolve(rules_view(rules@), full_input@, full_output@);
            &&& r.command.program@ == "minhtml"@
            &&& args_view(r.command.args@) == spec_minify_args(full_input@, resolved)
            &&& r.command.env@.len() == 0
            &&& r.command.mode == SpawnMode::Piped
            &&& (resolved.len() >= 1 ==> (r.ensure_dir matches Some(d) && d@
                == resolved.drop_last()))
            &&& (resolved.len() == 0 ==> r.ensure_dir is None)
        }),
{
    let resolved = crate::rename::handle_minify_directory_renaming(rules, full_input, full_output);
    let ensure_dir = resolved.parent();
    let mut args: Vec<ShellArg> = Vec::new();
    args.push(ShellArg::Text("--minify-css".to_owned()));
    args.push(ShellArg::Text("--minify-js".to_owned()));
    args.push(ShellArg::Text("-o".to_owned()));
    let in_copy = full_input.duplicate();
    args.push(ShellArg::PathArg(resolved));
    args.push(ShellArg::PathArg(in_copy));
    let command = CommandSpec {
        program: "minhtml".to_owned(),
        args,
        env: Vec::new(),
        mode: SpawnMode::Piped,
    };
    proof {
        assert(args_view(command.args@) =~= spec_minify_args(
            full_input@,
            spec_resolve(rules_view(rules@), full_input@, full_output@),
        ));
    }
    MinifyPlan { ensure_dir, command }
}

// ---------- the worker pool ----------

/// The jobs a worker list has completed, tagged with their outcome.
pub open spec fn job_pairs(s: Seq<TransformJob>, outcome: bool) -> Multiset<(TransformJob, bool)> {
    s.map_values(|j: TransformJob| (j, outcome)).to_multiset()
}

/// What one queue slot holds.
pub open spec fn opt_pairs(x: Option<(TransformJob, bool)>) -> Multiset<(TransformJob, bool)> {
    match x {
        Some(p) => Multiset::singleton(p),
        None => Multiset::empty(),
    }
}

/// The jobs sitting in the workers' queues.
pub open spec fn queued_pairs(qs: Seq<Option<(TransformJob, bool)>>) -> Multiset<
    (TransformJob, bool),
>
    decreases qs.len(),
{
    if qs.len() == 0 {
        Multiset::empty()
    } else {
        opt_pairs(qs[0]).add(queued_pairs(qs.drop_first()))
    }
}

/// The jobs all workers together have completed successfully.
pub open spec fn done_pairs(ws: Seq<Vec<TransformJob>>) -> Multiset<(TransformJob, bool)>
    decreases ws.len(),
{
    if ws.len() == 0 {
        Multiset::empty()
    } else {
        job_pairs(ws[0]@, true).add(done_pairs(ws.drop_first()))
    }
}

/// The jobs paired with whether their transform succeeds.
pub open spec fn zip_jobs(jobs: Seq<TransformJob>, ok: Seq<bool>) -> Seq<(TransformJob, bool)> {
    Seq::new(jobs.len(), |i: int| (jobs[i], ok[i]))
}

proof fn lemma_queued_pairs_push(qs: Seq<Option<(TransformJob, bool)>>, x: Option<
    (TransformJob, bool),
>)
    ensures
        queued_pairs(qs.push(x)) == queued_pairs(qs).add(opt_pairs(x)),
    decreases qs.len(),
{
    reveal_with_fuel(queued_pairs, 3);
    if qs.len() == 0 {
        assert(qs.push(x)[0] == x);
        assert(qs.push(x).drop_first() =~= Seq::<Option<(TransformJob, bool)>>::empty());
        assert(queued_pairs(qs.push(x)) =~= queued_pairs(qs).add(opt_pairs(x)));
    } else {
        assert(qs.push(x)[0] == qs[0]);
        assert(qs.push(x).drop_first() =~= qs.drop_first().push(x));
        lemma_queued_pairs_push(qs.drop_first(), x);
        assert(queued_pairs(qs.push(x)) =~= queued_pairs(qs).add(opt_pairs(x)));
    }
}

/// Replacing one slot, counted per job: the new contents plus the old
/// occupant carry the same counts as the old contents plus the new one.
proof fn lemma_queued_pairs_update(
    qs: Seq<Option<(TransformJob, bool)>>,
    k: int,
    x: Option<(TransformJob, bool)>,
)
    requires
        0 <= k < qs.len(),
    ensures
        forall|e: (TransformJob, bool)|
            #[trigger] queued_pairs(qs).count(e) + opt_pairs(x).count(e) == queued_pairs(
                qs.update(k, x),
            ).count(e) + opt_pairs(qs[k]).count(e),
    decreases qs.len(),
{
    reveal_with_fuel(queued_pairs, 3);
    let upd = qs.update(k, x);
    if k == 0 {
        assert(upd[0] == x);
        assert(upd.drop_first() =~= qs.drop_first());
        assert forall|e: (TransformJob, bool)|
            #[trigger] queued_pairs(qs).count(e) + opt_pairs(x).count(e) == queued_pairs(
                upd,
            ).count(e) + opt_pairs(qs[0]).count(e) by {
            assert(queued_pairs(qs).count(e) == opt_pairs(qs[0]).count(e) + queued_pairs(
                qs.drop_first(),
            ).count(e));
            assert(queued_pairs(upd).count(e) == opt_pairs(x).count(e) + queued_pairs(
                qs.drop_first(),
            ).count(e));
        }
    } else {
        assert(upd[0] == qs[0]);
        assert(upd.drop_first() =~= qs.drop_first().update(k - 1, x));
        assert(qs.drop_first()[k - 1] == qs[k]);
        lemma_queued_pairs_update(qs.drop_first(), k - 1, x);
        assert forall|e: (TransformJob, bool)|
            #[trigger] queued_pairs(qs).count(e) + opt_pairs(x).count(e) == queued_pairs(
                upd,
            ).count(e) + opt_pairs(qs[k]).count(e) by {
            assert(queued_pairs(qs).count(e) == opt_pairs(qs[0]).count(e) + queued_pairs(
                qs.drop_first(),
            ).count(e));
            assert(queued_pairs(upd).count(e) == opt_pairs(qs[0]).count(e) + queued_pairs(
                qs.drop_first().update(k - 1, x),
            ).count(e));
            assert(queued_pairs(qs.drop_first()).count(e) + opt_pairs(x).count(e)
                == queued_pairs(qs.drop_first().update(k - 1, x)).count(e) + opt_pairs(
                qs[k],
            ).count(e));
        }
    }
}

proof fn lemma_queued_pairs_all_none(qs: Seq<Option<(TransformJob, bool)>>)
    requires
        forall|k: int| 0 <= k < qs.len() ==> qs[k] is None,
    ensures
        queued_pairs(qs) == Multiset::<(TransformJob, bool)>::empty(),
    decreases qs.len(),
{
    reveal_with_fuel(queued_pairs, 3);
    if qs.len() > 0 {
        lemma_queued_pairs_all_none(qs.drop_first());
        assert(queued_pairs(qs) =~= Multiset::<(TransformJob, bool)>::empty());
    }
}

proof fn lemma_done_pairs_push(ws: Seq<Vec<TransformJob>>, w: Vec<TransformJob>)
    ensures
        done_pairs(ws.push(w)) == done_pairs(ws).add(job_pairs(w@, true)),
    decreases ws.len(),
{
    reveal_with_fuel(done_pairs, 3);
    if ws.len() == 0 {
        assert(ws.push(w)[0] == w);
        assert(ws.push(w).drop_first() =~= Seq::<Vec<TransformJob>>::empty());
        assert(done_pairs(ws.push(w)) =~= done_pairs(ws).add(job_pairs(w@, true)));
    } else {
        assert(ws.push(w)[0] == ws[0]);
        assert(ws.push(w).drop_first() =~= ws.drop_first().push(w));
        lemma_done_pairs_push(ws.drop_first(), w);
        assert(done_pairs(ws.push(w)) =~= done_pairs(ws).add(job_pairs(w@, true)));
    }
}

/// Replacing one worker's list, counted per job.
proof fn lemma_done_pairs_update(ws: Seq<Vec<TransformJob>>, v: int, nv: Vec<TransformJob>)
    requires
        0 <= v < ws.len(),
    ensures
        forall|e: (TransformJob, bool)|
            #[trigger] done_pairs(ws).count(e) + job_pairs(nv@, true).count(e) == done_pairs(
                ws.update(v, nv),
            ).count(e) + job_pairs(ws[v]@, true).count(e),
    decreases ws.len(),
{
    reveal_with_fuel(done_pairs, 3);
    let upd = ws.update(v, nv);
    if v == 0 {
        assert(upd[0] == nv);
        assert(upd.drop_first() =~= ws.drop_first());
        assert forall|e: (TransformJob, bool)|
            #[trigger] done_pairs(ws).count(e) + job_pairs(nv@, true).count(e) == done_pairs(
                upd,
            ).count(e) + job_pairs(ws[0]@, true).count(e) by {
            assert(done_pairs(ws).count(e) == job_pairs(ws[0]@, true).count(e) + done_pairs(
                ws.drop_first(),
            ).count(e));
            assert(done_pairs(upd).count(e) == job_pairs(nv@, true).count(e) + done_pairs(
                ws.drop_first(),
            ).count(e));
        }
    } else {
        assert(upd[0] == ws[0]);
        assert(upd.drop_first() =~= ws.drop_first().update(v - 1, nv));
        assert(ws.drop_first()[v - 1] == ws[v]);
        lemma_done_pairs_update(ws.drop_first(), v - 1, nv);
        assert forall|e: (TransformJob, bool)|
            #[trigger] done_pairs(ws).count(e) + job_pairs(nv@, true).count(e) == done_pairs(
                upd,
            ).count(e) + job_pairs(ws[v]@, true).count(e) by {
            assert(done_pairs(ws).count(e) == job_pairs(ws[0]@, true).count(e) + done_pairs(
                ws.drop_first(),
            ).count(e));
            assert(done_pairs(upd).count(e) == job_pairs(ws[0]@, true).count(e) + done_pairs(
                ws.drop_first().update(v - 1, nv),
            ).count(e));
            assert(done_pairs(ws.drop_first()).count(e) + job_pairs(nv@, true).count(e)
                == done_pairs(ws.drop_first().update(v - 1, nv)).count(e) + job_pairs(
                ws[v]@,
                true,
            ).count(e));
        }
    }
}

/// Appending one job to a tagged list inserts its pair.
proof fn lemma_job_pairs_push(s: Seq<TransformJob>, j: TransformJob, outcome: bool)
    ensures
        job_pairs(s.push(j), outcome) == job_pairs(s, outcome).insert((j, outcome)),
{
    let f = |x: TransformJob| (x, outcome);
    assert(s.push(j).map_values(f) =~= s.map_values(f).push((j, outcome))) by {
        assert forall|k: int| 0 <= k < s.len() + 1 implies s.push(j).map_values(f)[k]
            == s.map_values(f).push((j, outcome))[k] by {
            if k < s.len() {
                assert(s.push(j)[k] == s[k]);
            } else {
                assert(s.push(j)[k] == j);
            }
        }
    }
    assert(s.map_values(f).push((j, outcome)).to_multiset() =~= s.map_values(
        f,
    ).to_multiset().insert((j, outcome)));
}

/// Probe every queue in turn and place the job in the first free slot.
/// When every queue is full nothing changes and the job comes back.
fn offer(queues: &mut Vec<Option<(TransformJob, bool)>>, item: (TransformJob, bool)) -> (r: Option<
    (TransformJob, bool),
>)
    ensures
        final(queues)@.len() == old(queues)@.len(),
        r is None ==> queued_pairs(final(queues)@) == queued_pairs(old(queues)@).insert(item),
        (r matches Some(back) ==> back == item && final(queues)@ == old(queues)@ && (forall|
            k: int,
        |
            0 <= k < old(queues)@.len() ==> old(queues)@[k] is Some)),
{
    let ghost item_snap = item;
    let mut k: usize = 0;
    while k < queues.len()
        invariant
            k <= queues@.len(),
            queues@ == old(queues)@,
            item == item_snap,
            forall|j: int| 0 <= j < k ==> queues@[j] is Some,
        decreases queues@.len() - k,
    {
        if queues[k].is_none() {
            let ghost q0 = queues@;
            proof {
                lemma_queued_pairs_update(q0, k as int, Some(item_snap));
            }
            queues.set(k, Some(item));
            proof {
                assert(queues@ == q0.update(k as int, Some(item_snap)));
                assert forall|e: (TransformJob, bool)|
                    queued_pairs(queues@).count(e) == queued_pairs(q0).insert(
                        item_snap,
                    ).count(e) by {
                    assert(queued_pairs(q0).count(e) + opt_pairs(Some(item_snap)).count(e)
                        == queued_pairs(q0.update(k as int, Some(item_snap))).count(e)
                        + opt_pairs(q0[k as int]).count(e));
                    assert(opt_pairs(q0[k as int]).count(e) == 0);
                    assert(queued_pairs(q0).insert(item_snap).count(e) == queued_pairs(
                        q0,
                    ).count(e) + Multiset::singleton(item_snap).count(e));
                }
                assert(queued_pairs(queues@) =~= queued_pairs(q0).insert(item_snap));
            }
            return None;
        }
        k += 1;
    }
    Some(item)
}

/// Let worker `v` take the job from its queue and finish it: a succeeding
/// transform lands in the worker's completed list, a failing one in the
/// failure report. Jobs are conserved: nothing is lost or duplicated.
fn step_worker(
    queues: &mut Vec<Option<(TransformJob, bool)>>,
    completed: &mut Vec<Vec<TransformJob>>,
    failed: &mut Vec<TransformJob>,
    v: usize,
)
    requires
        v < old(queues)@.len(),
        old(completed)@.len() == old(queues)@.len(),
        old(queues)@[v as int] is Some,
    ensures
        final(queues)@ == old(queues)@.update(v as int, None),
        final(completed)@.len() == old(completed)@.len(),
        forall|e: (TransformJob, bool)|
            #[trigger] queued_pairs(final(queues)@).count(e) + done_pairs(
                final(completed)@,
            ).count(e) + job_pairs(final(failed)@, false).count(e) == queued_pairs(
                old(queues)@,
            ).count(e) + done_pairs(old(completed)@).count(e) + job_pairs(
                old(failed)@,
                false,
            ).count(e),
{
    let ghost q0 = queues@;
    let mut slot: Option<(TransformJob, bool)> = None;
    queues.set_and_swap(v, &mut slot);
    proof {
        lemma_queued_pairs_update(q0, v as int, None);
    }
    match slot {
        Some(pair) => {
            let ghost p = pair;
            let (job, okf) = pair;
            if okf {
                let ghost c0 = completed@;
                let ghost w0 = completed@[v as int]@;
                let wlist = vstd::std_specs::vec::vec_index_mut(completed, v);
                wlist.push(job);
                proof {
                    let nv = completed@[v as int];
                    assert(completed@ == c0.update(v as int, nv));
                    assert(nv@ == w0.push(p.0));
                    lemma_done_pairs_update(c0, v as int, nv);
                    lemma_job_pairs_push(w0, p.0, true);
                    assert forall|e: (TransformJob, bool)|
                        queued_pairs(queues@).count(e) + done_pairs(completed@).count(e)
                            + job_pairs(failed@, false).count(e) == queued_pairs(q0).count(e)
                            + done_pairs(c0).count(e) + job_pairs(failed@, false).count(e) by {
                        assert(queued_pairs(q0).count(e) + opt_pairs(None).count(e)
                            == queued_pairs(q0.update(v as int, None)).count(e) + opt_pairs(
                            q0[v as int],
                        ).count(e));
                        assert(done_pairs(c0).count(e) + job_pairs(nv@, true).count(e)
                            == done_pairs(c0.update(v as int, nv)).count(e) + job_pairs(
                            c0[v as int]@,
                            true,
                        ).count(e));
                        assert(job_pairs(nv@, true).count(e) == job_pairs(w0, true).count(e)
                            + Multiset::singleton((p.0, true)).count(e));
                        assert(opt_pairs(q0[v as int]).count(e) == Multiset::singleton(
                            p,
                        ).count(e));
                        assert((p.0, true) == p);
                    }
                }
            } else {
                let ghost f0 = failed@;
                failed.push(job);
                proof {
                    assert(failed@ == f0.push(p.0));
                    lemma_job_pairs_push(f0, p.0, false);
                    assert forall|e: (TransformJob, bool)|
                        queued_pairs(queues@).count(e) + done_pairs(completed@).count(e)
                            + job_pairs(failed@, false).count(e) == queued_pairs(q0).count(e)
                            + done_pairs(completed@).count(e) + job_pairs(f0, false).count(
                            e,
                        ) by {
                        assert(queued_pairs(q0).count(e) + opt_pairs(None).count(e)
                            == queued_pairs(q0.update(v as int, None)).count(e) + opt_pairs(
                            q0[v as int],
                        ).count(e));
                        assert(job_pairs(failed@, false).count(e) == job_pairs(f0, false).count(
                            e,
                        ) + Multiset::singleton((p.0, false)).count(e));
                        assert(opt_pairs(q0[v as int]).count(e) == Multiset::singleton(
                            p,
                        ).count(e));
                        assert((p.0, false) == p);
                    }
                }
            }
        },
        None => {
            proof {
                assert(false);
            }
        },
    }
}

/// Everything a swarm run reports: what each worker completed, in the order
/// it took the jobs, and the jobs whose transform failed.
pub struct SwarmReport {
    pub completed: Vec<Vec<TransformJob>>,
    pub failed: Vec<TransformJob>,
}

/// Drive the whole swarm: deliver every job to some worker's bounded queue
/// — probing all queues, and letting a worker finish when all are full —
/// then let every worker drain its queue. Every job is handled exactly
/// once: the completed and failed jobs together are exactly the input jobs
/// with their outcomes, nothing lost, nothing duplicated, and a failing
/// transform stops nothing.
pub fn run_swarm(jobs: Vec<TransformJob>, ok: Vec<bool>, n_workers: usize) -> (r: SwarmReport)
    requires
        ok@.len() == jobs@.len(),
        n_workers >= 1,
    ensures
        r.completed@.len() == n_workers,
        done_pairs(r.completed@).add(job_pairs(r.failed@, false)) == zip_jobs(
            jobs@,
            ok@,
        ).to_multiset(),
{
    let ghost jobs0 = jobs@;
    let ghost ok0 = ok@;
    let ghost zp = zip_jobs(jobs0, ok0);
    let n_jobs = jobs.len();
    let mut queues: Vec<Option<(TransformJob, bool)>> = Vec::new();
    let mut completed: Vec<Vec<TransformJob>> = Vec::new();
    let mut w: usize = 0;
    while w < n_workers
        invariant
            w <= n_workers,
            queues@.len() == w,
            completed@.len() == w,
            queued_pairs(queues@) == Multiset::<(TransformJob, bool)>::empty(),
            done_pairs(completed@) == Multiset::<(TransformJob, bool)>::empty(),
        decreases n_workers - w,
    {
        let ghost q_before = queues@;
        let ghost c_before = completed@;
        let fresh: Vec<TransformJob> = Vec::new();
        proof {
            lemma_queued_pairs_push(q_before, None);
            lemma_done_pairs_push(c_before, fresh);
            assert(fresh@.map_values(|j: TransformJob| (j, true)) =~= Seq::<
                (TransformJob, bool),
            >::empty());
            assert(job_pairs(fresh@, true).len() == 0);
            assert(job_pairs(fresh@, true) =~= Multiset::<(TransformJob, bool)>::empty());
            assert(queued_pairs(q_before.push(None)) =~= Multiset::<
                (TransformJob, bool),
            >::empty());
            assert(done_pairs(c_before.push(fresh)) =~= Multiset::<(TransformJob, bool)>::empty());
        }
        queues.push(None);
        completed.push(fresh);
        w += 1;
    }
    let mut failed: Vec<TransformJob> = Vec::new();
    let mut victim: usize = 0;
    let mut jobs = jobs;
    let mut ok = ok;
    let mut i: usize = 0;
    proof {
        assert(jobs@ =~= jobs0.skip(0));
        assert(ok@ =~= ok0.skip(0));
        assert(zp.take(0) =~= Seq::<(TransformJob, bool)>::empty());
        assert(zp.take(0).to_multiset().len() == 0);
        assert(failed@.map_values(|j: TransformJob| (j, false)) =~= Seq::<
            (TransformJob, bool),
        >::empty());
        assert(job_pairs(failed@, false).len() == 0);
        assert forall|e: (TransformJob, bool)|
            queued_pairs(queues@).count(e) + done_pairs(completed@).count(e) + job_pairs(
                failed@,
                false,
            ).count(e) == zp.take(0).to_multiset().count(e) by {
            assert(queued_pairs(queues@).count(e) == 0);
            assert(done_pairs(completed@).count(e) == 0);
            assert(job_pairs(failed@, false).count(e) == 0);
            assert(zp.take(0).to_multiset().count(e) == 0);
        }
    }
    while jobs.len() > 0
        invariant
            i <= n_jobs,
            n_jobs == jobs0.len(),
            jobs@ == jobs0.skip(i as int),
            ok@ == ok0.skip(i as int),
            zp == zip_jobs(jobs0, ok0),
            queues@.len() == n_workers,
            completed@.len() == n_workers,
            victim < n_workers,
            n_workers >= 1,
            ok0.len() == jobs0.len(),
            forall|e: (TransformJob, bool)|
                #[trigger] queued_pairs(queues@).count(e) + done_pairs(completed@).count(e)
                    + job_pairs(failed@, false).count(e) == zp.take(i as int).to_multiset().count(
                    e,
                ),
        decreases jobs@.len(),
    {
        proof {
            assert(jobs0.skip(i as int).len() == jobs0.len() - i);
            assert(jobs0.skip(i as int)[0] == jobs0[i as int]);
            assert(ok0.skip(i as int)[0] == ok0[i as int]);
            assert(jobs0.skip(i as int).drop_first() =~= jobs0.skip(i + 1));
            assert(ok0.skip(i as int).drop_first() =~= ok0.skip(i + 1));
            assert(zp[i as int] == (jobs0[i as int], ok0[i as int]));
            assert(zp.take(i + 1) =~= zp.take(i as int).push(zp[i as int]));
        }
        let job = jobs.remove(0);
        let okf = ok.remove(0);
        let item = (job, okf);
        let ghost item_snap = item;
        proof {
            assert(item_snap == zp[i as int]);
            assert(zp.take(i + 1).to_multiset() =~= zp.take(i as int).to_multiset().insert(
                item_snap,
            ));
        }
        let ghost q_in = queues@;
        let ghost c_in = completed@;
        let ghost f_in = failed@;
        match offer(&mut queues, item) {
            None => {
                proof {
                    assert forall|e: (TransformJob, bool)|
                        #[trigger] queued_pairs(queues@).count(e) + done_pairs(
                            completed@,
                        ).count(e) + job_pairs(failed@, false).count(e) == zp.take(
                            i + 1,
                        ).to_multiset().count(e) by {
                        assert(queued_pairs(queues@).count(e) == queued_pairs(q_in).count(e)
                            + Multiset::singleton(item_snap).count(e));
                        assert(zp.take(i + 1).to_multiset().count(e) == zp.take(
                            i as int,
                        ).to_multiset().count(e) + Multiset::singleton(item_snap).count(e));
                    }
                }
            },
            Some(back) => {
                let ghost q_mid0 = queues@;
                step_worker(&mut queues, &mut completed, &mut failed, victim);
                let ghost q_mid = queues@;
                let ghost c_mid = completed@;
                let ghost f_mid = failed@;
                match offer(&mut queues, back) {
                    None => {},
                    Some(_) => {
                        proof {
                            assert(queues@[victim as int] is None);
                            assert(false);
                        }
                    },
                }
                proof {
                    assert forall|e: (TransformJob, bool)|
                        #[trigger] queued_pairs(queues@).count(e) + done_pairs(
                            completed@,
                        ).count(e) + job_pairs(failed@, false).count(e) == zp.take(
                            i + 1,
                        ).to_multiset().count(e) by {
                        assert(queued_pairs(queues@).count(e) == queued_pairs(q_mid).count(e)
                            + Multiset::singleton(item_snap).count(e));
                        assert(queued_pairs(q_mid).count(e) + done_pairs(c_mid).count(e)
                            + job_pairs(f_mid, false).count(e) == queued_pairs(q_in).count(e)
                            + done_pairs(c_in).count(e) + job_pairs(f_in, false).count(e));
                        assert(zp.take(i + 1).to_multiset().count(e) == zp.take(
                            i as int,
                        ).to_multiset().count(e) + Multiset::singleton(item_snap).count(e));
                    }
                }
                victim = if victim + 1 == n_workers {
                    0
                } else {
                    victim + 1
                };
            },
        }
        i += 1;
    }
    proof {
        assert(jobs0.skip(i as int).len() == 0);
        assert(i == jobs0.len());
        assert(zp.take(i as int) =~= zp);
    }
    let mut v: usize = 0;
    while v < n_workers
        invariant
            v <= n_workers,
            queues@.len() == n_workers,
            completed@.len() == n_workers,
            forall|k: int| 0 <= k < v ==> queues@[k] is None,
            forall|e: (TransformJob, bool)|
                #[trigger] queued_pairs(queues@).count(e) + done_pairs(completed@).count(e)
                    + job_pairs(failed@, false).count(e) == zp.to_multiset().count(e),
        decreases n_workers - v,
    {
        if queues[v].is_some() {
            let ghost q_in = queues@;
            let ghost c_in = completed@;
            let ghost f_in = failed@;
            step_worker(&mut queues, &mut completed, &mut failed, v);
            proof {
                assert forall|e: (TransformJob, bool)|
                    #[trigger] queued_pairs(queues@).count(e) + done_pairs(completed@).count(e)
                        + job_pairs(failed@, false).count(e) == zp.to_multiset().count(e) by {
                    assert(queued_pairs(queues@).count(e) + done_pairs(completed@).count(e)
                        + job_pairs(failed@, false).count(e) == queued_pairs(q_in).count(e)
                        + done_pairs(c_in).count(e) + job_pairs(f_in, false).count(e));
                }
            }
        }
        v += 1;
    }
    proof {
        lemma_queued_pairs_all_none(queues@);
        assert forall|e: (TransformJob, bool)|
            done_pairs(completed@).add(job_pairs(failed@, false)).count(e) == zp.to_multiset(
            ).count(e) by {
            assert(queued_pairs(queues@).count(e) == 0);
            assert(queued_pairs(queues@).count(e) + done_pairs(completed@).count(e) + job_pairs(
                failed@,
                false,
            ).count(e) == zp.to_multiset().count(e));
        }
        assert(done_pairs(completed@).add(job_pairs(failed@, false)) =~= zp.to_multiset());
    }
    SwarmReport { completed, failed }
}



/// The swarm's outcome partition: of the delivered jobs, the workers
/// completed exactly those whose transform succeeds, and the failure report
/// holds exactly those whose transform fails — the rest of the run is
/// never stopped by a failing subset.
pub proof fn lemma_swarm_outcome_partition(
    jobs: Seq<TransformJob>,
    ok: Seq<bool>,
    r: SwarmReport,
)
    requires
        ok.len() == jobs.len(),
        done_pairs(r.completed@).add(job_pairs(r.failed@, false)) == zip_jobs(
            jobs,
            ok,
        ).to_multiset(),
    ensures
        done_pairs(r.completed@) == zip_jobs(jobs, ok).to_multiset().filter(
            |p: (TransformJob, bool)| p.1,
        ),
        job_pairs(r.failed@, false) == zip_jobs(jobs, ok).to_multiset().filter(
            |p: (TransformJob, bool)| !p.1,
        ),
{
    let zm = zip_jobs(jobs, ok).to_multiset();
    let dp = done_pairs(r.completed@);
    let fp = job_pairs(r.failed@, false);
    lemma_done_pairs_all_true(r.completed@);
    lemma_job_pairs_tag(r.failed@, false);
    assert forall|e: (TransformJob, bool)| dp.count(e) == zm.filter(
        |p: (TransformJob, bool)| p.1,
    ).count(e) by {
        assert(dp.add(fp).count(e) == zm.count(e));
        if e.1 {
            assert(fp.count(e) == 0);
        } else {
            assert(dp.count(e) == 0);
        }
    }
    assert(dp =~= zm.filter(|p: (TransformJob, bool)| p.1));
    assert forall|e: (TransformJob, bool)| fp.count(e) == zm.filter(
        |p: (TransformJob, bool)| !p.1,
    ).count(e) by {
        assert(dp.add(fp).count(e) == zm.count(e));
        if e.1 {
            assert(fp.count(e) == 0);
        } else {
            assert(dp.count(e) == 0);
        }
    }
    assert(fp =~= zm.filter(|p: (TransformJob, bool)| !p.1));
}

/// When every transform succeeds, nothing is reported failed and the
/// workers together completed every job exactly once.
pub proof fn lemma_swarm_all_ok(jobs: Seq<TransformJob>, ok: Seq<bool>, r: SwarmReport)
    requires
        ok.len() == jobs.len(),
        forall|i: int| 0 <= i < ok.len() ==> ok[i],
        done_pairs(r.completed@).add(job_pairs(r.failed@, false)) == zip_jobs(
            jobs,
            ok,
        ).to_multiset(),
    ensures
        r.failed@.len() == 0,
        done_pairs(r.completed@) == zip_jobs(jobs, ok).to_multiset(),
{
    let zm = zip_jobs(jobs, ok).to_multiset();
    let dp = done_pairs(r.completed@);
    let fp = job_pairs(r.failed@, false);
    if r.failed@.len() > 0 {
        let e = (r.failed@[0], false);
        let mapped = r.failed@.map_values(|j: TransformJob| (j, false));
        assert(mapped[0] == e);
        assert(mapped.contains(e));
        assert(fp.count(e) > 0);
        assert(dp.add(fp).count(e) == zm.count(e));
        if zm.count(e) > 0 {
            assert(zip_jobs(jobs, ok).contains(e));
            let i = choose|i: int|
                0 <= i < zip_jobs(jobs, ok).len() && zip_jobs(jobs, ok)[i] == e;
            assert(ok[i] == false);
            assert(false);
        }
        assert(false);
    }
    assert(r.failed@.map_values(|j: TransformJob| (j, false)) =~= Seq::<
        (TransformJob, bool),
    >::empty());
    assert(fp.len() == 0);
    assert forall|e: (TransformJob, bool)| dp.count(e) == zm.count(e) by {
        assert(dp.add(fp).count(e) == zm.count(e));
        assert(fp.count(e) == 0) by {
            assert(fp.count(e) <= fp.len());
        }
    }
    assert(dp =~= zm);
}

/// Every pair a completed list contributes is tagged successful.
proof fn lemma_done_pairs_all_true(ws: Seq<Vec<TransformJob>>)
    ensures
        forall|e: (TransformJob, bool)| !e.1 ==> #[trigger] done_pairs(ws).count(e) == 0,
    decreases ws.len(),
{
    reveal_with_fuel(done_pairs, 3);
    if ws.len() > 0 {
        lemma_done_pairs_all_true(ws.drop_first());
        lemma_job_pairs_tag(ws[0]@, true);
        assert forall|e: (TransformJob, bool)| !e.1 implies #[trigger] done_pairs(ws).count(e)
            == 0 by {
            assert(done_pairs(ws).count(e) == job_pairs(ws[0]@, true).count(e) + done_pairs(
                ws.drop_first(),
            ).count(e));
        }
    }
}

/// Every pair a tagged list contributes carries its tag.
proof fn lemma_job_pairs_tag(s: Seq<TransformJob>, outcome: bool)
    ensures
        forall|e: (TransformJob, bool)|
            e.1 != outcome ==> #[trigger] job_pairs(s, outcome).count(e) == 0,
{
    let mapped = s.map_values(|j: TransformJob| (j, outcome));
    assert forall|e: (TransformJob, bool)| e.1 != outcome implies #[trigger] job_pairs(
        s,
        outcome,
    ).count(e) == 0 by {
        if mapped.to_multiset().count(e) > 0 {
            assert(mapped.contains(e));
            let i = choose|i: int| 0 <= i < mapped.len() && mapped[i] == e;
            assert(mapped[i].1 == outcome);
            assert(false);
        }
    }
}

} // verus!
