//! The tree walker: a stack-based depth-first traversal of a `DirTree`.
//! Files of a directory are visited as soon as the directory is listed;
//! subdirectories are deferred onto a pending stack and the most recently
//! discovered one is descended into first. Entries that cannot be read are
//! reported as issues and skipped; only an unreadable root is fatal.

use vstd::prelude::*;

use crate::fstree::{
    DirTree, FsEntry, IssueKind, entries_size, entry_files, entry_issue, entry_issues,
    entry_size, entry_sub_issues, entry_walk, lemma_entries_size_push, lemma_pre_all_compose,
    lemma_pre_all_concat, lemma_pre_all_issues_compose, lemma_pre_all_issues_concat, pre_all,
    pre_all_issues, spec_walk, spec_walk_issues, sub_issues, sub_walks, tree_size,
};
use crate::pathname::RelPath;

verus! {

/// One skipped entry, reported rather than logged: the collect-and-continue
/// rendering of the walker's best-effort policy.
pub struct WalkIssue {
    pub path: RelPath,
    pub kind: IssueKind,
}

/// Everything one traversal produced: the files visited, in visit order,
/// and the entries skipped along the way.
pub struct WalkReport {
    pub files: Vec<RelPath>,
    pub issues: Vec<WalkIssue>,
}

/// The one fatal traversal failure: the root itself cannot be listed.
#[derive(Debug)]
pub enum WalkError {
    RootUnlistable,
}

pub open spec fn paths_view(s: Seq<RelPath>) -> Seq<Seq<Seq<u8>>> {
    s.map_values(|p: RelPath| p@)
}

pub open spec fn issues_view(s: Seq<WalkIssue>) -> Seq<(Seq<Seq<u8>>, IssueKind)> {
    s.map_values(|w: WalkIssue| (w.path@, w.kind))
}

/// What remains to be visited for one pending frame.
pub open spec fn frame_walk(es: Seq<FsEntry>, pre: Seq<Seq<u8>>) -> Seq<Seq<Seq<u8>>> {
    pre_all(pre, entry_files(es) + sub_walks(es))
}

pub open spec fn frame_issues(es: Seq<FsEntry>, pre: Seq<Seq<u8>>) -> Seq<
    (Seq<Seq<u8>>, IssueKind),
> {
    pre_all_issues(pre, entry_issues(es) + sub_issues(es))
}

/// What remains to be visited for a whole pending stack, top frame first.
pub open spec fn stack_walks(s: Seq<(&DirTree, RelPath)>) -> Seq<Seq<Seq<u8>>>
    decreases s.len(),
{
    if s.len() == 0 {
        Seq::empty()
    } else {
        frame_walk(s.last().0.entries@, s.last().1@) + stack_walks(s.drop_last())
    }
}

pub open spec fn stack_issues(s: Seq<(&DirTree, RelPath)>) -> Seq<(Seq<Seq<u8>>, IssueKind)>
    decreases s.len(),
{
    if s.len() == 0 {
        Seq::empty()
    } else {
        frame_issues(s.last().0.entries@, s.last().1@) + stack_issues(s.drop_last())
    }
}

/// Termination measure: the total number of entries still pending.
pub open spec fn stack_measure(s: Seq<(&DirTree, RelPath)>) -> nat
    decreases s.len(),
{
    if s.len() == 0 {
        0
    } else {
        1 + tree_size(*s.last().0) + stack_measure(s.drop_last())
    }
}

proof fn lemma_paths_view_push(s: Seq<RelPath>, p: RelPath)
    ensures
        paths_view(s.push(p)) =~= paths_view(s).push(p@),
{
    assert forall|k: int| 0 <= k < s.len() + 1 implies paths_view(s.push(p))[k] == paths_view(
        s,
    ).push(p@)[k] by {
        if k < s.len() {
            assert(s.push(p)[k] == s[k]);
        } else {
            assert(s.push(p)[k] == p);
        }
    }
}

proof fn lemma_issues_view_push(s: Seq<WalkIssue>, w: WalkIssue)
    ensures
        issues_view(s.push(w)) =~= issues_view(s).push((w.path@, w.kind)),
{
    assert forall|k: int| 0 <= k < s.len() + 1 implies issues_view(s.push(w))[k] == issues_view(
        s,
    ).push((w.path@, w.kind))[k] by {
        if k < s.len() {
            assert(s.push(w)[k] == s[k]);
        } else {
            assert(s.push(w)[k] == w);
        }
    }
}

/// An empty prefix changes nothing.
proof fn lemma_pre_all_nil(ps: Seq<Seq<Seq<u8>>>)
    ensures
        pre_all(Seq::empty(), ps) == ps,
{
    assert forall|i: int| 0 <= i < ps.len() implies pre_all(Seq::<Seq<u8>>::empty(), ps)[i]
        == ps[i] by {
        assert(Seq::<Seq<u8>>::empty() + ps[i] =~= ps[i]);
    }
    assert(pre_all(Seq::empty(), ps) =~= ps);
}

proof fn lemma_pre_all_issues_nil(is: Seq<(Seq<Seq<u8>>, IssueKind)>)
    ensures
        pre_all_issues(Seq::empty(), is) == is,
{
    assert forall|i: int| 0 <= i < is.len() implies pre_all_issues(Seq::<Seq<u8>>::empty(), is)[i]
        == is[i] by {
        assert(Seq::<Seq<u8>>::empty() + is[i].0 =~= is[i].0);
    }
    assert(pre_all_issues(Seq::empty(), is) =~= is);
}

/// Visit every entry of one pending directory: files are recorded at once,
/// readable subdirectories are deferred onto the stack, and everything that
/// cannot be walked is reported as an issue.
fn process_frame<'a>(
    tree: &'a DirTree,
    pre: &RelPath,
    files: &mut Vec<RelPath>,
    issues: &mut Vec<WalkIssue>,
    stack: &mut Vec<(&'a DirTree, RelPath)>,
)
    ensures
        paths_view(final(files)@) == paths_view(old(files)@) + pre_all(
            pre@,
            entry_files(tree.entries@),
        ),
        issues_view(final(issues)@) == issues_view(old(issues)@) + pre_all_issues(
            pre@,
            entry_issues(tree.entries@),
        ),
        stack_walks(final(stack)@) == pre_all(pre@, sub_walks(tree.entries@)) + stack_walks(
            old(stack)@,
        ),
        stack_issues(final(stack)@) == pre_all_issues(pre@, sub_issues(tree.entries@))
            + stack_issues(old(stack)@),
        stack_measure(final(stack)@) <= stack_measure(old(stack)@) + entries_size(tree.entries@),
{
    let ghost es = tree.entries@;
    proof {
        assert(es.skip(0) =~= es);
        assert(es.take(0) =~= Seq::<FsEntry>::empty());
        assert(sub_walks(Seq::<FsEntry>::empty()) == Seq::<Seq<Seq<u8>>>::empty());
        assert(sub_issues(Seq::<FsEntry>::empty()) == Seq::<(Seq<Seq<u8>>, IssueKind)>::empty());
        assert(entries_size(Seq::<FsEntry>::empty()) == 0);
        assert(pre_all(pre@, sub_walks(es.take(0))) =~= Seq::<Seq<Seq<u8>>>::empty());
        assert(pre_all_issues(pre@, sub_issues(es.take(0))) =~= Seq::<
            (Seq<Seq<u8>>, IssueKind),
        >::empty());
        assert(Seq::<Seq<Seq<u8>>>::empty() + stack_walks(stack@) =~= stack_walks(stack@));
        assert(Seq::<(Seq<Seq<u8>>, IssueKind)>::empty() + stack_issues(stack@) =~= stack_issues(
            stack@,
        ));
    }
    let mut i: usize = 0;
    while i < tree.entries.len()
        invariant
            es == tree.entries@,
            i <= es.len(),
            paths_view(files@) + pre_all(pre@, entry_files(es.skip(i as int))) == paths_view(
                old(files)@,
            ) + pre_all(pre@, entry_files(es)),
            issues_view(issues@) + pre_all_issues(pre@, entry_issues(es.skip(i as int)))
                == issues_view(old(issues)@) + pre_all_issues(pre@, entry_issues(es)),
            stack_walks(stack@) == pre_all(pre@, sub_walks(es.take(i as int))) + stack_walks(
                old(stack)@,
            ),
            stack_issues(stack@) == pre_all_issues(pre@, sub_issues(es.take(i as int)))
                + stack_issues(old(stack)@),
            stack_measure(stack@) <= stack_measure(old(stack)@) + entries_size(
                es.take(i as int),
            ),
        decreases es.len() - i,
    {
        let ghost rem = es.skip(i as int);
        proof {
            assert(rem[0] == es[i as int]);
            assert(rem.drop_first() =~= es.skip(i + 1));
            assert(es.take(i + 1).last() == es[i as int]);
            assert(es.take(i + 1).drop_last() =~= es.take(i as int));
            assert(es.take(i + 1) =~= es.take(i as int).push(es[i as int]));
            lemma_entries_size_push(es.take(i as int), es[i as int]);
        }
        match &tree.entries[i] {
            FsEntry::File { name } => {
                let p = pre.join_name(name);
                proof {
                    lemma_paths_view_push(files@, p);
                }
                files.push(p);
                proof {
                    // The head of the remaining files, carried under the prefix.
                    assert(entry_files(rem) == seq![seq![name@]] + entry_files(
                        es.skip(i + 1),
                    ));
                    lemma_pre_all_concat(pre@, seq![seq![name@]], entry_files(es.skip(i + 1)));
                    assert(pre_all(pre@, seq![seq![name@]]) =~= seq![p@]) by {
                        assert(pre@ + seq![name@] =~= pre@.push(name@));
                    }
                    assert(paths_view(files@) + pre_all(pre@, entry_files(es.skip(i + 1)))
                        =~= paths_view(old(files)@) + pre_all(pre@, entry_files(es)));
                    // Non-directory entries contribute nothing further.
                    assert(sub_walks(es.take(i + 1)) == entry_walk(es[i as int]) + sub_walks(
                        es.take(i as int),
                    ));
                    assert(entry_walk(es[i as int]) + sub_walks(es.take(i as int)) =~= sub_walks(
                        es.take(i as int),
                    ));
                    assert(entry_issues(rem) =~= entry_issue(es[i as int]) + entry_issues(
                        es.skip(i + 1),
                    ));
                    assert(entry_issue(es[i as int]) + entry_issues(es.skip(i + 1)) =~=
                        entry_issues(es.skip(i + 1)));
                    assert(sub_issues(es.take(i + 1)) == entry_sub_issues(es[i as int])
                        + sub_issues(es.take(i as int)));
                    assert(entry_sub_issues(es[i as int]) + sub_issues(es.take(i as int)) =~=
                        sub_issues(es.take(i as int)));
                }
            },
            FsEntry::Dir { name, tree: sub } => {
                if sub.readable {
                    let sub_pre = pre.join_name(name);
                    let ghost sp = sub_pre@;
                    let ghost prev_stack = stack@;
                    stack.push((sub, sub_pre));
                    proof {
                        assert(stack@.drop_last() =~= prev_stack);
                        assert(stack@.last().1@ == sp);
                        assert(stack_walks(stack@) == frame_walk(sub.entries@, sp) + stack_walks(
                            prev_stack,
                        ));
                        assert(stack_issues(stack@) == frame_issues(sub.entries@, sp)
                            + stack_issues(prev_stack));
                        assert(stack_measure(stack@) == 1 + tree_size(*sub) + stack_measure(
                            prev_stack,
                        ));
                        assert(entry_size(es[i as int]) == 1 + tree_size(*sub));
                        // The new frame is exactly this entry's subtree walk,
                        // carried under the current prefix.
                        lemma_pre_all_compose(pre@, seq![name@], spec_walk(*sub));
                        lemma_pre_all_issues_compose(pre@, seq![name@], spec_walk_issues(*sub));
                        assert(pre@ + seq![name@] =~= pre@.push(name@));
                        assert(spec_walk(*sub) == entry_files(sub.entries@) + sub_walks(
                            sub.entries@,
                        ));
                        assert(spec_walk_issues(*sub) == entry_issues(sub.entries@) + sub_issues(
                            sub.entries@,
                        ));
                        assert(entry_walk(es[i as int]) == pre_all(seq![name@], spec_walk(*sub)));
                        assert(entry_sub_issues(es[i as int]) == pre_all_issues(
                            seq![name@],
                            spec_walk_issues(*sub),
                        ));
                        assert(frame_walk(sub.entries@, sp) == pre_all(pre@, entry_walk(
                            es[i as int],
                        )));
                        assert(frame_issues(sub.entries@, sp) == pre_all_issues(
                            pre@,
                            entry_sub_issues(es[i as int]),
                        ));
                        assert(sub_walks(es.take(i + 1)) == entry_walk(es[i as int]) + sub_walks(
                            es.take(i as int),
                        ));
                        assert(sub_issues(es.take(i + 1)) == entry_sub_issues(es[i as int])
                            + sub_issues(es.take(i as int)));
                        lemma_pre_all_concat(
                            pre@,
                            entry_walk(es[i as int]),
                            sub_walks(es.take(i as int)),
                        );
                        lemma_pre_all_issues_concat(
                            pre@,
                            entry_sub_issues(es[i as int]),
                            sub_issues(es.take(i as int)),
                        );
                        assert(stack_walks(stack@) =~= pre_all(pre@, sub_walks(es.take(i + 1)))
                            + stack_walks(old(stack)@));
                        assert(stack_issues(stack@) =~= pre_all_issues(
                            pre@,
                            sub_issues(es.take(i + 1)),
                        ) + stack_issues(old(stack)@));
                    }
                } else {
                    let w = WalkIssue { path: pre.join_name(name), kind: IssueKind::UnlistableDir };
                    proof {
                        lemma_issues_view_push(issues@, w);
                    }
                    issues.push(w);
                }
                proof {
                    let nm = seq![name@];
                    // The entry's own walk and issue contributions.
                    assert(entry_walk(es[i as int]) == pre_all(nm, spec_walk(*sub)));
                    assert(entry_sub_issues(es[i as int]) == pre_all_issues(
                        nm,
                        spec_walk_issues(*sub),
                    ));
                    lemma_pre_all_compose(pre@, nm, spec_walk(*sub));
                    lemma_pre_all_issues_compose(pre@, nm, spec_walk_issues(*sub));
                    assert(pre@ + nm =~= pre@.push(name@));
                    if sub.readable {
                        assert(spec_walk(*sub) == entry_files(sub.entries@) + sub_walks(
                            sub.entries@,
                        ));
                        assert(spec_walk_issues(*sub) == entry_issues(sub.entries@) + sub_issues(
                            sub.entries@,
                        ));
                        assert(entry_issue(es[i as int]) + entry_issues(es.skip(i + 1)) =~=
                            entry_issues(es.skip(i + 1)));
                    } else {
                        assert(spec_walk(*sub) == Seq::<Seq<Seq<u8>>>::empty());
                        assert(pre_all(nm, spec_walk(*sub)) =~= Seq::<Seq<Seq<u8>>>::empty());
                        assert(pre_all_issues(nm, spec_walk_issues(*sub)) =~= Seq::<
                            (Seq<Seq<u8>>, IssueKind),
                        >::empty());
                        assert(entry_issue(es[i as int]) == seq![
                            (nm, IssueKind::UnlistableDir),
                        ]);
                        lemma_pre_all_issues_concat(
                            pre@,
                            entry_issue(es[i as int]),
                            entry_issues(es.skip(i + 1)),
                        );
                        assert(pre_all_issues(pre@, entry_issue(es[i as int])) =~= seq![
                            ((pre@ + nm), IssueKind::UnlistableDir),
                        ]);
                    }
                    assert(entry_files(rem) =~= entry_files(es.skip(i + 1)));
                    assert(entry_issues(rem) == entry_issue(es[i as int]) + entry_issues(
                        es.skip(i + 1),
                    ));
                    assert(sub_walks(es.take(i + 1)) == entry_walk(es[i as int]) + sub_walks(
                        es.take(i as int),
                    ));
                    assert(sub_issues(es.take(i + 1)) == entry_sub_issues(es[i as int])
                        + sub_issues(es.take(i as int)));
                }
            },
            FsEntry::Special { name } => {
                proof {
                    assert(entry_files(rem) =~= entry_files(es.skip(i + 1)));
                    assert(entry_issues(rem) =~= entry_issues(es.skip(i + 1)));
                    assert(sub_walks(es.take(i + 1)) == entry_walk(es[i as int]) + sub_walks(
                        es.take(i as int),
                    ));
                    assert(entry_walk(es[i as int]) + sub_walks(es.take(i as int)) =~= sub_walks(
                        es.take(i as int),
                    ));
                    assert(sub_issues(es.take(i + 1)) == entry_sub_issues(es[i as int])
                        + sub_issues(es.take(i as int)));
                    assert(entry_sub_issues(es[i as int]) + sub_issues(es.take(i as int)) =~=
                        sub_issues(es.take(i as int)));
                }
            },
            FsEntry::Unknown { name } => {
                let w = WalkIssue { path: pre.join_name(name), kind: IssueKind::UnknownEntry };
                proof {
                    lemma_issues_view_push(issues@, w);
                }
                issues.push(w);
                proof {
                    let nm = seq![name@];
                    assert(entry_issues(rem) == entry_issue(es[i as int]) + entry_issues(
                        es.skip(i + 1),
                    ));
                    lemma_pre_all_issues_concat(
                        pre@,
                        entry_issue(es[i as int]),
                        entry_issues(es.skip(i + 1)),
                    );
                    assert(pre_all_issues(pre@, entry_issue(es[i as int])) =~= seq![
                        ((pre@ + nm), IssueKind::UnknownEntry),
                    ]);
                    assert(pre@ + nm =~= pre@.push(name@));
                    assert(entry_files(rem) =~= entry_files(es.skip(i + 1)));
                    assert(sub_walks(es.take(i + 1)) == entry_walk(es[i as int]) + sub_walks(
                        es.take(i as int),
                    ));
                    assert(entry_walk(es[i as int]) + sub_walks(es.take(i as int)) =~= sub_walks(
                        es.take(i as int),
                    ));
                    assert(sub_issues(es.take(i + 1)) == entry_sub_issues(es[i as int])
                        + sub_issues(es.take(i as int)));
                    assert(entry_sub_issues(es[i as int]) + sub_issues(es.take(i as int)) =~=
                        sub_issues(es.take(i as int)));
                }
            },
        }
        i += 1;
    }
    proof {
        assert(es.skip(es.len() as int) =~= Seq::<FsEntry>::empty());
        assert(es.take(es.len() as int) =~= es);
        assert(pre_all(pre@, entry_files(es.skip(es.len() as int))) =~= Seq::<
            Seq<Seq<u8>>,
        >::empty());
        assert(pre_all_issues(pre@, entry_issues(es.skip(es.len() as int))) =~= Seq::<
            (Seq<Seq<u8>>, IssueKind),
        >::empty());
        assert(paths_view(files@) + Seq::<Seq<Seq<u8>>>::empty() =~= paths_view(files@));
        assert(issues_view(issues@) + Seq::<(Seq<Seq<u8>>, IssueKind)>::empty() =~= issues_view(
            issues@,
        ));
    }
}

/// Walk the tree depth-first and report every regular file reachable below
/// its root, each path relative to the root, together with the entries
/// skipped. Only an unreadable root fails; everything else is best-effort.
pub fn walk(root: &DirTree) -> (r: Result<WalkReport, WalkError>)
    ensures
        r is Ok <==> root.readable,
        (r matches Ok(rep) ==> paths_view(rep.files@) == spec_walk(*root) && issues_view(
            rep.issues@,
        ) == spec_walk_issues(*root)),
{
    if !root.readable {
        return Err(WalkError::RootUnlistable);
    }
    let mut files: Vec<RelPath> = Vec::new();
    let mut issues: Vec<WalkIssue> = Vec::new();
    let mut stack: Vec<(&DirTree, RelPath)> = Vec::new();
    let root_pre = RelPath::empty();
    let ghost rp = root_pre@;
    stack.push((root, root_pre));
    proof {
        assert(stack@.drop_last() =~= Seq::<(&DirTree, RelPath)>::empty());
        assert(stack_walks(Seq::<(&DirTree, RelPath)>::empty()) == Seq::<Seq<Seq<u8>>>::empty());
        assert(stack_issues(Seq::<(&DirTree, RelPath)>::empty()) == Seq::<
            (Seq<Seq<u8>>, IssueKind),
        >::empty());
        assert(stack@.last().1@ == rp);
        assert(stack_walks(stack@) == frame_walk(root.entries@, rp) + Seq::<
            Seq<Seq<u8>>,
        >::empty());
        assert(stack_issues(stack@) == frame_issues(root.entries@, rp) + Seq::<
            (Seq<Seq<u8>>, IssueKind),
        >::empty());
        lemma_pre_all_nil(entry_files(root.entries@) + sub_walks(root.entries@));
        lemma_pre_all_issues_nil(entry_issues(root.entries@) + sub_issues(root.entries@));
        assert(paths_view(files@) =~= Seq::<Seq<Seq<u8>>>::empty());
        assert(issues_view(issues@) =~= Seq::<(Seq<Seq<u8>>, IssueKind)>::empty());
        assert(paths_view(files@) + stack_walks(stack@) =~= spec_walk(*root));
        assert(issues_view(issues@) + stack_issues(stack@) =~= spec_walk_issues(*root));
    }
    while stack.len() > 0
        invariant
            paths_view(files@) + stack_walks(stack@) == spec_walk(*root),
            issues_view(issues@) + stack_issues(stack@) == spec_walk_issues(*root),
        decreases stack_measure(stack@),
    {
        let ghost pre_stack = stack@;
        let frame = stack.pop().unwrap();
        let ghost frame_es = frame.0.entries@;
        let ghost frame_pre = frame.1@;
        proof {
            assert(pre_stack.last() == frame);
            assert(pre_stack.drop_last() =~= stack@);
            assert(stack_walks(pre_stack) == frame_walk(frame_es, frame_pre) + stack_walks(
                stack@,
            ));
            assert(stack_issues(pre_stack) == frame_issues(frame_es, frame_pre) + stack_issues(
                stack@,
            ));
        }
        let ghost files_before = files@;
        let ghost issues_before = issues@;
        let ghost stack_before = stack@;
        process_frame(frame.0, &frame.1, &mut files, &mut issues, &mut stack);
        proof {
            lemma_pre_all_concat(frame_pre, entry_files(frame_es), sub_walks(frame_es));
            lemma_pre_all_issues_concat(frame_pre, entry_issues(frame_es), sub_issues(frame_es));
            assert(paths_view(files@) + stack_walks(stack@) =~= paths_view(files_before)
                + stack_walks(pre_stack));
            assert(issues_view(issues@) + stack_issues(stack@) =~= issues_view(issues_before)
                + stack_issues(pre_stack));
            assert(stack_measure(pre_stack) == 1 + tree_size(*frame.0) + stack_measure(
                stack_before,
            ));
            assert(stack_measure(stack@) < stack_measure(pre_stack));
        }
    }
    proof {
        assert(paths_view(files@) + stack_walks(stack@) =~= paths_view(files@));
        assert(issues_view(issues@) + stack_issues(stack@) =~= issues_view(issues@));
    }
    Ok(WalkReport { files, issues })
}

} // verus!
