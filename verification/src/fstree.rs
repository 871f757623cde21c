//! Model of a directory tree as the walker sees it: each directory lists
//! entries that are regular files, subdirectories, special entries (symlinks,
//! devices, sockets) or entries whose kind could not be read; a directory
//! whose listing fails is marked unreadable. The traversal order and the
//! issues reported along the way are specified here.

use vstd::prelude::*;

verus! {

/// One directory entry.
pub enum FsEntry {
    /// A regular file.
    File { name: Vec<u8> },
    /// A subdirectory together with what lies beneath it.
    Dir { name: Vec<u8>, tree: DirTree },
    /// A special entry (symlink, device, socket): neither file nor directory.
    Special { name: Vec<u8> },
    /// An entry whose metadata could not be read.
    Unknown { name: Vec<u8> },
}

/// A directory: its listing, and whether listing it succeeds at all.
pub struct DirTree {
    pub readable: bool,
    pub entries: Vec<FsEntry>,
}

/// What a traversal reports about one skipped entry.
#[derive(Clone, Copy, PartialEq, Eq, Structural, Debug)]
pub enum IssueKind {
    /// A subdirectory whose listing failed.
    UnlistableDir,
    /// An entry whose metadata could not be read.
    UnknownEntry,
}

/// The name a directory entry carries.
pub open spec fn entry_name(e: FsEntry) -> Seq<u8> {
    match e {
        FsEntry::File { name } => name@,
        FsEntry::Dir { name, tree } => name@,
        FsEntry::Special { name } => name@,
        FsEntry::Unknown { name } => name@,
    }
}

/// A well-formed directory tree: sibling entries carry distinct names.
pub open spec fn wf_tree(t: DirTree) -> bool
    decreases t,
{
    wf_entries(t.entries@)
}

pub open spec fn wf_entries(es: Seq<FsEntry>) -> bool
    decreases es,
{
    &&& (forall|i: int, j: int|
        0 <= i < j < es.len() ==> entry_name(es[i]) != entry_name(es[j]))
    &&& (forall|i: int|
        0 <= i < es.len() ==> match #[trigger] es[i] {
            FsEntry::Dir { name, tree } => wf_tree(tree),
            _ => true,
        })
}

/// Every path of `ps` with `pre` put in front.
pub open spec fn pre_all(pre: Seq<Seq<u8>>, ps: Seq<Seq<Seq<u8>>>) -> Seq<Seq<Seq<u8>>> {
    ps.map_values(|p: Seq<Seq<u8>>| pre + p)
}

/// Every issue of `is` with `pre` put in front of its path.
pub open spec fn pre_all_issues(
    pre: Seq<Seq<u8>>,
    is: Seq<(Seq<Seq<u8>>, IssueKind)>,
) -> Seq<(Seq<Seq<u8>>, IssueKind)> {
    is.map_values(|it: (Seq<Seq<u8>>, IssueKind)| (pre + it.0, it.1))
}

/// The one-component paths of the regular files of a listing, in listing
/// order.
pub open spec fn entry_files(es: Seq<FsEntry>) -> Seq<Seq<Seq<u8>>>
    decreases es,
{
    if es.len() == 0 {
        Seq::empty()
    } else {
        (match es[0] {
            FsEntry::File { name } => seq![seq![name@]],
            _ => Seq::<Seq<Seq<u8>>>::empty(),
        }) + entry_files(es.drop_first())
    }
}

/// What walking one entry as a subdirectory yields: the paths below a
/// readable directory entry, prefixed with its name; nothing otherwise.
pub open spec fn entry_walk(e: FsEntry) -> Seq<Seq<Seq<u8>>>
    decreases e,
{
    match e {
        FsEntry::Dir { name, tree } => pre_all(seq![name@], spec_walk(tree)),
        _ => Seq::empty(),
    }
}

/// The paths below the subdirectories of a listing. The most recently
/// discovered subdirectory is descended into first, so the last entry's
/// subtree comes first.
pub open spec fn sub_walks(es: Seq<FsEntry>) -> Seq<Seq<Seq<u8>>>
    decreases es,
{
    if es.len() == 0 {
        Seq::empty()
    } else {
        entry_walk(es.last()) + sub_walks(es.drop_last())
    }
}

/// All file paths a traversal of `t` visits, relative to `t`, in visit
/// order: the files of a listing first, then each subdirectory's subtree,
/// most recently discovered first. An unreadable directory yields nothing.
pub open spec fn spec_walk(t: DirTree) -> Seq<Seq<Seq<u8>>>
    decreases t,
{
    if t.readable {
        entry_files(t.entries@) + sub_walks(t.entries@)
    } else {
        Seq::empty()
    }
}

/// The issue one entry raises at discovery time, if any.
pub open spec fn entry_issue(e: FsEntry) -> Seq<(Seq<Seq<u8>>, IssueKind)> {
    match e {
        FsEntry::Dir { name, tree } => if tree.readable {
            Seq::empty()
        } else {
            seq![(seq![name@], IssueKind::UnlistableDir)]
        },
        FsEntry::Unknown { name } => seq![(seq![name@], IssueKind::UnknownEntry)],
        _ => Seq::empty(),
    }
}

/// The discovery-time issues of a listing, in listing order.
pub open spec fn entry_issues(es: Seq<FsEntry>) -> Seq<(Seq<Seq<u8>>, IssueKind)>
    decreases es,
{
    if es.len() == 0 {
        Seq::empty()
    } else {
        entry_issue(es[0]) + entry_issues(es.drop_first())
    }
}

/// The issues raised below one entry when it is walked as a subdirectory.
pub open spec fn entry_sub_issues(e: FsEntry) -> Seq<(Seq<Seq<u8>>, IssueKind)>
    decreases e,
{
    match e {
        FsEntry::Dir { name, tree } => pre_all_issues(seq![name@], spec_walk_issues(tree)),
        _ => Seq::empty(),
    }
}

/// The issues raised below the subdirectories of a listing, most recently
/// discovered first.
pub open spec fn sub_issues(es: Seq<FsEntry>) -> Seq<(Seq<Seq<u8>>, IssueKind)>
    decreases es,
{
    if es.len() == 0 {
        Seq::empty()
    } else {
        entry_sub_issues(es.last()) + sub_issues(es.drop_last())
    }
}

/// All issues a traversal of `t` reports, relative to `t`, in report order.
pub open spec fn spec_walk_issues(t: DirTree) -> Seq<(Seq<Seq<u8>>, IssueKind)>
    decreases t,
{
    if t.readable {
        entry_issues(t.entries@) + sub_issues(t.entries@)
    } else {
        Seq::empty()
    }
}

/// Whether `p` names a regular file reachable from `t` through readable
/// directories.
pub open spec fn is_reachable_file(t: DirTree, p: Seq<Seq<u8>>) -> bool
    decreases t,
{
    &&& t.readable
    &&& p.len() >= 1
    &&& if p.len() == 1 {
        exists|i: int|
            0 <= i < t.entries@.len() && ((#[trigger] t.entries@[i]) matches FsEntry::File {
                name,
            } && name@ == p[0])
    } else {
        exists|i: int|
            0 <= i < t.entries@.len() && ((#[trigger] t.entries@[i]) matches FsEntry::Dir {
                name,
                tree,
            } && name@ == p[0] && is_reachable_file(tree, p.drop_first()))
    }
}

/// Size of one entry: itself, plus everything beneath a subdirectory.
pub open spec fn entry_size(e: FsEntry) -> nat
    decreases e,
{
    match e {
        FsEntry::Dir { name, tree } => 1 + tree_size(tree),
        _ => 1,
    }
}

pub open spec fn entries_size(es: Seq<FsEntry>) -> nat
    decreases es,
{
    if es.len() == 0 {
        0
    } else {
        entry_size(es[0]) + entries_size(es.drop_first())
    }
}

/// Size of a tree: the number of entries reachable beneath it.
pub open spec fn tree_size(t: DirTree) -> nat
    decreases t,
{
    entries_size(t.entries@)
}

pub proof fn lemma_entries_size_push(es: Seq<FsEntry>, e: FsEntry)
    ensures
        entries_size(es.push(e)) == entries_size(es) + entry_size(e),
    decreases es.len(),
{
    if es.len() == 0 {
        assert(es.push(e)[0] == e);
        assert(es.push(e).drop_first() =~= Seq::<FsEntry>::empty());
        assert(entries_size(Seq::<FsEntry>::empty()) == 0);
        assert(entries_size(es.push(e)) == entry_size(e) + entries_size(
            es.push(e).drop_first(),
        ));
    } else {
        assert(es.push(e)[0] == es[0]);
        assert(es.push(e).drop_first() =~= es.drop_first().push(e));
        lemma_entries_size_push(es.drop_first(), e);
        assert(entries_size(es.push(e)) == entry_size(es[0]) + entries_size(
            es.push(e).drop_first(),
        ));
    }
}

// ---------- decomposition lemmas used by the walker ----------

/// Prefixing distributes over concatenation of path lists.
pub proof fn lemma_pre_all_concat(pre: Seq<Seq<u8>>, a: Seq<Seq<Seq<u8>>>, b: Seq<Seq<Seq<u8>>>)
    ensures
        pre_all(pre, a + b) == pre_all(pre, a) + pre_all(pre, b),
{
    assert(pre_all(pre, a + b) =~= pre_all(pre, a) + pre_all(pre, b));
}

pub proof fn lemma_pre_all_issues_concat(
    pre: Seq<Seq<u8>>,
    a: Seq<(Seq<Seq<u8>>, IssueKind)>,
    b: Seq<(Seq<Seq<u8>>, IssueKind)>,
)
    ensures
        pre_all_issues(pre, a + b) == pre_all_issues(pre, a) + pre_all_issues(pre, b),
{
    assert(pre_all_issues(pre, a + b) =~= pre_all_issues(pre, a) + pre_all_issues(pre, b));
}

/// Prefixing twice is prefixing with the concatenated prefix.
pub proof fn lemma_pre_all_compose(pre: Seq<Seq<u8>>, q: Seq<Seq<u8>>, ps: Seq<Seq<Seq<u8>>>)
    ensures
        pre_all(pre, pre_all(q, ps)) == pre_all(pre + q, ps),
{
    assert forall|i: int| 0 <= i < ps.len() implies pre_all(pre, pre_all(q, ps))[i] == pre_all(
        pre + q,
        ps,
    )[i] by {
        assert(pre + (q + ps[i]) =~= (pre + q) + ps[i]);
    }
    assert(pre_all(pre, pre_all(q, ps)) =~= pre_all(pre + q, ps));
}

pub proof fn lemma_pre_all_issues_compose(
    pre: Seq<Seq<u8>>,
    q: Seq<Seq<u8>>,
    is: Seq<(Seq<Seq<u8>>, IssueKind)>,
)
    ensures
        pre_all_issues(pre, pre_all_issues(q, is)) == pre_all_issues(pre + q, is),
{
    assert forall|i: int| 0 <= i < is.len() implies pre_all_issues(pre, pre_all_issues(q, is))[i]
        == pre_all_issues(pre + q, is)[i] by {
        assert(pre + (q + is[i].0) =~= (pre + q) + is[i].0);
    }
    assert(pre_all_issues(pre, pre_all_issues(q, is)) =~= pre_all_issues(pre + q, is));
}

// ---------- what a traversal visits: exactly the reachable files ----------

/// Membership in the files of one listing: exactly the one-component paths
/// of its regular files.
pub proof fn lemma_entry_files_contains(es: Seq<FsEntry>, p: Seq<Seq<u8>>)
    ensures
        entry_files(es).contains(p) <==> (exists|i: int|
            0 <= i < es.len() && ((#[trigger] es[i]) matches FsEntry::File { name } && p == seq![
                name@,
            ])),
    decreases es.len(),
{
    if es.len() == 0 {
    } else {
        lemma_entry_files_contains(es.drop_first(), p);
        let head = (match es[0] {
            FsEntry::File { name } => seq![seq![name@]],
            _ => Seq::<Seq<Seq<u8>>>::empty(),
        });
        let tail = entry_files(es.drop_first());
        assert(entry_files(es) == head + tail);
        if entry_files(es).contains(p) {
            let k = choose|k: int| 0 <= k < entry_files(es).len() && entry_files(es)[k] == p;
            if k < head.len() {
                assert(head[k] == p);
                assert(es[0] matches FsEntry::File { name } && p == seq![name@]);
            } else {
                assert(tail[k - head.len()] == p);
                assert(tail.contains(p));
                let i = choose|i: int|
                    0 <= i < es.drop_first().len() && ((#[trigger] es.drop_first()[i])
                        matches FsEntry::File { name } && p == seq![name@]);
                assert(es[i + 1] == es.drop_first()[i]);
            }
        }
        if exists|i: int|
            0 <= i < es.len() && ((#[trigger] es[i]) matches FsEntry::File { name } && p == seq![
                name@,
            ]) {
            let i = choose|i: int|
                0 <= i < es.len() && ((#[trigger] es[i]) matches FsEntry::File { name } && p
                    == seq![name@]);
            if i == 0 {
                assert(entry_files(es)[0] == p);
            } else {
                assert(es.drop_first()[i - 1] == es[i]);
                assert(tail.contains(p));
                let k = choose|k: int| 0 <= k < tail.len() && tail[k] == p;
                assert(entry_files(es)[head.len() + k] == p);
            }
            assert(entry_files(es).contains(p));
        }
    }
}

/// Membership under a prefix: exactly the members of `ps`, each with `pre`
/// in front.
pub proof fn lemma_pre_all_contains(pre: Seq<Seq<u8>>, ps: Seq<Seq<Seq<u8>>>, p: Seq<Seq<u8>>)
    ensures
        pre_all(pre, ps).contains(p) <==> (exists|q: Seq<Seq<u8>>| #[trigger] ps.contains(q) && p == pre + q),
{
    if pre_all(pre, ps).contains(p) {
        let k = choose|k: int| 0 <= k < pre_all(pre, ps).len() && pre_all(pre, ps)[k] == p;
        assert(ps.contains(ps[k]) && p == pre + ps[k]);
    }
    if exists|q: Seq<Seq<u8>>| #[trigger] ps.contains(q) && p == pre + q {
        let q = choose|q: Seq<Seq<u8>>| ps.contains(q) && p == pre + q;
        let k = choose|k: int| 0 <= k < ps.len() && ps[k] == q;
        assert(pre_all(pre, ps)[k] == p);
        assert(pre_all(pre, ps).contains(p));
    }
}

/// Membership in the subtree walks of a listing: exactly the members of
/// some entry's own walk.
pub proof fn lemma_sub_walks_contains(es: Seq<FsEntry>, p: Seq<Seq<u8>>)
    ensures
        sub_walks(es).contains(p) <==> (exists|i: int|
            0 <= i < es.len() && #[trigger] entry_walk(es[i]).contains(p)),
    decreases es.len(),
{
    if es.len() == 0 {
    } else {
        lemma_sub_walks_contains(es.drop_last(), p);
        let head = entry_walk(es.last());
        let tail = sub_walks(es.drop_last());
        assert(sub_walks(es) == head + tail);
        if sub_walks(es).contains(p) {
            let k = choose|k: int| 0 <= k < sub_walks(es).len() && sub_walks(es)[k] == p;
            if k < head.len() {
                assert(head[k] == p);
                assert(head.contains(p));
                assert(entry_walk(es[es.len() - 1]).contains(p));
            } else {
                assert(tail[k - head.len()] == p);
                assert(tail.contains(p));
                let i = choose|i: int|
                    0 <= i < es.drop_last().len() && #[trigger] entry_walk(
                        es.drop_last()[i],
                    ).contains(p);
                assert(es[i] == es.drop_last()[i]);
                assert(entry_walk(es[i]).contains(p));
            }
        }
        if exists|i: int| 0 <= i < es.len() && #[trigger] entry_walk(es[i]).contains(p) {
            let i = choose|i: int| 0 <= i < es.len() && #[trigger] entry_walk(es[i]).contains(p);
            if i == es.len() - 1 {
                let k = choose|k: int| 0 <= k < head.len() && head[k] == p;
                assert(sub_walks(es)[k] == p);
            } else {
                assert(es.drop_last()[i] == es[i]);
                assert(tail.contains(p));
                let k = choose|k: int| 0 <= k < tail.len() && tail[k] == p;
                assert(sub_walks(es)[head.len() + k] == p);
            }
            assert(sub_walks(es).contains(p));
        }
    }
}

/// Every visited path has at least one component.
pub proof fn lemma_walk_path_len(t: DirTree, p: Seq<Seq<u8>>)
    requires
        spec_walk(t).contains(p),
    ensures
        p.len() >= 1,
{
    if t.readable {
        let es = t.entries@;
        assert(spec_walk(t) == entry_files(es) + sub_walks(es));
        let k = choose|k: int| 0 <= k < spec_walk(t).len() && spec_walk(t)[k] == p;
        if k < entry_files(es).len() {
            assert(entry_files(es).contains(p));
            lemma_entry_files_contains(es, p);
        } else {
            assert(sub_walks(es)[k - entry_files(es).len()] == p);
            assert(sub_walks(es).contains(p));
            lemma_sub_walks_contains(es, p);
            let i = choose|i: int| 0 <= i < es.len() && #[trigger] entry_walk(es[i]).contains(p);
            match es[i] {
                FsEntry::Dir { name, tree } => {
                    lemma_pre_all_contains(seq![name@], spec_walk(tree), p);
                },
                _ => {
                    assert(entry_walk(es[i]).len() == 0);
                },
            }
        }
    }
}

proof fn lemma_walk_exactly_reachable_one(t: DirTree, p: Seq<Seq<u8>>)
    ensures
        spec_walk(t).contains(p) <==> is_reachable_file(t, p),
    decreases t,
{
    if !t.readable {
        assert(!spec_walk(t).contains(p));
        assert(!is_reachable_file(t, p));
    } else {
        let es = t.entries@;
        assert(spec_walk(t) == entry_files(es) + sub_walks(es));
        lemma_entry_files_contains(es, p);
        lemma_sub_walks_contains(es, p);
        if spec_walk(t).contains(p) {
            let k = choose|k: int| 0 <= k < spec_walk(t).len() && spec_walk(t)[k] == p;
            if k < entry_files(es).len() {
                assert(entry_files(es)[k] == p);
                assert(entry_files(es).contains(p));
                let i = choose|i: int|
                    0 <= i < es.len() && ((#[trigger] es[i]) matches FsEntry::File { name } && p
                        == seq![name@]);
                assert(is_reachable_file(t, p));
            } else {
                assert(sub_walks(es)[k - entry_files(es).len()] == p);
                assert(sub_walks(es).contains(p));
                let i = choose|i: int|
                    0 <= i < es.len() && #[trigger] entry_walk(es[i]).contains(p);
                match es[i] {
                    FsEntry::Dir { name, tree } => {
                        lemma_pre_all_contains(seq![name@], spec_walk(tree), p);
                        let q = choose|q: Seq<Seq<u8>>|
                            #[trigger] spec_walk(tree).contains(q) && p == seq![name@] + q;
                        lemma_walk_exactly_reachable_one(tree, q);
                        assert(is_reachable_file(tree, q));
                        assert(q.len() >= 1);
                        assert(p.len() == 1 + q.len());
                        assert(p[0] == name@);
                        assert(p.drop_first() =~= q);
                        assert(is_reachable_file(t, p));
                    },
                    _ => {
                        assert(entry_walk(es[i]).len() == 0);
                    },
                }
            }
        }
        if is_reachable_file(t, p) {
            if p.len() == 1 {
                let i = choose|i: int|
                    0 <= i < es.len() && ((#[trigger] es[i]) matches FsEntry::File { name }
                        && name@ == p[0]);
                assert(p =~= seq![p[0]]);
                assert(entry_files(es).contains(p));
                let k = choose|k: int| 0 <= k < entry_files(es).len() && entry_files(es)[k] == p;
                assert(spec_walk(t)[k] == p);
                assert(spec_walk(t).contains(p));
            } else {
                let i = choose|i: int|
                    0 <= i < es.len() && ((#[trigger] es[i]) matches FsEntry::Dir { name, tree }
                        && name@ == p[0] && is_reachable_file(tree, p.drop_first()));
                match es[i] {
                    FsEntry::Dir { name, tree } => {
                        lemma_walk_exactly_reachable_one(tree, p.drop_first());
                        assert(spec_walk(tree).contains(p.drop_first()));
                        lemma_pre_all_contains(seq![name@], spec_walk(tree), p);
                        assert(p =~= seq![name@] + p.drop_first());
                        assert(entry_walk(es[i]).contains(p));
                        assert(sub_walks(es).contains(p));
                        let k = choose|k: int|
                            0 <= k < sub_walks(es).len() && sub_walks(es)[k] == p;
                        assert(spec_walk(t)[entry_files(es).len() + k] == p);
                        assert(spec_walk(t).contains(p));
                    },
                    _ => {},
                }
            }
        }
    }
}

/// What one traversal visits is exactly the set of regular files reachable
/// from the root through readable directories.
pub proof fn lemma_walk_exactly_reachable(t: DirTree)
    ensures
        forall|p: Seq<Seq<u8>>| #[trigger]
            spec_walk(t).contains(p) <==> is_reachable_file(t, p),
{
    assert forall|p: Seq<Seq<u8>>| #[trigger]
        spec_walk(t).contains(p) <==> is_reachable_file(t, p) by {
        lemma_walk_exactly_reachable_one(t, p);
    }
}

proof fn lemma_entry_files_no_dup(es: Seq<FsEntry>)
    requires
        forall|i: int, j: int| 0 <= i < j < es.len() ==> entry_name(es[i]) != entry_name(es[j]),
    ensures
        entry_files(es).no_duplicates(),
    decreases es.len(),
{
    if es.len() > 0 {
        lemma_entry_files_no_dup(es.drop_first());
        let head = (match es[0] {
            FsEntry::File { name } => seq![seq![name@]],
            _ => Seq::<Seq<Seq<u8>>>::empty(),
        });
        let tail = entry_files(es.drop_first());
        assert(entry_files(es) == head + tail);
        assert forall|a: int, b: int|
            0 <= a < entry_files(es).len() && 0 <= b < entry_files(es).len() && a != b implies
            entry_files(es)[a] != entry_files(es)[b] by {
            if a < head.len() && b >= head.len() {
                lemma_head_file_not_in_tail(es, b - head.len());
            } else if b < head.len() && a >= head.len() {
                lemma_head_file_not_in_tail(es, a - head.len());
            } else if a >= head.len() && b >= head.len() {
                assert(tail[a - head.len()] != tail[b - head.len()]);
            }
        }
    }
}

proof fn lemma_head_file_not_in_tail(es: Seq<FsEntry>, k: int)
    requires
        es.len() > 0,
        forall|i: int, j: int| 0 <= i < j < es.len() ==> entry_name(es[i]) != entry_name(es[j]),
        es[0] matches FsEntry::File { .. },
        0 <= k < entry_files(es.drop_first()).len(),
    ensures
        entry_files(es)[0] != entry_files(es.drop_first())[k],
{
    let tail = entry_files(es.drop_first());
    assert(tail.contains(tail[k]));
    lemma_entry_files_contains(es.drop_first(), tail[k]);
    let i = choose|i: int|
        0 <= i < es.drop_first().len() && ((#[trigger] es.drop_first()[i])
            matches FsEntry::File { name } && tail[k] == seq![name@]);
    assert(es.drop_first()[i] == es[i + 1]);
    assert(entry_name(es[0]) != entry_name(es[i + 1]));
    match es[0] {
        FsEntry::File { name } => {
            assert(entry_files(es)[0] == seq![name@]);
            assert(tail[k][0] == entry_name(es[i + 1]));
        },
        _ => {},
    }
}

proof fn lemma_walk_no_dup_rec(t: DirTree)
    requires
        wf_tree(t),
    ensures
        spec_walk(t).no_duplicates(),
    decreases t, 2int, 0int,
{
    if !t.readable {
    } else {
        let es = t.entries@;
        assert(spec_walk(t) == entry_files(es) + sub_walks(es));
        lemma_entry_files_no_dup(es);
        lemma_sub_walks_no_dup(t, es.len() as int);
        assert(sub_walks(es.take(es.len() as int)) == sub_walks(es)) by {
            assert(es.take(es.len() as int) =~= es);
        }
        let fs = entry_files(es);
        let sw = sub_walks(es);
        assert forall|a: int, b: int|
            0 <= a < spec_walk(t).len() && 0 <= b < spec_walk(t).len() && a != b implies
            spec_walk(t)[a] != spec_walk(t)[b] by {
            if a < fs.len() && b >= fs.len() {
                lemma_file_sub_distinct(t, a, b - fs.len());
            } else if b < fs.len() && a >= fs.len() {
                lemma_file_sub_distinct(t, b, a - fs.len());
            } else if a < fs.len() && b < fs.len() {
                assert(fs[a] != fs[b]);
            } else {
                assert(sw[a - fs.len()] != sw[b - fs.len()]);
            }
        }
    }
}

/// A file path of this listing (one component) never equals a path from a
/// subtree (at least two components).
proof fn lemma_file_sub_distinct(t: DirTree, a: int, k: int)
    requires
        t.readable,
        0 <= a < entry_files(t.entries@).len(),
        0 <= k < sub_walks(t.entries@).len(),
    ensures
        entry_files(t.entries@)[a] != sub_walks(t.entries@)[k],
{
    let es = t.entries@;
    let fs = entry_files(es);
    let sw = sub_walks(es);
    assert(fs.contains(fs[a]));
    lemma_entry_files_contains(es, fs[a]);
    assert(fs[a].len() == 1);
    assert(sw.contains(sw[k]));
    lemma_sub_walks_contains(es, sw[k]);
    let i = choose|i: int| 0 <= i < es.len() && #[trigger] entry_walk(es[i]).contains(sw[k]);
    match es[i] {
        FsEntry::Dir { name, tree } => {
            lemma_pre_all_contains(seq![name@], spec_walk(tree), sw[k]);
            let q = choose|q: Seq<Seq<u8>>|
                #[trigger] spec_walk(tree).contains(q) && sw[k] == seq![name@] + q;
            lemma_walk_path_len(tree, q);
            assert(sw[k].len() >= 2);
        },
        _ => {
            assert(entry_walk(es[i]).len() == 0);
        },
    }
}

/// No path is visited twice among the subtrees of the first `n` entries.
proof fn lemma_sub_walks_no_dup(t: DirTree, n: int)
    requires
        wf_tree(t),
        t.readable,
        0 <= n <= t.entries@.len(),
    ensures
        sub_walks(t.entries@.take(n)).no_duplicates(),
    decreases t, 1int, n,
{
    let es = t.entries@;
    if n > 0 {
        lemma_sub_walks_no_dup(t, n - 1);
        let cur = es.take(n);
        assert(cur.last() == es[n - 1]);
        assert(cur.drop_last() =~= es.take(n - 1));
        let head = entry_walk(es[n - 1]);
        let tail = sub_walks(es.take(n - 1));
        assert(sub_walks(cur) == head + tail);
        assert(head.no_duplicates()) by {
            lemma_entry_walk_no_dup(t, n - 1);
        }
        assert forall|a: int, b: int|
            0 <= a < sub_walks(cur).len() && 0 <= b < sub_walks(cur).len() && a != b implies
            sub_walks(cur)[a] != sub_walks(cur)[b] by {
            if a < head.len() && b >= head.len() {
                lemma_sub_walks_cross_distinct(t, n, a, b - head.len());
            } else if b < head.len() && a >= head.len() {
                lemma_sub_walks_cross_distinct(t, n, b, a - head.len());
            } else if a < head.len() && b < head.len() {
                assert(head[a] != head[b]);
            } else {
                assert(tail[a - head.len()] != tail[b - head.len()]);
            }
        }
    }
}

/// A path below entry `n - 1` never equals a path below an earlier entry:
/// their first components are the two distinct directory names.
proof fn lemma_sub_walks_cross_distinct(t: DirTree, n: int, a: int, k: int)
    requires
        wf_tree(t),
        t.readable,
        0 < n <= t.entries@.len(),
        0 <= a < entry_walk(t.entries@[n - 1]).len(),
        0 <= k < sub_walks(t.entries@.take(n - 1)).len(),
    ensures
        entry_walk(t.entries@[n - 1])[a] != sub_walks(t.entries@.take(n - 1))[k],
{
    let es = t.entries@;
    let head = entry_walk(es[n - 1]);
    let tail = sub_walks(es.take(n - 1));
    assert(head.contains(head[a]));
    assert(tail.contains(tail[k]));
    lemma_sub_walks_contains(es.take(n - 1), tail[k]);
    let i = choose|i: int|
        0 <= i < es.take(n - 1).len() && #[trigger] entry_walk(es.take(n - 1)[i]).contains(
            tail[k],
        );
    assert(es.take(n - 1)[i] == es[i]);
    match es[n - 1] {
        FsEntry::Dir { name, tree } => {
            lemma_pre_all_contains(seq![name@], spec_walk(tree), head[a]);
            let q = choose|q: Seq<Seq<u8>>|
                #[trigger] spec_walk(tree).contains(q) && head[a] == seq![name@] + q;
            assert(head[a][0] == name@);
            assert(head[a][0] == entry_name(es[n - 1]));
            match es[i] {
                FsEntry::Dir { name: name2, tree: tree2 } => {
                    lemma_pre_all_contains(seq![name2@], spec_walk(tree2), tail[k]);
                    let q2 = choose|q2: Seq<Seq<u8>>|
                        #[trigger] spec_walk(tree2).contains(q2) && tail[k] == seq![name2@] + q2;
                    assert(tail[k][0] == name2@);
                    assert(tail[k][0] == entry_name(es[i]));
                    assert(entry_name(es[i]) != entry_name(es[n - 1]));
                },
                _ => {
                    assert(entry_walk(es[i]).len() == 0);
                },
            }
        },
        _ => {
            assert(entry_walk(es[n - 1]).len() == 0);
        },
    }
}

/// The paths below one readable directory entry are distinct, each being a
/// distinct subtree path under the entry's name.
proof fn lemma_entry_walk_no_dup(t: DirTree, i: int)
    requires
        wf_tree(t),
        t.readable,
        0 <= i < t.entries@.len(),
    ensures
        entry_walk(t.entries@[i]).no_duplicates(),
    decreases t, 0int, 0int,
{
    let es = t.entries@;
    match es[i] {
        FsEntry::Dir { name, tree } => {
            assert(wf_tree(tree));
            lemma_walk_no_dup_rec(tree);
            let ps = spec_walk(tree);
            let mapped = pre_all(seq![name@], ps);
            assert forall|a: int, b: int|
                0 <= a < mapped.len() && 0 <= b < mapped.len() && a != b implies mapped[a]
                != mapped[b] by {
                assert(mapped[a] == seq![name@] + ps[a]);
                assert(mapped[b] == seq![name@] + ps[b]);
                assert(ps[a] != ps[b]);
                assert((seq![name@] + ps[a]).skip(1) =~= ps[a]);
                assert((seq![name@] + ps[b]).skip(1) =~= ps[b]);
            }
        },
        _ => {},
    }
}

/// No file is ever visited twice: in a well-formed tree — sibling names
/// distinct, as a real directory guarantees — the traversal's paths carry
/// no duplicates.
pub proof fn lemma_walk_no_duplicates(t: DirTree)
    requires
        wf_tree(t),
    ensures
        spec_walk(t).no_duplicates(),
{
    lemma_walk_no_dup_rec(t);
}

} // verus!
