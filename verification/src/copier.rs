//! Filtered tree copy, planned over a directory snapshot: every file the
//! walker visits is included or excluded by its extension, and each included
//! file becomes one copy action from the source root to the destination
//! root. Executing the actions (creating directories, copying bytes) is the
//! host's part; per-file failures there are logged and skipped.

use vstd::prelude::*;

use crate::fstree::{DirTree, spec_walk, spec_walk_issues};
use crate::pathname::{
    AbsPath, DistributionPath, RelPath, bytes_view, extension_of, spec_path_extension,
};
use crate::walker::{WalkError, WalkIssue, issues_view, paths_view, walk};

verus! {

/// One copy action: read `from`, write `to`.
pub struct CopyItem {
    pub from: AbsPath,
    pub to: AbsPath,
}

/// A planned filtered copy: the actions to take and the entries the
/// traversal had to skip.
pub struct CopyPlan {
    pub items: Vec<CopyItem>,
    pub issues: Vec<WalkIssue>,
}

pub open spec fn items_view(s: Seq<CopyItem>) -> Seq<(Seq<Seq<u8>>, Seq<Seq<u8>>)> {
    s.map_values(|it: CopyItem| (it.from@, it.to@))
}

/// Whether a file is included by the extension filter: with a non-empty
/// filter set, a file is included exactly when having a listed extension
/// matches the allow-list sense, and a file with no extension never is;
/// an empty filter set includes everything in deny-list sense and nothing
/// in allow-list sense.
pub open spec fn spec_copy_included(
    p: Seq<Seq<u8>>,
    exts: Seq<Seq<u8>>,
    allow_listed: bool,
) -> bool {
    if exts.len() == 0 {
        !allow_listed
    } else {
        match spec_path_extension(p) {
            Some(e) => exts.contains(e) == allow_listed,
            None => false,
        }
    }
}

/// The copy actions for the visited files `ps`, in visit order: one action
/// per included file, joining its relative path onto both roots.
pub open spec fn spec_copy_items(
    ps: Seq<Seq<Seq<u8>>>,
    from: Seq<Seq<u8>>,
    to: Seq<Seq<u8>>,
    exts: Seq<Seq<u8>>,
    allow_listed: bool,
) -> Seq<(Seq<Seq<u8>>, Seq<Seq<u8>>)>
    decreases ps.len(),
{
    if ps.len() == 0 {
        Seq::empty()
    } else {
        (if spec_copy_included(ps[0], exts, allow_listed) {
            seq![(from + ps[0], to + ps[0])]
        } else {
            Seq::empty()
        }) + spec_copy_items(ps.drop_first(), from, to, exts, allow_listed)
    }
}

/// Whether the path's final component has any extension at all.
pub fn has_extension(p: &RelPath) -> (r: bool)
    ensures
        r == (spec_path_extension(p@) is Some),
{
    if p.components.len() == 0 {
        return false;
    }
    let name = &p.components[p.components.len() - 1];
    proof {
        assert(bytes_view(p.components@).last() == name@);
    }
    match extension_of(name) {
        Some(_) => true,
        None => false,
    }
}

/// The extension filter, as the copier applies it.
pub fn copy_included(p: &RelPath, extensions: &Vec<Vec<u8>>, allow_listed: bool) -> (r: bool)
    ensures
        r == spec_copy_included(p@, bytes_view(extensions@), allow_listed),
{
    if extensions.len() == 0 {
        !allow_listed
    } else if !has_extension(p) {
        false
    } else {
        p.contains_any_extension(extensions) == allow_listed
    }
}

/// Plan a filtered copy of the tree under `from_dir` into `dest_dir`: every
/// visited file passing the filter becomes one copy action; entries the
/// traversal had to skip are reported. Only an unreadable root fails.
pub fn copy_file_tree_filtered(
    tree: &DirTree,
    from_dir: &AbsPath,
    dest_dir: &AbsPath,
    extensions: &Vec<Vec<u8>>,
    allow_listed: bool,
) -> (r: Result<CopyPlan, WalkError>)
    ensures
        r is Ok <==> tree.readable,
        (r matches Ok(plan) ==> items_view(plan.items@) == spec_copy_items(
            spec_walk(*tree),
            from_dir@,
            dest_dir@,
            bytes_view(extensions@),
            allow_listed,
        ) && issues_view(plan.issues@) == spec_walk_issues(*tree)),
{
    let report = walk(tree)?;
    let ghost pv = paths_view(report.files@);
    let ghost ev = bytes_view(extensions@);
    let mut items: Vec<CopyItem> = Vec::new();
    let mut k: usize = 0;
    proof {
        assert(pv.skip(0) =~= pv);
        assert(items_view(items@) =~= Seq::<(Seq<Seq<u8>>, Seq<Seq<u8>>)>::empty());
    }
    while k < report.files.len()
        invariant
            k <= report.files@.len(),
            pv == paths_view(report.files@),
            ev == bytes_view(extensions@),
            items_view(items@) + spec_copy_items(
                pv.skip(k as int),
                from_dir@,
                dest_dir@,
                ev,
                allow_listed,
            ) == spec_copy_items(pv, from_dir@, dest_dir@, ev, allow_listed),
        decreases report.files@.len() - k,
    {
        proof {
            assert(pv.skip(k as int)[0] == pv[k as int]);
            assert(pv.skip(k as int).drop_first() =~= pv.skip(k + 1));
            assert(pv[k as int] == report.files@[k as int]@);
        }
        let f = &report.files[k];
        if copy_included(f, extensions, allow_listed) {
            let item = CopyItem { from: from_dir.join(f), to: dest_dir.join(f) };
            let ghost iv = (item.from@, item.to@);
            let ghost items_before = items@;
            items.push(item);
            proof {
                assert forall|j: int| 0 <= j < items_before.len() + 1 implies items_view(
                    items@,
                )[j] == items_view(items_before).push(iv)[j] by {
                    if j < items_before.len() {
                        assert(items@[j] == items_before[j]);
                    } else {
                        assert(items@[j] == items@[items_before.len() as int]);
                    }
                }
                assert(items_view(items@) =~= items_view(items_before).push(iv));
                assert(items_view(items@) + spec_copy_items(
                    pv.skip(k + 1),
                    from_dir@,
                    dest_dir@,
                    ev,
                    allow_listed,
                ) =~= spec_copy_items(pv, from_dir@, dest_dir@, ev, allow_listed));
            }
        } else {
            proof {
                assert(Seq::<(Seq<Seq<u8>>, Seq<Seq<u8>>)>::empty() + spec_copy_items(
                    pv.skip(k + 1),
                    from_dir@,
                    dest_dir@,
                    ev,
                    allow_listed,
                ) =~= spec_copy_items(pv.skip(k as int), from_dir@, dest_dir@, ev, allow_listed));
            }
        }
        k += 1;
    }
    proof {
        assert(pv.skip(report.files@.len() as int) =~= Seq::<Seq<Seq<u8>>>::empty());
        assert(items_view(items@) + Seq::<(Seq<Seq<u8>>, Seq<Seq<u8>>)>::empty() =~= items_view(
            items@,
        ));
    }
    Ok(CopyPlan { items, issues: report.issues })
}

} // verus!
