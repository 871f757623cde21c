//! Rename-on-copy rules: a static list mapping a source subtree prefix to a
//! renamed destination prefix. When an input path falls under a rule's
//! source prefix, the trailing segments of the naive output path are
//! replaced by the renamed relative path; when the output path is too
//! shallow for that, the naive path is kept unchanged.

use vstd::prelude::*;

use crate::pathname::{AbsPath, DistributionPath, RelPath};

verus! {

/// One rule: strip `source_prefix` from the input, and land the remainder
/// under `destination_prefix` in the output tree.
pub struct RenameRule {
    pub source_prefix: AbsPath,
    pub destination_prefix: RelPath,
}

pub open spec fn rules_view(s: Seq<RenameRule>) -> Seq<(Seq<Seq<u8>>, Seq<Seq<u8>>)> {
    s.map_values(|r: RenameRule| (r.source_prefix@, r.destination_prefix@))
}

/// The output a single matching rule produces: the renamed relative path,
/// re-joined onto the naive output with as many trailing segments cut as
/// the renamed path is deep; the naive output unchanged when it has too few
/// ancestors for that.
pub open spec fn spec_resolve_one(
    src: Seq<Seq<u8>>,
    dst: Seq<Seq<u8>>,
    input: Seq<Seq<u8>>,
    naive: Seq<Seq<u8>>,
) -> Seq<Seq<u8>> {
    let renamed = dst + input.skip(src.len() as int);
    if renamed.len() <= naive.len() {
        naive.take(naive.len() - renamed.len()) + renamed
    } else {
        naive
    }
}

/// The output path after the first matching rule, or the naive output when
/// no rule matches.
pub open spec fn spec_resolve(
    rules: Seq<(Seq<Seq<u8>>, Seq<Seq<u8>>)>,
    input: Seq<Seq<u8>>,
    naive: Seq<Seq<u8>>,
) -> Seq<Seq<u8>>
    decreases rules.len(),
{
    if rules.len() == 0 {
        naive
    } else if rules[0].0.is_prefix_of(input) {
        spec_resolve_one(rules[0].0, rules[0].1, input, naive)
    } else {
        spec_resolve(rules.drop_first(), input, naive)
    }
}

/// Reroute a transform's output path through the configured rename rules:
/// the first rule whose source prefix can be stripped from `full_input`
/// decides; without a match, or when `full_output` runs out of ancestors,
/// the naive output stands.
pub fn handle_minify_directory_renaming(
    rules: &Vec<RenameRule>,
    full_input: &AbsPath,
    full_output: &AbsPath,
) -> (r: AbsPath)
    ensures
        r@ == spec_resolve(rules_view(rules@), full_input@, full_output@),
{
    let ghost rv = rules_view(rules@);
    proof {
        assert(rv.skip(0) =~= rv);
    }
    let mut i: usize = 0;
    while i < rules.len()
        invariant
            i <= rules@.len(),
            rv == rules_view(rules@),
            spec_resolve(rv, full_input@, full_output@) == spec_resolve(
                rv.skip(i as int),
                full_input@,
                full_output@,
            ),
        decreases rules.len() - i,
    {
        proof {
            assert(rv.skip(i as int)[0] == rv[i as int]);
            assert(rv.skip(i as int).drop_first() =~= rv.skip(i + 1));
        }
        let rule = &rules[i];
        match full_input.strip_prefix(&rule.source_prefix) {
            Some(rel) => {
                let renamed = rule.destination_prefix.join(&rel);
                let depth = renamed.relative_depth();
                proof {
                    assert(renamed@ == rv[i as int].1 + full_input@.skip(
                        rv[i as int].0.len() as int,
                    ));
                }
                match full_output.cut_children(depth) {
                    Some(base) => {
                        let out = base.join(&renamed);
                        return out;
                    },
                    None => {
                        return full_output.duplicate();
                    },
                }
            },
            None => {},
        }
        i += 1;
    }
    proof {
        assert(rv.skip(rules@.len() as int) =~= Seq::<(Seq<Seq<u8>>, Seq<Seq<u8>>)>::empty());
    }
    full_output.duplicate()
}

} // verus!
