//! Path model: a path is a list of name components, each a byte string.
//! A `RelPath` is relative to some root; an `AbsPath` is rooted. Extension
//! lookup, depth, prefix stripping and ancestor cutting are defined here.

use vstd::prelude::*;

verus! {

/// View of a component list: the sequence of the components' byte sequences.
pub open spec fn bytes_view(v: Seq<Vec<u8>>) -> Seq<Seq<u8>> {
    v.map_values(|c: Vec<u8>| c@)
}

/// Index of the last `.` in a name, or -1 when it has none.
pub open spec fn spec_last_dot(name: Seq<u8>) -> int
    decreases name.len(),
{
    if name.len() == 0 {
        -1
    } else if name.last() == 46u8 {
        name.len() - 1
    } else {
        spec_last_dot(name.drop_last())
    }
}

/// Extension of a single name: the bytes after the last `.`, provided that
/// dot is preceded by a non-empty stem. A name with no dot, or only a
/// leading dot, has no extension.
pub open spec fn spec_extension(name: Seq<u8>) -> Option<Seq<u8>> {
    let d = spec_last_dot(name);
    if d >= 1 {
        Some(name.subrange(d + 1, name.len() as int))
    } else {
        None
    }
}

/// Extension of a path: the extension of its final component.
pub open spec fn spec_path_extension(p: Seq<Seq<u8>>) -> Option<Seq<u8>> {
    if p.len() == 0 {
        None
    } else {
        spec_extension(p.last())
    }
}

/// Whether a path's extension is one of `extensions`.
pub open spec fn spec_contains_any_extension(p: Seq<Seq<u8>>, extensions: Seq<Seq<u8>>) -> bool {
    match spec_path_extension(p) {
        Some(e) => extensions.contains(e),
        None => false,
    }
}

pub proof fn lemma_bytes_view_push(s: Seq<Vec<u8>>, x: Vec<u8>)
    ensures
        bytes_view(s.push(x)) =~= bytes_view(s).push(x@),
{
    assert forall|k: int| 0 <= k < s.len() + 1 implies bytes_view(s.push(x))[k] == bytes_view(
        s,
    ).push(x@)[k] by {
        if k < s.len() {
            assert(s.push(x)[k] == s[k]);
        } else {
            assert(s.push(x)[k] == x);
        }
    }
}

proof fn lemma_last_dot_bounds(name: Seq<u8>)
    ensures
        -1 <= spec_last_dot(name) < name.len(),
        spec_last_dot(name) >= 0 ==> name[spec_last_dot(name)] == 46u8,
    decreases name.len(),
{
    if name.len() > 0 && name.last() != 46u8 {
        lemma_last_dot_bounds(name.drop_last());
    }
}

/// Copy a byte string.
pub fn copy_bytes(v: &Vec<u8>) -> (r: Vec<u8>)
    ensures
        r@ == v@,
{
    vstd::slice::slice_to_vec(v.as_slice())
}

/// Byte-string equality, stated over the views.
pub fn bytes_eq(a: &Vec<u8>, b: &Vec<u8>) -> (r: bool)
    ensures
        r == (a@ == b@),
{
    if a.len() != b.len() {
        return false;
    }
    let mut i: usize = 0;
    while i < a.len()
        invariant
            i <= a.len(),
            a@.len() == b@.len(),
            forall|k: int| 0 <= k < i ==> a@[k] == b@[k],
        decreases a.len() - i,
    {
        if a[i] != b[i] {
            return false;
        }
        i += 1;
    }
    proof {
        assert(a@ =~= b@);
    }
    true
}

/// Copy a component list.
pub fn copy_components(v: &Vec<Vec<u8>>) -> (r: Vec<Vec<u8>>)
    ensures
        bytes_view(r@) == bytes_view(v@),
{
    let mut r: Vec<Vec<u8>> = Vec::new();
    let mut i: usize = 0;
    while i < v.len()
        invariant
            i <= v.len(),
            bytes_view(r@) == bytes_view(v@).take(i as int),
        decreases v.len() - i,
    {
        let c = copy_bytes(&v[i]);
        proof {
            lemma_bytes_view_push(r@, c);
        }
        r.push(c);
        proof {
            assert(bytes_view(r@) =~= bytes_view(v@).take(i + 1));
        }
        i += 1;
    }
    proof {
        assert(bytes_view(v@).take(v@.len() as int) =~= bytes_view(v@));
    }
    r
}

/// Index of the last `.` of a name, or `None` when it has none.
fn last_dot(name: &Vec<u8>) -> (r: Option<usize>)
    ensures
        match r {
            Some(i) => spec_last_dot(name@) == i as int,
            None => spec_last_dot(name@) == -1,
        },
{
    proof {
        assert(name@.take(name@.len() as int) =~= name@);
    }
    let mut j: usize = name.len();
    while j > 0
        invariant
            j <= name.len(),
            spec_last_dot(name@) == spec_last_dot(name@.take(j as int)),
        decreases j,
    {
        proof {
            assert(name@.take(j as int).drop_last() =~= name@.take(j - 1));
        }
        if name[j - 1] == 46u8 {
            return Some(j - 1);
        }
        j -= 1;
    }
    None
}

/// Extension of a single name, as its own byte string.
pub fn extension_of(name: &Vec<u8>) -> (r: Option<Vec<u8>>)
    ensures
        match r {
            Some(e) => spec_extension(name@) == Some(e@),
            None => spec_extension(name@) is None,
        },
{
    proof {
        lemma_last_dot_bounds(name@);
    }
    let n = name.len();
    match last_dot(name) {
        Some(d) if d >= 1 => {
            proof {
                assert(d < n);
            }
            let mut e: Vec<u8> = Vec::new();
            let mut i: usize = d + 1;
            while i < name.len()
                invariant
                    d + 1 <= i <= name@.len(),
                    e@ == name@.subrange(d + 1, i as int),
                decreases name.len() - i,
            {
                e.push(name[i]);
                proof {
                    assert(e@ =~= name@.subrange(d + 1, i + 1));
                }
                i += 1;
            }
            Some(e)
        },
        _ => None,
    }
}

/// A relative path: components below some root directory.
pub struct RelPath {
    pub components: Vec<Vec<u8>>,
}

/// An absolute path: components below the filesystem root.
pub struct AbsPath {
    pub components: Vec<Vec<u8>>,
}

impl View for RelPath {
    type V = Seq<Seq<u8>>;

    open spec fn view(&self) -> Seq<Seq<u8>> {
        bytes_view(self.components@)
    }
}

impl View for AbsPath {
    type V = Seq<Seq<u8>>;

    open spec fn view(&self) -> Seq<Seq<u8>> {
        bytes_view(self.components@)
    }
}

/// The extra path methods that the distribution tasks rely on.
pub trait DistributionPath: Sized {
    spec fn path_view(&self) -> Seq<Seq<u8>>;

    /// Whether the path ends with any of the given extensions.
    fn contains_any_extension(&self, extensions: &Vec<Vec<u8>>) -> (r: bool)
        ensures
            r == spec_contains_any_extension(self.path_view(), bytes_view(extensions@)),
    ;

    /// Number of components below the path's root.
    fn relative_depth(&self) -> (r: usize)
        ensures
            r == self.path_view().len(),
    ;

    /// Walk up `depth` ancestor levels; `None` when the path is too shallow.
    fn cut_children(&self, depth: usize) -> (r: Option<Self>)
        ensures
            match r {
                Some(p) => depth <= self.path_view().len() && p.path_view()
                    == self.path_view().take(self.path_view().len() - depth),
                None => depth > self.path_view().len(),
            },
    ;
}

fn components_contain_ext(components: &Vec<Vec<u8>>, extensions: &Vec<Vec<u8>>) -> (r: bool)
    ensures
        r == spec_contains_any_extension(bytes_view(components@), bytes_view(extensions@)),
{
    if components.len() == 0 {
        return false;
    }
    let name = &components[components.len() - 1];
    proof {
        assert(bytes_view(components@).last() == name@);
    }
    match extension_of(name) {
        None => false,
        Some(e) => {
            let mut i: usize = 0;
            while i < extensions.len()
                invariant
                    i <= extensions.len(),
                    spec_extension(name@) == Some(e@),
                    components@.len() > 0,
                    bytes_view(components@).last() == name@,
                    forall|k: int| 0 <= k < i ==> bytes_view(extensions@)[k] != e@,
                decreases extensions.len() - i,
            {
                if bytes_eq(&e, &extensions[i]) {
                    proof {
                        assert(bytes_view(extensions@)[i as int] == e@);
                        assert(bytes_view(extensions@).contains(e@));
                    }
                    return true;
                }
                i += 1;
            }
            proof {
                assert(forall|k: int|
                    0 <= k < bytes_view(extensions@).len() ==> bytes_view(extensions@)[k] != e@);
            }
            false
        },
    }
}

fn components_cut(components: &Vec<Vec<u8>>, depth: usize) -> (r: Option<Vec<Vec<u8>>>)
    ensures
        match r {
            Some(c) => depth <= components@.len() && bytes_view(c@)
                == bytes_view(components@).take(components@.len() - depth),
            None => depth > components@.len(),
        },
{
    if depth > components.len() {
        return None;
    }
    let keep: usize = components.len() - depth;
    let mut r: Vec<Vec<u8>> = Vec::new();
    let mut i: usize = 0;
    while i < keep
        invariant
            i <= keep <= components@.len(),
            bytes_view(r@) == bytes_view(components@).take(i as int),
        decreases keep - i,
    {
        let c = copy_bytes(&components[i]);
        proof {
            lemma_bytes_view_push(r@, c);
        }
        r.push(c);
        proof {
            assert(bytes_view(r@) =~= bytes_view(components@).take(i + 1));
        }
        i += 1;
    }
    Some(r)
}

impl DistributionPath for RelPath {
    open spec fn path_view(&self) -> Seq<Seq<u8>> {
        self@
    }

    fn contains_any_extension(&self, extensions: &Vec<Vec<u8>>) -> (r: bool) {
        components_contain_ext(&self.components, extensions)
    }

    fn relative_depth(&self) -> (r: usize) {
        self.components.len()
    }

    fn cut_children(&self, depth: usize) -> (r: Option<Self>) {
        match components_cut(&self.components, depth) {
            Some(c) => Some(RelPath { components: c }),
            None => None,
        }
    }
}

impl RelPath {
    /// The empty relative path: the root itself.
    pub fn empty() -> (r: RelPath)
        ensures
            r@ == Seq::<Seq<u8>>::empty(),
    {
        let r = RelPath { components: Vec::new() };
        proof {
            assert(r@ =~= Seq::<Seq<u8>>::empty());
        }
        r
    }

    /// Copy this path.
    pub fn duplicate(&self) -> (r: RelPath)
        ensures
            r@ == self@,
    {
        RelPath { components: copy_components(&self.components) }
    }

    /// This path extended by all components of `other`.
    pub fn join(&self, other: &RelPath) -> (r: RelPath)
        ensures
            r@ == self@ + other@,
    {
        let mut c = copy_components(&self.components);
        let mut i: usize = 0;
        while i < other.components.len()
            invariant
                i <= other.components@.len(),
                bytes_view(c@) == self@ + other@.take(i as int),
            decreases other.components.len() - i,
        {
            let nm = copy_bytes(&other.components[i]);
            proof {
                lemma_bytes_view_push(c@, nm);
            }
            c.push(nm);
            proof {
                assert(bytes_view(c@) =~= self@ + other@.take(i + 1));
            }
            i += 1;
        }
        proof {
            assert(self@ + other@.take(other@.len() as int) =~= self@ + other@);
        }
        RelPath { components: c }
    }

    /// This path extended by one more name.
    pub fn join_name(&self, name: &Vec<u8>) -> (r: RelPath)
        ensures
            r@ == self@.push(name@),
    {
        let mut c = copy_components(&self.components);
        c.push(copy_bytes(name));
        proof {
            assert(bytes_view(c@) =~= self@.push(name@));
        }
        RelPath { components: c }
    }
}

impl AbsPath {
    /// Copy this path.
    pub fn duplicate(&self) -> (r: AbsPath)
        ensures
            r@ == self@,
    {
        AbsPath { components: copy_components(&self.components) }
    }

    /// This path extended by all components of `other`.
    pub fn join(&self, other: &RelPath) -> (r: AbsPath)
        ensures
            r@ == self@ + other@,
    {
        let below = RelPath { components: copy_components(&self.components) };
        let joined = below.join(other);
        AbsPath { components: joined.components }
    }

    /// This path extended by one more name.
    pub fn join_name(&self, name: &Vec<u8>) -> (r: AbsPath)
        ensures
            r@ == self@.push(name@),
    {
        let mut c = copy_components(&self.components);
        let nm = copy_bytes(name);
        proof {
            lemma_bytes_view_push(c@, nm);
        }
        c.push(nm);
        proof {
            assert(bytes_view(c@) =~= self@.push(name@));
        }
        AbsPath { components: c }
    }

    /// Whether the path ends with any of the given extensions.
    pub fn contains_any_extension(&self, extensions: &Vec<Vec<u8>>) -> (r: bool)
        ensures
            r == spec_contains_any_extension(self@, bytes_view(extensions@)),
    {
        components_contain_ext(&self.components, extensions)
    }

    /// Walk up `depth` ancestor levels; `None` when that runs above the root.
    pub fn cut_children(&self, depth: usize) -> (r: Option<AbsPath>)
        ensures
            match r {
                Some(p) => depth <= self@.len() && p@ == self@.take(self@.len() - depth),
                None => depth > self@.len(),
            },
    {
        match components_cut(&self.components, depth) {
            Some(c) => Some(AbsPath { components: c }),
            None => None,
        }
    }

    /// The parent directory; `None` at the filesystem root.
    pub fn parent(&self) -> (r: Option<AbsPath>)
        ensures
            match r {
                Some(p) => self@.len() >= 1 && p@ == self@.drop_last(),
                None => self@.len() == 0,
            },
    {
        let r = self.cut_children(1);
        proof {
            if self@.len() >= 1 {
                assert(self@.take(self@.len() - 1) =~= self@.drop_last());
            }
        }
        r
    }

    /// Strip `prefix` from the front of this path, leaving the remainder
    /// relative to it; `None` when `prefix` is not a prefix of this path.
    pub fn strip_prefix(&self, prefix: &AbsPath) -> (r: Option<RelPath>)
        ensures
            match r {
                Some(rel) => prefix@.is_prefix_of(self@) && rel@ == self@.skip(
                    prefix@.len() as int,
                ),
                None => !prefix@.is_prefix_of(self@),
            },
    {
        if prefix.components.len() > self.components.len() {
            proof {
                assert(!prefix@.is_prefix_of(self@));
            }
            return None;
        }
        let mut i: usize = 0;
        while i < prefix.components.len()
            invariant
                i <= prefix.components@.len() <= self.components@.len(),
                forall|k: int| 0 <= k < i ==> prefix@[k] == self@[k],
            decreases prefix.components.len() - i,
        {
            if !bytes_eq(&prefix.components[i], &self.components[i]) {
                proof {
                    assert(prefix@[i as int] != self@[i as int]);
                    assert(!prefix@.is_prefix_of(self@));
                }
                return None;
            }
            i += 1;
        }
        proof {
            assert(prefix@ =~= self@.take(prefix@.len() as int));
        }
        let mut c: Vec<Vec<u8>> = Vec::new();
        let mut k: usize = prefix.components.len();
        while k < self.components.len()
            invariant
                prefix.components@.len() <= k <= self.components@.len(),
                bytes_view(c@) == self@.subrange(prefix.components@.len() as int, k as int),
            decreases self.components.len() - k,
        {
            let nm = copy_bytes(&self.components[k]);
            proof {
                lemma_bytes_view_push(c@, nm);
            }
            c.push(nm);
            proof {
                assert(bytes_view(c@) =~= self@.subrange(prefix.components@.len() as int, k + 1));
            }
            k += 1;
        }
        proof {
            assert(self@.subrange(prefix.components@.len() as int, self@.len() as int) =~= self@
                .skip(prefix@.len() as int));
        }
        Some(RelPath { components: c })
    }
}

} // verus!
