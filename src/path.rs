//! Paths as sequences of components.
//!
//! An absolute path is the list of its normal components below the file
//! system root; a path relative to a root is the list of components below it.
use vstd::prelude::*;

verus! {

/// The components of one path, viewed as strings.
pub open spec fn parts_view(v: Seq<String>) -> Seq<Seq<char>> {
    v.map_values(|s: String| s@)
}

/// `dir` is a component-wise prefix of `p`: `p` lies at or below `dir`.
pub open spec fn is_under(dir: Seq<Seq<char>>, p: Seq<Seq<char>>) -> bool {
    dir.len() <= p.len() && p.subrange(0, dir.len() as int) == dir
}

/// `p` lies strictly below `dir`.
pub open spec fn is_strictly_under(dir: Seq<Seq<char>>, p: Seq<Seq<char>>) -> bool {
    is_under(dir, p) && dir.len() < p.len()
}

/// An absolute path, as its components.
#[derive(Debug)]
pub struct VfsPath {
    pub parts: Vec<String>,
}

/// A path relative to a root, as its components.
#[derive(Debug)]
pub struct RelPath {
    pub parts: Vec<String>,
}

impl View for VfsPath {
    type V = Seq<Seq<char>>;

    open spec fn view(&self) -> Seq<Seq<char>> {
        parts_view(self.parts@)
    }
}

impl View for RelPath {
    type V = Seq<Seq<char>>;

    open spec fn view(&self) -> Seq<Seq<char>> {
        parts_view(self.parts@)
    }
}

/// Compares two strings character by character.
pub fn str_eq(a: &str, b: &str) -> (r: bool)
    ensures
        r == (a@ == b@),
{
    let n = a.unicode_len();
    if n != b.unicode_len() {
        return false;
    }
    let mut i: usize = 0;
    while i < n
        invariant
            n == a@.len(),
            n == b@.len(),
            i <= n,
            a@.subrange(0, i as int) == b@.subrange(0, i as int),
        decreases n - i,
    {
        if a.get_char(i) != b.get_char(i) {
            assert(a@[i as int] != b@[i as int]);
            return false;
        }
        assert(a@.subrange(0, i + 1) == a@.subrange(0, i as int).push(a@[i as int]));
        assert(b@.subrange(0, i + 1) == b@.subrange(0, i as int).push(b@[i as int]));
        i = i + 1;
    }
    assert(a@ == a@.subrange(0, n as int));
    assert(b@ == b@.subrange(0, n as int));
    true
}

/// A copy of a list of components.
pub fn copy_parts(v: &Vec<String>) -> (r: Vec<String>)
    ensures
        parts_view(r@) == parts_view(v@),
{
    let mut r: Vec<String> = Vec::new();
    let mut i: usize = 0;
    while i < v.len()
        invariant
            i <= v@.len(),
            parts_view(r@) == parts_view(v@.subrange(0, i as int)),
        decreases v@.len() - i,
    {
        let ghost prev = r@;
        r.push(v[i].clone());
        assert(r@ == prev.push(v@[i as int]));
        assert(v@.subrange(0, i + 1) == v@.subrange(0, i as int).push(v@[i as int]));
        assert(parts_view(r@) =~= parts_view(prev).push(v@[i as int]@));
        assert(parts_view(v@.subrange(0, i + 1)) =~= parts_view(v@.subrange(0, i as int)).push(v@[i as int]@));
        i = i + 1;
    }
    assert(v@.subrange(0, i as int) == v@);
    r
}

/// Whether two lists of components are equal.
pub fn parts_eq(a: &Vec<String>, b: &Vec<String>) -> (r: bool)
    ensures
        r == (parts_view(a@) == parts_view(b@)),
{
    if a.len() != b.len() {
        assert(parts_view(a@).len() != parts_view(b@).len());
        return false;
    }
    let mut i: usize = 0;
    while i < a.len()
        invariant
            a@.len() == b@.len(),
            i <= a@.len(),
            forall|k: int| 0 <= k < i ==> a@[k]@ == b@[k]@,
        decreases a@.len() - i,
    {
        if a[i] != b[i] {
            assert(parts_view(a@)[i as int] != parts_view(b@)[i as int]);
            return false;
        }
        i = i + 1;
    }
    assert(parts_view(a@) =~= parts_view(b@));
    true
}

/// Whether `dir` is a component-wise prefix of `p`.
pub fn starts_with(p: &Vec<String>, dir: &Vec<String>) -> (r: bool)
    ensures
        r == is_under(parts_view(dir@), parts_view(p@)),
{
    if dir.len() > p.len() {
        return false;
    }
    let mut i: usize = 0;
    while i < dir.len()
        invariant
            dir@.len() <= p@.len(),
            i <= dir@.len(),
            forall|k: int| 0 <= k < i ==> p@[k]@ == dir@[k]@,
        decreases dir@.len() - i,
    {
        if p[i] != dir[i] {
            assert(parts_view(p@).subrange(0, dir@.len() as int)[i as int] != parts_view(dir@)[i as int]);
            return false;
        }
        i = i + 1;
    }
    assert(parts_view(p@).subrange(0, dir@.len() as int) =~= parts_view(dir@));
    true
}

/// The components of `p` below its first `n`.
pub fn skip_parts(p: &Vec<String>, n: usize) -> (r: Vec<String>)
    requires
        n <= p@.len(),
    ensures
        parts_view(r@) == parts_view(p@).skip(n as int),
{
    let mut r: Vec<String> = Vec::new();
    let mut i: usize = n;
    while i < p.len()
        invariant
            n <= i <= p@.len(),
            parts_view(r@) == parts_view(p@).subrange(n as int, i as int),
        decreases p@.len() - i,
    {
        let ghost prev = r@;
        r.push(p[i].clone());
        assert(r@ == prev.push(p@[i as int]));
        assert(parts_view(r@) =~= parts_view(prev).push(p@[i as int]@));
        assert(parts_view(p@).subrange(n as int, i + 1) =~= parts_view(p@).subrange(n as int, i as int).push(p@[i as int]@));
        i = i + 1;
    }
    assert(parts_view(r@) =~= parts_view(p@).skip(n as int));
    r
}

/// The components of `a` followed by those of `b`.
pub fn join_parts(a: &Vec<String>, b: &Vec<String>) -> (r: Vec<String>)
    ensures
        parts_view(r@) == parts_view(a@) + parts_view(b@),
{
    let mut r = copy_parts(a);
    let mut i: usize = 0;
    while i < b.len()
        invariant
            i <= b@.len(),
            parts_view(r@) == parts_view(a@) + parts_view(b@).subrange(0, i as int),
        decreases b@.len() - i,
    {
        let ghost prev = r@;
        r.push(b[i].clone());
        assert(r@ == prev.push(b@[i as int]));
        assert(parts_view(r@) =~= parts_view(prev).push(b@[i as int]@));
        assert(parts_view(b@).subrange(0, i + 1) =~= parts_view(b@).subrange(0, i as int).push(b@[i as int]@));
        assert(parts_view(r@) =~= parts_view(a@) + parts_view(b@).subrange(0, i + 1));
        i = i + 1;
    }
    assert(parts_view(b@).subrange(0, i as int) =~= parts_view(b@));
    r
}

impl VfsPath {
    /// A copy of this path.
    pub fn duplicate(&self) -> (r: VfsPath)
        ensures
            r@ == self@,
    {
        VfsPath { parts: copy_parts(&self.parts) }
    }
}

impl RelPath {
    /// A copy of this path.
    pub fn duplicate(&self) -> (r: RelPath)
        ensures
            r@ == self@,
    {
        RelPath { parts: copy_parts(&self.parts) }
    }

    /// Whether two relative paths have the same components.
    pub fn same(&self, other: &RelPath) -> (r: bool)
        ensures
            r == (self@ == other@),
    {
        parts_eq(&self.parts, &other.parts)
    }

    /// The absolute path of this relative path below `root`.
    pub fn to_path(&self, root: &VfsPath) -> (r: VfsPath)
        ensures
            r@ == root@ + self@,
    {
        VfsPath { parts: join_parts(&root.parts, &self.parts) }
    }
}

} // verus!
