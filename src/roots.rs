//! Roots: which configured directory owns a path.
use vstd::prelude::*;
use crate::path::{copy_parts, is_strictly_under, is_under, skip_parts, starts_with, str_eq, RelPath, VfsPath};

verus! {

/// A watched root directory, by its position in the root set.
#[derive(Debug, Clone, Copy, PartialEq, Eq, PartialOrd, Ord, Hash, Structural)]
pub struct VfsRoot(pub u32);

/// What `RelativePath::extension` gives for a single file name.
pub uninterp spec fn extension_of(name: Seq<char>) -> Option<Seq<char>>;

/// Relies on relative_path's `RelativePath::extension`: the extension of a
/// file name, which depends on the name alone.
#[verifier::external_body]
fn extension(name: &str) -> (r: Option<String>)
    ensures
        match r {
            Some(e) => extension_of(name@) == Some(e@),
            None => extension_of(name@) is None,
        },
{
    relative_path::RelativePath::new(name).extension().map(String::from)
}

/// A directory name that is never descended into: a build output directory
/// right below the root, or a version-control or package-manager directory.
pub open spec fn is_reserved_dir(i: int, c: Seq<char>) -> bool {
    (i == 0 && c == "target"@) || c == ".git"@ || c == "node_modules"@
}

/// The default inclusion rule: directories unless they hold a reserved name;
/// files when their extension is `rs`.
pub open spec fn spec_default_filter(rel: Seq<Seq<char>>, is_dir: bool) -> bool {
    if is_dir {
        forall|i: int| 0 <= i < rel.len() ==> !is_reserved_dir(i, #[trigger] rel[i])
    } else {
        rel.len() > 0 && extension_of(rel.last()) == Some("rs"@)
    }
}

/// Whether a file extension marks a source file: it is `rs`.
pub fn is_source_extension(ext: &Option<String>) -> (r: bool)
    ensures
        r == match ext {
            Some(e) => e@ == "rs"@,
            None => false,
        },
{
    match ext {
        Some(e) => str_eq(e.as_str(), "rs"),
        None => false,
    }
}

/// Whether a path relative to a root passes the default inclusion rule.
pub fn default_filter(rel: &RelPath, is_dir: bool) -> (r: bool)
    ensures
        r == spec_default_filter(rel@, is_dir),
{
    if is_dir {
        let mut i: usize = 0;
        while i < rel.parts.len()
            invariant
                is_dir,
                i <= rel@.len(),
                forall|k: int| 0 <= k < i ==> !is_reserved_dir(k, #[trigger] rel@[k]),
            decreases rel@.len() - i,
        {
            assert(rel@.len() == rel.parts@.len());
            let c = rel.parts[i].as_str();
            assert(c@ == rel@[i as int]);
            if (i == 0 && str_eq(c, "target")) || str_eq(c, ".git") || str_eq(c, "node_modules") {
                assert(is_reserved_dir(i as int, rel@[i as int]));
                assert(!spec_default_filter(rel@, is_dir));
                return false;
            }
            i = i + 1;
        }
        true
    } else {
        let n = rel.parts.len();
        if n == 0 {
            return false;
        }
        let name = rel.parts[n - 1].as_str();
        assert(name@ == rel@.last());
        is_source_extension(&extension(name))
    }
}

/// What a root filter holds, as plain values.
pub struct FilterView {
    pub root: Seq<Seq<char>>,
    pub excluded: Seq<Seq<Seq<char>>>,
}

/// Whether a filter with this root and these excluded sub-roots claims `p`:
/// it lies under the root, outside every excluded sub-root, and passes the
/// inclusion rule.
pub open spec fn claims(f: FilterView, p: Seq<Seq<char>>, is_dir: bool) -> bool {
    &&& is_under(f.root, p)
    &&& spec_default_filter(p.skip(f.root.len() as int), is_dir)
    &&& forall|k: int| 0 <= k < f.excluded.len() ==> !is_under(#[trigger] f.excluded[k], p)
}

/// Decides whether a path can belong to a root. Where several roots are
/// nested, the innermost one owns the path: its ancestors list it among
/// their excluded sub-roots.
pub struct RootFilter {
    pub root: VfsPath,
    pub excluded_dirs: Vec<VfsPath>,
}

impl View for RootFilter {
    type V = FilterView;

    open spec fn view(&self) -> FilterView {
        FilterView { root: self.root@, excluded: self.excluded_dirs@.map_values(|d: VfsPath| d@) }
    }
}

impl RootFilter {
    pub fn new(root: VfsPath, excluded_dirs: Vec<VfsPath>) -> (r: RootFilter)
        ensures
            r@ == (FilterView { root: root@, excluded: excluded_dirs@.map_values(|d: VfsPath| d@) }),
    {
        RootFilter { root, excluded_dirs }
    }

    /// The path relative to this root, when `path` lies under the root and
    /// passes the inclusion rule. A nested root may still own the path.
    pub fn can_contain(&self, path: &VfsPath, is_dir: bool) -> (r: Option<RelPath>)
        ensures
            match r {
                Some(rel) => is_under(self@.root, path@) && rel@ == path@.skip(self@.root.len() as int)
                    && spec_default_filter(rel@, is_dir),
                None => !(is_under(self@.root, path@) && spec_default_filter(
                    path@.skip(self@.root.len() as int),
                    is_dir,
                )),
            },
    {
        if !starts_with(&path.parts, &self.root.parts) {
            return None;
        }
        let rel = RelPath { parts: skip_parts(&path.parts, self.root.parts.len()) };
        if !default_filter(&rel, is_dir) {
            return None;
        }
        Some(rel)
    }

    /// Whether `path` lies under one of the excluded sub-roots.
    pub fn is_excluded(&self, path: &VfsPath) -> (r: bool)
        ensures
            r == exists|k: int| 0 <= k < self@.excluded.len() && is_under(#[trigger] self@.excluded[k], path@),
    {
        let mut i: usize = 0;
        while i < self.excluded_dirs.len()
            invariant
                i <= self@.excluded.len(),
                forall|k: int| 0 <= k < i ==> !is_under(#[trigger] self@.excluded[k], path@),
            decreases self@.excluded.len() - i,
        {
            if starts_with(&path.parts, &self.excluded_dirs[i].parts) {
                assert(is_under(self@.excluded[i as int], path@));
                return true;
            }
            i = i + 1;
        }
        false
    }

    /// The path relative to this root, when this root owns `path`.
    pub fn claim(&self, path: &VfsPath, is_dir: bool) -> (r: Option<RelPath>)
        ensures
            match r {
                Some(rel) => claims(self@, path@, is_dir) && rel@ == path@.skip(self@.root.len() as int),
                None => !claims(self@, path@, is_dir),
            },
    {
        if self.is_excluded(path) {
            return None;
        }
        self.can_contain(path, is_dir)
    }

    /// The traversal rule: a directory that is an excluded sub-root is not
    /// entered; any other entry is kept when this root can contain it.
    pub fn entry_filter(&self, path: &VfsPath, is_dir: bool) -> (r: bool)
        ensures
            r == (!(is_dir && self@.excluded.contains(path@)) && is_under(self@.root, path@)
                && spec_default_filter(path@.skip(self@.root.len() as int), is_dir)),
    {
        if is_dir {
            let mut i: usize = 0;
            while i < self.excluded_dirs.len()
                invariant
                    is_dir,
                    i <= self@.excluded.len(),
                    forall|k: int| 0 <= k < i ==> self@.excluded[k] != path@,
                decreases self@.excluded.len() - i,
            {
                if crate::path::parts_eq(&self.excluded_dirs[i].parts, &path.parts) {
                    assert(self@.excluded[i as int] == path@);
                    assert(self@.excluded.contains(path@));
                    return false;
                }
                i = i + 1;
            }
            assert(self@.excluded.len() == self.excluded_dirs@.len());
            assert(!self@.excluded.contains(path@));
        }
        match self.can_contain(path, is_dir) {
            Some(_) => true,
            None => false,
        }
    }
}

/// The views of a list of paths.
pub open spec fn paths_view(ps: Seq<VfsPath>) -> Seq<Seq<Seq<char>>> {
    ps.map_values(|d: VfsPath| d@)
}

/// Filter `i` is the first one that claims `p`: it owns the path.
pub open spec fn resolves_to(fs: Seq<FilterView>, p: Seq<Seq<char>>, is_dir: bool, i: int) -> bool {
    &&& 0 <= i < fs.len()
    &&& claims(fs[i], p, is_dir)
    &&& forall|j: int| 0 <= j < i ==> !claims(#[trigger] fs[j], p, is_dir)
}

/// The root directories of a list of filters.
pub open spec fn root_dirs(fs: Seq<FilterView>) -> Seq<Seq<Seq<char>>> {
    fs.map_values(|f: FilterView| f.root)
}

/// Each filter excludes exactly the other roots strictly nested in its own.
pub open spec fn filters_wf(fs: Seq<FilterView>) -> bool {
    forall|i: int, d: Seq<Seq<char>>|
        0 <= i < fs.len() ==> (#[trigger] fs[i].excluded.contains(d) <==> (root_dirs(fs).contains(d) && is_strictly_under(fs[i].root, d)))
}

/// The set of configured roots, one filter each, in the order given.
pub struct Roots {
    pub roots: Vec<RootFilter>,
}

impl Roots {
    pub open spec fn filters(&self) -> Seq<FilterView> {
        self.roots@.map_values(|f: RootFilter| f@)
    }

    pub open spec fn root_paths(&self) -> Seq<Seq<Seq<char>>> {
        root_dirs(self.filters())
    }

    /// Each root excludes exactly the configured roots strictly nested in it.
    pub open spec fn wf(&self) -> bool {
        filters_wf(self.filters())
    }

    /// Builds one filter per directory; each excludes the other directories
    /// strictly nested inside it, so that the innermost root owns a path.
    pub fn new(paths: Vec<VfsPath>) -> (r: Roots)
        ensures
            r.wf(),
            r.root_paths() == paths_view(paths@),
    {
        let ghost ps = paths_view(paths@);
        let mut roots: Vec<RootFilter> = Vec::new();
        let mut i: usize = 0;
        while i < paths.len()
            invariant
                i <= paths@.len(),
                ps == paths_view(paths@),
                roots@.len() == i,
                forall|k: int| 0 <= k < i ==> (#[trigger] roots@[k])@.root == ps[k],
                forall|k: int, d: Seq<Seq<char>>|
                    0 <= k < i ==> (#[trigger] roots@[k]@.excluded.contains(d) <==> (ps.contains(d)
                        && is_strictly_under(ps[k], d))),
            decreases paths@.len() - i,
        {
            let mut excluded: Vec<VfsPath> = Vec::new();
            let mut j: usize = 0;
            while j < paths.len()
                invariant
                    i < paths@.len(),
                    j <= paths@.len(),
                    ps == paths_view(paths@),
                    forall|d: Seq<Seq<char>>|
                        #[trigger] paths_view(excluded@).contains(d) <==> (ps.subrange(0, j as int).contains(d)
                            && is_strictly_under(ps[i as int], d)),
                decreases paths@.len() - j,
            {
                let nested = starts_with(&paths[j].parts, &paths[i].parts)
                    && paths[j].parts.len() > paths[i].parts.len();
                let ghost old_ex = paths_view(excluded@);
                if nested {
                    excluded.push(paths[j].duplicate());
                    assert(paths_view(excluded@) == old_ex.push(ps[j as int]));
                } else {
                    assert(paths_view(excluded@) == old_ex);
                }
                assert(ps.subrange(0, j + 1) == ps.subrange(0, j as int).push(ps[j as int]));
                assert forall|d: Seq<Seq<char>>|
                    #[trigger] paths_view(excluded@).contains(d) <==> (ps.subrange(0, j + 1).contains(d)
                        && is_strictly_under(ps[i as int], d)) by {
                    if ps.subrange(0, j + 1).contains(d) && is_strictly_under(ps[i as int], d) {
                        let sub = ps.subrange(0, j + 1);
                        let k = choose|k: int| 0 <= k < j + 1 && #[trigger] sub[k] == d;
                        if k < j {
                            assert(ps.subrange(0, j as int)[k] == d);
                            assert(old_ex.contains(d));
                            let m = choose|m: int| 0 <= m < old_ex.len() && #[trigger] old_ex[m] == d;
                            assert(paths_view(excluded@)[m] == d);
                        } else {
                            assert(paths_view(excluded@)[old_ex.len() as int] == d);
                        }
                    }
                    if paths_view(excluded@).contains(d) {
                        let ex = paths_view(excluded@);
                        let m = choose|m: int| 0 <= m < ex.len() && #[trigger] ex[m] == d;
                        if m < old_ex.len() {
                            assert(old_ex[m] == d);
                            assert(old_ex.contains(d));
                            let sub0 = ps.subrange(0, j as int);
                            let k = choose|k: int| 0 <= k < j && #[trigger] sub0[k] == d;
                            assert(ps.subrange(0, j + 1)[k] == d);
                        } else {
                            assert(ps.subrange(0, j + 1)[j as int] == d);
                        }
                    }
                }
                j = j + 1;
            }
            assert(ps.subrange(0, j as int) == ps);
            let f = RootFilter::new(paths[i].duplicate(), excluded);
            assert(f@.excluded =~= paths_view(excluded@));
            let ghost prev = roots@;
            roots.push(f);
            assert(roots@ == prev.push(f));
            assert(roots@[i as int]@ == f@);
            i = i + 1;
        }
        let r = Roots { roots };
        assert(r.root_paths() =~= ps);
        r
    }

    /// The root that owns `path`, with the path relative to it: the first
    /// filter that claims it. Roots exclude their nested roots when built,
    /// so at most the innermost of several containing roots claims a path.
    pub fn find(&self, path: &VfsPath, is_dir: bool) -> (r: Option<(VfsRoot, RelPath)>)
        requires
            self.roots@.len() <= u32::MAX,
        ensures
            match r {
                Some((root, rel)) => resolves_to(self.filters(), path@, is_dir, root.0 as int)
                    && rel@ == path@.skip(self.filters()[root.0 as int].root.len() as int),
                None => forall|i: int| 0 <= i < self.filters().len() ==> !claims(#[trigger] self.filters()[i], path@, is_dir),
            },
    {
        let mut i: usize = 0;
        while i < self.roots.len()
            invariant
                i <= self.roots@.len() <= u32::MAX,
                forall|j: int| 0 <= j < i ==> !claims(#[trigger] self.filters()[j], path@, is_dir),
            decreases self.roots@.len() - i,
        {
            if let Some(rel) = self.roots[i].claim(path, is_dir) {
                return Some((VfsRoot(i as u32), rel));
            }
            i = i + 1;
        }
        None
    }
}

/// A path under a nested root never resolves to an enclosing root, whatever
/// the order in which the roots were configured.
pub proof fn lemma_nested_root_precedence(roots: &Roots, outer: int, inner: int, p: Seq<Seq<char>>, is_dir: bool)
    requires
        roots.wf(),
        0 <= outer < roots.filters().len(),
        0 <= inner < roots.filters().len(),
        is_strictly_under(roots.root_paths()[outer], roots.root_paths()[inner]),
        is_under(roots.root_paths()[inner], p),
    ensures
        !claims(roots.filters()[outer], p, is_dir),
        !resolves_to(roots.filters(), p, is_dir, outer),
{
    let d = roots.root_paths()[inner];
    assert(roots.root_paths().contains(d));
    assert(roots.filters()[outer].excluded.contains(d));
    let ex = roots.filters()[outer].excluded;
    let k = choose|k: int| 0 <= k < ex.len() && #[trigger] ex[k] == d;
    assert(!is_under(roots.filters()[outer].excluded[k], p) == false);
}

/// The root that owns a path is the innermost of the roots above it: no
/// root with a longer directory lies above the path.
pub proof fn lemma_owner_is_innermost(roots: &Roots, p: Seq<Seq<char>>, is_dir: bool, i: int, j: int)
    requires
        roots.wf(),
        resolves_to(roots.filters(), p, is_dir, i),
        0 <= j < roots.filters().len(),
        is_under(roots.root_paths()[j], p),
    ensures
        roots.root_paths()[j].len() <= roots.root_paths()[i].len(),
{
    let a = roots.root_paths()[i];
    let b = roots.root_paths()[j];
    if b.len() > a.len() {
        assert(b.subrange(0, a.len() as int) =~= p.subrange(0, a.len() as int));
        assert(is_strictly_under(a, b));
        lemma_nested_root_precedence(roots, i, j, p, is_dir);
    }
}

/// No two filters have the same root directory.
pub open spec fn roots_distinct(fs: Seq<FilterView>) -> bool {
    forall|a: int, b: int| 0 <= a < fs.len() && 0 <= b < fs.len() && a != b ==> (#[trigger] fs[a]).root != (#[trigger] fs[b]).root
}

/// Two filter lists over the same set of root directories.
pub open spec fn same_root_set(fs1: Seq<FilterView>, fs2: Seq<FilterView>) -> bool {
    forall|d: Seq<Seq<char>>|
        #[trigger] root_dirs(fs1).contains(d) <==> #[trigger] root_dirs(fs2).contains(d)
}

proof fn lemma_root_in_set(fs: Seq<FilterView>, a: int)
    requires
        0 <= a < fs.len(),
    ensures
        root_dirs(fs).contains(fs[a].root),
{
    assert(root_dirs(fs)[a] == fs[a].root);
}

/// Whether a filter claims a path depends on its root and on the set of
/// roots alone.
proof fn lemma_claims_by_root(fs1: Seq<FilterView>, fs2: Seq<FilterView>, a: int, b: int, p: Seq<Seq<char>>, is_dir: bool)
    requires
        filters_wf(fs1),
        filters_wf(fs2),
        same_root_set(fs1, fs2),
        0 <= a < fs1.len(),
        0 <= b < fs2.len(),
        fs1[a].root == fs2[b].root,
        claims(fs1[a], p, is_dir),
    ensures
        claims(fs2[b], p, is_dir),
{
    assert forall|k: int| 0 <= k < fs2[b].excluded.len() implies !is_under(#[trigger] fs2[b].excluded[k], p) by {
        let d = fs2[b].excluded[k];
        assert(fs2[b].excluded.contains(d));
        assert(root_dirs(fs1).contains(d));
        assert(fs1[a].excluded.contains(d));
        let ex = fs1[a].excluded;
        let k1 = choose|k1: int| 0 <= k1 < ex.len() && #[trigger] ex[k1] == d;
    }
}

/// With distinct root directories, at most one filter claims a path.
proof fn lemma_single_claimer(fs: Seq<FilterView>, a: int, b: int, p: Seq<Seq<char>>, is_dir: bool)
    requires
        filters_wf(fs),
        roots_distinct(fs),
        0 <= a < fs.len(),
        0 <= b < fs.len(),
        a != b,
        claims(fs[a], p, is_dir),
    ensures
        !claims(fs[b], p, is_dir),
{
    if claims(fs[b], p, is_dir) {
        let (outer, inner) = if fs[a].root.len() <= fs[b].root.len() { (a, b) } else { (b, a) };
        let ro = fs[outer].root;
        let ri = fs[inner].root;
        assert(ri.subrange(0, ro.len() as int) =~= p.subrange(0, ro.len() as int));
        if ro.len() == ri.len() {
            assert(ri =~= ri.subrange(0, ro.len() as int));
        }
        assert(is_strictly_under(ro, ri));
        lemma_root_in_set(fs, inner);
        assert(fs[outer].excluded.contains(ri));
        let ex = fs[outer].excluded;
        let k = choose|k: int| 0 <= k < ex.len() && #[trigger] ex[k] == ri;
    }
}

/// The order in which roots are configured does not change which root
/// directory owns a path: two root sets with the same distinct directories
/// resolve every path to the same directory.
pub proof fn lemma_resolution_ignores_order(r1: &Roots, r2: &Roots, p: Seq<Seq<char>>, is_dir: bool, i: int)
    requires
        r1.wf(),
        r2.wf(),
        roots_distinct(r1.filters()),
        roots_distinct(r2.filters()),
        same_root_set(r1.filters(), r2.filters()),
        resolves_to(r1.filters(), p, is_dir, i),
    ensures
        exists|j: int| resolves_to(r2.filters(), p, is_dir, j) && r2.filters()[j].root == r1.filters()[i].root,
{
    let fs1 = r1.filters();
    let fs2 = r2.filters();
    lemma_root_in_set(fs1, i);
    let set2 = root_dirs(fs2);
    assert(set2.contains(fs1[i].root));
    let j = choose|j: int| 0 <= j < set2.len() && set2[j] == fs1[i].root;
    lemma_claims_by_root(fs1, fs2, i, j, p, is_dir);
    assert forall|k: int| 0 <= k < j implies !claims(#[trigger] fs2[k], p, is_dir) by {
        lemma_single_claimer(fs2, j, k, p, is_dir);
    }
    assert(resolves_to(fs2, p, is_dir, j));
}

/// The order in which roots are configured does not change whether a path
/// has an owner.
pub proof fn lemma_no_owner_ignores_order(r1: &Roots, r2: &Roots, p: Seq<Seq<char>>, is_dir: bool)
    requires
        r1.wf(),
        r2.wf(),
        same_root_set(r1.filters(), r2.filters()),
        forall|i: int| 0 <= i < r1.filters().len() ==> !claims(#[trigger] r1.filters()[i], p, is_dir),
    ensures
        forall|j: int| 0 <= j < r2.filters().len() ==> !claims(#[trigger] r2.filters()[j], p, is_dir),
{
    let fs1 = r1.filters();
    let fs2 = r2.filters();
    assert forall|j: int| 0 <= j < fs2.len() implies !claims(#[trigger] fs2[j], p, is_dir) by {
        if claims(fs2[j], p, is_dir) {
            lemma_root_in_set(fs2, j);
            let set1 = root_dirs(fs1);
            assert(set1.contains(fs2[j].root));
            let i = choose|i: int| 0 <= i < set1.len() && set1[i] == fs2[j].root;
            lemma_claims_by_root(fs2, fs1, j, i, p, is_dir);
            assert(!claims(fs1[i], p, is_dir));
        }
    }
}

} // verus!
