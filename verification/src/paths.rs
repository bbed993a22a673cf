//! Paths of child indices into realized content, as structured containers
//! address their slots.

use vstd::prelude::*;

verus! {

/// One single-index path per child: `[0], [1], ..`.
pub open spec fn direct_paths(len: nat) -> Seq<Seq<usize>> {
    Seq::new(len, |i: int| seq![i as usize])
}

/// The views of a sequence of paths.
pub open spec fn path_views(paths: Seq<Vec<usize>>) -> Seq<Seq<usize>> {
    paths.map_values(|p: Vec<usize>| p@)
}

/// One single-index path per child.
pub fn direct_index_paths(len: usize) -> (paths: Vec<Vec<usize>>)
    ensures
        path_views(paths@) == direct_paths(len as nat),
{
    let mut paths: Vec<Vec<usize>> = Vec::new();
    let mut index: usize = 0;
    while index < len
        invariant
            index <= len,
            path_views(paths@) == direct_paths(index as nat),
        decreases len - index,
    {
        let mut path: Vec<usize> = Vec::new();
        path.push(index);
        assert(path@ =~= seq![index]);
        let ghost before = paths@;
        paths.push(path);
        assert(path_views(paths@) =~= path_views(before).push(seq![index]));
        index += 1;
        assert(path_views(paths@) =~= direct_paths(index as nat));
    }
    paths
}

/// Every path with `index` put in front.
pub open spec fn prepended(index: usize, paths: Seq<Seq<usize>>) -> Seq<Seq<usize>> {
    paths.map_values(|p: Seq<usize>| seq![index] + p)
}

/// Puts `index` in front of every path.
pub fn prepend_path_index(index: usize, paths: Vec<Vec<usize>>) -> (out: Vec<Vec<usize>>)
    ensures
        path_views(out@) == prepended(index, path_views(paths@)),
{
    let mut paths = paths;
    let ghost original = path_views(paths@);
    let mut i: usize = 0;
    while i < paths.len()
        invariant
            i <= paths@.len(),
            original.len() == paths@.len(),
            forall|k: int| 0 <= k < i ==> (#[trigger] paths@[k])@ == seq![index] + original[k],
            forall|k: int| i <= k < paths@.len() ==> (#[trigger] paths@[k])@ == original[k],
        decreases paths@.len() - i,
    {
        let mut path = paths[i].clone();
        path.insert(0, index);
        assert(path@ =~= seq![index] + original[i as int]);
        paths.set(i, path);
        i += 1;
    }
    assert(path_views(paths@) =~= prepended(index, original));
    paths
}

/// The paths through a realized shell: each one behind child `0`.
pub fn prepend_realized_shell_path(paths: Option<Vec<Vec<usize>>>) -> (out: Option<Vec<Vec<usize>>>)
    ensures
        match paths {
            Some(p) => out is Some && path_views(out.unwrap()@) == prepended(0, path_views(p@)),
            None => out is None,
        },
{
    match paths {
        Some(p) => Some(prepend_path_index(0, p)),
        None => None,
    }
}

/// `path` lies inside the subtree at a non-empty `ancestor`.
pub open spec fn path_under(path: Seq<usize>, ancestor: Seq<usize>) -> bool {
    ancestor.len() > 0 && ancestor.len() <= path.len() && path.take(ancestor.len() as int) == ancestor
}

/// Whether `path` lies inside the subtree at `ancestor`; the empty ancestor
/// contains nothing.
pub fn path_is_under(path: &[usize], ancestor: &[usize]) -> (b: bool)
    ensures
        b == path_under(path@, ancestor@),
{
    if ancestor.len() == 0 || ancestor.len() > path.len() {
        return false;
    }
    let mut i: usize = 0;
    while i < ancestor.len()
        invariant
            ancestor@.len() <= path@.len(),
            i <= ancestor@.len(),
            forall|k: int| 0 <= k < i ==> path@[k] == ancestor@[k],
        decreases ancestor@.len() - i,
    {
        if path[i] != ancestor[i] {
            assert(path@.take(ancestor@.len() as int)[i as int] != ancestor@[i as int]);
            return false;
        }
        i += 1;
    }
    assert(path@.take(ancestor@.len() as int) =~= ancestor@);
    true
}

/// A canonical identity key of content.
pub struct ContentKey(pub String);

impl ContentKey {
    /// Whether the key is the empty string.
    pub fn is_empty(&self) -> (b: bool)
        ensures
            b == (self.0@.len() == 0),
    {
        self.0.as_str().is_empty()
    }
}

} // verus!
