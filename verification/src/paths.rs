//! Paths as byte strings.
use crate::bytes::copy_bytes;
use vstd::prelude::*;

verus! {

/// The byte that separates the components of a path.
pub const SLASH: u8 = 47;

/// The path of the entry `name` of the directory `parent`: a slash goes
/// between them unless the parent is empty or ends with one.
pub open spec fn child_path(parent: Seq<u8>, name: Seq<u8>) -> Seq<u8> {
    if parent.len() == 0 || parent.last() == SLASH {
        parent + name
    } else {
        parent.push(SLASH) + name
    }
}

/// Whether `path` is `root` or lies below it. The empty root has every path
/// below it; any other one has to end at a component boundary of the path.
pub open spec fn has_prefix(path: Seq<u8>, root: Seq<u8>) -> bool {
    root.len() == 0 || {
        &&& root.is_prefix_of(path)
        &&& path.len() == root.len() || root.last() == SLASH || path[root.len() as int] == SLASH
    }
}

/// The path of the entry `name` of the directory `parent`.
pub fn join_child(parent: &[u8], name: &[u8]) -> (path: Vec<u8>)
    ensures
        path@ == child_path(parent@, name@),
{
    let mut path: Vec<u8> = copy_bytes(parent);
    let len: usize = parent.len();
    if len != 0 && parent[len - 1] != SLASH {
        path.push(SLASH);
    }
    path.extend_from_slice(name);
    assert(path@ =~= child_path(parent@, name@));
    path
}

/// Whether `path` starts with the bytes of `root`.
pub fn starts_with(path: &[u8], root: &[u8]) -> (starts: bool)
    ensures
        starts == root@.is_prefix_of(path@),
{
    if path.len() < root.len() {
        return false;
    }
    let mut i: usize = 0;
    while i < root.len()
        invariant
            root@.len() <= path@.len(),
            i <= root@.len(),
            forall|j: int| 0 <= j < i ==> path@[j] == root@[j],
        decreases root@.len() - i,
    {
        if path[i] != root[i] {
            assert(path@.subrange(0, root@.len() as int)[i as int] != root@[i as int]);
            return false;
        }
        i = i + 1;
    }
    assert(path@.subrange(0, root@.len() as int) =~= root@);
    true
}

/// Whether `path` is `root` or lies below it.
pub fn path_has_prefix(path: &[u8], root: &[u8]) -> (below: bool)
    ensures
        below == has_prefix(path@, root@),
{
    let root_len: usize = root.len();
    if root_len == 0 {
        return true;
    }
    if !starts_with(path, root) {
        return false;
    }
    path.len() == root_len || root[root_len - 1] == SLASH || path[root_len] == SLASH
}

/// The byte strings that a vector of vectors holds.
pub open spec fn byte_strings(paths: Seq<Vec<u8>>) -> Seq<Seq<u8>> {
    paths.map_values(|p: Vec<u8>| p@)
}

/// The first root, from the one at `k` on, that `path` belongs to.
pub open spec fn root_from(path: Seq<u8>, roots: Seq<Seq<u8>>, k: int) -> Option<int>
    decreases roots.len() - k,
{
    if k >= roots.len() {
        None
    } else if has_prefix(path, roots[k]) {
        Some(k)
    } else {
        root_from(path, roots, k + 1)
    }
}

/// The first of the roots that `path` belongs to.
pub open spec fn root_of(path: Seq<u8>, roots: Seq<Seq<u8>>) -> Option<int> {
    root_from(path, roots, 0)
}

/// Finds the first of the roots that `path` belongs to.
pub fn find_root(path: &[u8], roots: &Vec<Vec<u8>>) -> (found: Option<usize>)
    ensures
        root_of(path@, byte_strings(roots@)) == (match found {
            Some(k) => Some(k as int),
            None => None,
        }),
        found is Some ==> found->Some_0 < roots@.len(),
{
    let mut k: usize = 0;
    while k < roots.len()
        invariant
            k <= roots@.len(),
            root_of(path@, byte_strings(roots@)) == root_from(
                path@,
                byte_strings(roots@),
                k as int,
            ),
        decreases roots@.len() - k,
    {
        if path_has_prefix(path, roots[k].as_slice()) {
            return Some(k);
        }
        k = k + 1;
    }
    None
}

/// The root that a path is counted under is one that it belongs to, and it
/// belongs to none of the roots before that one. A path without a root belongs
/// to none at all.
pub proof fn lemma_root_of(path: Seq<u8>, roots: Seq<Seq<u8>>)
    ensures
        match root_of(path, roots) {
            Some(k) => {
                &&& 0 <= k < roots.len()
                &&& has_prefix(path, roots[k])
                &&& forall|j: int| 0 <= j < k ==> !has_prefix(path, #[trigger] roots[j])
            },
            None => forall|j: int| 0 <= j < roots.len() ==> !has_prefix(path, #[trigger] roots[j]),
        },
{
    lemma_root_from(path, roots, 0);
}

proof fn lemma_root_from(path: Seq<u8>, roots: Seq<Seq<u8>>, k: int)
    requires
        0 <= k,
    ensures
        match root_from(path, roots, k) {
            Some(r) => {
                &&& k <= r < roots.len()
                &&& has_prefix(path, roots[r])
                &&& forall|j: int| k <= j < r ==> !has_prefix(path, #[trigger] roots[j])
            },
            None => forall|j: int| k <= j < roots.len() ==> !has_prefix(path, #[trigger] roots[j]),
        },
    decreases roots.len() - k,
{
    if k < roots.len() && !has_prefix(path, roots[k]) {
        lemma_root_from(path, roots, k + 1);
    }
}

/// Every path belongs to itself as a root.
pub proof fn law_path_is_below_itself(path: Seq<u8>)
    ensures
        has_prefix(path, path),
{
}

/// What lies below a directory below a root lies below that root.
pub proof fn lemma_prefix_transitive(path: Seq<u8>, middle: Seq<u8>, root: Seq<u8>)
    requires
        has_prefix(path, middle),
        has_prefix(middle, root),
    ensures
        has_prefix(path, root),
{
    if root.len() > 0 {
        assert forall|i: int| 0 <= i < root.len() implies path[i] == root[i] by {
            assert(path.subrange(0, middle.len() as int)[i] == middle[i]);
            assert(middle.subrange(0, root.len() as int)[i] == root[i]);
        }
        assert(path.subrange(0, root.len() as int) =~= root);
        if middle.len() > root.len() {
            assert(path.subrange(0, middle.len() as int)[root.len() as int] == middle[root.len() as int]);
        }
    }
}

/// The entries of a directory that belongs to a root belong to that root too.
pub proof fn lemma_child_keeps_root(parent: Seq<u8>, name: Seq<u8>, root: Seq<u8>)
    requires
        has_prefix(parent, root),
    ensures
        has_prefix(child_path(parent, name), root),
{
    let child = child_path(parent, name);
    if parent.len() > 0 {
        assert(child.subrange(0, parent.len() as int) =~= parent);
        assert(has_prefix(child, parent)) by {
            if parent.last() == SLASH {
            } else {
                assert(child[parent.len() as int] == SLASH);
            }
        }
        lemma_prefix_transitive(child, parent, root);
    }
}

/// The path of an entry starts with that of its directory and ends with its name.
/// Between them stands one slash, or nothing where the directory has no path or
/// one that ends with a slash.
pub proof fn law_paths_are_joined_by_one_slash(parent: &[u8], name: &[u8], path: Vec<u8>)
    requires
        call_ensures(join_child, (parent, name), path),
    ensures
        parent@.len() == 0 ==> path@ == name@,
        parent@.len() > 0 && parent@.last() == 47 ==> path@ == parent@ + name@,
        parent@.len() > 0 && parent@.last() != 47 ==> path@ == parent@ + seq![47u8] + name@,
{
    assert(parent@.push(47u8) =~= parent@ + seq![47u8]);
    if parent@.len() == 0 {
        assert(path@ =~= name@);
    }
}

/// A path lies below a root if it is the root, or goes on behind it with a slash:
/// a name that merely starts like that of the root is another one. A root that
/// ends with a slash has all below it that starts with it, and the empty root has
/// everything.
pub proof fn law_paths_lie_below_roots(path: &[u8], root: &[u8], below: bool)
    requires
        call_ensures(path_has_prefix, (path, root), below),
    ensures
        root@.len() == 0 ==> below,
        root@.len() > 0 && root@.last() == 47 ==> below == (path@.len() >= root@.len()
            && path@.take(root@.len() as int) == root@),
        root@.len() > 0 && root@.last() != 47 ==> below == (path@ == root@ || (path@.len()
            > root@.len() && path@.take(root@.len() as int) == root@ && path@[root@.len() as int]
            == 47)),
{
    let n = root@.len() as int;
    if path@.len() >= n {
        assert(path@.subrange(0, n) =~= path@.take(n));
        if path@.len() == n {
            assert(path@.take(n) =~= path@);
        }
    }
}

/// The root that a path is counted under is the first that it lies below.
pub proof fn law_first_root_is_found(path: &[u8], roots: &Vec<Vec<u8>>, found: Option<usize>)
    requires
        call_ensures(find_root, (path, roots), found),
    ensures
        found matches Some(k) ==> {
            &&& k < roots@.len()
            &&& has_prefix(path@, roots@[k as int]@)
            &&& forall|j: int| 0 <= j < k ==> !has_prefix(path@, (#[trigger] roots@[j])@)
        },
        found is None ==> forall|j: int|
            0 <= j < roots@.len() ==> !has_prefix(path@, (#[trigger] roots@[j])@),
{
    let strings = byte_strings(roots@);
    lemma_root_of(path@, strings);
    assert forall|j: int| 0 <= j < roots@.len() implies strings[j] == (#[trigger] roots@[j])@ by {}
    if let Some(k) = found {
        assert(strings[k as int] == roots@[k as int]@);
        assert forall|j: int| 0 <= j < k implies !has_prefix(path@, (#[trigger] roots@[j])@) by {
            assert(!has_prefix(path@, strings[j]));
        }
    } else {
        assert forall|j: int| 0 <= j < roots@.len() implies !has_prefix(
            path@,
            (#[trigger] roots@[j])@,
        ) by {
            assert(!has_prefix(path@, strings[j]));
        }
    }
}

} // verus!
