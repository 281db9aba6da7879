//! Paths as sequences of components (as `Path::components` gives them:
//! `/` for the root directory, then the names), and the relations the scan
//! and the display need between them.
use vstd::prelude::*;
use crate::tree::names_view;

verus! {

/// Whether `root` is a component prefix of `p` (`Path::starts_with`).
pub open spec fn path_starts_with(p: Seq<Seq<char>>, root: Seq<Seq<char>>) -> bool {
    root.len() <= p.len() && p.take(root.len() as int) == root
}

/// `Path::parent`: the path without its last component, or nothing for an
/// empty path or one that ends in the root directory.
pub open spec fn path_parent(p: Seq<Seq<char>>) -> Option<Seq<Seq<char>>> {
    if p.len() == 0 || p.last() == "/"@ {
        None
    } else {
        Some(p.drop_last())
    }
}

/// `path.strip_prefix(root).unwrap_or(path)`: the components of `p` below
/// `root`, or all of them when `p` is not under `root`.
pub open spec fn relative_to(p: Seq<Seq<char>>, root: Seq<Seq<char>>) -> Seq<Seq<char>> {
    if path_starts_with(p, root) {
        p.skip(root.len() as int)
    } else {
        p
    }
}

/// Whether `p` is a direct child of `dir` (`p.parent() == Some(dir)`).
pub open spec fn is_child_of(p: Seq<Seq<char>>, dir: Seq<Seq<char>>) -> bool {
    path_parent(p) == Some(dir)
}

/// Whether two component lists are the same path.
pub fn same_path(a: &Vec<String>, b: &Vec<String>) -> (r: bool)
    ensures
        r == (names_view(a@) == names_view(b@)),
{
    if a.len() != b.len() {
        proof {
            if names_view(a@) == names_view(b@) {
                assert(names_view(a@).len() == a@.len());
            }
        }
        return false;
    }
    let mut i: usize = 0;
    while i < a.len()
        invariant
            a@.len() == b@.len(),
            i <= a@.len(),
            forall|j: int| 0 <= j < i ==> (#[trigger] a@[j])@ == b@[j]@,
        decreases a.len() - i,
    {
        if a[i] != b[i] {
            proof {
                assert(names_view(a@)[i as int] != names_view(b@)[i as int]);
            }
            return false;
        }
        i += 1;
    }
    assert(names_view(a@) =~= names_view(b@));
    true
}

/// Whether `root` is a component prefix of `p`.
pub fn starts_with_path(p: &Vec<String>, root: &Vec<String>) -> (r: bool)
    ensures
        r == path_starts_with(names_view(p@), names_view(root@)),
{
    if root.len() > p.len() {
        return false;
    }
    let mut i: usize = 0;
    while i < root.len()
        invariant
            root@.len() <= p@.len(),
            i <= root@.len(),
            forall|j: int| 0 <= j < i ==> (#[trigger] p@[j])@ == root@[j]@,
        decreases root.len() - i,
    {
        if p[i] != root[i] {
            proof {
                assert(names_view(p@).take(root@.len() as int)[i as int] != names_view(root@)[i as int]);
            }
            return false;
        }
        i += 1;
    }
    assert(names_view(p@).take(root@.len() as int) =~= names_view(root@));
    true
}

/// The components of `p` below `root`, or all of them when `p` is not
/// under `root`.
pub fn relative_components(p: &Vec<String>, root: &Vec<String>) -> (r: Vec<String>)
    ensures
        names_view(r@) == relative_to(names_view(p@), names_view(root@)),
{
    let start = if starts_with_path(p, root) { root.len() } else { 0 };
    let mut r: Vec<String> = Vec::new();
    let mut i = start;
    while i < p.len()
        invariant
            start <= i <= p@.len(),
            r@ == p@.subrange(start as int, i as int),
        decreases p.len() - i,
    {
        let c = p[i].clone();
        r.push(c);
        assert(r@ =~= p@.subrange(start as int, i + 1));
        i += 1;
    }
    assert(names_view(p@.subrange(start as int, p@.len() as int)) =~= relative_to(names_view(p@), names_view(root@)));
    r
}

/// Whether the last component of `p` is the root directory.
fn ends_in_root(p: &Vec<String>) -> (r: bool)
    requires
        p@.len() > 0,
    ensures
        r == (names_view(p@).last() == "/"@),
{
    let last = &p[p.len() - 1];
    let slash = String::from_str("/");
    *last == slash
}

/// Whether `p` is a direct child of `dir`.
pub fn is_direct_child(p: &Vec<String>, dir: &Vec<String>) -> (r: bool)
    ensures
        r == is_child_of(names_view(p@), names_view(dir@)),
{
    if p.len() == 0 || ends_in_root(p) {
        return false;
    }
    if p.len() - 1 != dir.len() {
        proof {
            if is_child_of(names_view(p@), names_view(dir@)) {
                assert(names_view(p@).drop_last().len() == names_view(dir@).len());
            }
        }
        return false;
    }
    let r = starts_with_path(p, dir);
    proof {
        if r {
            assert(names_view(p@).drop_last() =~= names_view(p@).take(dir@.len() as int));
        } else {
            assert(names_view(p@).drop_last() =~= names_view(p@).take(dir@.len() as int));
        }
    }
    r
}

/// The length of an optional path, plus one for a present path.
pub open spec fn opt_path_len(p: Option<Seq<Seq<char>>>) -> nat {
    match p {
        Some(q) => q.len() + 1,
        None => 0,
    }
}

/// Walking up from `cur` (the parent of some path): how many ancestors are
/// visited before reaching `root` (inclusive) or a path not under `root`
/// (exclusive), or running out of parents.
pub open spec fn ancestor_chain(root: Seq<Seq<char>>, cur: Option<Seq<Seq<char>>>) -> nat
    decreases opt_path_len(cur),
{
    match cur {
        None => 0,
        Some(p) => if !path_starts_with(p, root) {
            0
        } else if p == root {
            1
        } else {
            1 + ancestor_chain(root, path_parent(p))
        },
    }
}

/// The number of ancestors of `path`, nearest first, that lie at or below
/// `root` and are reached by walking up from its parent to `root` (see
/// `ancestor_chain`).
pub fn ancestors_under_root(path: &Vec<String>, root: &Vec<String>) -> (r: usize)
    ensures
        r == ancestor_chain(names_view(root@), path_parent(names_view(path@))),
{
    let ghost rv = names_view(root@);
    let ghost pv = names_view(path@);
    let pre = starts_with_path(path, root);
    let slash = String::from_str("/");
    proof {
        reveal_strlit("/");
    }
    let mut count: usize = 0;
    let mut len: usize = path.len();
    assert(pv.take(len as int) =~= pv);
    loop
        invariant
            len <= path@.len(),
            count + len <= path@.len(),
            slash@ == "/"@,
            pre == path_starts_with(pv, rv),
            rv == names_view(root@),
            pv == names_view(path@),
            ancestor_chain(rv, path_parent(pv)) == count + ancestor_chain(rv, path_parent(pv.take(len as int))),
        decreases len,
    {
        if len == 0 || path[len - 1] == slash {
            proof {
                if len > 0 {
                    assert(pv.take(len as int).last() == pv[len - 1]);
                }
            }
            assert(path_parent(pv.take(len as int)) is None);
            return count;
        }
        assert(pv.take(len as int).last() == pv[len - 1]);
        assert(pv.take(len as int).drop_last() =~= pv.take(len - 1));
        assert(count < path.len());
        len -= 1;
        let ghost cur = pv.take(len as int);
        let under = pre && len >= root.len();
        assert(under == path_starts_with(cur, rv)) by {
            if pre && len >= root.len() {
                assert(cur.take(rv.len() as int) =~= pv.take(rv.len() as int));
            }
            if path_starts_with(cur, rv) {
                assert(cur.take(rv.len() as int) =~= pv.take(rv.len() as int));
            }
        }
        if !under {
            return count;
        }
        count += 1;
        if len == root.len() {
            assert(cur =~= rv) by {
                assert(cur.take(rv.len() as int) =~= cur);
            }
            return count;
        }
        assert(cur != rv);
    }
}

/// A path strictly below `root`, with no root-directory component below
/// `root`, has every ancestor from its parent up to `root` in its chain:
/// a file's size is credited to each directory between it and the root.
pub proof fn lemma_chain_reaches_root(root: Seq<Seq<char>>, p: Seq<Seq<char>>)
    requires
        path_starts_with(p, root),
        p.len() > root.len(),
        forall|i: int| root.len() <= i < p.len() ==> p[i] != "/"@,
    ensures
        ancestor_chain(root, path_parent(p)) == p.len() - root.len(),
    decreases p.len(),
{
    let q = p.drop_last();
    assert(path_parent(p) == Some(q));
    assert(q.take(root.len() as int) =~= p.take(root.len() as int));
    if q.len() == root.len() {
        assert(q =~= root);
    } else {
        assert(q != root);
        lemma_chain_reaches_root(root, q);
    }
}

} // verus!
