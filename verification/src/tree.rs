//! The display tree: the largest entries and their ancestors, nested by
//! path component, each level's children kept in name order.
use vstd::prelude::*;
use crate::entry::{Entry, opt_view, clone_opt};
use crate::text::to_chars;

verus! {

/// A node of the display tree.
pub struct TreeNode {
    pub size: u64,
    pub is_dir: bool,
    pub child_count: Option<u64>,
    pub mtime: Option<String>,
    /// Whether this node is one of the selected entries (not only an
    /// ancestor of one).
    pub in_top: bool,
    /// The largest size of the node and its descendants.
    pub sort_key: u64,
    /// The children, by name, in increasing name order.
    pub children: Vec<(String, TreeNode)>,
}

/// The mathematical value of a tree node.
pub struct NodeView {
    pub size: u64,
    pub is_dir: bool,
    pub child_count: Option<u64>,
    pub mtime: Option<Seq<char>>,
    pub in_top: bool,
    pub sort_key: u64,
    pub children: Seq<(Seq<char>, NodeView)>,
}

/// A node with no data and no children.
pub open spec fn empty_node() -> NodeView {
    NodeView {
        size: 0,
        is_dir: false,
        child_count: None,
        mtime: None,
        in_top: false,
        sort_key: 0,
        children: Seq::empty(),
    }
}

impl TreeNode {
    pub open spec fn view_node(self) -> NodeView
        decreases self,
    {
        NodeView {
            size: self.size,
            is_dir: self.is_dir,
            child_count: self.child_count,
            mtime: opt_view(self.mtime),
            in_top: self.in_top,
            sort_key: self.sort_key,
            children: Seq::new(
                self.children@.len(),
                |i: int|
                    if 0 <= i < self.children@.len() {
                        (self.children@[i].0@, self.children@[i].1.view_node())
                    } else {
                        (Seq::empty(), empty_node())
                    },
            ),
        }
    }

    /// A node with no data and no children.
    pub fn new() -> (n: TreeNode)
        ensures
            n.view_node() == empty_node(),
            tree_sorted(n.view_node()),
    {
        let n = TreeNode {
            size: 0,
            is_dir: false,
            child_count: None,
            mtime: None,
            in_top: false,
            sort_key: 0,
            children: Vec::new(),
        };
        assert(n.view_node().children =~= Seq::<(Seq<char>, NodeView)>::empty());
        n
    }
}

impl Default for TreeNode {
    fn default() -> (n: TreeNode)
        ensures
            n.view_node() == empty_node(),
    {
        TreeNode::new()
    }
}

/// Strict lexicographic order of names, by character code (the byte
/// order of their UTF-8 encodings).
pub open spec fn name_lt(a: Seq<char>, b: Seq<char>) -> bool
    decreases a.len(),
{
    if a.len() == 0 {
        b.len() > 0
    } else if b.len() == 0 {
        false
    } else if a[0] != b[0] {
        (a[0] as u32) < (b[0] as u32)
    } else {
        name_lt(a.drop_first(), b.drop_first())
    }
}

pub proof fn lemma_name_lt_irreflexive(a: Seq<char>)
    ensures
        !name_lt(a, a),
    decreases a.len(),
{
    if a.len() > 0 {
        lemma_name_lt_irreflexive(a.drop_first());
    }
}

pub proof fn lemma_name_lt_total(a: Seq<char>, b: Seq<char>)
    ensures
        a == b || name_lt(a, b) || name_lt(b, a),
        !(name_lt(a, b) && name_lt(b, a)),
    decreases a.len(),
{
    if a.len() > 0 && b.len() > 0 {
        lemma_name_lt_total(a.drop_first(), b.drop_first());
        if a[0] == b[0] && a.drop_first() == b.drop_first() {
            assert(a =~= seq![a[0]] + a.drop_first());
            assert(b =~= seq![b[0]] + b.drop_first());
        }
        if a[0] != b[0] {
            vstd::utf8::char_u32_cast(a[0], a[0] as u32);
            vstd::utf8::char_u32_cast(b[0], b[0] as u32);
            assert((a[0] as u32) != (b[0] as u32));
        }
    } else if a.len() == 0 && b.len() == 0 {
        assert(a =~= b);
    }
}

pub proof fn lemma_name_lt_transitive(a: Seq<char>, b: Seq<char>, c: Seq<char>)
    requires
        name_lt(a, b),
        name_lt(b, c),
    ensures
        name_lt(a, c),
    decreases a.len(),
{
    if a.len() > 0 && b.len() > 0 && c.len() > 0 {
        if a[0] == b[0] && b[0] == c[0] {
            lemma_name_lt_transitive(a.drop_first(), b.drop_first(), c.drop_first());
        }
    }
}

/// Comparing two texts that start with parts of the same length: the
/// first parts decide, unless they are equal.
pub proof fn lemma_name_lt_concat(x1: Seq<char>, x2: Seq<char>, y1: Seq<char>, y2: Seq<char>)
    requires
        x1.len() == y1.len(),
    ensures
        name_lt(x1 + x2, y1 + y2) == (name_lt(x1, y1) || (x1 == y1 && name_lt(x2, y2))),
    decreases x1.len(),
{
    if x1.len() == 0 {
        assert(x1 + x2 =~= x2);
        assert(y1 + y2 =~= y2);
        assert(x1 =~= y1);
        lemma_name_lt_irreflexive(x1);
    } else {
        let a = x1 + x2;
        let b = y1 + y2;
        assert(a[0] == x1[0] && b[0] == y1[0]);
        assert(a.drop_first() =~= x1.drop_first() + x2);
        assert(b.drop_first() =~= y1.drop_first() + y2);
        lemma_name_lt_concat(x1.drop_first(), x2, y1.drop_first(), y2);
        if x1[0] == y1[0] {
            if x1.drop_first() == y1.drop_first() {
                assert(x1 =~= y1) by {
                    assert(x1 =~= seq![x1[0]] + x1.drop_first());
                    assert(y1 =~= seq![y1[0]] + y1.drop_first());
                }
            }
        } else {
            assert(x1 != y1);
        }
    }
}

/// Compares two names in the order `name_lt`.
pub fn name_less(a: &str, b: &str) -> (r: bool)
    ensures
        r == name_lt(a@, b@),
{
    let av = to_chars(a);
    let bv = to_chars(b);
    let mut i: usize = 0;
    assert(a@.skip(0) =~= a@);
    assert(b@.skip(0) =~= b@);
    while i < av.len() && i < bv.len() && av[i] == bv[i]
        invariant
            av@ == a@,
            bv@ == b@,
            i <= av@.len(),
            i <= bv@.len(),
            name_lt(a@, b@) == name_lt(a@.skip(i as int), b@.skip(i as int)),
        decreases av.len() - i,
    {
        assert(a@.skip(i as int).drop_first() =~= a@.skip(i + 1));
        assert(b@.skip(i as int).drop_first() =~= b@.skip(i + 1));
        i += 1;
    }
    if i == av.len() {
        assert(a@.skip(i as int).len() == 0);
        i < bv.len()
    } else if i == bv.len() {
        assert(b@.skip(i as int).len() == 0);
        false
    } else {
        assert(a@.skip(i as int)[0] == av@[i as int]);
        assert(b@.skip(i as int)[0] == bv@[i as int]);
        (av[i] as u32) < (bv[i] as u32)
    }
}

/// Position of the first child whose name is not less than `name`.
pub open spec fn name_pos(cs: Seq<(Seq<char>, NodeView)>, name: Seq<char>, i: int) -> int
    decreases cs.len() - i,
{
    if 0 <= i < cs.len() && name_lt(cs[i].0, name) {
        name_pos(cs, name, i + 1)
    } else {
        i
    }
}

/// The tree `v` after recording `e` at relative path `comps`: the nodes
/// along the path are created where missing (with no data), children being
/// kept in name order, and the node at the end takes the size, kind, child
/// count and date of `e` and is marked as selected; its sort key and
/// children are kept.
pub open spec fn inserted(v: NodeView, comps: Seq<Seq<char>>, e: Entry) -> NodeView
    decreases comps.len(),
{
    if comps.len() == 0 {
        NodeView {
            size: e.size,
            is_dir: e.is_dir,
            child_count: e.child_count,
            mtime: opt_view(e.mtime),
            in_top: true,
            sort_key: v.sort_key,
            children: v.children,
        }
    } else {
        let name = comps[0];
        let p = name_pos(v.children, name, 0);
        let children = if p < v.children.len() && v.children[p].0 == name {
            v.children.update(p, (name, inserted(v.children[p].1, comps.drop_first(), e)))
        } else {
            v.children.insert(p, (name, inserted(empty_node(), comps.drop_first(), e)))
        };
        NodeView {
            size: v.size,
            is_dir: v.is_dir,
            child_count: v.child_count,
            mtime: v.mtime,
            in_top: v.in_top,
            sort_key: v.sort_key,
            children,
        }
    }
}

/// The characters of each string.
pub open spec fn names_view(s: Seq<String>) -> Seq<Seq<char>> {
    s.map_values(|x: String| x@)
}

/// The value of each child is the value of the stored child node.
pub proof fn lemma_view_children(n: TreeNode)
    ensures
        n.view_node().children.len() == n.children@.len(),
        forall|i: int|
            0 <= i < n.children@.len() ==> #[trigger] n.view_node().children[i] == (
                n.children@[i].0@,
                n.children@[i].1.view_node(),
            ),
{
}

/// Records `info` at the path `components` below `node` (see `inserted`).
pub fn insert_path(node: &mut TreeNode, components: &[String], info: &Entry)
    ensures
        final(node).view_node() == inserted(old(node).view_node(), names_view(components@), *info),
        tree_sorted(old(node).view_node()) ==> tree_sorted(final(node).view_node()),
        tree_sorted(old(node).view_node()) ==> subtree_at(final(node).view_node(), names_view(components@)) is Some,
{
    insert_path_from(node, components, 0, info);
    assert(components@.skip(0) =~= components@);
    proof {
        if tree_sorted(old(node).view_node()) {
            lemma_inserted_sorted(old(node).view_node(), names_view(components@), *info);
            lemma_inserted_found(old(node).view_node(), names_view(components@), *info);
        }
    }
}

fn insert_path_from(node: &mut TreeNode, components: &[String], start: usize, info: &Entry)
    requires
        start <= components@.len(),
    ensures
        final(node).view_node() == inserted(
            old(node).view_node(),
            names_view(components@.skip(start as int)),
            *info,
        ),
    decreases components@.len() - start,
{
    let ghost comps = names_view(components@.skip(start as int));
    proof {
        lemma_view_children(*node);
    }
    if start == components.len() {
        node.size = info.size;
        node.is_dir = info.is_dir;
        node.child_count = info.child_count;
        node.mtime = clone_opt(&info.mtime);
        node.in_top = true;
        proof {
            lemma_view_children(*node);
            assert(node.view_node().children =~= old(node).view_node().children);
        }
        return;
    }
    let head = &components[start];
    assert(comps[0] == head@);
    assert(names_view(components@.skip(start + 1)) =~= comps.drop_first());
    let ghost old_children = node.view_node().children;
    let mut p: usize = 0;
    while p < node.children.len() && name_less(node.children[p].0.as_str(), head.as_str())
        invariant
            p <= node.children@.len(),
            old_children == node.view_node().children,
            old_children.len() == node.children@.len(),
            forall|i: int| 0 <= i < node.children@.len() ==> #[trigger] old_children[i] == (node.children@[i].0@, node.children@[i].1.view_node()),
            name_pos(old_children, head@, 0) == name_pos(old_children, head@, p as int),
        decreases node.children.len() - p,
    {
        p += 1;
    }
    assert(name_pos(old_children, head@, 0) == p);
    if p < node.children.len() && node.children[p].0 == *head {
        let (name, mut child) = node.children.remove(p);
        insert_path_from(&mut child, components, start + 1, info);
        node.children.insert(p, (name, child));
        proof {
            lemma_view_children(*node);
            assert(node.view_node().children =~= old_children.update(
                p as int,
                (head@, inserted(old_children[p as int].1, comps.drop_first(), *info)),
            ));
        }
    } else {
        let mut child = TreeNode::new();
        insert_path_from(&mut child, components, start + 1, info);
        node.children.insert(p, (head.clone(), child));
        proof {
            lemma_view_children(*node);
            assert(node.view_node().children =~= old_children.insert(
                p as int,
                (head@, inserted(empty_node(), comps.drop_first(), *info)),
            ));
        }
    }
}

/// The largest size held by `v` or any node below it.
pub open spec fn subtree_max_size(v: NodeView) -> u64
    decreases v,
{
    children_max_size(v, 0)
}

/// The largest of `v.size` and the sizes held below the children of `v`
/// from index `i` on.
pub open spec fn children_max_size(v: NodeView, i: int) -> u64
    decreases v, v.children.len() - i,
{
    if 0 <= i < v.children.len() {
        let here = subtree_max_size(v.children[i].1);
        let rest = children_max_size(v, i + 1);
        if here > rest {
            here
        } else {
            rest
        }
    } else {
        v.size
    }
}

/// The tree `v` with every node's sort key set to the largest size held
/// by the node or its descendants; nothing else changes.
pub open spec fn with_sort_keys(v: NodeView) -> NodeView
    decreases v,
{
    NodeView {
        size: v.size,
        is_dir: v.is_dir,
        child_count: v.child_count,
        mtime: v.mtime,
        in_top: v.in_top,
        sort_key: subtree_max_size(v),
        children: Seq::new(
            v.children.len(),
            |i: int|
                if 0 <= i < v.children.len() {
                    (v.children[i].0, with_sort_keys(v.children[i].1))
                } else {
                    (Seq::empty(), empty_node())
                },
        ),
    }
}

/// Sets the sort key of every node to the largest size at or below it, and
/// returns the root's.
pub fn compute_sort_keys(node: &mut TreeNode) -> (k: u64)
    ensures
        final(node).view_node() == with_sort_keys(old(node).view_node()),
        k == subtree_max_size(old(node).view_node()),
    decreases old(node).view_node(),
{
    let ghost v = node.view_node();
    proof {
        lemma_view_children(*node);
    }
    let n = node.children.len();
    let mut max_child: u64 = 0;
    let mut i: usize = 0;
    while i < n
        invariant
            n == node.children@.len(),
            n == v.children.len(),
            v == old(node).view_node(),
            i <= n,
            node.size == v.size,
            node.is_dir == v.is_dir,
            node.child_count == v.child_count,
            opt_view(node.mtime) == v.mtime,
            node.in_top == v.in_top,
            forall|j: int| 0 <= j < n ==> (#[trigger] node.children@[j]).0@ == v.children[j].0,
            forall|j: int| 0 <= j < i ==> (#[trigger] node.children@[j]).1.view_node() == with_sort_keys(v.children[j].1),
            forall|j: int| i <= j < n ==> (#[trigger] node.children@[j]).1.view_node() == v.children[j].1,
            children_max_size(v, 0) == (if max_child > children_max_size(v, i as int) { max_child } else { children_max_size(v, i as int) }),
        decreases n - i,
    {
        let ghost before = node.children@;
        let (name, mut child) = node.children.remove(i);
        assert(child.view_node() == v.children[i as int].1);
        assert(decreases_to!(v => child.view_node()));
        let k = compute_sort_keys(&mut child);
        node.children.insert(i, (name, child));
        assert(node.children@ =~= before.update(i as int, (name, child)));
        if k > max_child {
            max_child = k;
        }
        i += 1;
    }
    node.sort_key = if node.size > max_child { node.size } else { max_child };
    proof {
        lemma_view_children(*node);
        assert(node.view_node().children =~= with_sort_keys(v).children);
    }
    node.sort_key
}

/// The children are in strictly increasing name order (so no two share a
/// name).
pub open spec fn names_sorted(cs: Seq<(Seq<char>, NodeView)>) -> bool {
    forall|i: int, j: int| 0 <= i < j < cs.len() ==> name_lt(#[trigger] cs[i].0, #[trigger] cs[j].0)
}

/// Every level of the tree keeps its children in name order.
pub open spec fn tree_sorted(v: NodeView) -> bool
    decreases v,
{
    names_sorted(v.children) && forall|i: int|
        0 <= i < v.children.len() ==> tree_sorted(#[trigger] v.children[i].1)
}

/// The first child named `name`, from index `i` on.
pub open spec fn child_named(cs: Seq<(Seq<char>, NodeView)>, name: Seq<char>, i: int) -> Option<NodeView>
    decreases cs.len() - i,
{
    if 0 <= i < cs.len() {
        if cs[i].0 == name {
            Some(cs[i].1)
        } else {
            child_named(cs, name, i + 1)
        }
    } else {
        None
    }
}

/// The node reached from `v` by following the names of `path`.
pub open spec fn subtree_at(v: NodeView, path: Seq<Seq<char>>) -> Option<NodeView>
    decreases path.len(),
{
    if path.len() == 0 {
        Some(v)
    } else {
        match child_named(v.children, path[0], 0) {
            Some(c) => subtree_at(c, path.drop_first()),
            None => None,
        }
    }
}

proof fn lemma_name_pos(cs: Seq<(Seq<char>, NodeView)>, name: Seq<char>, i: int)
    requires
        0 <= i <= cs.len(),
    ensures
        i <= name_pos(cs, name, i) <= cs.len(),
        forall|k: int| i <= k < name_pos(cs, name, i) ==> name_lt(#[trigger] cs[k].0, name),
        name_pos(cs, name, i) < cs.len() ==> !name_lt(cs[name_pos(cs, name, i)].0, name),
    decreases cs.len() - i,
{
    if i < cs.len() && name_lt(cs[i].0, name) {
        lemma_name_pos(cs, name, i + 1);
    }
}

proof fn lemma_child_named_at(cs: Seq<(Seq<char>, NodeView)>, name: Seq<char>, p: int, i: int)
    requires
        0 <= i <= p < cs.len(),
        cs[p].0 == name,
        forall|k: int| i <= k < p ==> name_lt(#[trigger] cs[k].0, name),
    ensures
        child_named(cs, name, i) == Some(cs[p].1),
    decreases p - i,
{
    if i < p {
        lemma_name_lt_irreflexive(name);
        assert(name_lt(cs[i].0, name));
        lemma_child_named_at(cs, name, p, i + 1);
    }
}

/// Recording an entry keeps every level in name order.
pub proof fn lemma_inserted_sorted(v: NodeView, comps: Seq<Seq<char>>, e: Entry)
    requires
        tree_sorted(v),
    ensures
        tree_sorted(inserted(v, comps, e)),
    decreases comps.len(),
{
    if comps.len() > 0 {
        let name = comps[0];
        let cs = v.children;
        let p = name_pos(cs, name, 0);
        lemma_name_pos(cs, name, 0);
        let r = inserted(v, comps, e);
        if p < cs.len() && cs[p].0 == name {
            assert(tree_sorted(cs[p].1));
            lemma_inserted_sorted(cs[p].1, comps.drop_first(), e);
            assert forall|i: int| 0 <= i < r.children.len() implies #[trigger] tree_sorted(r.children[i].1) by {
                if i != p {
                    assert(tree_sorted(cs[i].1));
                }
            }
        } else {
            let child = inserted(empty_node(), comps.drop_first(), e);
            assert(tree_sorted(empty_node()));
            lemma_inserted_sorted(empty_node(), comps.drop_first(), e);
            if p < cs.len() {
                lemma_name_lt_total(cs[p].0, name);
            }
            assert forall|i: int, j: int| 0 <= i < j < r.children.len() implies name_lt(#[trigger] r.children[i].0, #[trigger] r.children[j].0) by {
                if j < p {
                } else if i < p && j == p {
                } else if i < p {
                    assert(name_lt(cs[i].0, name));
                    assert(name_lt(name, cs[p].0));
                    if j - 1 > p {
                        lemma_name_lt_transitive(name, cs[p].0, cs[j - 1].0);
                    }
                    lemma_name_lt_transitive(cs[i].0, name, cs[j - 1].0);
                } else if i == p {
                    if j - 1 > p {
                        lemma_name_lt_transitive(name, cs[p].0, cs[j - 1].0);
                    }
                } else {
                    assert(name_lt(cs[i - 1].0, cs[j - 1].0));
                }
            }
            assert forall|i: int| 0 <= i < r.children.len() implies #[trigger] tree_sorted(r.children[i].1) by {
                if i < p {
                    assert(tree_sorted(cs[i].1));
                } else if i > p {
                    assert(tree_sorted(cs[i - 1].1));
                }
            }
        }
    }
}

/// After recording an entry at `comps`, following `comps` reaches a
/// selected node holding that entry's size, kind, child count and date.
pub proof fn lemma_inserted_found(v: NodeView, comps: Seq<Seq<char>>, e: Entry)
    requires
        tree_sorted(v),
    ensures
        subtree_at(inserted(v, comps, e), comps) is Some,
        ({
            let n = subtree_at(inserted(v, comps, e), comps)->0;
            &&& n.in_top
            &&& n.size == e.size
            &&& n.is_dir == e.is_dir
            &&& n.child_count == e.child_count
            &&& n.mtime == opt_view(e.mtime)
        }),
        subtree_at(v, comps) is Some ==> subtree_at(inserted(v, comps, e), comps)->0.sort_key == subtree_at(
            v,
            comps,
        )->0.sort_key && subtree_at(inserted(v, comps, e), comps)->0.children == subtree_at(v, comps)->0.children,
    decreases comps.len(),
{
    if comps.len() > 0 {
        let name = comps[0];
        let cs = v.children;
        let p = name_pos(cs, name, 0);
        lemma_name_pos(cs, name, 0);
        let r = inserted(v, comps, e);
        if p < cs.len() && cs[p].0 == name {
            assert(tree_sorted(cs[p].1));
            lemma_inserted_found(cs[p].1, comps.drop_first(), e);
            lemma_child_named_at(cs, name, p, 0);
        } else {
            assert(tree_sorted(empty_node()));
            lemma_inserted_found(empty_node(), comps.drop_first(), e);
            if child_named(cs, name, 0) is Some {
                let k = lemma_child_named_witness(cs, name, 0);
                lemma_pos_of_named(cs, name, k);
            }
        }
        assert forall|k: int| 0 <= k < p implies name_lt(#[trigger] r.children[k].0, name) by {
            assert(r.children[k] == cs[k]);
        }
        lemma_child_named_at(r.children, name, p, 0);
    }
}

/// The position of the child that `child_named` finds.
proof fn lemma_child_named_witness(cs: Seq<(Seq<char>, NodeView)>, name: Seq<char>, i: int) -> (k: int)
    requires
        0 <= i,
        child_named(cs, name, i) is Some,
    ensures
        i <= k < cs.len(),
        cs[k].0 == name,
        child_named(cs, name, i) == Some(cs[k].1),
    decreases cs.len() - i,
{
    if cs[i].0 == name {
        i
    } else {
        lemma_child_named_witness(cs, name, i + 1)
    }
}

/// In name order, the child named `name` is found at its position.
proof fn lemma_child_named_sorted(cs: Seq<(Seq<char>, NodeView)>, name: Seq<char>, k: int)
    requires
        names_sorted(cs),
        0 <= k < cs.len(),
        cs[k].0 == name,
    ensures
        child_named(cs, name, 0) == Some(cs[k].1),
{
    assert forall|j: int| 0 <= j < k implies name_lt(#[trigger] cs[j].0, name) by {
        assert(name_lt(cs[j].0, cs[k].0));
    }
    lemma_child_named_at(cs, name, k, 0);
}

/// In name order, `name_pos` of a name that is present is its position.
proof fn lemma_pos_of_named(cs: Seq<(Seq<char>, NodeView)>, name: Seq<char>, k: int)
    requires
        names_sorted(cs),
        0 <= k < cs.len(),
        cs[k].0 == name,
    ensures
        name_pos(cs, name, 0) == k,
{
    lemma_name_pos(cs, name, 0);
    lemma_name_lt_irreflexive(name);
    let p = name_pos(cs, name, 0);
    if p > k {
        assert(name_lt(cs[k].0, name));
    } else if p < k {
        assert(name_lt(cs[p].0, cs[k].0));
    }
}

/// Whether `q` is a prefix of `path`.
pub open spec fn is_path_prefix(q: Seq<Seq<char>>, path: Seq<Seq<char>>) -> bool {
    q.len() <= path.len() && path.take(q.len() as int) == q
}

/// Recording an entry removes no node, and every node whose path is not
/// on the way to the recorded one (nor the recorded one itself) keeps its
/// whole value, data and children.
pub proof fn lemma_inserted_keeps(v: NodeView, comps: Seq<Seq<char>>, e: Entry, q: Seq<Seq<char>>)
    requires
        tree_sorted(v),
        subtree_at(v, q) is Some,
    ensures
        subtree_at(inserted(v, comps, e), q) is Some,
        !is_path_prefix(q, comps) ==> subtree_at(inserted(v, comps, e), q) == subtree_at(v, q),
    decreases comps.len(),
{
    let r = inserted(v, comps, e);
    if q.len() == 0 {
        assert(comps.take(0) =~= q);
    } else if comps.len() == 0 {
        assert(r.children == v.children);
    } else {
        let cs = v.children;
        let name = comps[0];
        let nm = q[0];
        let k = lemma_child_named_witness(cs, nm, 0);
        let c = cs[k].1;
        assert(subtree_at(v, q) == subtree_at(c, q.drop_first()));
        lemma_inserted_sorted(v, comps, e);
        assert(names_sorted(r.children));
        let p = name_pos(cs, name, 0);
        lemma_name_pos(cs, name, 0);
        if nm == name {
            lemma_pos_of_named(cs, name, k);
            assert(tree_sorted(c));
            assert(r.children[k] == (name, inserted(c, comps.drop_first(), e)));
            lemma_child_named_sorted(r.children, name, k);
            lemma_inserted_keeps(c, comps.drop_first(), e, q.drop_first());
            if is_path_prefix(q.drop_first(), comps.drop_first()) {
                let t = comps.drop_first().take(q.len() - 1);
                assert forall|i: int| 0 <= i < q.len() implies #[trigger] comps.take(q.len() as int)[i] == q[i] by {
                    if i > 0 {
                        assert(t[i - 1] == q.drop_first()[i - 1]);
                    }
                }
                assert(comps.take(q.len() as int) =~= q);
            }
            if is_path_prefix(q, comps) {
                assert(comps.drop_first().take(q.len() - 1) =~= q.drop_first());
            }
        } else {
            if p < cs.len() && cs[p].0 == name {
                assert(r.children[k] == cs[k]);
                lemma_child_named_sorted(r.children, nm, k);
            } else if k < p {
                assert(r.children[k] == cs[k]);
                lemma_child_named_sorted(r.children, nm, k);
            } else {
                assert(r.children[k + 1] == cs[k]);
                lemma_child_named_sorted(r.children, nm, k + 1);
            }
            if is_path_prefix(q, comps) {
                assert(comps.take(q.len() as int)[0] == comps[0]);
            }
        }
    }
}

/// `name_pos` from the start stays within the children.
pub proof fn lemma_name_pos_bounds(cs: Seq<(Seq<char>, NodeView)>, name: Seq<char>)
    ensures
        0 <= name_pos(cs, name, 0) <= cs.len(),
{
    lemma_name_pos(cs, name, 0);
}

/// The node at `q`, or an empty node where there is none.
pub open spec fn node_or_empty(v: NodeView, q: Seq<Seq<char>>) -> NodeView {
    match subtree_at(v, q) {
        Some(n) => n,
        None => empty_node(),
    }
}

/// Whether two nodes hold the same data (all but their children).
pub open spec fn same_data(a: NodeView, b: NodeView) -> bool {
    &&& a.size == b.size
    &&& a.is_dir == b.is_dir
    &&& a.child_count == b.child_count
    &&& a.mtime == b.mtime
    &&& a.in_top == b.in_top
    &&& a.sort_key == b.sort_key
}

/// Along the recorded path, every node before the target keeps its data
/// (a node created there is empty: no size, not a directory, not
/// selected, sort key 0) and gains at most one child; the target keeps its
/// sort key and children (none, with sort key 0, when it is new).
pub proof fn lemma_inserted_along_path(v: NodeView, comps: Seq<Seq<char>>, e: Entry, q: Seq<Seq<char>>)
    requires
        tree_sorted(v),
        is_path_prefix(q, comps),
    ensures
        subtree_at(inserted(v, comps, e), q) is Some,
        q.len() < comps.len() ==> same_data(subtree_at(inserted(v, comps, e), q)->0, node_or_empty(v, q))
            && node_or_empty(v, q).children.len() <= subtree_at(inserted(v, comps, e), q)->0.children.len()
            <= node_or_empty(v, q).children.len() + 1,
        q.len() == comps.len() ==> subtree_at(inserted(v, comps, e), q)->0.sort_key == node_or_empty(v, q).sort_key
            && subtree_at(inserted(v, comps, e), q)->0.children == node_or_empty(v, q).children,
    decreases comps.len(),
{
    let r = inserted(v, comps, e);
    if q.len() == 0 {
        if comps.len() > 0 {
            let name = comps[0];
            let p = name_pos(v.children, name, 0);
            lemma_name_pos(v.children, name, 0);
        } else {
            assert(q =~= comps);
        }
    } else {
        let cs = v.children;
        let name = comps[0];
        let rest = comps.drop_first();
        let q2 = q.drop_first();
        assert(comps.take(q.len() as int)[0] == comps[0]);
        assert(q[0] == name);
        assert(rest.take(q2.len() as int) =~= q2) by {
            assert forall|i: int| 0 <= i < q2.len() implies rest.take(q2.len() as int)[i] == q2[i] by {
                assert(comps.take(q.len() as int)[i + 1] == q[i + 1]);
            }
        }
        let p = name_pos(cs, name, 0);
        lemma_name_pos(cs, name, 0);
        assert forall|k: int| 0 <= k < p implies name_lt(#[trigger] r.children[k].0, name) by {
            assert(r.children[k] == cs[k]);
        }
        if p < cs.len() && cs[p].0 == name {
            lemma_child_named_at(cs, name, p, 0);
            lemma_child_named_at(r.children, name, p, 0);
            assert(tree_sorted(cs[p].1));
            lemma_inserted_along_path(cs[p].1, rest, e, q2);
            assert(node_or_empty(v, q) == node_or_empty(cs[p].1, q2));
        } else {
            if child_named(cs, name, 0) is Some {
                let k = lemma_child_named_witness(cs, name, 0);
                lemma_pos_of_named(cs, name, k);
            }
            lemma_child_named_at(r.children, name, p, 0);
            assert(tree_sorted(empty_node()));
            lemma_inserted_along_path(empty_node(), rest, e, q2);
            assert(node_or_empty(empty_node(), q2) == empty_node());
            assert(node_or_empty(v, q) == empty_node());
        }
    }
}

/// Whether the node at `q` exists and is selected.
pub open spec fn in_top_at(v: NodeView, q: Seq<Seq<char>>) -> bool {
    subtree_at(v, q) matches Some(n) && n.in_top
}

/// Recording an entry at `comps` selects the node there and changes the
/// selection nowhere else.
pub proof fn lemma_inserted_in_top(v: NodeView, comps: Seq<Seq<char>>, e: Entry, q: Seq<Seq<char>>)
    requires
        tree_sorted(v),
    ensures
        in_top_at(inserted(v, comps, e), q) == (q == comps || in_top_at(v, q)),
    decreases comps.len(),
{
    let r = inserted(v, comps, e);
    if q.len() == 0 {
        if comps.len() > 0 {
            assert(q != comps);
        } else {
            assert(q =~= comps);
        }
    } else if comps.len() == 0 {
        assert(r.children == v.children);
        assert(q != comps);
    } else {
        let cs = v.children;
        let name = comps[0];
        let rest = comps.drop_first();
        let nm = q[0];
        let q2 = q.drop_first();
        lemma_inserted_sorted(v, comps, e);
        let p = name_pos(cs, name, 0);
        lemma_name_pos(cs, name, 0);
        let found = p < cs.len() && cs[p].0 == name;
        if nm == name {
            assert((q == comps) == (q2 == rest)) by {
                if q2 == rest {
                    assert(q =~= comps) by {
                        assert(q =~= seq![nm] + q2);
                        assert(comps =~= seq![name] + rest);
                    }
                }
            }
            assert forall|k: int| 0 <= k < p implies name_lt(#[trigger] r.children[k].0, name) by {
                assert(r.children[k] == cs[k]);
            }
            lemma_child_named_at(r.children, name, p, 0);
            if found {
                lemma_child_named_at(cs, name, p, 0);
                assert(tree_sorted(cs[p].1));
                lemma_inserted_in_top(cs[p].1, rest, e, q2);
            } else {
                if child_named(cs, name, 0) is Some {
                    let k = lemma_child_named_witness(cs, name, 0);
                    lemma_pos_of_named(cs, name, k);
                }
                assert(tree_sorted(empty_node()));
                lemma_inserted_in_top(empty_node(), rest, e, q2);
                assert(!in_top_at(empty_node(), q2));
            }
        } else {
            assert(q != comps);
            if child_named(cs, nm, 0) is Some {
                let k = lemma_child_named_witness(cs, nm, 0);
                if found {
                    assert(r.children[k] == cs[k]);
                    lemma_child_named_sorted(r.children, nm, k);
                } else if k < p {
                    assert(r.children[k] == cs[k]);
                    lemma_child_named_sorted(r.children, nm, k);
                } else {
                    assert(r.children[k + 1] == cs[k]);
                    lemma_child_named_sorted(r.children, nm, k + 1);
                }
            } else if child_named(r.children, nm, 0) is Some {
                let k = lemma_child_named_witness(r.children, nm, 0);
                if found {
                    assert(r.children[k] == cs[k]);
                    lemma_child_named_sorted(cs, nm, k);
                } else if k < p {
                    assert(r.children[k] == cs[k]);
                    lemma_child_named_sorted(cs, nm, k);
                } else if k > p {
                    assert(r.children[k] == cs[k - 1]);
                    lemma_child_named_sorted(cs, nm, k - 1);
                }
            }
        }
    }
}

proof fn lemma_child_named_sort_keys(v: NodeView, nm: Seq<char>, i: int)
    requires
        0 <= i,
    ensures
        child_named(with_sort_keys(v).children, nm, i) == (match child_named(v.children, nm, i) {
            Some(c) => Some(with_sort_keys(c)),
            None => None,
        }),
    decreases v.children.len() - i,
{
    if i < v.children.len() {
        lemma_child_named_sort_keys(v, nm, i + 1);
    }
}

/// Setting the sort keys changes no node's selection.
pub proof fn lemma_sort_keys_in_top(v: NodeView, q: Seq<Seq<char>>)
    ensures
        in_top_at(with_sort_keys(v), q) == in_top_at(v, q),
    decreases q.len(),
{
    if q.len() > 0 {
        lemma_child_named_sort_keys(v, q[0], 0);
        match child_named(v.children, q[0], 0) {
            Some(c) => {
                lemma_sort_keys_in_top(c, q.drop_first());
            },
            None => {},
        }
    }
}

proof fn lemma_children_max(v: NodeView, i: int)
    requires
        0 <= i <= v.children.len(),
    ensures
        children_max_size(v, i) >= v.size,
        forall|j: int| i <= j < v.children.len() ==> children_max_size(v, i) >= subtree_max_size(#[trigger] v.children[j].1),
        children_max_size(v, i) == v.size || exists|j: int|
            i <= j < v.children.len() && children_max_size(v, i) == subtree_max_size(#[trigger] v.children[j].1),
    decreases v.children.len() - i,
{
    if i < v.children.len() {
        lemma_children_max(v, i + 1);
        let here = subtree_max_size(v.children[i].1);
        let rest = children_max_size(v, i + 1);
        if here <= rest && rest != v.size {
            let j = choose|j: int| i + 1 <= j < v.children.len() && rest == subtree_max_size(#[trigger] v.children[j].1);
            assert(i <= j < v.children.len() && children_max_size(v, i) == subtree_max_size(v.children[j].1));
        }
        if here > rest {
            assert(i <= i < v.children.len() && children_max_size(v, i) == subtree_max_size(v.children[i].1));
        }
    }
}

/// The sort key of a node is the largest size at or below it: at least
/// its own size and every child's key, and equal to one of them.
pub proof fn lemma_sort_key_is_max(v: NodeView)
    ensures
        with_sort_keys(v).sort_key >= v.size,
        forall|i: int|
            0 <= i < v.children.len() ==> with_sort_keys(v).sort_key >= #[trigger] with_sort_keys(v).children[i].1.sort_key,
        with_sort_keys(v).sort_key == v.size || exists|i: int|
            0 <= i < v.children.len() && with_sort_keys(v).sort_key == #[trigger] with_sort_keys(v).children[i].1.sort_key,
{
    lemma_children_max(v, 0);
    let w = with_sort_keys(v);
    assert forall|i: int| 0 <= i < v.children.len() implies w.sort_key >= #[trigger] w.children[i].1.sort_key by {
        assert(w.children[i].1 == with_sort_keys(v.children[i].1));
        assert(subtree_max_size(v) >= subtree_max_size(v.children[i].1));
    }
    if w.sort_key != v.size {
        let j = choose|j: int| 0 <= j < v.children.len() && subtree_max_size(v) == subtree_max_size(#[trigger] v.children[j].1);
        assert(w.children[j].1 == with_sort_keys(v.children[j].1));
        assert(w.children[j].1.sort_key == subtree_max_size(v.children[j].1));
        assert(0 <= j < v.children.len() && w.sort_key == w.children[j].1.sort_key);
    }
}

/// No node below `v` is larger than the sort key of `v`.
pub proof fn lemma_sort_key_bounds_subtree(v: NodeView, q: Seq<Seq<char>>)
    requires
        subtree_at(v, q) is Some,
    ensures
        subtree_at(v, q)->0.size <= subtree_max_size(v),
    decreases q.len(),
{
    lemma_children_max(v, 0);
    if q.len() > 0 {
        let k = lemma_child_named_witness(v.children, q[0], 0);
        let c = v.children[k].1;
        assert(subtree_max_size(v) >= subtree_max_size(c));
        lemma_sort_key_bounds_subtree(c, q.drop_first());
    }
}

} // verus!
