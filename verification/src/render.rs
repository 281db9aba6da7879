//! Rendering the display tree as lines of text: children by decreasing
//! sort key, chains of unselected single-child directories folded into one
//! `a/b/c` line, and a coloured or a plain style.
use vstd::prelude::*;
use crate::tree::{TreeNode, NodeView};
use crate::select::{top_indices, top_selection, lemma_top_selection_is_top};
use crate::size::{human_size, human_size_text};
use crate::style::{
    ansi, ansi_text, size_color, size_color_of, Color, visible_chars, escape_state_after, lemma_ansi_visible,
    lemma_plain_text_visible, lemma_visible_join,
};
use crate::text::{decimal, digit_char, pad_left, repeat_char, push_decimal, push_repeat};

verus! {

/// The characters of each string.
pub open spec fn lines_view(s: Seq<String>) -> Seq<Seq<char>> {
    s.map_values(|x: String| x@)
}

/// The items joined with `sep` between consecutive ones.
pub open spec fn joined(items: Seq<Seq<char>>, sep: Seq<char>) -> Seq<char>
    decreases items.len(),
{
    if items.len() == 0 {
        Seq::empty()
    } else if items.len() == 1 {
        items[0]
    } else {
        joined(items.drop_last(), sep) + sep + items.last()
    }
}

/// The sort keys of the children of `v`.
pub open spec fn child_keys(v: NodeView) -> Seq<u64> {
    Seq::new(v.children.len(), |i: int| v.children[i].1.sort_key)
}

/// The order in which the children of `v` are shown: by decreasing sort
/// key, equal keys in stored (name) order.
pub open spec fn display_order(v: NodeView) -> Seq<usize> {
    top_selection(child_keys(v), v.children.len() as int)
}

/// The branch drawn before a node's name.
pub open spec fn connector(is_last: bool) -> Seq<char> {
    if is_last {
        "└── "@
    } else {
        "├── "@
    }
}

/// What the children's lines add to the prefix.
pub open spec fn branch(is_last: bool) -> Seq<char> {
    if is_last {
        "    "@
    } else {
        "│   "@
    }
}

/// The details shown in parentheses: the child count of a directory, then
/// the date, where known.
pub open spec fn meta_items(v: NodeView) -> Seq<Seq<char>> {
    (if v.is_dir && v.child_count is Some {
        seq![decimal(v.child_count->0 as nat)]
    } else {
        Seq::empty()
    }) + (match v.mtime {
        Some(m) => seq![m],
        None => Seq::empty(),
    })
}

/// The size column: the size of a selected node (coloured, in bold, unless
/// `plain`), or ten spaces.
pub open spec fn size_text(v: NodeView, plain: bool) -> Seq<char> {
    if v.in_top {
        if plain {
            human_size_text(v.size as int)
        } else {
            ansi_text(human_size_text(v.size as int), size_color_of(v.size as int), true)
        }
    } else {
        repeat_char(' ', 10)
    }
}

/// The name as shown: a selected directory in bold blue, or with a `/`
/// after it when `plain`.
pub open spec fn name_text(v: NodeView, name: Seq<char>, plain: bool) -> Seq<char> {
    if plain {
        if v.in_top && v.is_dir {
            name + "/"@
        } else {
            name
        }
    } else if v.in_top && v.is_dir {
        ansi_text(name, Color::Blue, true)
    } else {
        name
    }
}

/// The details of a selected node in parentheses (dark grey unless
/// `plain`); the coloured style shows them only once the scan is finished.
pub open spec fn meta_text(v: NodeView, finished: bool, plain: bool) -> Seq<char> {
    if (plain || finished) && v.in_top && meta_items(v).len() > 0 {
        let t = " ("@ + joined(meta_items(v), " "@) + ")"@;
        if plain {
            t
        } else {
            ansi_text(t, Color::DarkGrey, false)
        }
    } else {
        Seq::empty()
    }
}

/// The line of a node shown under `name`.
pub open spec fn node_line(
    v: NodeView,
    name: Seq<char>,
    prefix: Seq<char>,
    is_last: bool,
    finished: bool,
    plain: bool,
) -> Seq<char> {
    size_text(v, plain) + "  "@ + prefix + connector(is_last) + name_text(v, name, plain) + meta_text(
        v,
        finished,
        plain,
    )
}

/// The lines of node `v`, named `name`, and of everything below it. An
/// unselected node with exactly one child is not shown on its own: its
/// child is shown under `name/child`.
pub open spec fn render_lines(
    v: NodeView,
    name: Seq<char>,
    prefix: Seq<char>,
    is_last: bool,
    finished: bool,
    plain: bool,
) -> Seq<Seq<char>>
    decreases v, v.children.len() + 1,
{
    if !v.in_top && v.children.len() == 1 {
        render_lines(v.children[0].1, name + "/"@ + v.children[0].0, prefix, is_last, finished, plain)
    } else {
        seq![node_line(v, name, prefix, is_last, finished, plain)] + children_lines(
            v,
            prefix + branch(is_last),
            finished,
            plain,
            0,
        )
    }
}

/// The lines of the children of `v` from position `j` of the display order
/// on, each drawn with `prefix`.
pub open spec fn children_lines(v: NodeView, prefix: Seq<char>, finished: bool, plain: bool, j: int) -> Seq<
    Seq<char>,
>
    decreases v, v.children.len() - j,
{
    if 0 <= j < v.children.len() {
        let c = display_order(v)[j] as int;
        let here = if 0 <= c < v.children.len() {
            render_lines(
                v.children[c].1,
                v.children[c].0,
                prefix,
                j == v.children.len() - 1,
                finished,
                plain,
            )
        } else {
            Seq::empty()
        };
        here + children_lines(v, prefix, finished, plain, j + 1)
    } else {
        Seq::empty()
    }
}

/// A joined text begins with the first item and ends with the last.
pub proof fn lemma_joined_ends(items: Seq<Seq<char>>, sep: Seq<char>)
    requires
        items.len() > 0,
    ensures
        joined(items, sep).len() >= items[0].len(),
        joined(items, sep).take(items[0].len() as int) == items[0],
        joined(items, sep).len() >= items.last().len(),
        joined(items, sep).skip(joined(items, sep).len() - items.last().len()) == items.last(),
    decreases items.len(),
{
    if items.len() > 1 {
        lemma_joined_ends(items.drop_last(), sep);
        let j = joined(items.drop_last(), sep);
        assert(items.drop_last()[0] == items[0]);
        assert((j + sep + items.last()).take(items[0].len() as int) =~= j.take(items[0].len() as int));
        assert((j + sep + items.last()).skip((j + sep + items.last()).len() - items.last().len()) =~= items.last());
    } else {
        assert(joined(items, sep).take(items[0].len() as int) =~= items[0]);
        assert(joined(items, sep).skip(0) =~= items[0]);
    }
}

/// The children of a node are shown once each, by decreasing sort key:
/// the display order lists distinct child positions, as many as there are
/// children, and a child never comes before one with a larger key.
pub proof fn lemma_display_order(v: NodeView)
    requires
        v.children.len() < usize::MAX,
    ensures
        display_order(v).len() == v.children.len(),
        forall|a: int| 0 <= a < display_order(v).len() ==> #[trigger] display_order(v)[a] < v.children.len(),
        forall|a: int, b: int|
            0 <= a < b < display_order(v).len() ==> display_order(v)[a] != display_order(v)[b]
                && v.children[#[trigger] display_order(v)[a] as int].1.sort_key
                >= v.children[#[trigger] display_order(v)[b] as int].1.sort_key,
{
    let keys = child_keys(v);
    lemma_top_selection_is_top(keys, v.children.len() as int);
    let d = display_order(v);
    assert forall|a: int, b: int| 0 <= a < b < d.len() implies d[a] != d[b]
        && v.children[#[trigger] d[a] as int].1.sort_key >= v.children[#[trigger] d[b] as int].1.sort_key by {
        assert(keys[d[a] as int] >= keys[d[b] as int]);
    }
}

/// An unselected directory with a single child gets no line of its own:
/// its child is drawn in its place, under the name `name/child`. Applied
/// along a chain, a path of such directories shows as one `a/b/c` line.
pub proof fn lemma_single_child_folded(
    v: NodeView,
    name: Seq<char>,
    prefix: Seq<char>,
    is_last: bool,
    finished: bool,
    plain: bool,
)
    requires
        !v.in_top,
        v.children.len() == 1,
    ensures
        render_lines(v, name, prefix, is_last, finished, plain) == render_lines(
            v.children[0].1,
            name + "/"@ + v.children[0].0,
            prefix,
            is_last,
            finished,
            plain,
        ),
{
}

/// A selected node, or one without exactly one child, gets its own line
/// first, followed by the lines of its children in display order.
pub proof fn lemma_node_first_line(
    v: NodeView,
    name: Seq<char>,
    prefix: Seq<char>,
    is_last: bool,
    finished: bool,
    plain: bool,
)
    requires
        v.in_top || v.children.len() != 1,
    ensures
        render_lines(v, name, prefix, is_last, finished, plain)[0] == node_line(v, name, prefix, is_last, finished, plain),
        render_lines(v, name, prefix, is_last, finished, plain) == seq![node_line(v, name, prefix, is_last, finished, plain)]
            + children_lines(v, prefix + branch(is_last), finished, plain, 0),
{
}

/// Before the scan is finished, the coloured style shows no details in
/// parentheses: a line is the size column, the prefix, the branch and the
/// name.
pub proof fn lemma_no_details_while_scanning(v: NodeView, name: Seq<char>, prefix: Seq<char>, is_last: bool)
    ensures
        node_line(v, name, prefix, is_last, false, false) == size_text(v, false) + "  "@ + prefix + connector(
            is_last,
        ) + name_text(v, name, false),
{
    assert(meta_text(v, false, false) =~= Seq::<char>::empty());
    assert(node_line(v, name, prefix, is_last, false, false) =~= size_text(v, false) + "  "@ + prefix
        + connector(is_last) + name_text(v, name, false));
}

/// Once the scan is finished, a selected node with known details shows
/// them in dark grey parentheses, the child count before the date.
pub proof fn lemma_details_when_finished(v: NodeView)
    requires
        v.in_top,
        meta_items(v).len() > 0,
    ensures
        meta_text(v, true, false) == ansi_text(" ("@ + joined(meta_items(v), " "@) + ")"@, Color::DarkGrey, false),
{
}

/// The items of `items` joined with `sep`.
pub fn join_items(items: &Vec<String>, sep: &str) -> (r: String)
    ensures
        r@ == joined(lines_view(items@), sep@),
{
    let mut r = String::new();
    let mut i: usize = 0;
    while i < items.len()
        invariant
            i <= items@.len(),
            r@ == joined(lines_view(items@).take(i as int), sep@),
        decreases items.len() - i,
    {
        let ghost before = lines_view(items@).take(i as int);
        let ghost after = lines_view(items@).take(i + 1);
        assert(after.drop_last() =~= before);
        if i > 0 {
            r.append(sep);
        } else {
            assert(before.len() == 0);
        }
        r.append(items[i].as_str());
        i += 1;
    }
    assert(lines_view(items@).take(items@.len() as int) =~= lines_view(items@));
    r
}

fn size_column(node: &TreeNode, plain: bool) -> (r: String)
    ensures
        r@ == size_text(node.view_node(), plain),
{
    if node.in_top {
        if plain {
            human_size(node.size)
        } else {
            let hs = human_size(node.size);
            ansi(hs.as_str(), size_color(node.size), true)
        }
    } else {
        let mut r = String::new();
        push_repeat(&mut r, ' ', 10);
        r
    }
}

fn meta_column(node: &TreeNode, finished: bool, plain: bool) -> (r: String)
    ensures
        r@ == meta_text(node.view_node(), finished, plain),
{
    let ghost v = node.view_node();
    if (plain || finished) && node.in_top {
        let mut parts: Vec<String> = Vec::new();
        if node.is_dir {
            if let Some(count) = node.child_count {
                let mut c = String::new();
                push_decimal(&mut c, count);
                parts.push(c);
            }
        }
        match &node.mtime {
            Some(m) => {
                parts.push(m.clone());
            },
            None => {},
        }
        assert(lines_view(parts@) =~= meta_items(v));
        if parts.len() == 0 {
            String::new()
        } else {
            let mut t = String::new();
            t.append(" (");
            let j = join_items(&parts, " ");
            t.append(j.as_str());
            t.append(")");
            if plain {
                t
            } else {
                ansi(t.as_str(), Color::DarkGrey, false)
            }
        }
    } else {
        String::new()
    }
}

/// The text of `node_line`.
fn node_text(node: &TreeNode, name: &str, prefix: &str, is_last: bool, finished: bool, plain: bool) -> (r: String)
    ensures
        r@ == node_line(node.view_node(), name@, prefix@, is_last, finished, plain),
{
    let mut r = size_column(node, plain);
    r.append("  ");
    r.append(prefix);
    if is_last {
        r.append("└── ");
    } else {
        r.append("├── ");
    }
    if plain {
        r.append(name);
        if node.in_top && node.is_dir {
            r.append("/");
        }
    } else if node.in_top && node.is_dir {
        let n = ansi(name, Color::Blue, true);
        r.append(n.as_str());
    } else {
        r.append(name);
    }
    let m = meta_column(node, finished, plain);
    r.append(m.as_str());
    proof {
        assert(r@ =~= node_line(node.view_node(), name@, prefix@, is_last, finished, plain));
    }
    r
}

/// The display order of the children of `node`.
fn child_order(node: &TreeNode) -> (order: Vec<usize>)
    ensures
        order@ == display_order(node.view_node()),
        order@.len() == node.children@.len(),
        forall|j: int| 0 <= j < order@.len() ==> #[trigger] order@[j] < node.children@.len(),
{
    let ghost v = node.view_node();
    let mut keys: Vec<u64> = Vec::new();
    let mut i: usize = 0;
    while i < node.children.len()
        invariant
            i <= node.children@.len(),
            keys@.len() == i,
            v == node.view_node(),
            forall|j: int| 0 <= j < i ==> #[trigger] keys@[j] == node.children@[j].1.sort_key,
        decreases node.children.len() - i,
    {
        keys.push(node.children[i].1.sort_key);
        i += 1;
    }
    proof {
        crate::tree::lemma_view_children(*node);
    }
    assert(keys@ =~= child_keys(v));
    let order = top_indices(&keys, node.children.len());
    order
}

/// Appends to `out` the lines of `node` shown under `name` and of its
/// subtree (see `render_lines`).
fn render_lines_into(
    node: &TreeNode,
    name: &str,
    prefix: &str,
    is_last: bool,
    finished: bool,
    plain: bool,
    out: &mut Vec<String>,
)
    ensures
        lines_view(final(out)@) == lines_view(old(out)@) + render_lines(
            node.view_node(),
            name@,
            prefix@,
            is_last,
            finished,
            plain,
        ),
    decreases node.view_node(), 1int,
{
    let ghost v = node.view_node();
    if !node.in_top && node.children.len() == 1 {
        let mut folded = String::new();
        folded.append(name);
        folded.append("/");
        folded.append(node.children[0].0.as_str());
        assert(decreases_to!(v => node.children@[0].1.view_node()));
        render_lines_into(&node.children[0].1, folded.as_str(), prefix, is_last, finished, plain, out);
        return;
    }
    let line = node_text(node, name, prefix, is_last, finished, plain);
    out.push(line);
    let mut child_prefix = String::new();
    child_prefix.append(prefix);
    if is_last {
        child_prefix.append("    ");
    } else {
        child_prefix.append("│   ");
    }
    let ghost start = lines_view(old(out)@).push(line@);
    assert(lines_view(out@) =~= start);
    render_children(node, child_prefix.as_str(), finished, plain, out);
}

/// Appends the lines of the children of `node` (and of their subtrees) in
/// display order, each drawn after `prefix` (see `children_lines`).
pub fn render_children(node: &TreeNode, prefix: &str, finished: bool, plain: bool, out: &mut Vec<String>)
    ensures
        lines_view(final(out)@) == lines_view(old(out)@) + children_lines(
            node.view_node(),
            prefix@,
            finished,
            plain,
            0,
        ),
    decreases node.view_node(), 0int,
{
    let ghost v = node.view_node();
    let order = child_order(node);
    let n = node.children.len();
    let ghost start = lines_view(old(out)@);
    let mut j: usize = 0;
    while j < n
        invariant
            n == node.children@.len(),
            v == node.view_node(),
            order@ == display_order(v),
            order@.len() == n,
            forall|q: int| 0 <= q < order@.len() ==> #[trigger] order@[q] < n,
            j <= n,
            lines_view(out@) + children_lines(v, prefix@, finished, plain, j as int) == start
                + children_lines(v, prefix@, finished, plain, 0),
        decreases n - j,
    {
        let c = order[j];
        let ghost before = lines_view(out@);
        assert(decreases_to!(v => node.children@[c as int].1.view_node()));
        render_lines_into(&node.children[c].1, node.children[c].0.as_str(), prefix, j == n - 1, finished, plain, out);
        proof {
            assert(lines_view(out@) == before + render_lines(v.children[c as int].1, v.children[c as int].0, prefix@, j == n - 1, finished, plain));
            assert(lines_view(out@) + children_lines(v, prefix@, finished, plain, j + 1) =~= before + children_lines(v, prefix@, finished, plain, j as int));
        }
        j += 1;
    }
    assert(start + children_lines(v, prefix@, finished, plain, 0) =~= lines_view(out@));
}

/// Appends the coloured lines of `node` (named `name`) and its subtree:
/// sizes coloured by magnitude, selected directories in bold blue, and,
/// once `finished`, their child count and date.
pub fn render_node(node: &TreeNode, name: &str, prefix: &str, is_last: bool, finished: bool, out: &mut Vec<String>)
    ensures
        lines_view(final(out)@) == lines_view(old(out)@) + render_lines(
            node.view_node(),
            name@,
            prefix@,
            is_last,
            finished,
            false,
        ),
{
    render_lines_into(node, name, prefix, is_last, finished, false, out);
}

/// Appends the plain-text lines of `node` (named `name`) and its subtree:
/// no colours, a `/` after selected directories, their child count and date.
pub fn render_node_plain(node: &TreeNode, name: &str, prefix: &str, is_last: bool, out: &mut Vec<String>)
    ensures
        lines_view(final(out)@) == lines_view(old(out)@) + render_lines(
            node.view_node(),
            name@,
            prefix@,
            is_last,
            true,
            true,
        ),
{
    render_lines_into(node, name, prefix, is_last, true, true, out);
}

/// Whether `s` holds no escape character (so no ANSI sequence).
pub open spec fn no_escape(s: Seq<char>) -> bool {
    forall|i: int| 0 <= i < s.len() ==> s[i] != '\x1b'
}

/// The names and dates in the tree below `v` hold no escape character.
pub open spec fn tree_text_clean(v: NodeView) -> bool
    decreases v, v.children.len() + 1,
{
    &&& (v.mtime matches Some(m) ==> no_escape(m))
    &&& children_clean(v, 0)
}

/// The children of `v` from position `i` on have clean names and clean
/// subtrees.
pub open spec fn children_clean(v: NodeView, i: int) -> bool
    decreases v, v.children.len() - i,
{
    if 0 <= i < v.children.len() {
        no_escape(v.children[i].0) && tree_text_clean(v.children[i].1) && children_clean(v, i + 1)
    } else {
        true
    }
}

proof fn lemma_children_clean_at(v: NodeView, j: int, i: int)
    requires
        children_clean(v, j),
        0 <= j <= i < v.children.len(),
    ensures
        no_escape(v.children[i].0),
        tree_text_clean(v.children[i].1),
    decreases i - j,
{
    if j < i {
        lemma_children_clean_at(v, j + 1, i);
    }
}

proof fn lemma_children_clean_from(v: NodeView, j: int)
    requires
        0 <= j,
        forall|i: int| j <= i < v.children.len() ==> no_escape(#[trigger] v.children[i].0) && tree_text_clean(v.children[i].1),
    ensures
        children_clean(v, j),
    decreases v.children.len() - j,
{
    if j < v.children.len() {
        lemma_children_clean_from(v, j + 1);
    }
}

/// A clean tree has clean children and a clean date.
pub proof fn lemma_clean_child(v: NodeView, i: int)
    requires
        tree_text_clean(v),
        0 <= i < v.children.len(),
    ensures
        no_escape(v.children[i].0),
        tree_text_clean(v.children[i].1),
        v.mtime matches Some(m) ==> no_escape(m),
{
    lemma_children_clean_at(v, 0, i);
}

proof fn lemma_children_clean_eq(v: NodeView, w: NodeView, j: int)
    requires
        v.children == w.children,
        0 <= j,
    ensures
        children_clean(v, j) == children_clean(w, j),
    decreases v.children.len() - j,
{
    if j < v.children.len() {
        lemma_children_clean_eq(v, w, j + 1);
    }
}

/// A node with the children of a clean tree and a clean date is clean.
pub proof fn lemma_clean_same_children(v: NodeView, w: NodeView)
    requires
        tree_text_clean(v),
        v.children == w.children,
        w.mtime matches Some(m) ==> no_escape(m),
    ensures
        tree_text_clean(w),
{
    lemma_children_clean_eq(v, w, 0);
}

/// A clean tree has a clean date.
pub proof fn lemma_clean_date(v: NodeView)
    requires
        tree_text_clean(v),
    ensures
        v.mtime matches Some(m) ==> no_escape(m),
{
}

/// A node whose date and children are clean is clean.
pub proof fn lemma_clean_node(v: NodeView)
    requires
        v.mtime matches Some(m) ==> no_escape(m),
        forall|i: int| 0 <= i < v.children.len() ==> no_escape(#[trigger] v.children[i].0) && tree_text_clean(v.children[i].1),
    ensures
        tree_text_clean(v),
{
    lemma_children_clean_from(v, 0);
}

/// Two texts hold no escape character exactly when their concatenation
/// holds none.
pub proof fn lemma_no_escape_concat(a: Seq<char>, b: Seq<char>)
    ensures
        no_escape(a + b) == (no_escape(a) && no_escape(b)),
{
    if no_escape(a + b) {
        assert forall|i: int| 0 <= i < a.len() implies a[i] != '\x1b' by {
            assert((a + b)[i] == a[i]);
        }
        assert forall|i: int| 0 <= i < b.len() implies b[i] != '\x1b' by {
            assert((a + b)[a.len() + i] == b[i]);
        }
    }
}

/// A number in decimal holds no escape character.
pub proof fn lemma_decimal_no_escape(n: nat)
    ensures
        no_escape(decimal(n)),
    decreases n,
{
    if n >= 10 {
        lemma_decimal_no_escape(n / 10);
    }
}

proof fn lemma_repeat_no_escape(c: char, k: int)
    requires
        c != '\x1b',
    ensures
        no_escape(repeat_char(c, k)),
{
}

/// Items and a separator without escape characters join into a text
/// without one.
pub proof fn lemma_joined_no_escape(items: Seq<Seq<char>>, sep: Seq<char>)
    requires
        no_escape(sep),
        forall|i: int| 0 <= i < items.len() ==> no_escape(#[trigger] items[i]),
    ensures
        no_escape(joined(items, sep)),
    decreases items.len(),
{
    if items.len() > 1 {
        lemma_joined_no_escape(items.drop_last(), sep);
        lemma_no_escape_concat(joined(items.drop_last(), sep), sep);
        lemma_no_escape_concat(joined(items.drop_last(), sep) + sep, items.last());
    }
}

/// A size as `human_size` writes it holds no escape character.
pub proof fn lemma_human_size_no_escape(bytes: int)
    ensures
        no_escape(human_size_text(bytes)),
{
    reveal_strlit("B  ");
    reveal_strlit("KiB");
    reveal_strlit("MiB");
    reveal_strlit("GiB");
    reveal_strlit("TiB");
    reveal_strlit("PiB");
    let u = crate::size::size_unit(bytes);
    assert(no_escape(crate::size::unit_name(u)));
    if u == 0 {
        lemma_decimal_no_escape(bytes as nat);
        let d = decimal(bytes as nat);
        lemma_no_escape_concat(repeat_char(' ', 6 - d.len()), d);
        lemma_no_escape_concat(pad_left(d, 6), seq![' ']);
        lemma_no_escape_concat(pad_left(d, 6) + seq![' '], crate::size::unit_name(0));
    } else {
        let t = crate::size::size_tenths(bytes);
        let d = decimal((t / 10) as nat) + seq!['.', digit_char(t % 10)];
        lemma_decimal_no_escape((t / 10) as nat);
        lemma_no_escape_concat(decimal((t / 10) as nat), seq!['.', digit_char(t % 10)]);
        lemma_no_escape_concat(repeat_char(' ', 6 - d.len()), d);
        lemma_no_escape_concat(pad_left(d, 6), seq![' ']);
        lemma_no_escape_concat(pad_left(d, 6) + seq![' '], crate::size::unit_name(u));
    }
}

proof fn lemma_node_line_plain_no_escape(v: NodeView, name: Seq<char>, prefix: Seq<char>, is_last: bool, finished: bool)
    requires
        no_escape(name),
        no_escape(prefix),
        v.mtime matches Some(m) ==> no_escape(m),
    ensures
        no_escape(node_line(v, name, prefix, is_last, finished, true)),
{
    reveal_strlit("  ");
    reveal_strlit("└── ");
    reveal_strlit("├── ");
    reveal_strlit("/");
    reveal_strlit(" (");
    reveal_strlit(" ");
    reveal_strlit(")");
    let st = size_text(v, true);
    if v.in_top {
        lemma_human_size_no_escape(v.size as int);
    }
    assert(no_escape(st));
    let nt = name_text(v, name, true);
    lemma_no_escape_concat(name, "/"@);
    assert(no_escape(nt));
    let items = meta_items(v);
    assert forall|i: int| 0 <= i < items.len() implies no_escape(#[trigger] items[i]) by {
        if v.is_dir && v.child_count is Some {
            lemma_decimal_no_escape(v.child_count->0 as nat);
        }
    }
    lemma_joined_no_escape(items, " "@);
    let j = joined(items, " "@);
    lemma_no_escape_concat(" ("@, j);
    lemma_no_escape_concat(" ("@ + j, ")"@);
    let mt = meta_text(v, finished, true);
    assert(no_escape(mt));
    let c = connector(is_last);
    assert(no_escape(c));
    lemma_no_escape_concat(st, "  "@);
    lemma_no_escape_concat(st + "  "@, prefix);
    lemma_no_escape_concat(st + "  "@ + prefix, c);
    lemma_no_escape_concat(st + "  "@ + prefix + c, nt);
    lemma_no_escape_concat(st + "  "@ + prefix + c + nt, mt);
}

/// Plain lines hold no escape character (no ANSI colour) when the names,
/// the prefix and the dates hold none.
pub proof fn lemma_plain_lines_no_escape(
    v: NodeView,
    name: Seq<char>,
    prefix: Seq<char>,
    is_last: bool,
    finished: bool,
)
    requires
        no_escape(name),
        no_escape(prefix),
        tree_text_clean(v),
    ensures
        forall|i: int|
            0 <= i < render_lines(v, name, prefix, is_last, finished, true).len() ==> no_escape(
                #[trigger] render_lines(v, name, prefix, is_last, finished, true)[i],
            ),
    decreases v, v.children.len() + 1,
{
    if !v.in_top && v.children.len() == 1 {
        reveal_strlit("/");
        let c = v.children[0];
        lemma_clean_child(v, 0);
        lemma_no_escape_concat(name, "/"@);
        lemma_no_escape_concat(name + "/"@, c.0);
        lemma_plain_lines_no_escape(c.1, name + "/"@ + c.0, prefix, is_last, finished);
        assert(render_lines(v, name, prefix, is_last, finished, true) == render_lines(c.1, name + "/"@ + c.0, prefix, is_last, finished, true));
    } else {
        lemma_node_line_plain_no_escape(v, name, prefix, is_last, finished);
        reveal_strlit("    ");
        reveal_strlit("│   ");
        lemma_no_escape_concat(prefix, branch(is_last));
        lemma_plain_children_no_escape(v, prefix + branch(is_last), finished, 0);
        let first = seq![node_line(v, name, prefix, is_last, finished, true)];
        let rest = children_lines(v, prefix + branch(is_last), finished, true, 0);
        assert forall|i: int| 0 <= i < (first + rest).len() implies no_escape(#[trigger] (first + rest)[i]) by {
            if i > 0 {
                assert((first + rest)[i] == rest[i - 1]);
            }
        }
        assert(render_lines(v, name, prefix, is_last, finished, true) == first + rest);
    }
}

/// The plain lines of the children of `v`, from position `j` of the
/// display order on, hold no escape character when the names, the prefix
/// and the dates hold none.
pub proof fn lemma_plain_children_no_escape(v: NodeView, prefix: Seq<char>, finished: bool, j: int)
    requires
        no_escape(prefix),
        tree_text_clean(v),
    ensures
        forall|i: int|
            0 <= i < children_lines(v, prefix, finished, true, j).len() ==> no_escape(
                #[trigger] children_lines(v, prefix, finished, true, j)[i],
            ),
    decreases v, v.children.len() - j,
{
    if 0 <= j < v.children.len() {
        let c = display_order(v)[j] as int;
        let here = if 0 <= c < v.children.len() {
            render_lines(v.children[c].1, v.children[c].0, prefix, j == v.children.len() - 1, finished, true)
        } else {
            Seq::empty()
        };
        if 0 <= c < v.children.len() {
            lemma_clean_child(v, c);
            lemma_plain_lines_no_escape(v.children[c].1, v.children[c].0, prefix, j == v.children.len() - 1, finished);
        }
        lemma_plain_children_no_escape(v, prefix, finished, j + 1);
        let rest = children_lines(v, prefix, finished, true, j + 1);
        assert forall|i: int| 0 <= i < (here + rest).len() implies no_escape(#[trigger] (here + rest)[i]) by {
            if i >= here.len() {
                assert((here + rest)[i] == rest[i - here.len()]);
            }
        }
    }
}

proof fn lemma_meta_plain_no_escape(v: NodeView, finished: bool)
    requires
        v.mtime matches Some(m) ==> no_escape(m),
    ensures
        no_escape(meta_text(v, finished, true)),
{
    reveal_strlit(" (");
    reveal_strlit(" ");
    reveal_strlit(")");
    let items = meta_items(v);
    assert forall|i: int| 0 <= i < items.len() implies no_escape(#[trigger] items[i]) by {
        if v.is_dir && v.child_count is Some {
            lemma_decimal_no_escape(v.child_count->0 as nat);
        }
    }
    lemma_joined_no_escape(items, " "@);
    let j = joined(items, " "@);
    lemma_no_escape_concat(" ("@, j);
    lemma_no_escape_concat(" ("@ + j, ")"@);
}

proof fn lemma_clean_visible(x: Seq<char>)
    requires
        no_escape(x),
    ensures
        visible_chars(x, false) == x,
        !escape_state_after(x, false),
{
    lemma_plain_text_visible(x);
}

/// Once the scan is finished, a plain line is what its coloured line
/// shows on a terminal, with a `/` added after the name of a selected
/// directory.
pub proof fn lemma_plain_line_is_shown_text(v: NodeView, name: Seq<char>, prefix: Seq<char>, is_last: bool)
    requires
        no_escape(name),
        no_escape(prefix),
        v.mtime matches Some(m) ==> no_escape(m),
    ensures
        ({
            let shown = size_text(v, true) + "  "@ + prefix + connector(is_last) + name;
            &&& visible_chars(node_line(v, name, prefix, is_last, true, false), false) == shown + meta_text(v, true, true)
            &&& node_line(v, name, prefix, is_last, true, true) == shown + (if v.in_top && v.is_dir {
                "/"@
            } else {
                Seq::empty()
            }) + meta_text(v, true, true)
        }),
{
    reveal_strlit("  ");
    reveal_strlit("└── ");
    reveal_strlit("├── ");
    reveal_strlit("/");
    let sc = size_text(v, false);
    let sp = size_text(v, true);
    if v.in_top {
        lemma_human_size_no_escape(v.size as int);
        lemma_ansi_visible(human_size_text(v.size as int), size_color_of(v.size as int), true);
    } else {
        lemma_clean_visible(sp);
    }
    assert(visible_chars(sc, false) == sp && !escape_state_after(sc, false));
    lemma_clean_visible("  "@);
    lemma_clean_visible(prefix);
    let c = connector(is_last);
    lemma_clean_visible(c);
    let nc = name_text(v, name, false);
    if v.in_top && v.is_dir {
        lemma_ansi_visible(name, Color::Blue, true);
    } else {
        lemma_clean_visible(name);
    }
    let mp = meta_text(v, true, true);
    let mc = meta_text(v, true, false);
    lemma_meta_plain_no_escape(v, true);
    if v.in_top && meta_items(v).len() > 0 {
        lemma_ansi_visible(mp, Color::DarkGrey, false);
    } else {
        assert(mc =~= Seq::<char>::empty());
        lemma_clean_visible(mc);
    }
    lemma_visible_join(sc, "  "@);
    lemma_visible_join(sc + "  "@, prefix);
    lemma_visible_join(sc + "  "@ + prefix, c);
    lemma_visible_join(sc + "  "@ + prefix + c, nc);
    lemma_visible_join(sc + "  "@ + prefix + c + nc, mc);
    assert(node_line(v, name, prefix, is_last, true, false) == sc + "  "@ + prefix + c + nc + mc);
    if v.in_top && v.is_dir {
        assert(node_line(v, name, prefix, is_last, true, true) =~= sp + "  "@ + prefix + c + name + "/"@ + mp);
    } else {
        assert(node_line(v, name, prefix, is_last, true, true) =~= sp + "  "@ + prefix + c + name + Seq::<char>::empty() + mp);
    }
}

/// The number of nodes strictly below `v` whose parent is selected or has
/// other than one child: an unselected node with a single child passes
/// the count of that child on, and any other node counts each child, and
/// what lies below it.
pub open spec fn lines_below(v: NodeView) -> nat
    decreases v, v.children.len() + 1,
{
    if !v.in_top && v.children.len() == 1 {
        lines_below(v.children[0].1)
    } else {
        children_lines_below(v, 0)
    }
}

/// The count of `lines_below` for the children of `v` from position `j`
/// of the display order on.
pub open spec fn children_lines_below(v: NodeView, j: int) -> nat
    decreases v, v.children.len() - j,
{
    if 0 <= j < v.children.len() {
        let c = display_order(v)[j] as int;
        (if 0 <= c < v.children.len() {
            1 + lines_below(v.children[c].1)
        } else {
            0
        }) + children_lines_below(v, j + 1)
    } else {
        0
    }
}

/// A node draws one line for itself (or for the end of its folded chain)
/// and one for each node below it whose parent is selected or has other
/// than one child.
pub proof fn lemma_line_count(
    v: NodeView,
    name: Seq<char>,
    prefix: Seq<char>,
    is_last: bool,
    finished: bool,
    plain: bool,
)
    ensures
        render_lines(v, name, prefix, is_last, finished, plain).len() == 1 + lines_below(v),
    decreases v, v.children.len() + 1,
{
    if !v.in_top && v.children.len() == 1 {
        lemma_line_count(v.children[0].1, name + "/"@ + v.children[0].0, prefix, is_last, finished, plain);
    } else {
        lemma_children_line_count(v, prefix + branch(is_last), finished, plain, 0);
    }
}

proof fn lemma_children_line_count(v: NodeView, prefix: Seq<char>, finished: bool, plain: bool, j: int)
    ensures
        children_lines(v, prefix, finished, plain, j).len() == children_lines_below(v, j),
    decreases v, v.children.len() - j,
{
    if 0 <= j < v.children.len() {
        let c = display_order(v)[j] as int;
        if 0 <= c < v.children.len() {
            lemma_line_count(v.children[c].1, v.children[c].0, prefix, j == v.children.len() - 1, finished, plain);
        }
        lemma_children_line_count(v, prefix, finished, plain, j + 1);
    }
}

/// What each line of `render_lines(v, name, prefix, is_last, ..)` draws,
/// in order: the node, the name it is shown under, its prefix and whether
/// it is the last of its siblings. The same in both styles.
pub open spec fn line_sources(v: NodeView, name: Seq<char>, prefix: Seq<char>, is_last: bool) -> Seq<
    (NodeView, Seq<char>, Seq<char>, bool),
>
    decreases v, v.children.len() + 1,
{
    if !v.in_top && v.children.len() == 1 {
        line_sources(v.children[0].1, name + "/"@ + v.children[0].0, prefix, is_last)
    } else {
        seq![(v, name, prefix, is_last)] + children_sources(v, prefix + branch(is_last), 0)
    }
}

/// The sources of the lines of the children of `v`, from position `j` of
/// the display order on.
pub open spec fn children_sources(v: NodeView, prefix: Seq<char>, j: int) -> Seq<
    (NodeView, Seq<char>, Seq<char>, bool),
>
    decreases v, v.children.len() - j,
{
    if 0 <= j < v.children.len() {
        let c = display_order(v)[j] as int;
        (if 0 <= c < v.children.len() {
            line_sources(v.children[c].1, v.children[c].0, prefix, j == v.children.len() - 1)
        } else {
            Seq::empty()
        }) + children_sources(v, prefix, j + 1)
    } else {
        Seq::empty()
    }
}

/// The line drawn for a source.
pub open spec fn source_line(t: (NodeView, Seq<char>, Seq<char>, bool), finished: bool, plain: bool) -> Seq<char> {
    node_line(t.0, t.1, t.2, t.3, finished, plain)
}

/// Whether a source's name, prefix and date hold no escape character.
pub open spec fn source_clean(t: (NodeView, Seq<char>, Seq<char>, bool)) -> bool {
    &&& no_escape(t.1)
    &&& no_escape(t.2)
    &&& (t.0.mtime matches Some(m) ==> no_escape(m))
}

proof fn lemma_lines_from_sources(
    v: NodeView,
    name: Seq<char>,
    prefix: Seq<char>,
    is_last: bool,
    finished: bool,
    plain: bool,
)
    requires
        no_escape(name),
        no_escape(prefix),
        tree_text_clean(v),
    ensures
        render_lines(v, name, prefix, is_last, finished, plain).len() == line_sources(v, name, prefix, is_last).len(),
        forall|i: int|
            0 <= i < line_sources(v, name, prefix, is_last).len() ==> render_lines(v, name, prefix, is_last, finished, plain)[i]
                == source_line(#[trigger] line_sources(v, name, prefix, is_last)[i], finished, plain)
                && source_clean(line_sources(v, name, prefix, is_last)[i]),
    decreases v, v.children.len() + 1,
{
    reveal_strlit("/");
    if !v.in_top && v.children.len() == 1 {
        lemma_clean_child(v, 0);
        lemma_no_escape_concat(name, "/"@);
        lemma_no_escape_concat(name + "/"@, v.children[0].0);
        lemma_lines_from_sources(v.children[0].1, name + "/"@ + v.children[0].0, prefix, is_last, finished, plain);
    } else {
        reveal_strlit("    ");
        reveal_strlit("│   ");
        lemma_no_escape_concat(prefix, branch(is_last));
        lemma_clean_date(v);
        lemma_children_from_sources(v, prefix + branch(is_last), finished, plain, 0);
        let a = seq![node_line(v, name, prefix, is_last, finished, plain)];
        let b = children_lines(v, prefix + branch(is_last), finished, plain, 0);
        let sa = seq![(v, name, prefix, is_last)];
        let sb = children_sources(v, prefix + branch(is_last), 0);
        assert forall|i: int| 0 <= i < (sa + sb).len() implies (a + b)[i] == source_line(#[trigger] (sa + sb)[i], finished, plain)
            && source_clean((sa + sb)[i]) by {
            if i > 0 {
                assert((a + b)[i] == b[i - 1]);
                assert((sa + sb)[i] == sb[i - 1]);
            }
        }
    }
}

proof fn lemma_children_from_sources(v: NodeView, prefix: Seq<char>, finished: bool, plain: bool, j: int)
    requires
        no_escape(prefix),
        tree_text_clean(v),
    ensures
        children_lines(v, prefix, finished, plain, j).len() == children_sources(v, prefix, j).len(),
        forall|i: int|
            0 <= i < children_sources(v, prefix, j).len() ==> children_lines(v, prefix, finished, plain, j)[i]
                == source_line(#[trigger] children_sources(v, prefix, j)[i], finished, plain)
                && source_clean(children_sources(v, prefix, j)[i]),
    decreases v, v.children.len() - j,
{
    if 0 <= j < v.children.len() {
        let c = display_order(v)[j] as int;
        let last = j == v.children.len() - 1;
        lemma_children_from_sources(v, prefix, finished, plain, j + 1);
        let b = children_lines(v, prefix, finished, plain, j + 1);
        let sb = children_sources(v, prefix, j + 1);
        if 0 <= c < v.children.len() {
            lemma_clean_child(v, c);
            lemma_lines_from_sources(v.children[c].1, v.children[c].0, prefix, last, finished, plain);
            let a = render_lines(v.children[c].1, v.children[c].0, prefix, last, finished, plain);
            let sa = line_sources(v.children[c].1, v.children[c].0, prefix, last);
            assert forall|i: int| 0 <= i < (sa + sb).len() implies (a + b)[i] == source_line(#[trigger] (sa + sb)[i], finished, plain)
                && source_clean((sa + sb)[i]) by {
                if i >= sa.len() {
                    assert((a + b)[i] == b[i - sa.len()]);
                    assert((sa + sb)[i] == sb[i - sa.len()]);
                } else {
                    assert((a + b)[i] == a[i]);
                    assert((sa + sb)[i] == sa[i]);
                }
            }
            assert(children_lines(v, prefix, finished, plain, j) == a + b);
            assert(children_sources(v, prefix, j) == sa + sb);
        } else {
            assert(children_lines(v, prefix, finished, plain, j) =~= b);
            assert(children_sources(v, prefix, j) =~= sb);
        }
    }
}

/// The plain output has as many lines as the coloured output of a finished
/// scan, and each plain line is what the coloured line shows on a terminal
/// (its escape sequences removed) with a `/` inserted right after the name
/// of a selected directory; when the names, the prefix and the dates hold
/// no escape character.
pub proof fn lemma_plain_is_coloured_shown(v: NodeView, name: Seq<char>, prefix: Seq<char>, is_last: bool)
    requires
        no_escape(name),
        no_escape(prefix),
        tree_text_clean(v),
    ensures
        render_lines(v, name, prefix, is_last, true, true).len() == render_lines(v, name, prefix, is_last, true, false).len(),
        forall|i: int|
            0 <= i < render_lines(v, name, prefix, is_last, true, true).len() ==> ({
                let t = #[trigger] line_sources(v, name, prefix, is_last)[i];
                let shown = visible_chars(render_lines(v, name, prefix, is_last, true, false)[i], false);
                let k = (size_text(t.0, true) + "  "@ + t.2 + connector(t.3) + t.1).len() as int;
                render_lines(v, name, prefix, is_last, true, true)[i] == shown.take(k) + (if t.0.in_top && t.0.is_dir {
                    "/"@
                } else {
                    Seq::empty()
                }) + shown.skip(k)
            }),
{
    lemma_lines_from_sources(v, name, prefix, is_last, true, true);
    lemma_lines_from_sources(v, name, prefix, is_last, true, false);
    assert forall|i: int| 0 <= i < render_lines(v, name, prefix, is_last, true, true).len() implies ({
        let t = #[trigger] line_sources(v, name, prefix, is_last)[i];
        let shown = visible_chars(render_lines(v, name, prefix, is_last, true, false)[i], false);
        let k = (size_text(t.0, true) + "  "@ + t.2 + connector(t.3) + t.1).len() as int;
        render_lines(v, name, prefix, is_last, true, true)[i] == shown.take(k) + (if t.0.in_top && t.0.is_dir {
            "/"@
        } else {
            Seq::empty()
        }) + shown.skip(k)
    }) by {
        let t = line_sources(v, name, prefix, is_last)[i];
        lemma_plain_line_is_shown_text(t.0, t.1, t.2, t.3);
        let head = size_text(t.0, true) + "  "@ + t.2 + connector(t.3) + t.1;
        let shown = head + meta_text(t.0, true, true);
        assert(shown.take(head.len() as int) =~= head);
        assert(shown.skip(head.len() as int) =~= meta_text(t.0, true, true));
    }
}

/// A selected node with a date shows it last in its details, file or
/// directory: the plain details end with the date and `)`, and the
/// coloured ones (once the scan is finished) are the same text in dark
/// grey. A selected directory with a child count shows it first.
pub proof fn lemma_details_show_date(v: NodeView)
    requires
        v.in_top,
    ensures
        v.mtime matches Some(m) ==> ({
            let t = meta_text(v, true, true);
            &&& t.len() >= m.len() + 1
            &&& t.skip(t.len() - m.len() - 1) == m + ")"@
            &&& meta_text(v, true, false) == ansi_text(t, Color::DarkGrey, false)
        }),
        v.is_dir && v.child_count is Some ==> ({
            let t = meta_text(v, true, true);
            let k = decimal(v.child_count->0 as nat);
            &&& t.len() >= k.len() + 2
            &&& t.take(k.len() + 2int) == " ("@ + k
        }),
{
    reveal_strlit(" (");
    reveal_strlit(")");
    reveal_strlit(" ");
    let items = meta_items(v);
    if items.len() > 0 {
        lemma_joined_ends(items, " "@);
        let j = joined(items, " "@);
        let t = " ("@ + j + ")"@;
        assert(meta_text(v, true, true) == t);
        if v.mtime is Some {
            let m = v.mtime->0;
            assert(items.last() == m);
            assert(t.skip(t.len() - m.len() - 1) =~= m + ")"@) by {
                assert(j.skip(j.len() - m.len()) == m);
                assert forall|i: int| 0 <= i < m.len() + 1 implies #[trigger] t.skip(t.len() - m.len() - 1)[i] == (m + ")"@)[i] by {
                    if i < m.len() {
                        assert(t[t.len() - m.len() - 1 + i] == j[j.len() - m.len() + i]);
                        assert(j.skip(j.len() - m.len())[i] == j[j.len() - m.len() + i]);
                    }
                }
            }
        }
        if v.is_dir && v.child_count is Some {
            let k = decimal(v.child_count->0 as nat);
            assert(items[0] == k);
            assert(t.take(k.len() + 2int) =~= " ("@ + k) by {
                assert forall|i: int| 0 <= i < k.len() + 2 implies #[trigger] t.take(k.len() + 2int)[i] == (" ("@ + k)[i] by {
                    if i >= 2 {
                        assert(t[i] == j[i - 2]);
                        assert(j.take(k.len() as int)[i - 2] == j[i - 2]);
                    }
                }
            }
        }
    } else {
        assert(v.mtime is None);
    }
}

} // verus!
