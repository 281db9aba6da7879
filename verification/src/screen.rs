//! The report: the largest entries of a scan, as the live screen shows them
//! and as the plain text sent to Slack.
use vstd::prelude::*;
use crate::entry::{Entry, opt_view};
use crate::tree::{
    TreeNode, NodeView, names_view, inserted, insert_path, empty_node, with_sort_keys, compute_sort_keys, in_top_at,
    tree_sorted, lemma_inserted_sorted, lemma_inserted_in_top, lemma_sort_keys_in_top,
};
use crate::paths::{relative_to, same_path, relative_components};
use crate::select::{top_indices, top_selection, lemma_top_selection_is_top};
use crate::render::{
    children_lines, lines_view, joined, render_children, join_items, no_escape, tree_text_clean,
    lemma_no_escape_concat, lemma_decimal_no_escape, lemma_human_size_no_escape, lemma_joined_no_escape,
    lemma_plain_children_no_escape, lemma_clean_child, lemma_clean_node, lemma_clean_date, lemma_clean_same_children, lemma_joined_ends,
};
use crate::size::{human_size, human_size_text};
use crate::style::{ansi, ansi_text, size_color, size_color_of, Color};
use crate::text::{decimal, repeat_char, push_decimal, push_repeat};

verus! {

/// The path of each snapshot entry.
pub open spec fn snapshot_paths(entries: Seq<(Vec<String>, Entry)>) -> Seq<Seq<Seq<char>>> {
    Seq::new(entries.len(), |i: int| names_view(entries[i].0@))
}

/// The indices, below `n` and in order, of the entries whose path is not
/// `root`.
pub open spec fn other_indices(paths: Seq<Seq<Seq<char>>>, root: Seq<Seq<char>>, n: int) -> Seq<usize>
    decreases n,
{
    if n <= 0 {
        Seq::empty()
    } else {
        let s = other_indices(paths, root, n - 1);
        if paths[n - 1] != root {
            s.push((n - 1) as usize)
        } else {
            s
        }
    }
}

/// `other_indices` lists, in increasing order, exactly the indices below
/// `n` whose path is not `root`.
pub proof fn lemma_other_indices(paths: Seq<Seq<Seq<char>>>, root: Seq<Seq<char>>, n: int)
    requires
        0 <= n <= paths.len(),
        paths.len() < usize::MAX,
    ensures
        other_indices(paths, root, n).len() <= n,
        forall|t: int|
            0 <= t < other_indices(paths, root, n).len() ==> #[trigger] other_indices(paths, root, n)[t] < n
                && paths[other_indices(paths, root, n)[t] as int] != root,
        forall|a: int, b: int|
            0 <= a < b < other_indices(paths, root, n).len() ==> #[trigger] other_indices(paths, root, n)[a]
                < #[trigger] other_indices(paths, root, n)[b],
        forall|i: int| 0 <= i < n && #[trigger] paths[i] != root ==> other_indices(paths, root, n).contains(i as usize),
    decreases n,
{
    if n > 0 {
        lemma_other_indices(paths, root, n - 1);
        let s = other_indices(paths, root, n - 1);
        assert forall|i: int| 0 <= i < n && #[trigger] paths[i] != root implies other_indices(paths, root, n).contains(i as usize) by {
            if i < n - 1 {
                let t = choose|t: int| 0 <= t < s.len() && s[t] == i as usize;
                if paths[n - 1] != root {
                    assert(s.push((n - 1) as usize)[t] == i as usize);
                }
            } else {
                assert(s.push((n - 1) as usize)[s.len() as int] == i as usize);
            }
        }
    }
}

/// The size of the first entry whose path is `root`, or 0.
pub open spec fn root_size_from(entries: Seq<(Vec<String>, Entry)>, root: Seq<Seq<char>>, i: int) -> u64
    decreases entries.len() - i,
{
    if 0 <= i < entries.len() {
        if names_view(entries[i].0@) == root {
            entries[i].1.size
        } else {
            root_size_from(entries, root, i + 1)
        }
    } else {
        0
    }
}

/// The sizes of the entries at `idx`.
pub open spec fn sizes_at(entries: Seq<(Vec<String>, Entry)>, idx: Seq<usize>) -> Seq<u64> {
    Seq::new(idx.len(), |t: int| entries[idx[t] as int].1.size)
}

/// The entries shown: the `count` largest entries other than `root`,
/// largest first (equal sizes in snapshot order), as snapshot indices.
pub open spec fn shown_entries(entries: Seq<(Vec<String>, Entry)>, root: Seq<Seq<char>>, count: int) -> Seq<usize> {
    let others = other_indices(snapshot_paths(entries), root, entries.len() as int);
    let sel = top_selection(sizes_at(entries, others), count);
    Seq::new(sel.len(), |t: int| others[sel[t] as int])
}

/// The number of snapshot entries whose path is not `root` (see
/// `lemma_other_indices`).
pub open spec fn non_root_count(entries: Seq<(Vec<String>, Entry)>, root: Seq<Seq<char>>) -> int {
    other_indices(snapshot_paths(entries), root, entries.len() as int).len() as int
}

/// The entries shown are the `count` largest other than `root`: each is a
/// snapshot entry not at `root`, none twice, larger first; every entry not
/// at `root` that is left out is no larger than any shown one; and when
/// fewer than `count` are shown, or `count` is at least the number of
/// entries other than `root`, every entry not at `root` is shown.
pub proof fn lemma_shown_entries_largest(entries: Seq<(Vec<String>, Entry)>, root: Seq<Seq<char>>, count: int)
    requires
        entries.len() < usize::MAX,
        count >= 0,
    ensures
        shown_entries(entries, root, count).len() <= count,
        forall|t: int|
            0 <= t < shown_entries(entries, root, count).len() ==> #[trigger] shown_entries(entries, root, count)[t]
                < entries.len() && names_view(entries[shown_entries(entries, root, count)[t] as int].0@) != root,
        forall|a: int, b: int|
            0 <= a < b < shown_entries(entries, root, count).len() ==> #[trigger] shown_entries(entries, root, count)[a]
                != #[trigger] shown_entries(entries, root, count)[b]
                && entries[shown_entries(entries, root, count)[a] as int].1.size
                >= entries[shown_entries(entries, root, count)[b] as int].1.size,
        forall|i: int, t: int|
            0 <= i < entries.len() && names_view(entries[i].0@) != root && !shown_entries(entries, root, count).contains(
                i as usize,
            ) && 0 <= t < shown_entries(entries, root, count).len() ==> #[trigger] entries[i].1.size
                <= entries[#[trigger] shown_entries(entries, root, count)[t] as int].1.size,
        shown_entries(entries, root, count).len() < count || non_root_count(entries, root) <= count ==> forall|i: int|
            0 <= i < entries.len() && names_view(#[trigger] entries[i].0@) != root ==> shown_entries(
                entries,
                root,
                count,
            ).contains(i as usize),
{
    let paths = snapshot_paths(entries);
    let n = entries.len() as int;
    lemma_other_indices(paths, root, n);
    let others = other_indices(paths, root, n);
    let keys = sizes_at(entries, others);
    lemma_top_selection_is_top(keys, count);
    let sel = top_selection(keys, count);
    let shown = shown_entries(entries, root, count);
    assert forall|t: int| 0 <= t < shown.len() implies #[trigger] shown[t] < entries.len()
        && names_view(entries[shown[t] as int].0@) != root by {
        assert(sel[t] < others.len());
        assert(paths[others[sel[t] as int] as int] == names_view(entries[shown[t] as int].0@));
    }
    assert forall|a: int, b: int| 0 <= a < b < shown.len() implies #[trigger] shown[a] != #[trigger] shown[b]
        && entries[shown[a] as int].1.size >= entries[shown[b] as int].1.size by {
        let x = sel[a] as int;
        let y = sel[b] as int;
        assert(keys[x] >= keys[y] && x != y);
        if x < y {
            assert(others[x] < others[y]);
        } else {
            assert(others[y] < others[x]);
        }
    }
    assert forall|i: int, t: int|
        0 <= i < entries.len() && names_view(entries[i].0@) != root && !shown.contains(i as usize) && 0 <= t
            < shown.len() implies #[trigger] entries[i].1.size <= entries[#[trigger] shown[t] as int].1.size by {
        assert(paths[i] == names_view(entries[i].0@));
        assert(others.contains(i as usize));
        let q = choose|q: int| 0 <= q < others.len() && others[q] == i as usize;
        if sel.contains(q as usize) {
            let w = choose|w: int| 0 <= w < sel.len() && sel[w] == q as usize;
            assert(shown[w] == i as usize);
        }
        assert(keys[q] <= keys[sel[t] as int]);
    }
    if shown.len() < count || non_root_count(entries, root) <= count {
        assert forall|i: int| 0 <= i < entries.len() && names_view(#[trigger] entries[i].0@) != root implies shown.contains(
            i as usize,
        ) by {
            assert(paths[i] == names_view(entries[i].0@));
            assert(others.contains(i as usize));
            let q = choose|q: int| 0 <= q < others.len() && others[q] == i as usize;
            assert(sel.contains(q as usize));
            let w = choose|w: int| 0 <= w < sel.len() && sel[w] == q as usize;
            assert(shown[w] == i as usize);
        }
    }
}

/// The tree built by recording the first `t` entries of `order` at their
/// paths relative to `root` (entries at `root` itself are skipped).
pub open spec fn tree_of(entries: Seq<(Vec<String>, Entry)>, root: Seq<Seq<char>>, order: Seq<usize>, t: int) -> NodeView
    decreases t,
{
    if t <= 0 {
        empty_node()
    } else {
        let prev = tree_of(entries, root, order, t - 1);
        let i = order[t - 1] as int;
        let rel = relative_to(names_view(entries[i].0@), root);
        if rel.len() > 0 {
            inserted(prev, rel, entries[i].1)
        } else {
            prev
        }
    }
}

/// The display tree of a snapshot: the shown entries, with sort keys.
pub open spec fn report_tree(entries: Seq<(Vec<String>, Entry)>, root: Seq<Seq<char>>, count: int) -> NodeView {
    let order = shown_entries(entries, root, count);
    with_sort_keys(tree_of(entries, root, order, order.len() as int))
}

/// The lines of the live screen: the root in bold blue, the tree of the
/// `count` largest entries, and a status line with the number of scanned
/// entries and the root's total size.
pub open spec fn screen_text(
    entries: Seq<(Vec<String>, Entry)>,
    root: Seq<Seq<char>>,
    root_display: Seq<char>,
    count: int,
    scanned: u64,
    finished: bool,
) -> Seq<Seq<char>> {
    let rs = root_size_from(entries, root, 0) as int;
    let header = repeat_char(' ', 10) + "  "@ + ansi_text(root_display, Color::Blue, true);
    let status = ansi_text(
        if finished { "done "@ } else { "scan "@ },
        if finished { Color::Green } else { Color::Yellow },
        true,
    ) + " "@ + decimal(scanned as nat) + " entries  total: "@ + ansi_text(human_size_text(rs), size_color_of(rs), true);
    seq![header] + children_lines(report_tree(entries, root, count), Seq::empty(), finished, false, 0) + seq![status]
}

/// The plain report: the root, the tree of the `count` largest entries
/// without colours, and a summary line, one per line.
pub open spec fn slack_report_text(
    entries: Seq<(Vec<String>, Entry)>,
    root: Seq<Seq<char>>,
    root_display: Seq<char>,
    count: int,
    scanned: u64,
) -> Seq<char> {
    let rs = root_size_from(entries, root, 0) as int;
    let lines = seq!["📂 "@ + root_display] + children_lines(report_tree(entries, root, count), Seq::empty(), true, true, 0)
        + seq!["✅ "@ + decimal(scanned as nat) + " entries scanned  total: "@ + human_size_text(rs)];
    joined(lines, "\n"@)
}

/// The snapshot indices of the `k` largest entries other than `root`
/// (see `shown_entries`), and the size of the entry at `root` (0 if none).
pub fn select_entries(entries: &Vec<(Vec<String>, Entry)>, root: &Vec<String>, k: usize) -> (r: (Vec<usize>, u64))
    ensures
        r.0@ == shown_entries(entries@, names_view(root@), k as int),
        r.1 == root_size_from(entries@, names_view(root@), 0),
        forall|t: int| 0 <= t < r.0@.len() ==> #[trigger] r.0@[t] < entries@.len(),
{
    let ghost rootv = names_view(root@);
    let ghost paths = snapshot_paths(entries@);
    let n = entries.len();
    let mut others: Vec<usize> = Vec::new();
    let mut sizes: Vec<u64> = Vec::new();
    let mut root_size: u64 = 0;
    let mut found = false;
    let mut i: usize = 0;
    while i < n
        invariant
            n == entries@.len(),
            i <= n,
            paths == snapshot_paths(entries@),
            rootv == names_view(root@),
            others@ == other_indices(paths, rootv, i as int),
            forall|q: int| 0 <= q < others@.len() ==> #[trigger] others@[q] < i,
            sizes@ == sizes_at(entries@, others@),
            found ==> root_size == root_size_from(entries@, rootv, 0),
            !found ==> root_size == 0,
            !found ==> root_size_from(entries@, rootv, 0) == root_size_from(entries@, rootv, i as int),
        decreases n - i,
    {
        let is_root = same_path(&entries[i].0, root);
        assert(paths[i as int] == names_view(entries@[i as int].0@));
        let ghost prev_others = others@;
        assert(root_size_from(entries@, rootv, i as int) == if is_root {
            entries@[i as int].1.size
        } else {
            root_size_from(entries@, rootv, i + 1)
        });
        if is_root {
            if !found {
                root_size = entries[i].1.size;
                found = true;
            }
            assert(other_indices(paths, rootv, i + 1) == prev_others);
        } else {
            others.push(i);
            sizes.push(entries[i].1.size);
            assert(other_indices(paths, rootv, i + 1) == prev_others.push(i));
        }
        assert(sizes@ =~= sizes_at(entries@, others@));
        i += 1;
    }
    let sel = top_indices(&sizes, k);
    let mut shown: Vec<usize> = Vec::new();
    let mut t: usize = 0;
    while t < sel.len()
        invariant
            t <= sel@.len(),
            forall|q: int| 0 <= q < sel@.len() ==> #[trigger] sel@[q] < others@.len(),
            forall|q: int| 0 <= q < others@.len() ==> #[trigger] others@[q] < n,
            n == entries@.len(),
            shown@ == Seq::new(t as nat, |q: int| others@[sel@[q] as int]),
        decreases sel.len() - t,
    {
        shown.push(others[sel[t]]);
        assert(shown@ =~= Seq::new((t + 1) as nat, |q: int| others@[sel@[q] as int]));
        t += 1;
    }
    if !found {
        assert(root_size_from(entries@, rootv, n as int) == 0);
    }
    (shown, root_size)
}

/// Builds the display tree of a snapshot and finds the root's size.
fn build_report_tree(entries: &Vec<(Vec<String>, Entry)>, root: &Vec<String>, count: usize) -> (r: (TreeNode, u64))
    ensures
        r.0.view_node() == report_tree(entries@, names_view(root@), count as int),
        r.1 == root_size_from(entries@, names_view(root@), 0),
{
    let ghost rootv = names_view(root@);
    let (order, root_size) = select_entries(entries, root, count);
    let mut tree = TreeNode::new();
    let mut t: usize = 0;
    while t < order.len()
        invariant
            order@ == shown_entries(entries@, rootv, count as int),
            forall|q: int| 0 <= q < order@.len() ==> #[trigger] order@[q] < entries@.len(),
            rootv == names_view(root@),
            t <= order@.len(),
            tree.view_node() == tree_of(entries@, rootv, order@, t as int),
        decreases order.len() - t,
    {
        let idx = order[t];
        let rel = relative_components(&entries[idx].0, root);
        if rel.len() > 0 {
            insert_path(&mut tree, rel.as_slice(), &entries[idx].1);
            assert(names_view(rel@).len() > 0);
        } else {
            assert(names_view(rel@).len() == 0);
        }
        assert(tree.view_node() == tree_of(entries@, rootv, order@, t + 1));
        t += 1;
    }
    let _ = compute_sort_keys(&mut tree);
    (tree, root_size)
}

/// The lines of the live screen for a snapshot of the scanned entries
/// (each a path as components, with its data), the scanned root (as
/// components, and as shown), the number of entries to show and the number
/// of entries scanned so far.
pub fn screen_lines(
    entries: &Vec<(Vec<String>, Entry)>,
    root: &Vec<String>,
    root_display: &str,
    count: usize,
    scanned: u64,
    finished: bool,
) -> (lines: Vec<String>)
    ensures
        lines_view(lines@) == screen_text(entries@, names_view(root@), root_display@, count as int, scanned, finished),
{
    let (tree, root_size) = build_report_tree(entries, root, count);
    let mut lines: Vec<String> = Vec::new();
    let mut header = String::new();
    push_repeat(&mut header, ' ', 10);
    header.append("  ");
    let rd = ansi(root_display, Color::Blue, true);
    header.append(rd.as_str());
    lines.push(header);
    render_children(&tree, "", finished, false, &mut lines);
    let mut status = if finished {
        ansi("done ", Color::Green, true)
    } else {
        ansi("scan ", Color::Yellow, true)
    };
    status.append(" ");
    push_decimal(&mut status, scanned);
    status.append(" entries  total: ");
    let hs = human_size(root_size);
    let total = ansi(hs.as_str(), size_color(root_size), true);
    status.append(total.as_str());
    let ghost before = lines@;
    lines.push(status);
    proof {
        assert(lines_view(lines@) =~= lines_view(before).push(status@));
        reveal_strlit("");
        assert(""@ =~= Seq::<char>::empty());
        assert(lines_view(lines@) =~= screen_text(entries@, names_view(root@), root_display@, count as int, scanned, finished));
    }
    lines
}

/// The plain-text report of a snapshot, lines separated by newlines: the
/// root, the tree of the `count` largest entries, and the number of
/// entries scanned with the root's total size.
pub fn render_slack_text(
    entries: &Vec<(Vec<String>, Entry)>,
    root: &Vec<String>,
    root_display: &str,
    count: usize,
    scanned: u64,
) -> (text: String)
    ensures
        text@ == slack_report_text(entries@, names_view(root@), root_display@, count as int, scanned),
{
    let (tree, root_size) = build_report_tree(entries, root, count);
    let mut lines: Vec<String> = Vec::new();
    let mut first = String::new();
    first.append("📂 ");
    first.append(root_display);
    lines.push(first);
    render_children(&tree, "", true, true, &mut lines);
    let mut last = String::new();
    last.append("✅ ");
    push_decimal(&mut last, scanned);
    last.append(" entries scanned  total: ");
    let hs = human_size(root_size);
    last.append(hs.as_str());
    let ghost before = lines@;
    lines.push(last);
    proof {
        assert(lines_view(lines@) =~= lines_view(before).push(last@));
        reveal_strlit("");
        assert(""@ =~= Seq::<char>::empty());
    }
    let text = join_items(&lines, "\n");
    proof {
        let rs = root_size_from(entries@, names_view(root@), 0) as int;
        assert(lines_view(lines@) =~= seq!["📂 "@ + root_display@] + children_lines(report_tree(entries@, names_view(root@), count as int), Seq::empty(), true, true, 0)
            + seq!["✅ "@ + decimal(scanned as nat) + " entries scanned  total: "@ + human_size_text(rs)]);
    }
    text
}

proof fn lemma_sort_keys_clean(v: NodeView)
    requires
        tree_text_clean(v),
    ensures
        tree_text_clean(with_sort_keys(v)),
    decreases v,
{
    let w = with_sort_keys(v);
    assert forall|i: int| 0 <= i < w.children.len() implies no_escape(#[trigger] w.children[i].0) && tree_text_clean(
        w.children[i].1,
    ) by {
        lemma_clean_child(v, i);
        lemma_sort_keys_clean(v.children[i].1);
    }
    lemma_clean_node(w);
}

proof fn lemma_inserted_clean(v: NodeView, comps: Seq<Seq<char>>, e: Entry)
    requires
        tree_text_clean(v),
        forall|k: int| 0 <= k < comps.len() ==> no_escape(#[trigger] comps[k]),
        opt_view(e.mtime) matches Some(m) ==> no_escape(m),
    ensures
        tree_text_clean(inserted(v, comps, e)),
    decreases comps.len(),
{
    if comps.len() > 0 {
        let name = comps[0];
        let rest = comps.drop_first();
        assert forall|k: int| 0 <= k < rest.len() implies no_escape(#[trigger] rest[k]) by {
            assert(rest[k] == comps[k + 1]);
        }
        let cs = v.children;
        let p = crate::tree::name_pos(cs, name, 0);
        let r = inserted(v, comps, e);
        crate::tree::lemma_name_pos_bounds(cs, name);
        lemma_clean_date(v);
        assert(no_escape(comps[0]));
        if p < cs.len() && cs[p].0 == name {
            lemma_clean_child(v, p);
            lemma_inserted_clean(cs[p].1, rest, e);
            assert forall|i: int| 0 <= i < r.children.len() implies no_escape(#[trigger] r.children[i].0)
                && tree_text_clean(r.children[i].1) by {
                lemma_clean_child(v, i);
            }
            lemma_clean_node(r);
        } else {
            lemma_clean_node(empty_node());
            lemma_inserted_clean(empty_node(), rest, e);
            assert forall|i: int| 0 <= i < r.children.len() implies no_escape(#[trigger] r.children[i].0)
                && tree_text_clean(r.children[i].1) by {
                if i < p {
                    lemma_clean_child(v, i);
                } else if i > p {
                    lemma_clean_child(v, i - 1);
                }
            }
            if cs.len() > 0 {
                lemma_clean_child(v, 0);
            }
            lemma_clean_node(r);
        }
    } else {
        let r = inserted(v, comps, e);
        assert(r.children == v.children);
        assert(r.mtime == opt_view(e.mtime));
        lemma_clean_same_children(v, r);
    }
}

/// Whether every path component and every date of the snapshot is free
/// of escape characters.
pub open spec fn snapshot_clean(entries: Seq<(Vec<String>, Entry)>) -> bool {
    forall|i: int, k: int|
        0 <= i < entries.len() && 0 <= k < entries[i].0@.len() ==> no_escape(#[trigger] entries[i].0@[k]@)
            && (opt_view(entries[i].1.mtime) matches Some(m) ==> no_escape(m))
}

proof fn lemma_tree_of_clean(entries: Seq<(Vec<String>, Entry)>, root: Seq<Seq<char>>, order: Seq<usize>, t: int)
    requires
        snapshot_clean(entries),
        forall|q: int| 0 <= q < order.len() ==> #[trigger] order[q] < entries.len(),
        t <= order.len(),
    ensures
        tree_text_clean(tree_of(entries, root, order, t)),
    decreases t,
{
    if t <= 0 {
        lemma_clean_node(empty_node());
    } else {
        lemma_tree_of_clean(entries, root, order, t - 1);
        let i = order[t - 1] as int;
        let path = names_view(entries[i].0@);
        let rel = relative_to(path, root);
        if rel.len() > 0 {
            assert forall|k: int| 0 <= k < rel.len() implies no_escape(#[trigger] rel[k]) by {
                if crate::paths::path_starts_with(path, root) {
                    assert(rel[k] == path[k + root.len()]);
                    assert(no_escape(entries[i].0@[k + root.len()]@));
                } else {
                    assert(no_escape(entries[i].0@[k]@));
                }
            }
            if entries[i].0@.len() > 0 {
                assert(no_escape(entries[i].0@[0]@));
            }
            lemma_inserted_clean(tree_of(entries, root, order, t - 1), rel, entries[i].1);
        }
    }
}

/// The text sent to Slack holds no escape character, so no ANSI colour,
/// when the root as shown and the paths and dates of the snapshot hold
/// none.
pub proof fn lemma_slack_text_no_escape(
    entries: Seq<(Vec<String>, Entry)>,
    root: Seq<Seq<char>>,
    root_display: Seq<char>,
    count: int,
    scanned: u64,
)
    requires
        no_escape(root_display),
        snapshot_clean(entries),
        entries.len() < usize::MAX,
        count >= 0,
    ensures
        no_escape(slack_report_text(entries, root, root_display, count, scanned)),
{
    reveal_strlit("📂 ");
    reveal_strlit("✅ ");
    reveal_strlit(" entries scanned  total: ");
    reveal_strlit("\n");
    lemma_shown_entries_largest(entries, root, count);
    let order = shown_entries(entries, root, count);
    lemma_tree_of_clean(entries, root, order, order.len() as int);
    lemma_sort_keys_clean(tree_of(entries, root, order, order.len() as int));
    let tree = report_tree(entries, root, count);
    assert(no_escape(Seq::<char>::empty()));
    lemma_plain_children_no_escape(tree, Seq::empty(), true, 0);
    let rs = root_size_from(entries, root, 0) as int;
    let first = "📂 "@ + root_display;
    lemma_no_escape_concat("📂 "@, root_display);
    lemma_decimal_no_escape(scanned as nat);
    lemma_human_size_no_escape(rs);
    let last = "✅ "@ + decimal(scanned as nat) + " entries scanned  total: "@ + human_size_text(rs);
    lemma_no_escape_concat("✅ "@, decimal(scanned as nat));
    lemma_no_escape_concat("✅ "@ + decimal(scanned as nat), " entries scanned  total: "@);
    lemma_no_escape_concat("✅ "@ + decimal(scanned as nat) + " entries scanned  total: "@, human_size_text(rs));
    let mid = children_lines(tree, Seq::empty(), true, true, 0);
    let lines = seq![first] + mid + seq![last];
    assert forall|i: int| 0 <= i < lines.len() implies no_escape(#[trigger] lines[i]) by {
        if i == 0 {
        } else if i <= mid.len() {
            assert(lines[i] == mid[i - 1]);
        } else {
            assert(lines[i] == last);
        }
    }
    lemma_joined_no_escape(lines, "\n"@);
}

/// The live screen starts with the root line and ends with the status
/// line: `done ` or `scan `, the number of scanned entries, and the root's
/// total size in its colour.
pub proof fn lemma_screen_shape(
    entries: Seq<(Vec<String>, Entry)>,
    root: Seq<Seq<char>>,
    root_display: Seq<char>,
    count: int,
    scanned: u64,
    finished: bool,
)
    ensures
        screen_text(entries, root, root_display, count, scanned, finished).len() >= 2,
        screen_text(entries, root, root_display, count, scanned, finished)[0] == repeat_char(' ', 10) + "  "@
            + ansi_text(root_display, Color::Blue, true),
        screen_text(entries, root, root_display, count, scanned, finished).last() == ({
            let rs = root_size_from(entries, root, 0) as int;
            ansi_text(
                if finished { "done "@ } else { "scan "@ },
                if finished { Color::Green } else { Color::Yellow },
                true,
            ) + " "@ + decimal(scanned as nat) + " entries  total: "@ + ansi_text(human_size_text(rs), size_color_of(rs), true)
        }),
{
}

/// The text sent to Slack begins with the folder line and ends with the
/// summary line.
pub proof fn lemma_slack_text_ends(
    entries: Seq<(Vec<String>, Entry)>,
    root: Seq<Seq<char>>,
    root_display: Seq<char>,
    count: int,
    scanned: u64,
)
    ensures
        ({
            let text = slack_report_text(entries, root, root_display, count, scanned);
            let first = "📂 "@ + root_display;
            let last = "✅ "@ + decimal(scanned as nat) + " entries scanned  total: "@ + human_size_text(
                root_size_from(entries, root, 0) as int,
            );
            &&& text.len() >= first.len()
            &&& text.take(first.len() as int) == first
            &&& text.len() >= last.len()
            &&& text.skip(text.len() - last.len()) == last
        }),
{
    let rs = root_size_from(entries, root, 0) as int;
    let first = "📂 "@ + root_display;
    let last = "✅ "@ + decimal(scanned as nat) + " entries scanned  total: "@ + human_size_text(rs);
    let mid = children_lines(report_tree(entries, root, count), Seq::empty(), true, true, 0);
    let lines = seq![first] + mid + seq![last];
    assert(lines[0] == first);
    assert(lines.last() == last);
    lemma_joined_ends(lines, "\n"@);
}

/// The path, relative to `root`, at which entry `order[s]` is recorded.
pub open spec fn recorded_at(entries: Seq<(Vec<String>, Entry)>, root: Seq<Seq<char>>, order: Seq<usize>, s: int) -> Seq<
    Seq<char>,
> {
    relative_to(names_view(entries[order[s] as int].0@), root)
}

proof fn lemma_tree_of_in_top(
    entries: Seq<(Vec<String>, Entry)>,
    root: Seq<Seq<char>>,
    order: Seq<usize>,
    t: int,
    q: Seq<Seq<char>>,
)
    requires
        0 <= t <= order.len(),
    ensures
        tree_sorted(tree_of(entries, root, order, t)),
        in_top_at(tree_of(entries, root, order, t), q) == (q.len() > 0 && exists|s: int|
            0 <= s < t && #[trigger] recorded_at(entries, root, order, s) == q),
    decreases t,
{
    if t == 0 {
        assert(tree_sorted(empty_node()));
    } else {
        lemma_tree_of_in_top(entries, root, order, t - 1, q);
        let prev = tree_of(entries, root, order, t - 1);
        let rel = recorded_at(entries, root, order, t - 1);
        if rel.len() > 0 {
            lemma_inserted_sorted(prev, rel, entries[order[t - 1] as int].1);
            lemma_inserted_in_top(prev, rel, entries[order[t - 1] as int].1, q);
        }
        if q.len() > 0 && exists|s: int| 0 <= s < t && #[trigger] recorded_at(entries, root, order, s) == q {
            let s = choose|s: int| 0 <= s < t && #[trigger] recorded_at(entries, root, order, s) == q;
            if s < t - 1 {
                assert(exists|s2: int| 0 <= s2 < t - 1 && #[trigger] recorded_at(entries, root, order, s2) == q);
            }
        }
        if q.len() > 0 && exists|s: int| 0 <= s < t - 1 && #[trigger] recorded_at(entries, root, order, s) == q {
            let s = choose|s: int| 0 <= s < t - 1 && #[trigger] recorded_at(entries, root, order, s) == q;
            assert(0 <= s < t && recorded_at(entries, root, order, s) == q);
        }
        if q.len() > 0 && rel == q {
            assert(0 <= t - 1 < t && recorded_at(entries, root, order, t - 1) == q);
        }
    }
}

/// The nodes selected in the report tree are exactly those at the paths,
/// relative to the root, of the chosen largest entries.
pub proof fn lemma_report_tree_selected(
    entries: Seq<(Vec<String>, Entry)>,
    root: Seq<Seq<char>>,
    count: int,
    q: Seq<Seq<char>>,
)
    ensures
        in_top_at(report_tree(entries, root, count), q) == (q.len() > 0 && exists|t: int|
            0 <= t < shown_entries(entries, root, count).len() && relative_to(
                names_view(entries[#[trigger] shown_entries(entries, root, count)[t] as int].0@),
                root,
            ) == q),
{
    let order = shown_entries(entries, root, count);
    lemma_tree_of_in_top(entries, root, order, order.len() as int, q);
    lemma_sort_keys_in_top(tree_of(entries, root, order, order.len() as int), q);
    if q.len() > 0 && exists|s: int| 0 <= s < order.len() && #[trigger] recorded_at(entries, root, order, s) == q {
        let s = choose|s: int| 0 <= s < order.len() && #[trigger] recorded_at(entries, root, order, s) == q;
        assert(relative_to(names_view(entries[order[s] as int].0@), root) == q);
    }
    if q.len() > 0 && exists|t: int|
        0 <= t < order.len() && relative_to(names_view(entries[#[trigger] order[t] as int].0@), root) == q {
        let t = choose|t: int|
            0 <= t < order.len() && relative_to(names_view(entries[#[trigger] order[t] as int].0@), root) == q;
        assert(recorded_at(entries, root, order, t) == q);
    }
}

} // verus!
