use topfs::entry::Entry;
use topfs::render::{render_node, render_node_plain};
use topfs::screen::{render_slack_text, screen_lines};
use topfs::size::human_size;
use topfs::slack::slack_payload;
use topfs::style::{ansi, size_color, Color};
use topfs::tree::{compute_sort_keys, insert_path, TreeNode};

fn p(parts: &[&str]) -> Vec<String> {
    parts.iter().map(|s| s.to_string()).collect()
}

fn entry(size: u64, is_dir: bool) -> Entry {
    Entry { size, is_dir, mtime: None, child_count: None }
}

#[test]
fn insert_keeps_children_in_name_order() {
    let mut t = TreeNode::new();
    insert_path(&mut t, &p(&["b"]), &entry(1, false));
    insert_path(&mut t, &p(&["a", "x"]), &entry(2, false));
    insert_path(&mut t, &p(&["c"]), &entry(3, false));
    insert_path(&mut t, &p(&["a"]), &entry(4, true));
    let names: Vec<&str> = t.children.iter().map(|c| c.0.as_str()).collect();
    assert_eq!(names, vec!["a", "b", "c"]);
    let a = &t.children[0].1;
    assert!(a.in_top);
    assert_eq!(a.size, 4);
    assert_eq!(a.children.len(), 1);
    assert_eq!(a.children[0].1.size, 2);
}

#[test]
fn sort_keys_are_subtree_maxima() {
    let mut t = TreeNode::new();
    insert_path(&mut t, &p(&["a", "x"]), &entry(50, false));
    insert_path(&mut t, &p(&["b"]), &entry(20, false));
    let k = compute_sort_keys(&mut t);
    assert_eq!(k, 50);
    assert_eq!(t.children[0].1.sort_key, 50);
    assert_eq!(t.children[0].1.size, 0);
    assert_eq!(t.children[1].1.sort_key, 20);
}

#[test]
fn plain_rendering_folds_single_child_chains() {
    let mut t = TreeNode::new();
    insert_path(&mut t, &p(&["a", "b", "c"]), &entry(2048, false));
    insert_path(&mut t, &p(&["a", "d"]), &Entry { size: 1024, is_dir: true, mtime: Some("2024-01-01 00:00".into()), child_count: Some(3) });
    compute_sort_keys(&mut t);
    let mut out = Vec::new();
    render_node_plain(&t.children[0].1, "a", "", true, &mut out);
    assert_eq!(out, vec![
        "            └── a".to_string(),
        format!("{}      ├── b/c", human_size(2048)),
        format!("{}      └── d/ (3 2024-01-01 00:00)", human_size(1024)),
    ]);
}

#[test]
fn coloured_rendering() {
    let mut t = TreeNode::new();
    insert_path(&mut t, &p(&["d"]), &Entry { size: 5 << 20, is_dir: true, mtime: None, child_count: Some(2) });
    insert_path(&mut t, &p(&["f"]), &entry(10, false));
    compute_sort_keys(&mut t);
    let mut out = Vec::new();
    render_node(&t.children[0].1, "d", "│   ", false, true, &mut out);
    let expected = format!(
        "{}  │   ├── {}{}",
        ansi(&human_size(5 << 20), size_color(5 << 20), true),
        ansi("d", Color::Blue, true),
        ansi(" (2)", Color::DarkGrey, false)
    );
    assert_eq!(out, vec![expected]);
    let mut scanning = Vec::new();
    render_node(&t.children[0].1, "d", "", true, false, &mut scanning);
    assert!(!scanning[0].contains("(2)"));
}

#[test]
fn equal_keys_keep_name_order() {
    let mut t = TreeNode::new();
    insert_path(&mut t, &p(&["z"]), &entry(7, false));
    insert_path(&mut t, &p(&["m"]), &entry(9, false));
    insert_path(&mut t, &p(&["a"]), &entry(7, false));
    compute_sort_keys(&mut t);
    let mut out = Vec::new();
    topfs::render::render_children(&t, "", true, true, &mut out);
    assert!(out[0].ends_with("├── m"));
    assert!(out[1].ends_with("├── a"));
    assert!(out[2].ends_with("└── z"));
}

fn snapshot() -> Vec<(Vec<String>, Entry)> {
    vec![
        (p(&["/", "r"]), entry(3 << 20, true)),
        (p(&["/", "r", "a"]), entry(2 << 20, true)),
        (p(&["/", "r", "a", "x"]), entry(2 << 20, false)),
        (p(&["/", "r", "b"]), entry(1 << 20, false)),
    ]
}

#[test]
fn screen_has_root_tree_and_status() {
    let lines = screen_lines(&snapshot(), &p(&["/", "r"]), "/r", 2, 4, true);
    // the two largest are a and a/x (equal sizes); b is left out
    assert_eq!(lines.len(), 4);
    assert_eq!(lines[0], format!("            {}", ansi("/r", Color::Blue, true)));
    let big = ansi(&human_size(2 << 20), size_color(2 << 20), true);
    assert_eq!(lines[1], format!("{}  └── {}", big, ansi("a", Color::Blue, true)));
    assert_eq!(lines[2], format!("{}      └── x", big));
    assert_eq!(
        lines[3],
        format!("{} 4 entries  total: {}", ansi("done ", Color::Green, true), ansi(&human_size(3 << 20), size_color(3 << 20), true))
    );
    let scanning = screen_lines(&snapshot(), &p(&["/", "r"]), "/r", 2, 1, false);
    assert!(scanning.last().unwrap().starts_with(&ansi("scan ", Color::Yellow, true)));
}

#[test]
fn slack_text_is_plain() {
    let text = render_slack_text(&snapshot(), &p(&["/", "r"]), "/r", 3, 4);
    let lines: Vec<&str> = text.split('\n').collect();
    assert_eq!(lines[0], "📂 /r");
    assert_eq!(lines[1], format!("{}  ├── a/", human_size(2 << 20)));
    assert_eq!(lines[2], format!("{}  │   └── x", human_size(2 << 20)));
    assert_eq!(lines[3], format!("{}  └── b", human_size(1 << 20)));
    assert_eq!(lines[4], format!("✅ 4 entries scanned  total: {}", human_size(3 << 20)));
    assert!(!text.contains('\x1b'));
}

#[test]
fn slack_payload_json() {
    let body = slack_payload("a\"b\n\\", Some("Nightly"));
    assert_eq!(
        body,
        "{\"blocks\":[{\"text\":{\"text\":\"*Nightly*\",\"type\":\"mrkdwn\"},\"type\":\"section\"},{\"text\":{\"text\":\"```\\na\\\"b\\n\\\\\\n```\",\"type\":\"mrkdwn\"},\"type\":\"section\"}]}"
    );
    let plain = slack_payload("x\u{1}y", None);
    assert_eq!(
        plain,
        "{\"blocks\":[{\"text\":{\"text\":\"```\\nx\\u0001y\\n```\",\"type\":\"mrkdwn\"},\"type\":\"section\"}]}"
    );
}

#[test]
fn siblings_come_largest_first() {
    let mut t = TreeNode::new();
    insert_path(&mut t, &p(&["a"]), &entry(1, false));
    insert_path(&mut t, &p(&["b"]), &entry(30, false));
    insert_path(&mut t, &p(&["c"]), &entry(20, false));
    compute_sort_keys(&mut t);
    let mut out = Vec::new();
    render_node_plain(&t, "r", "", true, &mut out);
    assert_eq!(out.len(), 4);
    assert!(out[1].ends_with("├── b"));
    assert!(out[2].ends_with("├── c"));
    assert!(out[3].ends_with("└── a"));
}

#[test]
fn details_only_once_finished() {
    let mut t = TreeNode::new();
    insert_path(&mut t, &p(&["d"]), &Entry { size: 5, is_dir: true, mtime: Some("2024-01-01 00:00".into()), child_count: Some(2) });
    compute_sort_keys(&mut t);
    let mut scanning = Vec::new();
    render_node(&t.children[0].1, "d", "", true, false, &mut scanning);
    assert!(!scanning[0].contains(" ("));
    let mut done = Vec::new();
    render_node(&t.children[0].1, "d", "", true, true, &mut done);
    assert!(done[0].ends_with(&ansi(" (2 2024-01-01 00:00)", Color::DarkGrey, false)));
}

#[test]
fn insertion_keeps_other_nodes() {
    let mut t = TreeNode::new();
    insert_path(&mut t, &p(&["a", "x"]), &entry(7, false));
    insert_path(&mut t, &p(&["b"]), &entry(3, false));
    insert_path(&mut t, &p(&["a"]), &entry(9, true));
    // the node at a/x is untouched, and a keeps its child
    let a = &t.children[0].1;
    assert_eq!(a.size, 9);
    assert_eq!(a.children.len(), 1);
    assert_eq!(a.children[0].0, "x");
    assert_eq!(a.children[0].1.size, 7);
    assert_eq!(t.children[1].1.size, 3);
}

#[test]
fn everything_is_shown_when_it_fits() {
    let lines = screen_lines(&snapshot(), &p(&["/", "r"]), "/r", 10, 4, true);
    // a, a/x and b all appear, root first, status last
    assert_eq!(lines.len(), 5);
    assert!(lines[4].contains("4 entries  total: "));
}

#[test]
fn line_count_follows_the_folding() {
    // a is not selected and has one child: its line folds into b's
    let mut t = TreeNode::new();
    insert_path(&mut t, &p(&["a", "b", "x"]), &entry(4, false));
    insert_path(&mut t, &p(&["a", "b", "y"]), &entry(2, false));
    insert_path(&mut t, &p(&["a", "b"]), &entry(6, true));
    compute_sort_keys(&mut t);
    let mut out = vec!["kept".to_string()];
    render_node(&t.children[0].1, "a", "", true, true, &mut out);
    // the line for a/b, then one for each of b's two children
    assert_eq!(out.len(), 1 + 3);
    assert_eq!(out[0], "kept");
}

#[test]
fn plain_lines_are_the_shown_coloured_lines() {
    let mut t = TreeNode::new();
    insert_path(&mut t, &p(&["d", "f"]), &entry(4096, false));
    insert_path(&mut t, &p(&["d"]), &Entry { size: 8192, is_dir: true, mtime: Some("2024-05-06 07:08".into()), child_count: Some(1) });
    compute_sort_keys(&mut t);
    let mut coloured = Vec::new();
    render_node(&t.children[0].1, "d", "", true, true, &mut coloured);
    let mut plain = Vec::new();
    render_node_plain(&t.children[0].1, "d", "", true, &mut plain);
    assert_eq!(coloured.len(), plain.len());
    let strip = |s: &str| {
        let mut out = String::new();
        let mut esc = false;
        for c in s.chars() {
            if esc {
                esc = !c.is_ascii_alphabetic();
            } else if c == '\x1b' {
                esc = true;
            } else {
                out.push(c);
            }
        }
        out
    };
    assert_eq!(strip(&coloured[0]).replacen("d (", "d/ (", 1), plain[0]);
    assert_eq!(strip(&coloured[1]), plain[1]);
}

#[test]
fn selected_nodes_are_the_chosen_entries() {
    let lines = render_slack_text(&snapshot(), &p(&["/", "r"]), "/r", 1, 4);
    // only the largest entry (a, first of the equal sizes) gets a size
    let sized: Vec<&str> = lines.split('\n').filter(|l| l.contains("──") && !l.starts_with("          ")).collect();
    assert_eq!(sized.len(), 1);
    assert!(sized[0].ends_with("a/"));
}
