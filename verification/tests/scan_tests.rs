use topfs::entry::Entry;
use topfs::paths::{ancestors_under_root, is_direct_child, relative_components, same_path};
use topfs::remote::{
    is_remote_path, keep_remote_entry, normalize_remote_url, parse_ls_line, parse_u64, remote_root_path,
    split_words,
};
use topfs::scan::{
    ancestors_to_credit, enrich_plan, entry_size, keep_local_entry, prune_plan, refresh_step, remote_cutoff,
};
use topfs::select::top_indices;

fn p(parts: &[&str]) -> Vec<String> {
    parts.iter().map(|s| s.to_string()).collect()
}

fn entry(size: u64, is_dir: bool) -> Entry {
    Entry { size, is_dir, mtime: None, child_count: None }
}

#[test]
fn remote_paths_are_recognized() {
    assert!(is_remote_path("hdfs://nn:8020/data"));
    assert!(is_remote_path("abfs://c@a/p"));
    assert!(is_remote_path("abfss://c@a/p"));
    assert!(is_remote_path("///user/data"));
    assert!(!is_remote_path("/var/log"));
    assert!(!is_remote_path("hdfs:/x"));
    assert!(!is_remote_path(""));
}

#[test]
fn remote_urls_are_normalized() {
    assert_eq!(normalize_remote_url("///user/data"), "hdfs:///user/data");
    assert_eq!(normalize_remote_url("hdfs://nn:8020/data"), "hdfs:///nn:8020/data");
    assert_eq!(normalize_remote_url("hdfs:///data"), "hdfs:///data");
    assert_eq!(normalize_remote_url("abfs://c@a/p"), "abfs://c@a/p");
    for u in ["///a", "hdfs://x/y", "hdfs:///z", "abfss://q", "/local"] {
        let once = normalize_remote_url(u);
        assert_eq!(normalize_remote_url(&once), once);
    }
}

#[test]
fn remote_root_drops_trailing_slashes() {
    assert_eq!(remote_root_path("hdfs:///data/"), "hdfs:///data");
    assert_eq!(remote_root_path("hdfs:///data///"), "hdfs:///data");
    assert_eq!(remote_root_path("hdfs:///data"), "hdfs:///data");
    assert_eq!(remote_root_path("///"), "");
    let once = remote_root_path("abfs://c@a/p//");
    assert_eq!(remote_root_path(&once), once);
}

#[test]
fn words_are_split_on_unicode_white_space() {
    assert_eq!(split_words("  a  b\tc\n"), p(&["a", "b", "c"]));
    assert_eq!(split_words("x\u{3000}y\u{a0}z"), p(&["x", "y", "z"]));
    assert!(split_words("   ").is_empty());
}

#[test]
fn numbers_parse_as_std_does() {
    for s in ["0", "42", "+7", "18446744073709551615", "18446744073709551616", "", "+", "-1", "1a", "٣"] {
        assert_eq!(parse_u64(s), s.parse::<u64>().ok(), "input {:?}", s);
    }
}

#[test]
fn ls_lines_are_read() {
    let f = parse_ls_line("-rw-r--r--   3 user group    1234567 2024-01-01 12:00 /path/to/file").unwrap();
    assert!(!f.is_dir);
    assert_eq!(f.size, 1234567);
    assert_eq!(f.mtime, "2024-01-01 12:00");
    assert_eq!(f.path, "/path/to/file");
    let d = parse_ls_line("drwxr-xr-x   - user group          0 2024-01-01 12:00 /path/to/dir").unwrap();
    assert!(d.is_dir);
    assert_eq!(d.size, 0);
    let spaced = parse_ls_line("-rw-r--r-- 3 u g xx 2024-01-02 08:30 /a  b   c").unwrap();
    assert_eq!(spaced.size, 0);
    assert_eq!(spaced.path, "/a b c");
    assert!(parse_ls_line("Found 3 items").is_none());
    assert!(parse_ls_line("").is_none());
    assert!(parse_ls_line("   ").is_none());
}

#[test]
fn remote_date_filter() {
    assert!(keep_remote_entry(true, "2020-01-01 00:00", Some("2024-01-01 00:00")));
    assert!(!keep_remote_entry(false, "2020-01-01 00:00", Some("2024-01-01 00:00")));
    assert!(keep_remote_entry(false, "2024-01-01 00:00", Some("2024-01-01 00:00")));
    assert!(keep_remote_entry(false, "2025-01-01 00:00", Some("2024-01-01 00:00")));
    assert!(keep_remote_entry(false, "2020-01-01 00:00", None));
}

#[test]
fn local_date_filter() {
    assert!(keep_local_entry(true, None, Some(10)));
    assert!(keep_local_entry(false, None, None));
    assert!(!keep_local_entry(false, None, Some(10)));
    assert!(!keep_local_entry(false, Some(9), Some(10)));
    assert!(keep_local_entry(false, Some(10), Some(10)));
}

#[test]
fn entry_sizes() {
    assert_eq!(entry_size(true, true, 1000, 8), 1000);
    assert_eq!(entry_size(true, false, 1000, 8), 4096);
    assert_eq!(entry_size(false, false, 1000, 8), 0);
    assert_eq!(entry_size(false, true, 1000, 8), 0);
}

#[test]
fn sizes_are_credited_up_to_the_root() {
    let root = p(&["/", "data"]);
    let file = p(&["/", "data", "a", "b", "f.txt"]);
    // parents a/b, a, and the root itself
    assert_eq!(ancestors_to_credit(&file, &root, false, 10), 3);
    assert_eq!(ancestors_to_credit(&file, &root, true, 10), 0);
    assert_eq!(ancestors_to_credit(&file, &root, false, 0), 0);
    assert_eq!(ancestors_under_root(&p(&["/", "data", "f"]), &root), 1);
    assert_eq!(ancestors_under_root(&p(&["/", "other", "f"]), &root), 0);
    assert_eq!(ancestors_under_root(&p(&["/"]), &root), 0);
    assert_eq!(ancestors_under_root(&p(&["/", "a"]), &p(&["/"])), 1);
}

#[test]
fn path_relations() {
    let root = p(&["/", "data"]);
    assert!(same_path(&root, &p(&["/", "data"])));
    assert!(!same_path(&root, &p(&["/", "dat"])));
    assert_eq!(relative_components(&p(&["/", "data", "x", "y"]), &root), p(&["x", "y"]));
    assert_eq!(relative_components(&p(&["/", "other"]), &root), p(&["/", "other"]));
    assert!(is_direct_child(&p(&["/", "data", "x"]), &root));
    assert!(!is_direct_child(&p(&["/", "data", "x", "y"]), &root));
    assert!(!is_direct_child(&p(&["/"]), &p(&[])));
    assert!(is_direct_child(&p(&["a"]), &p(&[])));
}

#[test]
fn top_indices_are_stable() {
    let keys = vec![5, 9, 5, 1, 9, 7];
    assert_eq!(top_indices(&keys, 3), vec![1, 4, 5]);
    assert_eq!(top_indices(&keys, 10), vec![1, 4, 5, 0, 2, 3]);
    assert_eq!(top_indices(&keys, 0), Vec::<usize>::new());
    assert_eq!(top_indices(&vec![], 3), Vec::<usize>::new());
}

fn snapshot() -> Vec<(Vec<String>, Entry)> {
    vec![
        (p(&["/", "r"]), entry(100, true)),
        (p(&["/", "r", "a"]), entry(60, true)),
        (p(&["/", "r", "a", "x"]), entry(50, false)),
        (p(&["/", "r", "a", "y"]), entry(10, false)),
        (p(&["/", "r", "b"]), entry(40, true)),
        (p(&["/", "r", "b", "z"]), entry(40, false)),
    ]
}

#[test]
fn pruning_keeps_the_largest_with_their_ancestors() {
    let snap = snapshot();
    let root = p(&["/", "r"]);
    // count 1 keeps the 2 largest: a (60) and x (50)
    let plan = prune_plan(&snap, &root, 1);
    assert_eq!(plan, vec![(1, 1), (2, 2)]);
    let all = prune_plan(&snap, &root, 10);
    assert_eq!(all.len(), 5);
}

#[test]
fn enrichment_counts_direct_children() {
    let snap = snapshot();
    let root = p(&["/", "r"]);
    let plan = enrich_plan(&snap, &root, 3);
    assert_eq!(plan, vec![(1, Some(2)), (2, None), (4, Some(1))]);
}

#[test]
fn refresh_decisions() {
    assert_eq!(refresh_step(5, 5, false), (false, false));
    assert_eq!(refresh_step(5, 6, false), (true, false));
    assert_eq!(refresh_step(5, 5, true), (true, true));
}

#[test]
fn remote_cutoff_is_days_before_now() {
    assert_eq!(remote_cutoff(86400 * 10, 7), "1970-01-04 00:00");
    assert_eq!(remote_cutoff(1725029869, 0), "2024-08-30 14:57");
}

#[test]
fn entry_updates() {
    let mut e = Entry::default();
    e.record_scanned(false, 12);
    assert_eq!(e.size, 12);
    assert!(!e.is_dir);
    e.record_scanned(true, 99);
    assert_eq!(e.size, 12);
    assert!(e.is_dir);
    let mut d = Entry::default();
    d.credit(5);
    d.credit(7);
    assert_eq!(d.size, 12);
    assert!(d.is_dir);
    let mut r = Entry::default();
    r.record_listed(false, 3, "2024-01-01 00:00".to_string());
    assert_eq!(r.mtime.as_deref(), Some("2024-01-01 00:00"));
    assert_eq!(r.size, 3);
}

#[test]
fn crediting_sums_files_below_each_directory() {
    // Walk the crediting as the scan does it, over a small listing.
    let root = p(&["/", "r"]);
    let files = vec![
        (p(&["/", "r", "a", "x"]), 5u64),
        (p(&["/", "r", "a", "b", "y"]), 7),
        (p(&["/", "r", "z"]), 11),
    ];
    let mut totals: std::collections::BTreeMap<Vec<String>, u64> = std::collections::BTreeMap::new();
    for (f, size) in &files {
        let n = ancestors_to_credit(f, &root, false, *size);
        for k in 1..=n {
            *totals.entry(f[..f.len() - k].to_vec()).or_default() += size;
        }
    }
    assert_eq!(totals[&p(&["/", "r"])], 23);
    assert_eq!(totals[&p(&["/", "r", "a"])], 12);
    assert_eq!(totals[&p(&["/", "r", "a", "b"])], 7);
    assert!(!totals.contains_key(&p(&["/"])));
    assert_eq!(totals.len(), 3);
}

#[test]
fn pruning_keeps_everything_when_it_fits() {
    let entries = vec![
        (p(&["/", "r"]), entry(30, true)),
        (p(&["/", "r", "a"]), entry(20, true)),
        (p(&["/", "r", "a", "x"]), entry(20, false)),
        (p(&["/", "r", "b"]), entry(10, false)),
    ];
    let plan = prune_plan(&entries, &p(&["/", "r"]), 2);
    let mut kept: Vec<usize> = plan.iter().map(|t| t.0).collect();
    kept.sort();
    assert_eq!(kept, vec![1, 2, 3]);
}

#[test]
fn pruning_keeps_all_when_non_root_entries_fit() {
    let entries = vec![
        (p(&["/", "r"]), entry(30, true)),
        (p(&["/", "r", "a"]), entry(20, false)),
        (p(&["/", "r", "b"]), entry(10, false)),
    ];
    // three entries, but only two besides the root: 2 * 1 is enough
    let plan = prune_plan(&entries, &p(&["/", "r"]), 1);
    let mut kept: Vec<usize> = plan.iter().map(|t| t.0).collect();
    kept.sort();
    assert_eq!(kept, vec![1, 2]);
    assert!(plan.iter().all(|t| t.1 == 1));
}
