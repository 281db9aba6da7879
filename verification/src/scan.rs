//! The decisions of a scan: which listed or walked entries count, what
//! size they add and to how many ancestors, which entries survive the
//! pruning, and which get a child count.
use vstd::prelude::*;
use crate::entry::Entry;
use crate::tree::names_view;
use crate::paths::{
    ancestor_chain, path_parent, is_child_of, ancestors_under_root, is_direct_child, path_starts_with,
    lemma_chain_reaches_root,
};
use crate::screen::{shown_entries, snapshot_paths, select_entries, lemma_shown_entries_largest, non_root_count};
use crate::time::{format_timestamp, timestamp_text};

verus! {

/// Whether a walked local entry counts under the date filter: directories
/// always do; files do when there is no cutoff, or when their modification
/// time is known and not before it (times in nanoseconds from the epoch).
pub fn keep_local_entry(is_dir: bool, modified: Option<i128>, cutoff: Option<i128>) -> (r: bool)
    ensures
        r == (is_dir || cutoff is None || (modified is Some && modified->0 >= cutoff->0)),
{
    if is_dir {
        return true;
    }
    match cutoff {
        Some(c) => match modified {
            Some(m) => m >= c,
            None => false,
        },
        None => true,
    }
}

/// The size a walked entry counts for: 0 unless it is a regular file; its
/// length when `apparent`, else the space of its 512-byte blocks.
pub fn entry_size(is_file: bool, apparent: bool, len: u64, blocks: u64) -> (r: u64)
    requires
        is_file && !apparent ==> blocks * 512 <= u64::MAX,
    ensures
        r == (if is_file {
            if apparent {
                len as int
            } else {
                blocks * 512
            }
        } else {
            0
        }),
{
    if is_file {
        if apparent {
            len
        } else {
            blocks * 512
        }
    } else {
        0
    }
}

/// How many ancestors of a scanned entry, walking up from its parent, are
/// credited with its size: none for a directory or an empty file; else
/// those up to `root`, stopping early at one not under `root`.
pub fn ancestors_to_credit(path: &Vec<String>, root: &Vec<String>, is_dir: bool, size: u64) -> (r: usize)
    ensures
        r == (if !is_dir && size > 0 {
            ancestor_chain(names_view(root@), path_parent(names_view(path@)))
        } else {
            0
        }),
{
    if !is_dir && size > 0 {
        ancestors_under_root(path, root)
    } else {
        0
    }
}

/// The total size of the files (path, size) that lie strictly below `d`.
pub open spec fn size_below(files: Seq<(Seq<Seq<char>>, u64)>, d: Seq<Seq<char>>) -> int
    decreases files.len(),
{
    if files.len() == 0 {
        0
    } else {
        let f = files.last();
        size_below(files.drop_last(), d) + (if d.len() < f.0.len() && f.0.take(d.len() as int) == d {
            f.1 as int
        } else {
            0
        })
    }
}

/// The total that the scan credits to `d` for the files (path, size): each
/// file adds its size to the first `ancestor_chain(root, parent)` of its
/// ancestors, walking up from its parent.
pub open spec fn size_credited(files: Seq<(Seq<Seq<char>>, u64)>, root: Seq<Seq<char>>, d: Seq<Seq<char>>) -> int
    decreases files.len(),
{
    if files.len() == 0 {
        0
    } else {
        let f = files.last();
        let n = ancestor_chain(root, path_parent(f.0));
        size_credited(files.drop_last(), root, d) + (if f.0.len() - n <= d.len() < f.0.len() && f.0.take(
            d.len() as int,
        ) == d {
            f.1 as int
        } else {
            0
        })
    }
}

/// Crediting each file's size to the ancestors that `ancestors_to_credit`
/// counts gives every directory at or below the root exactly the total
/// size of the files below it, for files strictly below the root whose
/// components below it are names (not the root directory `/`).
pub proof fn lemma_credited_is_total_below(
    files: Seq<(Seq<Seq<char>>, u64)>,
    root: Seq<Seq<char>>,
    d: Seq<Seq<char>>,
)
    requires
        path_starts_with(d, root),
        forall|k: int|
            0 <= k < files.len() ==> path_starts_with(#[trigger] files[k].0, root) && files[k].0.len() > root.len()
                && forall|i: int| root.len() <= i < files[k].0.len() ==> files[k].0[i] != "/"@,
    ensures
        size_credited(files, root, d) == size_below(files, d),
    decreases files.len(),
{
    if files.len() > 0 {
        let f = files.last();
        assert(files[files.len() - 1] == f);
        lemma_chain_reaches_root(root, f.0);
        let rest = files.drop_last();
        assert forall|k: int| 0 <= k < rest.len() implies path_starts_with(#[trigger] rest[k].0, root)
            && rest[k].0.len() > root.len() && forall|i: int| root.len() <= i < rest[k].0.len() ==> rest[k].0[i] != "/"@ by {
            assert(rest[k] == files[k]);
        }
        lemma_credited_is_total_below(rest, root, d);
    }
}

/// The ancestors credited for a file strictly below the root (with names
/// as its components below it) are exactly its proper ancestors from its
/// parent up to the root itself: no path above the root gets a share.
pub proof fn lemma_credit_stays_under_root(root: Seq<Seq<char>>, p: Seq<Seq<char>>)
    requires
        path_starts_with(p, root),
        p.len() > root.len(),
        forall|i: int| root.len() <= i < p.len() ==> p[i] != "/"@,
    ensures
        p.len() - ancestor_chain(root, path_parent(p)) == root.len(),
        forall|j: int|
            p.len() - ancestor_chain(root, path_parent(p)) <= j < p.len() ==> path_starts_with(#[trigger] p.take(j), root),
{
    lemma_chain_reaches_root(root, p);
    assert forall|j: int| p.len() - ancestor_chain(root, path_parent(p)) <= j < p.len() implies path_starts_with(
        #[trigger] p.take(j),
        root,
    ) by {
        assert(p.take(j).take(root.len() as int) =~= p.take(root.len() as int));
    }
}

/// The entries kept by pruning: for each of the `2 * count` largest
/// entries other than `root` (snapshot index), the number of its ancestors
/// kept with it, walking up from its parent to `root`. The root itself is
/// always kept.
pub fn prune_plan(entries: &Vec<(Vec<String>, Entry)>, root: &Vec<String>, count: usize) -> (r: Vec<(usize, usize)>)
    requires
        count <= usize::MAX / 2,
    ensures
        r@.len() == shown_entries(entries@, names_view(root@), 2 * count).len(),
        forall|t: int|
            0 <= t < r@.len() ==> (#[trigger] r@[t]).0 == shown_entries(entries@, names_view(root@), 2 * count)[t]
                && r@[t].1 == ancestor_chain(
                names_view(root@),
                path_parent(names_view(entries@[r@[t].0 as int].0@)),
            ),
{
    let (sel, _) = select_entries(entries, root, count * 2);
    let mut r: Vec<(usize, usize)> = Vec::new();
    let mut t: usize = 0;
    while t < sel.len()
        invariant
            t <= sel@.len(),
            sel@ == shown_entries(entries@, names_view(root@), 2 * count),
            forall|q: int| 0 <= q < sel@.len() ==> #[trigger] sel@[q] < entries@.len(),
            r@.len() == t,
            forall|q: int|
                0 <= q < t ==> (#[trigger] r@[q]).0 == sel@[q] && r@[q].1 == ancestor_chain(
                    names_view(root@),
                    path_parent(names_view(entries@[r@[q].0 as int].0@)),
                ),
        decreases sel.len() - t,
    {
        let i = sel[t];
        let m = ancestors_under_root(&entries[i].0, root);
        r.push((i, m));
        t += 1;
    }
    r
}

/// What pruning keeps: the `2 * count` largest entries other than the
/// root, none twice, none smaller than an entry dropped; and when the
/// snapshot holds no more than `2 * count` entries other than the root,
/// every entry.
pub proof fn lemma_prune_keeps_largest(entries: Seq<(Vec<String>, Entry)>, root: Seq<Seq<char>>, count: int)
    requires
        entries.len() < usize::MAX,
        count >= 0,
    ensures
        shown_entries(entries, root, 2 * count).len() <= 2 * count,
        forall|i: int, t: int|
            0 <= i < entries.len() && names_view(entries[i].0@) != root && !shown_entries(entries, root, 2 * count).contains(
                i as usize,
            ) && 0 <= t < shown_entries(entries, root, 2 * count).len() ==> #[trigger] entries[i].1.size
                <= entries[#[trigger] shown_entries(entries, root, 2 * count)[t] as int].1.size,
        non_root_count(entries, root) <= 2 * count ==> forall|i: int|
            0 <= i < entries.len() && names_view(#[trigger] entries[i].0@) != root ==> shown_entries(
                entries,
                root,
                2 * count,
            ).contains(i as usize),
{
    lemma_shown_entries_largest(entries, root, 2 * count);
}

/// Whether every path of the snapshot lies at or below `root`, with names
/// (not the root directory `/`) as its components below `root`, as the
/// scans record them.
pub open spec fn snapshot_under_root(entries: Seq<(Vec<String>, Entry)>, root: Seq<Seq<char>>) -> bool {
    forall|i: int|
        0 <= i < entries.len() ==> path_starts_with(#[trigger] names_view(entries[i].0@), root) && forall|k: int|
            root.len() <= k < names_view(entries[i].0@).len() ==> names_view(entries[i].0@)[k] != "/"@
}

/// The set pruning keeps, for a snapshot under the root: each of the
/// `2 * count` largest entries other than the root, with all of its
/// ancestors from its parent up to the root itself (the plan's count is
/// exactly that many). Every ancestor kept has a kept entry strictly below
/// it, so the kept paths with nothing kept below them, other than the
/// root, are among the at most `2 * count` largest entries.
pub proof fn lemma_prune_kept_set(entries: Seq<(Vec<String>, Entry)>, root: Seq<Seq<char>>, count: int)
    requires
        entries.len() < usize::MAX,
        count >= 0,
        snapshot_under_root(entries, root),
    ensures
        shown_entries(entries, root, 2 * count).len() <= 2 * count,
        forall|t: int|
            0 <= t < shown_entries(entries, root, 2 * count).len() ==> ({
                let q = names_view(entries[#[trigger] shown_entries(entries, root, 2 * count)[t] as int].0@);
                &&& q.len() > root.len()
                &&& ancestor_chain(root, path_parent(q)) == q.len() - root.len()
                &&& forall|j: int|
                    root.len() <= j < q.len() ==> path_starts_with(#[trigger] q.take(j), root) && q.take(j).len() < q.len()
            }),
{
    lemma_shown_entries_largest(entries, root, 2 * count);
    let shown = shown_entries(entries, root, 2 * count);
    assert forall|t: int| 0 <= t < shown.len() implies ({
        let q = names_view(entries[#[trigger] shown[t] as int].0@);
        &&& q.len() > root.len()
        &&& ancestor_chain(root, path_parent(q)) == q.len() - root.len()
        &&& forall|j: int| root.len() <= j < q.len() ==> path_starts_with(#[trigger] q.take(j), root) && q.take(j).len() < q.len()
    }) by {
        let i = shown[t] as int;
        let q = names_view(entries[i].0@);
        assert(path_starts_with(q, root));
        if q.len() == root.len() {
            assert(q.take(root.len() as int) =~= q);
        }
        lemma_credit_stays_under_root(root, q);
    }
}

/// The number of snapshot entries below index `n` that are direct
/// children of `dir`.
pub open spec fn children_count(paths: Seq<Seq<Seq<char>>>, dir: Seq<Seq<char>>, n: int) -> nat
    decreases n,
{
    if n <= 0 {
        0
    } else {
        children_count(paths, dir, n - 1) + (if is_child_of(paths[n - 1], dir) { 1nat } else { 0 })
    }
}

/// `children_count` counts exactly the direct children: the entries among
/// the first `n` whose parent is `dir`. An entry two or more levels below
/// `dir` has another parent and adds nothing.
pub proof fn lemma_children_count_direct(paths: Seq<Seq<Seq<char>>>, dir: Seq<Seq<char>>, n: int)
    requires
        0 <= n <= paths.len(),
    ensures
        children_count(paths, dir, n) == paths.take(n).filter(|p: Seq<Seq<char>>| path_parent(p) == Some(dir)).len(),
        forall|i: int|
            0 <= i < paths.len() && #[trigger] paths[i].len() >= dir.len() + 2 ==> path_parent(paths[i]) != Some(dir),
    decreases n,
{
    reveal(Seq::filter);
    let pred = |p: Seq<Seq<char>>| path_parent(p) == Some(dir);
    if n > 0 {
        lemma_children_count_direct(paths, dir, n - 1);
        assert(paths.take(n).drop_last() =~= paths.take(n - 1));
        assert(paths.take(n).last() == paths[n - 1]);
    } else {
        assert(paths.take(0) =~= Seq::<Seq<Seq<char>>>::empty());
    }
}

/// The child counts to record: for each of the `count` largest entries
/// other than `root` (snapshot index), the number of snapshot entries that
/// are its direct children when it is a directory, and nothing otherwise.
pub fn enrich_plan(entries: &Vec<(Vec<String>, Entry)>, root: &Vec<String>, count: usize) -> (r: Vec<(usize, Option<u64>)>)
    ensures
        r@.len() == shown_entries(entries@, names_view(root@), count as int).len(),
        forall|t: int|
            0 <= t < r@.len() ==> (#[trigger] r@[t]).0 == shown_entries(entries@, names_view(root@), count as int)[t]
                && r@[t].1 == (if entries@[r@[t].0 as int].1.is_dir {
                Some(
                    children_count(
                        snapshot_paths(entries@),
                        names_view(entries@[r@[t].0 as int].0@),
                        entries@.len() as int,
                    ) as u64,
                )
            } else {
                None
            }),
{
    let (sel, _) = select_entries(entries, root, count);
    let ghost paths = snapshot_paths(entries@);
    let n = entries.len();
    let mut r: Vec<(usize, Option<u64>)> = Vec::new();
    let mut t: usize = 0;
    while t < sel.len()
        invariant
            n == entries@.len(),
            paths == snapshot_paths(entries@),
            t <= sel@.len(),
            sel@ == shown_entries(entries@, names_view(root@), count as int),
            forall|q: int| 0 <= q < sel@.len() ==> #[trigger] sel@[q] < entries@.len(),
            r@.len() == t,
            forall|q: int|
                0 <= q < t ==> (#[trigger] r@[q]).0 == sel@[q] && r@[q].1 == (if entries@[r@[q].0 as int].1.is_dir {
                    Some(children_count(paths, names_view(entries@[r@[q].0 as int].0@), n as int) as u64)
                } else {
                    None
                }),
        decreases sel.len() - t,
    {
        let i = sel[t];
        if entries[i].1.is_dir {
            let mut c: u64 = 0;
            let mut j: usize = 0;
            while j < n
                invariant
                    n == entries@.len(),
                    paths == snapshot_paths(entries@),
                    i < n,
                    j <= n,
                    c == children_count(paths, names_view(entries@[i as int].0@), j as int),
                    c <= j,
                decreases n - j,
            {
                assert(paths[j as int] == names_view(entries@[j as int].0@));
                if is_direct_child(&entries[j].0, &entries[i].0) {
                    c += 1;
                }
                j += 1;
            }
            r.push((i, Some(c)));
        } else {
            r.push((i, None));
        }
        t += 1;
    }
    r
}

/// What the live display does after sampling the scan: redraw when the
/// count of scanned entries changed or the scan is done, and stop when it
/// is done.
pub fn refresh_step(last_scanned: u64, scanned: u64, done: bool) -> (r: (bool, bool))
    ensures
        r.0 == (scanned != last_scanned || done),
        r.1 == done,
{
    (scanned != last_scanned || done, done)
}

/// The date filter of a remote scan: the timestamp `days` days before
/// `now_secs`, as `YYYY-MM-DD HH:MM`.
pub fn remote_cutoff(now_secs: i64, days: u64) -> (r: String)
    requires
        i64::MIN <= (days as i64) * 86400 <= i64::MAX,
        i64::MIN <= now_secs - (days as i64) * 86400 <= i64::MAX,
    ensures
        r@ == timestamp_text(now_secs - (days as i64) * 86400),
{
    let d = days as i64;
    format_timestamp(now_secs - d * 86400)
}

} // verus!
