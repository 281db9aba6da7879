//! Choosing the largest entries: a stable order by decreasing key, cut
//! after the first `k`.
use vstd::prelude::*;

verus! {

/// Index `i` comes before index `j` when its key is larger, or equal with
/// a smaller index.
pub open spec fn precedes(keys: Seq<u64>, i: int, j: int) -> bool {
    keys[i] > keys[j] || (keys[i] == keys[j] && i < j)
}

/// `r` lists the first `min(k, n)` of the indices `0..n` in order of
/// decreasing key, equal keys in index order: it is ordered, and every
/// index left out comes after every index in it.
pub open spec fn is_top_among(keys: Seq<u64>, n: int, k: int, r: Seq<usize>) -> bool {
    &&& r.len() == (if k < n { k } else { n })
    &&& forall|a: int| 0 <= a < r.len() ==> #[trigger] r[a] < n
    &&& forall|a: int, b: int| 0 <= a < b < r.len() ==> precedes(keys, #[trigger] r[a] as int, #[trigger] r[b] as int)
    &&& forall|j: int, a: int|
        0 <= j < n && !r.contains(j as usize) && 0 <= a < r.len() ==> #[trigger] precedes(
            keys,
            r[a] as int,
            j,
        )
}

/// `r` lists the first `min(k, keys.len())` indices of `keys` in order of
/// decreasing key, equal keys in index order.
pub open spec fn is_top_selection(keys: Seq<u64>, k: int, r: Seq<usize>) -> bool {
    is_top_among(keys, keys.len() as int, k, r)
}

/// The first `k` indices of `keys` by decreasing key, equal keys in index
/// order.
pub open spec fn top_selection(keys: Seq<u64>, k: int) -> Seq<usize> {
    choose|r: Seq<usize>| is_top_selection(keys, k, r)
}

/// There is only one such selection.
pub proof fn lemma_top_selection_unique(keys: Seq<u64>, k: int, r1: Seq<usize>, r2: Seq<usize>)
    requires
        is_top_selection(keys, k, r1),
        is_top_selection(keys, k, r2),
    ensures
        r1 == r2,
{
    if r1 != r2 {
        assert(r1.len() == r2.len());
        lemma_first_difference(r1, r2);
        let m = choose|m: int| 0 <= m < r1.len() && r1[m] != r2[m] && (forall|q: int| 0 <= q < m ==> r1[q] == r2[q]);
        let a = r1[m];
        let b = r2[m];
        if precedes(keys, a as int, b as int) {
            lemma_not_before(keys, k, r2, r1, m, a);
        } else {
            assert(precedes(keys, b as int, a as int));
            lemma_not_before(keys, k, r1, r2, m, b);
        }
    }
}

proof fn lemma_first_difference(r1: Seq<usize>, r2: Seq<usize>)
    requires
        r1.len() == r2.len(),
        r1 != r2,
    ensures
        exists|m: int| 0 <= m < r1.len() && r1[m] != r2[m] && (forall|q: int| 0 <= q < m ==> r1[q] == r2[q]),
    decreases r1.len(),
{
    if r1.len() == 0 {
        assert(r1 =~= r2);
    } else if r1[0] != r2[0] {
        assert(0 <= 0 < r1.len() && r1[0] != r2[0] && (forall|q: int| 0 <= q < 0 ==> r1[q] == r2[q]));
    } else {
        assert(r1.drop_first() != r2.drop_first()) by {
            if r1.drop_first() == r2.drop_first() {
                assert(r1 =~= seq![r1[0]] + r1.drop_first());
                assert(r2 =~= seq![r2[0]] + r2.drop_first());
            }
        }
        lemma_first_difference(r1.drop_first(), r2.drop_first());
        let m = choose|m: int|
            0 <= m < r1.drop_first().len() && r1.drop_first()[m] != r2.drop_first()[m] && (forall|q: int|
                0 <= q < m ==> r1.drop_first()[q] == r2.drop_first()[q]);
        assert forall|q: int| 0 <= q < m + 1 implies r1[q] == r2[q] by {
            if q > 0 {
                assert(r1.drop_first()[q - 1] == r2.drop_first()[q - 1]);
            }
        }
        assert(r1[m + 1] != r2[m + 1]);
    }
}

/// Where `r` and `s` first differ at position `m`, the element `x = s[m]`
/// does not come before `r[m]`.
proof fn lemma_not_before(keys: Seq<u64>, k: int, r: Seq<usize>, s: Seq<usize>, m: int, x: usize)
    requires
        is_top_selection(keys, k, r),
        is_top_selection(keys, k, s),
        0 <= m < r.len(),
        r.len() == s.len(),
        forall|q: int| 0 <= q < m ==> r[q] == s[q],
        s[m] == x,
        r[m] != x,
    ensures
        !precedes(keys, x as int, r[m] as int),
{
    if precedes(keys, x as int, r[m] as int) {
        assert(x < keys.len());
        if r.contains(x) {
            let p = choose|p: int| 0 <= p < r.len() && r[p] == x;
            if p < m {
                assert(s[p] == x);
                assert(precedes(keys, s[p] as int, s[m] as int));
            } else {
                assert(p > m);
                assert(precedes(keys, r[m] as int, r[p] as int));
            }
        } else {
            assert(precedes(keys, r[m] as int, x as int));
        }
    }
}

/// Inserting index `n` at position `p` keeps the order when `p` lies
/// after the kept indices with keys at least as large and before the rest.
proof fn lemma_insert_ordered(keys: Seq<u64>, n: int, r: Seq<usize>, p: int)
    requires
        0 <= n < keys.len(),
        n < usize::MAX,
        forall|a: int| 0 <= a < r.len() ==> #[trigger] r[a] < n,
        forall|a: int, b: int| 0 <= a < b < r.len() ==> precedes(keys, #[trigger] r[a] as int, #[trigger] r[b] as int),
        0 <= p <= r.len(),
        forall|a: int| 0 <= a < p ==> keys[#[trigger] r[a] as int] >= keys[n],
        p < r.len() ==> keys[r[p] as int] < keys[n],
    ensures
        forall|a: int, b: int| 0 <= a < b < r.insert(p, n as usize).len() ==> precedes(keys, #[trigger] r.insert(p, n as usize)[a] as int, #[trigger] r.insert(p, n as usize)[b] as int),
        forall|a: int| 0 <= a < r.insert(p, n as usize).len() ==> #[trigger] r.insert(p, n as usize)[a] < n + 1,
{
    let r2 = r.insert(p, n as usize);
    assert forall|a: int| p <= a < r.len() implies keys[#[trigger] r[a] as int] < keys[n] by {
        if a > p {
            assert(precedes(keys, r[p] as int, r[a] as int));
        }
    }
    assert forall|a: int, b: int| 0 <= a < b < r2.len() implies precedes(keys, #[trigger] r2[a] as int, #[trigger] r2[b] as int) by {
        if a < p && b < p {
        } else if a < p && b == p {
        } else if a < p {
            assert(precedes(keys, r[a] as int, r[b - 1] as int));
        } else if a == p {
            assert(keys[r[b - 1] as int] < keys[n]);
        } else {
            assert(precedes(keys, r[a - 1] as int, r[b - 1] as int));
        }
    }
    assert forall|a: int| 0 <= a < r2.len() implies #[trigger] r2[a] < n + 1 by {
        if a < p {
        } else if a > p {
            assert(r[a - 1] < n);
        }
    }
}

/// Adding index `n` while fewer than `k` are kept (so all of `0..n` are).
proof fn lemma_add_when_short(keys: Seq<u64>, n: int, k: int, r: Seq<usize>, p: int)
    requires
        0 <= n < keys.len(),
        n < usize::MAX,
        is_top_among(keys, n, k, r),
        r.len() < k,
        forall|j: usize| (j as int) < n ==> #[trigger] r.contains(j),
        0 <= p <= r.len(),
        forall|a: int| 0 <= a < p ==> keys[#[trigger] r[a] as int] >= keys[n],
        p < r.len() ==> keys[r[p] as int] < keys[n],
    ensures
        is_top_among(keys, n + 1, k, r.insert(p, n as usize)),
        forall|j: usize| (j as int) < n + 1 ==> #[trigger] r.insert(p, n as usize).contains(j),
{
    let r2 = r.insert(p, n as usize);
    lemma_insert_ordered(keys, n, r, p);
    assert forall|j: usize| (j as int) < n + 1 implies #[trigger] r2.contains(j) by {
        if j == n {
            assert(r2[p] == n as usize);
        } else {
            assert(r.contains(j));
            let q = choose|q: int| 0 <= q < r.len() && r[q] == j;
            if q < p {
                assert(r2[q] == j);
            } else {
                assert(r2[q + 1] == j);
            }
        }
    }
}

/// Adding index `n` in place of the last kept index, whose key is smaller.
proof fn lemma_add_replacing_last(keys: Seq<u64>, n: int, k: int, r: Seq<usize>, p: int)
    requires
        0 <= n < keys.len(),
        n < usize::MAX,
        is_top_among(keys, n, k, r),
        r.len() == k,
        k > 0,
        keys[n] > keys[r[k - 1] as int],
        0 <= p <= r.len() - 1,
        forall|a: int| 0 <= a < p ==> keys[#[trigger] r.drop_last()[a] as int] >= keys[n],
        p < r.len() - 1 ==> keys[r.drop_last()[p] as int] < keys[n],
    ensures
        is_top_among(keys, n + 1, k, r.drop_last().insert(p, n as usize)),
{
    let r1 = r.drop_last();
    let x = r[k - 1];
    let r2 = r1.insert(p, n as usize);
    assert forall|a: int, b: int| 0 <= a < b < r1.len() implies precedes(keys, #[trigger] r1[a] as int, #[trigger] r1[b] as int) by {
        assert(r1[a] == r[a] && r1[b] == r[b]);
    }
    lemma_insert_ordered(keys, n, r1, p);
    assert forall|j: int, a: int| 0 <= j < n + 1 && !r2.contains(j as usize) && 0 <= a < r2.len() implies #[trigger] precedes(keys, r2[a] as int, j) by {
        assert(j != n) by {
            assert(r2[p] == n as usize);
        }
        let in_r1 = r1.contains(j as usize);
        if in_r1 {
            let q = choose|q: int| 0 <= q < r1.len() && r1[q] == j as usize;
            if q < p {
                assert(r2[q] == j as usize);
            } else {
                assert(r2[q + 1] == j as usize);
            }
        }
        if j == x as int {
            if a == p {
            } else if a < p {
                assert(precedes(keys, r[a] as int, r[k - 1] as int));
            } else {
                assert(precedes(keys, r[a - 1] as int, r[k - 1] as int));
            }
        } else {
            assert(!r.contains(j as usize)) by {
                if r.contains(j as usize) {
                    let q = choose|q: int| 0 <= q < r.len() && r[q] == j as usize;
                    assert(q < k - 1);
                    assert(r1[q] == j as usize);
                }
            }
            assert(precedes(keys, x as int, j));
            if a == p {
            } else if a < p {
                assert(precedes(keys, r[a] as int, j));
            } else {
                assert(precedes(keys, r[a - 1] as int, j));
            }
        }
    }
}

/// Skipping index `n`, whose key is no larger than the last kept one.
proof fn lemma_skip(keys: Seq<u64>, n: int, k: int, r: Seq<usize>)
    requires
        0 <= n < keys.len(),
        is_top_among(keys, n, k, r),
        r.len() >= k,
        k == 0 || keys[n] <= keys[r[r.len() - 1] as int],
    ensures
        is_top_among(keys, n + 1, k, r),
{
    assert forall|j: int, a: int| 0 <= j < n + 1 && !r.contains(j as usize) && 0 <= a < r.len() implies #[trigger] precedes(keys, r[a] as int, j) by {
        if j == n {
            if a < r.len() - 1 {
                assert(precedes(keys, r[a] as int, r[r.len() - 1] as int));
            }
        }
    }
}

/// The first position from `p` on in `r` whose key is below `x` (or the
/// end of `r`).
pub open spec fn insert_pos(keys: Seq<u64>, r: Seq<usize>, x: u64, p: int) -> int
    decreases r.len() - p,
{
    if 0 <= p < r.len() && keys[r[p] as int] >= x {
        insert_pos(keys, r, x, p + 1)
    } else {
        p
    }
}

proof fn lemma_insert_pos(keys: Seq<u64>, r: Seq<usize>, x: u64, p: int)
    requires
        0 <= p <= r.len(),
    ensures
        p <= insert_pos(keys, r, x, p) <= r.len(),
        forall|a: int| p <= a < insert_pos(keys, r, x, p) ==> keys[#[trigger] r[a] as int] >= x,
        insert_pos(keys, r, x, p) < r.len() ==> keys[r[insert_pos(keys, r, x, p)] as int] < x,
    decreases r.len() - p,
{
    if p < r.len() && keys[r[p] as int] >= x {
        lemma_insert_pos(keys, r, x, p + 1);
    }
}

/// A selection of the first `k` among the indices `0..n`, built as
/// `top_indices` builds it.
proof fn lemma_top_among_exists(keys: Seq<u64>, n: int, k: int) -> (r: Seq<usize>)
    requires
        0 <= n <= keys.len(),
        keys.len() < usize::MAX,
        k >= 0,
    ensures
        is_top_among(keys, n, k, r),
        r.len() < k || n <= k ==> forall|j: usize| (j as int) < n ==> #[trigger] r.contains(j),
    decreases n,
{
    if n == 0 {
        Seq::empty()
    } else {
        let i = n - 1;
        let r0 = lemma_top_among_exists(keys, i, k);
        let x = keys[i];
        if r0.len() < k {
            let p = insert_pos(keys, r0, x, 0);
            lemma_insert_pos(keys, r0, x, 0);
            lemma_add_when_short(keys, i, k, r0, p);
            r0.insert(p, i as usize)
        } else if k > 0 && x > keys[r0[r0.len() - 1] as int] {
            let r1 = r0.drop_last();
            let p = insert_pos(keys, r1, x, 0);
            lemma_insert_pos(keys, r1, x, 0);
            lemma_add_replacing_last(keys, i, k, r0, p);
            r1.insert(p, i as usize)
        } else {
            lemma_skip(keys, i, k, r0);
            r0
        }
    }
}

/// The selection exists for every list of keys that a `Vec` can hold, so
/// `top_selection` is it: of length `min(k, keys.len())`, made of distinct
/// indices of `keys`, largest key first (equal keys in index order), and
/// no index left out has a larger key than one taken.
pub proof fn lemma_top_selection_is_top(keys: Seq<u64>, k: int)
    requires
        keys.len() < usize::MAX,
        k >= 0,
    ensures
        is_top_selection(keys, k, top_selection(keys, k)),
        top_selection(keys, k).len() == (if k < keys.len() { k } else { keys.len() as int }),
        forall|a: int| 0 <= a < top_selection(keys, k).len() ==> #[trigger] top_selection(keys, k)[a] < keys.len(),
        forall|a: int, b: int|
            0 <= a < b < top_selection(keys, k).len() ==> keys[#[trigger] top_selection(keys, k)[a] as int]
                >= keys[#[trigger] top_selection(keys, k)[b] as int] && top_selection(keys, k)[a] != top_selection(keys, k)[b],
        forall|j: int, a: int|
            0 <= j < keys.len() && !top_selection(keys, k).contains(j as usize) && 0 <= a < top_selection(keys, k).len()
                ==> #[trigger] keys[j] <= keys[#[trigger] top_selection(keys, k)[a] as int],
        top_selection(keys, k).len() < k || keys.len() <= k ==> forall|j: usize|
            (j as int) < keys.len() ==> #[trigger] top_selection(keys, k).contains(j),
{
    let r = lemma_top_among_exists(keys, keys.len() as int, k);
    assert(is_top_selection(keys, k, r));
    lemma_top_selection_unique(keys, k, r, top_selection(keys, k));
    let t = top_selection(keys, k);
    assert forall|a: int, b: int| 0 <= a < b < t.len() implies keys[#[trigger] t[a] as int] >= keys[#[trigger] t[b] as int] && t[a] != t[b] by {
        assert(precedes(keys, t[a] as int, t[b] as int));
    }
    assert forall|j: int, a: int| 0 <= j < keys.len() && !t.contains(j as usize) && 0 <= a < t.len() implies #[trigger] keys[j] <= keys[#[trigger] t[a] as int] by {
        assert(precedes(keys, t[a] as int, j));
    }
}

/// The indices of the `k` largest keys, largest first, equal keys in index
/// order.
pub fn top_indices(keys: &Vec<u64>, k: usize) -> (r: Vec<usize>)
    ensures
        is_top_selection(keys@, k as int, r@),
        r@ == top_selection(keys@, k as int),
{
    let n = keys.len();
    let mut r: Vec<usize> = Vec::new();
    let mut i: usize = 0;
    while i < n
        invariant
            n == keys@.len(),
            i <= n,
            is_top_among(keys@, i as int, k as int, r@),
            r@.len() < k ==> forall|j: usize| j < i ==> #[trigger] r@.contains(j),
        decreases n - i,
    {
        let ki = keys[i];
        let full = r.len() >= k;
        let ghost r0 = r@;
        if !full || (k > 0 && ki > keys[r[r.len() - 1]]) {
            if full {
                r.pop();
                assert(r@ == r0.drop_last());
            }
            let mut p: usize = 0;
            while p < r.len() && keys[r[p]] >= ki
                invariant
                    p <= r@.len(),
                    n == keys@.len(),
                    i < n,
                    forall|a: int| 0 <= a < r@.len() ==> #[trigger] r@[a] < i,
                    forall|a: int| 0 <= a < p ==> keys@[#[trigger] r@[a] as int] >= ki,
                decreases r.len() - p,
            {
                p += 1;
            }
            proof {
                if full {
                    lemma_add_replacing_last(keys@, i as int, k as int, r0, p as int);
                } else {
                    lemma_add_when_short(keys@, i as int, k as int, r0, p as int);
                }
            }
            r.insert(p, i);
        } else {
            proof {
                lemma_skip(keys@, i as int, k as int, r@);
            }
        }
        i += 1;
    }
    proof {
        lemma_top_selection_unique(keys@, k as int, r@, top_selection(keys@, k as int));
    }
    r
}

} // verus!
