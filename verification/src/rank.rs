//! Stable descending ranking by integer key: the order a stable sort by
//! key, largest first, puts a list in, and a selection of its first `n`.

use vstd::prelude::*;
use vstd::relations::injective_on;
use vstd::set_lib::{lemma_int_range, lemma_map_size, lemma_subset_equality, set_int_range};

verus! {

/// Entry `j` comes before entry `i` in the stable descending order: its key
/// is larger, or equal and it came first.
pub open spec fn beats(keys: Seq<u64>, j: int, i: int) -> bool {
    keys[j] > keys[i] || (keys[j] == keys[i] && j < i)
}

/// Number of entries among the first `n` that come before entry `i`.
pub open spec fn count_beats(keys: Seq<u64>, i: int, n: int) -> nat
    decreases n,
{
    if n <= 0 {
        0
    } else {
        count_beats(keys, i, n - 1) + if beats(keys, n - 1, i) { 1nat } else { 0nat }
    }
}

/// Position of entry `i` in the stable descending order of `keys`.
pub open spec fn rank(keys: Seq<u64>, i: int) -> nat {
    count_beats(keys, i, keys.len() as int)
}

/// `idx` lists, in order, the entries at the first `min(n, keys.len())`
/// positions of the stable descending order of `keys`.
pub open spec fn holds_top(keys: Seq<u64>, n: int, idx: Seq<usize>) -> bool {
    &&& idx.len() == if n < keys.len() { n } else { keys.len() as int }
    &&& forall|k: int| 0 <= k < idx.len() ==> #[trigger] idx[k] < keys.len() && rank(keys, idx[k] as int) == k
}

/// The entry at position `k` of the stable descending order of `keys`.
pub open spec fn entry_at(keys: Seq<u64>, k: int) -> int {
    choose|i: int| 0 <= i < keys.len() && rank(keys, i) == k
}

proof fn lemma_count_le(keys: Seq<u64>, a: int, c: int, n: int)
    requires
        0 <= a < keys.len(),
        0 <= c < keys.len(),
        0 <= n <= keys.len(),
        beats(keys, a, c),
    ensures
        count_beats(keys, a, n) <= count_beats(keys, c, n),
        a < n ==> count_beats(keys, a, n) < count_beats(keys, c, n),
    decreases n,
{
    if n > 0 {
        lemma_count_le(keys, a, c, n - 1);
    }
}

proof fn lemma_count_at_most(keys: Seq<u64>, i: int, n: int)
    requires
        0 <= n,
    ensures
        count_beats(keys, i, n) <= n,
    decreases n,
{
    if n > 0 {
        lemma_count_at_most(keys, i, n - 1);
    }
}

/// Distinct entries have distinct positions in the order.
pub proof fn lemma_rank_injective(keys: Seq<u64>, i: int, j: int)
    requires
        0 <= i < keys.len(),
        0 <= j < keys.len(),
        i != j,
    ensures
        rank(keys, i) != rank(keys, j),
{
    if beats(keys, i, j) {
        lemma_count_le(keys, i, j, keys.len() as int);
    } else {
        lemma_count_le(keys, j, i, keys.len() as int);
    }
}

pub proof fn lemma_count_below_self(keys: Seq<u64>, i: int, n: int)
    requires
        0 <= i < n,
    ensures
        count_beats(keys, i, n) < n,
    decreases n,
{
    if n - 1 > i {
        lemma_count_below_self(keys, i, n - 1);
    } else {
        lemma_count_at_most(keys, i, n - 1);
    }
}

/// Every position of the order holds an entry: ranks are a bijection onto
/// `0..keys.len()`.
pub proof fn lemma_rank_onto(keys: Seq<u64>, k: int)
    requires
        0 <= k < keys.len(),
    ensures
        0 <= entry_at(keys, k) < keys.len(),
        rank(keys, entry_at(keys, k)) == k,
{
    let n = keys.len() as int;
    let dom = set_int_range(0, n);
    let f = |i: int| rank(keys, i) as int;
    lemma_int_range(0, n);
    assert(injective_on(f, dom)) by {
        assert forall|x1: int, x2: int| dom.contains(x1) && dom.contains(x2) && #[trigger] f(x1) == #[trigger] f(x2)
            implies x1 == x2 by {
            if x1 != x2 {
                lemma_rank_injective(keys, x1, x2);
            }
        }
    }
    let img = dom.map(f);
    lemma_map_size(dom, img, f);
    assert(img.subset_of(dom)) by {
        assert forall|y: int| img.contains(y) implies dom.contains(y) by {
            let x = choose|x: int| dom.contains(x) && f(x) == y;
            lemma_count_below_self(keys, x, n);
        }
    }
    lemma_subset_equality(img, dom);
    assert(img.contains(k));
    let x = choose|x: int| dom.contains(x) && f(x) == k;
    assert(0 <= x < n && rank(keys, x) == k);
}

/// Position `a` comes before position `c` in the order exactly when the
/// entry there beats the entry at `c`.
pub proof fn lemma_rank_order(keys: Seq<u64>, a: int, c: int)
    requires
        0 <= a < keys.len(),
        0 <= c < keys.len(),
        rank(keys, a) < rank(keys, c),
    ensures
        beats(keys, a, c),
{
    if !beats(keys, a, c) {
        if a == c {
        } else {
            assert(beats(keys, c, a));
            lemma_count_le(keys, c, a, keys.len() as int);
        }
    }
}

/// A selection that `holds_top` lists the entries `entry_at` names.
pub proof fn lemma_top_entries(keys: Seq<u64>, n: int, idx: Seq<usize>)
    requires
        holds_top(keys, n, idx),
    ensures
        forall|k: int| 0 <= k < idx.len() ==> #[trigger] idx[k] as int == entry_at(keys, k),
{
    assert forall|k: int| 0 <= k < idx.len() implies #[trigger] idx[k] as int == entry_at(keys, k) by {
        let w = idx[k] as int;
        assert(0 <= w < keys.len() && rank(keys, w) == k);
        let e = entry_at(keys, k);
        if e != w {
            lemma_rank_injective(keys, e, w);
        }
    }
}

/// Positions of the first `min(n, keys.len())` entries of the stable
/// descending order of `keys`: a stable sort by key, largest first,
/// truncated to `n`.
pub fn top_indices(keys: &Vec<u64>, n: usize) -> (idx: Vec<usize>)
    ensures
        holds_top(keys@, n as int, idx@),
{
    let ghost ks = keys@;
    let mut buf: Vec<usize> = Vec::new();
    let mut m: usize = 0;
    while m < keys.len()
        invariant
            ks == keys@,
            m <= ks.len(),
            buf@.len() == if n < m { n as int } else { m as int },
            forall|k: int| 0 <= k < buf@.len() ==> #[trigger] buf@[k] < m && count_beats(ks, buf@[k] as int, m as int) == k,
        decreases ks.len() - m,
    {
        let x = keys[m];
        // the buffer's keys do not increase
        proof {
            assert forall|k1: int, k2: int| 0 <= k1 < k2 < buf@.len() implies ks[#[trigger] buf@[k1] as int]
                >= ks[#[trigger] buf@[k2] as int] by {
                if beats(ks, buf@[k2] as int, buf@[k1] as int) {
                    lemma_count_le(ks, buf@[k2] as int, buf@[k1] as int, m as int);
                }
            }
        }
        let mut q: usize = 0;
        while q < buf.len() && keys[buf[q]] >= x
            invariant
                ks == keys@,
                m < ks.len(),
                x == ks[m as int],
                q <= buf@.len(),
                forall|k: int| 0 <= k < buf@.len() ==> #[trigger] buf@[k] < m,
                forall|k: int| 0 <= k < q ==> ks[#[trigger] buf@[k] as int] >= x,
            decreases buf@.len() - q,
        {
            q = q + 1;
        }
        let ghost old_buf = buf@;
        proof {
            assert forall|k: int| q <= k < old_buf.len() implies ks[#[trigger] old_buf[k] as int] < x by {
                if k > q {
                    assert(ks[old_buf[q as int] as int] >= ks[old_buf[k] as int]);
                }
            }
            // ranks among the first m + 1 entries
            assert forall|k: int| 0 <= k < old_buf.len() implies #[trigger] count_beats(
                ks,
                old_buf[k] as int,
                m + 1,
            ) == if k < q { k } else { k + 1 } by {}
            let r = count_beats(ks, m as int, m + 1);
            assert(r == count_beats(ks, m as int, m as int));
            if q > 0 {
                lemma_count_le(ks, old_buf[q - 1] as int, m as int, m + 1);
            }
            if q < old_buf.len() {
                lemma_count_le(ks, m as int, old_buf[q as int] as int, m + 1);
            }
            if q == old_buf.len() && old_buf.len() < n {
                lemma_count_at_most(ks, m as int, m as int);
            }
            if q < n {
                assert(r == q);
            }
        }
        if q < n {
            buf.insert(q, m);
            if buf.len() > n {
                buf.truncate(n);
            }
            proof {
                assert forall|k: int| 0 <= k < buf@.len() implies #[trigger] buf@[k] < m + 1 && count_beats(
                    ks,
                    buf@[k] as int,
                    m + 1,
                ) == k by {
                    if k < q {
                        assert(buf@[k] == old_buf[k]);
                    } else if k > q {
                        assert(buf@[k] == old_buf[k - 1]);
                    }
                }
            }
        }
        m = m + 1;
    }
    buf
}

} // verus!
