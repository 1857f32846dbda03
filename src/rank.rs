//! Order statistics over sequences of latencies.
use vstd::prelude::*;

verus! {

/// How many entries of `s` are at most `v`.
pub open spec fn count_at_most(s: Seq<u64>, v: int) -> nat
    decreases s.len(),
{
    if s.len() == 0 {
        0
    } else {
        count_at_most(s.drop_last(), v) + if s.last() <= v {
            1nat
        } else {
            0nat
        }
    }
}

/// `v` is the `k`-th smallest entry of `s` (counting from 1): fewer than `k`
/// entries lie below it, and at least `k` entries are at most it.
pub open spec fn is_kth_smallest(s: Seq<u64>, k: nat, v: int) -> bool {
    count_at_most(s, v - 1) < k <= count_at_most(s, v)
}

/// The `k`-th smallest entry of `s`; meaningful when `1 <= k <= s.len()`.
pub open spec fn kth_smallest(s: Seq<u64>, k: nat) -> u64 {
    choose|v: u64| is_kth_smallest(s, k, v as int)
}

/// Ascending order.
pub open spec fn sorted(s: Seq<u64>) -> bool {
    forall|i: int, j: int| 0 <= i <= j < s.len() ==> s[i] <= s[j]
}

pub proof fn lemma_count_concat(a: Seq<u64>, b: Seq<u64>, v: int)
    ensures
        count_at_most(a + b, v) == count_at_most(a, v) + count_at_most(b, v),
    decreases b.len(),
{
    if b.len() == 0 {
        assert(a + b =~= a);
    } else {
        assert((a + b).drop_last() =~= a + b.drop_last());
        lemma_count_concat(a, b.drop_last(), v);
    }
}

pub proof fn lemma_count_bounded(s: Seq<u64>, v: int)
    ensures
        count_at_most(s, v) <= s.len(),
    decreases s.len(),
{
    if s.len() > 0 {
        lemma_count_bounded(s.drop_last(), v);
    }
}

pub proof fn lemma_count_all(s: Seq<u64>, v: int)
    requires
        forall|i: int| 0 <= i < s.len() ==> s[i] <= v,
    ensures
        count_at_most(s, v) == s.len(),
    decreases s.len(),
{
    if s.len() > 0 {
        lemma_count_all(s.drop_last(), v);
    }
}

pub proof fn lemma_count_none(s: Seq<u64>, v: int)
    requires
        forall|i: int| 0 <= i < s.len() ==> s[i] > v,
    ensures
        count_at_most(s, v) == 0,
    decreases s.len(),
{
    if s.len() > 0 {
        lemma_count_none(s.drop_last(), v);
    }
}

/// Raising the threshold never lowers the count.
pub proof fn lemma_count_monotone(s: Seq<u64>, v: int, w: int)
    requires
        v <= w,
    ensures
        count_at_most(s, v) <= count_at_most(s, w),
    decreases s.len(),
{
    if s.len() > 0 {
        lemma_count_monotone(s.drop_last(), v, w);
    }
}

/// Lowering entries one by one never lowers the count.
pub proof fn lemma_count_pointwise(lo: Seq<u64>, hi: Seq<u64>, v: int)
    requires
        lo.len() == hi.len(),
        forall|i: int| 0 <= i < lo.len() ==> lo[i] <= hi[i],
    ensures
        count_at_most(hi, v) <= count_at_most(lo, v),
    decreases lo.len(),
{
    if lo.len() > 0 {
        lemma_count_pointwise(lo.drop_last(), hi.drop_last(), v);
    }
}

pub proof fn lemma_count_insert(s: Seq<u64>, p: int, x: u64, v: int)
    requires
        0 <= p <= s.len(),
    ensures
        count_at_most(s.insert(p, x), v) == count_at_most(s, v) + if x <= v {
            1nat
        } else {
            0nat
        },
{
    let a = s.subrange(0, p);
    let b = s.subrange(p, s.len() as int);
    assert(s =~= a + b);
    assert(s.insert(p, x) =~= (a + seq![x]) + b);
    lemma_count_concat(a, b, v);
    lemma_count_concat(a + seq![x], b, v);
    lemma_count_concat(a, seq![x], v);
    assert(seq![x].drop_last() =~= Seq::<u64>::empty());
    assert(count_at_most(Seq::<u64>::empty(), v) == 0);
    assert(count_at_most(seq![x], v) == if x <= v {
        1nat
    } else {
        0nat
    });
}

/// In a sorted sequence the entry at index `i` is its `i + 1`-th smallest.
pub proof fn lemma_sorted_rank(s: Seq<u64>, i: int)
    requires
        sorted(s),
        0 <= i < s.len(),
    ensures
        is_kth_smallest(s, (i + 1) as nat, s[i] as int),
{
    let v = s[i] as int;
    let below = s.subrange(0, i);
    let rest = s.subrange(i, s.len() as int);
    assert(s =~= below + rest);
    lemma_count_concat(below, rest, v - 1);
    lemma_count_bounded(below, v - 1);
    lemma_count_none(rest, v - 1);
    let upto = s.subrange(0, i + 1);
    let after = s.subrange(i + 1, s.len() as int);
    assert(s =~= upto + after);
    lemma_count_concat(upto, after, v);
    lemma_count_all(upto, v);
}

/// At most one value is the `k`-th smallest.
pub proof fn lemma_kth_unique(s: Seq<u64>, k: nat, v: int, w: int)
    requires
        is_kth_smallest(s, k, v),
        is_kth_smallest(s, k, w),
    ensures
        v == w,
{
    if v < w {
        lemma_count_monotone(s, v, w - 1);
    } else if w < v {
        lemma_count_monotone(s, w, v - 1);
    }
}

proof fn lemma_kth_exists_from(s: Seq<u64>, k: nat, lo: int)
    requires
        0 <= lo <= u64::MAX,
        count_at_most(s, lo - 1) < k <= s.len(),
    ensures
        exists|v: u64| is_kth_smallest(s, k, v as int),
    decreases u64::MAX - lo,
{
    if count_at_most(s, lo) >= k {
        assert(is_kth_smallest(s, k, lo as u64 as int));
    } else {
        if lo == u64::MAX {
            lemma_count_all(s, lo);
        }
        lemma_kth_exists_from(s, k, lo + 1);
    }
}

/// For `1 <= k <= s.len()`, `kth_smallest` is the one value that is the
/// `k`-th smallest entry of `s`.
pub proof fn lemma_kth_smallest(s: Seq<u64>, k: nat)
    requires
        1 <= k <= s.len(),
    ensures
        is_kth_smallest(s, k, kth_smallest(s, k) as int),
        forall|v: int| #[trigger] is_kth_smallest(s, k, v) ==> v == kth_smallest(s, k),
{
    lemma_count_none(s, -1);
    lemma_kth_exists_from(s, k, 0);
    let m = kth_smallest(s, k);
    assert forall|v: int| #[trigger] is_kth_smallest(s, k, v) implies v == m by {
        lemma_kth_unique(s, k, v, m as int);
    }
}

/// Lowering entries one by one never raises the `k`-th smallest.
pub proof fn lemma_kth_monotone(lo: Seq<u64>, hi: Seq<u64>, k: nat)
    requires
        lo.len() == hi.len(),
        forall|i: int| 0 <= i < lo.len() ==> lo[i] <= hi[i],
        1 <= k <= lo.len(),
    ensures
        kth_smallest(lo, k) <= kth_smallest(hi, k),
{
    lemma_kth_smallest(lo, k);
    lemma_kth_smallest(hi, k);
    let a = kth_smallest(lo, k) as int;
    let b = kth_smallest(hi, k) as int;
    lemma_count_pointwise(lo, hi, b);
    if a > b {
        lemma_count_monotone(lo, b, a - 1);
    }
}

/// Returns the `k`-th smallest entry of `values` (counting from 1).
pub fn kth_smallest_of(values: &Vec<u64>, k: usize) -> (r: u64)
    requires
        1 <= k <= values.len(),
    ensures
        r == kth_smallest(values@, k as nat),
{
    let mut ordered: Vec<u64> = Vec::new();
    let mut j: usize = 0;
    while j < values.len()
        invariant
            j <= values.len(),
            ordered.len() == j,
            sorted(ordered@),
            forall|v: int| #[trigger]
                count_at_most(ordered@, v) == count_at_most(values@.subrange(0, j as int), v),
        decreases values.len() - j,
    {
        let x = values[j];
        let mut p: usize = 0;
        while p < ordered.len() && ordered[p] <= x
            invariant
                p <= ordered.len(),
                forall|i: int| 0 <= i < p ==> ordered@[i] <= x,
            decreases ordered.len() - p,
        {
            p = p + 1;
        }
        let ghost before = ordered@;
        ordered.insert(p, x);
        proof {
            assert forall|v: int| #[trigger]
                count_at_most(ordered@, v) == count_at_most(values@.subrange(0, j + 1), v) by {
                lemma_count_insert(before, p as int, x, v);
                assert(values@.subrange(0, j + 1).drop_last() =~= values@.subrange(0, j as int));
            }
        }
        j = j + 1;
    }
    let r = ordered[k - 1];
    proof {
        assert(values@.subrange(0, values.len() as int) =~= values@);
        lemma_sorted_rank(ordered@, k - 1);
        assert(count_at_most(ordered@, r - 1) == count_at_most(values@, r - 1));
        assert(count_at_most(ordered@, r as int) == count_at_most(values@, r as int));
        lemma_kth_smallest(values@, k as nat);
        assert(is_kth_smallest(values@, k as nat, r as int));
    }
    r
}

} // verus!
