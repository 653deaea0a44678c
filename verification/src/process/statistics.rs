//! Order statistics on amounts: sorting and medians.
//!
//! Amounts are whole numbers here (cents or hundredths of a cent); a median is kept doubled,
//! so that the mean of the two middle values of an even count stays a whole number.

use vstd::prelude::*;
use vstd::relations::{sorted_by, total_ordering};
use vstd::seq_lib::{lemma_sorted_unique, to_multiset_build, to_multiset_insert};

verus! {

/// The ascending order on amounts.
pub open spec fn ascending() -> spec_fn(u64, u64) -> bool {
    |x: u64, y: u64| x <= y
}

/// The values of `s` in ascending order.
pub open spec fn sorted_values(s: Seq<u64>) -> Seq<u64> {
    s.sort_by(ascending())
}

/// Twice the median of an ascending sequence (zero when it is empty).
pub open spec fn doubled_median_of_sorted(s: Seq<u64>) -> int {
    if s.len() == 0 {
        0
    } else if s.len() % 2 == 1 {
        2 * s[(s.len() / 2) as int]
    } else {
        s[(s.len() / 2) as int - 1] + s[(s.len() / 2) as int]
    }
}

/// Twice the median of the values of `s`.
pub open spec fn doubled_median(s: Seq<u64>) -> int {
    doubled_median_of_sorted(sorted_values(s))
}

pub proof fn lemma_ascending_total()
    ensures
        total_ordering(ascending()),
{
}

/// Sorting keeps the values, and puts them in ascending order.
pub proof fn lemma_sorted_values(s: Seq<u64>)
    ensures
        sorted_values(s).to_multiset() == s.to_multiset(),
        sorted_by(sorted_values(s), ascending()),
        sorted_values(s).len() == s.len(),
        forall|k: int| 0 <= k < s.len() ==> s.contains(#[trigger] sorted_values(s)[k]),
{
    broadcast use vstd::seq_lib::group_to_multiset_ensures;

    lemma_ascending_total();
    s.lemma_sort_by_ensures(ascending());
    assert(sorted_values(s).to_multiset().len() == sorted_values(s).len());
    assert(s.to_multiset().len() == s.len());
    assert forall|k: int| 0 <= k < s.len() implies s.contains(#[trigger] sorted_values(s)[k]) by {
        let x = sorted_values(s)[k];
        assert(sorted_values(s).contains(x));
    }
}

/// The values of `v` in ascending order.
pub fn sort_values(v: &Vec<u64>) -> (r: Vec<u64>)
    ensures
        r@ == sorted_values(v@),
{
    let mut r: Vec<u64> = Vec::new();
    let n = v.len();
    let mut i: usize = 0;
    assert(v@.take(0) =~= r@);
    while i < n
        invariant
            n == v@.len(),
            i <= n,
            forall|a: int, b: int| 0 <= a < b < r@.len() ==> r@[a] <= r@[b],
            r@.to_multiset() == v@.take(i as int).to_multiset(),
        decreases n - i,
    {
        let x = v[i];
        let mut j: usize = 0;
        while j < r.len() && r[j] <= x
            invariant
                j <= r@.len(),
                forall|k: int| 0 <= k < j ==> r@[k] <= x,
            decreases r@.len() - j,
        {
            j += 1;
        }
        let ghost before = r@;
        proof {
            if j < before.len() {
                assert forall|k: int| j <= k < before.len() implies x < before[k] by {
                    assert(before[j as int] <= before[k] || k == j);
                }
            }
        }
        r.insert(j, x);
        proof {
            assert forall|a: int, b: int| 0 <= a < b < r@.len() implies r@[a] <= r@[b] by {
                if b < j {
                    assert(before[a] <= before[b]);
                } else if a > j {
                    assert(before[a - 1] <= before[b - 1]);
                } else if a < j && b > j {
                    assert(before[a] <= x);
                    assert(x < before[b - 1]);
                }
            }
            assert(v@.take(i + 1) =~= v@.take(i as int).push(x));
            to_multiset_insert(before, j as int, x);
            to_multiset_build(v@.take(i as int), x);
        }
        i += 1;
    }
    proof {
        assert(v@.take(n as int) =~= v@);
        assert forall|a: int, b: int| 0 <= a < b < r@.len() implies #[trigger] ascending()(r@[a], r@[b]) by {
            assert(r@[a] <= r@[b]);
        }
        lemma_sorted_values(v@);
        lemma_ascending_total();
        lemma_sorted_unique(r@, sorted_values(v@), ascending());
    }
    r
}

/// Twice the median of an ascending list of values below `2^62`.
pub fn doubled_median_of(sorted: &Vec<u64>) -> (r: u64)
    requires
        forall|k: int| 0 <= k < sorted@.len() ==> #[trigger] sorted@[k] < 0x4000_0000_0000_0000,
    ensures
        r == doubled_median_of_sorted(sorted@),
{
    let n = sorted.len();
    if n == 0 {
        0
    } else if n % 2 == 1 {
        2 * sorted[n / 2]
    } else {
        sorted[n / 2 - 1] + sorted[n / 2]
    }
}

/// The absolute difference of two values.
pub open spec fn abs_diff(a: u64, b: u64) -> u64 {
    if a >= b {
        (a - b) as u64
    } else {
        (b - a) as u64
    }
}

/// `r` is the whole square root of `x`: the largest number whose square is at most `x`.
pub open spec fn is_root(x: nat, r: nat) -> bool {
    r * r <= x < (r + 1) * (r + 1)
}

/// The whole square root of `x`.
pub open spec fn root(x: nat) -> nat {
    choose|r: nat| is_root(x, r)
}

proof fn lemma_square_monotone(a: nat, b: nat)
    requires
        a <= b,
    ensures
        a * a <= b * b,
{
    assert(a * a <= b * b) by (nonlinear_arith)
        requires
            a <= b,
    ;
}

/// A number has one whole square root at most.
pub proof fn lemma_root_unique(x: nat, r: nat, s: nat)
    requires
        is_root(x, r),
        is_root(x, s),
    ensures
        r == s,
{
    if r < s {
        lemma_square_monotone(r + 1, s);
    } else if s < r {
        lemma_square_monotone(s + 1, r);
    }
}

/// The whole square root of `x`.
pub fn root_of(x: u128) -> (r: u128)
    ensures
        r == root(x as nat),
        is_root(x as nat, r as nat),
        r < 0x1_0000_0000_0000_0000,
{
    let mut lo: u128 = 0;
    let mut hi: u128 = 0x1_0000_0000_0000_0000;
    assert(hi * hi > x) by (nonlinear_arith)
        requires
            hi == 0x1_0000_0000_0000_0000u128,
            x < 0x1_0000_0000_0000_0000_0000_0000_0000_0000int,
    ;
    while hi - lo > 1
        invariant
            lo < hi <= 0x1_0000_0000_0000_0000,
            lo * lo <= x,
            x < hi * hi,
        decreases hi - lo,
    {
        let mid = lo + (hi - lo) / 2;
        assert(mid * mid < 0x1_0000_0000_0000_0000_0000_0000_0000_0000int) by (nonlinear_arith)
            requires
                mid < 0x1_0000_0000_0000_0000int,
        ;
        if mid * mid <= x {
            lo = mid;
        } else {
            hi = mid;
        }
    }
    proof {
        assert(hi == lo + 1);
        assert(is_root(x as nat, lo as nat));
        lemma_root_unique(x as nat, lo as nat, root(x as nat));
    }
    lo
}

} // verus!
