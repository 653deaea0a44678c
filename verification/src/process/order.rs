//! The chronological order of each card's transactions.
//!
//! Passes that follow a card through time visit the transactions sorted by card, then by
//! timestamp, then by position in the list (a stable sort by timestamp within each card).

use vstd::prelude::*;

use crate::data::timestamp::rank;
use crate::data::transaction::{mirrors, same_payment, Transaction};

verus! {

/// Whether transaction `a` comes before transaction `b`: by card, then time, then position.
pub open spec fn key_lt(items: Seq<Transaction>, a: int, b: int) -> bool {
    let ca = items[a].card_id.0;
    let cb = items[b].card_id.0;
    let ta = rank(items[a].timestamp);
    let tb = rank(items[b].timestamp);
    ||| ca < cb
    ||| ca == cb && ta < tb
    ||| ca == cb && ta == tb && a < b
}

/// `o` lists every position of `items` once, in card-then-time order.
pub open spec fn is_chrono_order(items: Seq<Transaction>, o: Seq<usize>) -> bool {
    &&& o.len() == items.len()
    &&& forall|k: int| 0 <= k < o.len() ==> #[trigger] o[k] < items.len()
    &&& forall|j: int, k: int| 0 <= j < k < o.len() ==> key_lt(items, #[trigger] o[j] as int, #[trigger] o[k] as int)
    &&& forall|i: int| 0 <= i < items.len() ==> #[trigger] o.contains(i as usize)
}

/// The card-then-time order of `items` (unique, see [`lemma_chrono_order_unique`]).
pub open spec fn chrono_order(items: Seq<Transaction>) -> Seq<usize> {
    choose|o: Seq<usize>| is_chrono_order(items, o)
}

proof fn lemma_key_lt_asymmetric(items: Seq<Transaction>, a: int, b: int)
    ensures
        !(key_lt(items, a, b) && key_lt(items, b, a)),
        key_lt(items, a, b) ==> a != b,
{
}

/// Two card-then-time orders of the same transactions are the same sequence.
pub proof fn lemma_chrono_order_unique(items: Seq<Transaction>, o1: Seq<usize>, o2: Seq<usize>)
    requires
        is_chrono_order(items, o1),
        is_chrono_order(items, o2),
    ensures
        o1 == o2,
{
    assert forall|k: int| 0 <= k < o1.len() implies o1[k] == o2[k] by {
        lemma_chrono_order_agree(items, o1, o2, k);
    }
    assert(o1 =~= o2);
}

/// The order reads only cards and times: two lists with the same payments have the same
/// card-then-time order.
pub proof fn lemma_chrono_order_congruent(x: Seq<Transaction>, x2: Seq<Transaction>)
    requires
        mirrors(x2, x),
        is_chrono_order(x, chrono_order(x)),
    ensures
        is_chrono_order(x2, chrono_order(x2)),
        chrono_order(x2) == chrono_order(x),
{
    let o = chrono_order(x);
    assert forall|a: int, b: int| 0 <= a < x.len() && 0 <= b < x.len() implies key_lt(x2, a, b) == key_lt(x, a, b) by {
        assert(same_payment(x2[a], x[a]));
        assert(same_payment(x2[b], x[b]));
    }
    assert forall|j: int, k: int| 0 <= j < k < o.len() implies key_lt(x2, #[trigger] o[j] as int, #[trigger] o[k] as int) by {
        assert(key_lt(x, o[j] as int, o[k] as int));
    }
    assert(is_chrono_order(x2, o));
    lemma_chrono_order_unique(x2, o, chrono_order(x2));
}

proof fn lemma_chrono_order_agree(items: Seq<Transaction>, o1: Seq<usize>, o2: Seq<usize>, k: int)
    requires
        is_chrono_order(items, o1),
        is_chrono_order(items, o2),
        0 <= k < o1.len(),
    ensures
        o1[k] == o2[k],
    decreases k,
{
    if o1[k] != o2[k] {
        let a = o1[k];
        let b = o2[k];
        assert(o1[k] < items.len());
        assert(o2[k] < items.len());
        assert(o2.contains((a as int) as usize));
        let m = choose|m: int| 0 <= m < o2.len() && o2[m] == a;
        assert(o1.contains((b as int) as usize));
        let m1 = choose|m1: int| 0 <= m1 < o1.len() && o1[m1] == b;
        if m < k {
            lemma_chrono_order_agree(items, o1, o2, m);
            assert(o1[m] == a);
            assert(key_lt(items, o1[m] as int, o1[k] as int));
        } else if m1 < k {
            lemma_chrono_order_agree(items, o1, o2, m1);
            assert(o2[m1] == b);
            assert(key_lt(items, o2[m1] as int, o2[k] as int));
        } else {
            // a comes after b in o2 and b after a in o1
            assert(m > k);
            assert(m1 > k);
            assert(key_lt(items, o2[k] as int, o2[m] as int));
            assert(key_lt(items, o1[k] as int, o1[m1] as int));
            lemma_key_lt_asymmetric(items, a as int, b as int);
        }
    }
}

/// Computes the card-then-time order of the transactions.
pub fn chrono_order_of(items: &Vec<Transaction>) -> (o: Vec<usize>)
    ensures
        is_chrono_order(items@, o@),
        o@ == chrono_order(items@),
{
    let n = items.len();
    let mut o: Vec<usize> = Vec::new();
    let mut i: usize = 0;
    while i < n
        invariant
            n == items@.len(),
            i <= n,
            o@.len() == i,
            forall|k: int| 0 <= k < o@.len() ==> #[trigger] o@[k] < i,
            forall|j: int, k: int|
                0 <= j < k < o@.len() ==> key_lt(items@, #[trigger] o@[j] as int, #[trigger] o@[k] as int),
            forall|x: int| 0 <= x < i ==> #[trigger] o@.contains(x as usize),
        decreases n - i,
    {
        // every listed transaction before position p is smaller than transaction i
        let mut p: usize = 0;
        while p < o.len() && before(items, o[p], i)
            invariant
                n == items@.len(),
                i < n,
                p <= o@.len(),
                forall|k: int| 0 <= k < o@.len() ==> #[trigger] o@[k] < i,
                forall|k: int| 0 <= k < p ==> key_lt(items@, #[trigger] o@[k] as int, i as int),
            decreases o@.len() - p,
        {
            p += 1;
        }
        proof {
            if p < o@.len() {
                assert(!key_lt(items@, o@[p as int] as int, i as int));
            }
            assert forall|k: int| p <= k < o@.len() implies key_lt(items@, i as int, #[trigger] o@[k] as int) by {
                if k > p {
                    assert(key_lt(items@, o@[p as int] as int, o@[k] as int));
                }
                assert(o@[k] < i);
            }
        }
        let ghost old_o = o@;
        o.insert(p, i);
        proof {
            assert(o@ == old_o.insert(p as int, i));
            assert forall|j: int, k: int| 0 <= j < k < o@.len() implies key_lt(
                items@,
                #[trigger] o@[j] as int,
                #[trigger] o@[k] as int,
            ) by {
                if j < p && k < p {
                    assert(o@[j] == old_o[j] && o@[k] == old_o[k]);
                } else if j < p && k == p {
                } else if j < p {
                    assert(o@[j] == old_o[j] && o@[k] == old_o[k - 1]);
                } else if j == p {
                    assert(o@[k] == old_o[k - 1]);
                } else {
                    assert(o@[j] == old_o[j - 1] && o@[k] == old_o[k - 1]);
                }
            }
            assert forall|x: int| 0 <= x < i + 1 implies #[trigger] o@.contains(x as usize) by {
                if x == i {
                    assert(o@[p as int] == i);
                } else {
                    assert(old_o.contains(x as usize));
                    let m = choose|m: int| 0 <= m < old_o.len() && old_o[m] == x as usize;
                    if m < p {
                        assert(o@[m] == x as usize);
                    } else {
                        assert(o@[m + 1] == x as usize);
                    }
                }
            }
            assert forall|k: int| 0 <= k < o@.len() implies #[trigger] o@[k] < i + 1 by {
                if k < p {
                    assert(o@[k] == old_o[k]);
                } else if k > p {
                    assert(o@[k] == old_o[k - 1]);
                }
            }
        }
        i += 1;
    }
    proof {
        assert(is_chrono_order(items@, o@));
        assert(exists|x: Seq<usize>| is_chrono_order(items@, x));
        lemma_chrono_order_unique(items@, o@, chrono_order(items@));
    }
    o
}

/// Whether transaction `a` comes before transaction `b`.
fn before(items: &Vec<Transaction>, a: usize, b: usize) -> (r: bool)
    requires
        a < items@.len(),
        b < items@.len(),
    ensures
        r == key_lt(items@, a as int, b as int),
{
    let ca = items[a].card_id.0;
    let cb = items[b].card_id.0;
    let ta = items[a].timestamp.rank_value();
    let tb = items[b].timestamp.rank_value();
    ca < cb || (ca == cb && ta < tb) || (ca == cb && ta == tb && a < b)
}

} // verus!

verus! {

/// Distinct positions of the order hold distinct transactions.
pub proof fn lemma_chrono_order_distinct(items: Seq<Transaction>, o: Seq<usize>, j: int, k: int)
    requires
        is_chrono_order(items, o),
        0 <= j < o.len(),
        0 <= k < o.len(),
        j != k,
    ensures
        o[j] != o[k],
{
    if j < k {
        assert(key_lt(items, o[j] as int, o[k] as int));
    } else {
        assert(key_lt(items, o[k] as int, o[j] as int));
    }
}

/// Consecutive transactions of one card in the order are in time order.
pub proof fn lemma_chrono_order_time(items: Seq<Transaction>, o: Seq<usize>, j: int, k: int)
    requires
        is_chrono_order(items, o),
        0 <= j < k < o.len(),
        items[o[j] as int].card_id == items[o[k] as int].card_id,
    ensures
        rank(items[o[j] as int].timestamp) <= rank(items[o[k] as int].timestamp),
{
    assert(key_lt(items, o[j] as int, o[k] as int));
}

} // verus!
