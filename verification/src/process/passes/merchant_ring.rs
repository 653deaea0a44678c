//! Merchant rings: one merchant taking outsized payments from several different cards.

use vstd::prelude::*;

use crate::data::transaction::{mirrors, same_payment, same_payments_and_factors, Transaction};
use crate::data::transactions::Transactions;
use crate::process::card_statistics::{
    FraudFactor, MERCHANT_RING_MIN_AMOUNT, MERCHANT_RING_MIN_DISTINCT_CARDS,
    MERCHANT_RING_MIN_OUTLIERS, MERCHANT_RING_MULTIPLIER,
};
use crate::process::statistics::{
    doubled_median, doubled_median_of, lemma_sorted_values, sort_values, sorted_values,
};

verus! {

/// The amounts (in cents) paid to the merchant named `name`, in list order.
pub open spec fn merchant_amounts(items: Seq<Transaction>, name: Seq<char>) -> Seq<u64>
    decreases items.len(),
{
    if items.len() == 0 {
        Seq::empty()
    } else {
        let rest = merchant_amounts(items.drop_last(), name);
        if items.last().merchant_name@ == name {
            rest.push(items.last().amount as u64)
        } else {
            rest
        }
    }
}

/// Transaction `i` is paid to `name`, above the minimum ring amount and more than the
/// multiplier (in tenths) times the merchant's median (given doubled as `m2`).
pub open spec fn is_ring_outlier(items: Seq<Transaction>, name: Seq<char>, m2: int, i: int) -> bool {
    &&& items[i].merchant_name@ == name
    &&& 20 * items[i].amount > MERCHANT_RING_MULTIPLIER * m2
    &&& items[i].amount > MERCHANT_RING_MIN_AMOUNT
}

/// How many of the first `upto` transactions are outliers.
pub open spec fn outlier_count(items: Seq<Transaction>, name: Seq<char>, m2: int, upto: int) -> nat
    decreases upto,
{
    if upto <= 0 {
        0
    } else {
        outlier_count(items, name, m2, upto - 1) + if is_ring_outlier(items, name, m2, upto - 1) {
            1nat
        } else {
            0nat
        }
    }
}

/// Transaction `i` is an outlier, and the first outlier of its card.
pub open spec fn first_outlier_of_card(items: Seq<Transaction>, name: Seq<char>, m2: int, i: int) -> bool {
    &&& is_ring_outlier(items, name, m2, i)
    &&& forall|j: int|
        0 <= j < i && #[trigger] is_ring_outlier(items, name, m2, j) ==> items[j].card_id
            != items[i].card_id
}

/// How many different cards made the outliers among the first `upto` transactions.
pub open spec fn outlier_card_count(items: Seq<Transaction>, name: Seq<char>, m2: int, upto: int) -> nat
    decreases upto,
{
    if upto <= 0 {
        0
    } else {
        outlier_card_count(items, name, m2, upto - 1) + if first_outlier_of_card(
            items,
            name,
            m2,
            upto - 1,
        ) {
            1nat
        } else {
            0nat
        }
    }
}

/// The ring factor of transaction `i`, when it has one: its merchant has at least the
/// minimum number of outliers, made by at least the minimum number of cards, and it is one
/// of them.
pub open spec fn ring_factor(items: Seq<Transaction>, i: int) -> Option<FraudFactor> {
    let t = items[i];
    let name = t.merchant_name@;
    let amounts = merchant_amounts(items, name);
    let m2 = doubled_median(amounts);
    let outliers = outlier_count(items, name, m2, items.len() as int);
    let cards = outlier_card_count(items, name, m2, items.len() as int);
    if amounts.len() >= MERCHANT_RING_MIN_OUTLIERS && m2 > 0 && is_ring_outlier(items, name, m2, i)
        && outliers >= MERCHANT_RING_MIN_OUTLIERS && cards >= MERCHANT_RING_MIN_DISTINCT_CARDS {
        Some(
            FraudFactor::MerchantRing {
                merchant_name: t.merchant_name,
                amount: t.amount,
                merchant_median: (m2 * 50) as u64,
                ratio: (t.amount * 2000 / m2) as u64,
                outlier_count: outliers as usize,
                distinct_card_count: cards as usize,
            },
        )
    } else {
        None
    }
}

/// What the pass does to transaction `i`: it appends the ring factor, if any.
pub open spec fn ring_effect(old_items: Seq<Transaction>, new_items: Seq<Transaction>, i: int) -> bool {
    &&& same_payment(new_items[i], old_items[i])
    &&& new_items[i].human_review_status == old_items[i].human_review_status
    &&& new_items[i].fraud_factors@ == match ring_factor(old_items, i) {
        Some(f) => old_items[i].fraud_factors@.push(f),
        None => old_items[i].fraud_factors@,
    }
}

proof fn lemma_merchant_amounts_bound(items: Seq<Transaction>, name: Seq<char>)
    ensures
        forall|k: int|
            0 <= k < merchant_amounts(items, name).len() ==> #[trigger] merchant_amounts(items, name)[k]
                <= 0xffff_ffff,
        merchant_amounts(items, name).len() <= items.len(),
    decreases items.len(),
{
    if items.len() > 0 {
        lemma_merchant_amounts_bound(items.drop_last(), name);
        let rest = merchant_amounts(items.drop_last(), name);
        let x = items.last().amount as u64;
        if items.last().merchant_name@ == name {
            assert forall|k: int| 0 <= k < rest.push(x).len() implies #[trigger] rest.push(x)[k]
                <= 0xffff_ffff by {
                if k < rest.len() {
                    assert(rest[k] <= 0xffff_ffff);
                }
            }
        }
    }
}

proof fn lemma_merchant_amounts_mirror(a: Seq<Transaction>, b: Seq<Transaction>, name: Seq<char>)
    requires
        mirrors(a, b),
    ensures
        merchant_amounts(a, name) == merchant_amounts(b, name),
    decreases a.len(),
{
    if a.len() > 0 {
        assert(same_payment(a[a.len() - 1], b[b.len() - 1]));
        lemma_merchant_amounts_mirror(a.drop_last(), b.drop_last(), name);
    }
}

proof fn lemma_outliers_mirror(a: Seq<Transaction>, b: Seq<Transaction>, name: Seq<char>, m2: int, upto: int)
    requires
        mirrors(a, b),
        upto <= a.len(),
    ensures
        outlier_count(a, name, m2, upto) == outlier_count(b, name, m2, upto),
        outlier_card_count(a, name, m2, upto) == outlier_card_count(b, name, m2, upto),
    decreases upto,
{
    if upto > 0 {
        lemma_outliers_mirror(a, b, name, m2, upto - 1);
        assert(same_payment(a[upto - 1], b[upto - 1]));
        assert forall|j: int| 0 <= j < upto - 1 implies is_ring_outlier(a, name, m2, j)
            == is_ring_outlier(b, name, m2, j) && a[j].card_id == b[j].card_id by {
            assert(same_payment(a[j], b[j]));
        }
        assert(first_outlier_of_card(a, name, m2, upto - 1) == first_outlier_of_card(
            b,
            name,
            m2,
            upto - 1,
        ));
    }
}

/// The amounts paid to the merchant named `name`.
fn merchant_amounts_of(items: &Vec<Transaction>, name: &String) -> (r: Vec<u64>)
    ensures
        r@ == merchant_amounts(items@, name@),
{
    let mut r: Vec<u64> = Vec::new();
    let n = items.len();
    let mut i: usize = 0;
    while i < n
        invariant
            n == items@.len(),
            i <= n,
            r@ == merchant_amounts(items@.take(i as int), name@),
        decreases n - i,
    {
        proof {
            assert(items@.take(i + 1).drop_last() =~= items@.take(i as int));
        }
        if items[i].merchant_name == *name {
            r.push(items[i].amount as u64);
        }
        i += 1;
    }
    assert(items@.take(n as int) =~= items@);
    r
}

/// Whether `v` holds `x`.
fn holds(v: &Vec<u64>, x: u64) -> (r: bool)
    ensures
        r == v@.contains(x),
{
    let mut i: usize = 0;
    while i < v.len()
        invariant
            i <= v@.len(),
            forall|k: int| 0 <= k < i ==> v@[k] != x,
        decreases v@.len() - i,
    {
        if v[i] == x {
            return true;
        }
        i += 1;
    }
    false
}

/// Whether transaction `i` is an outlier of the merchant named `name`.
fn is_outlier(items: &Vec<Transaction>, name: &String, m2: u64, i: usize) -> (r: bool)
    requires
        i < items@.len(),
        m2 <= 0x2_0000_0000,
    ensures
        r == is_ring_outlier(items@, name@, m2 as int, i as int),
{
    items[i].merchant_name == *name && 20 * (items[i].amount as u64) > MERCHANT_RING_MULTIPLIER * m2
        && items[i].amount > MERCHANT_RING_MIN_AMOUNT
}

/// The number of outliers of the merchant named `name`, and of cards that made them.
fn outlier_counts(items: &Vec<Transaction>, name: &String, m2: u64) -> (r: (usize, usize))
    requires
        m2 <= 0x2_0000_0000,
    ensures
        r.0 == outlier_count(items@, name@, m2 as int, items@.len() as int),
        r.1 == outlier_card_count(items@, name@, m2 as int, items@.len() as int),
{
    let ghost nm = name@;
    let ghost m = m2 as int;
    let n = items.len();
    let mut count: usize = 0;
    let mut cards: Vec<u64> = Vec::new();
    let mut i: usize = 0;
    while i < n
        invariant
            n == items@.len(),
            i <= n,
            m2 <= 0x2_0000_0000,
            nm == name@,
            m == m2 as int,
            count == outlier_count(items@, nm, m, i as int),
            count <= i,
            cards@.len() == outlier_card_count(items@, nm, m, i as int),
            cards@.len() <= i,
            forall|c: u64|
                cards@.contains(c) <==> exists|j: int|
                    0 <= j < i && #[trigger] is_ring_outlier(items@, nm, m, j) && items@[j].card_id.0
                        == c,
        decreases n - i,
    {
        if is_outlier(items, name, m2, i) {
            count += 1;
            let card = items[i].card_id.0;
            let seen = holds(&cards, card);
            proof {
                if seen {
                    let j = choose|j: int|
                        0 <= j < i && #[trigger] is_ring_outlier(items@, nm, m, j)
                            && items@[j].card_id.0 == card;
                    assert(!first_outlier_of_card(items@, nm, m, i as int));
                } else {
                    assert forall|j: int|
                        0 <= j < i && #[trigger] is_ring_outlier(items@, nm, m, j) implies items@[j].card_id
                        != items@[i as int].card_id by {
                        if items@[j].card_id == items@[i as int].card_id {
                            assert(cards@.contains(card));
                        }
                    }
                    assert(first_outlier_of_card(items@, nm, m, i as int));
                }
            }
            if !seen {
                let ghost before = cards@;
                cards.push(card);
                proof {
                    assert forall|c: u64|
                        cards@.contains(c) <==> exists|j: int|
                            0 <= j < i + 1 && #[trigger] is_ring_outlier(items@, nm, m, j)
                                && items@[j].card_id.0 == c by {
                        if cards@.contains(c) && c != card {
                            let k = choose|k: int| 0 <= k < cards@.len() && cards@[k] == c;
                            assert(before[k] == c);
                            assert(before.contains(c));
                        }
                        if c != card && (exists|j: int|
                            0 <= j < i + 1 && #[trigger] is_ring_outlier(items@, nm, m, j)
                                && items@[j].card_id.0 == c) {
                            let j = choose|j: int|
                                0 <= j < i + 1 && #[trigger] is_ring_outlier(items@, nm, m, j)
                                    && items@[j].card_id.0 == c;
                            assert(before.contains(c));
                            let k = choose|k: int| 0 <= k < before.len() && before[k] == c;
                            assert(cards@[k] == c);
                        }
                        if c == card {
                            assert(cards@[cards@.len() - 1] == card);
                        }
                    }
                }
            } else {
                proof {
                    assert forall|c: u64|
                        cards@.contains(c) <==> exists|j: int|
                            0 <= j < i + 1 && #[trigger] is_ring_outlier(items@, nm, m, j)
                                && items@[j].card_id.0 == c by {
                        if c == card {
                            assert(is_ring_outlier(items@, nm, m, i as int));
                        }
                    }
                }
            }
        } else {
            proof {
                assert(!first_outlier_of_card(items@, nm, m, i as int));
                assert forall|c: u64|
                    cards@.contains(c) <==> exists|j: int|
                        0 <= j < i + 1 && #[trigger] is_ring_outlier(items@, nm, m, j)
                            && items@[j].card_id.0 == c by {
                    if exists|j: int|
                        0 <= j < i + 1 && #[trigger] is_ring_outlier(items@, nm, m, j)
                            && items@[j].card_id.0 == c {
                        let j = choose|j: int|
                            0 <= j < i + 1 && #[trigger] is_ring_outlier(items@, nm, m, j)
                                && items@[j].card_id.0 == c;
                        assert(j < i);
                    }
                }
            }
        }
        i += 1;
    }
    (count, cards.len())
}

/// The ring factor of transaction `i`, if any.
fn ring_factor_of(items: &Vec<Transaction>, i: usize) -> (r: Option<FraudFactor>)
    requires
        i < items@.len(),
    ensures
        r == ring_factor(items@, i as int),
{
    let name = &items[i].merchant_name;
    let amounts = merchant_amounts_of(items, name);
    proof {
        lemma_merchant_amounts_bound(items@, name@);
        lemma_sorted_values(amounts@);
    }
    let sorted = sort_values(&amounts);
    proof {
        assert forall|k: int| 0 <= k < sorted@.len() implies #[trigger] sorted@[k] <= 0xffff_ffff by {
            assert(amounts@.contains(sorted_values(amounts@)[k]));
            let j = choose|j: int| 0 <= j < amounts@.len() && amounts@[j] == sorted@[k];
        }
    }
    let m2 = doubled_median_of(&sorted);
    if amounts.len() < MERCHANT_RING_MIN_OUTLIERS || m2 == 0 {
        return None;
    }
    if !is_outlier(items, name, m2, i) {
        return None;
    }
    let (outliers, cards) = outlier_counts(items, name, m2);
    if outliers < MERCHANT_RING_MIN_OUTLIERS || cards < MERCHANT_RING_MIN_DISTINCT_CARDS {
        return None;
    }
    let amount = items[i].amount;
    Some(
        FraudFactor::MerchantRing {
            merchant_name: name.clone(),
            amount,
            merchant_median: m2 * 50,
            ratio: amount as u64 * 2000 / m2,
            outlier_count: outliers,
            distinct_card_count: cards,
        },
    )
}

/// Whether `new_items` is `old_items` after the merchant ring pass.
pub open spec fn applied(old_items: Seq<Transaction>, new_items: Seq<Transaction>) -> bool {
    &&& new_items.len() == old_items.len()
    &&& forall|i: int| 0 <= i < old_items.len() ==> #[trigger] ring_effect(old_items, new_items, i)
}

/// Adds a merchant ring factor to each outlier of a merchant whose outliers are numerous
/// enough and come from enough different cards (see [`ring_factor`]). Nothing else changes.
pub fn apply(transactions: &mut Transactions)
    ensures
        applied(old(transactions).items@, final(transactions).items@),
{
    let ghost old_items = transactions.items@;
    let n = transactions.items.len();
    let mut i: usize = 0;
    while i < n
        invariant
            n == old_items.len(),
            i <= n,
            mirrors(transactions.items@, old_items),
            forall|k: int| 0 <= k < i ==> ring_effect(old_items, transactions.items@, k),
            forall|k: int| i <= k < n ==> #[trigger] transactions.items@[k] == old_items[k],
        decreases n - i,
    {
        let ghost before = transactions.items@;
        let factor = ring_factor_of(&transactions.items, i);
        proof {
            let name = old_items[i as int].merchant_name@;
            lemma_merchant_amounts_mirror(transactions.items@, old_items, name);
            let m2 = doubled_median(merchant_amounts(old_items, name));
            lemma_outliers_mirror(transactions.items@, old_items, name, m2, n as int);
        }
        match factor {
            Some(f) => {
                transactions.items[i].fraud_factors.push(f);
            },
            None => {},
        }
        proof {
            assert forall|k: int| 0 <= k < n && k != i implies #[trigger] transactions.items@[k]
                == before[k] by {}
            assert forall|k: int| 0 <= k <= i implies ring_effect(old_items, transactions.items@, k) by {
                if k < i {
                    assert(transactions.items@[k] == before[k]);
                    assert(ring_effect(old_items, before, k));
                }
            }
        }
        i += 1;
    }
}


/// The pass reads only payments and factors: on two lists that agree on them it gives
/// results that agree on them too, and leaves each status as it found it.
pub proof fn lemma_applied_congruent(x: Seq<Transaction>, y: Seq<Transaction>, x2: Seq<Transaction>, y2: Seq<Transaction>)
    requires
        applied(x, y),
        applied(x2, y2),
        same_payments_and_factors(x, x2),
    ensures
        mirrors(y, x),
        same_payments_and_factors(y, y2),
        forall|i: int| 0 <= i < x.len() ==> (#[trigger] y[i]).human_review_status == x[i].human_review_status,
        forall|i: int| 0 <= i < x.len() ==> (#[trigger] y2[i]).human_review_status == x2[i].human_review_status,
{
    assert forall|i: int| 0 <= i < x.len() implies #[trigger] ring_factor(x, i) == ring_factor(x2, i) by {
        assert(same_payment(x2[i], x[i]));
        let name = x[i].merchant_name@;
        lemma_merchant_amounts_mirror(x2, x, name);
        let m2 = doubled_median(merchant_amounts(x, name));
        lemma_outliers_mirror(x2, x, name, m2, x.len() as int);
    }
    assert forall|i: int| 0 <= i < x.len() implies same_payment(#[trigger] y[i], x[i]) && (#[trigger] y2[i]).fraud_factors@ == y[i].fraud_factors@ && y[i].human_review_status == x[i].human_review_status && y2[i].human_review_status == x2[i].human_review_status by {
        assert(ring_effect(x, y, i));
        assert(ring_effect(x2, y2, i));
        assert(same_payment(x2[i], x[i]));
        assert(x2[i].fraud_factors@ == x[i].fraud_factors@);
        assert(ring_factor(x, i) == ring_factor(x2, i));
    }
    assert forall|i: int| 0 <= i < x.len() implies same_payment(#[trigger] y2[i], y[i]) by {
        assert(ring_effect(x, y, i));
        assert(ring_effect(x2, y2, i));
        assert(same_payment(x2[i], x[i]));
    }
    assert forall|i: int| 0 <= i < x.len() implies same_payment(#[trigger] y[i], x[i]) && y[i].human_review_status
        == x[i].human_review_status by {
        assert(ring_effect(x, y, i));
    }
}

/// The last transaction before `upto` that is its card's first outlier.
proof fn last_first_outlier(items: Seq<Transaction>, name: Seq<char>, m2: int, upto: int) -> (j: int)
    requires
        outlier_card_count(items, name, m2, upto) >= 1,
    ensures
        0 <= j < upto,
        first_outlier_of_card(items, name, m2, j),
        outlier_card_count(items, name, m2, j) + 1 == outlier_card_count(items, name, m2, upto),
    decreases upto,
{
    if first_outlier_of_card(items, name, m2, upto - 1) {
        upto - 1
    } else {
        last_first_outlier(items, name, m2, upto - 1)
    }
}

proof fn lemma_outlier_counts_bound(items: Seq<Transaction>, name: Seq<char>, m2: int, upto: int)
    ensures
        outlier_count(items, name, m2, upto) <= if upto > 0 {
            upto
        } else {
            0
        },
        outlier_card_count(items, name, m2, upto) <= if upto > 0 {
            upto
        } else {
            0
        },
    decreases upto,
{
    if upto > 0 {
        lemma_outlier_counts_bound(items, name, m2, upto - 1);
    }
}

/// A merchant ring takes outsized payments from several cards: a transaction that gets a
/// ring factor is itself such a payment to its merchant, the factor counts at least the
/// minimum number of outliers and of cards, and three outsized payments to that merchant come
/// from three different cards.
pub proof fn lemma_ring_cards(old_items: Seq<Transaction>, new_items: Seq<Transaction>, i: int)
    requires
        applied(old_items, new_items),
        old_items.len() <= usize::MAX,
        0 <= i < old_items.len(),
        new_items[i].fraud_factors@ != old_items[i].fraud_factors@,
    ensures
        ({
            let name = old_items[i].merchant_name@;
            let m2 = doubled_median(merchant_amounts(old_items, name));
            let outsized = |j: int|
                old_items[j].merchant_name@ == name && old_items[j].amount > MERCHANT_RING_MIN_AMOUNT && 20
                    * old_items[j].amount > MERCHANT_RING_MULTIPLIER * m2;
            &&& outsized(i)
            &&& new_items[i].fraud_factors@.last() matches FraudFactor::MerchantRing {
                outlier_count,
                distinct_card_count,
                ..
            } && outlier_count >= MERCHANT_RING_MIN_OUTLIERS && distinct_card_count
                >= MERCHANT_RING_MIN_DISTINCT_CARDS
            &&& exists|j1: int, j2: int, j3: int|
                {
                    &&& 0 <= j1 < j2 < j3 < old_items.len()
                    &&& outsized(j1) && outsized(j2) && outsized(j3)
                    &&& old_items[j1].card_id != old_items[j2].card_id
                    &&& old_items[j1].card_id != old_items[j3].card_id
                    &&& old_items[j2].card_id != old_items[j3].card_id
                }
        }),
{
    assert(ring_effect(old_items, new_items, i));
    let name = old_items[i].merchant_name@;
    let m2 = doubled_median(merchant_amounts(old_items, name));
    let n = old_items.len() as int;
    assert(ring_factor(old_items, i) is Some);
    lemma_outlier_counts_bound(old_items, name, m2, n);
    assert(new_items[i].fraud_factors@.last() == ring_factor(old_items, i)->0);
    let j3 = last_first_outlier(old_items, name, m2, n);
    let j2 = last_first_outlier(old_items, name, m2, j3);
    let j1 = last_first_outlier(old_items, name, m2, j2);
    assert(is_ring_outlier(old_items, name, m2, j1));
    assert(is_ring_outlier(old_items, name, m2, j2));
    assert(is_ring_outlier(old_items, name, m2, j3));
}

} // verus!
