//! Risky merchant categories, and cash-out amounts far above the card's usual spending.

use vstd::prelude::*;

use crate::data::transaction::{mirrors, same_payment, same_payments_and_factors, Transaction};
use crate::data::transactions::Transactions;
use crate::process::card_statistics::{
    category_price_deviation_weight, category_price_deviation_weight_spec, is_risky_category,
    is_risky_category_spec, FraudFactor, CASHOUT_MIN_AMOUNT,
};
use crate::process::statistics::{
    abs_diff, doubled_median, doubled_median_of, doubled_median_of_sorted, lemma_sorted_values,
    sort_values, sorted_values,
};

verus! {

/// The largest amount, in hundredths of a cent.
pub const AMOUNT_BOUND: u64 = 429_496_729_500;

/// The amounts of card `card`, in hundredths of a cent, in list order.
pub open spec fn card_amounts(items: Seq<Transaction>, card: u64) -> Seq<u64>
    decreases items.len(),
{
    if items.len() == 0 {
        Seq::empty()
    } else {
        let rest = card_amounts(items.drop_last(), card);
        if items.last().card_id.0 == card {
            rest.push((items.last().amount * 100) as u64)
        } else {
            rest
        }
    }
}

/// The median amount of card `card`, in hundredths of a cent.
pub open spec fn card_median(items: Seq<Transaction>, card: u64) -> int {
    doubled_median(card_amounts(items, card)) / 2
}

/// How far each value lies from `m`.
pub open spec fn deviations(s: Seq<u64>, m: u64) -> Seq<u64> {
    s.map_values(|x: u64| abs_diff(x, m))
}

/// The robust spread of card `card`'s amounts, in hundredths of a cent: 1.4826 times the
/// median absolute deviation from the median, and at least one dollar.
pub open spec fn robust_scale(items: Seq<Transaction>, card: u64) -> int {
    let m = card_median(items, card);
    let mad2 = doubled_median(deviations(card_amounts(items, card), m as u64));
    let s = mad2 * 14826 / 20000;
    if s < 10000 {
        10000
    } else {
        s
    }
}

/// The price deviation factor of transaction `i`, when it has one: a risky-category
/// cash-out amount above the card's median by a z-score that carries weight.
pub open spec fn price_deviation(items: Seq<Transaction>, i: int) -> Option<FraudFactor> {
    let t = items[i];
    let card = t.card_id.0;
    let amount = t.amount * 100;
    let m = card_median(items, card);
    let scale = robust_scale(items, card);
    let z = (amount - m) * 1000 / scale;
    let w = category_price_deviation_weight_spec(z as u64);
    if is_risky_category_spec(t.merchant_category) && t.amount >= CASHOUT_MIN_AMOUNT && amount > m
        && w > 0 {
        Some(
            FraudFactor::CategoryPriceDeviation {
                category: t.merchant_category,
                amount: t.amount,
                average_amount: m as u128,
                std_deviation: scale as u128,
                z_score: z as u64,
                weight: w,
            },
        )
    } else {
        None
    }
}

/// The factors the pass gives to transaction `i`, in order.
pub open spec fn risk_factors(items: Seq<Transaction>, i: int) -> Seq<FraudFactor> {
    let t = items[i];
    if !is_risky_category_spec(t.merchant_category) {
        Seq::empty()
    } else {
        let risky = seq![FraudFactor::RiskyMerchantCategory { category: t.merchant_category }];
        match price_deviation(items, i) {
            Some(f) => risky.push(f),
            None => risky,
        }
    }
}

/// What the pass does to transaction `i`: it appends `risk_factors` and changes nothing else.
pub open spec fn risk_effect(old_items: Seq<Transaction>, new_items: Seq<Transaction>, i: int) -> bool {
    &&& same_payment(new_items[i], old_items[i])
    &&& new_items[i].human_review_status == old_items[i].human_review_status
    &&& new_items[i].fraud_factors@ == old_items[i].fraud_factors@ + risk_factors(old_items, i)
}

proof fn lemma_card_amounts_mirror(a: Seq<Transaction>, b: Seq<Transaction>, card: u64)
    requires
        mirrors(a, b),
    ensures
        card_amounts(a, card) == card_amounts(b, card),
    decreases a.len(),
{
    if a.len() > 0 {
        assert(same_payment(a[a.len() - 1], b[b.len() - 1]));
        lemma_card_amounts_mirror(a.drop_last(), b.drop_last(), card);
    }
}

proof fn lemma_card_amounts_bound(items: Seq<Transaction>, card: u64)
    ensures
        forall|k: int|
            0 <= k < card_amounts(items, card).len() ==> #[trigger] card_amounts(items, card)[k]
                <= AMOUNT_BOUND,
    decreases items.len(),
{
    if items.len() > 0 {
        lemma_card_amounts_bound(items.drop_last(), card);
        let rest = card_amounts(items.drop_last(), card);
        let x = (items.last().amount * 100) as u64;
        assert(x <= AMOUNT_BOUND);
        if items.last().card_id.0 == card {
            assert forall|k: int| 0 <= k < rest.push(x).len() implies #[trigger] rest.push(x)[k]
                <= AMOUNT_BOUND by {
                if k < rest.len() {
                    assert(rest[k] <= AMOUNT_BOUND);
                }
            }
        }
    }
}

proof fn lemma_doubled_median_bound(s: Seq<u64>, bound: u64)
    requires
        forall|k: int| 0 <= k < s.len() ==> #[trigger] s[k] <= bound,
    ensures
        0 <= doubled_median(s) <= 2 * bound,
        sorted_values(s).len() == s.len(),
        forall|k: int| 0 <= k < s.len() ==> #[trigger] sorted_values(s)[k] <= bound,
{
    lemma_sorted_values(s);
    assert forall|k: int| 0 <= k < s.len() implies #[trigger] sorted_values(s)[k] <= bound by {
        let x = sorted_values(s)[k];
        assert(s.contains(x));
    }
}

/// The amounts of card `card`.
fn card_amounts_of(items: &Vec<Transaction>, card: u64) -> (r: Vec<u64>)
    ensures
        r@ == card_amounts(items@, card),
{
    let mut r: Vec<u64> = Vec::new();
    let n = items.len();
    let mut i: usize = 0;
    while i < n
        invariant
            n == items@.len(),
            i <= n,
            r@ == card_amounts(items@.take(i as int), card),
        decreases n - i,
    {
        proof {
            assert(items@.take(i + 1).drop_last() =~= items@.take(i as int));
        }
        if items[i].card_id.0 == card {
            r.push(items[i].amount as u64 * 100);
        }
        i += 1;
    }
    assert(items@.take(n as int) =~= items@);
    r
}

/// How far each value lies from `m`.
fn deviations_of(v: &Vec<u64>, m: u64) -> (r: Vec<u64>)
    ensures
        r@ == deviations(v@, m),
{
    let mut r: Vec<u64> = Vec::new();
    let n = v.len();
    let mut i: usize = 0;
    while i < n
        invariant
            n == v@.len(),
            i <= n,
            r@ == deviations(v@.take(i as int), m),
        decreases n - i,
    {
        let x = v[i];
        let d = if x >= m {
            x - m
        } else {
            m - x
        };
        r.push(d);
        proof {
            assert(deviations(v@.take(i + 1), m) =~= deviations(v@.take(i as int), m).push(d));
        }
        i += 1;
    }
    assert(v@.take(n as int) =~= v@);
    r
}

/// The median and the robust spread of card `card`'s amounts.
fn card_baseline(items: &Vec<Transaction>, card: u64) -> (r: (u64, u64))
    ensures
        r.0 == card_median(items@, card),
        r.1 == robust_scale(items@, card),
        r.0 <= AMOUNT_BOUND,
        10000 <= r.1,
{
    let amounts = card_amounts_of(items, card);
    proof {
        lemma_card_amounts_bound(items@, card);
        lemma_doubled_median_bound(amounts@, AMOUNT_BOUND);
    }
    let sorted = sort_values(&amounts);
    assert forall|k: int| 0 <= k < sorted@.len() implies #[trigger] sorted@[k] < 0x4000_0000_0000_0000 by {
        assert(sorted_values(amounts@)[k] <= AMOUNT_BOUND);
    }
    let median = doubled_median_of(&sorted) / 2;
    let devs = deviations_of(&amounts, median);
    proof {
        assert forall|k: int| 0 <= k < devs@.len() implies #[trigger] devs@[k] <= AMOUNT_BOUND by {
            assert(amounts@[k] <= AMOUNT_BOUND);
        }
        lemma_doubled_median_bound(devs@, AMOUNT_BOUND);
    }
    let sorted_devs = sort_values(&devs);
    assert forall|k: int| 0 <= k < sorted_devs@.len() implies #[trigger] sorted_devs@[k] < 0x4000_0000_0000_0000 by {
        assert(sorted_values(devs@)[k] <= AMOUNT_BOUND);
    }
    let mad2 = doubled_median_of(&sorted_devs);
    let s = mad2 * 14826 / 20000;
    let scale = if s < 10000 {
        10000
    } else {
        s
    };
    (median, scale)
}

/// Whether `new_items` is `old_items` after the category risk pass.
pub open spec fn applied(old_items: Seq<Transaction>, new_items: Seq<Transaction>) -> bool {
    &&& new_items.len() == old_items.len()
    &&& forall|i: int| 0 <= i < old_items.len() ==> #[trigger] risk_effect(old_items, new_items, i)
}

/// Adds the risky-category factor to every gift card and electronics purchase, and a price
/// deviation factor to those of at least the cash-out amount that lie far above the
/// card's median, measured in robust spreads. Nothing else changes.
pub fn apply(transactions: &mut Transactions)
    ensures
        applied(old(transactions).items@, final(transactions).items@),
{
    let ghost old_items = transactions.items@;
    let n = transactions.items.len();
    let mut i: usize = 0;
    while i < n
        invariant
            n == old_items.len(),
            i <= n,
            mirrors(transactions.items@, old_items),
            forall|k: int| 0 <= k < i ==> risk_effect(old_items, transactions.items@, k),
            forall|k: int| i <= k < n ==> #[trigger] transactions.items@[k] == old_items[k],
        decreases n - i,
    {
        let category = transactions.items[i].merchant_category;
        let ghost before = transactions.items@;
        if is_risky_category(category) {
            let amount = transactions.items[i].amount;
            let card = transactions.items[i].card_id.0;
            let mut deviation: Option<FraudFactor> = None;
            if amount >= CASHOUT_MIN_AMOUNT {
                let (median, scale) = card_baseline(&transactions.items, card);
                proof {
                    lemma_card_amounts_mirror(transactions.items@, old_items, card);
                }
                let amount_u = amount as u64 * 100;
                if amount_u > median {
                    let z_score = (amount_u - median) * 1000 / scale;
                    let weight = category_price_deviation_weight(z_score);
                    if weight > 0 {
                        deviation = Some(
                            FraudFactor::CategoryPriceDeviation {
                                category,
                                amount,
                                average_amount: median as u128,
                                std_deviation: scale as u128,
                                z_score,
                                weight,
                            },
                        );
                    }
                }
            }
            assert(deviation == price_deviation(old_items, i as int));
            transactions.items[i].fraud_factors.push(FraudFactor::RiskyMerchantCategory { category });
            match deviation {
                Some(f) => {
                    transactions.items[i].fraud_factors.push(f);
                },
                None => {},
            }
        }
        proof {
            assert(transactions.items@[i as int].fraud_factors@ =~= old_items[i as int].fraud_factors@
                + risk_factors(old_items, i as int));
            assert forall|k: int| 0 <= k < n && k != i implies #[trigger] transactions.items@[k]
                == before[k] by {}
            assert forall|k: int| 0 <= k <= i implies risk_effect(old_items, transactions.items@, k) by {
                if k < i {
                    assert(transactions.items@[k] == before[k]);
                    assert(risk_effect(old_items, before, k));
                }
            }
        }
        i += 1;
    }
}


/// The pass reads only payments and factors: on two lists that agree on them it gives
/// results that agree on them too, and leaves each status as it found it.
pub proof fn lemma_applied_congruent(x: Seq<Transaction>, y: Seq<Transaction>, x2: Seq<Transaction>, y2: Seq<Transaction>)
    requires
        applied(x, y),
        applied(x2, y2),
        same_payments_and_factors(x, x2),
    ensures
        mirrors(y, x),
        same_payments_and_factors(y, y2),
        forall|i: int| 0 <= i < x.len() ==> (#[trigger] y[i]).human_review_status == x[i].human_review_status,
        forall|i: int| 0 <= i < x.len() ==> (#[trigger] y2[i]).human_review_status == x2[i].human_review_status,
{
    assert forall|i: int| 0 <= i < x.len() implies #[trigger] risk_factors(x, i) == risk_factors(x2, i) by {
        lemma_card_amounts_mirror(x2, x, x[i].card_id.0);
        assert(same_payment(x2[i], x[i]));
    }
    assert forall|i: int| 0 <= i < x.len() implies same_payment(#[trigger] y[i], x[i]) && (#[trigger] y2[i]).fraud_factors@ == y[i].fraud_factors@ && y[i].human_review_status == x[i].human_review_status && y2[i].human_review_status == x2[i].human_review_status by {
        assert(risk_effect(x, y, i));
        assert(risk_effect(x2, y2, i));
        assert(same_payment(x2[i], x[i]));
        assert(x2[i].fraud_factors@ == x[i].fraud_factors@);
        assert(risk_factors(x, i) == risk_factors(x2, i));
    }
    assert forall|i: int| 0 <= i < x.len() implies same_payment(#[trigger] y2[i], y[i]) by {
        assert(risk_effect(x, y, i));
        assert(risk_effect(x2, y2, i));
        assert(same_payment(x2[i], x[i]));
    }
    assert forall|i: int| 0 <= i < x.len() implies same_payment(#[trigger] y[i], x[i]) && y[i].human_review_status
        == x[i].human_review_status by {
        assert(risk_effect(x, y, i));
    }
}

/// Only gift card and electronics purchases are of a risky category: the pass leaves the
/// factors of every other transaction as they were, and gives each of these a risky-category
/// factor naming its category, before any price deviation.
pub proof fn lemma_risky_categories(old_items: Seq<Transaction>, new_items: Seq<Transaction>, i: int)
    requires
        applied(old_items, new_items),
        0 <= i < old_items.len(),
    ensures
        !(old_items[i].merchant_category is GiftCard || old_items[i].merchant_category is Electronics)
            ==> new_items[i].fraud_factors@ == old_items[i].fraud_factors@,
        (old_items[i].merchant_category is GiftCard || old_items[i].merchant_category is Electronics) ==> {
            let k = old_items[i].fraud_factors@.len() as int;
            &&& new_items[i].fraud_factors@.len() > k
            &&& new_items[i].fraud_factors@[k] == FraudFactor::RiskyMerchantCategory {
                category: old_items[i].merchant_category,
            }
        },
{
    assert(risk_effect(old_items, new_items, i));
    let c = old_items[i].merchant_category;
    if !(c is GiftCard || c is Electronics) {
        assert(!is_risky_category_spec(c));
        assert(old_items[i].fraud_factors@ + Seq::<FraudFactor>::empty() =~= old_items[i].fraud_factors@);
    } else {
        assert(is_risky_category_spec(c));
        let k = old_items[i].fraud_factors@.len() as int;
        assert((old_items[i].fraud_factors@ + risk_factors(old_items, i))[k] == risk_factors(old_items, i)[0]);
    }
}

} // verus!
