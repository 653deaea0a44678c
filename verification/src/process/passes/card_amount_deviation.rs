//! Amounts far above what the same card usually spends.

use vstd::prelude::*;

use crate::data::transaction::{mirrors, same_payment, same_payments_and_factors, Transaction};
use crate::data::transactions::{Transactions, MAX_TRANSACTIONS};
use crate::process::card_statistics::{
    card_amount_deviation_weight, card_amount_deviation_weight_spec, FraudFactor,
    CARD_AMOUNT_DEVIATION_MIN_MEAN_MULTIPLIER,
};
use crate::process::statistics::{root, root_of};

verus! {

/// The largest amount, in cents.
pub const MAX_AMOUNT: u128 = 0xffff_ffff;

/// The number of transactions of card `card`, the sum of their amounts and the sum of the
/// squares of their amounts (in cents).
pub open spec fn card_totals(items: Seq<Transaction>, card: u64) -> (nat, nat, nat)
    decreases items.len(),
{
    if items.len() == 0 {
        (0, 0, 0)
    } else {
        let (n, s, q) = card_totals(items.drop_last(), card);
        let a = items.last().amount as nat;
        if items.last().card_id.0 == card {
            (n + 1, s + a, q + a * a)
        } else {
            (n, s, q)
        }
    }
}

/// The card amount deviation factor of transaction `i`, when it has one.
///
/// Against the card's other transactions (at least three of them), with `k` of them summing
/// to `S` and their squares to `Q`: the mean is `S / k` and the standard deviation
/// `sqrt(k Q - S^2) / k` (the square root taken whole, in cents). The amount counts when the
/// spread is not zero and the amount is above the mean and at least ten times it; its
/// z-score then has to carry weight.
pub open spec fn amount_deviation(items: Seq<Transaction>, i: int) -> Option<FraudFactor> {
    let t = items[i];
    let card = t.card_id.0;
    let a = t.amount as int;
    let (n, s, q) = card_totals(items, card);
    let k = n - 1;
    let ps = s - a;
    let pq = q - a * a;
    let v = k * pq - ps * ps;
    let spread = if v < 0 {
        0
    } else {
        v
    };
    let mean = ps * 100 / k;
    let deviation: int = (root(spread as nat) * 100) as int / k;
    let z = (a * 100 - mean) * 1000 / deviation;
    let w = card_amount_deviation_weight_spec(z as u64);
    if k < 3 || spread == 0 || deviation == 0 || a * k <= ps || a * k
        < CARD_AMOUNT_DEVIATION_MIN_MEAN_MULTIPLIER * ps || w == 0 {
        None
    } else {
        Some(
            FraudFactor::CardAmountDeviation {
                card_id: card,
                amount: t.amount,
                average_amount: mean as u128,
                std_deviation: deviation as u128,
                z_score: z as u64,
                weight: w,
            },
        )
    }
}

/// What the pass does to transaction `i`: it appends the deviation factor, if any.
pub open spec fn deviation_effect(old_items: Seq<Transaction>, new_items: Seq<Transaction>, i: int) -> bool {
    &&& same_payment(new_items[i], old_items[i])
    &&& new_items[i].human_review_status == old_items[i].human_review_status
    &&& new_items[i].fraud_factors@ == match amount_deviation(old_items, i) {
        Some(f) => old_items[i].fraud_factors@.push(f),
        None => old_items[i].fraud_factors@,
    }
}

proof fn lemma_card_totals_mirror(a: Seq<Transaction>, b: Seq<Transaction>, card: u64)
    requires
        mirrors(a, b),
    ensures
        card_totals(a, card) == card_totals(b, card),
    decreases a.len(),
{
    if a.len() > 0 {
        assert(same_payment(a[a.len() - 1], b[b.len() - 1]));
        lemma_card_totals_mirror(a.drop_last(), b.drop_last(), card);
    }
}

proof fn lemma_square_bound(a: nat)
    requires
        a <= MAX_AMOUNT,
    ensures
        a * a <= MAX_AMOUNT * MAX_AMOUNT,
{
    assert(a * a <= MAX_AMOUNT * MAX_AMOUNT) by (nonlinear_arith)
        requires
            a <= MAX_AMOUNT,
    ;
}

/// The totals grow by at most the largest amount (and its square) per transaction.
proof fn lemma_card_totals_bound(items: Seq<Transaction>, card: u64)
    ensures
        card_totals(items, card).0 <= items.len(),
        card_totals(items, card).1 <= card_totals(items, card).0 * MAX_AMOUNT,
        card_totals(items, card).2 <= card_totals(items, card).0 * (MAX_AMOUNT * MAX_AMOUNT),
    decreases items.len(),
{
    if items.len() > 0 {
        lemma_card_totals_bound(items.drop_last(), card);
        lemma_square_bound(items.last().amount as nat);
        let n = card_totals(items.drop_last(), card).0;
        assert((n + 1) * MAX_AMOUNT == n * MAX_AMOUNT + MAX_AMOUNT) by (nonlinear_arith);
        assert((n + 1) * (MAX_AMOUNT * MAX_AMOUNT) == n * (MAX_AMOUNT * MAX_AMOUNT) + MAX_AMOUNT
            * MAX_AMOUNT) by (nonlinear_arith);
    }
}

/// A transaction of the card is part of its totals.
proof fn lemma_card_totals_include(items: Seq<Transaction>, i: int)
    requires
        0 <= i < items.len(),
    ensures
        card_totals(items, items[i].card_id.0).0 >= 1,
        card_totals(items, items[i].card_id.0).1 >= items[i].amount,
        card_totals(items, items[i].card_id.0).2 >= items[i].amount * items[i].amount,
    decreases items.len(),
{
    if i < items.len() - 1 {
        lemma_card_totals_include(items.drop_last(), i);
    }
}

/// The count, the sum of the amounts and the sum of their squares for card `card`.
fn card_totals_of(items: &Vec<Transaction>, card: u64) -> (r: (u128, u128, u128))
    requires
        items@.len() <= 0xffff_ffff,
    ensures
        r.0 == card_totals(items@, card).0,
        r.1 == card_totals(items@, card).1,
        r.2 == card_totals(items@, card).2,
{
    let mut n: u128 = 0;
    let mut s: u128 = 0;
    let mut q: u128 = 0;
    let len = items.len();
    let mut i: usize = 0;
    while i < len
        invariant
            len == items@.len(),
            len <= 0xffff_ffff,
            i <= len,
            (n as nat, s as nat, q as nat) == card_totals(items@.take(i as int), card),
        decreases len - i,
    {
        proof {
            assert(items@.take(i + 1).drop_last() =~= items@.take(i as int));
            lemma_card_totals_bound(items@.take(i as int), card);
            assert(n * MAX_AMOUNT <= 0xffff_ffff * MAX_AMOUNT) by (nonlinear_arith)
                requires
                    n <= 0xffff_ffff,
            ;
            assert(n * (MAX_AMOUNT * MAX_AMOUNT) <= 0xffff_ffff * (MAX_AMOUNT * MAX_AMOUNT)) by (nonlinear_arith)
                requires
                    n <= 0xffff_ffff,
            ;
        }
        if items[i].card_id.0 == card {
            let a = items[i].amount as u128;
            proof {
                lemma_square_bound(a as nat);
                assert((n + 1) * (MAX_AMOUNT * MAX_AMOUNT) <= 0xffff_ffff * (MAX_AMOUNT * MAX_AMOUNT)) by (nonlinear_arith)
                    requires
                        n + 1 <= 0xffff_ffff,
                ;
            }
            n = n + 1;
            s = s + a;
            q = q + a * a;
        }
        i += 1;
    }
    assert(items@.take(len as int) =~= items@);
    (n, s, q)
}

/// The deviation factor of transaction `i`, computed from the card's totals.
fn deviation_of(items: &Vec<Transaction>, i: usize) -> (r: Option<FraudFactor>)
    requires
        items@.len() <= 0xffff_ffff,
        i < items@.len(),
    ensures
        r == amount_deviation(items@, i as int),
{
    let t = &items[i];
    let card = t.card_id.0;
    let amount = t.amount;
    let a = amount as u128;
    let (n, s, q) = card_totals_of(items, card);
    proof {
        lemma_card_totals_include(items@, i as int);
        lemma_card_totals_bound(items@, card);
    }
    let k = n - 1;
    if k < 3 {
        return None;
    }
    let ps = s - a;
    let pq = q - a * a;
    proof {
        assert(k * pq <= 0xffff_ffff * (0xffff_ffff * (MAX_AMOUNT * MAX_AMOUNT))) by (nonlinear_arith)
            requires
                k <= 0xffff_ffff,
                pq <= 0xffff_ffff * (MAX_AMOUNT * MAX_AMOUNT),
        ;
        assert(ps * ps <= (0xffff_ffff * MAX_AMOUNT) * (0xffff_ffff * MAX_AMOUNT)) by (nonlinear_arith)
            requires
                ps <= 0xffff_ffff * MAX_AMOUNT,
        ;
    }
    let kpq = k * pq;
    let ps2 = ps * ps;
    let spread: u128 = if kpq >= ps2 {
        kpq - ps2
    } else {
        0
    };
    if spread == 0 {
        return None;
    }
    let mean = ps * 100 / k;
    let deviation = root_of(spread) * 100 / k;
    if deviation == 0 {
        return None;
    }
    assert(a * k <= MAX_AMOUNT * 0xffff_ffff) by (nonlinear_arith)
        requires
            a <= MAX_AMOUNT,
            k <= 0xffff_ffff,
    ;
    if a * k <= ps || a * k < CARD_AMOUNT_DEVIATION_MIN_MEAN_MULTIPLIER as u128 * ps {
        return None;
    }
    // the amount is above the mean, so its distance to the mean is at most the amount
    assert(mean <= a * 100) by (nonlinear_arith)
        requires
            mean == ps * 100 / (k as int),
            a * k > ps,
            k > 0,
    ;
    let z = (a * 100 - mean) * 1000 / deviation;
    let weight = card_amount_deviation_weight(z as u64);
    if weight == 0 {
        return None;
    }
    Some(
        FraudFactor::CardAmountDeviation {
            card_id: card,
            amount,
            average_amount: mean,
            std_deviation: deviation,
            z_score: z as u64,
            weight,
        },
    )
}

/// Whether `new_items` is `old_items` after the card amount deviation pass.
pub open spec fn applied(old_items: Seq<Transaction>, new_items: Seq<Transaction>) -> bool {
    &&& new_items.len() == old_items.len()
    &&& forall|i: int| 0 <= i < old_items.len() ==> #[trigger] deviation_effect(old_items, new_items, i)
}

/// Adds a card amount deviation factor to each transaction whose amount stands far above
/// the card's other transactions (see [`amount_deviation`]). Nothing else changes.
pub fn apply(transactions: &mut Transactions)
    requires
        old(transactions).items@.len() <= MAX_TRANSACTIONS,
    ensures
        applied(old(transactions).items@, final(transactions).items@),
{
    let ghost old_items = transactions.items@;
    let n = transactions.items.len();
    let mut i: usize = 0;
    while i < n
        invariant
            n == old_items.len(),
            n <= 0xffff_ffff,
            i <= n,
            mirrors(transactions.items@, old_items),
            forall|k: int| 0 <= k < i ==> deviation_effect(old_items, transactions.items@, k),
            forall|k: int| i <= k < n ==> #[trigger] transactions.items@[k] == old_items[k],
        decreases n - i,
    {
        let ghost before = transactions.items@;
        let factor = deviation_of(&transactions.items, i);
        proof {
            let card = old_items[i as int].card_id.0;
            lemma_card_totals_mirror(transactions.items@, old_items, card);
        }
        match factor {
            Some(f) => {
                transactions.items[i].fraud_factors.push(f);
            },
            None => {},
        }
        proof {
            assert forall|k: int| 0 <= k < n && k != i implies #[trigger] transactions.items@[k]
                == before[k] by {}
            assert forall|k: int| 0 <= k <= i implies deviation_effect(old_items, transactions.items@, k) by {
                if k < i {
                    assert(transactions.items@[k] == before[k]);
                    assert(deviation_effect(old_items, before, k));
                }
            }
        }
        i += 1;
    }
}


/// The pass reads only payments and factors: on two lists that agree on them it gives
/// results that agree on them too, and leaves each status as it found it.
pub proof fn lemma_applied_congruent(x: Seq<Transaction>, y: Seq<Transaction>, x2: Seq<Transaction>, y2: Seq<Transaction>)
    requires
        applied(x, y),
        applied(x2, y2),
        same_payments_and_factors(x, x2),
    ensures
        mirrors(y, x),
        same_payments_and_factors(y, y2),
        forall|i: int| 0 <= i < x.len() ==> (#[trigger] y[i]).human_review_status == x[i].human_review_status,
        forall|i: int| 0 <= i < x.len() ==> (#[trigger] y2[i]).human_review_status == x2[i].human_review_status,
{
    assert forall|i: int| 0 <= i < x.len() implies #[trigger] amount_deviation(x, i) == amount_deviation(x2, i) by {
        lemma_card_totals_mirror(x2, x, x[i].card_id.0);
        assert(same_payment(x2[i], x[i]));
    }
    assert forall|i: int| 0 <= i < x.len() implies same_payment(#[trigger] y[i], x[i]) && (#[trigger] y2[i]).fraud_factors@ == y[i].fraud_factors@ && y[i].human_review_status == x[i].human_review_status && y2[i].human_review_status == x2[i].human_review_status by {
        assert(deviation_effect(x, y, i));
        assert(deviation_effect(x2, y2, i));
        assert(same_payment(x2[i], x[i]));
        assert(x2[i].fraud_factors@ == x[i].fraud_factors@);
        assert(amount_deviation(x, i) == amount_deviation(x2, i));
    }
    assert forall|i: int| 0 <= i < x.len() implies same_payment(#[trigger] y2[i], y[i]) by {
        assert(deviation_effect(x, y, i));
        assert(deviation_effect(x2, y2, i));
        assert(same_payment(x2[i], x[i]));
    }
    assert forall|i: int| 0 <= i < x.len() implies same_payment(#[trigger] y[i], x[i]) && y[i].human_review_status
        == x[i].human_review_status by {
        assert(deviation_effect(x, y, i));
    }
}

} // verus!
