//! Card testing: several small online charges on one card in quick succession.

use vstd::prelude::*;

use crate::data::channel::Channel;
use crate::data::human_review_status::HumanReviewStatus;
use crate::data::timestamp::elapsed;
use crate::data::transaction::{mirrors, same_payment, same_payments_and_factors, Transaction};
use crate::data::transactions::Transactions;
use crate::process::card_statistics::{
    FraudFactor, CARD_TESTING_BURST_MAX_AMOUNT, CARD_TESTING_BURST_MAX_GAP,
    CARD_TESTING_BURST_MIN_COUNT,
};
use crate::process::order::{
    chrono_order, chrono_order_of, is_chrono_order, lemma_chrono_order_congruent,
    lemma_chrono_order_distinct, lemma_chrono_order_time,
};

verus! {

/// A charge that could be part of a card test: online and small.
pub open spec fn burst_candidate(t: Transaction) -> bool {
    t.channel == Channel::Online && t.amount <= CARD_TESTING_BURST_MAX_AMOUNT
}

/// Seconds between the transactions at positions `p - 1` and `p` of the order.
pub open spec fn gap_at(items: Seq<Transaction>, o: Seq<usize>, p: int) -> int {
    elapsed(items[o[p] as int].timestamp, items[o[p - 1] as int].timestamp)
}

/// The transaction at position `p` continues the run of the one before it: same card,
/// both candidates, and close enough in time.
pub open spec fn burst_linked(items: Seq<Transaction>, o: Seq<usize>, p: int) -> bool {
    &&& 1 <= p < o.len()
    &&& items[o[p - 1] as int].card_id == items[o[p] as int].card_id
    &&& burst_candidate(items[o[p - 1] as int])
    &&& burst_candidate(items[o[p] as int])
    &&& gap_at(items, o, p) <= CARD_TESTING_BURST_MAX_GAP
}

/// The first position of the run that contains position `p`.
pub open spec fn run_first(items: Seq<Transaction>, o: Seq<usize>, p: int) -> int
    decreases p,
{
    if 0 < p && burst_linked(items, o, p) {
        run_first(items, o, p - 1)
    } else {
        p
    }
}

/// The last position of the run that contains position `p`.
pub open spec fn run_last(items: Seq<Transaction>, o: Seq<usize>, p: int) -> int
    decreases o.len() - p,
{
    if 0 <= p && p + 1 < o.len() && burst_linked(items, o, p + 1) {
        run_last(items, o, p + 1)
    } else {
        p
    }
}

/// The largest amount at positions `a..=b`.
pub open spec fn run_max_amount(items: Seq<Transaction>, o: Seq<usize>, a: int, b: int) -> u32
    decreases b - a,
{
    if b <= a {
        items[o[a] as int].amount
    } else {
        let m = run_max_amount(items, o, a, b - 1);
        let x = items[o[b] as int].amount;
        if x > m {
            x
        } else {
            m
        }
    }
}

/// The largest gap between consecutive positions of `a..=b` (zero for one position).
pub open spec fn run_max_gap(items: Seq<Transaction>, o: Seq<usize>, a: int, b: int) -> int
    decreases b - a,
{
    if b <= a {
        0
    } else {
        let m = run_max_gap(items, o, a, b - 1);
        let g = gap_at(items, o, b);
        if g > m {
            g
        } else {
            m
        }
    }
}

/// The factor given to every charge of the run at positions `a..=b`.
pub open spec fn burst_factor(items: Seq<Transaction>, o: Seq<usize>, a: int, b: int) -> FraudFactor {
    FraudFactor::CardTestingBurst {
        transaction_count: (b - a + 1) as usize,
        burst_start: items[o[a] as int].timestamp,
        burst_end: items[o[b] as int].timestamp,
        max_amount: run_max_amount(items, o, a, b),
        max_gap: run_max_gap(items, o, a, b) as i64,
    }
}

/// Whether the transaction at position `p` belongs to a run long enough to be a card test.
pub open spec fn in_burst(items: Seq<Transaction>, o: Seq<usize>, p: int) -> bool {
    run_last(items, o, p) - run_first(items, o, p) + 1 >= CARD_TESTING_BURST_MIN_COUNT
}

/// What the pass does to the transaction at position `p` of the order.
pub open spec fn burst_effect(
    old_items: Seq<Transaction>,
    new_items: Seq<Transaction>,
    o: Seq<usize>,
    p: int,
) -> bool {
    let i = o[p] as int;
    &&& same_payment(new_items[i], old_items[i])
    &&& if in_burst(old_items, o, p) {
        &&& new_items[i].fraud_factors@ == old_items[i].fraud_factors@.push(
            burst_factor(old_items, o, run_first(old_items, o, p), run_last(old_items, o, p)),
        )
        &&& new_items[i].human_review_status == HumanReviewStatus::NeedCheck
    } else {
        &&& new_items[i].fraud_factors@ == old_items[i].fraud_factors@
        &&& new_items[i].human_review_status == old_items[i].human_review_status
    }
}

/// Within a run `a..=b` bounded by unlinked positions, every position's run is `a..=b`.
proof fn lemma_run_bounds(items: Seq<Transaction>, o: Seq<usize>, a: int, b: int, q: int)
    requires
        0 <= a <= q <= b < o.len(),
        a == 0 || !burst_linked(items, o, a),
        b + 1 == o.len() || !burst_linked(items, o, b + 1),
        forall|r: int| a < r <= b ==> burst_linked(items, o, r),
    ensures
        run_first(items, o, q) == a,
        run_last(items, o, q) == b,
{
    lemma_run_first(items, o, a, b, q);
    lemma_run_last(items, o, a, b, q);
}

proof fn lemma_run_first(items: Seq<Transaction>, o: Seq<usize>, a: int, b: int, q: int)
    requires
        0 <= a <= q <= b < o.len(),
        a == 0 || !burst_linked(items, o, a),
        forall|r: int| a < r <= b ==> burst_linked(items, o, r),
    ensures
        run_first(items, o, q) == a,
    decreases q,
{
    if q > a {
        lemma_run_first(items, o, a, b, q - 1);
    }
}

proof fn lemma_run_last(items: Seq<Transaction>, o: Seq<usize>, a: int, b: int, q: int)
    requires
        0 <= a <= q <= b < o.len(),
        b + 1 == o.len() || !burst_linked(items, o, b + 1),
        forall|r: int| a < r <= b ==> burst_linked(items, o, r),
    ensures
        run_last(items, o, q) == b,
    decreases b - q,
{
    if q < b {
        lemma_run_last(items, o, a, b, q + 1);
    }
}

/// Whether position `p` continues the run before it.
fn linked(items: &Vec<Transaction>, o: &Vec<usize>, p: usize) -> (r: bool)
    requires
        1 <= p < o@.len(),
        is_chrono_order(items@, o@),
    ensures
        r == burst_linked(items@, o@, p as int),
{
    let prev = &items[o[p - 1]];
    let cur = &items[o[p]];
    prev.card_id.0 == cur.card_id.0 && is_candidate(prev) && is_candidate(cur)
        && cur.timestamp.elapsed_since(&prev.timestamp) <= CARD_TESTING_BURST_MAX_GAP
}

fn is_candidate(t: &Transaction) -> (r: bool)
    ensures
        r == burst_candidate(*t),
{
    matches!(t.channel, Channel::Online) && t.amount <= CARD_TESTING_BURST_MAX_AMOUNT
}

/// Flags the run at positions `a..=b` when it is long enough.
fn flush_run(
    items: &mut Vec<Transaction>,
    o: &Vec<usize>,
    a: usize,
    b: usize,
    Ghost(old_items): Ghost<Seq<Transaction>>,
)
    requires
        is_chrono_order(old_items, o@),
        old(items)@.len() == old_items.len(),
        a <= b < o@.len(),
        a == 0 || !burst_linked(old_items, o@, a as int),
        b + 1 == o@.len() || !burst_linked(old_items, o@, b + 1),
        forall|r: int| a < r <= b ==> burst_linked(old_items, o@, r),
        forall|q: int| a <= q <= b ==> old(items)@[#[trigger] o@[q] as int] == old_items[o@[q] as int],
        forall|i: int| 0 <= i < old_items.len() ==> same_payment(#[trigger] old(items)@[i], old_items[i]),
    ensures
        final(items)@.len() == old_items.len(),
        forall|i: int| 0 <= i < old_items.len() ==> same_payment(#[trigger] final(items)@[i], old_items[i]),
        forall|q: int| a <= q <= b ==> burst_effect(old_items, final(items)@, o@, q),
        forall|q: int|
            0 <= q < o@.len() && !(a <= q <= b) ==> #[trigger] final(items)@[o@[q] as int] == old(
                items,
            )@[o@[q] as int],
{
    let n = o.len();
    proof {
        assert forall|q: int| a <= q <= b implies run_first(old_items, o@, q) == a && run_last(
            old_items,
            o@,
            q,
        ) == b by {
            lemma_run_bounds(old_items, o@, a as int, b as int, q);
        }
    }
    let count = b - a + 1;
    if count < CARD_TESTING_BURST_MIN_COUNT {
        proof {
            assert forall|q: int| a <= q <= b implies burst_effect(old_items, items@, o@, q) by {
                assert(items@[o@[q] as int] == old_items[o@[q] as int]);
            }
        }
        return;
    }
    let first = &items[o[a]];
    let burst_start = first.timestamp;
    let burst_end = items[o[b]].timestamp;
    let mut max_amount: u32 = items[o[a]].amount;
    let mut max_gap: i64 = 0;
    let mut pos = a + 1;
    while pos <= b
        invariant
            is_chrono_order(old_items, o@),
            a < pos <= b + 1,
            b < n == o@.len(),
            items@.len() == old_items.len(),
            forall|q: int| a <= q <= b ==> items@[#[trigger] o@[q] as int] == old_items[o@[q] as int],
            forall|r: int| a < r <= b ==> burst_linked(old_items, o@, r),
            max_amount == run_max_amount(old_items, o@, a as int, pos - 1),
            max_gap == run_max_gap(old_items, o@, a as int, pos - 1),
            0 <= max_gap <= CARD_TESTING_BURST_MAX_GAP,
        decreases b + 1 - pos,
    {
        let x = items[o[pos]].amount;
        if x > max_amount {
            max_amount = x;
        }
        assert(burst_linked(old_items, o@, pos as int));
        proof {
            lemma_chrono_order_time(old_items, o@, pos - 1, pos as int);
        }
        let gap = items[o[pos]].timestamp.elapsed_since(&items[o[pos - 1]].timestamp);
        if gap > max_gap {
            max_gap = gap;
        }
        pos += 1;
    }
    let mut pos = a;
    while pos <= b
        invariant
            is_chrono_order(old_items, o@),
            a <= pos <= b + 1,
            b < n == o@.len(),
            count == b - a + 1,
            count >= CARD_TESTING_BURST_MIN_COUNT,
            items@.len() == old_items.len(),
            forall|q: int| a <= q <= b ==> run_first(old_items, o@, q) == a && run_last(old_items, o@, q) == b,
            burst_start == old_items[o@[a as int] as int].timestamp,
            burst_end == old_items[o@[b as int] as int].timestamp,
            max_amount == run_max_amount(old_items, o@, a as int, b as int),
            max_gap == run_max_gap(old_items, o@, a as int, b as int),
            forall|i: int| 0 <= i < old_items.len() ==> same_payment(#[trigger] items@[i], old_items[i]),
            forall|q: int| pos <= q <= b ==> items@[#[trigger] o@[q] as int] == old_items[o@[q] as int],
            forall|q: int| a <= q < pos ==> burst_effect(old_items, items@, o@, q),
            forall|q: int|
                0 <= q < o@.len() && !(a <= q < pos) ==> #[trigger] items@[o@[q] as int] == old(
                    items,
                )@[o@[q] as int],
        decreases b + 1 - pos,
    {
        let idx = o[pos];
        let ghost before = items@;
        items[idx].fraud_factors.push(
            FraudFactor::CardTestingBurst {
                transaction_count: count,
                burst_start,
                burst_end,
                max_amount,
                max_gap,
            },
        );
        items[idx].human_review_status = HumanReviewStatus::NeedCheck;
        proof {
            assert forall|q: int| 0 <= q < o@.len() && q != pos implies #[trigger] items@[o@[q] as int]
                == before[o@[q] as int] by {
                lemma_chrono_order_distinct(old_items, o@, q, pos as int);
            }
            assert(burst_effect(old_items, items@, o@, pos as int));
            assert forall|q: int| a <= q < pos implies burst_effect(old_items, items@, o@, q) by {
                assert(items@[o@[q] as int] == before[o@[q] as int]);
                assert(burst_effect(old_items, before, o@, q));
            }
        }
        pos += 1;
    }
}

/// Whether `new_items` is `old_items` after the burst pass.
pub open spec fn applied(old_items: Seq<Transaction>, new_items: Seq<Transaction>) -> bool {
    &&& new_items.len() == old_items.len()
    &&& is_chrono_order(old_items, chrono_order(old_items))
    &&& forall|p: int| 0 <= p < old_items.len() ==> #[trigger] burst_effect(old_items, new_items, chrono_order(old_items), p)
}

/// Flags every run of at least three small online charges on one card, each within ten
/// minutes of the previous one: each charge of the run gets a card-testing factor and
/// needs a human check.
pub fn apply(transactions: &mut Transactions)
    ensures
        applied(old(transactions).items@, final(transactions).items@),
{
    let ghost old_items = transactions.items@;
    let o = chrono_order_of(&transactions.items);
    let n = o.len();
    if n == 0 {
        return;
    }
    let mut start: usize = 0;
    let mut p: usize = 1;
    while p < n
        invariant
            is_chrono_order(old_items, o@),
            n == o@.len(),
            transactions.items@.len() == old_items.len(),
            start < p <= n,
            start == 0 || !burst_linked(old_items, o@, start as int),
            forall|r: int| start < r < p ==> burst_linked(old_items, o@, r),
            forall|i: int|
                0 <= i < old_items.len() ==> same_payment(#[trigger] transactions.items@[i], old_items[i]),
            forall|q: int| 0 <= q < start ==> burst_effect(old_items, transactions.items@, o@, q),
            forall|q: int|
                start <= q < n ==> #[trigger] transactions.items@[o@[q] as int] == old_items[o@[q] as int],
        decreases n - p,
    {
        let l = linked(&transactions.items, &o, p);
        proof {
            // the fields `linked` reads are unchanged
            assert(burst_linked(transactions.items@, o@, p as int) == burst_linked(old_items, o@, p as int));
        }
        if !l {
            let ghost before = transactions.items@;
            flush_run(&mut transactions.items, &o, start, p - 1, Ghost(old_items));
            proof {
                assert forall|q: int| 0 <= q < start implies burst_effect(
                    old_items,
                    transactions.items@,
                    o@,
                    q,
                ) by {
                    assert(transactions.items@[o@[q] as int] == before[o@[q] as int]);
                    assert(burst_effect(old_items, before, o@, q));
                }
            }
            start = p;
        }
        p += 1;
    }
    let ghost before = transactions.items@;
    flush_run(&mut transactions.items, &o, start, n - 1, Ghost(old_items));
    proof {
        assert forall|q: int| 0 <= q < n implies burst_effect(
            old_items,
            transactions.items@,
            o@,
            q,
        ) by {
            if q < start {
                assert(transactions.items@[o@[q] as int] == before[o@[q] as int]);
                assert(burst_effect(old_items, before, o@, q));
            }
        }
    }
}

/// Every position of `o` holds, in `x2`, the payment it holds in `x`.
pub open spec fn agree_along(x: Seq<Transaction>, x2: Seq<Transaction>, o: Seq<usize>) -> bool {
    &&& o.len() == x.len()
    &&& forall|q: int| 0 <= q < o.len() ==> #[trigger] o[q] < x.len() && same_payment(x2[o[q] as int], x[o[q] as int])
}

proof fn lemma_run_range(items: Seq<Transaction>, o: Seq<usize>, p: int)
    requires
        0 <= p < o.len(),
    ensures
        0 <= run_first(items, o, p) <= p <= run_last(items, o, p) < o.len(),
{
    lemma_run_first_range(items, o, p);
    lemma_run_last_range(items, o, p);
}

proof fn lemma_run_first_range(items: Seq<Transaction>, o: Seq<usize>, p: int)
    requires
        0 <= p < o.len(),
    ensures
        0 <= run_first(items, o, p) <= p,
    decreases p,
{
    if p > 0 {
        lemma_run_first_range(items, o, p - 1);
    }
}

proof fn lemma_run_last_range(items: Seq<Transaction>, o: Seq<usize>, p: int)
    requires
        0 <= p < o.len(),
    ensures
        p <= run_last(items, o, p) < o.len(),
    decreases o.len() - p,
{
    if p + 1 < o.len() {
        lemma_run_last_range(items, o, p + 1);
    }
}

proof fn lemma_runs_congruent(x: Seq<Transaction>, x2: Seq<Transaction>, o: Seq<usize>, p: int)
    requires
        agree_along(x, x2, o),
        0 <= p < o.len(),
    ensures
        run_first(x2, o, p) == run_first(x, o, p),
        run_last(x2, o, p) == run_last(x, o, p),
    decreases o.len() - p,
{
    lemma_run_first_congruent(x, x2, o, p);
    if p + 1 < o.len() {
        assert(same_payment(x2[o[p] as int], x[o[p] as int]));
        assert(same_payment(x2[o[p + 1] as int], x[o[p + 1] as int]));
        lemma_runs_congruent(x, x2, o, p + 1);
    }
}

proof fn lemma_run_first_congruent(x: Seq<Transaction>, x2: Seq<Transaction>, o: Seq<usize>, p: int)
    requires
        agree_along(x, x2, o),
        0 <= p < o.len(),
    ensures
        run_first(x2, o, p) == run_first(x, o, p),
    decreases p,
{
    if p > 0 {
        assert(same_payment(x2[o[p] as int], x[o[p] as int]));
        assert(same_payment(x2[o[p - 1] as int], x[o[p - 1] as int]));
        lemma_run_first_congruent(x, x2, o, p - 1);
    }
}

proof fn lemma_run_max_congruent(x: Seq<Transaction>, x2: Seq<Transaction>, o: Seq<usize>, a: int, b: int)
    requires
        agree_along(x, x2, o),
        0 <= a <= b < o.len(),
    ensures
        run_max_amount(x2, o, a, b) == run_max_amount(x, o, a, b),
        run_max_gap(x2, o, a, b) == run_max_gap(x, o, a, b),
    decreases b - a,
{
    assert(same_payment(x2[o[b] as int], x[o[b] as int]));
    if b > a {
        assert(same_payment(x2[o[b - 1] as int], x[o[b - 1] as int]));
        lemma_run_max_congruent(x, x2, o, a, b - 1);
    } else {
        assert(same_payment(x2[o[a] as int], x[o[a] as int]));
    }
}

/// The pass reads only payments: on two lists that agree on payments and factors it gives
/// results that agree on them too, and the same transactions are marked for a check.
pub proof fn lemma_applied_congruent(x: Seq<Transaction>, y: Seq<Transaction>, x2: Seq<Transaction>, y2: Seq<Transaction>)
    requires
        applied(x, y),
        applied(x2, y2),
        same_payments_and_factors(x, x2),
        is_chrono_order(x, chrono_order(x)),
        x.len() <= usize::MAX,
    ensures
        mirrors(y, x),
        same_payments_and_factors(y, y2),
        forall|i: int|
            0 <= i < x.len() ==> ((#[trigger] y[i]).human_review_status == x[i].human_review_status
                && y2[i].human_review_status == x2[i].human_review_status) || (y[i].human_review_status
                == HumanReviewStatus::NeedCheck && y2[i].human_review_status == HumanReviewStatus::NeedCheck),
{
    lemma_chrono_order_congruent(x, x2);
    let o = chrono_order(x);
    assert(agree_along(x, x2, o)) by {
        assert forall|q: int| 0 <= q < o.len() implies #[trigger] o[q] < x.len() && same_payment(x2[o[q] as int], x[o[q] as int]) by {
            assert(o[q] < x.len());
        }
    }
    assert forall|i: int| 0 <= i < x.len() implies {
        &&& same_payment(#[trigger] y[i], x[i])
        &&& same_payment(y2[i], y[i])
        &&& y2[i].fraud_factors@ == y[i].fraud_factors@
        &&& ((y[i].human_review_status == x[i].human_review_status && y2[i].human_review_status
            == x2[i].human_review_status) || (y[i].human_review_status == HumanReviewStatus::NeedCheck
            && y2[i].human_review_status == HumanReviewStatus::NeedCheck))
    } by {
        assert(o.contains(i as usize));
        let p = choose|p: int| 0 <= p < o.len() && o[p] == i as usize;
        assert(o[p] as int == i);
        assert(burst_effect(x, y, o, p));
        assert(burst_effect(x2, y2, o, p));
        assert(same_payment(x2[i], x[i]));
        lemma_runs_congruent(x, x2, o, p);
        let a = run_first(x, o, p);
        let b = run_last(x, o, p);
        if in_burst(x, o, p) {
            lemma_run_range(x, o, p);
            lemma_run_max_congruent(x, x2, o, a, b);
            assert(same_payment(x2[o[a] as int], x[o[a] as int]));
            assert(same_payment(x2[o[b] as int], x[o[b] as int]));
            assert(burst_factor(x2, o, a, b) == burst_factor(x, o, a, b));
        }
    }
}

/// Every position after the first of a run continues the run.
proof fn lemma_run_linked(items: Seq<Transaction>, o: Seq<usize>, p: int, r: int)
    requires
        0 <= p < o.len(),
        run_first(items, o, p) < r <= run_last(items, o, p),
    ensures
        burst_linked(items, o, r),
    decreases o.len() - p, p,
{
    lemma_run_range(items, o, p);
    if r <= p {
        // the run grows backwards from p
        if r < p {
            assert(0 < p && burst_linked(items, o, p));
            lemma_run_range(items, o, p - 1);
            lemma_run_linked_back(items, o, p, r);
        } else {
            assert(run_first(items, o, p) < p);
        }
    } else {
        assert(p + 1 < o.len() && burst_linked(items, o, p + 1));
        assert(run_first(items, o, p + 1) == run_first(items, o, p));
        lemma_run_linked(items, o, p + 1, r);
    }
}

proof fn lemma_run_linked_back(items: Seq<Transaction>, o: Seq<usize>, p: int, r: int)
    requires
        0 <= p < o.len(),
        run_first(items, o, p) < r <= p,
    ensures
        burst_linked(items, o, r),
    decreases p,
{
    assert(0 < p && burst_linked(items, o, p));
    if r < p {
        lemma_run_linked_back(items, o, p - 1, r);
    }
}

/// The largest amount of positions `a..=b` is no more than any bound all of them meet.
proof fn lemma_run_max_amount_bound(items: Seq<Transaction>, o: Seq<usize>, a: int, b: int)
    requires
        a <= b,
        forall|q: int| a <= q <= b ==> #[trigger] items[o[q] as int].amount <= CARD_TESTING_BURST_MAX_AMOUNT,
    ensures
        run_max_amount(items, o, a, b) <= CARD_TESTING_BURST_MAX_AMOUNT,
    decreases b - a,
{
    if b > a {
        lemma_run_max_amount_bound(items, o, a, b - 1);
    }
}

/// Only small online charges are part of a card test: a transaction that gets a card-testing
/// factor is online and at most the small amount, and so is every charge of its burst, which
/// counts at least the minimum number of them.
pub proof fn lemma_burst_charges(old_items: Seq<Transaction>, new_items: Seq<Transaction>, p: int)
    requires
        applied(old_items, new_items),
        old_items.len() <= usize::MAX,
        0 <= p < old_items.len(),
        new_items[chrono_order(old_items)[p] as int].fraud_factors@ != old_items[chrono_order(old_items)[p] as int].fraud_factors@,
    ensures
        ({
            let i = chrono_order(old_items)[p] as int;
            &&& old_items[i].channel == Channel::Online
            &&& old_items[i].amount <= CARD_TESTING_BURST_MAX_AMOUNT
            &&& new_items[i].fraud_factors@.last() matches FraudFactor::CardTestingBurst { transaction_count, max_amount, .. }
                && transaction_count >= CARD_TESTING_BURST_MIN_COUNT && max_amount <= CARD_TESTING_BURST_MAX_AMOUNT
        }),
{
    let o = chrono_order(old_items);
    let i = o[p] as int;
    assert(burst_effect(old_items, new_items, o, p));
    let a = run_first(old_items, o, p);
    let b = run_last(old_items, o, p);
    lemma_run_range(old_items, o, p);
    assert(in_burst(old_items, o, p));
    assert forall|q: int| a <= q <= b implies #[trigger] burst_candidate(old_items[o[q] as int]) by {
        if q > a {
            lemma_run_linked(old_items, o, p, q);
        } else {
            lemma_run_linked(old_items, o, p, a + 1);
        }
    }
    assert forall|q: int| a <= q <= b implies #[trigger] old_items[o[q] as int].amount <= CARD_TESTING_BURST_MAX_AMOUNT by {
        assert(burst_candidate(old_items[o[q] as int]));
    }
    assert(burst_candidate(old_items[o[p] as int]));
    lemma_run_max_amount_bound(old_items, o, a, b);
    assert(new_items[i].fraud_factors@.last() == burst_factor(old_items, o, a, b));
}

} // verus!
