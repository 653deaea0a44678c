//! Foreign trips: transactions of a card made from another country than the card's usual one.

use vstd::prelude::*;

use crate::data::country::Country;
use crate::data::channel::Channel;
use crate::data::human_review_status::HumanReviewStatus;
use crate::data::timestamp::{elapsed, rank, Timestamp};
use crate::data::transaction::{mirrors, same_payment, same_payments_and_factors, Transaction};
use crate::data::transactions::Transactions;
use crate::process::card_statistics::{FraudFactor, VACATION_GAP_THRESHOLD, VACATION_SPAN_THRESHOLD};
use crate::process::order::{
    chrono_order, chrono_order_of, is_chrono_order, lemma_chrono_order_congruent, lemma_chrono_order_distinct,
    lemma_chrono_order_time,
};

verus! {

/// The cardholder country of the transaction at position `q` of the order.
pub open spec fn country_at(items: Seq<Transaction>, o: Seq<usize>, q: int) -> Country {
    items[o[q] as int].cardholder_country
}

/// Where the transaction at position `q` of the order stands on the time line.
pub open spec fn time_at(items: Seq<Transaction>, o: Seq<usize>, q: int) -> int {
    rank(items[o[q] as int].timestamp)
}

/// The time, in seconds, from the transaction at position `q - 1` of the order to the one
/// at position `q`.
pub open spec fn gap_at(items: Seq<Transaction>, o: Seq<usize>, q: int) -> int {
    elapsed(items[o[q] as int].timestamp, items[o[q - 1] as int].timestamp)
}

/// Positions `q - 1` and `q` hold transactions of the same card.
pub open spec fn same_card_at(items: Seq<Transaction>, o: Seq<usize>, q: int) -> bool {
    1 <= q < o.len() && items[o[q - 1] as int].card_id == items[o[q] as int].card_id
}

/// The first position of the card of position `p`.
pub open spec fn card_first(items: Seq<Transaction>, o: Seq<usize>, p: int) -> int
    decreases p,
{
    if 0 < p && same_card_at(items, o, p) {
        card_first(items, o, p - 1)
    } else {
        p
    }
}

/// The last position of the card of position `p`.
pub open spec fn card_last(items: Seq<Transaction>, o: Seq<usize>, p: int) -> int
    decreases o.len() - p,
{
    if 0 <= p && p + 1 < o.len() && same_card_at(items, o, p + 1) {
        card_last(items, o, p + 1)
    } else {
        p
    }
}

/// How many of the positions `s..e` are in country `c`.
pub open spec fn count_in(items: Seq<Transaction>, o: Seq<usize>, s: int, e: int, c: Country) -> nat
    decreases e - s,
{
    if e <= s {
        0
    } else {
        count_in(items, o, s, e - 1, c) + if country_at(items, o, e - 1) == c {
            1nat
        } else {
            0nat
        }
    }
}

/// The time of the first of the positions `s..e` in country `c`.
pub open spec fn first_time_in(items: Seq<Transaction>, o: Seq<usize>, s: int, e: int, c: Country) -> int
    decreases e - s,
{
    if e <= s {
        0
    } else if country_at(items, o, s) == c {
        time_at(items, o, s)
    } else {
        first_time_in(items, o, s + 1, e, c)
    }
}

/// Alphabetical order of alpha-2 codes.
pub open spec fn alpha2_lt(c: Country, d: Country) -> bool {
    c.first < d.first || (c.first == d.first && c.second < d.second)
}

/// Country `c` has a better claim than `d` to be the card's home over positions `s..e`:
/// more transactions, then seen earlier, then alphabetically first.
pub open spec fn more_primary(
    items: Seq<Transaction>,
    o: Seq<usize>,
    s: int,
    e: int,
    c: Country,
    d: Country,
) -> bool {
    let nc = count_in(items, o, s, e, c);
    let nd = count_in(items, o, s, e, d);
    let fc = first_time_in(items, o, s, e, c);
    let fd = first_time_in(items, o, s, e, d);
    ||| nc > nd
    ||| nc == nd && fc < fd
    ||| nc == nd && fc == fd && alpha2_lt(c, d)
}

/// Country `c` occurs in positions `s..e` and has a better claim than every other one.
pub open spec fn is_primary_in(items: Seq<Transaction>, o: Seq<usize>, s: int, e: int, c: Country) -> bool {
    &&& count_in(items, o, s, e, c) > 0
    &&& forall|d: Country|
        #![trigger count_in(items, o, s, e, d)]
        count_in(items, o, s, e, d) > 0 && d != c ==> more_primary(items, o, s, e, c, d)
}

/// The home country over positions `s..e` (unique, see [`lemma_primary_unique`]).
pub open spec fn primary_in(items: Seq<Transaction>, o: Seq<usize>, s: int, e: int) -> Country {
    choose|c: Country| is_primary_in(items, o, s, e, c)
}

/// The home country of the card of position `p`.
pub open spec fn primary_at(items: Seq<Transaction>, o: Seq<usize>, p: int) -> Country {
    primary_in(items, o, card_first(items, o, p), card_last(items, o, p) + 1)
}

/// Position `q` continues the country run of the position before it.
pub open spec fn trip_linked(items: Seq<Transaction>, o: Seq<usize>, q: int) -> bool {
    same_card_at(items, o, q) && country_at(items, o, q - 1) == country_at(items, o, q)
}

/// The first position of the country run containing `p`.
pub open spec fn trip_first(items: Seq<Transaction>, o: Seq<usize>, p: int) -> int
    decreases p,
{
    if 0 < p && trip_linked(items, o, p) {
        trip_first(items, o, p - 1)
    } else {
        p
    }
}

/// The last position of the country run containing `p`.
pub open spec fn trip_last(items: Seq<Transaction>, o: Seq<usize>, p: int) -> int
    decreases o.len() - p,
{
    if 0 <= p && p + 1 < o.len() && trip_linked(items, o, p + 1) {
        trip_last(items, o, p + 1)
    } else {
        p
    }
}

/// The transaction at position `p` is a physical payment (not an online one) made away from
/// the card's home country.
pub open spec fn on_trip(items: Seq<Transaction>, o: Seq<usize>, p: int) -> bool {
    &&& country_at(items, o, p) != primary_at(items, o, p)
    &&& items[o[p] as int].channel != Channel::Online
}

/// Whether the trip `a..=b` of a card whose transactions span `s..=t` looks like travel:
/// a single transaction with at least a day of quiet on both sides, or a run spanning at
/// least a day.
pub open spec fn trip_is_vacation(items: Seq<Transaction>, o: Seq<usize>, s: int, t: int, a: int, b: int) -> bool {
    if a == b {
        &&& a > s && gap_at(items, o, a) >= VACATION_GAP_THRESHOLD
        &&& b < t && gap_at(items, o, b + 1) >= VACATION_GAP_THRESHOLD
    } else {
        elapsed(items[o[b] as int].timestamp, items[o[a] as int].timestamp) >= VACATION_SPAN_THRESHOLD
    }
}

/// The factor given to each transaction of the trip containing position `p`.
pub open spec fn trip_factor(items: Seq<Transaction>, o: Seq<usize>, p: int) -> FraudFactor {
    let s = card_first(items, o, p);
    let t = card_last(items, o, p);
    let a = trip_first(items, o, p);
    let b = trip_last(items, o, p);
    FraudFactor::ForeignCountryTrip {
        country: country_at(items, o, p),
        primary_country: primary_at(items, o, p),
        transaction_count: (b - a + 1) as usize,
        trip_start: items[o[a] as int].timestamp,
        trip_end: items[o[b] as int].timestamp,
        gap_before: if a > s {
            Some(gap_at(items, o, a) as i64)
        } else {
            None
        },
        gap_after: if b < t {
            Some(gap_at(items, o, b + 1) as i64)
        } else {
            None
        },
        likely_vacation: trip_is_vacation(items, o, s, t, a, b),
    }
}

/// What the pass does to the transaction at position `p` of the order.
pub open spec fn trip_effect(
    old_items: Seq<Transaction>,
    new_items: Seq<Transaction>,
    o: Seq<usize>,
    p: int,
) -> bool {
    let i = o[p] as int;
    &&& same_payment(new_items[i], old_items[i])
    &&& if on_trip(old_items, o, p) {
        &&& new_items[i].fraud_factors@ == old_items[i].fraud_factors@.push(
            trip_factor(old_items, o, p),
        )
        &&& new_items[i].human_review_status == HumanReviewStatus::NeedCheck
    } else {
        &&& new_items[i].fraud_factors@ == old_items[i].fraud_factors@
        &&& new_items[i].human_review_status == old_items[i].human_review_status
    }
}

// ---------------------------------------------------------------------------------------
// facts about the home country

proof fn lemma_more_primary_order(
    items: Seq<Transaction>,
    o: Seq<usize>,
    s: int,
    e: int,
    c: Country,
    d: Country,
    f: Country,
)
    ensures
        c != d ==> (more_primary(items, o, s, e, c, d) || more_primary(items, o, s, e, d, c)),
        !(more_primary(items, o, s, e, c, d) && more_primary(items, o, s, e, d, c)),
        more_primary(items, o, s, e, c, d) && more_primary(items, o, s, e, d, f) ==> more_primary(
            items,
            o,
            s,
            e,
            c,
            f,
        ),
{
}

/// There is at most one home country.
pub proof fn lemma_primary_unique(items: Seq<Transaction>, o: Seq<usize>, s: int, e: int, c: Country, d: Country)
    requires
        is_primary_in(items, o, s, e, c),
        is_primary_in(items, o, s, e, d),
    ensures
        c == d,
{
    if c != d {
        lemma_more_primary_order(items, o, s, e, c, d, d);
        assert(count_in(items, o, s, e, d) > 0);
        assert(count_in(items, o, s, e, c) > 0);
    }
}

proof fn lemma_count_in_split(items: Seq<Transaction>, o: Seq<usize>, s: int, p: int, c: Country)
    requires
        s <= p,
    ensures
        count_in(items, o, s, p + 1, c) == count_in(items, o, s, p, c) + if country_at(items, o, p) == c {
            1nat
        } else {
            0nat
        },
{
}

proof fn lemma_count_in_zero(items: Seq<Transaction>, o: Seq<usize>, s: int, p: int, c: Country)
    requires
        s <= p,
        forall|q: int| s <= q < p ==> country_at(items, o, q) != c,
    ensures
        count_in(items, o, s, p, c) == 0,
    decreases p - s,
{
    if p > s {
        lemma_count_in_zero(items, o, s, p - 1, c);
    }
}

proof fn lemma_count_in_positive(items: Seq<Transaction>, o: Seq<usize>, s: int, p: int, c: Country)
    requires
        s <= p,
        count_in(items, o, s, p, c) > 0,
    ensures
        exists|q: int| s <= q < p && country_at(items, o, q) == c,
    decreases p - s,
{
    if p > s && country_at(items, o, p - 1) != c {
        lemma_count_in_positive(items, o, s, p - 1, c);
        let q = choose|q: int| s <= q < p - 1 && country_at(items, o, q) == c;
        assert(s <= q < p && country_at(items, o, q) == c);
    }
}

proof fn lemma_first_time_at(items: Seq<Transaction>, o: Seq<usize>, s: int, p: int, e: int, c: Country)
    requires
        s <= p < e,
        country_at(items, o, p) == c,
        forall|q: int| s <= q < p ==> country_at(items, o, q) != c,
    ensures
        first_time_in(items, o, s, e, c) == time_at(items, o, p),
    decreases p - s,
{
    if s < p {
        lemma_first_time_at(items, o, s + 1, p, e, c);
    }
}

// ---------------------------------------------------------------------------------------
// runs of positions

proof fn lemma_card_bounds(items: Seq<Transaction>, o: Seq<usize>, s: int, e: int, q: int)
    requires
        0 <= s <= q < e <= o.len(),
        s == 0 || !same_card_at(items, o, s),
        e == o.len() || !same_card_at(items, o, e),
        forall|r: int| s < r < e ==> same_card_at(items, o, r),
    ensures
        card_first(items, o, q) == s,
        card_last(items, o, q) == e - 1,
    decreases q - s,
{
    lemma_card_last(items, o, s, e, q);
    if q > s {
        lemma_card_bounds(items, o, s, e, q - 1);
    }
}

proof fn lemma_card_last(items: Seq<Transaction>, o: Seq<usize>, s: int, e: int, q: int)
    requires
        0 <= s <= q < e <= o.len(),
        e == o.len() || !same_card_at(items, o, e),
        forall|r: int| s < r < e ==> same_card_at(items, o, r),
    ensures
        card_last(items, o, q) == e - 1,
    decreases e - q,
{
    if q + 1 < e {
        lemma_card_last(items, o, s, e, q + 1);
    }
}

proof fn lemma_trip_bounds(items: Seq<Transaction>, o: Seq<usize>, a: int, b: int, q: int)
    requires
        0 <= a <= q <= b < o.len(),
        a == 0 || !trip_linked(items, o, a),
        b + 1 == o.len() || !trip_linked(items, o, b + 1),
        forall|r: int| a < r <= b ==> trip_linked(items, o, r),
    ensures
        trip_first(items, o, q) == a,
        trip_last(items, o, q) == b,
    decreases q - a,
{
    lemma_trip_last(items, o, a, b, q);
    if q > a {
        lemma_trip_bounds(items, o, a, b, q - 1);
    }
}

proof fn lemma_trip_last(items: Seq<Transaction>, o: Seq<usize>, a: int, b: int, q: int)
    requires
        0 <= a <= q <= b < o.len(),
        b + 1 == o.len() || !trip_linked(items, o, b + 1),
        forall|r: int| a < r <= b ==> trip_linked(items, o, r),
    ensures
        trip_last(items, o, q) == b,
    decreases b - q,
{
    if q < b {
        lemma_trip_last(items, o, a, b, q + 1);
    }
}

// ---------------------------------------------------------------------------------------
// executable parts


fn country_of(items: &Vec<Transaction>, o: &Vec<usize>, q: usize, Ghost(old_items): Ghost<Seq<Transaction>>) -> (c: Country)
    requires
        is_chrono_order(old_items, o@),
        mirrors(items@, old_items),
        q < o@.len(),
    ensures
        c == country_at(old_items, o@, q as int),
{
    assert(same_payment(items@[o@[q as int] as int], old_items[o@[q as int] as int]));
    items[o[q]].cardholder_country
}

fn time_of(items: &Vec<Transaction>, o: &Vec<usize>, q: usize, Ghost(old_items): Ghost<Seq<Transaction>>) -> (t: i64)
    requires
        is_chrono_order(old_items, o@),
        mirrors(items@, old_items),
        q < o@.len(),
    ensures
        t == time_at(old_items, o@, q as int),
{
    assert(same_payment(items@[o@[q as int] as int], old_items[o@[q as int] as int]));
    items[o[q]].timestamp.rank_value()
}

fn gap_of(items: &Vec<Transaction>, o: &Vec<usize>, q: usize, Ghost(old_items): Ghost<Seq<Transaction>>) -> (t: i64)
    requires
        is_chrono_order(old_items, o@),
        mirrors(items@, old_items),
        1 <= q < o@.len(),
    ensures
        t == gap_at(old_items, o@, q as int),
{
    assert(same_payment(items@[o@[q as int] as int], old_items[o@[q as int] as int]));
    assert(same_payment(items@[o@[q - 1] as int], old_items[o@[q - 1] as int]));
    items[o[q]].timestamp.elapsed_since(&items[o[q - 1]].timestamp)
}

fn alpha2_less(c: Country, d: Country) -> (r: bool)
    ensures
        r == alpha2_lt(c, d),
{
    c.first < d.first || (c.first == d.first && c.second < d.second)
}

/// The home country of the card whose transactions are at positions `s..e`: none when there
/// are none, otherwise the country it is used from most often (then the one seen first, then
/// the alphabetically first).
fn primary_country_for_card(
    items: &Vec<Transaction>,
    o: &Vec<usize>,
    s: usize,
    e: usize,
    Ghost(old_items): Ghost<Seq<Transaction>>,
) -> (r: Option<Country>)
    requires
        is_chrono_order(old_items, o@),
        mirrors(items@, old_items),
        s <= e <= o@.len(),
    ensures
        r is None <==> s == e,
        r matches Some(c) ==> c == primary_in(old_items, o@, s as int, e as int) && is_primary_in(
            old_items,
            o@,
            s as int,
            e as int,
            c,
        ),
{
    if s == e {
        return None;
    }
    let ghost ss = s as int;
    let ghost ee = e as int;
    let mut best = country_of(items, o, s, Ghost(old_items));
    let mut best_count = count_country(items, o, s, e, best, Ghost(old_items));
    let mut best_first = time_of(items, o, s, Ghost(old_items));
    proof {
        lemma_first_time_at(old_items, o@, ss, ss, ee, best);
        assert forall|d: Country| #[trigger] count_in(old_items, o@, ss, ss + 1, d) > 0 implies d == best by {
            lemma_count_in_split(old_items, o@, ss, ss, d);
        }
    }
    let mut p = s + 1;
    while p < e
        invariant
            is_chrono_order(old_items, o@),
            mirrors(items@, old_items),
            ss == s,
            ee == e,
            s < p <= e <= o@.len(),
            best_count == count_in(old_items, o@, ss, ee, best),
            best_first == first_time_in(old_items, o@, ss, ee, best),
            count_in(old_items, o@, ss, p as int, best) > 0,
            forall|d: Country|
                #[trigger] count_in(old_items, o@, ss, p as int, d) > 0 && d != best ==> more_primary(
                    old_items,
                    o@,
                    ss,
                    ee,
                    best,
                    d,
                ),
        decreases e - p,
    {
        let c = country_of(items, o, p, Ghost(old_items));
        let seen = seen_before(items, o, s, p, c, Ghost(old_items));
        let ghost pp = p as int;
        proof {
            assert forall|d: Country| d != c implies #[trigger] count_in(old_items, o@, ss, pp + 1, d)
                == count_in(old_items, o@, ss, pp, d) by {
                lemma_count_in_split(old_items, o@, ss, pp, d);
            }
            lemma_count_in_split(old_items, o@, ss, pp, c);
        }
        if !seen {
            let n = count_country(items, o, s, e, c, Ghost(old_items));
            let f = time_of(items, o, p, Ghost(old_items));
            proof {
                lemma_first_time_at(old_items, o@, ss, pp, ee, c);
                lemma_count_in_zero(old_items, o@, ss, pp, c);
                assert(c != best);
            }
            if n > best_count || (n == best_count && f < best_first) || (n == best_count && f
                == best_first && alpha2_less(c, best)) {
                proof {
                    assert(more_primary(old_items, o@, ss, ee, c, best));
                    assert forall|d: Country|
                        #[trigger] count_in(old_items, o@, ss, pp + 1, d) > 0 && d != c implies more_primary(
                        old_items,
                        o@,
                        ss,
                        ee,
                        c,
                        d,
                    ) by {
                        assert(count_in(old_items, o@, ss, pp, d) > 0);
                        if d != best {
                            lemma_more_primary_order(old_items, o@, ss, ee, c, best, d);
                        }
                    }
                }
                best = c;
                best_count = n;
                best_first = f;
            } else {
                proof {
                    lemma_more_primary_order(old_items, o@, ss, ee, c, best, best);
                    assert(more_primary(old_items, o@, ss, ee, best, c));
                    assert forall|d: Country|
                        #[trigger] count_in(old_items, o@, ss, pp + 1, d) > 0 && d != best implies more_primary(
                        old_items,
                        o@,
                        ss,
                        ee,
                        best,
                        d,
                    ) by {
                        if d != c {
                            assert(count_in(old_items, o@, ss, pp, d) > 0);
                        }
                    }
                }
            }
        } else {
            proof {
                let q = choose|q: int| ss <= q < pp && country_at(old_items, o@, q) == c;
                lemma_count_in_positive_at(old_items, o@, ss, pp, q, c);
                assert forall|d: Country|
                    #[trigger] count_in(old_items, o@, ss, pp + 1, d) > 0 && d != best implies more_primary(
                    old_items,
                    o@,
                    ss,
                    ee,
                    best,
                    d,
                ) by {
                    assert(count_in(old_items, o@, ss, pp, d) > 0);
                }
            }
        }
        p += 1;
    }
    proof {
        assert(is_primary_in(old_items, o@, ss, ee, best));
        lemma_primary_unique(old_items, o@, ss, ee, best, primary_in(old_items, o@, ss, ee));
    }
    Some(best)
}

proof fn lemma_count_in_positive_at(items: Seq<Transaction>, o: Seq<usize>, s: int, p: int, q: int, c: Country)
    requires
        s <= q < p,
        country_at(items, o, q) == c,
    ensures
        count_in(items, o, s, p, c) > 0,
    decreases p - s,
{
    if q < p - 1 {
        lemma_count_in_positive_at(items, o, s, p - 1, q, c);
    }
}

/// Whether country `c` occurs at one of the positions `s..p`.
fn seen_before(
    items: &Vec<Transaction>,
    o: &Vec<usize>,
    s: usize,
    p: usize,
    c: Country,
    Ghost(old_items): Ghost<Seq<Transaction>>,
) -> (r: bool)
    requires
        is_chrono_order(old_items, o@),
        mirrors(items@, old_items),
        s <= p <= o@.len(),
    ensures
        r == exists|q: int| s <= q < p && country_at(old_items, o@, q) == c,
{
    let mut q = s;
    while q < p
        invariant
            is_chrono_order(old_items, o@),
            mirrors(items@, old_items),
            s <= q <= p <= o@.len(),
            forall|r: int| s <= r < q ==> country_at(old_items, o@, r) != c,
        decreases p - q,
    {
        if country_of(items, o, q, Ghost(old_items)) == c {
            return true;
        }
        q += 1;
    }
    false
}

/// How many of the positions `s..e` are in country `c`.
fn count_country(
    items: &Vec<Transaction>,
    o: &Vec<usize>,
    s: usize,
    e: usize,
    c: Country,
    Ghost(old_items): Ghost<Seq<Transaction>>,
) -> (n: usize)
    requires
        is_chrono_order(old_items, o@),
        mirrors(items@, old_items),
        s <= e <= o@.len(),
    ensures
        n == count_in(old_items, o@, s as int, e as int, c),
{
    let mut n: usize = 0;
    let mut q = s;
    while q < e
        invariant
            is_chrono_order(old_items, o@),
            mirrors(items@, old_items),
            s <= q <= e <= o@.len(),
            n == count_in(old_items, o@, s as int, q as int, c),
            n <= q - s,
        decreases e - q,
    {
        proof {
            lemma_count_in_split(old_items, o@, s as int, q as int, c);
        }
        if country_of(items, o, q, Ghost(old_items)) == c {
            n += 1;
        }
        q += 1;
    }
    n
}

/// Flags the foreign trips of the card whose transactions are at positions `s..e`.
fn flag_card(
    items: &mut Vec<Transaction>,
    o: &Vec<usize>,
    s: usize,
    e: usize,
    Ghost(old_items): Ghost<Seq<Transaction>>,
)
    requires
        is_chrono_order(old_items, o@),
        old(items)@.len() == old_items.len(),
        s < e <= o@.len(),
        s == 0 || !same_card_at(old_items, o@, s as int),
        e == o@.len() || !same_card_at(old_items, o@, e as int),
        forall|r: int| s < r < e ==> same_card_at(old_items, o@, r),
        forall|q: int| s <= q < e ==> old(items)@[#[trigger] o@[q] as int] == old_items[o@[q] as int],
        forall|i: int| 0 <= i < old_items.len() ==> same_payment(#[trigger] old(items)@[i], old_items[i]),
    ensures
        final(items)@.len() == old_items.len(),
        forall|i: int| 0 <= i < old_items.len() ==> same_payment(#[trigger] final(items)@[i], old_items[i]),
        forall|q: int| s <= q < e ==> trip_effect(old_items, final(items)@, o@, q),
        forall|q: int|
            0 <= q < o@.len() && !(s <= q < e) ==> #[trigger] final(items)@[o@[q] as int] == old(
                items,
            )@[o@[q] as int],
{
    let ghost start_items = items@;
    proof {
        assert forall|q: int| s <= q < e implies card_first(old_items, o@, q) == s && card_last(
            old_items,
            o@,
            q,
        ) == e - 1 by {
            lemma_card_bounds(old_items, o@, s as int, e as int, q);
        }
    }
    // the home country is computed on the untouched records of this card
    let primary = match primary_country_for_card(items, o, s, e, Ghost(old_items)) {
        Some(c) => c,
        None => {
            return;
        },
    };
    let mut cursor = s;
    while cursor < e
        invariant
            is_chrono_order(old_items, o@),
            s <= cursor <= e <= o@.len(),
            items@.len() == old_items.len(),
            s == 0 || !same_card_at(old_items, o@, s as int),
            e == o@.len() || !same_card_at(old_items, o@, e as int),
            forall|r: int| s < r < e ==> same_card_at(old_items, o@, r),
            forall|q: int| s <= q < e ==> card_first(old_items, o@, q) == s && card_last(old_items, o@, q) == e - 1,
            primary == primary_in(old_items, o@, s as int, e as int),
            cursor == s || !trip_linked(old_items, o@, cursor as int),
            forall|i: int| 0 <= i < old_items.len() ==> same_payment(#[trigger] items@[i], old_items[i]),
            forall|q: int| cursor <= q < e ==> items@[#[trigger] o@[q] as int] == old_items[o@[q] as int],
            forall|q: int| s <= q < cursor ==> trip_effect(old_items, items@, o@, q),
            forall|q: int|
                0 <= q < o@.len() && !(s <= q < cursor) ==> #[trigger] items@[o@[q] as int] == start_items[o@[q] as int],
        decreases e - cursor,
    {
        let a = cursor;
        let country = country_of(items, o, a, Ghost(old_items));
        let mut b = a;
        while b + 1 < e && country_of(items, o, b + 1, Ghost(old_items)) == country
            invariant
                is_chrono_order(old_items, o@),
                a <= b < e <= o@.len(),
                items@.len() == old_items.len(),
                mirrors(items@, old_items),
                forall|r: int| s < r < e ==> same_card_at(old_items, o@, r),
                forall|q: int| cursor <= q < e ==> items@[#[trigger] o@[q] as int] == old_items[o@[q] as int],
                country == country_at(old_items, o@, a as int),
                forall|r: int| a < r <= b ==> trip_linked(old_items, o@, r),
                s <= a,
                a == cursor,
            decreases e - b,
        {
            proof {
                lemma_run_country(old_items, o@, a as int, b as int);
                assert(same_card_at(old_items, o@, b + 1));
                assert(trip_linked(old_items, o@, b + 1));
            }
            b += 1;
        }
        proof {
            lemma_run_country(old_items, o@, a as int, b as int);
            assert forall|q: int| a <= q <= b implies trip_first(old_items, o@, q) == a && trip_last(
                old_items,
                o@,
                q,
            ) == b by {
                lemma_trip_bounds(old_items, o@, a as int, b as int, q);
            }
            assert forall|q: int| a <= q <= b implies country_at(old_items, o@, q) == country by {
                lemma_run_country(old_items, o@, a as int, q);
            }
        }
        if country != primary {
            let trip_start: Timestamp = items[o[a]].timestamp;
            let trip_end: Timestamp = items[o[b]].timestamp;
            proof {
                assert(items@[o@[a as int] as int] == old_items[o@[a as int] as int]);
                assert(items@[o@[b as int] as int] == old_items[o@[b as int] as int]);
                lemma_chrono_order_time_range(old_items, o@, s as int, e as int, a as int, b as int);
            }
            let gap_before: Option<i64> = if a > s {
                proof {
                    assert(same_card_at(old_items, o@, a as int));
                    lemma_chrono_order_time(old_items, o@, a - 1, a as int);
                }
                Some(gap_of(items, o, a, Ghost(old_items)))
            } else {
                None
            };
            let gap_after: Option<i64> = if b + 1 < e {
                proof {
                    assert(same_card_at(old_items, o@, b + 1));
                    lemma_chrono_order_time(old_items, o@, b as int, b + 1);
                }
                Some(gap_of(items, o, b + 1, Ghost(old_items)))
            } else {
                None
            };
            let count = b - a + 1;
            let span = trip_end.elapsed_since(&trip_start);
            let likely_vacation = if count == 1 {
                match (gap_before, gap_after) {
                    (Some(before), Some(after)) => before >= VACATION_GAP_THRESHOLD && after
                        >= VACATION_GAP_THRESHOLD,
                    _ => false,
                }
            } else {
                span >= VACATION_SPAN_THRESHOLD
            };
            let mut pos = a;
            while pos <= b
                invariant
                    is_chrono_order(old_items, o@),
                    s <= a <= pos <= b + 1,
                    b < e <= o@.len(),
                    items@.len() == old_items.len(),
                    forall|q: int| s <= q < e ==> card_first(old_items, o@, q) == s && card_last(old_items, o@, q) == e - 1,
                    forall|q: int| a <= q <= b ==> trip_first(old_items, o@, q) == a && trip_last(old_items, o@, q) == b,
                    forall|q: int| a <= q <= b ==> country_at(old_items, o@, q) == country,
                    country != primary,
                    primary == primary_in(old_items, o@, s as int, e as int),
                    trip_start == old_items[o@[a as int] as int].timestamp,
                    trip_end == old_items[o@[b as int] as int].timestamp,
                    count == b - a + 1,
                    gap_before == (if a > s {
                        Some(gap_at(old_items, o@, a as int) as i64)
                    } else {
                        None::<i64>
                    }),
                    gap_after == (if b < e - 1 {
                        Some(gap_at(old_items, o@, b + 1) as i64)
                    } else {
                        None::<i64>
                    }),
                    likely_vacation == trip_is_vacation(old_items, o@, s as int, e - 1, a as int, b as int),
                    forall|i: int| 0 <= i < old_items.len() ==> same_payment(#[trigger] items@[i], old_items[i]),
                    forall|q: int| pos <= q < e ==> items@[#[trigger] o@[q] as int] == old_items[o@[q] as int],
                    forall|q: int| s <= q < pos ==> trip_effect(old_items, items@, o@, q),
                    forall|q: int|
                        0 <= q < o@.len() && !(s <= q < pos) ==> #[trigger] items@[o@[q] as int] == start_items[o@[q] as int],
                decreases b + 1 - pos,
            {
                let idx = o[pos];
                let ghost before = items@;
                if !matches!(items[idx].channel, Channel::Online) {
                    items[idx].fraud_factors.push(
                        FraudFactor::ForeignCountryTrip {
                            country,
                            primary_country: primary,
                            transaction_count: count,
                            trip_start,
                            trip_end,
                            gap_before,
                            gap_after,
                            likely_vacation,
                        },
                    );
                    items[idx].human_review_status = HumanReviewStatus::NeedCheck;
                }
                proof {
                    assert forall|q: int| 0 <= q < o@.len() && q != pos implies #[trigger] items@[o@[q] as int]
                        == before[o@[q] as int] by {
                        lemma_chrono_order_distinct(old_items, o@, q, pos as int);
                    }
                    assert(trip_effect(old_items, items@, o@, pos as int));
                    assert forall|q: int| s <= q < pos implies trip_effect(old_items, items@, o@, q) by {
                        assert(items@[o@[q] as int] == before[o@[q] as int]);
                        assert(trip_effect(old_items, before, o@, q));
                    }
                }
                pos += 1;
            }
        } else {
            proof {
                assert forall|q: int| s <= q <= b implies trip_effect(old_items, items@, o@, q) by {
                    if q >= a {
                        assert(items@[o@[q] as int] == old_items[o@[q] as int]);
                    }
                }
            }
        }
        proof {
            if b + 1 < e {
                assert(!trip_linked(old_items, o@, b + 1));
            }
        }
        cursor = b + 1;
    }
}

proof fn lemma_run_country(items: Seq<Transaction>, o: Seq<usize>, a: int, q: int)
    requires
        0 <= a <= q < o.len(),
        forall|r: int| a < r <= q ==> trip_linked(items, o, r),
    ensures
        country_at(items, o, q) == country_at(items, o, a),
    decreases q - a,
{
    if q > a {
        lemma_run_country(items, o, a, q - 1);
        assert(trip_linked(items, o, q));
    }
}

proof fn lemma_chrono_order_time_range(items: Seq<Transaction>, o: Seq<usize>, s: int, e: int, a: int, b: int)
    requires
        is_chrono_order(items, o),
        0 <= s <= a <= b < e <= o.len(),
        forall|r: int| s < r < e ==> same_card_at(items, o, r),
    ensures
        time_at(items, o, a) <= time_at(items, o, b),
    decreases b - a,
{
    if a < b {
        lemma_chrono_order_time_range(items, o, s, e, a, b - 1);
        assert(same_card_at(items, o, b));
        lemma_chrono_order_time(items, o, b - 1, b);
    }
}

/// Whether positions `p - 1` and `p` hold transactions of the same card.
fn same_card(items: &Vec<Transaction>, o: &Vec<usize>, p: usize, Ghost(old_items): Ghost<Seq<Transaction>>) -> (r: bool)
    requires
        is_chrono_order(old_items, o@),
        mirrors(items@, old_items),
        1 <= p < o@.len(),
    ensures
        r == same_card_at(old_items, o@, p as int),
{
    assert(same_payment(items@[o@[p - 1] as int], old_items[o@[p - 1] as int]));
    assert(same_payment(items@[o@[p as int] as int], old_items[o@[p as int] as int]));
    items[o[p - 1]].card_id.0 == items[o[p]].card_id.0
}

/// Whether `new_items` is `old_items` after the foreign trip pass (which follows the
/// card-then-time order of `old_items`).
pub open spec fn applied(old_items: Seq<Transaction>, new_items: Seq<Transaction>) -> bool {
    &&& new_items.len() == old_items.len()
    &&& is_chrono_order(old_items, chrono_order(old_items))
    &&& forall|p: int| 0 <= p < old_items.len() ==> #[trigger] trip_effect(old_items, new_items, chrono_order(old_items), p)
}

/// Flags every foreign trip.
///
/// Each card's transactions are followed in time order; the card's home country is the one
/// it is used from most often (then the one seen first, then the alphabetically first).
/// Every maximal run of consecutive transactions from one other country is a trip: each of
/// its physical (not online) transactions gets a [`FraudFactor::ForeignCountryTrip`]
/// describing the run and is marked for review. Nothing else changes.
pub fn apply(transactions: &mut Transactions)
    ensures
        applied(old(transactions).items@, final(transactions).items@),
{
    let ghost old_items = transactions.items@;
    let o = chrono_order_of(&transactions.items);
    let n = o.len();
    if n == 0 {
        return;
    }
    let mut start: usize = 0;
    let mut p: usize = 1;
    while p < n
        invariant
            is_chrono_order(old_items, o@),
            n == o@.len(),
            transactions.items@.len() == old_items.len(),
            start < p <= n,
            start == 0 || !same_card_at(old_items, o@, start as int),
            forall|r: int| start < r < p ==> same_card_at(old_items, o@, r),
            forall|i: int|
                0 <= i < old_items.len() ==> same_payment(#[trigger] transactions.items@[i], old_items[i]),
            forall|q: int| 0 <= q < start ==> trip_effect(old_items, transactions.items@, o@, q),
            forall|q: int|
                start <= q < n ==> #[trigger] transactions.items@[o@[q] as int] == old_items[o@[q] as int],
        decreases n - p,
    {
        let same = same_card(&transactions.items, &o, p, Ghost(old_items));
        if !same {
            let ghost before = transactions.items@;
            flag_card(&mut transactions.items, &o, start, p, Ghost(old_items));
            proof {
                assert forall|q: int| 0 <= q < start implies trip_effect(
                    old_items,
                    transactions.items@,
                    o@,
                    q,
                ) by {
                    assert(transactions.items@[o@[q] as int] == before[o@[q] as int]);
                    assert(trip_effect(old_items, before, o@, q));
                }
            }
            start = p;
        }
        p += 1;
    }
    let ghost before = transactions.items@;
    flag_card(&mut transactions.items, &o, start, n, Ghost(old_items));
    proof {
        assert forall|q: int| 0 <= q < n implies trip_effect(
            old_items,
            transactions.items@,
            o@,
            q,
        ) by {
            if q < start {
                assert(transactions.items@[o@[q] as int] == before[o@[q] as int]);
                assert(trip_effect(old_items, before, o@, q));
            }
        }
    }
}

// ---------------------------------------------------------------------------------------
// the pass reads only payments

/// Among the positions `s..p`, one country has the best claim to be the home over `s..e`.
proof fn lemma_best_country_upto(items: Seq<Transaction>, o: Seq<usize>, s: int, p: int, e: int)
    requires
        s < p <= e,
    ensures
        exists|best: Country|
            {
                &&& count_in(items, o, s, p, best) > 0
                &&& forall|d: Country|
                    #![trigger count_in(items, o, s, p, d)]
                    count_in(items, o, s, p, d) > 0 && d != best ==> more_primary(items, o, s, e, best, d)
            },
    decreases p - s,
{
    if p == s + 1 {
        let best = country_at(items, o, s);
        assert forall|d: Country| #![trigger count_in(items, o, s, p, d)] count_in(items, o, s, p, d) > 0 && d != best implies more_primary(
            items,
            o,
            s,
            e,
            best,
            d,
        ) by {
            lemma_count_in_split(items, o, s, s, d);
        }
        lemma_count_in_split(items, o, s, s, best);
    } else {
        let q = p - 1;
        lemma_best_country_upto(items, o, s, q, e);
        let best = choose|best: Country|
            {
                &&& count_in(items, o, s, q, best) > 0
                &&& forall|d: Country|
                    #![trigger count_in(items, o, s, q, d)]
                    count_in(items, o, s, q, d) > 0 && d != best ==> more_primary(items, o, s, e, best, d)
            };
        let c = country_at(items, o, q);
        lemma_count_in_split(items, o, s, q, best);
        lemma_count_in_split(items, o, s, q, c);
        if c == best || more_primary(items, o, s, e, best, c) {
            assert forall|d: Country| #![trigger count_in(items, o, s, p, d)] count_in(items, o, s, p, d) > 0 && d != best implies more_primary(
                items,
                o,
                s,
                e,
                best,
                d,
            ) by {
                lemma_count_in_split(items, o, s, q, d);
                if d != c {
                    assert(count_in(items, o, s, q, d) > 0);
                }
            }
        } else {
            lemma_more_primary_order(items, o, s, e, c, best, best);
            assert forall|d: Country| #![trigger count_in(items, o, s, p, d)] count_in(items, o, s, p, d) > 0 && d != c implies more_primary(
                items,
                o,
                s,
                e,
                c,
                d,
            ) by {
                lemma_count_in_split(items, o, s, q, d);
                assert(count_in(items, o, s, q, d) > 0);
                if d != best {
                    assert(more_primary(items, o, s, e, best, d));
                    lemma_more_primary_order(items, o, s, e, c, best, d);
                }
            }
        }
    }
}

/// A nonempty range of positions has a home country.
proof fn lemma_primary_exists(items: Seq<Transaction>, o: Seq<usize>, s: int, e: int)
    requires
        s < e,
    ensures
        is_primary_in(items, o, s, e, primary_in(items, o, s, e)),
{
    lemma_best_country_upto(items, o, s, e, e);
    let best = choose|best: Country|
        {
            &&& count_in(items, o, s, e, best) > 0
            &&& forall|d: Country|
                #![trigger count_in(items, o, s, e, d)]
                count_in(items, o, s, e, d) > 0 && d != best ==> more_primary(items, o, s, e, best, d)
        };
    assert(is_primary_in(items, o, s, e, best));
}

/// Every position of `o` holds, in `x2`, the payment it holds in `x`.
pub open spec fn agree_along(x: Seq<Transaction>, x2: Seq<Transaction>, o: Seq<usize>) -> bool {
    &&& o.len() == x.len()
    &&& forall|q: int| 0 <= q < o.len() ==> #[trigger] o[q] < x.len() && same_payment(x2[o[q] as int], x[o[q] as int])
}

proof fn lemma_counts_congruent(x: Seq<Transaction>, x2: Seq<Transaction>, o: Seq<usize>, s: int, e: int, c: Country)
    requires
        agree_along(x, x2, o),
        0 <= s,
        e <= o.len(),
    ensures
        count_in(x2, o, s, e, c) == count_in(x, o, s, e, c),
        first_time_in(x2, o, s, e, c) == first_time_in(x, o, s, e, c),
    decreases e - s,
{
    if s < e {
        assert(same_payment(x2[o[e - 1] as int], x[o[e - 1] as int]));
        assert(same_payment(x2[o[s] as int], x[o[s] as int]));
        lemma_counts_congruent(x, x2, o, s, e - 1, c);
        lemma_counts_congruent(x, x2, o, s + 1, e, c);
    }
}

proof fn lemma_primary_congruent(x: Seq<Transaction>, x2: Seq<Transaction>, o: Seq<usize>, s: int, e: int)
    requires
        agree_along(x, x2, o),
        0 <= s < e <= o.len(),
    ensures
        primary_in(x2, o, s, e) == primary_in(x, o, s, e),
{
    lemma_primary_exists(x, o, s, e);
    let c = primary_in(x, o, s, e);
    assert forall|d: Country| true implies #[trigger] count_in(x2, o, s, e, d) == count_in(x, o, s, e, d)
        && first_time_in(x2, o, s, e, d) == first_time_in(x, o, s, e, d) by {
        lemma_counts_congruent(x, x2, o, s, e, d);
    }
    assert(is_primary_in(x2, o, s, e, c)) by {
        lemma_counts_congruent(x, x2, o, s, e, c);
        assert forall|d: Country| #![trigger count_in(x2, o, s, e, d)] count_in(x2, o, s, e, d) > 0 && d != c implies more_primary(
            x2,
            o,
            s,
            e,
            c,
            d,
        ) by {
            lemma_counts_congruent(x, x2, o, s, e, d);
            assert(count_in(x, o, s, e, d) > 0);
        }
    }
    lemma_primary_exists(x2, o, s, e);
    lemma_primary_unique(x2, o, s, e, c, primary_in(x2, o, s, e));
}

proof fn lemma_card_range_congruent(x: Seq<Transaction>, x2: Seq<Transaction>, o: Seq<usize>, p: int)
    requires
        agree_along(x, x2, o),
        0 <= p < o.len(),
    ensures
        card_first(x2, o, p) == card_first(x, o, p),
        trip_first(x2, o, p) == trip_first(x, o, p),
        0 <= card_first(x, o, p) <= p,
        0 <= trip_first(x, o, p) <= p,
    decreases p,
{
    if p > 0 {
        assert(same_payment(x2[o[p] as int], x[o[p] as int]));
        assert(same_payment(x2[o[p - 1] as int], x[o[p - 1] as int]));
        lemma_card_range_congruent(x, x2, o, p - 1);
    }
}

proof fn lemma_card_end_congruent(x: Seq<Transaction>, x2: Seq<Transaction>, o: Seq<usize>, p: int)
    requires
        agree_along(x, x2, o),
        0 <= p < o.len(),
    ensures
        card_last(x2, o, p) == card_last(x, o, p),
        trip_last(x2, o, p) == trip_last(x, o, p),
        p <= card_last(x, o, p) < o.len(),
        p <= trip_last(x, o, p) < o.len(),
    decreases o.len() - p,
{
    if p + 1 < o.len() {
        assert(same_payment(x2[o[p] as int], x[o[p] as int]));
        assert(same_payment(x2[o[p + 1] as int], x[o[p + 1] as int]));
        lemma_card_end_congruent(x, x2, o, p + 1);
    }
}

/// The pass reads only payments: on two lists that agree on payments and factors it gives
/// results that agree on them too, and the same transactions are marked for a check.
pub proof fn lemma_applied_congruent(x: Seq<Transaction>, y: Seq<Transaction>, x2: Seq<Transaction>, y2: Seq<Transaction>)
    requires
        applied(x, y),
        applied(x2, y2),
        same_payments_and_factors(x, x2),
        x.len() <= usize::MAX,
    ensures
        mirrors(y, x),
        same_payments_and_factors(y, y2),
        forall|i: int|
            0 <= i < x.len() ==> ((#[trigger] y[i]).human_review_status == x[i].human_review_status
                && y2[i].human_review_status == x2[i].human_review_status) || (y[i].human_review_status
                == HumanReviewStatus::NeedCheck && y2[i].human_review_status == HumanReviewStatus::NeedCheck),
{
    lemma_chrono_order_congruent(x, x2);
    let o = chrono_order(x);
    assert(agree_along(x, x2, o)) by {
        assert forall|q: int| 0 <= q < o.len() implies #[trigger] o[q] < x.len() && same_payment(x2[o[q] as int], x[o[q] as int]) by {
            assert(o[q] < x.len());
        }
    }
    assert forall|i: int| 0 <= i < x.len() implies {
        &&& same_payment(#[trigger] y[i], x[i])
        &&& same_payment(y2[i], y[i])
        &&& y2[i].fraud_factors@ == y[i].fraud_factors@
        &&& ((y[i].human_review_status == x[i].human_review_status && y2[i].human_review_status
            == x2[i].human_review_status) || (y[i].human_review_status == HumanReviewStatus::NeedCheck
            && y2[i].human_review_status == HumanReviewStatus::NeedCheck))
    } by {
        assert(o.contains(i as usize));
        let p = choose|p: int| 0 <= p < o.len() && o[p] == i as usize;
        assert(o[p] as int == i);
        assert(trip_effect(x, y, o, p));
        assert(trip_effect(x2, y2, o, p));
        assert(same_payment(x2[i], x[i]));
        lemma_card_range_congruent(x, x2, o, p);
        lemma_card_end_congruent(x, x2, o, p);
        let cs = card_first(x, o, p);
        let ct = card_last(x, o, p);
        let a = trip_first(x, o, p);
        let b = trip_last(x, o, p);
        lemma_primary_congruent(x, x2, o, cs, ct + 1);
        assert(primary_at(x2, o, p) == primary_at(x, o, p));
        if on_trip(x, o, p) {
            assert(same_payment(x2[o[a] as int], x[o[a] as int]));
            assert(same_payment(x2[o[b] as int], x[o[b] as int]));
            if a > 0 {
                assert(same_payment(x2[o[a - 1] as int], x[o[a - 1] as int]));
            }
            if b + 1 < o.len() {
                assert(same_payment(x2[o[b + 1] as int], x[o[b + 1] as int]));
            }
            assert(trip_factor(x2, o, p) == trip_factor(x, o, p));
        }
    }
}

/// How the trip factor tells travel from fraud. A foreign trip of a single payment is a
/// likely vacation exactly when the card has a transaction just before it and one just after
/// it, each at least a day away; a trip of several payments is one exactly when it spans at
/// least a day.
pub proof fn lemma_vacation_rule(old_items: Seq<Transaction>, new_items: Seq<Transaction>, p: int)
    requires
        applied(old_items, new_items),
        old_items.len() <= usize::MAX,
        0 <= p < old_items.len(),
        new_items[chrono_order(old_items)[p] as int].fraud_factors@ != old_items[chrono_order(
            old_items,
        )[p] as int].fraud_factors@,
    ensures
        ({
            let o = chrono_order(old_items);
            let i = o[p] as int;
            let t = old_items[i].timestamp;
            new_items[i].fraud_factors@.last() matches FraudFactor::ForeignCountryTrip {
                transaction_count,
                trip_start,
                trip_end,
                likely_vacation,
                ..
            } && (transaction_count == 1 ==> (likely_vacation <==> {
                &&& p > 0
                &&& old_items[o[p - 1] as int].card_id == old_items[i].card_id
                &&& elapsed(t, old_items[o[p - 1] as int].timestamp) >= VACATION_GAP_THRESHOLD
                &&& p + 1 < old_items.len()
                &&& old_items[o[p + 1] as int].card_id == old_items[i].card_id
                &&& elapsed(old_items[o[p + 1] as int].timestamp, t) >= VACATION_GAP_THRESHOLD
            })) && (transaction_count > 1 ==> (likely_vacation <==> elapsed(trip_end, trip_start)
                >= VACATION_SPAN_THRESHOLD))
        }),
{
    let o = chrono_order(old_items);
    let i = o[p] as int;
    assert(trip_effect(old_items, new_items, o, p));
    assert(agree_along(old_items, old_items, o)) by {
        assert forall|q: int| 0 <= q < o.len() implies #[trigger] o[q] < old_items.len() && same_payment(
            old_items[o[q] as int],
            old_items[o[q] as int],
        ) by {
            assert(o[q] < old_items.len());
        }
    }
    lemma_card_range_congruent(old_items, old_items, o, p);
    lemma_card_end_congruent(old_items, old_items, o, p);
    let s = card_first(old_items, o, p);
    let t = card_last(old_items, o, p);
    let a = trip_first(old_items, o, p);
    let b = trip_last(old_items, o, p);
    assert(new_items[i].fraud_factors@.last() == trip_factor(old_items, o, p));
    if a == b {
        assert(a == p);
        if p > 0 {
            lemma_card_range_congruent(old_items, old_items, o, p - 1);
        }
        if p + 1 < o.len() {
            lemma_card_end_congruent(old_items, old_items, o, p + 1);
        }
        assert(s < p <==> (p > 0 && same_card_at(old_items, o, p)));
        assert(p < t <==> (p + 1 < o.len() && same_card_at(old_items, o, p + 1)));
    }
}

} // verus!
