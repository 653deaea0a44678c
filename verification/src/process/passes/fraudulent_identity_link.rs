//! Identity links: a device or an IP address shared with transactions known or likely to be
//! fraud.

use vstd::prelude::*;

use crate::data::human_review_status::HumanReviewStatus;
use crate::data::transaction::{
    mirrors, same_analysis_at, same_payment, same_payments_and_factors, unchanged_analysis, Transaction,
};
use crate::data::transactions::{Transactions, MAX_TRANSACTIONS};
use crate::process::card_statistics::{
    noisy_or, weights, FraudFactor, FRAUDULENT_IDENTITY_LINK_WEIGHT_CONFIRMED,
    FRAUDULENT_IDENTITY_LINK_WEIGHT_LIKELY, FRAUD_SCORE_THRESHOLD,
};

verus! {

pub open spec fn is_identity_link(f: FraudFactor) -> bool {
    f is FraudulentIdentityLink
}

/// The factors other than identity links, in order.
pub open spec fn without_links(fs: Seq<FraudFactor>) -> Seq<FraudFactor>
    decreases fs.len(),
{
    if fs.len() == 0 {
        Seq::empty()
    } else {
        let rest = without_links(fs.drop_last());
        if is_identity_link(fs.last()) {
            rest
        } else {
            rest.push(fs.last())
        }
    }
}

/// One point for a shared device, one for a shared IP address.
pub open spec fn link_points(a: Transaction, b: Transaction) -> nat {
    let device: nat = match (a.device_id, b.device_id) {
        (Some(x), Some(y)) => if x@ == y@ {
            1
        } else {
            0
        },
        _ => 0,
    };
    let ip: nat = match (a.ip_address, b.ip_address) {
        (Some(x), Some(y)) => if x == y {
            1
        } else {
            0
        },
        _ => 0,
    };
    device + ip
}

/// A analyst confirmed the transaction as fraud.
pub open spec fn confirmed_source(t: Transaction) -> bool {
    t.human_review_status == HumanReviewStatus::TruePositive
}

/// The transaction was not cleared by a analyst and its score without identity links
/// reaches the fraud threshold.
pub open spec fn likely_source(t: Transaction) -> bool {
    &&& t.human_review_status != HumanReviewStatus::FalsePositive
    &&& noisy_or(weights(without_links(t.fraud_factors@))) >= FRAUD_SCORE_THRESHOLD
}

/// The points transaction `i` shares with confirmed sources among the first `upto`
/// transactions (other than those with its own id).
pub open spec fn confirmed_points(items: Seq<Transaction>, i: int, upto: int) -> nat
    decreases upto,
{
    if upto <= 0 {
        0
    } else {
        let j = upto - 1;
        confirmed_points(items, i, j) + if items[j].transaction_id != items[i].transaction_id
            && confirmed_source(items[j]) {
            link_points(items[i], items[j])
        } else {
            0
        }
    }
}

/// The points transaction `i` shares with likely (and not confirmed) sources among the first
/// `upto` transactions (other than those with its own id).
pub open spec fn likely_points(items: Seq<Transaction>, i: int, upto: int) -> nat
    decreases upto,
{
    if upto <= 0 {
        0
    } else {
        let j = upto - 1;
        likely_points(items, i, j) + if items[j].transaction_id != items[i].transaction_id
            && !confirmed_source(items[j]) && likely_source(items[j]) {
            link_points(items[i], items[j])
        } else {
            0
        }
    }
}

/// The identity link factor of transaction `i`, when it shares anything with a source: its
/// weight is the confirmed one when a confirmed source is among them, the likely one
/// otherwise.
pub open spec fn identity_factor(items: Seq<Transaction>, i: int) -> Option<FraudFactor> {
    let c = confirmed_points(items, i, items.len() as int);
    let l = likely_points(items, i, items.len() as int);
    if c == 0 && l == 0 {
        None
    } else {
        Some(
            FraudFactor::FraudulentIdentityLink {
                device_id: items[i].device_id,
                ip_address: items[i].ip_address,
                matched_confirmed_count: c as usize,
                matched_likely_count: l as usize,
                weight: if c > 0 {
                    FRAUDULENT_IDENTITY_LINK_WEIGHT_CONFIRMED
                } else {
                    FRAUDULENT_IDENTITY_LINK_WEIGHT_LIKELY
                },
            },
        )
    }
}

/// What the pass does to transaction `i`: earlier identity links are dropped and the new
/// one, if any, is appended.
pub open spec fn link_effect(old_items: Seq<Transaction>, new_items: Seq<Transaction>, i: int) -> bool {
    &&& same_payment(new_items[i], old_items[i])
    &&& new_items[i].human_review_status == old_items[i].human_review_status
    &&& new_items[i].fraud_factors@ == without_links(old_items[i].fraud_factors@) + match identity_factor(
        old_items,
        i,
    ) {
        Some(f) => seq![f],
        None => Seq::empty(),
    }
}

/// Transaction `i` of `stripped` is that of `items` with its identity links dropped.
pub open spec fn links_dropped_at(items: Seq<Transaction>, stripped: Seq<Transaction>, i: int) -> bool {
    &&& stripped[i].fraud_factors@ == without_links(items[i].fraud_factors@)
    &&& stripped[i].human_review_status == items[i].human_review_status
}

/// `stripped` is `items` with every identity link factor dropped.
pub open spec fn links_dropped(items: Seq<Transaction>, stripped: Seq<Transaction>) -> bool {
    &&& mirrors(stripped, items)
    &&& forall|i: int| 0 <= i < items.len() ==> #[trigger] links_dropped_at(items, stripped, i)
}

proof fn lemma_without_links_idempotent(fs: Seq<FraudFactor>)
    ensures
        without_links(without_links(fs)) == without_links(fs),
    decreases fs.len(),
{
    if fs.len() > 0 {
        lemma_without_links_idempotent(fs.drop_last());
        let rest = without_links(fs.drop_last());
        if !is_identity_link(fs.last()) {
            assert(rest.push(fs.last()).drop_last() =~= rest);
        }
    }
}

/// Sources and points read the same on the list with the links dropped.
proof fn lemma_points_after_drop(items: Seq<Transaction>, stripped: Seq<Transaction>, i: int, upto: int)
    requires
        links_dropped(items, stripped),
        0 <= i < items.len(),
        upto <= items.len(),
    ensures
        confirmed_points(stripped, i, upto) == confirmed_points(items, i, upto),
        likely_points(stripped, i, upto) == likely_points(items, i, upto),
    decreases upto,
{
    if upto > 0 {
        let j = upto - 1;
        lemma_points_after_drop(items, stripped, i, j);
        assert(same_payment(stripped[i], items[i]));
        assert(same_payment(stripped[j], items[j]));
        assert(links_dropped_at(items, stripped, j));
        assert(links_dropped_at(items, stripped, i));
        lemma_without_links_idempotent(items[j].fraud_factors@);
    }
}

/// Dropping the links of a concatenation drops them from each part.
proof fn lemma_without_links_append(a: Seq<FraudFactor>, b: Seq<FraudFactor>)
    ensures
        without_links(a + b) == without_links(a) + without_links(b),
    decreases b.len(),
{
    if b.len() == 0 {
        assert(a + b =~= a);
        assert(without_links(a) + without_links(b) =~= without_links(a));
    } else {
        lemma_without_links_append(a, b.drop_last());
        assert((a + b).drop_last() =~= a + b.drop_last());
        assert((a + b).last() == b.last());
        if !is_identity_link(b.last()) {
            assert(without_links(a) + without_links(b.drop_last()).push(b.last()) =~= (without_links(a)
                + without_links(b.drop_last())).push(b.last()));
        }
    }
}

/// Two lists that agree on every payment, status and factor other than identity links give
/// every transaction the same points.
proof fn lemma_points_same_sources(a: Seq<Transaction>, b: Seq<Transaction>, i: int, upto: int)
    requires
        b.len() == a.len(),
        forall|j: int| 0 <= j < a.len() ==> same_payment(#[trigger] b[j], a[j]),
        forall|j: int| 0 <= j < a.len() ==> (#[trigger] b[j]).human_review_status == a[j].human_review_status,
        forall|j: int| 0 <= j < a.len() ==> without_links((#[trigger] b[j]).fraud_factors@) == without_links(
            a[j].fraud_factors@,
        ),
        0 <= i < a.len(),
        upto <= a.len(),
    ensures
        confirmed_points(b, i, upto) == confirmed_points(a, i, upto),
        likely_points(b, i, upto) == likely_points(a, i, upto),
    decreases upto,
{
    if upto > 0 {
        let j = upto - 1;
        lemma_points_same_sources(a, b, i, j);
        assert(same_payment(b[i], a[i]));
        assert(same_payment(b[j], a[j]));
        assert(b[j].human_review_status == a[j].human_review_status);
        assert(without_links(b[j].fraud_factors@) == without_links(a[j].fraud_factors@));
    }
}

/// Running the identity-link pass a second time changes nothing: the links it finds are the
/// ones it already added, since it reads sources without their identity links.
pub proof fn lemma_identity_link_idempotent(x: Seq<Transaction>, y: Seq<Transaction>, z: Seq<Transaction>)
    requires
        applied(x, y),
        applied(y, z),
    ensures
        unchanged_analysis(y, z),
{
    assert forall|j: int| 0 <= j < x.len() implies without_links((#[trigger] y[j]).fraud_factors@) == without_links(
        x[j].fraud_factors@,
    ) by {
        assert(link_effect(x, y, j));
        let extra = match identity_factor(x, j) {
            Some(f) => seq![f],
            None => Seq::<FraudFactor>::empty(),
        };
        lemma_without_links_append(without_links(x[j].fraud_factors@), extra);
        lemma_without_links_idempotent(x[j].fraud_factors@);
        match identity_factor(x, j) {
            Some(f) => {
                assert(extra.drop_last() =~= Seq::<FraudFactor>::empty());
                assert(extra.last() == f);
                assert(is_identity_link(f));
                assert(without_links(Seq::<FraudFactor>::empty()) =~= Seq::<FraudFactor>::empty());
                assert(without_links(extra) =~= Seq::<FraudFactor>::empty());
            },
            None => {
                assert(without_links(extra) =~= Seq::<FraudFactor>::empty());
            },
        }
        assert(without_links(x[j].fraud_factors@) + Seq::<FraudFactor>::empty() =~= without_links(
            x[j].fraud_factors@,
        ));
    }
    assert forall|j: int| 0 <= j < x.len() implies same_payment(#[trigger] y[j], x[j]) by {
        assert(link_effect(x, y, j));
    }
    assert forall|j: int| 0 <= j < x.len() implies (#[trigger] y[j]).human_review_status == x[j].human_review_status by {
        assert(link_effect(x, y, j));
    }
    assert forall|i: int| 0 <= i < y.len() implies #[trigger] same_analysis_at(y, z, i) by {
        assert(link_effect(x, y, i));
        assert(link_effect(y, z, i));
        lemma_points_same_sources(x, y, i, x.len() as int);
        assert(identity_factor(y, i) == identity_factor(x, i));
    }
}

/// Drops the identity link factors from `fs`.
fn drop_links(fs: &mut Vec<FraudFactor>)
    ensures
        final(fs)@ == without_links(old(fs)@),
{
    let mut rest: Vec<FraudFactor> = Vec::new();
    std::mem::swap(&mut rest, fs);
    let ghost orig = rest@;
    let total = rest.len();
    let mut k: usize = 0;
    assert(orig.take(0) =~= Seq::<FraudFactor>::empty());
    while rest.len() > 0
        invariant
            total == orig.len(),
            k + rest@.len() == orig.len(),
            rest@ == orig.skip(k as int),
            fs@ == without_links(orig.take(k as int)),
        decreases rest@.len(),
    {
        let f = rest.remove(0);
        proof {
            assert(f == orig[k as int]);
            assert(orig.take(k + 1).drop_last() =~= orig.take(k as int));
            assert(orig.skip(k + 1) =~= orig.skip(k as int).drop_first());
        }
        let link = match f {
            FraudFactor::FraudulentIdentityLink { .. } => true,
            _ => false,
        };
        if !link {
            fs.push(f);
        }
        k += 1;
    }
    assert(orig.take(k as int) =~= orig);
}

/// One point for a shared device, one for a shared IP address.
fn points_between(a: &Transaction, b: &Transaction) -> (r: usize)
    ensures
        r == link_points(*a, *b),
{
    let device: usize = match (&a.device_id, &b.device_id) {
        (Some(x), Some(y)) => if *x == *y {
            1
        } else {
            0
        },
        _ => 0,
    };
    let ip: usize = match (a.ip_address, b.ip_address) {
        (Some(x), Some(y)) => if x == y {
            1
        } else {
            0
        },
        _ => 0,
    };
    device + ip
}

/// Whether `new_items` is `old_items` after the identity link pass.
pub open spec fn applied(old_items: Seq<Transaction>, new_items: Seq<Transaction>) -> bool {
    &&& new_items.len() == old_items.len()
    &&& forall|i: int| 0 <= i < old_items.len() ==> #[trigger] link_effect(old_items, new_items, i)
}

/// Recomputes the identity link factors: every earlier one is dropped, then each transaction
/// that shares a device or an IP address with another transaction (of another id) that a
/// analyst confirmed as fraud, or that is likely fraud and was not cleared, gets one
/// (see [`identity_factor`]). Nothing else changes.
pub fn apply_to_items(items: &mut Vec<Transaction>)
    requires
        old(items)@.len() <= MAX_TRANSACTIONS,
    ensures
        applied(old(items)@, final(items)@),
{
    let ghost old_items = items@;
    let n = items.len();
    let mut i: usize = 0;
    while i < n
        invariant
            n == old_items.len(),
            i <= n,
            mirrors(items@, old_items),
            forall|k: int| 0 <= k < i ==> #[trigger] links_dropped_at(old_items, items@, k),
            forall|k: int| i <= k < n ==> #[trigger] items@[k] == old_items[k],
        decreases n - i,
    {
        let ghost before = items@;
        drop_links(&mut items[i].fraud_factors);
        proof {
            assert(items@[i as int].human_review_status == before[i as int].human_review_status);
            assert(same_payment(items@[i as int], before[i as int]));
            assert forall|k: int| 0 <= k < n && k != i implies #[trigger] items@[k] == before[k] by {}
            assert forall|k: int| 0 <= k <= i implies #[trigger] links_dropped_at(old_items, items@, k) by {
                if k < i {
                    assert(items@[k] == before[k]);
                    assert(links_dropped_at(old_items, before, k));
                }
            }
        }
        i += 1;
    }
    let ghost stripped = items@;
    assert(links_dropped(old_items, stripped));
    // which transactions are likely sources, read on the stripped list
    let mut likely: Vec<bool> = Vec::new();
    let mut j: usize = 0;
    while j < n
        invariant
            n == old_items.len(),
            items@ == stripped,
            links_dropped(old_items, stripped),
            j <= n,
            likely@.len() == j,
            forall|k: int| 0 <= k < j ==> likely@[k] == likely_source(#[trigger] stripped[k]),
        decreases n - j,
    {
        let t = &items[j];
        let l = !matches!(t.human_review_status, HumanReviewStatus::FalsePositive) && t.fraud_score()
            >= FRAUD_SCORE_THRESHOLD;
        proof {
            lemma_without_links_idempotent(old_items[j as int].fraud_factors@);
            assert(links_dropped_at(old_items, stripped, j as int));
        }
        likely.push(l);
        proof {
            assert forall|k: int| 0 <= k < j + 1 implies likely@[k] == likely_source(#[trigger] stripped[k]) by {
                if k < j {
                    assert(likely@[k] == likely@.drop_last()[k]);
                }
            }
        }
        j += 1;
    }
    let mut i: usize = 0;
    while i < n
        invariant
            n == old_items.len(),
            n <= MAX_TRANSACTIONS,
            i <= n,
            links_dropped(old_items, stripped),
            likely@.len() == n,
            forall|k: int| 0 <= k < n ==> likely@[k] == likely_source(#[trigger] stripped[k]),
            mirrors(items@, old_items),
            forall|k: int| 0 <= k < i ==> #[trigger] link_effect(old_items, items@, k),
            forall|k: int| i <= k < n ==> #[trigger] items@[k] == stripped[k],
        decreases n - i,
    {
        let ghost before = items@;
        proof {
            assert forall|k: int| 0 <= k < n implies #[trigger] before[k].transaction_id == stripped[k].transaction_id
                && before[k].human_review_status == stripped[k].human_review_status by {
                assert(same_payment(before[k], old_items[k]));
                assert(same_payment(stripped[k], old_items[k]));
                if k < i {
                    assert(link_effect(old_items, before, k));
                    assert(links_dropped_at(old_items, stripped, k));
                } else {
                    assert(before[k] == stripped[k]);
                }
            }
        }
        let factor = identity_factor_of_stripped(&items, &likely, i, Ghost(stripped), Ghost(old_items));
        match factor {
            Some(f) => {
                items[i].fraud_factors.push(f);
            },
            None => {},
        }
        proof {
            assert(links_dropped_at(old_items, stripped, i as int));
            assert(before[i as int] == stripped[i as int]);
            assert forall|k: int| 0 <= k < n && k != i implies #[trigger] items@[k] == before[k] by {}
            assert(items@[i as int].fraud_factors@ =~= without_links(old_items[i as int].fraud_factors@)
                + match identity_factor(old_items, i as int) {
                Some(f) => seq![f],
                None => Seq::empty(),
            });
            assert forall|k: int| 0 <= k <= i implies link_effect(old_items, items@, k) by {
                if k < i {
                    assert(items@[k] == before[k]);
                    assert(link_effect(old_items, before, k));
                }
            }
        }
        i += 1;
    }
}

/// The identity factor of transaction `i`, computed on a list whose links may already have
/// been given to the transactions before `i`.
fn identity_factor_of_stripped(
    items: &Vec<Transaction>,
    likely: &Vec<bool>,
    i: usize,
    Ghost(stripped): Ghost<Seq<Transaction>>,
    Ghost(old_items): Ghost<Seq<Transaction>>,
) -> (r: Option<FraudFactor>)
    requires
        links_dropped(old_items, stripped),
        old_items.len() <= MAX_TRANSACTIONS,
        mirrors(items@, old_items),
        likely@.len() == old_items.len(),
        forall|k: int| 0 <= k < old_items.len() ==> likely@[k] == likely_source(#[trigger] stripped[k]),
        forall|k: int|
            0 <= k < old_items.len() ==> #[trigger] items@[k].human_review_status
                == stripped[k].human_review_status,
        i < old_items.len(),
    ensures
        r == identity_factor(old_items, i as int),
{
    let n = items.len();
    let target = &items[i];
    let mut confirmed: usize = 0;
    let mut likely_count: usize = 0;
    let mut j: usize = 0;
    proof {
        assert(same_payment(items@[i as int], old_items[i as int]));
    }
    while j < n
        invariant
            n == old_items.len(),
            n <= MAX_TRANSACTIONS,
            i < n,
            links_dropped(old_items, stripped),
            mirrors(items@, old_items),
            *target == items@[i as int],
            same_payment(*target, old_items[i as int]),
            likely@.len() == n,
            forall|k: int| 0 <= k < n ==> likely@[k] == likely_source(#[trigger] stripped[k]),
            forall|k: int|
                0 <= k < n ==> #[trigger] items@[k].human_review_status == stripped[k].human_review_status,
            j <= n,
            confirmed == confirmed_points(stripped, i as int, j as int),
            likely_count == likely_points(stripped, i as int, j as int),
            confirmed + likely_count <= 2 * j,
        decreases n - j,
    {
        let source = &items[j];
        proof {
            assert(same_payment(items@[j as int], old_items[j as int]));
            assert(same_payment(stripped[j as int], old_items[j as int]));
            assert(same_payment(stripped[i as int], old_items[i as int]));
        }
        if source.transaction_id.0 != target.transaction_id.0 {
            let points = points_between(target, source);
            if matches!(source.human_review_status, HumanReviewStatus::TruePositive) {
                confirmed += points;
            } else if likely[j] {
                likely_count += points;
            }
        }
        j += 1;
    }
    proof {
        lemma_points_after_drop(old_items, stripped, i as int, n as int);
    }
    if confirmed == 0 && likely_count == 0 {
        return None;
    }
    let device_id = match &target.device_id {
        Some(d) => Some(d.clone()),
        None => None,
    };
    let weight = if confirmed > 0 {
        FRAUDULENT_IDENTITY_LINK_WEIGHT_CONFIRMED
    } else {
        FRAUDULENT_IDENTITY_LINK_WEIGHT_LIKELY
    };
    Some(
        FraudFactor::FraudulentIdentityLink {
            device_id,
            ip_address: target.ip_address,
            matched_confirmed_count: confirmed,
            matched_likely_count: likely_count,
            weight,
        },
    )
}

/// Recomputes the identity link factors of every transaction (see [`apply_to_items`]).
pub fn apply(transactions: &mut Transactions)
    requires
        old(transactions).items@.len() <= MAX_TRANSACTIONS,
    ensures
        applied(old(transactions).items@, final(transactions).items@),
{
    apply_to_items(&mut transactions.items);
}

/// On two lists that agree on payments, factors and statuses the pass gives the same result.
pub proof fn lemma_applied_congruent(x: Seq<Transaction>, y: Seq<Transaction>, x2: Seq<Transaction>, y2: Seq<Transaction>)
    requires
        applied(x, y),
        applied(x2, y2),
        same_payments_and_factors(x, x2),
        forall|i: int| 0 <= i < x.len() ==> (#[trigger] x2[i]).human_review_status == x[i].human_review_status,
    ensures
        mirrors(y, x),
        unchanged_analysis(y, y2),
{
    assert forall|j: int| 0 <= j < x.len() implies same_payment(#[trigger] x2[j], x[j]) by {}
    assert forall|j: int| 0 <= j < x.len() implies without_links((#[trigger] x2[j]).fraud_factors@) == without_links(
        x[j].fraud_factors@,
    ) by {
        assert(x2[j].fraud_factors@ == x[j].fraud_factors@);
    }
    assert forall|i: int| 0 <= i < x.len() implies same_payment(#[trigger] y[i], x[i]) by {
        assert(link_effect(x, y, i));
    }
    assert forall|i: int| 0 <= i < y.len() implies #[trigger] same_analysis_at(y, y2, i) by {
        assert(link_effect(x, y, i));
        assert(link_effect(x2, y2, i));
        assert(same_payment(x2[i], x[i]));
        lemma_points_same_sources(x, x2, i, x.len() as int);
        assert(identity_factor(x2, i) == identity_factor(x, i));
        assert(x2[i].fraud_factors@ == x[i].fraud_factors@);
    }
}

/// A confirmed source before `upto` that shares something with transaction `i` adds its points.
proof fn lemma_confirmed_points_include(items: Seq<Transaction>, i: int, j: int, upto: int)
    requires
        0 <= j < upto,
        items[j].transaction_id != items[i].transaction_id,
        confirmed_source(items[j]),
    ensures
        confirmed_points(items, i, upto) >= link_points(items[i], items[j]),
    decreases upto,
{
    if j < upto - 1 {
        lemma_confirmed_points_include(items, i, j, upto - 1);
    }
}

/// Confirmed points stay within two per transaction.
proof fn lemma_confirmed_points_bound(items: Seq<Transaction>, i: int, upto: int)
    ensures
        confirmed_points(items, i, upto) <= 2 * (if upto > 0 {
            upto
        } else {
            0
        }),
    decreases upto,
{
    if upto > 0 {
        lemma_confirmed_points_bound(items, i, upto - 1);
    }
}

/// A transaction that shares its device or its IP address with another transaction (of
/// another id) that an analyst confirmed as fraud gets an identity link, at the confirmed
/// weight and counting at least one confirmed match, as its last factor.
pub proof fn lemma_confirmed_link(old_items: Seq<Transaction>, new_items: Seq<Transaction>, i: int, j: int)
    requires
        applied(old_items, new_items),
        old_items.len() <= MAX_TRANSACTIONS,
        0 <= i < old_items.len(),
        0 <= j < old_items.len(),
        old_items[j].transaction_id != old_items[i].transaction_id,
        old_items[j].human_review_status == HumanReviewStatus::TruePositive,
        (old_items[i].device_id matches Some(d) && old_items[j].device_id matches Some(e) && d@ == e@)
            || (old_items[i].ip_address matches Some(x) && old_items[j].ip_address matches Some(y) && x == y),
    ensures
        new_items[i].fraud_factors@.len() > 0,
        new_items[i].fraud_factors@.last() matches FraudFactor::FraudulentIdentityLink {
            matched_confirmed_count,
            weight,
            ..
        } && matched_confirmed_count >= 1 && weight == FRAUDULENT_IDENTITY_LINK_WEIGHT_CONFIRMED,
{
    assert(link_effect(old_items, new_items, i));
    let n = old_items.len() as int;
    assert(link_points(old_items[i], old_items[j]) >= 1);
    lemma_confirmed_points_include(old_items, i, j, n);
    lemma_confirmed_points_bound(old_items, i, n);
    let f = identity_factor(old_items, i);
    assert(f is Some);
    let extra = seq![f->0];
    assert((without_links(old_items[i].fraud_factors@) + extra).last() == f->0);
}

} // verus!
