//! Fraud factors, their weights, and how they combine into a fraud score.
//!
//! Weights and scores are in thousandths (`1000` is certainty). Money statistics are in
//! hundredths of a cent, z-scores in thousandths of a standard deviation, and durations in
//! seconds.

use vstd::prelude::*;

use crate::data::country::Country;
use crate::data::human_review_status::HumanReviewStatus;
use crate::data::ip_address::IpAddress;
use crate::data::merchant_category::MerchantCategory;
use crate::data::timestamp::Timestamp;
use crate::data::transaction::{mirrors, same_payment, same_payments_and_factors, unchanged_analysis, Transaction};
use crate::process::order::lemma_chrono_order_congruent;
use crate::data::transactions::{Transactions, MAX_TRANSACTIONS};
use crate::process::passes::{
    card_amount_deviation, card_testing_burst, foreign_country_trip, fraudulent_identity_link,
    merchant_category_risk, merchant_ring,
};

verus! {

/// A transaction is likely fraud from this score on (0.50).
pub const FRAUD_SCORE_THRESHOLD: u32 = 500;
/// The score from which the review queue shows a transaction by default (0.55).
pub const HUMAN_REVIEW_SCORE_THRESHOLD_DEFAULT: u32 = 550;
pub const FOREIGN_COUNTRY_WEIGHT: u32 = 900;
pub const VACATION_FOREIGN_COUNTRY_WEIGHT: u32 = 400;
pub const CARD_TESTING_BURST_WEIGHT: u32 = 900;
pub const RISKY_CATEGORY_WEIGHT: u32 = 180;
pub const MERCHANT_RING_WEIGHT: u32 = 700;
pub const FRAUDULENT_IDENTITY_LINK_WEIGHT_CONFIRMED: u32 = 800;
pub const FRAUDULENT_IDENTITY_LINK_WEIGHT_LIKELY: u32 = 450;
/// z-score (thousandths) from which the category price deviation counts.
pub const CATEGORY_PRICE_DEVIATION_MIN_Z_SCORE: u64 = 3000;
pub const CATEGORY_PRICE_DEVIATION_BASE_WEIGHT: u32 = 160;
/// Weight added per whole standard deviation past the minimum.
pub const CATEGORY_PRICE_DEVIATION_STEP_WEIGHT: u32 = 120;
pub const CATEGORY_PRICE_DEVIATION_MAX_WEIGHT: u32 = 750;
/// z-score (thousandths) from which the card amount deviation counts.
pub const CARD_AMOUNT_DEVIATION_MIN_Z_SCORE: u64 = 3000;
pub const CARD_AMOUNT_DEVIATION_BASE_WEIGHT: u32 = 200;
pub const CARD_AMOUNT_DEVIATION_STEP_WEIGHT: u32 = 100;
pub const CARD_AMOUNT_DEVIATION_MAX_WEIGHT: u32 = 600;
/// An amount must reach this many times the card's mean to count as a deviation.
pub const CARD_AMOUNT_DEVIATION_MIN_MEAN_MULTIPLIER: u64 = 10;
/// Card testing: amounts up to this many cents ($15.00).
pub const CARD_TESTING_BURST_MAX_AMOUNT: u32 = 1500;
pub const CARD_TESTING_BURST_MIN_COUNT: usize = 3;
/// Card testing: at most this many seconds between two charges (10 minutes).
pub const CARD_TESTING_BURST_MAX_GAP: i64 = 600;
/// A lone foreign transaction looks like travel when both gaps reach this (24 hours).
pub const VACATION_GAP_THRESHOLD: i64 = 86400;
/// A foreign run looks like travel when it spans at least this (24 hours).
pub const VACATION_SPAN_THRESHOLD: i64 = 86400;
/// Cash-out: risky-category amounts from this many cents on ($100.00) are priced.
pub const CASHOUT_MIN_AMOUNT: u32 = 10000;
/// Merchant ring: an outlier exceeds this multiple of the merchant median, in tenths (1.5x).
pub const MERCHANT_RING_MULTIPLIER: u64 = 15;
/// Merchant ring: an outlier exceeds this many cents ($100.00).
pub const MERCHANT_RING_MIN_AMOUNT: u32 = 10000;
pub const MERCHANT_RING_MIN_OUTLIERS: usize = 3;
pub const MERCHANT_RING_MIN_DISTINCT_CARDS: usize = 3;

/// One reason to suspect a transaction.
#[derive(Debug)]
pub enum FraudFactor {
    ForeignCountryTrip {
        country: Country,
        primary_country: Country,
        transaction_count: usize,
        trip_start: Timestamp,
        trip_end: Timestamp,
        /// Seconds since the card's previous transaction, if any.
        gap_before: Option<i64>,
        /// Seconds until the card's next transaction, if any.
        gap_after: Option<i64>,
        likely_vacation: bool,
    },
    CardTestingBurst {
        transaction_count: usize,
        burst_start: Timestamp,
        burst_end: Timestamp,
        /// Largest amount of the burst, in cents.
        max_amount: u32,
        /// Largest gap between two charges of the burst, in seconds.
        max_gap: i64,
    },
    InactiveCardTestingBurst {
        transaction_count: usize,
        burst_start: Timestamp,
        burst_end: Timestamp,
        max_amount: u32,
        max_gap: i64,
    },
    RiskyMerchantCategory { category: MerchantCategory },
    CategoryPriceDeviation {
        category: MerchantCategory,
        /// In cents.
        amount: u32,
        /// The card's median amount, in hundredths of a cent.
        average_amount: u128,
        /// The robust spread of the card's amounts, in hundredths of a cent.
        std_deviation: u128,
        /// In thousandths.
        z_score: u64,
        weight: u32,
    },
    CardAmountDeviation {
        card_id: u64,
        /// In cents.
        amount: u32,
        /// Mean of the card's other amounts, in hundredths of a cent.
        average_amount: u128,
        /// Standard deviation of the card's other amounts, in hundredths of a cent.
        std_deviation: u128,
        /// In thousandths.
        z_score: u64,
        weight: u32,
    },
    MerchantRing {
        merchant_name: String,
        /// In cents.
        amount: u32,
        /// In hundredths of a cent.
        merchant_median: u64,
        /// Amount over median, in thousandths.
        ratio: u64,
        outlier_count: usize,
        distinct_card_count: usize,
    },
    FraudulentIdentityLink {
        device_id: Option<String>,
        ip_address: Option<IpAddress>,
        matched_confirmed_count: usize,
        matched_likely_count: usize,
        weight: u32,
    },
}

/// The weight of a factor, in thousandths.
pub open spec fn factor_weight(f: FraudFactor) -> u32 {
    match f {
        FraudFactor::ForeignCountryTrip { likely_vacation, .. } => if likely_vacation {
            VACATION_FOREIGN_COUNTRY_WEIGHT
        } else {
            FOREIGN_COUNTRY_WEIGHT
        },
        FraudFactor::CardTestingBurst { .. } => CARD_TESTING_BURST_WEIGHT,
        FraudFactor::InactiveCardTestingBurst { .. } => 0,
        FraudFactor::RiskyMerchantCategory { .. } => RISKY_CATEGORY_WEIGHT,
        FraudFactor::CategoryPriceDeviation { weight, .. } => weight,
        FraudFactor::CardAmountDeviation { weight, .. } => weight,
        FraudFactor::MerchantRing { .. } => MERCHANT_RING_WEIGHT,
        FraudFactor::FraudulentIdentityLink { weight, .. } => weight,
    }
}

impl FraudFactor {
    /// The weight of the factor, in thousandths.
    pub fn weight(&self) -> (r: u32)
        ensures
            r == factor_weight(*self),
    {
        match self {
            FraudFactor::ForeignCountryTrip { likely_vacation, .. } => {
                if *likely_vacation {
                    VACATION_FOREIGN_COUNTRY_WEIGHT
                } else {
                    FOREIGN_COUNTRY_WEIGHT
                }
            },
            FraudFactor::CardTestingBurst { .. } => CARD_TESTING_BURST_WEIGHT,
            FraudFactor::InactiveCardTestingBurst { .. } => 0,
            FraudFactor::RiskyMerchantCategory { .. } => RISKY_CATEGORY_WEIGHT,
            FraudFactor::CategoryPriceDeviation { weight, .. } => *weight,
            FraudFactor::CardAmountDeviation { weight, .. } => *weight,
            FraudFactor::MerchantRing { .. } => MERCHANT_RING_WEIGHT,
            FraudFactor::FraudulentIdentityLink { weight, .. } => *weight,
        }
    }
}

/// The weights of a list of factors.
pub open spec fn weights(fs: Seq<FraudFactor>) -> Seq<u32> {
    fs.map_values(|f: FraudFactor| factor_weight(f))
}

/// A weight read as a probability: at most certainty.
pub open spec fn capped(w: u32) -> nat {
    if w <= 1000 {
        w as nat
    } else {
        1000
    }
}

/// The chance, in thousandths and rounded down at each step, that none of the signals with
/// weights `ws` is right: the product of `1 - w`.
pub open spec fn clear_chance(ws: Seq<u32>) -> nat
    decreases ws.len(),
{
    if ws.len() == 0 {
        1000
    } else {
        clear_chance(ws.drop_last()) * (1000 - capped(ws.last())) as nat / 1000
    }
}

/// The noisy-OR combination of the weights: `1 - product(1 - w)`.
pub open spec fn noisy_or(ws: Seq<u32>) -> nat {
    (1000 - clear_chance(ws)) as nat
}

pub proof fn lemma_clear_chance_bounds(ws: Seq<u32>)
    ensures
        clear_chance(ws) <= 1000,
    decreases ws.len(),
{
    if ws.len() > 0 {
        lemma_clear_chance_bounds(ws.drop_last());
        let c = clear_chance(ws.drop_last());
        let k = (1000 - capped(ws.last())) as nat;
        assert(c * k / 1000 <= c) by (nonlinear_arith)
            requires
                k <= 1000,
        ;
    }
}

/// The score of a transaction: the noisy-OR of its factors' weights, in thousandths.
pub open spec fn score_of(t: Transaction) -> nat {
    noisy_or(weights(t.fraud_factors@))
}

/// Whether the detector alone considers the transaction likely fraud.
pub open spec fn likely_fraud_spec(t: Transaction) -> bool {
    score_of(t) >= FRAUD_SCORE_THRESHOLD
}

/// The fraud decision that is exported: a human review decides when there is one,
/// the detector otherwise.
pub open spec fn exported_fraud_spec(t: Transaction) -> bool {
    match t.human_review_status {
        HumanReviewStatus::TruePositive => true,
        HumanReviewStatus::FalsePositive => false,
        _ => likely_fraud_spec(t),
    }
}

impl Transaction {
    /// The noisy-OR of the factors' weights, in thousandths.
    pub fn fraud_score(&self) -> (r: u32)
        ensures
            r == score_of(*self),
            r <= 1000,
    {
        let mut clear: u64 = 1000;
        let mut i: usize = 0;
        let n = self.fraud_factors.len();
        while i < n
            invariant
                n == self.fraud_factors@.len(),
                i <= n,
                clear == clear_chance(weights(self.fraud_factors@).take(i as int)),
                clear <= 1000,
            decreases n - i,
        {
            let w = self.fraud_factors[i].weight();
            let c: u64 = if w <= 1000 {
                w as u64
            } else {
                1000
            };
            proof {
                let ws = weights(self.fraud_factors@);
                assert(ws.take(i + 1).drop_last() =~= ws.take(i as int));
                assert(ws.take(i + 1).last() == w);
            }
            assert(clear * (1000 - c) <= 1000 * 1000) by (nonlinear_arith)
                requires
                    clear <= 1000,
                    c <= 1000,
            ;
            let next = clear * (1000 - c) / 1000;
            assert(next <= clear) by (nonlinear_arith)
                requires
                    next == clear * (1000 - c) / 1000,
                    c <= 1000,
            ;
            clear = next;
            i += 1;
        }
        assert(weights(self.fraud_factors@).take(n as int) =~= weights(self.fraud_factors@));
        (1000 - clear) as u32
    }

    /// Whether the score reaches the fraud threshold.
    pub fn likely_fraud(&self) -> (r: bool)
        ensures
            r == likely_fraud_spec(*self),
    {
        self.fraud_score() >= FRAUD_SCORE_THRESHOLD
    }

    /// The decision written to the exported CSV: the human review when there is one,
    /// the score threshold otherwise.
    pub fn likely_fraud_for_export(&self) -> (r: bool)
        ensures
            r == exported_fraud_spec(*self),
    {
        match self.human_review_status.likely_fraud_override() {
            Some(decision) => decision,
            None => self.likely_fraud(),
        }
    }
}

/// The weight of a category price deviation with z-score `z` (thousandths): nothing below
/// the minimum z-score, then the base weight plus one step per standard deviation past it
/// (in proportion), up to the maximum.
pub open spec fn category_price_deviation_weight_spec(z: u64) -> u32 {
    if z < CATEGORY_PRICE_DEVIATION_MIN_Z_SCORE {
        0
    } else {
        let w = CATEGORY_PRICE_DEVIATION_BASE_WEIGHT as int + (z - CATEGORY_PRICE_DEVIATION_MIN_Z_SCORE)
            * CATEGORY_PRICE_DEVIATION_STEP_WEIGHT as int / 1000;
        if w < CATEGORY_PRICE_DEVIATION_MAX_WEIGHT {
            w as u32
        } else {
            CATEGORY_PRICE_DEVIATION_MAX_WEIGHT
        }
    }
}

pub fn category_price_deviation_weight(z_score: u64) -> (r: u32)
    ensures
        r == category_price_deviation_weight_spec(z_score),
{
    if z_score < CATEGORY_PRICE_DEVIATION_MIN_Z_SCORE {
        return 0;
    }
    let excess = z_score - CATEGORY_PRICE_DEVIATION_MIN_Z_SCORE;
    // past this excess the weight is capped anyway
    if excess >= 10_000 {
        return CATEGORY_PRICE_DEVIATION_MAX_WEIGHT;
    }
    assert(excess * (CATEGORY_PRICE_DEVIATION_STEP_WEIGHT as u64) <= 10_000 * 120) by (nonlinear_arith)
        requires
            excess < 10_000,
            CATEGORY_PRICE_DEVIATION_STEP_WEIGHT == 120,
    ;
    let w = CATEGORY_PRICE_DEVIATION_BASE_WEIGHT as u64 + excess * CATEGORY_PRICE_DEVIATION_STEP_WEIGHT as u64
        / 1000;
    if w < CATEGORY_PRICE_DEVIATION_MAX_WEIGHT as u64 {
        w as u32
    } else {
        CATEGORY_PRICE_DEVIATION_MAX_WEIGHT
    }
}

/// The weight of a card amount deviation with z-score `z` (thousandths), shaped like the
/// category price deviation weight.
pub open spec fn card_amount_deviation_weight_spec(z: u64) -> u32 {
    if z < CARD_AMOUNT_DEVIATION_MIN_Z_SCORE {
        0
    } else {
        let w = CARD_AMOUNT_DEVIATION_BASE_WEIGHT as int + (z - CARD_AMOUNT_DEVIATION_MIN_Z_SCORE)
            * CARD_AMOUNT_DEVIATION_STEP_WEIGHT as int / 1000;
        if w < CARD_AMOUNT_DEVIATION_MAX_WEIGHT {
            w as u32
        } else {
            CARD_AMOUNT_DEVIATION_MAX_WEIGHT
        }
    }
}

pub fn card_amount_deviation_weight(z_score: u64) -> (r: u32)
    ensures
        r == card_amount_deviation_weight_spec(z_score),
{
    if z_score < CARD_AMOUNT_DEVIATION_MIN_Z_SCORE {
        return 0;
    }
    let excess = z_score - CARD_AMOUNT_DEVIATION_MIN_Z_SCORE;
    if excess >= 10_000 {
        return CARD_AMOUNT_DEVIATION_MAX_WEIGHT;
    }
    assert(excess * (CARD_AMOUNT_DEVIATION_STEP_WEIGHT as u64) <= 10_000 * 100) by (nonlinear_arith)
        requires
            excess < 10_000,
            CARD_AMOUNT_DEVIATION_STEP_WEIGHT == 100,
    ;
    let w = CARD_AMOUNT_DEVIATION_BASE_WEIGHT as u64 + excess * CARD_AMOUNT_DEVIATION_STEP_WEIGHT as u64
        / 1000;
    if w < CARD_AMOUNT_DEVIATION_MAX_WEIGHT as u64 {
        w as u32
    } else {
        CARD_AMOUNT_DEVIATION_MAX_WEIGHT
    }
}

/// Gift cards and electronics are the usual cash-out goods.
pub open spec fn is_risky_category_spec(c: MerchantCategory) -> bool {
    c == MerchantCategory::GiftCard || c == MerchantCategory::Electronics
}

pub fn is_risky_category(category: MerchantCategory) -> (r: bool)
    ensures
        r == is_risky_category_spec(category),
        r <==> (category is GiftCard || category is Electronics),
{
    matches!(category, MerchantCategory::GiftCard | MerchantCategory::Electronics)
}

// ---------------------------------------------------------------------------------------
// laws of the score

proof fn lemma_step_bounds(c: nat, w: u32)
    requires
        c <= 1000,
    ensures
        c * (1000 - capped(w)) as nat / 1000 <= c,
        c * (1000 - capped(w)) as nat / 1000 <= (1000 - capped(w)) as nat,
{
    let k = (1000 - capped(w)) as nat;
    assert(c * k / 1000 <= c) by (nonlinear_arith)
        requires
            k <= 1000,
    ;
    assert(c * k / 1000 <= k) by (nonlinear_arith)
        requires
            c <= 1000,
    ;
}

/// Another factor never lowers the score.
pub proof fn lemma_score_grows_with_factors(ws: Seq<u32>, w: u32)
    ensures
        noisy_or(ws) <= noisy_or(ws.push(w)),
        noisy_or(ws.push(w)) <= 1000,
{
    lemma_clear_chance_bounds(ws);
    assert(ws.push(w).drop_last() =~= ws);
    lemma_step_bounds(clear_chance(ws), w);
}

/// The score is at least each factor's weight (capped at certainty).
pub proof fn lemma_score_covers_each_weight(ws: Seq<u32>, j: int)
    requires
        0 <= j < ws.len(),
    ensures
        capped(ws[j]) <= noisy_or(ws),
    decreases ws.len(),
{
    lemma_clear_chance_bounds(ws.drop_last());
    let c = clear_chance(ws.drop_last());
    lemma_step_bounds(c, ws.last());
    if j < ws.len() - 1 {
        lemma_score_covers_each_weight(ws.drop_last(), j);
        assert(ws.drop_last()[j] == ws[j]);
    }
}

/// A factor without weight leaves the score as it is.
pub proof fn lemma_weightless_factor(ws: Seq<u32>)
    ensures
        noisy_or(ws.push(0)) == noisy_or(ws),
{
    assert(ws.push(0).drop_last() =~= ws);
    assert(clear_chance(ws) * 1000 / 1000 == clear_chance(ws)) by (nonlinear_arith);
}

/// With one factor, the score is its weight (capped at certainty).
pub proof fn lemma_single_factor_score(w: u32)
    ensures
        noisy_or(seq![w]) == capped(w),
{
    let s = seq![w];
    assert(s.drop_last() =~= Seq::<u32>::empty());
    assert(s.last() == w);
    let k = (1000 - capped(w)) as nat;
    assert(clear_chance(s) == clear_chance(s.drop_last()) * k / 1000);
    assert(clear_chance(Seq::<u32>::empty()) == 1000);
    assert(1000 * k / 1000 == k) by (nonlinear_arith);
}

/// The export follows the human decision when there is one, the score otherwise.
pub proof fn lemma_export_follows_review(t: Transaction)
    ensures
        t.human_review_status == HumanReviewStatus::TruePositive ==> exported_fraud_spec(t),
        t.human_review_status == HumanReviewStatus::FalsePositive ==> !exported_fraud_spec(t),
        t.human_review_status == HumanReviewStatus::NotNeeded || t.human_review_status
            == HumanReviewStatus::NeedCheck ==> (exported_fraud_spec(t) <==> score_of(t) >= FRAUD_SCORE_THRESHOLD),
{
}

/// The category price deviation weight is zero below the minimum z-score, then grows with
/// the z-score up to the maximum.
pub proof fn lemma_category_weight_shape(z1: u64, z2: u64)
    ensures
        z1 < CATEGORY_PRICE_DEVIATION_MIN_Z_SCORE ==> category_price_deviation_weight_spec(z1) == 0,
        z1 >= CATEGORY_PRICE_DEVIATION_MIN_Z_SCORE ==> category_price_deviation_weight_spec(z1)
            >= CATEGORY_PRICE_DEVIATION_BASE_WEIGHT,
        z1 <= z2 ==> category_price_deviation_weight_spec(z1) <= category_price_deviation_weight_spec(z2),
        category_price_deviation_weight_spec(z1) <= CATEGORY_PRICE_DEVIATION_MAX_WEIGHT,
{
    if CATEGORY_PRICE_DEVIATION_MIN_Z_SCORE <= z1 <= z2 {
        let a = (z1 - CATEGORY_PRICE_DEVIATION_MIN_Z_SCORE) as int;
        let b = (z2 - CATEGORY_PRICE_DEVIATION_MIN_Z_SCORE) as int;
        assert(a * 120 / 1000 <= b * 120 / 1000) by (nonlinear_arith)
            requires
                0 <= a <= b,
        ;
    }
    if z1 >= CATEGORY_PRICE_DEVIATION_MIN_Z_SCORE {
        let a = (z1 - CATEGORY_PRICE_DEVIATION_MIN_Z_SCORE) as int;
        assert(a * 120 / 1000 >= 0) by (nonlinear_arith)
            requires
                0 <= a,
        ;
    }
}

/// The card amount deviation weight has the same shape.
pub proof fn lemma_card_amount_weight_shape(z1: u64, z2: u64)
    ensures
        z1 < CARD_AMOUNT_DEVIATION_MIN_Z_SCORE ==> card_amount_deviation_weight_spec(z1) == 0,
        z1 >= CARD_AMOUNT_DEVIATION_MIN_Z_SCORE ==> card_amount_deviation_weight_spec(z1)
            >= CARD_AMOUNT_DEVIATION_BASE_WEIGHT,
        z1 <= z2 ==> card_amount_deviation_weight_spec(z1) <= card_amount_deviation_weight_spec(z2),
        card_amount_deviation_weight_spec(z1) <= CARD_AMOUNT_DEVIATION_MAX_WEIGHT,
{
    if CARD_AMOUNT_DEVIATION_MIN_Z_SCORE <= z1 <= z2 {
        let a = (z1 - CARD_AMOUNT_DEVIATION_MIN_Z_SCORE) as int;
        let b = (z2 - CARD_AMOUNT_DEVIATION_MIN_Z_SCORE) as int;
        assert(a * 100 / 1000 <= b * 100 / 1000) by (nonlinear_arith)
            requires
                0 <= a <= b,
        ;
    }
    if z1 >= CARD_AMOUNT_DEVIATION_MIN_Z_SCORE {
        let a = (z1 - CARD_AMOUNT_DEVIATION_MIN_Z_SCORE) as int;
        assert(a * 100 / 1000 >= 0) by (nonlinear_arith)
            requires
                0 <= a,
        ;
    }
}

/// Transaction `i` lost its factors and nothing else.
pub open spec fn factors_cleared_at(old_items: Seq<Transaction>, new_items: Seq<Transaction>, i: int) -> bool {
    &&& same_payment(new_items[i], old_items[i])
    &&& new_items[i].fraud_factors@ == Seq::<FraudFactor>::empty()
    &&& new_items[i].human_review_status == old_items[i].human_review_status
}

/// Every factor is dropped; nothing else changes.
pub open spec fn factors_cleared(old_items: Seq<Transaction>, new_items: Seq<Transaction>) -> bool {
    &&& new_items.len() == old_items.len()
    &&& forall|i: int| 0 <= i < old_items.len() ==> #[trigger] factors_cleared_at(old_items, new_items, i)
}

/// `new_items` is `old_items` analysed from scratch: the factors are cleared, then the foreign
/// trip, card testing burst, category risk, card amount deviation, merchant ring and identity
/// link passes run in turn, each on the result of the one before.
pub open spec fn analysed(old_items: Seq<Transaction>, new_items: Seq<Transaction>) -> bool {
    exists|s0: Seq<Transaction>, s1: Seq<Transaction>, s2: Seq<Transaction>, s3: Seq<Transaction>, s4: Seq<Transaction>, s5: Seq<Transaction>|
        #![trigger factors_cleared(old_items, s0), foreign_country_trip::applied(s0, s1), card_testing_burst::applied(s1, s2), merchant_category_risk::applied(s2, s3), card_amount_deviation::applied(s3, s4), merchant_ring::applied(s4, s5), fraudulent_identity_link::applied(s5, new_items)]
        {
            &&& factors_cleared(old_items, s0)
            &&& foreign_country_trip::applied(s0, s1)
            &&& card_testing_burst::applied(s1, s2)
            &&& merchant_category_risk::applied(s2, s3)
            &&& card_amount_deviation::applied(s3, s4)
            &&& merchant_ring::applied(s4, s5)
            &&& fraudulent_identity_link::applied(s5, new_items)
        }
}

/// The analysis starts over: what it makes of a list of transactions does not depend on
/// the factors they already carried, only on the payments and the analysts' decisions.
pub proof fn lemma_analysis_starts_over(a: Seq<Transaction>, b: Seq<Transaction>, new_items: Seq<Transaction>)
    requires
        mirrors(b, a),
        forall|i: int| 0 <= i < a.len() ==> (#[trigger] b[i]).human_review_status == a[i].human_review_status,
        analysed(a, new_items),
    ensures
        analysed(b, new_items),
{
    let (s0, s1, s2, s3, s4, s5) = choose|s0: Seq<Transaction>, s1: Seq<Transaction>, s2: Seq<Transaction>, s3: Seq<Transaction>, s4: Seq<Transaction>, s5: Seq<Transaction>|
        #![trigger factors_cleared(a, s0), foreign_country_trip::applied(s0, s1), card_testing_burst::applied(s1, s2), merchant_category_risk::applied(s2, s3), card_amount_deviation::applied(s3, s4), merchant_ring::applied(s4, s5), fraudulent_identity_link::applied(s5, new_items)]
        {
            &&& factors_cleared(a, s0)
            &&& foreign_country_trip::applied(s0, s1)
            &&& card_testing_burst::applied(s1, s2)
            &&& merchant_category_risk::applied(s2, s3)
            &&& card_amount_deviation::applied(s3, s4)
            &&& merchant_ring::applied(s4, s5)
            &&& fraudulent_identity_link::applied(s5, new_items)
        };
    assert forall|i: int| 0 <= i < b.len() implies #[trigger] factors_cleared_at(b, s0, i) by {
        assert(factors_cleared_at(a, s0, i));
        assert(same_payment(b[i], a[i]));
    }
    assert(factors_cleared(b, s0));
}

/// Running the analysis a second time changes nothing: its result, analysed again, keeps
/// every payment, status and factor. (Every pass reads only payments, except the identity
/// links, which read the statuses the first run left and ignore links already added.)
pub proof fn lemma_analysis_idempotent(a: Seq<Transaction>, b: Seq<Transaction>, c: Seq<Transaction>)
    requires
        a.len() <= usize::MAX,
        analysed(a, b),
        analysed(b, c),
    ensures
        unchanged_analysis(b, c),
{
    let (s0, s1, s2, s3, s4, s5) = choose|s0: Seq<Transaction>, s1: Seq<Transaction>, s2: Seq<Transaction>, s3: Seq<Transaction>, s4: Seq<Transaction>, s5: Seq<Transaction>|
        #![trigger factors_cleared(a, s0), foreign_country_trip::applied(s0, s1), card_testing_burst::applied(s1, s2), merchant_category_risk::applied(s2, s3), card_amount_deviation::applied(s3, s4), merchant_ring::applied(s4, s5), fraudulent_identity_link::applied(s5, b)]
        {
            &&& factors_cleared(a, s0)
            &&& foreign_country_trip::applied(s0, s1)
            &&& card_testing_burst::applied(s1, s2)
            &&& merchant_category_risk::applied(s2, s3)
            &&& card_amount_deviation::applied(s3, s4)
            &&& merchant_ring::applied(s4, s5)
            &&& fraudulent_identity_link::applied(s5, b)
        };
    let (t0, t1, t2, t3, t4, t5) = choose|t0: Seq<Transaction>, t1: Seq<Transaction>, t2: Seq<Transaction>, t3: Seq<Transaction>, t4: Seq<Transaction>, t5: Seq<Transaction>|
        #![trigger factors_cleared(b, t0), foreign_country_trip::applied(t0, t1), card_testing_burst::applied(t1, t2), merchant_category_risk::applied(t2, t3), card_amount_deviation::applied(t3, t4), merchant_ring::applied(t4, t5), fraudulent_identity_link::applied(t5, c)]
        {
            &&& factors_cleared(b, t0)
            &&& foreign_country_trip::applied(t0, t1)
            &&& card_testing_burst::applied(t1, t2)
            &&& merchant_category_risk::applied(t2, t3)
            &&& card_amount_deviation::applied(t3, t4)
            &&& merchant_ring::applied(t4, t5)
            &&& fraudulent_identity_link::applied(t5, c)
        };
    let n = a.len();
    // the first run: payments kept at every step
    foreign_country_trip::lemma_applied_congruent(s0, s1, s0, s1);
    lemma_chrono_order_congruent(s0, s1);
    card_testing_burst::lemma_applied_congruent(s1, s2, s1, s2);
    merchant_category_risk::lemma_applied_congruent(s2, s3, s2, s3);
    card_amount_deviation::lemma_applied_congruent(s3, s4, s3, s4);
    merchant_ring::lemma_applied_congruent(s4, s5, s4, s5);
    assert forall|i: int| 0 <= i < n implies #[trigger] same_payment(s0[i], a[i]) && same_payment(b[i], s5[i])
        && b[i].human_review_status == s5[i].human_review_status by {
        assert(factors_cleared_at(a, s0, i));
        assert(fraudulent_identity_link::link_effect(s5, b, i));
    }
    // the second run starts from the same payments, without factors
    assert forall|i: int| 0 <= i < n implies same_payment(#[trigger] t0[i], s0[i]) && t0[i].fraud_factors@
        == s0[i].fraud_factors@ by {
        assert(factors_cleared_at(a, s0, i));
        assert(factors_cleared_at(b, t0, i));
        assert(same_payment(s1[i], s0[i]));
        assert(same_payment(s2[i], s1[i]));
        assert(same_payment(s3[i], s2[i]));
        assert(same_payment(s4[i], s3[i]));
        assert(same_payment(s5[i], s4[i]));
        assert(same_payment(b[i], s5[i]));
    }
    assert(same_payments_and_factors(s0, t0));
    foreign_country_trip::lemma_applied_congruent(s0, s1, t0, t1);
    card_testing_burst::lemma_applied_congruent(s1, s2, t1, t2);
    merchant_category_risk::lemma_applied_congruent(s2, s3, t2, t3);
    card_amount_deviation::lemma_applied_congruent(s3, s4, t3, t4);
    merchant_ring::lemma_applied_congruent(s4, s5, t4, t5);
    // the statuses meet again before the identity links
    assert forall|i: int| 0 <= i < n implies (#[trigger] t5[i]).human_review_status == s5[i].human_review_status by {
        assert(factors_cleared_at(a, s0, i));
        assert(factors_cleared_at(b, t0, i));
        assert(s1[i].human_review_status == s0[i].human_review_status && t1[i].human_review_status
            == t0[i].human_review_status || s1[i].human_review_status == HumanReviewStatus::NeedCheck
            && t1[i].human_review_status == HumanReviewStatus::NeedCheck);
        assert(s2[i].human_review_status == s1[i].human_review_status && t2[i].human_review_status
            == t1[i].human_review_status || s2[i].human_review_status == HumanReviewStatus::NeedCheck
            && t2[i].human_review_status == HumanReviewStatus::NeedCheck);
        assert(s3[i].human_review_status == s2[i].human_review_status);
        assert(t3[i].human_review_status == t2[i].human_review_status);
        assert(s4[i].human_review_status == s3[i].human_review_status);
        assert(t4[i].human_review_status == t3[i].human_review_status);
        assert(s5[i].human_review_status == s4[i].human_review_status);
        assert(t5[i].human_review_status == t4[i].human_review_status);
    }
    fraudulent_identity_link::lemma_applied_congruent(s5, b, t5, c);
}

/// What the analysis keeps: every payment, and every status unless it becomes `NeedCheck`.
pub open spec fn analysis_frame(old_items: Seq<Transaction>, new_items: Seq<Transaction>) -> bool {
    &&& mirrors(new_items, old_items)
    &&& forall|i: int|
        0 <= i < old_items.len() ==> (#[trigger] new_items[i]).human_review_status
            == old_items[i].human_review_status || new_items[i].human_review_status
            == HumanReviewStatus::NeedCheck
}

/// The analysis keeps the transactions and their payments, and changes a status only to mark
/// the transaction for a check.
pub proof fn lemma_analysis_frame(a: Seq<Transaction>, b: Seq<Transaction>)
    requires
        a.len() <= usize::MAX,
        analysed(a, b),
    ensures
        analysis_frame(a, b),
{
    let (s0, s1, s2, s3, s4, s5) = choose|s0: Seq<Transaction>, s1: Seq<Transaction>, s2: Seq<Transaction>, s3: Seq<Transaction>, s4: Seq<Transaction>, s5: Seq<Transaction>|
        #![trigger factors_cleared(a, s0), foreign_country_trip::applied(s0, s1), card_testing_burst::applied(s1, s2), merchant_category_risk::applied(s2, s3), card_amount_deviation::applied(s3, s4), merchant_ring::applied(s4, s5), fraudulent_identity_link::applied(s5, b)]
        {
            &&& factors_cleared(a, s0)
            &&& foreign_country_trip::applied(s0, s1)
            &&& card_testing_burst::applied(s1, s2)
            &&& merchant_category_risk::applied(s2, s3)
            &&& card_amount_deviation::applied(s3, s4)
            &&& merchant_ring::applied(s4, s5)
            &&& fraudulent_identity_link::applied(s5, b)
        };
    foreign_country_trip::lemma_applied_congruent(s0, s1, s0, s1);
    lemma_chrono_order_congruent(s0, s1);
    card_testing_burst::lemma_applied_congruent(s1, s2, s1, s2);
    merchant_category_risk::lemma_applied_congruent(s2, s3, s2, s3);
    card_amount_deviation::lemma_applied_congruent(s3, s4, s3, s4);
    merchant_ring::lemma_applied_congruent(s4, s5, s4, s5);
    assert forall|i: int| 0 <= i < a.len() implies same_payment(#[trigger] b[i], a[i]) && (b[i].human_review_status
        == a[i].human_review_status || b[i].human_review_status == HumanReviewStatus::NeedCheck) by {
        assert(factors_cleared_at(a, s0, i));
        assert(fraudulent_identity_link::link_effect(s5, b, i));
        assert(same_payment(s1[i], s0[i]));
        assert(same_payment(s2[i], s1[i]));
        assert(same_payment(s3[i], s2[i]));
        assert(same_payment(s4[i], s3[i]));
        assert(same_payment(s5[i], s4[i]));
        assert(s1[i].human_review_status == s0[i].human_review_status || s1[i].human_review_status
            == HumanReviewStatus::NeedCheck);
        assert(s2[i].human_review_status == s1[i].human_review_status || s2[i].human_review_status
            == HumanReviewStatus::NeedCheck);
        assert(s3[i].human_review_status == s2[i].human_review_status);
        assert(s4[i].human_review_status == s3[i].human_review_status);
        assert(s5[i].human_review_status == s4[i].human_review_status);
    }
}

impl Transactions {
    /// Recomputes every fraud factor (see [`analysed`]).
    pub fn apply_fraud_factors(&mut self)
        requires
            old(self).items@.len() <= MAX_TRANSACTIONS,
        ensures
            final(self).items@.len() == old(self).items@.len(),
            analysed(old(self).items@, final(self).items@),
            analysis_frame(old(self).items@, final(self).items@),
    {
        let ghost s = self.items@;
        let n = self.items.len();
        let mut i: usize = 0;
        while i < n
            invariant
                n == s.len(),
                i <= n,
                self.items@.len() == n,
                forall|k: int| 0 <= k < i ==> #[trigger] factors_cleared_at(s, self.items@, k),
                forall|k: int| i <= k < n ==> #[trigger] self.items@[k] == s[k],
            decreases n - i,
        {
            let ghost before = self.items@;
            self.items[i].fraud_factors.clear();
            proof {
                assert forall|k: int| 0 <= k < n && k != i implies #[trigger] self.items@[k]
                    == before[k] by {}
                assert forall|k: int| 0 <= k <= i implies #[trigger] factors_cleared_at(s, self.items@, k) by {
                    if k < i {
                        assert(self.items@[k] == before[k]);
                        assert(factors_cleared_at(s, before, k));
                    }
                }
            }
            i += 1;
        }
        let ghost s0 = self.items@;
        assert(factors_cleared(s, s0));
        foreign_country_trip::apply(self);
        let ghost s1 = self.items@;
        card_testing_burst::apply(self);
        let ghost s2 = self.items@;
        merchant_category_risk::apply(self);
        let ghost s3 = self.items@;
        card_amount_deviation::apply(self);
        let ghost s4 = self.items@;
        merchant_ring::apply(self);
        let ghost s5 = self.items@;
        fraudulent_identity_link::apply(self);
        assert(fraudulent_identity_link::applied(s5, self.items@));
        proof {
            lemma_analysis_frame(s, self.items@);
        }
    }

    /// Recomputes every fraud factor (the same as [`Transactions::apply_fraud_factors`]).
    pub fn card_country_statistics(&mut self)
        requires
            old(self).items@.len() <= MAX_TRANSACTIONS,
        ensures
            final(self).items@.len() == old(self).items@.len(),
            analysed(old(self).items@, final(self).items@),
            analysis_frame(old(self).items@, final(self).items@),
    {
        self.apply_fraud_factors();
    }
}

} // verus!
