use std::str::FromStr;

use fraud_oxidizer::data::card_id::CardId;
use fraud_oxidizer::data::channel::Channel;
use fraud_oxidizer::data::country::Country;
use fraud_oxidizer::data::human_review_status::HumanReviewStatus;
use fraud_oxidizer::data::ip_address::parse_ip;
use fraud_oxidizer::data::merchant_category::MerchantCategory;
use fraud_oxidizer::data::timestamp::{parse_timestamp, Timestamp};
use fraud_oxidizer::data::transaction::Transaction;
use fraud_oxidizer::data::transaction_id::TransactionId;
use fraud_oxidizer::data::transactions::Transactions;
use fraud_oxidizer::process::card_statistics::{
    card_amount_deviation_weight, category_price_deviation_weight, is_risky_category, FraudFactor,
    CARD_AMOUNT_DEVIATION_MIN_Z_SCORE, CATEGORY_PRICE_DEVIATION_MAX_WEIGHT,
    CATEGORY_PRICE_DEVIATION_MIN_Z_SCORE, FRAUDULENT_IDENTITY_LINK_WEIGHT_CONFIRMED,
    FRAUDULENT_IDENTITY_LINK_WEIGHT_LIKELY, FRAUD_SCORE_THRESHOLD, RISKY_CATEGORY_WEIGHT,
};
use fraud_oxidizer::process::passes::{
    card_amount_deviation, card_testing_burst, foreign_country_trip, fraudulent_identity_link,
    merchant_category_risk, merchant_ring,
};

fn country(code: &str) -> Country {
    Country::from_str(code).expect("valid country")
}

fn at(timestamp: (i32, u32, u32, u32, u32, u32)) -> Timestamp {
    let (year, month, day, hour, minute, second) = timestamp;
    parse_timestamp(&format!(
        "{year:04}-{month:02}-{day:02}T{hour:02}:{minute:02}:{second:02}"
    ))
    .expect("valid timestamp")
}

fn base(transaction_id: u64, card_id: u64, amount: u32) -> Transaction {
    Transaction {
        transaction_id: TransactionId(transaction_id),
        timestamp: at((2026, 5, 1, 10, 0, 0)),
        card_id: CardId(card_id),
        amount,
        merchant_name: "merchant".to_owned(),
        merchant_category: MerchantCategory::Grocery,
        channel: Channel::Online,
        cardholder_country: country("CA"),
        merchant_country: country("CA"),
        device_id: None,
        ip_address: None,
        fraud_factors: Vec::new(),
        human_review_status: HumanReviewStatus::NotNeeded,
    }
}

fn tx(card_id: u64, timestamp: (i32, u32, u32, u32, u32, u32), cardholder_country: &str) -> Transaction {
    let mut t = base(card_id, card_id, 1000);
    t.timestamp = at(timestamp);
    t.merchant_name = "Test Merchant".to_owned();
    t.channel = Channel::InPerson;
    t.cardholder_country = country(cardholder_country);
    t.merchant_country = country(cardholder_country);
    t
}

fn tx_online(card_id: u64, timestamp: (i32, u32, u32, u32, u32, u32), amount: u32) -> Transaction {
    let mut t = tx(card_id, timestamp, "CA");
    t.channel = Channel::Online;
    t.amount = amount;
    t
}

fn burst_tx(transaction_id: u64, card_id: u64, timestamp: (i32, u32, u32, u32, u32, u32), amount: u32, channel: Channel) -> Transaction {
    let mut t = base(transaction_id, card_id, amount);
    t.timestamp = at(timestamp);
    t.merchant_name = "test".to_owned();
    t.channel = channel;
    t
}

// ---------------------------------------------------------------------------------------
// the whole analysis

#[test]
fn marks_single_foreign_transaction_as_vacation_when_both_gaps_are_large() {
    let mut transactions = Transactions {
        items: vec![
            tx(1, (2026, 5, 1, 8, 0, 0), "CA"),
            tx(1, (2026, 5, 2, 12, 0, 0), "US"),
            tx(1, (2026, 5, 3, 20, 0, 0), "CA"),
        ],
    };

    transactions.apply_fraud_factors();

    let vacation_tx = transactions
        .items
        .iter()
        .find(|tx| tx.cardholder_country == country("US"))
        .expect("expected foreign transaction");

    assert_eq!(vacation_tx.fraud_factors.len(), 1);
    assert!(matches!(
        vacation_tx.fraud_factors[0],
        FraudFactor::ForeignCountryTrip {
            likely_vacation: true,
            ..
        }
    ));
    assert!(!vacation_tx.likely_fraud());
}

#[test]
fn marks_short_foreign_run_as_likely_fraud() {
    let mut transactions = Transactions {
        items: vec![
            tx(1, (2026, 5, 1, 8, 0, 0), "CA"),
            tx(1, (2026, 5, 1, 9, 0, 0), "US"),
            tx(1, (2026, 5, 1, 10, 0, 0), "US"),
            tx(1, (2026, 5, 1, 11, 0, 0), "CA"),
        ],
    };

    transactions.apply_fraud_factors();

    let fraud_tx = transactions
        .items
        .iter()
        .find(|tx| tx.cardholder_country == country("US"))
        .expect("expected foreign transactions");

    assert!(matches!(
        fraud_tx.fraud_factors[0],
        FraudFactor::ForeignCountryTrip {
            likely_vacation: false,
            ..
        }
    ));
    assert!(fraud_tx.likely_fraud());
    assert!(fraud_tx.fraud_score() >= FRAUD_SCORE_THRESHOLD);
}

#[test]
fn marks_long_multi_transaction_foreign_run_as_vacation() {
    let mut transactions = Transactions {
        items: vec![
            tx(2, (2026, 5, 1, 8, 0, 0), "CA"),
            tx(2, (2026, 5, 2, 10, 0, 0), "CA"),
            tx(2, (2026, 5, 6, 8, 44, 56), "MX"),
            tx(2, (2026, 5, 11, 4, 40, 15), "MX"),
            tx(2, (2026, 5, 12, 9, 0, 0), "CA"),
        ],
    };

    transactions.apply_fraud_factors();

    let mx_tx = transactions
        .items
        .iter()
        .find(|tx| tx.cardholder_country == country("MX"))
        .expect("expected MX transaction");

    assert!(matches!(
        mx_tx.fraud_factors[0],
        FraudFactor::ForeignCountryTrip {
            likely_vacation: true,
            ..
        }
    ));
    assert!(!mx_tx.likely_fraud());
}

#[test]
fn marks_rapid_small_online_transactions_as_card_testing_burst() {
    let mut transactions = Transactions {
        items: vec![
            tx_online(10, (2026, 5, 1, 10, 0, 0), 215),
            tx_online(10, (2026, 5, 1, 10, 1, 20), 400),
            tx_online(10, (2026, 5, 1, 10, 3, 10), 325),
            tx_online(10, (2026, 5, 1, 11, 30, 0), 4500),
        ],
    };

    transactions.apply_fraud_factors();

    let burst_count = transactions
        .items
        .iter()
        .filter(|tx| {
            tx.fraud_factors.iter().any(|factor| {
                matches!(
                    factor,
                    FraudFactor::CardTestingBurst {
                        transaction_count: 3,
                        ..
                    }
                )
            })
        })
        .count();

    assert_eq!(burst_count, 3);
    assert!(transactions.items[0].likely_fraud());
    assert_eq!(
        transactions.items[0].human_review_status,
        HumanReviewStatus::NeedCheck
    );
}

#[test]
fn does_not_mark_non_online_or_large_transactions_as_card_testing_burst() {
    let mut transactions = Transactions {
        items: vec![
            tx_online(11, (2026, 5, 1, 10, 0, 0), 215),
            tx_online(11, (2026, 5, 1, 10, 1, 20), 2000),
            tx(11, (2026, 5, 1, 10, 2, 10), "CA"),
            tx_online(11, (2026, 5, 1, 10, 3, 10), 325),
        ],
    };

    transactions.apply_fraud_factors();

    assert!(transactions.items.iter().all(|tx| {
        tx.fraud_factors
            .iter()
            .all(|factor| !matches!(factor, FraudFactor::CardTestingBurst { .. }))
    }));
}

#[test]
fn inactive_burst_has_zero_weight() {
    let mut transaction = tx_online(12, (2026, 5, 1, 10, 0, 0), 300);
    transaction
        .fraud_factors
        .push(FraudFactor::InactiveCardTestingBurst {
            transaction_count: 3,
            burst_start: transaction.timestamp,
            burst_end: at((2026, 5, 1, 10, 2, 0)),
            max_amount: 450,
            max_gap: 60,
        });

    assert_eq!(transaction.fraud_factors[0].weight(), 0);
    assert!(!transaction.likely_fraud());
}

#[test]
fn risky_category_weight_stays_small() {
    let factor = FraudFactor::RiskyMerchantCategory {
        category: MerchantCategory::GiftCard,
    };

    assert_eq!(factor.weight(), RISKY_CATEGORY_WEIGHT);
    assert!(factor.weight() < FRAUD_SCORE_THRESHOLD);
}

#[test]
fn category_deviation_weight_increases_with_distance() {
    let below_cutoff = category_price_deviation_weight(2500);
    let low = category_price_deviation_weight(CATEGORY_PRICE_DEVIATION_MIN_Z_SCORE);
    let higher = category_price_deviation_weight(4500);
    let capped = category_price_deviation_weight(20000);

    assert_eq!(below_cutoff, 0);
    assert!(low > 0);
    assert!(higher > low);
    assert_eq!(capped, CATEGORY_PRICE_DEVIATION_MAX_WEIGHT);
}

// ---------------------------------------------------------------------------------------
// the passes one by one

#[test]
fn marks_burst_transactions_on_same_card() {
    let mut transactions = Transactions {
        items: vec![
            burst_tx(1, 42, (2026, 5, 1, 10, 0, 0), 300, Channel::Online),
            burst_tx(2, 42, (2026, 5, 1, 10, 2, 0), 400, Channel::Online),
            burst_tx(3, 42, (2026, 5, 1, 10, 4, 30), 500, Channel::Online),
            burst_tx(4, 42, (2026, 5, 1, 11, 30, 0), 4000, Channel::Online),
        ],
    };

    card_testing_burst::apply(&mut transactions);

    let burst_hits = transactions
        .items
        .iter()
        .filter(|tx| {
            tx.fraud_factors
                .iter()
                .any(|factor| matches!(factor, FraudFactor::CardTestingBurst { .. }))
        })
        .count();

    assert_eq!(burst_hits, 3);
    assert_eq!(
        transactions.items[0].human_review_status,
        HumanReviewStatus::NeedCheck
    );
}

#[test]
fn does_not_mark_when_gap_breaks_run() {
    let mut transactions = Transactions {
        items: vec![
            burst_tx(1, 77, (2026, 5, 1, 10, 0, 0), 300, Channel::Online),
            burst_tx(2, 77, (2026, 5, 1, 10, 1, 0), 400, Channel::Online),
            burst_tx(3, 77, (2026, 5, 1, 10, 12, 0), 500, Channel::Online),
            burst_tx(4, 77, (2026, 5, 1, 10, 13, 0), 500, Channel::Online),
        ],
    };

    card_testing_burst::apply(&mut transactions);

    assert!(transactions
        .items
        .iter()
        .all(|tx| tx.fraud_factors.is_empty()));
}

fn category_tx(transaction_id: u64, amount: u32, category: MerchantCategory) -> Transaction {
    let mut t = base(transaction_id, 1, amount);
    t.merchant_category = category;
    t
}

#[test]
fn adds_risky_category_factor() {
    let mut transactions = Transactions {
        items: vec![category_tx(1, 3000, MerchantCategory::GiftCard)],
    };

    merchant_category_risk::apply(&mut transactions);

    assert!(transactions.items[0].fraud_factors.iter().any(|factor| {
        matches!(
            factor,
            FraudFactor::RiskyMerchantCategory {
                category: MerchantCategory::GiftCard
            }
        )
    }));
}

#[test]
fn adds_deviation_factor_when_amount_is_well_above_category_average() {
    let mut transactions = Transactions {
        items: vec![
            category_tx(1, 10000, MerchantCategory::Electronics),
            category_tx(2, 10500, MerchantCategory::Electronics),
            category_tx(3, 9500, MerchantCategory::Electronics),
            category_tx(4, 18000, MerchantCategory::Electronics),
        ],
    };

    merchant_category_risk::apply(&mut transactions);

    let outlier = &transactions.items[3];
    let factor = outlier
        .fraud_factors
        .iter()
        .find_map(|factor| match factor {
            FraudFactor::CategoryPriceDeviation {
                z_score, weight, ..
            } => Some((*z_score, *weight)),
            _ => None,
        })
        .expect("expected deviation factor");

    assert!(factor.0 >= CATEGORY_PRICE_DEVIATION_MIN_Z_SCORE);
    assert!(factor.1 > 0);
}

fn card_tx(transaction_id: u64, card_id: u64, amount: u32) -> Transaction {
    let mut t = base(transaction_id, card_id, amount);
    t.channel = Channel::Online;
    t
}

#[test]
fn adds_card_amount_deviation_factor_for_large_outlier() {
    let mut transactions = Transactions {
        items: vec![
            card_tx(1, 55, 2000),
            card_tx(2, 55, 2200),
            card_tx(3, 55, 1800),
            card_tx(4, 55, 2100),
            card_tx(5, 55, 22000),
        ],
    };

    card_amount_deviation::apply(&mut transactions);

    let outlier = &transactions.items[4];
    let factor = outlier
        .fraud_factors
        .iter()
        .find_map(|factor| match factor {
            FraudFactor::CardAmountDeviation {
                card_id,
                z_score,
                weight,
                ..
            } => Some((*card_id, *z_score, *weight)),
            _ => None,
        })
        .expect("expected card amount deviation factor");

    assert_eq!(factor.0, 55);
    assert!(factor.1 >= CARD_AMOUNT_DEVIATION_MIN_Z_SCORE);
    assert!(factor.2 > 0);
}

#[test]
fn does_not_add_factor_when_amount_is_not_ten_times_mean() {
    let mut transactions = Transactions {
        items: vec![
            card_tx(1, 77, 100),
            card_tx(2, 77, 110),
            card_tx(3, 77, 90),
            card_tx(4, 77, 120),
            card_tx(5, 77, 500),
        ],
    };

    card_amount_deviation::apply(&mut transactions);

    let outlier = &transactions.items[4];
    assert!(outlier
        .fraud_factors
        .iter()
        .all(|factor| !matches!(factor, FraudFactor::CardAmountDeviation { .. })));
}

fn ring_tx(transaction_id: u64, card_id: u64, merchant_name: &str, amount: u32) -> Transaction {
    let mut t = base(transaction_id, card_id, amount);
    t.merchant_name = merchant_name.to_owned();
    t.merchant_category = MerchantCategory::OnlineRetail;
    t
}

#[test]
fn marks_cross_card_merchant_ring_outliers() {
    let mut transactions = Transactions {
        items: vec![
            ring_tx(1, 1, "ring", 2000),
            ring_tx(2, 2, "ring", 2500),
            ring_tx(3, 3, "ring", 2200),
            ring_tx(4, 4, "ring", 30000),
            ring_tx(5, 5, "ring", 32000),
            ring_tx(6, 6, "ring", 35000),
        ],
    };

    merchant_ring::apply(&mut transactions);

    let outliers = transactions
        .items
        .iter()
        .filter(|tx| {
            tx.fraud_factors
                .iter()
                .any(|factor| matches!(factor, FraudFactor::MerchantRing { .. }))
        })
        .count();

    assert_eq!(outliers, 3);
}

fn identity_tx(
    transaction_id: u64,
    amount: u32,
    device_id: Option<&str>,
    ip_address: Option<&str>,
    review: HumanReviewStatus,
) -> Transaction {
    let mut t = base(transaction_id, transaction_id, amount);
    t.device_id = device_id.map(str::to_owned);
    t.ip_address = ip_address.map(|ip| parse_ip(ip).expect("valid ip"));
    t.human_review_status = review;
    t
}

#[test]
fn promotes_weight_when_identity_is_human_confirmed() {
    let mut items = vec![
        identity_tx(1, 1000, Some("dev-1"), Some("10.0.0.1"), HumanReviewStatus::TruePositive),
        identity_tx(2, 1200, Some("dev-1"), Some("10.0.0.2"), HumanReviewStatus::NotNeeded),
    ];

    fraudulent_identity_link::apply_to_items(&mut items);

    let factor = items[1]
        .fraud_factors
        .iter()
        .find_map(|factor| match factor {
            FraudFactor::FraudulentIdentityLink { weight, .. } => Some(*weight),
            _ => None,
        })
        .expect("expected identity link factor");

    assert_eq!(factor, FRAUDULENT_IDENTITY_LINK_WEIGHT_CONFIRMED);
}

#[test]
fn keeps_lower_weight_for_unconfirmed_likely_identity() {
    let mut items = vec![
        identity_tx(1, 500000, Some("dev-1"), None, HumanReviewStatus::NeedCheck),
        identity_tx(2, 1000, Some("dev-1"), None, HumanReviewStatus::NotNeeded),
    ];

    items[0].fraud_factors.push(FraudFactor::MerchantRing {
        merchant_name: "m".to_owned(),
        amount: 500000,
        merchant_median: 1000000,
        ratio: 50000,
        outlier_count: 3,
        distinct_card_count: 3,
    });

    fraudulent_identity_link::apply_to_items(&mut items);

    let factor = items[1]
        .fraud_factors
        .iter()
        .find_map(|factor| match factor {
            FraudFactor::FraudulentIdentityLink { weight, .. } => Some(*weight),
            _ => None,
        })
        .expect("expected identity link factor");

    assert_eq!(factor, FRAUDULENT_IDENTITY_LINK_WEIGHT_LIKELY);
}

#[test]
fn does_not_self_match_single_transaction() {
    let mut items = vec![identity_tx(
        1,
        100000,
        Some("dev-1"),
        Some("10.0.0.1"),
        HumanReviewStatus::TruePositive,
    )];

    fraudulent_identity_link::apply_to_items(&mut items);

    assert!(items[0]
        .fraud_factors
        .iter()
        .all(|factor| !matches!(factor, FraudFactor::FraudulentIdentityLink { .. })));
}

// ---------------------------------------------------------------------------------------
// scores and further cases

#[test]
fn score_is_the_noisy_or_of_the_weights() {
    let mut t = base(1, 1, 100);
    assert_eq!(t.fraud_score(), 0);
    t.fraud_factors.push(FraudFactor::RiskyMerchantCategory { category: MerchantCategory::GiftCard });
    assert_eq!(t.fraud_score(), 180);
    t.fraud_factors.push(FraudFactor::RiskyMerchantCategory { category: MerchantCategory::Electronics });
    // 1 - 0.82 * 0.82 = 0.3276
    assert_eq!(t.fraud_score(), 328);
    assert!(!t.likely_fraud());
    t.fraud_factors.push(FraudFactor::MerchantRing {
        merchant_name: "m".to_owned(),
        amount: 100,
        merchant_median: 10,
        ratio: 1000,
        outlier_count: 3,
        distinct_card_count: 3,
    });
    // 1 - 0.672 * 0.3 = 0.7984, each step rounded down to a thousandth
    assert_eq!(t.fraud_score(), 799);
    assert!(t.likely_fraud());
}

#[test]
fn export_decision_follows_the_review() {
    let mut t = base(1, 1, 100);
    t.fraud_factors.push(FraudFactor::RiskyMerchantCategory { category: MerchantCategory::GiftCard });
    assert!(!t.likely_fraud_for_export());
    t.human_review_status = HumanReviewStatus::TruePositive;
    assert!(t.likely_fraud_for_export());
    t.human_review_status = HumanReviewStatus::FalsePositive;
    t.fraud_factors.push(FraudFactor::CardTestingBurst {
        transaction_count: 3,
        burst_start: t.timestamp,
        burst_end: t.timestamp,
        max_amount: 100,
        max_gap: 0,
    });
    assert!(t.likely_fraud());
    assert!(!t.likely_fraud_for_export());
}

#[test]
fn weights_have_the_documented_shape() {
    assert!(is_risky_category(MerchantCategory::GiftCard));
    assert!(is_risky_category(MerchantCategory::Electronics));
    assert!(!is_risky_category(MerchantCategory::Grocery));
    assert_eq!(category_price_deviation_weight(3000), 160);
    assert_eq!(category_price_deviation_weight(4000), 280);
    assert_eq!(card_amount_deviation_weight(2999), 0);
    assert_eq!(card_amount_deviation_weight(3000), 200);
    assert_eq!(card_amount_deviation_weight(5500), 450);
    assert_eq!(card_amount_deviation_weight(100000), 600);
}

#[test]
fn analysis_starts_over_each_time() {
    let mut transactions = Transactions {
        items: vec![
            tx(1, (2026, 5, 1, 8, 0, 0), "CA"),
            tx(1, (2026, 5, 1, 9, 0, 0), "US"),
            tx(1, (2026, 5, 1, 10, 0, 0), "CA"),
        ],
    };
    transactions.apply_fraud_factors();
    let first: Vec<usize> = transactions.items.iter().map(|t| t.fraud_factors.len()).collect();
    transactions.card_country_statistics();
    let second: Vec<usize> = transactions.items.iter().map(|t| t.fraud_factors.len()).collect();
    assert_eq!(first, second);
    assert_eq!(first, vec![0, 1, 0]);
}

#[test]
fn foreign_trip_factor_describes_the_run() {
    let mut transactions = Transactions {
        items: vec![
            tx(3, (2026, 5, 1, 8, 0, 0), "CA"),
            tx(3, (2026, 5, 1, 9, 0, 0), "US"),
            tx(3, (2026, 5, 1, 10, 0, 0), "US"),
            tx(3, (2026, 5, 1, 12, 0, 0), "CA"),
        ],
    };
    foreign_country_trip::apply(&mut transactions);
    match &transactions.items[2].fraud_factors[0] {
        FraudFactor::ForeignCountryTrip { country: c, primary_country, transaction_count, gap_before, gap_after, likely_vacation, .. } => {
            assert_eq!(*c, country("US"));
            assert_eq!(*primary_country, country("CA"));
            assert_eq!(*transaction_count, 2);
            assert_eq!(*gap_before, Some(3600));
            assert_eq!(*gap_after, Some(7200));
            assert!(!likely_vacation);
        }
        other => panic!("unexpected factor {other:?}"),
    }
    assert_eq!(transactions.items[2].human_review_status, HumanReviewStatus::NeedCheck);
    assert_eq!(transactions.items[0].human_review_status, HumanReviewStatus::NotNeeded);
}

#[test]
fn reasons_explain_the_factors() {
    let t = at((2026, 5, 1, 10, 0, 0));
    let trip = FraudFactor::ForeignCountryTrip {
        country: country("US"),
        primary_country: country("CA"),
        transaction_count: 1,
        trip_start: t,
        trip_end: t,
        gap_before: None,
        gap_after: None,
        likely_vacation: true,
    };
    assert_eq!(
        trip.reason(),
        "cardholder country US differs from primary CA (likely vacation) between 2026-05-01 10:00:00 UTC and 2026-05-01 10:00:00 UTC"
    );
    let risky = FraudFactor::RiskyMerchantCategory { category: MerchantCategory::GiftCard };
    assert_eq!(risky.reason(), "merchant category GiftCard is a known higher-risk category");
    let deviation = FraudFactor::CategoryPriceDeviation {
        category: MerchantCategory::Electronics,
        amount: 18000,
        average_amount: 1025000,
        std_deviation: 74130,
        z_score: 10454,
        weight: 750,
    };
    assert_eq!(
        deviation.reason(),
        "amount 180.00 is 10.45 standard deviations above the Electronics average 102.50 (std dev 7.41)"
    );
}

#[test]
fn report_lists_likely_fraud_with_reasons() {
    let mut flagged = base(7, 3, 1000);
    flagged.fraud_factors.push(FraudFactor::FraudulentIdentityLink {
        device_id: Some("dev-1".to_owned()),
        ip_address: None,
        matched_confirmed_count: 1,
        matched_likely_count: 0,
        weight: FRAUDULENT_IDENTITY_LINK_WEIGHT_CONFIRMED,
    });
    flagged.fraud_factors.push(FraudFactor::RiskyMerchantCategory { category: MerchantCategory::GiftCard });
    let mut quiet = base(8, 4, 1000);
    quiet.fraud_factors.push(FraudFactor::RiskyMerchantCategory { category: MerchantCategory::GiftCard });
    let transactions = Transactions { items: vec![quiet, flagged] };

    assert_eq!(
        transactions.fraud_report(),
        "Detected 1 likely fraud transactions out of 2 rows.\n\
         - 7 card 3 score 0.84 country CA\n  \
         reason: device or IP address shared with 1 confirmed and 0 likely fraudulent transactions (weight 0.80)\n  \
         reason: merchant category GiftCard is a known higher-risk category (weight 0.18)\n"
    );
}

#[test]
fn report_of_no_rows_counts_nothing() {
    let transactions = Transactions { items: Vec::new() };
    assert_eq!(transactions.fraud_report(), "Detected 0 likely fraud transactions out of 0 rows.\n");
}

#[test]
fn online_payments_abroad_are_not_a_foreign_trip() {
    let mut online = tx(1, (2026, 5, 1, 9, 0, 0), "US");
    online.channel = Channel::Online;
    let mut transactions = Transactions {
        items: vec![
            tx(1, (2026, 5, 1, 8, 0, 0), "CA"),
            online,
            tx(1, (2026, 5, 1, 10, 0, 0), "US"),
            tx(1, (2026, 5, 1, 11, 0, 0), "CA"),
        ],
    };

    foreign_country_trip::apply(&mut transactions);

    assert!(transactions.items[1].fraud_factors.is_empty());
    assert_eq!(transactions.items[1].human_review_status, HumanReviewStatus::NotNeeded);
    assert!(matches!(
        transactions.items[2].fraud_factors[..],
        [FraudFactor::ForeignCountryTrip { transaction_count: 2, .. }]
    ));
    assert_eq!(transactions.items[2].human_review_status, HumanReviewStatus::NeedCheck);
    assert!(transactions.items[0].fraud_factors.is_empty());
}

#[test]
fn second_analysis_changes_nothing() {
    let mut shared = base(9, 9, 1000);
    shared.device_id = Some("dev-9".to_owned());
    shared.human_review_status = HumanReviewStatus::TruePositive;
    let mut linked = base(10, 10, 1000);
    linked.device_id = Some("dev-9".to_owned());
    let mut transactions = Transactions {
        items: vec![
            tx(1, (2026, 5, 1, 8, 0, 0), "CA"),
            tx(1, (2026, 5, 1, 9, 0, 0), "US"),
            tx(1, (2026, 5, 1, 11, 0, 0), "CA"),
            burst_tx(4, 2, (2026, 5, 2, 10, 0, 0), 100, Channel::Online),
            burst_tx(5, 2, (2026, 5, 2, 10, 2, 0), 120, Channel::Online),
            burst_tx(6, 2, (2026, 5, 2, 10, 4, 0), 90, Channel::Online),
            category_tx(7, 50000, MerchantCategory::GiftCard),
            shared,
            linked,
        ],
    };
    transactions.apply_fraud_factors();
    let first = format!("{:?}", transactions.items);
    transactions.apply_fraud_factors();
    assert_eq!(format!("{:?}", transactions.items), first);
}

#[test]
fn identity_links_are_not_added_twice() {
    let mut items = vec![
        identity_tx(1, 1000, Some("dev-1"), Some("10.0.0.1"), HumanReviewStatus::TruePositive),
        identity_tx(2, 1200, Some("dev-1"), Some("10.0.0.2"), HumanReviewStatus::NotNeeded),
    ];
    fraudulent_identity_link::apply_to_items(&mut items);
    let first = format!("{:?}", items);
    fraudulent_identity_link::apply_to_items(&mut items);
    assert_eq!(format!("{:?}", items), first);
    assert_eq!(items[1].fraud_factors.len(), 1);
}
