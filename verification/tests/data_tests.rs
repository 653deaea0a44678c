use std::str::FromStr;

use fraud_oxidizer::data::card_id::CardId;
use fraud_oxidizer::data::channel::Channel;
use fraud_oxidizer::data::country::Country;
use fraud_oxidizer::data::human_review_status::HumanReviewStatus;
use fraud_oxidizer::data::ip_address::{parse_ip, IpAddress};
use fraud_oxidizer::data::merchant_category::MerchantCategory;
use fraud_oxidizer::data::timestamp::{parse_timestamp, Timestamp};
use fraud_oxidizer::data::transaction::Transaction;
use fraud_oxidizer::data::transaction_id::TransactionId;
use fraud_oxidizer::data::transactions::Transactions;
use fraud_oxidizer::data::amount::parse_amount;
use fraud_oxidizer::data::{optional_ip_addr, optional_string, parse_prefixed_number};
use fraud_oxidizer::error::ParseCsvError;
use fraud_oxidizer::process::card_statistics::FraudFactor;

fn valid_csv_row(overrides: &[(usize, &str)]) -> String {
    let mut columns = vec![
        "tx_000001",
        "2026-05-05T18:39:29",
        "card_000",
        "115.44",
        "Bell Canada",
        "utilities",
        "online",
        "CA",
        "CA",
        "dev_bc0178b6",
        "24.114.150.203",
    ];

    for (index, value) in overrides {
        columns[*index] = value;
    }

    columns.join(",")
}

fn country(code: &str) -> Country {
    Country::from_str(code).expect("valid country")
}

fn at(text: &str) -> Timestamp {
    parse_timestamp(text).expect("valid timestamp")
}

#[test]
fn parse_prefixed_number_rejects_bad_prefix() {
    let error = parse_prefixed_number("order_42", "tx_").expect_err("expected invalid prefix");

    assert!(matches!(
        error,
        ParseCsvError::InvalidPrefix {
            field: "transaction_id",
            expected_prefix: "tx_",
            value,
        } if value == "order_42"
    ));
}

#[test]
fn parse_prefixed_number_rejects_bad_number() {
    let error =
        parse_prefixed_number("tx_not-a-number", "tx_").expect_err("expected invalid number");

    assert!(matches!(
        error,
        ParseCsvError::InvalidNumber {
            field: "transaction_id",
            value,
        } if value == "tx_not-a-number"
    ));
}

#[test]
fn card_id_rejects_invalid_prefix_and_number() {
    let prefix_error = CardId::from_str("transaction_1").expect_err("expected invalid card prefix");
    let number_error =
        CardId::from_str("card_not-a-number").expect_err("expected invalid card number");

    assert!(matches!(
        prefix_error,
        ParseCsvError::InvalidPrefix {
            field: "card_id",
            expected_prefix: "card_",
            value,
        } if value == "transaction_1"
    ));
    assert!(matches!(
        number_error,
        ParseCsvError::InvalidNumber {
            field: "card_id",
            value,
        } if value == "card_not-a-number"
    ));
}

#[test]
fn transaction_id_rejects_invalid_prefix_and_number() {
    let prefix_error =
        TransactionId::from_str("order_1").expect_err("expected invalid transaction prefix");
    let number_error = TransactionId::from_str("tx_not-a-number")
        .expect_err("expected invalid transaction number");

    assert!(matches!(
        prefix_error,
        ParseCsvError::InvalidPrefix {
            field: "transaction_id",
            expected_prefix: "tx_",
            value,
        } if value == "order_1"
    ));
    assert!(matches!(
        number_error,
        ParseCsvError::InvalidNumber {
            field: "transaction_id",
            value,
        } if value == "tx_not-a-number"
    ));
}

#[test]
fn enum_parsers_reject_invalid_values() {
    let channel_error = Channel::from_str("telepathy").expect_err("expected invalid channel");
    let country_error = Country::from_str("ZZ").expect_err("expected invalid country");
    let merchant_category_error =
        MerchantCategory::from_str("books").expect_err("expected invalid merchant category");

    assert!(matches!(
        channel_error,
        ParseCsvError::InvalidEnumValue {
            field: "channel",
            value,
        } if value == "telepathy"
    ));
    assert!(matches!(
        country_error,
        ParseCsvError::InvalidEnumValue {
            field: "country",
            value,
        } if value == "ZZ"
    ));
    assert!(matches!(
        merchant_category_error,
        ParseCsvError::InvalidEnumValue {
            field: "merchant_category",
            value,
        } if value == "books"
    ));
}

#[test]
fn country_parser_accepts_codes_beyond_the_old_hand_written_list() {
    let country = Country::from_str("PT").expect("expected supported country code");

    assert_eq!(country, Country { first: 'P', second: 'T' });
}

#[test]
fn helper_parsers_reject_invalid_values() {
    let amount_error = parse_amount("not-a-float").expect_err("expected invalid float");
    let timestamp_error =
        parse_timestamp("2026-99-05T18:39:29").expect_err("expected invalid datetime");
    let ip_error = optional_ip_addr("not-an-ip").expect_err("expected invalid ip address");

    assert!(matches!(
        amount_error,
        ParseCsvError::InvalidFloat {
            field: "amount",
            value,
        } if value == "not-a-float"
    ));
    assert!(matches!(
        timestamp_error,
        ParseCsvError::InvalidDateTime {
            field: "timestamp",
            value,
        } if value == "2026-99-05T18:39:29"
    ));
    assert!(matches!(
        ip_error,
        ParseCsvError::InvalidIpAddress {
            field: "ip_address",
            value,
        } if value == "not-an-ip"
    ));
}

#[test]
fn helper_parsers_accept_empty_optional_values() {
    assert_eq!(optional_string(""), None);
    assert_eq!(
        optional_ip_addr("").expect("empty ip should be allowed"),
        None
    );
}

#[test]
fn transactions_parse_csv_propagates_field_errors() {
    let csv = format!("header\n{}", valid_csv_row(&[(0, "order_42")]));

    let error = Transactions::parse_csv_content(&csv).expect_err("expected invalid prefix");

    assert!(matches!(
        error,
        ParseCsvError::InvalidPrefix {
            field: "transaction_id",
            expected_prefix: "tx_",
            value,
        } if value == "order_42"
    ));
}

#[test]
fn transactions_parse_csv_propagates_column_count_error() {
    let csv = format!(
        "header\n{}",
        valid_csv_row(&[]).trim_end_matches(",dev_bc0178b6,24.114.150.203")
    );

    let error = Transactions::parse_csv_content(&csv).expect_err("expected invalid column count");

    assert!(matches!(
        error,
        ParseCsvError::InvalidColumnCount {
            expected: 11,
            found: 9,
            line: 2,
        }
    ));
}

#[test]
fn transactions_parse_csv_accepts_valid_row() {
    let csv = format!("header\n{}", valid_csv_row(&[]));

    let transactions = Transactions::parse_csv_content(&csv).expect("expected valid csv");

    assert_eq!(transactions.items.len(), 1);
}

#[test]
fn transactions_parse_csv_accepts_new_country_codes() {
    let csv = format!("header\n{}", valid_csv_row(&[(7, "PT"), (8, "PT")]));

    let transactions =
        Transactions::parse_csv_content(&csv).expect("expected valid csv with PT country codes");

    assert_eq!(transactions.items.len(), 1);
    assert_eq!(transactions.items[0].cardholder_country, country("PT"));
    assert_eq!(transactions.items[0].merchant_country, country("PT"));
}

#[test]
fn transactions_export_csv_appends_likely_fraud_column() {
    let timestamp = at("2026-05-05T18:39:29");

    let transactions = Transactions {
        items: vec![
            Transaction {
                transaction_id: TransactionId(1),
                timestamp,
                card_id: CardId(0),
                amount: 11544,
                merchant_name: "Bell Canada".to_owned(),
                merchant_category: MerchantCategory::Utilities,
                channel: Channel::Online,
                cardholder_country: country("CA"),
                merchant_country: country("CA"),
                device_id: Some("dev_bc0178b6".to_owned()),
                ip_address: Some(parse_ip("24.114.150.203").expect("valid ip")),
                fraud_factors: vec![FraudFactor::ForeignCountryTrip {
                    country: country("US"),
                    primary_country: country("CA"),
                    transaction_count: 1,
                    trip_start: timestamp,
                    trip_end: timestamp,
                    gap_before: None,
                    gap_after: None,
                    likely_vacation: false,
                }],
                human_review_status: HumanReviewStatus::NotNeeded,
            },
            Transaction {
                transaction_id: TransactionId(2),
                timestamp: at("2026-05-05T19:00:00"),
                card_id: CardId(1),
                amount: 1000,
                merchant_name: "Local Shop".to_owned(),
                merchant_category: MerchantCategory::Grocery,
                channel: Channel::InPerson,
                cardholder_country: country("CA"),
                merchant_country: country("CA"),
                device_id: None,
                ip_address: None,
                fraud_factors: Vec::new(),
                human_review_status: HumanReviewStatus::TruePositive,
            },
        ],
    };

    let exported = transactions.export_csv_content();

    assert!(exported.starts_with("transaction_id,timestamp,card_id,amount,merchant_name,merchant_category,channel,cardholder_country,merchant_country,device_id,ip_address,likely_fraud\n"));
    assert!(exported.contains("tx_000001,2026-05-05T18:39:29,card_000,115.44,Bell Canada,utilities,online,CA,CA,dev_bc0178b6,24.114.150.203,true"));
    assert!(exported.contains(
        "tx_000002,2026-05-05T19:00:00,card_001,10,Local Shop,grocery,in_person,CA,CA,,,true"
    ));
}

#[test]
fn transactions_export_csv_respects_false_positive_review() {
    let timestamp = at("2026-05-05T20:00:00");

    let transactions = Transactions {
        items: vec![Transaction {
            transaction_id: TransactionId(3),
            timestamp,
            card_id: CardId(2),
            amount: 25000,
            merchant_name: "Suspicious Merchant".to_owned(),
            merchant_category: MerchantCategory::Electronics,
            channel: Channel::Online,
            cardholder_country: country("CA"),
            merchant_country: country("US"),
            device_id: Some("dev_x".to_owned()),
            ip_address: Some(parse_ip("203.0.113.10").expect("valid ip")),
            fraud_factors: vec![FraudFactor::ForeignCountryTrip {
                country: country("US"),
                primary_country: country("CA"),
                transaction_count: 1,
                trip_start: timestamp,
                trip_end: timestamp,
                gap_before: None,
                gap_after: None,
                likely_vacation: false,
            }],
            human_review_status: HumanReviewStatus::FalsePositive,
        }],
    };

    let exported = transactions.export_csv_content();

    assert!(exported.contains("tx_000003,2026-05-05T20:00:00,card_002,250,Suspicious Merchant,electronics,online,CA,US,dev_x,203.0.113.10,false"));
}

// ---------------------------------------------------------------------------------------
// further cases of the readers and writers

#[test]
fn amounts_read_whole_cents() {
    assert_eq!(parse_amount("115.44").expect("valid"), 11544);
    assert_eq!(parse_amount("10").expect("valid"), 1000);
    assert_eq!(parse_amount("0.5").expect("valid"), 50);
    assert_eq!(parse_amount("+3.10").expect("valid"), 310);
    assert!(parse_amount("").is_err());
    assert!(parse_amount("1.005").is_err());
    assert!(parse_amount("-1").is_err());
}

#[test]
fn ip_addresses_read_both_versions() {
    assert_eq!(parse_ip("10.0.0.1"), Some(IpAddress::V4(0x0a00_0001)));
    assert_eq!(parse_ip("255.255.255.255"), Some(IpAddress::V4(0xffff_ffff)));
    assert_eq!(parse_ip("01.2.3.4"), None);
    assert_eq!(parse_ip("256.1.1.1"), None);
    assert_eq!(parse_ip("1.2.3"), None);
    assert_eq!(parse_ip("::1"), Some(IpAddress::V6(1)));
    assert_eq!(parse_ip("::"), Some(IpAddress::V6(0)));
    assert_eq!(
        parse_ip("2001:db8::ff00:42:8329"),
        Some(IpAddress::V6(0x2001_0db8_0000_0000_0000_ff00_0042_8329))
    );
    assert_eq!(
        parse_ip("::ffff:192.0.2.128"),
        Some(IpAddress::V6(0x0000_0000_0000_0000_0000_ffff_c000_0280))
    );
    assert_eq!(parse_ip("1:2:3:4:5:6:7:8"), Some(IpAddress::V6(0x0001_0002_0003_0004_0005_0006_0007_0008)));
    assert_eq!(parse_ip("1::2::3"), None);
    assert_eq!(parse_ip("12345::"), None);
    assert_eq!(parse_ip("1:2:3:4:5:6:7:8:9"), None);
}

#[test]
fn ip_addresses_write_as_std_does() {
    let samples = [
        ("10.0.0.1", "10.0.0.1"),
        ("::1", "::1"),
        ("::", "::"),
        ("2001:DB8:0:0:0:ff00:42:8329", "2001:db8::ff00:42:8329"),
        ("::ffff:192.0.2.128", "::ffff:192.0.2.128"),
        ("1:0:0:1:0:0:0:1", "1:0:0:1::1"),
        ("1:0:0:2:0:0:3:4", "1::2:0:0:3:4"),
        ("1:2:3:4:5:6:7:0", "1:2:3:4:5:6:7:0"),
        ("fe80:0000::1", "fe80::1"),
    ];
    for (text, expected) in samples {
        let ip = parse_ip(text).expect("valid ip");
        let mut out = String::new();
        fraud_oxidizer::data::ip_address::push_ip_text(&mut out, ip);
        assert_eq!(out, expected);
    }
}

#[test]
fn csv_reading_skips_blank_lines_and_handles_crlf() {
    let csv = format!("header\r\n\r\n{}\r\n   \n{}\n", valid_csv_row(&[]), valid_csv_row(&[(0, "tx_000002")]));
    let transactions = Transactions::parse_csv_content(&csv).expect("valid csv");
    assert_eq!(transactions.items.len(), 2);
    assert_eq!(transactions.items[1].transaction_id, TransactionId(2));
    assert_eq!(transactions.items[0].amount, 11544);
    assert_eq!(transactions.items[0].device_id.as_deref(), Some("dev_bc0178b6"));
}

#[test]
fn csv_reading_reports_missing_header_and_line_numbers() {
    assert!(matches!(
        Transactions::parse_csv_content(""),
        Err(ParseCsvError::MissingHeader)
    ));
    let csv = format!("header\n{}\n\nbad,row", valid_csv_row(&[]));
    assert!(matches!(
        Transactions::parse_csv_content(&csv),
        Err(ParseCsvError::InvalidColumnCount { expected: 11, found: 2, line: 4 })
    ));
    let csv = format!("header\n{}", valid_csv_row(&[(10, "999.1.1.1")]));
    assert!(matches!(
        Transactions::parse_csv_content(&csv),
        Err(ParseCsvError::InvalidIpAddress { field: "ip_address", .. })
    ));
    let csv = format!("header\n{}", valid_csv_row(&[(3, "abc")]));
    assert!(matches!(
        Transactions::parse_csv_content(&csv),
        Err(ParseCsvError::InvalidFloat { field: "amount", .. })
    ));
}

#[test]
fn exported_csv_reads_back() {
    let csv = format!("header\n{}\n{}", valid_csv_row(&[]), valid_csv_row(&[(0, "tx_000002"), (10, "")]));
    let transactions = Transactions::parse_csv_content(&csv).expect("valid csv");
    let exported = transactions.export_csv_content();
    // the export has one more column; dropping it gives rows that read back the same
    let trimmed: Vec<String> = exported
        .lines()
        .map(|line| line.rsplitn(2, ',').nth(1).unwrap_or("").to_owned())
        .collect();
    let again = Transactions::parse_csv_content(&trimmed.join("\n")).expect("valid csv");
    assert_eq!(again.items.len(), 2);
    for (a, b) in transactions.items.iter().zip(again.items.iter()) {
        assert_eq!(a.transaction_id, b.transaction_id);
        assert_eq!(a.timestamp, b.timestamp);
        assert_eq!(a.amount, b.amount);
        assert_eq!(a.merchant_name, b.merchant_name);
        assert_eq!(a.ip_address, b.ip_address);
        assert_eq!(a.device_id, b.device_id);
    }
}

#[test]
fn error_messages_name_the_field_and_value() {
    assert_eq!(ParseCsvError::MissingHeader.message(), "csv is missing a header row");
    assert_eq!(
        ParseCsvError::InvalidColumnCount { expected: 11, found: 3, line: 2 }.message(),
        "line 2 has 3 columns, expected 11"
    );
    assert_eq!(
        ParseCsvError::InvalidPrefix { field: "card_id", expected_prefix: "card_", value: "x1".to_owned() }
            .message(),
        "field card_id must start with card_, got x1"
    );
    assert_eq!(
        ParseCsvError::InvalidNumber { field: "transaction_id", value: "tx_a".to_owned() }.message(),
        "field transaction_id must contain a valid number, got tx_a"
    );
    assert_eq!(
        ParseCsvError::InvalidFloat { field: "amount", value: "abc".to_owned() }.message(),
        "field amount must contain a valid float, got abc"
    );
    assert_eq!(
        ParseCsvError::InvalidEnumValue { field: "channel", value: "fax".to_owned() }.message(),
        "field channel has unsupported value fax"
    );
    assert_eq!(
        ParseCsvError::InvalidDateTime { field: "timestamp", value: "yesterday".to_owned() }.message(),
        "field timestamp must contain a valid datetime, got yesterday"
    );
    assert_eq!(
        ParseCsvError::InvalidIpAddress { field: "ip_address", value: "1.2.3".to_owned() }.message(),
        "field ip_address must contain a valid ip address, got 1.2.3"
    );
}

#[test]
fn leap_seconds_read_and_write_as_sixty() {
    let leap = at("2016-12-31T23:59:60");
    assert!(leap.is_leap_second());
    assert_eq!(leap.unix_seconds(), at("2016-12-31T23:59:59").unix_seconds());
    let mut csv = String::new();
    leap.push_csv_text(&mut csv);
    assert_eq!(csv, "2016-12-31T23:59:60");
    let mut shown = String::new();
    leap.push_display_text(&mut shown);
    assert_eq!(shown, "2016-12-31 23:59:60 UTC");
    assert!(!at("2016-12-31T23:59:59").is_leap_second());
    assert!(parse_timestamp("2016-12-31T23:59:61").is_err());
}

#[test]
fn leap_seconds_order_and_elapse_as_chrono_does() {
    let texts = [
        "2016-12-31T12:00:59",
        "2016-12-31T12:00:60",
        "2016-12-31T12:01:00",
        "2016-12-31T23:59:59",
        "2016-12-31T23:59:60",
        "2017-01-01T00:00:00",
        "2017-01-01T00:00:05",
        "2017-01-02T12:00:60",
    ];
    for a in texts {
        for b in texts {
            let ca = chrono::NaiveDateTime::parse_from_str(a, "%Y-%m-%dT%H:%M:%S").unwrap().and_utc();
            let cb = chrono::NaiveDateTime::parse_from_str(b, "%Y-%m-%dT%H:%M:%S").unwrap().and_utc();
            assert_eq!(at(a).elapsed_since(&at(b)), (ca - cb).num_seconds(), "{a} - {b}");
            assert_eq!(at(a).rank_value() < at(b).rank_value(), ca < cb, "{a} < {b}");
        }
    }
}
