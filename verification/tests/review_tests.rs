use std::cmp::Ordering;
use std::str::FromStr;

use fraud_oxidizer::data::card_id::CardId;
use fraud_oxidizer::data::channel::Channel;
use fraud_oxidizer::data::country::Country;
use fraud_oxidizer::data::human_review_status::HumanReviewStatus;
use fraud_oxidizer::data::merchant_category::MerchantCategory;
use fraud_oxidizer::data::timestamp::parse_timestamp;
use fraud_oxidizer::data::transaction::Transaction;
use fraud_oxidizer::data::transaction_id::TransactionId;
use fraud_oxidizer::process::card_statistics::FraudFactor;
use fraud_oxidizer::review::card_filter::{
    available_card_ids, card_id_matches_filter, card_id_suggestions, matching_row_indices,
    normalize_card_id_query, parse_card_id_filter, CardIdFilter,
};
use fraud_oxidizer::review::command::ReviewCommand;
use fraud_oxidizer::review::csv_state::CsvState;
use fraud_oxidizer::review::export_name::{default_export_name, export_name_from_stem};
use fraud_oxidizer::review::trip_window::{trip_table_window, TableWindow};
use fraud_oxidizer::review::country_label::{country_label, normalize_country_name};
use fraud_oxidizer::review::progression::{step_enabled, step_look, Progression, StepLook};
use fraud_oxidizer::review::session::{flagged_indices, ReviewEvent, ReviewSession};
use fraud_oxidizer::review::table::{
    compare_rows, ensure_visible_column, table_row_indices, visible_fields, TableSortState,
};

fn row(transaction_id: u64, card_id: u64, amount: u32, flagged: bool) -> Transaction {
    Transaction {
        transaction_id: TransactionId(transaction_id),
        timestamp: parse_timestamp("2026-05-01T10:00:00").expect("valid timestamp"),
        card_id: CardId(card_id),
        amount,
        merchant_name: format!("merchant {transaction_id}"),
        merchant_category: MerchantCategory::Grocery,
        channel: Channel::Online,
        cardholder_country: Country::from_str("CA").expect("valid country"),
        merchant_country: Country::from_str("CA").expect("valid country"),
        device_id: None,
        ip_address: None,
        fraud_factors: if flagged {
            vec![FraudFactor::RiskyMerchantCategory { category: MerchantCategory::GiftCard }]
        } else {
            Vec::new()
        },
        human_review_status: HumanReviewStatus::NotNeeded,
    }
}

fn statuses(rows: &[Transaction]) -> Vec<HumanReviewStatus> {
    rows.iter().map(|r| r.human_review_status).collect()
}

#[test]
fn progression_steps_move_forward_and_back() {
    let first = Progression::default();
    assert_eq!(first, Progression::ImportCsv);
    assert_eq!(first.title(), "Import CSV");
    assert_eq!(first.next(), Progression::CheckProbableFraud);
    assert_eq!(first.next().title(), "Human Review");
    assert_eq!(first.next().next(), Progression::ExportCsvView);
    assert_eq!(Progression::ExportCsvView.next(), Progression::ExportCsvView);
    assert_eq!(Progression::ExportCsvView.title(), "Overview");
    assert_eq!(Progression::ImportCsv.previous(), Progression::ImportCsv);
    assert_eq!(Progression::ExportCsvView.previous(), Progression::CheckProbableFraud);
    assert!(Progression::ExportCsvView.is_after(Progression::ImportCsv));
    assert!(!Progression::ImportCsv.is_after(Progression::ImportCsv));
    assert!(!Progression::ImportCsv.is_after(Progression::CheckProbableFraud));
}

#[test]
fn stepper_shows_each_step() {
    assert!(step_enabled(Progression::ImportCsv, false));
    assert!(!step_enabled(Progression::CheckProbableFraud, false));
    assert!(step_enabled(Progression::ExportCsvView, true));
    assert_eq!(step_look(Progression::CheckProbableFraud, Progression::ImportCsv), StepLook::Completed);
    assert_eq!(step_look(Progression::CheckProbableFraud, Progression::CheckProbableFraud), StepLook::Selected);
    assert_eq!(step_look(Progression::CheckProbableFraud, Progression::ExportCsvView), StepLook::Upcoming);
}

#[test]
fn card_filter_reads_queries() {
    assert_eq!(normalize_card_id_query("  Card_042 "), "042");
    assert_eq!(normalize_card_id_query("CARD_"), "");
    assert_eq!(normalize_card_id_query("x12"), "x12");
    assert_eq!(parse_card_id_filter(""), CardIdFilter::Any);
    assert_eq!(parse_card_id_filter("   "), CardIdFilter::Any);
    assert_eq!(parse_card_id_filter("card_42"), CardIdFilter::Exact(42));
    assert_eq!(parse_card_id_filter("7"), CardIdFilter::Exact(7));
    assert_eq!(parse_card_id_filter("card_x"), CardIdFilter::Invalid);
    assert!(card_id_matches_filter(3, CardIdFilter::Any));
    assert!(card_id_matches_filter(3, CardIdFilter::Exact(3)));
    assert!(!card_id_matches_filter(3, CardIdFilter::Exact(4)));
    assert!(!card_id_matches_filter(3, CardIdFilter::Invalid));
}

#[test]
fn card_filter_lists_cards_and_rows() {
    let rows = vec![row(1, 12, 100, false), row(2, 3, 100, false), row(3, 12, 100, false), row(4, 120, 100, false)];
    assert_eq!(available_card_ids(&rows), vec![3, 12, 120]);
    assert_eq!(card_id_suggestions(&vec![3, 12, 120], "12"), vec![12, 120]);
    assert_eq!(card_id_suggestions(&vec![3, 12, 120], ""), vec![3, 12, 120]);
    assert_eq!(matching_row_indices(&rows, CardIdFilter::Exact(12)), vec![0, 2]);
    assert_eq!(matching_row_indices(&rows, CardIdFilter::Any), vec![0, 1, 2, 3]);
    assert!(matching_row_indices(&rows, CardIdFilter::Invalid).is_empty());
}

#[test]
fn table_sorts_by_column_then_id() {
    let rows = vec![row(3, 1, 500, false), row(1, 2, 100, false), row(2, 3, 500, false)];
    assert_eq!(compare_rows(&rows[1], &rows[0], 3, false), Ordering::Less);
    assert_eq!(compare_rows(&rows[1], &rows[0], 3, true), Ordering::Greater);
    // equal amounts fall back on the transaction id
    assert_eq!(compare_rows(&rows[0], &rows[2], 3, false), Ordering::Greater);
    assert_eq!(compare_rows(&rows[0], &rows[0], 4, false), Ordering::Equal);
    let by_amount = TableSortState { field_idx: Some(3), descending: false };
    assert_eq!(table_row_indices(&rows, CardIdFilter::Any, by_amount), vec![1, 2, 0]);
    let by_amount_desc = TableSortState { field_idx: Some(3), descending: true };
    assert_eq!(table_row_indices(&rows, CardIdFilter::Any, by_amount_desc), vec![2, 0, 1]);
    let unsorted = TableSortState { field_idx: None, descending: false };
    assert_eq!(table_row_indices(&rows, CardIdFilter::Any, unsorted), vec![0, 1, 2]);
    let by_name = TableSortState { field_idx: Some(4), descending: false };
    assert_eq!(table_row_indices(&rows, CardIdFilter::Any, by_name), vec![1, 2, 0]);
}

#[test]
fn table_columns_and_header_clicks() {
    let mut sort = TableSortState { field_idx: None, descending: false };
    sort.click_header(2);
    assert_eq!(sort, TableSortState { field_idx: Some(2), descending: false });
    sort.click_header(2);
    assert_eq!(sort, TableSortState { field_idx: Some(2), descending: true });
    sort.click_header(5);
    assert_eq!(sort, TableSortState { field_idx: Some(5), descending: false });
    let mut visible = [false; 11];
    ensure_visible_column(&mut visible);
    assert_eq!(visible_fields(&visible), vec![0]);
    visible[3] = true;
    visible[7] = true;
    ensure_visible_column(&mut visible);
    assert_eq!(visible_fields(&visible), vec![0, 3, 7]);
}

#[test]
fn country_names_are_normalized() {
    assert_eq!(normalize_country_name(" United States of America (the) "), "United States of America");
    assert_eq!(normalize_country_name("Bahamas, The"), "Bahamas");
    assert_eq!(normalize_country_name("Canada"), "Canada");
    assert_eq!(normalize_country_name("X (the) (the)"), "X");
    let label = country_label(Country::from_str("CA").expect("valid country"));
    assert_eq!(label, "Canada");
}

#[test]
fn review_command_undo_restores_statuses() {
    let mut rows = vec![row(1, 1, 100, true), row(2, 2, 100, true), row(3, 3, 100, false)];
    let before = statuses(&rows);
    let command = ReviewCommand::BatchSetHumanReviewStatus {
        updates: vec![
            (0, HumanReviewStatus::NotNeeded, HumanReviewStatus::TruePositive),
            (1, HumanReviewStatus::NotNeeded, HumanReviewStatus::FalsePositive),
            (7, HumanReviewStatus::NotNeeded, HumanReviewStatus::TruePositive),
        ],
    };
    command.apply(&mut rows);
    assert_eq!(
        statuses(&rows),
        vec![HumanReviewStatus::TruePositive, HumanReviewStatus::FalsePositive, HumanReviewStatus::NotNeeded]
    );
    assert_eq!(command.transaction_index(), 0);
    command.undo(&mut rows);
    assert_eq!(statuses(&rows), before);
    let single = ReviewCommand::SetHumanReviewStatus {
        transaction_index: 2,
        before: HumanReviewStatus::NotNeeded,
        after: HumanReviewStatus::NeedCheck,
    };
    single.apply(&mut rows);
    assert_eq!(rows[2].human_review_status, HumanReviewStatus::NeedCheck);
    assert_eq!(single.transaction_index(), 2);
    single.undo(&mut rows);
    assert_eq!(statuses(&rows), before);
}

#[test]
fn review_session_walks_and_decides() {
    let mut rows = vec![row(1, 1, 100, true), row(2, 2, 100, false), row(3, 3, 100, true), row(4, 4, 100, true)];
    assert_eq!(flagged_indices(&rows), vec![0, 2, 3]);
    let mut session = ReviewSession::new();
    assert_eq!(session.current_row(&rows), Some(0));
    session.handle(&mut rows, ReviewEvent::Previous);
    assert_eq!(session.current_row(&rows), Some(3));
    session.handle(&mut rows, ReviewEvent::Next);
    assert_eq!(session.current_row(&rows), Some(0));

    session.handle(&mut rows, ReviewEvent::MarkFraud);
    assert_eq!(rows[0].human_review_status, HumanReviewStatus::TruePositive);
    assert_eq!(session.current_row(&rows), Some(2));
    session.handle(&mut rows, ReviewEvent::Approve);
    assert_eq!(rows[2].human_review_status, HumanReviewStatus::FalsePositive);
    assert_eq!(session.current_row(&rows), Some(3));

    session.handle(&mut rows, ReviewEvent::Undo);
    assert_eq!(rows[2].human_review_status, HumanReviewStatus::NotNeeded);
    assert_eq!(session.current_row(&rows), Some(2));
    session.handle(&mut rows, ReviewEvent::Undo);
    assert_eq!(rows[0].human_review_status, HumanReviewStatus::NotNeeded);
    assert_eq!(session.current_row(&rows), Some(0));
    session.handle(&mut rows, ReviewEvent::Undo);
    assert_eq!(session.current_row(&rows), Some(0));

    session.handle(&mut rows, ReviewEvent::Redo);
    assert_eq!(rows[0].human_review_status, HumanReviewStatus::TruePositive);
    // a new decision clears what could be redone
    session.handle(&mut rows, ReviewEvent::Approve);
    assert_eq!(rows[0].human_review_status, HumanReviewStatus::FalsePositive);
    session.handle(&mut rows, ReviewEvent::Redo);
    assert_eq!(rows[2].human_review_status, HumanReviewStatus::NotNeeded);
    // deciding what is already decided changes nothing
    let mut again = ReviewSession::new();
    again.handle(&mut rows, ReviewEvent::Approve);
    assert_eq!(again.current_row(&rows), Some(0));
    assert!(again.undo_stack.is_empty());
}

#[test]
fn review_session_without_flags_does_nothing() {
    let mut rows = vec![row(1, 1, 100, false)];
    let mut session = ReviewSession::new();
    session.handle(&mut rows, ReviewEvent::MarkFraud);
    assert_eq!(rows[0].human_review_status, HumanReviewStatus::NotNeeded);
    assert_eq!(session.current_row(&rows), None);
}

const HEADER: &str = "transaction_id,timestamp,card_id,amount,merchant_name,merchant_category,channel,cardholder_country,merchant_country,device_id,ip_address";

#[test]
fn csv_state_loads_and_signals_once() {
    let mut state = CsvState::new();
    assert!(!state.take_loaded_valid_csv_event());
    let content = format!(
        "{HEADER}\ntx_000001,2026-05-05T18:39:29,card_000,115.44,Bell Canada,utilities,online,CA,CA,dev_1,24.114.150.203\n"
    );
    state.load_csv_content("a.csv".to_owned(), content.clone());
    assert_eq!(state.picked_name.as_deref(), Some("a.csv"));
    assert_eq!(state.parse_error, None);
    assert_eq!(state.last_loaded_csv_content.as_deref(), Some(content.as_str()));
    assert_eq!(state.transactions.as_ref().map(|t| t.items.len()), Some(1));
    assert!(state.take_loaded_valid_csv_event());
    assert!(!state.take_loaded_valid_csv_event());
    assert!(state.transactions.is_some());
}

#[test]
fn csv_state_keeps_the_error_message() {
    let mut state = CsvState::new();
    state.load_csv_content("empty.csv".to_owned(), String::new());
    assert!(state.transactions.is_none());
    assert_eq!(state.parse_error.as_deref(), Some("csv is missing a header row"));
    assert_eq!(state.last_loaded_csv_content, None);
    assert!(!state.take_loaded_valid_csv_event());

    let short = format!("{HEADER}\ntx_000001,2026-05-05T18:39:29\n");
    state.load_csv_content("short.csv".to_owned(), short);
    assert_eq!(state.parse_error.as_deref(), Some("line 2 has 2 columns, expected 11"));
}

#[test]
fn csv_state_rejects_bytes_that_are_not_utf8() {
    let mut state = CsvState::new();
    state.load_csv_from_bytes("bad.csv".to_owned(), &[0x66, 0xff, 0x66]);
    assert_eq!(state.picked_name.as_deref(), Some("bad.csv"));
    assert!(state.transactions.is_none());
    assert_eq!(state.parse_error.as_deref(), Some("invalid utf-8 sequence of 1 bytes from index 1"));
    assert!(!state.take_loaded_valid_csv_event());

    let content = format!("{HEADER}\n");
    state.load_csv_from_bytes("ok.csv".to_owned(), content.as_bytes());
    assert_eq!(state.parse_error, None);
    assert_eq!(state.transactions.as_ref().map(|t| t.items.len()), Some(0));
    assert!(state.take_loaded_valid_csv_event());
}

#[test]
fn export_name_follows_the_loaded_file() {
    assert_eq!(export_name_from_stem(Some("may")), "may_reviewed.csv");
    assert_eq!(export_name_from_stem(None), "transactions_reviewed.csv");
    assert_eq!(default_export_name(Some("data/transactions.csv")), "transactions_reviewed.csv");
    assert_eq!(default_export_name(Some("exports/june.2026.csv")), "june.2026_reviewed.csv");
    assert_eq!(default_export_name(Some("plain")), "plain_reviewed.csv");
    assert_eq!(default_export_name(None), "transactions_reviewed.csv");
}

#[test]
fn trip_table_shows_four_rows_around_the_current_one() {
    let mut marked = vec![false; 12];
    marked[6] = true;
    assert_eq!(trip_table_window(&marked), TableWindow { start: 2, end: 11, earlier: 2, later: 1 });
    let mut early = vec![false; 3];
    early[1] = true;
    assert_eq!(trip_table_window(&early), TableWindow { start: 0, end: 3, earlier: 0, later: 0 });
    assert_eq!(trip_table_window(&vec![false; 5]), TableWindow { start: 0, end: 5, earlier: 0, later: 0 });
    let mut twice = vec![false; 20];
    twice[10] = true;
    twice[15] = true;
    assert_eq!(trip_table_window(&twice), TableWindow { start: 6, end: 15, earlier: 6, later: 5 });
}

#[test]
fn export_name_keeps_leading_dots_and_inner_dots() {
    assert_eq!(default_export_name(Some(".hidden")), ".hidden_reviewed.csv");
    assert_eq!(default_export_name(Some("a.")), "a_reviewed.csv");
    assert_eq!(default_export_name(Some("")), "transactions_reviewed.csv");
}

#[test]
fn csv_state_takes_long_lines() {
    let mut state = CsvState::new();
    let name = "x".repeat(5000);
    let content = format!(
        "{HEADER}\ntx_000001,2026-05-05T18:39:29,card_000,115.44,{name},utilities,online,CA,CA,dev_1,24.114.150.203\n"
    );
    state.load_csv_from_bytes("long.csv".to_owned(), content.as_bytes());
    assert_eq!(state.transactions.as_ref().map(|t| t.items.len()), Some(1));
    assert!(state.take_loaded_valid_csv_event());
}
