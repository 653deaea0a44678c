//! The CSV the application works on: what was loaded, or why it could not be.

use vstd::prelude::*;

use crate::data::transactions::{
    csv_rows, lemma_csv_rows_len, newline_count, row_view, Transactions, MAX_TRANSACTIONS,
};
use crate::data::transaction::Transaction;
use crate::error::error_message;
use crate::process::card_statistics::analysed;

verus! {

/// The loaded transactions (analysed), or the message of the last failure.
#[derive(Debug)]
pub struct CsvState {
    pub transactions: Option<Transactions>,
    pub picked_name: Option<String>,
    pub parse_error: Option<String>,
    pub last_loaded_csv_content: Option<String>,
    pub loaded_valid_csv: bool,
}

/// What UTF-8 decoding makes of the bytes, when they are UTF-8 (a name for the result of
/// `std::str::from_utf8`).
pub uninterp spec fn spec_utf8_text(bytes: Seq<u8>) -> Option<Seq<char>>;

/// The message `std::str::from_utf8`'s error gives (its `Display`) when the bytes are not
/// UTF-8 (a name for the result).
pub uninterp spec fn spec_utf8_error_message(bytes: Seq<u8>) -> Seq<char>;

/// How many newline bytes (`0x0A`) `bytes` holds.
pub open spec fn newline_bytes(bytes: Seq<u8>) -> nat
    decreases bytes.len(),
{
    if bytes.len() == 0 {
        0
    } else {
        newline_bytes(bytes.drop_last()) + if bytes.last() == 0x0Au8 {
            1nat
        } else {
            0nat
        }
    }
}

/// Calls `std::str::from_utf8` and copies the text, or the error's `Display` message. The
/// contract claims that the outcome depends on the bytes alone (the error, and so its
/// message, records where and how the bytes stop being UTF-8), that a text has no more
/// characters than bytes (each character takes one to four bytes in UTF-8), and that it has
/// one line break per newline byte (UTF-8 writes ASCII characters as themselves and never
/// uses an ASCII byte inside a longer sequence).
#[verifier::external_body]
fn decode_utf8(bytes: &[u8]) -> (r: Result<String, String>)
    ensures
        match r {
            Ok(s) => spec_utf8_text(bytes@) == Some(s@) && s@.len() <= bytes@.len() && newline_count(s@)
                == newline_bytes(bytes@),
            Err(m) => spec_utf8_text(bytes@) is None && m@ == spec_utf8_error_message(bytes@),
        },
{
    match std::str::from_utf8(bytes) {
        Ok(s) => Ok(s.to_owned()),
        Err(e) => Err(e.to_string()),
    }
}

/// The state after reading the CSV text `text`: the analysed transactions with a load
/// signalled when it reads, else the error's message and nothing loaded.
pub open spec fn loaded_from(s: CsvState, text: Seq<char>) -> bool {
    match csv_rows(text) {
        Ok(rows) => {
            &&& s.transactions matches Some(t) && exists|parsed: Seq<Transaction>| {
                &&& parsed.map_values(|x: Transaction| row_view(x)) == rows
                &&& forall|i: int| 0 <= i < parsed.len() ==> (#[trigger] parsed[i]).fraud_factors@.len() == 0
                &&& analysed(parsed, t.items@)
            }
            &&& s.parse_error is None
            &&& s.last_loaded_csv_content matches Some(c) && c@ == text
            &&& s.loaded_valid_csv
        },
        Err(e) => {
            &&& s.transactions is None
            &&& s.parse_error matches Some(m) && m@ == error_message(e)
            &&& s.last_loaded_csv_content is None
            &&& !s.loaded_valid_csv
        },
    }
}

/// After loading a text, the load signal says whether the text read as a CSV (the first
/// take returns it, and a take leaves it false for the next one).
pub proof fn lemma_load_signal(s: CsvState, text: Seq<char>)
    requires
        loaded_from(s, text),
    ensures
        s.loaded_valid_csv <==> csv_rows(text) is Ok,
        s.loaded_valid_csv <==> s.transactions is Some,
{
}

/// The state records a failure: no transactions, this message, nothing loaded.
pub open spec fn failed(s: CsvState, name: Seq<char>) -> bool {
    &&& s.transactions is None
    &&& s.parse_error is Some
    &&& s.last_loaded_csv_content is None
    &&& !s.loaded_valid_csv
    &&& s.picked_name matches Some(n) && n@ == name
}

impl CsvState {
    /// Nothing loaded yet.
    pub fn new() -> (r: CsvState)
        ensures
            r.transactions is None,
            r.picked_name is None,
            r.parse_error is None,
            r.last_loaded_csv_content is None,
            !r.loaded_valid_csv,
    {
        CsvState {
            transactions: None,
            picked_name: None,
            parse_error: None,
            last_loaded_csv_content: None,
            loaded_valid_csv: false,
        }
    }

    /// Reads and analyses a CSV text: on success the analysed transactions replace the
    /// state and a load is signalled; otherwise the error's message is kept and nothing is
    /// loaded. The text has at most [`MAX_TRANSACTIONS`] line breaks, so that its rows fit
    /// the analysis.
    pub fn load_csv_content(&mut self, name: String, content: String)
        requires
            newline_count(content@) <= MAX_TRANSACTIONS,
        ensures
            final(self).picked_name == Some(name),
            loaded_from(*final(self), content@),
            csv_rows(content@) is Ok ==> final(self).last_loaded_csv_content == Some(content),
    {
        self.picked_name = Some(name);
        match Transactions::parse_csv_content(content.as_str()) {
            Ok(mut transactions) => {
                proof {
                    lemma_csv_rows_len(content@);
                    assert(transactions.items@.map_values(|x: Transaction| row_view(x)).len() == transactions.items@.len());
                }
                let ghost parsed = transactions.items@;
                transactions.apply_fraud_factors();
                self.transactions = Some(transactions);
                self.parse_error = None;
                self.last_loaded_csv_content = Some(content);
                self.loaded_valid_csv = true;
                proof {
                    let t = self.transactions->0;
                    assert(parsed.map_values(|x: Transaction| row_view(x)) == csv_rows(content@)->Ok_0);
                    assert(analysed(parsed, t.items@));
                    assert(forall|i: int| 0 <= i < parsed.len() ==> (#[trigger] parsed[i]).fraud_factors@.len() == 0);
                }
            },
            Err(e) => {
                self.transactions = None;
                self.parse_error = Some(e.message());
                self.last_loaded_csv_content = None;
                self.loaded_valid_csv = false;
            },
        }
    }

    /// Reads a CSV file's bytes: as text when they are UTF-8 (see
    /// [`CsvState::load_csv_content`]), otherwise the decoding error is kept. The bytes hold
    /// at most [`MAX_TRANSACTIONS`] newlines.
    pub fn load_csv_from_bytes(&mut self, name: String, bytes: &[u8])
        requires
            newline_bytes(bytes@) <= MAX_TRANSACTIONS,
        ensures
            final(self).picked_name == Some(name),
            spec_utf8_text(bytes@) is None ==> failed(*final(self), name@),
            spec_utf8_text(bytes@) is None ==> (final(self).parse_error matches Some(m) && m@
                == spec_utf8_error_message(bytes@)),
            spec_utf8_text(bytes@) matches Some(text) ==> loaded_from(*final(self), text),
    {
        match decode_utf8(bytes) {
            Ok(content) => {
                self.load_csv_content(name, content);
            },
            Err(message) => {
                self.fail(name, message);
            },
        }
    }

    /// Records a failure to load `name`.
    pub fn fail(&mut self, name: String, message: String)
        ensures
            failed(*final(self), name@),
            final(self).picked_name == Some(name),
            final(self).parse_error == Some(message),
    {
        self.picked_name = Some(name);
        self.transactions = None;
        self.parse_error = Some(message);
        self.last_loaded_csv_content = None;
        self.loaded_valid_csv = false;
    }

    /// Whether a valid CSV was loaded since the last call; the signal is consumed.
    pub fn take_loaded_valid_csv_event(&mut self) -> (r: bool)
        ensures
            r == old(self).loaded_valid_csv,
            !final(self).loaded_valid_csv,
            final(self).transactions == old(self).transactions,
            final(self).picked_name == old(self).picked_name,
            final(self).parse_error == old(self).parse_error,
            final(self).last_loaded_csv_content == old(self).last_loaded_csv_content,
    {
        let loaded = self.loaded_valid_csv;
        self.loaded_valid_csv = false;
        loaded
    }
}

} // verus!
