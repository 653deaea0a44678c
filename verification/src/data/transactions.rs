//! The full list of transactions, and its CSV form.

use vstd::prelude::*;

use super::amount::{amount_from_text, amount_text, parse_amount, push_amount_text};
use super::card_id::CardId;
use super::channel::{channel_from_text, channel_text, Channel};
use super::country::{country_from_text, country_text, Country};
use super::human_review_status::HumanReviewStatus;
use super::ip_address::{ip_text, piece_bounds, pieces, push_ip_text, IpAddress};
use super::merchant_category::{category_from_text, category_text, MerchantCategory};
use super::timestamp::{parse_timestamp, time_text, timestamp_from_text, CSV_TIMESTAMP_FORMAT};
use super::transaction::Transaction;
use super::transaction_id::TransactionId;
use super::{optional_ip_addr, optional_ip_from_text, optional_string, optional_text, prefixed_number_from_text};
use crate::error::{CsvErrorView, ParseCsvError};
use crate::process::card_statistics::exported_fraud_spec;
use crate::text::{all_space, push_char, push_str, push_zero_padded, range_all_space, string_of, to_chars, zero_padded};

verus! {

/// The most transactions the analysis takes: the points an identity link counts (two per
/// other transaction) must fit a `usize` of 32 bits, and a card's exact amount variance
/// (count times sum of squares) must fit 128 bits.
pub const MAX_TRANSACTIONS: usize = 0x7fff_ffff;

/// The number of columns of a CSV row.
pub const CSV_COLUMN_COUNT: usize = 11;

/// The first line of an exported CSV.
pub const CSV_EXPORT_HEADER: &'static str = "transaction_id,timestamp,card_id,amount,merchant_name,merchant_category,channel,cardholder_country,merchant_country,device_id,ip_address,likely_fraud\n";

#[derive(Debug)]
pub struct Transactions {
    pub items: Vec<Transaction>,
}

/// What a CSV row says of a transaction, texts as character sequences.
pub struct RowView {
    pub transaction_id: u64,
    /// Seconds since the epoch, and whether it is a leap second.
    pub timestamp: (i64, bool),
    pub card_id: u64,
    pub amount: u32,
    pub merchant_name: Seq<char>,
    pub merchant_category: MerchantCategory,
    pub channel: Channel,
    pub cardholder_country: Country,
    pub merchant_country: Country,
    pub device_id: Option<Seq<char>>,
    pub ip_address: Option<IpAddress>,
}

/// The fields of a transaction that a CSV row gives.
pub open spec fn row_view(t: Transaction) -> RowView {
    RowView {
        transaction_id: t.transaction_id.0,
        timestamp: (t.timestamp.secs() as i64, t.timestamp.leap_second()),
        card_id: t.card_id.0,
        amount: t.amount,
        merchant_name: t.merchant_name@,
        merchant_category: t.merchant_category,
        channel: t.channel,
        cardholder_country: t.cardholder_country,
        merchant_country: t.merchant_country,
        device_id: match t.device_id {
            Some(d) => Some(d@),
            None => None,
        },
        ip_address: t.ip_address,
    }
}

/// The lines of a text (`str::lines`): split at `\n`, a `\r` before the `\n` dropped, and
/// no empty line after a final `\n`.
pub open spec fn text_lines(s: Seq<char>) -> Seq<Seq<char>> {
    let p = pieces(s, '\n');
    let raw = if p.last().len() == 0 {
        p.drop_last()
    } else {
        p
    };
    Seq::new(
        raw.len(),
        |k: int|
            if k < p.len() - 1 && raw[k].len() > 0 && raw[k].last() == '\r' {
                raw[k].drop_last()
            } else {
                raw[k]
            },
    )
}

/// The transaction that the eleven columns `c` describe, or the error for the first column
/// that does not read.
pub open spec fn row_from_columns(c: Seq<Seq<char>>) -> Result<RowView, CsvErrorView> {
    match prefixed_number_from_text(c[0], "tx_"@) {
        Err(e) => Err(e),
        Ok(id) => match timestamp_from_text(c[1]) {
            None => Err(CsvErrorView::InvalidDateTime { field: "timestamp"@, value: c[1] }),
            Some(ts) => match prefixed_number_from_text(c[2], "card_"@) {
                Err(e) => Err(e),
                Ok(card) => match amount_from_text(c[3]) {
                    None => Err(CsvErrorView::InvalidFloat { field: "amount"@, value: c[3] }),
                    Some(amount) => match category_from_text(c[5]) {
                        None => Err(
                            CsvErrorView::InvalidEnumValue { field: "merchant_category"@, value: c[5] },
                        ),
                        Some(category) => match channel_from_text(c[6]) {
                            None => Err(CsvErrorView::InvalidEnumValue { field: "channel"@, value: c[6] }),
                            Some(channel) => match country_from_text(c[7]) {
                                None => Err(
                                    CsvErrorView::InvalidEnumValue { field: "country"@, value: c[7] },
                                ),
                                Some(home) => match country_from_text(c[8]) {
                                    None => Err(
                                        CsvErrorView::InvalidEnumValue { field: "country"@, value: c[8] },
                                    ),
                                    Some(merchant_country) => match optional_ip_from_text(c[10]) {
                                        Err(e) => Err(e),
                                        Ok(ip) => Ok(
                                            RowView {
                                                transaction_id: id,
                                                timestamp: ts,
                                                card_id: card,
                                                amount,
                                                merchant_name: c[4],
                                                merchant_category: category,
                                                channel,
                                                cardholder_country: home,
                                                merchant_country,
                                                device_id: optional_text(c[9]),
                                                ip_address: ip,
                                            },
                                        ),
                                    },
                                },
                            },
                        },
                    },
                },
            },
        },
    }
}

/// The transaction a data line describes (`line_no` counts from one, the header included).
pub open spec fn row_from_line(line: Seq<char>, line_no: nat) -> Result<RowView, CsvErrorView> {
    let c = pieces(line, ',');
    if c.len() != CSV_COLUMN_COUNT {
        Err(CsvErrorView::InvalidColumnCount { expected: CSV_COLUMN_COUNT as nat, found: c.len(), line: line_no })
    } else {
        row_from_columns(c)
    }
}

/// The rows of the data lines before line `m` (header at index 0); blank lines are skipped
/// and the first bad line stops the reading.
pub open spec fn rows_before(lines: Seq<Seq<char>>, m: int) -> Result<Seq<RowView>, CsvErrorView>
    decreases m,
{
    if m <= 1 {
        Ok(Seq::empty())
    } else {
        match rows_before(lines, m - 1) {
            Err(e) => Err(e),
            Ok(rows) => if all_space(lines[m - 1]) {
                Ok(rows)
            } else {
                match row_from_line(lines[m - 1], m as nat) {
                    Ok(r) => Ok(rows.push(r)),
                    Err(e) => Err(e),
                }
            },
        }
    }
}

/// Once a line does not read, the reading stays stopped at it.
proof fn lemma_rows_before_stop(lines: Seq<Seq<char>>, m: int, n: int)
    requires
        1 <= m <= n,
        rows_before(lines, m) is Err,
    ensures
        rows_before(lines, n) == rows_before(lines, m),
    decreases n - m,
{
    if n > m {
        lemma_rows_before_stop(lines, m, n - 1);
    }
}

proof fn lemma_rows_before_len(lines: Seq<Seq<char>>, m: int)
    requires
        1 <= m,
    ensures
        rows_before(lines, m) matches Ok(rows) ==> rows.len() <= m - 1,
    decreases m,
{
    if m > 1 {
        lemma_rows_before_len(lines, m - 1);
    }
}

proof fn lemma_pieces_len(s: Seq<char>, sep: char)
    ensures
        pieces(s, sep).len() <= s.len() + 1,
    decreases s.len(),
{
    if s.len() > 0 {
        lemma_pieces_len(s.drop_last(), sep);
        crate::data::ip_address::lemma_pieces_nonempty(s.drop_last(), sep);
        let p = pieces(s.drop_last(), sep);
        if s.last() == sep {
            assert(pieces(s, sep).len() == p.len() + 1);
        } else {
            assert(pieces(s, sep).len() == p.len());
        }
    }
}

/// How many line breaks (`\n`) a text holds.
pub open spec fn newline_count(s: Seq<char>) -> nat
    decreases s.len(),
{
    if s.len() == 0 {
        0
    } else {
        newline_count(s.drop_last()) + if s.last() == '\n' {
            1nat
        } else {
            0nat
        }
    }
}

proof fn lemma_pieces_newlines(s: Seq<char>)
    ensures
        pieces(s, '\n').len() == newline_count(s) + 1,
    decreases s.len(),
{
    if s.len() > 0 {
        lemma_pieces_newlines(s.drop_last());
        crate::data::ip_address::lemma_pieces_nonempty(s.drop_last(), '\n');
    }
}

/// A CSV text has no more rows than line breaks, nor than characters.
pub proof fn lemma_csv_rows_len(content: Seq<char>)
    ensures
        csv_rows(content) matches Ok(rows) ==> rows.len() <= newline_count(content) && rows.len() <= content.len(),
{
    let lines = text_lines(content);
    lemma_pieces_len(content, '\n');
    lemma_pieces_newlines(content);
    crate::data::ip_address::lemma_pieces_nonempty(content, '\n');
    assert(lines.len() <= pieces(content, '\n').len());
    if lines.len() > 0 {
        lemma_rows_before_len(lines, lines.len() as int);
    }
}

/// The rows of a CSV text whose first line is a header, or why it does not read.
pub open spec fn csv_rows(content: Seq<char>) -> Result<Seq<RowView>, CsvErrorView> {
    let lines = text_lines(content);
    if lines.len() == 0 {
        Err(CsvErrorView::MissingHeader)
    } else {
        rows_before(lines, lines.len() as int)
    }
}

/// The line ranges of `v` (`str::lines`).
fn line_bounds(v: &Vec<char>) -> (r: Vec<(usize, usize)>)
    ensures
        r@.len() == text_lines(v@).len(),
        forall|k: int|
            0 <= k < r@.len() ==> {
                &&& (#[trigger] r@[k]).0 <= r@[k].1 <= v@.len()
                &&& v@.subrange(r@[k].0 as int, r@[k].1 as int) == text_lines(v@)[k]
            },
{
    let n = v.len();
    assert(v@.subrange(0, n as int) =~= v@);
    let parts = piece_bounds(v, 0, n, '\n');
    proof {
        crate::data::ip_address::lemma_pieces_nonempty(v@, '\n');
    }
    let ghost p = pieces(v@, '\n');
    let count = parts.len();
    let (l0, l1) = parts[count - 1];
    let keep = if l0 == l1 {
        count - 1
    } else {
        count
    };
    proof {
        assert(v@.subrange(l0 as int, l1 as int) == p.last());
    }
    let mut r: Vec<(usize, usize)> = Vec::new();
    let mut k: usize = 0;
    while k < keep
        invariant
            count == parts@.len(),
            count == p.len(),
            p == pieces(v@, '\n'),
            keep == text_lines(v@).len(),
            keep <= count,
            k <= keep,
            r@.len() == k,
            forall|j: int|
                0 <= j < parts@.len() ==> {
                    &&& 0 <= (#[trigger] parts@[j]).0 <= parts@[j].1 <= v@.len()
                    &&& v@.subrange(parts@[j].0 as int, parts@[j].1 as int) == p[j]
                },
            forall|j: int|
                0 <= j < k ==> {
                    &&& (#[trigger] r@[j]).0 <= r@[j].1 <= v@.len()
                    &&& v@.subrange(r@[j].0 as int, r@[j].1 as int) == text_lines(v@)[j]
                },
        decreases keep - k,
    {
        let (a, b) = parts[k];
        let ghost piece = p[k as int];
        if k + 1 < count && b > a && v[b - 1] == '\r' {
            r.push((a, b - 1));
            proof {
                assert(v@.subrange(a as int, b - 1) =~= piece.drop_last());
            }
        } else {
            r.push((a, b));
        }
        proof {
            assert forall|j: int| 0 <= j < k + 1 implies {
                &&& (#[trigger] r@[j]).0 <= r@[j].1 <= v@.len()
                &&& v@.subrange(r@[j].0 as int, r@[j].1 as int) == text_lines(v@)[j]
            } by {
                if j < k {
                    assert(r@[j] == r@.drop_last()[j]);
                }
            }
        }
        k += 1;
    }
    r
}

/// Reads the transaction of the data line `v[from..to]`.
fn parse_line(v: &Vec<char>, from: usize, to: usize, line_no: usize) -> (r: Result<Transaction, ParseCsvError>)
    requires
        from <= to <= v@.len(),
    ensures
        match r {
            Ok(t) => {
                &&& row_from_line(v@.subrange(from as int, to as int), line_no as nat) == Ok::<RowView, CsvErrorView>(row_view(t))
                &&& t.fraud_factors@.len() == 0
                &&& t.human_review_status == HumanReviewStatus::NotNeeded
            },
            Err(e) => row_from_line(v@.subrange(from as int, to as int), line_no as nat) == Err::<RowView, CsvErrorView>(e@),
        },
{
    let ghost c = pieces(v@.subrange(from as int, to as int), ',');
    let cols = piece_bounds(v, from, to, ',');
    if cols.len() != CSV_COLUMN_COUNT {
        return Err(ParseCsvError::InvalidColumnCount { expected: CSV_COLUMN_COUNT, found: cols.len(), line: line_no });
    }
    let mut texts: Vec<String> = Vec::new();
    let mut k: usize = 0;
    while k < CSV_COLUMN_COUNT
        invariant
            cols@.len() == CSV_COLUMN_COUNT,
            c == pieces(v@.subrange(from as int, to as int), ','),
            c.len() == CSV_COLUMN_COUNT,
            forall|j: int|
                0 <= j < cols@.len() ==> {
                    &&& from <= (#[trigger] cols@[j]).0 <= cols@[j].1 <= to
                    &&& v@.subrange(cols@[j].0 as int, cols@[j].1 as int) == c[j]
                },
            to <= v@.len(),
            k <= CSV_COLUMN_COUNT,
            texts@.len() == k,
            forall|j: int| 0 <= j < k ==> (#[trigger] texts@[j])@ == c[j],
        decreases CSV_COLUMN_COUNT - k,
    {
        let (a, b) = cols[k];
        texts.push(string_of(v, a, b));
        k += 1;
    }
    let transaction_id = match TransactionId::parse(texts[0].as_str()) {
        Ok(x) => x,
        Err(e) => return Err(e),
    };
    let timestamp = match parse_timestamp(texts[1].as_str()) {
        Ok(x) => x,
        Err(e) => return Err(e),
    };
    let card_id = match CardId::parse(texts[2].as_str()) {
        Ok(x) => x,
        Err(e) => return Err(e),
    };
    let amount = match parse_amount(texts[3].as_str()) {
        Ok(x) => x,
        Err(e) => return Err(e),
    };
    let merchant_category = match MerchantCategory::parse(texts[5].as_str()) {
        Ok(x) => x,
        Err(e) => return Err(e),
    };
    let channel = match Channel::parse(texts[6].as_str()) {
        Ok(x) => x,
        Err(e) => return Err(e),
    };
    let cardholder_country = match Country::parse(texts[7].as_str()) {
        Ok(x) => x,
        Err(e) => return Err(e),
    };
    let merchant_country = match Country::parse(texts[8].as_str()) {
        Ok(x) => x,
        Err(e) => return Err(e),
    };
    let ip_address = match optional_ip_addr(texts[10].as_str()) {
        Ok(x) => x,
        Err(e) => return Err(e),
    };
    let device_id = optional_string(texts[9].as_str());
    let merchant_name = texts[4].clone();
    let t = Transaction {
        transaction_id,
        timestamp,
        card_id,
        amount,
        merchant_name,
        merchant_category,
        channel,
        cardholder_country,
        merchant_country,
        device_id,
        ip_address,
        fraud_factors: Vec::new(),
        human_review_status: HumanReviewStatus::NotNeeded,
    };
    proof {
        assert(row_from_columns(c) == Ok::<RowView, CsvErrorView>(row_view(t)));
    }
    Ok(t)
}

impl Transactions {
    /// Reads the transactions of a CSV text: a header line, then one line of eleven
    /// comma-separated columns per transaction (blank lines are skipped). The first line
    /// that does not read gives the error. Every transaction starts with no fraud factor and
    /// no review.
    pub fn parse_csv_content(content: &str) -> (r: Result<Transactions, ParseCsvError>)
        ensures
            match r {
                Ok(t) => {
                    &&& csv_rows(content@) == Ok::<Seq<RowView>, CsvErrorView>(
                        t.items@.map_values(|x: Transaction| row_view(x)),
                    )
                    &&& forall|i: int|
                        0 <= i < t.items@.len() ==> (#[trigger] t.items@[i]).fraud_factors@.len() == 0
                            && t.items@[i].human_review_status == HumanReviewStatus::NotNeeded
                },
                Err(e) => csv_rows(content@) == Err::<Seq<RowView>, CsvErrorView>(e@),
            },
    {
        let v = to_chars(content);
        let lines = line_bounds(&v);
        if lines.len() == 0 {
            return Err(ParseCsvError::MissingHeader);
        }
        let ghost ls = text_lines(v@);
        let mut items: Vec<Transaction> = Vec::new();
        assert(items@.map_values(|x: Transaction| row_view(x)) =~= Seq::<RowView>::empty());
        let mut m: usize = 1;
        while m < lines.len()
            invariant
                v@ == content@,
                ls == text_lines(v@),
                lines@.len() == ls.len(),
                forall|k: int|
                    0 <= k < lines@.len() ==> {
                        &&& (#[trigger] lines@[k]).0 <= lines@[k].1 <= v@.len()
                        &&& v@.subrange(lines@[k].0 as int, lines@[k].1 as int) == ls[k]
                    },
                1 <= m <= lines@.len(),
                rows_before(ls, m as int) == Ok::<Seq<RowView>, CsvErrorView>(
                    items@.map_values(|x: Transaction| row_view(x)),
                ),
                forall|i: int|
                    0 <= i < items@.len() ==> (#[trigger] items@[i]).fraud_factors@.len() == 0
                        && items@[i].human_review_status == HumanReviewStatus::NotNeeded,
            decreases lines@.len() - m,
        {
            let (a, b) = lines[m];
            if !range_all_space(&v, a, b) {
                match parse_line(&v, a, b, m + 1) {
                    Ok(t) => {
                        let ghost before = items@;
                        items.push(t);
                        proof {
                            assert(items@.map_values(|x: Transaction| row_view(x)) =~= before.map_values(
                                |x: Transaction| row_view(x),
                            ).push(row_view(t)));
                        }
                    },
                    Err(e) => {
                        proof {
                            lemma_rows_before_stop(ls, m + 1, ls.len() as int);
                        }
                        return Err(e);
                    },
                }
            }
            m += 1;
        }
        Ok(Transactions { items })
    }
}

// ---------------------------------------------------------------------------------------
// export

/// The CSV spelling of a channel.
pub fn serialize_channel(channel: Channel) -> (r: &'static str)
    ensures
        r@ == channel_text(channel),
{
    match channel {
        Channel::Online => "online",
        Channel::InPerson => "in_person",
        Channel::Atm => "atm",
    }
}

/// The CSV spelling of a merchant category.
pub fn serialize_merchant_category(category: MerchantCategory) -> (r: &'static str)
    ensures
        r@ == category_text(category),
{
    match category {
        MerchantCategory::Grocery => "grocery",
        MerchantCategory::Gas => "gas",
        MerchantCategory::Restaurant => "restaurant",
        MerchantCategory::OnlineRetail => "online_retail",
        MerchantCategory::Electronics => "electronics",
        MerchantCategory::Travel => "travel",
        MerchantCategory::Subscription => "subscription",
        MerchantCategory::Entertainment => "entertainment",
        MerchantCategory::Utilities => "utilities",
        MerchantCategory::Atm => "atm",
        MerchantCategory::GiftCard => "gift_card",
    }
}

/// The identifier, time and card columns of an exported line, each followed by a comma.
pub open spec fn export_head_text(t: Transaction) -> Seq<char> {
    "tx_"@ + zero_padded(t.transaction_id.0 as nat, 6) + seq![','] + time_text(t.timestamp, CSV_TIMESTAMP_FORMAT@) + seq![','] + "card_"@ + zero_padded(t.card_id.0 as nat, 3) + seq![',']
}

/// The amount, merchant, category and channel columns of an exported line, each followed by
/// a comma.
pub open spec fn export_middle_text(t: Transaction) -> Seq<char> {
    amount_text(t.amount as nat) + seq![','] + t.merchant_name@ + seq![','] + category_text(
        t.merchant_category,
    ) + seq![','] + channel_text(t.channel) + seq![',']
}

/// The country, device and address columns of an exported line, each followed by a comma.
pub open spec fn export_tail_text(t: Transaction) -> Seq<char> {
    country_text(t.cardholder_country) + seq![','] + country_text(t.merchant_country) + seq![',']
        + match t.device_id {
        Some(d) => d@,
        None => Seq::empty(),
    } + seq![','] + match t.ip_address {
        Some(ip) => ip_text(ip),
        None => Seq::empty(),
    } + seq![',']
}

/// The exported line of a transaction: its columns, then the exported fraud decision.
pub open spec fn export_row_text(t: Transaction) -> Seq<char> {
    export_head_text(t) + export_middle_text(t) + export_tail_text(t) + (if exported_fraud_spec(t) {
        "true"@
    } else {
        "false"@
    }) + seq!['\n']
}

/// The exported lines of the transactions, in order.
pub open spec fn export_rows_text(items: Seq<Transaction>) -> Seq<char>
    decreases items.len(),
{
    if items.len() == 0 {
        Seq::empty()
    } else {
        export_rows_text(items.drop_last()) + export_row_text(items.last())
    }
}

fn push_export_head(out: &mut String, t: &Transaction)
    ensures
        final(out)@ == old(out)@ + export_head_text(*t),
{
    push_str(out, "tx_");
    push_zero_padded(out, t.transaction_id.0, 6);
    push_char(out, ',');
    t.timestamp.push_csv_text(out);
    push_char(out, ',');
    push_str(out, "card_");
    push_zero_padded(out, t.card_id.0, 3);
    push_char(out, ',');
    assert(out@ =~= old(out)@ + export_head_text(*t));
}

fn push_export_middle(out: &mut String, t: &Transaction)
    ensures
        final(out)@ == old(out)@ + export_middle_text(*t),
{
    push_amount_text(out, t.amount);
    push_char(out, ',');
    push_str(out, t.merchant_name.as_str());
    push_char(out, ',');
    push_str(out, serialize_merchant_category(t.merchant_category));
    push_char(out, ',');
    push_str(out, serialize_channel(t.channel));
    push_char(out, ',');
    assert(out@ =~= old(out)@ + export_middle_text(*t));
}

fn push_export_tail(out: &mut String, t: &Transaction)
    ensures
        final(out)@ == old(out)@ + export_tail_text(*t),
{
    t.cardholder_country.push_alpha2(out);
    push_char(out, ',');
    t.merchant_country.push_alpha2(out);
    push_char(out, ',');
    match &t.device_id {
        Some(d) => push_str(out, d.as_str()),
        None => {},
    }
    push_char(out, ',');
    match t.ip_address {
        Some(ip) => push_ip_text(out, ip),
        None => {},
    }
    push_char(out, ',');
    assert(out@ =~= old(out)@ + export_tail_text(*t));
}

/// Appends the exported line of a transaction.
fn push_export_row(out: &mut String, t: &Transaction)
    ensures
        final(out)@ == old(out)@ + export_row_text(*t),
{
    push_export_head(out, t);
    push_export_middle(out, t);
    push_export_tail(out, t);
    if t.likely_fraud_for_export() {
        push_str(out, "true");
    } else {
        push_str(out, "false");
    }
    push_char(out, '\n');
    assert(out@ =~= old(out)@ + export_row_text(*t));
}

impl Transactions {
    /// The CSV export: the header, then one line per transaction with its columns and the
    /// exported fraud decision (the analyst's when there is one, the score's otherwise).
    pub fn export_csv_content(&self) -> (r: String)
        ensures
            r@ == CSV_EXPORT_HEADER@ + export_rows_text(self.items@),
    {
        let mut out = String::new();
        push_str(&mut out, CSV_EXPORT_HEADER);
        let n = self.items.len();
        let mut i: usize = 0;
        while i < n
            invariant
                n == self.items@.len(),
                i <= n,
                out@ == CSV_EXPORT_HEADER@ + export_rows_text(self.items@.take(i as int)),
            decreases n - i,
        {
            push_export_row(&mut out, &self.items[i]);
            proof {
                assert(self.items@.take(i + 1).drop_last() =~= self.items@.take(i as int));
            }
            assert(out@ =~= CSV_EXPORT_HEADER@ + export_rows_text(self.items@.take(i + 1)));
            i += 1;
        }
        assert(self.items@.take(n as int) =~= self.items@);
        out
    }
}

} // verus!
