//! The text summary of an analysis: the likely fraud transactions and their reasons.

use vstd::prelude::*;

use super::card_statistics::{factor_weight, likely_fraud_spec, score_of, FraudFactor};
use super::reasons::{reason_text, to_hundredths};
use crate::data::country::country_text;
use crate::data::transaction::Transaction;
use crate::data::transactions::Transactions;
use crate::text::{decimal, push_decimal, push_str, push_two_decimals, two_decimals};

verus! {

/// The line of one factor.
pub open spec fn factor_line(f: FraudFactor) -> Seq<char> {
    "  reason: "@ + reason_text(f) + " (weight "@ + two_decimals(to_hundredths(factor_weight(f) as nat, 10)) + ")\n"@
}

/// The lines of the factors, in order.
pub open spec fn factor_lines(fs: Seq<FraudFactor>) -> Seq<char>
    decreases fs.len(),
{
    if fs.len() == 0 {
        Seq::empty()
    } else {
        factor_lines(fs.drop_last()) + factor_line(fs.last())
    }
}

/// The lines of one likely fraud transaction: its identity and score, then its reasons.
pub open spec fn transaction_lines(t: Transaction) -> Seq<char> {
    "- "@ + decimal(t.transaction_id.0 as nat) + " card "@ + decimal(t.card_id.0 as nat) + " score "@
        + two_decimals(to_hundredths(score_of(t), 10)) + " country "@ + country_text(t.cardholder_country) + "\n"@
        + factor_lines(t.fraud_factors@)
}

/// The likely fraud transactions, in order.
pub open spec fn likely_fraud_items(items: Seq<Transaction>) -> Seq<Transaction> {
    items.filter(|t: Transaction| likely_fraud_spec(t))
}

/// The lines of the transactions, in order.
pub open spec fn transactions_lines(items: Seq<Transaction>) -> Seq<char>
    decreases items.len(),
{
    if items.len() == 0 {
        Seq::empty()
    } else {
        transactions_lines(items.drop_last()) + transaction_lines(items.last())
    }
}

/// The summary: how many transactions are likely fraud out of all, then each of them.
pub open spec fn report_text(items: Seq<Transaction>) -> Seq<char> {
    "Detected "@ + decimal(likely_fraud_items(items).len()) + " likely fraud transactions out of "@ + decimal(
        items.len(),
    ) + " rows.\n"@ + transactions_lines(likely_fraud_items(items))
}

fn push_factor_lines(out: &mut String, fs: &Vec<FraudFactor>)
    ensures
        final(out)@ == old(out)@ + factor_lines(fs@),
{
    let mut k: usize = 0;
    while k < fs.len()
        invariant
            k <= fs@.len(),
            out@ == old(out)@ + factor_lines(fs@.take(k as int)),
        decreases fs@.len() - k,
    {
        let f = &fs[k];
        push_str(out, "  reason: ");
        let reason = f.reason();
        push_str(out, reason.as_str());
        push_str(out, " (weight ");
        push_two_decimals(out, (f.weight() as u128 + 5) / 10);
        push_str(out, ")\n");
        proof {
            assert(fs@.take(k + 1).drop_last() =~= fs@.take(k as int));
        }
        assert(out@ =~= old(out)@ + factor_lines(fs@.take(k + 1)));
        k += 1;
    }
    assert(fs@.take(fs@.len() as int) =~= fs@);
}

fn push_transaction_lines(out: &mut String, t: &Transaction)
    ensures
        final(out)@ == old(out)@ + transaction_lines(*t),
{
    push_str(out, "- ");
    push_decimal(out, t.transaction_id.0);
    push_str(out, " card ");
    push_decimal(out, t.card_id.0);
    push_str(out, " score ");
    push_two_decimals(out, (t.fraud_score() as u128 + 5) / 10);
    push_str(out, " country ");
    t.cardholder_country.push_alpha2(out);
    push_str(out, "\n");
    push_factor_lines(out, &t.fraud_factors);
    assert(out@ =~= old(out)@ + transaction_lines(*t));
}

impl Transactions {
    /// The summary of the analysis (see [`report_text`]).
    pub fn fraud_report(&self) -> (r: String)
        ensures
            r@ == report_text(self.items@),
    {
        let ghost items = self.items@;
        let ghost pred = |t: Transaction| likely_fraud_spec(t);
        let mut lines = String::new();
        let mut count: u64 = 0;
        let n = self.items.len();
        let mut i: usize = 0;
        while i < n
            invariant
                n == items.len(),
                items == self.items@,
                pred == (|t: Transaction| likely_fraud_spec(t)),
                i <= n,
                count == items.take(i as int).filter(pred).len(),
                count <= i,
                lines@ == transactions_lines(items.take(i as int).filter(pred)),
            decreases n - i,
        {
            let t = &self.items[i];
            proof {
                assert(items.take(i + 1) =~= items.take(i as int).push(*t));
                items.take(i as int).lemma_filter_push(*t, pred);
            }
            if t.likely_fraud() {
                push_transaction_lines(&mut lines, t);
                count += 1;
                proof {
                    let f = items.take(i as int).filter(pred);
                    assert(f.push(*t).drop_last() =~= f);
                }
            }
            i += 1;
        }
        assert(items.take(n as int) =~= items);
        let mut out = String::new();
        push_str(&mut out, "Detected ");
        push_decimal(&mut out, count);
        push_str(&mut out, " likely fraud transactions out of ");
        push_decimal(&mut out, n as u64);
        push_str(&mut out, " rows.\n");
        push_str(&mut out, lines.as_str());
        assert(out@ =~= report_text(items));
        out
    }
}

} // verus!
