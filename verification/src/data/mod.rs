pub mod amount;
pub mod card_id;
pub mod channel;
pub mod country;
pub mod human_review_status;
pub mod ip_address;
pub mod merchant_category;
pub mod timestamp;
pub mod transaction;
pub mod transactions;

pub mod transaction_id;

use vstd::prelude::*;

use crate::error::{CsvErrorView, ParseCsvError};
use ip_address::{ip_from_text, parse_ip, IpAddress};
use crate::text::{
    decimal, lemma_decimal_digits, lemma_leading_zeros, parse_u64, parse_u64_spec, range_starts_with,
    str_equals, to_chars, zero_padded,
};

verus! {

/// The field an identifier with this prefix belongs to.
pub open spec fn prefixed_field(prefix: Seq<char>) -> Seq<char> {
    if prefix == "tx_"@ {
        "transaction_id"@
    } else {
        "card_id"@
    }
}

/// What reading `s` as `prefix` followed by a `u64` gives.
pub open spec fn prefixed_number_from_text(s: Seq<char>, prefix: Seq<char>) -> Result<
    u64,
    CsvErrorView,
> {
    let field = prefixed_field(prefix);
    if !(prefix.len() <= s.len() && s.take(prefix.len() as int) == prefix) {
        Err(CsvErrorView::InvalidPrefix { field, expected_prefix: prefix, value: s })
    } else {
        match parse_u64_spec(s.skip(prefix.len() as int)) {
            Some(n) => Ok(n),
            None => Err(CsvErrorView::InvalidNumber { field, value: s }),
        }
    }
}

/// Reads an identifier written as `prefix` followed by a decimal number, such as `tx_000042`.
pub fn parse_prefixed_number(value: &str, prefix: &'static str) -> (r: Result<u64, ParseCsvError>)
    ensures
        match r {
            Ok(n) => prefixed_number_from_text(value@, prefix@) == Ok::<u64, CsvErrorView>(n),
            Err(e) => prefixed_number_from_text(value@, prefix@) == Err::<u64, CsvErrorView>(e@),
        },
{
    let field: &'static str = if str_equals(prefix, "tx_") {
        "transaction_id"
    } else {
        "card_id"
    };
    let v = to_chars(value);
    let p = to_chars(prefix);
    if !range_starts_with(&v, 0, v.len(), prefix) {
        proof {
            assert(v@.subrange(0, v@.len() as int) =~= value@);
            assert(v@.subrange(0, prefix@.len() as int) =~= value@.take(prefix@.len() as int));
        }
        return Err(
            ParseCsvError::InvalidPrefix {
                field,
                expected_prefix: prefix,
                value: value.to_owned(),
            },
        );
    }
    assert(v@.subrange(0, prefix@.len() as int) =~= value@.take(prefix@.len() as int));
    assert(v@.subrange(p.len() as int, v@.len() as int) =~= value@.skip(prefix@.len() as int));
    match parse_u64(&v, p.len(), v.len()) {
        Some(n) => Ok(n),
        None => Err(ParseCsvError::InvalidNumber { field, value: value.to_owned() }),
    }
}

/// The optional text a CSV value names: the empty text names none.
pub open spec fn optional_text(s: Seq<char>) -> Option<Seq<char>> {
    if s.len() == 0 {
        None
    } else {
        Some(s)
    }
}

/// Reads an optional text: empty text means no value.
pub fn optional_string(value: &str) -> (r: Option<String>)
    ensures
        match r {
            Some(s) => optional_text(value@) == Some(s@),
            None => optional_text(value@) is None,
        },
{
    if value.is_empty() {
        None
    } else {
        Some(value.to_owned())
    }
}

/// The optional IP address a CSV value names: none for the empty text.
pub open spec fn optional_ip_from_text(s: Seq<char>) -> Result<Option<IpAddress>, CsvErrorView> {
    if s.len() == 0 {
        Ok(None)
    } else {
        match ip_from_text(s) {
            Some(ip) => Ok(Some(ip)),
            None => Err(CsvErrorView::InvalidIpAddress { field: "ip_address"@, value: s }),
        }
    }
}

/// Reads an optional IP address: empty text means no address.
pub fn optional_ip_addr(value: &str) -> (r: Result<Option<IpAddress>, ParseCsvError>)
    ensures
        match r {
            Ok(ip) => optional_ip_from_text(value@) == Ok::<Option<IpAddress>, CsvErrorView>(ip),
            Err(e) => optional_ip_from_text(value@) == Err::<Option<IpAddress>, CsvErrorView>(e@),
        },
{
    if value.is_empty() {
        return Ok(None);
    }
    match parse_ip(value) {
        Some(ip) => Ok(Some(ip)),
        None => Err(ParseCsvError::InvalidIpAddress { field: "ip_address", value: value.to_owned() }),
    }
}

/// An identifier written as its prefix and its zero-padded number reads back as that number
/// (as the CSV export writes `tx_000042` and `card_007`).
pub proof fn lemma_prefixed_number_round_trip(prefix: Seq<char>, n: u64, width: nat)
    ensures
        prefixed_number_from_text(prefix + zero_padded(n as nat, width), prefix) == Ok::<u64, CsvErrorView>(n),
{
    let d = decimal(n as nat);
    lemma_decimal_digits(n as nat);
    let z = zero_padded(n as nat, width);
    if d.len() < width {
        lemma_leading_zeros((width - d.len()) as nat, d);
        assert(z[0] == '0');
    } else {
        assert(z[0] == d[0]);
    }
    let s = prefix + z;
    assert(s.take(prefix.len() as int) =~= prefix);
    assert(s.skip(prefix.len() as int) =~= z);
    assert(z[0] != '+');
}

} // verus!
