//! Transaction identifiers (`tx_<number>`).

use vstd::prelude::*;

use crate::error::{CsvErrorView, ParseCsvError};

verus! {

#[derive(Debug, Clone, Copy, PartialEq, Eq, Structural)]
pub struct TransactionId(pub u64);

impl TransactionId {
    /// Reads `tx_<number>`.
    pub fn parse(value: &str) -> (r: Result<TransactionId, ParseCsvError>)
        ensures
            match r {
                Ok(id) => super::prefixed_number_from_text(value@, "tx_"@) == Ok::<
                    u64,
                    CsvErrorView,
                >(id.0),
                Err(e) => super::prefixed_number_from_text(value@, "tx_"@) == Err::<
                    u64,
                    CsvErrorView,
                >(e@),
            },
    {
        match super::parse_prefixed_number(value, "tx_") {
            Ok(n) => Ok(TransactionId(n)),
            Err(e) => Err(e),
        }
    }
}

impl core::str::FromStr for TransactionId {
    type Err = ParseCsvError;

    fn from_str(value: &str) -> (r: Result<TransactionId, ParseCsvError>)
        ensures
            match r {
                Ok(id) => super::prefixed_number_from_text(value@, "tx_"@) == Ok::<
                    u64,
                    CsvErrorView,
                >(id.0),
                Err(e) => super::prefixed_number_from_text(value@, "tx_"@) == Err::<
                    u64,
                    CsvErrorView,
                >(e@),
            },
    {
        TransactionId::parse(value)
    }
}

} // verus!
