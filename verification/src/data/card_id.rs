//! Card identifiers (`card_<number>`).

use vstd::prelude::*;

use crate::error::{CsvErrorView, ParseCsvError};

verus! {

#[derive(Debug, Clone, Copy, PartialEq, Eq, Structural)]
pub struct CardId(pub u64);

impl CardId {
    /// Reads `card_<number>`.
    pub fn parse(value: &str) -> (r: Result<CardId, ParseCsvError>)
        ensures
            match r {
                Ok(id) => super::prefixed_number_from_text(value@, "card_"@) == Ok::<
                    u64,
                    CsvErrorView,
                >(id.0),
                Err(e) => super::prefixed_number_from_text(value@, "card_"@) == Err::<
                    u64,
                    CsvErrorView,
                >(e@),
            },
    {
        match super::parse_prefixed_number(value, "card_") {
            Ok(n) => Ok(CardId(n)),
            Err(e) => Err(e),
        }
    }
}

impl core::str::FromStr for CardId {
    type Err = ParseCsvError;

    fn from_str(value: &str) -> (r: Result<CardId, ParseCsvError>)
        ensures
            match r {
                Ok(id) => super::prefixed_number_from_text(value@, "card_"@) == Ok::<
                    u64,
                    CsvErrorView,
                >(id.0),
                Err(e) => super::prefixed_number_from_text(value@, "card_"@) == Err::<
                    u64,
                    CsvErrorView,
                >(e@),
            },
    {
        CardId::parse(value)
    }
}

} // verus!
