//! The kind of business a merchant runs.

use vstd::prelude::*;

use crate::error::{CsvErrorView, ParseCsvError};
use crate::text::range_equals;

verus! {

#[derive(Debug, Clone, Copy, PartialEq, Eq, Structural)]
pub enum MerchantCategory {
    Grocery,
    Gas,
    Restaurant,
    OnlineRetail,
    Electronics,
    Travel,
    Subscription,
    Entertainment,
    Utilities,
    Atm,
    GiftCard,
}

/// The CSV spelling of each category.
pub open spec fn category_text(c: MerchantCategory) -> Seq<char> {
    match c {
        MerchantCategory::Grocery => "grocery"@,
        MerchantCategory::Gas => "gas"@,
        MerchantCategory::Restaurant => "restaurant"@,
        MerchantCategory::OnlineRetail => "online_retail"@,
        MerchantCategory::Electronics => "electronics"@,
        MerchantCategory::Travel => "travel"@,
        MerchantCategory::Subscription => "subscription"@,
        MerchantCategory::Entertainment => "entertainment"@,
        MerchantCategory::Utilities => "utilities"@,
        MerchantCategory::Atm => "atm"@,
        MerchantCategory::GiftCard => "gift_card"@,
    }
}

/// The category a CSV value names, if any.
pub open spec fn category_from_text(s: Seq<char>) -> Option<MerchantCategory> {
    if s == "grocery"@ {
        Some(MerchantCategory::Grocery)
    } else if s == "gas"@ {
        Some(MerchantCategory::Gas)
    } else if s == "restaurant"@ {
        Some(MerchantCategory::Restaurant)
    } else if s == "online_retail"@ {
        Some(MerchantCategory::OnlineRetail)
    } else if s == "electronics"@ {
        Some(MerchantCategory::Electronics)
    } else if s == "travel"@ {
        Some(MerchantCategory::Travel)
    } else if s == "subscription"@ {
        Some(MerchantCategory::Subscription)
    } else if s == "entertainment"@ {
        Some(MerchantCategory::Entertainment)
    } else if s == "utilities"@ {
        Some(MerchantCategory::Utilities)
    } else if s == "atm"@ {
        Some(MerchantCategory::Atm)
    } else if s == "gift_card"@ {
        Some(MerchantCategory::GiftCard)
    } else {
        None
    }
}

impl MerchantCategory {
    /// Reads a category from its CSV spelling.
    pub fn parse(value: &str) -> (r: Result<MerchantCategory, ParseCsvError>)
        ensures
            match r {
                Ok(c) => category_from_text(value@) == Some(c),
                Err(e) => category_from_text(value@) is None && e@ == (CsvErrorView::InvalidEnumValue {
                    field: "merchant_category"@,
                    value: value@,
                }),
            },
    {
        let v = crate::text::to_chars(value);
        let n = v.len();
        assert(v@.subrange(0, n as int) =~= value@);
        if range_equals(&v, 0, n, "grocery") {
            Ok(MerchantCategory::Grocery)
        } else if range_equals(&v, 0, n, "gas") {
            Ok(MerchantCategory::Gas)
        } else if range_equals(&v, 0, n, "restaurant") {
            Ok(MerchantCategory::Restaurant)
        } else if range_equals(&v, 0, n, "online_retail") {
            Ok(MerchantCategory::OnlineRetail)
        } else if range_equals(&v, 0, n, "electronics") {
            Ok(MerchantCategory::Electronics)
        } else if range_equals(&v, 0, n, "travel") {
            Ok(MerchantCategory::Travel)
        } else if range_equals(&v, 0, n, "subscription") {
            Ok(MerchantCategory::Subscription)
        } else if range_equals(&v, 0, n, "entertainment") {
            Ok(MerchantCategory::Entertainment)
        } else if range_equals(&v, 0, n, "utilities") {
            Ok(MerchantCategory::Utilities)
        } else if range_equals(&v, 0, n, "atm") {
            Ok(MerchantCategory::Atm)
        } else if range_equals(&v, 0, n, "gift_card") {
            Ok(MerchantCategory::GiftCard)
        } else {
            Err(
                ParseCsvError::InvalidEnumValue {
                    field: "merchant_category",
                    value: value.to_owned(),
                },
            )
        }
    }
}

/// Reading back the spelling of a category gives that category.
pub proof fn lemma_category_text_round_trip(c: MerchantCategory)
    ensures
        category_from_text(category_text(c)) == Some(c),
{
    reveal_strlit("grocery");
    reveal_strlit("gas");
    reveal_strlit("restaurant");
    reveal_strlit("online_retail");
    reveal_strlit("electronics");
    reveal_strlit("travel");
    reveal_strlit("subscription");
    reveal_strlit("entertainment");
    reveal_strlit("utilities");
    reveal_strlit("atm");
    reveal_strlit("gift_card");
    assert("grocery"@.len() == 7 && "gas"@.len() == 3 && "restaurant"@.len() == 10);
    assert("online_retail"@.len() == 13 && "electronics"@.len() == 11 && "travel"@.len() == 6);
    assert("subscription"@.len() == 12 && "entertainment"@.len() == 13);
    assert("utilities"@.len() == 9 && "atm"@.len() == 3 && "gift_card"@.len() == 9);
    assert("gas"@[0] != "atm"@[0]);
    assert("online_retail"@[0] != "entertainment"@[0]);
    assert("utilities"@[0] != "gift_card"@[0]);
}

impl core::str::FromStr for MerchantCategory {
    type Err = ParseCsvError;

    fn from_str(value: &str) -> (r: Result<MerchantCategory, ParseCsvError>)
        ensures
            match r {
                Ok(c) => category_from_text(value@) == Some(c),
                Err(e) => category_from_text(value@) is None && e@ == (CsvErrorView::InvalidEnumValue {
                    field: "merchant_category"@,
                    value: value@,
                }),
            },
    {
        MerchantCategory::parse(value)
    }
}

/// The name `{:?}` writes for a category.
pub open spec fn category_name(c: MerchantCategory) -> Seq<char> {
    match c {
        MerchantCategory::Grocery => "Grocery"@,
        MerchantCategory::Gas => "Gas"@,
        MerchantCategory::Restaurant => "Restaurant"@,
        MerchantCategory::OnlineRetail => "OnlineRetail"@,
        MerchantCategory::Electronics => "Electronics"@,
        MerchantCategory::Travel => "Travel"@,
        MerchantCategory::Subscription => "Subscription"@,
        MerchantCategory::Entertainment => "Entertainment"@,
        MerchantCategory::Utilities => "Utilities"@,
        MerchantCategory::Atm => "Atm"@,
        MerchantCategory::GiftCard => "GiftCard"@,
    }
}

impl MerchantCategory {
    /// The name `{:?}` writes for the category.
    pub fn debug_name(self) -> (r: &'static str)
        ensures
            r@ == category_name(self),
    {
        match self {
            MerchantCategory::Grocery => "Grocery",
            MerchantCategory::Gas => "Gas",
            MerchantCategory::Restaurant => "Restaurant",
            MerchantCategory::OnlineRetail => "OnlineRetail",
            MerchantCategory::Electronics => "Electronics",
            MerchantCategory::Travel => "Travel",
            MerchantCategory::Subscription => "Subscription",
            MerchantCategory::Entertainment => "Entertainment",
            MerchantCategory::Utilities => "Utilities",
            MerchantCategory::Atm => "Atm",
            MerchantCategory::GiftCard => "GiftCard",
        }
    }
}

} // verus!
