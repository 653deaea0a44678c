//! ISO 3166-1 alpha-2 countries, as recognised by the `my_country` crate.

use vstd::prelude::*;

use crate::error::{CsvErrorView, ParseCsvError};

verus! {

/// A country, held as its two-letter ISO 3166-1 alpha-2 code.
#[derive(Debug, Clone, Copy, PartialEq, Eq, Structural)]
pub struct Country {
    pub first: char,
    pub second: char,
}

pub open spec fn is_upper_ascii(c: char) -> bool {
    'A' <= c && c <= 'Z'
}

/// Whether `my_country` knows the alpha-2 code `s` (a name for its parser's result).
pub uninterp spec fn spec_is_country_code(s: Seq<char>) -> bool;

/// Calls `<my_country::Country as FromStr>::from_str` and reports whether it accepted `s`.
/// The contract claims that the answer depends on the text alone, and that an accepted text
/// is two upper-case ASCII letters: the crate's generated parser matches the text exactly
/// against its list of alpha-2 codes, all of which have that shape.
#[verifier::external_body]
fn is_country_code(s: &str) -> (known: bool)
    ensures
        known == spec_is_country_code(s@),
        known ==> s@.len() == 2 && is_upper_ascii(s@[0]) && is_upper_ascii(s@[1]),
{
    <my_country::Country as core::str::FromStr>::from_str(s).is_ok()
}

/// The country a CSV value names, if any.
pub open spec fn country_from_text(s: Seq<char>) -> Option<Country> {
    if spec_is_country_code(s) && s.len() == 2 {
        Some(Country { first: s[0], second: s[1] })
    } else {
        None
    }
}

/// The alpha-2 code of a country.
pub open spec fn country_text(c: Country) -> Seq<char> {
    seq![c.first, c.second]
}

impl Country {
    /// Reads a country from its alpha-2 code.
    pub fn parse(value: &str) -> (r: Result<Country, ParseCsvError>)
        ensures
            match r {
                Ok(c) => country_from_text(value@) == Some(c),
                Err(e) => country_from_text(value@) is None && e@ == (CsvErrorView::InvalidEnumValue {
                    field: "country"@,
                    value: value@,
                }),
            },
    {
        if is_country_code(value) {
            let v = crate::text::to_chars(value);
            Ok(Country { first: v[0], second: v[1] })
        } else {
            Err(ParseCsvError::InvalidEnumValue { field: "country", value: value.to_owned() })
        }
    }

    /// Appends the alpha-2 code of the country.
    pub fn push_alpha2(&self, out: &mut String)
        ensures
            final(out)@ == old(out)@ + country_text(*self),
    {
        crate::text::push_char(out, self.first);
        crate::text::push_char(out, self.second);
        assert(out@ =~= old(out)@ + country_text(*self));
    }

    /// The alpha-2 code of the country.
    pub fn alpha2(&self) -> (r: String)
        ensures
            r@ == country_text(*self),
    {
        let mut r = String::new();
        self.push_alpha2(&mut r);
        assert(r@ =~= country_text(*self));
        r
    }
}

/// A country read from text spells back to the same text.
pub proof fn lemma_country_text_round_trip(s: Seq<char>)
    requires
        country_from_text(s) is Some,
    ensures
        country_text(country_from_text(s)->0) == s,
{
    assert(country_text(country_from_text(s)->0) =~= s);
}

impl core::str::FromStr for Country {
    type Err = ParseCsvError;

    fn from_str(value: &str) -> (r: Result<Country, ParseCsvError>)
        ensures
            match r {
                Ok(c) => country_from_text(value@) == Some(c),
                Err(e) => country_from_text(value@) is None && e@ == (CsvErrorView::InvalidEnumValue {
                    field: "country"@,
                    value: value@,
                }),
            },
    {
        Country::parse(value)
    }
}

} // verus!
