//! Country names for display.

use vstd::prelude::*;

use crate::data::country::{country_text, Country};
use crate::text::{string_of, to_chars, trim_bounds, trimmed};

verus! {

/// `s` with every trailing repetition of `suffix` removed (`str::trim_end_matches`).
pub open spec fn without_suffixes(s: Seq<char>, suffix: Seq<char>) -> Seq<char>
    decreases s.len(),
{
    if suffix.len() > 0 && s.len() >= suffix.len() && s.skip(s.len() - suffix.len()) == suffix {
        without_suffixes(s.take(s.len() - suffix.len()), suffix)
    } else {
        s
    }
}

/// A country name as displayed: trimmed, without trailing ` (the)` nor `, The`.
pub open spec fn normalized_name(name: Seq<char>) -> Seq<char> {
    without_suffixes(
        without_suffixes(trimmed(name), seq![' ', '(', 't', 'h', 'e', ')']),
        seq![',', ' ', 'T', 'h', 'e'],
    )
}

/// The unofficial names `my_country` lists for the country with this alpha-2 code, in its
/// order (a name for the result).
pub uninterp spec fn spec_unofficial_names(code: Seq<char>) -> Option<Seq<Seq<char>>>;

/// The ISO short name `my_country` knows for the country with this alpha-2 code (a name for
/// the result).
pub uninterp spec fn spec_iso_short_name(code: Seq<char>) -> Option<Seq<char>>;

/// Calls `my_country::Country::unofficial_names` on the country with the alpha-2 code of
/// `country` (found with its `FromStr`) and copies the names. The contract claims that the
/// result depends on the code alone (the names are a table compiled into the crate); no
/// list when the code is not one `my_country` knows.
#[verifier::external_body]
fn unofficial_names(country: Country) -> (r: Option<Vec<String>>)
    ensures
        match r {
            Some(names) => spec_unofficial_names(country_text(country)) == Some(
                names@.map_values(|n: String| n@),
            ),
            None => spec_unofficial_names(country_text(country)) is None,
        },
{
    let code: String = [country.first, country.second].iter().collect();
    match <my_country::Country as core::str::FromStr>::from_str(&code) {
        Ok(c) => Some(c.unofficial_names().iter().map(|n| n.to_string()).collect()),
        Err(_) => None,
    }
}

/// Calls `my_country::Country::iso_short_name` on the country with the alpha-2 code of
/// `country` (found with its `FromStr`). The contract claims that the result depends on the code alone; no name when
/// the code is not one `my_country` knows.
#[verifier::external_body]
fn iso_short_name(country: Country) -> (r: Option<String>)
    ensures
        match r {
            Some(n) => spec_iso_short_name(country_text(country)) == Some(n@),
            None => spec_iso_short_name(country_text(country)) is None,
        },
{
    let code: String = [country.first, country.second].iter().collect();
    match <my_country::Country as core::str::FromStr>::from_str(&code) {
        Ok(c) => Some(c.iso_short_name().to_string()),
        Err(_) => None,
    }
}

/// Removes the trailing repetitions of `suffix` from `v[from..to]`.
fn strip_suffixes(v: &Vec<char>, from: usize, to: usize, suffix: &Vec<char>) -> (r: usize)
    requires
        from <= to <= v@.len(),
    ensures
        from <= r <= to,
        v@.subrange(from as int, r as int) == without_suffixes(v@.subrange(from as int, to as int), suffix@),
{
    let k = suffix.len();
    let mut end = to;
    while k > 0 && end - from >= k && ends_with(v, from, end, suffix)
        invariant
            from <= end <= to <= v@.len(),
            k == suffix@.len(),
            without_suffixes(v@.subrange(from as int, to as int), suffix@) == without_suffixes(
                v@.subrange(from as int, end as int),
                suffix@,
            ),
        decreases end,
    {
        proof {
            let s = v@.subrange(from as int, end as int);
            assert(s.take(s.len() - k) =~= v@.subrange(from as int, end - k));
        }
        end = end - k;
    }
    end
}

/// Whether `v[from..to]` ends with `suffix`.
fn ends_with(v: &Vec<char>, from: usize, to: usize, suffix: &Vec<char>) -> (r: bool)
    requires
        from <= to <= v@.len(),
        to - from >= suffix@.len(),
    ensures
        r == (v@.subrange(from as int, to as int).skip(to - from - suffix@.len()) == suffix@),
{
    let k = suffix.len();
    let start = to - k;
    let mut i: usize = 0;
    while i < k
        invariant
            k == suffix@.len(),
            start == to - k,
            from <= start,
            to <= v@.len(),
            i <= k,
            forall|j: int| 0 <= j < i ==> v@[start + j] == suffix@[j],
        decreases k - i,
    {
        if v[start + i] != suffix[i] {
            assert(v@.subrange(from as int, to as int).skip(to - from - k)[i as int] != suffix@[i as int]);
            return false;
        }
        i += 1;
    }
    assert(v@.subrange(from as int, to as int).skip(to - from - k) =~= suffix@);
    true
}

/// A country name as displayed (see [`normalized_name`]).
pub fn normalize_country_name(name: &str) -> (r: String)
    ensures
        r@ == normalized_name(name@),
{
    let v = to_chars(name);
    assert(v@.subrange(0, v@.len() as int) =~= name@);
    let (a, b) = trim_bounds(&v, 0, v.len());
    let the_suffix = vec![' ', '(', 't', 'h', 'e', ')'];
    let comma_suffix = vec![',', ' ', 'T', 'h', 'e'];
    assert(the_suffix@ =~= seq![' ', '(', 't', 'h', 'e', ')']);
    assert(comma_suffix@ =~= seq![',', ' ', 'T', 'h', 'e']);
    let e1 = strip_suffixes(&v, a, b, &the_suffix);
    let e2 = strip_suffixes(&v, a, e1, &comma_suffix);
    string_of(&v, a, e2)
}

/// The name shown for a country: its first unofficial name if it has one, else its ISO
/// short name (its alpha-2 code if `my_country` knows neither), normalized.
pub open spec fn country_label_text(c: Country) -> Seq<char> {
    match spec_unofficial_names(country_text(c)) {
        Some(names) if names.len() > 0 => normalized_name(names[0]),
        _ => match spec_iso_short_name(country_text(c)) {
            Some(n) => normalized_name(n),
            None => country_text(c),
        },
    }
}

/// The name shown for a country (see [`country_label_text`]).
pub fn country_label(country: Country) -> (r: String)
    ensures
        r@ == country_label_text(country),
{
    if let Some(names) = unofficial_names(country) {
        if names.len() > 0 {
            return normalize_country_name(names[0].as_str());
        }
    }
    match iso_short_name(country) {
        Some(n) => normalize_country_name(n.as_str()),
        None => country.alpha2(),
    }
}

} // verus!
