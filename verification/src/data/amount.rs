//! Money amounts, held exactly as whole cents.

use vstd::prelude::*;

use crate::error::{CsvErrorView, ParseCsvError};
use crate::text::{
    all_digits, decimal, digit_char, digit_to_char, digit_value, digits_u64, digits_value, is_digit,
    push_char, push_decimal, to_chars,
};

verus! {

/// The position of the first `.` in `t` (`t.len()` when there is none).
pub open spec fn first_dot(t: Seq<char>) -> nat
    decreases t.len(),
{
    if t.len() == 0 {
        0
    } else if t[0] == '.' {
        0
    } else {
        1 + first_dot(t.drop_first())
    }
}

/// The cents written by the first two digits after the decimal point.
pub open spec fn fraction_cents(f: Seq<char>) -> nat {
    (if f.len() >= 1 {
        digit_value(f[0]) * 10
    } else {
        0
    }) + (if f.len() >= 2 {
        digit_value(f[1])
    } else {
        0
    })
}

/// The unsigned text of an amount: `s` without a leading `+`.
pub open spec fn unsigned_part(s: Seq<char>) -> Seq<char> {
    if s.len() > 0 && s[0] == '+' {
        s.drop_first()
    } else {
        s
    }
}

/// The digits before the decimal point.
pub open spec fn whole_digits(t: Seq<char>) -> Seq<char> {
    t.take(first_dot(t) as int)
}

/// The digits after the decimal point (none when there is no point).
pub open spec fn fraction_digits(t: Seq<char>) -> Seq<char> {
    if first_dot(t) < t.len() {
        t.skip(first_dot(t) as int + 1)
    } else {
        Seq::<char>::empty()
    }
}

/// The amount, in cents, that a CSV value writes: an optional `+`, digits, and optionally a
/// `.` with more digits (at least one digit in all). Digits past the second decimal must be
/// zero, so that the value is a whole number of cents, and the value must fit in `u32`.
pub open spec fn amount_from_text(s: Seq<char>) -> Option<u32> {
    let i = whole_digits(unsigned_part(s));
    let f = fraction_digits(unsigned_part(s));
    if all_digits(i) && all_digits(f) && i.len() + f.len() > 0 && (forall|k: int|
        2 <= k < f.len() ==> #[trigger] f[k] == '0') && digits_value(i) * 100 + fraction_cents(f)
        <= u32::MAX {
        Some((digits_value(i) * 100 + fraction_cents(f)) as u32)
    } else {
        None
    }
}

proof fn lemma_first_dot(t: Seq<char>)
    ensures
        first_dot(t) <= t.len(),
        first_dot(t) < t.len() ==> t[first_dot(t) as int] == '.',
        forall|k: int| 0 <= k < first_dot(t) ==> t[k] != '.',
    decreases t.len(),
{
    if t.len() > 0 && t[0] != '.' {
        lemma_first_dot(t.drop_first());
        assert forall|k: int| 0 <= k < first_dot(t) implies t[k] != '.' by {
            if k > 0 {
                assert(t[k] == t.drop_first()[k - 1]);
            }
        }
    }
}

/// The value of a decimal digit character.
fn char_digit(c: char) -> (d: u64)
    requires
        is_digit(c),
    ensures
        d == digit_value(c),
        d < 10,
{
    (c as u32 - '0' as u32) as u64
}

/// Reads an amount of money such as `115.44` into cents.
pub fn parse_amount(value: &str) -> (r: Result<u32, ParseCsvError>)
    ensures
        match r {
            Ok(c) => amount_from_text(value@) == Some(c),
            Err(e) => amount_from_text(value@) is None && e@ == (CsvErrorView::InvalidFloat {
                field: "amount"@,
                value: value@,
            }),
        },
{
    let v = to_chars(value);
    let n = v.len();
    let mut start: usize = 0;
    if n > 0 && v[0] == '+' {
        start = 1;
    }
    let ghost t = v@.subrange(start as int, n as int);
    assert(t =~= unsigned_part(value@));
    let mut d = start;
    while d < n && v[d] != '.'
        invariant
            start <= d <= n == v@.len(),
            t == v@.subrange(start as int, n as int),
            first_dot(t) == (d - start) + first_dot(v@.subrange(d as int, n as int)),
        decreases n - d,
    {
        assert(v@.subrange(d as int, n as int).drop_first() =~= v@.subrange(d + 1, n as int));
        d += 1;
    }
    assert(first_dot(t) == d - start);
    let frac_start = if d < n {
        d + 1
    } else {
        n
    };
    let ghost i = v@.subrange(start as int, d as int);
    let ghost f = v@.subrange(frac_start as int, n as int);
    assert(i =~= whole_digits(t));
    assert(f =~= fraction_digits(t));
    let ghost bad_spec = amount_from_text(value@) is None;
    if d - start + (n - frac_start) == 0 {
        assert(i.len() + f.len() == 0);
        assert(whole_digits(unsigned_part(value@)).len() + fraction_digits(unsigned_part(value@)).len() == 0);
        return Err(ParseCsvError::InvalidFloat { field: "amount", value: value.to_owned() });
    }
    let int_part = digits_u64(&v, start, d);
    let whole = match int_part {
        Some(w) => w,
        None => {
            proof {
                if all_digits(i) {
                    assert(digits_value(i) > u64::MAX);
                }
            }
            return Err(ParseCsvError::InvalidFloat { field: "amount", value: value.to_owned() });
        },
    };
    // the fraction must be digits, and those past the second decimal must be zero
    let mut k = frac_start;
    while k < n
        invariant
            frac_start <= k <= n == v@.len(),
            f == v@.subrange(frac_start as int, n as int),
            f == fraction_digits(unsigned_part(value@)),
            forall|j: int| 0 <= j < k - frac_start ==> is_digit(#[trigger] f[j]),
            forall|j: int| 2 <= j < k - frac_start ==> f[j] == '0',
        decreases n - k,
    {
        let c = v[k];
        if !('0' <= c && c <= '9') || (k - frac_start >= 2 && c != '0') {
            assert(!is_digit(f[k - frac_start]) || f[k - frac_start] != '0');
            return Err(ParseCsvError::InvalidFloat { field: "amount", value: value.to_owned() });
        }
        assert(is_digit(f[k - frac_start]));
        k += 1;
    }
    assert(all_digits(f));
    let mut frac: u64 = 0;
    if n - frac_start >= 1 {
        assert(is_digit(f[0]));
        frac = char_digit(v[frac_start]) * 10;
    }
    if n - frac_start >= 2 {
        assert(is_digit(f[1]));
        frac = frac + char_digit(v[frac_start + 1]);
    }
    assert(frac == fraction_cents(f));
    if whole > 42949672 {
        return Err(ParseCsvError::InvalidFloat { field: "amount", value: value.to_owned() });
    }
    let cents = whole * 100 + frac;
    if cents > 4294967295u64 {
        return Err(ParseCsvError::InvalidFloat { field: "amount", value: value.to_owned() });
    }
    Ok(cents as u32)
}

/// How Rust displays the `f64` amount `cents / 100`: the whole part, then the decimals
/// without trailing zeros (`"10"`, `"10.5"`, `"115.44"`).
pub open spec fn amount_text(cents: nat) -> Seq<char> {
    let whole = decimal(cents / 100);
    let c = cents % 100;
    if c == 0 {
        whole
    } else if c % 10 == 0 {
        whole + seq!['.', digit_char(c / 10)]
    } else {
        whole + seq!['.', digit_char(c / 10), digit_char(c % 10)]
    }
}

/// Appends the text of an amount of cents.
pub fn push_amount_text(out: &mut String, cents: u32)
    ensures
        final(out)@ == old(out)@ + amount_text(cents as nat),
{
    let whole = (cents / 100) as u64;
    push_decimal(out, whole);
    let c = (cents % 100) as u64;
    if c != 0 {
        push_char(out, '.');
        push_char(out, digit_to_char(c / 10));
        if c % 10 != 0 {
            push_char(out, digit_to_char(c % 10));
        }
    }
    assert(out@ =~= old(out)@ + amount_text(cents as nat));
}

proof fn lemma_first_dot_after_digits(w: Seq<char>, rest: Seq<char>)
    requires
        all_digits(w),
    ensures
        first_dot(w + rest) == w.len() + first_dot(rest),
    decreases w.len(),
{
    if w.len() > 0 {
        assert((w + rest).drop_first() =~= w.drop_first() + rest);
        lemma_first_dot_after_digits(w.drop_first(), rest);
    } else {
        assert(w + rest =~= rest);
    }
}

/// The text of an amount reads back as the same amount (the export writes what the import
/// reads).
pub proof fn lemma_amount_text_round_trip(cents: u32)
    ensures
        amount_from_text(amount_text(cents as nat)) == Some(cents),
{
    let c = cents as nat;
    let whole = decimal(c / 100);
    crate::text::lemma_decimal_digits(c / 100);
    let r = c % 100;
    let t = amount_text(c);
    let rest = t.skip(whole.len() as int);
    assert(t =~= whole + rest);
    lemma_first_dot_after_digits(whole, rest);
    assert(t[0] == whole[0]);
    assert(unsigned_part(t) == t);
    crate::text::lemma_digit_char_value(r / 10);
    crate::text::lemma_digit_char_value(r % 10);
    if r == 0 {
        assert(rest =~= Seq::<char>::empty());
        assert(whole_digits(t) =~= whole);
        assert(fraction_digits(t) =~= Seq::<char>::empty());
    } else if r % 10 == 0 {
        assert(rest =~= seq!['.', digit_char(r / 10)]);
        assert(whole_digits(t) =~= whole);
        assert(fraction_digits(t) =~= seq![digit_char(r / 10)]);
    } else {
        assert(rest =~= seq!['.', digit_char(r / 10), digit_char(r % 10)]);
        assert(whole_digits(t) =~= whole);
        assert(fraction_digits(t) =~= seq![digit_char(r / 10), digit_char(r % 10)]);
    }
    assert((c / 100) * 100 + r == c);
}

} // verus!
