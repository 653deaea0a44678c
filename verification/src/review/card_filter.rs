//! Filtering the transactions table by card.

use vstd::prelude::*;

use crate::data::transaction::Transaction;
use crate::text::{
    decimal, lemma_decimal_digits, leading_space, parse_u64, parse_u64_spec, push_char, push_decimal, to_chars,
    trailing_space, trim_bounds, trimmed,
};

verus! {

/// Which cards the table shows.
#[derive(Debug, Clone, Copy, PartialEq, Eq, Structural)]
pub enum CardIdFilter {
    Any,
    Exact(u64),
    /// The query names no card: nothing matches.
    Invalid,
}

/// `char::to_ascii_lowercase`.
pub open spec fn ascii_lower(c: char) -> char {
    if 'A' <= c && c <= 'Z' {
        ((c as u32) + 32) as char
    } else {
        c
    }
}

/// The query as the filter reads it: trimmed, in ASCII lowercase, without a leading `card_`.
pub open spec fn normalized_query(q: Seq<char>) -> Seq<char> {
    let t = trimmed(q).map_values(|c: char| ascii_lower(c));
    if t.len() >= 5 && t.take(5) == seq!['c', 'a', 'r', 'd', '_'] {
        t.skip(5)
    } else {
        t
    }
}

/// The filter a query asks for: any card for an empty query, the card whose number it is,
/// or none when it is not a number.
pub open spec fn filter_of(q: Seq<char>) -> CardIdFilter {
    let n = normalized_query(q);
    if n.len() == 0 {
        CardIdFilter::Any
    } else {
        match parse_u64_spec(n) {
            Some(id) => CardIdFilter::Exact(id),
            None => CardIdFilter::Invalid,
        }
    }
}

pub open spec fn matches_filter(card_id: u64, filter: CardIdFilter) -> bool {
    match filter {
        CardIdFilter::Any => true,
        CardIdFilter::Exact(selected) => card_id == selected,
        CardIdFilter::Invalid => false,
    }
}

fn lower_char(c: char) -> (r: char)
    ensures
        r == ascii_lower(c),
{
    if 'A' <= c && c <= 'Z' {
        let code = (c as u32 + 32) as u8;
        code as char
    } else {
        c
    }
}

/// The query as the filter reads it (see [`normalized_query`]).
pub fn normalize_card_id_query(query: &str) -> (r: String)
    ensures
        r@ == normalized_query(query@),
{
    let v = to_chars(query);
    let (a, b) = trim_bounds(&v, 0, v.len());
    assert(v@.subrange(0, v@.len() as int) =~= query@);
    let ghost t = v@.subrange(a as int, b as int).map_values(|c: char| ascii_lower(c));
    let mut lower: Vec<char> = Vec::new();
    let mut i = a;
    while i < b
        invariant
            a <= i <= b <= v@.len(),
            t == v@.subrange(a as int, b as int).map_values(|c: char| ascii_lower(c)),
            lower@ == t.take(i - a),
        decreases b - i,
    {
        lower.push(lower_char(v[i]));
        assert(lower@ =~= t.take(i + 1 - a));
        i += 1;
    }
    assert(lower@ =~= t);
    let starts_with_card = lower.len() >= 5 && lower[0] == 'c' && lower[1] == 'a' && lower[2] == 'r'
        && lower[3] == 'd' && lower[4] == '_';
    let start: usize = if starts_with_card {
        assert(t.take(5) =~= seq!['c', 'a', 'r', 'd', '_']);
        5
    } else {
        proof {
            if t.len() >= 5 && t.take(5) == seq!['c', 'a', 'r', 'd', '_'] {
                assert(t.take(5)[0] == 'c');
                assert(t.take(5)[1] == 'a');
                assert(t.take(5)[2] == 'r');
                assert(t.take(5)[3] == 'd');
                assert(t.take(5)[4] == '_');
            }
        }
        0
    };
    let mut r = String::new();
    let mut k = start;
    while k < lower.len()
        invariant
            start <= k <= lower@.len(),
            r@ == lower@.subrange(start as int, k as int),
        decreases lower@.len() - k,
    {
        push_char(&mut r, lower[k]);
        assert(r@ =~= lower@.subrange(start as int, k + 1));
        k += 1;
    }
    assert(r@ =~= t.skip(start as int));
    r
}

/// The filter a query asks for (see [`filter_of`]).
pub fn parse_card_id_filter(query: &str) -> (r: CardIdFilter)
    ensures
        r == filter_of(query@),
{
    let normalized = normalize_card_id_query(query);
    let v = to_chars(normalized.as_str());
    if v.len() == 0 {
        return CardIdFilter::Any;
    }
    assert(v@.subrange(0, v@.len() as int) =~= v@);
    match parse_u64(&v, 0, v.len()) {
        Some(card_id) => CardIdFilter::Exact(card_id),
        None => CardIdFilter::Invalid,
    }
}

/// Whether the table shows the card under the filter.
pub fn card_id_matches_filter(card_id: u64, filter: CardIdFilter) -> (r: bool)
    ensures
        r == matches_filter(card_id, filter),
{
    match filter {
        CardIdFilter::Any => true,
        CardIdFilter::Exact(selected) => card_id == selected,
        CardIdFilter::Invalid => false,
    }
}

/// The positions of the rows whose card the filter shows, in order.
pub open spec fn matching_rows(rows: Seq<Transaction>, filter: CardIdFilter) -> Seq<usize>
    decreases rows.len(),
{
    if rows.len() == 0 {
        Seq::empty()
    } else {
        let rest = matching_rows(rows.drop_last(), filter);
        if matches_filter(rows.last().card_id.0, filter) {
            rest.push((rows.len() - 1) as usize)
        } else {
            rest
        }
    }
}

/// The matching positions are increasing positions of rows.
pub proof fn lemma_matching_rows_positions(rows: Seq<Transaction>, filter: CardIdFilter)
    requires
        rows.len() <= usize::MAX,
    ensures
        forall|k: int| 0 <= k < matching_rows(rows, filter).len() ==> #[trigger] matching_rows(rows, filter)[k] < rows.len(),
        forall|j: int, k: int|
            0 <= j < k < matching_rows(rows, filter).len() ==> #[trigger] matching_rows(rows, filter)[j]
                < #[trigger] matching_rows(rows, filter)[k],
    decreases rows.len(),
{
    if rows.len() > 0 {
        let rest = matching_rows(rows.drop_last(), filter);
        lemma_matching_rows_positions(rows.drop_last(), filter);
        if matches_filter(rows.last().card_id.0, filter) {
            let x = (rows.len() - 1) as usize;
            let f = rest.push(x);
            assert forall|k: int| 0 <= k < rest.len() implies #[trigger] rest[k] < x by {
                assert(rest[k] < rows.drop_last().len());
            }
            assert forall|j: int, k: int| 0 <= j < k < f.len() implies #[trigger] f[j] < #[trigger] f[k] by {
                assert(f[j] == rest[j]);
                if k < rest.len() {
                    assert(f[k] == rest[k]);
                    assert(rest[j] < rest[k]);
                } else {
                    assert(rest[j] < x);
                }
            }
        }
    }
}

/// The positions of the rows whose card the filter shows.
pub fn matching_row_indices(rows: &Vec<Transaction>, filter: CardIdFilter) -> (r: Vec<usize>)
    ensures
        r@ == matching_rows(rows@, filter),
{
    let mut r: Vec<usize> = Vec::new();
    let n = rows.len();
    let mut i: usize = 0;
    while i < n
        invariant
            n == rows@.len(),
            i <= n,
            r@ == matching_rows(rows@.take(i as int), filter),
        decreases n - i,
    {
        proof {
            assert(rows@.take(i + 1).drop_last() =~= rows@.take(i as int));
        }
        if card_id_matches_filter(rows[i].card_id.0, filter) {
            r.push(i);
        }
        i += 1;
    }
    assert(rows@.take(n as int) =~= rows@);
    r
}

/// The cards of the rows, each once, in increasing order.
pub fn available_card_ids(rows: &Vec<Transaction>) -> (r: Vec<u64>)
    ensures
        forall|j: int, k: int| 0 <= j < k < r@.len() ==> #[trigger] r@[j] < #[trigger] r@[k],
        forall|c: u64| r@.contains(c) <==> exists|i: int| 0 <= i < rows@.len() && #[trigger] rows@[i].card_id.0 == c,
{
    let mut r: Vec<u64> = Vec::new();
    let n = rows.len();
    let mut i: usize = 0;
    while i < n
        invariant
            n == rows@.len(),
            i <= n,
            forall|j: int, k: int| 0 <= j < k < r@.len() ==> #[trigger] r@[j] < #[trigger] r@[k],
            forall|c: u64| r@.contains(c) <==> exists|j: int| 0 <= j < i && #[trigger] rows@[j].card_id.0 == c,
        decreases n - i,
    {
        let c = rows[i].card_id.0;
        // the place of `c` among the sorted cards
        let mut p: usize = 0;
        while p < r.len() && r[p] < c
            invariant
                p <= r@.len(),
                forall|k: int| 0 <= k < p ==> r@[k] < c,
            decreases r@.len() - p,
        {
            p += 1;
        }
        let ghost before = r@;
        if p < r.len() && r[p] == c {
            proof {
                assert forall|x: u64| r@.contains(x) <==> exists|j: int| 0 <= j < i + 1 && #[trigger] rows@[j].card_id.0 == x by {
                    if x == c {
                        assert(r@[p as int] == c);
                        assert(rows@[i as int].card_id.0 == c);
                    }
                    if exists|j: int| 0 <= j < i + 1 && #[trigger] rows@[j].card_id.0 == x {
                        let j = choose|j: int| 0 <= j < i + 1 && #[trigger] rows@[j].card_id.0 == x;
                        if j == i {
                            assert(r@[p as int] == x);
                        }
                    }
                }
            }
        } else {
            proof {
                if p < before.len() {
                    assert forall|k: int| p <= k < before.len() implies c < before[k] by {
                        assert(before[p as int] <= before[k] || k == p);
                    }
                }
            }
            r.insert(p, c);
            proof {
                assert forall|j: int, k: int| 0 <= j < k < r@.len() implies #[trigger] r@[j] < #[trigger] r@[k] by {
                    if k < p {
                        assert(before[j] < before[k]);
                    } else if j > p {
                        assert(before[j - 1] < before[k - 1]);
                    } else if j < p && k > p {
                        assert(before[j] < c);
                        assert(c < before[k - 1]);
                    }
                }
                assert forall|x: u64| r@.contains(x) <==> exists|j: int| 0 <= j < i + 1 && #[trigger] rows@[j].card_id.0 == x by {
                    if r@.contains(x) {
                        let k = choose|k: int| 0 <= k < r@.len() && r@[k] == x;
                        if k < p {
                            assert(before[k] == x);
                            assert(before.contains(x));
                        } else if k > p {
                            assert(before[k - 1] == x);
                            assert(before.contains(x));
                        } else {
                            assert(rows@[i as int].card_id.0 == x);
                        }
                    }
                    if exists|j: int| 0 <= j < i + 1 && #[trigger] rows@[j].card_id.0 == x {
                        let j = choose|j: int| 0 <= j < i + 1 && #[trigger] rows@[j].card_id.0 == x;
                        if j == i {
                            assert(r@[p as int] == x);
                        } else {
                            assert(before.contains(x));
                            let k = choose|k: int| 0 <= k < before.len() && before[k] == x;
                            if k < p {
                                assert(r@[k] == x);
                            } else {
                                assert(r@[k + 1] == x);
                            }
                        }
                    }
                }
            }
        }
        i += 1;
    }
    r
}

/// Whether `t` occurs in `s` as a run of consecutive characters.
pub open spec fn contains_text(s: Seq<char>, t: Seq<char>) -> bool {
    exists|k: int| 0 <= k && k + t.len() <= s.len() && #[trigger] s.subrange(k, k + t.len()) == t
}

fn occurs_in(s: &Vec<char>, t: &Vec<char>) -> (r: bool)
    ensures
        r == contains_text(s@, t@),
{
    if t.len() > s.len() {
        return false;
    }
    let slen = s.len();
    let last = slen - t.len();
    let mut k: usize = 0;
    while k <= last
        invariant
            slen == s@.len(),
            t@.len() <= s@.len(),
            last == s@.len() - t@.len(),
            k <= last + 1,
            forall|j: int| 0 <= j < k ==> #[trigger] s@.subrange(j, j + t@.len()) != t@,
        decreases last + 1 - k,
    {
        let mut m: usize = 0;
        while m < t.len() && s[k + m] == t[m]
            invariant
                slen == s@.len(),
                k <= last,
                last == s@.len() - t@.len(),
                m <= t@.len(),
                forall|x: int| 0 <= x < m ==> s@[k + x] == t@[x],
            decreases t@.len() - m,
        {
            m += 1;
        }
        if m == t.len() {
            assert(s@.subrange(k as int, k + t@.len()) =~= t@);
            return true;
        }
        assert(s@.subrange(k as int, k + t@.len())[m as int] != t@[m as int]);
        k += 1;
    }
    false
}

/// The cards, among `available`, whose number contains the normalized query.
pub fn card_id_suggestions(available: &Vec<u64>, normalized: &str) -> (r: Vec<u64>)
    ensures
        r@ == available@.filter(|c: u64| normalized@.len() == 0 || contains_text(decimal(c as nat), normalized@)),
{
    let q = to_chars(normalized);
    let ghost pred = |c: u64| normalized@.len() == 0 || contains_text(decimal(c as nat), normalized@);
    let mut r: Vec<u64> = Vec::new();
    let mut i: usize = 0;
    while i < available.len()
        invariant
            i <= available@.len(),
            q@ == normalized@,
            pred == (|c: u64| normalized@.len() == 0 || contains_text(decimal(c as nat), normalized@)),
            r@ == available@.take(i as int).filter(pred),
        decreases available@.len() - i,
    {
        let c = available[i];
        let mut text = String::new();
        push_decimal(&mut text, c);
        let digits = to_chars(text.as_str());
        let keep = q.len() == 0 || occurs_in(&digits, &q);
        proof {
            assert(available@.take(i + 1) =~= available@.take(i as int).push(c));
            available@.take(i as int).lemma_filter_push(c, pred);
        }
        if keep {
            r.push(c);
        }
        i += 1;
    }
    assert(available@.take(available@.len() as int) =~= available@);
    r
}

/// Choosing a card in the suggestions (which writes its number in the query) filters on
/// exactly that card.
pub proof fn lemma_card_number_query(card_id: u64)
    ensures
        filter_of(decimal(card_id as nat)) == CardIdFilter::Exact(card_id),
{
    let d = decimal(card_id as nat);
    lemma_decimal_digits(card_id as nat);
    assert(leading_space(d) == 0);
    assert(trailing_space(d) == 0);
    assert(d.skip(0) =~= d);
    assert(d.take(d.len() as int) =~= d);
    assert(trimmed(d) == d);
    let t = d.map_values(|c: char| ascii_lower(c));
    assert(t =~= d);
    if t.len() >= 5 && t.take(5) == seq!['c', 'a', 'r', 'd', '_'] {
        assert(t.take(5)[0] == 'c');
    }
    assert(normalized_query(d) == d);
    crate::text::lemma_parse_decimal(card_id);
}

} // verus!
