//! The transactions table: which columns show, and in which order the rows come.

use vstd::prelude::*;

use std::cmp::Ordering;

use crate::data::channel::{channel_name, Channel};
use crate::data::country::{country_text, Country};
use crate::data::ip_address::IpAddress;
use crate::data::merchant_category::{category_name, MerchantCategory};
use crate::data::timestamp::rank;
use crate::data::transaction::Transaction;
use crate::text::to_chars;

verus! {

/// The number of columns of the table.
pub const FIELD_COUNT: usize = 11;

/// The order of two integers: negative, zero or positive.
pub open spec fn int_order(a: int, b: int) -> int {
    if a < b {
        -1
    } else if a > b {
        1
    } else {
        0
    }
}

/// The lexicographic order of two texts, character by character (as `String`'s `Ord`).
pub open spec fn text_order(a: Seq<char>, b: Seq<char>) -> int
    decreases a.len(),
{
    if a.len() == 0 {
        if b.len() == 0 {
            0
        } else {
            -1
        }
    } else if b.len() == 0 {
        1
    } else if a[0] < b[0] {
        -1
    } else if a[0] > b[0] {
        1
    } else {
        text_order(a.drop_first(), b.drop_first())
    }
}

/// Missing values first, then by text.
pub open spec fn optional_text_order(a: Option<Seq<char>>, b: Option<Seq<char>>) -> int {
    match (a, b) {
        (None, None) => 0,
        (None, Some(_)) => -1,
        (Some(_), None) => 1,
        (Some(x), Some(y)) => text_order(x, y),
    }
}

/// Missing addresses first, then IPv4 before IPv6, then by value.
pub open spec fn ip_order(a: Option<IpAddress>, b: Option<IpAddress>) -> int {
    match (a, b) {
        (None, None) => 0,
        (None, Some(_)) => -1,
        (Some(_), None) => 1,
        (Some(IpAddress::V4(x)), Some(IpAddress::V4(y))) => int_order(x as int, y as int),
        (Some(IpAddress::V4(_)), Some(IpAddress::V6(_))) => -1,
        (Some(IpAddress::V6(_)), Some(IpAddress::V4(_))) => 1,
        (Some(IpAddress::V6(x)), Some(IpAddress::V6(y))) => int_order(x as int, y as int),
    }
}

pub open spec fn device_text(t: Transaction) -> Option<Seq<char>> {
    match t.device_id {
        Some(d) => Some(d@),
        None => None,
    }
}

/// The order of two rows by the column `field` (columns past the last compare equal).
pub open spec fn field_order(l: Transaction, r: Transaction, field: usize) -> int {
    if field == 0 {
        int_order(l.transaction_id.0 as int, r.transaction_id.0 as int)
    } else if field == 1 {
        int_order(rank(l.timestamp), rank(r.timestamp))
    } else if field == 2 {
        int_order(l.card_id.0 as int, r.card_id.0 as int)
    } else if field == 3 {
        int_order(l.amount as int, r.amount as int)
    } else if field == 4 {
        text_order(l.merchant_name@, r.merchant_name@)
    } else if field == 5 {
        text_order(category_name(l.merchant_category), category_name(r.merchant_category))
    } else if field == 6 {
        text_order(channel_name(l.channel), channel_name(r.channel))
    } else if field == 7 {
        text_order(country_text(l.cardholder_country), country_text(r.cardholder_country))
    } else if field == 8 {
        text_order(country_text(l.merchant_country), country_text(r.merchant_country))
    } else if field == 9 {
        optional_text_order(device_text(l), device_text(r))
    } else if field == 10 {
        ip_order(l.ip_address, r.ip_address)
    } else {
        0
    }
}

/// The order of two rows in the table: by the column, reversed when descending, and by
/// transaction id when the column does not tell them apart.
pub open spec fn row_order(l: Transaction, r: Transaction, field: usize, descending: bool) -> int {
    let o = if descending {
        -field_order(l, r, field)
    } else {
        field_order(l, r, field)
    };
    if o == 0 {
        int_order(l.transaction_id.0 as int, r.transaction_id.0 as int)
    } else {
        o
    }
}

/// Row `a` comes before row `b` in the table (equal rows keep their list order).
pub open spec fn shown_before(rows: Seq<Transaction>, field: usize, descending: bool, a: usize, b: usize) -> bool {
    let o = row_order(rows[a as int], rows[b as int], field, descending);
    o < 0 || (o == 0 && a < b)
}

// ---------------------------------------------------------------------------------------
// the order is a total order

proof fn lemma_text_order(a: Seq<char>, b: Seq<char>, c: Seq<char>)
    ensures
        text_order(a, b) == -text_order(b, a),
        text_order(a, b) == 0 <==> a == b,
        -1 <= text_order(a, b) <= 1,
        text_order(a, b) <= 0 && text_order(b, c) <= 0 ==> text_order(a, c) <= 0,
        text_order(a, b) < 0 && text_order(b, c) <= 0 ==> text_order(a, c) < 0,
        text_order(a, b) <= 0 && text_order(b, c) < 0 ==> text_order(a, c) < 0,
    decreases a.len(),
{
    if a.len() > 0 && b.len() > 0 && c.len() > 0 {
        lemma_text_order(a.drop_first(), b.drop_first(), c.drop_first());
        if a[0] == b[0] && text_order(a.drop_first(), b.drop_first()) == 0 {
            assert(a == seq![a[0]] + a.drop_first());
            assert(b == seq![b[0]] + b.drop_first());
            assert(a =~= b);
        }
    } else if a.len() > 0 && b.len() > 0 {
        lemma_text_order(a.drop_first(), b.drop_first(), c);
        if a[0] == b[0] && text_order(a.drop_first(), b.drop_first()) == 0 {
            assert(a == seq![a[0]] + a.drop_first());
            assert(b == seq![b[0]] + b.drop_first());
            assert(a =~= b);
        }
    } else if a.len() == 0 && b.len() == 0 {
        assert(a =~= b);
    }
}

proof fn lemma_field_order(l: Transaction, m: Transaction, r: Transaction, field: usize)
    ensures
        field_order(l, m, field) == -field_order(m, l, field),
        field_order(l, m, field) <= 0 && field_order(m, r, field) <= 0 ==> field_order(l, r, field) <= 0,
        field_order(l, m, field) < 0 && field_order(m, r, field) <= 0 ==> field_order(l, r, field) < 0,
        field_order(l, m, field) <= 0 && field_order(m, r, field) < 0 ==> field_order(l, r, field) < 0,
{
    if field == 4 {
        lemma_text_order(l.merchant_name@, m.merchant_name@, r.merchant_name@);
    } else if field == 5 {
        lemma_text_order(category_name(l.merchant_category), category_name(m.merchant_category), category_name(r.merchant_category));
    } else if field == 6 {
        lemma_text_order(channel_name(l.channel), channel_name(m.channel), channel_name(r.channel));
    } else if field == 7 {
        lemma_text_order(country_text(l.cardholder_country), country_text(m.cardholder_country), country_text(r.cardholder_country));
    } else if field == 8 {
        lemma_text_order(country_text(l.merchant_country), country_text(m.merchant_country), country_text(r.merchant_country));
    } else if field == 9 {
        match (device_text(l), device_text(m), device_text(r)) {
            (Some(x), Some(y), Some(z)) => lemma_text_order(x, y, z),
            (Some(x), Some(y), None) => lemma_text_order(x, y, y),
            (None, Some(y), Some(z)) => lemma_text_order(y, z, z),
            (Some(x), None, Some(z)) => lemma_text_order(x, z, z),
            _ => {},
        }
    }
}

/// `shown_before` is a strict total order on the positions of the rows.
pub proof fn lemma_shown_before_order(rows: Seq<Transaction>, field: usize, descending: bool, a: usize, b: usize, c: usize)
    requires
        a < rows.len(),
        b < rows.len(),
        c < rows.len(),
    ensures
        !shown_before(rows, field, descending, a, a),
        a != b ==> (shown_before(rows, field, descending, a, b) <==> !shown_before(rows, field, descending, b, a)),
        shown_before(rows, field, descending, a, b) && shown_before(rows, field, descending, b, c) ==> shown_before(rows, field, descending, a, c),
{
    let l = rows[a as int];
    let m = rows[b as int];
    let r = rows[c as int];
    lemma_field_order(l, m, r, field);
    lemma_field_order(m, l, r, field);
    lemma_field_order(l, l, l, field);
    lemma_field_order(m, r, l, field);
}

// ---------------------------------------------------------------------------------------
// comparing

/// The `Ordering` that a negative, zero or positive order stands for.
pub open spec fn ordering_of(o: int) -> Ordering {
    if o < 0 {
        Ordering::Less
    } else if o > 0 {
        Ordering::Greater
    } else {
        Ordering::Equal
    }
}

fn order_of_ints(a: u128, b: u128) -> (r: i8)
    ensures
        r == int_order(a as int, b as int),
        -1 <= r <= 1,
{
    if a < b {
        -1
    } else if a > b {
        1
    } else {
        0
    }
}

fn order_of_texts(a: &str, b: &str) -> (r: i8)
    ensures
        r == text_order(a@, b@),
        -1 <= r <= 1,
{
    let x = to_chars(a);
    let y = to_chars(b);
    let mut i: usize = 0;
    assert(x@.skip(0) =~= x@);
    assert(y@.skip(0) =~= y@);
    while i < x.len() && i < y.len() && x[i] == y[i]
        invariant
            x@ == a@,
            y@ == b@,
            i <= x@.len(),
            i <= y@.len(),
            text_order(a@, b@) == text_order(x@.skip(i as int), y@.skip(i as int)),
        decreases x@.len() - i,
    {
        proof {
            assert(x@.skip(i as int).drop_first() =~= x@.skip(i + 1));
            assert(y@.skip(i as int).drop_first() =~= y@.skip(i + 1));
        }
        i += 1;
    }
    if i == x.len() && i == y.len() {
        0
    } else if i == x.len() {
        -1
    } else if i == y.len() {
        1
    } else if x[i] < y[i] {
        -1
    } else {
        1
    }
}

fn order_of_countries(a: Country, b: Country) -> (r: i8)
    ensures
        r == text_order(country_text(a), country_text(b)),
        -1 <= r <= 1,
{
    let x = a.alpha2();
    let y = b.alpha2();
    order_of_texts(x.as_str(), y.as_str())
}

fn order_of_ips(a: Option<IpAddress>, b: Option<IpAddress>) -> (r: i8)
    ensures
        r == ip_order(a, b),
        -1 <= r <= 1,
{
    match (a, b) {
        (None, None) => 0,
        (None, Some(_)) => -1,
        (Some(_), None) => 1,
        (Some(IpAddress::V4(x)), Some(IpAddress::V4(y))) => order_of_ints(x as u128, y as u128),
        (Some(IpAddress::V4(_)), Some(IpAddress::V6(_))) => -1,
        (Some(IpAddress::V6(_)), Some(IpAddress::V4(_))) => 1,
        (Some(IpAddress::V6(x)), Some(IpAddress::V6(y))) => order_of_ints(x, y),
    }
}

/// The order of two rows by one column, as a number.
fn field_order_of(l: &Transaction, r: &Transaction, field: usize) -> (o: i8)
    ensures
        o == field_order(*l, *r, field),
        -1 <= o <= 1,
{
    if field == 0 {
        order_of_ints(l.transaction_id.0 as u128, r.transaction_id.0 as u128)
    } else if field == 1 {
        let a = l.timestamp.rank_value();
        let b = r.timestamp.rank_value();
        if a < b {
            -1
        } else if a > b {
            1
        } else {
            0
        }
    } else if field == 2 {
        order_of_ints(l.card_id.0 as u128, r.card_id.0 as u128)
    } else if field == 3 {
        order_of_ints(l.amount as u128, r.amount as u128)
    } else if field == 4 {
        order_of_texts(l.merchant_name.as_str(), r.merchant_name.as_str())
    } else if field == 5 {
        order_of_texts(l.merchant_category.debug_name(), r.merchant_category.debug_name())
    } else if field == 6 {
        order_of_texts(l.channel.debug_name(), r.channel.debug_name())
    } else if field == 7 {
        order_of_countries(l.cardholder_country, r.cardholder_country)
    } else if field == 8 {
        order_of_countries(l.merchant_country, r.merchant_country)
    } else if field == 9 {
        match (&l.device_id, &r.device_id) {
            (None, None) => 0,
            (None, Some(_)) => -1,
            (Some(_), None) => 1,
            (Some(x), Some(y)) => order_of_texts(x.as_str(), y.as_str()),
        }
    } else if field == 10 {
        order_of_ips(l.ip_address, r.ip_address)
    } else {
        0
    }
}

/// The order of two rows in the table, as a number (see [`row_order`]).
fn row_order_of(l: &Transaction, r: &Transaction, field: usize, descending: bool) -> (o: i8)
    ensures
        o == row_order(*l, *r, field, descending),
{
    let f = field_order_of(l, r, field);
    let o = if descending {
        -f
    } else {
        f
    };
    if o == 0 {
        order_of_ints(l.transaction_id.0 as u128, r.transaction_id.0 as u128)
    } else {
        o
    }
}

/// The order of two rows in the table (see [`row_order`]).
pub fn compare_rows(left: &Transaction, right: &Transaction, field_idx: usize, descending: bool) -> (r: Ordering)
    ensures
        r == ordering_of(row_order(*left, *right, field_idx, descending)),
{
    let o = row_order_of(left, right, field_idx, descending);
    if o < 0 {
        Ordering::Less
    } else if o > 0 {
        Ordering::Greater
    } else {
        Ordering::Equal
    }
}

/// Puts the positions `indices` (increasing, of rows) in the table's order.
pub fn sort_row_indices(rows: &Vec<Transaction>, indices: &Vec<usize>, field: usize, descending: bool) -> (r: Vec<usize>)
    requires
        forall|k: int| 0 <= k < indices@.len() ==> #[trigger] indices@[k] < rows@.len(),
        forall|j: int, k: int| 0 <= j < k < indices@.len() ==> #[trigger] indices@[j] < #[trigger] indices@[k],
    ensures
        r@.to_multiset() == indices@.to_multiset(),
        forall|k: int| 0 <= k < r@.len() ==> #[trigger] r@[k] < rows@.len(),
        forall|j: int, k: int| 0 <= j < k < r@.len() ==> shown_before(rows@, field, descending, #[trigger] r@[j], #[trigger] r@[k]),
{
    let mut r: Vec<usize> = Vec::new();
    let n = indices.len();
    let mut i: usize = 0;
    assert(indices@.take(0) =~= r@);
    while i < n
        invariant
            n == indices@.len(),
            i <= n,
            forall|k: int| 0 <= k < indices@.len() ==> #[trigger] indices@[k] < rows@.len(),
            forall|j: int, k: int| 0 <= j < k < indices@.len() ==> #[trigger] indices@[j] < #[trigger] indices@[k],
            forall|k: int| 0 <= k < r@.len() ==> #[trigger] r@[k] < rows@.len(),
            r@.to_multiset() == indices@.take(i as int).to_multiset(),
            forall|j: int, k: int| 0 <= j < k < r@.len() ==> shown_before(rows@, field, descending, #[trigger] r@[j], #[trigger] r@[k]),
        decreases n - i,
    {
        let x = indices[i];
        let mut p: usize = 0;
        while p < r.len() && row_before(rows, field, descending, r[p], x)
            invariant
                p <= r@.len(),
                x < rows@.len(),
                forall|k: int| 0 <= k < r@.len() ==> #[trigger] r@[k] < rows@.len(),
                forall|k: int| 0 <= k < p ==> shown_before(rows@, field, descending, #[trigger] r@[k], x),
            decreases r@.len() - p,
        {
            p += 1;
        }
        let ghost before = r@;
        proof {
            if p < before.len() {
                assert(!shown_before(rows@, field, descending, before[p as int], x));
                assert forall|k: int| p <= k < before.len() implies shown_before(rows@, field, descending, x, #[trigger] before[k]) by {
                    lemma_shown_before_order(rows@, field, descending, before[p as int], x, before[k]);
                    lemma_shown_before_order(rows@, field, descending, x, before[p as int], before[k]);
                    if before[p as int] == x {
                        // x is not in `before`: the positions are distinct
                        assert(false) by {
                            lemma_not_yet_listed(indices@, i as int, before);
                        }
                    }
                }
            }
        }
        r.insert(p, x);
        proof {
            vstd::seq_lib::to_multiset_insert(before, p as int, x);
            vstd::seq_lib::to_multiset_build(indices@.take(i as int), x);
            assert(indices@.take(i + 1) =~= indices@.take(i as int).push(x));
            assert forall|j: int, k: int| 0 <= j < k < r@.len() implies shown_before(rows@, field, descending, #[trigger] r@[j], #[trigger] r@[k]) by {
                if k < p {
                    assert(shown_before(rows@, field, descending, before[j], before[k]));
                } else if j > p {
                    assert(shown_before(rows@, field, descending, before[j - 1], before[k - 1]));
                } else if j < p && k > p {
                    assert(shown_before(rows@, field, descending, before[j], x));
                    assert(shown_before(rows@, field, descending, x, before[k - 1]));
                    lemma_shown_before_order(rows@, field, descending, before[j], x, before[k - 1]);
                }
            }
        }
        i += 1;
    }
    assert(indices@.take(n as int) =~= indices@);
    r
}

/// The positions taken so far are all different from the next one.
proof fn lemma_not_yet_listed(indices: Seq<usize>, i: int, listed: Seq<usize>)
    requires
        0 <= i < indices.len(),
        forall|j: int, k: int| 0 <= j < k < indices.len() ==> #[trigger] indices[j] < #[trigger] indices[k],
        listed.to_multiset() == indices.take(i).to_multiset(),
    ensures
        !listed.contains(indices[i]),
{
    broadcast use vstd::seq_lib::group_to_multiset_ensures;

    if listed.contains(indices[i]) {
        assert(listed.to_multiset().count(indices[i]) > 0);
        assert(indices.take(i).to_multiset().count(indices[i]) > 0);
        assert(indices.take(i).contains(indices[i]));
        let j = choose|j: int| 0 <= j < indices.take(i).len() && indices.take(i)[j] == indices[i];
        assert(indices[j] < indices[i]);
    }
}

/// Whether row `a` comes before row `b` in the table.
fn row_before(rows: &Vec<Transaction>, field: usize, descending: bool, a: usize, b: usize) -> (r: bool)
    requires
        a < rows@.len(),
        b < rows@.len(),
    ensures
        r == shown_before(rows@, field, descending, a, b),
{
    let o = row_order_of(&rows[a], &rows[b], field, descending);
    o < 0 || (o == 0 && a < b)
}

// ---------------------------------------------------------------------------------------
// columns and sorting state

/// The sort the table applies: by a column, ascending or descending; list order when none.
#[derive(Debug, Clone, Copy, PartialEq, Eq, Structural)]
pub struct TableSortState {
    pub field_idx: Option<usize>,
    pub descending: bool,
}

impl TableSortState {
    /// A click on the header of column `field`: the same column flips the direction,
    /// another one sorts by it ascending.
    pub fn click_header(&mut self, field: usize)
        ensures
            final(self).field_idx == Some(field),
            final(self).descending == (old(self).field_idx == Some(field) && !old(self).descending),
    {
        let same = match self.field_idx {
            Some(f) => f == field,
            None => false,
        };
        if same {
            self.descending = !self.descending;
        } else {
            self.field_idx = Some(field);
            self.descending = false;
        }
    }
}

/// Keeps at least one column visible: the first one when none is.
pub fn ensure_visible_column(visible: &mut [bool; 11])
    ensures
        (exists|k: int| 0 <= k < 11 && old(visible)@[k]) ==> final(visible)@ == old(visible)@,
        !(exists|k: int| 0 <= k < 11 && old(visible)@[k]) ==> final(visible)@ == old(visible)@.update(0, true),
{
    let mut k: usize = 0;
    while k < 11
        invariant
            k <= 11,
            visible@ == old(visible)@,
            forall|j: int| 0 <= j < k ==> !visible@[j],
        decreases 11 - k,
    {
        if visible[k] {
            return;
        }
        k += 1;
    }
    visible[0] = true;
}

/// The columns to show, in order.
pub fn visible_fields(visible: &[bool; 11]) -> (r: Vec<usize>)
    ensures
        r@ == Seq::new(11, |k: int| k as usize).filter(|k: usize| visible@[k as int]),
{
    let ghost all = Seq::new(11, |k: int| k as usize);
    let ghost pred = |k: usize| visible@[k as int];
    let mut r: Vec<usize> = Vec::new();
    let mut k: usize = 0;
    while k < 11
        invariant
            k <= 11,
            all == Seq::new(11, |k: int| k as usize),
            pred == (|k: usize| visible@[k as int]),
            r@ == all.take(k as int).filter(pred),
        decreases 11 - k,
    {
        proof {
            assert(all.take(k + 1) =~= all.take(k as int).push(k));
            all.take(k as int).lemma_filter_push(k, pred);
        }
        if visible[k] {
            r.push(k);
        }
        k += 1;
    }
    assert(all.take(11) =~= all);
    r
}

/// The rows the table shows, in its order: those whose card the filter keeps, sorted when
/// a column is chosen.
pub fn table_row_indices(rows: &Vec<Transaction>, filter: super::card_filter::CardIdFilter, sort: TableSortState) -> (r: Vec<usize>)
    ensures
        r@.to_multiset() == super::card_filter::matching_rows(rows@, filter).to_multiset(),
        sort.field_idx is None ==> r@ == super::card_filter::matching_rows(rows@, filter),
        sort.field_idx matches Some(field) ==> forall|j: int, k: int|
            0 <= j < k < r@.len() ==> shown_before(rows@, field, sort.descending, #[trigger] r@[j], #[trigger] r@[k]),
{
    let indices = super::card_filter::matching_row_indices(rows, filter);
    let total = rows.len();
    proof {
        super::card_filter::lemma_matching_rows_positions(rows@, filter);
    }
    match sort.field_idx {
        Some(field) => sort_row_indices(rows, &indices, field, sort.descending),
        None => indices,
    }
}

} // verus!
