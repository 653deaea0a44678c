//! IP addresses: reading them in the standard text forms and writing them back.
//!
//! IPv4 is four decimal octets separated by dots (no leading zeros). IPv6 is eight groups of
//! one to four hexadecimal digits separated by colons, where one `::` may stand for one or
//! more zero groups and the last two groups may be written as an IPv4 address.

use vstd::prelude::*;

use crate::error::{CsvErrorView, ParseCsvError};
use crate::text::{all_digits, decimal, digits_value, is_digit, push_char, push_decimal, to_chars};

verus! {

/// An IPv4 or IPv6 address, held as its bits.
#[derive(Debug, Clone, Copy, PartialEq, Eq, Structural)]
pub enum IpAddress {
    V4(u32),
    V6(u128),
}

// ---------------------------------------------------------------------------------------
// splitting a text at a separator

/// The pieces of `s` between the occurrences of `sep` (`str::split`): one more than
/// there are separators, empty pieces included.
pub open spec fn pieces(s: Seq<char>, sep: char) -> Seq<Seq<char>>
    decreases s.len(),
{
    if s.len() == 0 {
        seq![Seq::empty()]
    } else {
        let p = pieces(s.drop_last(), sep);
        if s.last() == sep {
            p.push(Seq::empty())
        } else {
            p.update(p.len() - 1, p.last().push(s.last()))
        }
    }
}

pub proof fn lemma_pieces_nonempty(s: Seq<char>, sep: char)
    ensures
        pieces(s, sep).len() >= 1,
    decreases s.len(),
{
    if s.len() > 0 {
        lemma_pieces_nonempty(s.drop_last(), sep);
    }
}

/// The pieces of `v[from..to]` between the occurrences of `sep`, as index ranges.
pub fn piece_bounds(v: &Vec<char>, from: usize, to: usize, sep: char) -> (r: Vec<(usize, usize)>)
    requires
        from <= to <= v@.len(),
    ensures
        r@.len() == pieces(v@.subrange(from as int, to as int), sep).len(),
        forall|k: int|
            0 <= k < r@.len() ==> {
                &&& from <= (#[trigger] r@[k]).0 <= r@[k].1 <= to
                &&& v@.subrange(r@[k].0 as int, r@[k].1 as int) == pieces(
                    v@.subrange(from as int, to as int),
                    sep,
                )[k]
            },
{
    let mut r: Vec<(usize, usize)> = Vec::new();
    r.push((from, from));
    let mut i = from;
    proof {
        assert(v@.subrange(from as int, from as int) =~= Seq::<char>::empty());
    }
    while i < to
        invariant
            from <= i <= to <= v@.len(),
            r@.len() == pieces(v@.subrange(from as int, i as int), sep).len(),
            r@.len() >= 1,
            r@[r@.len() - 1].1 == i,
            forall|k: int|
                0 <= k < r@.len() ==> {
                    &&& from <= (#[trigger] r@[k]).0 <= r@[k].1 <= i
                    &&& v@.subrange(r@[k].0 as int, r@[k].1 as int) == pieces(
                        v@.subrange(from as int, i as int),
                        sep,
                    )[k]
                },
        decreases to - i,
    {
        let ghost before = r@;
        let ghost s = v@.subrange(from as int, i + 1);
        assert(s.drop_last() =~= v@.subrange(from as int, i as int));
        if v[i] == sep {
            r.push((i + 1, i + 1));
            proof {
                assert(v@.subrange(i + 1, i + 1) =~= Seq::<char>::empty());
                assert forall|k: int| 0 <= k < r@.len() implies {
                    &&& from <= (#[trigger] r@[k]).0 <= r@[k].1 <= i + 1
                    &&& v@.subrange(r@[k].0 as int, r@[k].1 as int) == pieces(s, sep)[k]
                } by {
                    if k < before.len() {
                        assert(r@[k] == before[k]);
                    }
                }
            }
        } else {
            let last = r.len() - 1;
            let (a, _) = r[last];
            r.set(last, (a, i + 1));
            proof {
                let p = pieces(v@.subrange(from as int, i as int), sep);
                assert(v@.subrange(a as int, i + 1) =~= v@.subrange(a as int, i as int).push(v@[i as int]));
                assert forall|k: int| 0 <= k < r@.len() implies {
                    &&& from <= (#[trigger] r@[k]).0 <= r@[k].1 <= i + 1
                    &&& v@.subrange(r@[k].0 as int, r@[k].1 as int) == pieces(s, sep)[k]
                } by {
                    if k < last {
                        assert(r@[k] == before[k]);
                    } else {
                        assert(p[k] == p.last());
                    }
                }
            }
        }
        i += 1;
    }
    r
}

// ---------------------------------------------------------------------------------------
// numbers

pub open spec fn is_hex_digit(c: char) -> bool {
    is_digit(c) || ('a' <= c && c <= 'f') || ('A' <= c && c <= 'F')
}

pub open spec fn hex_digit_value(c: char) -> nat {
    if is_digit(c) {
        (c as nat - '0' as nat) as nat
    } else if 'a' <= c && c <= 'f' {
        (c as nat - 'a' as nat + 10) as nat
    } else {
        (c as nat - 'A' as nat + 10) as nat
    }
}

/// The number spelled by a sequence of hexadecimal digits.
pub open spec fn hex_value(s: Seq<char>) -> nat
    decreases s.len(),
{
    if s.len() == 0 {
        0
    } else {
        hex_value(s.drop_last()) * 16 + hex_digit_value(s.last())
    }
}

pub open spec fn all_hex(s: Seq<char>) -> bool {
    forall|i: int| 0 <= i < s.len() ==> is_hex_digit(#[trigger] s[i])
}

/// An IPv6 group: one to four hexadecimal digits.
pub open spec fn hex_group(s: Seq<char>) -> Option<u16> {
    if 1 <= s.len() <= 4 && all_hex(s) {
        Some(hex_value(s) as u16)
    } else {
        None
    }
}

/// An IPv4 octet: one to three decimal digits, no leading zero, at most 255.
pub open spec fn octet(s: Seq<char>) -> Option<u8> {
    if 1 <= s.len() <= 3 && all_digits(s) && (s.len() == 1 || s[0] != '0') && digits_value(s) <= 255 {
        Some(digits_value(s) as u8)
    } else {
        None
    }
}

proof fn lemma_hex_value_bound(s: Seq<char>)
    requires
        all_hex(s),
    ensures
        hex_value(s) < vstd::arithmetic::power::pow(16, s.len()),
    decreases s.len(),
{
    vstd::arithmetic::power::lemma_pow_positive(16, s.len());
    if s.len() > 0 {
        lemma_hex_value_bound(s.drop_last());
        vstd::arithmetic::power::lemma_pow_adds(16, (s.len() - 1) as nat, 1);
        vstd::arithmetic::power::lemma_pow1(16);
        let h = hex_value(s.drop_last());
        let p = vstd::arithmetic::power::pow(16, (s.len() - 1) as nat);
        assert(hex_digit_value(s.last()) < 16);
        assert(h * 16 + hex_digit_value(s.last()) < p * 16) by (nonlinear_arith)
            requires
                h < p,
                hex_digit_value(s.last()) < 16,
        ;
    }
}

/// Reads the hexadecimal group `v[from..to]`.
fn read_hex_group(v: &Vec<char>, from: usize, to: usize) -> (r: Option<u16>)
    requires
        from <= to <= v@.len(),
    ensures
        r == hex_group(v@.subrange(from as int, to as int)),
{
    let ghost s = v@.subrange(from as int, to as int);
    if to - from < 1 || to - from > 4 {
        return None;
    }
    let mut value: u32 = 0;
    let mut i = from;
    proof {
        vstd::arithmetic::power::lemma_pow0(16);
    }
    while i < to
        invariant
            from <= i <= to <= v@.len(),
            to - from <= 4,
            s == v@.subrange(from as int, to as int),
            all_hex(v@.subrange(from as int, i as int)),
            value == hex_value(v@.subrange(from as int, i as int)),
            value < vstd::arithmetic::power::pow(16, (i - from) as nat),
        decreases to - i,
    {
        let c = v[i];
        let ghost pre = v@.subrange(from as int, i as int);
        let ghost next = v@.subrange(from as int, i + 1);
        assert(next.drop_last() =~= pre);
        let d: u32 = if '0' <= c && c <= '9' {
            c as u32 - '0' as u32
        } else if 'a' <= c && c <= 'f' {
            c as u32 - 'a' as u32 + 10
        } else if 'A' <= c && c <= 'F' {
            c as u32 - 'A' as u32 + 10
        } else {
            assert(!is_hex_digit(s[i - from]));
            return None;
        };
        proof {
            vstd::arithmetic::power::lemma_pow_adds(16, (i - from) as nat, 1);
            vstd::arithmetic::power::lemma_pow1(16);
            reveal_with_fuel(vstd::arithmetic::power::pow, 5);
            assert(vstd::arithmetic::power::pow(16, 4) == 65536);
            vstd::arithmetic::power::lemma_pow_increases(16, (i - from) as nat, 4);
            assert(value * 16 + d < vstd::arithmetic::power::pow(16, (i - from) as nat) * 16) by (nonlinear_arith)
                requires
                    value < vstd::arithmetic::power::pow(16, (i - from) as nat),
                    d < 16,
            ;
        }
        value = value * 16 + d;
        i += 1;
    }
    proof {
        assert(s =~= v@.subrange(from as int, i as int));
        reveal_with_fuel(vstd::arithmetic::power::pow, 5);
        vstd::arithmetic::power::lemma_pow_increases(16, (to - from) as nat, 4);
    }
    Some(value as u16)
}

/// Reads the decimal octet `v[from..to]`.
fn read_octet(v: &Vec<char>, from: usize, to: usize) -> (r: Option<u8>)
    requires
        from <= to <= v@.len(),
    ensures
        r == octet(v@.subrange(from as int, to as int)),
{
    let ghost s = v@.subrange(from as int, to as int);
    if to - from < 1 || to - from > 3 {
        return None;
    }
    if to - from > 1 && v[from] == '0' {
        return None;
    }
    let mut value: u32 = 0;
    let mut i = from;
    while i < to
        invariant
            from <= i <= to <= v@.len(),
            to - from <= 3,
            s == v@.subrange(from as int, to as int),
            all_digits(v@.subrange(from as int, i as int)),
            value == digits_value(v@.subrange(from as int, i as int)),
            value < 1000,
            i - from <= 2 ==> value < 100,
            i - from <= 1 ==> value < 10,
            i == from ==> value == 0,
        decreases to - i,
    {
        let c = v[i];
        let ghost pre = v@.subrange(from as int, i as int);
        let ghost next = v@.subrange(from as int, i + 1);
        assert(next.drop_last() =~= pre);
        if !('0' <= c && c <= '9') {
            assert(!is_digit(s[i - from]));
            return None;
        }
        value = value * 10 + (c as u32 - '0' as u32);
        i += 1;
    }
    assert(s =~= v@.subrange(from as int, i as int));
    if value > 255 {
        return None;
    }
    Some(value as u8)
}

// ---------------------------------------------------------------------------------------
// IPv4

/// The value of the four octets `a.b.c.d`.
pub open spec fn octets_value(a: u8, b: u8, c: u8, d: u8) -> u32 {
    (a as int * 0x100_0000 + b as int * 0x1_0000 + c as int * 0x100 + d as int) as u32
}

/// The IPv4 address `s` spells, if it spells one.
pub open spec fn ipv4_from_text(s: Seq<char>) -> Option<u32> {
    let p = pieces(s, '.');
    if p.len() == 4 && octet(p[0]) is Some && octet(p[1]) is Some && octet(p[2]) is Some
        && octet(p[3]) is Some {
        Some(octets_value(octet(p[0])->0, octet(p[1])->0, octet(p[2])->0, octet(p[3])->0))
    } else {
        None
    }
}

/// Reads an IPv4 address from `v[from..to]`.
fn read_ipv4(v: &Vec<char>, from: usize, to: usize) -> (r: Option<u32>)
    requires
        from <= to <= v@.len(),
    ensures
        r == ipv4_from_text(v@.subrange(from as int, to as int)),
{
    let parts = piece_bounds(v, from, to, '.');
    if parts.len() != 4 {
        return None;
    }
    let (a0, a1) = parts[0];
    let (b0, b1) = parts[1];
    let (c0, c1) = parts[2];
    let (d0, d1) = parts[3];
    let a = match read_octet(v, a0, a1) {
        Some(x) => x,
        None => return None,
    };
    let b = match read_octet(v, b0, b1) {
        Some(x) => x,
        None => return None,
    };
    let c = match read_octet(v, c0, c1) {
        Some(x) => x,
        None => return None,
    };
    let d = match read_octet(v, d0, d1) {
        Some(x) => x,
        None => return None,
    };
    Some(a as u32 * 0x100_0000 + b as u32 * 0x1_0000 + c as u32 * 0x100 + d as u32)
}

// ---------------------------------------------------------------------------------------
// IPv6

/// Every piece is an IPv6 group; their values.
pub open spec fn hex_groups(parts: Seq<Seq<char>>) -> Option<Seq<u16>>
    decreases parts.len(),
{
    if parts.len() == 0 {
        Some(Seq::empty())
    } else {
        match (hex_groups(parts.drop_last()), hex_group(parts.last())) {
            (Some(g), Some(x)) => Some(g.push(x)),
            _ => None,
        }
    }
}

/// The groups of the pieces, the last of which may be an IPv4 address standing for two groups.
pub open spec fn groups_with_ipv4(parts: Seq<Seq<char>>) -> Option<Seq<u16>> {
    if parts.len() > 0 && ipv4_from_text(parts.last()) is Some {
        match hex_groups(parts.drop_last()) {
            Some(g) => {
                let a = ipv4_from_text(parts.last())->0;
                Some(g.push((a / 0x1_0000) as u16).push((a % 0x1_0000) as u16))
            },
            None => None,
        }
    } else {
        hex_groups(parts)
    }
}

/// A `::` starts at position `k` of `s`.
pub open spec fn double_colon_at(s: Seq<char>, k: int) -> bool {
    0 <= k && k + 1 < s.len() && s[k] == ':' && s[k + 1] == ':'
}

/// The eight groups of the IPv6 address `s` spells, if it spells one.
pub open spec fn ipv6_groups(s: Seq<char>) -> Option<Seq<u16>> {
    if exists|k: int| double_colon_at(s, k) {
        let k = choose|k: int| double_colon_at(s, k);
        if forall|j: int| double_colon_at(s, j) ==> j == k {
            let head = s.take(k);
            let tail = s.skip(k + 2);
            let h = if head.len() == 0 {
                Some(Seq::<u16>::empty())
            } else {
                hex_groups(pieces(head, ':'))
            };
            let t = if tail.len() == 0 {
                Some(Seq::<u16>::empty())
            } else {
                groups_with_ipv4(pieces(tail, ':'))
            };
            match (h, t) {
                (Some(hg), Some(tg)) => if hg.len() + tg.len() <= 7 {
                    Some(hg + Seq::new((8 - hg.len() - tg.len()) as nat, |_i: int| 0u16) + tg)
                } else {
                    None
                },
                _ => None,
            }
        } else {
            None
        }
    } else {
        match groups_with_ipv4(pieces(s, ':')) {
            Some(g) => if g.len() == 8 {
                Some(g)
            } else {
                None
            },
            None => None,
        }
    }
}

/// The number whose base-65536 digits are the groups, most significant first.
pub open spec fn groups_value(g: Seq<u16>) -> nat
    decreases g.len(),
{
    if g.len() == 0 {
        0
    } else {
        groups_value(g.drop_last()) * 0x1_0000 + g.last() as nat
    }
}

/// The IPv6 address `s` spells, if it spells one.
pub open spec fn ipv6_from_text(s: Seq<char>) -> Option<u128> {
    match ipv6_groups(s) {
        Some(g) => Some(groups_value(g) as u128),
        None => None,
    }
}

/// The address `s` spells: IPv4 when it is one, IPv6 otherwise.
pub open spec fn ip_from_text(s: Seq<char>) -> Option<IpAddress> {
    match ipv4_from_text(s) {
        Some(a) => Some(IpAddress::V4(a)),
        None => match ipv6_from_text(s) {
            Some(v) => Some(IpAddress::V6(v)),
            None => None,
        },
    }
}

/// Reads the groups of `v[from..to]`, whose last piece may be an IPv4 address when
/// `with_ipv4` holds.
fn read_groups(v: &Vec<char>, from: usize, to: usize, with_ipv4: bool) -> (r: Option<Vec<u16>>)
    requires
        from <= to <= v@.len(),
    ensures
        match r {
            Some(g) => (if with_ipv4 {
                groups_with_ipv4(pieces(v@.subrange(from as int, to as int), ':'))
            } else {
                hex_groups(pieces(v@.subrange(from as int, to as int), ':'))
            }) == Some(g@),
            None => (if with_ipv4 {
                groups_with_ipv4(pieces(v@.subrange(from as int, to as int), ':'))
            } else {
                hex_groups(pieces(v@.subrange(from as int, to as int), ':'))
            }) is None,
        },
{
    let ghost parts_spec = pieces(v@.subrange(from as int, to as int), ':');
    let parts = piece_bounds(v, from, to, ':');
    proof {
        lemma_pieces_nonempty(v@.subrange(from as int, to as int), ':');
    }
    let n = parts.len();
    let (l0, l1) = parts[n - 1];
    let last_v4 = if with_ipv4 {
        read_ipv4(v, l0, l1)
    } else {
        None
    };
    assert(v@.subrange(l0 as int, l1 as int) == parts_spec.last());
    let hex_count = match last_v4 {
        Some(_) => n - 1,
        None => n,
    };
    let mut g: Vec<u16> = Vec::new();
    let mut k: usize = 0;
    assert(parts_spec.take(0) =~= Seq::<Seq<char>>::empty());
    while k < hex_count
        invariant
            n == parts@.len(),
            n == parts_spec.len(),
            hex_count <= n,
            k <= hex_count,
            forall|j: int|
                0 <= j < parts@.len() ==> {
                    &&& from <= (#[trigger] parts@[j]).0 <= parts@[j].1 <= to
                    &&& v@.subrange(parts@[j].0 as int, parts@[j].1 as int) == parts_spec[j]
                },
            to <= v@.len(),
            hex_groups(parts_spec.take(k as int)) == Some(g@),
            n >= 1,
            parts_spec == pieces(v@.subrange(from as int, to as int), ':'),
            last_v4 is Some ==> hex_count == n - 1,
            last_v4 is None ==> hex_count == n,
            last_v4 == (if with_ipv4 {
                ipv4_from_text(parts_spec.last())
            } else {
                None
            }),
        decreases hex_count - k,
    {
        let (a, b) = parts[k];
        proof {
            assert(parts_spec.take(k + 1).drop_last() =~= parts_spec.take(k as int));
            assert(parts_spec.take(k + 1).last() == parts_spec[k as int]);
        }
        match read_hex_group(v, a, b) {
            Some(x) => {
                g.push(x);
            },
            None => {
                proof {
                    assert(v@.subrange(a as int, b as int) == parts_spec[k as int]);
                    assert(hex_group(parts_spec[k as int]) is None);
                    assert(hex_groups(parts_spec.take(k + 1)) is None);
                    lemma_hex_groups_prefix(parts_spec, hex_count as int, k + 1);
                    if with_ipv4 && last_v4 is Some {
                        assert(parts_spec.take(hex_count as int) =~= parts_spec.drop_last());
                        assert(hex_groups(parts_spec.drop_last()) is None);
                        assert(groups_with_ipv4(parts_spec) is None);
                    } else {
                        assert(parts_spec.take(n as int) =~= parts_spec);
                        assert(hex_groups(parts_spec) is None);
                        if with_ipv4 {
                            assert(groups_with_ipv4(parts_spec) is None);
                        }
                    }
                }
                return None;
            },
        }
        k += 1;
    }
    match last_v4 {
        Some(a) => {
            assert(parts_spec.take(hex_count as int) =~= parts_spec.drop_last());
            g.push((a / 0x1_0000) as u16);
            g.push((a % 0x1_0000) as u16);
        },
        None => {
            assert(parts_spec.take(n as int) =~= parts_spec);
        },
    }
    Some(g)
}

/// When the first `k` pieces are not all groups, the first `m >= k` are not either.
proof fn lemma_hex_groups_prefix(parts: Seq<Seq<char>>, m: int, k: int)
    requires
        0 <= k <= m <= parts.len(),
        hex_groups(parts.take(k)) is None,
    ensures
        hex_groups(parts.take(m)) is None,
    decreases m - k,
{
    if m > k {
        lemma_hex_groups_prefix(parts, m - 1, k);
        assert(parts.take(m).drop_last() =~= parts.take(m - 1));
    }
}

proof fn lemma_groups_value_bound(g: Seq<u16>)
    ensures
        groups_value(g) < vstd::arithmetic::power::pow(0x1_0000, g.len()),
    decreases g.len(),
{
    vstd::arithmetic::power::lemma_pow_positive(0x1_0000, g.len());
    if g.len() > 0 {
        lemma_groups_value_bound(g.drop_last());
        vstd::arithmetic::power::lemma_pow_adds(0x1_0000, (g.len() - 1) as nat, 1);
        vstd::arithmetic::power::lemma_pow1(0x1_0000);
        let h = groups_value(g.drop_last());
        let p = vstd::arithmetic::power::pow(0x1_0000, (g.len() - 1) as nat);
        assert(h * 0x1_0000 + g.last() < p * 0x1_0000) by (nonlinear_arith)
            requires
                h < p,
                g.last() < 0x1_0000,
        ;
    }
}

/// The value of eight groups.
fn value_of_groups(g: &Vec<u16>) -> (r: u128)
    requires
        g@.len() == 8,
    ensures
        r == groups_value(g@),
{
    let mut value: u128 = 0;
    let mut k: usize = 0;
    proof {
        assert(g@.take(0) =~= Seq::<u16>::empty());
        reveal_with_fuel(vstd::arithmetic::power::pow, 9);
    }
    while k < 8
        invariant
            g@.len() == 8,
            k <= 8,
            value == groups_value(g@.take(k as int)),
        decreases 8 - k,
    {
        proof {
            assert(g@.take(k + 1).drop_last() =~= g@.take(k as int));
            lemma_groups_value_bound(g@.take(k as int));
            vstd::arithmetic::power::lemma_pow_increases(0x1_0000, k as nat, 7);
            reveal_with_fuel(vstd::arithmetic::power::pow, 9);
            assert(value * 0x1_0000 + g@[k as int] < 0x1_0000_0000_0000_0000_0000_0000_0000_0000) by (nonlinear_arith)
                requires
                    value < 0x1_0000_0000_0000_0000_0000_0000_0000,
                    g@[k as int] < 0x1_0000,
            ;
        }
        value = value * 0x1_0000 + g[k] as u128;
        k += 1;
    }
    assert(g@.take(8) =~= g@);
    value
}

/// Finds the first `::` of `v`, and whether it is the only one.
fn find_double_colon(v: &Vec<char>) -> (r: Option<(usize, bool)>)
    ensures
        match r {
            Some((k, only)) => {
                &&& double_colon_at(v@, k as int)
                &&& only == forall|j: int| double_colon_at(v@, j) ==> j == k
            },
            None => !exists|k: int| double_colon_at(v@, k),
        },
{
    let n = v.len();
    if n < 2 {
        return None;
    }
    let mut first: Option<usize> = None;
    let mut i: usize = 0;
    while i < n - 1
        invariant
            n == v@.len(),
            n >= 2,
            i <= n - 1,
            match first {
                Some(k) => double_colon_at(v@, k as int) && k < i && forall|j: int|
                    0 <= j < i && double_colon_at(v@, j) ==> j == k,
                None => forall|j: int| 0 <= j < i ==> !double_colon_at(v@, j),
            },
        decreases n - i,
    {
        if v[i] == ':' && v[i + 1] == ':' {
            match first {
                Some(k) => {
                    assert(double_colon_at(v@, i as int));
                    return Some((k, false));
                },
                None => {
                    first = Some(i);
                },
            }
        }
        i += 1;
    }
    match first {
        Some(k) => Some((k, true)),
        None => None,
    }
}

/// Reads an IPv6 address from the whole of `v`.
fn read_ipv6(v: &Vec<char>) -> (r: Option<u128>)
    ensures
        r == ipv6_from_text(v@),
{
    let n = v.len();
    let groups = match find_double_colon(v) {
        Some((k, only)) => {
            if !only {
                return None;
            }
            assert(v@.subrange(0, k as int) =~= v@.take(k as int));
            assert(v@.subrange(k + 2, n as int) =~= v@.skip(k + 2));
            let head: Vec<u16> = if k == 0 {
                Vec::new()
            } else {
                match read_groups(v, 0, k, false) {
                    Some(g) => g,
                    None => return None,
                }
            };
            let tail: Vec<u16> = if k + 2 == n {
                Vec::new()
            } else {
                match read_groups(v, k + 2, n, true) {
                    Some(g) => g,
                    None => return None,
                }
            };
            if head.len() > 7 || tail.len() > 7 || head.len() + tail.len() > 7 {
                return None;
            }
            let mut g = head;
            let zeros = 8 - g.len() - tail.len();
            let ghost hg = g@;
            let mut z: usize = 0;
            while z < zeros
                invariant
                    z <= zeros,
                    g@ == hg + Seq::new(z as nat, |_i: int| 0u16),
                decreases zeros - z,
            {
                g.push(0);
                assert(g@ =~= hg + Seq::new((z + 1) as nat, |_i: int| 0u16));
                z += 1;
            }
            let mut t: usize = 0;
            let ghost zg = g@;
            while t < tail.len()
                invariant
                    t <= tail@.len(),
                    g@ == zg + tail@.take(t as int),
                decreases tail@.len() - t,
            {
                g.push(tail[t]);
                assert(g@ =~= zg + tail@.take(t + 1));
                t += 1;
            }
            assert(tail@.take(tail@.len() as int) =~= tail@);
            g
        },
        None => {
            assert(v@.subrange(0, n as int) =~= v@);
            match read_groups(v, 0, n, true) {
                Some(g) => {
                    if g.len() != 8 {
                        return None;
                    }
                    g
                },
                None => return None,
            }
        },
    };
    Some(value_of_groups(&groups))
}

/// Reads an IP address (`IpAddr::from_str`).
pub fn parse_ip(value: &str) -> (r: Option<IpAddress>)
    ensures
        r == ip_from_text(value@),
{
    let v = to_chars(value);
    assert(v@.subrange(0, v@.len() as int) =~= v@);
    match read_ipv4(&v, 0, v.len()) {
        Some(a) => Some(IpAddress::V4(a)),
        None => match read_ipv6(&v) {
            Some(x) => Some(IpAddress::V6(x)),
            None => None,
        },
    }
}

// ---------------------------------------------------------------------------------------
// writing addresses

/// The IPv4 address `a` as `a.b.c.d`.
pub open spec fn ipv4_text(a: u32) -> Seq<char> {
    decimal((a / 0x100_0000) as nat) + seq!['.'] + decimal(((a / 0x1_0000) % 0x100) as nat) + seq!['.']
        + decimal(((a / 0x100) % 0x100) as nat) + seq!['.'] + decimal((a % 0x100) as nat)
}

/// The lowercase hexadecimal digit of `d`.
pub open spec fn hex_char(d: nat) -> char {
    if d < 10 {
        ('0' as nat + d) as char
    } else {
        ('a' as nat + d - 10) as char
    }
}

/// `n` in lowercase hexadecimal, without leading zeros (`"0"` for zero).
pub open spec fn hex_text(n: nat) -> Seq<char>
    decreases n,
{
    if n < 16 {
        seq![hex_char(n)]
    } else {
        hex_text(n / 16).push(hex_char(n % 16))
    }
}

/// The eight 16-bit groups of `v`, most significant first.
pub open spec fn segments(v: u128) -> Seq<u16> {
    Seq::new(8, |k: int| ((v as int / vstd::arithmetic::power::pow(0x1_0000, (7 - k) as nat)) % 0x1_0000) as u16)
}

/// The groups in hexadecimal, separated by colons.
pub open spec fn joined(g: Seq<u16>) -> Seq<char>
    decreases g.len(),
{
    if g.len() == 0 {
        Seq::empty()
    } else if g.len() == 1 {
        hex_text(g[0] as nat)
    } else {
        joined(g.drop_last()) + seq![':'] + hex_text(g.last() as nat)
    }
}

/// How many zero groups start at position `i`.
pub open spec fn zeros_from(g: Seq<u16>, i: int) -> nat
    decreases g.len() - i,
{
    if 0 <= i < g.len() && g[i] == 0 {
        1 + zeros_from(g, i + 1)
    } else {
        0
    }
}

/// `s` starts the first of the longest runs of zero groups.
pub open spec fn is_longest_zero_start(g: Seq<u16>, s: int) -> bool {
    &&& 0 <= s < g.len()
    &&& forall|i: int| 0 <= i < g.len() ==> #[trigger] zeros_from(g, i) <= zeros_from(g, s)
    &&& forall|i: int| 0 <= i < s ==> #[trigger] zeros_from(g, i) < zeros_from(g, s)
}

/// Where the first of the longest runs of zero groups starts.
pub open spec fn longest_zero_start(g: Seq<u16>) -> int {
    choose|s: int| is_longest_zero_start(g, s)
}

/// The IPv6 address `v` in its usual text (`Ipv6Addr`'s `Display`): an IPv4-mapped address
/// as `::ffff:a.b.c.d`, otherwise the groups in hexadecimal with the first longest run of two
/// or more zero groups written `::`.
pub open spec fn ipv6_text(v: u128) -> Seq<char> {
    let g = segments(v);
    if g[0] == 0 && g[1] == 0 && g[2] == 0 && g[3] == 0 && g[4] == 0 && g[5] == 0xffff {
        seq![':', ':', 'f', 'f', 'f', 'f', ':'] + ipv4_text((v % 0x1_0000_0000) as u32)
    } else {
        let s = longest_zero_start(g);
        let l = zeros_from(g, s);
        if l > 1 {
            joined(g.take(s)) + seq![':', ':'] + joined(g.skip(s + l))
        } else {
            joined(g)
        }
    }
}

/// The address in its usual text (`IpAddr`'s `Display`).
pub open spec fn ip_text(ip: IpAddress) -> Seq<char> {
    match ip {
        IpAddress::V4(a) => ipv4_text(a),
        IpAddress::V6(v) => ipv6_text(v),
    }
}

fn hex_digit_char(d: u16) -> (c: char)
    requires
        d < 16,
    ensures
        c == hex_char(d as nat),
{
    match d {
        0 => '0',
        1 => '1',
        2 => '2',
        3 => '3',
        4 => '4',
        5 => '5',
        6 => '6',
        7 => '7',
        8 => '8',
        9 => '9',
        10 => 'a',
        11 => 'b',
        12 => 'c',
        13 => 'd',
        14 => 'e',
        _ => 'f',
    }
}

/// Appends `n` in lowercase hexadecimal.
fn push_hex(out: &mut String, n: u16)
    ensures
        final(out)@ == old(out)@ + hex_text(n as nat),
    decreases n,
{
    if n >= 16 {
        push_hex(out, n / 16);
    }
    push_char(out, hex_digit_char(n % 16));
    proof {
        if n >= 16 {
            assert(hex_text(n as nat) == hex_text((n / 16) as nat).push(hex_char((n % 16) as nat)));
        }
    }
    assert(out@ =~= old(out)@ + hex_text(n as nat));
}

/// Appends an IPv4 address.
fn push_ipv4(out: &mut String, a: u32)
    ensures
        final(out)@ == old(out)@ + ipv4_text(a),
{
    push_decimal(out, (a / 0x100_0000) as u64);
    push_char(out, '.');
    push_decimal(out, ((a / 0x1_0000) % 0x100) as u64);
    push_char(out, '.');
    push_decimal(out, ((a / 0x100) % 0x100) as u64);
    push_char(out, '.');
    push_decimal(out, (a % 0x100) as u64);
    assert(out@ =~= old(out)@ + ipv4_text(a));
}

/// The eight groups of `v`.
fn segments_of(v: u128) -> (r: Vec<u16>)
    ensures
        r@ == segments(v),
{
    let mut r: Vec<u16> = Vec::new();
    let mut d: u128 = 0x1_0000_0000_0000_0000_0000_0000_0000;
    let mut k: usize = 0;
    proof {
        reveal_with_fuel(vstd::arithmetic::power::pow, 9);
    }
    while k < 8
        invariant
            k <= 8,
            r@.len() == k,
            d as int == vstd::arithmetic::power::pow(0x1_0000, (7 - k) as nat) || k == 8,
            k < 8 ==> d > 0,
            forall|j: int| 0 <= j < k ==> #[trigger] r@[j] == segments(v)[j],
        decreases 8 - k,
    {
        let seg = ((v / d) % 0x1_0000) as u16;
        r.push(seg);
        proof {
            if k < 7 {
                vstd::arithmetic::power::lemma_pow_adds(0x1_0000, (6 - k) as nat, 1);
                vstd::arithmetic::power::lemma_pow1(0x1_0000);
                vstd::arithmetic::power::lemma_pow_positive(0x1_0000, (6 - k) as nat);
            }
        }
        if k < 7 {
            d = d / 0x1_0000;
        }
        k += 1;
    }
    assert(r@ =~= segments(v));
    r
}

/// Appends `joined(g[from..to])`.
fn push_joined(out: &mut String, g: &Vec<u16>, from: usize, to: usize)
    requires
        from <= to <= g@.len(),
    ensures
        final(out)@ == old(out)@ + joined(g@.subrange(from as int, to as int)),
{
    let mut k = from;
    while k < to
        invariant
            from <= k <= to <= g@.len(),
            out@ == old(out)@ + joined(g@.subrange(from as int, k as int)),
        decreases to - k,
    {
        let ghost pre = g@.subrange(from as int, k as int);
        let ghost next = g@.subrange(from as int, k + 1);
        assert(next.drop_last() =~= pre);
        if k > from {
            push_char(out, ':');
        }
        push_hex(out, g[k]);
        proof {
            if k == from {
                assert(pre =~= Seq::<u16>::empty());
                assert(next.len() == 1);
            }
        }
        assert(out@ =~= old(out)@ + joined(next));
        k += 1;
    }
}

/// The number of zero groups starting at `i`.
fn zero_run(g: &Vec<u16>, i: usize) -> (r: usize)
    requires
        i <= g@.len(),
    ensures
        r == zeros_from(g@, i as int),
        i + r <= g@.len(),
{
    let mut j = i;
    while j < g.len() && g[j] == 0
        invariant
            i <= j <= g@.len(),
            forall|k: int| i <= k < j ==> g@[k] == 0,
        decreases g@.len() - j,
    {
        j += 1;
    }
    proof {
        lemma_zeros_from_run(g@, i as int, j as int);
    }
    j - i
}

proof fn lemma_zeros_from_run(g: Seq<u16>, i: int, j: int)
    requires
        0 <= i <= j <= g.len(),
        forall|k: int| i <= k < j ==> g[k] == 0,
        j == g.len() || g[j] != 0,
    ensures
        zeros_from(g, i) == j - i,
    decreases j - i,
{
    if i < j {
        lemma_zeros_from_run(g, i + 1, j);
    }
}

/// Where the first longest run of zero groups starts.
fn longest_zero_run(g: &Vec<u16>) -> (r: usize)
    requires
        g@.len() == 8,
    ensures
        r == longest_zero_start(g@),
        is_longest_zero_start(g@, r as int),
{
    let mut best: usize = 0;
    let mut best_len = zero_run(g, 0);
    let mut i: usize = 1;
    while i < 8
        invariant
            g@.len() == 8,
            1 <= i <= 8,
            best < i,
            best_len == zeros_from(g@, best as int),
            forall|k: int| 0 <= k < i ==> #[trigger] zeros_from(g@, k) <= best_len,
            forall|k: int| 0 <= k < best ==> #[trigger] zeros_from(g@, k) < best_len,
        decreases 8 - i,
    {
        let l = zero_run(g, i);
        if l > best_len {
            best = i;
            best_len = l;
        }
        i += 1;
    }
    proof {
        assert(is_longest_zero_start(g@, best as int));
        lemma_longest_zero_start_unique(g@, best as int, longest_zero_start(g@));
    }
    best
}

proof fn lemma_longest_zero_start_unique(g: Seq<u16>, s: int, t: int)
    requires
        is_longest_zero_start(g, s),
        is_longest_zero_start(g, t),
    ensures
        s == t,
{
    if s < t {
        assert(zeros_from(g, s) < zeros_from(g, t));
        assert(zeros_from(g, s) >= zeros_from(g, t));
    } else if t < s {
        assert(zeros_from(g, t) < zeros_from(g, s));
        assert(zeros_from(g, t) >= zeros_from(g, s));
    }
}

/// Appends the address in its usual text.
pub fn push_ip_text(out: &mut String, ip: IpAddress)
    ensures
        final(out)@ == old(out)@ + ip_text(ip),
{
    match ip {
        IpAddress::V4(a) => push_ipv4(out, a),
        IpAddress::V6(v) => {
            let g = segments_of(v);
            if g[0] == 0 && g[1] == 0 && g[2] == 0 && g[3] == 0 && g[4] == 0 && g[5] == 0xffff {
                push_char(out, ':');
                push_char(out, ':');
                push_char(out, 'f');
                push_char(out, 'f');
                push_char(out, 'f');
                push_char(out, 'f');
                push_char(out, ':');
                let ghost mid = out@;
                push_ipv4(out, (v % 0x1_0000_0000) as u32);
                assert(out@ =~= old(out)@ + ipv6_text(v));
            } else {
                let s = longest_zero_run(&g);
                let l = zero_run(&g, s);
                if l > 1 {
                    push_joined(out, &g, 0, s);
                    push_char(out, ':');
                    push_char(out, ':');
                    push_joined(out, &g, s + l, 8);
                    assert(g@.subrange(0, s as int) =~= g@.take(s as int));
                    assert(g@.subrange(s + l, 8) =~= g@.skip(s + l));
                    assert(out@ =~= old(out)@ + ipv6_text(v));
                } else {
                    push_joined(out, &g, 0, 8);
                    assert(g@.subrange(0, 8) =~= g@);
                    assert(out@ =~= old(out)@ + ipv6_text(v));
                }
            }
        },
    }
}

} // verus!
