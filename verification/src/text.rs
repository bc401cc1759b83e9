//! Reading an IP address from text.
//!
//! An IPv4 address is written as four decimal numbers with dots between
//! them: `192.0.2.1`. An IPv6 address is written as eight groups of
//! hexadecimal digits with colons between them, `2001:db8:0:0:0:0:0:1`, of
//! which one run of zero groups may be left out, `2001:db8::1`, and of which
//! the last two may be written as an IPv4 address, `::ffff:192.0.2.1`.
//!
//! A text is taken apart at its dots or colons first, and the fields between
//! them are read as numbers then.

use vstd::prelude::*;
use vstd::slice::slice_subrange;
use crate::address::IpAddress;

verus! {

/// The dot between the numbers of an IPv4 address.
pub const DOT: u8 = 0x2e;

/// The colon between the groups of an IPv6 address.
pub const COLON: u8 = 0x3a;

/// Whether `byte` is one of the digits `0` to `9`.
pub open spec fn is_decimal_digit(byte: u8) -> bool {
    0x30 <= byte <= 0x39
}

/// Whether `byte` is a hexadecimal digit: `0` to `9`, `A` to `F` or `a` to
/// `f`.
pub open spec fn is_hex_digit(byte: u8) -> bool {
    is_decimal_digit(byte) || 0x41 <= byte <= 0x46 || 0x61 <= byte <= 0x66
}

/// The number that the digit `byte` stands for.
pub open spec fn digit_value(byte: u8) -> int {
    if byte <= 0x39 {
        byte - 0x30
    } else if byte <= 0x46 {
        byte - 0x41 + 10
    } else {
        byte - 0x61 + 10
    }
}

/// The number that `digits` write in the given radix.
pub open spec fn number(radix: int, digits: Seq<u8>) -> int
    decreases digits.len(),
{
    if digits.len() == 0 {
        0
    } else {
        number(radix, digits.drop_last()) * radix + digit_value(digits.last())
    }
}

/// The byte that `field` writes as a number of an IPv4 address: one to three
/// decimal digits, without a leading zero before other digits, that give at
/// most 255.
pub open spec fn octet(field: Seq<u8>) -> Option<u8> {
    if 1 <= field.len() <= 3 && (forall|i: int|
        0 <= i < field.len() ==> is_decimal_digit(#[trigger] field[i])) && (field.len() == 1
        || field[0] != 0x30) && number(10, field) <= 255 {
        Some(number(10, field) as u8)
    } else {
        None
    }
}

/// The sixteen bits that `field` writes as a group of an IPv6 address: one
/// to four hexadecimal digits.
pub open spec fn group(field: Seq<u8>) -> Option<u16> {
    if 1 <= field.len() <= 4 && (forall|i: int|
        0 <= i < field.len() ==> is_hex_digit(#[trigger] field[i])) {
        Some(number(16, field) as u16)
    } else {
        None
    }
}

/// The fields of `text` between the separators: a text with `n` separators
/// has `n + 1` fields, of which some may be empty.
pub open spec fn split(text: Seq<u8>, separator: u8) -> Seq<Seq<u8>>
    decreases text.len(),
{
    if text.len() == 0 {
        seq![Seq::empty()]
    } else {
        let fields = split(text.drop_last(), separator);
        if text.last() == separator {
            fields.push(Seq::empty())
        } else {
            fields.drop_last().push(fields.last().push(text.last()))
        }
    }
}

/// The text that the fields make with a separator between each two of them.
pub open spec fn glue(fields: Seq<Seq<u8>>, separator: u8) -> Seq<u8>
    decreases fields.len(),
{
    if fields.len() == 0 {
        Seq::empty()
    } else if fields.len() == 1 {
        fields[0]
    } else {
        glue(fields.drop_last(), separator).push(separator) + fields.last()
    }
}

/// No field holds the separator.
pub open spec fn free_of(fields: Seq<Seq<u8>>, separator: u8) -> bool {
    forall|i: int, j: int|
        0 <= i < fields.len() && 0 <= j < fields[i].len() ==> (#[trigger] fields[i][j])
            != separator
}

/// The IPv4 address that `text` writes, if it writes one: four numbers with
/// dots between them.
pub open spec fn ipv4_value(text: Seq<u8>) -> Option<u32> {
    let fields = split(text, DOT);
    if fields.len() == 4 && octet(fields[0]) is Some && octet(fields[1]) is Some && octet(
        fields[2],
    ) is Some && octet(fields[3]) is Some {
        Some(
            (octet(fields[0]).unwrap() * 0x100_0000 + octet(fields[1]).unwrap() * 0x1_0000 + octet(
                fields[2],
            ).unwrap() * 0x100 + octet(fields[3]).unwrap()) as u32,
        )
    } else {
        None
    }
}

/// The groups that `fields` write, if each of them writes one.
pub open spec fn hex_groups(fields: Seq<Seq<u8>>) -> Option<Seq<u16>> {
    if forall|i: int| 0 <= i < fields.len() ==> group(#[trigger] fields[i]) is Some {
        Some(Seq::new(fields.len(), |i: int| group(fields[i]).unwrap()))
    } else {
        None
    }
}

/// The groups that `fields` write, of which the last may write an IPv4
/// address, which gives two groups.
pub open spec fn tail_groups(fields: Seq<Seq<u8>>) -> Option<Seq<u16>> {
    if fields.len() == 0 {
        Some(Seq::empty())
    } else {
        match ipv4_value(fields.last()) {
            Some(v4) => match hex_groups(fields.drop_last()) {
                Some(groups) => Some(groups.push((v4 / 0x1_0000) as u16).push((v4 % 0x1_0000) as u16)),
                None => None,
            },
            None => hex_groups(fields),
        }
    }
}

/// The index of the first empty field, or the number of fields if none is
/// empty.
pub open spec fn first_empty(fields: Seq<Seq<u8>>) -> int
    decreases fields.len(),
{
    if fields.len() == 0 {
        0
    } else {
        let before = first_empty(fields.drop_last());
        if before < fields.len() - 1 {
            before
        } else if fields.last().len() == 0 {
            fields.len() - 1
        } else {
            fields.len() as int
        }
    }
}

/// The 128 bits of eight groups, the first group at the top.
pub open spec fn join(groups: Seq<u16>) -> u128
    recommends
        groups.len() == 8,
{
    (groups[0] * 0x1_0000_0000_0000_0000_0000_0000_0000 + groups[1]
        * 0x1_0000_0000_0000_0000_0000_0000 + groups[2] * 0x1_0000_0000_0000_0000_0000 + groups[3]
        * 0x1_0000_0000_0000_0000 + groups[4] * 0x1_0000_0000_0000 + groups[5] * 0x1_0000_0000
        + groups[6] * 0x1_0000 + groups[7]) as u128
}

/// The eight groups of a text with a gap: the groups before the gap, those
/// behind it, and as many zero groups between them as are missing. The gap
/// stands for one group at least.
pub open spec fn fill_gap(head: Option<Seq<u16>>, tail: Option<Seq<u16>>) -> Option<u128> {
    match (head, tail) {
        (Some(head), Some(tail)) => if head.len() + tail.len() <= 7 {
            Some(
                join(
                    head + Seq::new((8 - head.len() - tail.len()) as nat, |i: int| 0u16) + tail,
                ),
            )
        } else {
            None
        },
        _ => None,
    }
}

/// The IPv6 address that `text` writes, if it writes one.
///
/// Between the colons stand the fields. Where no field is empty, there are
/// eight groups. An empty field is the gap `::`, which at the start or at the
/// end of the text shows as two empty fields. The groups before the gap and
/// behind it are at most seven.
pub open spec fn ipv6_value(text: Seq<u8>) -> Option<u128> {
    let fields = split(text, COLON);
    let n = fields.len() as int;
    let gap = first_empty(fields);
    if gap == n {
        match tail_groups(fields) {
            Some(groups) => if groups.len() == 8 {
                Some(join(groups))
            } else {
                None
            },
            None => None,
        }
    } else if gap == 0 {
        if n >= 3 && fields[1].len() == 0 {
            if n == 3 && fields[2].len() == 0 {
                Some(0u128)
            } else {
                fill_gap(Some(Seq::empty()), tail_groups(fields.subrange(2, n)))
            }
        } else {
            None
        }
    } else if gap == n - 2 && fields[n - 1].len() == 0 {
        fill_gap(hex_groups(fields.subrange(0, gap)), Some(Seq::empty()))
    } else if gap < n - 1 {
        fill_gap(hex_groups(fields.subrange(0, gap)), tail_groups(fields.subrange(gap + 1, n)))
    } else {
        None
    }
}

/// The address that `text` writes, if it writes one.
pub open spec fn address_of(text: Seq<u8>) -> Option<IpAddress> {
    match ipv4_value(text) {
        Some(bits) => Some(IpAddress::V4(bits)),
        None => match ipv6_value(text) {
            Some(bits) => Some(IpAddress::V6(bits)),
            None => None,
        },
    }
}

/// Whether `bounds` give, one by one, where the fields of `text` start and
/// end.
pub open spec fn bounds_of(bounds: Seq<(usize, usize)>, text: Seq<u8>, separator: u8) -> bool {
    &&& bounds.len() == split(text, separator).len()
    &&& forall|i: int|
        0 <= i < bounds.len() ==> {
            &&& (#[trigger] bounds[i]).0 <= bounds[i].1 <= text.len()
            &&& text.subrange(bounds[i].0 as int, bounds[i].1 as int) == split(text, separator)[i]
        }
}

/// Finds the fields of `text` between the separators.
fn split_fields(text: &[u8], separator: u8) -> (bounds: Vec<(usize, usize)>)
    ensures
        bounds_of(bounds@, text@, separator),
{
    let mut bounds: Vec<(usize, usize)> = Vec::new();
    let mut start: usize = 0;
    let mut i: usize = 0;
    assert(text@.take(0) =~= Seq::empty());
    assert(text@.subrange(0, 0) =~= Seq::empty());
    while i < text.len()
        invariant
            start <= i <= text.len(),
            bounds.len() + 1 == split(text@.take(i as int), separator).len(),
            text@.subrange(start as int, i as int) == split(text@.take(i as int), separator).last(),
            forall|k: int|
                0 <= k < bounds.len() ==> {
                    &&& (#[trigger] bounds@[k]).0 <= bounds@[k].1 <= i
                    &&& text@.subrange(bounds@[k].0 as int, bounds@[k].1 as int) == split(
                        text@.take(i as int),
                        separator,
                    )[k]
                },
        decreases text.len() - i,
    {
        let ghost before = split(text@.take(i as int), separator);
        proof {
            assert(text@.take(i + 1).drop_last() =~= text@.take(i as int));
        }
        if text[i] == separator {
            bounds.push((start, i));
            start = i + 1;
            proof {
                assert(text@.subrange(start as int, i + 1) =~= Seq::empty());
            }
        } else {
            proof {
                assert(text@.subrange(start as int, i + 1) =~= before.last().push(text@[i as int]));
            }
        }
        i += 1;
    }
    bounds.push((start, i));
    assert(text@.take(i as int) =~= text@);
    bounds
}

/// Reads a field as a number of an IPv4 address.
fn read_octet(text: &[u8], from: usize, to: usize) -> (value: Option<u8>)
    requires
        from <= to <= text.len(),
    ensures
        value == octet(text@.subrange(from as int, to as int)),
{
    let ghost field = text@.subrange(from as int, to as int);
    let len = to - from;
    if len < 1 || len > 3 {
        return None;
    }
    if len > 1 && text[from] == 0x30 {
        assert(field[0] == 0x30);
        return None;
    }
    let mut value: u32 = 0;
    let mut i: usize = 0;
    assert(field.take(0) =~= Seq::empty());
    while i < len
        invariant
            i <= len <= 3,
            from + len == to <= text.len(),
            field == text@.subrange(from as int, to as int),
            value == number(10, field.take(i as int)),
            value <= 999,
            i <= 2 ==> value <= 99,
            i <= 1 ==> value <= 9,
            i == 0 ==> value == 0,
            forall|k: int| 0 <= k < i ==> is_decimal_digit(#[trigger] field[k]),
        decreases len - i,
    {
        let byte = text[from + i];
        assert(byte == field[i as int]);
        if byte < 0x30 || byte > 0x39 {
            return None;
        }
        proof {
            assert(field.take(i + 1).drop_last() =~= field.take(i as int));
        }
        value = value * 10 + (byte - 0x30) as u32;
        i += 1;
    }
    assert(field.take(len as int) =~= field);
    if value > 255 {
        None
    } else {
        Some(value as u8)
    }
}

/// Reads a field as a group of an IPv6 address.
fn read_group(text: &[u8], from: usize, to: usize) -> (value: Option<u16>)
    requires
        from <= to <= text.len(),
    ensures
        value == group(text@.subrange(from as int, to as int)),
{
    let ghost field = text@.subrange(from as int, to as int);
    let len = to - from;
    if len < 1 || len > 4 {
        return None;
    }
    let mut value: u32 = 0;
    let mut i: usize = 0;
    assert(field.take(0) =~= Seq::empty());
    while i < len
        invariant
            i <= len <= 4,
            from + len == to <= text.len(),
            field == text@.subrange(from as int, to as int),
            value == number(16, field.take(i as int)),
            value <= 0xffff,
            i <= 3 ==> value <= 0xfff,
            i <= 2 ==> value <= 0xff,
            i <= 1 ==> value <= 0xf,
            i == 0 ==> value == 0,
            forall|k: int| 0 <= k < i ==> is_hex_digit(#[trigger] field[k]),
        decreases len - i,
    {
        let byte = text[from + i];
        assert(byte == field[i as int]);
        let digit: u32 = if 0x30 <= byte && byte <= 0x39 {
            (byte - 0x30) as u32
        } else if 0x41 <= byte && byte <= 0x46 {
            (byte - 0x41) as u32 + 10
        } else if 0x61 <= byte && byte <= 0x66 {
            (byte - 0x61) as u32 + 10
        } else {
            return None;
        };
        proof {
            assert(field.take(i + 1).drop_last() =~= field.take(i as int));
        }
        value = value * 16 + digit;
        i += 1;
    }
    assert(field.take(len as int) =~= field);
    Some(value as u16)
}

/// Reads a text as an IPv4 address.
pub fn read_ipv4(text: &[u8]) -> (address: Option<u32>)
    ensures
        address == ipv4_value(text@),
{
    let bounds = split_fields(text, DOT);
    if bounds.len() != 4 {
        return None;
    }
    let first = read_octet(text, bounds[0].0, bounds[0].1);
    let second = read_octet(text, bounds[1].0, bounds[1].1);
    let third = read_octet(text, bounds[2].0, bounds[2].1);
    let fourth = read_octet(text, bounds[3].0, bounds[3].1);
    match (first, second, third, fourth) {
        (Some(a), Some(b), Some(c), Some(d)) => {
            let address: u32 = (a as u32) * 0x100_0000 + (b as u32) * 0x1_0000 + (c as u32) * 0x100
                + (d as u32);
            Some(address)
        },
        _ => None,
    }
}

/// Reads the fields from `from` up to `to` as groups.
fn read_hex_groups(text: &[u8], bounds: &Vec<(usize, usize)>, from: usize, to: usize) -> (groups:
    Option<Vec<u16>>)
    requires
        bounds_of(bounds@, text@, COLON),
        from <= to <= bounds.len(),
    ensures
        match groups {
            Some(groups) => hex_groups(split(text@, COLON).subrange(from as int, to as int))
                == Some(groups@),
            None => hex_groups(split(text@, COLON).subrange(from as int, to as int)) is None,
        },
{
    let ghost fields = split(text@, COLON).subrange(from as int, to as int);
    let mut groups: Vec<u16> = Vec::new();
    let mut i: usize = from;
    while i < to
        invariant
            from <= i <= to <= bounds.len(),
            bounds_of(bounds@, text@, COLON),
            fields == split(text@, COLON).subrange(from as int, to as int),
            groups.len() == i - from,
            forall|k: int|
                0 <= k < i - from ==> group(#[trigger] fields[k]) == Some(groups@[k]),
        decreases to - i,
    {
        let bound = bounds[i];
        assert(text@.subrange(bound.0 as int, bound.1 as int) == fields[i - from]);
        match read_group(text, bound.0, bound.1) {
            Some(value) => {
                groups.push(value);
            },
            None => {
                return None;
            },
        }
        i += 1;
    }
    assert(hex_groups(fields).unwrap() =~= groups@);
    Some(groups)
}

/// Reads the fields from `from` up to `to` as groups, of which the last may
/// be an IPv4 address.
fn read_tail_groups(text: &[u8], bounds: &Vec<(usize, usize)>, from: usize, to: usize) -> (groups:
    Option<Vec<u16>>)
    requires
        bounds_of(bounds@, text@, COLON),
        from <= to <= bounds.len(),
    ensures
        match groups {
            Some(groups) => tail_groups(split(text@, COLON).subrange(from as int, to as int))
                == Some(groups@),
            None => tail_groups(split(text@, COLON).subrange(from as int, to as int)) is None,
        },
{
    let ghost fields = split(text@, COLON).subrange(from as int, to as int);
    if from == to {
        assert(fields.len() == 0);
        return Some(Vec::new());
    }
    let last = bounds[to - 1];
    assert(text@.subrange(last.0 as int, last.1 as int) == fields.last());
    assert(fields.drop_last() =~= split(text@, COLON).subrange(from as int, to - 1));
    match read_ipv4(slice_subrange(text, last.0, last.1)) {
        Some(v4) => match read_hex_groups(text, bounds, from, to - 1) {
            Some(mut groups) => {
                groups.push((v4 / 0x1_0000) as u16);
                groups.push((v4 % 0x1_0000) as u16);
                Some(groups)
            },
            None => None,
        },
        None => read_hex_groups(text, bounds, from, to),
    }
}

/// Finds the first empty field.
fn find_first_empty(text: &[u8], bounds: &Vec<(usize, usize)>) -> (at: usize)
    requires
        bounds_of(bounds@, text@, COLON),
    ensures
        at == first_empty(split(text@, COLON)),
        at <= bounds.len(),
{
    let ghost fields = split(text@, COLON);
    let mut at: usize = 0;
    assert(fields.take(0) =~= Seq::empty());
    while at < bounds.len() && bounds[at].0 != bounds[at].1
        invariant
            at <= bounds.len(),
            bounds_of(bounds@, text@, COLON),
            fields == split(text@, COLON),
            first_empty(fields.take(at as int)) == at,
        decreases bounds.len() - at,
    {
        proof {
            assert(fields.take(at + 1).drop_last() =~= fields.take(at as int));
            assert(fields.take(at + 1).last() == fields[at as int]);
            assert(text@.subrange(bounds@[at as int].0 as int, bounds@[at as int].1 as int)
                == fields[at as int]);
        }
        at += 1;
    }
    proof {
        if at < bounds.len() {
            assert(text@.subrange(bounds@[at as int].0 as int, bounds@[at as int].1 as int)
                == fields[at as int]);
        }
        lemma_first_empty_stays(fields, at as int);
    }
    at
}

/// The first empty field among the first `n` fields is the first among all,
/// if there is one among them or the next field is empty.
proof fn lemma_first_empty_stays(fields: Seq<Seq<u8>>, n: int)
    requires
        0 <= n <= fields.len(),
        first_empty(fields.take(n)) == n,
        n < fields.len() ==> fields[n].len() == 0,
    ensures
        first_empty(fields) == n,
{
    if n == fields.len() {
        assert(fields.take(n) =~= fields);
    } else {
        lemma_first_empty_grows(fields, n + 1);
    }
}

/// Once a field is empty, the first empty field is the same for every longer
/// list of fields.
proof fn lemma_first_empty_grows(fields: Seq<Seq<u8>>, n: int)
    requires
        1 <= n <= fields.len(),
        first_empty(fields.take(n - 1)) == n - 1,
        fields[n - 1].len() == 0,
    ensures
        first_empty(fields) == n - 1,
    decreases fields.len() - n,
{
    assert(fields.take(n).drop_last() =~= fields.take(n - 1));
    assert(first_empty(fields.take(n)) == n - 1);
    lemma_first_empty_later(fields, n, n - 1);
}

/// A first empty field before index `n` stays the first for every longer list
/// of fields.
proof fn lemma_first_empty_later(fields: Seq<Seq<u8>>, n: int, at: int)
    requires
        0 <= at < n <= fields.len(),
        first_empty(fields.take(n)) == at,
    ensures
        first_empty(fields) == at,
    decreases fields.len() - n,
{
    if n == fields.len() {
        assert(fields.take(n) =~= fields);
    } else {
        assert(fields.take(n + 1).drop_last() =~= fields.take(n));
        lemma_first_empty_later(fields, n + 1, at);
    }
}

/// Puts eight groups together, the first group at the top.
fn join_groups(groups: &Vec<u16>) -> (bits: u128)
    requires
        groups.len() == 8,
    ensures
        bits == join(groups@),
{
    let g0 = groups[0] as u128;
    let g1 = groups[1] as u128;
    let g2 = groups[2] as u128;
    let g3 = groups[3] as u128;
    let g4 = groups[4] as u128;
    let g5 = groups[5] as u128;
    let g6 = groups[6] as u128;
    let g7 = groups[7] as u128;
    g0 * 0x1_0000_0000_0000_0000_0000_0000_0000 + g1 * 0x1_0000_0000_0000_0000_0000_0000 + g2
        * 0x1_0000_0000_0000_0000_0000 + g3 * 0x1_0000_0000_0000_0000 + g4 * 0x1_0000_0000_0000 + g5
        * 0x1_0000_0000 + g6 * 0x1_0000 + g7
}

/// Puts the groups before a gap and the groups behind it together, with zero
/// groups between them.
fn join_around_gap(head: Option<Vec<u16>>, tail: Option<Vec<u16>>) -> (bits: Option<u128>)
    ensures
        bits == fill_gap(
            match head {
                Some(groups) => Some(groups@),
                None => None,
            },
            match tail {
                Some(groups) => Some(groups@),
                None => None,
            },
        ),
{
    match (head, tail) {
        (Some(mut groups), Some(mut tail)) => {
            if groups.len() > 7 || tail.len() > 7 - groups.len() {
                return None;
            }
            let ghost before = groups@;
            let ghost behind = tail@;
            let missing = 8 - groups.len() - tail.len();
            let mut i: usize = 0;
            while i < missing
                invariant
                    i <= missing,
                    before.len() + missing + behind.len() == 8,
                    groups@ == before + Seq::new(i as nat, |k: int| 0u16),
                decreases missing - i,
            {
                groups.push(0);
                assert(groups@ =~= before + Seq::new((i + 1) as nat, |k: int| 0u16));
                i += 1;
            }
            groups.append(&mut tail);
            Some(join_groups(&groups))
        },
        _ => None,
    }
}

/// Reads a text as an IPv6 address.
pub fn read_ipv6(text: &[u8]) -> (address: Option<u128>)
    ensures
        address == ipv6_value(text@),
{
    let bounds = split_fields(text, COLON);
    let n = bounds.len();
    let gap = find_first_empty(text, &bounds);
    let ghost fields = split(text@, COLON);
    if gap == n {
        assert(fields.subrange(0, n as int) =~= fields);
        match read_tail_groups(text, &bounds, 0, n) {
            Some(groups) => if groups.len() == 8 {
                Some(join_groups(&groups))
            } else {
                None
            },
            None => None,
        }
    } else if gap == 0 {
        if n >= 3 && bounds[1].0 == bounds[1].1 {
            assert(text@.subrange(bounds@[1].0 as int, bounds@[1].1 as int) == fields[1]);
            assert(text@.subrange(bounds@[2].0 as int, bounds@[2].1 as int) == fields[2]);
            if n == 3 && bounds[2].0 == bounds[2].1 {
                Some(0)
            } else {
                join_around_gap(Some(Vec::new()), read_tail_groups(text, &bounds, 2, n))
            }
        } else {
            proof {
                if n >= 3 {
                    assert(text@.subrange(bounds@[1].0 as int, bounds@[1].1 as int) == fields[1]);
                }
            }
            None
        }
    } else if gap == n - 2 && bounds[n - 1].0 == bounds[n - 1].1 {
        assert(text@.subrange(bounds@[n - 1].0 as int, bounds@[n - 1].1 as int) == fields[n - 1]);
        join_around_gap(read_hex_groups(text, &bounds, 0, gap), Some(Vec::new()))
    } else if gap < n - 1 {
        assert(text@.subrange(bounds@[n - 1].0 as int, bounds@[n - 1].1 as int) == fields[n - 1]);
        join_around_gap(
            read_hex_groups(text, &bounds, 0, gap),
            read_tail_groups(text, &bounds, gap + 1, n),
        )
    } else {
        None
    }
}

/// Reads a text as an IP address of either family.
pub fn read_address(text: &[u8]) -> (address: Option<IpAddress>)
    ensures
        address == address_of(text@),
{
    match read_ipv4(text) {
        Some(bits) => Some(IpAddress::V4(bits)),
        None => match read_ipv6(text) {
            Some(bits) => Some(IpAddress::V6(bits)),
            None => None,
        },
    }
}

/// The first empty field is empty, and no field before it is.
pub proof fn lemma_first_empty(fields: Seq<Seq<u8>>)
    ensures
        0 <= first_empty(fields) <= fields.len(),
        first_empty(fields) < fields.len() ==> fields[first_empty(fields)].len() == 0,
        forall|i: int| 0 <= i < first_empty(fields) ==> (#[trigger] fields[i]).len() > 0,
    decreases fields.len(),
{
    if fields.len() > 0 {
        let before = fields.drop_last();
        lemma_first_empty(before);
        assert forall|i: int| 0 <= i < first_empty(fields) implies (#[trigger] fields[i]).len()
            > 0 by {
            if i < before.len() {
                assert(fields[i] == before[i]);
            }
        }
        if first_empty(before) < before.len() {
            assert(fields[first_empty(before)] == before[first_empty(before)]);
        }
    }
}

/// Taking a text apart loses nothing: there is a field at least, no field
/// holds the separator, and the fields with the separator between them make
/// the text again.
pub proof fn lemma_split_glues_back(text: Seq<u8>, separator: u8)
    ensures
        split(text, separator).len() >= 1,
        free_of(split(text, separator), separator),
        glue(split(text, separator), separator) == text,
    decreases text.len(),
{
    let fields = split(text, separator);
    if text.len() > 0 {
        let before = split(text.drop_last(), separator);
        lemma_split_glues_back(text.drop_last(), separator);
        assert(text == text.drop_last().push(text.last()));
        if text.last() == separator {
            assert(fields.drop_last() =~= before);
            assert(glue(fields, separator) =~= text);
            assert forall|i: int, j: int|
                0 <= i < fields.len() && 0 <= j < fields[i].len() implies (#[trigger] fields[i][j])
                != separator by {
                assert(fields[i] == before[i]);
                assert(before[i][j] != separator);
            }
        } else {
            assert(fields.drop_last() =~= before.drop_last());
            if before.len() > 1 {
                assert(glue(fields, separator) =~= text);
            }
            assert forall|i: int, j: int|
                0 <= i < fields.len() && 0 <= j < fields[i].len() implies (#[trigger] fields[i][j])
                != separator by {
                if i < fields.len() - 1 {
                    assert(fields[i] == before[i]);
                    assert(before[i][j] != separator);
                } else if j < before.last().len() {
                    assert(fields[i][j] == before[before.len() - 1][j]);
                }
            }
        }
    }
}

/// A text behind which stands a separator and a field without separators has
/// the fields of the text, and that field.
proof fn lemma_split_of_next(text: Seq<u8>, field: Seq<u8>, separator: u8)
    requires
        forall|j: int| 0 <= j < field.len() ==> field[j] != separator,
    ensures
        split(text.push(separator) + field, separator) == split(text, separator).push(field),
    decreases field.len(),
{
    let whole = text.push(separator) + field;
    if field.len() == 0 {
        assert(whole =~= text.push(separator));
        assert(whole.drop_last() =~= text);
        assert(field =~= Seq::empty());
    } else {
        let shorter = field.drop_last();
        lemma_split_of_next(text, shorter, separator);
        assert(whole.drop_last() =~= text.push(separator) + shorter);
        assert(whole.last() == field[field.len() - 1]);
        assert(shorter.push(field.last()) =~= field);
        assert(split(text, separator).push(shorter).drop_last() =~= split(text, separator));
    }
}

/// A text without separators has one field: itself.
proof fn lemma_split_of_field(field: Seq<u8>, separator: u8)
    requires
        forall|j: int| 0 <= j < field.len() ==> field[j] != separator,
    ensures
        split(field, separator) == seq![field],
    decreases field.len(),
{
    if field.len() == 0 {
        assert(field =~= Seq::<u8>::empty());
    } else {
        lemma_split_of_field(field.drop_last(), separator);
        assert(field.drop_last().push(field.last()) =~= field);
        assert(seq![field.drop_last()].drop_last().push(field) =~= seq![field]);
    }
}

/// There is one way only to take a text apart: fields without separators that
/// make a text are the fields of that text.
pub proof fn lemma_glue_splits_back(fields: Seq<Seq<u8>>, separator: u8)
    requires
        fields.len() >= 1,
        free_of(fields, separator),
    ensures
        split(glue(fields, separator), separator) == fields,
    decreases fields.len(),
{
    if fields.len() == 1 {
        assert forall|j: int| 0 <= j < fields[0].len() implies fields[0][j] != separator by {
            assert(fields[0][j] != separator);
        }
        lemma_split_of_field(fields[0], separator);
        assert(seq![fields[0]] =~= fields);
    } else {
        let before = fields.drop_last();
        assert forall|i: int, j: int|
            0 <= i < before.len() && 0 <= j < before[i].len() implies (#[trigger] before[i][j])
            != separator by {
            assert(fields[i][j] != separator);
        }
        lemma_glue_splits_back(before, separator);
        assert forall|j: int| 0 <= j < fields.last().len() implies fields.last()[j]
            != separator by {
            assert(fields[fields.len() - 1][j] != separator);
        }
        lemma_split_of_next(glue(before, separator), fields.last(), separator);
        assert(before.push(fields.last()) =~= fields);
    }
}

} // verus!
