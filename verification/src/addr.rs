//! Network addresses, modelled as plain integers: an IPv4 address is its
//! 32-bit value, an IPv6 address its 128-bit value.

use vstd::prelude::*;

verus! {

/// An IPv4 or IPv6 address. The two families are one kind so a filter can
/// compare them interchangeably.
#[derive(Debug, Clone, Copy, PartialEq, Eq, Structural)]
pub enum IpAddress {
    /// An IPv4 address: the four octets read as one big-endian integer.
    V4(u32),
    /// An IPv6 address: the sixteen octets read as one big-endian integer.
    V6(u128),
}

/// The 128-bit value an address is compared by: an IPv6 address is its own
/// value, an IPv4 address is mapped into the IPv4-mapped IPv6 block
/// (`::ffff:a.b.c.d`).
pub open spec fn mapped_bits(a: IpAddress) -> int {
    match a {
        IpAddress::V4(b) => 0xffff_0000_0000int + b,
        IpAddress::V6(b) => b as int,
    }
}

/// Where an address stands relative to another: addresses are totally ordered
/// by their (IPv4-mapped) 128-bit values.
pub open spec fn addr_cmp_spec(a: IpAddress, b: IpAddress) -> core::cmp::Ordering {
    if mapped_bits(a) < mapped_bits(b) {
        core::cmp::Ordering::Less
    } else if mapped_bits(a) == mapped_bits(b) {
        core::cmp::Ordering::Equal
    } else {
        core::cmp::Ordering::Greater
    }
}

impl IpAddress {
    /// The 128-bit comparison value of this address.
    pub fn to_mapped_bits(&self) -> (r: u128)
        ensures
            r == mapped_bits(*self),
    {
        match self {
            IpAddress::V4(b) => 0xffff_0000_0000u128 + (*b as u128),
            IpAddress::V6(b) => *b,
        }
    }

    /// Compares two addresses by their (IPv4-mapped) 128-bit values.
    pub fn cmp_addr(&self, other: &IpAddress) -> (r: core::cmp::Ordering)
        ensures
            r == addr_cmp_spec(*self, *other),
    {
        let a = self.to_mapped_bits();
        let b = other.to_mapped_bits();
        if a < b {
            core::cmp::Ordering::Less
        } else if a == b {
            core::cmp::Ordering::Equal
        } else {
            core::cmp::Ordering::Greater
        }
    }
}

/// True of an ASCII decimal digit.
pub open spec fn is_digit(c: u8) -> bool {
    0x30 <= c <= 0x39
}

/// The value of a run of decimal digits.
pub open spec fn digits_val(s: Seq<u8>) -> int
    decreases s.len(),
{
    if s.len() == 0 {
        0
    } else {
        digits_val(s.drop_last()) * 10 + (s.last() - 0x30)
    }
}

/// True when every byte is a decimal digit.
pub open spec fn all_digits(s: Seq<u8>) -> bool {
    forall|i: int| 0 <= i < s.len() ==> is_digit(#[trigger] s[i])
}

/// A dotted-quad part: one to three digits with a value up to 255.
pub open spec fn is_octet(s: Seq<u8>) -> bool {
    1 <= s.len() <= 3 && all_digits(s) && digits_val(s) <= 255
}

/// True of an ASCII hexadecimal digit.
pub open spec fn is_hex_digit(c: u8) -> bool {
    is_digit(c) || (0x61 <= c <= 0x66) || (0x41 <= c <= 0x46)
}

/// The value of one hexadecimal digit.
pub open spec fn hex_digit_val(c: u8) -> int {
    if is_digit(c) {
        c - 0x30
    } else if 0x61 <= c <= 0x66 {
        c - 0x61 + 10
    } else {
        c - 0x41 + 10
    }
}

/// The value of a run of hexadecimal digits.
pub open spec fn hex_val(s: Seq<u8>) -> int
    decreases s.len(),
{
    if s.len() == 0 {
        0
    } else {
        hex_val(s.drop_last()) * 16 + hex_digit_val(s.last())
    }
}

/// A sixteen-bit address group: one to four hexadecimal digits.
pub open spec fn is_group(s: Seq<u8>) -> bool {
    1 <= s.len() <= 4 && forall|i: int| 0 <= i < s.len() ==> is_hex_digit(#[trigger] s[i])
}

/// The least index holding `sep`, or the length when none does.
pub open spec fn find_sep(s: Seq<u8>, sep: u8) -> nat
    decreases s.len(),
{
    if s.len() == 0 {
        0
    } else if s[0] == sep {
        0
    } else {
        1 + find_sep(s.drop_first(), sep)
    }
}

/// The parts of `s` between occurrences of `sep`; always at least one part.
pub open spec fn split_sep(s: Seq<u8>, sep: u8) -> Seq<Seq<u8>>
    decreases s.len(),
{
    let i = find_sep(s, sep) as int;
    if i >= s.len() {
        seq![s]
    } else {
        seq![s.subrange(0, i)] + split_sep(s.subrange(i + 1, s.len() as int), sep)
    }
}

/// `find_sep` is the position of the first occurrence.
pub proof fn lemma_find_sep(s: Seq<u8>, sep: u8, i: int)
    requires
        0 <= i <= s.len(),
        forall|j: int| 0 <= j < i ==> s[j] != sep,
        i < s.len() ==> s[i] == sep,
    ensures
        find_sep(s, sep) == i,
    decreases s.len(),
{
    if s.len() > 0 && i > 0 {
        lemma_find_sep(s.drop_first(), sep, i - 1);
    }
}

/// The value of an IPv4 dotted quad, when `s` is one.
pub open spec fn ipv4_spec(s: Seq<u8>) -> Option<u32> {
    let parts = split_sep(s, 0x2e);
    if parts.len() == 4 && is_octet(parts[0]) && is_octet(parts[1]) && is_octet(parts[2])
        && is_octet(parts[3]) {
        Some(
            (digits_val(parts[0]) * 0x1000000 + digits_val(parts[1]) * 0x10000 + digits_val(
                parts[2],
            ) * 0x100 + digits_val(parts[3])) as u32,
        )
    } else {
        None
    }
}

/// The value of eight sixteen-bit words read big-endian.
pub open spec fn words_value(ws: Seq<int>) -> int
    decreases ws.len(),
{
    if ws.len() == 0 {
        0
    } else {
        words_value(ws.drop_last()) * 0x10000 + ws.last()
    }
}

/// The word values of a run of colon-separated groups.
pub open spec fn group_vals(gs: Seq<Seq<u8>>) -> Seq<int> {
    gs.map_values(|g: Seq<u8>| hex_val(g))
}

/// True when every part of `gs` is a hexadecimal group.
pub open spec fn all_groups(gs: Seq<Seq<u8>>) -> bool {
    forall|i: int| 0 <= i < gs.len() ==> is_group(#[trigger] gs[i])
}

/// The least index where `::` starts, or the length when it nowhere does.
pub open spec fn find_dc(s: Seq<u8>) -> nat
    decreases s.len(),
{
    if s.len() < 2 {
        s.len() as nat
    } else if s[0] == 0x3a && s[1] == 0x3a {
        0
    } else {
        1 + find_dc(s.drop_first())
    }
}

/// `find_dc` finds the first `::`.
pub proof fn lemma_find_dc_found(s: Seq<u8>, i: int)
    requires
        0 <= i,
        i + 1 < s.len(),
        forall|j: int|
            0 <= j < i ==> !((#[trigger] s[j]) == 0x3a && s[j + 1] == 0x3a),
        s[i] == 0x3a && s[i + 1] == 0x3a,
    ensures
        find_dc(s) == i,
    decreases s.len(),
{
    if i > 0 {
        lemma_find_dc_found(s.drop_first(), i - 1);
    }
}

/// Where no `::` occurs, `find_dc` runs off the end.
pub proof fn lemma_find_dc_none(s: Seq<u8>)
    requires
        forall|j: int|
            0 <= j && j + 1 < s.len() ==> !((#[trigger] s[j]) == 0x3a && s[j + 1] == 0x3a),
    ensures
        find_dc(s) + 1 >= s.len(),
    decreases s.len(),
{
    if s.len() >= 2 {
        lemma_find_dc_none(s.drop_first());
    }
}

/// The group byte runs on one side of a `::`, none for an empty side.
pub open spec fn side_groups(s: Seq<u8>) -> Seq<Seq<u8>> {
    if s.len() == 0 {
        Seq::empty()
    } else {
        split_sep(s, 0x3a)
    }
}

/// The value of an IPv6 address written as colon-separated hexadecimal
/// groups, with at most one `::` abbreviating the zero groups in between.
/// The embedded-dotted-quad form is not part of this grammar.
pub open spec fn ipv6_spec(s: Seq<u8>) -> Option<u128> {
    let d = find_dc(s) as int;
    if d + 1 < s.len() {
        let left = side_groups(s.subrange(0, d));
        let right = side_groups(s.subrange(d + 2, s.len() as int));
        if all_groups(left) && all_groups(right) && left.len() + right.len() <= 7 {
            let words = group_vals(left) + Seq::new(
                (8 - left.len() - right.len()) as nat,
                |i: int| 0,
            ) + group_vals(right);
            Some(words_value(words) as u128)
        } else {
            None
        }
    } else {
        let gs = split_sep(s, 0x3a);
        if gs.len() == 8 && all_groups(gs) {
            Some(words_value(group_vals(gs)) as u128)
        } else {
            None
        }
    }
}

/// An address literal: a dotted quad, else a colon-separated group form.
pub open spec fn parse_ip_spec(s: Seq<u8>) -> Option<IpAddress> {
    if ipv4_spec(s) is Some {
        Some(IpAddress::V4(ipv4_spec(s).unwrap()))
    } else if ipv6_spec(s) is Some {
        Some(IpAddress::V6(ipv6_spec(s).unwrap()))
    } else {
        None
    }
}

/// Copies `s[a..b]` into a fresh buffer.
pub(crate) fn copy_range(s: &[u8], a: usize, b: usize) -> (r: Vec<u8>)
    requires
        a <= b <= s@.len(),
    ensures
        r@ == s@.subrange(a as int, b as int),
{
    let mut r: Vec<u8> = Vec::new();
    let mut i: usize = a;
    while i < b
        invariant
            a <= i <= b <= s@.len(),
            r@ == s@.subrange(a as int, i as int),
        decreases b - i,
    {
        r.push(s[i]);
        assert(r@ =~= s@.subrange(a as int, i + 1 as int));
        i += 1;
    }
    r
}

/// Splits a buffer at every occurrence of `sep`.
fn split_bytes(s: &[u8], sep: u8) -> (parts: Vec<Vec<u8>>)
    ensures
        parts@.map_values(|p: Vec<u8>| p@) == split_sep(s@, sep),
{
    let n = s.len();
    let mut parts: Vec<Vec<u8>> = Vec::new();
    let mut start: usize = 0;
    let mut i: usize = 0;
    proof {
        assert(s@.subrange(0, n as int) =~= s@);
    }
    while i < n
        invariant
            n == s@.len(),
            start <= i <= n,
            forall|j: int| start <= j < i ==> (#[trigger] s@[j]) != sep,
            split_sep(s@, sep) == parts@.map_values(|p: Vec<u8>| p@) + split_sep(
                s@.subrange(start as int, n as int),
                sep,
            ),
        decreases n - i,
    {
        if s[i] == sep {
            let part = copy_range(s, start, i);
            proof {
                let rest = s@.subrange(start as int, n as int);
                lemma_find_sep(rest, sep, i - start);
                assert(rest.subrange(0, i - start) =~= s@.subrange(start as int, i as int));
                assert(rest.subrange(i - start + 1, rest.len() as int) =~= s@.subrange(
                    i + 1 as int,
                    n as int,
                ));
                assert((parts@.push(part)).map_values(|p: Vec<u8>| p@) =~= parts@.map_values(
                    |p: Vec<u8>| p@,
                ).push(part@));
                assert(parts@.map_values(|p: Vec<u8>| p@) + split_sep(rest, sep)
                    =~= parts@.map_values(|p: Vec<u8>| p@).push(part@) + split_sep(
                    s@.subrange(i + 1 as int, n as int),
                    sep,
                ));
            }
            parts.push(part);
            start = i + 1;
        }
        i += 1;
    }
    let part = copy_range(s, start, n);
    proof {
        let rest = s@.subrange(start as int, n as int);
        lemma_find_sep(rest, sep, n - start);
        assert(split_sep(rest, sep) == seq![rest]);
        assert((parts@.push(part)).map_values(|p: Vec<u8>| p@) =~= parts@.map_values(
            |p: Vec<u8>| p@,
        ).push(part@));
        assert(parts@.map_values(|p: Vec<u8>| p@) + seq![rest] =~= parts@.map_values(
            |p: Vec<u8>| p@,
        ).push(part@));
    }
    parts.push(part);
    parts
}

/// Digit runs have small values: one digit per factor of ten.
pub proof fn lemma_digits_val_bound(s: Seq<u8>)
    requires
        forall|i: int| 0 <= i < s.len() ==> is_digit(#[trigger] s[i]),
    ensures
        0 <= digits_val(s),
        s.len() <= 3 ==> digits_val(s) <= 999,
        s.len() <= 2 ==> digits_val(s) <= 99,
        s.len() <= 1 ==> digits_val(s) <= 9,
    decreases s.len(),
{
    if s.len() > 0 {
        assert(forall|i: int|
            0 <= i < s.drop_last().len() ==> is_digit(#[trigger] s.drop_last()[i]));
        lemma_digits_val_bound(s.drop_last());
    }
}

/// Hexadecimal runs have small values: one digit per factor of sixteen.
pub proof fn lemma_hex_val_bound(s: Seq<u8>)
    requires
        forall|i: int| 0 <= i < s.len() ==> is_hex_digit(#[trigger] s[i]),
    ensures
        0 <= hex_val(s),
        s.len() <= 4 ==> hex_val(s) <= 0xffff,
        s.len() <= 3 ==> hex_val(s) <= 0xfff,
        s.len() <= 2 ==> hex_val(s) <= 0xff,
        s.len() <= 1 ==> hex_val(s) <= 0xf,
    decreases s.len(),
{
    if s.len() > 0 {
        assert(forall|i: int|
            0 <= i < s.drop_last().len() ==> is_hex_digit(#[trigger] s.drop_last()[i]));
        lemma_hex_val_bound(s.drop_last());
    }
}

/// Reads a small decimal number of one to three digits.
pub(crate) fn parse_dec_octet_pub(p: &Vec<u8>) -> (r: Option<u32>)
    ensures
        r is Some <==> is_octet(p@),
        r is Some ==> r.unwrap() == digits_val(p@),
{
    parse_dec_octet(p)
}

/// Reads a dotted-quad part: some value when it is one.
fn parse_dec_octet(p: &Vec<u8>) -> (r: Option<u32>)
    ensures
        r is Some <==> is_octet(p@),
        r is Some ==> r.unwrap() == digits_val(p@),
{
    let n = p.len();
    if n < 1 || n > 3 {
        return None;
    }
    let mut acc: u32 = 0;
    let mut i: usize = 0;
    while i < n
        invariant
            n == p@.len(),
            1 <= n <= 3,
            i <= n,
            forall|j: int| 0 <= j < i ==> is_digit(#[trigger] p@[j]),
            acc == digits_val(p@.subrange(0, i as int)),
            acc <= 999,
        decreases n - i,
    {
        let c = p[i];
        if c < 0x30 || c > 0x39 {
            return None;
        }
        proof {
            assert(forall|j: int|
                0 <= j < i ==> is_digit(#[trigger] p@.subrange(0, i as int)[j]));
            lemma_digits_val_bound(p@.subrange(0, i as int));
            assert(p@.subrange(0, i + 1 as int).drop_last() =~= p@.subrange(0, i as int));
        }
        acc = acc * 10 + (c - 0x30) as u32;
        i += 1;
    }
    proof {
        assert(p@.subrange(0, n as int) =~= p@);
    }
    if acc > 255 {
        None
    } else {
        Some(acc)
    }
}

/// Reads an address group: some value when it is one.
fn parse_hex_group(p: &Vec<u8>) -> (r: Option<u32>)
    ensures
        r is Some <==> is_group(p@),
        r is Some ==> r.unwrap() == hex_val(p@) && r.unwrap() <= 0xffff,
{
    let n = p.len();
    if n < 1 || n > 4 {
        return None;
    }
    let mut acc: u32 = 0;
    let mut i: usize = 0;
    while i < n
        invariant
            n == p@.len(),
            1 <= n <= 4,
            i <= n,
            forall|j: int| 0 <= j < i ==> is_hex_digit(#[trigger] p@[j]),
            acc == hex_val(p@.subrange(0, i as int)),
            acc <= 0xffff,
        decreases n - i,
    {
        let c = p[i];
        let d: u32 = if c >= 0x30 && c <= 0x39 {
            (c - 0x30) as u32
        } else if c >= 0x61 && c <= 0x66 {
            (c - 0x61) as u32 + 10
        } else if c >= 0x41 && c <= 0x46 {
            (c - 0x41) as u32 + 10
        } else {
            return None;
        };
        proof {
            assert(forall|j: int|
                0 <= j < i ==> is_hex_digit(#[trigger] p@.subrange(0, i as int)[j]));
            lemma_hex_val_bound(p@.subrange(0, i as int));
            assert(p@.subrange(0, i + 1 as int).drop_last() =~= p@.subrange(0, i as int));
        }
        acc = acc * 16 + d;
        i += 1;
    }
    proof {
        assert(p@.subrange(0, n as int) =~= p@);
    }
    Some(acc)
}

/// Reads an IPv4 dotted quad.
pub fn parse_ipv4(s: &[u8]) -> (r: Option<u32>)
    ensures
        r == ipv4_spec(s@),
{
    let parts = split_bytes(s, 0x2e);
    let ghost pv = parts@.map_values(|p: Vec<u8>| p@);
    if parts.len() != 4 {
        return None;
    }
    proof {
        assert(pv[0] == parts@[0]@ && pv[1] == parts@[1]@ && pv[2] == parts@[2]@ && pv[3]
            == parts@[3]@);
    }
    let a = match parse_dec_octet(&parts[0]) {
        Some(v) => v,
        None => {
            return None;
        },
    };
    let b = match parse_dec_octet(&parts[1]) {
        Some(v) => v,
        None => {
            return None;
        },
    };
    let c = match parse_dec_octet(&parts[2]) {
        Some(v) => v,
        None => {
            return None;
        },
    };
    let d = match parse_dec_octet(&parts[3]) {
        Some(v) => v,
        None => {
            return None;
        },
    };
    Some(a * 0x1000000 + b * 0x10000 + c * 0x100 + d)
}

/// Reads every part as an address group.
fn parse_groups(parts: &Vec<Vec<u8>>) -> (r: Option<Vec<u32>>)
    ensures
        r is Some <==> all_groups(parts@.map_values(|p: Vec<u8>| p@)),
        r is Some ==> {
            let vals = r.unwrap()@;
            &&& vals.len() == parts@.len()
            &&& vals.map_values(|w: u32| w as int) == group_vals(
                parts@.map_values(|p: Vec<u8>| p@),
            )
            &&& forall|k: int| 0 <= k < vals.len() ==> (#[trigger] vals[k]) <= 0xffff
        },
{
    let ghost pv = parts@.map_values(|p: Vec<u8>| p@);
    let n = parts.len();
    let mut vals: Vec<u32> = Vec::new();
    let mut i: usize = 0;
    while i < n
        invariant
            n == parts@.len(),
            pv == parts@.map_values(|p: Vec<u8>| p@),
            i <= n,
            vals@.len() == i,
            forall|k: int| 0 <= k < i ==> is_group(#[trigger] pv[k]),
            forall|k: int| 0 <= k < i ==> (#[trigger] vals@[k]) <= 0xffff,
            forall|k: int| 0 <= k < i ==> (#[trigger] vals@[k]) as int == hex_val(pv[k]),
        decreases n - i,
    {
        match parse_hex_group(&parts[i]) {
            Some(v) => {
                vals.push(v);
            },
            None => {
                proof {
                    assert(!is_group(pv[i as int]));
                }
                return None;
            },
        }
        i += 1;
    }
    proof {
        assert(vals@.map_values(|w: u32| w as int) =~= group_vals(pv));
    }
    Some(vals)
}

/// The largest value `i` big-endian sixteen-bit words can fold to.
pub open spec fn fold_bound(i: int) -> u128 {
    if i <= 0 {
        0
    } else if i == 1 {
        0xffff
    } else if i == 2 {
        0xffff_ffff
    } else if i == 3 {
        0xffff_ffff_ffff
    } else if i == 4 {
        0xffff_ffff_ffff_ffff
    } else if i == 5 {
        0xffff_ffff_ffff_ffff_ffff
    } else if i == 6 {
        0xffff_ffff_ffff_ffff_ffff_ffff
    } else if i == 7 {
        0xffff_ffff_ffff_ffff_ffff_ffff_ffff
    } else {
        0xffff_ffff_ffff_ffff_ffff_ffff_ffff_ffff
    }
}

/// Folds eight sixteen-bit words into one 128-bit value, big-endian.
fn words_to_u128(vals: &Vec<u32>) -> (r: u128)
    requires
        vals@.len() == 8,
        forall|k: int| 0 <= k < 8 ==> (#[trigger] vals@[k]) <= 0xffff,
    ensures
        r == words_value(vals@.map_values(|w: u32| w as int)),
{
    let ghost ws = vals@.map_values(|w: u32| w as int);
    let n: usize = 8;
    let mut acc: u128 = 0;
    let mut i: usize = 0;
    proof {
        assert(ws.subrange(0, 0) =~= Seq::<int>::empty());
    }
    while i < n
        invariant
            n == 8,
            ws == vals@.map_values(|w: u32| w as int),
            vals@.len() == 8,
            forall|k: int| 0 <= k < 8 ==> (#[trigger] vals@[k]) <= 0xffff,
            i <= 8,
            acc == words_value(ws.subrange(0, i as int)),
            acc <= fold_bound(i as int),
        decreases n - i,
    {
        proof {
            assert(ws.subrange(0, i + 1 as int).drop_last() =~= ws.subrange(0, i as int));
            assert(ws.subrange(0, i + 1 as int).last() == ws[i as int]);
        }
        acc = acc * 0x10000 + (vals[i] as u128);
        i += 1;
    }
    proof {
        assert(ws.subrange(0, 8) =~= ws);
    }
    acc
}

/// Reads an IPv6 group form, with at most one `::`.
pub fn parse_ipv6(s: &[u8]) -> (r: Option<u128>)
    ensures
        r == ipv6_spec(s@),
{
    let n = s.len();
    let mut found = false;
    let mut d: usize = 0;
    let mut i: usize = 0;
    while !found && i < n && n - i > 1
        invariant
            n == s@.len(),
            i <= n,
            !found ==> d == 0 && forall|j: int|
                0 <= j < i ==> !((#[trigger] s@[j]) == 0x3a && s@[j + 1] == 0x3a),
            found ==> d as int + 1 < n && s@[d as int] == 0x3a && s@[d as int + 1] == 0x3a
                && forall|j: int|
                0 <= j < d ==> !((#[trigger] s@[j]) == 0x3a && s@[j + 1] == 0x3a),
        decreases n - i,
    {
        if s[i] == 0x3a && s[i + 1] == 0x3a {
            d = i;
            found = true;
        }
        i += 1;
    }
    if found {
        proof {
            lemma_find_dc_found(s@, d as int);
        }
        let left_s = copy_range(s, 0, d);
        let right_s = copy_range(s, d + 2, n);
        let left_parts: Vec<Vec<u8>> = if left_s.len() == 0 {
            Vec::new()
        } else {
            split_bytes(left_s.as_slice(), 0x3a)
        };
        let right_parts: Vec<Vec<u8>> = if right_s.len() == 0 {
            Vec::new()
        } else {
            split_bytes(right_s.as_slice(), 0x3a)
        };
        proof {
            assert(left_parts@.map_values(|p: Vec<u8>| p@) == side_groups(
                s@.subrange(0, d as int),
            ));
            assert(right_parts@.map_values(|p: Vec<u8>| p@) == side_groups(
                s@.subrange(d + 2 as int, n as int),
            ));
        }
        let lv = match parse_groups(&left_parts) {
            Some(v) => v,
            None => {
                return None;
            },
        };
        let rv = match parse_groups(&right_parts) {
            Some(v) => v,
            None => {
                return None;
            },
        };
        if lv.len() >= 8 || rv.len() >= 8 || lv.len() + rv.len() > 7 {
            return None;
        }
        let ghost left = side_groups(s@.subrange(0, d as int));
        let ghost right = side_groups(s@.subrange(d + 2 as int, n as int));
        let ghost words = group_vals(left) + Seq::new(
            (8 - left.len() - right.len()) as nat,
            |k: int| 0,
        ) + group_vals(right);
        let mut vals: Vec<u32> = Vec::new();
        let llen = lv.len();
        let rlen = rv.len();
        let mut k: usize = 0;
        while k < llen
            invariant
                llen == lv@.len(),
                k <= llen,
                vals@.len() == k,
                forall|j: int| 0 <= j < k ==> (#[trigger] vals@[j]) == lv@[j],
            decreases llen - k,
        {
            vals.push(lv[k]);
            k += 1;
        }
        let zeros = 8 - llen - rlen;
        let mut z: usize = 0;
        while z < zeros
            invariant
                llen == lv@.len(),
                z <= zeros,
                vals@.len() == llen + z,
                forall|j: int| 0 <= j < llen ==> (#[trigger] vals@[j]) == lv@[j],
                forall|j: int| llen <= j < llen + z ==> (#[trigger] vals@[j]) == 0,
            decreases zeros - z,
        {
            vals.push(0);
            z += 1;
        }
        let mut q: usize = 0;
        while q < rlen
            invariant
                llen == lv@.len(),
                rlen == rv@.len(),
                llen + rlen <= 7,
                q <= rlen,
                vals@.len() == llen + (8 - llen - rlen) + q,
                forall|j: int| 0 <= j < llen ==> (#[trigger] vals@[j]) == lv@[j],
                forall|j: int| llen <= j < 8 - rlen ==> (#[trigger] vals@[j]) == 0,
                forall|j: int|
                    8 - rlen <= j < 8 - rlen + q ==> (#[trigger] vals@[j]) == rv@[j - (8 - rlen)],
            decreases rlen - q,
        {
            vals.push(rv[q]);
            q += 1;
        }
        proof {
            assert(vals@.map_values(|w: u32| w as int) =~= words);
        }
        let value = words_to_u128(&vals);
        Some(value)
    } else {
        proof {
            lemma_find_dc_none(s@);
        }
        let parts = split_bytes(s, 0x3a);
        if parts.len() != 8 {
            return None;
        }
        let gv = match parse_groups(&parts) {
            Some(v) => v,
            None => {
                return None;
            },
        };
        let value = words_to_u128(&gv);
        Some(value)
    }
}

/// Reads an address literal: a dotted quad, else a colon-separated group
/// form.
pub fn parse_ip(s: &[u8]) -> (r: Option<IpAddress>)
    ensures
        r == parse_ip_spec(s@),
{
    match parse_ipv4(s) {
        Some(v) => Some(IpAddress::V4(v)),
        None => match parse_ipv6(s) {
            Some(v) => Some(IpAddress::V6(v)),
            None => None,
        },
    }
}

} // verus!
