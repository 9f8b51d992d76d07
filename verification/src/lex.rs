//! Reading literals and literal sets out of filter source text: the per-kind
//! dispatch driven by a declared type, over a byte buffer and a cursor.

use vstd::prelude::*;
use crate::addr::{
    IpAddress, digits_val, find_sep, is_digit, is_hex_digit, lemma_find_sep, parse_ip,
    parse_ip_spec,
};
use crate::literal::{IntRange, IpRange, RhsValue, RhsValues};
use crate::types::Type;

verus! {

/// A lexical error: the position where reading stopped.
#[derive(Debug, PartialEq, Eq, Structural)]
pub struct LexError {
    /// The cursor position the error was raised at.
    pub pos: usize,
}

/// True of the whitespace bytes the lexer skips.
pub open spec fn is_space(c: u8) -> bool {
    c == 0x20 || c == 0x09 || c == 0x0a || c == 0x0d
}

/// True of the bytes an address literal is drawn from.
pub open spec fn is_ip_char(c: u8) -> bool {
    is_hex_digit(c) || c == 0x3a || c == 0x2e
}

/// The end of the run of bytes satisfying `digits` (`true`: decimal digits;
/// `false`: address bytes) that starts at `pos`.
pub open spec fn run_end(s: Seq<u8>, pos: int, digits: bool) -> int
    decreases s.len() - pos,
{
    if pos < 0 || pos >= s.len() {
        pos
    } else if (digits && is_digit(s[pos])) || (!digits && is_ip_char(s[pos])) {
        run_end(s, pos + 1, digits)
    } else {
        pos
    }
}

/// An integer literal: an optional minus sign, then one to ten decimal
/// digits, read as a 32-bit value; out-of-range values are refused.
pub open spec fn lex_int_spec(s: Seq<u8>, pos: int) -> Option<(i32, int)> {
    let neg = pos < s.len() && s[pos] == 0x2d;
    let start = if neg {
        pos + 1
    } else {
        pos
    };
    let end = run_end(s, start, true);
    let k = end - start;
    if k < 1 || k > 10 {
        None
    } else {
        let v = digits_val(s.subrange(start, end));
        if neg {
            if v <= 0x8000_0000 {
                Some((((-1) * v) as i32, end))
            } else {
                None
            }
        } else {
            if v <= 0x7fff_ffff {
                Some((v as i32, end))
            } else {
                None
            }
        }
    }
}

/// A byte-string literal: a double-quoted run of raw bytes, no escapes; an
/// unterminated literal is refused.
pub open spec fn lex_bytes_spec(s: Seq<u8>, pos: int) -> Option<(Seq<u8>, int)> {
    if 0 <= pos < s.len() && s[pos] == 0x22 {
        let rest = s.subrange(pos + 1, s.len() as int);
        let k = find_sep(rest, 0x22) as int;
        if k < rest.len() {
            Some((rest.subrange(0, k), pos + 2 + k))
        } else {
            None
        }
    } else {
        None
    }
}

/// An address literal: the maximal run of address bytes, read as an address.
pub open spec fn lex_ip_spec(s: Seq<u8>, pos: int) -> Option<(IpAddress, int)> {
    let end = run_end(s, pos, false);
    if end == pos {
        None
    } else {
        match parse_ip_spec(s.subrange(pos, end)) {
            Some(a) => Some((a, end)),
            None => None,
        }
    }
}

/// The IPv4 addresses sharing the first `n` bits of `v`: the bounds of a
/// CIDR block.
pub open spec fn v4_block(v: u32, n: int) -> (u32, u32) {
    if n <= 0 {
        (0, 0xffff_ffff)
    } else if n >= 32 {
        (v, v)
    } else {
        let hm = 0xffff_ffffu32 >> (n as u32);
        (v & !hm, v | hm)
    }
}

/// The IPv6 addresses sharing the first `n` bits of `v`.
pub open spec fn v6_block(v: u128, n: int) -> (u128, u128) {
    if n <= 0 {
        (0, 0xffff_ffff_ffff_ffff_ffff_ffff_ffff_ffff)
    } else if n >= 128 {
        (v, v)
    } else {
        let hm = 0xffff_ffff_ffff_ffff_ffff_ffff_ffff_ffffu128 >> (n as u128);
        (v & !hm, v | hm)
    }
}

/// The end of the whitespace run starting at `pos`.
pub open spec fn space_end(s: Seq<u8>, pos: int) -> int
    decreases s.len() - pos,
{
    if pos < 0 || pos >= s.len() {
        pos
    } else if is_space(s[pos]) {
        space_end(s, pos + 1)
    } else {
        pos
    }
}

/// The scan that ends a whitespace run reports exactly `space_end`.
pub proof fn lemma_space_end(s: Seq<u8>, pos: int, e: int)
    requires
        0 <= pos <= e <= s.len(),
        forall|j: int| pos <= j < e ==> is_space(#[trigger] s[j]),
        e < s.len() ==> !is_space(s[e]),
    ensures
        space_end(s, pos) == e,
    decreases e - pos,
{
    if pos < e {
        lemma_space_end(s, pos + 1, e);
    }
}

/// Skipping whitespace never moves backwards nor past the end.
pub proof fn lemma_space_end_bounds(s: Seq<u8>, pos: int)
    ensures
        pos <= space_end(s, pos),
        pos <= s.len() ==> space_end(s, pos) <= s.len(),
    decreases s.len() - pos,
{
    if 0 <= pos < s.len() && is_space(s[pos]) {
        lemma_space_end_bounds(s, pos + 1);
    }
}

/// Advances past whitespace.
pub fn skip_space(s: &[u8], pos: usize) -> (r: usize)
    requires
        pos <= s@.len(),
    ensures
        pos <= r <= s@.len(),
        r == space_end(s@, pos as int),
        forall|j: int| pos <= j < r ==> is_space(#[trigger] s@[j]),
        r < s@.len() ==> !is_space(s@[r as int]),
{
    let n = s.len();
    let mut i = pos;
    while i < n
        invariant
            pos <= i <= n,
            n == s@.len(),
            forall|j: int| pos <= j < i ==> is_space(#[trigger] s@[j]),
        decreases n - i,
    {
        let c = s[i];
        if !(c == 0x20 || c == 0x09 || c == 0x0a || c == 0x0d) {
            proof {
                lemma_space_end(s@, pos as int, i as int);
            }
            return i;
        }
        i += 1;
    }
    proof {
        lemma_space_end(s@, pos as int, i as int);
    }
    i
}

/// Consumes one expected byte.
pub fn expect_byte(s: &[u8], pos: usize, c: u8) -> (r: Option<usize>)
    requires
        pos <= s@.len(),
    ensures
        r is Some <==> (pos < s@.len() && s@[pos as int] == c),
        r is Some ==> r.unwrap() == pos + 1,
{
    if pos < s.len() && s[pos] == c {
        Some(pos + 1)
    } else {
        None
    }
}

/// A run of digits has one digit of value per factor of ten.
pub proof fn lemma_digits_val_bound10(s: Seq<u8>)
    requires
        forall|i: int| 0 <= i < s.len() ==> is_digit(#[trigger] s[i]),
        s.len() <= 10,
    ensures
        0 <= digits_val(s) <= dec_bound(s.len() as int),
    decreases s.len(),
{
    if s.len() > 0 {
        assert(forall|i: int|
            0 <= i < s.drop_last().len() ==> is_digit(#[trigger] s.drop_last()[i]));
        lemma_digits_val_bound10(s.drop_last());
    }
}

/// The largest value a run of `i` decimal digits can have.
pub open spec fn dec_bound(i: int) -> int {
    if i <= 0 {
        0
    } else if i == 1 {
        9
    } else if i == 2 {
        99
    } else if i == 3 {
        999
    } else if i == 4 {
        9999
    } else if i == 5 {
        99999
    } else if i == 6 {
        999999
    } else if i == 7 {
        9999999
    } else if i == 8 {
        99999999
    } else if i == 9 {
        999999999
    } else {
        9999999999
    }
}

/// The scan that ends a byte run reports exactly `run_end`.
pub proof fn lemma_run_end(s: Seq<u8>, pos: int, e: int, digits: bool)
    requires
        0 <= pos <= e <= s.len(),
        forall|j: int|
            pos <= j < e ==> (if digits {
                is_digit(#[trigger] s[j])
            } else {
                is_ip_char(#[trigger] s[j])
            }),
        e < s.len() ==> !(if digits {
            is_digit(s[e])
        } else {
            is_ip_char(s[e])
        }),
    ensures
        run_end(s, pos, digits) == e,
    decreases e - pos,
{
    if pos < e {
        lemma_run_end(s, pos + 1, e, digits);
    }
}

/// Scans the run of digit or address bytes from `pos`.
fn scan_run(s: &[u8], pos: usize, digits: bool) -> (e: usize)
    requires
        pos <= s@.len(),
    ensures
        pos <= e <= s@.len(),
        run_end(s@, pos as int, digits) == e,
        forall|j: int|
            pos <= j < e ==> (if digits {
                is_digit(#[trigger] s@[j])
            } else {
                is_ip_char(#[trigger] s@[j])
            }),
{
    let n = s.len();
    let mut e = pos;
    let mut stop = false;
    while !stop && e < n
        invariant
            pos <= e <= n,
            n == s@.len(),
            forall|j: int|
                pos <= j < e ==> (if digits {
                    is_digit(#[trigger] s@[j])
                } else {
                    is_ip_char(#[trigger] s@[j])
                }),
            stop ==> e < n && !(if digits {
                is_digit(s@[e as int])
            } else {
                is_ip_char(s@[e as int])
            }),
        decreases n - e, (if stop { 0int } else { 1int }),
    {
        let c = s[e];
        let m = if digits {
            c >= 0x30 && c <= 0x39
        } else {
            (c >= 0x30 && c <= 0x39) || (c >= 0x61 && c <= 0x66) || (c >= 0x41 && c <= 0x46)
                || c == 0x3a || c == 0x2e
        };
        if m {
            e += 1;
        } else {
            stop = true;
        }
    }
    proof {
        lemma_run_end(s@, pos as int, e as int, digits);
    }
    e
}

/// Reads an integer literal.
pub fn lex_int(s: &[u8], pos: usize) -> (r: Result<(i32, usize), LexError>)
    requires
        pos <= s@.len(),
    ensures
        match r {
            Ok((v, p)) => lex_int_spec(s@, pos as int) == Some((v, p as int)) && pos < p
                <= s@.len(),
            Err(_) => lex_int_spec(s@, pos as int) is None,
        },
{
    let n = s.len();
    let neg = pos < n && s[pos] == 0x2d;
    let start = if neg {
        pos + 1
    } else {
        pos
    };
    let e = scan_run(s, start, true);
    let k = e - start;
    if k < 1 || k > 10 {
        return Err(LexError { pos: start });
    }
    let mut acc: u64 = 0;
    let mut i = start;
    while i < e
        invariant
            start <= i <= e <= s@.len(),
            e - start <= 10,
            run_end(s@, start as int, true) == e,
            forall|j: int| start <= j < e ==> is_digit(#[trigger] s@[j]),
            acc == digits_val(s@.subrange(start as int, i as int)),
            acc <= 9999999999,
        decreases e - i,
    {
        proof {
            assert(forall|j: int|
                0 <= j < i - start ==> is_digit(
                    #[trigger] s@.subrange(start as int, i as int)[j],
                ));
            lemma_digits_val_bound10(s@.subrange(start as int, i as int));
            assert(s@.subrange(start as int, i + 1 as int).drop_last() =~= s@.subrange(
                start as int,
                i as int,
            ));
        }
        acc = acc * 10 + (s[i] - 0x30) as u64;
        i += 1;
    }
    if neg {
        if acc > 0x8000_0000 {
            Err(LexError { pos: start })
        } else {
            Ok(((-(acc as i64)) as i32, e))
        }
    } else {
        if acc > 0x7fff_ffff {
            Err(LexError { pos: start })
        } else {
            Ok((acc as i32, e))
        }
    }
}

/// Reads a byte-string literal.
pub fn lex_bytes_literal(s: &[u8], pos: usize) -> (r: Result<(Vec<u8>, usize), LexError>)
    requires
        pos <= s@.len(),
    ensures
        match r {
            Ok((b, p)) => lex_bytes_spec(s@, pos as int) == Some((b@, p as int)) && pos < p
                <= s@.len(),
            Err(_) => lex_bytes_spec(s@, pos as int) is None,
        },
{
    let n = s.len();
    if !(pos < n && s[pos] == 0x22) {
        return Err(LexError { pos });
    }
    let mut j = pos + 1;
    while j < n
        invariant
            pos + 1 <= j <= n,
            n == s@.len(),
            s@[pos as int] == 0x22,
            forall|t: int| pos + 1 <= t < j ==> (#[trigger] s@[t]) != 0x22,
        decreases n - j,
    {
        if s[j] == 0x22 {
            let part = crate::addr::copy_range(s, pos + 1, j);
            proof {
                let rest = s@.subrange(pos + 1 as int, n as int);
                lemma_find_sep(rest, 0x22, j - (pos + 1));
                assert(rest.subrange(0, j - (pos + 1)) =~= s@.subrange(
                    pos + 1 as int,
                    j as int,
                ));
            }
            return Ok((part, j + 1));
        }
        j += 1;
    }
    proof {
        let rest = s@.subrange(pos + 1 as int, n as int);
        lemma_find_sep(rest, 0x22, n - (pos + 1));
    }
    Err(LexError { pos: n })
}

/// Reads an address literal.
pub fn lex_ip_value(s: &[u8], pos: usize) -> (r: Result<(IpAddress, usize), LexError>)
    requires
        pos <= s@.len(),
    ensures
        match r {
            Ok((a, p)) => lex_ip_spec(s@, pos as int) == Some((a, p as int)) && pos < p
                <= s@.len(),
            Err(_) => lex_ip_spec(s@, pos as int) is None,
        },
{
    let e = scan_run(s, pos, false);
    if e == pos {
        return Err(LexError { pos });
    }
    let tok = crate::addr::copy_range(s, pos, e);
    match parse_ip(tok.as_slice()) {
        Some(a) => Ok((a, e)),
        None => Err(LexError { pos }),
    }
}

/// An address-range literal: an address, optionally followed by `/` and a
/// prefix length, standing for its CIDR block.
pub open spec fn lex_ip_range_spec(s: Seq<u8>, pos: int) -> Option<(IpRange, int)> {
    match lex_ip_spec(s, pos) {
        None => None,
        Some((a, p)) => if p < s.len() && s[p] == 0x2f {
            let end = run_end(s, p + 1, true);
            let k = end - (p + 1);
            if k < 1 || k > 3 || digits_val(s.subrange(p + 1, end)) > 255 {
                None
            } else {
                let m = digits_val(s.subrange(p + 1, end));
                match a {
                    IpAddress::V4(v) => if m <= 32 {
                        Some(
                            (
                                IpRange {
                                    first: IpAddress::V4(v4_block(v, m).0),
                                    last: IpAddress::V4(v4_block(v, m).1),
                                },
                                end,
                            ),
                        )
                    } else {
                        None
                    },
                    IpAddress::V6(v) => if m <= 128 {
                        Some(
                            (
                                IpRange {
                                    first: IpAddress::V6(v6_block(v, m).0),
                                    last: IpAddress::V6(v6_block(v, m).1),
                                },
                                end,
                            ),
                        )
                    } else {
                        None
                    },
                }
            }
        } else {
            Some((IpRange { first: a, last: a }, p))
        },
    }
}

/// Reads an address-range literal.
pub fn lex_ip_range(s: &[u8], pos: usize) -> (r: Result<(IpRange, usize), LexError>)
    requires
        pos <= s@.len(),
    ensures
        match r {
            Ok((g, p)) => lex_ip_range_spec(s@, pos as int) == Some((g, p as int)) && pos < p
                <= s@.len(),
            Err(_) => lex_ip_range_spec(s@, pos as int) is None,
        },
{
    let (a, p) = match lex_ip_value(s, pos) {
        Ok(x) => x,
        Err(e) => {
            return Err(e);
        },
    };
    let n = s.len();
    if p < n && s[p] == 0x2f {
        let end = scan_run(s, p + 1, true);
        let k = end - (p + 1);
        if k < 1 || k > 3 {
            return Err(LexError { pos: p });
        }
        let pref = crate::addr::copy_range(s, p + 1, end);
        let m = match crate::addr::parse_dec_octet_pub(&pref) {
            Some(v) => v,
            None => {
                return Err(LexError { pos: p });
            },
        };
        match a {
            IpAddress::V4(v) => {
                if m > 32 {
                    return Err(LexError { pos: p });
                }
                let block = if m == 0 {
                    (0u32, 0xffff_ffffu32)
                } else if m >= 32 {
                    (v, v)
                } else {
                    let hm = 0xffff_ffffu32 >> m;
                    (v & !hm, v | hm)
                };
                Ok((IpRange { first: IpAddress::V4(block.0), last: IpAddress::V4(block.1) }, end))
            },
            IpAddress::V6(v) => {
                if m > 128 {
                    return Err(LexError { pos: p });
                }
                let block = if m == 0 {
                    (0u128, 0xffff_ffff_ffff_ffff_ffff_ffff_ffff_ffffu128)
                } else if m >= 128 {
                    (v, v)
                } else {
                    let hm = 0xffff_ffff_ffff_ffff_ffff_ffff_ffff_ffffu128 >> (m as u128);
                    (v & !hm, v | hm)
                };
                Ok((IpRange { first: IpAddress::V6(block.0), last: IpAddress::V6(block.1) }, end))
            },
        }
    } else {
        Ok((IpRange { first: a, last: a }, p))
    }
}

/// An integer-range literal: an integer, optionally `..` and a second
/// integer; a single integer stands for the range holding it alone.
pub open spec fn lex_int_range_spec(s: Seq<u8>, pos: int) -> Option<(IntRange, int)> {
    match lex_int_spec(s, pos) {
        None => None,
        Some((a, p)) => if p + 1 < s.len() && s[p] == 0x2e && s[p + 1] == 0x2e {
            match lex_int_spec(s, p + 2) {
                None => None,
                Some((b, q)) => Some((IntRange { first: a, last: b }, q)),
            }
        } else {
            Some((IntRange { first: a, last: a }, p))
        },
    }
}

/// Reads an integer-range literal.
pub fn lex_int_range(s: &[u8], pos: usize) -> (r: Result<(IntRange, usize), LexError>)
    requires
        pos <= s@.len(),
    ensures
        match r {
            Ok((g, p)) => lex_int_range_spec(s@, pos as int) == Some((g, p as int)) && pos < p
                <= s@.len(),
            Err(_) => lex_int_range_spec(s@, pos as int) is None,
        },
{
    let (a, p) = match lex_int(s, pos) {
        Ok(x) => x,
        Err(e) => {
            return Err(e);
        },
    };
    let n = s.len();
    if p < n && n - p > 1 && s[p] == 0x2e && s[p + 1] == 0x2e {
        match lex_int(s, p + 2) {
            Ok((b, q)) => Ok((IntRange { first: a, last: b }, q)),
            Err(e) => Err(e),
        }
    } else {
        Ok((IntRange { first: a, last: a }, p))
    }
}

/// A byte run never starts before its cursor nor ends past the input.
pub proof fn lemma_run_end_bounds(s: Seq<u8>, pos: int, digits: bool)
    ensures
        pos <= run_end(s, pos, digits),
        pos <= s.len() ==> run_end(s, pos, digits) <= s.len(),
    decreases s.len() - pos,
{
    if 0 <= pos < s.len() && ((digits && is_digit(s[pos])) || (!digits && is_ip_char(s[pos]))) {
        lemma_run_end_bounds(s, pos + 1, digits);
    }
}

/// A read integer literal consumes at least one byte and stays in bounds.
pub proof fn lemma_lex_int_progress(s: Seq<u8>, pos: int)
    ensures
        lex_int_spec(s, pos) is Some ==> pos < lex_int_spec(s, pos).unwrap().1 <= s.len(),
{
    let neg = pos < s.len() && s[pos] == 0x2d;
    let start: int = if neg {
        pos + 1
    } else {
        pos
    };
    lemma_run_end_bounds(s, start, true);
}

/// A read integer-range literal consumes at least one byte and stays in
/// bounds.
pub proof fn lemma_lex_int_range_progress(s: Seq<u8>, pos: int)
    ensures
        lex_int_range_spec(s, pos) is Some ==> pos < lex_int_range_spec(s, pos).unwrap().1
            <= s.len(),
{
    lemma_lex_int_progress(s, pos);
    if lex_int_spec(s, pos) is Some {
        let p = lex_int_spec(s, pos).unwrap().1;
        lemma_lex_int_progress(s, p + 2);
    }
}

/// A read byte-string literal consumes at least one byte and stays in
/// bounds.
pub proof fn lemma_lex_bytes_progress(s: Seq<u8>, pos: int)
    ensures
        lex_bytes_spec(s, pos) is Some ==> pos < lex_bytes_spec(s, pos).unwrap().1 <= s.len(),
{
}

/// A read address literal consumes at least one byte and stays in bounds.
pub proof fn lemma_lex_ip_progress(s: Seq<u8>, pos: int)
    ensures
        lex_ip_spec(s, pos) is Some ==> pos < lex_ip_spec(s, pos).unwrap().1 <= s.len(),
{
    lemma_run_end_bounds(s, pos, false);
}

/// A read address-range literal consumes at least one byte and stays in
/// bounds.
pub proof fn lemma_lex_ip_range_progress(s: Seq<u8>, pos: int)
    ensures
        lex_ip_range_spec(s, pos) is Some ==> pos < lex_ip_range_spec(s, pos).unwrap().1
            <= s.len(),
{
    lemma_lex_ip_progress(s, pos);
    if lex_ip_spec(s, pos) is Some {
        let p = lex_ip_spec(s, pos).unwrap().1;
        lemma_run_end_bounds(s, p + 1, true);
    }
}

/// A literal set of integer ranges, read from after the opening brace:
/// whitespace, then either the closing brace or one entry and the rest.
pub open spec fn lex_set_int_spec(s: Seq<u8>, pos: int) -> Option<(Seq<IntRange>, int)>
    decreases s.len() - pos,
    via lex_set_int_spec_dec
{
    let sp = space_end(s, pos);
    if sp < s.len() && s[sp] == 0x7d {
        Some((Seq::empty(), sp + 1))
    } else {
        match lex_int_range_spec(s, sp) {
            None => None,
            Some((g, p)) => match lex_set_int_spec(s, p) {
                None => None,
                Some((rest, q)) => Some((seq![g] + rest, q)),
            },
        }
    }
}

#[via_fn]
proof fn lex_set_int_spec_dec(s: Seq<u8>, pos: int) {
    lemma_space_end_bounds(s, pos);
    lemma_lex_int_range_progress(s, space_end(s, pos));
}

/// A literal set of byte strings, read from after the opening brace.
pub open spec fn lex_set_bytes_spec(s: Seq<u8>, pos: int) -> Option<(Seq<Seq<u8>>, int)>
    decreases s.len() - pos,
    via lex_set_bytes_spec_dec
{
    let sp = space_end(s, pos);
    if sp < s.len() && s[sp] == 0x7d {
        Some((Seq::empty(), sp + 1))
    } else {
        match lex_bytes_spec(s, sp) {
            None => None,
            Some((g, p)) => match lex_set_bytes_spec(s, p) {
                None => None,
                Some((rest, q)) => Some((seq![g] + rest, q)),
            },
        }
    }
}

#[via_fn]
proof fn lex_set_bytes_spec_dec(s: Seq<u8>, pos: int) {
    lemma_space_end_bounds(s, pos);
    lemma_lex_bytes_progress(s, space_end(s, pos));
}

/// A literal set of address ranges, read from after the opening brace.
pub open spec fn lex_set_ip_spec(s: Seq<u8>, pos: int) -> Option<(Seq<IpRange>, int)>
    decreases s.len() - pos,
    via lex_set_ip_spec_dec
{
    let sp = space_end(s, pos);
    if sp < s.len() && s[sp] == 0x7d {
        Some((Seq::empty(), sp + 1))
    } else {
        match lex_ip_range_spec(s, sp) {
            None => None,
            Some((g, p)) => match lex_set_ip_spec(s, p) {
                None => None,
                Some((rest, q)) => Some((seq![g] + rest, q)),
            },
        }
    }
}

#[via_fn]
proof fn lex_set_ip_spec_dec(s: Seq<u8>, pos: int) {
    lemma_space_end_bounds(s, pos);
    lemma_lex_ip_range_progress(s, space_end(s, pos));
}

/// Reads one literal of the expected kind. The boolean and map kinds have no
/// literal form, so no call may name them.
pub fn lex_rhs_value(s: &[u8], pos: usize, ty: &Type) -> (r: Result<(RhsValue, usize), LexError>)
    requires
        pos <= s@.len(),
        !(*ty is Bool),
        !(*ty is Dict),
    ensures
        *ty is Ip ==> match r {
            Ok((v, p)) => match v {
                RhsValue::Ip(a) => lex_ip_spec(s@, pos as int) == Some((a, p as int)) && pos < p
                    <= s@.len(),
                _ => false,
            },
            Err(_) => lex_ip_spec(s@, pos as int) is None,
        },
        *ty is Bytes ==> match r {
            Ok((v, p)) => match v {
                RhsValue::Bytes(b) => lex_bytes_spec(s@, pos as int) == Some((b@, p as int))
                    && pos < p <= s@.len(),
                _ => false,
            },
            Err(_) => lex_bytes_spec(s@, pos as int) is None,
        },
        *ty is Int ==> match r {
            Ok((v, p)) => match v {
                RhsValue::Int(x) => lex_int_spec(s@, pos as int) == Some((x, p as int)) && pos < p
                    <= s@.len(),
                _ => false,
            },
            Err(_) => lex_int_spec(s@, pos as int) is None,
        },
{
    match ty {
        Type::Ip => match lex_ip_value(s, pos) {
            Ok((a, p)) => Ok((RhsValue::Ip(a), p)),
            Err(e) => Err(e),
        },
        Type::Bytes => match lex_bytes_literal(s, pos) {
            Ok((b, p)) => Ok((RhsValue::Bytes(b), p)),
            Err(e) => Err(e),
        },
        Type::Int => match lex_int(s, pos) {
            Ok((x, p)) => Ok((RhsValue::Int(x), p)),
            Err(e) => Err(e),
        },
        _ => Err(LexError { pos }),
    }
}

/// Reads a brace-delimited literal set of the expected kind: whitespace is
/// skipped before each entry, a closing brace ends the set, and anything
/// else must read as one literal of the kind; reaching the end of input
/// before the closing brace is a failure. The result always carries the
/// expected kind and exactly the entries the set spells out, in order.
pub fn lex_rhs_values(s: &[u8], pos: usize, ty: &Type) -> (r: Result<(RhsValues, usize), LexError>)
    requires
        pos <= s@.len(),
        !(*ty is Bool),
        !(*ty is Dict),
    ensures
        (pos == s@.len() || s@[pos as int] != 0x7b) ==> r is Err,
        match r {
            Ok((vs, p)) => pos < p <= s@.len() && crate::literal::rhs_values_kind(vs) == *ty
                && s@[p - 1] == 0x7d,
            Err(_) => true,
        },
        *ty is Int ==> match r {
            Ok((vs, p)) => match vs {
                RhsValues::Int(out) => lex_set_int_spec(s@, pos as int + 1) == Some(
                    (out@, p as int),
                ),
                _ => false,
            },
            Err(_) => pos == s@.len() || s@[pos as int] != 0x7b || lex_set_int_spec(
                s@,
                pos as int + 1,
            ) is None,
        },
        *ty is Bytes ==> match r {
            Ok((vs, p)) => match vs {
                RhsValues::Bytes(out) => lex_set_bytes_spec(s@, pos as int + 1) == Some(
                    (out@.map_values(|b: Vec<u8>| b@), p as int),
                ),
                _ => false,
            },
            Err(_) => pos == s@.len() || s@[pos as int] != 0x7b || lex_set_bytes_spec(
                s@,
                pos as int + 1,
            ) is None,
        },
        *ty is Ip ==> match r {
            Ok((vs, p)) => match vs {
                RhsValues::Ip(out) => lex_set_ip_spec(s@, pos as int + 1) == Some(
                    (out@, p as int),
                ),
                _ => false,
            },
            Err(_) => pos == s@.len() || s@[pos as int] != 0x7b || lex_set_ip_spec(
                s@,
                pos as int + 1,
            ) is None,
        },
{
    let n = s.len();
    let mut cur = match expect_byte(s, pos, 0x7b) {
        Some(p) => p,
        None => {
            return Err(LexError { pos });
        },
    };
    match ty {
        Type::Ip => {
            let mut out: Vec<IpRange> = Vec::new();
            loop
                invariant
                    pos < cur <= n,
                    n == s@.len(),
                    s@[pos as int] == 0x7b,
                    *ty is Ip,
                    match lex_set_ip_spec(s@, cur as int) {
                        Some(rq) => lex_set_ip_spec(s@, pos as int + 1) == Some(
                            (out@ + rq.0, rq.1),
                        ),
                        None => lex_set_ip_spec(s@, pos as int + 1) is None,
                    },
                decreases n - cur,
            {
                let sp = skip_space(s, cur);
                match expect_byte(s, sp, 0x7d) {
                    Some(p) => {
                        proof {
                            assert(lex_set_ip_spec(s@, cur as int) == Some(
                                (Seq::<IpRange>::empty(), sp as int + 1),
                            ));
                            assert(out@ + Seq::<IpRange>::empty() =~= out@);
                        }
                        return Ok((RhsValues::Ip(out), p));
                    },
                    None => {},
                }
                match lex_ip_range(s, sp) {
                    Ok((g, p)) => {
                        proof {
                            if lex_set_ip_spec(s@, p as int) is Some {
                                let rq2 = lex_set_ip_spec(s@, p as int).unwrap();
                                assert(lex_set_ip_spec(s@, cur as int) == Some(
                                    (seq![g] + rq2.0, rq2.1),
                                ));
                                assert(out@ + (seq![g] + rq2.0) =~= (out@.push(g)) + rq2.0);
                            } else {
                                assert(lex_set_ip_spec(s@, cur as int) is None);
                            }
                        }
                        out.push(g);
                        cur = p;
                    },
                    Err(e) => {
                        proof {
                            assert(lex_set_ip_spec(s@, cur as int) is None);
                        }
                        return Err(e);
                    },
                }
            }
        },
        Type::Bytes => {
            let mut out: Vec<Vec<u8>> = Vec::new();
            loop
                invariant
                    pos < cur <= n,
                    n == s@.len(),
                    s@[pos as int] == 0x7b,
                    *ty is Bytes,
                    match lex_set_bytes_spec(s@, cur as int) {
                        Some(rq) => lex_set_bytes_spec(s@, pos as int + 1) == Some(
                            (out@.map_values(|b: Vec<u8>| b@) + rq.0, rq.1),
                        ),
                        None => lex_set_bytes_spec(s@, pos as int + 1) is None,
                    },
                decreases n - cur,
            {
                let sp = skip_space(s, cur);
                match expect_byte(s, sp, 0x7d) {
                    Some(p) => {
                        proof {
                            assert(lex_set_bytes_spec(s@, cur as int) == Some(
                                (Seq::<Seq<u8>>::empty(), sp as int + 1),
                            ));
                            assert(out@.map_values(|b: Vec<u8>| b@) + Seq::<Seq<u8>>::empty()
                                =~= out@.map_values(|b: Vec<u8>| b@));
                        }
                        return Ok((RhsValues::Bytes(out), p));
                    },
                    None => {},
                }
                match lex_bytes_literal(s, sp) {
                    Ok((g, p)) => {
                        proof {
                            assert((out@.push(g)).map_values(|b: Vec<u8>| b@)
                                =~= out@.map_values(|b: Vec<u8>| b@).push(g@));
                            if lex_set_bytes_spec(s@, p as int) is Some {
                                let rq2 = lex_set_bytes_spec(s@, p as int).unwrap();
                                assert(lex_set_bytes_spec(s@, cur as int) == Some(
                                    (seq![g@] + rq2.0, rq2.1),
                                ));
                                assert(out@.map_values(|b: Vec<u8>| b@) + (seq![g@] + rq2.0)
                                    =~= out@.map_values(|b: Vec<u8>| b@).push(g@) + rq2.0);
                            } else {
                                assert(lex_set_bytes_spec(s@, cur as int) is None);
                            }
                        }
                        out.push(g);
                        cur = p;
                    },
                    Err(e) => {
                        proof {
                            assert(lex_set_bytes_spec(s@, cur as int) is None);
                        }
                        return Err(e);
                    },
                }
            }
        },
        Type::Int => {
            let mut out: Vec<IntRange> = Vec::new();
            loop
                invariant
                    pos < cur <= n,
                    n == s@.len(),
                    s@[pos as int] == 0x7b,
                    *ty is Int,
                    match lex_set_int_spec(s@, cur as int) {
                        Some(rq) => lex_set_int_spec(s@, pos as int + 1) == Some(
                            (out@ + rq.0, rq.1),
                        ),
                        None => lex_set_int_spec(s@, pos as int + 1) is None,
                    },
                decreases n - cur,
            {
                let sp = skip_space(s, cur);
                match expect_byte(s, sp, 0x7d) {
                    Some(p) => {
                        proof {
                            assert(lex_set_int_spec(s@, cur as int) == Some(
                                (Seq::<IntRange>::empty(), sp as int + 1),
                            ));
                            assert(out@ + Seq::<IntRange>::empty() =~= out@);
                        }
                        return Ok((RhsValues::Int(out), p));
                    },
                    None => {},
                }
                match lex_int_range(s, sp) {
                    Ok((g, p)) => {
                        proof {
                            if lex_set_int_spec(s@, p as int) is Some {
                                let rq2 = lex_set_int_spec(s@, p as int).unwrap();
                                assert(lex_set_int_spec(s@, cur as int) == Some(
                                    (seq![g] + rq2.0, rq2.1),
                                ));
                                assert(out@ + (seq![g] + rq2.0) =~= (out@.push(g)) + rq2.0);
                            } else {
                                assert(lex_set_int_spec(s@, cur as int) is None);
                            }
                        }
                        out.push(g);
                        cur = p;
                    },
                    Err(e) => {
                        proof {
                            assert(lex_set_int_spec(s@, cur as int) is None);
                        }
                        return Err(e);
                    },
                }
            }
        },
        _ => Err(LexError { pos }),
    }
}

} // verus!
