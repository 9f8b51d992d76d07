//! Literal values parsed from filter source text, and the strict partial
//! order between a runtime value and a literal.
//!
//! The boolean and map kinds have no literal syntax: their literal forms are
//! uninhabited, so they are absent from these unions altogether and no
//! construction of them can exist.

use vstd::prelude::*;
use crate::addr::{IpAddress, addr_cmp_spec, mapped_bits};
use crate::value::{LhsValue, ValueModel, value_view};
use core::cmp::Ordering;

verus! {

/// An RHS value parsed from a filter string, used in relational comparisons
/// against a runtime value.
#[derive(Debug)]
pub enum RhsValue {
    /// An address literal.
    Ip(IpAddress),
    /// A byte-string literal.
    Bytes(Vec<u8>),
    /// A 32-bit signed integer literal.
    Int(i32),
}

/// The model of a literal value; every literal kind is also a value kind.
pub open spec fn rhs_view(r: RhsValue) -> ValueModel {
    match r {
        RhsValue::Ip(a) => ValueModel::Ip(a),
        RhsValue::Bytes(b) => ValueModel::Bytes(b@),
        RhsValue::Int(i) => ValueModel::Int(i),
    }
}

impl View for RhsValue {
    type V = ValueModel;

    open spec fn view(&self) -> ValueModel {
        rhs_view(*self)
    }
}

/// An inclusive range of addresses, as written in CIDR or range syntax;
/// a single address stands for the range holding it alone.
#[derive(Debug, Clone, Copy, PartialEq, Eq, Structural)]
pub struct IpRange {
    /// The lowest address of the range.
    pub first: IpAddress,
    /// The highest address of the range.
    pub last: IpAddress,
}

/// An inclusive range of integers; a single integer stands for the range
/// holding it alone.
#[derive(Debug, Clone, Copy, PartialEq, Eq, Structural)]
pub struct IntRange {
    /// The lowest integer of the range.
    pub first: i32,
    /// The highest integer of the range.
    pub last: i32,
}

/// A typed group of literals parsed from a filter string, used for
/// membership tests: only same-kind entries can stand in one group. The
/// address kind uses address ranges rather than single addresses.
#[derive(Debug)]
pub enum RhsValues {
    /// Address ranges.
    Ip(Vec<IpRange>),
    /// Byte-string literals.
    Bytes(Vec<Vec<u8>>),
    /// Integer ranges.
    Int(Vec<IntRange>),
}

/// The kind tag a literal set carries.
pub open spec fn rhs_values_kind(vs: RhsValues) -> crate::types::Type {
    match vs {
        RhsValues::Ip(_) => crate::types::Type::Ip,
        RhsValues::Bytes(_) => crate::types::Type::Bytes,
        RhsValues::Int(_) => crate::types::Type::Int,
    }
}

/// True when an address lies in a range, by the mapped comparison order.
pub open spec fn in_ip_range(r: IpRange, a: IpAddress) -> bool {
    mapped_bits(r.first) <= mapped_bits(a) <= mapped_bits(r.last)
}

/// Membership of a runtime value in a literal set: some entry of the
/// matching kind holds it — an address inside one of the ranges, a
/// byte-for-byte equal byte string, or an integer inside one of the ranges.
/// A value of any other kind is in no set.
pub open spec fn rhs_values_contains(vs: RhsValues, m: ValueModel) -> bool {
    match vs {
        RhsValues::Ip(rs) => match m {
            ValueModel::Ip(a) => exists|i: int|
                0 <= i < rs@.len() && in_ip_range(#[trigger] rs@[i], a),
            _ => false,
        },
        RhsValues::Bytes(bs) => match m {
            ValueModel::Bytes(b) => exists|i: int|
                0 <= i < bs@.len() && (#[trigger] bs@[i])@ == b,
            _ => false,
        },
        RhsValues::Int(rs) => match m {
            ValueModel::Int(x) => exists|i: int|
                0 <= i < rs@.len() && (#[trigger] rs@[i]).first <= x <= rs@[i].last,
            _ => false,
        },
    }
}

/// Byte-for-byte equality of two buffers.
fn bytes_eq(a: &Vec<u8>, b: &Vec<u8>) -> (r: bool)
    ensures
        r == (a@ == b@),
{
    if a.len() != b.len() {
        return false;
    }
    let n = a.len();
    let mut i: usize = 0;
    while i < n
        invariant
            n == a@.len(),
            n == b@.len(),
            i <= n,
            forall|j: int| 0 <= j < i ==> a@[j] == b@[j],
        decreases n - i,
    {
        if a[i] != b[i] {
            return false;
        }
        i += 1;
    }
    proof {
        assert(a@ =~= b@);
    }
    true
}

impl RhsValues {
    /// The type the literal set reports.
    pub fn get_type(&self) -> (r: crate::types::Type)
        ensures
            r == rhs_values_kind(*self),
    {
        match self {
            RhsValues::Ip(_) => crate::types::Type::Ip,
            RhsValues::Bytes(_) => crate::types::Type::Bytes,
            RhsValues::Int(_) => crate::types::Type::Int,
        }
    }

    /// Whether a runtime value is a member of the set. A value whose kind is
    /// not the set's kind is in no set.
    pub fn contains(&self, v: &LhsValue) -> (r: bool)
        ensures
            r == rhs_values_contains(*self, value_view(*v)),
    {
        match (self, v) {
            (RhsValues::Ip(rs), LhsValue::Ip(a)) => {
                let bits = a.to_mapped_bits();
                let n = rs.len();
                let mut i: usize = 0;
                while i < n
                    invariant
                        *self == RhsValues::Ip(*rs),
                        *v == LhsValue::Ip(*a),
                        n == rs@.len(),
                        i <= n,
                        bits == mapped_bits(*a),
                        forall|j: int| 0 <= j < i ==> !in_ip_range(#[trigger] rs@[j], *a),
                    decreases n - i,
                {
                    let lo = rs[i].first.to_mapped_bits();
                    let hi = rs[i].last.to_mapped_bits();
                    if lo <= bits && bits <= hi {
                        proof {
                            assert(in_ip_range(self->Ip_0@[i as int], *a));
                            assert(exists|j: int|
                                0 <= j < self->Ip_0@.len() && in_ip_range(
                                    #[trigger] self->Ip_0@[j],
                                    *a,
                                ));
                            assert(rhs_values_contains(*self, value_view(*v)));
                        }
                        return true;
                    }
                    i += 1;
                }
                false
            },
            (RhsValues::Bytes(bs), LhsValue::Bytes(b)) => {
                let n = bs.len();
                let mut i: usize = 0;
                while i < n
                    invariant
                        *self == RhsValues::Bytes(*bs),
                        *v == LhsValue::Bytes(*b),
                        n == bs@.len(),
                        i <= n,
                        forall|j: int| 0 <= j < i ==> (#[trigger] bs@[j])@ != b@,
                    decreases n - i,
                {
                    if bytes_eq(&bs[i], b) {
                        proof {
                            assert((self->Bytes_0@[i as int])@ == b@);
                            assert(exists|j: int|
                                0 <= j < self->Bytes_0@.len() && (#[trigger] self->Bytes_0@[
                                    j
                                ])@ == b@);
                        }
                        return true;
                    }
                    i += 1;
                }
                false
            },
            (RhsValues::Int(rs), LhsValue::Int(x)) => {
                let n = rs.len();
                let mut i: usize = 0;
                while i < n
                    invariant
                        *self == RhsValues::Int(*rs),
                        *v == LhsValue::Int(*x),
                        n == rs@.len(),
                        i <= n,
                        forall|j: int|
                            0 <= j < i ==> !((#[trigger] rs@[j]).first <= *x <= rs@[j].last),
                    decreases n - i,
                {
                    if rs[i].first <= *x && *x <= rs[i].last {
                        proof {
                            assert(self->Int_0@[i as int].first <= *x
                                <= self->Int_0@[i as int].last);
                            assert(exists|j: int|
                                0 <= j < self->Int_0@.len() && (#[trigger] self->Int_0@[
                                    j
                                ]).first <= *x <= self->Int_0@[j].last);
                        }
                        return true;
                    }
                    i += 1;
                }
                false
            },
            _ => false,
        }
    }
}

/// Lexicographic order on byte strings.
pub open spec fn bytes_cmp_spec(a: Seq<u8>, b: Seq<u8>) -> Ordering
    decreases a.len(),
{
    if a.len() == 0 && b.len() == 0 {
        Ordering::Equal
    } else if a.len() == 0 {
        Ordering::Less
    } else if b.len() == 0 {
        Ordering::Greater
    } else if a[0] < b[0] {
        Ordering::Less
    } else if a[0] > b[0] {
        Ordering::Greater
    } else {
        bytes_cmp_spec(a.drop_first(), b.drop_first())
    }
}

/// Numeric order on integers.
pub open spec fn int_cmp_spec(a: i32, b: i32) -> Ordering {
    if a < b {
        Ordering::Less
    } else if a == b {
        Ordering::Equal
    } else {
        Ordering::Greater
    }
}

/// The strict partial order between value models: a definite ordering when
/// the kinds match (numeric for integers, lexicographic byte order for byte
/// strings, address order for addresses), unordered (`None`) otherwise.
pub open spec fn strict_cmp_spec(a: ValueModel, b: ValueModel) -> Option<Ordering> {
    match (a, b) {
        (ValueModel::Ip(x), ValueModel::Ip(y)) => Some(addr_cmp_spec(x, y)),
        (ValueModel::Bytes(x), ValueModel::Bytes(y)) => Some(bytes_cmp_spec(x, y)),
        (ValueModel::Int(x), ValueModel::Int(y)) => Some(int_cmp_spec(x, y)),
        _ => None,
    }
}

/// Lexicographic comparison of two byte buffers.
fn bytes_cmp(a: &Vec<u8>, b: &Vec<u8>) -> (r: Ordering)
    ensures
        r == bytes_cmp_spec(a@, b@),
{
    let alen = a.len();
    let blen = b.len();
    proof {
        assert(a@.subrange(0, alen as int) =~= a@);
        assert(b@.subrange(0, blen as int) =~= b@);
    }
    let mut i: usize = 0;
    while i < alen && i < blen
        invariant
            alen == a@.len(),
            blen == b@.len(),
            i <= alen,
            i <= blen,
            bytes_cmp_spec(a@, b@) == bytes_cmp_spec(
                a@.subrange(i as int, alen as int),
                b@.subrange(i as int, blen as int),
            ),
        decreases alen - i,
    {
        proof {
            assert(a@.subrange(i as int, alen as int)[0] == a@[i as int]);
            assert(b@.subrange(i as int, blen as int)[0] == b@[i as int]);
            assert(a@.subrange(i as int, alen as int).drop_first() =~= a@.subrange(
                i + 1 as int,
                alen as int,
            ));
            assert(b@.subrange(i as int, blen as int).drop_first() =~= b@.subrange(
                i + 1 as int,
                blen as int,
            ));
        }
        if a[i] < b[i] {
            return Ordering::Less;
        }
        if a[i] > b[i] {
            return Ordering::Greater;
        }
        i += 1;
    }
    proof {
        assert(a@.subrange(i as int, alen as int).len() == alen - i);
        assert(b@.subrange(i as int, blen as int).len() == blen - i);
    }
    if i < blen {
        Ordering::Less
    } else if i < alen {
        Ordering::Greater
    } else {
        Ordering::Equal
    }
}

impl RhsValue {
    /// The type this literal reports.
    pub fn get_type(&self) -> (r: crate::types::Type)
        ensures
            r == self@.ty(),
    {
        match self {
            RhsValue::Ip(_) => crate::types::Type::Ip,
            RhsValue::Bytes(_) => crate::types::Type::Bytes,
            RhsValue::Int(_) => crate::types::Type::Int,
        }
    }

    /// The runtime value a literal stands for, with the same model.
    pub fn to_lhs(&self) -> (r: LhsValue)
        ensures
            value_view(r) == self@,
            crate::value::value_wf(r),
    {
        match self {
            RhsValue::Ip(a) => LhsValue::Ip(*a),
            RhsValue::Bytes(b) => {
                let mut out: Vec<u8> = Vec::new();
                let n = b.len();
                let mut i: usize = 0;
                while i < n
                    invariant
                        n == b@.len(),
                        i <= n,
                        out@ == b@.subrange(0, i as int),
                    decreases n - i,
                {
                    out.push(b[i]);
                    assert(out@ =~= b@.subrange(0, i + 1 as int));
                    i += 1;
                }
                assert(out@ =~= b@);
                LhsValue::Bytes(out)
            },
            RhsValue::Int(i) => LhsValue::Int(*i),
        }
    }
}

impl LhsValue {
    /// Strict comparison against a literal: a definite ordering when the
    /// kinds match, unordered otherwise; defined for every pair of values,
    /// it never fails.
    pub fn strict_partial_cmp(&self, other: &RhsValue) -> (r: Option<Ordering>)
        ensures
            r == strict_cmp_spec(self@, other@),
    {
        match (self, other) {
            (LhsValue::Ip(x), RhsValue::Ip(y)) => Some(x.cmp_addr(y)),
            (LhsValue::Bytes(x), RhsValue::Bytes(y)) => Some(bytes_cmp(x, y)),
            (LhsValue::Int(x), RhsValue::Int(y)) => Some(int_cmp(*x, *y)),
            _ => None,
        }
    }

    /// Equality against a literal is defined exactly as "strict comparison
    /// yields `Equal`".
    pub fn eq_rhs(&self, other: &RhsValue) -> (r: bool)
        ensures
            r == (strict_cmp_spec(self@, other@) == Some(Ordering::Equal)),
    {
        match self.strict_partial_cmp(other) {
            Some(Ordering::Equal) => true,
            _ => false,
        }
    }
}

/// Numeric comparison of two integers.
fn int_cmp(a: i32, b: i32) -> (r: Ordering)
    ensures
        r == int_cmp_spec(a, b),
{
    if a < b {
        Ordering::Less
    } else if a == b {
        Ordering::Equal
    } else {
        Ordering::Greater
    }
}

/// Comparison total-ness: strict comparison of a runtime value and a literal
/// is a definite ordering exactly when their kinds match, and unordered when
/// they differ; it is defined, and safe, for every pair.
pub proof fn lemma_comparison_totality(v: LhsValue, r: RhsValue)
    ensures
        (strict_cmp_spec(value_view(v), rhs_view(r)) is Some) <==> value_view(v).ty()
            == rhs_view(r).ty(),
{
}

} // verus!
