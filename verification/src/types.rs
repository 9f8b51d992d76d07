//! Type descriptors and the errors raised when a value does not fit the type
//! declared for its destination.

use vstd::prelude::*;

verus! {

/// Enumeration of supported types for field values.
///
/// `Dict` carries the declared type of the values it holds; the nesting depth
/// is unbounded in principle. Two types are equal only structurally:
/// `Dict(Dict(Int))` differs from `Dict(Int)`.
#[derive(Debug)]
pub enum Type {
    /// An IPv4 or IPv6 address field.
    Ip,
    /// A raw bytes or string field.
    Bytes,
    /// A 32-bit signed integer field.
    Int,
    /// A boolean field.
    Bool,
    /// A map from string keys to values of one declared inner type.
    Dict(Box<Type>),
}

impl Type {
    /// The inner type a path segment descends into: `Some` for a map, `None`
    /// for every scalar kind.
    pub open spec fn next_spec(&self) -> Option<Type> {
        match self {
            Type::Dict(inner) => Some(*(*inner)),
            _ => None,
        }
    }

    /// Returns the inner type when available (e.g. for a map).
    pub fn next(&self) -> (r: Option<Type>)
        ensures
            r == self.next_spec(),
    {
        match self {
            Type::Dict(inner) => Some((**inner).clone()),
            _ => None,
        }
    }
}

impl Clone for Type {
    /// Deep structural copy; equality of the copy is what every type check in
    /// the crate relies on.
    fn clone(&self) -> (r: Self)
        ensures
            r == *self,
        decreases *self,
    {
        match self {
            Type::Ip => Type::Ip,
            Type::Bytes => Type::Bytes,
            Type::Int => Type::Int,
            Type::Bool => Type::Bool,
            Type::Dict(inner) => Type::Dict(Box::new((**inner).clone())),
        }
    }
}

impl PartialEq for Type {
    /// Structural (deep) equality; used pervasively as the type-check
    /// predicate.
    fn eq(&self, other: &Self) -> (r: bool)
        decreases *self,
    {
        match (self, other) {
            (Type::Ip, Type::Ip) => true,
            (Type::Bytes, Type::Bytes) => true,
            (Type::Int, Type::Int) => true,
            (Type::Bool, Type::Bool) => true,
            (Type::Dict(a), Type::Dict(b)) => (**a).eq(&**b),
            _ => false,
        }
    }
}

impl vstd::std_specs::cmp::PartialEqSpecImpl for Type {
    open spec fn obeys_eq_spec() -> bool {
        true
    }

    open spec fn eq_spec(&self, other: &Self) -> bool {
        *self == *other
    }
}

impl Eq for Type {}

/// An error that occurs on a type mismatch: a value of type `actual` was
/// offered to a destination declared as `expected`.
#[derive(Debug)]
pub struct TypeMismatchError {
    /// Expected value type.
    pub expected: Type,
    /// Provided value type.
    pub actual: Type,
}

impl Clone for TypeMismatchError {
    fn clone(&self) -> (r: Self)
        ensures
            r == *self,
    {
        TypeMismatchError { expected: self.expected.clone(), actual: self.actual.clone() }
    }
}

impl PartialEq for TypeMismatchError {
    fn eq(&self, other: &Self) -> (r: bool) {
        self.expected == other.expected && self.actual == other.actual
    }
}

impl vstd::std_specs::cmp::PartialEqSpecImpl for TypeMismatchError {
    open spec fn obeys_eq_spec() -> bool {
        true
    }

    open spec fn eq_spec(&self, other: &Self) -> bool {
        *self == *other
    }
}

impl Eq for TypeMismatchError {}

/// An error raised by a nested-path write.
#[derive(Debug)]
pub enum SetValueError {
    /// A value's type did not match the type required by its destination.
    TypeMismatch(TypeMismatchError),
    /// A nested path targeted a slot whose declared type is a scalar kind and
    /// holds no value yet: a scalar kind has no empty placeholder to descend
    /// into. The payload is that scalar type.
    VoidableType(Type),
}

impl Clone for SetValueError {
    fn clone(&self) -> (r: Self)
        ensures
            r == *self,
    {
        match self {
            SetValueError::TypeMismatch(e) => SetValueError::TypeMismatch(e.clone()),
            SetValueError::VoidableType(t) => SetValueError::VoidableType(t.clone()),
        }
    }
}

impl PartialEq for SetValueError {
    fn eq(&self, other: &Self) -> (r: bool) {
        match (self, other) {
            (SetValueError::TypeMismatch(a), SetValueError::TypeMismatch(b)) => a.eq(b),
            (SetValueError::VoidableType(a), SetValueError::VoidableType(b)) => a.eq(b),
            _ => false,
        }
    }
}

impl vstd::std_specs::cmp::PartialEqSpecImpl for SetValueError {
    open spec fn obeys_eq_spec() -> bool {
        true
    }

    open spec fn eq_spec(&self, other: &Self) -> bool {
        *self == *other
    }
}

impl Eq for SetValueError {}

} // verus!
