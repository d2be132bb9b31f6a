//! The type lattice.
//!
//! ```text
//!                      Unknown            top: could be anything
//!    Undefined   Null    Bool    Number   String   Object(?)
//!                                            Object(s1)  Object(s2)
//!                       Never              bottom: no value reaches here
//! ```
//!
//! Deliberately shallow: it answers "can the check be skipped?" and says `Unknown` whenever
//! it cannot be sure. Joining two different shapes forgets both, because picking one is how a
//! field is read from the wrong offset.

use vstd::prelude::*;

use crate::ir::value::ShapeId;

verus! {

/// What a value can be.
#[derive(Clone, Copy, Debug, PartialEq, Eq, Structural, Hash)]
pub enum Type {
    /// No value reaches here: the bottom, and what an unreachable block's parameters have.
    Never,
    /// `undefined`.
    Undefined,
    /// `null`.
    Null,
    /// `true` or `false`.
    Bool,
    /// A double.
    Number,
    /// A string.
    String,
    /// An object; `Some(shape)` when every value here has that shape.
    Object(Option<ShapeId>),
    /// Could be anything: the top.
    Unknown,
}

/// `a ⊑ b`: every value of `a` is also a value of `b`.
pub open spec fn subtype(a: Type, b: Type) -> bool {
    match (a, b) {
        (Type::Never, _) => true,
        (_, Type::Unknown) => true,
        (Type::Object(Some(_)), Type::Object(None)) => true,
        _ => a == b,
    }
}

/// `a ⊔ b`: the least type that contains both.
pub open spec fn join_of(a: Type, b: Type) -> Type {
    if a == b {
        a
    } else {
        match (a, b) {
            (Type::Never, t) => t,
            (t, Type::Never) => t,
            (Type::Unknown, _) => Type::Unknown,
            (_, Type::Unknown) => Type::Unknown,
            (Type::Object(_), Type::Object(_)) => Type::Object(None),
            _ => Type::Unknown,
        }
    }
}

impl Type {
    /// An object of known shape.
    pub fn object(shape: ShapeId) -> (ty: Self)
        ensures
            ty == Type::Object(Some(shape)),
    {
        Type::Object(Some(shape))
    }

    /// Whether every value of this type is also a value of `other`: the lattice's order,
    /// with `Never ⊑ t ⊑ Unknown` for every `t`.
    pub fn is_subtype_of(self, other: Self) -> (result: bool)
        ensures
            result == subtype(self, other),
    {
        match (self, other) {
            (Type::Never, _) => true,
            (_, Type::Unknown) => true,
            (Type::Object(Some(_)), Type::Object(None)) => true,
            _ => self == other,
        }
    }

    /// The least type that contains both: where control flow merges, a value that is a
    /// `Number` on one path and a `String` on another is `Unknown` afterwards.
    pub fn join(self, other: Self) -> (joined: Self)
        ensures
            joined == join_of(self, other),
    {
        if self == other {
            return self;
        }
        match (self, other) {
            (Type::Never, t) => t,
            (t, Type::Never) => t,
            (Type::Unknown, _) => Type::Unknown,
            (_, Type::Unknown) => Type::Unknown,
            (Type::Object(_), Type::Object(_)) => Type::Object(None),
            _ => Type::Unknown,
        }
    }

    /// Whether a value of this type is known to be an object.
    pub fn is_object(self) -> (object: bool)
        ensures
            object == (self is Object),
    {
        match self {
            Type::Object(_) => true,
            _ => false,
        }
    }

    /// The shape, when one is known: what lets a property access become a slot index.
    pub fn shape(self) -> (shape: Option<ShapeId>)
        ensures
            shape == (match self {
                Type::Object(known) => known,
                _ => None,
            }),
    {
        match self {
            Type::Object(known) => known,
            _ => None,
        }
    }
}

/// Joining a type with itself gives it back.
pub proof fn law_join_idempotent(a: Type)
    ensures
        join_of(a, a) == a,
{
}

/// The order of a join's arguments does not matter.
pub proof fn law_join_commutative(a: Type, b: Type)
    ensures
        join_of(a, b) == join_of(b, a),
{
}

/// Nor does the grouping: without this the answer would depend on pass order.
pub proof fn law_join_associative(a: Type, b: Type, c: Type)
    ensures
        join_of(join_of(a, b), c) == join_of(a, join_of(b, c)),
{
}

/// `Never` is the bottom and `Unknown` the top.
pub proof fn law_bottom_and_top(a: Type)
    ensures
        join_of(Type::Never, a) == a,
        join_of(Type::Unknown, a) == Type::Unknown,
        subtype(Type::Never, a),
        subtype(a, Type::Unknown),
{
}

/// The join is an upper bound of both sides, and the least one.
pub proof fn law_join_least_upper_bound(a: Type, b: Type, c: Type)
    ensures
        subtype(a, join_of(a, b)),
        subtype(b, join_of(a, b)),
        subtype(a, c) && subtype(b, c) ==> subtype(join_of(a, b), c),
{
}

/// `a ⊑ b` and `a ⊔ b == b` say the same thing.
pub proof fn law_subtype_agrees_with_join(a: Type, b: Type)
    ensures
        subtype(a, b) == (join_of(a, b) == b),
{
}

/// The order is reflexive, antisymmetric and transitive.
pub proof fn law_subtype_is_a_partial_order(a: Type, b: Type, c: Type)
    ensures
        subtype(a, a),
        subtype(a, b) && subtype(b, a) ==> a == b,
        subtype(a, b) && subtype(b, c) ==> subtype(a, c),
{
}

} // verus!
