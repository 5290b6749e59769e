//! The column types and the order in which one widens to another.

use vstd::prelude::*;

verus! {

/// The type of a column. `Integer` widens to `Float`, and every type widens
/// to `String`; `Boolean` stands apart from the two numeric types.
#[derive(Clone, Copy, Debug, PartialEq, Eq, Structural)]
pub enum TypeTag {
    Integer,
    Float,
    Boolean,
    String,
}

impl TypeTag {
    /// `self` is `other` or widens to it.
    pub open spec fn le(self, other: TypeTag) -> bool {
        self == other || other == TypeTag::String || (self == TypeTag::Integer && other
            == TypeTag::Float)
    }

    /// The narrowest type that both `self` and `other` widen to.
    pub open spec fn join(self, other: TypeTag) -> TypeTag {
        if self == other {
            self
        } else if self == TypeTag::Integer && other == TypeTag::Float {
            TypeTag::Float
        } else if self == TypeTag::Float && other == TypeTag::Integer {
            TypeTag::Float
        } else {
            TypeTag::String
        }
    }

    /// Widens `self` just far enough to hold `other` as well.
    pub fn widen(self, other: TypeTag) -> (r: TypeTag)
        ensures
            r == self.join(other),
    {
        match (self, other) {
            (TypeTag::Integer, TypeTag::Integer) => TypeTag::Integer,
            (TypeTag::Integer, TypeTag::Float) => TypeTag::Float,
            (TypeTag::Float, TypeTag::Integer) => TypeTag::Float,
            (TypeTag::Float, TypeTag::Float) => TypeTag::Float,
            (TypeTag::Boolean, TypeTag::Boolean) => TypeTag::Boolean,
            _ => TypeTag::String,
        }
    }

    /// Whether `self` is `other` or widens to it.
    pub fn widens_to(self, other: TypeTag) -> (r: bool)
        ensures
            r == self.le(other),
    {
        match (self, other) {
            (_, TypeTag::String) => true,
            (TypeTag::Integer, TypeTag::Integer) => true,
            (TypeTag::Integer, TypeTag::Float) => true,
            (TypeTag::Float, TypeTag::Float) => true,
            (TypeTag::Boolean, TypeTag::Boolean) => true,
            _ => false,
        }
    }
}

/// What a run of cells has shown of a column's type: nothing yet, or a type.
/// `None` lies below every type.
pub open spec fn evidence_le(a: Option<TypeTag>, b: Option<TypeTag>) -> bool {
    match (a, b) {
        (None, _) => true,
        (Some(_), None) => false,
        (Some(x), Some(y)) => x.le(y),
    }
}

/// The evidence of two runs of cells taken together.
pub open spec fn evidence_join(a: Option<TypeTag>, b: Option<TypeTag>) -> Option<TypeTag> {
    match (a, b) {
        (None, _) => b,
        (_, None) => a,
        (Some(x), Some(y)) => Some(x.join(y)),
    }
}

/// Takes one more piece of evidence into what is known of a column.
pub fn widen_evidence(a: Option<TypeTag>, b: Option<TypeTag>) -> (r: Option<TypeTag>)
    ensures
        r == evidence_join(a, b),
{
    match (a, b) {
        (None, _) => b,
        (_, None) => a,
        (Some(x), Some(y)) => Some(x.widen(y)),
    }
}

/// Widening is a partial order: reflexive, antisymmetric and transitive.
pub proof fn lemma_le_is_partial_order(a: TypeTag, b: TypeTag, c: TypeTag)
    ensures
        a.le(a),
        a.le(b) && b.le(a) ==> a == b,
        a.le(b) && b.le(c) ==> a.le(c),
{
}

/// `join` gives the least upper bound: it lies above both arguments and
/// below everything else that does.
pub proof fn lemma_join_is_least_upper_bound(a: TypeTag, b: TypeTag, c: TypeTag)
    ensures
        a.le(a.join(b)),
        b.le(a.join(b)),
        a.le(c) && b.le(c) ==> a.join(b).le(c),
{
}

/// `join` is idempotent, commutative and associative, and absorbs what
/// already lies below.
pub proof fn lemma_join_laws(a: TypeTag, b: TypeTag, c: TypeTag)
    ensures
        a.join(a) == a,
        a.join(b) == b.join(a),
        a.join(b).join(c) == a.join(b.join(c)),
        a.le(b) <==> a.join(b) == b,
        a.join(TypeTag::String) == TypeTag::String,
{
}

/// Evidence only grows when more is joined to it, and the order on evidence
/// is transitive.
pub proof fn lemma_evidence_join_grows(a: Option<TypeTag>, b: Option<TypeTag>, c: Option<TypeTag>)
    ensures
        evidence_le(a, evidence_join(a, b)),
        evidence_le(b, evidence_join(a, b)),
        evidence_le(a, c) && evidence_le(b, c) ==> evidence_le(evidence_join(a, b), c),
        evidence_le(a, b) && evidence_le(b, c) ==> evidence_le(a, c),
        evidence_le(a, a),
{
}

} // verus!
