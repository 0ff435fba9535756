//! Variance and the traversals that derived `Functor`-like instances map over
//! their data types.
use vstd::prelude::*;

use super::terms::ElaboratedExpression;

verus! {

/// Whether a type parameter occurs in positive or negative position.
#[derive(Debug, Clone, Copy, PartialEq, Eq, Structural)]
pub enum Variance {
    Covariant,
    Contravariant,
}

/// The variance on the other side of a function arrow.
pub open spec fn flipped(variance: Variance) -> Variance {
    match variance {
        Variance::Covariant => Variance::Contravariant,
        Variance::Contravariant => Variance::Covariant,
    }
}

impl Variance {
    /// The variance on the other side of a function arrow.
    pub fn flip(self) -> (opposite: Variance)
        ensures
            opposite == flipped(self),
    {
        match self {
            Variance::Covariant => Variance::Contravariant,
            Variance::Contravariant => Variance::Covariant,
        }
    }
}

/// The parameter of a derived instance that a traversal maps: the only one
/// of a `Functor`, or either of a `Bifunctor`.
#[derive(Debug, Clone, Copy, PartialEq, Eq, Structural)]
pub enum TraversalParameter {
    First,
    Second,
}

/// How a field of a data constructor is traversed.
pub enum TraversalOperation {
    Parameter { parameter: TraversalParameter },
    Function { argument: Option<Box<TraversalOperation>>, result: Option<Box<TraversalOperation>> },
    MapOver { argument: Box<TraversalOperation> },
    Record { fields: Vec<RecordFieldRecipe> },
}

/// How a field of a record is traversed.
pub struct RecordFieldRecipe {
    pub label: String,
    pub operation: TraversalOperation,
}

/// The mapping functions a derived instance receives: one for a `Functor`,
/// one per parameter for a `Bifunctor`.
#[derive(Debug, Clone, Copy)]
pub enum Mappings<T> {
    Functor(T),
    Bifunctor { first: T, second: T },
}

impl Mappings<ElaboratedExpression> {
    /// The mapping function for `parameter`; a `Functor` has none for the
    /// second parameter.
    pub fn mapping_for(self, parameter: TraversalParameter) -> (mapping: Option<ElaboratedExpression>)
        ensures
            mapping == (match (self, parameter) {
                (Mappings::Functor(function), TraversalParameter::First) => Some(function),
                (Mappings::Bifunctor { first, .. }, TraversalParameter::First) => Some(first),
                (Mappings::Bifunctor { second, .. }, TraversalParameter::Second) => Some(second),
                (Mappings::Functor(_), TraversalParameter::Second) => None,
            }),
    {
        match (self, parameter) {
            (Mappings::Functor(function), TraversalParameter::First) => Some(function),
            (Mappings::Bifunctor { first, .. }, TraversalParameter::First) => Some(first),
            (Mappings::Bifunctor { second, .. }, TraversalParameter::Second) => Some(second),
            (Mappings::Functor(_), TraversalParameter::Second) => None,
        }
    }
}

/// Flipping changes the variance, and flipping twice gives it back.
pub proof fn law_flip_involutive(variance: Variance)
    ensures
        flipped(variance) != variance,
        flipped(flipped(variance)) == variance,
{
}

} // verus!
