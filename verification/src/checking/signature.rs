//! The shapes a type signature is taken apart into: the abstractions in
//! front (type variables and constraints), the argument types and the result.
use std::sync::Arc;

use vstd::prelude::*;

use super::types::{ForallBinderId, Name, TypeId};

verus! {

#[derive(Debug, Clone, Copy, PartialEq, Eq, Structural)]
pub enum DecomposedAbstraction {
    Type { binder: ForallBinderId },
    Constraint { constraint: TypeId },
}

pub struct DecomposedSignature {
    pub abstractions: Vec<DecomposedAbstraction>,
    pub arguments: Vec<TypeId>,
    pub result: TypeId,
}

#[derive(Debug, Clone, Copy, PartialEq, Eq, Structural)]
pub enum SkolemisedAbstraction {
    Type { binder: ForallBinderId, rigid: TypeId },
    Constraint { constraint: TypeId },
}

/// The rigid type variables that replaced the signature's bound variables,
/// by the name each replaced.
pub struct RigidRenaming {
    pub rigids: Vec<(Name, TypeId)>,
}

pub struct SkolemisedSignature {
    pub renaming: Arc<RigidRenaming>,
    pub abstractions: Vec<SkolemisedAbstraction>,
    pub arguments: Vec<TypeId>,
    pub result: TypeId,
}

/// How far to take a signature apart: completely, or until `required`
/// arguments have been found.
#[derive(Debug, Clone, Copy, PartialEq, Eq, Structural)]
pub enum DecomposeSignatureMode {
    Full,
    Patterns { required: usize },
}

} // verus!
