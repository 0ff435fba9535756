//! Identifiers shared by the checker's tables.
use vstd::prelude::*;

use crate::files::FileId;

verus! {

/// An interned checker type.
#[derive(Debug, Clone, Copy, PartialEq, Eq, PartialOrd, Ord, Hash, Structural)]
pub struct TypeId(pub u32);

/// The binding depth of a unification variable.
#[derive(Debug, Clone, Copy, PartialEq, Eq, PartialOrd, Ord, Hash, Structural)]
pub struct Depth(pub u32);

/// A type variable name, unique within the file that created it.
#[derive(Debug, Clone, Copy, PartialEq, Eq, PartialOrd, Ord, Hash, Structural)]
pub struct Name {
    pub file: FileId,
    pub unique: u32,
}

/// An instance declaration of a module.
#[derive(Debug, Clone, Copy, PartialEq, Eq, PartialOrd, Ord, Hash, Structural)]
pub struct InstanceId(pub u32);

/// A derived instance declaration of a module.
#[derive(Debug, Clone, Copy, PartialEq, Eq, PartialOrd, Ord, Hash, Structural)]
pub struct DeriveId(pub u32);

/// Where an instance dictionary comes from: a declared instance or a derived
/// one, in the file that declares it.
#[derive(Debug, Clone, Copy, PartialEq, Eq, PartialOrd, Ord, Hash, Structural)]
pub enum InstanceCandidateOrigin {
    Instance(FileId, InstanceId),
    Derive(FileId, DeriveId),
}

/// A superclass of a type class, by position among its superclasses.
#[derive(Debug, Clone, Copy, PartialEq, Eq, PartialOrd, Ord, Hash, Structural)]
pub struct SuperclassId(pub u32);

/// An interned `forall` binder.
#[derive(Debug, Clone, Copy, PartialEq, Eq, PartialOrd, Ord, Hash, Structural)]
pub struct ForallBinderId(pub u32);

/// A `forall` binder: the variable it binds, its kind, and whether type
/// application may supply it explicitly.
#[derive(Debug, Clone, Copy, PartialEq, Eq, Hash, Structural)]
pub struct ForallBinder {
    pub visible: bool,
    pub name: Name,
    pub kind: TypeId,
}

/// A labelled field of a row type.
#[derive(Debug, Clone, PartialEq, Eq, Hash)]
pub struct RowField {
    pub label: String,
    pub id: TypeId,
}

/// The role of a type parameter: how coercions may change it.
#[derive(Debug, Clone, Copy, PartialEq, Eq, Hash, Structural)]
pub enum Role {
    Phantom,
    Representational,
    Nominal,
}

} // verus!
