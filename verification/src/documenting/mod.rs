//! Documentation comments of modules and their declarations.
pub mod annotation;

use rustc_hash::FxHashMap;
use vstd::prelude::*;

verus! {

/// The documentation of a module and of its term and type items, the items
/// by their raw identifiers.
#[derive(Debug, Default, Clone, PartialEq, Eq)]
pub struct DocumentedModule {
    pub documentation: String,
    pub terms: FxHashMap<u32, DocumentedTerm>,
    pub types: FxHashMap<u32, DocumentedType>,
}

#[derive(Debug, Clone, PartialEq, Eq)]
pub struct DocumentedTerm {
    pub documentation: String,
}

#[derive(Debug, Clone, PartialEq, Eq)]
pub struct DocumentedType {
    pub documentation: String,
}

} // verus!
