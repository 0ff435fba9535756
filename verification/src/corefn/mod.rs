//! PureScript CoreFn's serialized representation.
pub mod comments;
pub mod model;
pub mod number;
pub mod naming;
