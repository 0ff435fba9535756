pub mod constraint;
pub mod derive;
pub mod evidence;
pub mod fd;
pub mod placement;
pub mod pretty_names;
pub mod semantic;
pub mod signature;
pub mod state;
pub mod terms;
pub mod tree;
pub mod types;
