pub mod core_module;
pub mod evidence;
pub mod dependencies;
pub mod graph;
pub mod grouping;
