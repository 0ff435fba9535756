pub mod checking;
pub mod elaborating;
pub mod files;
pub mod hashed;
pub mod ids;
pub mod indexed;
pub mod text;
pub mod corefn;
pub mod documenting;
