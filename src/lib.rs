//! Shortening of file names that exceed the byte limit of common Linux
//! file systems, keeping the parts of the name that matter most.

pub mod text;
pub mod normalize;
pub mod components;
pub mod allocate;
pub mod candidate;
pub mod laws;
pub mod driver;
