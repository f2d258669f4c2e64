//! The two operations: installing a package and removing it.

pub mod stow;
pub mod unstow;
