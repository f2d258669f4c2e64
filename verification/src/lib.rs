//! A symlink-farm manager: it installs the contents of a package directory
//! into a target directory by symbolic links that mirror the package's
//! tree, and removes exactly the links that belong to a package.
//!
//! - [`fs`]: paths as text, their components, relative paths, normalization.
//! - [`lexical`]: facts about components and joining.
//! - [`order`]: the lexicographic order of names, and sorting by it.
//! - [`tree`]: what the planner needs of a package and of a target.
//! - [`memory`]: a package and a target held in memory.
//! - [`commands`]: planning and carrying out an installation or a removal.
//! - [`proofs`]: what holds of every plan.
//! - [`cli`]: the arguments of an operation, and the choice of directories.
//! - [`error`]: the ways in which an operation fails.

pub mod cli;
pub mod commands;
pub mod error;
pub mod fs;
pub mod lexical;
pub mod memory;
pub mod order;
pub mod proofs;
pub mod tree;
