//! Declaration-reordering engine of a source-code formatter.
//!
//! The library decides the emitted order of consecutive top-level linkage
//! declarations (`use`, `mod` and `extern crate` statements), merges and
//! regroups import trees without losing or duplicating any leaf path, and
//! splices the rewritten block back into the surrounding source text while
//! preserving comments and blank-line structure.

use vstd::prelude::*;

pub mod config;
pub mod decl;
pub mod imports;
pub mod reorder;
pub mod sort;
pub mod visitor;

verus! {

} // verus!
