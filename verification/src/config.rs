//! Global numeric limits of the evaluation engine.

use vstd::prelude::*;

verus! {

/// Maximum number of distinct variables allowed in one expression.
pub const MAX_VARIABLES: usize = 20;

/// Maximum length, in characters, of a variable name.
pub const MAX_VARIABLE_NAME_LENGTH: usize = 50;

/// Maximum number of differences shown by the table renderer.
pub const MAX_DIFFERENCES_TO_SHOW: usize = 5;

} // verus!
