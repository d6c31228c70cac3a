//! The ways in which a request to the field can be refused.

use vstd::prelude::*;

verus! {

/// Why the field refused a request.
#[derive(Clone, Copy, Debug, PartialEq, Eq, Structural)]
pub enum FieldError {
    /// The requested grid has no cells, or more cells than can be addressed.
    InvalidConfiguration,
    /// A coordinate lies outside the grid.
    IndexOutOfRange,
}

} // verus!
