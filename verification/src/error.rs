//! The failures the filter reports.

use vstd::prelude::*;

verus! {

/// Why an operation was refused.
#[derive(Clone, Copy, Debug, PartialEq, Eq, Structural)]
pub enum Error {
    /// A parameter lies outside its domain, or two buffers disagree in shape.
    InvalidArgs,
}

} // verus!
