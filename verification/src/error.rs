//! Error kinds the core raises while ingesting input bytes.

use vstd::prelude::*;

verus! {

/// Errors raised by the core while ingesting byte buffers.
///
/// Sub-protocols surface errors to the caller; a single bad record fails the
/// whole query, and no partial share output is ever emitted.
#[derive(Clone, Copy, Debug, PartialEq, Eq, Structural)]
pub enum Error {
    /// A byte buffer's length is not a multiple of the row size.
    InputMisaligned,
    /// An encoded value claimed to be a field residue does not fit the field.
    FieldOverflow,
}

} // verus!
