//! Decoding of the `.000` installer manifest found in handheld-OS cabinet
//! archives, and planning of where each cabinet member is extracted to.
use vstd::prelude::*;

pub mod bytes;
pub mod strings;
pub mod msce_000;
pub mod cabinet;

pub use cabinet::{expand_ce_variables, WinCECabFileEntry};
pub use msce_000::MSCE000;

verus! {

/// Why a manifest could not be decoded.
#[derive(Debug, Clone, Copy, PartialEq, Eq, Structural)]
pub enum DecodeError {
    /// The leading four bytes are not the `MSCE` tag.
    BadMagic,
    /// A read ran past the end of the bytes, or a text field has no terminator.
    Truncated,
}

} // verus!
