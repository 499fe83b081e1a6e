use vstd::prelude::*;

verus! {

/// Why a byte stream is not a valid package.
#[derive(Clone, Copy, Debug, PartialEq, Eq, Structural)]
pub enum Error {
    /// The stream ends before the header, the table of contents or a payload does.
    Truncated,
    /// The manifest index is not the position of a table entry.
    ManifestIndex,
}

} // verus!
