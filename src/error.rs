use vstd::prelude::*;

verus! {

/// The ways an operation of this library can fail.
#[derive(Clone, Copy, Debug, PartialEq, Eq, Structural)]
pub enum GitError {
    /// A malformed hash (wrong length or not hexadecimal).
    InvalidInput,
    /// A missing object, reference or file.
    NotFound,
    /// A digest mismatch, truncated stream, bad delta or bad compressed data.
    Corrupt,
    /// Corrupt data of another size than the one declared for it: a delta's
    /// base or target, or an entry of a pack.
    SizeMismatch { expected: u64, actual: u64 },
    /// A bad pack signature or version, or an unknown object type.
    UnsupportedFormat,
    /// A delta whose base has not been decoded yet; `at` is the position of
    /// the delta's entry in the pack.
    UnresolvedDelta { at: u64 },
    /// A server response without the required capabilities or framing.
    UnsupportedServer,
    /// An incomplete tree or commit record.
    Truncated,
    /// A hash that was expected to name a tree names something else.
    NotATree,
    /// A hash that was expected to name a blob names something else.
    NotABlob,
}

} // verus!
