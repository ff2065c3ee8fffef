//! The one error type every fallible operation of the crate returns.

use vstd::prelude::*;

verus! {

/// Why an operation was refused or could not be carried out.
#[derive(Debug, Clone, Copy, PartialEq, Eq)]
pub enum Error {
    /// Bytes, or a structure they describe, do not have the required form.
    Malformed(&'static str),
    /// A rule this library keeps about itself was broken by its caller.
    Internal(&'static str),
    /// An internal index node cannot hold what it has to.
    IndexFull,
    /// A value, payload or batch is larger than its limit.
    PayloadTooLarge,
    /// The compressor or decompressor reported a failure.
    Compression(&'static str),
    /// A key-value operation met a log namespace, or the other way round.
    WrongNamespaceKind(&'static str),
    /// More namespaces than one commit record can list.
    TooManyNamespaces { limit: usize },
    /// The integrity walk found a link that does not hold.
    IntegrityFailure { detail: &'static str, slot: u64 },
    /// A chunk does not open under this space's key.
    AuthFailed,
    /// The handle may not write.
    ReadOnly,
    /// A publish may or may not have reached the disk: reopen the space.
    PublishUncertain(&'static str),
    /// The container holds a newer superblock that this handle cannot read.
    UnreadableNewerState,
    /// The container already holds a space under this key.
    SpaceAlreadyExists,
    /// The device refused a read or a write.
    Io(&'static str),
    /// The supply of random words is exhausted.
    Rng,
    /// The container would pass its largest supported size.
    ContainerTooLarge,
}

/// `r` is what `s` says: the same error, or a value whose view is the one
/// that `s` holds.
pub open spec fn agrees<T: View>(r: Result<T, Error>, s: Result<T::V, Error>) -> bool {
    match r {
        Ok(x) => s == Ok::<T::V, Error>(x@),
        Err(e) => s == Err::<T::V, Error>(e),
    }
}

} // verus!
