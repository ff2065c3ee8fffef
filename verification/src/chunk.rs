//! What one chunk of the container opens to.

use vstd::prelude::*;

verus! {

/// Size of a sealed chunk on disk.
pub const CHUNK_SIZE: usize = 4096;

/// Bytes of payload that fit in one chunk once it is opened.
pub const PAYLOAD_CAP: usize = 4040;

/// What a chunk is for.
#[derive(Debug, Clone, Copy, PartialEq, Eq, Structural)]
pub enum ChunkKind {
    Superblock,
    IndexNode,
    Commit,
    DataBatch,
    Checkpoint,
}

/// The opened content of a chunk.
#[derive(Debug)]
pub struct Plaintext {
    pub kind: ChunkKind,
    pub seq: u64,
    pub payload: Vec<u8>,
}

/// The opened content of a chunk, with its payload as a sequence.
pub struct PlaintextView {
    pub kind: ChunkKind,
    pub seq: u64,
    pub payload: Seq<u8>,
}

impl View for Plaintext {
    type V = PlaintextView;

    open spec fn view(&self) -> PlaintextView {
        PlaintextView { kind: self.kind, seq: self.seq, payload: self.payload@ }
    }
}

} // verus!
