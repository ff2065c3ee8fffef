//! The superblock: which commit is current, and where the open-scan
//! checkpoint starts.
//!
//! ```text
//! seq u64 LE | root_slot u64 LE | root_hash [32] | checkpoint_slot u64 LE (if any)
//! ```

use vstd::prelude::*;

use crate::bytes::{
    hash_at, le_bytes, le_value, lemma_le_bytes_len, lemma_le_bytes_of_value,
    lemma_le_value_of_bytes, lemma_pow256_widths, u64_at, write_u64,
};
use crate::error::{agrees, Error};

verus! {

/// Stands for "no slot".
pub const NO_RECORD: u64 = 0xffff_ffff_ffff_ffff;

/// The record that names the current commit.
#[derive(Debug, Clone, Copy)]
pub struct Superblock {
    /// Rises with every publish.
    pub seq: u64,
    /// Slot of the commit record, or `NO_RECORD` in an empty space.
    pub root_slot: u64,
    /// Hash over the roots of that commit.
    pub root_hash: [u8; 32],
    /// Slot of the checkpoint's first chunk, or `NO_RECORD`.
    pub checkpoint_slot: u64,
}

/// A superblock, with its hash as a sequence.
pub struct SuperblockView {
    pub seq: u64,
    pub root_slot: u64,
    pub root_hash: Seq<u8>,
    pub checkpoint_slot: u64,
}

impl View for Superblock {
    type V = SuperblockView;

    open spec fn view(&self) -> SuperblockView {
        SuperblockView {
            seq: self.seq,
            root_slot: self.root_slot,
            root_hash: self.root_hash@,
            checkpoint_slot: self.checkpoint_slot,
        }
    }
}

/// The part that every superblock has.
pub open spec fn superblock_head(s: SuperblockView) -> Seq<u8> {
    le_bytes(s.seq as nat, 8) + le_bytes(s.root_slot as nat, 8) + s.root_hash
}

/// The encoding: 48 bytes, and eight more where there is a checkpoint.
pub open spec fn superblock_encode(s: SuperblockView) -> Seq<u8> {
    if s.checkpoint_slot == NO_RECORD {
        superblock_head(s)
    } else {
        superblock_head(s) + le_bytes(s.checkpoint_slot as nat, 8)
    }
}

/// The superblock that the bytes encode, or why they encode none.
pub open spec fn superblock_decode(b: Seq<u8>) -> Result<SuperblockView, Error> {
    if b.len() != 48 && b.len() != 56 {
        Err(Error::Malformed("superblock payload must be exactly 48 or 56 bytes"))
    } else {
        let checkpoint_slot = if b.len() == 48 {
            NO_RECORD
        } else {
            le_value(b.subrange(48, 56)) as u64
        };
        if b.len() == 56 && checkpoint_slot == NO_RECORD {
            Err(Error::Malformed("non-canonical superblock: 56-byte form with NO_RECORD checkpoint"))
        } else {
            Ok(
                SuperblockView {
                    seq: le_value(b.subrange(0, 8)) as u64,
                    root_slot: le_value(b.subrange(8, 16)) as u64,
                    root_hash: b.subrange(16, 48),
                    checkpoint_slot,
                },
            )
        }
    }
}

/// Decoding undoes encoding.
pub proof fn law_superblock_decode_of_encode(s: SuperblockView)
    requires
        s.root_hash.len() == 32,
    ensures
        superblock_decode(superblock_encode(s)) == Ok::<SuperblockView, Error>(s),
        superblock_encode(s).len() == if s.checkpoint_slot == NO_RECORD {
            48
        } else {
            56nat
        },
{
    let b = superblock_encode(s);
    lemma_pow256_widths();
    lemma_le_value_of_bytes(s.seq as nat, 8);
    lemma_le_value_of_bytes(s.root_slot as nat, 8);
    lemma_le_value_of_bytes(s.checkpoint_slot as nat, 8);
    assert(b.subrange(0, 8) =~= le_bytes(s.seq as nat, 8));
    assert(b.subrange(8, 16) =~= le_bytes(s.root_slot as nat, 8));
    assert(b.subrange(16, 48) =~= s.root_hash);
    if s.checkpoint_slot != NO_RECORD {
        assert(b.subrange(48, 56) =~= le_bytes(s.checkpoint_slot as nat, 8));
    }
}

/// Encoding undoes decoding: a superblock has one encoding.
pub proof fn law_superblock_encode_of_decode(b: Seq<u8>)
    requires
        superblock_decode(b) is Ok,
    ensures
        superblock_encode(superblock_decode(b)->Ok_0) == b,
{
    lemma_pow256_widths();
    lemma_le_bytes_of_value(b.subrange(0, 8));
    lemma_le_bytes_of_value(b.subrange(8, 16));
    if b.len() == 56 {
        lemma_le_bytes_of_value(b.subrange(48, 56));
    }
    assert(superblock_encode(superblock_decode(b)->Ok_0) =~= b);
}

/// The form with a checkpoint starts with the form without one.
pub proof fn law_long_form_extends_short_form(s: SuperblockView)
    requires
        s.root_hash.len() == 32,
    ensures
        superblock_encode(s).take(48) == superblock_encode(
            SuperblockView { checkpoint_slot: NO_RECORD, ..s },
        ),
{
    lemma_le_bytes_len(s.seq as nat, 8);
    lemma_le_bytes_len(s.root_slot as nat, 8);
    assert(superblock_encode(s).take(48) =~= superblock_head(s));
    assert(superblock_head(SuperblockView { checkpoint_slot: NO_RECORD, ..s }) =~= superblock_head(
        s,
    ));
}

impl Superblock {
    /// Size without a checkpoint.
    pub const ENCODED_LEN: usize = 8 + 8 + 32;

    /// Size with a checkpoint.
    pub const ENCODED_LEN_WITH_CHECKPOINT: usize = 8 + 8 + 32 + 8;

    /// Is this the size of one of the two forms?
    #[must_use]
    pub fn is_valid_encoded_len(len: usize) -> (r: bool)
        ensures
            r == (len == 48 || len == 56),
    {
        len == Superblock::ENCODED_LEN || len == Superblock::ENCODED_LEN_WITH_CHECKPOINT
    }

    /// The encoding.
    #[must_use]
    pub fn encode(&self) -> (r: Vec<u8>)
        ensures
            r@ == superblock_encode(self@),
    {
        let mut buf: Vec<u8> = Vec::with_capacity(Superblock::ENCODED_LEN_WITH_CHECKPOINT);
        buf.extend_from_slice(write_u64(self.seq).as_slice());
        buf.extend_from_slice(write_u64(self.root_slot).as_slice());
        buf.extend_from_slice(self.root_hash.as_slice());
        assert(buf@ =~= superblock_head(self@));
        if self.checkpoint_slot != NO_RECORD {
            buf.extend_from_slice(write_u64(self.checkpoint_slot).as_slice());
            assert(buf@ =~= superblock_encode(self@));
        }
        buf
    }

    /// The superblock that `bytes` encode. A long form that says it has no
    /// checkpoint is refused: each superblock has one encoding.
    pub fn decode(bytes: &[u8]) -> (r: Result<Superblock, Error>)
        ensures
            agrees(r, superblock_decode(bytes@)),
    {
        if !Superblock::is_valid_encoded_len(bytes.len()) {
            return Err(Error::Malformed("superblock payload must be exactly 48 or 56 bytes"));
        }
        let seq: u64 = u64_at(bytes, 0);
        let root_slot: u64 = u64_at(bytes, 8);
        let root_hash: [u8; 32] = hash_at(bytes, 16);
        let checkpoint_slot: u64 = if bytes.len() == Superblock::ENCODED_LEN {
            NO_RECORD
        } else {
            u64_at(bytes, 48)
        };
        if bytes.len() == Superblock::ENCODED_LEN_WITH_CHECKPOINT && checkpoint_slot == NO_RECORD {
            return Err(
                Error::Malformed(
                    "non-canonical superblock: 56-byte form with NO_RECORD checkpoint",
                ),
            );
        }
        Ok(Superblock { seq, root_slot, root_hash, checkpoint_slot })
    }
}

} // verus!
