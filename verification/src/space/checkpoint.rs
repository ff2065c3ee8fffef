//! The open-scan checkpoint: a chain of chunks that lists the slots this
//! space owns and the slots it may reuse, so that an open need not try every
//! slot of the file.
//!
//! ```text
//! cp_seq u64 LE | cp_high_water u64 LE | next_slot u64 LE
//! owned_count u32 LE | pool_count u32 LE | owned slots u64 LE | pool slots u64 LE
//! ```

use vstd::prelude::*;

use crate::bytes::{
    le_bytes, le_value, lemma_le_bytes_len, lemma_le_bytes_of_value, lemma_le_value_of_bytes,
    lemma_pow256_widths, u32_at, u64_at, write_u32, write_u64,
};
use crate::chunk::PAYLOAD_CAP;
use crate::codec::{
    cat, lemma_cat_append, lemma_cat_of_parse, lemma_cat_push, lemma_parse_cat, lemma_prepend_step,
    parse_many, prepend, reads_back, reads_only,
};
use crate::error::{agrees, Error};
use crate::space::pool::DecoyPool;
use crate::space::slots::{lists, OwnedSet};
use crate::space::walk::MAX_OPEN_SCAN_CHUNKS;

verus! {

/// Bytes before the two slot lists.
pub const CP_HEADER_LEN: usize = 8 + 8 + 8 + 4 + 4;

/// Slots that one chunk lists, in both lists together.
pub const CP_ENTRIES_PER_CHUNK: usize = (PAYLOAD_CAP - CP_HEADER_LEN) / 8;

/// Below this many slots a full scan is fast enough.
pub const CHECKPOINT_MIN_TOTAL: u64 = 4096;

/// A tail shorter than this does not call for a new checkpoint.
pub const CHECKPOINT_MIN_TAIL_REFRESH: u64 = 2048;

/// So many changes of the pool call for a new checkpoint.
pub const CHECKPOINT_MIN_POOL_DRIFT: u64 = 256;

/// Longest chain that is followed.
pub const MAX_CHECKPOINT_CHAIN: u64 = MAX_OPEN_SCAN_CHUNKS / 501 + 2;

/// One chunk of the chain.
#[derive(Debug)]
pub struct CheckpointChunk {
    /// The publish that this checkpoint belongs to. The same in every chunk.
    pub cp_seq: u64,
    /// The slot count when it was written. The same in every chunk.
    pub cp_high_water: u64,
    /// Slot of the next chunk, or `NO_RECORD`.
    pub next_slot: u64,
    /// Slots owned.
    pub owned: Vec<u64>,
    /// Slots free for reuse.
    pub pool: Vec<u64>,
}

/// One chunk of the chain, with its lists as sequences.
pub struct CheckpointView {
    pub cp_seq: u64,
    pub cp_high_water: u64,
    pub next_slot: u64,
    pub owned: Seq<u64>,
    pub pool: Seq<u64>,
}

impl View for CheckpointChunk {
    type V = CheckpointView;

    open spec fn view(&self) -> CheckpointView {
        CheckpointView {
            cp_seq: self.cp_seq,
            cp_high_water: self.cp_high_water,
            next_slot: self.next_slot,
            owned: self.owned@,
            pool: self.pool@,
        }
    }
}

/// The encoding of one slot.
pub open spec fn slot_enc() -> spec_fn(u64) -> Seq<u8> {
    |s: u64| le_bytes(s as nat, 8)
}

/// Reads one slot.
pub open spec fn parse_slot(b: Seq<u8>, off: int) -> Result<(u64, int), Error> {
    if b.len() < off + 8 {
        Err(Error::Malformed("checkpoint chunk length mismatch"))
    } else {
        Ok((le_value(b.subrange(off, off + 8)) as u64, off + 8))
    }
}

/// `parse_slot` as a value.
pub open spec fn slot_item() -> spec_fn(Seq<u8>, int) -> Result<(u64, int), Error> {
    |b: Seq<u8>, off: int| parse_slot(b, off)
}

/// The part before the lists.
pub open spec fn checkpoint_head(c: CheckpointView) -> Seq<u8> {
    le_bytes(c.cp_seq as nat, 8) + le_bytes(c.cp_high_water as nat, 8) + le_bytes(
        c.next_slot as nat,
        8,
    ) + le_bytes(c.owned.len(), 4) + le_bytes(c.pool.len(), 4)
}

/// The encoding of a chunk, or why it has none.
pub open spec fn checkpoint_encode(c: CheckpointView) -> Result<Seq<u8>, Error> {
    if c.owned.len() + c.pool.len() > CP_ENTRIES_PER_CHUNK {
        Err(Error::Internal("checkpoint chunk overfull"))
    } else {
        Ok(checkpoint_head(c) + cat(slot_enc(), c.owned + c.pool))
    }
}

/// The chunk that the bytes encode, or why they encode none.
pub open spec fn checkpoint_decode(b: Seq<u8>) -> Result<CheckpointView, Error> {
    if b.len() < CP_HEADER_LEN {
        Err(Error::Malformed("checkpoint chunk shorter than header"))
    } else {
        let owned_count = le_value(b.subrange(24, 28));
        let pool_count = le_value(b.subrange(28, 32));
        if owned_count + pool_count > CP_ENTRIES_PER_CHUNK {
            Err(Error::Malformed("checkpoint count exceeds per-chunk capacity"))
        } else if b.len() != CP_HEADER_LEN + (owned_count + pool_count) * 8 {
            Err(Error::Malformed("checkpoint chunk length mismatch"))
        } else {
            match parse_many(slot_item(), b, 32, owned_count + pool_count) {
                Err(e) => Err(e),
                Ok((slots, _)) => Ok(
                    CheckpointView {
                        cp_seq: le_value(b.subrange(0, 8)) as u64,
                        cp_high_water: le_value(b.subrange(8, 16)) as u64,
                        next_slot: le_value(b.subrange(16, 24)) as u64,
                        owned: slots.take(owned_count as int),
                        pool: slots.skip(owned_count as int),
                    },
                ),
            }
        }
    }
}

/// Every slot takes eight bytes.
proof fn lemma_slots_len(v: Seq<u64>)
    ensures
        cat(slot_enc(), v).len() == 8 * v.len(),
    decreases v.len(),
{
    if v.len() > 0 {
        lemma_slots_len(v.drop_last());
        lemma_le_bytes_len(v.last() as nat, 8);
    }
}

/// A slot is read back.
proof fn lemma_slot_reads_back(x: u64)
    ensures
        reads_back(slot_item(), slot_enc(), x),
{
    lemma_pow256_widths();
    lemma_le_value_of_bytes(x as nat, 8);
}

/// Only encodings of slots are read.
proof fn lemma_slot_reads_only(b: Seq<u8>)
    ensures
        reads_only(slot_item(), slot_enc(), b),
{
    lemma_pow256_widths();
    assert forall|off: int| 0 <= off <= b.len() implies match #[trigger] slot_item()(b, off) {
        Ok((x, end)) => off <= end <= b.len() && slot_enc()(x) == b.subrange(off, end),
        Err(_) => true,
    } by {
        if let Ok((x, end)) = parse_slot(b, off) {
            lemma_le_bytes_of_value(b.subrange(off, off + 8));
        }
    }
}

/// Reading slots never fails where there are bytes enough.
proof fn lemma_parse_slots(b: Seq<u8>, off: int, n: nat)
    requires
        0 <= off,
        off + 8 * n <= b.len(),
    ensures
        parse_many(slot_item(), b, off, n) is Ok,
        parse_many(slot_item(), b, off, n)->Ok_0.0.len() == n,
        parse_many(slot_item(), b, off, n)->Ok_0.1 == off + 8 * n,
    decreases n,
{
    if n > 0 {
        lemma_parse_slots(b, off + 8, (n - 1) as nat);
    }
}

/// Decoding undoes encoding: both lists come back, each its own.
pub proof fn law_checkpoint_decode_of_encode(c: CheckpointView)
    requires
        checkpoint_encode(c) is Ok,
    ensures
        checkpoint_decode(checkpoint_encode(c)->Ok_0) == Ok::<CheckpointView, Error>(c),
        checkpoint_encode(c)->Ok_0.len() == CP_HEADER_LEN + 8 * (c.owned.len() + c.pool.len()),
{
    let b = checkpoint_encode(c)->Ok_0;
    let slots = c.owned + c.pool;
    lemma_pow256_widths();
    lemma_le_value_of_bytes(c.cp_seq as nat, 8);
    lemma_le_value_of_bytes(c.cp_high_water as nat, 8);
    lemma_le_value_of_bytes(c.next_slot as nat, 8);
    lemma_le_value_of_bytes(c.owned.len(), 4);
    lemma_le_value_of_bytes(c.pool.len(), 4);
    lemma_slots_len(slots);
    assert(b.subrange(0, 8) =~= le_bytes(c.cp_seq as nat, 8));
    assert(b.subrange(8, 16) =~= le_bytes(c.cp_high_water as nat, 8));
    assert(b.subrange(16, 24) =~= le_bytes(c.next_slot as nat, 8));
    assert(b.subrange(24, 28) =~= le_bytes(c.owned.len(), 4));
    assert(b.subrange(28, 32) =~= le_bytes(c.pool.len(), 4));
    assert(b.subrange(32, b.len() as int) =~= cat(slot_enc(), slots));
    assert forall|i: int| 0 <= i < slots.len() implies reads_back(
        slot_item(),
        slot_enc(),
        #[trigger] slots[i],
    ) by {
        lemma_slot_reads_back(slots[i]);
    }
    lemma_parse_cat(slot_item(), slot_enc(), slots, b, 32);
    assert(slots.take(c.owned.len() as int) =~= c.owned);
    assert(slots.skip(c.owned.len() as int) =~= c.pool);
}

/// Encoding undoes decoding: a chunk has one encoding.
pub proof fn law_checkpoint_encode_of_decode(b: Seq<u8>)
    requires
        checkpoint_decode(b) is Ok,
    ensures
        checkpoint_encode(checkpoint_decode(b)->Ok_0) == Ok::<Seq<u8>, Error>(b),
{
    let c = checkpoint_decode(b)->Ok_0;
    let owned_count = le_value(b.subrange(24, 28));
    let n = owned_count + le_value(b.subrange(28, 32));
    lemma_slot_reads_only(b);
    lemma_cat_of_parse(slot_item(), slot_enc(), b, 32, n);
    lemma_parse_slots(b, 32, n);
    lemma_le_bytes_of_value(b.subrange(0, 8));
    lemma_le_bytes_of_value(b.subrange(8, 16));
    lemma_le_bytes_of_value(b.subrange(16, 24));
    lemma_le_bytes_of_value(b.subrange(24, 28));
    lemma_le_bytes_of_value(b.subrange(28, 32));
    lemma_pow256_widths();
    let slots = parse_many(slot_item(), b, 32, n)->Ok_0.0;
    assert(c.owned + c.pool =~= slots);
    assert(checkpoint_encode(c)->Ok_0 =~= b);
}

/// Appends the encodings of slots.
fn push_slots(buf: &mut Vec<u8>, slots: &[u64])
    ensures
        final(buf)@ == old(buf)@ + cat(slot_enc(), slots@),
{
    let ghost start = buf@;
    let mut i: usize = 0;
    assert(slots@.take(0) =~= Seq::<u64>::empty());
    assert(start + cat(slot_enc(), slots@.take(0)) =~= start);
    while i < slots.len()
        invariant
            i <= slots@.len(),
            buf@ == start + cat(slot_enc(), slots@.take(i as int)),
        decreases slots@.len() - i,
    {
        proof {
            assert(slots@.take(i + 1) =~= slots@.take(i as int).push(slots@[i as int]));
            lemma_cat_push(slot_enc(), slots@.take(i as int), slots@[i as int]);
        }
        let ghost before = buf@;
        buf.extend_from_slice(write_u64(slots[i]).as_slice());
        assert(buf@ =~= before + le_bytes(slots@[i as int] as nat, 8));
        assert(buf@ =~= start + cat(slot_enc(), slots@.take(i + 1)));
        i = i + 1;
    }
    assert(slots@.take(i as int) =~= slots@);
}

impl CheckpointChunk {
    /// The encoding. Refused if the two lists together are too long for one
    /// chunk.
    pub fn encode(&self) -> (r: Result<Vec<u8>, Error>)
        ensures
            agrees(r, checkpoint_encode(self@)),
    {
        if self.owned.len() > CP_ENTRIES_PER_CHUNK || self.pool.len() > CP_ENTRIES_PER_CHUNK
            - self.owned.len() {
            return Err(Error::Internal("checkpoint chunk overfull"));
        }
        let entries: usize = self.owned.len() + self.pool.len();
        let mut buf: Vec<u8> = Vec::with_capacity(CP_HEADER_LEN + entries * 8);
        buf.extend_from_slice(write_u64(self.cp_seq).as_slice());
        buf.extend_from_slice(write_u64(self.cp_high_water).as_slice());
        buf.extend_from_slice(write_u64(self.next_slot).as_slice());
        buf.extend_from_slice(write_u32(self.owned.len() as u32).as_slice());
        buf.extend_from_slice(write_u32(self.pool.len() as u32).as_slice());
        assert(buf@ =~= checkpoint_head(self@));
        push_slots(&mut buf, self.owned.as_slice());
        push_slots(&mut buf, self.pool.as_slice());
        proof {
            lemma_cat_append(slot_enc(), self.owned@, self.pool@);
            assert(buf@ =~= checkpoint_head(self@) + cat(slot_enc(), self.owned@ + self.pool@));
        }
        Ok(buf)
    }

    /// The chunk that `payload` encodes. The counts are checked as a sum, and
    /// the length must be exactly what they call for.
    pub fn decode(payload: &[u8]) -> (r: Result<CheckpointChunk, Error>)
        ensures
            agrees(r, checkpoint_decode(payload@)),
    {
        if payload.len() < CP_HEADER_LEN {
            return Err(Error::Malformed("checkpoint chunk shorter than header"));
        }
        let cp_seq: u64 = u64_at(payload, 0);
        let cp_high_water: u64 = u64_at(payload, 8);
        let next_slot: u64 = u64_at(payload, 16);
        let owned_count: u64 = u32_at(payload, 24) as u64;
        let pool_count: u64 = u32_at(payload, 28) as u64;
        if owned_count + pool_count > CP_ENTRIES_PER_CHUNK as u64 {
            return Err(Error::Malformed("checkpoint count exceeds per-chunk capacity"));
        }
        let owned_len: usize = owned_count as usize;
        let entries: usize = (owned_count + pool_count) as usize;
        if payload.len() != CP_HEADER_LEN + entries * 8 {
            return Err(Error::Malformed("checkpoint chunk length mismatch"));
        }
        let ghost b = payload@;
        let ghost all = parse_many(slot_item(), b, 32, entries as nat);
        let mut owned: Vec<u64> = Vec::with_capacity(owned_len);
        let mut pool: Vec<u64> = Vec::with_capacity(entries - owned_len);
        let mut i: usize = 0;
        proof {
            lemma_parse_slots(b, 32, entries as nat);
            assert(owned@ + pool@ =~= Seq::<u64>::empty());
            assert(Seq::<u64>::empty() + all->Ok_0.0 =~= all->Ok_0.0);
        }
        while i < entries
            invariant
                b == payload@,
                i <= entries,
                owned_len <= entries,
                payload.len() == CP_HEADER_LEN + entries * 8,
                entries <= CP_ENTRIES_PER_CHUNK,
                owned@.len() == if i < owned_len {
                    i
                } else {
                    owned_len
                },
                owned@.len() + pool@.len() == i,
                all == parse_many(slot_item(), b, 32, entries as nat),
                all == prepend(
                    owned@ + pool@,
                    parse_many(slot_item(), b, 32 + i * 8, (entries - i) as nat),
                ),
            decreases entries - i,
        {
            let s: u64 = u64_at(payload, CP_HEADER_LEN + i * 8);
            let ghost had = owned@ + pool@;
            proof {
                assert(slot_item()(b, 32 + i * 8) == Ok::<(u64, int), Error>((s, 32 + (i + 1) * 8)));
                lemma_prepend_step(
                    had,
                    s,
                    parse_many(slot_item(), b, 32 + (i + 1) * 8, (entries - i - 1) as nat),
                );
            }
            if i < owned_len {
                owned.push(s);
            } else {
                pool.push(s);
            }
            assert(owned@ + pool@ =~= had.push(s));
            i = i + 1;
        }
        proof {
            let slots = all->Ok_0.0;
            assert(owned@ + pool@ + Seq::<u64>::empty() =~= owned@ + pool@);
            assert(slots == owned@ + pool@);
            assert(slots.take(owned_len as int) =~= owned@);
            assert(slots.skip(owned_len as int) =~= pool@);
        }
        Ok(CheckpointChunk { cp_seq, cp_high_water, next_slot, owned, pool })
    }
}

/// The pool as it is to be recorded: what this session holds and what an
/// earlier record held, as far as it is neither owned nor past the end.
pub open spec fn recorded_pool(
    live: Set<u64>,
    carried: Set<u64>,
    owned: Set<u64>,
    high_water: u64,
) -> Set<u64> {
    carried.union(live).filter(|s: u64| s < high_water && !owned.contains(s))
}

/// The pool as it is to be recorded, in rising order, unless there is no
/// memory for the list. An empty one takes none.
pub fn merge_carried_pool(
    live: &DecoyPool,
    carried: DecoyPool,
    owned: &OwnedSet,
    high_water: u64,
) -> (r: Result<Vec<u64>, Error>)
    requires
        live.wf(),
        carried.wf(),
    ensures
        match r {
            Ok(v) => lists(v@, recorded_pool(live@, carried@, owned@, high_water)),
            Err(e) => {
                &&& e == Error::Internal("checkpoint pool does not fit in memory")
                &&& recorded_pool(live@, carried@, owned@, high_water).len() > 0
            },
        },
{
    let mut both = carried;
    both.set.union_from(&live.set);
    both.retain_below_and_unowned(high_water, owned);
    match both.try_sorted() {
        Ok(v) => Ok(v),
        Err(_) => Err(Error::Internal("checkpoint pool does not fit in memory")),
    }
}

} // verus!
