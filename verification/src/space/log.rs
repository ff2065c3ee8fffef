//! Log records: compressed batches, and the keys and values by which the
//! index points at them.
//!
//! A batch, before compression:
//!
//! ```text
//! num_records u32 LE
//! per record: log_id u64 LE | payload_len u32 LE | payload
//! ```

use std::io::Read;

use vstd::prelude::*;

use crate::bytes::{
    be_bytes, be_to_u64, be_value, copy_of, le_bytes, le_value, lemma_be_bytes_of_value,
    lemma_be_round_trip, lemma_le_bytes_len, lemma_le_bytes_of_value, lemma_le_value_of_bytes,
    lemma_pow256_widths, lex_lt, pow256, push_le, u32_at, u64_at, u64_to_be, write_u64,
};
use crate::chunk::PAYLOAD_CAP;
use crate::codec::{
    cat, lemma_cat_of_parse, lemma_cat_push, lemma_parse_cat, lemma_prepend_step, parse_many,
    prepend, reads_back, reads_only,
};
use crate::error::{agrees, Error};
use crate::wipe::{zeroize_bytes, WipedLogPage};

verus! {

/// Most records in one batch.
pub const MAX_RECORDS_PER_BATCH: usize = 1024;

/// Longest payload of one record.
pub const MAX_LOG_PAYLOAD_LEN: usize = 8 * 1024;

/// Largest batch that a reader unpacks.
pub const MAX_DECODED_BATCH_LEN: usize = 4 + 1024 * (12 + 8 * 1024);

/// Largest batch that a writer hands to the compressor.
pub const MAX_RAW_BATCH_LEN: usize = 1024 * 1024;

/// Most batches that a page of records keeps decoded.
pub const MAX_CACHED_BATCHES: usize = 64;

/// Most bytes of decoded batches that a page of records keeps.
pub const MAX_CACHED_BATCH_BYTES: usize = 16 * 1024 * 1024;

/// What a record costs to keep besides its payload.
pub const RECORD_OVERHEAD: usize = 32;

/// Compression level.
pub const ZSTD_LEVEL: i32 = 3;

/// A record: its number and its payload.
pub type RecordView = (u64, Seq<u8>);

/// Records, with their payloads as sequences.
pub open spec fn records_view(v: Seq<(u64, Vec<u8>)>) -> Seq<RecordView> {
    Seq::new(v.len(), |i: int| (v[i].0, v[i].1@))
}

/// The encoding of one record.
pub open spec fn record_bytes(r: RecordView) -> Seq<u8> {
    le_bytes(r.0 as nat, 8) + le_bytes(r.1.len(), 4) + r.1
}

/// `record_bytes` as a value.
pub open spec fn record_enc() -> spec_fn(RecordView) -> Seq<u8> {
    |r: RecordView| record_bytes(r)
}

/// A batch before compression.
pub open spec fn batch_raw(rs: Seq<RecordView>) -> Seq<u8> {
    le_bytes(rs.len(), 4) + cat(record_enc(), rs)
}

/// Size of a batch before compression.
pub open spec fn batch_raw_len(rs: Seq<RecordView>) -> nat
    decreases rs.len(),
{
    if rs.len() == 0 {
        4
    } else {
        batch_raw_len(rs.drop_last()) + 12 + rs.last().1.len()
    }
}

/// Every payload is within its limit.
pub open spec fn payloads_fit(rs: Seq<RecordView>) -> bool {
    forall|i: int| 0 <= i < rs.len() ==> (#[trigger] rs[i]).1.len() <= MAX_LOG_PAYLOAD_LEN
}

/// Reads one record of an unpacked batch.
pub open spec fn parse_record(b: Seq<u8>, off: int) -> Result<(RecordView, int), Error> {
    if b.len() < off + 12 {
        Err(Error::Malformed("batch truncated at record header"))
    } else {
        let plen = le_value(b.subrange(off + 8, off + 12));
        if plen > MAX_LOG_PAYLOAD_LEN {
            Err(Error::Malformed("batch invalid payload length"))
        } else if b.len() < off + 12 + plen {
            Err(Error::Malformed("batch truncated at payload"))
        } else {
            Ok(
                (
                    (
                        le_value(b.subrange(off, off + 8)) as u64,
                        b.subrange(off + 12, off + 12 + plen),
                    ),
                    off + 12 + plen,
                ),
            )
        }
    }
}

/// `parse_record` as a value.
pub open spec fn record_item() -> spec_fn(Seq<u8>, int) -> Result<(RecordView, int), Error> {
    |b: Seq<u8>, off: int| parse_record(b, off)
}

/// The records that an unpacked batch holds, or why it holds none.
pub open spec fn batch_parse(raw: Seq<u8>) -> Result<Seq<RecordView>, Error> {
    if raw.len() < 4 {
        Err(Error::Malformed("batch raw too short"))
    } else {
        let num = le_value(raw.subrange(0, 4));
        if num > MAX_RECORDS_PER_BATCH {
            Err(Error::Malformed("batch num_records too large"))
        } else {
            match parse_many(record_item(), raw, 4, num) {
                Err(e) => Err(e),
                Ok((rs, end)) => if end != raw.len() {
                    Err(
                        Error::Malformed(
                            "batch decompressed payload trailing bytes after last record",
                        ),
                    )
                } else {
                    Ok(rs)
                },
            }
        }
    }
}

/// What the crate zstd makes of `raw` at a compression level: the frame, or
/// nothing where it reports an error.
pub uninterp spec fn zstd_frame(raw: Seq<u8>, level: int) -> Option<Seq<u8>>;

/// What a decoder of the crate zstd gives when at most `limit` bytes are read
/// from it: the bytes, or nothing where it reports an error on the way.
pub uninterp spec fn zstd_unframe(frame: Seq<u8>, limit: nat) -> Option<Seq<u8>>;

/// The encoding of a batch, or why it has none.
pub open spec fn batch_encode(rs: Seq<RecordView>) -> Result<Seq<u8>, Error> {
    if rs.len() > MAX_RECORDS_PER_BATCH {
        Err(Error::Malformed("batch exceeds MAX_RECORDS_PER_BATCH"))
    } else if batch_raw_len(rs) > MAX_RAW_BATCH_LEN || !payloads_fit(rs) {
        Err(Error::PayloadTooLarge)
    } else {
        batch_sealed(zstd_frame(batch_raw(rs), ZSTD_LEVEL as int))
    }
}

/// What becomes of the compressor's answer: it must be there, and fit in a
/// chunk.
pub open spec fn batch_sealed(frame: Option<Seq<u8>>) -> Result<Seq<u8>, Error> {
    match frame {
        None => Err(Error::Compression("zstd encode failed")),
        Some(c) => if c.len() > PAYLOAD_CAP {
            Err(Error::PayloadTooLarge)
        } else {
            Ok(c)
        },
    }
}

/// The records that a compressed batch holds, or why it holds none.
pub open spec fn batch_decode(c: Seq<u8>) -> Result<Seq<RecordView>, Error> {
    batch_unsealed(zstd_unframe(c, (MAX_DECODED_BATCH_LEN + 1) as nat))
}

/// What becomes of the decompressor's answer: it must be there, be within the
/// limit, and parse.
pub open spec fn batch_unsealed(raw: Option<Seq<u8>>) -> Result<Seq<RecordView>, Error> {
    match raw {
        None => Err(Error::Compression("zstd decode failed")),
        Some(r) => if r.len() > MAX_DECODED_BATCH_LEN {
            Err(Error::Malformed("batch decompressed size exceeds cap"))
        } else {
            batch_parse(r)
        },
    }
}

/// `zstd::encode_all` of the crate zstd, which compresses the whole input
/// into the zstd frame format, by the name `zstd_frame`. Decompressing the
/// result gives the input back: reading up to `limit` bytes of it gives the
/// first `limit` bytes of the input, or all of it. Exhaustion of memory is
/// left out of account, as it is everywhere in this library.
#[verifier::external_body]
fn zstd_encode(raw: &[u8], level: i32) -> (r: Option<Vec<u8>>)
    ensures
        match r {
            Some(c) => zstd_frame(raw@, level as int) == Some(c@),
            None => zstd_frame(raw@, level as int) is None,
        },
        forall|limit: nat|
            r is Some ==> #[trigger] zstd_unframe(r->0@, limit) == Some(
                raw@.take(
                    if limit < raw@.len() {
                        limit as int
                    } else {
                        raw@.len() as int
                    },
                ),
            ),
{
    zstd::encode_all(raw, level).ok()
}

/// `zstd::Decoder` of the crate zstd over the given bytes, read to its end or
/// to `limit` bytes, whichever comes first, by the name `zstd_unframe`.
/// Exhaustion of memory is left out of account.
#[verifier::external_body]
fn zstd_read(compressed: &[u8], limit: u64) -> (r: Option<Vec<u8>>)
    ensures
        match r {
            Some(raw) => zstd_unframe(compressed@, limit as nat) == Some(raw@),
            None => zstd_unframe(compressed@, limit as nat) is None,
        },
{
    let mut buf = Vec::new();
    let decoder = zstd::Decoder::new(compressed).ok()?;
    decoder.take(limit).read_to_end(&mut buf).ok()?;
    Some(buf)
}

/// The size of a batch is what `batch_raw_len` says.
pub proof fn lemma_batch_raw_len(rs: Seq<RecordView>)
    ensures
        batch_raw(rs).len() == batch_raw_len(rs),
        cat(record_enc(), rs).len() + 4 == batch_raw_len(rs),
        batch_raw_len(rs) >= 4 + 12 * rs.len(),
    decreases rs.len(),
{
    lemma_le_bytes_len(rs.len(), 4);
    if rs.len() > 0 {
        lemma_batch_raw_len(rs.drop_last());
        lemma_le_bytes_len(rs.last().0 as nat, 8);
        lemma_le_bytes_len(rs.last().1.len(), 4);
    }
}

/// A batch is at least as long as any of its prefixes.
proof fn lemma_batch_raw_len_take(rs: Seq<RecordView>, n: int)
    requires
        0 <= n <= rs.len(),
    ensures
        batch_raw_len(rs.take(n)) <= batch_raw_len(rs),
    decreases rs.len(),
{
    if n < rs.len() {
        lemma_batch_raw_len_take(rs.drop_last(), n);
        assert(rs.drop_last().take(n) =~= rs.take(n));
    } else {
        assert(rs.take(n) =~= rs);
    }
}

/// A record within its limit is read back.
proof fn lemma_record_reads_back(r: RecordView)
    requires
        r.1.len() <= MAX_LOG_PAYLOAD_LEN,
    ensures
        reads_back(record_item(), record_enc(), r),
{
    let s = record_bytes(r);
    lemma_pow256_widths();
    lemma_le_value_of_bytes(r.0 as nat, 8);
    lemma_le_value_of_bytes(r.1.len(), 4);
    let p = r.1.len() as int;
    assert forall|b: Seq<u8>, off: int|
        0 <= off && off + s.len() <= b.len() && b.subrange(off, off + s.len())
            == s implies #[trigger] record_item()(b, off) == Ok::<(RecordView, int), Error>(
        (r, off + s.len()),
    ) by {
        assert forall|i: int| 0 <= i < s.len() implies b[off + i] == #[trigger] s[i] by {
            assert(b.subrange(off, off + s.len())[i] == s[i]);
        }
        assert(b.subrange(off, off + 8) =~= le_bytes(r.0 as nat, 8)) by {
            assert forall|i: int| 0 <= i < 8 implies b[off + i] == le_bytes(r.0 as nat, 8)[i] by {
                assert(s[i] == le_bytes(r.0 as nat, 8)[i]);
            }
        }
        assert(b.subrange(off + 8, off + 12) =~= le_bytes(r.1.len(), 4)) by {
            assert forall|i: int| 0 <= i < 4 implies b[off + 8 + i] == le_bytes(
                r.1.len(),
                4,
            )[i] by {
                assert(s[8 + i] == le_bytes(r.1.len(), 4)[i]);
            }
        }
        assert(b.subrange(off + 12, off + 12 + p) =~= r.1) by {
            assert forall|i: int| 0 <= i < p implies b[off + 12 + i] == r.1[i] by {
                assert(s[12 + i] == r.1[i]);
            }
        }
    }
}

/// Only encodings of records are read.
proof fn lemma_record_reads_only(b: Seq<u8>)
    ensures
        reads_only(record_item(), record_enc(), b),
{
    lemma_pow256_widths();
    assert forall|off: int| 0 <= off <= b.len() implies match #[trigger] record_item()(b, off) {
        Ok((x, end)) => off <= end <= b.len() && record_enc()(x) == b.subrange(off, end),
        Err(_) => true,
    } by {
        if let Ok((x, end)) = parse_record(b, off) {
            lemma_le_bytes_of_value(b.subrange(off, off + 8));
            lemma_le_bytes_of_value(b.subrange(off + 8, off + 12));
            assert(record_bytes(x) =~= b.subrange(off, end));
        }
    }
}

/// Parsing undoes laying out: a batch of legal records comes back as it was.
pub proof fn law_batch_parse_of_raw(rs: Seq<RecordView>)
    requires
        rs.len() <= MAX_RECORDS_PER_BATCH,
        payloads_fit(rs),
    ensures
        batch_parse(batch_raw(rs)) == Ok::<Seq<RecordView>, Error>(rs),
{
    let b = batch_raw(rs);
    lemma_pow256_widths();
    lemma_le_value_of_bytes(rs.len(), 4);
    lemma_batch_raw_len(rs);
    assert(b.subrange(0, 4) =~= le_bytes(rs.len(), 4));
    assert(b.subrange(4, b.len() as int) =~= cat(record_enc(), rs));
    assert forall|i: int| 0 <= i < rs.len() implies reads_back(
        record_item(),
        record_enc(),
        #[trigger] rs[i],
    ) by {
        lemma_record_reads_back(rs[i]);
    }
    lemma_parse_cat(record_item(), record_enc(), rs, b, 4);
}

/// Laying out undoes parsing: the records of a batch have one layout.
pub proof fn law_batch_raw_of_parse(raw: Seq<u8>)
    requires
        batch_parse(raw) is Ok,
    ensures
        batch_raw(batch_parse(raw)->Ok_0) == raw,
{
    let num = le_value(raw.subrange(0, 4));
    lemma_record_reads_only(raw);
    lemma_cat_of_parse(record_item(), record_enc(), raw, 4, num);
    lemma_le_bytes_of_value(raw.subrange(0, 4));
    assert(batch_raw(batch_parse(raw)->Ok_0) =~= raw);
}

/// What becomes of the compressor's answer.
pub fn seal_batch(frame: Option<Vec<u8>>) -> (r: Result<Vec<u8>, Error>)
    ensures
        agrees(
            r,
            batch_sealed(
                match frame {
                    Some(c) => Some(c@),
                    None => None,
                },
            ),
        ),
{
    match frame {
        None => Err(Error::Compression("zstd encode failed")),
        Some(c) => if c.len() > PAYLOAD_CAP {
            Err(Error::PayloadTooLarge)
        } else {
            Ok(c)
        },
    }
}

/// Compresses records into one batch. Refused with too many records, with a
/// payload over its limit, or where the batch is too large before or after
/// compression. Decoding the result gives the records back.
pub fn encode_batch(records: &[(u64, Vec<u8>)]) -> (r: Result<Vec<u8>, Error>)
    ensures
        agrees(r, batch_encode(records_view(records@))),
        r matches Ok(c) ==> batch_decode(c@) == Ok::<Seq<RecordView>, Error>(
            records_view(records@),
        ),
{
    let ghost rs = records_view(records@);
    if records.len() > MAX_RECORDS_PER_BATCH {
        return Err(Error::Malformed("batch exceeds MAX_RECORDS_PER_BATCH"));
    }
    let mut raw_size: usize = 4;
    let mut i: usize = 0;
    assert(rs.take(0) =~= Seq::<RecordView>::empty());
    while i < records.len()
        invariant
            i <= records@.len(),
            rs == records_view(records@),
            rs.len() <= MAX_RECORDS_PER_BATCH,
            raw_size == batch_raw_len(rs.take(i as int)),
            raw_size <= MAX_RAW_BATCH_LEN,
        decreases records@.len() - i,
    {
        let plen: usize = records[i].1.len();
        proof {
            let next = rs.take(i + 1);
            assert(next.drop_last() =~= rs.take(i as int));
            assert(next.last() == rs[i as int]);
            lemma_batch_raw_len_take(rs, i + 1);
        }
        if plen > MAX_RAW_BATCH_LEN || raw_size + (8 + 4 + plen) > MAX_RAW_BATCH_LEN {
            return Err(Error::PayloadTooLarge);
        }
        raw_size = raw_size + (8 + 4 + plen);
        i = i + 1;
    }
    assert(rs.take(i as int) =~= rs);
    let mut raw: Vec<u8> = Vec::with_capacity(raw_size);
    push_le(&mut raw, records.len() as u64, 4);
    let ghost head = le_bytes(rs.len(), 4);
    assert(raw@ =~= head);
    assert(head + cat(record_enc(), rs.take(0)) =~= head);
    let mut j: usize = 0;
    while j < records.len()
        invariant
            j <= records@.len(),
            rs == records_view(records@),
            rs.len() <= MAX_RECORDS_PER_BATCH,
            raw@ == head + cat(record_enc(), rs.take(j as int)),
            forall|k: int| 0 <= k < j ==> (#[trigger] rs[k]).1.len() <= MAX_LOG_PAYLOAD_LEN,
        decreases records@.len() - j,
    {
        if records[j].1.len() > MAX_LOG_PAYLOAD_LEN {
            assert(rs[j as int].1.len() > MAX_LOG_PAYLOAD_LEN);
            zeroize_bytes(&mut raw);
            return Err(Error::PayloadTooLarge);
        }
        proof {
            assert(rs.take(j + 1) =~= rs.take(j as int).push(rs[j as int]));
            lemma_cat_push(record_enc(), rs.take(j as int), rs[j as int]);
        }
        let ghost before = raw@;
        push_le(&mut raw, records[j].0, 8);
        push_le(&mut raw, records[j].1.len() as u64, 4);
        raw.extend_from_slice(records[j].1.as_slice());
        assert(raw@ =~= before + record_bytes(rs[j as int]));
        assert(raw@ =~= head + cat(record_enc(), rs.take(j + 1)));
        j = j + 1;
    }
    assert(rs.take(j as int) =~= rs);
    assert(raw@ =~= batch_raw(rs));
    let frame = zstd_encode(raw.as_slice(), ZSTD_LEVEL);
    proof {
        law_batch_parse_of_raw(rs);
        lemma_batch_raw_len(rs);
        assert(raw@.take(raw@.len() as int) =~= raw@);
        if frame is Some {
            assert(zstd_unframe(frame->0@, (MAX_DECODED_BATCH_LEN + 1) as nat) == Some(raw@));
        }
    }
    zeroize_bytes(&mut raw);
    seal_batch(frame)
}

/// The record numbers, in order.
pub open spec fn record_ids(rs: Seq<RecordView>) -> Seq<u64> {
    Seq::new(rs.len(), |i: int| rs[i].0)
}

/// A batch and the numbers of the records in it.
pub type BatchView = (Seq<u64>, Seq<u8>);

/// Batches, with their bytes as sequences.
pub open spec fn batches_view(v: Seq<(Vec<u64>, Vec<u8>)>) -> Seq<BatchView> {
    Seq::new(v.len(), |i: int| (v[i].0@, v[i].1@))
}

/// Records cut into batches that each fit in a chunk, by halving whatever
/// does not, or why that cannot be done.
pub open spec fn batches_of(rs: Seq<RecordView>) -> Result<Seq<BatchView>, Error>
    decreases rs.len(),
{
    match batch_encode(rs) {
        Ok(c) => Ok(seq![(record_ids(rs), c)]),
        Err(Error::PayloadTooLarge) => if rs.len() <= 1 {
            Err(Error::PayloadTooLarge)
        } else {
            let mid = (rs.len() / 2) as int;
            match batches_of(rs.take(mid)) {
                Err(e) => Err(e),
                Ok(left) => match batches_of(rs.skip(mid)) {
                    Err(e) => Err(e),
                    Ok(right) => Ok(left + right),
                },
            }
        },
        Err(e) => Err(e),
    }
}

/// The records that a sequence of batches decodes to, in order.
pub open spec fn batches_records(bs: Seq<BatchView>) -> Result<Seq<RecordView>, Error>
    decreases bs.len(),
{
    if bs.len() == 0 {
        Ok(Seq::<RecordView>::empty())
    } else {
        match batches_records(bs.drop_last()) {
            Err(e) => Err(e),
            Ok(init) => match batch_decode(bs.last().1) {
                Err(e) => Err(e),
                Ok(rs) => Ok(init + rs),
            },
        }
    }
}

/// Each batch decodes to records with the numbers listed beside it, and fits
/// in a chunk.
pub open spec fn batches_listed(bs: Seq<BatchView>) -> bool {
    forall|i: int|
        0 <= i < bs.len() ==> batch_decode((#[trigger] bs[i]).1) is Ok && record_ids(
            batch_decode(bs[i].1)->Ok_0,
        ) == bs[i].0 && bs[i].1.len() <= PAYLOAD_CAP
}

/// Appending batches appends their records.
proof fn lemma_batches_records_push(bs: Seq<BatchView>, b: BatchView)
    ensures
        batches_records(bs.push(b)) == match batches_records(bs) {
            Err(e) => Err::<Seq<RecordView>, Error>(e),
            Ok(init) => match batch_decode(b.1) {
                Err(e) => Err(e),
                Ok(rs) => Ok(init + rs),
            },
        },
{
    assert(bs.push(b).drop_last() =~= bs);
}

/// Cuts records into batches that each fit in a chunk. Refused with too many
/// records, or where a single record does not fit. Decoding the batches in
/// order gives the records back.
pub fn encode_batches_split(records: &[(u64, Vec<u8>)]) -> (r: Result<
    Vec<(Vec<u64>, Vec<u8>)>,
    Error,
>)
    ensures
        match r {
            Ok(v) => {
                &&& batches_records(batches_view(v@)) == Ok::<Seq<RecordView>, Error>(
                    records_view(records@),
                )
                &&& batches_listed(batches_view(v@))
            },
            Err(_) => true,
        },
        records@.len() == 0 ==> r is Ok && r->Ok_0@.len() == 0,
        records@.len() > MAX_RECORDS_PER_BATCH ==> r == Err::<Vec<(Vec<u64>, Vec<u8>)>, Error>(
            Error::Malformed("batch exceeds MAX_RECORDS_PER_BATCH"),
        ),
        0 < records@.len() <= MAX_RECORDS_PER_BATCH ==> match r {
            Ok(v) => batches_of(records_view(records@)) == Ok::<Seq<BatchView>, Error>(
                batches_view(v@),
            ),
            Err(e) => batches_of(records_view(records@)) == Err::<Seq<BatchView>, Error>(e),
        },
{
    let mut out: Vec<(Vec<u64>, Vec<u8>)> = Vec::new();
    assert(batches_view(out@) =~= Seq::<BatchView>::empty());
    if records.len() == 0 {
        assert(records_view(records@) =~= Seq::<RecordView>::empty());
        return Ok(out);
    }
    if records.len() > MAX_RECORDS_PER_BATCH {
        return Err(Error::Malformed("batch exceeds MAX_RECORDS_PER_BATCH"));
    }
    match encode_batches_split_into(records, &mut out) {
        Err(e) => Err(e),
        Ok(()) => {
            assert(Seq::<RecordView>::empty() + records_view(records@) =~= records_view(records@));
            assert(Seq::<BatchView>::empty() + batches_of(records_view(records@))->Ok_0
                =~= batches_of(records_view(records@))->Ok_0);
            Ok(out)
        },
    }
}

/// Appends to `out` the batches that `records` are cut into.
fn encode_batches_split_into(
    records: &[(u64, Vec<u8>)],
    out: &mut Vec<(Vec<u64>, Vec<u8>)>,
) -> (r: Result<(), Error>)
    requires
        records@.len() > 0,
        batches_listed(batches_view(old(out)@)),
        batches_records(batches_view(old(out)@)) is Ok,
    ensures
        match batches_of(records_view(records@)) {
            Ok(bs) => r is Ok && batches_view(final(out)@) == batches_view(old(out)@) + bs,
            Err(e) => r == Err::<(), Error>(e),
        },
        r is Ok ==> {
            &&& batches_listed(batches_view(final(out)@))
            &&& batches_records(batches_view(final(out)@)) == Ok::<Seq<RecordView>, Error>(
                batches_records(batches_view(old(out)@))->Ok_0 + records_view(records@),
            )
        },
    decreases records@.len(),
{
    let ghost rs = records_view(records@);
    let ghost had = batches_view(out@);
    match encode_batch(records) {
        Ok(bytes) => {
            let mut ids: Vec<u64> = Vec::with_capacity(records.len());
            let mut i: usize = 0;
            while i < records.len()
                invariant
                    i <= records@.len(),
                    rs == records_view(records@),
                    ids@ =~= record_ids(rs).take(i as int),
                decreases records@.len() - i,
            {
                ids.push(records[i].0);
                i = i + 1;
            }
            assert(ids@ =~= record_ids(rs));
            let ghost b = (ids@, bytes@);
            out.push((ids, bytes));
            proof {
                assert(batches_view(out@) =~= had.push(b));
                assert(had.push(b) =~= had + seq![b]);
                lemma_batches_records_push(had, b);
            }
            Ok(())
        },
        Err(Error::PayloadTooLarge) => {
            if records.len() == 1 {
                return Err(Error::PayloadTooLarge);
            }
            let mid: usize = records.len() / 2;
            let left = &records[0..mid];
            let right = &records[mid..records.len()];
            proof {
                assert(records_view(left@) =~= rs.take(mid as int));
                assert(records_view(right@) =~= rs.skip(mid as int));
                assert(rs.take(mid as int) + rs.skip(mid as int) =~= rs);
            }
            match encode_batches_split_into(left, out) {
                Err(e) => {
                    return Err(e);
                },
                Ok(()) => {},
            }
            let ghost half = batches_view(out@);
            match encode_batches_split_into(right, out) {
                Err(e) => {
                    return Err(e);
                },
                Ok(()) => {},
            }
            proof {
                let l = batches_of(rs.take(mid as int))->Ok_0;
                let r2 = batches_of(rs.skip(mid as int))->Ok_0;
                assert(had + l + r2 =~= had + (l + r2));
                let base = batches_records(had)->Ok_0;
                assert(base + rs.take(mid as int) + rs.skip(mid as int) =~= base + rs);
            }
            Ok(())
        },
        Err(e) => Err(e),
    }
}

/// The records of an unpacked batch. Where it cannot be read, what has been
/// read of it by then is cleared.
pub fn parse_batch(raw: &[u8]) -> (r: Result<Vec<(u64, Vec<u8>)>, Error>)
    ensures
        match r {
            Ok(v) => batch_parse(raw@) == Ok::<Seq<RecordView>, Error>(records_view(v@)),
            Err(e) => batch_parse(raw@) == Err::<Seq<RecordView>, Error>(e),
        },
{
    let mut page = WipedLogPage(Vec::new());
    match gather_records(raw, &mut page) {
        Ok(()) => Ok(page.0),
        Err(e) => {
            page.wipe();
            Err(e)
        },
    }
}

/// Reads the records of an unpacked batch onto an empty page.
fn gather_records(raw: &[u8], page: &mut WipedLogPage) -> (r: Result<(), Error>)
    requires
        old(page).0@.len() == 0,
    ensures
        match r {
            Ok(()) => batch_parse(raw@) == Ok::<Seq<RecordView>, Error>(
                records_view(final(page).0@),
            ),
            Err(e) => batch_parse(raw@) == Err::<Seq<RecordView>, Error>(e),
        },
{
    if raw.len() < 4 {
        return Err(Error::Malformed("batch raw too short"));
    }
    let num: usize = u32_at(raw, 0) as usize;
    if num > MAX_RECORDS_PER_BATCH {
        return Err(Error::Malformed("batch num_records too large"));
    }
    let mut off: usize = 4;
    let mut i: usize = 0;
    let ghost b = raw@;
    proof {
        let whole = parse_many(record_item(), b, 4, num as nat);
        assert(records_view(page.0@) =~= Seq::<RecordView>::empty());
        if let Ok((rs, end)) = whole {
            assert(Seq::<RecordView>::empty() + rs =~= rs);
        }
    }
    while i < num
        invariant
            b == raw@,
            i <= num,
            num <= MAX_RECORDS_PER_BATCH,
            num as nat == le_value(b.subrange(0, 4)),
            b.len() >= 4,
            off <= raw.len(),
            parse_many(record_item(), b, 4, num as nat) == prepend(
                records_view(page.0@),
                parse_many(record_item(), b, off as int, (num - i) as nat),
            ),
        decreases num - i,
    {
        let ghost at = off as int;
        if raw.len() - off < 8 + 4 {
            return Err(Error::Malformed("batch truncated at record header"));
        }
        let id: u64 = u64_at(raw, off);
        off = off + 8;
        let plen: usize = u32_at(raw, off) as usize;
        off = off + 4;
        if plen > MAX_LOG_PAYLOAD_LEN {
            return Err(Error::Malformed("batch invalid payload length"));
        }
        if raw.len() - off < plen {
            return Err(Error::Malformed("batch truncated at payload"));
        }
        let payload = copy_of(&raw[off..off + plen]);
        off = off + plen;
        let ghost x = (id, payload@);
        proof {
            assert(record_item()(b, at) == Ok::<(RecordView, int), Error>((x, off as int)));
            lemma_prepend_step(
                records_view(page.0@),
                x,
                parse_many(record_item(), b, off as int, (num - i - 1) as nat),
            );
        }
        let ghost had = records_view(page.0@);
        page.0.push((id, payload));
        assert(records_view(page.0@) =~= had.push(x));
        i = i + 1;
    }
    let ghost rs = records_view(page.0@);
    assert(rs + Seq::<RecordView>::empty() =~= rs);
    assert(parse_many(record_item(), b, 4, num as nat) == Ok::<(Seq<RecordView>, int), Error>(
        (rs, off as int),
    ));
    if off != raw.len() {
        return Err(Error::Malformed("batch decompressed payload trailing bytes after last record"));
    }
    Ok(())
}

/// What becomes of the decompressor's answer. The unpacked bytes are cleared.
pub fn unseal_batch(raw: Option<Vec<u8>>) -> (r: Result<Vec<(u64, Vec<u8>)>, Error>)
    ensures
        match r {
            Ok(v) => batch_unsealed(
                match raw {
                    Some(x) => Some(x@),
                    None => None,
                },
            ) == Ok::<Seq<RecordView>, Error>(records_view(v@)),
            Err(e) => batch_unsealed(
                match raw {
                    Some(x) => Some(x@),
                    None => None,
                },
            ) == Err::<Seq<RecordView>, Error>(e),
        },
{
    match raw {
        None => Err(Error::Compression("zstd decode failed")),
        Some(unpacked) => {
            let mut bytes: Vec<u8> = unpacked;
            let out = if bytes.len() > MAX_DECODED_BATCH_LEN {
                Err(Error::Malformed("batch decompressed size exceeds cap"))
            } else {
                parse_batch(bytes.as_slice())
            };
            zeroize_bytes(&mut bytes);
            out
        },
    }
}

/// The records of a compressed batch. Never unpacks more than one byte past
/// the largest legal batch.
pub fn decode_batch(compressed: &[u8]) -> (r: Result<Vec<(u64, Vec<u8>)>, Error>)
    ensures
        match r {
            Ok(v) => batch_decode(compressed@) == Ok::<Seq<RecordView>, Error>(records_view(v@)),
            Err(e) => batch_decode(compressed@) == Err::<Seq<RecordView>, Error>(e),
        },
{
    let limit: u64 = MAX_DECODED_BATCH_LEN as u64 + 1;
    unseal_batch(zstd_read(compressed, limit))
}

/// The payload of the last record with this number, if there is one.
pub open spec fn last_with_id(rs: Seq<RecordView>, id: u64) -> Option<Seq<u8>>
    decreases rs.len(),
{
    if rs.len() == 0 {
        None
    } else if rs.last().0 == id {
        Some(rs.last().1)
    } else {
        last_with_id(rs.drop_last(), id)
    }
}

/// The payload of the last record numbered `log_id`.
#[must_use]
pub fn find_in_batch(records: &[(u64, Vec<u8>)], log_id: u64) -> (r: Option<&Vec<u8>>)
    ensures
        match r {
            Some(p) => last_with_id(records_view(records@), log_id) == Some(p@),
            None => last_with_id(records_view(records@), log_id) is None,
        },
{
    let ghost rs = records_view(records@);
    let mut i: usize = records.len();
    assert(rs.take(i as int) =~= rs);
    while i > 0
        invariant
            i <= records@.len(),
            rs == records_view(records@),
            last_with_id(rs, log_id) == last_with_id(rs.take(i as int), log_id),
        decreases i,
    {
        let ghost head = rs.take(i as int);
        assert(head.last() == rs[i - 1]);
        assert(head.drop_last() =~= rs.take(i - 1));
        if records[i - 1].0 == log_id {
            return Some(&records[i - 1].1);
        }
        i = i - 1;
    }
    None
}

/// The index key of a record: its number, most significant byte first, so
/// that keys order as numbers do.
#[must_use]
pub fn log_id_key(log_id: u64) -> (r: [u8; 8])
    ensures
        r@ == be_bytes(log_id as nat, 8),
{
    u64_to_be(log_id)
}

/// The record number that an index key stands for.
pub open spec fn log_id_of_key(key: Seq<u8>) -> Result<u64, Error> {
    if key.len() != 8 {
        Err(Error::WrongNamespaceKind("log key not 8 bytes (namespace is not a log)"))
    } else {
        Ok(be_value(key) as u64)
    }
}

/// The record number that an index key stands for.
pub fn parse_log_id_key(key: &[u8]) -> (r: Result<u64, Error>)
    ensures
        r == log_id_of_key(key@),
{
    if key.len() != 8 {
        return Err(Error::WrongNamespaceKind("log key not 8 bytes (namespace is not a log)"));
    }
    Ok(be_to_u64(key))
}

/// The slot that an index value stands for.
pub open spec fn slot_of_value(value: Seq<u8>) -> Result<u64, Error> {
    if value.len() != 8 {
        Err(Error::WrongNamespaceKind("log entry value not 8 bytes (namespace is not a log)"))
    } else {
        Ok(le_value(value) as u64)
    }
}

/// The slot of the batch that an index value points at.
pub fn parse_batch_slot_value(value: &[u8]) -> (r: Result<u64, Error>)
    ensures
        r == slot_of_value(value@),
{
    if value.len() != 8 {
        return Err(
            Error::WrongNamespaceKind("log entry value not 8 bytes (namespace is not a log)"),
        );
    }
    assert(value@.subrange(0, 8) =~= value@);
    Ok(u64_at(value, 0))
}

/// The index value that points at a batch.
#[must_use]
pub fn encode_batch_slot_value(batch_slot: u64) -> (r: [u8; 8])
    ensures
        r@ == le_bytes(batch_slot as nat, 8),
{
    write_u64(batch_slot)
}

/// A key stands for the number it was made from, and no other key does.
pub proof fn law_log_id_key_round_trip(id: u64, key: Seq<u8>)
    ensures
        log_id_of_key(be_bytes(id as nat, 8)) == Ok::<u64, Error>(id),
        log_id_of_key(key) == Ok::<u64, Error>(id) ==> key == be_bytes(id as nat, 8),
{
    lemma_be_round_trip(id);
    if key.len() == 8 {
        lemma_be_bytes_of_value(key);
    }
}

/// A value stands for the slot it was made from, and no other value does.
pub proof fn law_batch_slot_value_round_trip(slot: u64, value: Seq<u8>)
    ensures
        slot_of_value(le_bytes(slot as nat, 8)) == Ok::<u64, Error>(slot),
        slot_of_value(value) == Ok::<u64, Error>(slot) ==> value == le_bytes(slot as nat, 8),
{
    lemma_pow256_widths();
    lemma_le_value_of_bytes(slot as nat, 8);
    if value.len() == 8 {
        lemma_le_bytes_of_value(value);
    }
}

/// Keys of equal length order as the numbers they write.
proof fn lemma_be_order(a: Seq<u8>, b: Seq<u8>)
    requires
        a.len() == b.len(),
    ensures
        lex_lt(a, b) <==> be_value(a) < be_value(b),
    decreases a.len(),
{
    if a.len() > 0 {
        let at = a.drop_first();
        let bt = b.drop_first();
        lemma_be_order(at, bt);
        lemma_be_front(a);
        lemma_be_front(b);
        lemma_le_bytes_of_value(at.reverse());
        lemma_le_bytes_of_value(bt.reverse());
        let p = pow256(at.len());
        let x = be_value(at);
        let y = be_value(bt);
        let i = a[0] as int;
        let j = b[0] as int;
        if i < j {
            assert(i * p + x < j * p + y) by (nonlinear_arith)
                requires
                    i < j,
                    0 <= x < p,
                    0 <= y,
            ;
        } else if j < i {
            assert(j * p + y < i * p + x) by (nonlinear_arith)
                requires
                    j < i,
                    0 <= y < p,
                    0 <= x,
            ;
        }
    }
}

/// The first byte is the most significant.
proof fn lemma_be_front(s: Seq<u8>)
    requires
        s.len() > 0,
    ensures
        be_value(s) == s[0] as nat * pow256((s.len() - 1) as nat) + be_value(s.drop_first()),
{
    let t = s.drop_first();
    assert(s.reverse() =~= t.reverse().push(s[0]));
    lemma_le_value_push(t.reverse(), s[0]);
}

/// A byte added at the end is the most significant.
proof fn lemma_le_value_push(s: Seq<u8>, x: u8)
    ensures
        le_value(s.push(x)) == le_value(s) + x as nat * pow256(s.len()),
    decreases s.len(),
{
    let n = s.len();
    if n == 0 {
        assert(s.push(x).drop_first() =~= Seq::<u8>::empty());
        assert(le_value(Seq::<u8>::empty()) == 0);
        assert(s =~= Seq::<u8>::empty());
        let q = pow256(n);
        assert(x as nat * q == x as nat) by (nonlinear_arith)
            requires
                q == 1,
        ;
        assert(le_value(s.push(x)) == x as nat + 256 * le_value(s.push(x).drop_first()));
    } else {
        assert(s.push(x)[0] == s[0]);
        assert(s.push(x).drop_first() =~= s.drop_first().push(x));
        lemma_le_value_push(s.drop_first(), x);
        let p = pow256((n - 1) as nat);
        let q = pow256(n);
        let v = le_value(s.drop_first());
        assert(256 * (v + x as nat * p) == 256 * v + x as nat * q) by (nonlinear_arith)
            requires
                q == 256 * p,
        ;
    }
}

/// Keys order as the numbers they are made from.
pub proof fn law_log_id_keys_order_as_numbers(a: u64, b: u64)
    ensures
        lex_lt(be_bytes(a as nat, 8), be_bytes(b as nat, 8)) <==> a < b,
{
    lemma_be_round_trip(a);
    lemma_be_round_trip(b);
    lemma_be_order(be_bytes(a as nat, 8), be_bytes(b as nat, 8));
}

/// What keeping a decoded batch costs.
pub open spec fn footprint(rs: Seq<RecordView>) -> nat
    decreases rs.len(),
{
    if rs.len() == 0 {
        0
    } else {
        footprint(rs.drop_last()) + RECORD_OVERHEAD as nat + rs.last().1.len()
    }
}

/// Keeping some of the records costs no more than keeping all.
proof fn lemma_footprint_take(rs: Seq<RecordView>, n: int)
    requires
        0 <= n <= rs.len(),
    ensures
        footprint(rs.take(n)) <= footprint(rs),
    decreases rs.len(),
{
    if n < rs.len() {
        lemma_footprint_take(rs.drop_last(), n);
        assert(rs.drop_last().take(n) =~= rs.take(n));
    } else {
        assert(rs.take(n) =~= rs);
    }
}

/// What keeping a decoded batch costs.
pub fn batch_footprint(records: &[(u64, Vec<u8>)]) -> (r: usize)
    requires
        footprint(records_view(records@)) <= usize::MAX,
    ensures
        r == footprint(records_view(records@)),
{
    match checked_footprint(records) {
        Some(n) => n,
        None => 0,
    }
}

/// What keeping a decoded batch costs, if that can be counted.
pub fn checked_footprint(records: &[(u64, Vec<u8>)]) -> (r: Option<usize>)
    ensures
        match r {
            Some(n) => n == footprint(records_view(records@)),
            None => footprint(records_view(records@)) > usize::MAX,
        },
{
    let ghost rs = records_view(records@);
    let mut n: usize = 0;
    let mut i: usize = 0;
    assert(rs.take(0) =~= Seq::<RecordView>::empty());
    while i < records.len()
        invariant
            i <= records@.len(),
            rs == records_view(records@),
            n == footprint(rs.take(i as int)),
        decreases records@.len() - i,
    {
        proof {
            let next = rs.take(i + 1);
            assert(next.drop_last() =~= rs.take(i as int));
            assert(next.last() == rs[i as int]);
            lemma_footprint_take(rs, i + 1);
        }
        let len: usize = records[i].1.len();
        if len > usize::MAX - RECORD_OVERHEAD || n > usize::MAX - RECORD_OVERHEAD - len {
            return None;
        }
        n = n + RECORD_OVERHEAD + len;
        i = i + 1;
    }
    assert(rs.take(i as int) =~= rs);
    Some(n)
}

/// What a parse of records gives is within the payload limit.
proof fn lemma_parsed_payloads_fit(b: Seq<u8>, off: int, n: nat)
    requires
        0 <= off <= b.len(),
    ensures
        match parse_many(record_item(), b, off, n) {
            Ok((rs, _)) => rs.len() == n && payloads_fit(rs),
            Err(_) => true,
        },
    decreases n,
{
    lemma_record_reads_only(b);
    if n > 0 {
        if let Ok((x, mid)) = record_item()(b, off) {
            lemma_parsed_payloads_fit(b, mid, (n - 1) as nat);
        }
    }
}

/// Records within the limits cost little to keep.
proof fn lemma_footprint_bound(rs: Seq<RecordView>)
    requires
        payloads_fit(rs),
    ensures
        footprint(rs) <= rs.len() * (RECORD_OVERHEAD + MAX_LOG_PAYLOAD_LEN),
    decreases rs.len(),
{
    if rs.len() > 0 {
        let init = rs.drop_last();
        assert forall|i: int| 0 <= i < init.len() implies (#[trigger] init[i]).1.len()
            <= MAX_LOG_PAYLOAD_LEN by {
            assert(init[i] == rs[i]);
        }
        lemma_footprint_bound(init);
        assert(rs[rs.len() - 1].1.len() <= MAX_LOG_PAYLOAD_LEN);
        let n = init.len();
        assert((n + 1) * 8224 == n * 8224 + 8224) by (nonlinear_arith);
    }
}

/// A decoded batch has at most so many records, of at most so many bytes, and
/// can be kept.
pub proof fn lemma_batch_decode_valid(c: Seq<u8>)
    requires
        batch_decode(c) is Ok,
    ensures
        batch_decode(c)->Ok_0.len() <= MAX_RECORDS_PER_BATCH,
        payloads_fit(batch_decode(c)->Ok_0),
        footprint(batch_decode(c)->Ok_0) <= usize::MAX,
{
    let raw = zstd_unframe(c, (MAX_DECODED_BATCH_LEN + 1) as nat)->0;
    let num = le_value(raw.subrange(0, 4));
    lemma_parsed_payloads_fit(raw, 4, num);
    let rs = batch_decode(c)->Ok_0;
    lemma_footprint_bound(rs);
    let n = rs.len();
    assert(n * 8224 <= 1024 * 8224) by (nonlinear_arith)
        requires
            n <= 1024,
    ;
}

/// The records of the first batches come first.
pub proof fn lemma_batches_prefix(bs: Seq<BatchView>, i: int)
    requires
        batches_records(bs) is Ok,
        0 <= i <= bs.len(),
    ensures
        batches_records(bs.take(i)) is Ok,
        batches_records(bs.take(i))->Ok_0.len() <= batches_records(bs)->Ok_0.len(),
        batches_records(bs)->Ok_0.take(batches_records(bs.take(i))->Ok_0.len() as int)
            == batches_records(bs.take(i))->Ok_0,
        i < bs.len() ==> batch_decode(bs[i].1) is Ok && batches_records(bs.take(i + 1))
            == Ok::<Seq<RecordView>, Error>(
            batches_records(bs.take(i))->Ok_0 + batch_decode(bs[i].1)->Ok_0,
        ),
    decreases bs.len(),
{
    let all = batches_records(bs)->Ok_0;
    if i == bs.len() {
        assert(bs.take(i) =~= bs);
        assert(all.take(all.len() as int) =~= all);
    } else {
        let init = bs.drop_last();
        assert(init.take(i) =~= bs.take(i));
        lemma_batches_prefix(init, i);
        let head = batches_records(init)->Ok_0;
        let n = batches_records(bs.take(i))->Ok_0.len() as int;
        assert(all.take(n) =~= head.take(n));
        if i < init.len() {
            assert(init.take(i + 1) =~= bs.take(i + 1));
        } else {
            assert(bs.take(i + 1) =~= bs);
            assert(bs.take(i) =~= init);
        }
    }
}

/// Records that cannot be cut into batches say nothing of a publish.
pub proof fn lemma_batches_plain(rs: Seq<RecordView>)
    ensures
        batches_of(rs) matches Err(e) ==> !(e is PublishUncertain),
    decreases rs.len(),
{
    if rs.len() > 1 {
        let mid = (rs.len() / 2) as int;
        lemma_batches_plain(rs.take(mid));
        lemma_batches_plain(rs.skip(mid));
    }
}

} // verus!
