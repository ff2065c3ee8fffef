//! Cutting records into batches: it fails only for a record that does not fit by
//! itself, and loses, repeats and reorders nothing.

use vstd::prelude::*;

use crate::bytes::le_bytes;
use crate::codec::cat;
use crate::error::Error;
use crate::space::commit::{latest_of, logs_encodable};
use crate::space::log::{
    batch_decode, batch_encode, batch_parse, batch_raw, batch_sealed, batch_unsealed,
    batches_listed, batches_of, batches_records, batches_view, last_with_id, lemma_batch_raw_len,
    record_enc, record_ids, zstd_frame, zstd_unframe, BatchView, RecordView, ZSTD_LEVEL,
};
use crate::tx::pending::PendingLogView;

verus! {

/// The record fits in a batch by itself.
pub open spec fn fits_alone(r: RecordView) -> bool {
    batch_encode(seq![r]) is Ok
}

/// A batch for each of these pieces, with the numbers of its records.
pub open spec fn batches_for(pieces: Seq<Seq<RecordView>>, bs: Seq<BatchView>) -> bool {
    &&& bs.len() == pieces.len()
    &&& forall|k: int|
        0 <= k < bs.len() ==> {
            &&& batch_encode(#[trigger] pieces[k]) == Ok::<Seq<u8>, Error>(bs[k].1)
            &&& bs[k].0.len() == pieces[k].len()
            &&& forall|i: int| 0 <= i < pieces[k].len() ==> bs[k].0[i] == pieces[k][i].0
            &&& pieces[k].len() > 0
        }
}

/// Pieces put end to end.
pub open spec fn put_together(pieces: Seq<Seq<RecordView>>) -> Seq<RecordView>
    decreases pieces.len(),
{
    if pieces.len() == 0 {
        Seq::<RecordView>::empty()
    } else {
        put_together(pieces.drop_last()) + pieces.last()
    }
}

proof fn lemma_put_together(a: Seq<Seq<RecordView>>, b: Seq<Seq<RecordView>>)
    ensures
        put_together(a + b) == put_together(a) + put_together(b),
    decreases b.len(),
{
    if b.len() == 0 {
        assert(a + b =~= a);
        assert(put_together(a) + put_together(b) =~= put_together(a));
    } else {
        assert((a + b).drop_last() =~= a + b.drop_last());
        lemma_put_together(a, b.drop_last());
        assert(put_together(a + b) =~= put_together(a) + put_together(b));
    }
}

/// Records are cut into batches one after the other: put end to end, the pieces
/// are the records, each in one batch and in their order, and each batch carries
/// the numbers of its own.
pub proof fn law_split_loses_nothing(rs: Seq<RecordView>) -> (pieces: Seq<Seq<RecordView>>)
    requires
        rs.len() > 0,
        batches_of(rs) is Ok,
    ensures
        batches_for(pieces, batches_of(rs)->Ok_0),
        put_together(pieces) == rs,
    decreases rs.len(),
{
    let none = Seq::<Seq<RecordView>>::empty();
    match batch_encode(rs) {
        Ok(_) => {
            let pieces = seq![rs];
            assert(pieces.drop_last() =~= none);
            reveal_with_fuel(put_together, 2);
            assert(put_together(pieces) =~= rs);
            pieces
        },
        Err(_) => {
            let mid = (rs.len() / 2) as int;
            let l = law_split_loses_nothing(rs.take(mid));
            let r = law_split_loses_nothing(rs.skip(mid));
            lemma_put_together(l, r);
            assert(rs.take(mid) + rs.skip(mid) =~= rs);
            let bl = batches_of(rs.take(mid))->Ok_0;
            let br = batches_of(rs.skip(mid))->Ok_0;
            let bs = bl + br;
            let pieces = l + r;
            assert forall|k: int| 0 <= k < bs.len() implies {
                &&& batch_encode(#[trigger] pieces[k]) == Ok::<Seq<u8>, Error>(bs[k].1)
                &&& bs[k].0.len() == pieces[k].len()
                &&& forall|i: int| 0 <= i < pieces[k].len() ==> bs[k].0[i] == pieces[k][i].0
                &&& pieces[k].len() > 0
            } by {
                if k < bl.len() {
                    assert(pieces[k] == l[k] && bs[k] == bl[k]);
                } else {
                    let j = k - bl.len();
                    assert(pieces[k] == r[j] && bs[k] == br[j]);
                }
            }
            pieces
        },
    }
}

/// Records that fit together are not cut.
pub proof fn law_what_fits_is_one_batch(rs: Seq<RecordView>)
    requires
        batch_encode(rs) is Ok,
    ensures
        batches_of(rs) matches Ok(bs) && bs.len() == 1 && bs[0].1 == batch_encode(rs)->Ok_0,
{
}

/// Records that do not fit together are cut in the middle, and each half by
/// itself.
pub proof fn law_what_does_not_fit_is_halved(a: Seq<RecordView>, b: Seq<RecordView>)
    requires
        a.len() > 0,
        b.len() == a.len() || b.len() == a.len() + 1,
        batch_encode(a + b) == Err::<Seq<u8>, Error>(Error::PayloadTooLarge),
        batches_of(a) is Ok,
        batches_of(b) is Ok,
    ensures
        batches_of(a + b) == Ok::<Seq<BatchView>, Error>(
            batches_of(a)->Ok_0 + batches_of(b)->Ok_0,
        ),
{
    let rs = a + b;
    let mid = (rs.len() / 2) as int;
    assert(mid == a.len());
    assert(rs.take(mid) =~= a);
    assert(rs.skip(mid) =~= b);
}

/// Cutting is refused for size only where a record does not fit by itself.
pub proof fn law_split_fails_for_a_record(rs: Seq<RecordView>) -> (i: int)
    requires
        rs.len() > 0,
        batches_of(rs) == Err::<Seq<BatchView>, Error>(Error::PayloadTooLarge),
    ensures
        0 <= i < rs.len(),
        batch_encode(seq![rs[i]]) == Err::<Seq<u8>, Error>(Error::PayloadTooLarge),
    decreases rs.len(),
{
    if rs.len() == 1 {
        assert(seq![rs[0]] =~= rs);
        0
    } else {
        let mid = (rs.len() / 2) as int;
        if batches_of(rs.take(mid)) is Err {
            law_split_fails_for_a_record(rs.take(mid))
        } else {
            let j = law_split_fails_for_a_record(rs.skip(mid));
            assert(rs.skip(mid)[j] == rs[mid + j]);
            mid + j
        }
    }
}

/// The compressor answers for every run of these records that it is given.
pub open spec fn compressor_answers(rs: Seq<RecordView>) -> bool {
    forall|i: int, j: int|
        0 <= i < j <= rs.len() ==> zstd_frame(
            batch_raw(#[trigger] rs.subrange(i, j)),
            ZSTD_LEVEL as int,
        ) is Some
}

/// So many records, each of which fits by itself, are always cut into batches: a
/// commit is not turned away for the size of all of them.
pub proof fn law_records_that_fit_are_split(rs: Seq<RecordView>)
    requires
        0 < rs.len() <= 1024,
        forall|i: int| 0 <= i < rs.len() ==> fits_alone(#[trigger] rs[i]),
    ensures
        batches_of(rs) != Err::<Seq<BatchView>, Error>(Error::PayloadTooLarge),
        compressor_answers(rs) ==> batches_of(rs) is Ok,
    decreases rs.len(),
{
    if batches_of(rs) == Err::<Seq<BatchView>, Error>(Error::PayloadTooLarge) {
        let i = law_split_fails_for_a_record(rs);
        assert(fits_alone(rs[i]));
    }
    if compressor_answers(rs) && batches_of(rs) is Err {
        assert(rs.subrange(0, rs.len() as int) =~= rs);
        let mid = (rs.len() / 2) as int;
        if rs.len() > 1 {
            let l = rs.take(mid);
            let r = rs.skip(mid);
            assert forall|i: int| 0 <= i < l.len() implies fits_alone(#[trigger] l[i]) by {
                assert(l[i] == rs[i]);
            }
            assert forall|i: int| 0 <= i < r.len() implies fits_alone(#[trigger] r[i]) by {
                assert(r[i] == rs[mid + i]);
            }
            assert forall|i: int, j: int| 0 <= i < j <= l.len() implies zstd_frame(
                batch_raw(#[trigger] l.subrange(i, j)),
                ZSTD_LEVEL as int,
            ) is Some by {
                assert(l.subrange(i, j) =~= rs.subrange(i, j));
            }
            assert forall|i: int, j: int| 0 <= i < j <= r.len() implies zstd_frame(
                batch_raw(#[trigger] r.subrange(i, j)),
                ZSTD_LEVEL as int,
            ) is Some by {
                assert(r.subrange(i, j) =~= rs.subrange(mid + i, mid + j));
            }
            law_records_that_fit_are_split(l);
            law_records_that_fit_are_split(r);
        } else {
            assert(seq![rs[0]] =~= rs);
            assert(fits_alone(rs[0]));
        }
    }
}

/// A batch is encoded where it holds at most 1024 records, each of at most 8 KiB,
/// takes at most 1 MiB before compression, and what the compressor makes of it
/// fits in a chunk; else it is refused, for its size but for the first of these.
pub proof fn law_batch_limits(rs: Seq<RecordView>)
    requires
        zstd_frame(batch_raw(rs), 3) is Some,
    ensures
        ({
            let small = rs.len() <= 1024;
            let fits = batch_raw(rs).len() <= 1024 * 1024 && zstd_frame(
                batch_raw(rs),
                3,
            )->0.len() <= 4040 && forall|i: int|
                0 <= i < rs.len() ==> (#[trigger] rs[i]).1.len() <= 8192;
            &&& small && fits ==> batch_encode(rs) == Ok::<Seq<u8>, Error>(
                zstd_frame(batch_raw(rs), 3)->0,
            )
            &&& small && !fits ==> batch_encode(rs) == Err::<Seq<u8>, Error>(
                Error::PayloadTooLarge,
            )
            &&& !small ==> batch_encode(rs) is Err && !(batch_encode(rs)->Err_0 is PayloadTooLarge)
        }),
{
    lemma_batch_raw_len(rs);
}

/// The layout of a batch before compression: how many records there are, in four
/// bytes; then of each its number in eight, its length in four, and itself; all
/// numbers with the lowest byte first.
pub proof fn law_batch_layout(rs: Seq<RecordView>, r: RecordView)
    ensures
        batch_raw(Seq::<RecordView>::empty()) == le_bytes(0, 4),
        batch_raw(rs.push(r)) == le_bytes(rs.len() + 1, 4) + batch_raw(rs).skip(4) + le_bytes(
            r.0 as nat,
            8,
        ) + le_bytes(r.1.len(), 4) + r.1,
{
    let all = rs.push(r);
    assert(all.drop_last() =~= rs);
    crate::bytes::lemma_le_bytes_len(rs.len(), 4);
    crate::codec::lemma_cat_push(record_enc(), rs, r);
    assert(batch_raw(rs).skip(4) =~= cat(record_enc(), rs));
    assert(batch_raw(all) =~= le_bytes(rs.len() + 1, 4) + batch_raw(rs).skip(4) + le_bytes(
        r.0 as nat,
        8,
    ) + le_bytes(r.1.len(), 4) + r.1);
    assert(batch_raw(Seq::<RecordView>::empty()) =~= le_bytes(0, 4));
}

/// Of records with one number the last counts; where none has the number, there
/// is none.
pub proof fn law_last_record_counts(rs: Seq<RecordView>, id: u64, i: int)
    requires
        0 <= i < rs.len(),
        rs[i].0 == id,
        forall|j: int| i < j < rs.len() ==> (#[trigger] rs[j]).0 != id,
    ensures
        last_with_id(rs, id) == Some(rs[i].1),
    decreases rs.len(),
{
    if i < rs.len() - 1 {
        let init = rs.drop_last();
        assert(rs[rs.len() - 1].0 != id);
        assert forall|j: int| i < j < init.len() implies (#[trigger] init[j]).0 != id by {
            assert(init[j] == rs[j]);
        }
        law_last_record_counts(init, id, i);
    }
}

/// A number that no record has is not found.
pub proof fn law_no_record_no_answer(rs: Seq<RecordView>, id: u64)
    requires
        forall|j: int| 0 <= j < rs.len() ==> (#[trigger] rs[j]).0 != id,
    ensures
        last_with_id(rs, id) is None,
    decreases rs.len(),
{
    if rs.len() > 0 {
        let init = rs.drop_last();
        assert(rs[rs.len() - 1].0 != id);
        assert forall|j: int| 0 <= j < init.len() implies (#[trigger] init[j]).0 != id by {
            assert(init[j] == rs[j]);
        }
        law_no_record_no_answer(init, id);
    }
}

/// What is found under a number is a record with that number.
proof fn lemma_found_is_there(rs: Seq<RecordView>, id: u64, p: Seq<u8>)
    requires
        last_with_id(rs, id) == Some(p),
    ensures
        rs.contains((id, p)),
    decreases rs.len(),
{
    if rs.last().0 == id {
        assert(rs[rs.len() - 1] == (id, p));
    } else {
        let init = rs.drop_last();
        lemma_found_is_there(init, id, p);
        let j = choose|j: int| 0 <= j < init.len() && init[j] == (id, p);
        assert(rs[j] == (id, p));
    }
}

/// Records that each fit by themselves can be committed, however many of them
/// there are up to the limit, where the compressor answers: what the commit asks
/// of buffered records holds of them.
pub proof fn law_records_that_fit_can_be_committed(logs: Seq<PendingLogView>)
    requires
        forall|i: int, j: int|
            0 <= i < logs.len() && 0 <= j < logs[i].records.len() ==> fits_alone(
                #[trigger] logs[i].records[j],
            ),
        forall|i: int, rs: Seq<RecordView>|
            0 <= i < logs.len() && #[trigger] latest_of(logs[i].records, rs) ==> rs.len() <= 1024
                && compressor_answers(rs),
    ensures
        logs_encodable(logs),
{
    assert forall|i: int, rs: Seq<RecordView>|
        0 <= i < logs.len() && rs.len() > 0 && #[trigger] latest_of(
            logs[i].records,
            rs,
        ) implies rs.len() <= 1024 && batches_of(rs) is Ok by {
        let buffered = logs[i].records;
        assert forall|k: int| 0 <= k < rs.len() implies fits_alone(#[trigger] rs[k]) by {
            let id = rs[k].0;
            assert forall|j: int| k < j < rs.len() implies (#[trigger] rs[j]).0 != id by {
                assert(rs[k].0 < rs[j].0);
            }
            law_last_record_counts(rs, id, k);
            lemma_found_is_there(buffered, id, rs[k].1);
            let j = choose|j: int| 0 <= j < buffered.len() && buffered[j] == (id, rs[k].1);
            assert(fits_alone(logs[i].records[j]));
            assert(rs[k] == buffered[j]);
        }
        law_records_that_fit_are_split(rs);
    }
}

/// A compressed batch is kept where there is one and it fits into a chunk; and a
/// batch is read where it can be decompressed to no more than the limit, and what
/// comes out is records.
pub proof fn law_what_becomes_of_a_batch(
    frame: Seq<u8>,
    raw: Seq<u8>,
    rs: Seq<RecordView>,
    limit: nat,
)
    requires
        limit == 8_400_900,
    ensures
        batch_sealed(None) is Err,
        frame.len() <= 4040 ==> batch_sealed(Some(frame)) == Ok::<Seq<u8>, Error>(frame),
        frame.len() > 4040 ==> batch_sealed(Some(frame)) == Err::<Seq<u8>, Error>(
            Error::PayloadTooLarge,
        ),
        batch_unsealed(None) is Err,
        batch_unsealed(Some(raw)) == Ok::<Seq<RecordView>, Error>(rs) <==> raw.len() <= limit
            && batch_parse(raw) == Ok::<Seq<RecordView>, Error>(rs),
        batch_decode(frame) == Ok::<Seq<RecordView>, Error>(rs) <==> (zstd_unframe(
            frame,
            limit + 1,
        ) matches Some(r) && r.len() <= limit && batch_parse(r) == Ok::<Seq<RecordView>, Error>(
            rs,
        )),
{
}

/// Batches decode to their records one after the other, and each is listed with the
/// numbers of its own.
pub proof fn law_batches_give_their_records(
    bs: Seq<BatchView>,
    b: BatchView,
    v: Seq<(Vec<u64>, Vec<u8>)>,
    i: int,
    j: int,
)
    ensures
        batches_records(Seq::<BatchView>::empty()) == Ok::<Seq<RecordView>, Error>(Seq::empty()),
        batches_records(bs) is Ok && batch_decode(b.1) is Ok ==> batches_records(bs.push(b))
            == Ok::<Seq<RecordView>, Error>(batches_records(bs)->Ok_0 + batch_decode(b.1)->Ok_0),
        batches_records(bs) is Err || batch_decode(b.1) is Err ==> batches_records(bs.push(b))
            is Err,
        batches_view(v).len() == v.len(),
        0 <= i < v.len() ==> batches_view(v)[i] == (v[i].0@, v[i].1@),
        batches_listed(bs) && 0 <= i < bs.len() ==> bs[i].1.len() <= 4040 && (batch_decode(
            bs[i].1,
        ) matches Ok(x) && x.len() == bs[i].0.len() && (0 <= j < x.len() ==> bs[i].0[j] == x[j].0)),
{
    assert(bs.push(b).drop_last() =~= bs);
    if batches_listed(bs) && 0 <= i < bs.len() {
        let x = batch_decode(bs[i].1)->Ok_0;
        assert(record_ids(x) == bs[i].0);
        assert(record_ids(x).len() == x.len());
        if 0 <= j < x.len() {
            assert(record_ids(x)[j] == x[j].0);
        }
    }
}

/// The latest of buffered records are by rising number, each number once, and under
/// each number what was buffered last.
pub proof fn law_latest_records(
    buffered: Seq<RecordView>,
    rs: Seq<RecordView>,
    id: u64,
    i: int,
    j: int,
)
    requires
        latest_of(buffered, rs),
    ensures
        0 <= i < j < rs.len() ==> rs[i].0 < rs[j].0,
        last_with_id(rs, id) == last_with_id(buffered, id),
        0 <= i < rs.len() ==> last_with_id(buffered, rs[i].0) == Some(rs[i].1),
{
    if 0 <= i < rs.len() {
        assert forall|k: int| i < k < rs.len() implies (#[trigger] rs[k]).0 != rs[i].0 by {
            assert(rs[i].0 < rs[k].0);
        }
        law_last_record_counts(rs, rs[i].0, i);
        assert(last_with_id(rs, rs[i].0) == last_with_id(buffered, rs[i].0));
    }
}

} // verus!
