//! What a commit, an erasure or a clean-up makes of a namespace as a whole.

use vstd::prelude::*;

use crate::bytes::{be_bytes, lemma_lex_total, lex_lt};
use crate::container::{extends, live, Image};
use crate::error::Error;
use crate::space::commit::{kept_by_commit, key_of_record, published};
use crate::space::index::{
    keys_sorted, lemma_lookup, lemma_lookup_at, lookup, EntryView, Namespace,
};
use crate::space::laws::{holds, law_erase_empties, law_held_is_read, listed};
use crate::space::lifecycle::{erasure, no_logs};
use crate::space::log::{
    last_with_id, law_log_id_key_round_trip, log_id_of_key, slot_of_value, RecordView,
};
use crate::space::log_iter::{log_page, record_at, record_of, records_of};
use crate::space::model::{
    law_merged_lookup, lemma_level_first, lemma_merged_sorted, lemma_ns_holds_sorted, merged,
    ns_holds, ops_sorted, root_ptr, tree, tree_entries, OpView,
};
use crate::space::ns_laws::{
    law_sound_committed_list, law_sound_committed_log, law_sound_committed_log_deletes,
    law_sound_untouched,
};
use crate::space::order_laws::{
    complete, intact, is_log, law_batch_vacuum_keeps_intact, law_commit_keeps_intact,
    law_commit_keeps_order, law_orderly_is_read, law_vacuum_keeps_intact, law_vacuum_keeps_order,
    logs_only_shrink, orderly,
};
use crate::space::reads::{everything, keys_of};
use crate::space::superblock::NO_RECORD;
use crate::space::tree::op_on;
use crate::space::vacuum::{
    batch_aim, free_set, half_vacuumed, orphan_aim, scrub_set, sweep_writes, tread_all,
    vacuum_refusal, vacuumed,
};
use crate::space::vacuum_laws::{
    law_batch_vacuum_keeps_contents, law_vacuum_keeps_contents, law_vacuum_twice,
};
use crate::space::verify_laws::{all_lead, law_sound_treads, leads, root_reached};
use crate::space::{root_of, Space};
use crate::tx::pending::{
    last_op, pending_log_of, pending_of, PendingLogView, PendingView,
};

verus! {

// ---------------------------------------------------------------------------
// Entries
// ---------------------------------------------------------------------------

/// Entries by rising key are the same where the same is under every key.
pub proof fn lemma_same_lookups(a: Seq<EntryView>, b: Seq<EntryView>)
    requires
        keys_sorted(a),
        keys_sorted(b),
        forall|k: Seq<u8>| #[trigger] lookup(a, k) == lookup(b, k),
    ensures
        a == b,
    decreases a.len() + b.len(),
{
    if a.len() == 0 {
        if b.len() > 0 {
            lemma_lookup_at(b, 0);
            assert(lookup(a, b[0].0) is None);
        }
        assert(a =~= b);
    } else if b.len() == 0 {
        lemma_lookup_at(a, 0);
        assert(lookup(b, a[0].0) is None);
    } else {
        let x = a.last();
        let y = b.last();
        lemma_last_is_greatest(a, b);
        lemma_last_is_greatest(b, a);
        lemma_lex_total(x.0, y.0);
        assert(x.0 == y.0);
        assert(lookup(a, x.0) == Some(x.1));
        assert(lookup(b, y.0) == Some(y.1));
        let ai = a.drop_last();
        let bi = b.drop_last();
        assert forall|k: Seq<u8>| #[trigger] lookup(ai, k) == lookup(bi, k) by {
            if k == x.0 {
                lemma_not_before(a);
                lemma_not_before(b);
            } else {
                assert(lookup(a, k) == lookup(ai, k));
                assert(lookup(b, k) == lookup(bi, k));
            }
        }
        lemma_same_lookups(ai, bi);
        assert(a =~= ai.push(x));
        assert(b =~= bi.push(y));
    }
}

/// The last key of `a`, which is in `b` too, is not after the last of `b`.
proof fn lemma_last_is_greatest(a: Seq<EntryView>, b: Seq<EntryView>)
    requires
        a.len() > 0,
        b.len() > 0,
        keys_sorted(a),
        keys_sorted(b),
        forall|k: Seq<u8>| #[trigger] lookup(a, k) == lookup(b, k),
    ensures
        a.last().0 == b.last().0 || lex_lt(a.last().0, b.last().0),
{
    let k = a.last().0;
    assert(lookup(a, k) == Some(a.last().1));
    assert(lookup(b, k) is Some);
    lemma_lookup(b, k);
    let i = choose|i: int| 0 <= i < b.len() && #[trigger] b[i] == (k, a.last().1);
    if i < b.len() - 1 {
        assert(lex_lt(b[i].0, b[b.len() - 1].0));
    }
}

/// The last key stands nowhere before.
proof fn lemma_not_before(a: Seq<EntryView>)
    requires
        a.len() > 0,
        keys_sorted(a),
    ensures
        lookup(a.drop_last(), a.last().0) is None,
{
    let init = a.drop_last();
    lemma_lookup(init, a.last().0);
    if let Some(v) = lookup(init, a.last().0) {
        let i = choose|i: int| 0 <= i < init.len() && #[trigger] init[i] == (a.last().0, v);
        assert(lex_lt(a[i].0, a[a.len() - 1].0));
        lemma_lex_total(a[i].0, a[a.len() - 1].0);
    }
}

/// Entries after operations have been carried out one after the other.
pub open spec fn after(es: Seq<EntryView>, ops: Seq<OpView>) -> Seq<EntryView>
    decreases ops.len(),
{
    if ops.len() == 0 {
        es
    } else {
        merged(after(es, ops.drop_last()), seq![ops.last()])
    }
}

/// What is then under a key is what the last operation on it made of it.
pub proof fn lemma_after(es: Seq<EntryView>, ops: Seq<OpView>, key: Seq<u8>)
    requires
        keys_sorted(es),
    ensures
        keys_sorted(after(es, ops)),
        lookup(after(es, ops), key) == match last_op(ops, key) {
            Some(v) => v,
            None => lookup(es, key),
        },
    decreases ops.len(),
{
    if ops.len() > 0 {
        let one = seq![ops.last()];
        lemma_after(es, ops.drop_last(), key);
        assert(ops_sorted(one));
        lemma_merged_sorted(after(es, ops.drop_last()), one);
        law_merged_lookup(after(es, ops.drop_last()), one, key);
        assert(one.drop_last() =~= Seq::<OpView>::empty());
        assert(one.drop_first() =~= Seq::<OpView>::empty());
        reveal_with_fuel(op_on, 2);
        assert(op_on(one, key) == if one[0].0 == key {
            Some(one[0].1)
        } else {
            None
        });
    }
}

/// What a commit makes of a namespace: `list` gives what it gave before with
/// the operations carried out, one after the other.
pub proof fn law_committed_list(
    a: Space,
    b: Space,
    kv: Seq<PendingView>,
    logs: Seq<PendingLogView>,
    seq: u64,
    m: u8,
)
    requires
        a.wf(),
        b.wf(),
        published(a, b, kv, logs, seq),
        orderly(a),
        pending_of(kv, m) is Some,
        pending_of(kv, m)->0.ops.len() > 0,
    ensures
        listed(a, Namespace(m)) is Ok,
        listed(b, Namespace(m)) == Ok::<Seq<EntryView>, Error>(
            after(listed(a, Namespace(m))->Ok_0, pending_of(kv, m)->0.ops),
        ),
{
    let ns = Namespace(m);
    let none = Seq::<u8>::empty();
    law_orderly_is_read(a, ns, none);
    law_commit_keeps_order(a, b, kv, logs, seq);
    law_orderly_is_read(b, ns, none);
    law_sound_committed_list(a, b, kv, logs, seq, m, listed(a, ns)->Ok_0);
}

/// A namespace that a commit does not touch is listed as it was.
pub proof fn law_untouched_list(
    a: Space,
    b: Space,
    kv: Seq<PendingView>,
    logs: Seq<PendingLogView>,
    seq: u64,
    m: u8,
)
    requires
        a.wf(),
        b.wf(),
        published(a, b, kv, logs, seq),
        kept_by_commit(a, b),
        orderly(a),
        pending_of(kv, m) is Some ==> pending_of(kv, m)->0.ops.len() == 0,
        pending_log_of(logs, m) is Some ==> pending_log_of(logs, m)->0.records.len() == 0,
    ensures
        listed(b, Namespace(m)) == listed(a, Namespace(m)),
{
    let ns = Namespace(m);
    let none = Seq::<u8>::empty();
    law_orderly_is_read(a, ns, none);
    law_sound_untouched(a, b, kv, logs, seq, m, listed(a, ns)->Ok_0, none);
}

// ---------------------------------------------------------------------------
// Records
// ---------------------------------------------------------------------------

/// What `iter_log` gives.
pub open spec fn logged(s: Space, ns: Namespace) -> Result<Seq<RecordView>, Error> {
    log_page(s.file@, s.state.superblock@, s.walk_now(), ns, everything(), false)
}

/// Records by the keys that stand for their numbers.
pub open spec fn by_key(rs: Seq<RecordView>) -> Seq<EntryView> {
    Seq::new(rs.len(), |i: int| (be_bytes(rs[i].0 as nat, 8), rs[i].1))
}

/// Appends, as operations on the keys of the records.
pub open spec fn appends(rs: Seq<RecordView>) -> Seq<OpView> {
    Seq::new(rs.len(), |i: int| (be_bytes(rs[i].0 as nat, 8), Some(rs[i].1)))
}

/// What is read through index entries under a key.
pub open spec fn read_under(img: Image, es: Seq<EntryView>, key: Seq<u8>) -> Option<Seq<u8>> {
    match lookup(es, key) {
        None => None,
        Some(v) => Some(record_at(img, v, log_id_of_key(key)->Ok_0)->Ok_0),
    }
}

/// An entry that leads to its record is read.
proof fn lemma_lead_is_read(img: Image, e: EntryView)
    requires
        leads(img, e),
    ensures
        record_of(img, e) is Ok,
        e.0 == be_bytes(record_of(img, e)->Ok_0.0 as nat, 8),
        record_of(img, e)->Ok_0 == (
            log_id_of_key(e.0)->Ok_0,
            record_at(img, e.1, log_id_of_key(e.0)->Ok_0)->Ok_0,
        ),
{
    law_log_id_key_round_trip(log_id_of_key(e.0)->Ok_0, e.0);
}

/// The records that index entries lead to, by key.
proof fn lemma_records_read(img: Image, es: Seq<EntryView>)
    requires
        keys_sorted(es),
        forall|i: int| 0 <= i < es.len() ==> leads(img, #[trigger] es[i]),
    ensures
        records_of(img, es) is Ok,
        records_of(img, es)->Ok_0.len() == es.len(),
        forall|i: int|
            0 <= i < es.len() ==> record_of(img, es[i]) == Ok::<RecordView, Error>(
                #[trigger] records_of(img, es)->Ok_0[i],
            ),
    decreases es.len(),
{
    if es.len() > 0 {
        let init = es.drop_last();
        assert forall|i: int| 0 <= i < init.len() implies leads(img, #[trigger] init[i]) by {
            assert(init[i] == es[i]);
        }
        lemma_records_read(img, init);
        assert(leads(img, es[es.len() - 1]));
        lemma_lead_is_read(img, es.last());
        let rs = records_of(img, es)->Ok_0;
        assert forall|i: int| 0 <= i < es.len() implies record_of(img, es[i]) == Ok::<
            RecordView,
            Error,
        >(#[trigger] rs[i]) by {
            if i < init.len() {
                assert(init[i] == es[i]);
                assert(rs[i] == records_of(img, init)->Ok_0[i]);
            }
        }
    }
}

/// The records that index entries lead to, as a whole.
pub proof fn lemma_by_key(img: Image, es: Seq<EntryView>, key: Seq<u8>)
    requires
        keys_sorted(es),
        forall|i: int| 0 <= i < es.len() ==> leads(img, #[trigger] es[i]),
    ensures
        records_of(img, es) is Ok,
        keys_sorted(by_key(records_of(img, es)->Ok_0)),
        lookup(by_key(records_of(img, es)->Ok_0), key) == read_under(img, es, key),
{
    lemma_records_read(img, es);
    let rs = records_of(img, es)->Ok_0;
    let ks = by_key(rs);
    assert forall|i: int| 0 <= i < es.len() implies (#[trigger] ks[i]).0 == es[i].0 && ks[i].1
        == record_at(img, es[i].1, log_id_of_key(es[i].0)->Ok_0)->Ok_0 by {
        assert(record_of(img, es[i]) == Ok::<RecordView, Error>(rs[i]));
        assert(leads(img, es[i]));
        lemma_lead_is_read(img, es[i]);
    }
    assert forall|i: int, j: int| 0 <= i < j < ks.len() implies lex_lt(
        (#[trigger] ks[i]).0,
        (#[trigger] ks[j]).0,
    ) by {
        assert(lex_lt(es[i].0, es[j].0));
    }
    lemma_lookup(es, key);
    lemma_lookup(ks, key);
    match lookup(es, key) {
        Some(v) => {
            let i = choose|i: int| 0 <= i < es.len() && #[trigger] es[i] == (key, v);
            assert(ks[i].0 == key);
            lemma_lookup_at(ks, i);
        },
        None => {
            if let Some(v) = lookup(ks, key) {
                let i = choose|i: int| 0 <= i < ks.len() && #[trigger] ks[i] == (key, v);
                assert(es[i].0 == key);
            }
        },
    }
}

/// The last append under a number is the last operation on its key.
pub proof fn lemma_appends(rs: Seq<RecordView>, key: Seq<u8>)
    ensures
        match last_op(appends(rs), key) {
            Some(v) => key_of_record(rs, key) && log_id_of_key(key) is Ok && v == last_with_id(
                rs,
                log_id_of_key(key)->Ok_0,
            ),
            None => !key_of_record(rs, key),
        },
    decreases rs.len(),
{
    if rs.len() > 0 {
        let init = rs.drop_last();
        assert(appends(rs).drop_last() =~= appends(init));
        lemma_appends(init, key);
        let x = rs.last();
        law_log_id_key_round_trip(x.0, key);
        if appends(rs).last().0 == key {
            assert(key == be_bytes(x.0 as nat, 8) && last_with_id(rs, x.0) is Some);
        } else {
            if key_of_record(init, key) {
                let id = choose|id: u64|
                    key == be_bytes(id as nat, 8) && #[trigger] last_with_id(init, id) is Some;
                assert(id != x.0);
                assert(last_with_id(rs, id) is Some);
                law_log_id_key_round_trip(id, key);
            }
            if key_of_record(rs, key) {
                let id = choose|id: u64|
                    key == be_bytes(id as nat, 8) && #[trigger] last_with_id(rs, id) is Some;
                assert(id != x.0);
                assert(last_with_id(init, id) is Some);
            }
        }
    }
}

/// What is listed of an intact space, and what it leads to.
proof fn lemma_intact_log(s: Space, ns: Namespace) -> (es: Seq<EntryView>)
    requires
        s.wf(),
        intact(s),
    ensures
        holds(s, ns, es),
        keys_sorted(es),
        listed(s, ns) == Ok::<Seq<EntryView>, Error>(es),
        is_log(s.roots()->Ok_0, ns) ==> forall|i: int|
            0 <= i < es.len() ==> leads(s.file@, #[trigger] es[i]),
        is_log(s.roots()->Ok_0, ns) ==> logged(s, ns) == records_of(s.file@, es),
        root_of(s.roots()->Ok_0, ns) is None ==> es.len() == 0 && logged(s, ns) == Ok::<
            Seq<RecordView>,
            Error,
        >(Seq::<RecordView>::empty()),
{
    let rs = s.roots()->Ok_0;
    assert(ns == Namespace(ns.0));
    assert(complete(s.file@, rs, Namespace(ns.0)));
    let es = choose|es: Seq<EntryView>| #[trigger]
        ns_holds(s.file@, rs, ns, es) && all_lead(s.file@, is_log(rs, ns), es);
    let none = Seq::<u8>::empty();
    law_orderly_is_read(s, ns, none);
    law_held_is_read(s, ns, es, none);
    lemma_ns_holds_sorted(s.file@, rs, ns, es);
    es
}

/// An entry leads to the same record in a larger image.
pub proof fn lemma_lead_extends(a: Image, b: Image, e: EntryView)
    requires
        extends(a, b),
        leads(a, e),
    ensures
        record_at(b, e.1, log_id_of_key(e.0)->Ok_0) == record_at(
            a,
            e.1,
            log_id_of_key(e.0)->Ok_0,
        ),
{
    assert(live(a, slot_of_value(e.1)->Ok_0));
}

/// What a commit makes of a log: `iter_log` gives what it gave before with the
/// records appended one after the other, each in the place of one with its
/// number.
pub proof fn law_committed_log(
    a: Space,
    b: Space,
    kv: Seq<PendingView>,
    logs: Seq<PendingLogView>,
    seq: u64,
    m: u8,
)
    requires
        a.wf(),
        b.wf(),
        published(a, b, kv, logs, seq),
        kept_by_commit(a, b),
        intact(a),
        logs_only_shrink(a, kv),
        pending_of(kv, m) is None,
        pending_log_of(logs, m) is Some,
        pending_log_of(logs, m)->0.records.len() > 0,
    ensures
        logged(a, Namespace(m)) is Ok,
        logged(b, Namespace(m)) is Ok,
        by_key(logged(b, Namespace(m))->Ok_0) == after(
            by_key(logged(a, Namespace(m))->Ok_0),
            appends(pending_log_of(logs, m)->0.records),
        ),
{
    let ns = Namespace(m);
    let none = Seq::<u8>::empty();
    let ea = lemma_intact_log(a, ns);
    law_commit_keeps_intact(a, b, kv, logs, seq);
    law_orderly_is_read(a, ns, none);
    law_orderly_is_read(b, ns, none);
    if root_of(a.roots()->Ok_0, ns) is Some {
        crate::space::order_laws::lemma_logs_are_logs(a.roots()->Ok_0, logs, m);
        lemma_by_key(a.file@, ea, none);
    }
    law_sound_committed_log(a, b, kv, logs, seq, m, ea);
}

/// What deletes make of a log: `iter_log` gives what it gave before without the
/// records that were deleted.
pub proof fn law_committed_log_deletes(
    a: Space,
    b: Space,
    kv: Seq<PendingView>,
    logs: Seq<PendingLogView>,
    seq: u64,
    m: u8,
)
    requires
        a.wf(),
        b.wf(),
        published(a, b, kv, logs, seq),
        kept_by_commit(a, b),
        intact(a),
        logs_only_shrink(a, kv),
        is_log(a.roots()->Ok_0, Namespace(m)),
        pending_of(kv, m) is Some,
        pending_of(kv, m)->0.ops.len() > 0,
    ensures
        logged(a, Namespace(m)) is Ok,
        logged(b, Namespace(m)) is Ok,
        by_key(logged(b, Namespace(m))->Ok_0) == after(
            by_key(logged(a, Namespace(m))->Ok_0),
            pending_of(kv, m)->0.ops,
        ),
{
    let ns = Namespace(m);
    let none = Seq::<u8>::empty();
    let ea = lemma_intact_log(a, ns);
    law_commit_keeps_intact(a, b, kv, logs, seq);
    law_orderly_is_read(a, ns, none);
    law_orderly_is_read(b, ns, none);
    lemma_by_key(a.file@, ea, none);
    law_sound_committed_log_deletes(a, b, kv, logs, seq, m, ea);
}

/// A log that a commit does not touch is read as it was.
pub proof fn law_untouched_log(
    a: Space,
    b: Space,
    kv: Seq<PendingView>,
    logs: Seq<PendingLogView>,
    seq: u64,
    m: u8,
)
    requires
        a.wf(),
        b.wf(),
        published(a, b, kv, logs, seq),
        kept_by_commit(a, b),
        intact(a),
        logs_only_shrink(a, kv),
        is_log(a.roots()->Ok_0, Namespace(m)),
        pending_of(kv, m) is Some ==> pending_of(kv, m)->0.ops.len() == 0,
        pending_log_of(logs, m) is Some ==> pending_log_of(logs, m)->0.records.len() == 0,
    ensures
        logged(b, Namespace(m)) == logged(a, Namespace(m)),
{
    let ns = Namespace(m);
    let none = Seq::<u8>::empty();
    let ea = lemma_intact_log(a, ns);
    law_orderly_is_read(a, ns, none);
    lemma_by_key(a.file@, ea, none);
    law_sound_untouched(a, b, kv, logs, seq, m, ea, none);
}

/// Entries whose batches are kept lead to the same records.
pub proof fn lemma_same_records(a: Image, b: Image, es: Seq<EntryView>)
    requires
        forall|i: int|
            0 <= i < es.len() ==> leads(a, #[trigger] es[i]) && live(
                b,
                slot_of_value(es[i].1)->Ok_0,
            ) && b[slot_of_value(es[i].1)->Ok_0 as int] == a[slot_of_value(
                es[i].1,
            )->Ok_0 as int],
    ensures
        records_of(b, es) == records_of(a, es),
    decreases es.len(),
{
    if es.len() > 0 {
        let init = es.drop_last();
        assert forall|i: int| 0 <= i < init.len() implies leads(a, #[trigger] init[i]) && live(
            b,
            slot_of_value(init[i].1)->Ok_0,
        ) && b[slot_of_value(init[i].1)->Ok_0 as int] == a[slot_of_value(
            init[i].1,
        )->Ok_0 as int] by {
            assert(init[i] == es[i]);
        }
        lemma_same_records(a, b, init);
        assert(leads(a, es[es.len() - 1]));
        assert(live(a, slot_of_value(es.last().1)->Ok_0));
    }
}

// ---------------------------------------------------------------------------
// Erasing
// ---------------------------------------------------------------------------

/// An erased namespace is gone: it has no root any more, and nothing is listed
/// of it, so that erasing it again finds nothing to do.
pub proof fn law_erased_is_gone(
    a: Space,
    b: Space,
    ns: Namespace,
    es: Seq<EntryView>,
    seq: u64,
)
    requires
        b.wf(),
        holds(a, ns, es),
        es.len() > 0,
        published(a, b, erasure(ns, keys_of(es)), no_logs(), seq),
    ensures
        root_of(b.roots()->Ok_0, ns) is None,
        listed(b, ns) == Ok::<Seq<EntryView>, Error>(Seq::<EntryView>::empty()),
        forall|i: int|
            0 <= i < b.roots()->Ok_0.len() ==> (#[trigger] b.roots()->Ok_0[i]).namespace != ns,
{
    law_erase_empties(a, b, ns, es, seq);
    let none = Seq::<EntryView>::empty();
    let rs = b.roots()->Ok_0;
    if let Some(r) = root_of(rs, ns) {
        let h = choose|h: nat| #[trigger]
            tree(b.file@, ns, r.index_slot, r.payload_hash, h) && tree_entries(
                b.file@,
                ns,
                r.index_slot,
                r.payload_hash,
                h,
            ) == none;
        lemma_level_first(
            b.file@,
            ns,
            seq![root_ptr(b.file@, ns, r.index_slot, r.payload_hash)],
            h,
        );
        assert(false);
    }
    crate::space::model::lemma_root_of(rs, ns);
}

// ---------------------------------------------------------------------------
// Cleaning up
// ---------------------------------------------------------------------------

/// In a space in order, everything that the superblock leads to can be walked.
pub proof fn law_orderly_is_trodden(s: Space)
    requires
        s.wf(),
        orderly(s),
        s.state.superblock.root_slot != NO_RECORD,
    ensures
        tread_all(s).end is Ok,
{
    let rs = s.roots()->Ok_0;
    crate::tx::commit::lemma_commit_decode_valid(
        s.file@[s.state.superblock.root_slot as int]->0.payload,
    );
    assert forall|i: int| 0 <= i < rs.len() implies root_reached(s, #[trigger] rs[i]) by {
        let r = rs[i];
        crate::space::order_laws::lemma_root_at(rs, i);
        law_orderly_is_read(s, r.namespace, Seq::<u8>::empty());
    }
    law_sound_treads(s);
}

/// In a space in order, cleaning up orphans a second time, with no commit in
/// between, succeeds and finds nothing to do.
pub proof fn law_vacuum_twice_in_order(a: Space, b: Space)
    requires
        a.wf(),
        b.wf(),
        orderly(a),
        a.state.superblock.root_slot != NO_RECORD,
        vacuumed(a, b, orphan_aim(a)),
    ensures
        tread_all(a).end is Ok,
        tread_all(b).end is Ok,
        scrub_set(b, orphan_aim(b)) == Set::<u64>::empty(),
        free_set(b, orphan_aim(b)) == Set::<u64>::empty(),
        sweep_writes(b, orphan_aim(b)) == 0,
        vacuum_refusal(b) == vacuum_refusal(a),
{
    law_orderly_is_trodden(a);
    law_vacuum_keeps_order(a, b);
    law_orderly_is_trodden(b);
    law_vacuum_twice(a, b);
}

/// Cleaning up, however far it gets, leaves `iter_log` of every log as it was.
pub proof fn law_vacuum_keeps_logs(a: Space, b: Space, ns: Namespace)
    requires
        a.wf(),
        b.wf(),
        intact(a),
        a.state.superblock.root_slot != NO_RECORD,
        ({
            ||| vacuumed(a, b, batch_aim(a)) || half_vacuumed(a, b, batch_aim(a))
            ||| vacuumed(a, b, orphan_aim(a)) || half_vacuumed(a, b, orphan_aim(a))
        }),
        is_log(a.roots()->Ok_0, ns),
    ensures
        logged(b, ns) == logged(a, ns),
{
    let ea = lemma_intact_log(a, ns);
    let none = Seq::<u8>::empty();
    law_orderly_is_trodden(a);
    if vacuumed(a, b, batch_aim(a)) || half_vacuumed(a, b, batch_aim(a)) {
        law_batch_vacuum_keeps_intact(a, b);
        law_batch_vacuum_keeps_contents(a, b, ns, ea);
    } else {
        law_vacuum_keeps_intact(a, b);
        law_vacuum_keeps_contents(a, b, ns, ea);
    }
    let eb = lemma_intact_log(b, ns);
    lemma_holds_one(b, ns, ea, eb);
    assert forall|i: int| 0 <= i < ea.len() implies leads(a.file@, #[trigger] ea[i]) && live(
        b.file@,
        slot_of_value(ea[i].1)->Ok_0,
    ) && b.file@[slot_of_value(ea[i].1)->Ok_0 as int] == a.file@[slot_of_value(
        ea[i].1,
    )->Ok_0 as int] by {
        let slot = slot_of_value(ea[i].1)->Ok_0;
        assert(leads(b.file@, eb[i]));
        assert(live(b.file@, slot));
        let count = a.file.slots.len();
        assert(a.file@.len() == count);
        crate::space::vacuum_laws::lemma_live_is_kept(a, b, slot);
    }
    lemma_same_records(a.file@, b.file@, ea);
}

/// A namespace holds one thing.
proof fn lemma_holds_one(s: Space, ns: Namespace, x: Seq<EntryView>, y: Seq<EntryView>)
    requires
        s.wf(),
        orderly(s),
        holds(s, ns, x),
        holds(s, ns, y),
    ensures
        x == y,
{
    let none = Seq::<u8>::empty();
    law_orderly_is_read(s, ns, none);
    law_held_is_read(s, ns, x, none);
    law_held_is_read(s, ns, y, none);
}

} // verus!
