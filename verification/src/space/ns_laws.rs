//! What a commit or an erasure makes of one sound namespace, whatever shape its
//! tree has and whatever the others hold.

use vstd::prelude::*;

use crate::bytes::{be_bytes, le_bytes};
use crate::container::live;
use crate::error::Error;
use crate::space::commit::{
    batch_holds, changed, holds_kv_applied, holds_log_applied, kept_by_commit, key_of_record,
    kv_applied, log_applied, published, record_kept,
};
use crate::space::index::{lemma_lookup, lemma_lookup_at, lookup, EntryView, Namespace};
use crate::space::laws::{
    got, holds, law_commit_keeps_others, law_held_is_read, lemma_readable, lemma_walk_grows, listed,
    within_reach,
};
use crate::space::lifecycle::{erasure, no_logs};
use crate::space::log::{
    last_with_id, law_batch_slot_value_round_trip, law_log_id_key_round_trip, log_id_of_key,
    slot_of_value, RecordView,
};
use crate::space::log_iter::{record_of, records_of};
use crate::space::model::{lemma_ns_holds_sorted, merged, ns_holds, OpView};
use crate::space::order_laws::{
    is_log, lemma_kept_leads, lemma_logs_are_logs, lemma_only_deletes, only_deletes,
};
use crate::space::reads::{everything, keys_of};
use crate::space::sound::{law_range, lemma_everything};
use crate::space::verify_laws::leads;
use crate::space::whole_laws::{
    after, appends, by_key, law_erased_is_gone, lemma_after, lemma_appends, lemma_by_key,
    lemma_lead_extends, lemma_same_lookups, lemma_same_records, logged,
};
use crate::space::{root_of, Space};
use crate::tx::pending::{
    last_op, pending_log_of, pending_of, with_op, with_record, KvOrigin, PendingLogView,
    PendingView,
};

verus! {

// ---------------------------------------------------------------------------
// Entries
// ---------------------------------------------------------------------------

/// After a commit, `list` of a sound namespace gives what was held with the
/// operations carried out, one after the other, as long as the tree is not
/// deeper than a walk may go.
pub proof fn law_sound_committed_list(
    a: Space,
    b: Space,
    kv: Seq<PendingView>,
    logs: Seq<PendingLogView>,
    seq: u64,
    m: u8,
    es: Seq<EntryView>,
)
    requires
        b.wf(),
        published(a, b, kv, logs, seq),
        holds(a, Namespace(m), es),
        within_reach(b, Namespace(m)),
        pending_of(kv, m) is Some,
        pending_of(kv, m)->0.ops.len() > 0,
    ensures
        holds(b, Namespace(m), after(es, pending_of(kv, m)->0.ops)),
        listed(b, Namespace(m)) == Ok::<Seq<EntryView>, Error>(
            after(es, pending_of(kv, m)->0.ops),
        ),
{
    let ns = Namespace(m);
    let ops = pending_of(kv, m)->0.ops;
    let none = Seq::<u8>::empty();
    lemma_ns_holds_sorted(a.file@, a.roots()->Ok_0, ns, es);
    assert(changed(a.file@, b.file@, a.roots()->Ok_0, b.roots()->Ok_0, kv, logs, m));
    assert(holds_kv_applied(b.file@, b.roots()->Ok_0, ns, es, ops));
    let now = choose|now: Seq<EntryView>| #[trigger]
        ns_holds(b.file@, b.roots()->Ok_0, ns, now) && kv_applied(es, now, ops);
    law_held_is_read(b, ns, now, none);
    assert forall|k: Seq<u8>| #[trigger] lookup(now, k) == lookup(after(es, ops), k) by {
        lemma_after(es, ops, k);
    }
    lemma_after(es, ops, none);
    lemma_same_lookups(now, after(es, ops));
}

/// A sound namespace that a commit does not touch is read as it was.
pub proof fn law_sound_untouched(
    a: Space,
    b: Space,
    kv: Seq<PendingView>,
    logs: Seq<PendingLogView>,
    seq: u64,
    m: u8,
    es: Seq<EntryView>,
    key: Seq<u8>,
)
    requires
        a.wf(),
        b.wf(),
        published(a, b, kv, logs, seq),
        kept_by_commit(a, b),
        holds(a, Namespace(m), es),
        within_reach(a, Namespace(m)),
        pending_of(kv, m) is Some ==> pending_of(kv, m)->0.ops.len() == 0,
        pending_log_of(logs, m) is Some ==> pending_log_of(logs, m)->0.records.len() == 0,
    ensures
        holds(b, Namespace(m), es),
        within_reach(b, Namespace(m)),
        got(b, Namespace(m), key) == got(a, Namespace(m), key),
        listed(b, Namespace(m)) == listed(a, Namespace(m)),
        is_log(a.roots()->Ok_0, Namespace(m)) && logged(a, Namespace(m)) is Ok ==> logged(
            b,
            Namespace(m),
        ) == logged(a, Namespace(m)),
{
    let ns = Namespace(m);
    law_commit_keeps_others(a, b, kv, logs, seq, m, es);
    lemma_walk_grows(a, b, ns);
    law_held_is_read(a, ns, es, key);
    law_held_is_read(b, ns, es, key);
    if is_log(a.roots()->Ok_0, ns) && logged(a, ns) is Ok {
        lemma_sound_log(a, ns, es);
        lemma_sound_log_is_read(b, ns, es);
        assert forall|i: int| 0 <= i < es.len() implies leads(a.file@, #[trigger] es[i]) && live(
            b.file@,
            slot_of_value(es[i].1)->Ok_0,
        ) && b.file@[slot_of_value(es[i].1)->Ok_0 as int] == a.file@[slot_of_value(
            es[i].1,
        )->Ok_0 as int] by {
            assert(leads(a.file@, es[i]));
            assert(live(a.file@, slot_of_value(es[i].1)->Ok_0));
        }
        lemma_same_records(a.file@, b.file@, es);
    }
}

// ---------------------------------------------------------------------------
// Records
// ---------------------------------------------------------------------------

/// What `iter_log` gives of a sound log is what its entries lead to.
proof fn lemma_sound_log_is_read(s: Space, ns: Namespace, es: Seq<EntryView>)
    requires
        s.wf(),
        holds(s, ns, es),
        within_reach(s, ns),
        is_log(s.roots()->Ok_0, ns),
    ensures
        logged(s, ns) == records_of(s.file@, es),
{
    lemma_readable(s, ns, es);
    law_range(s, ns, es, everything());
    lemma_everything(es);
}

/// Where entries are read, each leads to its record.
proof fn lemma_read_leads(s: Space, es: Seq<EntryView>)
    requires
        records_of(s.file@, es) is Ok,
    ensures
        forall|i: int| 0 <= i < es.len() ==> leads(s.file@, #[trigger] es[i]),
    decreases es.len(),
{
    if es.len() > 0 {
        let init = es.drop_last();
        lemma_read_leads(s, init);
        assert(record_of(s.file@, es.last()) is Ok);
        assert forall|i: int| 0 <= i < es.len() implies leads(s.file@, #[trigger] es[i]) by {
            if i < init.len() {
                assert(init[i] == es[i]);
            }
        }
    }
}

/// The entries of a sound log that is read lead to its records.
proof fn lemma_sound_log(s: Space, ns: Namespace, es: Seq<EntryView>)
    requires
        s.wf(),
        holds(s, ns, es),
        within_reach(s, ns),
        is_log(s.roots()->Ok_0, ns),
        logged(s, ns) is Ok,
    ensures
        logged(s, ns) == records_of(s.file@, es),
        forall|i: int| 0 <= i < es.len() ==> leads(s.file@, #[trigger] es[i]),
{
    lemma_sound_log_is_read(s, ns, es);
    lemma_read_leads(s, es);
}

/// After a commit, `iter_log` of a sound log gives what it gave before with the
/// records appended one after the other, each in the place of one with its
/// number, as long as the tree is not deeper than a walk may go.
#[verifier::spinoff_prover]
pub proof fn law_sound_committed_log(
    a: Space,
    b: Space,
    kv: Seq<PendingView>,
    logs: Seq<PendingLogView>,
    seq: u64,
    m: u8,
    es: Seq<EntryView>,
)
    requires
        a.wf(),
        b.wf(),
        published(a, b, kv, logs, seq),
        kept_by_commit(a, b),
        holds(a, Namespace(m), es),
        within_reach(a, Namespace(m)),
        logged(a, Namespace(m)) is Ok,
        within_reach(b, Namespace(m)),
        pending_of(kv, m) is None,
        pending_log_of(logs, m) is Some,
        pending_log_of(logs, m)->0.records.len() > 0,
    ensures
        logged(b, Namespace(m)) is Ok,
        by_key(logged(b, Namespace(m))->Ok_0) == after(
            by_key(logged(a, Namespace(m))->Ok_0),
            appends(pending_log_of(logs, m)->0.records),
        ),
{
    let ns = Namespace(m);
    let recs = pending_log_of(logs, m)->0.records;
    let prior = a.roots()->Ok_0;
    let none = Seq::<u8>::empty();
    lemma_ns_holds_sorted(a.file@, prior, ns, es);
    if root_of(prior, ns) is Some {
        lemma_logs_are_logs(prior, logs, m);
        lemma_sound_log(a, ns, es);
    } else {
        assert(records_of(a.file@, es) == Ok::<Seq<RecordView>, Error>(
            Seq::<RecordView>::empty(),
        ));
    }
    assert(logged(a, ns) == records_of(a.file@, es));
    assert(changed(a.file@, b.file@, prior, b.roots()->Ok_0, kv, logs, m));
    assert(holds_log_applied(b.file@, b.roots()->Ok_0, ns, es, recs));
    let eb = choose|now: Seq<EntryView>| #[trigger]
        ns_holds(b.file@, b.roots()->Ok_0, ns, now) && log_applied(b.file@, es, now, recs);
    let last = recs.last();
    assert(last_with_id(recs, last.0) is Some);
    assert(record_kept(b.file@, eb, last.0, last_with_id(recs, last.0)->0));
    assert(eb.len() > 0) by {
        lemma_lookup(eb, be_bytes(last.0 as nat, 8));
    }
    assert(is_log(b.roots()->Ok_0, ns));
    lemma_sound_log_is_read(b, ns, eb);
    let count = b.file.slots.len();
    assert(b.file@.len() == count);
    assert forall|i: int| 0 <= i < eb.len() implies leads(b.file@, #[trigger] eb[i]) by {
        let k = eb[i].0;
        lemma_lookup_at(eb, i);
        if key_of_record(recs, k) {
            let id = choose|id: u64|
                k == be_bytes(id as nat, 8) && #[trigger] last_with_id(recs, id) is Some;
            assert(record_kept(b.file@, eb, id, last_with_id(recs, id)->0));
            lemma_kept_leads(b.file@, eb, i, id, last_with_id(recs, id)->0);
        } else {
            assert(lookup(eb, k) == lookup(es, k));
            lemma_lookup(es, k);
            let v = eb[i].1;
            let j = choose|j: int| 0 <= j < es.len() && #[trigger] es[j] == (k, v);
            assert(leads(a.file@, es[j]));
            assert(live(a.file@, slot_of_value(v)->Ok_0));
            assert(eb[i] == es[j]);
        }
    }
    let ka = by_key(logged(a, ns)->Ok_0);
    let kb = by_key(records_of(b.file@, eb)->Ok_0);
    lemma_by_key(a.file@, es, none);
    lemma_by_key(b.file@, eb, none);
    let goal = after(ka, appends(recs));
    assert forall|k: Seq<u8>| #[trigger] lookup(kb, k) == lookup(goal, k) by {
        lemma_by_key(a.file@, es, k);
        lemma_by_key(b.file@, eb, k);
        lemma_after(ka, appends(recs), k);
        lemma_appends(recs, k);
        if key_of_record(recs, k) {
            let id = log_id_of_key(k)->Ok_0;
            law_log_id_key_round_trip(id, k);
            let p = last_with_id(recs, id)->0;
            let other = choose|other: u64|
                k == be_bytes(other as nat, 8) && #[trigger] last_with_id(recs, other) is Some;
            law_log_id_key_round_trip(other, k);
            assert(record_kept(b.file@, eb, id, p));
            let slot = choose|slot: u64| #[trigger]
                batch_holds(b.file@, slot, id, p) && lookup(eb, k) == Some(
                    le_bytes(slot as nat, 8),
                );
            law_batch_slot_value_round_trip(slot, le_bytes(slot as nat, 8));
            assert(live(b.file@, slot));
        } else {
            assert(lookup(eb, k) == lookup(es, k));
            lemma_lookup(es, k);
            if let Some(v) = lookup(es, k) {
                let i = choose|i: int| 0 <= i < es.len() && #[trigger] es[i] == (k, v);
                assert(leads(a.file@, es[i]));
                lemma_lead_extends(a.file@, b.file@, es[i]);
            }
        }
    }
    lemma_after(ka, appends(recs), none);
    lemma_same_lookups(kb, goal);
}

/// After a commit of deletes, `iter_log` of a sound log gives what it gave
/// before without the records that were deleted, as long as the tree is not
/// deeper than a walk may go.
#[verifier::spinoff_prover]
pub proof fn law_sound_committed_log_deletes(
    a: Space,
    b: Space,
    kv: Seq<PendingView>,
    logs: Seq<PendingLogView>,
    seq: u64,
    m: u8,
    es: Seq<EntryView>,
)
    requires
        a.wf(),
        b.wf(),
        published(a, b, kv, logs, seq),
        kept_by_commit(a, b),
        holds(a, Namespace(m), es),
        within_reach(a, Namespace(m)),
        is_log(a.roots()->Ok_0, Namespace(m)),
        logged(a, Namespace(m)) is Ok,
        within_reach(b, Namespace(m)),
        pending_of(kv, m) is Some,
        pending_of(kv, m)->0.ops.len() > 0,
        only_deletes(pending_of(kv, m)->0.ops),
    ensures
        logged(b, Namespace(m)) is Ok,
        by_key(logged(b, Namespace(m))->Ok_0) == after(
            by_key(logged(a, Namespace(m))->Ok_0),
            pending_of(kv, m)->0.ops,
        ),
{
    let ns = Namespace(m);
    let ops = pending_of(kv, m)->0.ops;
    let none = Seq::<u8>::empty();
    lemma_ns_holds_sorted(a.file@, a.roots()->Ok_0, ns, es);
    lemma_sound_log(a, ns, es);
    assert(changed(a.file@, b.file@, a.roots()->Ok_0, b.roots()->Ok_0, kv, logs, m));
    law_sound_committed_list(a, b, kv, logs, seq, m, es);
    let eb = after(es, ops);
    lemma_after(es, ops, none);
    if root_of(b.roots()->Ok_0, ns) is None {
        assert(records_of(b.file@, eb) == Ok::<Seq<RecordView>, Error>(
            Seq::<RecordView>::empty(),
        ));
    } else {
        assert(is_log(b.roots()->Ok_0, ns));
        lemma_sound_log_is_read(b, ns, eb);
    }
    assert(logged(b, ns) == records_of(b.file@, eb));
    assert forall|i: int| 0 <= i < eb.len() implies leads(b.file@, #[trigger] eb[i]) by {
        let k = eb[i].0;
        lemma_lookup_at(eb, i);
        lemma_after(es, ops, k);
        lemma_only_deletes(ops, k);
        lemma_lookup(es, k);
        let v = eb[i].1;
        let j = choose|j: int| 0 <= j < es.len() && #[trigger] es[j] == (k, v);
        assert(leads(a.file@, es[j]));
        assert(live(a.file@, slot_of_value(v)->Ok_0));
        assert(eb[i] == es[j]);
    }
    let ka = by_key(logged(a, ns)->Ok_0);
    lemma_by_key(a.file@, es, none);
    lemma_by_key(b.file@, eb, none);
    let kb = by_key(logged(b, ns)->Ok_0);
    let goal = after(ka, ops);
    assert forall|k: Seq<u8>| #[trigger] lookup(kb, k) == lookup(goal, k) by {
        lemma_by_key(a.file@, es, k);
        lemma_by_key(b.file@, eb, k);
        lemma_after(ka, ops, k);
        lemma_after(es, ops, k);
        lemma_only_deletes(ops, k);
        if last_op(ops, k) is None {
            lemma_lookup(es, k);
            if let Some(v) = lookup(es, k) {
                let i = choose|i: int| 0 <= i < es.len() && #[trigger] es[i] == (k, v);
                assert(leads(a.file@, es[i]));
                lemma_lead_extends(a.file@, b.file@, es[i]);
            }
        }
    }
    lemma_after(ka, ops, none);
    lemma_same_lookups(kb, goal);
}

// ---------------------------------------------------------------------------
// Calls of one transaction
// ---------------------------------------------------------------------------

/// The operations buffered for a namespace, in the order of the calls.
pub open spec fn ops_for(kv: Seq<PendingView>, m: u8) -> Seq<OpView> {
    match pending_of(kv, m) {
        Some(p) => p.ops,
        None => Seq::<OpView>::empty(),
    }
}

/// The records buffered for a namespace, in the order of the calls.
pub open spec fn records_for(logs: Seq<PendingLogView>, m: u8) -> Seq<RecordView> {
    match pending_log_of(logs, m) {
        Some(p) => p.records,
        None => Seq::<RecordView>::empty(),
    }
}

/// One more put or delete makes of the entries of its namespace what all calls
/// before it made of them, with this one carried out on that, and makes nothing
/// else of any other namespace. So calls take effect in their order, and the last
/// on a key wins.
pub proof fn law_calls_apply_in_order(
    v: Seq<PendingView>,
    w: Seq<PendingView>,
    ns: u8,
    origin: KvOrigin,
    op: OpView,
    es: Seq<EntryView>,
    m: u8,
)
    requires
        with_op(v, w, ns, origin, op),
    ensures
        after(es, ops_for(w, ns)) == merged(after(es, ops_for(v, ns)), seq![op]),
        m != ns ==> ops_for(w, m) == ops_for(v, m),
{
    let before = ops_for(v, ns);
    let now = ops_for(w, ns);
    assert(pending_of(w, ns) is Some);
    assert(now =~= before.push(op));
    assert(now.drop_last() =~= before);
    assert(m != ns ==> pending_of(w, m) == pending_of(v, m));
}

/// The same for one more record: it is put in the place of one with its number,
/// or where its number belongs.
pub proof fn law_appends_apply_in_order(
    v: Seq<PendingLogView>,
    w: Seq<PendingLogView>,
    ns: u8,
    rec: RecordView,
    es: Seq<EntryView>,
    m: u8,
)
    requires
        with_record(v, w, ns, rec),
    ensures
        after(es, appends(records_for(w, ns))) == merged(
            after(es, appends(records_for(v, ns))),
            seq![(be_bytes(rec.0 as nat, 8), Some(rec.1))],
        ),
        m != ns ==> records_for(w, m) == records_for(v, m),
{
    let before = records_for(v, ns);
    let now = records_for(w, ns);
    assert(pending_log_of(w, ns) is Some);
    assert(now =~= before.push(rec));
    assert(appends(now).drop_last() =~= appends(before));
    assert(m != ns ==> pending_log_of(w, m) == pending_log_of(v, m));
}

// ---------------------------------------------------------------------------
// Erasing
// ---------------------------------------------------------------------------

/// Erasing a sound namespace that is not empty takes one commit. After it the
/// namespace is not there any more, nothing is listed of it, and every other
/// sound namespace is read as it was. (The number given is that of the entries
/// held; erasing an empty one, and so erasing a second time, gives zero and
/// takes no commit.)
pub proof fn law_erasure(
    a: Space,
    b: Space,
    ns: Namespace,
    es: Seq<EntryView>,
    m: u8,
    others: Seq<EntryView>,
    key: Seq<u8>,
)
    requires
        a.wf(),
        b.wf(),
        holds(a, ns, es),
        within_reach(a, ns),
        es.len() > 0,
        published(
            a,
            b,
            erasure(ns, keys_of(es)),
            no_logs(),
            b.state.superblock.seq,
        ),
        kept_by_commit(a, b),
        m != ns.0,
        holds(a, Namespace(m), others),
        within_reach(a, Namespace(m)),
    ensures
        listed(a, ns) == Ok::<Seq<EntryView>, Error>(es),
        listed(b, ns) == Ok::<Seq<EntryView>, Error>(Seq::<EntryView>::empty()),
        forall|i: int|
            0 <= i < b.roots()->Ok_0.len() ==> (#[trigger] b.roots()->Ok_0[i]).namespace != ns,
        b.state.commit_history@ == a.state.commit_history@.push(b.state.superblock.seq),
        got(b, Namespace(m), key) == got(a, Namespace(m), key),
        listed(b, Namespace(m)) == listed(a, Namespace(m)),
        is_log(a.roots()->Ok_0, Namespace(m)) && logged(a, Namespace(m)) is Ok ==> logged(
            b,
            Namespace(m),
        ) == logged(a, Namespace(m)),
{
    let kv = erasure(ns, keys_of(es));
    let seq = b.state.superblock.seq;
    law_held_is_read(a, ns, es, key);
    law_erased_is_gone(a, b, ns, es, seq);
    assert(kv.last().ns == ns.0);
    assert(kv.drop_last() =~= Seq::<PendingView>::empty());
    assert(pending_of(kv.drop_last(), m) is None);
    assert(pending_of(kv, m) is None);
    assert(pending_log_of(no_logs(), m) is None);
    law_sound_untouched(a, b, kv, no_logs(), seq, m, others, key);
}

} // verus!
