//! A space in order: what every operation keeps, from the first commit on,
//! and what follows for those who read it.

use vstd::prelude::*;

use crate::bytes::{be_bytes, le_bytes};
use crate::chunk::ChunkKind;
use crate::container::{
    extends, lemma_extends_refl, lemma_extends_trans, lemma_torn_extends, live, torn,
    ContainerFile, Image,
};
use crate::error::Error;
use crate::space::chain::{heal_begun, heal_flushed, healed, kept_by_heal, survives};
use crate::space::commit::{
    all_or_nothing, all_walkable, batch_holds, changed, committed, holds_kv_applied,
    holds_log_applied, kept_by_commit, key_of_record, kv_applied, lemma_new_era,
    lemma_on_file_extends, log_applied, log_clashes, new_era, on_file, only_new_superblock,
    published, record_kept, superblock_chunk, unpublished,
};
use crate::space::cutting::ns_neat;
use crate::space::index::{
    keys_sorted, lemma_lookup, lemma_lookup_at, lookup, EntryView, Namespace,
};
use crate::space::integrity::{check_all, check_batch, check_commit};
use crate::space::laws::{
    got, holds, law_checkpoint_changes_nothing, law_commit_then_get, law_commit_then_read_log,
    law_failed_commit_changes_nothing, law_held_is_read, lemma_ns_holds_survives, lemma_readable,
    lemma_roots_extends, listed, within_reach,
};
use crate::space::log::{
    last_with_id, law_batch_slot_value_round_trip, law_log_id_key_round_trip, log_id_of_key,
    slot_of_value,
};
use crate::space::log_iter::log_value;
use crate::space::model::{
    lemma_ns_holds_extends, lemma_ns_holds_sorted, lemma_root_of, lemma_tree_unique, ns_holds,
    root_ptr, shaped, tree, tree_entries, walkable, OpView,
};
use crate::space::reads::everything;
use crate::space::shape_laws::{law_commit_keeps_shape, law_shape_is_within_reach};
use crate::space::sound::{lemma_fresh_open, lemma_gather};
use crate::space::superblock::{law_superblock_decode_of_encode, SuperblockView, NO_RECORD};
use crate::space::tree::forked;
use crate::space::vacuum::{
    all_log_entries, batch_aim, half_vacuumed, log_entries, orphan_aim, partly_scrubbed, scrub_set,
    tread_all, vacuumed,
};
use crate::space::vacuum_laws::{
    law_batch_vacuum_keeps_contents, law_batch_vacuum_keeps_records, law_vacuum_keeps_contents,
};
use crate::space::verify_laws::{all_lead, all_sound, law_sound_is_verified, leads, root_sound};
use crate::space::{root_of, roots_at, Space};
use crate::tx::commit::{lemma_commit_decode_valid, roots_sorted, NamespaceKind, RootView};
use crate::tx::pending::{
    last_op, pending_log_of, pending_of, PendingLogView, PendingView,
};

verus! {

/// Every namespace is stored in the one shape that belongs to what it holds.
pub open spec fn orderly(s: Space) -> bool {
    &&& s.roots() is Ok
    &&& forall|m: u8| #[trigger] ns_neat(s.file@, s.roots()->Ok_0, Namespace(m))
}

/// A namespace in its shape holds something, if only nothing.
proof fn lemma_neat_holds(s: Space, ns: Namespace) -> (es: Seq<EntryView>)
    requires
        s.roots() is Ok,
        ns_neat(s.file@, s.roots()->Ok_0, ns),
    ensures
        holds(s, ns, es),
{
    match root_of(s.roots()->Ok_0, ns) {
        None => Seq::<EntryView>::empty(),
        Some(r) => {
            let img = s.file@;
            let h = choose|h: nat| #[trigger]
                tree(img, ns, r.index_slot, r.payload_hash, h) && shaped(
                    img,
                    ns,
                    seq![root_ptr(img, ns, r.index_slot, r.payload_hash)],
                    h,
                ) && forked(img, ns, r.index_slot, r.payload_hash, h);
            tree_entries(img, ns, r.index_slot, r.payload_hash, h)
        },
    }
}

/// A space without a commit is in order.
pub proof fn law_new_space_is_orderly(s: Space)
    requires
        s.state.superblock.root_slot == NO_RECORD,
    ensures
        orderly(s),
{
    assert(s.roots() == Ok::<Seq<RootView>, Error>(Seq::<RootView>::empty()));
}

/// A commit leaves a space in order that was in order.
pub proof fn law_commit_keeps_order(
    a: Space,
    b: Space,
    kv: Seq<PendingView>,
    logs: Seq<PendingLogView>,
    seq: u64,
)
    requires
        published(a, b, kv, logs, seq),
        orderly(a),
    ensures
        orderly(b),
{
    assert forall|m: u8| #[trigger] ns_neat(b.file@, b.roots()->Ok_0, Namespace(m)) by {
        assert(ns_neat(a.file@, a.roots()->Ok_0, Namespace(m)));
        law_commit_keeps_shape(a, b, kv, logs, seq, Namespace(m));
    }
}

/// A commit that fails leaves a space in order that was in order.
pub proof fn law_failed_commit_keeps_order(a: Space, b: Space, e: Error)
    requires
        a.wf(),
        b.wf(),
        kept_by_commit(a, b),
        unpublished(a, b, e),
        orderly(a),
    ensures
        orderly(b),
{
    assert forall|m: u8| #[trigger] ns_neat(b.file@, b.roots()->Ok_0, Namespace(m)) by {
        let ns = Namespace(m);
        assert(ns_neat(a.file@, a.roots()->Ok_0, ns));
        let es = lemma_neat_holds(a, ns);
        law_shape_is_within_reach(a, ns);
        law_failed_commit_changes_nothing(a, b, e, ns, es, Seq::<u8>::empty());
    }
    let ns = Namespace(0);
    assert(ns_neat(a.file@, a.roots()->Ok_0, ns));
    let es = lemma_neat_holds(a, ns);
    law_shape_is_within_reach(a, ns);
    law_failed_commit_changes_nothing(a, b, e, ns, es, Seq::<u8>::empty());
}

/// Cleaning up, however far it gets, leaves a space in order that was in
/// order.
pub proof fn law_vacuum_keeps_order(a: Space, b: Space)
    requires
        a.wf(),
        a.state.superblock.root_slot != NO_RECORD,
        ({
            ||| tread_all(a).end is Ok && (vacuumed(a, b, orphan_aim(a)) || half_vacuumed(
                a,
                b,
                orphan_aim(a),
            ))
            ||| vacuumed(a, b, batch_aim(a)) || half_vacuumed(a, b, batch_aim(a))
        }),
        orderly(a),
    ensures
        orderly(b),
{
    assert forall|m: u8| #[trigger] ns_neat(b.file@, b.roots()->Ok_0, Namespace(m)) && b.roots()
        == a.roots() by {
        let ns = Namespace(m);
        assert(ns_neat(a.file@, a.roots()->Ok_0, ns));
        let es = lemma_neat_holds(a, ns);
        if vacuumed(a, b, batch_aim(a)) || half_vacuumed(a, b, batch_aim(a)) {
            law_batch_vacuum_keeps_contents(a, b, ns, es);
        } else {
            law_vacuum_keeps_contents(a, b, ns, es);
        }
    }
    assert(ns_neat(b.file@, b.roots()->Ok_0, Namespace(0)));
}

/// A new checkpoint leaves a space in order that was in order.
pub proof fn law_checkpoint_keeps_order(a: Space, b: Space)
    requires
        kept_by_heal(a, b),
        healed(a, b) || b.state.superblock == a.state.superblock,
        orderly(a),
    ensures
        orderly(b),
{
    assert forall|m: u8| #[trigger] ns_neat(b.file@, b.roots()->Ok_0, Namespace(m)) && b.roots()
        == a.roots() by {
        let ns = Namespace(m);
        assert(ns_neat(a.file@, a.roots()->Ok_0, ns));
        let es = lemma_neat_holds(a, ns);
        law_checkpoint_changes_nothing(a, b, ns, es);
    }
    assert(ns_neat(b.file@, b.roots()->Ok_0, Namespace(0)));
}

/// In a space in order every namespace can be read: `list` succeeds, and
/// `get` gives for every key what is listed under it.
pub proof fn law_orderly_is_read(s: Space, ns: Namespace, key: Seq<u8>)
    requires
        s.wf(),
        orderly(s),
    ensures
        listed(s, ns) is Ok,
        holds(s, ns, listed(s, ns)->Ok_0),
        got(s, ns, key) == Ok::<Option<Seq<u8>>, Error>(lookup(listed(s, ns)->Ok_0, key)),
        within_reach(s, ns),
{
    assert(ns == Namespace(ns.0));
    assert(ns_neat(s.file@, s.roots()->Ok_0, Namespace(ns.0)));
    let es = lemma_neat_holds(s, ns);
    law_shape_is_within_reach(s, ns);
    law_held_is_read(s, ns, es, key);
}

/// In a space in order no commit is turned away for a tree that is too deep.
pub proof fn law_orderly_is_walkable(s: Space)
    requires
        s.wf(),
        orderly(s),
    ensures
        all_walkable(s.file@, s.roots()->Ok_0, s.walk_now().max_depth as int),
{
    assert forall|m: u8| #[trigger]
        walkable(
            s.file@,
            s.roots()->Ok_0,
            Namespace(m),
            s.walk_now().max_depth as int,
        ) by {
        assert(ns_neat(s.file@, s.roots()->Ok_0, Namespace(m)));
        law_shape_is_within_reach(s, Namespace(m));
    }
}

/// What is committed is read back: after a commit to a space in order, `get`
/// gives for every key what the last operation on it made of it; for keys
/// without one, what `get` gave before.
pub proof fn law_committed_is_read_back(
    a: Space,
    b: Space,
    kv: Seq<PendingView>,
    logs: Seq<PendingLogView>,
    seq: u64,
    m: u8,
    key: Seq<u8>,
)
    requires
        a.wf(),
        b.wf(),
        published(a, b, kv, logs, seq),
        orderly(a),
        pending_of(kv, m) is Some,
        pending_of(kv, m)->0.ops.len() > 0,
    ensures
        got(b, Namespace(m), key) == match last_op(pending_of(kv, m)->0.ops, key) {
            Some(v) => Ok::<Option<Seq<u8>>, Error>(v),
            None => got(a, Namespace(m), key),
        },
{
    let ns = Namespace(m);
    law_orderly_is_read(a, ns, key);
    law_commit_keeps_order(a, b, kv, logs, seq);
    law_orderly_is_read(b, ns, key);
    law_commit_then_get(a, b, kv, logs, seq, m, listed(a, ns)->Ok_0, key);
}

/// What is appended is read back: after a commit to a space in order,
/// `read_log` gives the last record appended under a number.
pub proof fn law_logged_is_read_back(
    a: Space,
    b: Space,
    kv: Seq<PendingView>,
    logs: Seq<PendingLogView>,
    seq: u64,
    m: u8,
    id: u64,
    payload: Seq<u8>,
)
    requires
        a.wf(),
        b.wf(),
        published(a, b, kv, logs, seq),
        orderly(a),
        pending_of(kv, m) is None,
        pending_log_of(logs, m) is Some,
        last_with_id(pending_log_of(logs, m)->0.records, id) == Some(payload),
    ensures
        log_value(b.file@, b.state.superblock@, b.walk_now(), Namespace(m), id) == Ok::<
            Option<Seq<u8>>,
            Error,
        >(Some(payload)),
{
    let ns = Namespace(m);
    law_orderly_is_read(a, ns, Seq::<u8>::empty());
    law_commit_keeps_order(a, b, kv, logs, seq);
    law_orderly_is_read(b, ns, Seq::<u8>::empty());
    law_commit_then_read_log(a, b, kv, logs, seq, m, listed(a, ns)->Ok_0, id, payload);
}

/// Spaces in order that hold the same in a namespace are read the same there.
proof fn lemma_same_reads(a: Space, b: Space, ns: Namespace, es: Seq<EntryView>, key: Seq<u8>)
    requires
        a.wf(),
        b.wf(),
        orderly(a),
        orderly(b),
        holds(a, ns, es),
        holds(b, ns, es),
    ensures
        got(b, ns, key) == got(a, ns, key),
        listed(b, ns) == listed(a, ns),
{
    law_orderly_is_read(a, ns, key);
    law_orderly_is_read(b, ns, key);
    law_held_is_read(a, ns, es, key);
    law_held_is_read(b, ns, es, key);
}

/// Cleaning up, however far it gets, changes nothing that is read from a space
/// in order.
pub proof fn law_vacuum_changes_no_read(a: Space, b: Space, ns: Namespace, key: Seq<u8>)
    requires
        a.wf(),
        b.wf(),
        a.state.superblock.root_slot != NO_RECORD,
        ({
            ||| tread_all(a).end is Ok && (vacuumed(a, b, orphan_aim(a)) || half_vacuumed(
                a,
                b,
                orphan_aim(a),
            ))
            ||| vacuumed(a, b, batch_aim(a)) || half_vacuumed(a, b, batch_aim(a))
        }),
        orderly(a),
    ensures
        got(b, ns, key) == got(a, ns, key),
        listed(b, ns) == listed(a, ns),
{
    law_vacuum_keeps_order(a, b);
    assert(ns == Namespace(ns.0));
    assert(ns_neat(a.file@, a.roots()->Ok_0, Namespace(ns.0)));
    let es = lemma_neat_holds(a, ns);
    if vacuumed(a, b, batch_aim(a)) || half_vacuumed(a, b, batch_aim(a)) {
        law_batch_vacuum_keeps_contents(a, b, ns, es);
    } else {
        law_vacuum_keeps_contents(a, b, ns, es);
    }
    lemma_same_reads(a, b, ns, es, key);
}

/// A new checkpoint changes nothing that is read from a space in order.
pub proof fn law_checkpoint_changes_no_read(a: Space, b: Space, ns: Namespace, key: Seq<u8>)
    requires
        a.wf(),
        b.wf(),
        kept_by_heal(a, b),
        healed(a, b) || b.state.superblock == a.state.superblock,
        orderly(a),
    ensures
        got(b, ns, key) == got(a, ns, key),
        listed(b, ns) == listed(a, ns),
{
    law_checkpoint_keeps_order(a, b);
    assert(ns == Namespace(ns.0));
    assert(ns_neat(a.file@, a.roots()->Ok_0, Namespace(ns.0)));
    let es = lemma_neat_holds(a, ns);
    law_checkpoint_changes_nothing(a, b, ns, es);
    lemma_same_reads(a, b, ns, es, key);
}

// ---------------------------------------------------------------------------
// A space that passes every check
// ---------------------------------------------------------------------------

/// The namespace holds something, and if it is a log, every entry leads to its
/// record.
pub open spec fn complete(img: Image, rs: Seq<RootView>, ns: Namespace) -> bool {
    exists|es: Seq<EntryView>| #[trigger]
        ns_holds(img, rs, ns, es) && all_lead(img, is_log(rs, ns), es)
}

/// The namespace is a log.
pub open spec fn is_log(rs: Seq<RootView>, ns: Namespace) -> bool {
    root_of(rs, ns) matches Some(r) && r.kind == NamespaceKind::Log
}

/// In order, under a commit record that hashes as it should, and with every
/// record in its place.
pub open spec fn intact(s: Space) -> bool {
    &&& orderly(s)
    &&& s.state.superblock.root_slot != NO_RECORD ==> check_commit(
        s.file@,
        s.state.superblock@,
    ) is Ok
    &&& forall|m: u8| #[trigger] complete(s.file@, s.roots()->Ok_0, Namespace(m))
}

/// An entry that leads to its record keeps it.
proof fn lemma_lead_keeps(img: Image, es: Seq<EntryView>, i: int) -> (r: (u64, Seq<u8>))
    requires
        keys_sorted(es),
        0 <= i < es.len(),
        leads(img, es[i]),
    ensures
        es[i].0 == be_bytes(r.0 as nat, 8),
        record_kept(img, es, r.0, r.1),
{
    let id = log_id_of_key(es[i].0)->Ok_0;
    let slot = slot_of_value(es[i].1)->Ok_0;
    law_log_id_key_round_trip(id, es[i].0);
    law_batch_slot_value_round_trip(slot, es[i].1);
    lemma_lookup_at(es, i);
    let payload = last_with_id(check_batch(img, slot)->Ok_0, id)->0;
    assert(batch_holds(img, slot, id, payload) && lookup(es, be_bytes(id as nat, 8)) == Some(
        le_bytes(slot as nat, 8),
    ));
    (id, payload)
}

/// An entry that keeps its record leads to it.
pub proof fn lemma_kept_leads(img: Image, es: Seq<EntryView>, i: int, id: u64, payload: Seq<u8>)
    requires
        keys_sorted(es),
        0 <= i < es.len(),
        es[i].0 == be_bytes(id as nat, 8),
        record_kept(img, es, id, payload),
        img.len() <= u64::MAX,
    ensures
        leads(img, es[i]),
{
    let slot = choose|slot: u64| #[trigger]
        batch_holds(img, slot, id, payload) && lookup(es, be_bytes(id as nat, 8)) == Some(
            le_bytes(slot as nat, 8),
        );
    law_log_id_key_round_trip(id, es[i].0);
    law_batch_slot_value_round_trip(slot, es[i].1);
    lemma_lookup_at(es, i);
}

/// The roots of a commit record that passes are the roots.
proof fn lemma_checked_roots(s: Space)
    requires
        s.state.superblock.root_slot != NO_RECORD,
        check_commit(s.file@, s.state.superblock@) is Ok,
    ensures
        s.roots() == Ok::<Seq<RootView>, Error>(
            check_commit(s.file@, s.state.superblock@)->Ok_0.roots,
        ),
        roots_sorted(s.roots()->Ok_0),
{
    lemma_commit_decode_valid(s.file@[s.state.superblock.root_slot as int]->0.payload);
}

/// Every root is the root of its namespace.
pub proof fn lemma_root_at(rs: Seq<RootView>, i: int)
    requires
        roots_sorted(rs),
        0 <= i < rs.len(),
    ensures
        root_of(rs, rs[i].namespace) == Some(rs[i]),
{
    lemma_root_of(rs, rs[i].namespace);
    match root_of(rs, rs[i].namespace) {
        None => {},
        Some(r) => {
            let j = choose|j: int| 0 <= j < rs.len() && #[trigger] rs[j] == r;
            if i < j {
                assert(rs[i].namespace.0 < rs[j].namespace.0);
            } else if j < i {
                assert(rs[j].namespace.0 < rs[i].namespace.0);
            }
        },
    }
}

/// A space in which everything is in place passes the integrity check.
pub proof fn law_intact_is_verified(s: Space)
    requires
        s.wf(),
        intact(s),
    ensures
        check_all(s) is Ok,
{
    if s.state.superblock.root_slot != NO_RECORD {
        lemma_checked_roots(s);
        let rs = check_commit(s.file@, s.state.superblock@)->Ok_0.roots;
        assert forall|i: int| 0 <= i < rs.len() implies root_sound(s, #[trigger] rs[i]) by {
            let r = rs[i];
            let ns = r.namespace;
            let img = s.file@;
            lemma_root_at(rs, i);
            assert(ns == Namespace(ns.0));
            assert(complete(img, rs, Namespace(ns.0)));
            let es = choose|es: Seq<EntryView>| #[trigger]
                ns_holds(img, rs, ns, es) && all_lead(img, is_log(rs, ns), es);
            let g = choose|g: nat| #[trigger]
                tree(img, ns, r.index_slot, r.payload_hash, g) && tree_entries(
                    img,
                    ns,
                    r.index_slot,
                    r.payload_hash,
                    g,
                ) == es;
            assert(ns_neat(img, rs, Namespace(ns.0)));
            law_shape_is_within_reach(s, ns);
            let h = choose|h: nat| #[trigger]
                tree(img, ns, r.index_slot, r.payload_hash, h) && h <= s.walk_now().max_depth;
            lemma_tree_unique(img, ns, r.index_slot, r.payload_hash, g, h);
        }
        assert(all_sound(s));
    }
    law_sound_is_verified(s);
}

/// A space without a commit is intact.
pub proof fn law_new_space_is_intact(s: Space)
    requires
        s.state.superblock.root_slot == NO_RECORD,
    ensures
        intact(s),
{
    law_new_space_is_orderly(s);
    assert forall|m: u8| #[trigger] complete(s.file@, s.roots()->Ok_0, Namespace(m)) by {
        assert(s.roots()->Ok_0 =~= Seq::<RootView>::empty());
        assert(ns_holds(
            s.file@,
            s.roots()->Ok_0,
            Namespace(m),
            Seq::<EntryView>::empty(),
        ));
    }
}

/// Operations that only delete.
pub open spec fn only_deletes(ops: Seq<OpView>) -> bool {
    forall|i: int| 0 <= i < ops.len() ==> (#[trigger] ops[i]).1 is None
}

/// Operations that only delete leave deletes.
pub proof fn lemma_only_deletes(ops: Seq<OpView>, key: Seq<u8>)
    requires
        only_deletes(ops),
    ensures
        last_op(ops, key) matches Some(v) ==> v is None,
    decreases ops.len(),
{
    if ops.len() > 0 {
        let init = ops.drop_last();
        assert forall|i: int| 0 <= i < init.len() implies (#[trigger] init[i]).1 is None by {
            assert(init[i] == ops[i]);
        }
        assert(ops[ops.len() - 1].1 is None);
        lemma_only_deletes(init, key);
    }
}

/// Records go to logs.
pub proof fn lemma_logs_are_logs(rs: Seq<RootView>, logs: Seq<PendingLogView>, m: u8)
    requires
        log_clashes(rs, logs) is None,
        pending_log_of(logs, m) is Some,
        root_of(rs, Namespace(m)) is Some,
    ensures
        root_of(rs, Namespace(m))->0.kind == NamespaceKind::Log,
    decreases logs.len(),
{
    if logs[0].ns != m {
        lemma_pending_log_rest(logs, m);
        lemma_logs_are_logs(rs, logs.drop_first(), m);
    }
}

/// What is buffered for a namespace is not affected by what comes first for
/// another.
proof fn lemma_pending_log_rest(logs: Seq<PendingLogView>, m: u8)
    requires
        logs.len() > 0,
        logs[0].ns != m,
    ensures
        pending_log_of(logs.drop_first(), m) == pending_log_of(logs, m),
    decreases logs.len(),
{
    let rest = logs.drop_first();
    if logs.len() > 1 {
        assert(rest.last() == logs.last());
        if logs.last().ns != m {
            let init = logs.drop_last();
            assert(init[0] == logs[0]);
            assert(init.drop_first() =~= rest.drop_last());
            lemma_pending_log_rest(init, m);
        }
    } else {
        assert(logs.drop_last() =~= Seq::<PendingLogView>::empty());
        assert(rest =~= Seq::<PendingLogView>::empty());
    }
}

/// One namespace after a commit.
#[verifier::spinoff_prover]
proof fn lemma_commit_completes(
    a: Space,
    y: Image,
    now: Seq<RootView>,
    kv: Seq<PendingView>,
    logs: Seq<PendingLogView>,
    m: u8,
)
    requires
        extends(a.file@, y),
        y.len() <= u64::MAX,
        changed(a.file@, y, a.roots()->Ok_0, now, kv, logs, m),
        log_clashes(a.roots()->Ok_0, logs) is None,
        complete(a.file@, a.roots()->Ok_0, Namespace(m)),
        is_log(a.roots()->Ok_0, Namespace(m)) && pending_of(kv, m) is Some ==> only_deletes(
            pending_of(kv, m)->0.ops,
        ),
    ensures
        complete(y, now, Namespace(m)),
{
    let ns = Namespace(m);
    let x = a.file@;
    let prior = a.roots()->Ok_0;
    let es = choose|es: Seq<EntryView>| #[trigger]
        ns_holds(x, prior, ns, es) && all_lead(x, is_log(prior, ns), es);
    lemma_ns_holds_sorted(x, prior, ns, es);
    if pending_of(kv, m) is Some && pending_of(kv, m)->0.ops.len() > 0 {
        let ops = pending_of(kv, m)->0.ops;
        assert(holds_kv_applied(y, now, ns, es, ops));
        let es2 = choose|es2: Seq<EntryView>| #[trigger]
            ns_holds(y, now, ns, es2) && kv_applied(es, es2, ops);
        if is_log(now, ns) {
            assert(is_log(prior, ns));
            assert forall|i: int| 0 <= i < es2.len() implies leads(y, #[trigger] es2[i]) by {
                let k = es2[i].0;
                lemma_lookup_at(es2, i);
                lemma_only_deletes(ops, k);
                assert(lookup(es2, k) == lookup(es, k));
                lemma_lookup(es, k);
                let j = choose|j: int| 0 <= j < es.len() && #[trigger] es[j] == (k, es2[i].1);
                assert(leads(x, es[j]));
                lemma_leads_extends(x, y, es[j]);
            }
        }
        assert(ns_holds(y, now, ns, es2) && all_lead(y, is_log(now, ns), es2));
    } else if pending_log_of(logs, m) is Some && pending_log_of(logs, m)->0.records.len() > 0 {
        let recs = pending_log_of(logs, m)->0.records;
        assert(holds_log_applied(y, now, ns, es, recs));
        let es2 = choose|es2: Seq<EntryView>| #[trigger]
            ns_holds(y, now, ns, es2) && log_applied(y, es, es2, recs);
        if root_of(prior, ns) is Some {
            lemma_logs_are_logs(prior, logs, m);
        }
        assert forall|i: int| 0 <= i < es2.len() implies leads(y, #[trigger] es2[i]) by {
            let k = es2[i].0;
            lemma_lookup_at(es2, i);
            if key_of_record(recs, k) {
                let id = choose|id: u64|
                    k == be_bytes(id as nat, 8) && #[trigger] last_with_id(recs, id) is Some;
                assert(record_kept(y, es2, id, last_with_id(recs, id)->0));
                lemma_kept_leads(y, es2, i, id, last_with_id(recs, id)->0);
            } else {
                assert(lookup(es2, k) == lookup(es, k));
                lemma_lookup(es, k);
                let j = choose|j: int| 0 <= j < es.len() && #[trigger] es[j] == (k, es2[i].1);
                assert(leads(x, es[j]));
                lemma_leads_extends(x, y, es[j]);
            }
        }
        assert(ns_holds(y, now, ns, es2) && all_lead(y, is_log(now, ns), es2));
    } else {
        lemma_ns_holds_extends(x, y, prior, ns, es);
        if is_log(prior, ns) {
            assert forall|i: int| 0 <= i < es.len() implies leads(y, #[trigger] es[i]) by {
                lemma_leads_extends(x, y, es[i]);
            }
        }
        assert(ns_holds(y, now, ns, es) && all_lead(y, is_log(now, ns), es));
    }
}

/// An entry leads to its record in a larger image.
proof fn lemma_leads_extends(a: Image, b: Image, e: EntryView)
    requires
        extends(a, b),
        leads(a, e),
    ensures
        leads(b, e),
{
    let slot = slot_of_value(e.1)->Ok_0;
    assert(live(a, slot));
}

/// What is buffered against a log only deletes.
pub open spec fn logs_only_shrink(s: Space, kv: Seq<PendingView>) -> bool {
    forall|m: u8|
        is_log(s.roots()->Ok_0, Namespace(m)) && #[trigger] pending_of(kv, m) is Some
            ==> only_deletes(pending_of(kv, m)->0.ops)
}

/// A space that stands at the superblock of a new era is intact.
proof fn lemma_new_era_is_intact(
    a: Space,
    t: Space,
    kv: Seq<PendingView>,
    logs: Seq<PendingLogView>,
)
    requires
        t.wf(),
        intact(a),
        extends(a.file@, t.file@),
        new_era(a, t.file@, kv, logs, t.state.superblock@),
        logs_only_shrink(a, kv),
    ensures
        intact(t),
{
    let prior = a.roots()->Ok_0;
    let now = t.roots()->Ok_0;
    lemma_checked_roots(t);
    let count = t.file.slots.len();
    assert(t.file@.len() == count);
    assert forall|m: u8| #[trigger] ns_neat(t.file@, now, Namespace(m)) by {
        assert(ns_neat(a.file@, prior, Namespace(m)));
        assert(changed(a.file@, t.file@, prior, now, kv, logs, m));
    }
    assert forall|m: u8| #[trigger] complete(t.file@, now, Namespace(m)) by {
        assert(complete(a.file@, prior, Namespace(m)));
        assert(changed(a.file@, t.file@, prior, now, kv, logs, m));
        lemma_commit_completes(a, t.file@, now, kv, logs, m);
    }
}

/// What is committed to an intact space leaves it intact: nothing that is
/// published ever fails the integrity check.
pub proof fn law_commit_keeps_intact(
    a: Space,
    b: Space,
    kv: Seq<PendingView>,
    logs: Seq<PendingLogView>,
    seq: u64,
)
    requires
        b.wf(),
        published(a, b, kv, logs, seq),
        kept_by_commit(a, b),
        intact(a),
        logs_only_shrink(a, kv),
    ensures
        intact(b),
        check_all(b) is Ok,
{
    lemma_new_era_is_intact(a, b, kv, logs);
    law_intact_is_verified(b);
}

/// A commit is all or nothing, wherever it breaks off, even if the device loses
/// power: whichever superblock is then found on file, it was there before and
/// leads to what it led to, or it leads to an intact space in which everything
/// that was buffered is done.
pub proof fn law_commit_is_all_or_nothing(
    a: Space,
    b: Space,
    kv: Seq<PendingView>,
    logs: Seq<PendingLogView>,
    t: Space,
    slot: u64,
    ns: Namespace,
    es: Seq<EntryView>,
)
    requires
        t.wf(),
        intact(a),
        a.file.durable@ == a.file@,
        logs_only_shrink(a, kv),
        kept_by_commit(a, b),
        all_or_nothing(a, b, kv, logs),
        torn(b.file, t.file@),
        live(t.file@, slot),
        t.file@[slot as int] == Some(superblock_chunk(t.state.superblock@)),
    ensures
        ({
            ||| live(a.file@, slot) && (roots_at(a.file@, t.state.superblock@) is Ok ==> {
                &&& t.roots() == roots_at(a.file@, t.state.superblock@)
                &&& ns_holds(a.file@, t.roots()->Ok_0, ns, es) ==> holds(t, ns, es)
            })
            ||| intact(t) && committed(
                a.file@,
                t.file@,
                a.roots()->Ok_0,
                t.roots()->Ok_0,
                kv,
                logs,
            )
        }),
{
    let sb = t.state.superblock@;
    lemma_extends_refl(a.file@);
    lemma_torn_extends(b.file, t.file@);
    lemma_extends_trans(a.file@, b.file.durable@, t.file@);
    if live(a.file@, slot) {
        if roots_at(a.file@, sb) is Ok {
            if sb.root_slot != NO_RECORD {
                assert(live(a.file@, sb.root_slot));
            }
            if ns_holds(a.file@, t.roots()->Ok_0, ns, es) {
                lemma_ns_holds_extends(a.file@, t.file@, t.roots()->Ok_0, ns, es);
            }
        }
    } else {
        assert(live(b.file@, slot));
        let new = choose|new: SuperblockView| #[trigger]
            new_era(a, b.file.durable@, kv, logs, new) && only_new_superblock(
                a.file@,
                b.file@,
                new,
            );
        assert(superblock_chunk(new) == superblock_chunk(sb));
        law_superblock_decode_of_encode(new);
        law_superblock_decode_of_encode(sb);
        lemma_new_era(a, b.file.durable@, t.file@, kv, logs, new);
        lemma_new_era_is_intact(a, t, kv, logs);
    }
}

/// Once a commit has succeeded, it stays, even if the device loses power: its
/// superblock is found on file, and leads to all that was buffered.
pub proof fn law_commit_is_durable(
    a: Space,
    b: Space,
    kv: Seq<PendingView>,
    logs: Seq<PendingLogView>,
    seq: u64,
    c: Image,
)
    requires
        published(a, b, kv, logs, seq),
        kept_by_commit(a, b),
        a.file.durable@ == a.file@,
        torn(b.file, c),
    ensures
        on_file(c, b.state.superblock@),
        new_era(a, c, kv, logs, b.state.superblock@),
{
    lemma_extends_refl(a.file@);
    lemma_torn_extends(b.file, c);
    lemma_on_file_extends(b.file.durable@, c, b.state.superblock@);
    lemma_new_era(a, b.file.durable@, c, kv, logs, b.state.superblock@);
}

/// What a torn file holds after writing a checkpoint has broken off.
proof fn lemma_torn_survives(a: ContainerFile, b: ContainerFile, c: Image)
    requires
        a.durable@ == a@,
        survives(a@, b@),
        heal_flushed(a, b),
        torn(b, c),
    ensures
        survives(a@, c),
        forall|s: u64| #[trigger]
            live(c, s) && c[s as int]->0.kind != ChunkKind::Checkpoint ==> live(b@, s)
                && b@[s as int] == c[s as int],
{
    let d = b.durable@;
    assert(survives(a@, d));
    assert(survives(d, b@));
    assert forall|s: u64| #[trigger]
        live(a@, s) && a@[s as int]->0.kind != ChunkKind::Checkpoint implies live(c, s)
        && c[s as int] == a@[s as int] by {
        assert(live(d, s));
        assert(live(b@, s));
        assert(c[s as int] == b@[s as int] || c[s as int] == d[s as int] || c[s as int] is None);
    }
    assert forall|s: u64| #[trigger]
        live(c, s) && c[s as int]->0.kind != ChunkKind::Checkpoint implies live(b@, s)
        && b@[s as int] == c[s as int] by {
        if c[s as int] != b@[s as int] {
            assert(live(d, s));
        }
    }
}

/// Writing a checkpoint changes no contents, wherever it breaks off, even if the
/// device loses power: whichever superblock is then found on file, it was there
/// before and leads to what it led to, or it leads to what was held.
pub proof fn law_checkpoint_is_all_or_nothing(
    a: Space,
    b: Space,
    t: Space,
    slot: u64,
    ns: Namespace,
    es: Seq<EntryView>,
)
    requires
        a.file.durable@ == a.file@,
        kept_by_heal(a, b),
        torn(b.file, t.file@),
        live(t.file@, slot),
        t.file@[slot as int] == Some(superblock_chunk(t.state.superblock@)),
    ensures
        ({
            let was = if live(a.file@, slot) {
                roots_at(a.file@, t.state.superblock@)
            } else {
                a.roots()
            };
            was is Ok ==> {
                &&& t.roots() == was
                &&& ns_holds(a.file@, was->Ok_0, ns, es) ==> holds(t, ns, es)
            }
        }),
{
    let sb = t.state.superblock@;
    lemma_torn_survives(a.file, b.file, t.file@);
    assert(live(b.file@, slot));
    if !live(a.file@, slot) {
        let new = choose|new: SuperblockView| #[trigger] heal_begun(a, b, new);
        assert(superblock_chunk(new) == superblock_chunk(sb));
        law_superblock_decode_of_encode(new);
        law_superblock_decode_of_encode(sb);
        assert(roots_at(a.file@, sb) == a.roots());
    }
    if roots_at(a.file@, sb) is Ok {
        if sb.root_slot != NO_RECORD {
            assert(live(a.file@, sb.root_slot));
        }
        let rs = roots_at(a.file@, sb)->Ok_0;
        if ns_holds(a.file@, rs, ns, es) {
            lemma_ns_holds_survives(a.file@, t.file@, rs, ns, es);
        }
    }
}

/// Batches that are kept keep a log complete.
proof fn lemma_complete_kept(a: Image, b: Image, rs: Seq<RootView>, ns: Namespace, es: Seq<EntryView>)
    requires
        ns_holds(a, rs, ns, es),
        all_lead(a, is_log(rs, ns), es),
        ns_holds(b, rs, ns, es),
        forall|s: u64| #[trigger]
            live(a, s) && a[s as int]->0.kind == ChunkKind::DataBatch ==> live(b, s) && b[s as int]
                == a[s as int],
    ensures
        complete(b, rs, ns),
{
    if is_log(rs, ns) {
        assert forall|i: int| 0 <= i < es.len() implies leads(b, #[trigger] es[i]) by {
            assert(leads(a, es[i]));
            assert(live(a, slot_of_value(es[i].1)->Ok_0));
        }
    }
    assert(ns_holds(b, rs, ns, es) && all_lead(b, is_log(rs, ns), es));
}

/// A commit that fails leaves an intact space intact.
pub proof fn law_failed_commit_keeps_intact(a: Space, b: Space, e: Error)
    requires
        a.wf(),
        b.wf(),
        kept_by_commit(a, b),
        unpublished(a, b, e),
        intact(a),
    ensures
        intact(b),
{
    let rs = a.roots()->Ok_0;
    law_failed_commit_keeps_order(a, b, e);
    lemma_roots_extends(a, b);
    if a.state.superblock.root_slot != NO_RECORD {
        assert(live(a.file@, a.state.superblock.root_slot));
    }
    assert forall|m: u8| #[trigger] complete(b.file@, b.roots()->Ok_0, Namespace(m)) by {
        let ns = Namespace(m);
        assert(complete(a.file@, rs, ns));
        let es = choose|es: Seq<EntryView>| #[trigger]
            ns_holds(a.file@, rs, ns, es) && all_lead(a.file@, is_log(rs, ns), es);
        lemma_ns_holds_extends(a.file@, b.file@, rs, ns, es);
        lemma_complete_kept(a.file@, b.file@, rs, ns, es);
    }
}

/// Cleaning up orphans, however far it gets, leaves an intact space intact.
pub proof fn law_vacuum_keeps_intact(a: Space, b: Space)
    requires
        a.wf(),
        a.state.superblock.root_slot != NO_RECORD,
        tread_all(a).end is Ok,
        vacuumed(a, b, orphan_aim(a)) || half_vacuumed(a, b, orphan_aim(a)),
        intact(a),
    ensures
        intact(b),
{
    let rs = a.roots()->Ok_0;
    let aim = orphan_aim(a);
    let count = a.file.slots.len();
    assert(a.file@.len() == count);
    assert(partly_scrubbed(a.file@, b.file@, scrub_set(a, aim)));
    law_vacuum_keeps_order(a, b);
    assert forall|s: u64| #[trigger]
        live(a.file@, s) && a.file@[s as int]->0.kind == ChunkKind::DataBatch implies live(
        b.file@,
        s,
    ) && b.file@[s as int] == a.file@[s as int] by {
        assert(!scrub_set(a, aim).contains(s));
    }
    assert forall|m: u8| #[trigger] complete(b.file@, b.roots()->Ok_0, Namespace(m)) by {
        let ns = Namespace(m);
        assert(complete(a.file@, rs, ns));
        let es = choose|es: Seq<EntryView>| #[trigger]
            ns_holds(a.file@, rs, ns, es) && all_lead(a.file@, is_log(rs, ns), es);
        law_vacuum_keeps_contents(a, b, ns, es);
        lemma_complete_kept(a.file@, b.file@, rs, ns, es);
    }
    assert(ns_neat(a.file@, rs, Namespace(0)));
    let es = lemma_neat_holds(a, Namespace(0));
    law_vacuum_keeps_contents(a, b, Namespace(0), es);
}

/// The entries of the first logs of a space in order can be read.
proof fn lemma_logs_read(s: Space, n: int)
    requires
        s.wf(),
        orderly(s),
        roots_sorted(s.roots()->Ok_0),
        n <= s.roots()->Ok_0.len(),
    ensures
        log_entries(s, s.roots()->Ok_0, n) is Ok,
    decreases n,
{
    let rs = s.roots()->Ok_0;
    if n > 0 {
        lemma_logs_read(s, n - 1);
        let had = log_entries(s, rs, n - 1)->Ok_0;
        let r = rs[n - 1];
        let ns = r.namespace;
        lemma_root_at(rs, n - 1);
        assert(ns == Namespace(ns.0));
        assert(ns_neat(s.file@, rs, Namespace(ns.0)));
        let es = lemma_neat_holds(s, ns);
        law_shape_is_within_reach(s, ns);
        lemma_readable(s, ns, es);
        let h = choose|h: nat| #[trigger]
            tree(s.file@, ns, r.index_slot, r.payload_hash, h) && h <= s.walk_now().max_depth
                && tree_entries(s.file@, ns, r.index_slot, r.payload_hash, h) == es;
        let p = root_ptr(s.file@, ns, r.index_slot, r.payload_hash);
        lemma_fresh_open(s, ns, p, h);
        lemma_gather(s.file@, ns, everything(), p, h, 0, s.walk_now(), had);
    }
}

/// In a space in order, the entries of all logs can be read.
pub proof fn law_orderly_logs_are_read(s: Space)
    requires
        s.wf(),
        orderly(s),
        s.state.superblock.root_slot != NO_RECORD,
    ensures
        all_log_entries(s) is Ok,
{
    let rs = s.roots()->Ok_0;
    lemma_commit_decode_valid(s.file@[s.state.superblock.root_slot as int]->0.payload);
    lemma_logs_read(s, rs.len() as int);
}

/// Cleaning up batches, however far it gets, leaves an intact space intact.
pub proof fn law_batch_vacuum_keeps_intact(a: Space, b: Space)
    requires
        a.wf(),
        b.wf(),
        a.state.superblock.root_slot != NO_RECORD,
        vacuumed(a, b, batch_aim(a)) || half_vacuumed(a, b, batch_aim(a)),
        intact(a),
    ensures
        intact(b),
{
    let rs = a.roots()->Ok_0;
    law_orderly_logs_are_read(a);
    law_vacuum_keeps_order(a, b);
    let count = b.file.slots.len();
    assert(b.file@.len() == count);
    assert forall|m: u8| #[trigger] complete(b.file@, b.roots()->Ok_0, Namespace(m)) by {
        let ns = Namespace(m);
        assert(complete(a.file@, rs, ns));
        let es = choose|es: Seq<EntryView>| #[trigger]
            ns_holds(a.file@, rs, ns, es) && all_lead(a.file@, is_log(rs, ns), es);
        law_batch_vacuum_keeps_contents(a, b, ns, es);
        lemma_ns_holds_sorted(a.file@, rs, ns, es);
        if is_log(rs, ns) {
            assert(ns_neat(a.file@, rs, Namespace(m)));
            law_shape_is_within_reach(a, ns);
            assert forall|i: int| 0 <= i < es.len() implies leads(b.file@, #[trigger] es[i]) by {
                let (id, payload) = lemma_lead_keeps(a.file@, es, i);
                law_batch_vacuum_keeps_records(a, b, ns, es, id, payload);
                lemma_kept_leads(b.file@, es, i, id, payload);
            }
        }
        assert(ns_holds(b.file@, rs, ns, es) && all_lead(b.file@, is_log(rs, ns), es));
    }
    assert(ns_neat(a.file@, rs, Namespace(0)));
    let es = lemma_neat_holds(a, Namespace(0));
    law_batch_vacuum_keeps_contents(a, b, Namespace(0), es);
}

/// A new checkpoint leaves an intact space intact.
pub proof fn law_checkpoint_keeps_intact(a: Space, b: Space)
    requires
        kept_by_heal(a, b),
        healed(a, b) || b.state.superblock == a.state.superblock,
        intact(a),
    ensures
        intact(b),
{
    let rs = a.roots()->Ok_0;
    law_checkpoint_keeps_order(a, b);
    if a.state.superblock.root_slot != NO_RECORD {
        assert(live(a.file@, a.state.superblock.root_slot));
    }
    assert forall|m: u8| #[trigger] complete(b.file@, b.roots()->Ok_0, Namespace(m)) by {
        let ns = Namespace(m);
        assert(complete(a.file@, rs, ns));
        let es = choose|es: Seq<EntryView>| #[trigger]
            ns_holds(a.file@, rs, ns, es) && all_lead(a.file@, is_log(rs, ns), es);
        law_checkpoint_changes_nothing(a, b, ns, es);
        lemma_complete_kept(a.file@, b.file@, rs, ns, es);
    }
}

} // verus!
