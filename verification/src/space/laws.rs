//! What holds across calls: what is committed is read back, what fails or is
//! cleaned up changes nothing that is held, and seqs are never used twice.

use vstd::prelude::*;

use crate::bytes::{be_bytes, le_bytes, lemma_be_round_trip};
use crate::chunk::ChunkKind;
use crate::container::{extends, live, Image};
use crate::error::Error;
use crate::seqs::lemma_flat_same;
use crate::space::chain::{
    headed, healed, kept_by_heal, old_chain, owned_to_record, pool_to_record, records, survives,
};
use crate::space::commit::{
    batch_holds, changed, holds_kv_applied, holds_log_applied, kept_by_commit, key_of_record,
    kv_applied, log_applied, published, record_kept, unpublished,
};
use crate::space::cutting::{is_neat, lemma_is_neat_extends, ns_neat};
use crate::space::index::{lemma_lookup, lemma_lookup_at, lookup, ChildView, EntryView, Namespace};
use crate::space::lifecycle::{deletes, erasure, no_logs};
use crate::space::log::{last_with_id, law_batch_slot_value_round_trip};
use crate::space::log_iter::log_value;
use crate::space::model::{
    below, kids, leaf_groups, leaves, node_groups, shaped, lemma_ns_holds_extends,
    lemma_tree_unique, lemma_walkable_extends, level_entries, level_ok, level_slots, node_fits,
    ns_holds, root_ptr, tree, tree_entries, walkable,
};
use crate::space::reads::{everything, keys_of, range_of, value_of};
use crate::space::sound::{law_get, law_list, readable};
use crate::space::superblock::NO_RECORD;
use crate::space::tree::forked;
use crate::space::walk::lemma_depth_bound_grows;
use crate::space::vacuum::{half_vacuumed, lemma_scrub_set_owned, vacuumed, Aim};
use crate::space::{at_hand, root_of, Space};
use crate::tx::commit::RootView;
use crate::tx::pending::{
    last_op, pending_log_of, pending_of, PendingLogView, PendingView,
};

verus! {

/// The namespace's tree, if it has one, is sound and within the depth that
/// walks allow.
pub open spec fn within_reach(s: Space, ns: Namespace) -> bool {
    walkable(s.file@, s.roots()->Ok_0, ns, s.walk_now().max_depth as int)
}

/// The namespace holds these entries.
pub open spec fn holds(s: Space, ns: Namespace, es: Seq<EntryView>) -> bool {
    s.roots() is Ok && ns_holds(s.file@, s.roots()->Ok_0, ns, es)
}

/// What is held and within reach is readable.
pub proof fn lemma_readable(s: Space, ns: Namespace, es: Seq<EntryView>)
    requires
        holds(s, ns, es),
        within_reach(s, ns),
    ensures
        readable(s, ns, es),
{
    if let Some(r) = root_of(s.roots()->Ok_0, ns) {
        let img = s.file@;
        let g = choose|h: nat| #[trigger]
            tree(img, ns, r.index_slot, r.payload_hash, h) && tree_entries(
                img,
                ns,
                r.index_slot,
                r.payload_hash,
                h,
            ) == es;
        let h = choose|h: nat| #[trigger]
            tree(img, ns, r.index_slot, r.payload_hash, h) && h <= s.walk_now().max_depth;
        lemma_tree_unique(img, ns, r.index_slot, r.payload_hash, g, h);
    }
}

/// What `get` gives for a key.
pub open spec fn got(s: Space, ns: Namespace, key: Seq<u8>) -> Result<Option<Seq<u8>>, Error> {
    value_of(s.file@, s.state.superblock@, s.walk_now(), ns, key)
}

/// What `list` gives.
pub open spec fn listed(s: Space, ns: Namespace) -> Result<Seq<EntryView>, Error> {
    range_of(s.file@, s.state.superblock@, s.walk_now(), ns, everything())
}

/// A namespace that holds these entries is read so: `get` gives what is under
/// a key, `list` gives all.
pub proof fn law_held_is_read(s: Space, ns: Namespace, es: Seq<EntryView>, key: Seq<u8>)
    requires
        s.wf(),
        holds(s, ns, es),
        within_reach(s, ns),
    ensures
        got(s, ns, key) == Ok::<Option<Seq<u8>>, Error>(lookup(es, key)),
        listed(s, ns) == Ok::<Seq<EntryView>, Error>(es),
{
    lemma_readable(s, ns, es);
    law_get(s, ns, es, key);
    law_list(s, ns, es);
}

/// After a commit, `get` gives for every key of a namespace what the last
/// operation on it made of it; for keys without one, what was held before.
pub proof fn law_commit_then_get(
    a: Space,
    b: Space,
    kv: Seq<PendingView>,
    logs: Seq<PendingLogView>,
    seq: u64,
    m: u8,
    es: Seq<EntryView>,
    key: Seq<u8>,
)
    requires
        b.wf(),
        published(a, b, kv, logs, seq),
        holds(a, Namespace(m), es),
        pending_of(kv, m) is Some,
        pending_of(kv, m)->0.ops.len() > 0,
        within_reach(b, Namespace(m)),
    ensures
        got(b, Namespace(m), key) == Ok::<Option<Seq<u8>>, Error>(
            match last_op(pending_of(kv, m)->0.ops, key) {
                Some(v) => v,
                None => lookup(es, key),
            },
        ),
{
    let ns = Namespace(m);
    let ops = pending_of(kv, m)->0.ops;
    assert(changed(a.file@, b.file@, a.roots()->Ok_0, b.roots()->Ok_0, kv, logs, m));
    assert(holds_kv_applied(b.file@, b.roots()->Ok_0, ns, es, ops));
    let now = choose|now: Seq<EntryView>| #[trigger]
        ns_holds(b.file@, b.roots()->Ok_0, ns, now) && kv_applied(es, now, ops);
    law_held_is_read(b, ns, now, key);
}

/// A namespace that a commit does not touch holds what it held.
pub proof fn law_commit_keeps_others(
    a: Space,
    b: Space,
    kv: Seq<PendingView>,
    logs: Seq<PendingLogView>,
    seq: u64,
    m: u8,
    es: Seq<EntryView>,
)
    requires
        published(a, b, kv, logs, seq),
        kept_by_commit(a, b),
        holds(a, Namespace(m), es),
        pending_of(kv, m) is Some ==> pending_of(kv, m)->0.ops.len() == 0,
        pending_log_of(logs, m) is Some ==> pending_log_of(logs, m)->0.records.len() == 0,
    ensures
        holds(b, Namespace(m), es),
        root_of(b.roots()->Ok_0, Namespace(m)) == root_of(a.roots()->Ok_0, Namespace(m)),
{
    let ns = Namespace(m);
    assert(changed(a.file@, b.file@, a.roots()->Ok_0, b.roots()->Ok_0, kv, logs, m));
    lemma_ns_holds_extends(a.file@, b.file@, a.roots()->Ok_0, ns, es);
}

/// After a commit, `read_log` gives the last record appended under a number.
pub proof fn law_commit_then_read_log(
    a: Space,
    b: Space,
    kv: Seq<PendingView>,
    logs: Seq<PendingLogView>,
    seq: u64,
    m: u8,
    es: Seq<EntryView>,
    id: u64,
    payload: Seq<u8>,
)
    requires
        b.wf(),
        published(a, b, kv, logs, seq),
        holds(a, Namespace(m), es),
        pending_of(kv, m) is None,
        pending_log_of(logs, m) is Some,
        last_with_id(pending_log_of(logs, m)->0.records, id) == Some(payload),
        within_reach(b, Namespace(m)),
    ensures
        log_value(b.file@, b.state.superblock@, b.walk_now(), Namespace(m), id) == Ok::<
            Option<Seq<u8>>,
            Error,
        >(Some(payload)),
{
    let ns = Namespace(m);
    let recs = pending_log_of(logs, m)->0.records;
    assert(recs.len() > 0);
    assert(changed(a.file@, b.file@, a.roots()->Ok_0, b.roots()->Ok_0, kv, logs, m));
    assert(holds_log_applied(b.file@, b.roots()->Ok_0, ns, es, recs));
    let now = choose|now: Seq<EntryView>| #[trigger]
        ns_holds(b.file@, b.roots()->Ok_0, ns, now) && log_applied(b.file@, es, now, recs);
    let key = be_bytes(id as nat, 8);
    law_held_is_read(b, ns, now, key);
    assert(record_kept(b.file@, now, id, payload));
    let slot = choose|slot: u64| #[trigger]
        batch_holds(b.file@, slot, id, payload) && lookup(now, key) == Some(
            le_bytes(slot as nat, 8),
        );
    law_batch_slot_value_round_trip(slot, le_bytes(slot as nat, 8));
    if root_of(b.roots()->Ok_0, ns) is None {
        lemma_lookup(now, key);
    }
}

/// Records that were there before a commit, under other numbers, are still
/// read after it.
pub proof fn law_commit_keeps_records(
    a: Space,
    b: Space,
    kv: Seq<PendingView>,
    logs: Seq<PendingLogView>,
    seq: u64,
    m: u8,
    es: Seq<EntryView>,
    id: u64,
    payload: Seq<u8>,
)
    requires
        b.wf(),
        published(a, b, kv, logs, seq),
        kept_by_commit(a, b),
        holds(a, Namespace(m), es),
        pending_of(kv, m) is None,
        pending_log_of(logs, m) is Some,
        pending_log_of(logs, m)->0.records.len() > 0,
        last_with_id(pending_log_of(logs, m)->0.records, id) is None,
        record_kept(a.file@, es, id, payload),
        within_reach(b, Namespace(m)),
    ensures
        log_value(b.file@, b.state.superblock@, b.walk_now(), Namespace(m), id) == Ok::<
            Option<Seq<u8>>,
            Error,
        >(Some(payload)),
{
    let ns = Namespace(m);
    let recs = pending_log_of(logs, m)->0.records;
    assert(changed(a.file@, b.file@, a.roots()->Ok_0, b.roots()->Ok_0, kv, logs, m));
    assert(holds_log_applied(b.file@, b.roots()->Ok_0, ns, es, recs));
    let now = choose|now: Seq<EntryView>| #[trigger]
        ns_holds(b.file@, b.roots()->Ok_0, ns, now) && log_applied(b.file@, es, now, recs);
    let key = be_bytes(id as nat, 8);
    law_held_is_read(b, ns, now, key);
    assert(!key_of_record(recs, key)) by {
        if key_of_record(recs, key) {
            let other = choose|other: u64|
                key == be_bytes(other as nat, 8) && #[trigger] last_with_id(recs, other) is Some;
            lemma_be_round_trip(id);
            lemma_be_round_trip(other);
        }
    }
    let slot = choose|slot: u64| #[trigger]
        batch_holds(a.file@, slot, id, payload) && lookup(es, key) == Some(
            le_bytes(slot as nat, 8),
        );
    assert(live(a.file@, slot));
    assert(lookup(now, key) == lookup(es, key));
    law_batch_slot_value_round_trip(slot, le_bytes(slot as nat, 8));
    if root_of(b.roots()->Ok_0, ns) is None {
        lemma_lookup(now, key);
    }
}

/// A commit record that opens reads the same in a larger image.
pub proof fn lemma_roots_extends(a: Space, b: Space)
    requires
        a.roots() is Ok,
        extends(a.file@, b.file@),
        b.state.superblock == a.state.superblock,
    ensures
        b.roots() == a.roots(),
{
    let root = a.state.superblock.root_slot;
    if root != NO_RECORD {
        assert(live(a.file@, root));
    }
}

/// A commit that fails changes nothing that is held, whatever it wrote.
pub proof fn law_failed_commit_changes_nothing(
    a: Space,
    b: Space,
    e: Error,
    ns: Namespace,
    es: Seq<EntryView>,
    key: Seq<u8>,
)
    requires
        a.wf(),
        b.wf(),
        kept_by_commit(a, b),
        unpublished(a, b, e),
        holds(a, ns, es),
        within_reach(a, ns),
    ensures
        holds(b, ns, es),
        ns_neat(a.file@, a.roots()->Ok_0, ns) ==> ns_neat(b.file@, b.roots()->Ok_0, ns),
        b.state.superblock == a.state.superblock,
        got(b, ns, key) == got(a, ns, key),
        listed(b, ns) == listed(a, ns),
{
    lemma_roots_extends(a, b);
    lemma_ns_holds_extends(a.file@, b.file@, a.roots()->Ok_0, ns, es);
    lemma_reach_grows(a, b, ns);
    if let Some(r) = root_of(a.roots()->Ok_0, ns) {
        if ns_neat(a.file@, a.roots()->Ok_0, ns) {
            lemma_is_neat_extends(a.file@, b.file@, ns, r.index_slot, r.payload_hash);
        }
    }
    law_held_is_read(a, ns, es, key);
    law_held_is_read(b, ns, es, key);
}

/// What is within reach stays so while a space grows.
proof fn lemma_reach_grows(a: Space, b: Space, ns: Namespace)
    requires
        a.wf(),
        b.wf(),
        extends(a.file@, b.file@),
        a.state.owned_slots@.subset_of(b.state.owned_slots@),
        b.roots() == a.roots(),
        within_reach(a, ns),
    ensures
        within_reach(b, ns),
{
    vstd::set_lib::lemma_len_subset(a.state.owned_slots@, b.state.owned_slots@);
    lemma_depth_bound_grows(a.state.owned_slots.len, b.state.owned_slots.len);
    lemma_walkable_extends(
        a.file@,
        b.file@,
        a.roots()->Ok_0,
        ns,
        a.walk_now().max_depth as int,
    );
}

/// What is within reach stays so where a space has grown and the namespace has
/// the root it had.
pub proof fn lemma_walk_grows(a: Space, b: Space, ns: Namespace)
    requires
        a.wf(),
        b.wf(),
        extends(a.file@, b.file@),
        a.state.owned_slots@.subset_of(b.state.owned_slots@),
        root_of(b.roots()->Ok_0, ns) == root_of(a.roots()->Ok_0, ns),
        within_reach(a, ns),
    ensures
        within_reach(b, ns),
{
    vstd::set_lib::lemma_len_subset(a.state.owned_slots@, b.state.owned_slots@);
    lemma_depth_bound_grows(a.state.owned_slots.len, b.state.owned_slots.len);
    lemma_walkable_extends(
        a.file@,
        b.file@,
        a.roots()->Ok_0,
        ns,
        a.walk_now().max_depth as int,
    );
}

/// Each publish has a seq above all that were used or attempted before it,
/// and above all on record; it is recorded after them, and none is forgotten.
pub proof fn law_seqs_rise(
    a: Space,
    b: Space,
    kv: Seq<PendingView>,
    logs: Seq<PendingLogView>,
    seq: u64,
)
    requires
        a.wf(),
        published(a, b, kv, logs, seq),
    ensures
        seq > a.state.superblock.seq,
        seq > a.state.attempted_seq,
        forall|i: int|
            0 <= i < a.state.commit_history@.len() ==> #[trigger] a.state.commit_history@[i] < seq,
        b.state.superblock.seq == seq,
        b.state.commit_history@ == a.state.commit_history@.push(seq),
{
}

/// Erasing a namespace leaves nothing in it.
pub proof fn law_erase_empties(
    a: Space,
    b: Space,
    ns: Namespace,
    es: Seq<EntryView>,
    seq: u64,
)
    requires
        b.wf(),
        holds(a, ns, es),
        es.len() > 0,
        published(a, b, erasure(ns, keys_of(es)), no_logs(), seq),
    ensures
        holds(b, ns, Seq::<EntryView>::empty()),
        within_reach(b, ns) ==> listed(b, ns) == Ok::<Seq<EntryView>, Error>(
            Seq::<EntryView>::empty(),
        ),
{
    let kv = erasure(ns, keys_of(es));
    let m = ns.0;
    assert(ns == Namespace(m));
    assert(kv.last().ns == m);
    assert(pending_of(kv, m) == Some(kv[0]));
    let ops = deletes(keys_of(es));
    assert(changed(a.file@, b.file@, a.roots()->Ok_0, b.roots()->Ok_0, kv, no_logs(), m));
    assert(holds_kv_applied(b.file@, b.roots()->Ok_0, ns, es, ops));
    let now = choose|now: Seq<EntryView>| #[trigger]
        ns_holds(b.file@, b.roots()->Ok_0, ns, now) && kv_applied(es, now, ops);
    if now.len() > 0 {
        let key = now[0].0;
        lemma_lookup_at(now, 0);
        lemma_last_delete(keys_of(es), key);
        lemma_lookup(es, key);
        if last_op(ops, key) is None {
            let i = choose|i: int| 0 <= i < es.len() && #[trigger] es[i].0 == key;
            assert(keys_of(es)[i] == key);
        }
        assert(false);
    }
    assert(now =~= Seq::<EntryView>::empty());
    if within_reach(b, ns) {
        law_held_is_read(b, ns, now, Seq::<u8>::empty());
    }
}

/// Deletes delete.
proof fn lemma_last_delete(keys: Seq<Seq<u8>>, key: Seq<u8>)
    ensures
        match last_op(deletes(keys), key) {
            Some(v) => v is None,
            None => forall|i: int| 0 <= i < keys.len() ==> #[trigger] keys[i] != key,
        },
    decreases keys.len(),
{
    let ops = deletes(keys);
    if keys.len() > 0 {
        let init = keys.drop_last();
        assert(ops.drop_last() =~= deletes(init));
        lemma_last_delete(init, key);
        assert(ops.last().0 == keys.last());
        if ops.last().0 != key && last_op(deletes(init), key) is None {
            assert forall|i: int| 0 <= i < keys.len() implies #[trigger] keys[i] != key by {
                if i < init.len() {
                    assert(init[i] == keys[i]);
                }
            }
        }
    }
}

/// A new checkpoint changes nothing that is held.
pub proof fn law_checkpoint_changes_nothing(
    a: Space,
    b: Space,
    ns: Namespace,
    es: Seq<EntryView>,
)
    requires
        kept_by_heal(a, b),
        healed(a, b) || b.state.superblock == a.state.superblock,
        holds(a, ns, es),
    ensures
        b.roots() == a.roots(),
        holds(b, ns, es),
        ns_neat(a.file@, a.roots()->Ok_0, ns) ==> ns_neat(b.file@, b.roots()->Ok_0, ns),
{
    let root = a.state.superblock.root_slot;
    if root != NO_RECORD {
        assert(live(a.file@, root));
    }
    lemma_ns_holds_survives(a.file@, b.file@, a.roots()->Ok_0, ns, es);
}

/// What a namespace holds, it holds in any image in which all but links
/// survive.
pub proof fn lemma_ns_holds_survives(
    a: Image,
    b: Image,
    rs: Seq<RootView>,
    ns: Namespace,
    es: Seq<EntryView>,
)
    requires
        survives(a, b),
        ns_holds(a, rs, ns, es),
    ensures
        ns_holds(b, rs, ns, es),
        ns_neat(a, rs, ns) ==> ns_neat(b, rs, ns),
{
    if let Some(r) = root_of(rs, ns) {
        let h = choose|h: nat| #[trigger]
            tree(a, ns, r.index_slot, r.payload_hash, h) && tree_entries(
                a,
                ns,
                r.index_slot,
                r.payload_hash,
                h,
            ) == es;
        assert forall|s: u64|
            level_slots(
                a,
                ns,
                seq![root_ptr(a, ns, r.index_slot, r.payload_hash)],
                h,
            ).contains(s) implies live(b, s) && b[s as int] == a[s as int] by {
            lemma_slot_is_node(
                a,
                ns,
                seq![root_ptr(a, ns, r.index_slot, r.payload_hash)],
                h,
                s,
            );
        }
        lemma_tree_kept(a, b, ns, r.index_slot, r.payload_hash, h);
    }
}

/// Every slot of a sound level holds a node.
pub proof fn lemma_slot_is_node(
    img: Image,
    ns: Namespace,
    ps: Seq<ChildView>,
    h: nat,
    s: u64,
)
    requires
        level_ok(img, ns, ps, h),
        level_slots(img, ns, ps, h).contains(s),
    ensures
        live(img, s),
        img[s as int]->0.kind == ChunkKind::IndexNode,
    decreases h,
{
    let all = level_slots(img, ns, ps, h);
    let i = choose|i: int| 0 <= i < all.len() && all[i] == s;
    if i < ps.len() {
        assert(node_fits(img, ns, ps[i], h));
    } else {
        let low = below(img, ns, ps);
        let sub = level_slots(img, ns, low, (h - 1) as nat);
        assert(sub[i - ps.len()] == s);
        lemma_slot_is_node(img, ns, low, (h - 1) as nat, s);
    }
}

/// A tree all of whose slots are kept is kept.
pub proof fn lemma_tree_kept(
    a: Image,
    b: Image,
    ns: Namespace,
    slot: u64,
    hash: Seq<u8>,
    h: nat,
)
    requires
        tree(a, ns, slot, hash, h),
        forall|s: u64| #[trigger]
            level_slots(
                a,
                ns,
                seq![root_ptr(a, ns, slot, hash)],
                h,
            ).contains(s) ==> live(b, s) && b[s as int] == a[s as int],
    ensures
        tree(b, ns, slot, hash, h),
        tree_entries(b, ns, slot, hash, h) == tree_entries(a, ns, slot, hash, h),
        is_neat(a, ns, slot, hash) ==> is_neat(b, ns, slot, hash),
{
    let p = root_ptr(a, ns, slot, hash);
    let ps = seq![p];
    assert(ps[0] == p);
    assert(node_fits(a, ns, ps[0], h));
    let all = level_slots(a, ns, ps, h);
    assert(all[0] == slot);
    assert(all.contains(slot));
    assert(root_ptr(b, ns, slot, hash) == p);
    lemma_level_kept(a, b, ns, ps, h);
    if is_neat(a, ns, slot, hash) {
        let g = choose|g: nat| #[trigger]
            tree(a, ns, slot, hash, g) && shaped(a, ns, ps, g) && forked(a, ns, slot, hash, g);
        lemma_tree_unique(a, ns, slot, hash, g, h);
        assert(tree(b, ns, slot, hash, h));
    }
}

/// A level all of whose slots are kept is kept.
proof fn lemma_level_kept(
    a: Image,
    b: Image,
    ns: Namespace,
    ps: Seq<ChildView>,
    h: nat,
)
    requires
        level_ok(a, ns, ps, h),
        forall|s: u64| #[trigger]
            level_slots(a, ns, ps, h).contains(s) ==> live(b, s)
                && b[s as int] == a[s as int],
    ensures
        level_ok(b, ns, ps, h),
        level_entries(b, ns, ps, h) == level_entries(
            a,
            ns,
            ps,
            h,
        ),
        level_slots(b, ns, ps, h) == level_slots(
            a,
            ns,
            ps,
            h,
        ),
        h > 0 ==> below(b, ns, ps) == below(a, ns, ps),
        shaped(a, ns, ps, h) ==> shaped(b, ns, ps, h),
    decreases h,
{
    let all = level_slots(a, ns, ps, h);
    assert forall|i: int| 0 <= i < ps.len() implies node_fits(
        b,
        ns,
        #[trigger] ps[i],
        h,
    ) && kids(a, ns)(ps[i]) == kids(b, ns)(ps[i])
        && leaves(a, ns)(ps[i]) == leaves(b, ns)(
        ps[i],
    ) by {
        assert(node_fits(a, ns, ps[i], h));
        assert(all[i] == ps[i].child_slot);
        assert(all.contains(ps[i].child_slot));
    }
    lemma_flat_same(
        kids(a, ns),
        kids(b, ns),
        ps,
    );
    lemma_flat_same(
        leaves(a, ns),
        leaves(b, ns),
        ps,
    );
    if h > 0 {
        let low = below(a, ns, ps);
        let sub = level_slots(a, ns, low, (h - 1) as nat);
        assert forall|s: u64| #[trigger] sub.contains(s) implies live(b, s) && b[s as int]
            == a[s as int] by {
            let i = choose|i: int| 0 <= i < sub.len() && sub[i] == s;
            assert(all[ps.len() + i] == s);
            assert(all.contains(s));
        }
        lemma_level_kept(a, b, ns, low, (h - 1) as nat);
    }
    assert(leaf_groups(a, ns, ps) =~= leaf_groups(b, ns, ps));
    assert(node_groups(a, ns, ps) =~= node_groups(b, ns, ps));
}

// ---------------------------------------------------------------------------
// What is not this space's
// ---------------------------------------------------------------------------

/// A commit, whether it succeeds or fails, writes to no slot that is another's:
/// that is neither owned, nor free for reuse, nor past the end of the file. Nor
/// does the slot come to be owned or free.
pub proof fn law_commit_touches_nothing_of_others(a: Space, b: Space, slot: u64)
    requires
        kept_by_commit(a, b),
        !at_hand(a, slot),
    ensures
        b.file.written@.contains(slot) ==> a.file.written@.contains(slot),
        !at_hand(b, slot),
{
}

/// A commit, whether it succeeds or fails, writes over nothing that is owned.
pub proof fn law_commit_writes_over_nothing(a: Space, b: Space, slot: u64)
    requires
        a.wf(),
        kept_by_commit(a, b),
        a.state.owned_slots@.contains(slot),
    ensures
        b.file.written@.contains(slot) ==> a.file.written@.contains(slot),
{
}

/// Cleaning up, however far it gets, writes to no slot that is another's.
pub proof fn law_vacuum_touches_nothing_of_others(a: Space, b: Space, aim: Aim, slot: u64)
    requires
        a.wf(),
        vacuumed(a, b, aim) || half_vacuumed(a, b, aim),
        !at_hand(a, slot),
    ensures
        b.file.written@.contains(slot) ==> a.file.written@.contains(slot),
        !at_hand(b, slot),
{
    lemma_scrub_set_owned(a, aim);
    assert(b.file@.len() == a.file@.len());
}

/// Writing a checkpoint, whether it succeeds or fails, writes to no slot that
/// is another's.
pub proof fn law_checkpoint_touches_nothing_of_others(a: Space, b: Space, slot: u64)
    requires
        kept_by_heal(a, b),
        !at_hand(a, slot),
    ensures
        b.file.written@.contains(slot) ==> a.file.written@.contains(slot),
        !at_hand(b, slot),
{
}

/// A checkpoint covers what was in the file when it was written: every slot that
/// it records is below its mark, and of the slots below the mark none opens but
/// those that it records as owned. So what it leaves out is above the mark.
pub proof fn law_checkpoint_covers(a: Space, b: Space, slot: u64)
    requires
        a.wf(),
        b.wf(),
        kept_by_heal(a, b),
        healed(a, b),
    ensures
        headed(
            b.file@,
            b.state.superblock.checkpoint_slot,
            b.state.superblock.seq,
            a.file@.len() as u64,
        ),
        records(
            b.file@,
            b.state.superblock.checkpoint_slot,
            owned_to_record(a),
            pool_to_record(a),
        ),
        owned_to_record(a).contains(slot) || pool_to_record(a).contains(slot) ==> slot
            < a.file@.len(),
        live(b.file@, slot) && slot < a.file@.len() ==> owned_to_record(a).contains(slot),
{
    let count = a.file.slots.len();
    assert(a.file@.len() == count);
    let gone = old_chain(a, a.state.superblock.checkpoint_slot);
    if live(b.file@, slot) && slot < a.file@.len() {
        assert(b.state.owned_slots@.contains(slot));
        assert(at_hand(a, slot));
        if a.state.pool@.contains(slot) || gone.contains(slot) {
            assert(b.state.pool@.contains(slot));
        }
    }
}

} // verus!
