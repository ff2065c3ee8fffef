//! Vacuuming loses nothing that is held, leaves nothing that should be gone,
//! and finds nothing to do the second time.

use vstd::prelude::*;

use crate::bytes::{be_bytes, le_bytes};
use crate::chunk::ChunkKind;
use crate::container::{chunk_at, live, torn, Image};
use crate::error::Error;
use crate::space::commit::{batch_holds, record_kept};
use crate::space::index::{lemma_lookup, lookup, ChildView, EntryView, Namespace, NodeView};
use crate::space::cutting::ns_neat;
use crate::space::laws::{holds, lemma_slot_is_node, lemma_tree_kept, within_reach};
use crate::space::log::{law_batch_slot_value_round_trip, slot_of_value};
use crate::space::model::{
    kids, lemma_root_of, level_slots, node_fits, root_ptr, tree, tree_entries, forest,
};
use crate::space::reads::{everything, gather, gather_kids};
use crate::space::sound::{
    lemma_everything, lemma_forest_parts, lemma_fresh_open, lemma_gather, lemma_level_slots_apart,
    lemma_one, picks, cut, lemma_empty_level,
};
use crate::space::superblock::NO_RECORD;
use crate::space::vacuum::{
    all_log_entries, batch_aim, broke_off, fate, free_set, freed, half_vacuumed,
    lemma_scrub_set_owned, lemma_tread_kids_grows, lemma_tread_roots_grows, log_entries, orphan_aim,
    orphans_vacuumed, partly_scrubbed, past_all, points_at, scrub_set, swept, tread, tread_all,
    tread_kids, tread_roots, vacuum_refusal, vacuumed, Aim,
};
use crate::space::walk::{walk_refusal, walk_step, WalkView};
use crate::space::{any_node_at, node_at, root_of, Space};
use crate::tx::commit::{NamespaceKind, RootView};

verus! {

// ---------------------------------------------------------------------------
// What a walk reaches
// ---------------------------------------------------------------------------

/// A walk that gets through a sound tree goes to all of its slots.
proof fn lemma_tread_visits(
    img: Image,
    ns: Namespace,
    p: ChildView,
    h: nat,
    depth: int,
    w: WalkView,
    cap: int,
    s: u64,
)
    requires
        forest(img, ns, seq![p], h),
        tread(img, p.child_slot, depth, w, cap).end is Ok,
        level_slots(img, ns, seq![p], h).contains(s),
    ensures
        tread(img, p.child_slot, depth, w, cap).w.visited.contains(s),
    decreases h, 0int,
{
    lemma_one(img, ns, p, h);
    let all = level_slots(img, ns, seq![p], h);
    let w1 = walk_step(w, p.child_slot);
    assert(node_fits(img, ns, p, h));
    if h == 0 {
        let i = choose|i: int| 0 <= i < all.len() && all[i] == s;
        assert(i == 0);
        assert(all[0] == p.child_slot) by {
            let j = choose|j: int| 0 <= j < all.len() && all[j] == p.child_slot;
        }
    } else {
        let k = (h - 1) as nat;
        let cs = kids(img, ns)(p);
        assert(cs.skip(0) =~= cs);
        if s == p.child_slot {
            lemma_tread_kids_grows(img, cs, 0, depth + 1, w1, cap);
            assert(w1.visited.contains(s));
        } else {
            assert(level_slots(img, ns, cs, k).contains(s)) by {
                let i = choose|i: int| 0 <= i < all.len() && all[i] == s;
                crate::seqs::lemma_flat_one(kids(img, ns), p);
                assert(crate::space::model::slots_of(seq![p]) =~= seq![p.child_slot]);
                let sub = level_slots(img, ns, cs, k);
                assert(all == seq![p.child_slot] + sub);
                assert(i > 0);
                assert(sub[i - 1] == s);
            }
            lemma_tread_kids_visits(img, ns, cs, 0, k, depth + 1, w1, cap, s);
        }
    }
}

proof fn lemma_tread_kids_visits(
    img: Image,
    ns: Namespace,
    cs: Seq<ChildView>,
    i: int,
    h: nat,
    depth: int,
    w: WalkView,
    cap: int,
    s: u64,
)
    requires
        0 <= i <= cs.len(),
        forest(img, ns, cs.skip(i), h),
        tread_kids(img, cs, i, depth, w, cap).end is Ok,
        level_slots(img, ns, cs.skip(i), h).contains(s),
    ensures
        tread_kids(img, cs, i, depth, w, cap).w.visited.contains(s),
    decreases h, cs.len() - i + 1,
{
    let ps = cs.skip(i);
    if i >= cs.len() {
        assert(ps =~= Seq::<ChildView>::empty());
        lemma_empty_level(img, ns, h);
    } else {
        let c = cs[i];
        let r = cs.skip(i + 1);
        assert(ps =~= seq![c] + r);
        lemma_forest_parts(img, ns, seq![c], r, h);
        lemma_level_slots_apart(img, ns, seq![c], r, h);
        let t = tread(img, c.child_slot, depth, w, cap);
        assert(level_slots(img, ns, seq![c] + r, h).contains(s));
        if level_slots(img, ns, seq![c], h).contains(s) {
            lemma_tread_visits(img, ns, c, h, depth, w, cap, s);
            lemma_tread_kids_grows(img, cs, i + 1, depth, t.w, cap);
        } else {
            lemma_tread_kids_visits(img, ns, cs, i + 1, h, depth, t.w, cap, s);
        }
    }
}

/// A walk over all roots goes to all slots of each of their sound trees.
proof fn lemma_tread_roots_visits(
    img: Image,
    rs: Seq<RootView>,
    i: int,
    w: WalkView,
    m: int,
    h: nat,
    s: u64,
)
    requires
        0 <= i <= m < rs.len(),
        tread_roots(img, rs, i, w).end is Ok,
        tree(img, rs[m].namespace, rs[m].index_slot, rs[m].payload_hash, h),
        level_slots(
            img,
            rs[m].namespace,
            seq![root_ptr(img, rs[m].namespace, rs[m].index_slot, rs[m].payload_hash)],
            h,
        ).contains(s),
    ensures
        tread_roots(img, rs, i, w).w.visited.contains(s),
    decreases rs.len() - i,
{
    let cap = w.max_depth as int;
    let t = tread(img, rs[i].index_slot, 0, w, cap);
    if i == m {
        let p = root_ptr(img, rs[m].namespace, rs[m].index_slot, rs[m].payload_hash);
        lemma_tread_visits(img, rs[m].namespace, p, h, 0, w, cap, s);
        lemma_tread_roots_grows(img, rs, i + 1, t.w);
    } else {
        lemma_tread_roots_visits(img, rs, i + 1, t.w, m, h, s);
    }
}

/// What is spared is not overwritten.
proof fn lemma_spared(a: Space, aim: Aim, s: u64)
    requires
        aim.spared.contains(s),
        live(a.file@, s),
    ensures
        !scrub_set(a, aim).contains(s),
{
}

/// Cleaning up orphans, however far it gets, loses nothing that is held.
pub proof fn law_vacuum_keeps_contents(
    a: Space,
    b: Space,
    ns: Namespace,
    es: Seq<EntryView>,
)
    requires
        a.wf(),
        a.state.superblock.root_slot != NO_RECORD,
        tread_all(a).end is Ok,
        vacuumed(a, b, orphan_aim(a)) || half_vacuumed(a, b, orphan_aim(a)),
        holds(a, ns, es),
    ensures
        b.roots() == a.roots(),
        holds(b, ns, es),
        ns_neat(a.file@, a.roots()->Ok_0, ns) ==> ns_neat(b.file@, b.roots()->Ok_0, ns),
        chunk_at(b.file@, b.state.superblock.root_slot) == chunk_at(
            a.file@,
            a.state.superblock.root_slot,
        ),
{
    let aim = orphan_aim(a);
    let img = a.file@;
    let rs = a.roots()->Ok_0;
    let root = a.state.superblock.root_slot;
    let w1 = walk_step(a.walk_now(), root);
    let count = a.file.slots.len();
    assert(img.len() == count);
    assert(partly_scrubbed(img, b.file@, scrub_set(a, aim)));
    lemma_tread_roots_grows(img, rs, 0, w1);
    assert(w1.visited.contains(root));
    assert(live(img, root));
    lemma_spared(a, aim, root);
    assert(b.file@[root as int] == img[root as int]);
    assert(b.roots() == a.roots());
    if let Some(r) = root_of(rs, ns) {
        lemma_root_of(rs, ns);
        let m = choose|m: int| 0 <= m < rs.len() && #[trigger] rs[m] == r;
        assert(r.namespace == ns);
        let h = choose|h: nat| #[trigger]
            tree(img, ns, r.index_slot, r.payload_hash, h) && tree_entries(
                img,
                ns,
                r.index_slot,
                r.payload_hash,
                h,
            ) == es;
        let p = root_ptr(img, ns, r.index_slot, r.payload_hash);
        assert forall|s: u64| #[trigger]
            level_slots(img, ns, seq![p], h).contains(s) implies live(b.file@, s)
            && b.file@[s as int] == img[s as int] by {
            lemma_slot_is_node(img, ns, seq![p], h, s);
            lemma_tread_roots_visits(img, rs, 0, w1, m, h, s);
            lemma_spared(a, aim, s);
            assert(b.file@[s as int] == img[s as int]);
        }
        lemma_tree_kept(img, b.file@, ns, r.index_slot, r.payload_hash, h);
    }
}

/// Cleaning up batches, however far it gets, loses no tree.
pub proof fn law_batch_vacuum_keeps_contents(
    a: Space,
    b: Space,
    ns: Namespace,
    es: Seq<EntryView>,
)
    requires
        a.wf(),
        a.state.superblock.root_slot != NO_RECORD,
        vacuumed(a, b, batch_aim(a)) || half_vacuumed(a, b, batch_aim(a)),
        holds(a, ns, es),
    ensures
        b.roots() == a.roots(),
        holds(b, ns, es),
        ns_neat(a.file@, a.roots()->Ok_0, ns) ==> ns_neat(b.file@, b.roots()->Ok_0, ns),
        chunk_at(b.file@, b.state.superblock.root_slot) == chunk_at(
            a.file@,
            a.state.superblock.root_slot,
        ),
{
    let aim = batch_aim(a);
    let img = a.file@;
    let rs = a.roots()->Ok_0;
    let root = a.state.superblock.root_slot;
    let count = a.file.slots.len();
    assert(img.len() == count);
    assert(partly_scrubbed(img, b.file@, scrub_set(a, aim)));
    assert forall|s: u64|
        live(img, s) && img[s as int]->0.kind != ChunkKind::DataBatch implies live(b.file@, s)
        && #[trigger] b.file@[s as int] == img[s as int] by {
        lemma_only_batches(a, s);
    }
    assert(live(img, root));
    assert(b.file@[root as int] == img[root as int]);
    if let Some(r) = root_of(rs, ns) {
        let h = choose|h: nat| #[trigger]
            tree(img, ns, r.index_slot, r.payload_hash, h) && tree_entries(
                img,
                ns,
                r.index_slot,
                r.payload_hash,
                h,
            ) == es;
        let p = root_ptr(img, ns, r.index_slot, r.payload_hash);
        assert forall|s: u64| #[trigger]
            level_slots(img, ns, seq![p], h).contains(s) implies live(b.file@, s)
            && b.file@[s as int] == img[s as int] by {
            lemma_slot_is_node(img, ns, seq![p], h, s);
        }
        lemma_tree_kept(img, b.file@, ns, r.index_slot, r.payload_hash, h);
    }
}

/// Only batches are overwritten when batches are cleaned up.
proof fn lemma_only_batches(a: Space, s: u64)
    ensures
        scrub_set(a, batch_aim(a)).contains(s) ==> a.file@[s as int] is Some
            && a.file@[s as int]->0.kind == ChunkKind::DataBatch && !batch_aim(
            a,
        ).spared.contains(s),
{
}

// ---------------------------------------------------------------------------
// Records behind log entries
// ---------------------------------------------------------------------------

/// What has been read stays at the front.
proof fn lemma_gather_prefix(
    img: Image,
    ns: Namespace,
    slot: u64,
    depth: int,
    w: WalkView,
    out: Seq<EntryView>,
    cap: int,
)
    ensures
        out.len() <= gather(img, ns, everything(), slot, depth, w, out, cap).out.len(),
        gather(img, ns, everything(), slot, depth, w, out, cap).out.take(out.len() as int) == out,
    decreases cap - depth + 1, 0int,
{
    assert(out.take(out.len() as int) =~= out);
    if walk_refusal(w, slot, depth) is None && depth <= cap {
        match node_at(img, slot, ns) {
            Err(_) => {},
            Ok(NodeView::Leaf(l)) => {
                crate::space::stats::lemma_scan_everything(
                    l.entries,
                    0,
                    walk_step(w, slot),
                    out,
                );
                assert((out + l.entries.skip(0)).take(out.len() as int) =~= out);
            },
            Ok(NodeView::Internal(n)) => {
                lemma_gather_kids_prefix(
                    img,
                    ns,
                    n.children,
                    0,
                    depth + 1,
                    walk_step(w, slot),
                    out,
                    cap,
                );
            },
        }
    }
}

proof fn lemma_gather_kids_prefix(
    img: Image,
    ns: Namespace,
    cs: Seq<ChildView>,
    i: int,
    depth: int,
    w: WalkView,
    out: Seq<EntryView>,
    cap: int,
)
    ensures
        out.len() <= gather_kids(img, ns, everything(), cs, i, depth, w, out, cap).out.len(),
        gather_kids(img, ns, everything(), cs, i, depth, w, out, cap).out.take(out.len() as int)
            == out,
    decreases cap - depth + 1, cs.len() - i + 1,
{
    assert(out.take(out.len() as int) =~= out);
    if 0 <= i < cs.len() {
        let g = gather(img, ns, everything(), cs[i].child_slot, depth, w, out, cap);
        lemma_gather_prefix(img, ns, cs[i].child_slot, depth, w, out, cap);
        if g.end == Ok::<bool, Error>(false) {
            lemma_gather_kids_prefix(img, ns, cs, i + 1, depth, g.w, g.out, cap);
            let z = gather_kids(img, ns, everything(), cs, i + 1, depth, g.w, g.out, cap).out;
            assert(z.take(out.len() as int) =~= z.take(g.out.len() as int).take(out.len() as int));
        }
    }
}

/// Slots that entries point at are still pointed at when more entries are
/// read.
pub proof fn lemma_log_entries_prefix(s: Space, rs: Seq<RootView>, m: int, n: int, x: u64)
    requires
        0 <= m <= n,
        log_entries(s, rs, n) is Ok,
        log_entries(s, rs, m) is Ok,
        points_at(log_entries(s, rs, m)->Ok_0, x),
    ensures
        points_at(log_entries(s, rs, n)->Ok_0, x),
    decreases n - m,
{
    if m < n {
        lemma_log_entries_prefix(s, rs, m, n - 1, x);
        let es = log_entries(s, rs, n - 1)->Ok_0;
        if rs[n - 1].kind == NamespaceKind::Log {
            lemma_gather_prefix(
                s.file@,
                rs[n - 1].namespace,
                rs[n - 1].index_slot,
                0,
                s.walk_now(),
                es,
                s.walk_now().max_depth as int,
            );
            let now = log_entries(s, rs, n)->Ok_0;
            let i = choose|i: int|
                0 <= i < es.len() && slot_of_value((#[trigger] es[i]).1) == Ok::<u64, Error>(x);
            assert(now.take(es.len() as int)[i] == now[i]);
            assert(now[i] == es[i]);
        }
    }
}

/// A failure among the first roots is a failure of all.
pub proof fn lemma_log_entries_ok(s: Space, rs: Seq<RootView>, m: int, n: int)
    requires
        0 <= m <= n,
        log_entries(s, rs, n) is Ok,
    ensures
        log_entries(s, rs, m) is Ok,
    decreases n - m,
{
    if m < n {
        lemma_log_entries_ok(s, rs, m, n - 1);
    }
}

/// Cleaning up batches, however far it gets, loses no record that a log
/// leads to.
pub proof fn law_batch_vacuum_keeps_records(
    a: Space,
    b: Space,
    ns: Namespace,
    es: Seq<EntryView>,
    id: u64,
    payload: Seq<u8>,
)
    requires
        a.wf(),
        a.state.superblock.root_slot != NO_RECORD,
        all_log_entries(a) is Ok,
        vacuumed(a, b, batch_aim(a)) || half_vacuumed(a, b, batch_aim(a)),
        holds(a, ns, es),
        within_reach(a, ns),
        root_of(a.roots()->Ok_0, ns) is Some,
        root_of(a.roots()->Ok_0, ns)->0.kind == NamespaceKind::Log,
        record_kept(a.file@, es, id, payload),
    ensures
        record_kept(b.file@, es, id, payload),
{
    let aim = batch_aim(a);
    let img = a.file@;
    let rs = a.roots()->Ok_0;
    let r = root_of(rs, ns)->0;
    lemma_root_of(rs, ns);
    let m = choose|m: int| 0 <= m < rs.len() && #[trigger] rs[m] == r;
    let key = be_bytes(id as nat, 8);
    let slot = choose|slot: u64| #[trigger]
        batch_holds(img, slot, id, payload) && lookup(es, key) == Some(le_bytes(slot as nat, 8));
    law_batch_slot_value_round_trip(slot, le_bytes(slot as nat, 8));
    lemma_log_entries_ok(a, rs, m, rs.len() as int);
    lemma_log_entries_ok(a, rs, m + 1, rs.len() as int);
    let had = log_entries(a, rs, m)->Ok_0;
    let now = log_entries(a, rs, m + 1)->Ok_0;
    crate::space::laws::lemma_readable(a, ns, es);
    let h = choose|h: nat| #[trigger]
        tree(img, ns, r.index_slot, r.payload_hash, h) && h <= a.walk_now().max_depth
            && tree_entries(img, ns, r.index_slot, r.payload_hash, h) == es;
    let p = root_ptr(img, ns, r.index_slot, r.payload_hash);
    lemma_fresh_open(a, ns, p, h);
    lemma_gather(img, ns, everything(), p, h, 0, a.walk_now(), had);
    lemma_everything(es);
    assert(cut(everything(), had.len(), picks(everything(), es)) == es);
    assert(now == had + es);
    lemma_lookup(es, key);
    let i = choose|i: int| 0 <= i < es.len() && #[trigger] es[i] == (key, le_bytes(slot as nat, 8));
    assert(now[had.len() + i] == es[i]);
    assert(points_at(now, slot));
    lemma_log_entries_prefix(a, rs, m + 1, rs.len() as int, slot);
    assert(aim.spared.contains(slot));
    let count = a.file.slots.len();
    assert(img.len() == count);
    assert(partly_scrubbed(img, b.file@, scrub_set(a, aim)));
    lemma_only_batches(a, slot);
    assert(b.file@[slot as int] == img[slot as int]);
    assert(batch_holds(b.file@, slot, id, payload) && lookup(es, key) == Some(
        le_bytes(slot as nat, 8),
    ));
}

// ---------------------------------------------------------------------------
// A second time
// ---------------------------------------------------------------------------

/// After orphans are cleaned up, no node opens but those that the current
/// superblock leads to.
pub proof fn law_vacuum_leaves_no_orphan(a: Space, b: Space, s: u64)
    requires
        a.wf(),
        vacuumed(a, b, orphan_aim(a)),
        live(b.file@, s),
        b.file@[s as int]->0.kind == ChunkKind::IndexNode,
    ensures
        tread_all(a).w.visited.contains(s),
{
    let aim = orphan_aim(a);
    assert(!scrub_set(a, aim).contains(s));
    assert(live(a.file@, s));
    assert(a.state.owned_slots@.contains(s));
    assert(!swept(a.file@, a.state.owned_slots@, aim, past_all()).contains(s));
}

/// After batches are cleaned up, no batch opens but those that log entries
/// point at.
pub proof fn law_batch_vacuum_leaves_no_orphan(a: Space, b: Space, s: u64)
    requires
        a.wf(),
        vacuumed(a, b, batch_aim(a)),
        live(b.file@, s),
        b.file@[s as int]->0.kind == ChunkKind::DataBatch,
    ensures
        points_at(all_log_entries(a)->Ok_0, s),
{
    let aim = batch_aim(a);
    assert(!scrub_set(a, aim).contains(s));
    assert(live(a.file@, s));
    assert(a.state.owned_slots@.contains(s));
    assert(!swept(a.file@, a.state.owned_slots@, aim, past_all()).contains(s));
}

/// The image is the same in all of these slots.
pub open spec fn same_in(a: Image, b: Image, set: Set<u64>) -> bool {
    forall|s: u64| #[trigger] set.contains(s) ==> chunk_at(a, s) == chunk_at(b, s)
}

/// Two walks that get through go to the same slots.
proof fn lemma_tread_same(
    a: Image,
    b: Image,
    slot: u64,
    depth: int,
    wa: WalkView,
    wb: WalkView,
    ca: int,
    cb: int,
)
    requires
        tread(a, slot, depth, wa, ca).end is Ok,
        tread(b, slot, depth, wb, cb).end is Ok,
        wa.visited == wb.visited,
        same_in(a, b, tread(a, slot, depth, wa, ca).w.visited),
    ensures
        tread(b, slot, depth, wb, cb).w.visited == tread(a, slot, depth, wa, ca).w.visited,
    decreases ca - depth + 1, 0int,
{
    let w1 = walk_step(wa, slot);
    let w2 = walk_step(wb, slot);
    match any_node_at(a, slot) {
        Ok(NodeView::Internal(n)) => {
            lemma_tread_kids_grows(a, n.children, 0, depth + 1, w1, ca);
            assert(w1.visited.contains(slot));
            assert(chunk_at(a, slot) == chunk_at(b, slot));
            lemma_tread_kids_same(a, b, n.children, 0, depth + 1, w1, w2, ca, cb);
        },
        _ => {
            assert(w1.visited.contains(slot));
            assert(chunk_at(a, slot) == chunk_at(b, slot));
        },
    }
}

proof fn lemma_tread_kids_same(
    a: Image,
    b: Image,
    cs: Seq<ChildView>,
    i: int,
    depth: int,
    wa: WalkView,
    wb: WalkView,
    ca: int,
    cb: int,
)
    requires
        tread_kids(a, cs, i, depth, wa, ca).end is Ok,
        tread_kids(b, cs, i, depth, wb, cb).end is Ok,
        wa.visited == wb.visited,
        same_in(a, b, tread_kids(a, cs, i, depth, wa, ca).w.visited),
    ensures
        tread_kids(b, cs, i, depth, wb, cb).w.visited == tread_kids(
            a,
            cs,
            i,
            depth,
            wa,
            ca,
        ).w.visited,
    decreases ca - depth + 1, cs.len() - i + 1,
{
    if 0 <= i < cs.len() {
        let ta = tread(a, cs[i].child_slot, depth, wa, ca);
        let tb = tread(b, cs[i].child_slot, depth, wb, cb);
        lemma_tread_kids_grows(a, cs, i + 1, depth, ta.w, ca);
        assert(same_in(a, b, ta.w.visited)) by {
            assert forall|s: u64| #[trigger] ta.w.visited.contains(s) implies chunk_at(a, s)
                == chunk_at(b, s) by {
                assert(tread_kids(a, cs, i, depth, wa, ca).w.visited.contains(s));
            }
        }
        lemma_tread_same(a, b, cs[i].child_slot, depth, wa, wb, ca, cb);
        lemma_tread_kids_same(a, b, cs, i + 1, depth, ta.w, tb.w, ca, cb);
    }
}

proof fn lemma_tread_roots_same(
    a: Image,
    b: Image,
    rs: Seq<RootView>,
    i: int,
    wa: WalkView,
    wb: WalkView,
)
    requires
        tread_roots(a, rs, i, wa).end is Ok,
        tread_roots(b, rs, i, wb).end is Ok,
        wa.visited == wb.visited,
        same_in(a, b, tread_roots(a, rs, i, wa).w.visited),
    ensures
        tread_roots(b, rs, i, wb).w.visited == tread_roots(a, rs, i, wa).w.visited,
    decreases rs.len() - i,
{
    if 0 <= i < rs.len() {
        let ca = wa.max_depth as int;
        let cb = wb.max_depth as int;
        let ta = tread(a, rs[i].index_slot, 0, wa, ca);
        let tb = tread(b, rs[i].index_slot, 0, wb, cb);
        lemma_tread_roots_grows(a, rs, i + 1, ta.w);
        assert(same_in(a, b, ta.w.visited)) by {
            assert forall|s: u64| #[trigger] ta.w.visited.contains(s) implies chunk_at(a, s)
                == chunk_at(b, s) by {
                assert(tread_roots(a, rs, i, wa).w.visited.contains(s));
            }
        }
        lemma_tread_same(a, b, rs[i].index_slot, 0, wa, wb, ca, cb);
        lemma_tread_roots_same(a, b, rs, i + 1, ta.w, tb.w);
    }
}

/// A slot that a walk has gone to, and had not before, holds a node.
proof fn lemma_tread_nodes(img: Image, slot: u64, depth: int, w: WalkView, cap: int, s: u64)
    requires
        tread(img, slot, depth, w, cap).end is Ok,
        tread(img, slot, depth, w, cap).w.visited.contains(s),
        !w.visited.contains(s),
    ensures
        live(img, s),
        img[s as int]->0.kind == ChunkKind::IndexNode,
    decreases cap - depth + 1, 0int,
{
    if s != slot {
        if let Ok(NodeView::Internal(n)) = any_node_at(img, slot) {
            lemma_tread_kids_nodes(img, n.children, 0, depth + 1, walk_step(w, slot), cap, s);
        }
    }
}

proof fn lemma_tread_kids_nodes(
    img: Image,
    cs: Seq<ChildView>,
    i: int,
    depth: int,
    w: WalkView,
    cap: int,
    s: u64,
)
    requires
        tread_kids(img, cs, i, depth, w, cap).end is Ok,
        tread_kids(img, cs, i, depth, w, cap).w.visited.contains(s),
        !w.visited.contains(s),
    ensures
        live(img, s),
        img[s as int]->0.kind == ChunkKind::IndexNode,
    decreases cap - depth + 1, cs.len() - i + 1,
{
    if 0 <= i < cs.len() {
        let t = tread(img, cs[i].child_slot, depth, w, cap);
        if t.w.visited.contains(s) {
            lemma_tread_nodes(img, cs[i].child_slot, depth, w, cap, s);
        } else {
            lemma_tread_kids_nodes(img, cs, i + 1, depth, t.w, cap, s);
        }
    }
}

pub proof fn lemma_tread_roots_nodes(img: Image, rs: Seq<RootView>, i: int, w: WalkView, s: u64)
    requires
        tread_roots(img, rs, i, w).end is Ok,
        tread_roots(img, rs, i, w).w.visited.contains(s),
        !w.visited.contains(s),
    ensures
        live(img, s),
        img[s as int]->0.kind == ChunkKind::IndexNode,
    decreases rs.len() - i,
{
    if 0 <= i < rs.len() {
        let t = tread(img, rs[i].index_slot, 0, w, w.max_depth as int);
        if t.w.visited.contains(s) {
            lemma_tread_nodes(img, rs[i].index_slot, 0, w, w.max_depth as int, s);
        } else {
            lemma_tread_roots_nodes(img, rs, i + 1, t.w, s);
        }
    }
}

/// Cleaning up orphans a second time, with no commit in between, finds
/// nothing to do.
pub proof fn law_vacuum_twice(a: Space, b: Space)
    requires
        a.wf(),
        b.wf(),
        a.state.superblock.root_slot != NO_RECORD,
        tread_all(a).end is Ok,
        tread_all(b).end is Ok,
        vacuumed(a, b, orphan_aim(a)),
    ensures
        scrub_set(b, orphan_aim(b)) == Set::<u64>::empty(),
        free_set(b, orphan_aim(b)) == Set::<u64>::empty(),
{
    let ia = a.file@;
    let ib = b.file@;
    let aim = orphan_aim(a);
    let root = a.state.superblock.root_slot;
    let rs = a.roots()->Ok_0;
    let wa = walk_step(a.walk_now(), root);
    let wb = walk_step(b.walk_now(), root);
    let seen = tread_all(a).w.visited;
    let count = a.file.slots.len();
    assert(ia.len() == count);
    lemma_tread_roots_grows(ia, rs, 0, wa);
    assert(wa.visited.contains(root));
    assert(live(ia, root));
    assert forall|s: u64| #[trigger] seen.contains(s) implies chunk_at(ia, s) == chunk_at(ib, s) by {
        if s != root {
            lemma_tread_roots_nodes(ia, rs, 0, wa, s);
        }
        lemma_spared(a, aim, s);
        assert(ib[s as int] == ia[s as int]);
    }
    assert(same_in(ia, ib, seen));
    assert(chunk_at(ia, root) == chunk_at(ib, root));
    assert(b.roots() == a.roots());
    assert(wa.visited =~= wb.visited);
    lemma_tread_roots_same(ia, ib, rs, 0, wa, wb);
    let aim2 = orphan_aim(b);
    assert(aim2.spared == aim.spared);
    let owned = a.state.owned_slots@;
    let owned2 = b.state.owned_slots@;
    lemma_scrub_set_owned(b, aim2);
    lemma_scrub_set_owned(a, aim);
    // What is still owned was not freed.
    assert forall|s: u64| #[trigger] owned2.contains(s) implies fate(ib, aim2, s) is Keep by {
        assert(owned.contains(s));
        assert(!free_set(a, aim).contains(s));
        assert(!freed(ia, owned, aim, past_all()).contains(s));
        assert(fate(ia, aim, s) is Keep);
        assert(!scrub_set(a, aim).contains(s));
        assert(ib[s as int] == ia[s as int]);
    }
    assert(freed(ib, owned2, aim2, past_all()) =~= Set::<u64>::empty());
    assert(swept(ib, owned2, aim2, past_all()) =~= Set::<u64>::empty());
    assert(scrub_set(b, aim2) =~= Set::<u64>::empty());
    assert(free_set(b, aim2) =~= Set::<u64>::empty());
}

/// What opens after cleaning up is what opened before.
pub proof fn lemma_live_is_kept(a: Space, b: Space, slot: u64)
    requires
        ({
            ||| vacuumed(a, b, batch_aim(a)) || half_vacuumed(a, b, batch_aim(a))
            ||| vacuumed(a, b, orphan_aim(a)) || half_vacuumed(a, b, orphan_aim(a))
        }),
        live(b.file@, slot),
    ensures
        live(a.file@, slot),
        b.file@[slot as int] == a.file@[slot as int],
{
}

/// However far cleaning up gets, and if the device loses power after that: some
/// of what the sweep is after is noise, and everything else is as it was.
pub proof fn law_torn_vacuum(a: Space, b: Space, aim: Aim, c: Image)
    requires
        a.file.durable@ == a.file@,
        vacuumed(a, b, aim) || half_vacuumed(a, b, aim),
        torn(b.file, c),
    ensures
        partly_scrubbed(a.file@, c, scrub_set(a, aim)),
{
    let gone = scrub_set(a, aim);
    let count = a.file.slots.len();
    assert(a.file@.len() == count);
    assert(partly_scrubbed(a.file@, b.file@, gone));
    assert forall|s: u64| s < a.file@.len() implies (#[trigger] c[s as int]) == a.file@[s as int]
        || (gone.contains(s) && c[s as int] is None) by {
        assert(b.file@[s as int] == a.file@[s as int] || gone.contains(s));
        assert(b.file.durable@[s as int] == a.file@[s as int] || b.file.durable@[s as int]
            == b.file@[s as int]);
    }
}

/// Two sweeps that broke off after as many writes broke off at the same place.
proof fn lemma_broke_off(a: Space, b: Space, c: Space, aim: Aim)
    requires
        a.wf(),
        half_vacuumed(a, b, aim),
        half_vacuumed(a, c, aim),
    ensures
        b.file@ == c.file@,
{
    let m = choose|mark: int| #[trigger] broke_off(a, b, aim, mark);
    let n = choose|mark: int| #[trigger] broke_off(a, c, aim, mark);
    let x = swept(a.file@, a.state.owned_slots@, aim, m);
    let y = swept(a.file@, a.state.owned_slots@, aim, n);
    let owned = a.state.owned_slots@;
    assert(x.subset_of(owned));
    assert(y.subset_of(owned));
    vstd::set_lib::lemma_len_subset(x, owned);
    vstd::set_lib::lemma_len_subset(y, owned);
    if m <= n {
        assert(x.subset_of(y));
        vstd::set_lib::lemma_subset_equality(x, y);
    } else {
        assert(y.subset_of(x));
        vstd::set_lib::lemma_subset_equality(y, x);
    }
}

/// `vacuum_after_open` on a handle that writes does what `vacuum_orphans` does:
/// from one space, the two give the same answer and leave the same file, the
/// same slots owned, the same slots free for reuse and the same superblock.
pub proof fn law_vacuum_after_open(
    a: Space,
    b: Space,
    r: Result<usize, Error>,
    c: Space,
    q: Result<usize, Error>,
)
    requires
        a.wf(),
        orphans_vacuumed(a, b, r),
        orphans_vacuumed(a, c, q),
    ensures
        q == r,
        c.file@ == b.file@,
        c.file.durable@ == b.file.durable@,
        c.file.writes_left == b.file.writes_left,
        c.file.room_left == b.file.room_left,
        c.state.owned_slots@ == b.state.owned_slots@,
        c.state.pool@ == b.state.pool@,
        c.state.superblock == b.state.superblock,
        c.state.commit_history == b.state.commit_history,
        c.state.attempted_seq == b.state.attempted_seq,
{
    let aim = orphan_aim(a);
    if vacuum_refusal(a) is None && a.state.superblock.root_slot != NO_RECORD
        && tread_all(a).end is Ok {
        if r is Err {
            lemma_broke_off(a, b, c, aim);
        }
    }
}

} // verus!
