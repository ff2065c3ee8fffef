//! What can be reached from the roots of the current commit, told by trails: a
//! check of the whole space holds every node on a trail to what leads to it,
//! a clean-up goes by trails, and `list` gives what is in the leaves at their
//! ends.

use vstd::prelude::*;

use crate::chunk::ChunkKind;
use crate::container::{chunk_at, live, Image};
use crate::error::Error;
use crate::space::chain::{chain, link_at};
use crate::space::index::{
    child_index, lemma_child_index, lemma_lookup, ChildView, EntryView, Namespace, NodeView,
};
use crate::space::integrity::{
    check, check_all, check_commit, check_kids, check_node, check_start, expected_child,
    expected_root, CheckView, Expected,
};
use crate::space::laws::{got, listed};
use crate::space::log::slot_of_value;
use crate::space::read_laws::cleaned;
use crate::space::reads::{everything, gather, gather_kids, search};
use crate::space::stats::lemma_scan_everything;
use crate::space::superblock::NO_RECORD;
use crate::space::vacuum::{
    all_log_entries, batch_aim, free_set, log_entries, orphan_aim, orphans_vacuumed, points_at,
    scrub_set, tread, tread_all, tread_kids, tread_roots, vacuum_refusal, vacuumed,
};
use crate::space::vacuum_laws::lemma_tread_roots_nodes;
use crate::space::verify_laws::lemma_root_passed;
use crate::space::walk::{walk_step, WalkView};
use crate::space::{any_node_at, node_at, root_of, Space};
use crate::tx::commit::{blake3_digest, commit_decode, tx_root_digest, NamespaceKind, RootView};

verus! {

/// The node at `slot` has a child at `to`.
pub open spec fn steps_to(img: Image, slot: u64, to: u64) -> bool {
    any_node_at(img, slot) matches Ok(NodeView::Internal(n)) && exists|i: int|
        0 <= i < n.children.len() && (#[trigger] n.children[i]).child_slot == to
}

/// The slots from one node down to another, each a child of the one before.
pub open spec fn trail(img: Image, from: u64, path: Seq<u64>) -> bool {
    &&& path.len() > 0
    &&& path[0] == from
    &&& forall|k: int| 0 < k < path.len() ==> steps_to(img, path[k - 1], #[trigger] path[k])
}

/// A trail leads from one node to another.
pub open spec fn leads_down(img: Image, from: u64, to: u64) -> bool {
    exists|path: Seq<u64>| #[trigger] trail(img, from, path) && path.last() == to
}

/// The current commit leads to the node.
pub open spec fn reached(s: Space, to: u64) -> bool {
    exists|i: int|
        0 <= i < s.roots()->Ok_0.len() && leads_down(
            s.file@,
            (#[trigger] s.roots()->Ok_0[i]).index_slot,
            to,
        )
}

/// A node leads to itself.
pub proof fn lemma_leads_here(img: Image, slot: u64)
    ensures
        leads_down(img, slot, slot),
{
    let path = seq![slot];
    assert(trail(img, slot, path) && path.last() == slot);
}

/// A node leads wherever its children lead.
pub proof fn lemma_leads_through(img: Image, slot: u64, cs: Seq<ChildView>, i: int, to: u64)
    requires
        any_node_at(img, slot) matches Ok(NodeView::Internal(n)) && n.children == cs,
        0 <= i < cs.len(),
        leads_down(img, cs[i].child_slot, to),
    ensures
        leads_down(img, slot, to),
{
    let path = choose|path: Seq<u64>| #[trigger]
        trail(img, cs[i].child_slot, path) && path.last() == to;
    let long = seq![slot] + path;
    assert forall|k: int| 0 < k < long.len() implies steps_to(
        img,
        long[k - 1],
        #[trigger] long[k],
    ) by {
        if k > 1 {
            assert(steps_to(img, path[k - 2], path[k - 1]));
        }
    }
    assert(trail(img, slot, long) && long.last() == to);
}

/// A trail starts with a step to a child, or has no step.
pub proof fn lemma_leads_first(img: Image, slot: u64, to: u64)
    requires
        leads_down(img, slot, to),
        to != slot,
    ensures
        any_node_at(img, slot) matches Ok(NodeView::Internal(n)) && exists|i: int|
            0 <= i < n.children.len() && leads_down(
                img,
                (#[trigger] n.children[i]).child_slot,
                to,
            ),
{
    let path = choose|path: Seq<u64>| #[trigger] trail(img, slot, path) && path.last() == to;
    assert(path.len() > 1);
    assert(steps_to(img, path[0], path[1]));
    let n = any_node_at(img, slot)->Ok_0->Internal_0;
    let i = choose|i: int|
        0 <= i < n.children.len() && (#[trigger] n.children[i]).child_slot == path[1];
    let rest = path.skip(1);
    assert forall|k: int| 0 < k < rest.len() implies steps_to(
        img,
        rest[k - 1],
        #[trigger] rest[k],
    ) by {
        assert(steps_to(img, path[k], path[k + 1]));
    }
    assert(trail(img, n.children[i].child_slot, rest) && rest.last() == to);
}

// ---------------------------------------------------------------------------
// Walks
// ---------------------------------------------------------------------------

/// A walk over a tree goes where the trails from its root go.
proof fn lemma_tread_is_trails(img: Image, slot: u64, depth: int, w: WalkView, cap: int, to: u64)
    requires
        tread(img, slot, depth, w, cap).end is Ok,
    ensures
        tread(img, slot, depth, w, cap).w.visited.contains(to) <==> w.visited.contains(to)
            || leads_down(img, slot, to),
    decreases cap - depth + 1, 0int,
{
    let w1 = walk_step(w, slot);
    lemma_leads_here(img, slot);
    match any_node_at(img, slot) {
        Ok(NodeView::Internal(n)) => {
            lemma_tread_kids_is_trails(img, n.children, 0, depth + 1, w1, cap, to);
            if leads_down(img, slot, to) && to != slot {
                lemma_leads_first(img, slot, to);
            }
            assert forall|i: int|
                0 <= i < n.children.len() && leads_down(
                    img,
                    (#[trigger] n.children[i]).child_slot,
                    to,
                ) implies leads_down(img, slot, to) by {
                lemma_leads_through(img, slot, n.children, i, to);
            }
        },
        _ => {
            if leads_down(img, slot, to) && to != slot {
                lemma_leads_first(img, slot, to);
            }
        },
    }
}

proof fn lemma_tread_kids_is_trails(
    img: Image,
    cs: Seq<ChildView>,
    i: int,
    depth: int,
    w: WalkView,
    cap: int,
    to: u64,
)
    requires
        0 <= i <= cs.len(),
        tread_kids(img, cs, i, depth, w, cap).end is Ok,
    ensures
        tread_kids(img, cs, i, depth, w, cap).w.visited.contains(to) <==> w.visited.contains(to)
            || exists|j: int|
            i <= j < cs.len() && leads_down(img, (#[trigger] cs[j]).child_slot, to),
    decreases cap - depth + 1, cs.len() - i + 1,
{
    if i < cs.len() {
        let t = tread(img, cs[i].child_slot, depth, w, cap);
        lemma_tread_is_trails(img, cs[i].child_slot, depth, w, cap, to);
        lemma_tread_kids_is_trails(img, cs, i + 1, depth, t.w, cap, to);
        assert(forall|j: int|
            i <= j < cs.len() && leads_down(img, (#[trigger] cs[j]).child_slot, to) ==> j == i
                || i + 1 <= j);
    }
}

proof fn lemma_tread_roots_is_trails(img: Image, rs: Seq<RootView>, i: int, w: WalkView, to: u64)
    requires
        0 <= i <= rs.len(),
        tread_roots(img, rs, i, w).end is Ok,
    ensures
        tread_roots(img, rs, i, w).w.visited.contains(to) <==> w.visited.contains(to) || exists|
            j: int,
        |
            i <= j < rs.len() && leads_down(img, (#[trigger] rs[j]).index_slot, to),
    decreases rs.len() - i,
{
    if i < rs.len() {
        let t = tread(img, rs[i].index_slot, 0, w, w.max_depth as int);
        lemma_tread_is_trails(img, rs[i].index_slot, 0, w, w.max_depth as int, to);
        lemma_tread_roots_is_trails(img, rs, i + 1, t.w, to);
        assert(forall|j: int|
            i <= j < rs.len() && leads_down(img, (#[trigger] rs[j]).index_slot, to) ==> j == i
                || i + 1 <= j);
    }
}

/// A walk over everything that gets through goes to the commit record, and to
/// the nodes that the commit leads to, and nowhere else.
pub proof fn law_walk_goes_where_trails_go(s: Space, to: u64)
    requires
        tread_all(s).end is Ok,
    ensures
        tread_all(s).w.visited.contains(to) <==> to == s.state.superblock.root_slot || reached(
            s,
            to,
        ),
{
    let root = s.state.superblock.root_slot;
    let rs = s.roots()->Ok_0;
    lemma_tread_roots_is_trails(s.file@, rs, 0, walk_step(s.walk_now(), root), to);
    if reached(s, to) {
        let i = choose|i: int|
            0 <= i < rs.len() && leads_down(s.file@, (#[trigger] rs[i]).index_slot, to);
        assert(leads_down(s.file@, rs[i].index_slot, to));
    }
}

// ---------------------------------------------------------------------------
// Checks
// ---------------------------------------------------------------------------

/// The chunk at `slot` opens to a node of the namespace that hashes to `hash`.
pub open spec fn node_holds(img: Image, slot: u64, hash: Seq<u8>, ns: Namespace) -> bool {
    &&& chunk_at(img, slot) matches Ok(p) && p.kind == ChunkKind::IndexNode && blake3_digest(
        p.payload,
    ) == hash
    &&& any_node_at(img, slot) matches Ok(n) && n.namespace() == ns
}

/// Every child of the node at `slot` holds up against what the node records of
/// it.
pub open spec fn kids_hold(img: Image, slot: u64, ns: Namespace) -> bool {
    any_node_at(img, slot) matches Ok(NodeView::Internal(n)) ==> forall|i: int|
        0 <= i < n.children.len() ==> node_holds(
            img,
            (#[trigger] n.children[i]).child_slot,
            n.children[i].child_hash,
            ns,
        )
}

/// A check of a subtree checks the subtree of each child.
pub proof fn lemma_check_reaches(
    img: Image,
    e: Expected,
    cs: Seq<ChildView>,
    j: int,
    i: int,
    st: CheckView,
    deepest: int,
    cap: int,
) -> (at: CheckView)
    requires
        0 <= j <= i < cs.len(),
        e.depth <= cap,
        check_kids(img, e, cs, j, st, deepest, cap).end is Ok,
    ensures
        check(img, expected_child(e, cs, i), at, cap).end is Ok,
    decreases i - j,
{
    let c = check(img, expected_child(e, cs, j), st, cap);
    if j == i {
        st
    } else {
        let d = c.end->Ok_0;
        lemma_check_reaches(
            img,
            e,
            cs,
            j + 1,
            i,
            c.st,
            if d + 1 > deepest {
                d + 1
            } else {
                deepest
            },
            cap,
        )
    }
}

/// Every node under one that passes holds up, and so do its children.
proof fn lemma_checked_trail(
    img: Image,
    e: Expected,
    st: CheckView,
    cap: int,
    path: Seq<u64>,
)
    requires
        check(img, e, st, cap).end is Ok,
        trail(img, e.slot, path),
    ensures
        node_holds(img, e.slot, e.hash, e.namespace),
        any_node_at(img, path.last()) matches Ok(n) && n.namespace() == e.namespace,
        kids_hold(img, path.last(), e.namespace),
    decreases path.len(),
{
    assert(check_node(img, e) is Ok);
    let node = check_node(img, e)->Ok_0;
    assert(any_node_at(img, e.slot) == Ok::<NodeView, Error>(node));
    if let NodeView::Internal(n) = node {
        let cs = n.children;
        let next = CheckView { w: walk_step(st.w, e.slot), chunks: st.chunks + 1, ..st };
        assert(check(img, e, st, cap) == check_kids(img, e, cs, 0, next, 0, cap));
        if path.len() == 1 {
            assert forall|i: int| 0 <= i < cs.len() implies node_holds(
                img,
                (#[trigger] cs[i]).child_slot,
                cs[i].child_hash,
                e.namespace,
            ) by {
                let at = lemma_check_reaches(img, e, cs, 0, i, next, 0, cap);
                let c = expected_child(e, cs, i);
                assert(check_node(img, c) is Ok);
            }
        } else {
            assert(steps_to(img, path[0], path[1]));
            let i = choose|i: int| 0 <= i < cs.len() && (#[trigger] cs[i]).child_slot == path[1];
            let at = lemma_check_reaches(img, e, cs, 0, i, next, 0, cap);
            let rest = path.skip(1);
            assert forall|k: int| 0 < k < rest.len() implies steps_to(
                img,
                rest[k - 1],
                #[trigger] rest[k],
            ) by {
                assert(steps_to(img, path[k], path[k + 1]));
            }
            lemma_checked_trail(img, expected_child(e, cs, i), at, cap, rest);
            assert(rest.last() == path.last());
        }
    } else if path.len() > 1 {
        assert(steps_to(img, path[0], path[1]));
    }
}

/// In a space that passes, the commit record hashes as the superblock says; the
/// root of every namespace hashes as the commit record says; and every child of
/// every node that the commit leads to, however deep, opens, is a node of its
/// namespace, and hashes as its parent says.
pub proof fn law_verified_is_what_was_written(s: Space, r: RootView, path: Seq<u64>)
    requires
        s.wf(),
        check_all(s) is Ok,
        s.state.superblock.root_slot != NO_RECORD,
        s.roots()->Ok_0.contains(r),
        trail(s.file@, r.index_slot, path),
    ensures
        s.roots() is Ok,
        chunk_at(s.file@, s.state.superblock.root_slot) matches Ok(p) && p.kind == ChunkKind::Commit
            && (commit_decode(p.payload) matches Ok(c) && c.roots == s.roots()->Ok_0
            && c.tx_root_hash == tx_root_digest(c.roots)),
        s.state.superblock.root_hash@ == tx_root_digest(s.roots()->Ok_0),
        node_holds(s.file@, r.index_slot, r.payload_hash, r.namespace),
        any_node_at(s.file@, path.last()) matches Ok(n) && n.namespace() == r.namespace,
        kids_hold(s.file@, path.last(), r.namespace),
{
    let img = s.file@;
    let rs = check_commit(img, s.state.superblock@)->Ok_0.roots;
    assert(s.roots() == Ok::<Seq<RootView>, Error>(rs));
    let m = choose|m: int| 0 <= m < rs.len() && rs[m] == r;
    let at = lemma_root_passed(s, rs, 0, check_start(s), 0, m);
    lemma_checked_trail(img, expected_root(rs[m]), at, at.w.max_depth as int, path);
}

// ---------------------------------------------------------------------------
// Leaves
// ---------------------------------------------------------------------------

/// A leaf that the node at `slot` leads to holds the entry.
pub open spec fn in_leaf(img: Image, slot: u64, e: EntryView) -> bool {
    exists|to: u64| #[trigger]
        leads_down(img, slot, to) && (any_node_at(img, to) matches Ok(NodeView::Leaf(l))
            && l.entries.contains(e))
}

/// A node's leaves are those of its children.
pub proof fn lemma_in_leaf_kids(img: Image, slot: u64, cs: Seq<ChildView>, e: EntryView)
    requires
        any_node_at(img, slot) matches Ok(NodeView::Internal(n)) && n.children == cs,
    ensures
        in_leaf(img, slot, e) <==> exists|i: int|
            0 <= i < cs.len() && in_leaf(img, (#[trigger] cs[i]).child_slot, e),
{
    if in_leaf(img, slot, e) {
        let to = choose|to: u64| #[trigger]
            leads_down(img, slot, to) && (any_node_at(img, to) matches Ok(NodeView::Leaf(l))
                && l.entries.contains(e));
        lemma_leads_first(img, slot, to);
        let i = choose|i: int|
            0 <= i < cs.len() && leads_down(img, (#[trigger] cs[i]).child_slot, to);
        assert(in_leaf(img, cs[i].child_slot, e));
    }
    assert forall|i: int| 0 <= i < cs.len() && in_leaf(
        img,
        (#[trigger] cs[i]).child_slot,
        e,
    ) implies in_leaf(img, slot, e) by {
        let to = choose|to: u64| #[trigger]
            leads_down(img, cs[i].child_slot, to) && (any_node_at(img, to) matches Ok(
                NodeView::Leaf(l),
            ) && l.entries.contains(e));
        lemma_leads_through(img, slot, cs, i, to);
    }
}

/// Reading everything under a node gives what its leaves hold.
proof fn lemma_gather_is_leaves(
    img: Image,
    ns: Namespace,
    slot: u64,
    depth: int,
    w: WalkView,
    out: Seq<EntryView>,
    cap: int,
    e: EntryView,
)
    requires
        gather(img, ns, everything(), slot, depth, w, out, cap).end is Ok,
    ensures
        gather(img, ns, everything(), slot, depth, w, out, cap).end == Ok::<bool, Error>(false),
        gather(img, ns, everything(), slot, depth, w, out, cap).out.contains(e) <==> out.contains(e)
            || in_leaf(img, slot, e),
    decreases cap - depth + 1, 0int,
{
    let w1 = walk_step(w, slot);
    match node_at(img, slot, ns) {
        Ok(NodeView::Leaf(l)) => {
            lemma_scan_everything(l.entries, 0, w1, out);
            assert(l.entries.skip(0) =~= l.entries);
            lemma_leads_here(img, slot);
            if in_leaf(img, slot, e) {
                let to = choose|to: u64| #[trigger]
                    leads_down(img, slot, to) && (any_node_at(img, to) matches Ok(
                        NodeView::Leaf(x),
                    ) && x.entries.contains(e));
                if to != slot {
                    lemma_leads_first(img, slot, to);
                }
            }
            let all = out + l.entries;
            if out.contains(e) {
                let i = choose|i: int| 0 <= i < out.len() && out[i] == e;
                assert(all[i] == e);
            }
            if l.entries.contains(e) {
                let i = choose|i: int| 0 <= i < l.entries.len() && l.entries[i] == e;
                assert(all[out.len() + i] == e);
                assert(in_leaf(img, slot, e));
            }
            if all.contains(e) {
                let i = choose|i: int| 0 <= i < all.len() && all[i] == e;
                if i < out.len() {
                    assert(out[i] == e);
                } else {
                    assert(l.entries[i - out.len()] == e);
                }
            }
        },
        Ok(NodeView::Internal(n)) => {
            lemma_gather_kids_is_leaves(img, ns, n.children, 0, depth + 1, w1, out, cap, e);
            lemma_in_leaf_kids(img, slot, n.children, e);
        },
        Err(_) => {},
    }
}

proof fn lemma_gather_kids_is_leaves(
    img: Image,
    ns: Namespace,
    cs: Seq<ChildView>,
    i: int,
    depth: int,
    w: WalkView,
    out: Seq<EntryView>,
    cap: int,
    e: EntryView,
)
    requires
        0 <= i <= cs.len(),
        gather_kids(img, ns, everything(), cs, i, depth, w, out, cap).end is Ok,
    ensures
        gather_kids(img, ns, everything(), cs, i, depth, w, out, cap).end == Ok::<bool, Error>(
            false,
        ),
        gather_kids(img, ns, everything(), cs, i, depth, w, out, cap).out.contains(e)
            <==> out.contains(e) || exists|j: int|
            i <= j < cs.len() && in_leaf(img, (#[trigger] cs[j]).child_slot, e),
    decreases cap - depth + 1, cs.len() - i + 1,
{
    if i < cs.len() {
        let g = gather(img, ns, everything(), cs[i].child_slot, depth, w, out, cap);
        lemma_gather_is_leaves(img, ns, cs[i].child_slot, depth, w, out, cap, e);
        lemma_gather_kids_is_leaves(img, ns, cs, i + 1, depth, g.w, g.out, cap, e);
        assert(forall|j: int|
            i <= j < cs.len() && in_leaf(img, (#[trigger] cs[j]).child_slot, e) ==> j == i || i + 1
                <= j);
    }
}

/// `list` gives the entries of the leaves that the namespace's root leads to:
/// all of them, and no others.
pub proof fn law_list_is_what_leaves_hold(s: Space, ns: Namespace, e: EntryView)
    requires
        listed(s, ns) is Ok,
    ensures
        s.roots() is Ok,
        listed(s, ns)->Ok_0.contains(e) <==> (root_of(s.roots()->Ok_0, ns) matches Some(r)
            && in_leaf(s.file@, r.index_slot, e)),
{
    if let Some(r) = root_of(s.roots()->Ok_0, ns) {
        let w = s.walk_now();
        let none = Seq::<EntryView>::empty();
        lemma_gather_is_leaves(s.file@, ns, r.index_slot, 0, w, none, w.max_depth as int, e);
    }
}

/// What `get` gives is in a leaf that the namespace's root leads to, under the
/// key that was asked for.
proof fn lemma_search_is_leaf(
    img: Image,
    ns: Namespace,
    key: Seq<u8>,
    slot: u64,
    depth: int,
    w: WalkView,
    cap: int,
    v: Seq<u8>,
)
    requires
        search(img, ns, key, slot, depth, w, cap) == Ok::<Option<Seq<u8>>, Error>(Some(v)),
    ensures
        in_leaf(img, slot, (key, v)),
    decreases cap - depth + 1,
{
    match node_at(img, slot, ns) {
        Ok(NodeView::Leaf(l)) => {
            lemma_leads_here(img, slot);
            lemma_lookup(l.entries, key);
            let i = choose|i: int| 0 <= i < l.entries.len() && #[trigger] l.entries[i] == (key, v);
            assert(l.entries.contains((key, v)));
        },
        Ok(NodeView::Internal(n)) => {
            let cs = n.children;
            crate::space::update::lemma_node_legal(img, slot, ns);
            lemma_child_index(cs, key);
            let i = child_index(cs, key);
            lemma_search_is_leaf(
                img,
                ns,
                key,
                cs[i].child_slot,
                depth + 1,
                walk_step(w, slot),
                cap,
                v,
            );
            lemma_in_leaf_kids(img, slot, cs, (key, v));
        },
        Err(_) => {},
    }
}

/// `get` makes nothing up: what it gives is in a leaf that the namespace's root
/// leads to, under the key that was asked for.
pub proof fn law_get_is_in_a_leaf(s: Space, ns: Namespace, key: Seq<u8>, v: Seq<u8>)
    requires
        got(s, ns, key) == Ok::<Option<Seq<u8>>, Error>(Some(v)),
    ensures
        s.roots() is Ok,
        root_of(s.roots()->Ok_0, ns) matches Some(r) && in_leaf(
            s.file@,
            r.index_slot,
            (key, v),
        ),
{
    let r = root_of(s.roots()->Ok_0, ns)->0;
    let w = s.walk_now();
    lemma_search_is_leaf(s.file@, ns, key, r.index_slot, 0, w, w.max_depth as int, v);
}

// ---------------------------------------------------------------------------
// Cleaning up
// ---------------------------------------------------------------------------

/// A node that opens and that the current commit does not lead to.
pub open spec fn is_orphan(s: Space, slot: u64) -> bool {
    live(s.file@, slot) && s.file@[slot as int]->0.kind == ChunkKind::IndexNode && !reached(s, slot)
}

/// An entry of a log of the current commit names the slot.
pub open spec fn is_named(s: Space, slot: u64) -> bool {
    exists|i: int, e: EntryView|
        0 <= i < s.roots()->Ok_0.len() && s.roots()->Ok_0[i].kind == NamespaceKind::Log
            && #[trigger] in_leaf(s.file@, s.roots()->Ok_0[i].index_slot, e) && slot_of_value(e.1)
            == Ok::<u64, Error>(slot)
}

/// A batch that opens and that no entry of a log names.
pub open spec fn is_spent(s: Space, slot: u64) -> bool {
    live(s.file@, slot) && s.file@[slot as int]->0.kind == ChunkKind::DataBatch && !is_named(
        s,
        slot,
    )
}

/// What `vacuum_orphans` overwrites is the orphans.
proof fn lemma_orphans(a: Space)
    requires
        a.wf(),
        a.state.superblock.root_slot != NO_RECORD,
        tread_all(a).end is Ok,
    ensures
        forall|s: u64| #[trigger] scrub_set(a, orphan_aim(a)).contains(s) <==> is_orphan(a, s),
        forall|s: u64| #[trigger]
            free_set(a, orphan_aim(a)).contains(s) <==> is_orphan(a, s)
                || a.state.owned_slots@.contains(s) && !live(a.file@, s),
{
    let aim = orphan_aim(a);
    let root = a.state.superblock.root_slot;
    let count = a.file.slots.len();
    assert(a.file@.len() == count);
    let rs = a.roots()->Ok_0;
    let wa = walk_step(a.walk_now(), root);
    assert(live(a.file@, root));
    assert forall|s: u64| #[trigger]
        scrub_set(a, aim).contains(s) <==> is_orphan(a, s) by {
        law_walk_goes_where_trails_go(a, s);
    }
    assert forall|s: u64| #[trigger]
        free_set(a, aim).contains(s) <==> is_orphan(a, s) || a.state.owned_slots@.contains(s)
        && !live(a.file@, s) by {
        law_walk_goes_where_trails_go(a, s);
        if aim.spared.contains(s) && s != root {
            lemma_tread_roots_nodes(a.file@, rs, 0, wa, s);
        }
    }
}

/// `vacuum_orphans` overwrites the orphans, which then open no more, and leaves
/// every other chunk as it was: what the commit leads to, superblocks, commit
/// records, batches and checkpoint links. It gives how many orphans there were.
/// What no longer opens is no longer owned, and free for reuse; what was free
/// stays free.
pub proof fn law_vacuum_takes_orphans_only(a: Space, b: Space, n: usize, slot: u64)
    requires
        a.wf(),
        vacuum_refusal(a) is None,
        a.state.superblock.root_slot != NO_RECORD,
        orphans_vacuumed(a, b, Ok(n)),
    ensures
        live(b.file@, slot) <==> live(a.file@, slot) && !is_orphan(a, slot),
        live(b.file@, slot) ==> b.file@[slot as int] == a.file@[slot as int],
        b.state.owned_slots@.contains(slot) <==> live(b.file@, slot),
        b.state.pool@.contains(slot) <==> a.state.pool@.contains(slot)
            || a.state.owned_slots@.contains(slot) && !live(b.file@, slot),
        n == Set::<u64>::new(|s: u64| is_orphan(a, s)).len(),
        b.state.superblock == a.state.superblock,
        b.state.commit_history == a.state.commit_history,
{
    let count = a.file.slots.len();
    assert(a.file@.len() == count);
    lemma_orphans(a);
    let aim = orphan_aim(a);
    assert(scrub_set(a, aim) =~= Set::<u64>::new(|s: u64| is_orphan(a, s)));
    assert(scrub_set(a, aim).contains(slot) <==> is_orphan(a, slot));
    assert(free_set(a, aim).contains(slot) <==> is_orphan(a, slot)
        || a.state.owned_slots@.contains(slot) && !live(a.file@, slot));
}

/// However far `vacuum_orphans` gets, every chunk that is not an orphan opens as
/// it did and is owned as it was, and no chunk opens that did not.
pub proof fn law_broken_vacuum_takes_orphans_only(a: Space, b: Space, e: Error, slot: u64)
    requires
        a.wf(),
        orphans_vacuumed(a, b, Err(e)),
    ensures
        live(b.file@, slot) ==> live(a.file@, slot) && b.file@[slot as int]
            == a.file@[slot as int],
        live(a.file@, slot) && !is_orphan(a, slot) ==> live(b.file@, slot),
        b.state.owned_slots == a.state.owned_slots,
        b.state.pool == a.state.pool,
        b.state.superblock == a.state.superblock,
{
    let count = a.file.slots.len();
    assert(a.file@.len() == count);
    if vacuum_refusal(a) is None && a.state.superblock.root_slot != NO_RECORD
        && tread_all(a).end is Ok {
        lemma_orphans(a);
        assert(scrub_set(a, orphan_aim(a)).contains(slot) <==> is_orphan(a, slot));
    }
}

/// However far cleaning up gets, and whichever it is, a checkpoint reads as it
/// did: every link of every chain is where it was.
pub proof fn law_vacuum_keeps_checkpoints(
    a: Space,
    b: Space,
    head: u64,
    same: Option<(u64, u64)>,
    total: int,
    hops: nat,
)
    requires
        cleaned(a, b),
    ensures
        link_at(b.file@, head) == link_at(a.file@, head),
        chain(b.file@, head, same, total, hops) == chain(a.file@, head, same, total, hops),
    decreases hops,
{
    let count = a.file.slots.len();
    assert(a.file@.len() == count);
    assert(b.file@.len() == a.file@.len());
    assert(link_at(b.file@, head) == link_at(a.file@, head)) by {
        if head < a.file@.len() {
            assert(b.file@[head as int] == a.file@[head as int] || (b.file@[head as int] is None && (
            scrub_set(a, orphan_aim(a)).contains(head) || scrub_set(a, batch_aim(a)).contains(
                head,
            ))));
        }
    }
    if let Some(c) = link_at(a.file@, head) {
        if head != NO_RECORD && hops > 0 {
            law_vacuum_keeps_checkpoints(
                a,
                b,
                c.next_slot,
                Some((c.cp_seq, c.cp_high_water)),
                total,
                (hops - 1) as nat,
            );
        }
    }
}

/// An entry of the first `n` logs that have been read.
proof fn lemma_log_entries_are_leaves(s: Space, rs: Seq<RootView>, n: int, e: EntryView)
    requires
        0 <= n <= rs.len(),
        log_entries(s, rs, n) is Ok,
    ensures
        log_entries(s, rs, n)->Ok_0.contains(e) <==> exists|i: int|
            0 <= i < n && (#[trigger] rs[i]).kind == NamespaceKind::Log && in_leaf(
                s.file@,
                rs[i].index_slot,
                e,
            ),
    decreases n,
{
    if n > 0 {
        lemma_log_entries_are_leaves(s, rs, n - 1, e);
        let had = log_entries(s, rs, n - 1)->Ok_0;
        let r = rs[n - 1];
        let w = s.walk_now();
        if r.kind == NamespaceKind::Log {
            lemma_gather_is_leaves(
                s.file@,
                r.namespace,
                r.index_slot,
                0,
                w,
                had,
                w.max_depth as int,
                e,
            );
        }
        if in_leaf(s.file@, r.index_slot, e) && r.kind == NamespaceKind::Log {
            assert(rs[n - 1].kind == NamespaceKind::Log);
        }
    }
}

/// What `vacuum_data_batches` overwrites is the spent batches.
pub proof fn lemma_spent(a: Space)
    requires
        a.wf(),
        all_log_entries(a) is Ok,
    ensures
        forall|s: u64| #[trigger] scrub_set(a, batch_aim(a)).contains(s) <==> is_spent(a, s),
        forall|s: u64| #[trigger]
            free_set(a, batch_aim(a)).contains(s) <==> is_spent(a, s)
                || a.state.owned_slots@.contains(s) && !live(a.file@, s) && !is_named(a, s),
{
    let rs = a.roots()->Ok_0;
    let aim = batch_aim(a);
    let es = all_log_entries(a)->Ok_0;
    let count = a.file.slots.len();
    assert(a.file@.len() == count);
    assert forall|s: u64| #[trigger] points_at(es, s) <==> is_named(a, s) by {
        if points_at(es, s) {
            let i = choose|i: int|
                0 <= i < es.len() && slot_of_value((#[trigger] es[i]).1) == Ok::<u64, Error>(s);
            assert(es.contains(es[i]));
            lemma_log_entries_are_leaves(a, rs, rs.len() as int, es[i]);
            let m = choose|m: int|
                0 <= m < rs.len() && (#[trigger] rs[m]).kind == NamespaceKind::Log && in_leaf(
                    a.file@,
                    rs[m].index_slot,
                    es[i],
                );
            assert(in_leaf(a.file@, a.roots()->Ok_0[m].index_slot, es[i]));
        }
        if is_named(a, s) {
            let (m, e) = choose|m: int, e: EntryView|
                0 <= m < a.roots()->Ok_0.len() && a.roots()->Ok_0[m].kind == NamespaceKind::Log
                    && #[trigger] in_leaf(a.file@, a.roots()->Ok_0[m].index_slot, e)
                    && slot_of_value(e.1) == Ok::<u64, Error>(s);
            assert(rs[m].kind == NamespaceKind::Log);
            lemma_log_entries_are_leaves(a, rs, rs.len() as int, e);
            let i = choose|i: int| 0 <= i < es.len() && es[i] == e;
            assert(slot_of_value(es[i].1) == Ok::<u64, Error>(s));
        }
    }
    assert forall|s: u64| s < a.file@.len() implies (#[trigger] aim.spared.contains(s)
        <==> is_named(a, s)) by {
        assert(points_at(es, s) <==> is_named(a, s));
    }
    assert forall|s: u64| #[trigger] scrub_set(a, aim).contains(s) <==> is_spent(a, s) by {
        if s < a.file@.len() {
            assert(aim.spared.contains(s) <==> is_named(a, s));
        }
    }
    assert forall|s: u64| #[trigger]
        free_set(a, aim).contains(s) <==> is_spent(a, s) || a.state.owned_slots@.contains(s)
        && !live(a.file@, s) && !is_named(a, s) by {
        if s < a.file@.len() {
            assert(aim.spared.contains(s) <==> is_named(a, s));
        }
    }
}

/// `vacuum_data_batches` overwrites the batches that no entry of a log names, and
/// leaves every other chunk as it was: batches that an entry names, nodes,
/// superblocks, commit records and checkpoint links. It gives how many there
/// were. What it overwrites is no longer owned, and free for reuse.
pub proof fn law_batch_vacuum_takes_spent_only(a: Space, b: Space, slot: u64)
    requires
        a.wf(),
        all_log_entries(a) is Ok,
        vacuumed(a, b, batch_aim(a)),
    ensures
        live(b.file@, slot) <==> live(a.file@, slot) && !is_spent(a, slot),
        live(b.file@, slot) ==> b.file@[slot as int] == a.file@[slot as int]
            && b.state.owned_slots@.contains(slot),
        is_spent(a, slot) ==> !b.state.owned_slots@.contains(slot) && b.state.pool@.contains(slot),
        a.state.pool@.contains(slot) ==> b.state.pool@.contains(slot),
        b.state.pool@.contains(slot) ==> a.state.pool@.contains(slot)
            || a.state.owned_slots@.contains(slot),
        scrub_set(a, batch_aim(a)) == Set::<u64>::new(|s: u64| is_spent(a, s)),
        b.state.superblock == a.state.superblock,
        b.state.commit_history == a.state.commit_history,
{
    let count = a.file.slots.len();
    assert(a.file@.len() == count);
    lemma_spent(a);
    let aim = batch_aim(a);
    assert(scrub_set(a, aim) =~= Set::<u64>::new(|s: u64| is_spent(a, s)));
    assert(scrub_set(a, aim).contains(slot) <==> is_spent(a, slot));
    assert(free_set(a, aim).contains(slot) <==> is_spent(a, slot) || a.state.owned_slots@.contains(
        slot,
    ) && !live(a.file@, slot) && !is_named(a, slot));
}

} // verus!
