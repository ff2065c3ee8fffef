//! What the report of a check counts: the chunks, the levels and the batches that
//! the current commit leads to, told by trails.

use vstd::prelude::*;

use crate::chunk::ChunkKind;
use crate::container::{chunk_at, Image};
use crate::error::Error;
use crate::space::index::{ChildView, EntryView, NodeView};
use crate::space::integrity::{
    check, check_all, check_batch, check_batches, check_commit, check_entries, check_kids,
    check_node, check_roots, check_start, expected_child, expected_root, CheckView, Expected,
    Pointer,
};
use crate::space::log::{batch_decode, last_with_id, log_id_of_key, slot_of_value, RecordView};
use crate::space::pairs::{lemma_sorted_exists, pair_lt, pairs_rise, sorted_pairs};
use crate::space::superblock::NO_RECORD;
use crate::space::trail_laws::{
    in_leaf, is_named, leads_down, lemma_check_reaches, lemma_in_leaf_kids, lemma_leads_first,
    lemma_leads_here, lemma_leads_through, reached, steps_to, trail,
};
use crate::space::verify_laws::lemma_batches_passed;
use crate::space::walk::{walk_refusal, walk_step, WalkView};
use crate::space::{any_node_at, Space};
use crate::tx::commit::{NamespaceKind, RootView};

verus! {

// ---------------------------------------------------------------------------
// Chunks
// ---------------------------------------------------------------------------

/// A check goes where the trails go, and counts each chunk once.
proof fn lemma_check_chunks(img: Image, e: Expected, st: CheckView, cap: int)
    requires
        st.w.visited.finite(),
        check(img, e, st, cap).end is Ok,
    ensures
        ({
            let c = check(img, e, st, cap).st;
            &&& c.w.visited.finite()
            &&& c.chunks - st.chunks == c.w.visited.len() - st.w.visited.len()
            &&& forall|to: u64| #[trigger]
                c.w.visited.contains(to) <==> st.w.visited.contains(to) || leads_down(
                    img,
                    e.slot,
                    to,
                )
        }),
    decreases cap - e.depth + 1, 0int,
{
    let c = check(img, e, st, cap).st;
    let next = CheckView { w: walk_step(st.w, e.slot), chunks: st.chunks + 1, ..st };
    let node = check_node(img, e)->Ok_0;
    assert(any_node_at(img, e.slot) == Ok::<NodeView, Error>(node));
    lemma_leads_here(img, e.slot);
    match node {
        NodeView::Internal(n) => {
            let cs = n.children;
            lemma_check_kids_chunks(img, e, cs, 0, next, 0, cap);
            assert forall|to: u64| #[trigger]
                c.w.visited.contains(to) <==> st.w.visited.contains(to) || leads_down(
                    img,
                    e.slot,
                    to,
                ) by {
                if leads_down(img, e.slot, to) && to != e.slot {
                    lemma_leads_first(img, e.slot, to);
                }
                assert forall|i: int|
                    0 <= i < cs.len() && leads_down(
                        img,
                        (#[trigger] cs[i]).child_slot,
                        to,
                    ) implies leads_down(img, e.slot, to) by {
                    lemma_leads_through(img, e.slot, cs, i, to);
                }
            }
        },
        NodeView::Leaf(_) => {
            assert forall|to: u64| #[trigger]
                c.w.visited.contains(to) <==> st.w.visited.contains(to) || leads_down(
                    img,
                    e.slot,
                    to,
                ) by {
                if leads_down(img, e.slot, to) && to != e.slot {
                    lemma_leads_first(img, e.slot, to);
                }
            }
        },
    }
}

proof fn lemma_check_kids_chunks(
    img: Image,
    e: Expected,
    cs: Seq<ChildView>,
    i: int,
    st: CheckView,
    deepest: int,
    cap: int,
)
    requires
        0 <= i <= cs.len(),
        e.depth <= cap,
        st.w.visited.finite(),
        check_kids(img, e, cs, i, st, deepest, cap).end is Ok,
    ensures
        ({
            let c = check_kids(img, e, cs, i, st, deepest, cap).st;
            &&& c.w.visited.finite()
            &&& c.chunks - st.chunks == c.w.visited.len() - st.w.visited.len()
            &&& forall|to: u64| #[trigger]
                c.w.visited.contains(to) <==> st.w.visited.contains(to) || exists|j: int|
                    i <= j < cs.len() && leads_down(img, (#[trigger] cs[j]).child_slot, to)
        }),
    decreases cap - e.depth, cs.len() - i + 1,
{
    if i < cs.len() {
        let x = check(img, expected_child(e, cs, i), st, cap);
        lemma_check_chunks(img, expected_child(e, cs, i), st, cap);
        let d = x.end->Ok_0;
        let more = if d + 1 > deepest {
            d + 1
        } else {
            deepest
        };
        lemma_check_kids_chunks(img, e, cs, i + 1, x.st, more, cap);
        let c = check_kids(img, e, cs, i, st, deepest, cap).st;
        assert forall|to: u64| #[trigger]
            c.w.visited.contains(to) <==> st.w.visited.contains(to) || exists|j: int|
                i <= j < cs.len() && leads_down(img, (#[trigger] cs[j]).child_slot, to) by {
            assert(x.st.w.visited.contains(to) <==> st.w.visited.contains(to) || leads_down(
                img,
                cs[i].child_slot,
                to,
            ));
            assert(forall|j: int|
                i <= j < cs.len() && leads_down(img, (#[trigger] cs[j]).child_slot, to) ==> j == i
                    || i + 1 <= j);
        }
    }
}

proof fn lemma_check_roots_chunks(
    img: Image,
    rs: Seq<RootView>,
    i: int,
    st: CheckView,
    levels: int,
)
    requires
        0 <= i <= rs.len(),
        st.w.visited.finite(),
        check_roots(img, rs, i, st, levels).end is Ok,
    ensures
        ({
            let c = check_roots(img, rs, i, st, levels).st;
            &&& c.w.visited.finite()
            &&& c.chunks - st.chunks == c.w.visited.len() - st.w.visited.len()
            &&& forall|to: u64| #[trigger]
                c.w.visited.contains(to) <==> st.w.visited.contains(to) || exists|j: int|
                    i <= j < rs.len() && leads_down(img, (#[trigger] rs[j]).index_slot, to)
        }),
    decreases rs.len() - i,
{
    if i < rs.len() {
        let cap = st.w.max_depth as int;
        let x = check(img, expected_root(rs[i]), st, cap);
        lemma_check_chunks(img, expected_root(rs[i]), st, cap);
        let d = x.end->Ok_0;
        let more = if d + 1 > levels {
            d + 1
        } else {
            levels
        };
        lemma_check_roots_chunks(img, rs, i + 1, x.st, more);
        let c = check_roots(img, rs, i, st, levels).st;
        assert forall|to: u64| #[trigger]
            c.w.visited.contains(to) <==> st.w.visited.contains(to) || exists|j: int|
                i <= j < rs.len() && leads_down(img, (#[trigger] rs[j]).index_slot, to) by {
            assert(x.st.w.visited.contains(to) <==> st.w.visited.contains(to) || leads_down(
                img,
                rs[i].index_slot,
                to,
            ));
            assert(forall|j: int|
                i <= j < rs.len() && leads_down(img, (#[trigger] rs[j]).index_slot, to) ==> j == i
                    || i + 1 <= j);
        }
    }
}

// ---------------------------------------------------------------------------
// Levels
// ---------------------------------------------------------------------------

/// Trails from the node are as long as this, and no longer.
pub open spec fn reaches_down(img: Image, from: u64, n: int) -> bool {
    &&& exists|path: Seq<u64>| #[trigger] trail(img, from, path) && path.len() == n
    &&& forall|path: Seq<u64>| #[trigger] trail(img, from, path) ==> path.len() <= n
}

/// A trail of a node goes on as one of a child.
pub proof fn lemma_trail_tail(img: Image, slot: u64, path: Seq<u64>) -> (i: int)
    requires
        trail(img, slot, path),
        path.len() > 1,
    ensures
        any_node_at(img, slot) matches Ok(NodeView::Internal(n)) && 0 <= i < n.children.len()
            && trail(img, n.children[i].child_slot, path.skip(1)),
{
    assert(steps_to(img, path[0], path[1]));
    let n = any_node_at(img, slot)->Ok_0->Internal_0;
    let i = choose|i: int|
        0 <= i < n.children.len() && (#[trigger] n.children[i]).child_slot == path[1];
    let rest = path.skip(1);
    assert forall|k: int| 0 < k < rest.len() implies steps_to(
        img,
        rest[k - 1],
        #[trigger] rest[k],
    ) by {
        assert(steps_to(img, path[k], path[k + 1]));
    }
    i
}

/// A trail of a child is one of the node, with the node in front.
pub proof fn lemma_trail_front(img: Image, slot: u64, cs: Seq<ChildView>, i: int, path: Seq<u64>)
    requires
        any_node_at(img, slot) matches Ok(NodeView::Internal(n)) && n.children == cs,
        0 <= i < cs.len(),
        trail(img, cs[i].child_slot, path),
    ensures
        trail(img, slot, seq![slot] + path),
{
    let long = seq![slot] + path;
    assert forall|k: int| 0 < k < long.len() implies steps_to(
        img,
        long[k - 1],
        #[trigger] long[k],
    ) by {
        if k > 1 {
            assert(steps_to(img, path[k - 2], path[k - 1]));
        }
    }
}

proof fn lemma_check_levels(img: Image, e: Expected, st: CheckView, cap: int)
    requires
        check(img, e, st, cap).end is Ok,
    ensures
        reaches_down(img, e.slot, check(img, e, st, cap).end->Ok_0 + 1),
    decreases cap - e.depth + 1, 0int,
{
    let next = CheckView { w: walk_step(st.w, e.slot), chunks: st.chunks + 1, ..st };
    let node = check_node(img, e)->Ok_0;
    assert(any_node_at(img, e.slot) == Ok::<NodeView, Error>(node));
    let d = check(img, e, st, cap).end->Ok_0;
    match node {
        NodeView::Leaf(_) => {
            let path = seq![e.slot];
            assert(trail(img, e.slot, path));
            assert forall|path: Seq<u64>| #[trigger] trail(img, e.slot, path) implies path.len()
                <= 1 by {
                if path.len() > 1 {
                    assert(steps_to(img, path[0], path[1]));
                }
            }
        },
        NodeView::Internal(n) => {
            let cs = n.children;
            lemma_check_kids_levels(img, e, cs, 0, next, 0, cap);
            let i = choose|i: int|
                0 <= i < cs.len() && #[trigger] reaches_down(img, cs[i].child_slot, d);
            let path = choose|path: Seq<u64>| #[trigger]
                trail(img, cs[i].child_slot, path) && path.len() == d;
            lemma_trail_front(img, e.slot, cs, i, path);
            assert((seq![e.slot] + path).len() == d + 1);
            assert forall|path: Seq<u64>| #[trigger] trail(img, e.slot, path) implies path.len()
                <= d + 1 by {
                if path.len() > 1 {
                    let j = lemma_trail_tail(img, e.slot, path);
                    assert(trail(img, cs[j].child_slot, path.skip(1)));
                }
            }
        },
    }
}

proof fn lemma_check_kids_levels(
    img: Image,
    e: Expected,
    cs: Seq<ChildView>,
    i: int,
    st: CheckView,
    deepest: int,
    cap: int,
)
    requires
        0 <= i <= cs.len(),
        e.depth <= cap,
        0 <= deepest,
        check_kids(img, e, cs, i, st, deepest, cap).end is Ok,
    ensures
        ({
            let d = check_kids(img, e, cs, i, st, deepest, cap).end->Ok_0;
            &&& d >= deepest
            &&& d == deepest || exists|j: int|
                i <= j < cs.len() && #[trigger] reaches_down(img, cs[j].child_slot, d)
            &&& i < cs.len() ==> d >= 1
            &&& forall|j: int, path: Seq<u64>|
                i <= j < cs.len() && #[trigger] trail(img, cs[j].child_slot, path) ==> path.len()
                    <= d
            &&& deepest == 0 && i < cs.len() ==> exists|j: int|
                i <= j < cs.len() && #[trigger] reaches_down(img, cs[j].child_slot, d)
        }),
    decreases cap - e.depth, cs.len() - i + 1,
{
    if i < cs.len() {
        let x = check(img, expected_child(e, cs, i), st, cap);
        lemma_check_levels(img, expected_child(e, cs, i), st, cap);
        let k = x.end->Ok_0;
        let path = choose|path: Seq<u64>| #[trigger]
            trail(img, cs[i].child_slot, path) && path.len() == k + 1;
        assert(k + 1 >= 1);
        let more = if k + 1 > deepest {
            k + 1
        } else {
            deepest
        };
        lemma_check_kids_levels(img, e, cs, i + 1, x.st, more, cap);
        let d = check_kids(img, e, cs, i, st, deepest, cap).end->Ok_0;
        assert(d == check_kids(img, e, cs, i + 1, x.st, more, cap).end->Ok_0);
        if d == more && more == k + 1 {
            assert(reaches_down(img, cs[i].child_slot, d));
        }
        assert forall|j: int, path: Seq<u64>|
            i <= j < cs.len() && #[trigger] trail(img, cs[j].child_slot, path) implies path.len()
            <= d by {
            if j == i {
                assert(path.len() <= k + 1);
            }
        }
    }
}

proof fn lemma_check_roots_levels(
    img: Image,
    rs: Seq<RootView>,
    i: int,
    st: CheckView,
    levels: int,
)
    requires
        0 <= i <= rs.len(),
        0 <= levels,
        check_roots(img, rs, i, st, levels).end is Ok,
    ensures
        ({
            let d = check_roots(img, rs, i, st, levels).end->Ok_0;
            &&& d >= levels
            &&& d == levels || exists|j: int|
                i <= j < rs.len() && #[trigger] reaches_down(img, rs[j].index_slot, d)
            &&& forall|j: int, path: Seq<u64>|
                i <= j < rs.len() && #[trigger] trail(img, rs[j].index_slot, path) ==> path.len()
                    <= d
        }),
    decreases rs.len() - i,
{
    if i < rs.len() {
        let cap = st.w.max_depth as int;
        let x = check(img, expected_root(rs[i]), st, cap);
        lemma_check_levels(img, expected_root(rs[i]), st, cap);
        let k = x.end->Ok_0;
        let more = if k + 1 > levels {
            k + 1
        } else {
            levels
        };
        lemma_check_roots_levels(img, rs, i + 1, x.st, more);
        let d = check_roots(img, rs, i, st, levels).end->Ok_0;
        if d == more && more == k + 1 {
            assert(reaches_down(img, rs[i].index_slot, d));
        }
        assert forall|j: int, path: Seq<u64>|
            i <= j < rs.len() && #[trigger] trail(img, rs[j].index_slot, path) implies path.len()
            <= d by {
            if j == i {
                assert(path.len() <= k + 1);
            }
        }
    }
}

// ---------------------------------------------------------------------------
// Batches
// ---------------------------------------------------------------------------

/// An entry of a log says that a record is in a batch.
pub open spec fn says(e: EntryView, p: Pointer) -> bool {
    slot_of_value(e.1) == Ok::<u64, Error>(p.0) && log_id_of_key(e.0) == Ok::<u64, Error>(p.1)
}

proof fn lemma_check_entries_pairs(
    e: Expected,
    es: Seq<EntryView>,
    i: int,
    pairs: Seq<Pointer>,
    p: Pointer,
)
    requires
        0 <= i <= es.len(),
        check_entries(e, es, i, pairs) is Ok,
    ensures
        check_entries(e, es, i, pairs)->Ok_0.contains(p) <==> pairs.contains(p) || e.is_log
            && exists|j: int| i <= j < es.len() && says(#[trigger] es[j], p),
        e.is_log ==> forall|j: int|
            i <= j < es.len() ==> slot_of_value((#[trigger] es[j]).1) is Ok && log_id_of_key(
                es[j].0,
            ) is Ok,
    decreases es.len() - i,
{
    if i < es.len() {
        if e.is_log {
            let q = (slot_of_value(es[i].1)->Ok_0, log_id_of_key(es[i].0)->Ok_0);
            let more = pairs.push(q);
            lemma_check_entries_pairs(e, es, i + 1, more, p);
            if pairs.contains(p) {
                let k = choose|k: int| 0 <= k < pairs.len() && pairs[k] == p;
                assert(more[k] == p);
            }
            if more.contains(p) {
                let k = choose|k: int| 0 <= k < more.len() && more[k] == p;
                if k < pairs.len() {
                    assert(pairs[k] == p);
                } else {
                    assert(says(es[i], p));
                }
            }
            if says(es[i], p) {
                assert(more[pairs.len() as int] == p);
            }
        } else {
            lemma_check_entries_pairs(e, es, i + 1, pairs, p);
        }
    }
}

/// A leaf under the node says so.
pub open spec fn leaf_says(img: Image, slot: u64, p: Pointer) -> bool {
    exists|en: EntryView| #[trigger] in_leaf(img, slot, en) && says(en, p)
}

proof fn lemma_leaf_says_kids(img: Image, slot: u64, cs: Seq<ChildView>, p: Pointer)
    requires
        any_node_at(img, slot) matches Ok(NodeView::Internal(n)) && n.children == cs,
    ensures
        leaf_says(img, slot, p) <==> exists|i: int|
            0 <= i < cs.len() && leaf_says(img, (#[trigger] cs[i]).child_slot, p),
{
    if leaf_says(img, slot, p) {
        let en = choose|en: EntryView| #[trigger] in_leaf(img, slot, en) && says(en, p);
        lemma_in_leaf_kids(img, slot, cs, en);
        let i = choose|i: int|
            0 <= i < cs.len() && in_leaf(img, (#[trigger] cs[i]).child_slot, en);
        assert(leaf_says(img, cs[i].child_slot, p));
    }
    assert forall|i: int|
        0 <= i < cs.len() && leaf_says(img, (#[trigger] cs[i]).child_slot, p) implies leaf_says(
        img,
        slot,
        p,
    ) by {
        let en = choose|en: EntryView| #[trigger]
            in_leaf(img, cs[i].child_slot, en) && says(en, p);
        lemma_in_leaf_kids(img, slot, cs, en);
        assert(in_leaf(img, slot, en));
    }
}

proof fn lemma_check_pairs(img: Image, e: Expected, st: CheckView, cap: int, p: Pointer)
    requires
        check(img, e, st, cap).end is Ok,
    ensures
        check(img, e, st, cap).st.pairs.contains(p) <==> st.pairs.contains(p) || e.is_log
            && leaf_says(img, e.slot, p),
    decreases cap - e.depth + 1, 0int,
{
    let next = CheckView { w: walk_step(st.w, e.slot), chunks: st.chunks + 1, ..st };
    let node = check_node(img, e)->Ok_0;
    assert(any_node_at(img, e.slot) == Ok::<NodeView, Error>(node));
    match node {
        NodeView::Leaf(l) => {
            lemma_check_entries_pairs(e, l.entries, 0, st.pairs, p);
            lemma_leads_here(img, e.slot);
            if leaf_says(img, e.slot, p) {
                let en = choose|en: EntryView| #[trigger] in_leaf(img, e.slot, en) && says(en, p);
                let to = choose|to: u64| #[trigger]
                    leads_down(img, e.slot, to) && (any_node_at(img, to) matches Ok(
                        NodeView::Leaf(x),
                    ) && x.entries.contains(en));
                if to != e.slot {
                    lemma_leads_first(img, e.slot, to);
                }
                let j = choose|j: int| 0 <= j < l.entries.len() && l.entries[j] == en;
                assert(says(l.entries[j], p));
            }
            if exists|j: int| 0 <= j < l.entries.len() && says(#[trigger] l.entries[j], p) {
                let j = choose|j: int| 0 <= j < l.entries.len() && says(#[trigger] l.entries[j], p);
                assert(l.entries.contains(l.entries[j]));
                assert(in_leaf(img, e.slot, l.entries[j]));
            }
        },
        NodeView::Internal(n) => {
            lemma_check_kids_pairs(img, e, n.children, 0, next, 0, cap, p);
            lemma_leaf_says_kids(img, e.slot, n.children, p);
        },
    }
}

proof fn lemma_check_kids_pairs(
    img: Image,
    e: Expected,
    cs: Seq<ChildView>,
    i: int,
    st: CheckView,
    deepest: int,
    cap: int,
    p: Pointer,
)
    requires
        0 <= i <= cs.len(),
        e.depth <= cap,
        check_kids(img, e, cs, i, st, deepest, cap).end is Ok,
    ensures
        check_kids(img, e, cs, i, st, deepest, cap).st.pairs.contains(p) <==> st.pairs.contains(p)
            || e.is_log && exists|j: int|
            i <= j < cs.len() && leaf_says(img, (#[trigger] cs[j]).child_slot, p),
    decreases cap - e.depth, cs.len() - i + 1,
{
    if i < cs.len() {
        let x = check(img, expected_child(e, cs, i), st, cap);
        lemma_check_pairs(img, expected_child(e, cs, i), st, cap, p);
        let d = x.end->Ok_0;
        let more = if d + 1 > deepest {
            d + 1
        } else {
            deepest
        };
        lemma_check_kids_pairs(img, e, cs, i + 1, x.st, more, cap, p);
        assert(forall|j: int|
            i <= j < cs.len() && leaf_says(img, (#[trigger] cs[j]).child_slot, p) ==> j == i || i
                + 1 <= j);
    }
}

/// A log among the roots says that a record is in a batch.
pub open spec fn commit_says(img: Image, rs: Seq<RootView>, i: int, p: Pointer) -> bool {
    exists|j: int|
        i <= j < rs.len() && (#[trigger] rs[j]).kind == NamespaceKind::Log && leaf_says(
            img,
            rs[j].index_slot,
            p,
        )
}

proof fn lemma_check_roots_pairs(
    img: Image,
    rs: Seq<RootView>,
    i: int,
    st: CheckView,
    levels: int,
    p: Pointer,
)
    requires
        0 <= i <= rs.len(),
        check_roots(img, rs, i, st, levels).end is Ok,
    ensures
        check_roots(img, rs, i, st, levels).st.pairs.contains(p) <==> st.pairs.contains(p)
            || commit_says(img, rs, i, p),
    decreases rs.len() - i,
{
    if i < rs.len() {
        let cap = st.w.max_depth as int;
        let x = check(img, expected_root(rs[i]), st, cap);
        lemma_check_pairs(img, expected_root(rs[i]), st, cap, p);
        let d = x.end->Ok_0;
        let more = if d + 1 > levels {
            d + 1
        } else {
            levels
        };
        lemma_check_roots_pairs(img, rs, i + 1, x.st, more, p);
        assert(forall|j: int|
            i <= j < rs.len() && (#[trigger] rs[j]).kind == NamespaceKind::Log && leaf_says(
                img,
                rs[j].index_slot,
                p,
            ) ==> j == i || i + 1 <= j);
    }
}

/// The slots of pairs from position `i` on.
pub open spec fn slots_from(ps: Seq<Pointer>, i: int) -> Set<u64> {
    Set::new(|s: u64| exists|j: int| i <= j < ps.len() && (#[trigger] ps[j]).0 == s)
}

/// Batches are counted once each.
proof fn lemma_batches_counted(img: Image, ps: Seq<Pointer>, i: int, w: WalkView, n: nat)
    requires
        0 <= i <= ps.len(),
        pairs_rise(ps),
        check_batches(img, ps, i, w, n).end is Ok,
    ensures
        slots_from(ps, i).finite(),
        check_batches(img, ps, i, w, n).end->Ok_0 == n + if i > 0 && i < ps.len() && ps[i - 1].0
            == ps[i].0 {
            slots_from(ps, i).len() - 1
        } else {
            slots_from(ps, i).len() as int
        },
    decreases ps.len() - i,
{
    if i < ps.len() {
        let slot = ps[i].0;
        let first = i == 0 || ps[i - 1].0 != slot;
        let w1 = if first {
            walk_step(w, slot)
        } else {
            w
        };
        let n1 = if first {
            n + 1
        } else {
            n
        };
        lemma_batches_counted(img, ps, i + 1, w1, n1);
        let rest = slots_from(ps, i + 1);
        let all = slots_from(ps, i);
        assert(all =~= rest.insert(slot)) by {
            assert forall|s: u64| all.contains(s) <==> rest.insert(slot).contains(s) by {
                if all.contains(s) {
                    let j = choose|j: int| i <= j < ps.len() && (#[trigger] ps[j]).0 == s;
                    if j > i {
                        assert(ps[j].0 == s);
                    }
                }
                if rest.contains(s) {
                    let j = choose|j: int| i + 1 <= j < ps.len() && (#[trigger] ps[j]).0 == s;
                    assert(ps[j].0 == s);
                }
                assert(ps[i].0 == slot);
            }
        }
        if i + 1 < ps.len() && ps[i + 1].0 == slot {
            assert(rest.contains(slot));
        } else {
            assert(!rest.contains(slot)) by {
                if rest.contains(slot) {
                    let j = choose|j: int| i + 1 <= j < ps.len() && (#[trigger] ps[j]).0 == slot;
                    if j > i + 1 {
                        assert(pair_lt(ps[i], ps[i + 1]));
                        assert(pair_lt(ps[i + 1], ps[j]));
                    }
                }
            }
        }
    } else {
        assert(slots_from(ps, i) =~= Set::<u64>::empty());
    }
}

// ---------------------------------------------------------------------------
// The report
// ---------------------------------------------------------------------------

/// The batches that entries of logs name.
pub open spec fn named_batches(s: Space) -> Set<u64> {
    Set::new(|slot: u64| is_named(s, slot))
}

/// What a check that passes reports: how many namespaces there are; how many
/// chunks the commit leads to, itself included; the length of the longest trail;
/// and how many batches the entries of its logs name, each of which holds the
/// record that the entry is about.
pub proof fn law_report_counts(s: Space, e: EntryView, i: int)
    requires
        s.wf(),
        check_all(s) is Ok,
        s.state.superblock.root_slot != NO_RECORD,
    ensures
        ({
            let rs = s.roots()->Ok_0;
            let (namespaces, chunks, levels, batches) = check_all(s)->Ok_0;
            &&& namespaces == rs.len()
            &&& chunks == Set::<u64>::new(
                |to: u64| to == s.state.superblock.root_slot || reached(s, to),
            ).len()
            &&& forall|j: int, path: Seq<u64>|
                0 <= j < rs.len() && #[trigger] trail(s.file@, rs[j].index_slot, path)
                    ==> path.len() <= levels
            &&& rs.len() > 0 ==> exists|j: int|
                0 <= j < rs.len() && #[trigger] reaches_down(s.file@, rs[j].index_slot, levels)
            &&& rs.len() == 0 ==> levels == 0
            &&& batches == named_batches(s).len()
            &&& 0 <= i < rs.len() && rs[i].kind == NamespaceKind::Log && in_leaf(
                s.file@,
                rs[i].index_slot,
                e,
            ) ==> record_is_there(s.file@, e)
        }),
{
    let img = s.file@;
    let root = s.state.superblock.root_slot;
    let rs = check_commit(img, s.state.superblock@)->Ok_0.roots;
    assert(s.roots() == Ok::<Seq<RootView>, Error>(rs));
    let st = check_start(s);
    let t = check_roots(img, rs, 0, st, 0);
    lemma_check_roots_chunks(img, rs, 0, st, 0);
    assert(st.w.visited =~= set![root]);
    assert(t.st.w.visited =~= Set::<u64>::new(|to: u64| to == root || reached(s, to))) by {
        assert forall|to: u64|
            t.st.w.visited.contains(to) <==> to == root || reached(s, to) by {
            assert(t.st.w.visited.contains(to) <==> st.w.visited.contains(to) || exists|j: int|
                0 <= j < rs.len() && leads_down(img, (#[trigger] rs[j]).index_slot, to));
        }
    }
    lemma_check_roots_levels(img, rs, 0, st, 0);
    let levels = t.end->Ok_0;
    if rs.len() > 0 {
        let path = seq![rs[0].index_slot];
        assert(trail(img, rs[0].index_slot, path));
        assert(path.len() <= levels);
    }
    let ps = sorted_pairs(t.st.pairs);
    lemma_sorted_exists(t.st.pairs);
    lemma_batches_counted(img, ps, 0, t.st.w, 0);
    assert(slots_from(ps, 0) =~= named_batches(s)) by {
        assert forall|slot: u64| slots_from(ps, 0).contains(slot) <==> is_named(s, slot) by {
            if slots_from(ps, 0).contains(slot) {
                let j = choose|j: int| 0 <= j < ps.len() && (#[trigger] ps[j]).0 == slot;
                assert(ps.contains(ps[j]));
                assert(t.st.pairs.contains(ps[j]));
                lemma_check_roots_pairs(img, rs, 0, st, 0, ps[j]);
                let m = choose|m: int|
                    0 <= m < rs.len() && (#[trigger] rs[m]).kind == NamespaceKind::Log && leaf_says(
                        img,
                        rs[m].index_slot,
                        ps[j],
                    );
                let en = choose|en: EntryView| #[trigger]
                    in_leaf(img, rs[m].index_slot, en) && says(en, ps[j]);
                assert(in_leaf(s.file@, s.roots()->Ok_0[m].index_slot, en));
            }
            if is_named(s, slot) {
                let (m, en) = choose|m: int, en: EntryView|
                    0 <= m < s.roots()->Ok_0.len() && s.roots()->Ok_0[m].kind == NamespaceKind::Log
                        && #[trigger] in_leaf(s.file@, s.roots()->Ok_0[m].index_slot, en)
                        && slot_of_value(en.1) == Ok::<u64, Error>(slot);
                lemma_entry_is_noted(s, rs, m, en);
                let p = (slot, log_id_of_key(en.0)->Ok_0);
                assert(ps.contains(p));
                let j = choose|j: int| 0 <= j < ps.len() && ps[j] == p;
                assert(ps[j].0 == slot);
            }
        }
    }
    if 0 <= i < rs.len() && rs[i].kind == NamespaceKind::Log && in_leaf(
        img,
        rs[i].index_slot,
        e,
    ) {
        lemma_entry_is_noted(s, rs, i, e);
        let p = (slot_of_value(e.1)->Ok_0, log_id_of_key(e.0)->Ok_0);
        assert(ps.contains(p));
        let j = choose|j: int| 0 <= j < ps.len() && ps[j] == p;
        lemma_batches_passed(img, ps, 0, t.st.w, 0, j);
        lemma_id_is_there(check_batch(img, p.0)->Ok_0, p.1);
        assert(record_is_there(img, e));
    }
    assert(check_all(s)->Ok_0.0 == rs.len());
    assert(check_all(s)->Ok_0.1 == t.st.chunks);
    assert(check_all(s)->Ok_0.2 == levels);
    assert(t.st.chunks == t.st.w.visited.len());
    assert(check_all(s)->Ok_0.3 == slots_from(ps, 0).len());
    assert(rs.len() > 0 ==> exists|j: int|
        0 <= j < rs.len() && #[trigger] reaches_down(s.file@, rs[j].index_slot, levels));
}

/// The entry has a record number for a key and a slot for a value, and the batch
/// in that slot holds a record with that number.
pub open spec fn record_is_there(img: Image, e: EntryView) -> bool {
    &&& log_id_of_key(e.0) is Ok
    &&& slot_of_value(e.1) is Ok
    &&& chunk_at(img, slot_of_value(e.1)->Ok_0) matches Ok(p) && p.kind == ChunkKind::DataBatch && (
    batch_decode(p.payload) matches Ok(rs) && exists|k: int|
        0 <= k < rs.len() && (#[trigger] rs[k]).0 == log_id_of_key(e.0)->Ok_0)
}

proof fn lemma_id_is_there(rs: Seq<RecordView>, id: u64)
    requires
        last_with_id(rs, id) is Some,
    ensures
        exists|k: int| 0 <= k < rs.len() && (#[trigger] rs[k]).0 == id,
    decreases rs.len(),
{
    if rs.last().0 == id {
        assert(rs[rs.len() - 1].0 == id);
    } else {
        let init = rs.drop_last();
        lemma_id_is_there(init, id);
        let k = choose|k: int| 0 <= k < init.len() && (#[trigger] init[k]).0 == id;
        assert(rs[k].0 == id);
    }
}

/// In a space that passes, an entry of a log has been noted.
proof fn lemma_entry_is_noted(s: Space, rs: Seq<RootView>, m: int, en: EntryView)
    requires
        s.state.superblock.root_slot != NO_RECORD,
        check_all(s) is Ok,
        rs == check_commit(s.file@, s.state.superblock@)->Ok_0.roots,
        0 <= m < rs.len(),
        rs[m].kind == NamespaceKind::Log,
        in_leaf(s.file@, rs[m].index_slot, en),
    ensures
        slot_of_value(en.1) is Ok,
        log_id_of_key(en.0) is Ok,
        check_roots(s.file@, rs, 0, check_start(s), 0).st.pairs.contains(
            (slot_of_value(en.1)->Ok_0, log_id_of_key(en.0)->Ok_0),
        ),
{
    lemma_entries_parse(s.file@, rs, 0, check_start(s), 0, m, en);
    let p = (slot_of_value(en.1)->Ok_0, log_id_of_key(en.0)->Ok_0);
    assert(says(en, p));
    assert(leaf_says(s.file@, rs[m].index_slot, p));
    lemma_check_roots_pairs(s.file@, rs, 0, check_start(s), 0, p);
    assert(commit_says(s.file@, rs, 0, p));
}

proof fn lemma_entries_parse(
    img: Image,
    rs: Seq<RootView>,
    i: int,
    st: CheckView,
    levels: int,
    m: int,
    en: EntryView,
)
    requires
        0 <= i <= m < rs.len(),
        check_roots(img, rs, i, st, levels).end is Ok,
        rs[m].kind == NamespaceKind::Log,
        in_leaf(img, rs[m].index_slot, en),
    ensures
        slot_of_value(en.1) is Ok,
        log_id_of_key(en.0) is Ok,
    decreases rs.len() - i,
{
    let cap = st.w.max_depth as int;
    let x = check(img, expected_root(rs[i]), st, cap);
    if i == m {
        lemma_leaf_parses(img, expected_root(rs[i]), st, cap, en);
    } else {
        let d = x.end->Ok_0;
        lemma_entries_parse(
            img,
            rs,
            i + 1,
            x.st,
            if d + 1 > levels {
                d + 1
            } else {
                levels
            },
            m,
            en,
        );
    }
}

proof fn lemma_leaf_parses(img: Image, e: Expected, st: CheckView, cap: int, en: EntryView)
    requires
        check(img, e, st, cap).end is Ok,
        e.is_log,
        in_leaf(img, e.slot, en),
    ensures
        slot_of_value(en.1) is Ok,
        log_id_of_key(en.0) is Ok,
    decreases cap - e.depth + 1,
{
    let next = CheckView { w: walk_step(st.w, e.slot), chunks: st.chunks + 1, ..st };
    let node = check_node(img, e)->Ok_0;
    assert(any_node_at(img, e.slot) == Ok::<NodeView, Error>(node));
    match node {
        NodeView::Leaf(l) => {
            lemma_check_entries_pairs(e, l.entries, 0, st.pairs, (0, 0));
            let to = choose|to: u64| #[trigger]
                leads_down(img, e.slot, to) && (any_node_at(img, to) matches Ok(NodeView::Leaf(x))
                    && x.entries.contains(en));
            if to != e.slot {
                lemma_leads_first(img, e.slot, to);
            }
            let j = choose|j: int| 0 <= j < l.entries.len() && l.entries[j] == en;
            assert(slot_of_value(l.entries[j].1) is Ok);
        },
        NodeView::Internal(n) => {
            let cs = n.children;
            lemma_in_leaf_kids(img, e.slot, cs, en);
            let i = choose|i: int|
                0 <= i < cs.len() && in_leaf(img, (#[trigger] cs[i]).child_slot, en);
            let at = lemma_check_reaches(img, e, cs, 0, i, next, 0, cap);
            lemma_leaf_parses(img, expected_child(e, cs, i), at, cap, en);
        },
    }
}

// ---------------------------------------------------------------------------
// Faults
// ---------------------------------------------------------------------------

/// The entries of a leaf are at fault in the leaf's slot.
proof fn lemma_entries_fault(e: Expected, es: Seq<EntryView>, i: int, pairs: Seq<Pointer>)
    requires
        0 <= i <= es.len(),
    ensures
        check_entries(e, es, i, pairs) matches Err(why) ==> (why matches Error::IntegrityFailure {
            slot,
            ..
        } && slot == e.slot),
    decreases es.len() - i,
{
    if i < es.len() {
        lemma_entries_fault(e, es, i + 1, pairs);
        if e.is_log && log_id_of_key(es[i].0) is Ok && slot_of_value(es[i].1) is Ok {
            let p = (slot_of_value(es[i].1)->Ok_0, log_id_of_key(es[i].0)->Ok_0);
            lemma_entries_fault(e, es, i + 1, pairs.push(p));
        }
    }
}

proof fn lemma_check_fault(img: Image, e: Expected, st: CheckView, cap: int)
    requires
        st.w.capacity <= img.len(),
    ensures
        check(img, e, st, cap).st.w.capacity == st.w.capacity,
        check(img, e, st, cap).end matches Err(why) ==> (why matches Error::IntegrityFailure {
            slot,
            ..
        } && leads_down(img, e.slot, slot)),
    decreases cap - e.depth + 1, 0int,
{
    lemma_leads_here(img, e.slot);
    if walk_refusal(st.w, e.slot, e.depth) is None && e.depth <= cap {
        let next = CheckView { w: walk_step(st.w, e.slot), chunks: st.chunks + 1, ..st };
        match check_node(img, e) {
            Err(_) => {},
            Ok(NodeView::Leaf(l)) => {
                lemma_entries_fault(e, l.entries, 0, st.pairs);
            },
            Ok(NodeView::Internal(n)) => {
                let cs = n.children;
                assert(any_node_at(img, e.slot) == Ok::<NodeView, Error>(NodeView::Internal(n)));
                lemma_check_kids_fault(img, e, cs, 0, next, 0, cap);
                if let Err(Error::IntegrityFailure { slot, .. }) = check_kids(
                    img,
                    e,
                    cs,
                    0,
                    next,
                    0,
                    cap,
                ).end {
                    let i = choose|i: int|
                        0 <= i < cs.len() && leads_down(img, (#[trigger] cs[i]).child_slot, slot);
                    lemma_leads_through(img, e.slot, cs, i, slot);
                }
            },
        }
    }
}

proof fn lemma_check_kids_fault(
    img: Image,
    e: Expected,
    cs: Seq<ChildView>,
    i: int,
    st: CheckView,
    deepest: int,
    cap: int,
)
    requires
        0 <= i <= cs.len(),
        e.depth <= cap,
        st.w.capacity <= img.len(),
    ensures
        check_kids(img, e, cs, i, st, deepest, cap).st.w.capacity == st.w.capacity,
        check_kids(img, e, cs, i, st, deepest, cap).end matches Err(why) ==> (
        why matches Error::IntegrityFailure { slot, .. } && exists|j: int|
            i <= j < cs.len() && leads_down(img, (#[trigger] cs[j]).child_slot, slot)),
    decreases cap - e.depth, cs.len() - i + 1,
{
    if i < cs.len() {
        let x = check(img, expected_child(e, cs, i), st, cap);
        lemma_check_fault(img, expected_child(e, cs, i), st, cap);
        if let Ok(d) = x.end {
            let more = if d + 1 > deepest {
                d + 1
            } else {
                deepest
            };
            lemma_check_kids_fault(img, e, cs, i + 1, x.st, more, cap);
        } else {
            assert(leads_down(img, cs[i].child_slot, x.end->Err_0->IntegrityFailure_slot));
        }
    }
}

proof fn lemma_check_roots_fault(
    img: Image,
    rs: Seq<RootView>,
    i: int,
    st: CheckView,
    levels: int,
)
    requires
        0 <= i <= rs.len(),
        st.w.capacity <= img.len(),
    ensures
        check_roots(img, rs, i, st, levels).st.w.capacity == st.w.capacity,
        check_roots(img, rs, i, st, levels).end matches Err(why) ==> (
        why matches Error::IntegrityFailure { slot, .. } && exists|j: int|
            i <= j < rs.len() && leads_down(img, (#[trigger] rs[j]).index_slot, slot)),
    decreases rs.len() - i,
{
    if i < rs.len() {
        let cap = st.w.max_depth as int;
        let x = check(img, expected_root(rs[i]), st, cap);
        lemma_check_fault(img, expected_root(rs[i]), st, cap);
        if let Ok(d) = x.end {
            let more = if d + 1 > levels {
                d + 1
            } else {
                levels
            };
            lemma_check_roots_fault(img, rs, i + 1, x.st, more);
        } else {
            assert(leads_down(img, rs[i].index_slot, x.end->Err_0->IntegrityFailure_slot));
        }
    }
}

proof fn lemma_batches_fault(img: Image, ps: Seq<Pointer>, i: int, w: WalkView, n: nat)
    requires
        0 <= i <= ps.len(),
        w.capacity <= img.len(),
        i > 0 ==> ps[i - 1].0 < img.len(),
    ensures
        check_batches(img, ps, i, w, n).end matches Err(why) ==> (
        why matches Error::IntegrityFailure { slot, .. } && exists|j: int|
            i <= j < ps.len() && (#[trigger] ps[j]).0 == slot),
    decreases ps.len() - i,
{
    if i < ps.len() {
        let slot = ps[i].0;
        let first = i == 0 || ps[i - 1].0 != slot;
        let w1 = if first {
            walk_step(w, slot)
        } else {
            w
        };
        let n1 = if first {
            n + 1
        } else {
            n
        };
        assert(ps[i].0 == slot);
        if !first || walk_refusal(w, slot, 0) is None {
            lemma_batches_fault(img, ps, i + 1, w1, n1);
        }
    }
}

/// Where a check fails, it is a fault, and it names a slot that the check came to:
/// that of the commit record, one that a trail from a root leads to, or one that
/// an entry of a log names.
pub proof fn law_faults_name_their_slot(s: Space)
    requires
        s.wf(),
        check_all(s) is Err,
    ensures
        check_all(s)->Err_0 matches Error::IntegrityFailure { slot, .. } && (slot
            == s.state.superblock.root_slot || reached(s, slot) || is_named(s, slot)),
{
    let img = s.file@;
    let count = s.file.slots.len();
    assert(img.len() == count);
    let root = s.state.superblock.root_slot;
    let w = s.walk_now();
    if walk_refusal(w, root, 0) is None && check_commit(img, s.state.superblock@) is Ok {
        let rs = check_commit(img, s.state.superblock@)->Ok_0.roots;
        assert(s.roots() == Ok::<Seq<RootView>, Error>(rs));
        let st = check_start(s);
        let t = check_roots(img, rs, 0, st, 0);
        lemma_check_roots_fault(img, rs, 0, st, 0);
        if t.end is Ok {
            let ps = sorted_pairs(t.st.pairs);
            lemma_sorted_exists(t.st.pairs);
            lemma_batches_fault(img, ps, 0, t.st.w, 0);
            let slot = check_all(s)->Err_0->IntegrityFailure_slot;
            let j = choose|j: int| 0 <= j < ps.len() && (#[trigger] ps[j]).0 == slot;
            assert(ps.contains(ps[j]));
            assert(t.st.pairs.contains(ps[j]));
            lemma_check_roots_pairs(img, rs, 0, st, 0, ps[j]);
            let m = choose|m: int|
                0 <= m < rs.len() && (#[trigger] rs[m]).kind == NamespaceKind::Log && leaf_says(
                    img,
                    rs[m].index_slot,
                    ps[j],
                );
            let en = choose|en: EntryView| #[trigger]
                in_leaf(img, rs[m].index_slot, en) && says(en, ps[j]);
            assert(in_leaf(s.file@, s.roots()->Ok_0[m].index_slot, en));
        } else {
            let slot = t.end->Err_0->IntegrityFailure_slot;
            let j = choose|j: int|
                0 <= j < rs.len() && leads_down(img, (#[trigger] rs[j]).index_slot, slot);
            assert(leads_down(s.file@, s.roots()->Ok_0[j].index_slot, slot));
        }
    }
}

} // verus!
