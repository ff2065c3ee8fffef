//! How a walk over a tree goes on: from a node to its children, in order, and as
//! far as nothing is amiss.

use vstd::prelude::*;

use crate::bytes::{lemma_lex_total, lemma_lex_trans, lex_le, lex_lt};
use crate::chunk::ChunkKind;
use crate::container::{chunk_at, Image};
use crate::error::Error;
use crate::space::index::{
    child_index, lemma_child_index_unique, lookup, node_decode, ChildView, EntryView, InternalView,
    LeafView, Namespace, NodeView,
};
use crate::space::integrity::{
    check, check_batch, check_batches, check_commit, check_entries, check_kids, expected_child,
    CheckView, Checked, Expected, Pointer,
};
use crate::space::log::{
    batch_decode, last_with_id, log_id_of_key, slot_of_value, RecordView,
};
use crate::space::reads::{
    everything, gather, gather_back, gather_kids, gather_kids_back, scan, scan_back, search,
    Gathered, QueryView,
};
use crate::space::stats::lemma_scan_everything;
use crate::space::superblock::SuperblockView;
use crate::space::update::lemma_node_legal;
use crate::space::vacuum::{tread, tread_kids, Trodden};
use crate::space::walk::{depth_bound, walk_step, WalkView};
use crate::space::{any_node_at, node_at, Space};
use crate::tx::commit::{blake3_digest, commit_decode, tx_root_digest, CommitView};

verus! {

/// A walk may go to the slot: it is not too deep, has chunks left, and the slot is
/// in the file and new to it.
pub open spec fn may_go(w: WalkView, slot: u64, depth: int) -> bool {
    depth <= w.max_depth && w.budget > 0 && slot < w.capacity && !w.visited.contains(slot)
}

/// What a walk is after going to a slot: the slot is known to it, and it has one
/// chunk fewer left.
pub proof fn law_a_step_of_a_walk(w: WalkView, slot: u64, other: u64)
    requires
        w.budget > 0,
    ensures
        walk_step(w, slot).visited.contains(slot),
        other != slot ==> (walk_step(w, slot).visited.contains(other) <==> w.visited.contains(
            other,
        )),
        walk_step(w, slot).budget == w.budget - 1,
        walk_step(w, slot).capacity == w.capacity,
        walk_step(w, slot).max_depth == w.max_depth,
{
}

// ---------------------------------------------------------------------------
// One key
// ---------------------------------------------------------------------------

/// A search gives what a leaf says of the key; it goes on to the last child whose
/// first key is not greater than the key, or to the first where all are; and it
/// fails where it may not go, or where the node does not open as one of the
/// namespace.
pub proof fn law_a_step_of_a_search(
    img: Image,
    ns: Namespace,
    key: Seq<u8>,
    slot: u64,
    depth: int,
    w: WalkView,
    i: int,
)
    ensures
        ({
            let cap = w.max_depth as int;
            let r = search(img, ns, key, slot, depth, w, cap);
            &&& !may_go(w, slot, depth) ==> r is Err && r->Err_0 is Malformed
            &&& may_go(w, slot, depth) ==> match node_at(img, slot, ns) {
                Err(e) => r == Err::<Option<Seq<u8>>, Error>(e),
                Ok(NodeView::Leaf(l)) => r == Ok::<Option<Seq<u8>>, Error>(lookup(l.entries, key)),
                Ok(NodeView::Internal(n)) => 0 <= i < n.children.len() && (i == 0 || lex_le(
                    n.children[i].first_key,
                    key,
                )) && (i + 1 < n.children.len() ==> lex_lt(key, n.children[i + 1].first_key))
                    ==> r == search(
                    img,
                    ns,
                    key,
                    n.children[i].child_slot,
                    depth + 1,
                    walk_step(w, slot),
                    cap,
                ),
            }
        }),
{
    if may_go(w, slot, depth) {
        if let Ok(NodeView::Internal(n)) = node_at(img, slot, ns) {
            let cs = n.children;
            if 0 <= i < cs.len() && (i == 0 || lex_le(cs[i].first_key, key)) && (i + 1 < cs.len()
                ==> lex_lt(key, cs[i + 1].first_key)) {
                lemma_node_legal(img, slot, ns);
                assert forall|j: int| i < j < cs.len() implies lex_lt(
                    key,
                    (#[trigger] cs[j]).first_key,
                ) by {
                    if j > i + 1 {
                        lemma_lex_trans(key, cs[i + 1].first_key, cs[j].first_key);
                    }
                }
                lemma_child_index_unique(cs, key, i);
            }
        }
    }
}

// ---------------------------------------------------------------------------
// Everything
// ---------------------------------------------------------------------------

/// To read everything under a leaf is to read its entries; under a node it is to
/// read everything under its children, one after the other.
pub proof fn law_a_step_of_a_list(
    img: Image,
    ns: Namespace,
    slot: u64,
    depth: int,
    w: WalkView,
    out: Seq<EntryView>,
    cs: Seq<ChildView>,
    i: int,
)
    ensures
        ({
            let cap = w.max_depth as int;
            let g = gather(img, ns, everything(), slot, depth, w, out, cap);
            &&& !may_go(w, slot, depth) ==> g.end is Err
            &&& may_go(w, slot, depth) ==> match node_at(img, slot, ns) {
                Err(e) => g.end == Err::<bool, Error>(e),
                Ok(NodeView::Leaf(l)) => g.end == Ok::<bool, Error>(false) && g.out == out
                    + l.entries,
                Ok(NodeView::Internal(n)) => g == gather_kids(
                    img,
                    ns,
                    everything(),
                    n.children,
                    0,
                    depth + 1,
                    walk_step(w, slot),
                    out,
                    cap,
                ),
            }
            &&& gather_kids(
                img,
                ns,
                everything(),
                cs,
                cs.len() as int,
                depth,
                w,
                out,
                cap,
            ) == (Gathered { w, out, end: Ok(false) })
            &&& 0 <= i < cs.len() ==> ({
                let one = gather(img, ns, everything(), cs[i].child_slot, depth, w, out, cap);
                let all = gather_kids(img, ns, everything(), cs, i, depth, w, out, cap);
                &&& one.end is Err ==> all.end == one.end
                &&& one.end == Ok::<bool, Error>(false) ==> all == gather_kids(
                    img,
                    ns,
                    everything(),
                    cs,
                    i + 1,
                    depth,
                    one.w,
                    one.out,
                    cap,
                )
            })
        }),
{
    if may_go(w, slot, depth) {
        if let Ok(NodeView::Leaf(l)) = node_at(img, slot, ns) {
            lemma_scan_everything(l.entries, 0, walk_step(w, slot), out);
            assert(l.entries.skip(0) =~= l.entries);
        }
    }
}

// ---------------------------------------------------------------------------
// Pages
// ---------------------------------------------------------------------------

/// As much has been taken as was asked for.
pub open spec fn enough(q: QueryView, n: nat) -> bool {
    q.limit matches Some(l) && n >= l
}

/// The key comes before what was asked for: before where it begins, or at it where
/// that is not included.
pub open spec fn comes_before(q: QueryView, key: Seq<u8>) -> bool {
    q.from matches Some(f) && (lex_lt(key, f) || key == f && !q.inclusive)
}

/// The key comes after what was asked for: at where it ends, or after it.
pub open spec fn comes_after(q: QueryView, key: Seq<u8>) -> bool {
    q.until matches Some(u) && (key == u || lex_lt(u, key))
}

/// Of the entries of a leaf a page takes those that lie in what was asked for, in
/// order and until there are enough; those before it are passed over, and one after
/// it ends the page. In a log a key that is not a number is an error.
pub proof fn law_what_a_page_takes(
    q: QueryView,
    es: Seq<EntryView>,
    i: int,
    w: WalkView,
    out: Seq<EntryView>,
)
    requires
        0 <= i < es.len(),
    ensures
        ({
            let r = scan(q, es, i, w, out);
            let e = es[i];
            let odd = q.log && e.0.len() != 8;
            &&& enough(q, out.len()) ==> r.end == Ok::<bool, Error>(true) && r.out == out
            &&& !enough(q, out.len()) && odd ==> r.end is Err && r.end->Err_0 is WrongNamespaceKind
            &&& !enough(q, out.len()) && !odd && comes_before(q, e.0) ==> r == scan(
                q,
                es,
                i + 1,
                w,
                out,
            )
            &&& !enough(q, out.len()) && !odd && !comes_before(q, e.0) && comes_after(q, e.0)
                ==> r.end == Ok::<bool, Error>(true) && r.out == out
            &&& !enough(q, out.len()) && !odd && !comes_before(q, e.0) && !comes_after(q, e.0)
                ==> r == scan(q, es, i + 1, w, out.push(e))
            &&& scan(q, es, es.len() as int, w, out) == (Gathered {
                w,
                out,
                end: Ok(enough(q, out.len())),
            })
        }),
{
    if let Some(f) = q.from {
        lemma_lex_total(es[i].0, f);
    }
    if let Some(u) = q.until {
        lemma_lex_total(es[i].0, u);
    }
}

/// Backwards, a page takes entries from the last one before where it ends, until
/// there are enough.
pub proof fn law_what_a_page_takes_backwards(
    q: QueryView,
    es: Seq<EntryView>,
    i: int,
    w: WalkView,
    out: Seq<EntryView>,
)
    requires
        0 < i <= es.len(),
    ensures
        ({
            let r = scan_back(q, es, i, w, out);
            let e = es[i - 1];
            let odd = q.log && e.0.len() != 8;
            &&& enough(q, out.len()) ==> r.end == Ok::<bool, Error>(true) && r.out == out
            &&& !enough(q, out.len()) && odd ==> r.end is Err && r.end->Err_0 is WrongNamespaceKind
            &&& !enough(q, out.len()) && !odd && comes_after(q, e.0) ==> r == scan_back(
                q,
                es,
                i - 1,
                w,
                out,
            )
            &&& !enough(q, out.len()) && !odd && !comes_after(q, e.0) ==> r == scan_back(
                q,
                es,
                i - 1,
                w,
                out.push(e),
            )
            &&& scan_back(q, es, 0, w, out) == (Gathered {
                w,
                out,
                end: Ok(enough(q, out.len())),
            })
        }),
{
    if let Some(u) = q.until {
        lemma_lex_total(es[i - 1].0, u);
    }
}

/// A page is read from the child on in which it begins, and backwards from the child
/// on in which it ends, child after child until there are enough.
pub proof fn law_where_a_page_is_read(
    img: Image,
    ns: Namespace,
    q: QueryView,
    slot: u64,
    depth: int,
    w: WalkView,
    out: Seq<EntryView>,
    n: InternalView,
)
    requires
        may_go(w, slot, depth),
        !enough(q, out.len()),
        node_at(img, slot, ns) == Ok::<NodeView, Error>(NodeView::Internal(n)),
    ensures
        ({
            let cap = w.max_depth as int;
            let cs = n.children;
            let first: int = match q.from {
                None => 0,
                Some(f) => child_index(cs, f),
            };
            let last: int = match q.until {
                None => cs.len() - 1,
                Some(u) => child_index(cs, u),
            };
            &&& gather(img, ns, q, slot, depth, w, out, cap) == gather_kids(
                img,
                ns,
                q,
                cs,
                first,
                depth + 1,
                walk_step(w, slot),
                out,
                cap,
            )
            &&& gather_back(img, ns, q, slot, depth, w, out, cap) == gather_kids_back(
                img,
                ns,
                q,
                cs,
                last + 1,
                depth + 1,
                walk_step(w, slot),
                out,
                cap,
            )
        }),
{
}

/// A walk starts with nothing gone to, may go to as many chunks as are owned, and to
/// no slot past the end of the file.
pub proof fn law_where_a_walk_starts(s: Space)
    requires
        s.wf(),
    ensures
        s.walk_now().visited == Set::<u64>::empty(),
        s.walk_now().budget == s.state.owned_slots@.len(),
        s.walk_now().capacity == s.file@.len(),
        s.walk_now().max_depth == depth_bound(s.state.owned_slots@.len()),
{
    let count = s.file.slots.len();
    assert(s.file@.len() == count);
}

// ---------------------------------------------------------------------------
// Treading
// ---------------------------------------------------------------------------

/// A walk that only notes where it was goes from a node to its children one after
/// the other, whatever namespace they name.
pub proof fn law_a_step_of_a_tread(
    img: Image,
    slot: u64,
    depth: int,
    w: WalkView,
    cs: Seq<ChildView>,
    i: int,
)
    ensures
        ({
            let cap = w.max_depth as int;
            let t = tread(img, slot, depth, w, cap);
            &&& !may_go(w, slot, depth) ==> t.end is Err
            &&& may_go(w, slot, depth) ==> match any_node_at(img, slot) {
                Err(e) => t.end == Err::<(), Error>(e),
                Ok(NodeView::Leaf(_)) => t == (Trodden { w: walk_step(w, slot), end: Ok(()) }),
                Ok(NodeView::Internal(n)) => t == tread_kids(
                    img,
                    n.children,
                    0,
                    depth + 1,
                    walk_step(w, slot),
                    cap,
                ),
            }
            &&& tread_kids(img, cs, cs.len() as int, depth, w, cap) == (Trodden { w, end: Ok(()) })
            &&& 0 <= i < cs.len() ==> ({
                let one = tread(img, cs[i].child_slot, depth, w, cap);
                let all = tread_kids(img, cs, i, depth, w, cap);
                &&& one.end is Err ==> all.end == one.end
                &&& one.end is Ok ==> all == tread_kids(img, cs, i + 1, depth, one.w, cap)
            })
        }),
{
}

// ---------------------------------------------------------------------------
// Checks
// ---------------------------------------------------------------------------

/// A key lies in the range: not before its lower end, and before its upper end,
/// where it has them.
pub open spec fn in_range(e: Expected, key: Seq<u8>) -> bool {
    &&& e.lower matches Some(lo) ==> !lex_lt(key, lo)
    &&& e.upper matches Some(hi) ==> lex_lt(key, hi)
}

/// The node is what leads to it says: it opens as an index node, hashes so, decodes,
/// and names the namespace.
pub open spec fn as_expected(img: Image, e: Expected, n: NodeView) -> bool {
    &&& chunk_at(img, e.slot) matches Ok(p) && p.kind == ChunkKind::IndexNode && blake3_digest(
        p.payload,
    ) == e.hash && node_decode(p.payload) == Ok::<NodeView, Error>(n)
    &&& (match n {
        NodeView::Leaf(l) => l.namespace,
        NodeView::Internal(k) => k.namespace,
    }) == e.namespace
}

/// A leaf passes a check if and only if it is what leads to it says, its keys lie in
/// its range, and, in a log, each of its entries is a number and a slot.
pub proof fn law_which_leaves_pass(
    img: Image,
    e: Expected,
    st: CheckView,
    l: LeafView,
)
    requires
        0 <= e.depth,
        as_expected(img, e, NodeView::Leaf(l)),
    ensures
        check(img, e, st, st.w.max_depth as int).end is Ok <==> may_go(st.w, e.slot, e.depth)
            && forall|i: int|
            0 <= i < l.entries.len() ==> in_range(e, (#[trigger] l.entries[i]).0) && (e.is_log
                ==> l.entries[i].0.len() == 8 && l.entries[i].1.len() == 8),
{
    lemma_which_entries_pass(e, l.entries, 0, st.pairs);
}

proof fn lemma_which_entries_pass(e: Expected, es: Seq<EntryView>, i: int, pairs: Seq<Pointer>)
    requires
        0 <= i <= es.len(),
    ensures
        check_entries(e, es, i, pairs) is Ok <==> forall|j: int|
            i <= j < es.len() ==> in_range(e, (#[trigger] es[j]).0) && (e.is_log ==> es[j].0.len()
                == 8 && es[j].1.len() == 8),
    decreases es.len() - i,
{
    if i < es.len() {
        lemma_which_entries_pass(e, es, i + 1, pairs);
        if e.is_log && log_id_of_key(es[i].0) is Ok && slot_of_value(es[i].1) is Ok {
            let p = (slot_of_value(es[i].1)->Ok_0, log_id_of_key(es[i].0)->Ok_0);
            lemma_which_entries_pass(e, es, i + 1, pairs.push(p));
        }
    }
}

/// A node passes if and only if it is what leads to it says, its first and its last
/// key lie in its range, and its children pass one after the other, each between
/// its own first key and that of the next.
pub proof fn law_which_nodes_pass(
    img: Image,
    e: Expected,
    st: CheckView,
    n: InternalView,
    i: int,
    deepest: int,
)
    requires
        0 <= e.depth,
        as_expected(img, e, NodeView::Internal(n)),
        n.children.len() > 0,
    ensures
        ({
            let cap = st.w.max_depth as int;
            let cs = n.children;
            let next = CheckView { w: walk_step(st.w, e.slot), chunks: st.chunks + 1, ..st };
            &&& check(img, e, st, cap).end is Ok <==> may_go(st.w, e.slot, e.depth) && (
            e.lower matches Some(lo) ==> !lex_lt(cs[0].first_key, lo)) && (e.upper matches Some(hi)
                ==> lex_lt(cs.last().first_key, hi)) && check_kids(
                img,
                e,
                cs,
                0,
                next,
                0,
                cap,
            ).end is Ok
            &&& e.depth <= cap && 0 <= i < cs.len() ==> ({
                let below = Expected {
                    slot: cs[i].child_slot,
                    hash: cs[i].child_hash,
                    namespace: e.namespace,
                    is_log: e.is_log,
                    lower: Some(cs[i].first_key),
                    upper: if i + 1 < cs.len() {
                        Some(cs[i + 1].first_key)
                    } else {
                        e.upper
                    },
                    depth: e.depth + 1,
                };
                let one = check(img, below, st, cap);
                let all = check_kids(img, e, cs, i, st, deepest, cap);
                &&& one.end is Err ==> all.end is Err
                &&& one.end matches Ok(d) ==> all == check_kids(
                    img,
                    e,
                    cs,
                    i + 1,
                    one.st,
                    if d + 1 > deepest {
                        d + 1
                    } else {
                        deepest
                    },
                    cap,
                )
            })
            &&& check_kids(img, e, cs, cs.len() as int, st, deepest, cap) == (Checked {
                st,
                end: Ok(deepest),
            })
        }),
{
    let cs = n.children;
    if 0 <= i < cs.len() {
        let c = expected_child(e, cs, i);
        assert(c.slot == cs[i].child_slot);
    }
}

/// A commit record passes if and only if it opens as one, decodes, and the hash over
/// its roots is both what the superblock says and what it says itself. A batch
/// passes if and only if it opens as one and decodes.
pub proof fn law_which_records_pass(
    img: Image,
    sb: SuperblockView,
    c: CommitView,
    slot: u64,
    rs: Seq<RecordView>,
)
    ensures
        check_commit(img, sb) == Ok::<CommitView, Error>(c) <==> (chunk_at(
            img,
            sb.root_slot,
        ) matches Ok(p) && p.kind == ChunkKind::Commit && commit_decode(p.payload) == Ok::<
            CommitView,
            Error,
        >(c)) && tx_root_digest(c.roots) == sb.root_hash && c.tx_root_hash == sb.root_hash,
        check_batch(img, slot) == Ok::<Seq<RecordView>, Error>(rs) <==> (chunk_at(
            img,
            slot,
        ) matches Ok(p) && p.kind == ChunkKind::DataBatch && batch_decode(p.payload) == Ok::<
            Seq<RecordView>,
            Error,
        >(rs)),
{
}

/// The batches that a log's entries point at pass if and only if a walk may go to
/// each of them once, each passes, and each holds the records it should.
pub proof fn law_a_step_of_the_batches(img: Image, ps: Seq<Pointer>, i: int, w: WalkView, n: nat)
    requires
        0 <= i < ps.len(),
    ensures
        ({
            let (slot, id) = ps[i];
            let again = i > 0 && ps[i - 1].0 == slot;
            let all = check_batches(img, ps, i, w, n);
            let held = check_batch(img, slot) matches Ok(rs) && last_with_id(rs, id) is Some;
            &&& !again && !may_go(w, slot, 0) ==> all.end is Err
            &&& !held ==> all.end is Err
            &&& held && again ==> all == check_batches(img, ps, i + 1, w, n)
            &&& held && !again && may_go(w, slot, 0) ==> all == check_batches(
                img,
                ps,
                i + 1,
                walk_step(w, slot),
                n + 1,
            )
            &&& check_batches(img, ps, ps.len() as int, w, n).end == Ok::<nat, Error>(n)
        }),
{
}

} // verus!
