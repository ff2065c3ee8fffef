//! What a check of the whole space is worth: a space that passes is read
//! without failure, and `get` and `list` agree on it.

use vstd::prelude::*;

use crate::bytes::{lemma_lex_lt_le, lemma_lex_total, lemma_lex_trans, lex_lt};
use crate::chunk::ChunkKind;
use crate::container::{live, Image};
use crate::error::Error;
use crate::space::index::{
    child_index, children_sorted, keys_sorted, lemma_child_index, lookup, ChildView, EntryView,
    Namespace, NodeView,
};
use crate::space::integrity::{
    check, check_all, check_batch, check_batches, check_commit, check_entries, check_kids,
    check_node, check_roots, check_start, expected_child, expected_root, over, under, CheckView,
    Checked, Expected, Pointer,
};
use crate::space::laws::{got, listed};
use crate::space::log::{last_with_id, log_id_of_key, slot_of_value};
use crate::space::log_iter::records_of;
use crate::space::model::{
    forest, kids, lemma_level_first, lemma_root_of, lemma_sorted_parts, level_entries, level_slots,
    node_fits, root_ptr, tree, tree_entries,
};
use crate::space::pairs::{pair_lt, pairs_rise, same_pairs, sorted_pairs};
use crate::space::reads::{everything, gather, gather_kids, lemma_node_sorted, search};
use crate::space::sound::{
    lemma_forest_parts, lemma_level_slots_apart, lemma_lookup_append, lemma_not_found, lemma_one,
};
use crate::space::stats::lemma_scan_everything;
use crate::space::superblock::NO_RECORD;
use crate::space::walk::{walk_refusal, walk_step, WalkView};
use crate::space::{node_at, root_of, Space};
use crate::tx::commit::{NamespaceKind, RootView};
use crate::space::vacuum::{tread, tread_all, tread_kids, tread_roots};

verus! {

/// Every key lies between the bounds.
pub open spec fn in_bounds(
    lower: Option<Seq<u8>>,
    upper: Option<Seq<u8>>,
    es: Seq<EntryView>,
) -> bool {
    forall|i: int|
        0 <= i < es.len() ==> !under(lower, (#[trigger] es[i]).0) && !over(upper, es[i].0)
}

/// The entries under the node at `slot`, from left to right.
pub open spec fn entries_under(img: Image, ns: Namespace, slot: u64, depth: int, cap: int) -> Seq<
    EntryView,
>
    decreases cap - depth + 1, 0int,
{
    if depth > cap {
        Seq::<EntryView>::empty()
    } else {
        match node_at(img, slot, ns) {
            Err(_) => Seq::<EntryView>::empty(),
            Ok(NodeView::Leaf(l)) => l.entries,
            Ok(NodeView::Internal(n)) => entries_under_kids(img, ns, n.children, 0, depth + 1, cap),
        }
    }
}

/// The entries under the children from position `i` on.
pub open spec fn entries_under_kids(
    img: Image,
    ns: Namespace,
    cs: Seq<ChildView>,
    i: int,
    depth: int,
    cap: int,
) -> Seq<EntryView>
    decreases cap - depth + 1, cs.len() - i + 1,
{
    if i >= cs.len() || i < 0 {
        Seq::<EntryView>::empty()
    } else {
        entries_under(img, ns, cs[i].child_slot, depth, cap) + entries_under_kids(
            img,
            ns,
            cs,
            i + 1,
            depth,
            cap,
        )
    }
}

/// A node that holds up by itself is what a read finds.
proof fn lemma_check_node(img: Image, e: Expected)
    ensures
        check_node(img, e) matches Ok(n) ==> node_at(img, e.slot, e.namespace) == Ok::<
            NodeView,
            Error,
        >(n),
{
}

/// A check forgets no slot, and uses up what it says.
proof fn lemma_check_grows(img: Image, e: Expected, st: CheckView, cap: int)
    requires
        check(img, e, st, cap).end is Ok,
    ensures
        ({
            let c = check(img, e, st, cap).st;
            &&& st.w.visited.subset_of(c.w.visited)
            &&& c.w.visited.contains(e.slot)
            &&& !st.w.visited.contains(e.slot)
            &&& c.w.budget < st.w.budget
            &&& c.w.capacity == st.w.capacity
            &&& c.w.max_depth == st.w.max_depth
            &&& st.pairs.len() <= c.pairs.len()
            &&& c.pairs.take(st.pairs.len() as int) == st.pairs
        }),
    decreases cap - e.depth + 1, 0int,
{
    let next = CheckView { w: walk_step(st.w, e.slot), chunks: st.chunks + 1, ..st };
    match check_node(img, e) {
        Ok(NodeView::Leaf(l)) => {
            lemma_check_entries(e, l.entries, 0, st.pairs);
        },
        Ok(NodeView::Internal(n)) => {
            lemma_check_kids_grows(img, e, n.children, 0, next, 0, cap);
        },
        Err(_) => {},
    }
}

proof fn lemma_check_kids_grows(
    img: Image,
    e: Expected,
    cs: Seq<ChildView>,
    i: int,
    st: CheckView,
    deepest: int,
    cap: int,
)
    requires
        check_kids(img, e, cs, i, st, deepest, cap).end is Ok,
    ensures
        ({
            let c = check_kids(img, e, cs, i, st, deepest, cap).st;
            &&& st.w.visited.subset_of(c.w.visited)
            &&& c.w.budget <= st.w.budget
            &&& c.w.capacity == st.w.capacity
            &&& c.w.max_depth == st.w.max_depth
            &&& st.pairs.len() <= c.pairs.len()
            &&& c.pairs.take(st.pairs.len() as int) == st.pairs
        }),
    decreases cap - e.depth, cs.len() - i + 1,
{
    assert(st.pairs.take(st.pairs.len() as int) =~= st.pairs);
    if 0 <= i < cs.len() && e.depth <= cap {
        let c = check(img, expected_child(e, cs, i), st, cap);
        lemma_check_grows(img, expected_child(e, cs, i), st, cap);
        let d = c.end->Ok_0;
        let deeper = if d + 1 > deepest {
            d + 1
        } else {
            deepest
        };
        lemma_check_kids_grows(img, e, cs, i + 1, c.st, deeper, cap);
        let z = check_kids(img, e, cs, i + 1, c.st, deeper, cap).st.pairs;
        assert(z.take(st.pairs.len() as int) =~= z.take(c.st.pairs.len() as int).take(
            st.pairs.len() as int,
        ));
    }
}

/// The entries of a leaf that passes lie between its bounds; a log's lead
/// somewhere, and where is noted.
proof fn lemma_check_entries(e: Expected, es: Seq<EntryView>, i: int, pairs: Seq<Pointer>)
    requires
        0 <= i <= es.len(),
        check_entries(e, es, i, pairs) is Ok,
    ensures
        ({
            let z = check_entries(e, es, i, pairs)->Ok_0;
            &&& pairs.len() <= z.len()
            &&& z.take(pairs.len() as int) == pairs
            &&& forall|j: int|
                i <= j < es.len() ==> !under(e.lower, (#[trigger] es[j]).0) && !over(
                    e.upper,
                    es[j].0,
                )
            &&& e.is_log ==> forall|j: int|
                i <= j < es.len() ==> noted(z, #[trigger] es[j])
        }),
    decreases es.len() - i,
{
    assert(pairs.take(pairs.len() as int) =~= pairs);
    if i < es.len() {
        if !e.is_log {
            lemma_check_entries(e, es, i + 1, pairs);
        } else {
            let p = (slot_of_value(es[i].1)->Ok_0, log_id_of_key(es[i].0)->Ok_0);
            lemma_check_entries(e, es, i + 1, pairs.push(p));
            let z = check_entries(e, es, i, pairs)->Ok_0;
            assert(z.take(pairs.len() as int) =~= z.take(pairs.len() as int + 1).take(
                pairs.len() as int,
            ));
            assert(z.take(pairs.len() as int + 1)[pairs.len() as int] == p);
            assert(z[pairs.len() as int] == p);
            assert(noted(z, es[i]));
        }
    }
}

/// The pair that a log entry stands for is in the list.
pub open spec fn noted(pairs: Seq<Pointer>, e: EntryView) -> bool {
    &&& log_id_of_key(e.0) is Ok
    &&& slot_of_value(e.1) is Ok
    &&& pairs.contains((slot_of_value(e.1)->Ok_0, log_id_of_key(e.0)->Ok_0))
}

/// A pair that is in the list is in a longer one.
proof fn lemma_noted_later(a: Seq<Pointer>, b: Seq<Pointer>, e: EntryView)
    requires
        a.len() <= b.len(),
        b.take(a.len() as int) == a,
        noted(a, e),
    ensures
        noted(b, e),
{
    let p = (slot_of_value(e.1)->Ok_0, log_id_of_key(e.0)->Ok_0);
    let i = choose|i: int| 0 <= i < a.len() && a[i] == p;
    assert(b.take(a.len() as int)[i] == b[i]);
}

/// What passes lies between its bounds, rises, and is noted where it is a
/// log's.
pub open spec fn passed(e: Expected, es: Seq<EntryView>, pairs: Seq<Pointer>) -> bool {
    &&& keys_sorted(es)
    &&& in_bounds(e.lower, e.upper, es)
    &&& e.is_log ==> forall|j: int| 0 <= j < es.len() ==> noted(pairs, #[trigger] es[j])
}

/// A subtree that passes holds sorted entries between its bounds.
#[verifier::spinoff_prover]
proof fn lemma_check_entries_under(img: Image, e: Expected, st: CheckView, cap: int)
    requires
        check(img, e, st, cap).end is Ok,
    ensures
        passed(
            e,
            entries_under(img, e.namespace, e.slot, e.depth, cap),
            check(img, e, st, cap).st.pairs,
        ),
    decreases cap - e.depth + 1, 0int,
{
    let next = CheckView { w: walk_step(st.w, e.slot), chunks: st.chunks + 1, ..st };
    lemma_check_node(img, e);
    lemma_node_sorted(img, e.slot, e.namespace);
    match check_node(img, e) {
        Ok(NodeView::Leaf(l)) => {
            lemma_check_entries(e, l.entries, 0, st.pairs);
        },
        Ok(NodeView::Internal(n)) => {
            let cs = n.children;
            assert(cs.last() == cs[cs.len() - 1]);
            lemma_check_kids_entries(img, e, cs, 0, next, 0, cap);
            let es = entries_under_kids(img, e.namespace, cs, 0, e.depth + 1, cap);
            assert(in_bounds(e.lower, e.upper, es)) by {
                assert forall|j: int| 0 <= j < es.len() implies !under(
                    e.lower,
                    (#[trigger] es[j]).0,
                ) && !over(e.upper, es[j].0) by {
                    assert(!under(Some(cs[0].first_key), es[j].0));
                    if let Some(lo) = e.lower {
                        lemma_lex_total(cs[0].first_key, lo);
                        lemma_lex_total(es[j].0, cs[0].first_key);
                        if lex_lt(es[j].0, lo) {
                            lemma_lex_lt_le(es[j].0, lo, cs[0].first_key);
                        }
                    }
                }
            }
        },
        Err(_) => {},
    }
}

/// The subtrees from position `i` on that pass hold sorted entries from the
/// first key of the first of them on.
#[verifier::spinoff_prover]
#[verifier::rlimit(40)]
proof fn lemma_check_kids_entries(
    img: Image,
    e: Expected,
    cs: Seq<ChildView>,
    i: int,
    st: CheckView,
    deepest: int,
    cap: int,
)
    requires
        0 <= i <= cs.len(),
        e.depth <= cap,
        children_sorted(cs),
        cs.len() > 0 ==> !over(e.upper, cs.last().first_key),
        check_kids(img, e, cs, i, st, deepest, cap).end is Ok,
    ensures
        ({
            let es = entries_under_kids(img, e.namespace, cs, i, e.depth + 1, cap);
            &&& keys_sorted(es)
            &&& i < cs.len() ==> in_bounds(Some(cs[i].first_key), e.upper, es)
            &&& i == cs.len() ==> es.len() == 0
            &&& e.is_log ==> forall|j: int|
                0 <= j < es.len() ==> noted(
                    check_kids(img, e, cs, i, st, deepest, cap).st.pairs,
                    #[trigger] es[j],
                )
        }),
    decreases cap - e.depth, cs.len() - i + 1,
{
    if i < cs.len() {
        let sub = expected_child(e, cs, i);
        let c = check(img, sub, st, cap);
        let d = c.end->Ok_0;
        let deeper = if d + 1 > deepest {
            d + 1
        } else {
            deepest
        };
        lemma_check_entries_under(img, sub, st, cap);
        lemma_check_kids_entries(img, e, cs, i + 1, c.st, deeper, cap);
        lemma_check_kids_grows(img, e, cs, i + 1, c.st, deeper, cap);
        let z = check_kids(img, e, cs, i + 1, c.st, deeper, cap).st.pairs;
        let head = entries_under(img, e.namespace, cs[i].child_slot, e.depth + 1, cap);
        let tail = entries_under_kids(img, e.namespace, cs, i + 1, e.depth + 1, cap);
        let es = head + tail;
        assert forall|a: int, b: int| 0 <= a < b < es.len() implies lex_lt(
            (#[trigger] es[a]).0,
            (#[trigger] es[b]).0,
        ) by {
            if b < head.len() {
                assert(es[a] == head[a] && es[b] == head[b]);
            } else if a >= head.len() {
                assert(es[a] == tail[a - head.len()] && es[b] == tail[b - head.len()]);
            } else {
                assert(es[a] == head[a] && es[b] == tail[b - head.len()]);
                assert(i + 1 < cs.len());
                let mid = cs[i + 1].first_key;
                assert(!over(Some(mid), head[a].0));
                assert(!under(Some(mid), tail[b - head.len()].0));
                lemma_lex_total(mid, tail[b - head.len()].0);
                lemma_lex_lt_le(head[a].0, mid, tail[b - head.len()].0);
            }
        }
        assert(in_bounds(Some(cs[i].first_key), e.upper, es)) by {
            assert forall|j: int| 0 <= j < es.len() implies !under(
                Some(cs[i].first_key),
                (#[trigger] es[j]).0,
            ) && !over(e.upper, es[j].0) by {
                if j < head.len() {
                    assert(es[j] == head[j]);
                    if i + 1 < cs.len() {
                        assert(!over(Some(cs[i + 1].first_key), head[j].0));
                        if let Some(hi) = e.upper {
                            let last = cs.last().first_key;
                            assert(cs.last() == cs[cs.len() - 1]);
                            if i + 1 < cs.len() - 1 {
                                assert(lex_lt(cs[i + 1].first_key, cs[cs.len() - 1].first_key));
                                lemma_lex_trans(head[j].0, cs[i + 1].first_key, last);
                            }
                            lemma_lex_trans(head[j].0, last, hi);
                        }
                    }
                } else {
                    assert(es[j] == tail[j - head.len()]);
                    assert(i + 1 < cs.len());
                    let mid = cs[i + 1].first_key;
                    assert(!under(Some(mid), tail[j - head.len()].0));
                    assert(lex_lt(cs[i].first_key, mid));
                    lemma_lex_total(mid, es[j].0);
                    lemma_lex_lt_le(cs[i].first_key, mid, es[j].0);
                    lemma_lex_total(cs[i].first_key, es[j].0);
                }
            }
        }
        if e.is_log {
            assert forall|j: int| 0 <= j < es.len() implies noted(z, #[trigger] es[j]) by {
                if j < head.len() {
                    assert(es[j] == head[j]);
                    assert(noted(c.st.pairs, head[j]));
                    lemma_noted_later(c.st.pairs, z, head[j]);
                } else {
                    assert(es[j] == tail[j - head.len()]);
                }
            }
        }
    }
}

// ---------------------------------------------------------------------------
// Reading what has passed
// ---------------------------------------------------------------------------

/// A walk can go where a check has gone between two states.
pub open spec fn can_follow(w: WalkView, a: CheckView, b: CheckView) -> bool {
    &&& w.capacity == a.w.capacity
    &&& w.max_depth == a.w.max_depth
    &&& w.budget + b.w.budget >= a.w.budget
    &&& forall|s: u64| #[trigger]
        b.w.visited.contains(s) && !a.w.visited.contains(s) ==> !w.visited.contains(s)
}

/// A walk has gone no further than a check has between two states.
pub open spec fn followed(w: WalkView, z: WalkView, a: CheckView, b: CheckView) -> bool {
    &&& z.capacity == w.capacity
    &&& z.max_depth == w.max_depth
    &&& z.budget + a.w.budget >= w.budget + b.w.budget
    &&& forall|s: u64| #[trigger]
        z.visited.contains(s) ==> w.visited.contains(s) || (b.w.visited.contains(s)
            && !a.w.visited.contains(s))
}

/// Listing what has passed gives its entries.
#[verifier::spinoff_prover]
proof fn lemma_checked_gather(
    img: Image,
    e: Expected,
    st: CheckView,
    w: WalkView,
    out: Seq<EntryView>,
)
    requires
        check(img, e, st, st.w.max_depth as int).end is Ok,
        can_follow(w, st, check(img, e, st, st.w.max_depth as int).st),
    ensures
        ({
            let cap = st.w.max_depth as int;
            let g = gather(img, e.namespace, everything(), e.slot, e.depth, w, out, cap);
            &&& g.end == Ok::<bool, Error>(false)
            &&& g.out == out + entries_under(img, e.namespace, e.slot, e.depth, cap)
            &&& followed(w, g.w, st, check(img, e, st, cap).st)
        }),
    decreases st.w.max_depth - e.depth + 1, 0int,
{
    let cap = st.w.max_depth as int;
    let c = check(img, e, st, cap);
    let next = CheckView { w: walk_step(st.w, e.slot), chunks: st.chunks + 1, ..st };
    lemma_check_node(img, e);
    lemma_check_grows(img, e, st, cap);
    assert(walk_refusal(w, e.slot, e.depth) is None);
    let w1 = walk_step(w, e.slot);
    match check_node(img, e) {
        Ok(NodeView::Leaf(l)) => {
            lemma_scan_everything(l.entries, 0, w1, out);
            assert(l.entries.skip(0) =~= l.entries);
        },
        Ok(NodeView::Internal(n)) => {
            assert(can_follow(w1, next, c.st));
            lemma_checked_gather_kids(img, e, n.children, 0, next, 0, w1, out);
        },
        Err(_) => {},
    }
}

#[verifier::spinoff_prover]
proof fn lemma_checked_gather_kids(
    img: Image,
    e: Expected,
    cs: Seq<ChildView>,
    i: int,
    st: CheckView,
    deepest: int,
    w: WalkView,
    out: Seq<EntryView>,
)
    requires
        0 <= i <= cs.len(),
        e.depth <= st.w.max_depth,
        check_kids(img, e, cs, i, st, deepest, st.w.max_depth as int).end is Ok,
        can_follow(w, st, check_kids(img, e, cs, i, st, deepest, st.w.max_depth as int).st),
    ensures
        ({
            let cap = st.w.max_depth as int;
            let g = gather_kids(
                img,
                e.namespace,
                everything(),
                cs,
                i,
                e.depth + 1,
                w,
                out,
                cap,
            );
            &&& g.end == Ok::<bool, Error>(false)
            &&& g.out == out + entries_under_kids(img, e.namespace, cs, i, e.depth + 1, cap)
            &&& followed(w, g.w, st, check_kids(img, e, cs, i, st, deepest, cap).st)
        }),
    decreases st.w.max_depth - e.depth, cs.len() - i + 1,
{
    let cap = st.w.max_depth as int;
    if i < cs.len() {
        let sub = expected_child(e, cs, i);
        let c = check(img, sub, st, cap);
        let d = c.end->Ok_0;
        let deeper = if d + 1 > deepest {
            d + 1
        } else {
            deepest
        };
        lemma_check_grows(img, sub, st, cap);
        lemma_check_kids_grows(img, e, cs, i + 1, c.st, deeper, cap);
        let z = check_kids(img, e, cs, i + 1, c.st, deeper, cap).st;
        assert(can_follow(w, st, c.st)) by {
            assert forall|s: u64| #[trigger]
                c.st.w.visited.contains(s) && !st.w.visited.contains(
                    s,
                ) implies !w.visited.contains(s) by {
                assert(z.w.visited.contains(s));
            }
        }
        lemma_checked_gather(img, sub, st, w, out);
        let g = gather(img, e.namespace, everything(), sub.slot, e.depth + 1, w, out, cap);
        assert(can_follow(g.w, c.st, z)) by {
            assert forall|s: u64| #[trigger]
                z.w.visited.contains(s) && !c.st.w.visited.contains(
                    s,
                ) implies !g.w.visited.contains(s) by {
                assert(!st.w.visited.contains(s));
            }
        }
        lemma_checked_gather_kids(img, e, cs, i + 1, c.st, deeper, g.w, g.out);
        let head = entries_under(img, e.namespace, cs[i].child_slot, e.depth + 1, cap);
        let tail = entries_under_kids(img, e.namespace, cs, i + 1, e.depth + 1, cap);
        assert((out + head) + tail =~= out + (head + tail));
    } else {
        assert(out + Seq::<EntryView>::empty() =~= out);
    }
}

/// Searching what has passed finds what is listed.
#[verifier::spinoff_prover]
#[verifier::rlimit(40)]
proof fn lemma_checked_search(
    img: Image,
    e: Expected,
    st: CheckView,
    w: WalkView,
    key: Seq<u8>,
)
    requires
        check(img, e, st, st.w.max_depth as int).end is Ok,
        can_follow(w, st, check(img, e, st, st.w.max_depth as int).st),
    ensures
        search(img, e.namespace, key, e.slot, e.depth, w, st.w.max_depth as int) == Ok::<
            Option<Seq<u8>>,
            Error,
        >(
            lookup(
                entries_under(img, e.namespace, e.slot, e.depth, st.w.max_depth as int),
                key,
            ),
        ),
    decreases st.w.max_depth - e.depth + 1, 0int,
{
    let cap = st.w.max_depth as int;
    let c = check(img, e, st, cap);
    let next = CheckView { w: walk_step(st.w, e.slot), chunks: st.chunks + 1, ..st };
    lemma_check_node(img, e);
    lemma_check_grows(img, e, st, cap);
    lemma_node_sorted(img, e.slot, e.namespace);
    assert(walk_refusal(w, e.slot, e.depth) is None);
    let w1 = walk_step(w, e.slot);
    if let Ok(NodeView::Internal(n)) = check_node(img, e) {
        let cs = n.children;
        assert(can_follow(w1, next, c.st));
        lemma_child_index(cs, key);
        lemma_checked_search_kids(img, e, cs, 0, next, 0, w1, key);
    }
}

/// The child whose range holds the key is the only one that can have it.
#[verifier::spinoff_prover]
#[verifier::rlimit(60)]
proof fn lemma_checked_search_kids(
    img: Image,
    e: Expected,
    cs: Seq<ChildView>,
    i: int,
    st: CheckView,
    deepest: int,
    w: WalkView,
    key: Seq<u8>,
)
    requires
        0 <= i <= child_index(cs, key),
        cs.len() > 0,
        children_sorted(cs),
        !over(e.upper, cs.last().first_key),
        e.depth <= st.w.max_depth,
        check_kids(img, e, cs, i, st, deepest, st.w.max_depth as int).end is Ok,
        can_follow(w, st, check_kids(img, e, cs, i, st, deepest, st.w.max_depth as int).st),
    ensures
        search(
            img,
            e.namespace,
            key,
            cs[child_index(cs, key)].child_slot,
            e.depth + 1,
            w,
            st.w.max_depth as int,
        ) == Ok::<Option<Seq<u8>>, Error>(
            lookup(
                entries_under_kids(
                    img,
                    e.namespace,
                    cs,
                    i,
                    e.depth + 1,
                    st.w.max_depth as int,
                ),
                key,
            ),
        ),
    decreases st.w.max_depth - e.depth, cs.len() - i + 1,
{
    let cap = st.w.max_depth as int;
    let m = child_index(cs, key);
    lemma_child_index(cs, key);
    let sub = expected_child(e, cs, i);
    let c = check(img, sub, st, cap);
    let d = c.end->Ok_0;
    let deeper = if d + 1 > deepest {
        d + 1
    } else {
        deepest
    };
    lemma_check_grows(img, sub, st, cap);
    lemma_check_kids_grows(img, e, cs, i + 1, c.st, deeper, cap);
    let z = check_kids(img, e, cs, i + 1, c.st, deeper, cap).st;
    let head = entries_under(img, e.namespace, cs[i].child_slot, e.depth + 1, cap);
    let tail = entries_under_kids(img, e.namespace, cs, i + 1, e.depth + 1, cap);
    lemma_lookup_append(head, tail, key);
    lemma_check_entries_under(img, sub, st, cap);
    lemma_check_kids_entries(img, e, cs, i + 1, c.st, deeper, cap);
    if i < m {
        // The key does not come before the next child, so it is not here.
        assert forall|j: int| 0 <= j < head.len() implies (#[trigger] head[j]).0 != key by {
            assert(!over(Some(cs[i + 1].first_key), head[j].0));
            if i + 1 < m {
                assert(lex_lt(cs[i + 1].first_key, cs[m].first_key));
                lemma_lex_trans(head[j].0, cs[i + 1].first_key, cs[m].first_key);
            }
            lemma_lex_lt_le(head[j].0, cs[m].first_key, key);
            lemma_lex_total(head[j].0, key);
        }
        lemma_not_found(head, key);
        assert(can_follow(w, c.st, z)) by {
            assert forall|s: u64| #[trigger]
                z.w.visited.contains(s) && !c.st.w.visited.contains(
                    s,
                ) implies !w.visited.contains(s) by {
                assert(!st.w.visited.contains(s));
            }
        }
        lemma_checked_search_kids(img, e, cs, i + 1, c.st, deeper, w, key);
    } else {
        assert(can_follow(w, st, c.st)) by {
            assert forall|s: u64| #[trigger]
                c.st.w.visited.contains(s) && !st.w.visited.contains(
                    s,
                ) implies !w.visited.contains(s) by {
                assert(z.w.visited.contains(s));
            }
        }
        lemma_checked_search(img, sub, st, w, key);
        // The key comes before the next child, so it is not there.
        assert forall|j: int| 0 <= j < tail.len() implies (#[trigger] tail[j]).0 != key by {
            assert(i + 1 < cs.len());
            assert(!under(Some(cs[i + 1].first_key), tail[j].0));
            assert(lex_lt(key, cs[i + 1].first_key));
            lemma_lex_total(cs[i + 1].first_key, tail[j].0);
            lemma_lex_lt_le(key, cs[i + 1].first_key, tail[j].0);
            lemma_lex_total(key, tail[j].0);
        }
        lemma_not_found(tail, key);
    }
}

// ---------------------------------------------------------------------------
// The whole
// ---------------------------------------------------------------------------

/// A check of all roots forgets nothing.
proof fn lemma_check_roots_grows(img: Image, rs: Seq<RootView>, i: int, st: CheckView, levels: int)
    requires
        check_roots(img, rs, i, st, levels).end is Ok,
    ensures
        ({
            let c = check_roots(img, rs, i, st, levels).st;
            &&& st.pairs.len() <= c.pairs.len()
            &&& c.pairs.take(st.pairs.len() as int) == st.pairs
        }),
    decreases rs.len() - i,
{
    assert(st.pairs.take(st.pairs.len() as int) =~= st.pairs);
    if 0 <= i < rs.len() {
        let c = check(img, expected_root(rs[i]), st, st.w.max_depth as int);
        lemma_check_grows(img, expected_root(rs[i]), st, st.w.max_depth as int);
        let d = c.end->Ok_0;
        let more = if d + 1 > levels {
            d + 1
        } else {
            levels
        };
        lemma_check_roots_grows(img, rs, i + 1, c.st, more);
        let z = check_roots(img, rs, i + 1, c.st, more).st.pairs;
        assert(z.take(st.pairs.len() as int) =~= z.take(c.st.pairs.len() as int).take(
            st.pairs.len() as int,
        ));
    }
}

/// Every root that is checked has passed, at some state of the check that a
/// fresh walk can follow.
pub proof fn lemma_root_passed(
    s: Space,
    rs: Seq<RootView>,
    i: int,
    st: CheckView,
    levels: int,
    m: int,
) -> (at: CheckView)
    requires
        0 <= i <= m < rs.len(),
        check_roots(s.file@, rs, i, st, levels).end is Ok,
        st.w.max_depth == s.walk_now().max_depth,
        st.w.capacity == s.walk_now().capacity,
        st.w.budget <= s.walk_now().budget,
    ensures
        at.w.max_depth == s.walk_now().max_depth,
        check(s.file@, expected_root(rs[m]), at, at.w.max_depth as int).end is Ok,
        can_follow(
            s.walk_now(),
            at,
            check(s.file@, expected_root(rs[m]), at, at.w.max_depth as int).st,
        ),
        ({
            let a = check(s.file@, expected_root(rs[m]), at, at.w.max_depth as int).st.pairs;
            let z = check_roots(s.file@, rs, i, st, levels).st.pairs;
            a.len() <= z.len() && z.take(a.len() as int) == a
        }),
    decreases rs.len() - i,
{
    let img = s.file@;
    let c = check(img, expected_root(rs[i]), st, st.w.max_depth as int);
    lemma_check_grows(img, expected_root(rs[i]), st, st.w.max_depth as int);
    let d = c.end->Ok_0;
    let more = if d + 1 > levels {
        d + 1
    } else {
        levels
    };
    if i == m {
        lemma_check_roots_grows(img, rs, i + 1, c.st, more);
        st
    } else {
        lemma_root_passed(s, rs, i + 1, c.st, more, m)
    }
}

/// Every pair that is checked leads to its record.
pub proof fn lemma_batches_passed(
    img: Image,
    ps: Seq<Pointer>,
    i: int,
    w: WalkView,
    n: nat,
    j: int,
)
    requires
        0 <= i <= j < ps.len(),
        check_batches(img, ps, i, w, n).end is Ok,
    ensures
        check_batch(img, ps[j].0) is Ok,
        last_with_id(check_batch(img, ps[j].0)->Ok_0, ps[j].1) is Some,
    decreases ps.len() - i,
{
    if i < j {
        let slot = ps[i].0;
        let first = i == 0 || ps[i - 1].0 != slot;
        let w1 = if first {
            walk_step(w, slot)
        } else {
            w
        };
        let n1 = if first {
            n + 1
        } else {
            n
        };
        lemma_batches_passed(img, ps, i + 1, w1, n1, j);
    }
}

/// Entries whose pairs all pass lead to records.
proof fn lemma_records_passed(
    img: Image,
    es: Seq<EntryView>,
    pairs: Seq<Pointer>,
    w: WalkView,
)
    requires
        check_batches(img, sorted_pairs(pairs), 0, w, 0).end is Ok,
        forall|j: int| 0 <= j < es.len() ==> noted(pairs, #[trigger] es[j]),
        pairs_rise(sorted_pairs(pairs)),
        same_pairs(sorted_pairs(pairs), pairs),
    ensures
        records_of(img, es) is Ok,
        records_of(img, es)->Ok_0.len() == es.len(),
    decreases es.len(),
{
    if es.len() > 0 {
        let init = es.drop_last();
        assert forall|j: int| 0 <= j < init.len() implies noted(pairs, #[trigger] init[j]) by {
            assert(init[j] == es[j]);
        }
        lemma_records_passed(img, init, pairs, w);
        let e = es.last();
        assert(e == es[es.len() - 1]);
        assert(noted(pairs, es[es.len() - 1]));
        let p = (slot_of_value(e.1)->Ok_0, log_id_of_key(e.0)->Ok_0);
        let ps = sorted_pairs(pairs);
        assert(ps.contains(p));
        let j = choose|j: int| 0 <= j < ps.len() && ps[j] == p;
        lemma_batches_passed(img, ps, 0, w, 0, j);
    }
}

/// A space that passes is read without failure: for every namespace, `list`
/// gives entries by rising key, and `get` gives for every key exactly what is
/// listed under it. Every entry of a log leads to its record.
pub proof fn law_verified_is_readable(s: Space, ns: Namespace, key: Seq<u8>)
    requires
        s.wf(),
        check_all(s) is Ok,
    ensures
        listed(s, ns) is Ok,
        keys_sorted(listed(s, ns)->Ok_0),
        got(s, ns, key) == Ok::<Option<Seq<u8>>, Error>(lookup(listed(s, ns)->Ok_0, key)),
        s.roots() is Ok,
        root_of(s.roots()->Ok_0, ns) matches Some(r) ==> r.kind == NamespaceKind::Log
            ==> records_of(s.file@, listed(s, ns)->Ok_0) is Ok,
{
    let none = Seq::<EntryView>::empty();
    let img = s.file@;
    if s.state.superblock.root_slot == NO_RECORD {
        lemma_not_found(none, key);
    } else {
        let rs = check_commit(img, s.state.superblock@)->Ok_0.roots;
        assert(s.roots() == Ok::<Seq<RootView>, Error>(rs));
        let t = check_roots(img, rs, 0, check_start(s), 0);
        match root_of(rs, ns) {
            None => {
                lemma_not_found(none, key);
            },
            Some(r) => {
                lemma_root_of(rs, ns);
                let m = choose|m: int| 0 <= m < rs.len() && #[trigger] rs[m] == r;
                let e = expected_root(r);
                let at = lemma_root_passed(s, rs, 0, check_start(s), 0, m);
                let cap = at.w.max_depth as int;
                let w = s.walk_now();
                lemma_checked_gather(img, e, at, w, none);
                lemma_checked_search(img, e, at, w, key);
                lemma_check_entries_under(img, e, at, cap);
                let es = entries_under(img, ns, r.index_slot, 0, cap);
                assert(none + es =~= es);
                assert(listed(s, ns) == Ok::<Seq<EntryView>, Error>(es));
                if r.kind == NamespaceKind::Log {
                    let a = check(img, e, at, cap).st.pairs;
                    assert forall|j: int| 0 <= j < es.len() implies noted(
                        t.st.pairs,
                        #[trigger] es[j],
                    ) by {
                        assert(noted(a, es[j]));
                        lemma_noted_later(a, t.st.pairs, es[j]);
                    }
                    crate::space::pairs::lemma_sorted_exists(t.st.pairs);
                    lemma_records_passed(img, es, t.st.pairs, t.st.w);
                }
            },
        }
    }
}

// ---------------------------------------------------------------------------
// What is sound passes
// ---------------------------------------------------------------------------

/// A walk's books are in order: it has gone to slots that open, and what is
/// left of its budget covers the rest.
pub open spec fn ledger(s: Space, w: WalkView) -> bool {
    &&& w.visited.finite()
    &&& forall|x: u64| #[trigger] w.visited.contains(x) ==> live(s.file@, x)
    &&& w.budget + w.visited.len() == s.state.owned_slots@.len()
    &&& w.capacity == s.file@.len()
    &&& w.max_depth == s.walk_now().max_depth
}

/// A walk whose books are in order can go to a slot that opens and that it
/// has not gone to.
proof fn lemma_ledger_step(s: Space, w: WalkView, slot: u64, depth: int)
    requires
        s.wf(),
        ledger(s, w),
        live(s.file@, slot),
        !w.visited.contains(slot),
        depth <= w.max_depth,
    ensures
        walk_refusal(w, slot, depth) is None,
        ledger(s, walk_step(w, slot)),
{
    let owned = s.state.owned_slots@;
    assert(w.visited.insert(slot).subset_of(owned));
    vstd::set_lib::lemma_len_subset(w.visited.insert(slot), owned);
}

/// The pair leads to a record.
pub open spec fn good(img: Image, p: Pointer) -> bool {
    &&& check_batch(img, p.0) is Ok
    &&& last_with_id(check_batch(img, p.0)->Ok_0, p.1) is Some
}

/// The entry of a log leads to its record.
pub open spec fn leads(img: Image, e: EntryView) -> bool {
    &&& log_id_of_key(e.0) is Ok
    &&& slot_of_value(e.1) is Ok
    &&& good(img, (slot_of_value(e.1)->Ok_0, log_id_of_key(e.0)->Ok_0))
}

/// Every pair leads to a record.
pub open spec fn all_good(img: Image, ps: Seq<Pointer>) -> bool {
    forall|i: int| 0 <= i < ps.len() ==> good(img, #[trigger] ps[i])
}

/// Every entry of a log leads to its record.
pub open spec fn all_lead(img: Image, is_log: bool, es: Seq<EntryView>) -> bool {
    is_log ==> forall|i: int| 0 <= i < es.len() ==> leads(img, #[trigger] es[i])
}

/// A leaf between its bounds passes.
proof fn lemma_entries_pass(
    img: Image,
    e: Expected,
    es: Seq<EntryView>,
    i: int,
    pairs: Seq<Pointer>,
)
    requires
        0 <= i <= es.len(),
        in_bounds(e.lower, e.upper, es),
        all_lead(img, e.is_log, es),
        all_good(img, pairs),
    ensures
        check_entries(e, es, i, pairs) is Ok,
        all_good(img, check_entries(e, es, i, pairs)->Ok_0),
    decreases es.len() - i,
{
    if i < es.len() {
        assert(!under(e.lower, es[i].0) && !over(e.upper, es[i].0));
        if !e.is_log {
            lemma_entries_pass(img, e, es, i + 1, pairs);
        } else {
            assert(leads(img, es[i]));
            let p = (slot_of_value(es[i].1)->Ok_0, log_id_of_key(es[i].0)->Ok_0);
            let more = pairs.push(p);
            assert forall|j: int| 0 <= j < more.len() implies good(img, #[trigger] more[j]) by {
                if j < pairs.len() {
                    assert(more[j] == pairs[j]);
                }
            }
            lemma_entries_pass(img, e, es, i + 1, more);
        }
    }
}

/// What came of checking sound nodes.
pub open spec fn passes(
    s: Space,
    st: CheckView,
    c: Checked,
    slots: Seq<u64>,
    depth: int,
) -> bool {
    &&& c.end == Ok::<int, Error>(depth)
    &&& ledger(s, c.st.w)
    &&& all_good(s.file@, c.st.pairs)
    &&& forall|x: u64| #[trigger]
        c.st.w.visited.contains(x) ==> st.w.visited.contains(x) || slots.contains(x)
}

/// A sound tree passes.
#[verifier::spinoff_prover]
#[verifier::rlimit(40)]
proof fn lemma_tree_passes(s: Space, p: ChildView, h: nat, e: Expected, st: CheckView)
    requires
        s.wf(),
        forest(s.file@, e.namespace, seq![p], h),
        ledger(s, st.w),
        all_good(s.file@, st.pairs),
        forall|x: u64| #[trigger]
            level_slots(s.file@, e.namespace, seq![p], h).contains(x) ==> !st.w.visited.contains(
                x,
            ),
        e.slot == p.child_slot,
        e.hash == p.child_hash,
        0 <= e.depth,
        e.depth + h <= st.w.max_depth,
        in_bounds(e.lower, e.upper, level_entries(s.file@, e.namespace, seq![p], h)),
        all_lead(s.file@, e.is_log, level_entries(s.file@, e.namespace, seq![p], h)),
    ensures
        passes(
            s,
            st,
            check(s.file@, e, st, st.w.max_depth as int),
            level_slots(s.file@, e.namespace, seq![p], h),
            h as int,
        ),
    decreases h, 0int,
{
    let img = s.file@;
    let ns = e.namespace;
    let cap = st.w.max_depth as int;
    let all = level_slots(img, ns, seq![p], h);
    let es = level_entries(img, ns, seq![p], h);
    lemma_one(img, ns, p, h);
    assert(all.contains(p.child_slot));
    lemma_ledger_step(s, st.w, e.slot, e.depth);
    let next = CheckView { w: walk_step(st.w, e.slot), chunks: st.chunks + 1, ..st };
    assert(node_fits(img, ns, p, h));
    if h == 0 {
        lemma_entries_pass(img, e, es, 0, st.pairs);
    } else {
        let k = (h - 1) as nat;
        let cs = kids(img, ns)(p);
        assert(cs.skip(0) =~= cs);
        lemma_kids_bounded(img, ns, cs, k, e);
        assert(cs.last() == cs[cs.len() - 1]);
        assert forall|x: u64| #[trigger]
            level_slots(img, ns, cs.skip(0), k).contains(x) implies !next.w.visited.contains(x) by {
            assert(level_slots(img, ns, cs, k).contains(x));
        }
        lemma_kids_pass(s, cs, 0, k, e, next, 0);
        let c = check_kids(img, e, cs, 0, next, 0, cap);
        assert forall|x: u64| #[trigger]
            c.st.w.visited.contains(x) implies st.w.visited.contains(x) || all.contains(x) by {
            if level_slots(img, ns, cs.skip(0), k).contains(x) {
                assert(level_slots(img, ns, cs, k).contains(x));
            }
        }
    }
}

/// The first keys of sound nodes lie between the bounds of their entries.
proof fn lemma_kids_bounded(img: Image, ns: Namespace, cs: Seq<ChildView>, h: nat, e: Expected)
    requires
        forest(img, ns, cs, h),
        cs.len() > 0,
        in_bounds(e.lower, e.upper, level_entries(img, ns, cs, h)),
    ensures
        !under(e.lower, cs[0].first_key),
        !over(e.upper, cs[cs.len() - 1].first_key),
{
    let es = level_entries(img, ns, cs, h);
    lemma_level_first(img, ns, cs, h);
    assert(!under(e.lower, es[0].0));
    let n = cs.len() - 1;
    let l = cs.take(n);
    let r = cs.skip(n);
    assert(cs =~= l + r);
    lemma_forest_parts(img, ns, l, r, h);
    lemma_level_first(img, ns, r, h);
    let el = level_entries(img, ns, l, h);
    let er = level_entries(img, ns, r, h);
    assert(es[el.len() as int] == er[0]);
    assert(r[0] == cs[n]);
}

/// Sound subtrees from position `i` on pass.
#[verifier::spinoff_prover]
#[verifier::rlimit(60)]
proof fn lemma_kids_pass(
    s: Space,
    cs: Seq<ChildView>,
    i: int,
    h: nat,
    e: Expected,
    st: CheckView,
    deepest: int,
)
    requires
        s.wf(),
        0 <= i <= cs.len(),
        cs.len() > 0,
        forest(s.file@, e.namespace, cs.skip(i), h),
        ledger(s, st.w),
        all_good(s.file@, st.pairs),
        forall|x: u64| #[trigger]
            level_slots(s.file@, e.namespace, cs.skip(i), h).contains(x)
                ==> !st.w.visited.contains(x),
        0 <= e.depth,
        e.depth + 1 + h <= st.w.max_depth,
        in_bounds(None, e.upper, level_entries(s.file@, e.namespace, cs.skip(i), h)),
        all_lead(s.file@, e.is_log, level_entries(s.file@, e.namespace, cs.skip(i), h)),
        i == 0 ==> deepest == 0,
        i > 0 ==> deepest == 1 + h,
    ensures
        passes(
            s,
            st,
            check_kids(s.file@, e, cs, i, st, deepest, st.w.max_depth as int),
            level_slots(s.file@, e.namespace, cs.skip(i), h),
            1int + h,
        ),
    decreases h, cs.len() - i + 1,
{
    let img = s.file@;
    let ns = e.namespace;
    let cap = st.w.max_depth as int;
    let ps = cs.skip(i);
    let all = level_slots(img, ns, ps, h);
    let es = level_entries(img, ns, ps, h);
    if i < cs.len() {
        let c = cs[i];
        let r = cs.skip(i + 1);
        assert(ps =~= seq![c] + r);
        lemma_forest_parts(img, ns, seq![c], r, h);
        lemma_level_slots_apart(img, ns, seq![c], r, h);
        let ec = level_entries(img, ns, seq![c], h);
        let er = level_entries(img, ns, r, h);
        let sc = level_slots(img, ns, seq![c], h);
        let sr = level_slots(img, ns, r, h);
        lemma_sorted_parts(ec, er);
        assert forall|x: u64| #[trigger] sc.contains(x) implies all.contains(x) by {
            assert(level_slots(img, ns, seq![c] + r, h).contains(x));
        }
        assert forall|x: u64| #[trigger] sr.contains(x) implies all.contains(x) by {
            assert(level_slots(img, ns, seq![c] + r, h).contains(x));
        }
        let sub = expected_child(e, cs, i);
        assert(in_bounds(sub.lower, sub.upper, ec)) by {
            lemma_level_first(img, ns, seq![c], h);
            assert forall|j: int| 0 <= j < ec.len() implies !under(
                sub.lower,
                (#[trigger] ec[j]).0,
            ) && !over(sub.upper, ec[j].0) by {
                if j > 0 {
                    assert(lex_lt(ec[0].0, ec[j].0));
                }
                lemma_lex_total(ec[j].0, ec[0].0);
                if i + 1 < cs.len() {
                    lemma_level_first(img, ns, r, h);
                    assert(r[0] == cs[i + 1]);
                    assert(lex_lt(ec[j].0, er[0].0));
                } else {
                    assert(es[j] == ec[j]);
                    assert(!over(e.upper, es[j].0));
                }
            }
        }
        assert(all_lead(img, e.is_log, ec)) by {
            if e.is_log {
                assert forall|j: int| 0 <= j < ec.len() implies leads(img, #[trigger] ec[j]) by {
                    assert(es[j] == ec[j]);
                }
            }
        }
        assert(all_lead(img, e.is_log, er)) by {
            if e.is_log {
                assert forall|j: int| 0 <= j < er.len() implies leads(img, #[trigger] er[j]) by {
                    assert(es[ec.len() + j] == er[j]);
                }
            }
        }
        assert(in_bounds(None, e.upper, er)) by {
            assert forall|j: int| 0 <= j < er.len() implies !under(
                None,
                (#[trigger] er[j]).0,
            ) && !over(e.upper, er[j].0) by {
                assert(es[ec.len() + j] == er[j]);
            }
        }
        lemma_tree_passes(s, c, h, sub, st);
        let z = check(img, sub, st, cap);
        assert forall|x: u64| #[trigger] sr.contains(x) implies !z.st.w.visited.contains(x) by {
            assert(all.contains(x));
            if z.st.w.visited.contains(x) {
                assert(sc.contains(x) && sr.contains(x));
            }
        }
        lemma_kids_pass(s, cs, i + 1, h, e, z.st, 1int + h);
    }
}

/// A slot of a sound level reads as a node of its namespace.
proof fn lemma_slot_in_namespace(
    img: Image,
    ns: Namespace,
    ps: Seq<ChildView>,
    h: nat,
    x: u64,
)
    requires
        crate::space::model::level_ok(img, ns, ps, h),
        level_slots(img, ns, ps, h).contains(x),
    ensures
        node_at(img, x, ns) is Ok,
        live(img, x),
        img[x as int]->0.kind == ChunkKind::IndexNode,
    decreases h,
{
    let all = level_slots(img, ns, ps, h);
    let i = choose|i: int| 0 <= i < all.len() && all[i] == x;
    if i < ps.len() {
        assert(node_fits(img, ns, ps[i], h));
    } else {
        let low = crate::space::model::below(img, ns, ps);
        let sub = level_slots(img, ns, low, (h - 1) as nat);
        assert(sub[i - ps.len()] == x);
        lemma_slot_in_namespace(img, ns, low, (h - 1) as nat, x);
    }
}

/// The tree of a root is sound, within reach, and a log's entries lead to
/// their records.
pub open spec fn root_sound(s: Space, r: RootView) -> bool {
    exists|h: nat| #[trigger]
        tree(s.file@, r.namespace, r.index_slot, r.payload_hash, h) && h <= s.walk_now().max_depth
            && all_lead(
            s.file@,
            r.kind == NamespaceKind::Log,
            tree_entries(s.file@, r.namespace, r.index_slot, r.payload_hash, h),
        )
}

/// Everything that the current superblock leads to is sound.
pub open spec fn all_sound(s: Space) -> bool {
    s.state.superblock.root_slot != NO_RECORD ==> {
        &&& check_commit(s.file@, s.state.superblock@) is Ok
        &&& forall|i: int|
            0 <= i < check_commit(s.file@, s.state.superblock@)->Ok_0.roots.len() ==> root_sound(
                s,
                #[trigger] check_commit(s.file@, s.state.superblock@)->Ok_0.roots[i],
            )
    }
}

/// No slot of a walk is a node of this namespace.
pub open spec fn clear_of(img: Image, w: WalkView, ns: Namespace) -> bool {
    forall|x: u64| #[trigger] w.visited.contains(x) ==> node_at(img, x, ns) is Err
}

/// No slot of a walk is a batch.
pub open spec fn no_batches(img: Image, w: WalkView) -> bool {
    forall|x: u64| #[trigger]
        w.visited.contains(x) ==> live(img, x) && img[x as int]->0.kind != ChunkKind::DataBatch
}

/// Sound trees of different namespaces all pass.
#[verifier::spinoff_prover]
#[verifier::rlimit(40)]
proof fn lemma_roots_pass(s: Space, rs: Seq<RootView>, i: int, st: CheckView, levels: int)
    requires
        s.wf(),
        0 <= i <= rs.len(),
        crate::tx::commit::roots_sorted(rs),
        forall|j: int| 0 <= j < rs.len() ==> root_sound(s, #[trigger] rs[j]),
        ledger(s, st.w),
        all_good(s.file@, st.pairs),
        no_batches(s.file@, st.w),
        forall|j: int| i <= j < rs.len() ==> clear_of(s.file@, st.w, (#[trigger] rs[j]).namespace),
    ensures
        ({
            let t = check_roots(s.file@, rs, i, st, levels);
            &&& t.end is Ok
            &&& ledger(s, t.st.w)
            &&& all_good(s.file@, t.st.pairs)
            &&& no_batches(s.file@, t.st.w)
        }),
    decreases rs.len() - i,
{
    let img = s.file@;
    if i < rs.len() {
        let r = rs[i];
        let ns = r.namespace;
        assert(root_sound(s, rs[i]));
        let h = choose|h: nat| #[trigger]
            tree(img, ns, r.index_slot, r.payload_hash, h) && h <= s.walk_now().max_depth
                && all_lead(
                img,
                r.kind == NamespaceKind::Log,
                tree_entries(img, ns, r.index_slot, r.payload_hash, h),
            );
        let p = root_ptr(img, ns, r.index_slot, r.payload_hash);
        let e = expected_root(r);
        let all = level_slots(img, ns, seq![p], h);
        assert(clear_of(img, st.w, rs[i].namespace));
        assert forall|x: u64| #[trigger] all.contains(x) implies !st.w.visited.contains(x) by {
            lemma_slot_in_namespace(img, ns, seq![p], h, x);
        }
        lemma_tree_passes(s, p, h, e, st);
        let c = check(img, e, st, st.w.max_depth as int);
        assert forall|x: u64| #[trigger] c.st.w.visited.contains(x) implies live(img, x)
            && img[x as int]->0.kind != ChunkKind::DataBatch by {
            if all.contains(x) {
                lemma_slot_in_namespace(img, ns, seq![p], h, x);
            }
        }
        assert forall|j: int| i + 1 <= j < rs.len() implies clear_of(
            img,
            c.st.w,
            (#[trigger] rs[j]).namespace,
        ) by {
            assert(rs[i].namespace.0 < rs[j].namespace.0);
            assert(clear_of(img, st.w, rs[j].namespace));
            assert forall|x: u64| #[trigger] c.st.w.visited.contains(x) implies node_at(
                img,
                x,
                rs[j].namespace,
            ) is Err by {
                if all.contains(x) {
                    lemma_slot_in_namespace(img, ns, seq![p], h, x);
                }
            }
        }
        let d = c.end->Ok_0;
        lemma_roots_pass(
            s,
            rs,
            i + 1,
            c.st,
            if d + 1 > levels {
                d + 1
            } else {
                levels
            },
        );
    }
}

/// Batches that hold their records pass.
proof fn lemma_batches_pass(s: Space, ps: Seq<Pointer>, i: int, w: WalkView, n: nat)
    requires
        s.wf(),
        0 <= i <= ps.len(),
        pairs_rise(ps),
        all_good(s.file@, ps),
        ledger(s, w),
        forall|x: u64| #[trigger]
            w.visited.contains(x) ==> s.file@[x as int]->0.kind != ChunkKind::DataBatch || (i > 0
                && x <= ps[i - 1].0),
        i > 0 ==> w.visited.contains(ps[i - 1].0),
    ensures
        check_batches(s.file@, ps, i, w, n).end is Ok,
    decreases ps.len() - i,
{
    let img = s.file@;
    if i < ps.len() {
        let slot = ps[i].0;
        let first = i == 0 || ps[i - 1].0 != slot;
        assert(good(img, ps[i]));
        if first {
            assert(!w.visited.contains(slot)) by {
                if i > 0 {
                    assert(pair_lt(ps[i - 1], ps[i]));
                }
            }
            lemma_ledger_step(s, w, slot, 0);
        }
        let w1 = if first {
            walk_step(w, slot)
        } else {
            w
        };
        lemma_batches_pass(
            s,
            ps,
            i + 1,
            w1,
            if first {
                n + 1
            } else {
                n
            },
        );
    }
}

/// A space all of whose trees are sound and within reach, whose log entries
/// lead to their records and whose commit record hashes as it should, passes.
pub proof fn law_sound_is_verified(s: Space)
    requires
        s.wf(),
        all_sound(s),
    ensures
        check_all(s) is Ok,
{
    let img = s.file@;
    let slot = s.state.superblock.root_slot;
    if slot != NO_RECORD {
        let w = s.walk_now();
        let count = s.file.slots.len();
        assert(img.len() == count);
        assert(ledger(s, w));
        assert(live(img, slot));
        lemma_ledger_step(s, w, slot, 0);
        let c = check_commit(img, s.state.superblock@)->Ok_0;
        crate::tx::commit::lemma_commit_decode_valid(img[slot as int]->0.payload);
        let st = check_start(s);
        assert forall|x: u64, ns: Namespace| st.w.visited.contains(x) implies node_at(
            img,
            x,
            ns,
        ) is Err by {
            assert(x == slot);
        }
        lemma_roots_pass(s, c.roots, 0, st, 0);
        let t = check_roots(img, c.roots, 0, st, 0);
        crate::space::pairs::lemma_sorted_exists(t.st.pairs);
        let ps = sorted_pairs(t.st.pairs);
        assert forall|i: int| 0 <= i < ps.len() implies good(img, #[trigger] ps[i]) by {
            assert(ps.contains(ps[i]));
            assert(t.st.pairs.contains(ps[i]));
            let j = choose|j: int| 0 <= j < t.st.pairs.len() && t.st.pairs[j] == ps[i];
            assert(good(img, t.st.pairs[j]));
        }
        lemma_batches_pass(s, ps, 0, t.st.w, 0);
    }
}

// ---------------------------------------------------------------------------
// Walking everything
// ---------------------------------------------------------------------------

/// A walk goes wherever a check that passes goes.
proof fn lemma_checked_treads(img: Image, e: Expected, st: CheckView, cap: int)
    requires
        check(img, e, st, cap).end is Ok,
    ensures
        tread(img, e.slot, e.depth, st.w, cap).end is Ok,
        tread(img, e.slot, e.depth, st.w, cap).w == check(img, e, st, cap).st.w,
    decreases cap - e.depth + 1, 0int,
{
    let next = CheckView { w: walk_step(st.w, e.slot), chunks: st.chunks + 1, ..st };
    if let Ok(NodeView::Internal(n)) = check_node(img, e) {
        lemma_checked_treads_kids(img, e, n.children, 0, next, 0, cap);
    }
}

proof fn lemma_checked_treads_kids(
    img: Image,
    e: Expected,
    cs: Seq<ChildView>,
    i: int,
    st: CheckView,
    deepest: int,
    cap: int,
)
    requires
        0 <= i <= cs.len(),
        e.depth <= cap,
        check_kids(img, e, cs, i, st, deepest, cap).end is Ok,
    ensures
        tread_kids(img, cs, i, e.depth + 1, st.w, cap).end is Ok,
        tread_kids(img, cs, i, e.depth + 1, st.w, cap).w == check_kids(
            img,
            e,
            cs,
            i,
            st,
            deepest,
            cap,
        ).st.w,
    decreases cap - e.depth, cs.len() - i + 1,
{
    if i < cs.len() {
        let sub = expected_child(e, cs, i);
        let c = check(img, sub, st, cap);
        lemma_checked_treads(img, sub, st, cap);
        let d = c.end->Ok_0;
        let deeper = if d + 1 > deepest {
            d + 1
        } else {
            deepest
        };
        lemma_checked_treads_kids(img, e, cs, i + 1, c.st, deeper, cap);
    }
}

/// A root of the same tree that is taken for one of keys and values.
pub open spec fn as_kv(r: RootView) -> RootView {
    RootView { kind: NamespaceKind::Kv, ..r }
}

proof fn lemma_checked_treads_roots(
    img: Image,
    rs: Seq<RootView>,
    ks: Seq<RootView>,
    i: int,
    st: CheckView,
    levels: int,
)
    requires
        0 <= i <= rs.len(),
        ks.len() == rs.len(),
        forall|j: int| 0 <= j < rs.len() ==> #[trigger] ks[j] == as_kv(rs[j]),
        check_roots(img, ks, i, st, levels).end is Ok,
    ensures
        tread_roots(img, rs, i, st.w).end is Ok,
    decreases rs.len() - i,
{
    if i < rs.len() {
        assert(ks[i] == as_kv(rs[i]));
        let e = expected_root(ks[i]);
        let c = check(img, e, st, st.w.max_depth as int);
        lemma_checked_treads(img, e, st, st.w.max_depth as int);
        let d = c.end->Ok_0;
        let more = if d + 1 > levels {
            d + 1
        } else {
            levels
        };
        lemma_checked_treads_roots(img, rs, ks, i + 1, c.st, more);
    }
}

/// Where all trees are sound and within reach, everything can be walked.
pub proof fn law_sound_treads(s: Space)
    requires
        s.wf(),
        s.state.superblock.root_slot != NO_RECORD,
        s.roots() is Ok,
        crate::tx::commit::roots_sorted(s.roots()->Ok_0),
        forall|i: int|
            0 <= i < s.roots()->Ok_0.len() ==> root_reached(s, #[trigger] s.roots()->Ok_0[i]),
    ensures
        tread_all(s).end is Ok,
{
    let img = s.file@;
    let slot = s.state.superblock.root_slot;
    let rs = s.roots()->Ok_0;
    let ks = Seq::new(rs.len(), |i: int| as_kv(rs[i]));
    let w = s.walk_now();
    let count = s.file.slots.len();
    assert(img.len() == count);
    assert(ledger(s, w));
    assert(live(img, slot));
    lemma_ledger_step(s, w, slot, 0);
    let st = check_start(s);
    assert forall|x: u64, ns: Namespace| st.w.visited.contains(x) implies node_at(
        img,
        x,
        ns,
    ) is Err by {
        assert(x == slot);
    }
    assert forall|j: int| 0 <= j < ks.len() implies root_sound(s, #[trigger] ks[j]) by {
        assert(root_reached(s, rs[j]));
        let r = rs[j];
        let h = choose|h: nat| #[trigger]
            tree(img, r.namespace, r.index_slot, r.payload_hash, h) && h <= w.max_depth;
        assert(tree(img, ks[j].namespace, ks[j].index_slot, ks[j].payload_hash, h));
    }
    assert(crate::tx::commit::roots_sorted(ks)) by {
        assert forall|i: int, j: int| 0 <= i < j < ks.len() implies (
        #[trigger] ks[i]).namespace.0 < (#[trigger] ks[j]).namespace.0 by {
            assert(rs[i].namespace.0 < rs[j].namespace.0);
        }
    }
    lemma_roots_pass(s, ks, 0, st, 0);
    lemma_checked_treads_roots(img, rs, ks, 0, st, 0);
}

/// The tree of a root is sound and within reach.
pub open spec fn root_reached(s: Space, r: RootView) -> bool {
    exists|h: nat| #[trigger]
        tree(s.file@, r.namespace, r.index_slot, r.payload_hash, h) && h <= s.walk_now().max_depth
}

} // verus!
