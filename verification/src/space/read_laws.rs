//! Cleaning up changes no read of any space whose nodes can all be walked,
//! before and after, whatever the space holds.

use vstd::prelude::*;

use crate::chunk::ChunkKind;
use crate::container::{chunk_at, live, Image};
use crate::error::Error;
use crate::space::index::{
    child_index, lemma_child_index, ChildView, EntryView, Namespace, NodeView,
};
use crate::space::laws::{got, listed};
use crate::space::log::slot_of_value;
use crate::space::log_iter::{record_of, records_of};
use crate::space::model::lemma_root_of;
use crate::space::reads::{
    everything, first_wanted, gather, gather_kids, page_of, scan, search, QueryView,
};
use crate::space::stats::lemma_scan_everything;
use crate::space::superblock::NO_RECORD;
use crate::space::update::lemma_node_legal;
use crate::space::vacuum::{
    all_log_entries, batch_aim, free_set, half_vacuumed, lemma_tread_grows, lemma_tread_kids_grows,
    lemma_tread_roots_grows, log_entries, orphan_aim, points_at, scrub_set, sweep_writes, tread,
    tread_all, tread_kids, tread_roots, vacuum_refusal, vacuumed,
};
use crate::space::vacuum_laws::{
    law_vacuum_twice, lemma_log_entries_ok, lemma_log_entries_prefix, lemma_tread_roots_nodes,
    same_in,
};
use crate::space::walk::{walk_refusal, walk_step, WalkView};
use crate::space::whole_laws::logged;
use crate::space::{any_node_at, node_at, root_of, Space};
use crate::tx::commit::{NamespaceKind, RootView};

verus! {

/// The walk `g` may go wherever the walk `t` may.
pub open spec fn roams(g: WalkView, t: WalkView) -> bool {
    &&& g.visited.subset_of(t.visited)
    &&& g.budget >= t.budget
    &&& g.capacity == t.capacity
    &&& g.max_depth == t.max_depth
}

proof fn lemma_roams_step(g: WalkView, t: WalkView, slot: u64)
    requires
        roams(g, t),
        t.budget > 0,
    ensures
        roams(walk_step(g, slot), walk_step(t, slot)),
        roams(g, walk_step(t, slot)),
{
}

/// A walk over nodes leaves less to roam.
proof fn lemma_tread_roams(img: Image, slot: u64, depth: int, g: WalkView, t: WalkView, cap: int)
    requires
        roams(g, t),
        tread(img, slot, depth, t, cap).end is Ok,
    ensures
        roams(g, tread(img, slot, depth, t, cap).w),
    decreases cap - depth + 1, 0int,
{
    lemma_roams_step(g, t, slot);
    if let Ok(NodeView::Internal(n)) = any_node_at(img, slot) {
        lemma_tread_kids_roams(img, n.children, 0, depth + 1, g, walk_step(t, slot), cap);
    }
}

proof fn lemma_tread_kids_roams(
    img: Image,
    cs: Seq<ChildView>,
    i: int,
    depth: int,
    g: WalkView,
    t: WalkView,
    cap: int,
)
    requires
        roams(g, t),
        tread_kids(img, cs, i, depth, t, cap).end is Ok,
    ensures
        roams(g, tread_kids(img, cs, i, depth, t, cap).w),
    decreases cap - depth + 1, cs.len() - i + 1,
{
    if 0 <= i < cs.len() {
        let x = tread(img, cs[i].child_slot, depth, t, cap);
        lemma_tread_roams(img, cs[i].child_slot, depth, g, t, cap);
        lemma_tread_kids_roams(img, cs, i + 1, depth, g, x.w, cap);
    }
}

/// What a leaf gives does not depend on the walk.
proof fn lemma_scan_any_walk(
    q: QueryView,
    es: Seq<EntryView>,
    i: int,
    x: WalkView,
    y: WalkView,
    out: Seq<EntryView>,
)
    ensures
        scan(q, es, i, x, out).w == x,
        scan(q, es, i, y, out).w == y,
        scan(q, es, i, x, out).out == scan(q, es, i, y, out).out,
        scan(q, es, i, x, out).end == scan(q, es, i, y, out).end,
    decreases es.len() - i,
{
    if i < es.len() {
        lemma_scan_any_walk(q, es, i + 1, x, y, out);
        lemma_scan_any_walk(q, es, i + 1, x, y, out.push(es[i]));
    }
}

/// A slot's nodes are the same in both images.
proof fn lemma_same_node(a: Image, b: Image, slot: u64, ns: Namespace, set: Set<u64>)
    requires
        same_in(a, b, set),
        set.contains(slot),
    ensures
        any_node_at(a, slot) == any_node_at(b, slot),
        node_at(a, slot, ns) == node_at(b, slot, ns),
{
    assert(chunk_at(a, slot) == chunk_at(b, slot));
}

/// Where both images can be walked, reading gives the same in both.
#[verifier::spinoff_prover]
proof fn lemma_gather_same(
    a: Image,
    b: Image,
    ns: Namespace,
    q: QueryView,
    slot: u64,
    depth: int,
    ga: WalkView,
    gb: WalkView,
    ta: WalkView,
    tb: WalkView,
    out: Seq<EntryView>,
    ca: int,
    cb: int,
    set: Set<u64>,
)
    requires
        roams(ga, ta),
        roams(gb, tb),
        tread(a, slot, depth, ta, ca).end is Ok,
        tread(b, slot, depth, tb, cb).end is Ok,
        tread(a, slot, depth, ta, ca).w.visited.subset_of(set),
        same_in(a, b, set),
    ensures
        ({
            let x = gather(a, ns, q, slot, depth, ga, out, ca);
            let y = gather(b, ns, q, slot, depth, gb, out, cb);
            &&& x.out == y.out
            &&& x.end == y.end
            &&& roams(x.w, tread(a, slot, depth, ta, ca).w)
            &&& roams(y.w, tread(b, slot, depth, tb, cb).w)
        }),
    decreases ca - depth + 1, 0int,
{
    lemma_tread_roams(a, slot, depth, ga, ta, ca);
    lemma_tread_roams(b, slot, depth, gb, tb, cb);
    lemma_tread_grows(a, slot, depth, ta, ca);
    if !q.full(out.len()) {
        assert(walk_refusal(ga, slot, depth) is None);
        assert(walk_refusal(gb, slot, depth) is None);
        let xa = walk_step(ta, slot);
        let xb = walk_step(tb, slot);
        assert(set.contains(slot)) by {
            if let Ok(NodeView::Internal(n)) = any_node_at(a, slot) {
                lemma_tread_kids_grows(a, n.children, 0, depth + 1, xa, ca);
            }
            assert(xa.visited.contains(slot));
            assert(tread(a, slot, depth, ta, ca).w.visited.contains(slot));
        }
        lemma_same_node(a, b, slot, ns, set);
        lemma_roams_step(ga, ta, slot);
        lemma_roams_step(gb, tb, slot);
        let ya = walk_step(ga, slot);
        let yb = walk_step(gb, slot);
        match any_node_at(a, slot) {
            Ok(NodeView::Internal(n)) => {
                lemma_tread_kids_roams(a, n.children, 0, depth + 1, ya, xa, ca);
                lemma_tread_kids_roams(b, n.children, 0, depth + 1, yb, xb, cb);
                if node_at(a, slot, ns) is Ok {
                    let i = first_wanted(q, n.children);
                    lemma_node_legal(a, slot, ns);
                    if let Some(f) = q.from {
                        lemma_child_index(n.children, f);
                    }
                    lemma_gather_kids_same(
                        a,
                        b,
                        ns,
                        q,
                        n.children,
                        0,
                        i,
                        depth + 1,
                        ya,
                        yb,
                        xa,
                        xb,
                        out,
                        ca,
                        cb,
                        set,
                    );
                }
            },
            Ok(NodeView::Leaf(l)) => {
                if node_at(a, slot, ns) is Ok {
                    lemma_scan_any_walk(q, l.entries, 0, ya, yb, out);
                }
            },
            Err(_) => {},
        }
    }
}

#[verifier::spinoff_prover]
proof fn lemma_gather_kids_same(
    a: Image,
    b: Image,
    ns: Namespace,
    q: QueryView,
    cs: Seq<ChildView>,
    j: int,
    i: int,
    depth: int,
    ga: WalkView,
    gb: WalkView,
    ta: WalkView,
    tb: WalkView,
    out: Seq<EntryView>,
    ca: int,
    cb: int,
    set: Set<u64>,
)
    requires
        0 <= j <= i <= cs.len(),
        roams(ga, ta),
        roams(gb, tb),
        tread_kids(a, cs, j, depth, ta, ca).end is Ok,
        tread_kids(b, cs, j, depth, tb, cb).end is Ok,
        tread_kids(a, cs, j, depth, ta, ca).w.visited.subset_of(set),
        same_in(a, b, set),
    ensures
        ({
            let x = gather_kids(a, ns, q, cs, i, depth, ga, out, ca);
            let y = gather_kids(b, ns, q, cs, i, depth, gb, out, cb);
            &&& x.out == y.out
            &&& x.end == y.end
            &&& roams(x.w, tread_kids(a, cs, j, depth, ta, ca).w)
            &&& roams(y.w, tread_kids(b, cs, j, depth, tb, cb).w)
        }),
    decreases ca - depth + 1, cs.len() - j + 1,
{
    lemma_tread_kids_roams(a, cs, j, depth, ga, ta, ca);
    lemma_tread_kids_roams(b, cs, j, depth, gb, tb, cb);
    if j < cs.len() {
        let xa = tread(a, cs[j].child_slot, depth, ta, ca);
        let xb = tread(b, cs[j].child_slot, depth, tb, cb);
        lemma_tread_kids_grows(a, cs, j + 1, depth, xa.w, ca);
        if j < i {
            lemma_tread_roams(a, cs[j].child_slot, depth, ga, ta, ca);
            lemma_tread_roams(b, cs[j].child_slot, depth, gb, tb, cb);
            lemma_gather_kids_same(
                a,
                b,
                ns,
                q,
                cs,
                j + 1,
                i,
                depth,
                ga,
                gb,
                xa.w,
                xb.w,
                out,
                ca,
                cb,
                set,
            );
        } else {
            let slot = cs[j].child_slot;
            lemma_gather_same(a, b, ns, q, slot, depth, ga, gb, ta, tb, out, ca, cb, set);
            let x = gather(a, ns, q, slot, depth, ga, out, ca);
            let y = gather(b, ns, q, slot, depth, gb, out, cb);
            lemma_tread_kids_roams(a, cs, j + 1, depth, x.w, xa.w, ca);
            lemma_tread_kids_roams(b, cs, j + 1, depth, y.w, xb.w, cb);
            if x.end == Ok::<bool, Error>(false) {
                lemma_gather_kids_same(
                    a,
                    b,
                    ns,
                    q,
                    cs,
                    j + 1,
                    i + 1,
                    depth,
                    x.w,
                    y.w,
                    xa.w,
                    xb.w,
                    x.out,
                    ca,
                    cb,
                    set,
                );
            }
        }
    }
}

/// A walk over children that gets through gets through under each.
proof fn lemma_tread_reaches(
    img: Image,
    cs: Seq<ChildView>,
    j: int,
    i: int,
    depth: int,
    g: WalkView,
    t: WalkView,
    cap: int,
) -> (x: WalkView)
    requires
        0 <= j <= i < cs.len(),
        roams(g, t),
        tread_kids(img, cs, j, depth, t, cap).end is Ok,
    ensures
        roams(g, x),
        tread(img, cs[i].child_slot, depth, x, cap).end is Ok,
        tread(img, cs[i].child_slot, depth, x, cap).w.visited.subset_of(
            tread_kids(img, cs, j, depth, t, cap).w.visited,
        ),
    decreases i - j,
{
    let y = tread(img, cs[j].child_slot, depth, t, cap);
    lemma_tread_kids_grows(img, cs, j + 1, depth, y.w, cap);
    if j == i {
        t
    } else {
        lemma_tread_roams(img, cs[j].child_slot, depth, g, t, cap);
        lemma_tread_reaches(img, cs, j + 1, i, depth, g, y.w, cap)
    }
}

/// Where both images can be walked, a search ends the same in both.
proof fn lemma_search_same(
    a: Image,
    b: Image,
    ns: Namespace,
    key: Seq<u8>,
    slot: u64,
    depth: int,
    ga: WalkView,
    gb: WalkView,
    ta: WalkView,
    tb: WalkView,
    ca: int,
    cb: int,
    set: Set<u64>,
)
    requires
        roams(ga, ta),
        roams(gb, tb),
        tread(a, slot, depth, ta, ca).end is Ok,
        tread(b, slot, depth, tb, cb).end is Ok,
        tread(a, slot, depth, ta, ca).w.visited.subset_of(set),
        same_in(a, b, set),
    ensures
        search(a, ns, key, slot, depth, ga, ca) == search(b, ns, key, slot, depth, gb, cb),
    decreases ca - depth + 1,
{
    assert(walk_refusal(ga, slot, depth) is None);
    assert(walk_refusal(gb, slot, depth) is None);
    let xa = walk_step(ta, slot);
    let xb = walk_step(tb, slot);
    assert(set.contains(slot)) by {
        if let Ok(NodeView::Internal(n)) = any_node_at(a, slot) {
            lemma_tread_kids_grows(a, n.children, 0, depth + 1, xa, ca);
        }
        assert(xa.visited.contains(slot));
        assert(tread(a, slot, depth, ta, ca).w.visited.contains(slot));
    }
    lemma_same_node(a, b, slot, ns, set);
    lemma_roams_step(ga, ta, slot);
    lemma_roams_step(gb, tb, slot);
    let ya = walk_step(ga, slot);
    let yb = walk_step(gb, slot);
    if let Ok(NodeView::Internal(n)) = node_at(a, slot, ns) {
        let cs = n.children;
        lemma_node_legal(a, slot, ns);
        lemma_child_index(cs, key);
        let i = child_index(cs, key);
        let za = lemma_tread_reaches(a, cs, 0, i, depth + 1, ya, xa, ca);
        let zb = lemma_tread_reaches(b, cs, 0, i, depth + 1, yb, xb, cb);
        lemma_search_same(
            a,
            b,
            ns,
            key,
            cs[i].child_slot,
            depth + 1,
            ya,
            yb,
            za,
            zb,
            ca,
            cb,
            set,
        );
    }
}

/// A walk over the trees of all roots that gets through gets through each.
proof fn lemma_tread_reaches_root(
    img: Image,
    rs: Seq<RootView>,
    j: int,
    i: int,
    g: WalkView,
    t: WalkView,
) -> (x: WalkView)
    requires
        0 <= j <= i < rs.len(),
        roams(g, t),
        tread_roots(img, rs, j, t).end is Ok,
    ensures
        roams(g, x),
        tread(img, rs[i].index_slot, 0, x, g.max_depth as int).end is Ok,
        tread(img, rs[i].index_slot, 0, x, g.max_depth as int).w.visited.subset_of(
            tread_roots(img, rs, j, t).w.visited,
        ),
    decreases i - j,
{
    let y = tread(img, rs[j].index_slot, 0, t, t.max_depth as int);
    lemma_tread_roots_grows(img, rs, j + 1, y.w);
    if j == i {
        t
    } else {
        lemma_tread_roams(img, rs[j].index_slot, 0, g, t, t.max_depth as int);
        lemma_tread_reaches_root(img, rs, j + 1, i, g, y.w)
    }
}

/// Cleaning up has been done, or has broken off.
pub open spec fn cleaned(a: Space, b: Space) -> bool {
    ||| vacuumed(a, b, orphan_aim(a)) || half_vacuumed(a, b, orphan_aim(a))
    ||| vacuumed(a, b, batch_aim(a)) || half_vacuumed(a, b, batch_aim(a))
}

/// Everything that a walk goes to is left as it was.
proof fn lemma_walked_is_same(a: Space, b: Space)
    requires
        a.wf(),
        a.state.superblock.root_slot != NO_RECORD,
        tread_all(a).end is Ok,
        cleaned(a, b),
    ensures
        same_in(a.file@, b.file@, tread_all(a).w.visited),
        b.roots() == a.roots(),
{
    let ia = a.file@;
    let root = a.state.superblock.root_slot;
    let rs = a.roots()->Ok_0;
    let wa = walk_step(a.walk_now(), root);
    let seen = tread_all(a).w.visited;
    let count = a.file.slots.len();
    assert(ia.len() == count);
    lemma_tread_roots_grows(ia, rs, 0, wa);
    assert(wa.visited.contains(root));
    assert(live(ia, root));
    assert forall|s: u64| #[trigger] seen.contains(s) implies chunk_at(ia, s) == chunk_at(
        b.file@,
        s,
    ) by {
        if s != root {
            lemma_tread_roots_nodes(ia, rs, 0, wa, s);
        }
        assert(!scrub_set(a, orphan_aim(a)).contains(s));
        assert(!scrub_set(a, batch_aim(a)).contains(s));
        assert(b.file@[s as int] == ia[s as int]);
    }
    assert(chunk_at(ia, root) == chunk_at(b.file@, root));
}

/// Cleaning up, however far it gets, changes no answer of `get` and none of
/// `list`, in any space whose nodes can all be walked before and after. (What
/// is owned bounds a walk, so a tree that is deeper than what is left can hold
/// is no longer walked.)
pub proof fn law_cleaning_changes_no_read(a: Space, b: Space, ns: Namespace, key: Seq<u8>)
    requires
        a.wf(),
        b.wf(),
        a.state.superblock.root_slot != NO_RECORD,
        tread_all(a).end is Ok,
        tread_all(b).end is Ok,
        cleaned(a, b),
    ensures
        got(b, ns, key) == got(a, ns, key),
        listed(b, ns) == listed(a, ns),
{
    lemma_walked_is_same(a, b);
    let rs = a.roots()->Ok_0;
    let root = a.state.superblock.root_slot;
    lemma_root_of(rs, ns);
    if let Some(r) = root_of(rs, ns) {
        let m = choose|m: int| 0 <= m < rs.len() && #[trigger] rs[m] == r;
        let ga = a.walk_now();
        let gb = b.walk_now();
        lemma_roams_step(ga, ga, root);
        lemma_roams_step(gb, gb, root);
        let ta = lemma_tread_reaches_root(a.file@, rs, 0, m, ga, walk_step(ga, root));
        let tb = lemma_tread_reaches_root(b.file@, rs, 0, m, gb, walk_step(gb, root));
        let ca = ga.max_depth as int;
        let cb = gb.max_depth as int;
        let set = tread_all(a).w.visited;
        lemma_search_same(
            a.file@,
            b.file@,
            ns,
            key,
            r.index_slot,
            0,
            ga,
            gb,
            ta,
            tb,
            ca,
            cb,
            set,
        );
        lemma_gather_same(
            a.file@,
            b.file@,
            ns,
            everything(),
            r.index_slot,
            0,
            ga,
            gb,
            ta,
            tb,
            Seq::<EntryView>::empty(),
            ca,
            cb,
            set,
        );
    }
}

/// What is read of everything does not depend on what has been read before.
proof fn lemma_gather_offset(
    img: Image,
    ns: Namespace,
    slot: u64,
    depth: int,
    w: WalkView,
    had: Seq<EntryView>,
    out: Seq<EntryView>,
    cap: int,
)
    ensures
        ({
            let x = gather(img, ns, everything(), slot, depth, w, out, cap);
            let y = gather(img, ns, everything(), slot, depth, w, had + out, cap);
            y.w == x.w && y.end == x.end && y.out == had + x.out
        }),
    decreases cap - depth + 1, 0int,
{
    if walk_refusal(w, slot, depth) is None && depth <= cap {
        let w1 = walk_step(w, slot);
        match node_at(img, slot, ns) {
            Err(_) => {},
            Ok(NodeView::Leaf(l)) => {
                lemma_scan_everything(l.entries, 0, w1, out);
                lemma_scan_everything(l.entries, 0, w1, had + out);
                assert(had + out + l.entries.skip(0) =~= had + (out + l.entries.skip(0)));
            },
            Ok(NodeView::Internal(n)) => {
                lemma_gather_kids_offset(img, ns, n.children, 0, depth + 1, w1, had, out, cap);
            },
        }
    }
}

proof fn lemma_gather_kids_offset(
    img: Image,
    ns: Namespace,
    cs: Seq<ChildView>,
    i: int,
    depth: int,
    w: WalkView,
    had: Seq<EntryView>,
    out: Seq<EntryView>,
    cap: int,
)
    ensures
        ({
            let x = gather_kids(img, ns, everything(), cs, i, depth, w, out, cap);
            let y = gather_kids(img, ns, everything(), cs, i, depth, w, had + out, cap);
            y.w == x.w && y.end == x.end && y.out == had + x.out
        }),
    decreases cap - depth + 1, cs.len() - i + 1,
{
    if 0 <= i < cs.len() {
        let slot = cs[i].child_slot;
        lemma_gather_offset(img, ns, slot, depth, w, had, out, cap);
        let g = gather(img, ns, everything(), slot, depth, w, out, cap);
        lemma_gather_kids_offset(img, ns, cs, i + 1, depth, g.w, had, g.out, cap);
    }
}

/// The entries of a log are among those of all logs.
proof fn lemma_log_is_among_all(s: Space, rs: Seq<RootView>, m: int, x: u64)
    requires
        s.roots() == Ok::<Seq<RootView>, Error>(rs),
        all_log_entries(s) is Ok,
        0 <= m < rs.len(),
        rs[m].kind == NamespaceKind::Log,
        page_of(
            s.file@,
            s.walk_now(),
            rs[m].namespace,
            everything(),
            rs[m].index_slot,
        ) matches Ok(es) && points_at(es, x),
    ensures
        points_at(all_log_entries(s)->Ok_0, x),
{
    let w = s.walk_now();
    let none = Seq::<EntryView>::empty();
    let es = page_of(s.file@, w, rs[m].namespace, everything(), rs[m].index_slot)->Ok_0;
    lemma_log_entries_ok(s, rs, m, rs.len() as int);
    lemma_log_entries_ok(s, rs, m + 1, rs.len() as int);
    let had = log_entries(s, rs, m)->Ok_0;
    lemma_gather_offset(
        s.file@,
        rs[m].namespace,
        rs[m].index_slot,
        0,
        w,
        had,
        none,
        w.max_depth as int,
    );
    assert(had + none =~= had);
    let now = log_entries(s, rs, m + 1)->Ok_0;
    assert(now == had + es);
    let i = choose|i: int|
        0 <= i < es.len() && slot_of_value((#[trigger] es[i]).1) == Ok::<u64, Error>(x);
    assert(now[had.len() + i] == es[i]);
    assert(points_at(now, x));
    lemma_log_entries_prefix(s, rs, m + 1, rs.len() as int, x);
}

/// Records whose batches are as they were are read as they were.
proof fn lemma_records_stay(a: Image, b: Image, es: Seq<EntryView>)
    requires
        records_of(a, es) is Ok,
        forall|i: int|
            0 <= i < es.len() && batch_slot(a, #[trigger] es[i]) is Some ==> chunk_at(
                a,
                batch_slot(a, es[i])->0,
            ) == chunk_at(b, batch_slot(a, es[i])->0),
    ensures
        records_of(b, es) == records_of(a, es),
    decreases es.len(),
{
    if es.len() > 0 {
        let init = es.drop_last();
        assert forall|i: int|
            0 <= i < init.len() && batch_slot(a, #[trigger] init[i]) is Some implies chunk_at(
            a,
            batch_slot(a, init[i])->0,
        ) == chunk_at(b, batch_slot(a, init[i])->0) by {
            assert(init[i] == es[i]);
        }
        lemma_records_stay(a, b, init);
        let e = es[es.len() - 1];
        assert(record_of(a, e) is Ok);
        assert(batch_slot(a, e) is Some);
    }
}

/// The slot of the batch that an entry points at, where one is there.
pub open spec fn batch_slot(img: Image, e: EntryView) -> Option<u64> {
    match slot_of_value(e.1) {
        Ok(slot) => if live(img, slot) && img[slot as int]->0.kind == ChunkKind::DataBatch {
            Some(slot)
        } else {
            None
        },
        Err(_) => None,
    }
}

/// Cleaning up, however far it gets, changes no answer of `iter_log` that gives
/// records, in any space whose nodes can all be walked before and after.
pub proof fn law_cleaning_keeps_records(a: Space, b: Space, ns: Namespace)
    requires
        a.wf(),
        b.wf(),
        a.state.superblock.root_slot != NO_RECORD,
        tread_all(a).end is Ok,
        tread_all(b).end is Ok,
        cleaned(a, b),
        vacuumed(a, b, batch_aim(a)) || half_vacuumed(a, b, batch_aim(a)) ==> all_log_entries(
            a,
        ) is Ok,
        logged(a, ns) is Ok,
    ensures
        logged(b, ns) == logged(a, ns),
{
    lemma_walked_is_same(a, b);
    law_cleaning_changes_no_read(a, b, ns, Seq::<u8>::empty());
    let rs = a.roots()->Ok_0;
    lemma_root_of(rs, ns);
    if let Some(r) = root_of(rs, ns) {
        let m = choose|m: int| 0 <= m < rs.len() && #[trigger] rs[m] == r;
        let es = listed(a, ns)->Ok_0;
        let count = a.file.slots.len();
        assert(a.file@.len() == count);
        assert forall|i: int|
            0 <= i < es.len() && batch_slot(a.file@, #[trigger] es[i]) is Some implies chunk_at(
            a.file@,
            batch_slot(a.file@, es[i])->0,
        ) == chunk_at(b.file@, batch_slot(a.file@, es[i])->0) by {
            let x = batch_slot(a.file@, es[i])->0;
            assert(!scrub_set(a, orphan_aim(a)).contains(x));
            if vacuumed(a, b, batch_aim(a)) || half_vacuumed(a, b, batch_aim(a)) {
                assert(points_at(es, x));
                lemma_log_is_among_all(a, rs, m, x);
                assert(batch_aim(a).spared.contains(x));
                assert(!scrub_set(a, batch_aim(a)).contains(x));
            }
            assert(b.file@[x as int] == a.file@[x as int]);
        }
        lemma_records_stay(a.file@, b.file@, es);
    }
}

/// A second `vacuum_orphans`, with no commit in between, is not refused, finds
/// nothing to overwrite and nothing to free, in any space whose nodes can all be
/// walked before and after the first.
pub proof fn law_second_vacuum_does_nothing(a: Space, b: Space)
    requires
        a.wf(),
        b.wf(),
        a.state.superblock.root_slot != NO_RECORD,
        tread_all(a).end is Ok,
        tread_all(b).end is Ok,
        vacuum_refusal(a) is None,
        vacuumed(a, b, orphan_aim(a)),
    ensures
        vacuum_refusal(b) is None,
        scrub_set(b, orphan_aim(b)) == Set::<u64>::empty(),
        free_set(b, orphan_aim(b)) == Set::<u64>::empty(),
        sweep_writes(b, orphan_aim(b)) == 0,
{
    law_vacuum_twice(a, b);
}

/// What `vacuum_data_batches` makes of a batch: one that an entry of a log points
/// at opens as it did; any other opens no more, is no longer owned, and is free
/// for reuse. The superblock and the history stay.
pub proof fn law_batch_vacuum(a: Space, b: Space, slot: u64)
    requires
        a.wf(),
        all_log_entries(a) is Ok,
        vacuumed(a, b, batch_aim(a)),
        live(a.file@, slot),
        a.file@[slot as int]->0.kind == ChunkKind::DataBatch,
    ensures
        points_at(all_log_entries(a)->Ok_0, slot) ==> live(b.file@, slot)
            && b.file@[slot as int] == a.file@[slot as int],
        !points_at(all_log_entries(a)->Ok_0, slot) ==> {
            &&& scrub_set(a, batch_aim(a)).contains(slot)
            &&& !live(b.file@, slot)
            &&& !b.state.owned_slots@.contains(slot)
            &&& b.state.pool@.contains(slot)
        },
        b.state.superblock == a.state.superblock,
        b.state.commit_history == a.state.commit_history,
{
    let aim = batch_aim(a);
    let count = a.file.slots.len();
    assert(a.file@.len() == count);
    assert(a.state.owned_slots@.contains(slot));
    if points_at(all_log_entries(a)->Ok_0, slot) {
        assert(aim.spared.contains(slot));
        assert(!scrub_set(a, aim).contains(slot));
    } else {
        assert(!aim.spared.contains(slot));
        assert(scrub_set(a, aim).contains(slot));
        assert(free_set(a, aim).contains(slot));
    }
}

/// What `vacuum_orphans` makes of a node: one that the superblock leads to opens
/// as it did; any other opens no more, is no longer owned, and is free for reuse.
/// The superblock and the history stay.
pub proof fn law_orphan_vacuum(a: Space, b: Space, slot: u64)
    requires
        a.wf(),
        tread_all(a).end is Ok,
        vacuumed(a, b, orphan_aim(a)),
        live(a.file@, slot),
        a.file@[slot as int]->0.kind == ChunkKind::IndexNode,
    ensures
        tread_all(a).w.visited.contains(slot) ==> live(b.file@, slot) && b.file@[slot as int]
            == a.file@[slot as int],
        !tread_all(a).w.visited.contains(slot) ==> {
            &&& scrub_set(a, orphan_aim(a)).contains(slot)
            &&& !live(b.file@, slot)
            &&& !b.state.owned_slots@.contains(slot)
            &&& b.state.pool@.contains(slot)
        },
        b.state.superblock == a.state.superblock,
        b.state.commit_history == a.state.commit_history,
{
    let aim = orphan_aim(a);
    let count = a.file.slots.len();
    assert(a.file@.len() == count);
    assert(a.state.owned_slots@.contains(slot));
    if tread_all(a).w.visited.contains(slot) {
        assert(!scrub_set(a, aim).contains(slot));
    } else {
        assert(scrub_set(a, aim).contains(slot));
        assert(free_set(a, aim).contains(slot));
    }
}

} // verus!
