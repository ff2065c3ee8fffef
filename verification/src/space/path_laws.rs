//! What reads go through: nodes of the namespace that is read, each of them once,
//! and for one key a single trail.

use vstd::prelude::*;

use crate::container::Image;
use crate::error::Error;
use crate::space::index::{
    child_index, lemma_child_index, lemma_lookup, ChildView, EntryView, Namespace, NodeView,
};
use crate::space::laws::{got, listed};
use crate::space::reads::{everything, gather, gather_kids, search};
use crate::space::report_laws::{lemma_trail_front, lemma_trail_tail};
use crate::space::stats::lemma_scan_everything;
use crate::space::trail_laws::trail;
use crate::space::walk::{walk_step, WalkView};
use crate::space::{any_node_at, node_at, root_of, Space};

verus! {

// ---------------------------------------------------------------------------
// Lists
// ---------------------------------------------------------------------------

/// Reading goes to ever more slots.
proof fn lemma_gather_grows(
    img: Image,
    ns: Namespace,
    slot: u64,
    depth: int,
    w: WalkView,
    out: Seq<EntryView>,
    cap: int,
)
    requires
        gather(img, ns, everything(), slot, depth, w, out, cap).end is Ok,
    ensures
        ({
            let g = gather(img, ns, everything(), slot, depth, w, out, cap);
            &&& g.end == Ok::<bool, Error>(false)
            &&& w.visited.subset_of(g.w.visited)
            &&& g.w.max_depth == w.max_depth
        }),
    decreases cap - depth + 1, 0int,
{
    let w1 = walk_step(w, slot);
    match node_at(img, slot, ns) {
        Ok(NodeView::Leaf(l)) => {
            lemma_scan_everything(l.entries, 0, w1, out);
        },
        Ok(NodeView::Internal(n)) => {
            lemma_gather_kids_grows(img, ns, n.children, 0, depth + 1, w1, out, cap);
        },
        Err(_) => {},
    }
}

proof fn lemma_gather_kids_grows(
    img: Image,
    ns: Namespace,
    cs: Seq<ChildView>,
    i: int,
    depth: int,
    w: WalkView,
    out: Seq<EntryView>,
    cap: int,
)
    requires
        0 <= i <= cs.len(),
        gather_kids(img, ns, everything(), cs, i, depth, w, out, cap).end is Ok,
    ensures
        ({
            let g = gather_kids(img, ns, everything(), cs, i, depth, w, out, cap);
            &&& g.end == Ok::<bool, Error>(false)
            &&& w.visited.subset_of(g.w.visited)
            &&& g.w.max_depth == w.max_depth
        }),
    decreases cap - depth + 1, cs.len() - i + 1,
{
    if i < cs.len() {
        let g = gather(img, ns, everything(), cs[i].child_slot, depth, w, out, cap);
        lemma_gather_grows(img, ns, cs[i].child_slot, depth, w, out, cap);
        lemma_gather_kids_grows(img, ns, cs, i + 1, depth, g.w, g.out, cap);
    }
}

/// Reading goes down every trail, to slots it had not gone to.
proof fn lemma_gather_trail(
    img: Image,
    ns: Namespace,
    slot: u64,
    depth: int,
    w: WalkView,
    out: Seq<EntryView>,
    cap: int,
    path: Seq<u64>,
)
    requires
        gather(img, ns, everything(), slot, depth, w, out, cap).end is Ok,
        trail(img, slot, path),
    ensures
        node_at(img, path.last(), ns) is Ok,
        !w.visited.contains(path.last()),
        gather(img, ns, everything(), slot, depth, w, out, cap).w.visited.contains(path.last()),
        depth + path.len() - 1 <= w.max_depth,
    decreases cap - depth + 1, 0int,
{
    let w1 = walk_step(w, slot);
    lemma_gather_grows(img, ns, slot, depth, w, out, cap);
    match node_at(img, slot, ns) {
        Ok(NodeView::Leaf(l)) => {
            lemma_scan_everything(l.entries, 0, w1, out);
            if path.len() > 1 {
                let j = lemma_trail_tail(img, slot, path);
            }
        },
        Ok(NodeView::Internal(n)) => {
            lemma_gather_kids_grows(img, ns, n.children, 0, depth + 1, w1, out, cap);
            if path.len() > 1 {
                let j = lemma_trail_tail(img, slot, path);
                let rest = path.skip(1);
                lemma_gather_kids_trail(img, ns, n.children, 0, depth + 1, w1, out, cap, j, rest);
                assert(rest.last() == path.last());
            }
        },
        Err(_) => {},
    }
}

proof fn lemma_gather_kids_trail(
    img: Image,
    ns: Namespace,
    cs: Seq<ChildView>,
    i: int,
    depth: int,
    w: WalkView,
    out: Seq<EntryView>,
    cap: int,
    j: int,
    path: Seq<u64>,
)
    requires
        0 <= i <= j < cs.len(),
        gather_kids(img, ns, everything(), cs, i, depth, w, out, cap).end is Ok,
        trail(img, cs[j].child_slot, path),
    ensures
        node_at(img, path.last(), ns) is Ok,
        !w.visited.contains(path.last()),
        gather_kids(img, ns, everything(), cs, i, depth, w, out, cap).w.visited.contains(
            path.last(),
        ),
        depth + path.len() - 1 <= w.max_depth,
    decreases cap - depth + 1, cs.len() - i + 1,
{
    let g = gather(img, ns, everything(), cs[i].child_slot, depth, w, out, cap);
    lemma_gather_grows(img, ns, cs[i].child_slot, depth, w, out, cap);
    lemma_gather_kids_grows(img, ns, cs, i + 1, depth, g.w, g.out, cap);
    if i == j {
        lemma_gather_trail(img, ns, cs[i].child_slot, depth, w, out, cap, path);
    } else {
        lemma_gather_kids_trail(img, ns, cs, i + 1, depth, g.w, g.out, cap, j, path);
    }
}

/// Two trails to one slot are one trail.
proof fn lemma_gather_one_trail(
    img: Image,
    ns: Namespace,
    slot: u64,
    depth: int,
    w: WalkView,
    out: Seq<EntryView>,
    cap: int,
    p: Seq<u64>,
    q: Seq<u64>,
)
    requires
        gather(img, ns, everything(), slot, depth, w, out, cap).end is Ok,
        trail(img, slot, p),
        trail(img, slot, q),
        p.last() == q.last(),
    ensures
        p == q,
    decreases cap - depth + 1, 0int,
{
    let w1 = walk_step(w, slot);
    match node_at(img, slot, ns) {
        Ok(NodeView::Leaf(_)) => {
            if p.len() > 1 {
                let i = lemma_trail_tail(img, slot, p);
            }
            if q.len() > 1 {
                let i = lemma_trail_tail(img, slot, q);
            }
        },
        Ok(NodeView::Internal(n)) => {
            let cs = n.children;
            let x = p.skip(1);
            let y = q.skip(1);
            if p.len() > 1 && q.len() > 1 {
                let i = lemma_trail_tail(img, slot, p);
                let j = lemma_trail_tail(img, slot, q);
                assert(x.last() == p.last() && y.last() == q.last());
                if i <= j {
                    lemma_kids_one_trail(img, ns, cs, 0, depth + 1, w1, out, cap, i, j, x, y);
                } else {
                    lemma_kids_one_trail(img, ns, cs, 0, depth + 1, w1, out, cap, j, i, y, x);
                }
                assert(p =~= seq![slot] + x);
                assert(q =~= seq![slot] + y);
            } else if p.len() > 1 {
                let i = lemma_trail_tail(img, slot, p);
                lemma_gather_kids_trail(img, ns, cs, 0, depth + 1, w1, out, cap, i, x);
                assert(x.last() == slot);
            } else if q.len() > 1 {
                let j = lemma_trail_tail(img, slot, q);
                lemma_gather_kids_trail(img, ns, cs, 0, depth + 1, w1, out, cap, j, y);
                assert(y.last() == slot);
            }
        },
        Err(_) => {},
    }
    if p.len() == 1 && q.len() == 1 {
        assert(p =~= q);
    }
}

proof fn lemma_kids_one_trail(
    img: Image,
    ns: Namespace,
    cs: Seq<ChildView>,
    from: int,
    depth: int,
    w: WalkView,
    out: Seq<EntryView>,
    cap: int,
    i: int,
    j: int,
    p: Seq<u64>,
    q: Seq<u64>,
)
    requires
        0 <= from <= i <= j < cs.len(),
        gather_kids(img, ns, everything(), cs, from, depth, w, out, cap).end is Ok,
        trail(img, cs[i].child_slot, p),
        trail(img, cs[j].child_slot, q),
        p.last() == q.last(),
    ensures
        p == q,
    decreases cap - depth + 1, cs.len() - from + 1,
{
    let g = gather(img, ns, everything(), cs[from].child_slot, depth, w, out, cap);
    lemma_gather_grows(img, ns, cs[from].child_slot, depth, w, out, cap);
    if from < i {
        lemma_kids_one_trail(img, ns, cs, from + 1, depth, g.w, g.out, cap, i, j, p, q);
    } else if i == j {
        lemma_gather_one_trail(img, ns, cs[i].child_slot, depth, w, out, cap, p, q);
    } else {
        lemma_gather_trail(img, ns, cs[i].child_slot, depth, w, out, cap, p);
        lemma_gather_kids_trail(img, ns, cs, from + 1, depth, g.w, g.out, cap, j, q);
    }
}

/// `list` reads nodes of the namespace that was asked for and of no other: a tree
/// with a node under it that names another namespace, or with a chunk that two
/// trails lead to, is not listed.
pub proof fn law_lists_keep_to_the_namespace(s: Space, ns: Namespace, p: Seq<u64>, q: Seq<u64>)
    requires
        listed(s, ns) is Ok,
        root_of(s.roots()->Ok_0, ns) is Some,
        trail(s.file@, root_of(s.roots()->Ok_0, ns)->0.index_slot, p),
        trail(s.file@, root_of(s.roots()->Ok_0, ns)->0.index_slot, q),
    ensures
        any_node_at(s.file@, p.last()) matches Ok(n) && n.namespace() == ns,
        p.len() <= s.walk_now().max_depth + 1,
        p.last() == q.last() ==> p == q,
{
    let slot = root_of(s.roots()->Ok_0, ns)->0.index_slot;
    let w = s.walk_now();
    let none = Seq::<EntryView>::empty();
    lemma_gather_trail(s.file@, ns, slot, 0, w, none, w.max_depth as int, p);
    if p.last() == q.last() {
        lemma_gather_one_trail(s.file@, ns, slot, 0, w, none, w.max_depth as int, p, q);
    }
}

// ---------------------------------------------------------------------------
// One key
// ---------------------------------------------------------------------------

/// A trail of nodes of one namespace, down to a leaf with these entries.
pub open spec fn goes_to_leaf(
    img: Image,
    ns: Namespace,
    slot: u64,
    path: Seq<u64>,
    es: Seq<EntryView>,
) -> bool {
    &&& trail(img, slot, path)
    &&& forall|k: int|
        0 <= k < path.len() ==> (any_node_at(img, #[trigger] path[k]) matches Ok(n)
            && n.namespace() == ns)
    &&& any_node_at(img, path.last()) matches Ok(NodeView::Leaf(l)) && l.entries == es
}

/// The entries say this of the key.
pub open spec fn entries_say(es: Seq<EntryView>, key: Seq<u8>, v: Option<Seq<u8>>) -> bool {
    match v {
        Some(x) => es.contains((key, x)),
        None => forall|i: int| 0 <= i < es.len() ==> (#[trigger] es[i]).0 != key,
    }
}

proof fn lemma_search_path(
    img: Image,
    ns: Namespace,
    key: Seq<u8>,
    slot: u64,
    depth: int,
    w: WalkView,
    cap: int,
) -> (r: (Seq<u64>, Seq<EntryView>))
    requires
        search(img, ns, key, slot, depth, w, cap) is Ok,
    ensures
        goes_to_leaf(img, ns, slot, r.0, r.1),
        entries_say(r.1, key, search(img, ns, key, slot, depth, w, cap)->Ok_0),
    decreases cap - depth + 1,
{
    match node_at(img, slot, ns)->Ok_0 {
        NodeView::Leaf(l) => {
            lemma_lookup(l.entries, key);
            let path = seq![slot];
            assert(trail(img, slot, path));
            assert(goes_to_leaf(img, ns, slot, path, l.entries));
            (path, l.entries)
        },
        NodeView::Internal(n) => {
            let cs = n.children;
            crate::space::update::lemma_node_legal(img, slot, ns);
            lemma_child_index(cs, key);
            let i = child_index(cs, key);
            let (rest, es) = lemma_search_path(
                img,
                ns,
                key,
                cs[i].child_slot,
                depth + 1,
                walk_step(w, slot),
                cap,
            );
            lemma_trail_front(img, slot, cs, i, rest);
            let path = seq![slot] + rest;
            assert forall|k: int| 0 <= k < path.len() implies (any_node_at(
                img,
                #[trigger] path[k],
            ) matches Ok(m) && m.namespace() == ns) by {
                if k > 0 {
                    assert(path[k] == rest[k - 1]);
                }
            }
            assert(path.last() == rest.last());
            (path, es)
        },
    }
}

/// `get` goes down one trail of nodes of the namespace that was asked for, and
/// what the leaf at its end says of the key is what it gives: a value that the
/// leaf has under it, or nothing where the leaf has nothing under it. So there
/// is no answer from a node that does not open, nor from one of another
/// namespace.
pub proof fn law_get_goes_down_one_trail(s: Space, ns: Namespace, key: Seq<u8>)
    requires
        got(s, ns, key) is Ok,
        root_of(s.roots()->Ok_0, ns) is Some,
    ensures
        exists|path: Seq<u64>, es: Seq<EntryView>| #[trigger]
            goes_to_leaf(s.file@, ns, root_of(s.roots()->Ok_0, ns)->0.index_slot, path, es)
                && entries_say(es, key, got(s, ns, key)->Ok_0),
{
    let slot = root_of(s.roots()->Ok_0, ns)->0.index_slot;
    let w = s.walk_now();
    let (path, es) = lemma_search_path(s.file@, ns, key, slot, 0, w, w.max_depth as int);
    assert(goes_to_leaf(s.file@, ns, slot, path, es));
}

} // verus!
