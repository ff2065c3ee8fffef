//! What the index of a namespace is: a tree of nodes, level by level, and the
//! entries it holds.

use vstd::prelude::*;

use crate::bytes::{lemma_lex_total, lemma_lex_trans, lex_lt};
use crate::chunk::PAYLOAD_CAP;
use crate::container::{extends, live, Image};
use crate::seqs::{flat, lemma_flat_append, lemma_flat_index, lemma_flat_push, lemma_flat_same};
use crate::space::index::{
    boundary_coin, child_cost, ends_node, internal_len, keys_sorted, leaf_cost, leaf_len,
    lemma_lookup, lookup, ChildView, EntryView, Namespace, NodeView,
};
use crate::space::tree::op_on;
use crate::space::{node_at, root_of};
use crate::tx::commit::{blake3_digest, RootView};

verus! {

// ---------------------------------------------------------------------------
// Levels
// ---------------------------------------------------------------------------

/// The children of the node that a pointer leads to.
pub open spec fn kids(img: Image, ns: Namespace) -> spec_fn(ChildView) -> Seq<ChildView> {
    |p: ChildView|
        match node_at(img, p.child_slot, ns) {
            Ok(NodeView::Internal(n)) => n.children,
            _ => Seq::<ChildView>::empty(),
        }
}

/// The entries of the leaf that a pointer leads to.
pub open spec fn leaves(img: Image, ns: Namespace) -> spec_fn(ChildView) -> Seq<EntryView> {
    |p: ChildView|
        match node_at(img, p.child_slot, ns) {
            Ok(NodeView::Leaf(l)) => l.entries,
            _ => Seq::<EntryView>::empty(),
        }
}

/// The level below the nodes that `ps` lead to.
pub open spec fn below(img: Image, ns: Namespace, ps: Seq<ChildView>) -> Seq<ChildView> {
    flat(kids(img, ns), ps)
}

/// The entries under nodes of height `h`.
pub open spec fn level_entries(
    img: Image,
    ns: Namespace,
    ps: Seq<ChildView>,
    h: nat,
) -> Seq<EntryView>
    decreases h,
{
    if h == 0 {
        flat(leaves(img, ns), ps)
    } else {
        level_entries(img, ns, below(img, ns, ps), (h - 1) as nat)
    }
}

/// The pointer leads to a node of height `h` (or at least: a leaf where `h`
/// is zero, an internal node where it is not) that hashes and starts as the
/// pointer says.
pub open spec fn node_fits(img: Image, ns: Namespace, p: ChildView, h: nat) -> bool {
    &&& live(img, p.child_slot)
    &&& img[p.child_slot as int]->0.payload.len() <= PAYLOAD_CAP
    &&& blake3_digest(img[p.child_slot as int]->0.payload) == p.child_hash
    &&& match node_at(img, p.child_slot, ns) {
        Ok(NodeView::Leaf(l)) => h == 0 && l.entries.len() > 0 && l.entries[0].0 == p.first_key,
        Ok(NodeView::Internal(n)) => h > 0 && n.children.len() > 0 && n.children[0].first_key
            == p.first_key,
        Err(_) => false,
    }
}

/// Every pointer leads to a node of height `h` that fits it, down to the
/// leaves.
pub open spec fn level_ok(img: Image, ns: Namespace, ps: Seq<ChildView>, h: nat) -> bool
    decreases h,
{
    &&& forall|i: int| 0 <= i < ps.len() ==> node_fits(img, ns, #[trigger] ps[i], h)
    &&& h > 0 ==> level_ok(img, ns, below(img, ns, ps), (h - 1) as nat)
}

/// The slots that pointers name.
pub open spec fn slots_of(ps: Seq<ChildView>) -> Seq<u64> {
    Seq::new(ps.len(), |i: int| ps[i].child_slot)
}

/// The slots of all nodes under and at height `h`.
pub open spec fn level_slots(img: Image, ns: Namespace, ps: Seq<ChildView>, h: nat) -> Seq<u64>
    decreases h,
{
    if h == 0 {
        slots_of(ps)
    } else {
        slots_of(ps) + level_slots(img, ns, below(img, ns, ps), (h - 1) as nat)
    }
}

/// A forest of trees of height `h`: each pointer fits, keys rise throughout,
/// and no chunk is reached twice.
pub open spec fn forest(img: Image, ns: Namespace, ps: Seq<ChildView>, h: nat) -> bool {
    &&& level_ok(img, ns, ps, h)
    &&& keys_sorted(level_entries(img, ns, ps, h))
    &&& level_slots(img, ns, ps, h).no_duplicates()
}

/// The first key of the node at `slot`.
pub open spec fn node_first_key(img: Image, ns: Namespace, slot: u64) -> Seq<u8> {
    match node_at(img, slot, ns) {
        Ok(NodeView::Leaf(l)) => l.entries[0].0,
        Ok(NodeView::Internal(n)) => n.children[0].first_key,
        Err(_) => Seq::<u8>::empty(),
    }
}

/// The pointer to a tree's root.
pub open spec fn root_ptr(img: Image, ns: Namespace, slot: u64, hash: Seq<u8>) -> ChildView {
    ChildView { first_key: node_first_key(img, ns, slot), child_slot: slot, child_hash: hash }
}

/// A tree of height `h` with its root at `slot`.
pub open spec fn tree(img: Image, ns: Namespace, slot: u64, hash: Seq<u8>, h: nat) -> bool {
    forest(img, ns, seq![root_ptr(img, ns, slot, hash)], h)
}

/// The entries of a tree of height `h`.
pub open spec fn tree_entries(img: Image, ns: Namespace, slot: u64, hash: Seq<u8>, h: nat) -> Seq<
    EntryView,
> {
    level_entries(img, ns, seq![root_ptr(img, ns, slot, hash)], h)
}

/// The nodes of a tree, by depth from the root: the pointers `k` steps below
/// `ps`.
pub open spec fn down(img: Image, ns: Namespace, ps: Seq<ChildView>, k: nat) -> Seq<ChildView>
    decreases k,
{
    if k == 0 {
        ps
    } else {
        below(img, ns, down(img, ns, ps, (k - 1) as nat))
    }
}

pub proof fn lemma_level_entries_append(
    img: Image,
    ns: Namespace,
    a: Seq<ChildView>,
    b: Seq<ChildView>,
    h: nat,
)
    ensures
        level_entries(img, ns, a + b, h) == level_entries(img, ns, a, h) + level_entries(
            img,
            ns,
            b,
            h,
        ),
    decreases h,
{
    if h == 0 {
        lemma_flat_append(leaves(img, ns), a, b);
    } else {
        lemma_flat_append(kids(img, ns), a, b);
        lemma_level_entries_append(img, ns, below(img, ns, a), below(img, ns, b), (h - 1) as nat);
    }
}

pub proof fn lemma_level_ok_append(
    img: Image,
    ns: Namespace,
    a: Seq<ChildView>,
    b: Seq<ChildView>,
    h: nat,
)
    ensures
        level_ok(img, ns, a + b, h) <==> level_ok(img, ns, a, h) && level_ok(img, ns, b, h),
    decreases h,
{
    let c = a + b;
    if level_ok(img, ns, c, h) {
        assert forall|i: int| 0 <= i < a.len() implies node_fits(img, ns, #[trigger] a[i], h) by {
            assert(c[i] == a[i]);
        }
        assert forall|i: int| 0 <= i < b.len() implies node_fits(img, ns, #[trigger] b[i], h) by {
            assert(c[a.len() + i] == b[i]);
        }
    }
    if h > 0 {
        lemma_flat_append(kids(img, ns), a, b);
        lemma_level_ok_append(img, ns, below(img, ns, a), below(img, ns, b), (h - 1) as nat);
    }
}

/// What holds of a level holds of the part between two positions.
pub proof fn lemma_level_ok_part(
    img: Image,
    ns: Namespace,
    ps: Seq<ChildView>,
    h: nat,
    i: int,
    j: int,
)
    requires
        0 <= i <= j <= ps.len(),
        level_ok(img, ns, ps, h),
    ensures
        level_ok(img, ns, ps.subrange(i, j), h),
        level_ok(img, ns, ps.take(i), h),
        level_ok(img, ns, ps.skip(j), h),
{
    assert(ps =~= ps.take(i) + ps.subrange(i, j) + ps.skip(j));
    lemma_level_ok_append(img, ns, ps.take(i) + ps.subrange(i, j), ps.skip(j), h);
    lemma_level_ok_append(img, ns, ps.take(i), ps.subrange(i, j), h);
}

/// A node that opens reads the same in a larger image.
pub proof fn lemma_node_extends(a: Image, b: Image, ns: Namespace, slot: u64)
    requires
        extends(a, b),
        live(a, slot),
    ensures
        live(b, slot),
        node_at(b, slot, ns) == node_at(a, slot, ns),
        b[slot as int] == a[slot as int],
{
}

/// A level is the same in a larger image.
pub proof fn lemma_level_extends(a: Image, b: Image, ns: Namespace, ps: Seq<ChildView>, h: nat)
    requires
        extends(a, b),
        level_ok(a, ns, ps, h),
    ensures
        level_ok(b, ns, ps, h),
        level_entries(b, ns, ps, h) == level_entries(a, ns, ps, h),
        level_slots(b, ns, ps, h) == level_slots(a, ns, ps, h),
        h > 0 ==> below(b, ns, ps) == below(a, ns, ps),
        h == 0 ==> flat(leaves(b, ns), ps) == flat(leaves(a, ns), ps),
    decreases h,
{
    assert forall|i: int| 0 <= i < ps.len() implies node_fits(b, ns, #[trigger] ps[i], h)
        && kids(a, ns)(ps[i]) == kids(b, ns)(ps[i]) && leaves(a, ns)(ps[i]) == leaves(b, ns)(
        ps[i],
    ) by {
        assert(node_fits(a, ns, ps[i], h));
        lemma_node_extends(a, b, ns, ps[i].child_slot);
    }
    lemma_flat_same(kids(a, ns), kids(b, ns), ps);
    lemma_flat_same(leaves(a, ns), leaves(b, ns), ps);
    if h > 0 {
        lemma_level_extends(a, b, ns, below(a, ns, ps), (h - 1) as nat);
    }
}

/// A forest is the same in a larger image.
pub proof fn lemma_forest_extends(a: Image, b: Image, ns: Namespace, ps: Seq<ChildView>, h: nat)
    requires
        extends(a, b),
        forest(a, ns, ps, h),
    ensures
        forest(b, ns, ps, h),
        level_entries(b, ns, ps, h) == level_entries(a, ns, ps, h),
        level_slots(b, ns, ps, h) == level_slots(a, ns, ps, h),
{
    lemma_level_extends(a, b, ns, ps, h);
}

/// A tree is the same in a larger image.
pub proof fn lemma_tree_extends(
    a: Image,
    b: Image,
    ns: Namespace,
    slot: u64,
    hash: Seq<u8>,
    h: nat,
)
    requires
        extends(a, b),
        tree(a, ns, slot, hash, h),
    ensures
        tree(b, ns, slot, hash, h),
        tree_entries(b, ns, slot, hash, h) == tree_entries(a, ns, slot, hash, h),
        root_ptr(b, ns, slot, hash) == root_ptr(a, ns, slot, hash),
{
    let p = root_ptr(a, ns, slot, hash);
    assert(node_fits(a, ns, seq![p][0], h));
    lemma_node_extends(a, b, ns, slot);
    lemma_forest_extends(a, b, ns, seq![p], h);
}

/// Every slot of a sound level opens.
pub proof fn lemma_level_slots_live(img: Image, ns: Namespace, ps: Seq<ChildView>, h: nat, s: u64)
    requires
        level_ok(img, ns, ps, h),
        level_slots(img, ns, ps, h).contains(s),
    ensures
        live(img, s),
    decreases h,
{
    let all = level_slots(img, ns, ps, h);
    let i = choose|i: int| 0 <= i < all.len() && all[i] == s;
    if i < ps.len() {
        assert(node_fits(img, ns, ps[i], h));
    } else {
        let sub = level_slots(img, ns, below(img, ns, ps), (h - 1) as nat);
        assert(sub[i - ps.len()] == s);
        lemma_level_slots_live(img, ns, below(img, ns, ps), (h - 1) as nat, s);
    }
}

/// A node of a sound level has something in it.
pub proof fn lemma_node_nonempty(img: Image, ns: Namespace, p: ChildView, h: nat)
    requires
        node_fits(img, ns, p, h),
    ensures
        h == 0 ==> leaves(img, ns)(p).len() > 0 && leaves(img, ns)(p)[0].0 == p.first_key,
        h > 0 ==> kids(img, ns)(p).len() > 0 && kids(img, ns)(p)[0].first_key == p.first_key,
{
}

/// The entries under a sound, non-empty level start with its first key.
pub proof fn lemma_level_first(img: Image, ns: Namespace, ps: Seq<ChildView>, h: nat)
    requires
        level_ok(img, ns, ps, h),
        ps.len() > 0,
    ensures
        level_entries(img, ns, ps, h).len() > 0,
        level_entries(img, ns, ps, h)[0].0 == ps[0].first_key,
    decreases h,
{
    assert(node_fits(img, ns, ps[0], h));
    lemma_node_nonempty(img, ns, ps[0], h);
    assert(ps.take(0) =~= Seq::<ChildView>::empty());
    if h == 0 {
        lemma_flat_index(leaves(img, ns), ps, 0, 0);
    } else {
        lemma_flat_index(kids(img, ns), ps, 0, 0);
        lemma_level_first(img, ns, below(img, ns, ps), (h - 1) as nat);
    }
}

/// The entries of a level are those before, at and after a position.
pub proof fn lemma_level_split(img: Image, ns: Namespace, ps: Seq<ChildView>, h: nat, i: int)
    requires
        0 <= i < ps.len(),
    ensures
        level_entries(img, ns, ps, h) == level_entries(img, ns, ps.take(i), h) + level_entries(
            img,
            ns,
            seq![ps[i]],
            h,
        ) + level_entries(img, ns, ps.skip(i + 1), h),
        level_entries(img, ns, ps.skip(i), h) == level_entries(img, ns, seq![ps[i]], h)
            + level_entries(img, ns, ps.skip(i + 1), h),
        level_entries(img, ns, ps.take(i + 1), h) == level_entries(img, ns, ps.take(i), h)
            + level_entries(img, ns, seq![ps[i]], h),
{
    assert(ps.take(i + 1) =~= ps.take(i) + seq![ps[i]]);
    lemma_level_entries_append(img, ns, ps.take(i), seq![ps[i]], h);
    assert(ps =~= ps.take(i + 1) + ps.skip(i + 1));
    lemma_level_entries_append(img, ns, ps.take(i + 1), ps.skip(i + 1), h);
    assert(ps.skip(i) =~= seq![ps[i]] + ps.skip(i + 1));
    lemma_level_entries_append(img, ns, seq![ps[i]], ps.skip(i + 1), h);
}

/// Keys of a part of a sorted sequence rise.
pub proof fn lemma_sorted_parts(a: Seq<EntryView>, b: Seq<EntryView>)
    requires
        keys_sorted(a + b),
    ensures
        keys_sorted(a),
        keys_sorted(b),
        forall|i: int, j: int|
            0 <= i < a.len() && 0 <= j < b.len() ==> lex_lt(
                (#[trigger] a[i]).0,
                (#[trigger] b[j]).0,
            ),
{
    let c = a + b;
    assert forall|i: int, j: int| 0 <= i < j < a.len() implies lex_lt(
        (#[trigger] a[i]).0,
        (#[trigger] a[j]).0,
    ) by {
        assert(c[i] == a[i] && c[j] == a[j]);
    }
    assert forall|i: int, j: int| 0 <= i < j < b.len() implies lex_lt(
        (#[trigger] b[i]).0,
        (#[trigger] b[j]).0,
    ) by {
        assert(c[a.len() + i] == b[i] && c[a.len() + j] == b[j]);
    }
    assert forall|i: int, j: int| 0 <= i < a.len() && 0 <= j < b.len() implies lex_lt(
        (#[trigger] a[i]).0,
        (#[trigger] b[j]).0,
    ) by {
        assert(c[i] == a[i] && c[a.len() + j] == b[j]);
    }
}

/// Two sorted sequences, one wholly before the other, are sorted together.
pub proof fn lemma_sorted_join(a: Seq<EntryView>, b: Seq<EntryView>)
    requires
        keys_sorted(a),
        keys_sorted(b),
        a.len() > 0 && b.len() > 0 ==> lex_lt(a.last().0, b[0].0),
    ensures
        keys_sorted(a + b),
{
    let c = a + b;
    assert forall|i: int, j: int| 0 <= i < j < c.len() implies lex_lt(
        (#[trigger] c[i]).0,
        (#[trigger] c[j]).0,
    ) by {
        if j < a.len() {
            assert(c[i] == a[i] && c[j] == a[j]);
        } else if i >= a.len() {
            assert(c[i] == b[i - a.len()] && c[j] == b[j - a.len()]);
        } else {
            let l = a.len() - 1;
            assert(c[i] == a[i] && c[j] == b[j - a.len()]);
            if i < l {
                assert(lex_lt(a[i].0, a[l].0));
            }
            if j > a.len() {
                assert(lex_lt(b[0].0, b[j - a.len()].0));
            }
            if i < l {
                lemma_lex_trans(a[i].0, a[l].0, b[0].0);
            }
            if j > a.len() {
                lemma_lex_trans(a[i].0, b[0].0, b[j - a.len()].0);
            }
        }
    }
}

/// First keys of a sound level rise as its entries do.
pub proof fn lemma_first_keys_rise(
    img: Image,
    ns: Namespace,
    ps: Seq<ChildView>,
    h: nat,
    i: int,
    j: int,
)
    requires
        level_ok(img, ns, ps, h),
        keys_sorted(level_entries(img, ns, ps, h)),
        0 <= i < j < ps.len(),
    ensures
        lex_lt(ps[i].first_key, ps[j].first_key),
{
    let l = ps.take(j);
    let r = ps.skip(j);
    assert(ps =~= l + r);
    lemma_level_entries_append(img, ns, l, r, h);
    lemma_level_ok_append(img, ns, l, r, h);
    lemma_level_first(img, ns, r, h);
    lemma_level_split(img, ns, l, h, i);
    lemma_level_ok_part(img, ns, ps, h, i, i + 1);
    assert(ps.subrange(i, i + 1) =~= seq![ps[i]]);
    lemma_level_first(img, ns, seq![ps[i]], h);
    let le = level_entries(img, ns, l, h);
    let re = level_entries(img, ns, r, h);
    lemma_sorted_parts(le, re);
    assert(l[i] == ps[i]);
    let at = level_entries(img, ns, l.take(i), h).len() as int;
    assert(le[at] == level_entries(img, ns, seq![ps[i]], h)[0]);
    assert(re[0].0 == ps[j].first_key);
}

// ---------------------------------------------------------------------------
// Where the cuts fall
// ---------------------------------------------------------------------------

/// Leaves closed so far, and the entries since.
pub type LeafFeed = (Seq<Seq<EntryView>>, Seq<EntryView>);

/// One more entry: a leaf that has no room for it is closed first, and the
/// entry may itself close the leaf it lands in.
pub open spec fn leaf_step(st: LeafFeed, e: EntryView) -> LeafFeed {
    let made_room = if st.1.len() > 0 && leaf_len(st.1) + leaf_cost(e) > PAYLOAD_CAP {
        (st.0.push(st.1), Seq::<EntryView>::empty())
    } else {
        st
    };
    let run = made_room.1.push(e);
    if ends_node(boundary_coin(0, e.0), leaf_cost(e), leaf_len(run)) {
        (made_room.0.push(run), Seq::<EntryView>::empty())
    } else {
        (made_room.0, run)
    }
}

/// Entries one after the other.
pub open spec fn leaf_feed(st: LeafFeed, es: Seq<EntryView>) -> LeafFeed
    decreases es.len(),
{
    if es.len() == 0 {
        st
    } else {
        leaf_step(leaf_feed(st, es.drop_last()), es.last())
    }
}

/// The leaves when nothing more comes.
pub open spec fn leaf_close(st: LeafFeed) -> Seq<Seq<EntryView>> {
    if st.1.len() == 0 {
        st.0
    } else {
        st.0.push(st.1)
    }
}

/// Internal nodes closed so far, and the children since.
pub type NodeFeed = (Seq<Seq<ChildView>>, Seq<ChildView>);

/// One more child at a level: a node that has no room for it is closed first,
/// and the child may itself close the node it lands in, once that has enough.
pub open spec fn node_step(level: u8, st: NodeFeed, c: ChildView) -> NodeFeed {
    let made_room = if st.1.len() > 0 && internal_len(st.1) + child_cost(c.first_key)
        > PAYLOAD_CAP {
        (st.0.push(st.1), Seq::<ChildView>::empty())
    } else {
        st
    };
    let run = made_room.1.push(c);
    if run.len() >= 4 && ends_node(
        boundary_coin(level, c.first_key),
        child_cost(c.first_key),
        internal_len(run),
    ) {
        (made_room.0.push(run), Seq::<ChildView>::empty())
    } else {
        (made_room.0, run)
    }
}

/// Children one after the other.
pub open spec fn node_feed(level: u8, st: NodeFeed, cs: Seq<ChildView>) -> NodeFeed
    decreases cs.len(),
{
    if cs.len() == 0 {
        st
    } else {
        node_step(level, node_feed(level, st, cs.drop_last()), cs.last())
    }
}

/// The nodes when nothing more comes.
pub open spec fn node_close(st: NodeFeed) -> Seq<Seq<ChildView>> {
    if st.1.len() == 0 {
        st.0
    } else {
        st.0.push(st.1)
    }
}

/// The entries of each leaf that the pointers lead to.
pub open spec fn leaf_groups(img: Image, ns: Namespace, ps: Seq<ChildView>) -> Seq<Seq<EntryView>> {
    Seq::new(ps.len(), |i: int| leaves(img, ns)(ps[i]))
}

/// The children of each internal node that the pointers lead to.
pub open spec fn node_groups(img: Image, ns: Namespace, ps: Seq<ChildView>) -> Seq<Seq<ChildView>> {
    Seq::new(ps.len(), |i: int| kids(img, ns)(ps[i]))
}

// ---------------------------------------------------------------------------
// Operations on entries
// ---------------------------------------------------------------------------

/// What is to become of a key: a new value, or nothing.
pub type OpView = (Seq<u8>, Option<Seq<u8>>);

/// Operations on different keys, by rising key.
pub open spec fn ops_sorted(ops: Seq<OpView>) -> bool {
    forall|i: int, j: int|
        0 <= i < j < ops.len() ==> lex_lt((#[trigger] ops[i]).0, (#[trigger] ops[j]).0)
}

/// The entry that an operation leaves, if any.
pub open spec fn put_of(op: OpView) -> Seq<EntryView> {
    match op.1 {
        Some(v) => seq![(op.0, v)],
        None => Seq::<EntryView>::empty(),
    }
}

/// The entries after the operations: both are walked by rising key, and where
/// they meet the operation wins.
pub open spec fn merged(es: Seq<EntryView>, ops: Seq<OpView>) -> Seq<EntryView>
    decreases es.len() + ops.len(),
{
    if ops.len() == 0 {
        es
    } else if es.len() == 0 || lex_lt(ops[0].0, es[0].0) {
        put_of(ops[0]) + merged(es, ops.drop_first())
    } else if ops[0].0 == es[0].0 {
        put_of(ops[0]) + merged(es.drop_first(), ops.drop_first())
    } else {
        seq![es[0]] + merged(es.drop_first(), ops)
    }
}

/// Entries before every operation stay in front.
pub proof fn lemma_merged_prefix(p: Seq<EntryView>, es: Seq<EntryView>, ops: Seq<OpView>)
    requires
        ops.len() > 0 ==> forall|i: int| 0 <= i < p.len() ==> lex_lt((#[trigger] p[i]).0, ops[0].0),
    ensures
        merged(p + es, ops) == p + merged(es, ops),
    decreases p.len(),
{
    if p.len() == 0 {
        assert(p + es =~= es);
        assert(p + merged(es, ops) =~= merged(es, ops));
    } else if ops.len() > 0 {
        let rest = p.drop_first();
        assert forall|i: int| 0 <= i < rest.len() implies lex_lt(
            (#[trigger] rest[i]).0,
            ops[0].0,
        ) by {
            assert(rest[i] == p[i + 1]);
        }
        assert((p + es).drop_first() =~= rest + es);
        assert((p + es)[0] == p[0]);
        lemma_lex_total(p[0].0, ops[0].0);
        lemma_merged_prefix(rest, es, ops);
        assert(seq![p[0]] + (rest + merged(es, ops)) =~= p + merged(es, ops));
    }
}

/// The result's first key is not before the first of either.
pub proof fn lemma_merged_keys(es: Seq<EntryView>, ops: Seq<OpView>, k: Seq<u8>)
    requires
        forall|i: int| 0 <= i < es.len() ==> lex_lt(k, (#[trigger] es[i]).0),
        forall|i: int| 0 <= i < ops.len() ==> lex_lt(k, (#[trigger] ops[i]).0),
    ensures
        forall|i: int| 0 <= i < merged(es, ops).len() ==> lex_lt(k, (#[trigger] merged(es, ops)[i]).0),
    decreases es.len() + ops.len(),
{
    if ops.len() > 0 {
        let o1 = ops.drop_first();
        let m = merged(es, ops);
        assert forall|i: int| 0 <= i < o1.len() implies lex_lt(k, (#[trigger] o1[i]).0) by {
            assert(o1[i] == ops[i + 1]);
        }
        assert(lex_lt(k, ops[0].0));
        if es.len() == 0 || lex_lt(ops[0].0, es[0].0) {
            lemma_merged_keys(es, o1, k);
            let r = merged(es, o1);
            let n = put_of(ops[0]).len() as int;
            assert forall|i: int| 0 <= i < m.len() implies lex_lt(k, (#[trigger] m[i]).0) by {
                if i >= n {
                    assert(m[i] == r[i - n]);
                }
            }
        } else {
            let e1 = es.drop_first();
            assert forall|i: int| 0 <= i < e1.len() implies lex_lt(k, (#[trigger] e1[i]).0) by {
                assert(e1[i] == es[i + 1]);
            }
            assert(lex_lt(k, es[0].0));
            if ops[0].0 == es[0].0 {
                lemma_merged_keys(e1, o1, k);
                let r = merged(e1, o1);
                let n = put_of(ops[0]).len() as int;
                assert forall|i: int| 0 <= i < m.len() implies lex_lt(k, (#[trigger] m[i]).0) by {
                    if i >= n {
                        assert(m[i] == r[i - n]);
                    }
                }
            } else {
                lemma_merged_keys(e1, ops, k);
                let r = merged(e1, ops);
                assert forall|i: int| 0 <= i < m.len() implies lex_lt(k, (#[trigger] m[i]).0) by {
                    if i >= 1 {
                        assert(m[i] == r[i - 1]);
                    }
                }
            }
        }
    }
}

/// The result's keys rise.
pub proof fn lemma_merged_sorted(es: Seq<EntryView>, ops: Seq<OpView>)
    requires
        keys_sorted(es),
        ops_sorted(ops),
    ensures
        keys_sorted(merged(es, ops)),
    decreases es.len() + ops.len(),
{
    if ops.len() > 0 {
        let e1 = es.drop_first();
        let o1 = ops.drop_first();
        if es.len() > 0 {
            assert(es =~= seq![es[0]] + e1);
            lemma_sorted_parts(seq![es[0]], e1);
        }
        assert forall|i: int, j: int| 0 <= i < j < o1.len() implies lex_lt(
            (#[trigger] o1[i]).0,
            (#[trigger] o1[j]).0,
        ) by {
            assert(o1[i] == ops[i + 1] && o1[j] == ops[j + 1]);
        }
        assert forall|i: int| 0 <= i < o1.len() implies lex_lt(ops[0].0, (#[trigger] o1[i]).0) by {
            assert(o1[i] == ops[i + 1]);
        }
        if es.len() == 0 || lex_lt(ops[0].0, es[0].0) {
            lemma_merged_sorted(es, o1);
            assert forall|i: int| 0 <= i < es.len() implies lex_lt(
                ops[0].0,
                (#[trigger] es[i]).0,
            ) by {
                if i > 0 {
                    lemma_lex_trans(ops[0].0, es[0].0, es[i].0);
                }
            }
            lemma_merged_keys(es, o1, ops[0].0);
            lemma_sorted_join(put_of(ops[0]), merged(es, o1));
        } else if ops[0].0 == es[0].0 {
            lemma_merged_sorted(e1, o1);
            assert forall|i: int| 0 <= i < e1.len() implies lex_lt(
                ops[0].0,
                (#[trigger] e1[i]).0,
            ) by {
                assert(seq![es[0]][0] == es[0]);
            }
            lemma_merged_keys(e1, o1, ops[0].0);
            lemma_sorted_join(put_of(ops[0]), merged(e1, o1));
        } else {
            lemma_merged_sorted(e1, ops);
            lemma_lex_total(es[0].0, ops[0].0);
            assert forall|i: int| 0 <= i < e1.len() implies lex_lt(
                es[0].0,
                (#[trigger] e1[i]).0,
            ) by {
                assert(seq![es[0]][0] == es[0]);
            }
            assert forall|i: int| 0 <= i < ops.len() implies lex_lt(
                es[0].0,
                (#[trigger] ops[i]).0,
            ) by {
                if i > 0 {
                    lemma_lex_trans(es[0].0, ops[0].0, ops[i].0);
                }
            }
            lemma_merged_keys(e1, ops, es[0].0);
            lemma_sorted_join(seq![es[0]], merged(e1, ops));
        }
    }
}

// ---------------------------------------------------------------------------
// Feeding and closing
// ---------------------------------------------------------------------------

/// Groups end to end.
pub open spec fn joined<T>(gs: Seq<Seq<T>>) -> Seq<T> {
    flat(|g: Seq<T>| g, gs)
}

/// Nothing closed, nothing open.
pub open spec fn no_leaves() -> LeafFeed {
    (Seq::<Seq<EntryView>>::empty(), Seq::<EntryView>::empty())
}

/// Nothing closed, nothing open.
pub open spec fn no_nodes() -> NodeFeed {
    (Seq::<Seq<ChildView>>::empty(), Seq::<ChildView>::empty())
}

pub proof fn lemma_joined_push<T>(gs: Seq<Seq<T>>, g: Seq<T>)
    ensures
        joined(gs.push(g)) == joined(gs) + g,
{
    lemma_flat_push(|g: Seq<T>| g, gs, g);
}

/// Feeding keeps every entry, in order.
pub proof fn lemma_leaf_feed_joined(st: LeafFeed, es: Seq<EntryView>)
    ensures
        joined(leaf_feed(st, es).0) + leaf_feed(st, es).1 == joined(st.0) + st.1 + es,
    decreases es.len(),
{
    if es.len() == 0 {
        assert(joined(st.0) + st.1 + es =~= joined(st.0) + st.1);
    } else {
        let prior = leaf_feed(st, es.drop_last());
        let e = es.last();
        lemma_leaf_feed_joined(st, es.drop_last());
        lemma_joined_push(prior.0, prior.1);
        let run0 = Seq::<EntryView>::empty().push(e);
        lemma_joined_push(prior.0.push(prior.1), run0);
        lemma_joined_push(prior.0, prior.1.push(e));
        let now = leaf_step(prior, e);
        let base = joined(prior.0) + prior.1;
        assert(joined(now.0) + now.1 =~= base.push(e));
        assert(base.push(e) =~= joined(st.0) + st.1 + es);
    }
}

/// Feeding keeps every child, in order.
pub proof fn lemma_node_feed_joined(level: u8, st: NodeFeed, cs: Seq<ChildView>)
    ensures
        joined(node_feed(level, st, cs).0) + node_feed(level, st, cs).1 == joined(st.0) + st.1 + cs,
    decreases cs.len(),
{
    if cs.len() == 0 {
        assert(joined(st.0) + st.1 + cs =~= joined(st.0) + st.1);
    } else {
        let prior = node_feed(level, st, cs.drop_last());
        let c = cs.last();
        lemma_node_feed_joined(level, st, cs.drop_last());
        lemma_joined_push(prior.0, prior.1);
        let run0 = Seq::<ChildView>::empty().push(c);
        lemma_joined_push(prior.0.push(prior.1), run0);
        lemma_joined_push(prior.0, prior.1.push(c));
        let now = node_step(level, prior, c);
        let base = joined(prior.0) + prior.1;
        assert(joined(now.0) + now.1 =~= base.push(c));
        assert(base.push(c) =~= joined(st.0) + st.1 + cs);
    }
}

/// Closing keeps every entry.
pub proof fn lemma_leaf_close_joined(st: LeafFeed)
    ensures
        joined(leaf_close(st)) == joined(st.0) + st.1,
{
    lemma_joined_push(st.0, st.1);
    if st.1.len() == 0 {
        assert(joined(st.0) + st.1 =~= joined(st.0));
    }
}

/// Closing keeps every child.
pub proof fn lemma_node_close_joined(st: NodeFeed)
    ensures
        joined(node_close(st)) == joined(st.0) + st.1,
{
    lemma_joined_push(st.0, st.1);
    if st.1.len() == 0 {
        assert(joined(st.0) + st.1 =~= joined(st.0));
    }
}

/// The groups of a level, end to end, are what stands below it.
pub proof fn lemma_leaf_groups_joined(img: Image, ns: Namespace, ps: Seq<ChildView>)
    ensures
        joined(leaf_groups(img, ns, ps)) == flat(leaves(img, ns), ps),
    decreases ps.len(),
{
    if ps.len() > 0 {
        let init = ps.drop_last();
        lemma_leaf_groups_joined(img, ns, init);
        assert(leaf_groups(img, ns, ps) =~= leaf_groups(img, ns, init).push(
            leaves(img, ns)(ps.last()),
        ));
        lemma_joined_push(leaf_groups(img, ns, init), leaves(img, ns)(ps.last()));
    } else {
        assert(leaf_groups(img, ns, ps) =~= Seq::<Seq<EntryView>>::empty());
    }
}

/// The groups of a level, end to end, are what stands below it.
pub proof fn lemma_node_groups_joined(img: Image, ns: Namespace, ps: Seq<ChildView>)
    ensures
        joined(node_groups(img, ns, ps)) == below(img, ns, ps),
    decreases ps.len(),
{
    if ps.len() > 0 {
        let init = ps.drop_last();
        lemma_node_groups_joined(img, ns, init);
        assert(node_groups(img, ns, ps) =~= node_groups(img, ns, init).push(
            kids(img, ns)(ps.last()),
        ));
        lemma_joined_push(node_groups(img, ns, init), kids(img, ns)(ps.last()));
    } else {
        assert(node_groups(img, ns, ps) =~= Seq::<Seq<ChildView>>::empty());
    }
}

/// One more entry fed.
pub proof fn lemma_leaf_feed_push(st: LeafFeed, es: Seq<EntryView>, e: EntryView)
    ensures
        leaf_feed(st, es.push(e)) == leaf_step(leaf_feed(st, es), e),
{
    assert(es.push(e).drop_last() =~= es);
}

/// One more child fed.
pub proof fn lemma_node_feed_push(level: u8, st: NodeFeed, cs: Seq<ChildView>, c: ChildView)
    ensures
        node_feed(level, st, cs.push(c)) == node_step(level, node_feed(level, st, cs), c),
{
    assert(cs.push(c).drop_last() =~= cs);
}

/// Every level is cut where its items say.
pub open spec fn shaped(img: Image, ns: Namespace, ps: Seq<ChildView>, h: nat) -> bool
    decreases h,
{
    if h == 0 {
        leaf_groups(img, ns, ps) == leaf_close(
            leaf_feed(no_leaves(), level_entries(img, ns, ps, 0)),
        )
    } else {
        &&& node_groups(img, ns, ps) == node_close(
            node_feed(h as u8, no_nodes(), below(img, ns, ps)),
        )
        &&& shaped(img, ns, below(img, ns, ps), (h - 1) as nat)
    }
}

/// A shape is the same in a larger image.
pub proof fn lemma_shaped_extends(a: Image, b: Image, ns: Namespace, ps: Seq<ChildView>, h: nat)
    requires
        extends(a, b),
        level_ok(a, ns, ps, h),
        shaped(a, ns, ps, h),
    ensures
        shaped(b, ns, ps, h),
    decreases h,
{
    lemma_level_extends(a, b, ns, ps, h);
    assert forall|i: int| 0 <= i < ps.len() implies kids(a, ns)(#[trigger] ps[i]) == kids(b, ns)(
        ps[i],
    ) && leaves(a, ns)(ps[i]) == leaves(b, ns)(ps[i]) by {
        assert(node_fits(a, ns, ps[i], h));
        lemma_node_extends(a, b, ns, ps[i].child_slot);
    }
    if h == 0 {
        assert(leaf_groups(b, ns, ps) =~= leaf_groups(a, ns, ps));
    } else {
        assert(node_groups(b, ns, ps) =~= node_groups(a, ns, ps));
        lemma_shaped_extends(a, b, ns, below(a, ns, ps), (h - 1) as nat);
    }
}

// ---------------------------------------------------------------------------
// What a namespace holds
// ---------------------------------------------------------------------------

/// Nodes are of one height only.
pub proof fn lemma_height_unique(img: Image, ns: Namespace, ps: Seq<ChildView>, g: nat, h: nat)
    requires
        level_ok(img, ns, ps, g),
        level_ok(img, ns, ps, h),
        ps.len() > 0,
    ensures
        g == h,
    decreases g,
{
    assert(node_fits(img, ns, ps[0], g));
    assert(node_fits(img, ns, ps[0], h));
    if g > 0 && h > 0 {
        lemma_node_nonempty(img, ns, ps[0], g);
        assert(ps.take(0) =~= Seq::<ChildView>::empty());
        lemma_flat_index(kids(img, ns), ps, 0, 0);
        lemma_height_unique(img, ns, below(img, ns, ps), (g - 1) as nat, (h - 1) as nat);
    }
}

/// A tree has one height.
pub proof fn lemma_tree_unique(
    img: Image,
    ns: Namespace,
    slot: u64,
    hash: Seq<u8>,
    g: nat,
    h: nat,
)
    requires
        tree(img, ns, slot, hash, g),
        tree(img, ns, slot, hash, h),
    ensures
        g == h,
{
    lemma_height_unique(img, ns, seq![root_ptr(img, ns, slot, hash)], g, h);
}

/// The namespace holds these entries: there is a sound tree of them, or no
/// tree and no entry.
pub open spec fn ns_holds(
    img: Image,
    rs: Seq<RootView>,
    ns: Namespace,
    es: Seq<EntryView>,
) -> bool {
    match root_of(rs, ns) {
        None => es.len() == 0,
        Some(r) => exists|h: nat| #[trigger]
            tree(img, ns, r.index_slot, r.payload_hash, h) && tree_entries(
                img,
                ns,
                r.index_slot,
                r.payload_hash,
                h,
            ) == es,
    }
}

/// The namespace has a sound tree of height at most `cap`, or none.
pub open spec fn walkable(img: Image, rs: Seq<RootView>, ns: Namespace, cap: int) -> bool {
    match root_of(rs, ns) {
        None => true,
        Some(r) => exists|h: nat| #[trigger]
            tree(img, ns, r.index_slot, r.payload_hash, h) && h <= cap,
    }
}

/// What a namespace holds, it holds in a larger image.
pub proof fn lemma_ns_holds_extends(
    a: Image,
    b: Image,
    rs: Seq<RootView>,
    ns: Namespace,
    es: Seq<EntryView>,
)
    requires
        extends(a, b),
        ns_holds(a, rs, ns, es),
    ensures
        ns_holds(b, rs, ns, es),
{
    if let Some(r) = root_of(rs, ns) {
        let h = choose|h: nat| #[trigger]
            tree(a, ns, r.index_slot, r.payload_hash, h) && tree_entries(
                a,
                ns,
                r.index_slot,
                r.payload_hash,
                h,
            ) == es;
        lemma_tree_extends(a, b, ns, r.index_slot, r.payload_hash, h);
        assert(tree(b, ns, r.index_slot, r.payload_hash, h));
    }
}

/// A sound tree in an image is one in a larger image.
pub proof fn lemma_walkable_extends(
    a: Image,
    b: Image,
    rs: Seq<RootView>,
    ns: Namespace,
    cap: int,
)
    requires
        extends(a, b),
        walkable(a, rs, ns, cap),
    ensures
        walkable(b, rs, ns, cap),
{
    if let Some(r) = root_of(rs, ns) {
        let h = choose|h: nat| #[trigger]
            tree(a, ns, r.index_slot, r.payload_hash, h) && h <= cap;
        lemma_tree_extends(a, b, ns, r.index_slot, r.payload_hash, h);
        assert(tree(b, ns, r.index_slot, r.payload_hash, h));
    }
}

/// The entries that a namespace holds have keys that rise.
pub proof fn lemma_ns_holds_sorted(
    img: Image,
    rs: Seq<RootView>,
    ns: Namespace,
    es: Seq<EntryView>,
)
    requires
        ns_holds(img, rs, ns, es),
    ensures
        keys_sorted(es),
{
}

/// One more root.
pub proof fn lemma_root_of_push(rs: Seq<RootView>, x: RootView, ns: Namespace)
    ensures
        root_of(rs.push(x), ns) == match root_of(rs, ns) {
            Some(r) => Some(r),
            None => if x.namespace == ns {
                Some(x)
            } else {
                None
            },
        },
    decreases rs.len(),
{
    if rs.len() == 0 {
        assert(rs.push(x).drop_first() =~= Seq::<RootView>::empty());
        assert(root_of(Seq::<RootView>::empty(), ns) is None);
        assert(rs.push(x)[0] == x);
    } else {
        assert(rs.push(x)[0] == rs[0]);
        assert(rs.push(x).drop_first() =~= rs.drop_first().push(x));
        lemma_root_of_push(rs.drop_first(), x, ns);
    }
}

/// A root of a namespace stands somewhere.
pub proof fn lemma_root_of(rs: Seq<RootView>, ns: Namespace)
    ensures
        match root_of(rs, ns) {
            Some(r) => r.namespace == ns && exists|i: int|
                0 <= i < rs.len() && #[trigger] rs[i] == r,
            None => forall|i: int| 0 <= i < rs.len() ==> (#[trigger] rs[i]).namespace != ns,
        },
    decreases rs.len(),
{
    if rs.len() > 0 {
        if rs[0].namespace != ns {
            let t = rs.drop_first();
            lemma_root_of(t, ns);
            match root_of(t, ns) {
                Some(r) => {
                    let i = choose|i: int| 0 <= i < t.len() && #[trigger] t[i] == r;
                    assert(rs[i + 1] == r);
                },
                None => {
                    assert forall|i: int| 0 <= i < rs.len() implies (#[trigger] rs[i]).namespace
                        != ns by {
                        if i > 0 {
                            assert(t[i - 1] == rs[i]);
                        }
                    }
                },
            }
        }
    }
}

/// What a lookup finds after operations: what the operation on the key says,
/// or what was there.
pub proof fn law_merged_lookup(es: Seq<EntryView>, ops: Seq<OpView>, key: Seq<u8>)
    requires
        keys_sorted(es),
        ops_sorted(ops),
    ensures
        lookup(merged(es, ops), key) == match op_on(ops, key) {
            Some(v) => v,
            None => lookup(es, key),
        },
    decreases es.len() + ops.len(),
{
    if ops.len() == 0 {
        assert(op_on(ops, key) is None);
    } else {
        let o1 = ops.drop_first();
        lemma_op_on_front(ops, key);
        assert forall|i: int, j: int| 0 <= i < j < o1.len() implies lex_lt(
            (#[trigger] o1[i]).0,
            (#[trigger] o1[j]).0,
        ) by {
            assert(o1[i] == ops[i + 1] && o1[j] == ops[j + 1]);
        }
        lemma_merged_sorted(es, ops);
        if es.len() == 0 || lex_lt(ops[0].0, es[0].0) {
            law_merged_lookup(es, o1, key);
            lemma_lookup_put(ops[0], merged(es, o1), key);
            if key == ops[0].0 {
                assert forall|i: int| 0 <= i < es.len() implies (#[trigger] es[i]).0 != key by {
                    if i > 0 {
                        lemma_lex_trans(ops[0].0, es[0].0, es[i].0);
                    }
                    lemma_lex_total(key, es[i].0);
                }
                lemma_lookup_absent(es, key);
                assert forall|i: int| 0 <= i < o1.len() implies (#[trigger] o1[i]).0 != key by {
                    assert(o1[i] == ops[i + 1]);
                    assert(lex_lt(ops[0].0, ops[i + 1].0));
                    lemma_lex_total(key, o1[i].0);
                }
                crate::space::tree::lemma_op_on_none(o1, key);
            }
        } else {
            let e1 = es.drop_first();
            assert(es =~= seq![es[0]] + e1);
            lemma_sorted_parts(seq![es[0]], e1);
            lemma_lookup_front(es, key);
            if ops[0].0 == es[0].0 {
                law_merged_lookup(e1, o1, key);
                lemma_lookup_put(ops[0], merged(e1, o1), key);
                if key == ops[0].0 {
                    assert forall|i: int| 0 <= i < e1.len() implies (#[trigger] e1[i]).0 != key by {
                        assert(lex_lt(es[0].0, es[i + 1].0));
                        lemma_lex_total(key, e1[i].0);
                    }
                    lemma_lookup_absent(e1, key);
                    assert forall|i: int| 0 <= i < o1.len() implies (#[trigger] o1[i]).0
                        != key by {
                        assert(lex_lt(ops[0].0, ops[i + 1].0));
                        lemma_lex_total(key, o1[i].0);
                    }
                    crate::space::tree::lemma_op_on_none(o1, key);
                }
            } else {
                law_merged_lookup(e1, ops, key);
                let m = merged(e1, ops);
                let all = seq![es[0]] + m;
                assert(all =~= merged(es, ops));
                assert(all.drop_first() =~= m);
                lemma_lookup_front(all, key);
                if key == es[0].0 {
                    lemma_lex_total(es[0].0, ops[0].0);
                    assert(lex_lt(es[0].0, ops[0].0));
                    assert forall|i: int| 0 <= i < ops.len() implies (#[trigger] ops[i]).0
                        != key by {
                        if i > 0 {
                            lemma_lex_trans(es[0].0, ops[0].0, ops[i].0);
                        }
                        lemma_lex_total(key, ops[i].0);
                    }
                    crate::space::tree::lemma_op_on_none(ops, key);
                    assert forall|i: int| 0 <= i < m.len() implies (#[trigger] m[i]).0 != key by {
                        assert(all[i + 1] == m[i]);
                        assert(lex_lt(all[0].0, all[i + 1].0));
                        lemma_lex_total(key, m[i].0);
                    }
                    lemma_lookup_absent(m, key);
                }
            }
        }
    }
}

/// A key that is not there is not found.
proof fn lemma_lookup_absent(es: Seq<EntryView>, key: Seq<u8>)
    requires
        forall|i: int| 0 <= i < es.len() ==> (#[trigger] es[i]).0 != key,
    ensures
        lookup(es, key) is None,
{
    lemma_lookup(es, key);
}

/// The first entry is found if the key is not found after it.
proof fn lemma_lookup_front(es: Seq<EntryView>, key: Seq<u8>)
    requires
        es.len() > 0,
    ensures
        lookup(es, key) == match lookup(es.drop_first(), key) {
            Some(v) => Some(v),
            None => if es[0].0 == key {
                Some(es[0].1)
            } else {
                None
            },
        },
    decreases es.len(),
{
    if es.len() == 1 {
        assert(es.drop_first() =~= Seq::<EntryView>::empty());
        assert(es.drop_last() =~= Seq::<EntryView>::empty());
    } else {
        assert(es.drop_last().drop_first() =~= es.drop_first().drop_last());
        assert(es.drop_first().last() == es.last());
        lemma_lookup_front(es.drop_last(), key);
    }
}

/// What an operation leaves is found if the key is not found after it.
proof fn lemma_lookup_put(op: OpView, m: Seq<EntryView>, key: Seq<u8>)
    ensures
        lookup(put_of(op) + m, key) == match lookup(m, key) {
            Some(v) => Some(v),
            None => if op.0 == key {
                op.1
            } else {
                None
            },
        },
{
    match op.1 {
        Some(v) => {
            let all = put_of(op) + m;
            assert(all.drop_first() =~= m);
            lemma_lookup_front(all, key);
        },
        None => {
            assert(put_of(op) + m =~= m);
        },
    }
}

/// The first operation counts if none after it is on the key.
proof fn lemma_op_on_front(ops: Seq<OpView>, key: Seq<u8>)
    requires
        ops.len() > 0,
    ensures
        op_on(ops, key) == match op_on(ops.drop_first(), key) {
            Some(v) => Some(v),
            None => if ops[0].0 == key {
                Some(ops[0].1)
            } else {
                None
            },
        },
    decreases ops.len(),
{
    if ops.len() == 1 {
        assert(ops.drop_first() =~= Seq::<OpView>::empty());
        assert(ops.drop_last() =~= Seq::<OpView>::empty());
    } else {
        assert(ops.drop_last().drop_first() =~= ops.drop_first().drop_last());
        assert(ops.drop_first().last() == ops.last());
        lemma_op_on_front(ops.drop_last(), key);
    }
}

} // verus!
