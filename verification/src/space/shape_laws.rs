//! A tree is cut by what it holds: two trees of the same entries are alike,
//! however they came about.

use vstd::prelude::*;

use crate::container::Image;
use crate::seqs::lemma_flat_push;
use crate::space::commit::{changed, published};
use crate::space::cutting::{
    closed_off, cut, cut_feed, cut_step, law_shaped_is_whole_and_snug, lemma_node_cut, no_cut,
    node_cutter, ns_neat, snug, whole, Cut,
};
use crate::space::index::{
    legal_key, MIN_FULL_INTERNAL_FANOUT, NODE_HEADER_LEN, internal_len, ChildView, EntryView,
    Namespace,
};
use crate::space::laws::{holds, lemma_slot_is_node, within_reach};
use crate::space::model::{
    below, down, kids, leaf_groups, leaves, lemma_node_nonempty, lemma_tree_unique, level_entries,
    level_ok, level_slots, node_fits, node_groups, root_ptr, shaped, slots_of, tree, tree_entries,
};
use crate::space::cursor::lemma_down_ok;
use crate::space::tree::{all_legal, forked};
use crate::space::update::lemma_node_legal;
use crate::space::walk::{
    is_depth_bound, lemma_depth_bound_grows, lemma_depth_bound_small, lemma_min_chunks_grows,
    min_chunks, pow_fanout,
};
use crate::space::{root_of, Space};
use crate::tx::commit::RootView;
use crate::tx::pending::{PendingLogView, PendingView};

verus! {

/// The first keys of pointers.
pub open spec fn first_keys(cs: Seq<ChildView>) -> Seq<Seq<u8>> {
    Seq::new(cs.len(), |i: int| cs[i].first_key)
}

/// The first keys of the children of each node.
pub open spec fn group_keys(gs: Seq<Seq<ChildView>>) -> Seq<Seq<Seq<u8>>> {
    Seq::new(gs.len(), |i: int| first_keys(gs[i]))
}

/// Two levels are alike: their leaves hold the same entries, and their nodes
/// lead to the same keys. Where the nodes lie does not matter.
pub open spec fn alike(
    a: Image,
    b: Image,
    ns: Namespace,
    ps: Seq<ChildView>,
    qs: Seq<ChildView>,
    h: nat,
) -> bool
    decreases h,
{
    if h == 0 {
        leaf_groups(a, ns, ps) == leaf_groups(b, ns, qs)
    } else {
        &&& group_keys(node_groups(a, ns, ps)) == group_keys(node_groups(b, ns, qs))
        &&& alike(a, b, ns, below(a, ns, ps), below(b, ns, qs), (h - 1) as nat)
    }
}

/// The size of a node depends on its keys alone.
proof fn lemma_same_len(a: Seq<ChildView>, b: Seq<ChildView>)
    requires
        first_keys(a) == first_keys(b),
    ensures
        a.len() == b.len(),
        internal_len(a) == internal_len(b),
    decreases a.len(),
{
    assert(first_keys(a).len() == a.len());
    assert(first_keys(b).len() == b.len());
    if a.len() > 0 {
        let n = a.len() - 1;
        assert(first_keys(a)[n] == a.last().first_key);
        assert(first_keys(b)[n] == b.last().first_key);
        assert(first_keys(a.drop_last()) =~= first_keys(a).drop_last());
        assert(first_keys(b.drop_last()) =~= first_keys(b).drop_last());
        lemma_same_len(a.drop_last(), b.drop_last());
    }
}

/// The keys of what has been cut.
spec fn cut_keys(st: Cut<ChildView>) -> (Seq<Seq<Seq<u8>>>, Seq<Seq<u8>>) {
    (group_keys(st.0), first_keys(st.1))
}

/// One more on a list of runs.
proof fn lemma_group_keys_push(gs: Seq<Seq<ChildView>>, g: Seq<ChildView>)
    ensures
        group_keys(gs.push(g)) == group_keys(gs).push(first_keys(g)),
{
    assert(group_keys(gs.push(g)) =~= group_keys(gs).push(first_keys(g)));
}

/// Where nodes are cut depends on keys alone.
proof fn lemma_same_cut(level: u8, a: Seq<ChildView>, b: Seq<ChildView>)
    requires
        first_keys(a) == first_keys(b),
    ensures
        cut_keys(cut_feed(node_cutter(level), no_cut::<ChildView>(), a)) == cut_keys(
            cut_feed(node_cutter(level), no_cut::<ChildView>(), b),
        ),
        group_keys(cut(node_cutter(level), a)) == group_keys(cut(node_cutter(level), b)),
    decreases a.len(),
{
    let c = node_cutter(level);
    assert(first_keys(a).len() == a.len());
    assert(first_keys(b).len() == b.len());
    let za = cut_feed(c, no_cut::<ChildView>(), a);
    let zb = cut_feed(c, no_cut::<ChildView>(), b);
    if a.len() > 0 {
        let n = a.len() - 1;
        let x = a.last();
        let y = b.last();
        assert(first_keys(a)[n] == x.first_key);
        assert(first_keys(b)[n] == y.first_key);
        assert(first_keys(a.drop_last()) =~= first_keys(a).drop_last());
        assert(first_keys(b.drop_last()) =~= first_keys(b).drop_last());
        lemma_same_cut(level, a.drop_last(), b.drop_last());
        let fa = cut_feed(c, no_cut::<ChildView>(), a.drop_last());
        let fb = cut_feed(c, no_cut::<ChildView>(), b.drop_last());
        lemma_same_len(fa.1, fb.1);
        let ma = if fa.1.len() > 0 && !(c.fits)(fa.1, x) {
            (fa.0.push(fa.1), Seq::<ChildView>::empty())
        } else {
            fa
        };
        let mb = if fb.1.len() > 0 && !(c.fits)(fb.1, y) {
            (fb.0.push(fb.1), Seq::<ChildView>::empty())
        } else {
            fb
        };
        lemma_group_keys_push(fa.0, fa.1);
        lemma_group_keys_push(fb.0, fb.1);
        assert(first_keys(Seq::<ChildView>::empty()) =~= Seq::<Seq<u8>>::empty());
        assert(cut_keys(ma) == cut_keys(mb));
        let ra = ma.1.push(x);
        let rb = mb.1.push(y);
        assert(first_keys(ra) =~= first_keys(ma.1).push(x.first_key));
        assert(first_keys(rb) =~= first_keys(mb.1).push(y.first_key));
        lemma_same_len(ra, rb);
        assert(ra.last() == x && rb.last() == y);
        lemma_group_keys_push(ma.0, ra);
        lemma_group_keys_push(mb.0, rb);
        assert(za == cut_step(c, fa, x));
        assert(zb == cut_step(c, fb, y));
    }
    lemma_same_len(za.1, zb.1);
    lemma_group_keys_push(za.0, za.1);
    lemma_group_keys_push(zb.0, zb.1);
}

/// Levels that are cut where their items say and hold the same entries are
/// alike.
#[verifier::spinoff_prover]
pub proof fn lemma_levels_alike(
    a: Image,
    b: Image,
    ns: Namespace,
    ps: Seq<ChildView>,
    qs: Seq<ChildView>,
    h: nat,
)
    requires
        level_ok(a, ns, ps, h),
        level_ok(b, ns, qs, h),
        shaped(a, ns, ps, h),
        shaped(b, ns, qs, h),
        level_entries(a, ns, ps, h) == level_entries(b, ns, qs, h),
    ensures
        ps.len() == qs.len(),
        first_keys(ps) == first_keys(qs),
        alike(a, b, ns, ps, qs, h),
    decreases h,
{
    if h == 0 {
        let ga = leaf_groups(a, ns, ps);
        let gb = leaf_groups(b, ns, qs);
        assert(ga.len() == ps.len() && gb.len() == qs.len());
        assert forall|i: int| 0 <= i < ps.len() implies ps[i].first_key
            == #[trigger] qs[i].first_key by {
            assert(node_fits(a, ns, ps[i], 0));
            assert(node_fits(b, ns, qs[i], 0));
            assert(ga[i] == leaves(a, ns)(ps[i]));
            assert(gb[i] == leaves(b, ns)(qs[i]));
        }
        assert(first_keys(ps) =~= first_keys(qs));
    } else {
        let k = (h - 1) as nat;
        let la = below(a, ns, ps);
        let lb = below(b, ns, qs);
        lemma_levels_alike(a, b, ns, la, lb, k);
        lemma_same_cut(h as u8, la, lb);
        lemma_node_cut(h as u8, la);
        lemma_node_cut(h as u8, lb);
        let ga = node_groups(a, ns, ps);
        let gb = node_groups(b, ns, qs);
        assert(ga.len() == ps.len() && gb.len() == qs.len());
        assert(group_keys(ga) == group_keys(gb));
        assert(group_keys(ga).len() == ga.len() && group_keys(gb).len() == gb.len());
        assert forall|i: int| 0 <= i < ps.len() implies ps[i].first_key
            == #[trigger] qs[i].first_key by {
            assert(node_fits(a, ns, ps[i], h));
            assert(node_fits(b, ns, qs[i], h));
            lemma_node_nonempty(a, ns, ps[i], h);
            lemma_node_nonempty(b, ns, qs[i], h);
            assert(ga[i] == kids(a, ns)(ps[i]));
            assert(gb[i] == kids(b, ns)(qs[i]));
            assert(group_keys(ga)[i] == first_keys(ga[i]));
            assert(group_keys(gb)[i] == first_keys(gb[i]));
            assert(first_keys(ga[i])[0] == ga[i][0].first_key);
            assert(first_keys(gb[i])[0] == gb[i][0].first_key);
        }
        assert(first_keys(ps) =~= first_keys(qs));
    }
}

/// There are no fewer nodes below a sound level than in it.
proof fn lemma_below_wider(img: Image, ns: Namespace, ps: Seq<ChildView>, h: nat)
    requires
        h > 0,
        forall|i: int| 0 <= i < ps.len() ==> node_fits(img, ns, #[trigger] ps[i], h),
    ensures
        below(img, ns, ps).len() >= ps.len(),
    decreases ps.len(),
{
    if ps.len() > 0 {
        let init = ps.drop_last();
        assert forall|i: int| 0 <= i < init.len() implies node_fits(
            img,
            ns,
            #[trigger] init[i],
            h,
        ) by {
            assert(init[i] == ps[i]);
        }
        lemma_below_wider(img, ns, init, h);
        assert(node_fits(img, ns, ps[ps.len() - 1], h));
        lemma_node_nonempty(img, ns, ps[ps.len() - 1], h);
        lemma_flat_push(kids(img, ns), init, ps.last());
        assert(init.push(ps.last()) =~= ps);
    }
}

/// Levels below a level with several nodes have several nodes.
proof fn lemma_down_wide(img: Image, ns: Namespace, ps: Seq<ChildView>, h: nat, k: nat)
    requires
        level_ok(img, ns, ps, h),
        1 <= k <= h,
        below(img, ns, ps).len() >= 2,
    ensures
        down(img, ns, ps, k).len() >= 2,
    decreases k,
{
    if k > 1 {
        let j = (k - 1) as nat;
        lemma_down_wide(img, ns, ps, h, j);
        lemma_down_ok(img, ns, ps, h, j);
        lemma_below_wider(img, ns, down(img, ns, ps, j), (h - j) as nat);
    } else {
        reveal_with_fuel(down, 2);
    }
}

/// A shape holds at every depth.
proof fn lemma_down_shaped(img: Image, ns: Namespace, ps: Seq<ChildView>, h: nat, k: nat)
    requires
        shaped(img, ns, ps, h),
        k <= h,
    ensures
        shaped(img, ns, down(img, ns, ps, k), (h - k) as nat),
        level_entries(img, ns, down(img, ns, ps, k), (h - k) as nat) == level_entries(
            img,
            ns,
            ps,
            h,
        ),
    decreases k,
{
    if k > 0 {
        lemma_down_shaped(img, ns, ps, h, (k - 1) as nat);
    }
}

/// Two trees of the same entries, both cut where their items say, and neither
/// with an idle root, are of the same height.
proof fn lemma_same_height(
    a: Image,
    b: Image,
    ns: Namespace,
    sa: u64,
    ha: Seq<u8>,
    ga: nat,
    sb: u64,
    hb: Seq<u8>,
    gb: nat,
)
    requires
        tree(a, ns, sa, ha, ga),
        tree(b, ns, sb, hb, gb),
        tree_entries(a, ns, sa, ha, ga) == tree_entries(b, ns, sb, hb, gb),
        shaped(a, ns, seq![root_ptr(a, ns, sa, ha)], ga),
        shaped(b, ns, seq![root_ptr(b, ns, sb, hb)], gb),
        forked(b, ns, sb, hb, gb),
    ensures
        gb <= ga,
{
    if ga < gb {
        let ps = seq![root_ptr(a, ns, sa, ha)];
        let qs = seq![root_ptr(b, ns, sb, hb)];
        let k = (gb - ga) as nat;
        let low = down(b, ns, qs, k);
        lemma_down_ok(b, ns, qs, gb, k);
        lemma_down_shaped(b, ns, qs, gb, k);
        lemma_down_wide(b, ns, qs, gb, k);
        lemma_levels_alike(a, b, ns, ps, low, ga);
    }
}

/// One shape: two trees of the same entries, both of whole nodes that could
/// not have taken in more, and neither with an idle root, are of the same
/// height and alike node by node. What was written before does not show.
pub proof fn law_one_shape(
    a: Image,
    b: Image,
    ns: Namespace,
    sa: u64,
    ha: Seq<u8>,
    ga: nat,
    sb: u64,
    hb: Seq<u8>,
    gb: nat,
)
    requires
        tree(a, ns, sa, ha, ga),
        tree(b, ns, sb, hb, gb),
        tree_entries(a, ns, sa, ha, ga) == tree_entries(b, ns, sb, hb, gb),
        whole(a, ns, seq![root_ptr(a, ns, sa, ha)], ga),
        whole(b, ns, seq![root_ptr(b, ns, sb, hb)], gb),
        snug(a, ns, seq![root_ptr(a, ns, sa, ha)], ga),
        snug(b, ns, seq![root_ptr(b, ns, sb, hb)], gb),
        forked(a, ns, sa, ha, ga),
        forked(b, ns, sb, hb, gb),
    ensures
        ga == gb,
        alike(
            a,
            b,
            ns,
            seq![root_ptr(a, ns, sa, ha)],
            seq![root_ptr(b, ns, sb, hb)],
            ga,
        ),
{
    let ps = seq![root_ptr(a, ns, sa, ha)];
    let qs = seq![root_ptr(b, ns, sb, hb)];
    law_shaped_is_whole_and_snug(a, ns, ps, ga);
    law_shaped_is_whole_and_snug(b, ns, qs, gb);
    lemma_same_height(a, b, ns, sa, ha, ga, sb, hb, gb);
    lemma_same_height(b, a, ns, sb, hb, gb, sa, ha, ga);
    lemma_levels_alike(a, b, ns, ps, qs, ga);
}

/// The two spaces store the namespace alike: both have no tree, or trees that
/// are alike node by node.
pub open spec fn stored_alike(s: Space, t: Space, ns: Namespace) -> bool {
    match (root_of(s.roots()->Ok_0, ns), root_of(t.roots()->Ok_0, ns)) {
        (None, None) => true,
        (Some(r), Some(q)) => exists|h: nat| #[trigger]
            tree(s.file@, ns, r.index_slot, r.payload_hash, h) && tree(
                t.file@,
                ns,
                q.index_slot,
                q.payload_hash,
                h,
            ) && alike(
                s.file@,
                t.file@,
                ns,
                seq![root_ptr(s.file@, ns, r.index_slot, r.payload_hash)],
                seq![root_ptr(t.file@, ns, q.index_slot, q.payload_hash)],
                h,
            ),
        _ => false,
    }
}

/// A namespace has one shape, however it was written: spaces that hold the
/// same entries in it store them alike.
pub proof fn law_one_shape_however_written(
    s: Space,
    t: Space,
    ns: Namespace,
    es: Seq<EntryView>,
)
    requires
        holds(s, ns, es),
        holds(t, ns, es),
        ns_neat(s.file@, s.roots()->Ok_0, ns),
        ns_neat(t.file@, t.roots()->Ok_0, ns),
    ensures
        stored_alike(s, t, ns),
{
    let rs = s.roots()->Ok_0;
    let qs = t.roots()->Ok_0;
    match (root_of(rs, ns), root_of(qs, ns)) {
        (None, None) => {},
        (Some(r), Some(q)) => {
            let ga = lemma_one_tree(s, ns, es, r);
            let gb = lemma_one_tree(t, ns, es, q);
            law_one_shape(
                s.file@,
                t.file@,
                ns,
                r.index_slot,
                r.payload_hash,
                ga,
                q.index_slot,
                q.payload_hash,
                gb,
            );
        },
        (Some(r), None) => {
            let g = lemma_one_tree(s, ns, es, r);
            crate::space::model::lemma_level_first(
                s.file@,
                ns,
                seq![root_ptr(s.file@, ns, r.index_slot, r.payload_hash)],
                g,
            );
        },
        (None, Some(q)) => {
            let g = lemma_one_tree(t, ns, es, q);
            crate::space::model::lemma_level_first(
                t.file@,
                ns,
                seq![root_ptr(t.file@, ns, q.index_slot, q.payload_hash)],
                g,
            );
        },
    }
}

/// What is said of a namespace's tree is said of one tree.
proof fn lemma_one_tree(s: Space, ns: Namespace, es: Seq<EntryView>, r: RootView) -> (g: nat)
    requires
        holds(s, ns, es),
        root_of(s.roots()->Ok_0, ns) == Some(r),
        ns_neat(s.file@, s.roots()->Ok_0, ns),
    ensures
        tree(s.file@, ns, r.index_slot, r.payload_hash, g),
        tree_entries(s.file@, ns, r.index_slot, r.payload_hash, g) == es,
        whole(s.file@, ns, seq![root_ptr(s.file@, ns, r.index_slot, r.payload_hash)], g),
        snug(s.file@, ns, seq![root_ptr(s.file@, ns, r.index_slot, r.payload_hash)], g),
        forked(s.file@, ns, r.index_slot, r.payload_hash, g),
{
    let img = s.file@;
    let p = root_ptr(img, ns, r.index_slot, r.payload_hash);
    let g = choose|h: nat| #[trigger]
        tree(img, ns, r.index_slot, r.payload_hash, h) && tree_entries(
            img,
            ns,
            r.index_slot,
            r.payload_hash,
            h,
        ) == es;
    let w = choose|h: nat| #[trigger]
        tree(img, ns, r.index_slot, r.payload_hash, h) && shaped(img, ns, seq![p], h) && forked(
            img,
            ns,
            r.index_slot,
            r.payload_hash,
            h,
        );
    lemma_tree_unique(img, ns, r.index_slot, r.payload_hash, g, w);
    law_shaped_is_whole_and_snug(img, ns, seq![p], g);
    g
}

/// A commit leaves a namespace in the one shape that belongs to what it holds,
/// if it found it so. A namespace without a tree is in that shape.
pub proof fn law_commit_keeps_shape(
    s: Space,
    t: Space,
    kv: Seq<PendingView>,
    logs: Seq<PendingLogView>,
    seq: u64,
    ns: Namespace,
)
    requires
        published(s, t, kv, logs, seq),
        ns_neat(s.file@, s.roots()->Ok_0, ns),
    ensures
        ns_neat(t.file@, t.roots()->Ok_0, ns),
{
    assert(changed(s.file@, t.file@, s.roots()->Ok_0, t.roots()->Ok_0, kv, logs, ns.0));
}

// ---------------------------------------------------------------------------
// How deep a tree can be
// ---------------------------------------------------------------------------

/// A node that is closed off from another has at least four children.
proof fn lemma_closed_is_wide(level: u8, g: Seq<ChildView>, after: Seq<ChildView>)
    requires
        closed_off(node_cutter(level), g, after),
        after.len() > 0,
        all_legal(g),
        all_legal(after),
    ensures
        g.len() >= MIN_FULL_INTERNAL_FANOUT,
{
    if g.len() < 4 {
        lemma_internal_len_bound(g);
        assert(legal_key(after[0].first_key));
        assert(false);
    }
}

/// The size of a node is bounded by how many children it has.
proof fn lemma_internal_len_bound(g: Seq<ChildView>)
    requires
        all_legal(g),
    ensures
        internal_len(g) <= NODE_HEADER_LEN + 298 * g.len(),
    decreases g.len(),
{
    if g.len() > 0 {
        let init = g.drop_last();
        assert forall|i: int| 0 <= i < init.len() implies legal_key(
            (#[trigger] init[i]).first_key,
        ) by {
            assert(init[i] == g[i]);
        }
        lemma_internal_len_bound(init);
        assert(legal_key(g[g.len() - 1].first_key));
    }
}

/// Many wide nodes have many children.
proof fn lemma_wide_nodes(img: Image, ns: Namespace, ps: Seq<ChildView>, n: int)
    requires
        0 <= n <= ps.len(),
        forall|i: int| 0 <= i < n ==> kids(img, ns)(#[trigger] ps[i]).len() >= 4,
    ensures
        below(img, ns, ps.take(n)).len() >= 4 * n,
    decreases n,
{
    if n > 0 {
        lemma_wide_nodes(img, ns, ps, n - 1);
        assert(ps.take(n) =~= ps.take(n - 1).push(ps[n - 1]));
        lemma_flat_push(kids(img, ns), ps.take(n - 1), ps[n - 1]);
    }
}

/// A level is at least four times as wide as the one above it, but for the
/// last node there.
proof fn lemma_level_widens(img: Image, ns: Namespace, ps: Seq<ChildView>, h: nat)
    requires
        h > 0,
        ps.len() > 0,
        level_ok(img, ns, ps, h),
        snug(img, ns, ps, h),
    ensures
        below(img, ns, ps).len() >= 4 * (ps.len() - 1) + 1,
{
    let gs = node_groups(img, ns, ps);
    let n = ps.len() - 1;
    assert forall|i: int| 0 <= i < ps.len() implies all_legal(kids(img, ns)(#[trigger] ps[i]))
        && kids(img, ns)(ps[i]).len() > 0 by {
        assert(node_fits(img, ns, ps[i], h));
        lemma_node_legal(img, ps[i].child_slot, ns);
    }
    assert forall|i: int| 0 <= i < n implies kids(img, ns)(#[trigger] ps[i]).len() >= 4 by {
        assert(closed_off(node_cutter(h as u8), gs[i], gs[i + 1]));
        assert(gs[i] == kids(img, ns)(ps[i]));
        assert(gs[i + 1] == kids(img, ns)(ps[i + 1]));
        lemma_closed_is_wide(h as u8, gs[i], gs[i + 1]);
    }
    lemma_wide_nodes(img, ns, ps, n);
    assert(ps =~= ps.take(n).push(ps[n]));
    lemma_flat_push(kids(img, ns), ps.take(n), ps[n]);
}

/// A level that is as wide as that of depth `j` at least, and what is below
/// it, take the chunks that depth `j` and more below it take.
proof fn lemma_level_chunks(img: Image, ns: Namespace, ps: Seq<ChildView>, h: nat, j: nat)
    requires
        level_ok(img, ns, ps, h),
        snug(img, ns, ps, h),
        ps.len() >= pow_fanout(j) + 1,
    ensures
        min_chunks(j) + level_slots(img, ns, ps, h).len() >= min_chunks(j + 1 + h),
    decreases h,
{
    assert(min_chunks(j + 1) == min_chunks(j) + pow_fanout(j) + 1);
    assert(slots_of(ps).len() == ps.len());
    if h > 0 {
        let low = below(img, ns, ps);
        lemma_level_widens(img, ns, ps, h);
        assert(pow_fanout(j + 1) == 4 * pow_fanout(j));
        lemma_level_chunks(img, ns, low, (h - 1) as nat, j + 1);
    }
}

/// A tree in its shape takes at least the chunks that its depth asks for.
pub proof fn lemma_neat_chunks(img: Image, ns: Namespace, slot: u64, hash: Seq<u8>, h: nat)
    requires
        tree(img, ns, slot, hash, h),
        snug(img, ns, seq![root_ptr(img, ns, slot, hash)], h),
        forked(img, ns, slot, hash, h),
    ensures
        level_slots(img, ns, seq![root_ptr(img, ns, slot, hash)], h).len() >= min_chunks(h),
{
    let ps = seq![root_ptr(img, ns, slot, hash)];
    if h > 0 {
        let low = below(img, ns, ps);
        lemma_level_chunks(img, ns, low, (h - 1) as nat, 0);
        assert(slots_of(ps).len() == 1);
    }
}

/// A tree in its shape is never too deep to be walked: the bound on depth that
/// every walk keeps turns no namespace away that is stored as it should be.
pub proof fn law_shape_is_within_reach(s: Space, ns: Namespace)
    requires
        s.wf(),
        ns_neat(s.file@, s.roots()->Ok_0, ns),
    ensures
        within_reach(s, ns),
{
    if let Some(r) = root_of(s.roots()->Ok_0, ns) {
        let img = s.file@;
        let ps = seq![root_ptr(img, ns, r.index_slot, r.payload_hash)];
        let h = choose|h: nat| #[trigger]
            tree(img, ns, r.index_slot, r.payload_hash, h) && shaped(img, ns, ps, h) && forked(
                img,
                ns,
                r.index_slot,
                r.payload_hash,
                h,
            );
        law_shaped_is_whole_and_snug(img, ns, ps, h);
        lemma_neat_chunks(img, ns, r.index_slot, r.payload_hash, h);
        let all = level_slots(img, ns, ps, h);
        let owned = s.state.owned_slots@;
        assert forall|t: u64| #[trigger] all.to_set().contains(t) implies owned.contains(t) by {
            let i = choose|i: int| 0 <= i < all.len() && all[i] == t;
            assert(all.contains(t));
            lemma_slot_is_node(img, ns, ps, h, t);
        }
        all.unique_seq_to_set();
        vstd::set_lib::lemma_len_subset(all.to_set(), owned);
        assert(all.len() <= owned.len());
        let d = s.walk_now().max_depth;
        lemma_depth_bound_grows(s.state.owned_slots.len, s.state.owned_slots.len);
        assert(is_depth_bound(d, owned.len()));
        lemma_depth_bound_small(d, s.state.owned_slots.len);
        if h > d {
            lemma_min_chunks_grows((d + 1) as nat, h);
        }
    }
}

} // verus!
