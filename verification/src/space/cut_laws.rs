//! Where the nodes of a tree are cut: by what a node holds and what comes after
//! it, and by nothing else.

use vstd::prelude::*;

use crate::container::Image;
use crate::space::cutting::{
    closed_off, is_neat, law_shaped_is_whole_and_snug, leaf_cutter, lemma_one_run_means,
    node_cutter, ns_neat, one_run,
};
use crate::space::index::{
    boundary_coin, child_cost, ends_node, internal_len, leaf_cost, leaf_len, ChildView, EntryView,
    Namespace,
};
use crate::space::model::{
    below, kids, leaf_groups, leaves, node_groups, root_ptr, shaped, tree,
};
use crate::space::root_of;
use crate::tx::commit::RootView;

verus! {

/// The last of these entries ends their leaf.
pub open spec fn leaf_ends(es: Seq<EntryView>) -> bool {
    ends_node(boundary_coin(0, es.last().0), leaf_cost(es.last()), leaf_len(es))
}

/// The last of these children ends their node, which is on this level.
pub open spec fn inner_ends(level: u8, cs: Seq<ChildView>) -> bool {
    ends_node(
        boundary_coin(level, cs.last().first_key),
        child_cost(cs.last().first_key),
        internal_len(cs),
    )
}

/// Side by side, leaves are cut so: an entry goes into the leaf of the one before
/// it as long as it fits into a chunk and the one before did not end the leaf;
/// and where neither holds, there is a new leaf. So no leaf could be longer, and
/// none ends within.
pub proof fn law_where_leaves_are_cut(img: Image, ns: Namespace, ps: Seq<ChildView>, i: int, k: int)
    requires
        shaped(img, ns, ps, 0),
        0 <= i < ps.len(),
    ensures
        ({
            let es = leaves(img, ns)(ps[i]);
            let after = leaves(img, ns)(ps[i + 1]);
            &&& 0 < k < es.len() ==> leaf_len(es.take(k)) + leaf_cost(es[k]) <= 4040 && !leaf_ends(
                es.take(k),
            )
            &&& i + 1 < ps.len() && after.len() > 0 ==> leaf_ends(es) || leaf_len(es) + leaf_cost(
                after[0],
            ) > 4040
        }),
{
    law_shaped_is_whole_and_snug(img, ns, ps, 0);
    let es = leaves(img, ns)(ps[i]);
    assert(one_run(leaf_cutter(), leaves(img, ns)(ps[i])));
    if 0 < k < es.len() {
        lemma_one_run_means(leaf_cutter(), es, k);
        assert((leaf_cutter().fits)(es.take(k), es[k]));
        assert(!(leaf_cutter().ends)(es.take(k)));
    }
    if i + 1 < ps.len() {
        let gs = leaf_groups(img, ns, ps);
        assert(closed_off(leaf_cutter(), gs[i], gs[i + 1]));
        assert((leaf_cutter().ends)(es) == leaf_ends(es));
    }
}

/// Side by side, the nodes above the leaves are cut as leaves are, but that a child
/// ends a node only from the fourth on; and the level below them is cut so too.
pub proof fn law_where_nodes_are_cut(
    img: Image,
    ns: Namespace,
    ps: Seq<ChildView>,
    h: nat,
    i: int,
    k: int,
)
    requires
        shaped(img, ns, ps, h),
        0 < h < 256,
        0 <= i < ps.len(),
    ensures
        ({
            let cs = kids(img, ns)(ps[i]);
            let after = kids(img, ns)(ps[i + 1]);
            &&& 0 < k < cs.len() ==> internal_len(cs.take(k)) + child_cost(cs[k].first_key) <= 4040
                && (k < 4 || !inner_ends(h as u8, cs.take(k)))
            &&& i + 1 < ps.len() && after.len() > 0 ==> cs.len() >= 4 && inner_ends(h as u8, cs)
                || internal_len(cs) + child_cost(after[0].first_key) > 4040
        }),
        shaped(img, ns, below(img, ns, ps), (h - 1) as nat),
{
    law_shaped_is_whole_and_snug(img, ns, ps, h);
    law_shaped_is_whole_and_snug(img, ns, below(img, ns, ps), (h - 1) as nat);
    let c = node_cutter(h as u8);
    let cs = kids(img, ns)(ps[i]);
    assert(one_run(c, kids(img, ns)(ps[i])));
    if 0 < k < cs.len() {
        lemma_one_run_means(c, cs, k);
        assert((c.fits)(cs.take(k), cs[k]));
        assert(!(c.ends)(cs.take(k)));
    }
    if i + 1 < ps.len() {
        let gs = node_groups(img, ns, ps);
        assert(closed_off(c, gs[i], gs[i + 1]));
        assert((c.ends)(cs) == (cs.len() >= 4 && inner_ends(h as u8, cs)));
    }
}

/// The root of a neat namespace is such a level, of one node, and has two children
/// or more where it has any.
pub proof fn law_neat_from_the_root(img: Image, rs: Seq<RootView>, ns: Namespace)
    requires
        ns_neat(img, rs, ns),
        root_of(rs, ns) is Some,
    ensures
        ({
            let r = root_of(rs, ns)->0;
            let top = seq![root_ptr(img, ns, r.index_slot, r.payload_hash)];
            exists|h: nat| #[trigger]
                shaped(img, ns, top, h) && tree(img, ns, r.index_slot, r.payload_hash, h) && (h > 0
                    ==> below(img, ns, top).len() >= 2)
        }),
{
    let r = root_of(rs, ns)->0;
    assert(is_neat(img, ns, r.index_slot, r.payload_hash));
}

} // verus!
