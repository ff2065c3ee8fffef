//! Applying operations to a tree: the leaves they touch are rewritten, and
//! the path above them, and nothing else is read or written.

use vstd::prelude::*;

use crate::bytes::{
    bytes_eq, bytes_lt, copy_of, lemma_lex_lt_le, lemma_lex_total, lemma_lex_trans, lex_lt,
};
use crate::container::{extends, lemma_extends_refl, lemma_extends_trans, live, Image};
use crate::error::Error;
use crate::seqs::{flat, lemma_flat_append, lemma_flat_same, lemma_flat_split};
use crate::space::cursor::{
    at_end, at_start, first_kid, lemma_at_end, lemma_at_start, lemma_down_below, lemma_down_extends,
    lemma_down_ok, lemma_path_point,
    lemma_path_prefix, lemma_path_same, lemma_place_live, lemma_places_differ, lemma_pos_split,
    lemma_untouched, path_ok, pos, steps_valid, steps_view, touched, Step, StepView,
};
use crate::space::cutting::{
    closed_off, is_neat, law_shaped_is_whole_and_snug, leaf_cutter, lemma_chained_part,
    lemma_chained_splice, lemma_closed_at_once, lemma_cut_chained, lemma_cut_first, lemma_down_snug,
    lemma_leaf_cut, lemma_node_cut, lemma_snug_extends, snug, lemma_cut_leaves_whole,
    lemma_cut_nodes_whole, lemma_down_whole, lemma_whole_append, lemma_whole_extends, node_cutter,
    one_run, whole,
};
use crate::space::index::{
    child_index, children_sorted, children_view, entries_view, keys_sorted, leaf_entry_fault,
    legal_key, lemma_child_index, lemma_node_decode_plain, lemma_internal_decode_valid,
    lemma_leaf_decode_valid, lemma_leaf_fault_all, ChildPointer, ChildView, EntryView, IndexNode,
    InternalNode, LeafNode, Namespace, NodeView,
};
use crate::space::model::{
    below, down, forest, kids, leaf_close, leaf_feed, leaf_groups, leaves, lemma_first_keys_rise,
    lemma_tree_unique, node_close, lemma_level_first, lemma_level_extends, lemma_level_ok_part,
    lemma_merged_prefix, lemma_merged_sorted, lemma_node_extends, lemma_node_nonempty,
    level_entries, level_ok, joined, lemma_joined_push, lemma_node_feed_joined,
    lemma_node_groups_joined, lemma_leaf_feed_joined, lemma_leaf_feed_push,
    lemma_leaf_groups_joined, lemma_sorted_join, lemma_sorted_parts, level_slots, merged, no_leaves,
    node_fits, ops_sorted, lemma_node_feed_push, no_nodes, node_feed, node_groups, put_of, root_ptr,
    shaped, slots_of, tree, tree_entries, OpView,
};
use crate::space::tree::{
    all_legal, apart, appended, cut_below, entries_legal, grew_to, forked, solid, topped,
    untouched_from, grounded, inner_ok, lemma_appended_none, lemma_appended_trans,
    lemma_steady_grown, new_slot, op_legal, op_view, same_but_level, stands_on, tree_leaves, Build,
    KeyOps, LeafRun, NodeRun,
};
use crate::space::walk::{walk_refusal, walk_step};
use crate::space::{failed, laid, lemma_laid_refl, lemma_laid_trans, node_at, steady, Space};
use crate::tx::commit::{IndexRoot, RootView};

verus! {

/// The tree that is being updated, as it was.
pub struct Was {
    pub img: Image,
    pub ns: Namespace,
    pub top: Seq<ChildView>,
    pub d: nat,
    pub owned: Set<u64>,
}

impl Was {
    /// The nodes at depth `k`.
    pub open spec fn at(self, k: nat) -> Seq<ChildView> {
        down(self.img, self.ns, self.top, k)
    }

    /// A sound tree of height `d`, all of whose chunks are owned.
    pub open spec fn good(self) -> bool {
        &&& forest(self.img, self.ns, self.top, self.d)
        &&& self.top.len() == 1
        &&& self.owned.finite()
        &&& forall|s: u64| #[trigger] live(self.img, s) ==> self.owned.contains(s)
        &&& forall|s: u64| #[trigger] self.owned.contains(s) ==> s < self.img.len()
        &&& self.img.len() <= u64::MAX
    }

    /// Where a path is at depth `k`.
    pub open spec fn pos(self, steps: Seq<StepView>, k: nat) -> int {
        pos(self.img, self.ns, self.top, steps, k)
    }

    /// Where a path is at each depth.
    pub open spec fn places(self, steps: Seq<StepView>) -> Seq<int> {
        Seq::new(self.d + 1, |k: int| self.pos(steps, k as nat))
    }

    /// The first `k` steps are a path in this tree.
    pub open spec fn path(self, steps: Seq<StepView>, k: nat) -> bool {
        path_ok(self.img, self.ns, self.top, steps, k)
    }

    /// The slot is that of a node between two positions of some depth.
    pub open spec fn touched(self, lo: Seq<int>, hi: Seq<int>, s: u64) -> bool {
        touched(self.img, self.ns, self.top, self.d, lo, hi, s)
    }
}

/// The build has read no nodes but those between the positions `lo` and `hi`
/// of each depth, and its guard has counted them.
#[verifier::opaque]
pub open spec fn tracks(w: Was, b: Build, lo: Seq<int>, hi: Seq<int>) -> bool {
    &&& b.walk@.visited.finite()
    &&& b.walk@.capacity == w.img.len()
    &&& b.walk@.visited.len() + b.walk@.budget == w.owned.len()
    &&& forall|s: u64| #[trigger]
        b.walk@.visited.contains(s) ==> w.touched(lo, hi, s) && w.owned.contains(s)
    &&& forall|s: u64| #[trigger] b.reusable(s) ==> b.walk@.visited.contains(s)
}

/// A node that has not been read may be.
proof fn lemma_read_allowed(
    w: Was,
    img: Image,
    b: Build,
    lo: Seq<int>,
    hi: Seq<int>,
    k: nat,
    q: int,
)
    requires
        w.good(),
        extends(w.img, img),
        tracks(w, b, lo, hi),
        k <= w.d,
        w.d <= b.walk@.max_depth,
        0 <= q < w.at(k).len(),
        !(lo[k as int] <= q <= hi[k as int]),
    ensures
        walk_refusal(b.walk@, w.at(k)[q].child_slot, k as int) is None,
        node_at(img, w.at(k)[q].child_slot, w.ns) is Ok,
{
    reveal(tracks);
    let s = w.at(k)[q].child_slot;
    lemma_untouched(w.img, w.ns, w.top, w.d, lo, hi, k, q);
    lemma_place_live(w.img, w.ns, w.top, w.d, k, q);
    lemma_node_extends(w.img, img, w.ns, s);
    assert(w.owned.contains(s));
    assert(!b.walk@.visited.contains(s));
    let v = b.walk@.visited;
    assert(v.insert(s).subset_of(w.owned));
    vstd::set_lib::lemma_len_subset(v.insert(s), w.owned);
}

/// After a node has been read, it is among those read.
proof fn lemma_read_tracks(
    w: Was,
    b: Build,
    b1: Build,
    lo: Seq<int>,
    hi: Seq<int>,
    lo1: Seq<int>,
    hi1: Seq<int>,
    k: nat,
    q: int,
)
    requires
        w.good(),
        tracks(w, b, lo, hi),
        k <= w.d,
        0 <= q < w.at(k).len(),
        walk_refusal(b.walk@, w.at(k)[q].child_slot, k as int) is None,
        b1.walk@ == walk_step(b.walk@, w.at(k)[q].child_slot),
        forall|s: u64| #[trigger]
            b1.reusable(s) ==> b.reusable(s) || s == w.at(k)[q].child_slot,
        lo1.len() == w.d + 1,
        hi1.len() == w.d + 1,
        forall|m: int| 0 <= m <= w.d && m != k ==> #[trigger] lo1[m] == lo[m] && hi1[m] == hi[m],
        lo1[k as int] <= q <= hi1[k as int],
        lo[k as int] <= hi[k as int] ==> lo1[k as int] <= lo[k as int] && hi[k as int]
            <= hi1[k as int],
    ensures
        tracks(w, b1, lo1, hi1),
{
    reveal(tracks);
    let s = w.at(k)[q].child_slot;
    lemma_place_live(w.img, w.ns, w.top, w.d, k, q);
    assert(w.touched(lo1, hi1, s)) by {
        assert(0 <= q < w.at(k).len() && w.at(k)[q].child_slot == s);
    }
    assert forall|t: u64| #[trigger] b1.walk@.visited.contains(t) implies w.touched(lo1, hi1, t)
        && w.owned.contains(t) by {
        if t != s {
            assert(b.walk@.visited.contains(t));
            let (m, j) = choose|m: nat, j: int|
                m <= w.d && lo[m as int] <= j <= hi[m as int] && 0 <= j < #[trigger] down(
                    w.img,
                    w.ns,
                    w.top,
                    m,
                ).len() && (#[trigger] down(w.img, w.ns, w.top, m)[j]).child_slot == t;
            if m != k {
                assert(lo1[m as int] == lo[m as int] && hi1[m as int] == hi[m as int]);
            }
            assert(0 <= j < w.at(m).len() && w.at(m)[j].child_slot == t);
        }
    }
}

/// What reading a node leaves of a build as it was.
pub open spec fn same_but_reads(a: Build, b: Build) -> bool {
    &&& b.seq == a.seq
    &&& b.emitted == a.emitted
    &&& b.walk@.capacity == a.walk@.capacity
    &&& b.walk@.max_depth == a.walk@.max_depth
    &&& b.walk@.budget <= a.walk@.budget
    &&& forall|l: int| #[trigger] b.prev(l) == a.prev(l)
    &&& forall|s: u64| #[trigger] a.reusable(s) ==> b.reusable(s)
}

/// Builds that have noted the same nodes and keys.
proof fn lemma_same_reuse(a: Build, b: Build)
    requires
        a.reuse == b.reuse,
        a.prev_leaf_key == b.prev_leaf_key,
        a.prev_level_key == b.prev_level_key,
    ensures
        forall|s: u64| #![trigger a.reusable(s)] #![trigger b.reusable(s)]
            a.reusable(s) == b.reusable(s),
        forall|l: int| #[trigger] b.prev(l) == a.prev(l),
{
    assert forall|s: u64| a.reusable(s) == b.reusable(s) by {
        if a.reusable(s) {
            let i = choose|i: int| 0 <= i < a.reuse@.len() && (#[trigger] a.reuse@[i]).1 == s;
            assert(b.reuse@[i].1 == s);
        }
        if b.reusable(s) {
            let i = choose|i: int| 0 <= i < b.reuse@.len() && (#[trigger] b.reuse@[i]).1 == s;
            assert(a.reuse@[i].1 == s);
        }
    }
}

/// Every node on the path can be written again.
pub open spec fn steps_legal(steps: Seq<StepView>) -> bool {
    forall|k: int| 0 <= k < steps.len() ==> all_legal((#[trigger] steps[k]).0)
}

/// Where an update that begins at `key` starts among children: the last whose
/// first key is before `key`, or the first if there is none. What the child
/// starts with stays as it is.
pub open spec fn start_index(cs: Seq<ChildView>, key: Seq<u8>) -> int {
    let i = child_index(cs, key);
    if i > 0 && !lex_lt(cs[i].first_key, key) {
        i - 1
    } else {
        i
    }
}

/// The nodes on the way from `slot` to the leaf that an update which begins at
/// `key` starts with open, at most `n` of them above the leaf.
pub open spec fn path_opens(img: Image, ns: Namespace, slot: u64, key: Seq<u8>, n: nat) -> bool
    decreases n,
{
    match node_at(img, slot, ns) {
        Err(_) => false,
        Ok(NodeView::Leaf(_)) => true,
        Ok(NodeView::Internal(x)) => n > 0 && path_opens(
            img,
            ns,
            x.children[start_index(x.children, key)].child_slot,
            key,
            (n - 1) as nat,
        ),
    }
}

/// The nodes on the way to where an update begins open.
pub open spec fn opens_for(img: Image, ns: Namespace, slot: u64, key: Seq<u8>) -> bool {
    exists|n: nat| #[trigger] path_opens(img, ns, slot, key, n)
}

/// A search for the place before `key` has come down `steps`, and next reads the node at
/// `slot`.
pub open spec fn descending(
    w: Was,
    steps: Seq<StepView>,
    slot: u64,
    key: Seq<u8>,
    b: Build,
    lo: Seq<int>,
    hi: Seq<int>,
) -> bool {
    &&& steps.len() <= w.d
    &&& w.path(steps, steps.len())
    &&& w.at(steps.len())[w.pos(steps, steps.len())].child_slot == slot
    &&& w.pos(steps, steps.len()) > 0 ==> lex_lt(
        w.at(steps.len())[w.pos(steps, steps.len())].first_key,
        key,
    )
    &&& w.pos(steps, steps.len()) + 1 < w.at(steps.len()).len() ==> !lex_lt(
        w.at(steps.len())[w.pos(steps, steps.len()) + 1].first_key,
        key,
    )
    &&& lo.len() == w.d + 1
    &&& hi.len() == w.d + 1
    &&& forall|m: int|
        0 <= m < steps.len() ==> #[trigger] lo[m] == w.pos(steps, m as nat) && hi[m] == lo[m]
    &&& tracks(w, b, lo, hi)
    &&& forall|m: int| steps.len() <= m <= w.d ==> #[trigger] lo[m] == 0 && hi[m] < 0
}

/// One step further down.
#[verifier::spinoff_prover]
#[verifier::rlimit(40)]
proof fn lemma_descend_step(
    w: Was,
    sv: Seq<StepView>,
    slot0: u64,
    key: Seq<u8>,
    b0: Build,
    lo: Seq<int>,
    hi: Seq<int>,
    cs: Seq<ChildView>,
    idx: int,
    slot: u64,
    b1: Build,
)
    requires
        w.good(),
        descending(w, sv, slot0, key, b0, lo, hi),
        sv.len() < w.d,
        cs == kids(w.img, w.ns)(w.at(sv.len())[w.pos(sv, sv.len())]),
        cs.len() > 0,
        children_sorted(cs),
        idx == start_index(cs, key),
        slot == cs[idx].child_slot,
        tracks(
            w,
            b1,
            lo.update(sv.len() as int, w.pos(sv, sv.len())),
            hi.update(sv.len() as int, w.pos(sv, sv.len())),
        ),
    ensures
        descending(
            w,
            sv.push((cs, idx)),
            slot,
            key,
            b1,
            lo.update(sv.len() as int, w.pos(sv, sv.len())),
            hi.update(sv.len() as int, w.pos(sv, sv.len())),
        ),
{
    let k = sv.len();
    let q = w.pos(sv, k);
    let sn = sv.push((cs, idx));
    let lo1 = lo.update(k as int, q);
    let hi1 = hi.update(k as int, q);
    lemma_path_point(w.img, w.ns, w.top, sv, k);
    lemma_place_live(w.img, w.ns, w.top, w.d, k, q);
    lemma_node_nonempty(w.img, w.ns, w.at(k)[q], (w.d - k) as nat);
    lemma_path_same(w.img, w.ns, w.top, sv, sn, k);
    lemma_child_index(cs, key);
    assert(w.path(sn, k + 1));
    lemma_path_point(w.img, w.ns, w.top, sn, k + 1);
    if idx == 0 && q == 0 {
        assert(w.at(k).take(0) =~= Seq::<ChildView>::empty());
    }
    assert forall|m: int| 0 <= m < sn.len() implies #[trigger] lo1[m] == w.pos(sn, m as nat)
        && hi1[m] == lo1[m] by {
        lemma_path_same(w.img, w.ns, w.top, sv, sn, m as nat);
        if m < k {
            assert(lo[m] == w.pos(sv, m as nat) && hi[m] == lo[m]);
        }
    }
    assert forall|m: int| sn.len() <= m <= w.d implies #[trigger] lo1[m] == 0 && hi1[m] < 0 by {
        assert(m >= sv.len());
        assert(m != k);
        assert(lo1[m] == lo[m]);
        assert(hi1[m] == hi[m]);
    }
    let kn = sn.len();
    assert(kn == k + 1);
    assert(w.path(sn, kn));
    assert(w.at(kn)[w.pos(sn, kn)] == cs[idx]);
    if w.pos(sn, kn) > 0 && idx == 0 {
        assert(q > 0);
        assert(cs[0].first_key == w.at(k)[q].first_key);
    }
    if idx > 0 && idx < child_index(cs, key) {
        lemma_lex_lt_le(cs[idx].first_key, cs[idx + 1].first_key, key);
    }
    assert(w.pos(sn, kn) > 0 ==> lex_lt(w.at(kn)[w.pos(sn, kn)].first_key, key));
    assert(w.pos(sn, kn) + 1 < w.at(kn).len() ==> !lex_lt(
        w.at(kn)[w.pos(sn, kn) + 1].first_key,
        key,
    )) by {
        lemma_flat_split(kids(w.img, w.ns), w.at(k), q);
        lemma_next_kid(w.img, w.ns, w.at(k), q);
        if idx + 1 < cs.len() {
            assert(w.at(kn)[w.pos(sn, kn) + 1] == cs[idx + 1]);
            lemma_lex_total(cs[idx + 1].first_key, key);
            assert(!lex_lt(cs[idx + 1].first_key, key));
        } else if w.pos(sn, kn) + 1 < w.at(kn).len() {
            if q + 1 < w.at(k).len() {
                let next = w.at(k)[q + 1];
                lemma_place_live(w.img, w.ns, w.top, w.d, k, q + 1);
                lemma_node_nonempty(w.img, w.ns, next, (w.d - k) as nat);
                lemma_flat_split(kids(w.img, w.ns), w.at(k), q + 1);
                assert(w.at(kn)[w.pos(sn, kn) + 1] == kids(w.img, w.ns)(next)[0]);
                assert(kids(w.img, w.ns)(next)[0].first_key == next.first_key);
                assert(!lex_lt(next.first_key, key));
            } else {
                assert(w.at(k).skip(q + 1) =~= Seq::<ChildView>::empty());
            }
        }
    }
    assert(w.at(kn)[w.pos(sn, kn)].child_slot == slot);
    assert(sn.len() <= w.d);
    assert(descending(w, sn, slot, key, b1, lo1, hi1));
}

/// The leaf that a search ends at, and the path to it.
pub struct Descent {
    pub steps: Vec<Step>,
    pub leaf: LeafNode,
}

/// A decoded leaf's entries are legal; a decoded internal node's first keys
/// are, and it has a child.
pub proof fn lemma_node_legal(img: Image, slot: u64, ns: Namespace)
    ensures
        match node_at(img, slot, ns) {
            Ok(NodeView::Leaf(l)) => entries_legal(l.entries) && keys_sorted(l.entries),
            Ok(NodeView::Internal(n)) => all_legal(n.children) && n.children.len() > 0
                && children_sorted(n.children),
            Err(_) => true,
        },
{
    if let Ok(n) = node_at(img, slot, ns) {
        let payload = img[slot as int]->0.payload;
        match n {
            NodeView::Leaf(l) => {
                lemma_leaf_decode_valid(payload);
                lemma_leaf_fault_all(l.entries);
            },
            NodeView::Internal(i) => {
                lemma_internal_decode_valid(payload);
                assert forall|j: int| 0 <= j < i.children.len() implies legal_key(
                    (#[trigger] i.children[j]).first_key,
                ) by {
                    assert(crate::space::index::legal_child(i.children[j]));
                }
            },
        }
    }
}

impl Space {
    /// Reads a node of the current tree through the build's guard, and notes
    /// it.
    fn read_node(&self, slot: u64, hash: [u8; 32], ns: Namespace, depth: u8, b: &mut Build) -> (r:
        Result<IndexNode, Error>)
        requires
            old(b).wf(),
        ensures
            final(b).wf(),
            same_but_reads(*old(b), *final(b)),
            match r {
                Ok(node) => {
                    &&& walk_refusal(old(b).walk@, slot, depth as int) is None
                    &&& node_at(self.file@, slot, ns) == Ok::<NodeView, Error>(node@)
                    &&& final(b).walk@ == walk_step(old(b).walk@, slot)
                    &&& forall|s: u64| #[trigger]
                        final(b).reusable(s) <==> old(b).reusable(s) || s == slot
                    &&& match node@ {
                        NodeView::Leaf(l) => entries_legal(l.entries) && keys_sorted(l.entries),
                        NodeView::Internal(n) => all_legal(n.children) && n.children.len() > 0
                            && children_sorted(n.children),
                    }
                },
                Err(e) => !(e is PublishUncertain) && (walk_refusal(
                    old(b).walk@,
                    slot,
                    depth as int,
                ) is Some || node_at(self.file@, slot, ns) is Err),
            },
    {
        match b.walk.visit(slot, depth) {
            Ok(()) => {},
            Err(e) => {
                proof {
                    lemma_same_reuse(*old(b), *b);
                }
                return Err(e);
            },
        }
        let ghost b1 = *b;
        proof {
            lemma_same_reuse(*old(b), b1);
        }
        proof {
            lemma_node_decode_plain(self.file@[slot as int]->0.payload);
        }
        let node = match self.read_index_node_at_expected(slot, ns) {
            Ok(n) => n,
            Err(e) => {
                return Err(e);
            },
        };
        b.remember(hash, slot);
        proof {
            lemma_node_legal(self.file@, slot, ns);
            assert forall|l: int| #[trigger] b.prev(l) == old(b).prev(l) by {
                assert(b1.prev(l) == old(b).prev(l));
            }
            assert forall|s: u64| #[trigger] b.reusable(s) <==> old(b).reusable(s) || s == slot by {
                assert(b1.reusable(s) == old(b).reusable(s));
            }
        }
        Ok(node)
    }

    /// Comes down from the root to the leaf that an update which begins at
    /// `key` starts with.
    #[verifier::spinoff_prover]
    #[verifier::rlimit(60)]
    fn descend(&self, root: &IndexRoot, key: &[u8], b: &mut Build, Ghost(w): Ghost<Was>) -> (r:
        Result<Descent, Error>)
        requires
            old(b).wf(),
        ensures
            final(b).wf(),
            same_but_reads(*old(b), *final(b)),
            match r {
                Ok(found) => {
                    let steps = steps_view(found.steps@);
                    &&& steps_valid(steps)
                    &&& steps_legal(steps)
                    &&& steps.len() <= 32
                    &&& opens_for(self.file@, root@.namespace, root@.index_slot, key@)
                    &&& entries_legal(found.leaf@.entries)
                    &&& keys_sorted(found.leaf@.entries)
                    &&& w.good() && extends(w.img, self.file@) && w.ns == root@.namespace
                        && w.top[0].child_slot == root@.index_slot && tracks(
                        w,
                        *old(b),
                        Seq::new((w.d + 1) as nat, |k: int| 0int),
                        Seq::new((w.d + 1) as nat, |k: int| -1int),
                    ) ==> {
                        &&& steps.len() == w.d
                        &&& w.path(steps, w.d)
                        &&& tracks(w, *final(b), w.places(steps), w.places(steps))
                        &&& found.leaf@.entries == leaves(w.img, w.ns)(
                            w.at(w.d)[w.pos(steps, w.d)],
                        )
                        &&& w.pos(steps, w.d) > 0 ==> lex_lt(
                            w.at(w.d)[w.pos(steps, w.d)].first_key,
                            key@,
                        )
                        &&& w.pos(steps, w.d) + 1 < w.at(w.d).len() ==> !lex_lt(
                            w.at(w.d)[w.pos(steps, w.d) + 1].first_key,
                            key@,
                        )
                    }
                },
                Err(e) => !(e is PublishUncertain) && !(w.good() && extends(w.img, self.file@)
                    && w.ns == root@.namespace && w.top[0].child_slot == root@.index_slot && w.d <= old(b).walk@.max_depth
                    && tracks(
                    w,
                    *old(b),
                    Seq::new((w.d + 1) as nat, |k: int| 0int),
                    Seq::new((w.d + 1) as nat, |k: int| -1int),
                )),
            },
    {
        let mut steps: Vec<Step> = Vec::new();
        let mut slot: u64 = root.index_slot;
        let mut hash: [u8; 32] = root.payload_hash;
        let mut depth: u8 = 0;
        let ghost zeros = Seq::new((w.d + 1) as nat, |k: int| 0int);
        let ghost minus = Seq::new((w.d + 1) as nat, |k: int| -1int);
        let ghost good = w.good() && extends(w.img, self.file@) && w.ns == root@.namespace
            && w.top[0].child_slot == root@.index_slot && tracks(w, *b, zeros, minus);
        let ghost mut lo = zeros;
        let ghost mut hi = minus;
        proof {
            assert(steps_view(steps@) =~= Seq::<StepView>::empty());
        }
        loop
            invariant
                zeros == Seq::new((w.d + 1) as nat, |k: int| 0int),
                minus == Seq::new((w.d + 1) as nat, |k: int| -1int),
                good == (w.good() && extends(w.img, self.file@) && w.ns == root@.namespace
                    && w.top[0].child_slot == root@.index_slot && tracks(
                    w,
                    *old(b),
                    zeros,
                    minus,
                )),
                b.wf(),
                same_but_reads(*old(b), *b),
                steps_valid(steps_view(steps@)),
                steps_legal(steps_view(steps@)),
                steps@.len() == depth,
                depth <= b.walk@.max_depth + 1,
                forall|k: nat| #[trigger]
                    path_opens(self.file@, root@.namespace, slot, key@, k) ==> path_opens(
                        self.file@,
                        root@.namespace,
                        root@.index_slot,
                        key@,
                        k + depth as nat,
                    ),
                good ==> descending(w, steps_view(steps@), slot, key@, *b, lo, hi),
            decreases b.walk@.max_depth + 1 - depth,
        {
            let ghost b1 = *b;
            let ghost sv = steps_view(steps@);
            let ghost k = depth as nat;
            let ghost q = w.pos(sv, k);
            let ghost lo0 = lo;
            let ghost hi0 = hi;
            let ghost slot0 = slot;
            proof {
                if good {
                    lemma_path_point(w.img, w.ns, w.top, sv, k);
                    if w.d <= b.walk@.max_depth {
                        lemma_read_allowed(w, self.file@, *b, lo, hi, k, q);
                    }
                    lemma_place_live(w.img, w.ns, w.top, w.d, k, q);
                    lemma_node_extends(w.img, self.file@, w.ns, slot);
                }
            }
            let node = match self.read_node(slot, hash, root.namespace, depth, b) {
                Ok(n) => n,
                Err(e) => {
                    return Err(e);
                },
            };
            proof {
                if good {
                    let lo1 = lo.update(k as int, q);
                    let hi1 = hi.update(k as int, q);
                    lemma_read_tracks(w, b1, *b, lo, hi, lo1, hi1, k, q);
                    lo = lo1;
                    hi = hi1;
                }
            }
            match node {
                IndexNode::Leaf(leaf) => {
                    proof {
                        assert(path_opens(self.file@, root@.namespace, slot, key@, 0));
                        if good {
                            assert(node_fits(w.img, w.ns, w.at(k)[q], (w.d - k) as nat));
                            assert(k == w.d);
                            assert(lo =~= w.places(sv));
                            assert(hi =~= w.places(sv));
                        }
                    }
                    return Ok(Descent { steps, leaf });
                },
                IndexNode::Internal(inner) => {
                    let at: usize = inner.child_index_for(key);
                    let ghost cs = inner@.children;
                    // A child that starts with `key` itself may come to start
                    // otherwise, and what is before it may then end elsewhere.
                    let idx: usize = if at > 0 && !bytes_lt(
                        inner.children[at].first_key.as_slice(),
                        key,
                    ) {
                        at - 1
                    } else {
                        at
                    };
                    slot = inner.children[idx].child_slot;
                    hash = inner.children[idx].child_hash;
                    steps.push(Step { node: inner, idx });
                    depth = depth + 1;
                    proof {
                        assert forall|m: nat| #[trigger]
                            path_opens(self.file@, root@.namespace, slot, key@, m) implies path_opens(
                            self.file@,
                            root@.namespace,
                            root@.index_slot,
                            key@,
                            m + depth as nat,
                        ) by {
                            assert(path_opens(
                                self.file@,
                                root@.namespace,
                                slot0,
                                key@,
                                m + 1,
                            ));
                        }
                        let sn = steps_view(steps@);
                        assert(sn =~= sv.push((cs, idx as int)));
                        if good {
                            assert(node_fits(w.img, w.ns, w.at(k)[q], (w.d - k) as nat));
                            assert(k < w.d);
                            lemma_descend_step(
                                w,
                                sv,
                                slot0,
                                key@,
                                b1,
                                lo0,
                                hi0,
                                cs,
                                idx as int,
                                slot,
                                *b,
                            );
                        }
                    }
                },
            }
        }
    }
}

/// The cursor stands at the last place read at each depth above `d`.
pub open spec fn at_cursor(
    w: Was,
    steps: Seq<StepView>,
    d: nat,
    b: Build,
    lo: Seq<int>,
    hi: Seq<int>,
) -> bool {
    &&& d <= w.d
    &&& w.path(steps, d)
    &&& lo.len() == w.d + 1
    &&& hi.len() == w.d + 1
    &&& tracks(w, b, lo, hi)
    &&& forall|k: int|
        0 <= k < d ==> #[trigger] hi[k] == w.pos(steps, k as nat) && lo[k] <= hi[k]
}

/// `hi`, but at the cursor above depth `d`.
pub open spec fn moved(w: Was, steps: Seq<StepView>, d: nat, hi: Seq<int>) -> Seq<int> {
    Seq::new(
        w.d + 1,
        |k: int|
            if k < d {
                w.pos(steps, k as nat)
            } else {
                hi[k]
            },
    )
}

/// Past the last child of a node comes the first child of the next.
proof fn lemma_next_kid(img: Image, ns: Namespace, level: Seq<ChildView>, i: int)
    requires
        0 <= i < level.len(),
    ensures
        first_kid(img, ns, level, i) + kids(img, ns)(level[i]).len() == first_kid(
            img,
            ns,
            level,
            i + 1,
        ),
{
    lemma_flat_split(kids(img, ns), level, i);
}

impl Space {
    /// Moves the cursor to the next node of depth `di` and gives the pointer
    /// to it; nothing where it is at the last.
    #[verifier::spinoff_prover]
    #[verifier::rlimit(60)]
    fn advance_cursor(
        &self,
        steps: &mut Vec<Step>,
        di: usize,
        ns: Namespace,
        b: &mut Build,
        Ghost(w): Ghost<Was>,
        Ghost(lo): Ghost<Seq<int>>,
        Ghost(hi): Ghost<Seq<int>>,
    ) -> (r: Result<Option<ChildPointer>, Error>)
        requires
            old(b).wf(),
            0 < di <= old(steps)@.len() <= 32,
            steps_valid(steps_view(old(steps)@)),
            steps_legal(steps_view(old(steps)@)),
        ensures
            final(b).wf(),
            same_but_reads(*old(b), *final(b)),
            final(steps)@.len() == old(steps)@.len(),
            match r {
                Ok(found) => {
                    let was = steps_view(old(steps)@);
                    let now = steps_view(final(steps)@);
                    &&& steps_valid(now)
                    &&& steps_legal(now)
                    &&& forall|k: int| di <= k < now.len() ==> #[trigger] now[k] == was[k]
                    &&& match found {
                        Some(p) => {
                            &&& legal_key(p@.first_key)
                            &&& w.good() && extends(w.img, self.file@) && w.ns == ns && at_cursor(
                                w,
                                was,
                                di as nat,
                                *old(b),
                                lo,
                                hi,
                            ) ==> {
                                &&& at_cursor(
                                    w,
                                    now,
                                    di as nat,
                                    *final(b),
                                    lo,
                                    moved(w, now, di as nat, hi),
                                )
                                &&& w.pos(now, di as nat) == w.pos(was, di as nat) + 1
                                &&& w.pos(now, di as nat) < w.at(di as nat).len()
                                &&& p@ == w.at(di as nat)[w.pos(now, di as nat)]
                                &&& forall|k: nat|
                                    k <= di ==> #[trigger] w.pos(now, k) >= w.pos(was, k)
                            }
                        },
                        None => now == was && at_end(was, di as int) && *final(b) == *old(b),
                    }
                },
                Err(e) => !(e is PublishUncertain) && !(w.good() && extends(w.img, self.file@)
                    && w.ns == ns && w.d <= old(b).walk@.max_depth && at_cursor(
                    w,
                    steps_view(old(steps)@),
                    di as nat,
                    *old(b),
                    lo,
                    hi,
                )),
            },
    {
        let ghost was = steps_view(steps@);
        let ghost d = di as nat;
        let ghost good = w.good() && extends(w.img, self.file@) && w.ns == ns && at_cursor(
            w,
            was,
            d,
            *b,
            lo,
            hi,
        );
        let mut j: usize = di - 1;
        let mut step: usize = 0;
        loop
            invariant
                j < di <= steps@.len(),
                steps_view(steps@) == was,
                steps@.len() == old(steps)@.len(),
                steps_valid(was),
                steps_legal(was),
                *b == *old(b),
                b.wf(),
                was == steps_view(old(steps)@),
                forall|k: int| j < k < di ==> (#[trigger] was[k]).1 + 1 == was[k].0.len(),
            ensures
                was[j as int].1 + 1 < was[j as int].0.len(),
                step == was[j as int].1 + 1,
            decreases j,
        {
            assert(was[j as int].1 < was[j as int].0.len());
            let count: usize = steps[j].node.children.len();
            if steps[j].idx + 1 < count {
                step = steps[j].idx + 1;
                break;
            }
            assert(was[j as int].1 + 1 == was[j as int].0.len());
            if j == 0 {
                proof {
                    assert(at_end(was, di as int));
                }
                return Ok(None);
            }
            j = j - 1;
        }
        assert(was[j as int].1 + 1 < was[j as int].0.len());
        steps[j].idx = step;
        let ghost mut sv = was.update(j as int, (was[j as int].0, was[j as int].1 + 1));
        let ghost mut hk = hi;
        let ghost b0 = *b;
        let mut k: usize = j + 1;
        proof {
            assert(steps_view(steps@) =~= sv);
            if good {
                lemma_path_prefix(w.img, w.ns, w.top, was, d, j as nat);
                lemma_path_prefix(w.img, w.ns, w.top, was, d, (j + 1) as nat);
                lemma_path_same(w.img, w.ns, w.top, was, sv, j as nat);
                assert(w.path(sv, (j + 1) as nat));
                assert(w.pos(sv, (j + 1) as nat) == w.pos(was, (j + 1) as nat) + 1);
                assert forall|m: nat| m <= j implies #[trigger] w.pos(sv, m) == w.pos(was, m) by {
                    lemma_path_same(w.img, w.ns, w.top, was, sv, m);
                }
            }
        }
        while k < di
            invariant
                d == di,
                j < k <= di <= steps@.len() <= 32,
                steps@.len() == old(steps)@.len(),
                was == steps_view(old(steps)@),
                sv == steps_view(steps@),
                steps_valid(sv),
                steps_legal(sv),
                sv.len() == was.len(),
                b.wf(),
                b0 == *old(b),
                same_but_reads(b0, *b),
                forall|m: int| di <= m < sv.len() ==> #[trigger] sv[m] == was[m],
                forall|m: int| k <= m < di ==> #[trigger] sv[m] == was[m],
                forall|m: int| j < m < di ==> (#[trigger] was[m]).1 + 1 == was[m].0.len(),
                good == (w.good() && extends(w.img, self.file@) && w.ns == ns && at_cursor(
                    w,
                    was,
                    d,
                    b0,
                    lo,
                    hi,
                )),
                good ==> {
                    &&& w.path(sv, k as nat)
                    &&& w.pos(sv, k as nat) == w.pos(was, k as nat) + 1
                    &&& forall|m: nat| m <= j ==> #[trigger] w.pos(sv, m) == w.pos(was, m)
                    &&& forall|m: nat|
                        j < m <= k ==> #[trigger] w.pos(sv, m) == w.pos(was, m) + 1
                    &&& hk.len() == w.d + 1
                    &&& forall|m: int|
                        0 <= m <= w.d ==> #[trigger] hk[m] == if m < k {
                            w.pos(sv, m as nat)
                        } else {
                            hi[m]
                        }
                    &&& tracks(w, *b, lo, hk)
                },
            decreases di - k,
        {
            let prev: usize = k - 1;
            let at: usize = steps[prev].idx;
            assert(sv[prev as int].1 < sv[prev as int].0.len());
            let slot: u64 = steps[prev].node.children[at].child_slot;
            let hash: [u8; 32] = steps[prev].node.children[at].child_hash;
            let ghost b1 = *b;
            let ghost kk = k as nat;
            let ghost q = w.pos(sv, kk);
            proof {
                if good {
                    lemma_path_point(w.img, w.ns, w.top, sv, kk);
                    assert(w.at(kk)[q].child_slot == slot);
                    assert(hk[k as int] == hi[k as int]);
                    assert(hi[k as int] == w.pos(was, kk));
                    if w.d <= b.walk@.max_depth {
                        lemma_read_allowed(w, self.file@, *b, lo, hk, kk, q);
                    }
                    lemma_place_live(w.img, w.ns, w.top, w.d, kk, q);
                    lemma_node_extends(w.img, self.file@, w.ns, slot);
                    assert(node_fits(w.img, w.ns, w.at(kk)[q], (w.d - kk) as nat));
                }
            }
            let node = match self.read_node(slot, hash, ns, k as u8, b) {
                Ok(n) => n,
                Err(e) => {
                    return Err(e);
                },
            };
            match node {
                IndexNode::Leaf(_) => {
                    assert(!good);
                    return Err(Error::Malformed("leaf found above the tree's leaf level"));
                },
                IndexNode::Internal(inner) => {
                    let ghost cs = inner@.children;
                    let ghost old_sv = sv;
                    steps.set(k, Step { node: inner, idx: 0 });
                    proof {
                        sv = steps_view(steps@);
                        assert(sv =~= old_sv.update(k as int, (cs, 0int)));
                        if good {
                            let h1 = hk.update(k as int, q);
                            assert(lo[k as int] <= hi[k as int]);
                            lemma_read_tracks(w, b1, *b, lo, hk, lo, h1, kk, q);
                            hk = h1;
                            assert forall|m: nat| m <= k implies #[trigger] w.pos(sv, m) == w.pos(
                                old_sv,
                                m,
                            ) by {
                                lemma_path_same(w.img, w.ns, w.top, old_sv, sv, m);
                            }
                            lemma_path_same(w.img, w.ns, w.top, old_sv, sv, kk);
                            assert(w.path(sv, (k + 1) as nat));
                            lemma_path_prefix(w.img, w.ns, w.top, was, d, (k + 1) as nat);
                            lemma_path_prefix(w.img, w.ns, w.top, was, d, kk);
                            lemma_path_point(w.img, w.ns, w.top, was, kk);
                            lemma_next_kid(w.img, w.ns, w.at(kk), w.pos(was, kk));
                            assert(was[k as int].1 + 1 == was[k as int].0.len());
                            assert(w.pos(sv, (k + 1) as nat) == w.pos(was, (k + 1) as nat) + 1);
                        }
                    }
                },
            }
            k = k + 1;
        }
        let last: usize = di - 1;
        let at: usize = steps[last].idx;
        assert(sv[last as int].1 < sv[last as int].0.len());
        assert(all_legal(sv[last as int].0));
        let p = steps[last].node.children[at].clone();
        proof {
            assert(p@ == sv[last as int].0[at as int]);
            if good {
                lemma_path_point(w.img, w.ns, w.top, sv, d);
                assert(moved(w, sv, d, hi) =~= hk);
                assert forall|m: nat| m <= di implies #[trigger] w.pos(sv, m) >= w.pos(was, m) by {
                    if m > j {
                        assert(w.pos(sv, m) == w.pos(was, m) + 1);
                    }
                }
                assert forall|m: int| 0 <= m < d implies #[trigger] hk[m] == w.pos(sv, m as nat)
                    && lo[m] <= hk[m] by {
                    assert(hi[m] == w.pos(was, m as nat) && lo[m] <= hi[m]);
                    assert(w.pos(sv, m as nat) >= w.pos(was, m as nat));
                }
                assert(at_cursor(w, sv, d, *b, lo, hk));
            }
        }
        Ok(Some(p))
    }
}

// ---------------------------------------------------------------------------
// The leaves
// ---------------------------------------------------------------------------

/// The last key of entries handed on, if any were.
pub open spec fn last_key(es: Seq<EntryView>) -> Option<Seq<u8>> {
    if es.len() == 0 {
        None
    } else {
        Some(es.last().0)
    }
}

/// Leaves are being filled: since the space was `s0` and the build `b0`, the
/// entries `pushed` have been handed on.
pub open spec fn leaf_phase(
    ns: Namespace,
    s0: Space,
    b0: Build,
    s: Space,
    b: Build,
    run: LeafRun,
    out: Seq<ChildView>,
    pushed: Seq<EntryView>,
) -> bool {
    &&& s.wf()
    &&& b.wf()
    &&& grounded(b, s.file@)
    &&& b.seq == b0.seq
    &&& laid(s0, s, b.seq)
    &&& run.ns == ns
    &&& run.wf()
    &&& run.came_last(b)
    &&& level_ok(s.file@, ns, out, 0)
    &&& all_legal(out)
    &&& appended(s0.file@, b0, b, Seq::<ChildView>::empty(), out)
    &&& (leaf_groups(s.file@, ns, out), run.es()) == leaf_feed(no_leaves(), pushed)
    &&& b.prev(0) == last_key(pushed)
    &&& keys_sorted(pushed)
    &&& forall|l: int| l != 0 ==> #[trigger] b.prev(l) == b0.prev(l)
}

/// Whatever entries come after `left`, handing on the operations `o` among
/// those gives, after `done`, what handing on `o0` among `le` gives after
/// `p0`.
pub open spec fn handed(
    done: Seq<EntryView>,
    left: Seq<EntryView>,
    o: Seq<OpView>,
    p0: Seq<EntryView>,
    le: Seq<EntryView>,
    o0: Seq<OpView>,
) -> bool {
    forall|r: Seq<EntryView>|
        done + merged(left + r, o) == p0 + #[trigger] merged(le + r, o0)
}

/// An operation before the next entry has been handed on.
proof fn lemma_handed_op(
    done: Seq<EntryView>,
    left: Seq<EntryView>,
    o: Seq<OpView>,
    p0: Seq<EntryView>,
    le: Seq<EntryView>,
    o0: Seq<OpView>,
)
    requires
        handed(done, left, o, p0, le, o0),
        left.len() > 0,
        o.len() > 0,
        lex_lt(o[0].0, left[0].0),
    ensures
        handed(done + put_of(o[0]), left, o.drop_first(), p0, le, o0),
{
    assert forall|r: Seq<EntryView>| done + put_of(o[0]) + merged(left + r, o.drop_first()) == p0
        + #[trigger] merged(le + r, o0) by {
        let x = left + r;
        assert(x[0] == left[0]);
        let t = merged(x, o.drop_first());
        assert(merged(x, o) == put_of(o[0]) + t);
        assert(done + put_of(o[0]) + t =~= done + (put_of(o[0]) + t));
    }
}

/// An operation on the next entry has been handed on.
proof fn lemma_handed_meet(
    done: Seq<EntryView>,
    left: Seq<EntryView>,
    o: Seq<OpView>,
    p0: Seq<EntryView>,
    le: Seq<EntryView>,
    o0: Seq<OpView>,
)
    requires
        handed(done, left, o, p0, le, o0),
        left.len() > 0,
        o.len() > 0,
        o[0].0 == left[0].0,
    ensures
        handed(done + put_of(o[0]), left.drop_first(), o.drop_first(), p0, le, o0),
{
    lemma_lex_total(o[0].0, left[0].0);
    assert forall|r: Seq<EntryView>| done + put_of(o[0]) + merged(
        left.drop_first() + r,
        o.drop_first(),
    ) == p0 + #[trigger] merged(le + r, o0) by {
        let x = left + r;
        assert(x[0] == left[0]);
        assert(x.drop_first() =~= left.drop_first() + r);
        let t = merged(x.drop_first(), o.drop_first());
        assert(merged(x, o) == put_of(o[0]) + t);
        assert(done + put_of(o[0]) + t =~= done + (put_of(o[0]) + t));
    }
}

/// The next entry has been handed on as it is.
proof fn lemma_handed_entry(
    done: Seq<EntryView>,
    left: Seq<EntryView>,
    o: Seq<OpView>,
    p0: Seq<EntryView>,
    le: Seq<EntryView>,
    o0: Seq<OpView>,
)
    requires
        handed(done, left, o, p0, le, o0),
        left.len() > 0,
        o.len() > 0 ==> !lex_lt(o[0].0, left[0].0) && o[0].0 != left[0].0,
    ensures
        handed(done.push(left[0]), left.drop_first(), o, p0, le, o0),
{
    assert forall|r: Seq<EntryView>| done.push(left[0]) + merged(left.drop_first() + r, o) == p0
        + #[trigger] merged(le + r, o0) by {
        let x = left + r;
        assert(x[0] == left[0]);
        assert(x.drop_first() =~= left.drop_first() + r);
        let t = merged(x.drop_first(), o);
        if o.len() > 0 {
            assert(merged(x, o) == seq![x[0]] + t);
        } else {
            assert(x =~= seq![x[0]] + t);
        }
        assert(done.push(left[0]) + t =~= done + (seq![left[0]] + t));
    }
}

/// One leaf after others.
proof fn lemma_handed_join(
    done: Seq<EntryView>,
    o: Seq<OpView>,
    mid: Seq<EntryView>,
    om: Seq<OpView>,
    es: Seq<EntryView>,
    le: Seq<EntryView>,
    ov: Seq<OpView>,
)
    requires
        handed(mid, Seq::empty(), om, Seq::empty(), es, ov),
        handed(done, Seq::empty(), o, mid, le, om),
    ensures
        handed(done, Seq::empty(), o, Seq::empty(), es + le, ov),
{
    let none = Seq::<EntryView>::empty();
    assert forall|r: Seq<EntryView>| done + merged(none + r, o) == none + #[trigger] merged(
        es + le + r,
        ov,
    ) by {
        let q = le + r;
        assert(done + merged(none + r, o) == mid + merged(le + r, om));
        assert(none + q =~= q);
        assert(mid + merged(none + q, om) == none + merged(es + q, ov));
        assert(es + le + r =~= es + q);
    }
}

/// The operations are all among the entries of the leaves from `i` to `k`, and
/// these, with the operations, end where a leaf is cut.
pub open spec fn realigned(
    img: Image,
    ns: Namespace,
    was: Seq<ChildView>,
    ops: Seq<OpView>,
    i: int,
    k: int,
) -> bool {
    let es = flat(leaves(img, ns), was.subrange(i, k));
    &&& forall|x: int| 0 <= x < ops.len() ==> !lex_lt(es.last().0, (#[trigger] ops[x]).0)
    &&& leaf_feed(no_leaves(), merged(es, ops)).1.len() == 0
}

/// The leaves `now` are the leaves `was` with those from `i` to `j` replaced.
/// The first of these is the last that starts before the first operation, or
/// the first of all. They end no later than where all operations are done and
/// a leaf ends where an old one did.
pub open spec fn relaid(
    img: Image,
    ns: Namespace,
    was: Seq<ChildView>,
    now: Seq<ChildView>,
    ops: Seq<OpView>,
    i: int,
    j: int,
) -> bool {
    let tail = was.len() - j;
    &&& 0 <= i < j <= was.len()
    &&& i > 0 ==> lex_lt(was[i].first_key, ops[0].0)
    &&& i + 1 < was.len() ==> !lex_lt(was[i + 1].first_key, ops[0].0)
    &&& i + tail <= now.len()
    &&& now.take(i) == was.take(i)
    &&& now.skip(now.len() - tail) == was.skip(j)
    &&& forall|k: int| i < k < j ==> !#[trigger] realigned(img, ns, was, ops, i, k)
}

/// An update that rewrites no leaf but those that the operations reach: all
/// others are pointed at as they were.
pub open spec fn relaid_somewhere(
    img: Image,
    ns: Namespace,
    was: Seq<ChildView>,
    now: Seq<ChildView>,
    ops: Seq<OpView>,
) -> bool {
    exists|i: int, j: int| #[trigger] relaid(img, ns, was, now, ops, i, j)
}

/// In a sorted sequence the next entry comes after the last.
proof fn lemma_next_follows(head: Seq<EntryView>, e: EntryView, tail: Seq<EntryView>)
    requires
        keys_sorted(head + (seq![e] + tail)),
    ensures
        last_key(head) matches Some(k) ==> lex_lt(k, e.0),
{
    let all = head + (seq![e] + tail);
    if head.len() > 0 {
        assert(all[head.len() - 1] == head.last());
        assert(all[head.len() as int] == e);
        assert(lex_lt(all[head.len() - 1].0, all[head.len() as int].0));
    }
}

impl Space {
    /// Hands an entry on to the leaves.
    fn hand_on(
        &mut self,
        run: &mut LeafRun,
        key: Vec<u8>,
        value: Vec<u8>,
        b: &mut Build,
        out: &mut Vec<ChildPointer>,
        Ghost(ns): Ghost<Namespace>,
        Ghost(s0): Ghost<Space>,
        Ghost(b0): Ghost<Build>,
        Ghost(pushed): Ghost<Seq<EntryView>>,
    ) -> (r: Result<(), Error>)
        requires
            leaf_phase(
                ns,
                s0,
                b0,
                *old(self),
                *old(b),
                *old(run),
                children_view(old(out)@),
                pushed,
            ),
            leaf_entry_fault((key@, value@)) is None,
        ensures
            final(self).wf(),
            final(b).wf(),
            laid(s0, *final(self), old(b).seq),
            same_but_level(*old(b), *final(b), 0),
            match r {
                Ok(()) => leaf_phase(
                    ns,
                    s0,
                    b0,
                    *final(self),
                    *final(b),
                    *final(run),
                    children_view(final(out)@),
                    pushed.push((key@, value@)),
                ),
                Err(e) => failed(s0, *final(self), e, (last_key(pushed) matches Some(k) ==> lex_lt(k, key@))),
            },
    {
        let ghost s1 = *self;
        let ghost b1 = *b;
        let ghost out1 = children_view(out@);
        let ghost e = (key@, value@);
        proof {
            if steady(s0) {
                lemma_steady_grown(s0, s1);
            }
        }
        let r = self.leaf_push(run, key, value, b, out);
        proof {
            lemma_laid_trans(s0, s1, *self);
            if r is Ok {
                lemma_appended_trans(
                    s0.file@,
                    s1.file@,
                    b0,
                    b1,
                    *b,
                    Seq::<ChildView>::empty(),
                    out1,
                    children_view(out@),
                );
                lemma_leaf_feed_push(no_leaves(), pushed, e);
                assert(pushed + seq![e] =~= pushed.push(e));
                lemma_sorted_join(pushed, seq![e]);
            }
        }
        r
    }

    /// Hands on the entries of one leaf with the operations that fall among
    /// them, from the operation `from` on. Gives the first operation that is
    /// left, and all that has been handed on.
    #[verifier::spinoff_prover]
    fn merge_leaf(
        &mut self,
        entries: &Vec<(Vec<u8>, Vec<u8>)>,
        ops: &KeyOps,
        from: usize,
        run: &mut LeafRun,
        b: &mut Build,
        out: &mut Vec<ChildPointer>,
        Ghost(ns): Ghost<Namespace>,
        Ghost(s0): Ghost<Space>,
        Ghost(b0): Ghost<Build>,
        Ghost(pushed): Ghost<Seq<EntryView>>,
        Ghost(rest): Ghost<Seq<EntryView>>,
    ) -> (r: Result<(usize, Ghost<Seq<EntryView>>), Error>)
        requires
            leaf_phase(
                ns,
                s0,
                b0,
                *old(self),
                *old(b),
                *old(run),
                children_view(old(out)@),
                pushed,
            ),
            entries_legal(entries_view(entries@)),
            ops.wf(),
            from <= ops@.len(),
        ensures
            final(self).wf(),
            final(b).wf(),
            laid(s0, *final(self), old(b).seq),
            same_but_level(*old(b), *final(b), 0),
            match r {
                Ok(t) => {
                    &&& from <= t.0 <= ops@.len()
                    &&& leaf_phase(
                        ns,
                        s0,
                        b0,
                        *final(self),
                        *final(b),
                        *final(run),
                        children_view(final(out)@),
                        t.1@,
                    )
                    &&& t.1@ + merged(rest, ops@.skip(t.0 as int)) == pushed + merged(
                        entries_view(entries@) + rest,
                        ops@.skip(from as int),
                    )
                    &&& handed(
                        t.1@,
                        Seq::empty(),
                        ops@.skip(t.0 as int),
                        pushed,
                        entries_view(entries@),
                        ops@.skip(from as int),
                    )
                    &&& t.0 < ops@.len() && entries@.len() > 0 ==> lex_lt(
                        entries_view(entries@).last().0,
                        ops@[t.0 as int].0,
                    )
                },
                Err(e) => failed(s0, *final(self), e, keys_sorted(
                    pushed + merged(entries_view(entries@) + rest, ops@.skip(from as int)),
                )),
            },
    {
        let ghost le = entries_view(entries@);
        let ghost ov = ops@;
        let ghost goal = pushed + merged(le + rest, ov.skip(from as int));
        let ghost mut now = pushed;
        let mut i: usize = 0;
        let mut pi: usize = from;
        proof {
            assert(le.skip(0) =~= le);
            assert(handed(now, le, ov.skip(from as int), pushed, le, ov.skip(from as int)));
        }
        while i < entries.len()
            invariant
                i <= entries@.len(),
                le == entries_view(entries@),
                ov == ops@,
                ops.wf(),
                entries_legal(le),
                from <= pi <= ov.len(),
                goal == pushed + merged(le + rest, ov.skip(from as int)),
                leaf_phase(ns, s0, b0, *self, *b, *run, children_view(out@), now),
                same_but_level(*old(b), *b, 0),
                now + merged(le.skip(i as int) + rest, ov.skip(pi as int)) == goal,
                handed(
                    now,
                    le.skip(i as int),
                    ov.skip(pi as int),
                    pushed,
                    le,
                    ov.skip(from as int),
                ),
                i > 0 && pi < ov.len() ==> lex_lt(le[i - 1].0, ov[pi as int].0),
            decreases entries@.len() - i,
        {
            let ghost x = le.skip(i as int) + rest;
            proof {
                assert(x[0] == le[i as int]);
                assert(x.drop_first() =~= le.skip(i + 1) + rest);
                assert(leaf_entry_fault(le[i as int]) is None);
            }
            while pi < ops.ops.len() && bytes_lt(
                ops.ops[pi].0.as_slice(),
                entries[i].0.as_slice(),
            )
                invariant
                    i < entries@.len(),
                    le == entries_view(entries@),
                    ov == ops@,
                    ops.wf(),
                    from <= pi <= ov.len(),
                    goal == pushed + merged(le + rest, ov.skip(from as int)),
                    leaf_phase(ns, s0, b0, *self, *b, *run, children_view(out@), now),
                    same_but_level(*old(b), *b, 0),
                    x == le.skip(i as int) + rest,
                    x.len() > 0,
                    x[0] == le[i as int],
                    now + merged(x, ov.skip(pi as int)) == goal,
                    handed(
                        now,
                        le.skip(i as int),
                        ov.skip(pi as int),
                        pushed,
                        le,
                        ov.skip(from as int),
                    ),
                decreases ov.len() - pi,
            {
                let ghost o = ov.skip(pi as int);
                let ghost had = now;
                proof {
                    assert(o[0] == ov[pi as int]);
                    assert(o.drop_first() =~= ov.skip(pi + 1));
                    assert(op_legal(ov[pi as int]));
                    assert(ov[pi as int] == op_view(ops.ops@[pi as int]));
                    assert(merged(x, o) == put_of(o[0]) + merged(x, ov.skip(pi + 1)));
                }
                if let Some(v) = &ops.ops[pi].1 {
                    let key = copy_of(ops.ops[pi].0.as_slice());
                    let value = copy_of(v.as_slice());
                    let ghost e = (key@, value@);
                    proof {
                        assert(put_of(o[0]) =~= seq![e]);
                        if keys_sorted(goal) {
                            lemma_next_follows(now, e, merged(x, ov.skip(pi + 1)));
                        }
                    }
                    match self.hand_on(
                        run,
                        key,
                        value,
                        b,
                        out,
                        Ghost(ns),
                        Ghost(s0),
                        Ghost(b0),
                        Ghost(now),
                    ) {
                        Ok(()) => {},
                        Err(err) => {
                            return Err(err);
                        },
                    }
                    proof {
                        let tail = merged(x, ov.skip(pi + 1));
                        assert(now.push(e) + tail =~= now + (seq![e] + tail));
                        now = now.push(e);
                    }
                } else {
                    proof {
                        let tail = merged(x, ov.skip(pi + 1));
                        assert(put_of(o[0]) + tail =~= tail);
                    }
                }
                proof {
                    lemma_handed_op(had, le.skip(i as int), o, pushed, le, ov.skip(from as int));
                    assert(had + put_of(o[0]) =~= now);
                }
                pi = pi + 1;
            }
            let ghost o = ov.skip(pi as int);
            let ghost had = now;
            let ghost left = le.skip(i as int);
            assert(left.drop_first() =~= le.skip(i + 1));
            let meets: bool = pi < ops.ops.len() && bytes_eq(
                ops.ops[pi].0.as_slice(),
                entries[i].0.as_slice(),
            );
            proof {
                if pi < ov.len() {
                    assert(o[0] == ov[pi as int]);
                    assert(o.drop_first() =~= ov.skip(pi + 1));
                    assert(op_legal(ov[pi as int]));
                    assert(ov[pi as int] == op_view(ops.ops@[pi as int]));
                }
            }
            if meets {
                proof {
                    lemma_lex_total(o[0].0, x[0].0);
                    assert(merged(x, o) == put_of(o[0]) + merged(
                        le.skip(i + 1) + rest,
                        ov.skip(pi + 1),
                    ));
                }
                if let Some(v) = &ops.ops[pi].1 {
                    let key = copy_of(entries[i].0.as_slice());
                    let value = copy_of(v.as_slice());
                    let ghost e = (key@, value@);
                    proof {
                        assert(put_of(o[0]) =~= seq![e]);
                        if keys_sorted(goal) {
                            lemma_next_follows(
                                now,
                                e,
                                merged(le.skip(i + 1) + rest, ov.skip(pi + 1)),
                            );
                        }
                    }
                    match self.hand_on(
                        run,
                        key,
                        value,
                        b,
                        out,
                        Ghost(ns),
                        Ghost(s0),
                        Ghost(b0),
                        Ghost(now),
                    ) {
                        Ok(()) => {},
                        Err(err) => {
                            return Err(err);
                        },
                    }
                    proof {
                        let tail = merged(le.skip(i + 1) + rest, ov.skip(pi + 1));
                        assert(now.push(e) + tail =~= now + (seq![e] + tail));
                        now = now.push(e);
                    }
                } else {
                    proof {
                        let tail = merged(le.skip(i + 1) + rest, ov.skip(pi + 1));
                        assert(put_of(o[0]) + tail =~= tail);
                    }
                }
                proof {
                    lemma_handed_meet(had, left, o, pushed, le, ov.skip(from as int));
                    assert(had + put_of(o[0]) =~= now);
                    if pi + 1 < ov.len() {
                        assert(lex_lt(ov[pi as int].0, ov[pi + 1].0));
                    }
                }
                pi = pi + 1;
            } else {
                let key = copy_of(entries[i].0.as_slice());
                let value = copy_of(entries[i].1.as_slice());
                let ghost e = (key@, value@);
                let ghost tail = merged(le.skip(i + 1) + rest, o);
                proof {
                    assert(e == le[i as int]);
                    if pi < ov.len() {
                        assert(!lex_lt(o[0].0, x[0].0));
                        assert(o[0].0 != x[0].0);
                        assert(merged(x, o) == seq![e] + tail);
                    } else {
                        assert(o.len() == 0);
                        assert(merged(x, o) == x);
                        assert(x =~= seq![e] + tail);
                    }
                    if keys_sorted(goal) {
                        lemma_next_follows(now, e, tail);
                    }
                }
                match self.hand_on(
                    run,
                    key,
                    value,
                    b,
                    out,
                    Ghost(ns),
                    Ghost(s0),
                    Ghost(b0),
                    Ghost(now),
                ) {
                    Ok(()) => {},
                    Err(err) => {
                        return Err(err);
                    },
                }
                proof {
                    assert(now.push(e) + tail =~= now + (seq![e] + tail));
                    now = now.push(e);
                    lemma_handed_entry(had, left, o, pushed, le, ov.skip(from as int));
                    if pi < ov.len() {
                        lemma_lex_total(o[0].0, x[0].0);
                    }
                }
            }
            i = i + 1;
        }
        proof {
            assert(le.skip(i as int) + rest =~= rest);
            assert(le.skip(i as int) =~= Seq::<EntryView>::empty());
        }
        Ok((pi, Ghost(now)))
    }

    /// Hands on what the operations from `from` on leave, after the last
    /// entry.
    fn merge_tail(
        &mut self,
        ops: &KeyOps,
        from: usize,
        run: &mut LeafRun,
        b: &mut Build,
        out: &mut Vec<ChildPointer>,
        Ghost(ns): Ghost<Namespace>,
        Ghost(s0): Ghost<Space>,
        Ghost(b0): Ghost<Build>,
        Ghost(pushed): Ghost<Seq<EntryView>>,
    ) -> (r: Result<(), Error>)
        requires
            leaf_phase(
                ns,
                s0,
                b0,
                *old(self),
                *old(b),
                *old(run),
                children_view(old(out)@),
                pushed,
            ),
            ops.wf(),
            from <= ops@.len(),
        ensures
            final(self).wf(),
            final(b).wf(),
            laid(s0, *final(self), old(b).seq),
            same_but_level(*old(b), *final(b), 0),
            match r {
                Ok(()) => leaf_phase(
                    ns,
                    s0,
                    b0,
                    *final(self),
                    *final(b),
                    *final(run),
                    children_view(final(out)@),
                    pushed + merged(Seq::<EntryView>::empty(), ops@.skip(from as int)),
                ),
                Err(e) => failed(s0, *final(self), e, keys_sorted(
                    pushed + merged(Seq::<EntryView>::empty(), ops@.skip(from as int)),
                )),
            },
    {
        let ghost ov = ops@;
        let ghost none = Seq::<EntryView>::empty();
        let ghost goal = pushed + merged(none, ov.skip(from as int));
        let ghost mut now = pushed;
        let mut pi: usize = from;
        while pi < ops.ops.len()
            invariant
                ov == ops@,
                none == Seq::<EntryView>::empty(),
                ops.wf(),
                from <= pi <= ov.len(),
                goal == pushed + merged(none, ov.skip(from as int)),
                leaf_phase(ns, s0, b0, *self, *b, *run, children_view(out@), now),
                same_but_level(*old(b), *b, 0),
                now + merged(none, ov.skip(pi as int)) == goal,
            decreases ov.len() - pi,
        {
            let ghost o = ov.skip(pi as int);
            let ghost tail = merged(none, ov.skip(pi + 1));
            proof {
                assert(o[0] == ov[pi as int]);
                assert(o.drop_first() =~= ov.skip(pi + 1));
                assert(op_legal(ov[pi as int]));
                assert(ov[pi as int] == op_view(ops.ops@[pi as int]));
                assert(merged(none, o) == put_of(o[0]) + tail);
            }
            if let Some(v) = &ops.ops[pi].1 {
                let key = copy_of(ops.ops[pi].0.as_slice());
                let value = copy_of(v.as_slice());
                let ghost e = (key@, value@);
                proof {
                    assert(put_of(o[0]) =~= seq![e]);
                    if keys_sorted(goal) {
                        lemma_next_follows(now, e, tail);
                    }
                }
                match self.hand_on(
                    run,
                    key,
                    value,
                    b,
                    out,
                    Ghost(ns),
                    Ghost(s0),
                    Ghost(b0),
                    Ghost(now),
                ) {
                    Ok(()) => {},
                    Err(err) => {
                        return Err(err);
                    },
                }
                proof {
                    assert(now.push(e) + tail =~= now + (seq![e] + tail));
                    now = now.push(e);
                }
            } else {
                proof {
                    assert(put_of(o[0]) + tail =~= tail);
                }
            }
            pi = pi + 1;
        }
        proof {
            assert(ov.skip(pi as int).len() == 0);
            assert(now + none =~= now);
        }
        Ok(())
    }
}

/// The entries of the leaves from position `i` on.
pub open spec fn leaves_from(w: Was, i: int) -> Seq<EntryView> {
    flat(leaves(w.img, w.ns), w.at(w.d).skip(i))
}

/// The entries of the leaves from position `i` to position `k`.
pub open spec fn leaves_between(w: Was, i: int, k: int) -> Seq<EntryView> {
    flat(leaves(w.img, w.ns), w.at(w.d).subrange(i, k))
}

/// One leaf more.
proof fn lemma_leaves_between(w: Was, start: Seq<StepView>, now: Seq<StepView>)
    requires
        w.good(),
        w.path(start, w.d),
        w.path(now, w.d),
        w.pos(start, w.d) <= w.pos(now, w.d),
    ensures
        ({
            let a = w.pos(start, w.d);
            let c = w.pos(now, w.d);
            let le = leaves(w.img, w.ns)(w.at(w.d)[c]);
            &&& 0 <= a <= c < w.at(w.d).len()
            &&& le.len() > 0
            &&& leaves_between(w, a, c + 1) == leaves_between(w, a, c) + le
            &&& leaves_between(w, a, c + 1).last() == le.last()
        }),
{
    let a = w.pos(start, w.d);
    let c = w.pos(now, w.d);
    let all = w.at(w.d);
    let f = leaves(w.img, w.ns);
    lemma_path_point(w.img, w.ns, w.top, start, w.d);
    lemma_path_point(w.img, w.ns, w.top, now, w.d);
    lemma_place_live(w.img, w.ns, w.top, w.d, w.d, c);
    lemma_node_nonempty(w.img, w.ns, all[c], 0);
    assert(node_fits(w.img, w.ns, all[c], 0));
    let part = all.subrange(a, c + 1);
    assert(part =~= all.subrange(a, c) + seq![all[c]]);
    lemma_flat_append(f, all.subrange(a, c), seq![all[c]]);
    lemma_flat_split(f, seq![all[c]], 0);
    assert(seq![all[c]].take(0) =~= Seq::<ChildView>::empty());
    assert(seq![all[c]].skip(1) =~= Seq::<ChildView>::empty());
    assert(flat(f, seq![all[c]]) =~= f(all[c]));
}

/// Where operations are left, or a leaf is open, nothing is realigned.
proof fn lemma_not_realigned(
    w: Was,
    ov: Seq<OpView>,
    a: int,
    c: int,
    pushed: Seq<EntryView>,
    pi: int,
)
    requires
        0 <= pi <= ov.len(),
        handed(
            pushed,
            Seq::empty(),
            ov.skip(pi),
            Seq::empty(),
            leaves_between(w, a, c + 1),
            ov,
        ),
        pi < ov.len() ==> lex_lt(leaves_between(w, a, c + 1).last().0, ov[pi].0),
        leaf_feed(no_leaves(), pushed).1.len() > 0 || pi < ov.len(),
    ensures
        !realigned(w.img, w.ns, w.at(w.d), ov, a, c + 1),
{
    let es = leaves_between(w, a, c + 1);
    let none = Seq::<EntryView>::empty();
    if pi == ov.len() {
        assert(ov.skip(pi).len() == 0);
        assert(pushed + merged(none + none, ov.skip(pi)) == none + merged(es + none, ov));
        assert(es + none =~= es);
        assert(pushed + (none + none) =~= pushed);
        assert(none + merged(es, ov) =~= merged(es, ov));
    }
}

/// Reading nodes does not disturb the leaves that are being filled.
proof fn lemma_leaf_phase_reads(
    ns: Namespace,
    s0: Space,
    b0: Build,
    s: Space,
    b: Build,
    b1: Build,
    run: LeafRun,
    out: Seq<ChildView>,
    pushed: Seq<EntryView>,
)
    requires
        leaf_phase(ns, s0, b0, s, b, run, out, pushed),
        same_but_reads(b, b1),
        b1.wf(),
    ensures
        leaf_phase(ns, s0, b0, s, b1, run, out, pushed),
{
    lemma_appended_reads(s0.file@, b0, b, b1, Seq::<ChildView>::empty(), out);
    assert forall|l: int| l != 0 implies #[trigger] b1.prev(l) == b0.prev(l) by {
        assert(b.prev(l) == b0.prev(l));
    }
}

/// Reading nodes does not disturb what has been pointed at.
proof fn lemma_appended_reads(
    img: Image,
    b0: Build,
    b: Build,
    b1: Build,
    was: Seq<ChildView>,
    out: Seq<ChildView>,
)
    requires
        appended(img, b0, b, was, out),
        b1.emitted == b.emitted,
        forall|s: u64| #[trigger] b.reusable(s) ==> b1.reusable(s),
    ensures
        appended(img, b0, b1, was, out),
{
    assert forall|s: u64| #[trigger] b1.emitted@.contains(s) implies b0.emitted@.contains(s)
        || new_slot(img, b0, b1, s) by {
        assert(b.emitted@.contains(s));
    }
    assert forall|i: int| was.len() <= i < out.len() implies new_slot(
        img,
        b0,
        b1,
        (#[trigger] out[i]).child_slot,
    ) by {
        assert(new_slot(img, b0, b, out[i].child_slot));
    }
}

/// The cursor has reached a leaf, whose position is the last read at every
/// depth.
pub open spec fn at_leaf(
    w: Was,
    start: Seq<StepView>,
    now: Seq<StepView>,
    b: Build,
) -> bool {
    &&& w.path(start, w.d)
    &&& w.path(now, w.d)
    &&& forall|k: nat| k <= w.d ==> #[trigger] w.pos(start, k) <= w.pos(now, k)
    &&& tracks(w, b, w.places(start), w.places(now))
}

/// The leaves have been written: the entries `pushed` make up the nodes that
/// `out` leads to.
pub open spec fn leaves_done(
    ns: Namespace,
    s0: Space,
    b0: Build,
    s: Space,
    b: Build,
    out: Seq<ChildView>,
    pushed: Seq<EntryView>,
) -> bool {
    &&& s.wf()
    &&& b.wf()
    &&& grounded(b, s.file@)
    &&& b.seq == b0.seq
    &&& laid(s0, s, b.seq)
    &&& level_ok(s.file@, ns, out, 0)
    &&& all_legal(out)
    &&& appended(s0.file@, b0, b, Seq::<ChildView>::empty(), out)
    &&& flat(leaves(s.file@, ns), out) == pushed
    &&& leaf_groups(s.file@, ns, out) == leaf_close(leaf_feed(no_leaves(), pushed))
    &&& keys_sorted(pushed)
    &&& forall|l: int| l != 0 ==> #[trigger] b.prev(l) == b0.prev(l)
}

/// What has been handed on is what the closed leaves hold, once none is open.
proof fn lemma_leaves_done(
    ns: Namespace,
    s0: Space,
    b0: Build,
    s: Space,
    b: Build,
    run: LeafRun,
    out: Seq<ChildView>,
    pushed: Seq<EntryView>,
)
    requires
        leaf_phase(ns, s0, b0, s, b, run, out, pushed),
        run.es().len() == 0,
    ensures
        leaves_done(ns, s0, b0, s, b, out, pushed),
{
    lemma_leaf_groups_joined(s.file@, ns, out);
    lemma_leaf_feed_joined(no_leaves(), pushed);
    assert(joined(no_leaves().0) =~= Seq::<EntryView>::empty());
    assert(joined(no_leaves().0) + no_leaves().1 + pushed =~= pushed);
    let groups = leaf_groups(s.file@, ns, out);
    assert(joined(groups) + run.es() =~= joined(groups));
}

impl Space {
    /// Rewrites the leaves from the cursor on, until all operations are done
    /// and a leaf ends where an old one did, or until the last. True if the
    /// last has been rewritten.
    #[verifier::spinoff_prover]
    #[verifier::rlimit(60)]
    fn rewrite_leaves(
        &mut self,
        ns: Namespace,
        first: LeafNode,
        cur: &mut Vec<Step>,
        ops: &KeyOps,
        b: &mut Build,
        out: &mut Vec<ChildPointer>,
        Ghost(w): Ghost<Was>,
    ) -> (r: Result<(bool, Ghost<Seq<EntryView>>), Error>)
        requires
            old(self).wf(),
            old(b).wf(),
            grounded(*old(b), old(self).file@),
            old(b).prev(0) is None,
            old(out)@.len() == 0,
            old(cur)@.len() <= 32,
            steps_valid(steps_view(old(cur)@)),
            steps_legal(steps_view(old(cur)@)),
            ops.wf(),
            entries_legal(first@.entries),
        ensures
            final(self).wf(),
            final(b).wf(),
            laid(*old(self), *final(self), old(b).seq),
            final(cur)@.len() == old(cur)@.len(),
            final(b).walk@.max_depth == old(b).walk@.max_depth,
            match r {
                Ok(t) => {
                    let start = steps_view(old(cur)@);
                    let now = steps_view(final(cur)@);
                    &&& steps_valid(now)
                    &&& steps_legal(now)
                    &&& leaves_done(
                        ns,
                        *old(self),
                        *old(b),
                        *final(self),
                        *final(b),
                        children_view(final(out)@),
                        t.1@,
                    )
                    &&& w.good() && w.img == old(self).file@ && w.ns == ns && start.len() == w.d
                        && at_leaf(w, start, start, *old(b)) && first@.entries == leaves(
                        w.img,
                        w.ns,
                    )(w.at(w.d)[w.pos(start, w.d)]) ==> {
                        &&& at_leaf(w, start, now, *final(b))
                        &&& t.0 ==> at_end(now, w.d as int)
                        &&& !t.0 ==> leaf_feed(no_leaves(), t.1@).1.len() == 0
                        &&& t.1@ + leaves_from(w, w.pos(now, w.d) + 1) == merged(
                            leaves_from(w, w.pos(start, w.d)),
                            ops@,
                        )
                        &&& forall|k: int|
                            w.pos(start, w.d) < k <= w.pos(now, w.d) ==> !#[trigger] realigned(
                                w.img,
                                w.ns,
                                w.at(w.d),
                                ops@,
                                w.pos(start, w.d),
                                k,
                            )
                    }
                },
                Err(e) => {
                    let start = steps_view(old(cur)@);
                    failed(
                        *old(self),
                        *final(self),
                        e,
                        w.good() && w.img == old(self).file@ && w.ns == ns && start.len() == w.d
                            && at_leaf(w, start, start, *old(b)) && first@.entries == leaves(
                            w.img,
                            w.ns,
                        )(w.at(w.d)[w.pos(start, w.d)]) && w.d <= old(b).walk@.max_depth,
                    )
                },
            },
    {
        let depth: usize = cur.len();
        let ghost s0 = *self;
        let ghost b0 = *b;
        let ghost start = steps_view(cur@);
        let ghost fine = w.good() && w.img == s0.file@ && w.ns == ns && start.len() == w.d
            && at_leaf(w, start, start, b0) && first@.entries == leaves(w.img, w.ns)(
            w.at(w.d)[w.pos(start, w.d)],
        );
        let ghost lucky = fine && w.d <= b0.walk@.max_depth;
        let ghost ov = ops@;
        let ghost goal = merged(leaves_from(w, w.pos(start, w.d)), ov);
        let ghost mut pushed = Seq::<EntryView>::empty();
        let mut run = LeafRun::new(ns);
        let mut pi: usize = 0;
        let mut node: LeafNode = first;
        let mut past: bool = false;
        proof {
            lemma_laid_refl(s0);
            lemma_extends_refl(s0.file@);
            assert(children_view(out@) =~= Seq::<ChildView>::empty());
            lemma_appended_none(s0.file@, b0, b0, Seq::<ChildView>::empty());
            assert(leaf_groups(s0.file@, ns, children_view(out@)) =~= Seq::<
                Seq<EntryView>,
            >::empty());
            assert(leaf_phase(ns, s0, b0, *self, *b, run, children_view(out@), pushed));
            assert(ov.skip(0) =~= ov);
            if fine {
                let a = w.pos(start, w.d);
                lemma_path_point(w.img, w.ns, w.top, start, w.d);
                lemma_flat_split(leaves(w.img, w.ns), w.at(w.d), a);
                assert(pushed + goal =~= goal);
                lemma_goal_sorted(w, a, ov);
                assert(leaves_between(w, a, a) =~= Seq::<EntryView>::empty()) by {
                    assert(w.at(w.d).subrange(a, a) =~= Seq::<ChildView>::empty());
                }
                assert(handed(
                    pushed,
                    Seq::empty(),
                    ov.skip(0),
                    Seq::empty(),
                    leaves_between(w, a, a),
                    ov,
                ));
            }
        }
        loop
            invariant_except_break
                !past,
                fine ==> node@.entries == leaves(w.img, w.ns)(
                    w.at(w.d)[w.pos(steps_view(cur@), w.d)],
                ),
                fine ==> pushed + merged(
                    node@.entries + leaves_from(w, w.pos(steps_view(cur@), w.d) + 1),
                    ov.skip(pi as int),
                ) == goal,
                fine ==> handed(
                    pushed,
                    Seq::empty(),
                    ov.skip(pi as int),
                    Seq::empty(),
                    leaves_between(w, w.pos(start, w.d), w.pos(steps_view(cur@), w.d)),
                    ov,
                ),
            invariant
                depth == cur@.len(),
                depth == old(cur)@.len(),
                depth <= 32,
                s0 == *old(self),
                b0 == *old(b),
                start == steps_view(old(cur)@),
                fine == (w.good() && w.img == s0.file@ && w.ns == ns && start.len() == w.d
                    && at_leaf(w, start, start, b0) && first@.entries == leaves(w.img, w.ns)(
                    w.at(w.d)[w.pos(start, w.d)],
                )),
                lucky == (fine && w.d <= b0.walk@.max_depth),
                ov == ops@,
                goal == merged(leaves_from(w, w.pos(start, w.d)), ov),
                ops.wf(),
                steps_valid(steps_view(cur@)),
                steps_legal(steps_view(cur@)),
                entries_legal(node@.entries),
                pi <= ov.len(),
                leaf_phase(ns, s0, b0, *self, *b, run, children_view(out@), pushed),
                b.walk@.max_depth == b0.walk@.max_depth,
                fine ==> at_leaf(w, start, steps_view(cur@), *b),
                fine ==> keys_sorted(goal),
                fine ==> forall|k: int|
                    w.pos(start, w.d) < k <= w.pos(steps_view(cur@), w.d) ==> !#[trigger] realigned(
                        w.img,
                        w.ns,
                        w.at(w.d),
                        ov,
                        w.pos(start, w.d),
                        k,
                    ),
            ensures
                fine ==> pushed + merged(
                    leaves_from(w, w.pos(steps_view(cur@), w.d) + 1),
                    ov.skip(pi as int),
                ) == goal,
                !past ==> run.es().len() == 0 && pi == ov.len(),
                past ==> at_end(steps_view(cur@), depth as int),
            decreases b.walk@.budget,
        {
            let ghost sv = steps_view(cur@);
            let ghost c = w.pos(sv, w.d);
            let ghost b1 = *b;
            let ghost was_pushed = pushed;
            let ghost was_pi = pi as int;
            let ghost rest = leaves_from(w, c + 1);
            match self.merge_leaf(
                &node.entries,
                ops,
                pi,
                &mut run,
                b,
                out,
                Ghost(ns),
                Ghost(s0),
                Ghost(b0),
                Ghost(pushed),
                Ghost(rest),
            ) {
                Ok((n, g)) => {
                    pi = n;
                    proof {
                        pushed = g@;
                    }
                },
                Err(e) => {
                    return Err(e);
                },
            }
            proof {
                if fine {
                    lemma_at_leaf_same(w, start, sv, b1, *b);
                    let a = w.pos(start, w.d);
                    lemma_leaves_between(w, start, sv);
                    lemma_handed_join(
                        pushed,
                        ov.skip(pi as int),
                        was_pushed,
                        ov.skip(was_pi),
                        leaves_between(w, a, c),
                        node@.entries,
                        ov,
                    );
                    assert(run.es() == leaf_feed(no_leaves(), pushed).1);
                    if run.es().len() > 0 || pi < ov.len() {
                        lemma_not_realigned(w, ov, a, c, pushed, pi as int);
                    }
                }
            }
            if depth == 0 {
                past = true;
                break;
            }
            if run.is_empty() && pi == ops.ops.len() {
                break;
            }
            let ghost b2 = *b;
            let ghost lo = w.places(start);
            let ghost hi = w.places(sv);
            proof {
                if fine {
                    assert(at_cursor(w, sv, w.d, b2, lo, hi)) by {
                        assert forall|k: int| 0 <= k < w.d implies #[trigger] hi[k] == w.pos(
                            sv,
                            k as nat,
                        ) && lo[k] <= hi[k] by {
                            assert(w.pos(start, k as nat) <= w.pos(sv, k as nat));
                        }
                    }
                }
            }
            let next = match self.advance_cursor(
                cur,
                depth,
                ns,
                b,
                Ghost(w),
                Ghost(lo),
                Ghost(hi),
            ) {
                Ok(p) => p,
                Err(e) => {
                    return Err(e);
                },
            };
            let ghost b3 = *b;
            proof {
                lemma_leaf_phase_reads(
                    ns,
                    s0,
                    b0,
                    *self,
                    b2,
                    b3,
                    run,
                    children_view(out@),
                    pushed,
                );
            }
            match next {
                None => {
                    past = true;
                    break;
                },
                Some(p) => {
                    let ghost nv = steps_view(cur@);
                    let ghost q = w.pos(nv, w.d);
                    let ghost mid = moved(w, nv, w.d, hi);
                    proof {
                        if fine {
                            assert(mid[w.d as int] == c);
                            if w.d <= b3.walk@.max_depth {
                                lemma_read_allowed(w, self.file@, b3, lo, mid, w.d, q);
                            }
                            lemma_place_live(w.img, w.ns, w.top, w.d, w.d, q);
                            lemma_node_extends(w.img, self.file@, w.ns, p@.child_slot);
                            assert(node_fits(w.img, w.ns, w.at(w.d)[q], 0));
                        }
                    }
                    let read = match self.read_node(
                        p.child_slot,
                        p.child_hash,
                        ns,
                        depth as u8,
                        b,
                    ) {
                        Ok(n) => n,
                        Err(e) => {
                            return Err(e);
                        },
                    };
                    proof {
                        lemma_leaf_phase_reads(
                            ns,
                            s0,
                            b0,
                            *self,
                            b3,
                            *b,
                            run,
                            children_view(out@),
                            pushed,
                        );
                    }
                    match read {
                        IndexNode::Internal(_) => {
                            assert(!fine);
                            return Err(
                                Error::Malformed("internal node found at the tree's leaf level"),
                            );
                        },
                        IndexNode::Leaf(l) => {
                            proof {
                                if fine {
                                    let hi1 = mid.update(w.d as int, q);
                                    lemma_read_tracks(w, b3, *b, lo, mid, lo, hi1, w.d, q);
                                    assert(hi1 =~= w.places(nv));
                                    assert(at_leaf(w, start, nv, *b)) by {
                                        assert forall|k: nat| k <= w.d implies #[trigger] w.pos(
                                            start,
                                            k,
                                        ) <= w.pos(nv, k) by {
                                            assert(w.pos(start, k) <= w.pos(sv, k));
                                            assert(w.pos(nv, k) >= w.pos(sv, k));
                                        }
                                    }
                                    lemma_flat_split(leaves(w.img, w.ns), w.at(w.d), q);
                                    assert(l@.entries + leaves_from(w, q + 1) == leaves_from(w, q));
                                }
                            }
                            node = l;
                        },
                    }
                },
            }
        }
        let ghost nv = steps_view(cur@);
        let ghost rest = leaves_from(w, w.pos(nv, w.d) + 1);
        proof {
            if fine && past {
                lemma_at_end(w.img, w.ns, w.top, nv, w.d);
                assert(w.at(w.d).skip(w.pos(nv, w.d) + 1) =~= Seq::<ChildView>::empty());
                assert(rest =~= Seq::<EntryView>::empty());
            }
        }
        if past {
            let ghost b4 = *b;
            match self.merge_tail(
                ops,
                pi,
                &mut run,
                b,
                out,
                Ghost(ns),
                Ghost(s0),
                Ghost(b0),
                Ghost(pushed),
            ) {
                Ok(()) => {},
                Err(e) => {
                    return Err(e);
                },
            }
            proof {
                pushed = pushed + merged(Seq::<EntryView>::empty(), ov.skip(pi as int));
                if fine {
                    lemma_at_leaf_same(w, start, nv, b4, *b);
                    assert(pushed + rest =~= pushed);
                }
            }
            let ghost s5 = *self;
            let ghost b5 = *b;
            let ghost out5 = children_view(out@);
            let ghost run5 = run;
            proof {
                if steady(s0) {
                    lemma_steady_grown(s0, s5);
                }
            }
            match self.leaf_seal(&mut run, b, out) {
                Ok(()) => {},
                Err(e) => {
                    proof {
                        lemma_laid_trans(s0, s5, *self);
                    }
                    return Err(e);
                },
            }
            proof {
                lemma_laid_trans(s0, s5, *self);
                lemma_appended_trans(
                    s0.file@,
                    s5.file@,
                    b0,
                    b5,
                    *b,
                    Seq::<ChildView>::empty(),
                    out5,
                    children_view(out@),
                );
                lemma_leaf_groups_joined(self.file@, ns, children_view(out@));
                lemma_leaf_groups_joined(s5.file@, ns, out5);
                lemma_leaf_feed_joined(no_leaves(), pushed);
                assert(joined(no_leaves().0) =~= Seq::<EntryView>::empty());
                assert(joined(no_leaves().0) + no_leaves().1 + pushed =~= pushed);
                lemma_joined_push(leaf_groups(s5.file@, ns, out5), run5.es());
                let g5 = joined(leaf_groups(s5.file@, ns, out5));
                assert(g5 + run5.es() == pushed);
                if run5.es().len() == 0 {
                    assert(g5 + run5.es() =~= g5);
                }
                assert forall|l: int| l != 0 implies #[trigger] b.prev(l) == b0.prev(l) by {
                    assert(b5.prev(l) == b0.prev(l));
                }
                if fine {
                    lemma_at_leaf_same(w, start, nv, b5, *b);
                }
            }
        } else {
            proof {
                lemma_leaves_done(
                    ns,
                    s0,
                    b0,
                    *self,
                    *b,
                    run,
                    children_view(out@),
                    pushed,
                );
                if fine {
                    assert(ov.skip(pi as int).len() == 0);
                }
            }
        }
        Ok((past, Ghost(pushed)))
    }
}

/// Writing nodes does not change what has been read.
proof fn lemma_at_leaf_same(w: Was, start: Seq<StepView>, now: Seq<StepView>, b: Build, b1: Build)
    requires
        at_leaf(w, start, now, b),
        b1.walk == b.walk,
        b1.reuse == b.reuse,
    ensures
        at_leaf(w, start, now, b1),
{
    reveal(tracks);
    assert forall|s: u64| #[trigger] b1.reusable(s) implies b1.walk@.visited.contains(s) by {
        let i = choose|i: int| 0 <= i < b1.reuse@.len() && (#[trigger] b1.reuse@[i]).1 == s;
        assert(b.reuse@[i].1 == s);
        assert(b.reusable(s));
    }
}

/// The entries from a leaf on, with the operations, have keys that rise.
proof fn lemma_goal_sorted(w: Was, a: int, ov: Seq<OpView>)
    requires
        w.good(),
        ops_sorted(ov),
        0 <= a < w.at(w.d).len(),
    ensures
        keys_sorted(merged(leaves_from(w, a), ov)),
        keys_sorted(leaves_from(w, a)),
        flat(leaves(w.img, w.ns), w.at(w.d)) == flat(leaves(w.img, w.ns), w.at(w.d).take(a))
            + leaves_from(w, a),
        keys_sorted(flat(leaves(w.img, w.ns), w.at(w.d))),
{
    lemma_down_ok(w.img, w.ns, w.top, w.d, w.d);
    let all = w.at(w.d);
    assert(all =~= all.take(a) + all.skip(a));
    lemma_flat_append(leaves(w.img, w.ns), all.take(a), all.skip(a));
    lemma_sorted_parts(flat(leaves(w.img, w.ns), all.take(a)), leaves_from(w, a));
    lemma_merged_sorted(leaves_from(w, a), ov);
}

// ---------------------------------------------------------------------------
// The levels above
// ---------------------------------------------------------------------------

/// The last first key of children handed on, if any were.
pub open spec fn last_first_key(cs: Seq<ChildView>) -> Option<Seq<u8>> {
    if cs.len() == 0 {
        None
    } else {
        Some(cs.last().first_key)
    }
}

/// Internal nodes of a level are being filled: since the space was `s0` and
/// the build `b0`, the children `items` have been handed on.
pub open spec fn node_phase(
    ns: Namespace,
    level: u8,
    s0: Space,
    b0: Build,
    s: Space,
    b: Build,
    run: NodeRun,
    out: Seq<ChildView>,
    items: Seq<ChildView>,
) -> bool {
    &&& s.wf()
    &&& b.wf()
    &&& grounded(b, s.file@)
    &&& b.seq == b0.seq
    &&& laid(s0, s, b.seq)
    &&& run.ns == ns
    &&& run.level == level
    &&& run.wf()
    &&& run.came_last(b)
    &&& inner_ok(s.file@, ns, out)
    &&& all_legal(out)
    &&& appended(s0.file@, b0, b, Seq::<ChildView>::empty(), out)
    &&& (node_groups(s.file@, ns, out), run.cs()) == node_feed(level, no_nodes(), items)
    &&& b.prev(level as int) == last_first_key(items)
    &&& forall|l: int| l != level ==> #[trigger] b.prev(l) == b0.prev(l)
}

/// Reading nodes does not disturb the nodes that are being filled.
proof fn lemma_node_phase_reads(
    ns: Namespace,
    level: u8,
    s0: Space,
    b0: Build,
    s: Space,
    b: Build,
    b1: Build,
    run: NodeRun,
    out: Seq<ChildView>,
    items: Seq<ChildView>,
)
    requires
        node_phase(ns, level, s0, b0, s, b, run, out, items),
        same_but_reads(b, b1),
        b1.wf(),
    ensures
        node_phase(ns, level, s0, b0, s, b1, run, out, items),
{
    lemma_appended_reads(s0.file@, b0, b, b1, Seq::<ChildView>::empty(), out);
    assert forall|l: int| l != level implies #[trigger] b1.prev(l) == b0.prev(l) by {
        assert(b.prev(l) == b0.prev(l));
    }
}

impl Space {
    /// Hands on the children from `from` to `to` to the nodes of a level.
    fn push_children(
        &mut self,
        children: &Vec<ChildPointer>,
        from: usize,
        to: usize,
        run: &mut NodeRun,
        b: &mut Build,
        out: &mut Vec<ChildPointer>,
        Ghost(ns): Ghost<Namespace>,
        Ghost(level): Ghost<u8>,
        Ghost(s0): Ghost<Space>,
        Ghost(b0): Ghost<Build>,
        Ghost(items): Ghost<Seq<ChildView>>,
    ) -> (r: Result<(), Error>)
        requires
            node_phase(
                ns,
                level,
                s0,
                b0,
                *old(self),
                *old(b),
                *old(run),
                children_view(old(out)@),
                items,
            ),
            from <= to <= children@.len(),
            all_legal(children_view(children@)),
        ensures
            final(self).wf(),
            final(b).wf(),
            laid(s0, *final(self), old(b).seq),
            same_but_level(*old(b), *final(b), level as int),
            match r {
                Ok(()) => node_phase(
                    ns,
                    level,
                    s0,
                    b0,
                    *final(self),
                    *final(b),
                    *final(run),
                    children_view(final(out)@),
                    items + children_view(children@).subrange(from as int, to as int),
                ),
                Err(e) => failed(s0, *final(self), e, children_sorted(
                    items + children_view(children@).subrange(from as int, to as int),
                )),
            },
    {
        let ghost cs = children_view(children@);
        let ghost goal = items + cs.subrange(from as int, to as int);
        let ghost mut now = items;
        let mut i: usize = from;
        proof {
            assert(items + cs.subrange(from as int, from as int) =~= items);
        }
        while i < to
            invariant
                from <= i <= to <= children@.len(),
                cs == children_view(children@),
                all_legal(cs),
                goal == items + cs.subrange(from as int, to as int),
                now == items + cs.subrange(from as int, i as int),
                node_phase(ns, level, s0, b0, *self, *b, *run, children_view(out@), now),
                same_but_level(*old(b), *b, level as int),
            decreases to - i,
        {
            let child = children[i].clone();
            let ghost c = cs[i as int];
            let ghost s1 = *self;
            let ghost b1 = *b;
            let ghost out1 = children_view(out@);
            proof {
                assert(child@ == c);
                if steady(s0) {
                    lemma_steady_grown(s0, s1);
                }
                if children_sorted(goal) && now.len() > 0 {
                    let n = now.len() as int;
                    assert(goal[n - 1] == now.last()) by {
                        if n - 1 >= items.len() {
                            assert(now.last() == cs.subrange(from as int, i as int)[n - 1
                                - items.len()]);
                        }
                    }
                    assert(goal[n] == c);
                    assert(lex_lt(goal[n - 1].first_key, goal[n].first_key));
                }
            }
            match self.node_push(run, child, b, out) {
                Ok(()) => {},
                Err(e) => {
                    proof {
                        lemma_laid_trans(s0, s1, *self);
                    }
                    return Err(e);
                },
            }
            proof {
                lemma_laid_trans(s0, s1, *self);
                lemma_appended_trans(
                    s0.file@,
                    s1.file@,
                    b0,
                    b1,
                    *b,
                    Seq::<ChildView>::empty(),
                    out1,
                    children_view(out@),
                );
                lemma_node_feed_push(level, no_nodes(), now, c);
                assert(items + cs.subrange(from as int, i + 1) =~= now.push(c));
                now = now.push(c);
            }
            i = i + 1;
        }
        Ok(())
    }
}

/// The nodes of depth `k` after the update: those before the cursor's start,
/// the new ones, and those after the cursor.
pub open spec fn spliced(
    w: Was,
    start: Seq<StepView>,
    now: Seq<StepView>,
    k: nat,
    mid: Seq<ChildView>,
) -> Seq<ChildView> {
    w.at(k).take(w.pos(start, k)) + mid + w.at(k).skip(w.pos(now, k) + 1)
}

/// The leaves under the nodes of depth `k` after the update.
pub open spec fn leaves_at(
    w: Was,
    start: Seq<StepView>,
    now: Seq<StepView>,
    k: nat,
    img: Image,
    mid: Seq<ChildView>,
) -> Seq<ChildView> {
    down(img, w.ns, spliced(w, start, now, k, mid), (w.d - k) as nat)
}

/// The slot is that of a node at depth `k` or below that has not been read.
pub open spec fn spare(w: Was, lo: Seq<int>, hi: Seq<int>, k: nat, s: u64) -> bool {
    exists|m: nat, i: int|
        k <= m <= w.d && !(lo[m as int] <= i <= hi[m as int]) && 0 <= i < #[trigger] w.at(m).len()
            && (#[trigger] w.at(m)[i]).child_slot == s
}

/// Every slot opens, and is pointed at by the build or that of a node that
/// has not been read.
#[verifier::opaque]
pub open spec fn kept(
    w: Was,
    lo: Seq<int>,
    hi: Seq<int>,
    k: nat,
    img: Image,
    b: Build,
    slots: Seq<u64>,
) -> bool {
    forall|i: int|
        0 <= i < slots.len() ==> live(img, #[trigger] slots[i]) && (b.emitted@.contains(slots[i])
            || spare(w, lo, hi, k, slots[i]))
}

/// Whatever the build points at did not open before, or has been read.
#[verifier::opaque]
pub open spec fn sourced(w: Was, b: Build) -> bool {
    forall|s: u64| #[trigger] b.emitted@.contains(s) ==> !live(w.img, s) || b.reusable(s)
}

/// The update has come up to depth `k`: with `mid` in place of the nodes
/// rewritten there, the level holds the entries `es`.
pub open spec fn risen(
    w: Was,
    start: Seq<StepView>,
    now: Seq<StepView>,
    k: nat,
    hi: Seq<int>,
    s: Space,
    b: Build,
    mid: Seq<ChildView>,
    es: Seq<EntryView>,
) -> bool {
    &&& k <= w.d
    &&& w.path(start, w.d)
    &&& w.path(now, k)
    &&& forall|m: nat| m <= k ==> #[trigger] w.pos(start, m) <= w.pos(now, m)
    &&& hi.len() == w.d + 1
    &&& forall|m: int| 0 <= m <= k ==> #[trigger] hi[m] == w.pos(now, m as nat)
    &&& tracks(w, b, w.places(start), hi)
    &&& extends(w.img, s.file@)
    &&& level_ok(s.file@, w.ns, spliced(w, start, now, k, mid), (w.d - k) as nat)
    &&& level_entries(s.file@, w.ns, spliced(w, start, now, k, mid), (w.d - k) as nat) == es
    &&& keys_sorted(es)
    &&& level_slots(
        s.file@,
        w.ns,
        spliced(w, start, now, k, mid),
        (w.d - k) as nat,
    ).no_duplicates()
    &&& kept(
        w,
        w.places(start),
        hi,
        k,
        s.file@,
        b,
        level_slots(s.file@, w.ns, spliced(w, start, now, k, mid), (w.d - k) as nat),
    )
    &&& sourced(w, b)
}

/// The tree was cut where its items say, and the level that the update has
/// come up to is.
pub open spec fn shaped_at(
    w: Was,
    start: Seq<StepView>,
    now: Seq<StepView>,
    k: nat,
    img: Image,
    mid: Seq<ChildView>,
) -> bool {
    &&& shaped(w.img, w.ns, w.top, w.d)
    &&& shaped(img, w.ns, spliced(w, start, now, k, mid), (w.d - k) as nat)
    &&& firm(w, start, k, mid)
}

/// A node that has not been read is not among those noted.
proof fn lemma_spare_not_reusable(
    w: Was,
    b: Build,
    lo: Seq<int>,
    hi: Seq<int>,
    k: nat,
    s: u64,
)
    requires
        w.good(),
        tracks(w, b, lo, hi),
        spare(w, lo, hi, k, s),
    ensures
        !b.reusable(s),
        live(w.img, s),
{
    reveal(tracks);
    let (m, i) = choose|m: nat, i: int|
        k <= m <= w.d && !(lo[m as int] <= i <= hi[m as int]) && 0 <= i < #[trigger] w.at(m).len()
            && (#[trigger] w.at(m)[i]).child_slot == s;
    lemma_untouched(w.img, w.ns, w.top, w.d, lo, hi, m, i);
    lemma_place_live(w.img, w.ns, w.top, w.d, m, i);
}

/// What is kept is apart from what the build may yet point at.
proof fn lemma_kept_apart(
    w: Was,
    lo: Seq<int>,
    hi: Seq<int>,
    k: nat,
    img: Image,
    b: Build,
    slots: Seq<u64>,
)
    requires
        w.good(),
        tracks(w, b, lo, hi),
        kept(w, lo, hi, k, img, b, slots),
    ensures
        apart(img, b, slots),
{
    reveal(kept);
    assert forall|i: int| 0 <= i < slots.len() implies live(img, #[trigger] slots[i]) && (
    b.emitted@.contains(slots[i]) || !b.reusable(slots[i])) by {
        if spare(w, lo, hi, k, slots[i]) {
            lemma_spare_not_reusable(w, b, lo, hi, k, slots[i]);
        }
    }
}

/// New pointers have a source.
proof fn lemma_sourced_appended(w: Was, b0: Build, b: Build, img0: Image, out: Seq<ChildView>)
    requires
        sourced(w, b0),
        extends(w.img, img0),
        appended(img0, b0, b, Seq::<ChildView>::empty(), out),
        forall|s: u64| #[trigger] b0.reusable(s) ==> b.reusable(s),
    ensures
        sourced(w, b),
{
    reveal(sourced);
    assert forall|s: u64| #[trigger] b.emitted@.contains(s) implies !live(w.img, s) || b.reusable(
        s,
    ) by {
        if !b0.emitted@.contains(s) {
            assert(new_slot(img0, b0, b, s));
        }
    }
}

/// What was not read before and lies at a depth where nothing more has been
/// read, still has not been.
proof fn lemma_spare_stays(
    w: Was,
    lo: Seq<int>,
    hi0: Seq<int>,
    hi: Seq<int>,
    di: nat,
    s: u64,
)
    requires
        spare(w, lo, hi0, di + 1, s),
        forall|m: int| di < m <= w.d ==> #[trigger] hi[m] == hi0[m],
    ensures
        spare(w, lo, hi, di + 1, s),
        spare(w, lo, hi, di, s),
{
    let (m, i) = choose|m: nat, i: int|
        di + 1 <= m <= w.d && !(lo[m as int] <= i <= hi0[m as int]) && 0 <= i < #[trigger] w.at(
            m,
        ).len() && (#[trigger] w.at(m)[i]).child_slot == s;
    assert(hi[m as int] == hi0[m as int]);
    assert(0 <= i < w.at(m).len() && w.at(m)[i].child_slot == s);
}

/// A node of the level that is outside what has been read.
proof fn lemma_place_spare(w: Was, lo: Seq<int>, hi: Seq<int>, k: nat, i: int)
    requires
        k <= w.d,
        0 <= i < w.at(k).len(),
        !(lo[k as int] <= i <= hi[k as int]),
    ensures
        spare(w, lo, hi, k, w.at(k)[i].child_slot),
{
    assert(0 <= i < w.at(k).len() && w.at(k)[i].child_slot == w.at(k)[i].child_slot);
}

/// A slot kept from below is not that of a node of the level.
proof fn lemma_kept_not_place(
    w: Was,
    lo: Seq<int>,
    hi0: Seq<int>,
    hi: Seq<int>,
    di: nat,
    b0: Build,
    b: Build,
    i: int,
    s: u64,
)
    requires
        w.good(),
        di < w.d,
        tracks(w, b, lo, hi),
        sourced(w, b0),
        b0.emitted@.contains(s) || spare(w, lo, hi0, di + 1, s),
        forall|t: u64| #[trigger] b0.reusable(t) ==> b.reusable(t),
        0 <= i < w.at(di).len(),
        !(lo[di as int] <= i <= hi[di as int]),
    ensures
        w.at(di)[i].child_slot != s,
{
    reveal(sourced);
    lemma_place_spare(w, lo, hi, di, i);
    lemma_spare_not_reusable(w, b, lo, hi, di, w.at(di)[i].child_slot);
    if !b0.emitted@.contains(s) {
        let (m, j) = choose|m: nat, j: int|
            di + 1 <= m <= w.d && !(lo[m as int] <= j <= hi0[m as int]) && 0 <= j
                < #[trigger] w.at(m).len() && (#[trigger] w.at(m)[j]).child_slot == s;
        lemma_places_differ(w.img, w.ns, w.top, w.d, di, i, m, j);
    }
}

/// A slot kept from below is not one that the build has come to point at
/// since.
proof fn lemma_kept_not_new(
    w: Was,
    lo: Seq<int>,
    hi0: Seq<int>,
    hi: Seq<int>,
    di: nat,
    img0: Image,
    b0: Build,
    b: Build,
    s: u64,
    t: u64,
)
    requires
        w.good(),
        tracks(w, b, lo, hi),
        live(img0, s),
        b0.emitted@.contains(s) || spare(w, lo, hi0, di + 1, s),
        forall|m: int| di < m <= w.d ==> #[trigger] hi[m] == hi0[m],
        new_slot(img0, b0, b, t),
    ensures
        s != t,
{
    if !b0.emitted@.contains(s) {
        lemma_spare_stays(w, lo, hi0, hi, di, s);
        lemma_spare_not_reusable(w, b, lo, hi, di + 1, s);
    }
}

/// Where the level's nodes come from: before the cursor's start, new, or
/// after the cursor.
proof fn lemma_spliced_index(
    w: Was,
    start: Seq<StepView>,
    now: Seq<StepView>,
    k: nat,
    mid: Seq<ChildView>,
    i: int,
) -> (r: int)
    requires
        0 <= w.pos(start, k) <= w.at(k).len(),
        0 <= w.pos(now, k) < w.at(k).len(),
        w.pos(start, k) <= w.pos(now, k),
        0 <= i < spliced(w, start, now, k, mid).len(),
    ensures
        r >= 0 ==> {
            &&& r < w.at(k).len()
            &&& (r < w.pos(start, k) || r > w.pos(now, k))
            &&& spliced(w, start, now, k, mid)[i] == w.at(k)[r]
            &&& i < w.pos(start, k) ==> r == i
            &&& i >= w.pos(start, k) ==> r > w.pos(now, k) && i == w.pos(start, k) + mid.len() + r
                - w.pos(now, k) - 1
        },
        r < 0 ==> {
            &&& 0 <= i - w.pos(start, k) < mid.len()
            &&& spliced(w, start, now, k, mid)[i] == mid[i - w.pos(start, k)]
        },
{
    let a = w.pos(start, k);
    let c = w.pos(now, k);
    let n = spliced(w, start, now, k, mid);
    if i < a {
        assert(n[i] == w.at(k).take(a)[i]);
        i
    } else if i < a + mid.len() {
        assert(n[i] == mid[i - a]);
        -1
    } else {
        assert(n[i] == w.at(k).skip(c + 1)[i - a - mid.len()]);
        c + 1 + i - a - mid.len()
    }
}

/// The level that the new nodes make up with the old ones that stay: what
/// stands below it.
#[verifier::spinoff_prover]
proof fn lemma_rise_level(
    w: Was,
    start: Seq<StepView>,
    now: Seq<StepView>,
    di: nat,
    img0: Image,
    img: Image,
    out: Seq<ChildView>,
    items: Seq<ChildView>,
    n0: Seq<ChildView>,
)
    requires
        w.good(),
        di < w.d,
        w.path(start, di),
        w.path(now, di),
        w.pos(start, di) <= w.pos(now, di),
        extends(w.img, img0),
        extends(img0, img),
        inner_ok(img, w.ns, out),
        below(img, w.ns, out) == items,
        level_ok(img0, w.ns, n0, (w.d - di - 1) as nat),
        n0 == flat(kids(w.img, w.ns), w.at(di).take(w.pos(start, di))) + items + flat(
            kids(w.img, w.ns),
            w.at(di).skip(w.pos(now, di) + 1),
        ),
    ensures
        extends(w.img, img),
        level_ok(img, w.ns, spliced(w, start, now, di, out), (w.d - di) as nat),
        level_entries(img, w.ns, spliced(w, start, now, di, out), (w.d - di) as nat)
            == level_entries(img0, w.ns, n0, (w.d - di - 1) as nat),
        level_slots(img, w.ns, spliced(w, start, now, di, out), (w.d - di) as nat) == slots_of(
            spliced(w, start, now, di, out),
        ) + level_slots(img0, w.ns, n0, (w.d - di - 1) as nat),
        down(img, w.ns, spliced(w, start, now, di, out), (w.d - di) as nat) == down(
            img0,
            w.ns,
            n0,
            (w.d - di - 1) as nat,
        ),
{
    let ns = w.ns;
    let up = w.at(di);
    let a = w.pos(start, di);
    let c = w.pos(now, di);
    let h = (w.d - di - 1) as nat;
    let n1 = spliced(w, start, now, di, out);
    lemma_extends_trans(w.img, img0, img);
    lemma_path_point(w.img, w.ns, w.top, start, di);
    lemma_path_point(w.img, w.ns, w.top, now, di);
    lemma_level_extends(img0, img, ns, n0, h);
    assert forall|i: int| 0 <= i < up.len() implies kids(img, ns)(#[trigger] up[i]) == kids(
        w.img,
        ns,
    )(up[i]) && node_fits(img, ns, up[i], h + 1) by {
        lemma_place_live(w.img, w.ns, w.top, w.d, di, i);
        lemma_node_extends(w.img, img, ns, up[i].child_slot);
    }
    let left = up.take(a);
    let right = up.skip(c + 1);
    assert forall|i: int| 0 <= i < left.len() implies kids(img, ns)(#[trigger] left[i]) == kids(
        w.img,
        ns,
    )(left[i]) by {
        assert(left[i] == up[i]);
    }
    assert forall|i: int| 0 <= i < right.len() implies kids(img, ns)(#[trigger] right[i]) == kids(
        w.img,
        ns,
    )(right[i]) by {
        assert(right[i] == up[c + 1 + i]);
    }
    lemma_flat_same(kids(img, ns), kids(w.img, ns), left);
    lemma_flat_same(kids(img, ns), kids(w.img, ns), right);
    lemma_flat_append(kids(img, ns), left + out, right);
    lemma_flat_append(kids(img, ns), left, out);
    assert(below(img, ns, n1) == n0);
    lemma_down_extends(img0, img, ns, n0, h, h);
    lemma_down_below(img, ns, n1, h);
    assert forall|i: int| 0 <= i < n1.len() implies node_fits(
        img,
        ns,
        #[trigger] n1[i],
        h + 1,
    ) by {
        let r = lemma_spliced_index(w, start, now, di, out, i);
        if r >= 0 {
            assert(node_fits(img, ns, up[r], h + 1));
        } else {
            assert(node_fits(img, ns, out[i - a], 1));
        }
    }
}

/// What the parts of a level have to do with each other: old nodes that have
/// not been read, new ones, and what is kept below.
pub open spec fn parting(
    w: Was,
    start: Seq<StepView>,
    now: Seq<StepView>,
    di: nat,
    hi0: Seq<int>,
    hi: Seq<int>,
    img0: Image,
    img: Image,
    b0: Build,
    b: Build,
    out: Seq<ChildView>,
) -> bool {
    &&& w.good()
    &&& di < w.d
    &&& w.path(start, di)
    &&& w.path(now, di)
    &&& w.pos(start, di) <= w.pos(now, di)
    &&& hi[di as int] == w.pos(now, di)
    &&& forall|m: int| di < m <= w.d ==> #[trigger] hi[m] == hi0[m]
    &&& tracks(w, b, w.places(start), hi)
    &&& sourced(w, b0)
    &&& extends(w.img, img0)
    &&& extends(img0, img)
    &&& grounded(b, img)
    &&& appended(img0, b0, b, Seq::<ChildView>::empty(), out)
    &&& forall|t: u64| #[trigger] b0.reusable(t) ==> b.reusable(t)
}

/// Two nodes of the level have two slots.
proof fn lemma_level_slots_differ(
    w: Was,
    start: Seq<StepView>,
    now: Seq<StepView>,
    di: nat,
    hi0: Seq<int>,
    hi: Seq<int>,
    img0: Image,
    img: Image,
    b0: Build,
    b: Build,
    out: Seq<ChildView>,
    i: int,
    j: int,
)
    requires
        parting(w, start, now, di, hi0, hi, img0, img, b0, b, out),
        0 <= i < j < spliced(w, start, now, di, out).len(),
    ensures
        spliced(w, start, now, di, out)[i].child_slot != spliced(w, start, now, di, out)[j].child_slot,
{
    let lo = w.places(start);
    let a = w.pos(start, di);
    let up = w.at(di);
    lemma_path_point(w.img, w.ns, w.top, start, di);
    lemma_path_point(w.img, w.ns, w.top, now, di);
    let p = lemma_spliced_index(w, start, now, di, out, i);
    let q = lemma_spliced_index(w, start, now, di, out, j);
    if p >= 0 && q >= 0 {
        lemma_places_differ(w.img, w.ns, w.top, w.d, di, p, di, q);
    } else if p < 0 && q < 0 {
        assert(out[i - a].child_slot != out[j - a].child_slot);
    } else if p >= 0 {
        lemma_place_spare(w, lo, hi, di, p);
        lemma_spare_not_reusable(w, b, lo, hi, di, up[p].child_slot);
        assert(live(img0, up[p].child_slot));
        assert(new_slot(img0, b0, b, out[j - a].child_slot));
    } else {
        lemma_place_spare(w, lo, hi, di, q);
        lemma_spare_not_reusable(w, b, lo, hi, di, up[q].child_slot);
        assert(live(img0, up[q].child_slot));
        assert(new_slot(img0, b0, b, out[i - a].child_slot));
    }
}

/// A node of the level has none of the slots that are kept below.
proof fn lemma_level_under_differ(
    w: Was,
    start: Seq<StepView>,
    now: Seq<StepView>,
    di: nat,
    hi0: Seq<int>,
    hi: Seq<int>,
    img0: Image,
    img: Image,
    b0: Build,
    b: Build,
    out: Seq<ChildView>,
    i: int,
    u: u64,
)
    requires
        parting(w, start, now, di, hi0, hi, img0, img, b0, b, out),
        0 <= i < spliced(w, start, now, di, out).len(),
        live(img0, u),
        b0.emitted@.contains(u) || spare(w, w.places(start), hi0, di + 1, u),
    ensures
        spliced(w, start, now, di, out)[i].child_slot != u,
{
    let lo = w.places(start);
    let a = w.pos(start, di);
    lemma_path_point(w.img, w.ns, w.top, start, di);
    lemma_path_point(w.img, w.ns, w.top, now, di);
    let p = lemma_spliced_index(w, start, now, di, out, i);
    if p >= 0 {
        lemma_kept_not_place(w, lo, hi0, hi, di, b0, b, p, u);
    } else {
        assert(new_slot(img0, b0, b, out[i - a].child_slot));
        lemma_kept_not_new(w, lo, hi0, hi, di, img0, b0, b, u, out[i - a].child_slot);
    }
}

/// The slots of the level and of what is below it: none twice, all kept.
#[verifier::spinoff_prover]
proof fn lemma_rise_slots(
    w: Was,
    start: Seq<StepView>,
    now: Seq<StepView>,
    di: nat,
    hi0: Seq<int>,
    hi: Seq<int>,
    img0: Image,
    img: Image,
    b0: Build,
    b: Build,
    out: Seq<ChildView>,
    under: Seq<u64>,
)
    requires
        parting(w, start, now, di, hi0, hi, img0, img, b0, b, out),
        kept(w, w.places(start), hi0, di + 1, img0, b0, under),
        under.no_duplicates(),
    ensures
        (slots_of(spliced(w, start, now, di, out)) + under).no_duplicates(),
        kept(
            w,
            w.places(start),
            hi,
            di,
            img,
            b,
            slots_of(spliced(w, start, now, di, out)) + under,
        ),
{
    reveal(kept);
    let lo = w.places(start);
    let a = w.pos(start, di);
    let n1 = spliced(w, start, now, di, out);
    let all = slots_of(n1) + under;
    assert forall|i: int, j: int| 0 <= i < j < all.len() implies all[i] != all[j] by {
        if j < n1.len() {
            lemma_level_slots_differ(w, start, now, di, hi0, hi, img0, img, b0, b, out, i, j);
        } else if i < n1.len() {
            let u = under[j - n1.len()];
            assert(live(img0, u) && (b0.emitted@.contains(u) || spare(w, lo, hi0, di + 1, u)));
            lemma_level_under_differ(w, start, now, di, hi0, hi, img0, img, b0, b, out, i, u);
        } else {
            assert(under[i - n1.len()] != under[j - n1.len()]);
        }
    }
    lemma_path_point(w.img, w.ns, w.top, start, di);
    lemma_path_point(w.img, w.ns, w.top, now, di);
    lemma_extends_trans(w.img, img0, img);
    assert forall|i: int| 0 <= i < all.len() implies live(img, #[trigger] all[i]) && (
    b.emitted@.contains(all[i]) || spare(w, lo, hi, di, all[i])) by {
        if i < n1.len() {
            let p = lemma_spliced_index(w, start, now, di, out, i);
            if p >= 0 {
                lemma_place_spare(w, lo, hi, di, p);
                lemma_spare_not_reusable(w, b, lo, hi, di, w.at(di)[p].child_slot);
            } else {
                assert(new_slot(img0, b0, b, out[i - a].child_slot));
            }
        } else {
            let u = under[i - n1.len()];
            assert(live(img0, u) && (b0.emitted@.contains(u) || spare(w, lo, hi0, di + 1, u)));
            if !b0.emitted@.contains(u) {
                lemma_spare_stays(w, lo, hi0, hi, di, u);
            }
        }
    }
}

/// One level up.
#[verifier::spinoff_prover]
proof fn lemma_rise(
    w: Was,
    start: Seq<StepView>,
    now0: Seq<StepView>,
    now: Seq<StepView>,
    di: nat,
    hi0: Seq<int>,
    hi: Seq<int>,
    s0: Space,
    s: Space,
    b0: Build,
    b: Build,
    mid: Seq<ChildView>,
    out: Seq<ChildView>,
    items: Seq<ChildView>,
    es: Seq<EntryView>,
)
    requires
        w.good(),
        di < w.d,
        risen(w, start, now0, di + 1, hi0, s0, b0, mid, es),
        w.path(now, di),
        forall|m: nat| m <= di ==> #[trigger] w.pos(start, m) <= w.pos(now, m),
        hi.len() == w.d + 1,
        forall|m: int| 0 <= m <= di ==> #[trigger] hi[m] == w.pos(now, m as nat),
        forall|m: int| di < m <= w.d ==> #[trigger] hi[m] == hi0[m],
        tracks(w, b, w.places(start), hi),
        extends(s0.file@, s.file@),
        grounded(b, s.file@),
        appended(s0.file@, b0, b, Seq::<ChildView>::empty(), out),
        inner_ok(s.file@, w.ns, out),
        below(s.file@, w.ns, out) == items,
        forall|t: u64| #[trigger] b0.reusable(t) ==> b.reusable(t),
        spliced(w, start, now0, di + 1, mid) == flat(
            kids(w.img, w.ns),
            w.at(di).take(w.pos(start, di)),
        ) + items + flat(kids(w.img, w.ns), w.at(di).skip(w.pos(now, di) + 1)),
    ensures
        risen(w, start, now, di, hi, s, b, out, es),
        leaves_at(w, start, now, di, s.file@, out) == leaves_at(
            w,
            start,
            now0,
            di + 1,
            s0.file@,
            mid,
        ),
{
    let n0 = spliced(w, start, now0, di + 1, mid);
    let h = (w.d - di - 1) as nat;
    assert(h == w.d - (di + 1));
    lemma_path_prefix(w.img, w.ns, w.top, start, w.d, di);
    assert(w.pos(start, di) <= w.pos(now, di));
    lemma_rise_level(w, start, now, di, s0.file@, s.file@, out, items, n0);
    assert(parting(w, start, now, di, hi0, hi, s0.file@, s.file@, b0, b, out));
    lemma_rise_slots(
        w,
        start,
        now,
        di,
        hi0,
        hi,
        s0.file@,
        s.file@,
        b0,
        b,
        out,
        level_slots(s0.file@, w.ns, n0, h),
    );
    lemma_sourced_appended(w, b0, b, s0.file@, out);
}

/// Is every step above `di` at its node's last child?
fn cursor_at_level_end(steps: &Vec<Step>, di: usize) -> (r: bool)
    requires
        di <= steps@.len(),
        steps_valid(steps_view(steps@)),
    ensures
        r == at_end(steps_view(steps@), di as int),
{
    let ghost sv = steps_view(steps@);
    let mut j: usize = 0;
    while j < di
        invariant
            j <= di <= steps@.len(),
            sv == steps_view(steps@),
            steps_valid(sv),
            forall|m: int| 0 <= m < j ==> (#[trigger] sv[m]).1 + 1 == sv[m].0.len(),
        decreases di - j,
    {
        assert(sv[j as int].1 < sv[j as int].0.len());
        let count: usize = steps[j].node.children.len();
        if steps[j].idx + 1 != count {
            assert(sv[j as int].1 + 1 != sv[j as int].0.len());
            return false;
        }
        j = j + 1;
    }
    true
}

/// Is every step above `di` at its node's first child?
fn cursor_at_level_start(steps: &Vec<Step>, di: usize) -> (r: bool)
    requires
        di <= steps@.len(),
    ensures
        r == at_start(steps_view(steps@), di as int),
{
    let ghost sv = steps_view(steps@);
    let mut j: usize = 0;
    while j < di
        invariant
            j <= di <= steps@.len(),
            sv == steps_view(steps@),
            forall|m: int| 0 <= m < j ==> (#[trigger] sv[m]).1 == 0,
        decreases di - j,
    {
        if steps[j].idx != 0 {
            assert(sv[j as int].1 != 0);
            return false;
        }
        j = j + 1;
    }
    true
}

/// A copy of a path.
fn copy_steps(steps: &Vec<Step>) -> (r: Vec<Step>)
    ensures
        steps_view(r@) == steps_view(steps@),
{
    let mut out: Vec<Step> = Vec::with_capacity(steps.len());
    let mut i: usize = 0;
    while i < steps.len()
        invariant
            i <= steps@.len(),
            out@.len() == i,
            forall|m: int| 0 <= m < i ==> steps_view(out@)[m] == #[trigger] steps_view(steps@)[m],
        decreases steps@.len() - i,
    {
        let node = &steps[i].node;
        let mut children: Vec<ChildPointer> = Vec::with_capacity(node.children.len());
        let mut j: usize = 0;
        while j < node.children.len()
            invariant
                j <= node.children@.len(),
                children@.len() == j,
                forall|m: int| 0 <= m < j ==> (#[trigger] children@[m])@ == node.children@[m]@,
            decreases node.children@.len() - j,
        {
            children.push(node.children[j].clone());
            j = j + 1;
        }
        assert(children_view(children@) =~= children_view(node.children@));
        let ghost before = steps_view(out@);
        let copy = InternalNode { namespace: node.namespace, children };
        out.push(Step { node: copy, idx: steps[i].idx });
        assert forall|m: int| 0 <= m < i + 1 implies steps_view(out@)[m] == #[trigger] steps_view(
            steps@,
        )[m] by {
            if m < i {
                assert(before[m] == steps_view(steps@)[m]);
            }
        }
        i = i + 1;
    }
    assert(steps_view(out@) =~= steps_view(steps@));
    out
}

/// A part of sorted children is sorted.
proof fn lemma_sorted_segment(
    all: Seq<ChildView>,
    a: Seq<ChildView>,
    seg: Seq<ChildView>,
    z: Seq<ChildView>,
)
    requires
        all == a + seg + z,
        children_sorted(all),
    ensures
        children_sorted(seg),
{
    assert forall|i: int, j: int| 0 <= i < j < seg.len() implies lex_lt(
        (#[trigger] seg[i]).first_key,
        (#[trigger] seg[j]).first_key,
    ) by {
        assert(all[a.len() + i] == seg[i]);
        assert(all[a.len() + j] == seg[j]);
    }
}

/// Closed nodes hold what has been handed on, once none is open.
proof fn lemma_nodes_done(
    ns: Namespace,
    level: u8,
    s0: Space,
    b0: Build,
    s: Space,
    b: Build,
    run: NodeRun,
    out: Seq<ChildView>,
    items: Seq<ChildView>,
)
    requires
        node_phase(ns, level, s0, b0, s, b, run, out, items),
    ensures
        run.cs().len() == 0 ==> below(s.file@, ns, out) == items,
        below(s.file@, ns, out) + run.cs() == items,
{
    lemma_node_groups_joined(s.file@, ns, out);
    lemma_node_feed_joined(level, no_nodes(), items);
    assert(joined(no_nodes().0) =~= Seq::<ChildView>::empty());
    assert(joined(no_nodes().0) + no_nodes().1 + items =~= items);
    let g = below(s.file@, ns, out);
    if run.cs().len() == 0 {
        assert(g + run.cs() =~= g);
    }
}

/// A level that is being rewritten: its children so far, those of the old
/// nodes before, and those of the old nodes after, make up the level below.
pub open spec fn midway(
    w: Was,
    start: Seq<StepView>,
    now: Seq<StepView>,
    di: nat,
    hi0: Seq<int>,
    hi: Seq<int>,
    b: Build,
    items: Seq<ChildView>,
    n0: Seq<ChildView>,
) -> bool {
    &&& w.path(now, di)
    &&& forall|m: nat| m <= di ==> #[trigger] w.pos(start, m) <= w.pos(now, m)
    &&& hi.len() == w.d + 1
    &&& forall|m: int| 0 <= m <= di ==> #[trigger] hi[m] == w.pos(now, m as nat)
    &&& forall|m: int| di < m <= w.d ==> #[trigger] hi[m] == hi0[m]
    &&& tracks(w, b, w.places(start), hi)
    &&& n0 == flat(kids(w.img, w.ns), w.at(di).take(w.pos(start, di))) + items + flat(
        kids(w.img, w.ns),
        w.at(di).skip(w.pos(now, di) + 1),
    )
}

/// Writing nodes does not change what has been read.
proof fn lemma_tracks_same(w: Was, b: Build, b1: Build, lo: Seq<int>, hi: Seq<int>)
    requires
        tracks(w, b, lo, hi),
        b1.walk == b.walk,
        b1.reuse == b.reuse,
    ensures
        tracks(w, b1, lo, hi),
{
    reveal(tracks);
    assert forall|s: u64| #[trigger] b1.reusable(s) implies b1.walk@.visited.contains(s) by {
        let i = choose|i: int| 0 <= i < b1.reuse@.len() && (#[trigger] b1.reuse@[i]).1 == s;
        assert(b.reuse@[i].1 == s);
        assert(b.reusable(s));
    }
}

/// Builds with the same notes can reuse the same.
proof fn lemma_reuse_same(b: Build, b1: Build)
    requires
        b1.reuse == b.reuse,
    ensures
        forall|s: u64| #[trigger] b.reusable(s) ==> b1.reusable(s),
{
    assert forall|s: u64| #[trigger] b.reusable(s) implies b1.reusable(s) by {
        let i = choose|i: int| 0 <= i < b.reuse@.len() && (#[trigger] b.reuse@[i]).1 == s;
        assert(b1.reuse@[i].1 == s);
    }
}

impl Space {
    /// Rewrites the nodes of depth `di` between the start of the update and
    /// the cursor, over the new nodes `mid` one level below. Goes on to the
    /// next node until a node ends where an old one did, or to the last.
    #[verifier::spinoff_prover]
    #[verifier::rlimit(60)]
    fn rewrite_level(
        &mut self,
        ns: Namespace,
        lvl: u8,
        di: usize,
        orig: &Vec<Step>,
        cur: &mut Vec<Step>,
        mid: Vec<ChildPointer>,
        b: &mut Build,
        Ghost(w): Ghost<Was>,
        Ghost(hi0): Ghost<Seq<int>>,
        Ghost(es): Ghost<Seq<EntryView>>,
    ) -> (r: Result<(Vec<ChildPointer>, Ghost<Seq<int>>), Error>)
        requires
            old(self).wf(),
            old(b).wf(),
            grounded(*old(b), old(self).file@),
            lvl > 0,
            old(b).prev(lvl as int) is None,
            di < orig@.len(),
            old(cur)@.len() == orig@.len(),
            orig@.len() <= 32,
            steps_valid(steps_view(orig@)),
            steps_legal(steps_view(orig@)),
            steps_valid(steps_view(old(cur)@)),
            steps_legal(steps_view(old(cur)@)),
            all_legal(children_view(mid@)),
        ensures
            final(self).wf(),
            final(b).wf(),
            laid(*old(self), *final(self), old(b).seq),
            final(cur)@.len() == old(cur)@.len(),
            final(b).walk@.max_depth == old(b).walk@.max_depth,
            match r {
                Ok(t) => {
                    &&& grounded(*final(b), final(self).file@)
                    &&& final(b).seq == old(b).seq
                    &&& steps_valid(steps_view(final(cur)@))
                    &&& steps_legal(steps_view(final(cur)@))
                    &&& all_legal(children_view(t.0@))
                    &&& forall|l: int|
                        l != lvl ==> #[trigger] final(b).prev(l) == old(b).prev(l)
                    &&& w.good() && w.ns == ns && orig@.len() == w.d && risen(
                        w,
                        steps_view(orig@),
                        steps_view(old(cur)@),
                        (di + 1) as nat,
                        hi0,
                        *old(self),
                        *old(b),
                        children_view(mid@),
                        es,
                    ) ==> risen(
                        w,
                        steps_view(orig@),
                        steps_view(final(cur)@),
                        di as nat,
                        t.1@,
                        *final(self),
                        *final(b),
                        children_view(t.0@),
                        es,
                    ) && leaves_at(
                        w,
                        steps_view(orig@),
                        steps_view(final(cur)@),
                        di as nat,
                        final(self).file@,
                        children_view(t.0@),
                    ) == leaves_at(
                        w,
                        steps_view(orig@),
                        steps_view(old(cur)@),
                        (di + 1) as nat,
                        old(self).file@,
                        children_view(mid@),
                    )
                    &&& w.good() && w.ns == ns && orig@.len() == w.d && risen(
                        w,
                        steps_view(orig@),
                        steps_view(old(cur)@),
                        (di + 1) as nat,
                        hi0,
                        *old(self),
                        *old(b),
                        children_view(mid@),
                        es,
                    ) && lvl == w.d - di && shaped_at(
                        w,
                        steps_view(orig@),
                        steps_view(old(cur)@),
                        (di + 1) as nat,
                        old(self).file@,
                        children_view(mid@),
                    ) ==> shaped_at(
                        w,
                        steps_view(orig@),
                        steps_view(final(cur)@),
                        di as nat,
                        final(self).file@,
                        children_view(t.0@),
                    )
                },
                Err(e) => failed(*old(self), *final(self), e, w.good() && w.ns == ns && orig@.len()
                    == w.d && risen(
                    w,
                    steps_view(orig@),
                    steps_view(old(cur)@),
                    (di + 1) as nat,
                    hi0,
                    *old(self),
                    *old(b),
                    children_view(mid@),
                    es,
                ) && w.d <= old(b).walk@.max_depth),
            },
    {
        let ghost s0 = *self;
        let ghost b0 = *b;
        let ghost start = steps_view(orig@);
        let ghost now0 = steps_view(cur@);
        let ghost mv = children_view(mid@);
        let ghost d = di as nat;
        let ghost fine = w.good() && w.ns == ns && start.len() == w.d && risen(
            w,
            start,
            now0,
            d + 1,
            hi0,
            s0,
            b0,
            mv,
            es,
        );
        let ghost lucky = fine && w.d <= b0.walk@.max_depth;
        let ghost n0 = spliced(w, start, now0, d + 1, mv);
        let ghost mut items = Seq::<ChildView>::empty();
        let ghost mut hi = hi0;
        let mut run = NodeRun::new(ns, lvl);
        let mut out: Vec<ChildPointer> = Vec::new();
        let ghost prefix = start[di as int].0.subrange(0, start[di as int].1);
        let ghost suffix = now0[di as int].0.subrange(
            now0[di as int].1 + 1,
            now0[di as int].0.len() as int,
        );
        let ghost steady_start = fine && firm(w, start, d + 1, mv);
        let ghost left = flat(kids(w.img, w.ns), w.at(d).take(w.pos(start, d)));
        let ghost right = flat(kids(w.img, w.ns), w.at(d).skip(w.pos(now0, d) + 1));
        proof {
            lemma_laid_refl(s0);
            assert(children_view(out@) =~= Seq::<ChildView>::empty());
            lemma_appended_none(s0.file@, b0, b0, Seq::<ChildView>::empty());
            assert(node_groups(s0.file@, ns, children_view(out@)) =~= Seq::<
                Seq<ChildView>,
            >::empty());
            assert(node_phase(ns, lvl, s0, b0, *self, *b, run, children_view(out@), items));
            assert(0 <= start[di as int].1 < start[di as int].0.len());
            assert(0 <= now0[di as int].1 < now0[di as int].0.len());
            assert(all_legal(start[di as int].0));
            assert(all_legal(now0[di as int].0));
            if fine {
                lemma_path_prefix(w.img, w.ns, w.top, start, w.d, d + 1);
                lemma_pos_split(w.img, w.ns, w.top, start, d);
                lemma_pos_split(w.img, w.ns, w.top, now0, d);
                assert(prefix =~= start[di as int].0.take(start[di as int].1));
                assert(suffix =~= now0[di as int].0.skip(now0[di as int].1 + 1));
                assert(n0 =~= left + (prefix + mv + suffix) + right);
                assert forall|i: int, j: int| 0 <= i < j < n0.len() implies lex_lt(
                    (#[trigger] n0[i]).first_key,
                    (#[trigger] n0[j]).first_key,
                ) by {
                    lemma_first_keys_rise(
                        s0.file@,
                        ns,
                        n0,
                        (w.d - (d + 1)) as nat,
                        i,
                        j,
                    );
                }
                assert(children_sorted(n0));
                assert(items + prefix =~= prefix);
                assert(n0 =~= left + prefix + (mv + suffix + right));
                lemma_sorted_segment(n0, left, prefix, mv + suffix + right);
                assert(n0 =~= left + (prefix + mv) + (suffix + right));
                lemma_sorted_segment(n0, left, prefix + mv, suffix + right);
                lemma_sorted_segment(n0, left, prefix + mv + suffix, right);
            }
        }
        let first: usize = orig[di].idx;
        match self.push_children(
            &orig[di].node.children,
            0,
            first,
            &mut run,
            b,
            &mut out,
            Ghost(ns),
            Ghost(lvl),
            Ghost(s0),
            Ghost(b0),
            Ghost(items),
        ) {
            Ok(()) => {},
            Err(e) => {
                assert(items + prefix =~= prefix);
                return Err(e);
            },
        }
        proof {
            assert(items + prefix =~= prefix);
            items = prefix;
        }
        let count: usize = mid.len();
        match self.push_children(
            &mid,
            0,
            count,
            &mut run,
            b,
            &mut out,
            Ghost(ns),
            Ghost(lvl),
            Ghost(s0),
            Ghost(b0),
            Ghost(items),
        ) {
            Ok(()) => {},
            Err(e) => {
                assert(mv.subrange(0, mv.len() as int) =~= mv);
                return Err(e);
            },
        }
        proof {
            assert(mv.subrange(0, mv.len() as int) =~= mv);
            items = prefix + mv;
        }
        let total: usize = cur[di].node.children.len();
        assert(now0[di as int].1 < now0[di as int].0.len());
        let after: usize = cur[di].idx + 1;
        match self.push_children(
            &cur[di].node.children,
            after,
            total,
            &mut run,
            b,
            &mut out,
            Ghost(ns),
            Ghost(lvl),
            Ghost(s0),
            Ghost(b0),
            Ghost(items),
        ) {
            Ok(()) => {},
            Err(e) => {
                return Err(e);
            },
        }
        proof {
            items = prefix + mv + suffix;
            if steady_start {
                lemma_led(w, start, d, mv, prefix, suffix);
            }
            if fine {
                lemma_path_prefix(w.img, w.ns, w.top, now0, d + 1, d);
                lemma_tracks_same(w, b0, *b, w.places(start), hi0);
                assert(midway(w, start, now0, d, hi0, hi, *b, items, n0)) by {
                    assert forall|m: nat| m <= d implies #[trigger] w.pos(start, m) <= w.pos(
                        now0,
                        m,
                    ) by {}
                    assert forall|m: int| 0 <= m <= d implies #[trigger] hi[m] == w.pos(
                        now0,
                        m as nat,
                    ) by {}
                }
            }
            lemma_reuse_same(b0, *b);
        }
        loop
            invariant_except_break
                cur@.len() == orig@.len(),
            invariant
                s0 == *old(self),
                b0 == *old(b),
                start == steps_view(orig@),
                now0 == steps_view(old(cur)@),
                mv == children_view(mid@),
                d == di,
                di < orig@.len() <= 32,
                cur@.len() == orig@.len(),
                old(cur)@.len() == orig@.len(),
                fine == (w.good() && w.ns == ns && start.len() == w.d && risen(
                    w,
                    start,
                    now0,
                    d + 1,
                    hi0,
                    s0,
                    b0,
                    mv,
                    es,
                )),
                lucky == (fine && w.d <= b0.walk@.max_depth),
                n0 == spliced(w, start, now0, d + 1, mv),
                steady_start == (fine && firm(w, start, d + 1, mv)),
                steady_start ==> led(w, start, d, items),
                fine ==> children_sorted(n0),
                steps_valid(steps_view(cur@)),
                steps_legal(steps_view(cur@)),
                node_phase(ns, lvl, s0, b0, *self, *b, run, children_view(out@), items),
                b.walk@.max_depth == b0.walk@.max_depth,
                forall|s: u64| #[trigger] b0.reusable(s) ==> b.reusable(s),
                fine ==> midway(w, start, steps_view(cur@), d, hi0, hi, *b, items, n0),
            ensures
                run.cs().len() == 0 || at_end(steps_view(cur@), di as int),
            decreases b.walk@.budget,
        {
            if run.is_empty() || di == 0 {
                break;
            }
            let ghost sv = steps_view(cur@);
            let ghost lo = w.places(start);
            let ghost b1 = *b;
            proof {
                if fine {
                    assert(at_cursor(w, sv, d, b1, lo, hi)) by {
                        assert forall|k: int| 0 <= k < d implies #[trigger] hi[k] == w.pos(
                            sv,
                            k as nat,
                        ) && lo[k] <= hi[k] by {
                            assert(w.pos(start, k as nat) <= w.pos(sv, k as nat));
                        }
                    }
                }
            }
            let next = match self.advance_cursor(
                cur,
                di,
                ns,
                b,
                Ghost(w),
                Ghost(lo),
                Ghost(hi),
            ) {
                Ok(p) => p,
                Err(e) => {
                    proof {
                        if fine {
                            lemma_extends_trans(w.img, s0.file@, self.file@);
                        }
                    }
                    return Err(e);
                },
            };
            let ghost b2 = *b;
            proof {
                lemma_node_phase_reads(
                    ns,
                    lvl,
                    s0,
                    b0,
                    *self,
                    b1,
                    b2,
                    run,
                    children_view(out@),
                    items,
                );
                if fine {
                    lemma_extends_trans(w.img, s0.file@, self.file@);
                }
            }
            match next {
                None => {
                    proof {
                        assert(b2 == b1);
                    }
                    break;
                },
                Some(p) => {
                    let ghost nv = steps_view(cur@);
                    let ghost q = w.pos(nv, d);
                    let ghost c = w.pos(sv, d);
                    let ghost hm = moved(w, nv, d, hi);
                    proof {
                        if fine {
                            assert(hm[d as int] == c);
                            if w.d <= b2.walk@.max_depth {
                                lemma_read_allowed(w, self.file@, b2, lo, hm, d, q);
                            }
                            lemma_place_live(w.img, w.ns, w.top, w.d, d, q);
                            lemma_node_extends(w.img, self.file@, w.ns, p@.child_slot);
                            assert(node_fits(w.img, w.ns, w.at(d)[q], (w.d - d) as nat));
                        }
                    }
                    let read = match self.read_node(p.child_slot, p.child_hash, ns, di as u8, b) {
                        Ok(n) => n,
                        Err(e) => {
                            return Err(e);
                        },
                    };
                    let ghost b3 = *b;
                    proof {
                        lemma_node_phase_reads(
                            ns,
                            lvl,
                            s0,
                            b0,
                            *self,
                            b2,
                            b3,
                            run,
                            children_view(out@),
                            items,
                        );
                    }
                    match read {
                        IndexNode::Leaf(_) => {
                            assert(!fine);
                            return Err(Error::Malformed("leaf found above the tree's leaf level"));
                        },
                        IndexNode::Internal(inner) => {
                            let n: usize = inner.children.len();
                            let ghost cs = inner@.children;
                            let ghost up = w.at(d);
                            let ghost more = flat(kids(w.img, w.ns), up.skip(q + 1));
                            let ghost lft = flat(kids(w.img, w.ns), up.take(w.pos(start, d)));
                            proof {
                                assert(cs.subrange(0, cs.len() as int) =~= cs);
                                if fine {
                                    lemma_flat_split(kids(w.img, w.ns), up, q);
                                    assert(q == c + 1);
                                    assert(n0 =~= lft + (items + cs) + more);
                                    lemma_sorted_segment(n0, lft, items + cs, more);
                                }
                            }
                            match self.push_children(
                                &inner.children,
                                0,
                                n,
                                &mut run,
                                b,
                                &mut out,
                                Ghost(ns),
                                Ghost(lvl),
                                Ghost(s0),
                                Ghost(b0),
                                Ghost(items),
                            ) {
                                Ok(()) => {},
                                Err(e) => {
                                    return Err(e);
                                },
                            }
                            proof {
                                items = items + cs;
                                lemma_reuse_same(b3, *b);
                                if fine {
                                    let h1 = hm.update(d as int, q);
                                    lemma_read_tracks(w, b2, b3, lo, hm, lo, h1, d, q);
                                    lemma_tracks_same(w, b3, *b, lo, h1);
                                    hi = h1;
                                    assert(midway(w, start, nv, d, hi0, hi, *b, items, n0)) by {
                                        assert forall|m: nat| m <= d implies #[trigger] w.pos(
                                            start,
                                            m,
                                        ) <= w.pos(nv, m) by {
                                            assert(w.pos(start, m) <= w.pos(sv, m));
                                            assert(w.pos(nv, m) >= w.pos(sv, m));
                                        }
                                    }
                                }
                            }
                        },
                    }
                },
            }
        }
        let ghost nv = steps_view(cur@);
        let at_tail: bool = cursor_at_level_end(cur, di);
        let ghost s4 = *self;
        let ghost b4 = *b;
        let ghost out4 = children_view(out@);
        let ghost run4 = run;
        proof {
            lemma_nodes_done(ns, lvl, s0, b0, s4, b4, run4, out4, items);
            if steady(s0) {
                lemma_steady_grown(s0, s4);
            }
        }
        if at_tail {
            match self.node_seal(&mut run, b, &mut out, true) {
                Ok(()) => {},
                Err(e) => {
                    proof {
                        lemma_laid_trans(s0, s4, *self);
                    }
                    return Err(e);
                },
            }
            proof {
                lemma_laid_trans(s0, s4, *self);
                lemma_appended_trans(
                    s0.file@,
                    s4.file@,
                    b0,
                    b4,
                    *b,
                    Seq::<ChildView>::empty(),
                    out4,
                    children_view(out@),
                );
                lemma_node_groups_joined(self.file@, ns, children_view(out@));
                lemma_node_groups_joined(s4.file@, ns, out4);
                lemma_joined_push(node_groups(s4.file@, ns, out4), run4.cs());
                lemma_reuse_same(b4, *b);
                assert forall|l: int| l != lvl implies #[trigger] b.prev(l) == b0.prev(l) by {
                    assert(b4.prev(l) == b0.prev(l));
                }
                if fine {
                    lemma_tracks_same(w, b4, *b, w.places(start), hi);
                }
            }
        }
        proof {
            let outv = children_view(out@);
            assert(below(self.file@, ns, outv) == items);
            assert(node_groups(self.file@, ns, outv) == node_close(
                node_feed(lvl, no_nodes(), items),
            ));
            if fine && lvl == w.d - di && shaped_at(w, start, now0, d + 1, s0.file@, mv) {
                lemma_path_prefix(w.img, w.ns, w.top, start, w.d, d);
                law_shaped_is_whole_and_snug(w.img, w.ns, w.top, w.d);
                law_shaped_is_whole_and_snug(s0.file@, w.ns, n0, (w.d - d - 1) as nat);
                lemma_rise_whole(w, start, nv, d, s0.file@, self.file@, outv, items, n0);
                lemma_rise_snug(w, start, nv, d, s0.file@, self.file@, outv, items, n0);
                law_shaped_is_whole_and_snug(
                    self.file@,
                    w.ns,
                    spliced(w, start, nv, d, outv),
                    (w.d - d) as nat,
                );
            }
            if fine {
                lemma_rise(
                    w,
                    start,
                    now0,
                    nv,
                    d,
                    hi0,
                    hi,
                    s0,
                    *self,
                    b0,
                    *b,
                    mv,
                    outv,
                    items,
                    es,
                );
            }
        }
        Ok((out, Ghost(hi)))
    }
}

// ---------------------------------------------------------------------------
// The whole update
// ---------------------------------------------------------------------------

/// A tree of some height that holds these entries.
pub open spec fn holds_tree(
    img: Image,
    ns: Namespace,
    root: (u64, [u8; 32]),
    es: Seq<EntryView>,
) -> bool {
    exists|g: nat| #[trigger]
        tree(img, ns, root.0, root.1@, g) && tree_entries(img, ns, root.0, root.1@, g) == es
}

/// Every key before the first leaf of the update is before every operation.
proof fn lemma_prefix_before_ops(w: Was, a: int, ov: Seq<OpView>, key: Seq<u8>)
    requires
        w.good(),
        0 <= a < w.at(w.d).len(),
        ov.len() > 0,
        ov[0].0 == key,
        a > 0 ==> lex_lt(w.at(w.d)[a].first_key, key),
    ensures
        forall|i: int|
            0 <= i < flat(leaves(w.img, w.ns), w.at(w.d).take(a)).len() ==> lex_lt(
                (#[trigger] flat(leaves(w.img, w.ns), w.at(w.d).take(a))[i]).0,
                key,
            ),
{
    let all = w.at(w.d);
    let head = flat(leaves(w.img, w.ns), all.take(a));
    if a > 0 {
        lemma_down_ok(w.img, w.ns, w.top, w.d, w.d);
        assert(all =~= all.take(a) + all.skip(a));
        lemma_flat_append(leaves(w.img, w.ns), all.take(a), all.skip(a));
        let tail = leaves_from(w, a);
        lemma_sorted_parts(head, tail);
        lemma_level_ok_part(w.img, w.ns, all, 0, a, a);
        lemma_level_first(w.img, w.ns, all.skip(a), 0);
        assert(tail[0].0 == all[a].first_key);
        assert forall|i: int| 0 <= i < head.len() implies lex_lt((#[trigger] head[i]).0, key) by {
            assert(lex_lt(head[i].0, tail[0].0));
            lemma_lex_trans(head[i].0, tail[0].0, key);
        }
    } else {
        assert(all.take(0) =~= Seq::<ChildView>::empty());
        assert(head =~= Seq::<EntryView>::empty());
    }
}

/// The leaf level after the leaves have been rewritten.
#[verifier::spinoff_prover]
#[verifier::rlimit(40)]
proof fn lemma_first_rise(
    w: Was,
    start: Seq<StepView>,
    now: Seq<StepView>,
    s0: Space,
    s: Space,
    b0: Build,
    b: Build,
    out: Seq<ChildView>,
    pushed: Seq<EntryView>,
    ov: Seq<OpView>,
    key: Seq<u8>,
)
    requires
        w.good(),
        w.img == s0.file@,
        at_leaf(w, start, now, b),
        leaves_done(w.ns, s0, b0, s, b, out, pushed),
        b0.emitted@ == Set::<u64>::empty(),
        ops_sorted(ov),
        ov.len() > 0,
        ov[0].0 == key,
        pushed + leaves_from(w, w.pos(now, w.d) + 1) == merged(
            leaves_from(w, w.pos(start, w.d)),
            ov,
        ),
        w.pos(start, w.d) > 0 ==> lex_lt(w.at(w.d)[w.pos(start, w.d)].first_key, key),
    ensures
        risen(
            w,
            start,
            now,
            w.d,
            w.places(now),
            s,
            b,
            out,
            merged(level_entries(w.img, w.ns, w.top, w.d), ov),
        ),
{
    let img = s.file@;
    let ns = w.ns;
    let all = w.at(w.d);
    let a = w.pos(start, w.d);
    let c = w.pos(now, w.d);
    let lo = w.places(start);
    let hi = w.places(now);
    let n1 = spliced(w, start, now, w.d, out);
    let es = level_entries(w.img, w.ns, w.top, w.d);
    lemma_path_point(w.img, w.ns, w.top, start, w.d);
    lemma_path_point(w.img, w.ns, w.top, now, w.d);
    assert(w.pos(start, w.d) <= w.pos(now, w.d));
    lemma_goal_sorted(w, a, ov);
    lemma_down_ok(w.img, w.ns, w.top, w.d, w.d);
    assert(flat(leaves(w.img, ns), all) == es);
    lemma_merged_sorted(es, ov);
    lemma_prefix_before_ops(w, a, ov, key);
    lemma_merged_prefix(flat(leaves(w.img, ns), all.take(a)), leaves_from(w, a), ov);
    // The old leaves read as they did.
    assert forall|i: int| 0 <= i < all.len() implies leaves(img, ns)(#[trigger] all[i]) == leaves(
        w.img,
        ns,
    )(all[i]) && node_fits(img, ns, all[i], 0) by {
        lemma_place_live(w.img, w.ns, w.top, w.d, w.d, i);
        lemma_node_extends(w.img, img, ns, all[i].child_slot);
    }
    let left = all.take(a);
    let right = all.skip(c + 1);
    assert forall|i: int| 0 <= i < left.len() implies leaves(img, ns)(#[trigger] left[i])
        == leaves(w.img, ns)(left[i]) by {
        assert(left[i] == all[i]);
    }
    assert forall|i: int| 0 <= i < right.len() implies leaves(img, ns)(#[trigger] right[i])
        == leaves(w.img, ns)(right[i]) by {
        assert(right[i] == all[c + 1 + i]);
    }
    lemma_flat_same(leaves(img, ns), leaves(w.img, ns), left);
    lemma_flat_same(leaves(img, ns), leaves(w.img, ns), right);
    lemma_flat_append(leaves(img, ns), left + out, right);
    lemma_flat_append(leaves(img, ns), left, out);
    let lf = flat(leaves(w.img, ns), left);
    assert(level_entries(img, ns, n1, 0) =~= lf + (pushed + leaves_from(w, c + 1)));
    assert forall|i: int| 0 <= i < n1.len() implies node_fits(img, ns, #[trigger] n1[i], 0) by {
        let r = lemma_spliced_index(w, start, now, w.d, out, i);
        if r >= 0 {
            assert(node_fits(img, ns, all[r], 0));
        } else {
            assert(node_fits(img, ns, out[i - a], 0));
        }
    }
    let slots = level_slots(img, ns, n1, 0);
    assert forall|i: int, j: int| 0 <= i < j < slots.len() implies slots[i] != slots[j] by {
        let p = lemma_spliced_index(w, start, now, w.d, out, i);
        let q = lemma_spliced_index(w, start, now, w.d, out, j);
        if p >= 0 && q >= 0 {
            lemma_places_differ(w.img, w.ns, w.top, w.d, w.d, p, w.d, q);
        } else if p < 0 && q < 0 {
            assert(out[i - a].child_slot != out[j - a].child_slot);
        } else if p >= 0 {
            lemma_place_spare(w, lo, hi, w.d, p);
            lemma_spare_not_reusable(w, b, lo, hi, w.d, all[p].child_slot);
            assert(new_slot(w.img, b0, b, out[j - a].child_slot));
        } else {
            lemma_place_spare(w, lo, hi, w.d, q);
            lemma_spare_not_reusable(w, b, lo, hi, w.d, all[q].child_slot);
            assert(new_slot(w.img, b0, b, out[i - a].child_slot));
        }
    }
    assert(kept(w, lo, hi, w.d, img, b, slots)) by {
        reveal(kept);
        assert forall|i: int| 0 <= i < slots.len() implies live(img, #[trigger] slots[i]) && (
        b.emitted@.contains(slots[i]) || spare(w, lo, hi, w.d, slots[i])) by {
            let p = lemma_spliced_index(w, start, now, w.d, out, i);
            if p >= 0 {
                lemma_place_spare(w, lo, hi, w.d, p);
                assert(node_fits(img, ns, all[p], 0));
            } else {
                assert(new_slot(w.img, b0, b, out[i - a].child_slot));
            }
        }
    }
    assert(sourced(w, b)) by {
        reveal(sourced);
        assert forall|t: u64| #[trigger] b.emitted@.contains(t) implies !live(w.img, t)
            || b.reusable(t) by {
            assert(new_slot(w.img, b0, b, t));
        }
    }
}

/// With whole leaves before, the leaf level has whole leaves after.
proof fn lemma_first_whole(
    w: Was,
    start: Seq<StepView>,
    now: Seq<StepView>,
    img: Image,
    out: Seq<ChildView>,
    pushed: Seq<EntryView>,
)
    requires
        w.good(),
        extends(w.img, img),
        w.path(start, w.d),
        w.path(now, w.d),
        w.pos(start, w.d) <= w.pos(now, w.d),
        leaf_groups(img, w.ns, out) == leaf_close(leaf_feed(no_leaves(), pushed)),
        whole(w.img, w.ns, w.top, w.d),
    ensures
        whole(img, w.ns, spliced(w, start, now, w.d, out), 0),
{
    let all = w.at(w.d);
    let left = all.take(w.pos(start, w.d));
    let right = all.skip(w.pos(now, w.d) + 1);
    lemma_path_point(w.img, w.ns, w.top, start, w.d);
    lemma_path_point(w.img, w.ns, w.top, now, w.d);
    lemma_down_whole(w.img, w.ns, w.top, w.d, w.d);
    lemma_down_ok(w.img, w.ns, w.top, w.d, w.d);
    lemma_whole_extends(w.img, img, w.ns, all, 0);
    assert(all =~= left + all.skip(w.pos(start, w.d)));
    lemma_whole_append(img, w.ns, left, all.skip(w.pos(start, w.d)), 0);
    assert(all =~= all.take(w.pos(now, w.d) + 1) + right);
    lemma_whole_append(img, w.ns, all.take(w.pos(now, w.d) + 1), right, 0);
    lemma_cut_leaves_whole(img, w.ns, out, pushed);
    lemma_whole_append(img, w.ns, left, out, 0);
    lemma_whole_append(img, w.ns, left + out, right, 0);
}

/// What the update starts with at depth `k` stays what it starts with, unless
/// it starts with the first node of all.
pub open spec fn firm(w: Was, start: Seq<StepView>, k: nat, mid: Seq<ChildView>) -> bool {
    w.pos(start, k) > 0 ==> mid.len() > 0 && mid[0].first_key == w.at(k)[w.pos(
        start,
        k,
    )].first_key
}

/// The nodes over `items` start as the first node that they replace did,
/// unless that is the first node of all.
pub open spec fn led(w: Was, start: Seq<StepView>, k: nat, items: Seq<ChildView>) -> bool {
    w.pos(start, k) > 0 ==> items.len() > 0 && items[0].first_key == kids(w.img, w.ns)(
        w.at(k)[w.pos(start, k)],
    )[0].first_key
}

/// The first entry that is written is the first of the leaf that the update
/// starts with, unless that is the first leaf of all.
proof fn lemma_first_entry(
    w: Was,
    a: int,
    c: int,
    pushed: Seq<EntryView>,
    ov: Seq<OpView>,
)
    requires
        w.good(),
        0 < a <= c < w.at(w.d).len(),
        ops_sorted(ov),
        ov.len() > 0,
        lex_lt(w.at(w.d)[a].first_key, ov[0].0),
        pushed + leaves_from(w, c + 1) == merged(leaves_from(w, a), ov),
    ensures
        pushed.len() > 0,
        leaves(w.img, w.ns)(w.at(w.d)[a]).len() > 0,
        pushed[0] == leaves(w.img, w.ns)(w.at(w.d)[a])[0],
        pushed[0].0 == w.at(w.d)[a].first_key,
{
    let all = w.at(w.d);
    let f = leaves(w.img, w.ns);
    let from = leaves_from(w, a);
    let rest = leaves_from(w, c + 1);
    lemma_down_ok(w.img, w.ns, w.top, w.d, w.d);
    lemma_place_live(w.img, w.ns, w.top, w.d, w.d, a);
    assert(node_fits(w.img, w.ns, all[a], 0));
    let leaf = f(all[a]);
    assert(leaf.len() > 0 && leaf[0].0 == all[a].first_key);
    // `from` is the leaf, then what is up to the cursor, then the rest.
    assert(all.skip(a) =~= seq![all[a]] + all.skip(a + 1));
    lemma_flat_append(f, seq![all[a]], all.skip(a + 1));
    assert(seq![all[a]].drop_last() =~= Seq::<ChildView>::empty());
    assert(flat(f, seq![all[a]]) =~= leaf) by {
        assert(flat(f, Seq::<ChildView>::empty()) =~= Seq::<EntryView>::empty());
        assert(flat(f, seq![all[a]]) == flat(f, seq![all[a]].drop_last()) + f(seq![all[a]].last()));
    }
    assert(from[0] == leaf[0]);
    let mid = all.subrange(a + 1, c + 1);
    assert(all.skip(a + 1) =~= mid + all.skip(c + 1));
    lemma_flat_append(f, mid, all.skip(c + 1));
    let n = (leaf.len() + flat(f, mid).len()) as int;
    assert(from =~= leaf + flat(f, mid) + rest);
    lemma_goal_sorted(w, a, ov);
    assert(keys_sorted(from)) by {
        assert(all =~= all.take(a) + all.skip(a));
        lemma_flat_append(f, all.take(a), all.skip(a));
        lemma_sorted_parts(flat(f, all.take(a)), from);
    }
    let head = seq![from[0]];
    let tail = from.skip(1);
    assert(from =~= head + tail);
    lemma_merged_prefix(head, tail, ov);
    let goal = merged(from, ov);
    assert(goal[0] == from[0]);
    if pushed.len() == 0 {
        assert(goal =~= rest);
        assert(rest[0] == from[n]);
        assert(lex_lt(from[0].0, from[n].0));
        lemma_lex_total(from[0].0, from[n].0);
        assert(false);
    }
    assert((pushed + rest)[0] == pushed[0]);
}

/// With snug leaves before, the leaf level has snug leaves after.
#[verifier::spinoff_prover]
#[verifier::rlimit(80)]
proof fn lemma_first_snug(
    w: Was,
    start: Seq<StepView>,
    now: Seq<StepView>,
    img: Image,
    out: Seq<ChildView>,
    pushed: Seq<EntryView>,
    ov: Seq<OpView>,
)
    requires
        w.good(),
        extends(w.img, img),
        w.path(start, w.d),
        w.path(now, w.d),
        w.pos(start, w.d) <= w.pos(now, w.d),
        level_ok(img, w.ns, out, 0),
        leaf_groups(img, w.ns, out) == leaf_close(leaf_feed(no_leaves(), pushed)),
        at_end(now, w.d as int) || leaf_feed(no_leaves(), pushed).1.len() == 0,
        ops_sorted(ov),
        ov.len() > 0,
        pushed + leaves_from(w, w.pos(now, w.d) + 1) == merged(
            leaves_from(w, w.pos(start, w.d)),
            ov,
        ),
        w.pos(start, w.d) > 0 ==> lex_lt(w.at(w.d)[w.pos(start, w.d)].first_key, ov[0].0),
        snug(w.img, w.ns, w.top, w.d),
    ensures
        snug(img, w.ns, spliced(w, start, now, w.d, out), 0),
        firm(w, start, w.d, out),
{
    let ns = w.ns;
    let cutter = leaf_cutter();
    let all = w.at(w.d);
    let a = w.pos(start, w.d);
    let c = w.pos(now, w.d);
    let n1 = spliced(w, start, now, w.d, out);
    let was = leaf_groups(w.img, ns, all);
    let gl = was.subrange(0, a);
    let gm = leaf_groups(img, ns, out);
    let gr = was.subrange(c + 1, was.len() as int);
    lemma_path_point(w.img, ns, w.top, start, w.d);
    lemma_path_point(w.img, ns, w.top, now, w.d);
    lemma_down_snug(w.img, ns, w.top, w.d, w.d);
    lemma_chained_part(cutter, was, 0, a);
    lemma_chained_part(cutter, was, c + 1, was.len() as int);
    lemma_leaf_cut(pushed);
    lemma_cut_chained(cutter, pushed);
    if a > 0 {
        lemma_first_entry(w, a, c, pushed, ov);
        lemma_cut_first(cutter, pushed);
        assert(closed_off(cutter, was[a - 1], was[a - 1 + 1]));
        assert(was[a] == leaves(w.img, ns)(all[a]));
        assert(gl.last() == was[a - 1]);
        assert(gm.len() == out.len());
        assert(gm[0] == leaves(img, ns)(out[0]));
        assert(node_fits(img, ns, out[0], 0));
    }
    if gm.len() > 0 && gr.len() > 0 {
        if at_end(now, w.d as int) {
            lemma_at_end(w.img, ns, w.top, now, w.d);
            assert(false);
        }
        let fed = leaf_feed(no_leaves(), pushed);
        assert(fed.1 =~= Seq::<EntryView>::empty());
        assert(fed == (gm, Seq::<EntryView>::empty()));
        lemma_closed_at_once(cutter, pushed, gm);
    }
    lemma_chained_splice(cutter, gl, gm, gr);
    assert(leaf_groups(img, ns, n1) =~= gl + gm + gr) by {
        assert forall|i: int| 0 <= i < n1.len() implies #[trigger] leaf_groups(img, ns, n1)[i] == (gl
            + gm + gr)[i] by {
            let r = lemma_spliced_index(w, start, now, w.d, out, i);
            if r >= 0 {
                lemma_place_live(w.img, ns, w.top, w.d, w.d, r);
                lemma_node_extends(w.img, img, ns, all[r].child_slot);
                assert(was[r] == leaves(w.img, ns)(all[r]));
            } else {
                assert(gm[i - a] == leaves(img, ns)(out[i - a]));
            }
        }
    }
}

/// What stands below the nodes of a depth once they have been rewritten.
proof fn lemma_rise_below(
    w: Was,
    start: Seq<StepView>,
    now: Seq<StepView>,
    di: nat,
    img: Image,
    out: Seq<ChildView>,
    items: Seq<ChildView>,
)
    requires
        w.good(),
        di < w.d,
        w.path(start, di),
        w.path(now, di),
        w.pos(start, di) <= w.pos(now, di),
        extends(w.img, img),
        below(img, w.ns, out) == items,
    ensures
        below(img, w.ns, spliced(w, start, now, di, out)) == flat(
            kids(w.img, w.ns),
            w.at(di).take(w.pos(start, di)),
        ) + items + flat(kids(w.img, w.ns), w.at(di).skip(w.pos(now, di) + 1)),
{
    let ns = w.ns;
    let up = w.at(di);
    lemma_path_point(w.img, ns, w.top, start, di);
    lemma_path_point(w.img, ns, w.top, now, di);
    let left = up.take(w.pos(start, di));
    let right = up.skip(w.pos(now, di) + 1);
    assert forall|i: int| 0 <= i < up.len() implies kids(img, ns)(#[trigger] up[i]) == kids(
        w.img,
        ns,
    )(up[i]) by {
        lemma_place_live(w.img, ns, w.top, w.d, di, i);
        lemma_node_extends(w.img, img, ns, up[i].child_slot);
    }
    assert forall|i: int| 0 <= i < left.len() implies kids(img, ns)(#[trigger] left[i]) == kids(
        w.img,
        ns,
    )(left[i]) by {
        assert(left[i] == up[i]);
    }
    assert forall|i: int| 0 <= i < right.len() implies kids(img, ns)(#[trigger] right[i]) == kids(
        w.img,
        ns,
    )(right[i]) by {
        assert(right[i] == up[w.pos(now, di) + 1 + i]);
    }
    lemma_flat_same(kids(img, ns), kids(w.img, ns), left);
    lemma_flat_same(kids(img, ns), kids(w.img, ns), right);
    lemma_flat_append(kids(img, ns), left + out, right);
    lemma_flat_append(kids(img, ns), left, out);
}

/// With snug nodes before and below, the level has snug nodes after.
#[verifier::spinoff_prover]
#[verifier::rlimit(80)]
proof fn lemma_rise_snug(
    w: Was,
    start: Seq<StepView>,
    now: Seq<StepView>,
    di: nat,
    img0: Image,
    img: Image,
    out: Seq<ChildView>,
    items: Seq<ChildView>,
    n0: Seq<ChildView>,
)
    requires
        w.good(),
        di < w.d,
        w.d <= 32,
        w.path(start, di),
        w.path(now, di),
        w.pos(start, di) <= w.pos(now, di),
        extends(w.img, img0),
        extends(img0, img),
        inner_ok(img, w.ns, out),
        below(img, w.ns, out) == items,
        level_ok(img0, w.ns, n0, (w.d - di - 1) as nat),
        n0 == flat(kids(w.img, w.ns), w.at(di).take(w.pos(start, di))) + items + flat(
            kids(w.img, w.ns),
            w.at(di).skip(w.pos(now, di) + 1),
        ),
        snug(w.img, w.ns, w.top, w.d),
        snug(img0, w.ns, n0, (w.d - di - 1) as nat),
        node_groups(img, w.ns, out) == node_close(
            node_feed((w.d - di) as u8, no_nodes(), items),
        ),
        at_end(now, di as int) || node_feed((w.d - di) as u8, no_nodes(), items).1.len() == 0,
        led(w, start, di, items),
    ensures
        snug(img, w.ns, spliced(w, start, now, di, out), (w.d - di) as nat),
        firm(w, start, di, out),
{
    let ns = w.ns;
    let h = (w.d - di) as nat;
    let cutter = node_cutter(h as u8);
    let up = w.at(di);
    let a = w.pos(start, di);
    let c = w.pos(now, di);
    let n1 = spliced(w, start, now, di, out);
    let was = node_groups(w.img, ns, up);
    let gl = was.subrange(0, a);
    let gm = node_groups(img, ns, out);
    let gr = was.subrange(c + 1, was.len() as int);
    lemma_extends_trans(w.img, img0, img);
    lemma_path_point(w.img, ns, w.top, start, di);
    lemma_path_point(w.img, ns, w.top, now, di);
    lemma_down_snug(w.img, ns, w.top, w.d, di);
    lemma_snug_extends(img0, img, ns, n0, (h - 1) as nat);
    lemma_rise_below(w, start, now, di, img, out, items);
    lemma_chained_part(cutter, was, 0, a);
    lemma_chained_part(cutter, was, c + 1, was.len() as int);
    lemma_node_cut(h as u8, items);
    lemma_cut_chained(cutter, items);
    if a > 0 {
        lemma_cut_first(cutter, items);
        assert(closed_off(cutter, was[a - 1], was[a - 1 + 1]));
        assert(was[a] == kids(w.img, ns)(up[a]));
        lemma_place_live(w.img, ns, w.top, w.d, di, a);
        assert(node_fits(w.img, ns, up[a], h));
        assert(gl.last() == was[a - 1]);
        assert(gm.len() == out.len());
        assert(gm[0] == kids(img, ns)(out[0]));
        assert(gm[0][0].first_key == was[a][0].first_key);
        assert(closed_off(cutter, gl.last(), gm[0]));
        assert(node_fits(img, ns, out[0], 1));
    }
    if gm.len() > 0 && gr.len() > 0 {
        if at_end(now, di as int) {
            lemma_at_end(w.img, ns, w.top, now, di);
            assert(false);
        }
        let fed = node_feed(h as u8, no_nodes(), items);
        assert(fed.1 =~= Seq::<ChildView>::empty());
        assert(fed == (gm, Seq::<ChildView>::empty()));
        lemma_closed_at_once(cutter, items, gm);
    }
    lemma_chained_splice(cutter, gl, gm, gr);
    assert(node_groups(img, ns, n1) =~= gl + gm + gr) by {
        assert forall|i: int| 0 <= i < n1.len() implies #[trigger] node_groups(img, ns, n1)[i] == (gl
            + gm + gr)[i] by {
            let r = lemma_spliced_index(w, start, now, di, out, i);
            if r >= 0 {
                lemma_place_live(w.img, ns, w.top, w.d, di, r);
                lemma_node_extends(w.img, img, ns, up[r].child_slot);
                assert(was[r] == kids(w.img, ns)(up[r]));
            } else {
                assert(gm[i - a] == kids(img, ns)(out[i - a]));
            }
        }
    }
}

/// With whole nodes before and below, the level has whole nodes after.
proof fn lemma_rise_whole(
    w: Was,
    start: Seq<StepView>,
    now: Seq<StepView>,
    di: nat,
    img0: Image,
    img: Image,
    out: Seq<ChildView>,
    items: Seq<ChildView>,
    n0: Seq<ChildView>,
)
    requires
        w.good(),
        di < w.d,
        w.d <= 32,
        w.path(start, di),
        w.path(now, di),
        w.pos(start, di) <= w.pos(now, di),
        extends(w.img, img0),
        extends(img0, img),
        inner_ok(img, w.ns, out),
        below(img, w.ns, out) == items,
        level_ok(img0, w.ns, n0, (w.d - di - 1) as nat),
        n0 == flat(kids(w.img, w.ns), w.at(di).take(w.pos(start, di))) + items + flat(
            kids(w.img, w.ns),
            w.at(di).skip(w.pos(now, di) + 1),
        ),
        whole(w.img, w.ns, w.top, w.d),
        whole(img0, w.ns, n0, (w.d - di - 1) as nat),
        node_groups(img, w.ns, out) == node_close(
            node_feed((w.d - di) as u8, no_nodes(), items),
        ),
    ensures
        whole(img, w.ns, spliced(w, start, now, di, out), (w.d - di) as nat),
{
    let ns = w.ns;
    let h = (w.d - di) as nat;
    let up = w.at(di);
    let left = up.take(w.pos(start, di));
    let right = up.skip(w.pos(now, di) + 1);
    let n1 = spliced(w, start, now, di, out);
    lemma_extends_trans(w.img, img0, img);
    lemma_path_point(w.img, ns, w.top, start, di);
    lemma_path_point(w.img, ns, w.top, now, di);
    lemma_down_whole(w.img, ns, w.top, w.d, di);
    lemma_down_ok(w.img, ns, w.top, w.d, di);
    lemma_whole_extends(w.img, img, ns, up, h);
    lemma_whole_extends(img0, img, ns, n0, (h - 1) as nat);
    lemma_rise_level(w, start, now, di, img0, img, out, items, n0);
    lemma_cut_nodes_whole(img, ns, out, items, h as u8);
    lemma_rise_below(w, start, now, di, img, out, items);
    assert forall|i: int| 0 <= i < n1.len() implies one_run(
        node_cutter(h as u8),
        kids(img, ns)(#[trigger] n1[i]),
    ) by {
        let a = w.pos(start, di);
        let r = lemma_spliced_index(w, start, now, di, out, i);
        if r >= 0 {
            assert(n1[i] == up[r]);
        } else {
            assert(n1[i] == out[i - a]);
        }
    }
}

/// Nodes that come first have children.
proof fn lemma_first_kid_after(w: Was, k: nat, i: int)
    requires
        w.good(),
        k < w.d,
        0 < i <= w.at(k).len(),
    ensures
        first_kid(w.img, w.ns, w.at(k), i) > 0,
{
    let part = w.at(k).take(i);
    lemma_place_live(w.img, w.ns, w.top, w.d, k, 0);
    assert(node_fits(w.img, w.ns, w.at(k)[0], (w.d - k) as nat));
    assert(part[0] == w.at(k)[0]);
    lemma_flat_split(kids(w.img, w.ns), part, 0);
}

/// Children before the first one replaced, then the new ones, then more:
/// these start as the node did.
proof fn lemma_led(
    w: Was,
    start: Seq<StepView>,
    k: nat,
    mid: Seq<ChildView>,
    prefix: Seq<ChildView>,
    suffix: Seq<ChildView>,
)
    requires
        w.good(),
        k < w.d,
        w.path(start, k + 1),
        firm(w, start, k + 1, mid),
        prefix == start[k as int].0.subrange(0, start[k as int].1),
    ensures
        led(w, start, k, prefix + mid + suffix),
{
    let at = w.pos(start, k);
    let items = prefix + mid + suffix;
    lemma_path_point(w.img, w.ns, w.top, start, k + 1);
    lemma_path_prefix(w.img, w.ns, w.top, start, k + 1, k);
    lemma_path_point(w.img, w.ns, w.top, start, k);
    if at > 0 {
        lemma_first_kid_after(w, k, at);
        assert(w.pos(start, k + 1) > 0);
        assert(start[k as int].0 == kids(w.img, w.ns)(w.at(k)[at]));
        if prefix.len() > 0 {
            assert(items[0] == prefix[0]);
        } else {
            assert(items[0] == mid[0]);
        }
    }
}

/// Nothing is under no nodes.
proof fn lemma_no_nodes_no_entries(img: Image, ns: Namespace, h: nat)
    ensures
        level_entries(img, ns, Seq::<ChildView>::empty(), h) == Seq::<EntryView>::empty(),
    decreases h,
{
    if h == 0 {
        assert(flat(leaves(img, ns), Seq::<ChildView>::empty()) =~= Seq::<EntryView>::empty());
    } else {
        assert(below(img, ns, Seq::<ChildView>::empty()) =~= Seq::<ChildView>::empty());
        lemma_no_nodes_no_entries(img, ns, (h - 1) as nat);
    }
}

/// A level of one node is a tree; one of none holds nothing.
proof fn lemma_level_is_tree(
    img: Image,
    ns: Namespace,
    ps: Seq<ChildView>,
    h: nat,
    es: Seq<EntryView>,
    root: (u64, [u8; 32]),
)
    requires
        level_ok(img, ns, ps, h),
        level_entries(img, ns, ps, h) == es,
        keys_sorted(es),
        level_slots(img, ns, ps, h).no_duplicates(),
        ps.len() == 1 ==> root.0 == ps[0].child_slot && root.1@ == ps[0].child_hash,
    ensures
        ps.len() == 0 ==> es.len() == 0,
        ps.len() == 1 ==> es.len() > 0 && holds_tree(img, ns, root, es),
        ps.len() == 1 ==> tree(img, ns, root.0, root.1@, h) && seq![
            root_ptr(img, ns, root.0, root.1@),
        ] == ps,
{
    if ps.len() == 0 {
        assert(ps =~= Seq::<ChildView>::empty());
        lemma_no_nodes_no_entries(img, ns, h);
    } else if ps.len() == 1 {
        lemma_level_first(img, ns, ps, h);
        assert(node_fits(img, ns, ps[0], h));
        assert(root_ptr(img, ns, root.0, root.1@) == ps[0]);
        assert(seq![root_ptr(img, ns, root.0, root.1@)] =~= ps);
        assert(tree(img, ns, root.0, root.1@, h));
    }
}

/// With the whole level rewritten, the new nodes are the level.
proof fn lemma_spliced_whole(
    w: Was,
    start: Seq<StepView>,
    now: Seq<StepView>,
    k: nat,
    mid: Seq<ChildView>,
)
    requires
        w.path(start, k),
        w.path(now, k),
        at_start(start, k as int),
        at_end(now, k as int),
    ensures
        spliced(w, start, now, k, mid) == mid,
{
    lemma_at_start(w.img, w.ns, w.top, start, k);
    lemma_at_end(w.img, w.ns, w.top, now, k);
    assert(spliced(w, start, now, k, mid) =~= mid);
}

/// A tree of height `g` that is cut where its items say. One that is high has
/// several nodes below its root.
pub open spec fn cut_to(img: Image, ns: Namespace, root: (u64, [u8; 32]), g: nat) -> bool {
    &&& tree(img, ns, root.0, root.1@, g)
    &&& shaped(img, ns, seq![root_ptr(img, ns, root.0, root.1@)], g)
    &&& g <= 32 || forked(img, ns, root.0, root.1@, g)
}

/// A tree of some height that is cut where its items say.
pub open spec fn cut_somehow(img: Image, ns: Namespace, root: (u64, [u8; 32])) -> bool {
    exists|g: nat| #[trigger] cut_to(img, ns, root, g)
}

/// The tree under `top` has the leaves of the tree of height `d` under `root`,
/// but for those that the operations reach.
pub open spec fn relaid_to(
    was: Image,
    ns: Namespace,
    root: RootView,
    d: nat,
    img: Image,
    top: (u64, [u8; 32]),
    ops: Seq<OpView>,
) -> bool {
    exists|lv: Seq<ChildView>| #[trigger]
        stands_on(img, ns, top, lv) && relaid_somewhere(
            was,
            ns,
            tree_leaves(was, ns, root.index_slot, root.payload_hash, d),
            lv,
            ops,
        )
}

/// A tree of height `h` that holds what one of height `g` does, and is cut as
/// that is.
pub open spec fn trimmed_to(
    img: Image,
    ns: Namespace,
    root: (u64, [u8; 32]),
    g: nat,
    top: (u64, [u8; 32]),
    h: nat,
) -> bool {
    &&& tree(img, ns, top.0, top.1@, h)
    &&& tree_entries(img, ns, top.0, top.1@, h) == tree_entries(img, ns, root.0, root.1@, g)
    &&& shaped(img, ns, seq![root_ptr(img, ns, root.0, root.1@)], g) ==> shaped(
        img,
        ns,
        seq![root_ptr(img, ns, top.0, top.1@)],
        h,
    )
    &&& tree_leaves(img, ns, top.0, top.1@, h) == tree_leaves(img, ns, root.0, root.1@, g)
}

/// A tree that holds the same, without an idle root.
pub open spec fn trimmed(
    img: Image,
    ns: Namespace,
    root: (u64, [u8; 32]),
    g: nat,
    top: (u64, [u8; 32]),
) -> bool {
    exists|h: nat| #[trigger]
        trimmed_to(img, ns, root, g, top, h) && (g <= 32 || forked(img, ns, root.0, root.1@, g)
            ==> forked(img, ns, top.0, top.1@, h))
}

/// What stands below a root.
proof fn lemma_under_root(img: Image, ns: Namespace, slot: u64, hash: Seq<u8>, h: nat)
    requires
        tree(img, ns, slot, hash, h),
        h > 0,
    ensures
        node_at(img, slot, ns) matches Ok(NodeView::Internal(n)) && below(
            img,
            ns,
            seq![root_ptr(img, ns, slot, hash)],
        ) == n.children,
{
    let p = root_ptr(img, ns, slot, hash);
    assert(node_fits(img, ns, seq![p][0], h));
    lemma_flat_split(kids(img, ns), seq![p], 0);
    assert(seq![p].take(0) =~= Seq::<ChildView>::empty());
    assert(seq![p].skip(1) =~= Seq::<ChildView>::empty());
    assert(below(img, ns, seq![p]) =~= kids(img, ns)(p));
}

/// An only child is the root of all that is there.
proof fn lemma_only_child(img: Image, ns: Namespace, slot: u64, hash: Seq<u8>, h: nat)
    requires
        tree(img, ns, slot, hash, h),
        h > 0,
        below(img, ns, seq![root_ptr(img, ns, slot, hash)]).len() == 1,
    ensures
        ({
            let c = below(img, ns, seq![root_ptr(img, ns, slot, hash)])[0];
            let k = (h - 1) as nat;
            &&& root_ptr(img, ns, c.child_slot, c.child_hash) == c
            &&& tree(img, ns, c.child_slot, c.child_hash, k)
            &&& tree_entries(img, ns, c.child_slot, c.child_hash, k) == tree_entries(
                img,
                ns,
                slot,
                hash,
                h,
            )
            &&& shaped(img, ns, seq![root_ptr(img, ns, slot, hash)], h) ==> shaped(
                img,
                ns,
                seq![c],
                k,
            )
            &&& tree_leaves(img, ns, c.child_slot, c.child_hash, k) == tree_leaves(
                img,
                ns,
                slot,
                hash,
                h,
            )
        }),
{
    let ps = seq![root_ptr(img, ns, slot, hash)];
    let cs = below(img, ns, ps);
    lemma_down_below(img, ns, ps, (h - 1) as nat);
    let c = cs[0];
    let k = (h - 1) as nat;
    assert(level_ok(img, ns, cs, k));
    assert(node_fits(img, ns, cs[0], k));
    assert(root_ptr(img, ns, c.child_slot, c.child_hash) == c);
    assert(seq![c] =~= cs);
    let all = level_slots(img, ns, ps, h);
    let low = level_slots(img, ns, cs, k);
    assert forall|i: int, j: int| 0 <= i < j < low.len() implies low[i] != low[j] by {
        assert(all[slots_of(ps).len() + i] == low[i]);
        assert(all[slots_of(ps).len() + j] == low[j]);
    }
}

/// The leaves once they have been rewritten, and those that stay.
proof fn lemma_relaid(
    w: Was,
    start: Seq<StepView>,
    now: Seq<StepView>,
    out: Seq<ChildView>,
    ov: Seq<OpView>,
)
    requires
        w.good(),
        w.path(start, w.d),
        w.path(now, w.d),
        w.pos(start, w.d) <= w.pos(now, w.d),
        w.pos(start, w.d) > 0 ==> lex_lt(w.at(w.d)[w.pos(start, w.d)].first_key, ov[0].0),
        w.pos(start, w.d) + 1 < w.at(w.d).len() ==> !lex_lt(
            w.at(w.d)[w.pos(start, w.d) + 1].first_key,
            ov[0].0,
        ),
        forall|k: int|
            w.pos(start, w.d) < k <= w.pos(now, w.d) ==> !#[trigger] realigned(
                w.img,
                w.ns,
                w.at(w.d),
                ov,
                w.pos(start, w.d),
                k,
            ),
    ensures
        relaid_somewhere(w.img, w.ns, w.at(w.d), spliced(w, start, now, w.d, out), ov),
{
    let was = w.at(w.d);
    let i = w.pos(start, w.d);
    let j = w.pos(now, w.d) + 1;
    lemma_path_point(w.img, w.ns, w.top, start, w.d);
    lemma_path_point(w.img, w.ns, w.top, now, w.d);
    let lv = spliced(w, start, now, w.d, out);
    assert(lv.take(i) =~= was.take(i));
    assert(lv.skip(lv.len() - (was.len() - j)) =~= was.skip(j));
    assert(relaid(w.img, w.ns, was, lv, ov, i, j));
}

impl Space {
    /// Applies operations to the tree under `root`, and gives a node that
    /// everything is under; none where nothing is left.
    #[verifier::spinoff_prover]
    #[verifier::rlimit(60)]
    fn rewrite_tree(
        &mut self,
        ns: Namespace,
        root: &IndexRoot,
        ops: &KeyOps,
        b: &mut Build,
        Ghost(d): Ghost<nat>,
    ) -> (r: Result<Option<(u64, [u8; 32])>, Error>)
        requires
            old(self).wf(),
            old(b).wf(),
            old(b).emitted@ == Set::<u64>::empty(),
            old(b).reuse@.len() == 0,
            untouched_from(*old(b), 0),
            old(b).walk@ == old(self).walk_now(),
            ops.wf(),
            root@.namespace == ns,
            ops@.len() > 0,
        ensures
            final(self).wf(),
            laid(*old(self), *final(self), old(b).seq),
            r matches Err(e) ==> !(e is PublishUncertain),
            r is Ok ==> opens_for(old(self).file@, ns, root@.index_slot, ops@[0].0),
            tree(old(self).file@, ns, root@.index_slot, root@.payload_hash, d) ==> match r {
                Ok(None) => merged(
                    tree_entries(old(self).file@, ns, root@.index_slot, root@.payload_hash, d),
                    ops@,
                ).len() == 0,
                Ok(Some(top)) => merged(
                    tree_entries(old(self).file@, ns, root@.index_slot, root@.payload_hash, d),
                    ops@,
                ).len() > 0 && holds_tree(
                    final(self).file@,
                    ns,
                    top,
                    merged(
                        tree_entries(old(self).file@, ns, root@.index_slot, root@.payload_hash, d),
                        ops@,
                    ),
                ) && relaid_to(old(self).file@, ns, root@, d, final(self).file@, top, ops@),
                Err(e) => failed(*old(self), *final(self), e, d <= old(self).walk_now().max_depth),
            },
            tree(old(self).file@, ns, root@.index_slot, root@.payload_hash, d) && shaped(
                old(self).file@,
                ns,
                seq![root_ptr(old(self).file@, ns, root@.index_slot, root@.payload_hash)],
                d,
            ) ==> (r matches Ok(Some(top)) ==> cut_somehow(final(self).file@, ns, top)),
    {
        let ghost s0 = *self;
        let ghost img0 = self.file@;
        let ghost hash = root@.payload_hash;
        let ghost slot = root@.index_slot;
        proof {
            lemma_laid_refl(s0);
        }
        let ghost ov = ops@;
        let ghost w = Was {
            img: img0,
            ns,
            top: seq![root_ptr(img0, ns, slot, hash)],
            d,
            owned: s0.state.owned_slots@,
        };
        let ghost fine = tree(img0, ns, slot, hash, d);
        let ghost neat = fine && shaped(img0, ns, w.top, d);
        let ghost lucky = fine && d <= b.walk@.max_depth;
        let ghost es = merged(tree_entries(img0, ns, slot, hash, d), ov);
        let first_key = copy_of(ops.ops[0].0.as_slice());
        let count: u64 = self.file.slot_count();
        proof {
            assert(ov[0].0 == first_key@);
            lemma_extends_refl(img0);
            if fine {
                assert(w.good());
                assert(tracks(
                    w,
                    *b,
                    Seq::new((w.d + 1) as nat, |k: int| 0int),
                    Seq::new((w.d + 1) as nat, |k: int| -1int),
                )) by {
                    reveal(tracks);
                    assert forall|s: u64| !#[trigger] b.reusable(s) by {}
                }
            }
        }
        let found = match self.descend(root, first_key.as_slice(), b, Ghost(w)) {
            Ok(f) => f,
            Err(e) => {
                return Err(e);
            },
        };
        let orig: Vec<Step> = found.steps;
        let mut cur: Vec<Step> = copy_steps(&orig);
        let depth: usize = orig.len();
        let ghost start = steps_view(orig@);
        let ghost b1 = *b;
        let mut mid: Vec<ChildPointer> = Vec::new();
        let ghost mut lv = Seq::<ChildView>::empty();
        proof {
            assert(b.prev(0) is None);
            if fine {
                assert(at_leaf(w, start, start, *b));
            }
        }
        match self.rewrite_leaves(ns, found.leaf, &mut cur, ops, b, &mut mid, Ghost(w)) {
            Ok(t) => {
                proof {
                    if fine {
                        lemma_first_rise(
                            w,
                            start,
                            steps_view(cur@),
                            s0,
                            *self,
                            b1,
                            *b,
                            children_view(mid@),
                            t.1@,
                            ov,
                            first_key@,
                        );
                        lv = leaves_at(
                            w,
                            start,
                            steps_view(cur@),
                            w.d,
                            self.file@,
                            children_view(mid@),
                        );
                        lemma_relaid(w, start, steps_view(cur@), children_view(mid@), ov);
                    }
                    if neat {
                        let now = steps_view(cur@);
                        let out = children_view(mid@);
                        law_shaped_is_whole_and_snug(img0, ns, w.top, d);
                        lemma_first_whole(w, start, now, self.file@, out, t.1@);
                        lemma_first_snug(w, start, now, self.file@, out, t.1@, ov);
                        law_shaped_is_whole_and_snug(
                            self.file@,
                            ns,
                            spliced(w, start, now, w.d, out),
                            0,
                        );
                    }
                }
            },
            Err(e) => {
                return Err(e);
            },
        }
        let ghost mut hi = w.places(steps_view(cur@));
        proof {
            assert(untouched_from(*b, 1)) by {
                assert forall|l: int| l >= 1 implies #[trigger] b.prev(l) is None by {
                    assert(b1.prev(l) is None);
                }
            }
        }
        let mut level: usize = 1;
        while level <= depth
            invariant
                1 <= level <= depth + 1,
                depth == orig@.len(),
                depth <= 32,
                cur@.len() == depth,
                start == steps_view(orig@),
                s0 == *old(self),
                img0 == s0.file@,
                slot == root@.index_slot,
                hash == root@.payload_hash,
                ov == ops@,
                ov.len() > 0,
                opens_for(img0, ns, slot, ov[0].0),
                fine == tree(img0, ns, slot, hash, d),
                neat == (fine && shaped(img0, ns, w.top, d)),
                fine ==> relaid_somewhere(img0, ns, w.at(w.d), lv, ov),
                fine ==> leaves_at(
                    w,
                    start,
                    steps_view(cur@),
                    (depth + 1 - level) as nat,
                    self.file@,
                    children_view(mid@),
                ) == lv,
                neat ==> shaped_at(
                    w,
                    start,
                    steps_view(cur@),
                    (depth + 1 - level) as nat,
                    self.file@,
                    children_view(mid@),
                ),
                lucky == (fine && d <= s0.walk_now().max_depth),
                es == merged(tree_entries(img0, ns, slot, hash, d), ov),
                w == (Was {
                    img: img0,
                    ns,
                    top: seq![root_ptr(img0, ns, slot, hash)],
                    d,
                    owned: s0.state.owned_slots@,
                }),
                self.wf(),
                b.wf(),
                grounded(*b, self.file@),
                b.seq == old(b).seq,
                laid(s0, *self, b.seq),
                steps_valid(start),
                steps_legal(start),
                steps_valid(steps_view(cur@)),
                steps_legal(steps_view(cur@)),
                all_legal(children_view(mid@)),
                untouched_from(*b, level as int),
                b.walk@.max_depth == s0.walk_now().max_depth,
                fine ==> w.good() && start.len() == w.d,
                fine ==> risen(
                    w,
                    start,
                    steps_view(cur@),
                    (depth + 1 - level) as nat,
                    hi,
                    *self,
                    *b,
                    children_view(mid@),
                    es,
                ),
            decreases depth + 1 - level,
        {
            let k: usize = depth + 1 - level;
            let ghost now = steps_view(cur@);
            let at_head: bool = cursor_at_level_start(&orig, k);
            let at_tail: bool = cursor_at_level_end(&cur, k);
            if at_head && at_tail && mid.len() <= 1 {
                proof {
                    if fine {
                        lemma_path_prefix(w.img, w.ns, w.top, start, w.d, k as nat);
                        lemma_spliced_whole(w, start, now, k as nat, children_view(mid@));
                    }
                }
                if mid.len() == 0 {
                    proof {
                        if fine {
                            lemma_level_is_tree(
                                self.file@,
                                ns,
                                children_view(mid@),
                                (w.d - k) as nat,
                                es,
                                (root.index_slot, root.payload_hash),
                            );
                        }
                    }
                    return Ok(None);
                }
                let top: (u64, [u8; 32]) = (mid[0].child_slot, mid[0].child_hash);
                proof {
                    if fine {
                        lemma_level_is_tree(
                            self.file@,
                            ns,
                            children_view(mid@),
                            (w.d - k) as nat,
                            es,
                            top,
                        );
                        assert(tree(self.file@, ns, top.0, top.1@, (w.d - k) as nat));
                        assert(stands_on(self.file@, ns, top, lv));
                    }
                    if neat {
                        assert(cut_to(self.file@, ns, top, (w.d - k) as nat));
                    }
                }
                return Ok(Some(top));
            }
            let di: usize = k - 1;
            let ghost s2 = *self;
            let ghost b2 = *b;
            proof {
                if steady(s0) {
                    lemma_steady_grown(s0, s2);
                }
                assert(b.prev(level as int) is None);
            }
            match self.rewrite_level(
                ns,
                level as u8,
                di,
                &orig,
                &mut cur,
                mid,
                b,
                Ghost(w),
                Ghost(hi),
                Ghost(es),
            ) {
                Ok(t) => {
                    proof {
                        lemma_laid_trans(s0, s2, *self);
                        hi = t.1@;
                        assert forall|l: int| l >= level + 1 implies #[trigger] b.prev(
                            l,
                        ) is None by {
                            assert(b2.prev(l) is None);
                        }
                    }
                    mid = t.0;
                },
                Err(e) => {
                    proof {
                        lemma_laid_trans(s0, s2, *self);
                    }
                    return Err(e);
                },
            }
            level = level + 1;
        }
        let ghost now = steps_view(cur@);
        let ghost mv = children_view(mid@);
        proof {
            if fine {
                assert(at_start(start, 0));
                assert(at_end(now, 0));
                lemma_path_prefix(w.img, w.ns, w.top, start, w.d, 0);
                lemma_spliced_whole(w, start, now, 0, mv);
                lemma_kept_apart(
                    w,
                    w.places(start),
                    hi,
                    0,
                    self.file@,
                    *b,
                    level_slots(self.file@, ns, mv, w.d),
                );
            }
        }
        if mid.len() == 0 {
            proof {
                if fine {
                    let top = (root.index_slot, root.payload_hash);
                    lemma_level_is_tree(self.file@, ns, mv, w.d, es, top);
                }
            }
            return Ok(None);
        }
        if mid.len() == 1 {
            let top: (u64, [u8; 32]) = (mid[0].child_slot, mid[0].child_hash);
            proof {
                if fine {
                    lemma_level_is_tree(self.file@, ns, mv, w.d, es, top);
                    assert(tree(self.file@, ns, top.0, top.1@, w.d));
                    assert(stands_on(self.file@, ns, top, lv));
                }
                if neat {
                    assert(cut_to(self.file@, ns, top, w.d));
                }
            }
            return Ok(Some(top));
        }
        let ghost s3 = *self;
        proof {
            if steady(s0) {
                lemma_steady_grown(s0, s3);
            }
            if fine {
                assert(solid(self.file@, *b, ns, mv, d));
                lemma_level_first(self.file@, ns, mv, d);
            }
        }
        let r = self.grow_levels(ns, mid, (depth + 1) as u8, b, Ghost(d));
        proof {
            lemma_laid_trans(s0, s3, *self);
            if fine {
                if let Ok(Some(top)) = r {
                    let cut = cut_below(s3.file@, ns, mv, d, (depth + 1) as u8);
                    assert(grew_to(self.file@, ns, top, d, es, cut, true));
                    let g = choose|g: nat| #[trigger]
                        topped(self.file@, ns, top, d, g, es, cut, true);
                    assert(tree(self.file@, ns, top.0, top.1@, g));
                    assert(holds_tree(self.file@, ns, top, es));
                    assert(stands_on(self.file@, ns, top, lv));
                    if neat {
                        assert(shaped(s3.file@, ns, mv, d));
                        assert(cut);
                        assert(cut_to(self.file@, ns, top, g));
                    }
                }
            }
        }
        r
    }

    /// The lowest node that everything under `root` is under: goes down while
    /// there is one child only.
    fn trim_root(&self, ns: Namespace, root: (u64, [u8; 32]), Ghost(g): Ghost<nat>) -> (r: (
        u64,
        [u8; 32],
    ))
        ensures
            tree(self.file@, ns, root.0, root.1@, g) ==> trimmed(self.file@, ns, root, g, r),
    {
        let ghost img = self.file@;
        let ghost fine = tree(img, ns, root.0, root.1@, g);
        let ghost mut h = g;
        let mut top: (u64, [u8; 32]) = root;
        let mut n: u8 = 0;
        while n < 32
            invariant
                n <= 32,
                img == self.file@,
                fine == tree(img, ns, root.0, root.1@, g),
                fine ==> h + n == g && trimmed_to(img, ns, root, g, top, h),
                n == 0 ==> top == root,
                fine && n > 0 ==> !forked(img, ns, root.0, root.1@, g),
            ensures
                fine ==> trimmed_to(img, ns, root, g, top, h) && (g <= 32 || forked(
                    img,
                    ns,
                    root.0,
                    root.1@,
                    g,
                ) ==> forked(img, ns, top.0, top.1@, h)),
            decreases 32 - n,
        {
            proof {
                if fine {
                    assert(node_fits(img, ns, seq![root_ptr(img, ns, top.0, top.1@)][0], h));
                    if h > 0 {
                        lemma_under_root(img, ns, top.0, top.1@, h);
                    }
                }
            }
            match self.read_index_node_at_expected(top.0, ns) {
                Err(_) => {
                    break;
                },
                Ok(IndexNode::Leaf(_)) => {
                    break;
                },
                Ok(IndexNode::Internal(node)) => {
                    if node.children.len() != 1 {
                        break;
                    }
                    let ghost was = top;
                    assert(node@.children[0] == node.children@[0]@);
                    top = (node.children[0].child_slot, node.children[0].child_hash);
                    proof {
                        if fine {
                            lemma_only_child(img, ns, was.0, was.1@, h);
                            h = (h - 1) as nat;
                        }
                    }
                    n = n + 1;
                },
            }
        }
        proof {
            if fine {
                assert(trimmed_to(img, ns, root, g, top, h));
            }
        }
        top
    }

    /// Applies operations to the tree under `root`, and gives the root of
    /// what comes out; none where nothing is left. Of a tree as it is built
    /// from nothing it makes the tree that would be built from nothing.
    pub fn update_tree(
        &mut self,
        ns: Namespace,
        root: &IndexRoot,
        ops: &KeyOps,
        b: &mut Build,
        Ghost(d): Ghost<nat>,
    ) -> (r: Result<Option<(u64, [u8; 32])>, Error>)
        requires
            old(self).wf(),
            old(b).wf(),
            old(b).emitted@ == Set::<u64>::empty(),
            old(b).reuse@.len() == 0,
            untouched_from(*old(b), 0),
            old(b).walk@ == old(self).walk_now(),
            ops.wf(),
            root@.namespace == ns,
        ensures
            final(self).wf(),
            laid(*old(self), *final(self), old(b).seq),
            ops@.len() == 0 ==> r == Ok::<Option<(u64, [u8; 32])>, Error>(
                Some((root.index_slot, root.payload_hash)),
            ) && *final(self) == *old(self),
            r matches Err(e) ==> !(e is PublishUncertain),
            ops@.len() > 0 && r is Ok ==> opens_for(
                old(self).file@,
                ns,
                root@.index_slot,
                ops@[0].0,
            ),
            ops@.len() > 0 && tree(old(self).file@, ns, root@.index_slot, root@.payload_hash, d)
                ==> match r {
                Ok(None) => merged(
                    tree_entries(old(self).file@, ns, root@.index_slot, root@.payload_hash, d),
                    ops@,
                ).len() == 0,
                Ok(Some(top)) => merged(
                    tree_entries(old(self).file@, ns, root@.index_slot, root@.payload_hash, d),
                    ops@,
                ).len() > 0 && holds_tree(
                    final(self).file@,
                    ns,
                    top,
                    merged(
                        tree_entries(old(self).file@, ns, root@.index_slot, root@.payload_hash, d),
                        ops@,
                    ),
                ) && relaid_to(old(self).file@, ns, root@, d, final(self).file@, top, ops@),
                Err(e) => failed(*old(self), *final(self), e, d <= old(self).walk_now().max_depth),
            },
            tree(old(self).file@, ns, root@.index_slot, root@.payload_hash, d) && is_neat(
                old(self).file@,
                ns,
                root@.index_slot,
                root@.payload_hash,
            ) ==> (r matches Ok(Some(top)) ==> is_neat(final(self).file@, ns, top.0, top.1@)),
    {
        let ghost s0 = *self;
        let ghost img0 = self.file@;
        let ghost hash = root@.payload_hash;
        let ghost slot = root@.index_slot;
        proof {
            lemma_laid_refl(s0);
        }
        if ops.ops.len() == 0 {
            return Ok(Some((root.index_slot, root.payload_hash)));
        }
        let ghost fine = tree(img0, ns, slot, hash, d);
        let ghost neat = fine && is_neat(img0, ns, slot, hash);
        proof {
            if neat {
                let g = choose|g: nat| #[trigger]
                    tree(img0, ns, slot, hash, g) && shaped(
                        img0,
                        ns,
                        seq![root_ptr(img0, ns, slot, hash)],
                        g,
                    ) && forked(img0, ns, slot, hash, g);
                lemma_tree_unique(img0, ns, slot, hash, g, d);
            }
        }
        match self.rewrite_tree(ns, root, ops, b, Ghost(d)) {
            Ok(Some(top)) => {
                let ghost img = self.file@;
                let ghost es = merged(tree_entries(img0, ns, slot, hash, d), ops@);
                let ghost g = choose|g: nat| #[trigger]
                    tree(img, ns, top.0, top.1@, g) && tree_entries(img, ns, top.0, top.1@, g)
                        == es;
                let low = self.trim_root(ns, top, Ghost(g));
                proof {
                    if fine {
                        assert(trimmed(img, ns, top, g, low));
                        let h = choose|h: nat| #[trigger]
                            trimmed_to(img, ns, top, g, low, h) && (g <= 32 || forked(
                                img,
                                ns,
                                top.0,
                                top.1@,
                                g,
                            ) ==> forked(img, ns, low.0, low.1@, h));
                        assert(tree(img, ns, low.0, low.1@, h));
                        let lv = choose|lv: Seq<ChildView>| #[trigger]
                            stands_on(img, ns, top, lv) && relaid_somewhere(
                                img0,
                                ns,
                                tree_leaves(img0, ns, slot, hash, d),
                                lv,
                                ops@,
                            );
                        let f = choose|f: nat| #[trigger]
                            tree(img, ns, top.0, top.1@, f) && tree_leaves(
                                img,
                                ns,
                                top.0,
                                top.1@,
                                f,
                            ) == lv;
                        lemma_tree_unique(img, ns, top.0, top.1@, g, f);
                        assert(stands_on(img, ns, low, lv));
                        if neat {
                            let c = choose|c: nat| #[trigger] cut_to(img, ns, top, c);
                            lemma_tree_unique(img, ns, top.0, top.1@, g, c);
                        }
                    }
                }
                Ok(Some(low))
            },
            Ok(None) => Ok(None),
            Err(e) => Err(e),
        }
    }
}

} // verus!
