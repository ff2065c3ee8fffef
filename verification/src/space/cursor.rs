//! A place in a tree: the path from the root to a node, and how it moves to
//! the next node of the same depth.

use vstd::prelude::*;

use crate::container::{extends, live, Image};
use crate::seqs::{flat, lemma_flat_index, lemma_flat_split};
use crate::space::index::{ChildView, InternalNode, Namespace};
use crate::space::model::{
    below, down, kids, lemma_level_extends, level_entries, level_ok, level_slots, node_fits,
};

verus! {

// ---------------------------------------------------------------------------
// Depths of a tree
// ---------------------------------------------------------------------------

pub proof fn lemma_down_below(img: Image, ns: Namespace, ps: Seq<ChildView>, k: nat)
    ensures
        down(img, ns, below(img, ns, ps), k) == down(img, ns, ps, k + 1),
    decreases k,
{
    assert(down(img, ns, ps, 0) == ps);
    assert(down(img, ns, ps, k + 1) == below(img, ns, down(img, ns, ps, k)));
    if k > 0 {
        lemma_down_below(img, ns, ps, (k - 1) as nat);
    }
}

/// The nodes at a depth of a sound tree are sound, and have all its entries
/// under them.
pub proof fn lemma_down_ok(img: Image, ns: Namespace, ps: Seq<ChildView>, h: nat, k: nat)
    requires
        level_ok(img, ns, ps, h),
        k <= h,
    ensures
        level_ok(img, ns, down(img, ns, ps, k), (h - k) as nat),
        level_entries(img, ns, down(img, ns, ps, k), (h - k) as nat) == level_entries(
            img,
            ns,
            ps,
            h,
        ),
    decreases k,
{
    if k > 0 {
        lemma_down_ok(img, ns, ps, h, (k - 1) as nat);
    }
}

/// The nodes at a depth of a sound tree stay as the file grows.
pub proof fn lemma_down_extends(
    a: Image,
    b: Image,
    ns: Namespace,
    ps: Seq<ChildView>,
    h: nat,
    k: nat,
)
    requires
        extends(a, b),
        level_ok(a, ns, ps, h),
        k <= h,
    ensures
        down(b, ns, ps, k) == down(a, ns, ps, k),
    decreases k,
{
    if k > 0 {
        let j = (k - 1) as nat;
        lemma_down_extends(a, b, ns, ps, h, j);
        lemma_down_ok(a, ns, ps, h, j);
        lemma_level_extends(a, b, ns, down(a, ns, ps, j), (h - j) as nat);
    }
}

/// How many nodes stand above depth `k`.
pub open spec fn above(img: Image, ns: Namespace, ps: Seq<ChildView>, k: nat) -> nat
    decreases k,
{
    if k == 0 {
        0
    } else {
        above(img, ns, ps, (k - 1) as nat) + down(img, ns, ps, (k - 1) as nat).len()
    }
}

proof fn lemma_above_below(img: Image, ns: Namespace, ps: Seq<ChildView>, k: nat)
    ensures
        above(img, ns, ps, k + 1) == ps.len() + above(img, ns, below(img, ns, ps), k),
    decreases k,
{
    if k > 0 {
        lemma_above_below(img, ns, ps, (k - 1) as nat);
        lemma_down_below(img, ns, ps, (k - 1) as nat);
    } else {
        assert(above(img, ns, ps, 1) == above(img, ns, ps, 0) + down(img, ns, ps, 0).len());
    }
}

/// Where a node's slot stands among all slots.
pub proof fn lemma_slot_index(
    img: Image,
    ns: Namespace,
    ps: Seq<ChildView>,
    h: nat,
    k: nat,
    i: int,
)
    requires
        k <= h,
        0 <= i < down(img, ns, ps, k).len(),
    ensures
        above(img, ns, ps, k) + i < level_slots(img, ns, ps, h).len(),
        level_slots(img, ns, ps, h)[above(img, ns, ps, k) + i] == down(
            img,
            ns,
            ps,
            k,
        )[i].child_slot,
    decreases h,
{
    if h > 0 {
        let sub = below(img, ns, ps);
        if k == 0 {
        } else {
            lemma_down_below(img, ns, ps, (k - 1) as nat);
            lemma_above_below(img, ns, ps, (k - 1) as nat);
            lemma_slot_index(img, ns, sub, (h - 1) as nat, (k - 1) as nat, i);
        }
    }
}

proof fn lemma_above_grows(img: Image, ns: Namespace, ps: Seq<ChildView>, j: nat, k: nat)
    requires
        j < k,
    ensures
        above(img, ns, ps, j) + down(img, ns, ps, j).len() <= above(img, ns, ps, k),
    decreases k,
{
    if j + 1 < k {
        lemma_above_grows(img, ns, ps, j, (k - 1) as nat);
    }
}

/// Two places in a tree have two slots.
pub proof fn lemma_places_differ(
    img: Image,
    ns: Namespace,
    ps: Seq<ChildView>,
    h: nat,
    k: nat,
    i: int,
    m: nat,
    j: int,
)
    requires
        level_slots(img, ns, ps, h).no_duplicates(),
        k <= h,
        m <= h,
        0 <= i < down(img, ns, ps, k).len(),
        0 <= j < down(img, ns, ps, m).len(),
        k != m || i != j,
    ensures
        down(img, ns, ps, k)[i].child_slot != down(img, ns, ps, m)[j].child_slot,
{
    lemma_slot_index(img, ns, ps, h, k, i);
    lemma_slot_index(img, ns, ps, h, m, j);
    if k < m {
        lemma_above_grows(img, ns, ps, k, m);
    } else if m < k {
        lemma_above_grows(img, ns, ps, m, k);
    }
}

// ---------------------------------------------------------------------------
// Paths
// ---------------------------------------------------------------------------

/// One step of a path: a node, and which of its children the path takes.
pub struct Step {
    pub node: InternalNode,
    pub idx: usize,
}

/// A step, with the children as a sequence.
pub type StepView = (Seq<ChildView>, int);

/// The steps of a path.
pub open spec fn steps_view(v: Seq<Step>) -> Seq<StepView> {
    Seq::new(v.len(), |i: int| (v[i].node@.children, v[i].idx as int))
}

/// Every step takes a child that is there.
pub open spec fn steps_valid(steps: Seq<StepView>) -> bool {
    forall|k: int| 0 <= k < steps.len() ==> 0 <= (#[trigger] steps[k]).1 < steps[k].0.len()
}

/// Where the path is at depth `k`: the position among all nodes of that
/// depth.
pub open spec fn pos(
    img: Image,
    ns: Namespace,
    top: Seq<ChildView>,
    steps: Seq<StepView>,
    k: nat,
) -> int
    decreases k,
{
    if k == 0 {
        0
    } else {
        first_kid(
            img,
            ns,
            down(img, ns, top, (k - 1) as nat),
            pos(img, ns, top, steps, (k - 1) as nat),
        ) + steps[k - 1].1
    }
}

/// The position, one level down, of the first child of node `i`.
pub open spec fn first_kid(img: Image, ns: Namespace, level: Seq<ChildView>, i: int) -> int {
    flat(kids(img, ns), level.take(i)).len() as int
}

/// The first `d` steps are a path in the tree.
pub open spec fn path_ok(
    img: Image,
    ns: Namespace,
    top: Seq<ChildView>,
    steps: Seq<StepView>,
    d: nat,
) -> bool
    decreases d,
{
    if d == 0 {
        top.len() == 1
    } else {
        let k = (d - 1) as nat;
        let level = down(img, ns, top, k);
        let at = pos(img, ns, top, steps, k);
        &&& path_ok(img, ns, top, steps, k)
        &&& 0 <= at < level.len()
        &&& steps[k as int].0 == kids(img, ns)(level[at])
        &&& 0 <= steps[k as int].1 < steps[k as int].0.len()
    }
}

/// Where a path leads.
pub proof fn lemma_path_point(
    img: Image,
    ns: Namespace,
    top: Seq<ChildView>,
    steps: Seq<StepView>,
    d: nat,
)
    requires
        path_ok(img, ns, top, steps, d),
    ensures
        0 <= pos(img, ns, top, steps, d) < down(img, ns, top, d).len(),
        d > 0 ==> down(img, ns, top, d)[pos(img, ns, top, steps, d)] == steps[d - 1].0[steps[d
            - 1].1],
{
    if d > 0 {
        let k = (d - 1) as nat;
        lemma_flat_index(
            kids(img, ns),
            down(img, ns, top, k),
            pos(img, ns, top, steps, k),
            steps[d - 1].1,
        );
    }
}

/// A path is one for any depth it passes.
pub proof fn lemma_path_prefix(
    img: Image,
    ns: Namespace,
    top: Seq<ChildView>,
    steps: Seq<StepView>,
    d: nat,
    k: nat,
)
    requires
        path_ok(img, ns, top, steps, d),
        k <= d,
    ensures
        path_ok(img, ns, top, steps, k),
    decreases d,
{
    if k < d {
        lemma_path_prefix(img, ns, top, steps, (d - 1) as nat, k);
    }
}

/// What is below depth `k` of a path does not matter for it.
pub proof fn lemma_path_same(
    img: Image,
    ns: Namespace,
    top: Seq<ChildView>,
    a: Seq<StepView>,
    b: Seq<StepView>,
    d: nat,
)
    requires
        forall|k: int| 0 <= k < d ==> a[k] == b[k],
    ensures
        pos(img, ns, top, a, d) == pos(img, ns, top, b, d),
        path_ok(img, ns, top, a, d) == path_ok(img, ns, top, b, d),
    decreases d,
{
    if d > 0 {
        lemma_path_same(img, ns, top, a, b, (d - 1) as nat);
    }
}

/// Every step is at its node's last child.
pub open spec fn at_end(steps: Seq<StepView>, d: int) -> bool {
    forall|j: int| 0 <= j < d ==> (#[trigger] steps[j]).1 + 1 == steps[j].0.len()
}

/// Every step is at its node's first child.
pub open spec fn at_start(steps: Seq<StepView>, d: int) -> bool {
    forall|j: int| 0 <= j < d ==> (#[trigger] steps[j]).1 == 0
}

/// A path at the end of every node is at the last node.
pub proof fn lemma_at_end(
    img: Image,
    ns: Namespace,
    top: Seq<ChildView>,
    steps: Seq<StepView>,
    d: nat,
)
    requires
        path_ok(img, ns, top, steps, d),
        at_end(steps, d as int),
    ensures
        pos(img, ns, top, steps, d) + 1 == down(img, ns, top, d).len(),
    decreases d,
{
    if d > 0 {
        let k = (d - 1) as nat;
        lemma_at_end(img, ns, top, steps, k);
        let level = down(img, ns, top, k);
        let at = pos(img, ns, top, steps, k);
        lemma_flat_split(kids(img, ns), level, at);
        assert(level.skip(at + 1) =~= Seq::<ChildView>::empty());
        assert(steps[k as int].1 + 1 == steps[k as int].0.len());
    }
}

/// A path at the start of every node is at the first node.
pub proof fn lemma_at_start(
    img: Image,
    ns: Namespace,
    top: Seq<ChildView>,
    steps: Seq<StepView>,
    d: nat,
)
    requires
        at_start(steps, d as int),
    ensures
        pos(img, ns, top, steps, d) == 0,
    decreases d,
{
    if d > 0 {
        let k = (d - 1) as nat;
        lemma_at_start(img, ns, top, steps, k);
        assert(down(img, ns, top, k).take(0) =~= Seq::<ChildView>::empty());
        assert(steps[k as int].1 == 0);
    }
}

/// Two depths of a path: the lower position lies among the children of the
/// upper.
pub proof fn lemma_pos_split(
    img: Image,
    ns: Namespace,
    top: Seq<ChildView>,
    steps: Seq<StepView>,
    k: nat,
)
    requires
        path_ok(img, ns, top, steps, k + 1),
    ensures
        ({
            let up = down(img, ns, top, k);
            let lo = down(img, ns, top, k + 1);
            let at = pos(img, ns, top, steps, k);
            let under = pos(img, ns, top, steps, k + 1);
            let st = steps[k as int];
            &&& lo.take(under) == flat(kids(img, ns), up.take(at)) + st.0.take(st.1)
            &&& lo.skip(under + 1) == st.0.skip(st.1 + 1) + flat(kids(img, ns), up.skip(at + 1))
        }),
{
    let up = down(img, ns, top, k);
    let lo = down(img, ns, top, k + 1);
    let at = pos(img, ns, top, steps, k);
    let under = pos(img, ns, top, steps, k + 1);
    let st = steps[k as int];
    assert(path_ok(img, ns, top, steps, k));
    lemma_flat_split(kids(img, ns), up, at);
    let head = flat(kids(img, ns), up.take(at));
    let tail = flat(kids(img, ns), up.skip(at + 1));
    assert(lo == head + st.0 + tail);
    assert(under == head.len() + st.1);
    assert(lo.take(under) =~= head + st.0.take(st.1));
    assert(lo.skip(under + 1) =~= st.0.skip(st.1 + 1) + tail);
}

// ---------------------------------------------------------------------------
// What has been read
// ---------------------------------------------------------------------------

/// The slot is that of a node between positions `lo` and `hi` of some depth.
pub open spec fn touched(
    img: Image,
    ns: Namespace,
    top: Seq<ChildView>,
    d: nat,
    lo: Seq<int>,
    hi: Seq<int>,
    s: u64,
) -> bool {
    exists|k: nat, i: int|
        k <= d && lo[k as int] <= i <= hi[k as int] && 0 <= i < #[trigger] down(
            img,
            ns,
            top,
            k,
        ).len() && (#[trigger] down(img, ns, top, k)[i]).child_slot == s
}

/// A node outside those positions has not been touched.
pub proof fn lemma_untouched(
    img: Image,
    ns: Namespace,
    top: Seq<ChildView>,
    d: nat,
    lo: Seq<int>,
    hi: Seq<int>,
    k: nat,
    i: int,
)
    requires
        level_slots(img, ns, top, d).no_duplicates(),
        k <= d,
        0 <= i < down(img, ns, top, k).len(),
        !(lo[k as int] <= i <= hi[k as int]),
    ensures
        !touched(img, ns, top, d, lo, hi, down(img, ns, top, k)[i].child_slot),
{
    let s = down(img, ns, top, k)[i].child_slot;
    if touched(img, ns, top, d, lo, hi, s) {
        let (m, j) = choose|m: nat, j: int|
            m <= d && lo[m as int] <= j <= hi[m as int] && 0 <= j < #[trigger] down(
                img,
                ns,
                top,
                m,
            ).len() && (#[trigger] down(img, ns, top, m)[j]).child_slot == s;
        lemma_places_differ(img, ns, top, d, k, i, m, j);
    }
}

/// The slots of a sound tree open.
pub proof fn lemma_place_live(
    img: Image,
    ns: Namespace,
    ps: Seq<ChildView>,
    h: nat,
    k: nat,
    i: int,
)
    requires
        level_ok(img, ns, ps, h),
        k <= h,
        0 <= i < down(img, ns, ps, k).len(),
    ensures
        live(img, down(img, ns, ps, k)[i].child_slot),
        node_fits(img, ns, down(img, ns, ps, k)[i], (h - k) as nat),
{
    lemma_down_ok(img, ns, ps, h, k);
    assert(node_fits(img, ns, down(img, ns, ps, k)[i], (h - k) as nat));
}

} // verus!
