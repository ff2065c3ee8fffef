//! Building and updating a namespace's tree.
//!
//! `build_tree` turns a rising stream of entries into a whole tree;
//! `update_tree` applies operations to a tree by rewriting the leaves they
//! touch and the path above them. Where a node ends is decided by its items
//! alone, so both cut a level at the same places.

use std::collections::HashSet;

use vstd::prelude::*;

use crate::bytes::{bytes_eq, bytes_lt, copy_of, lemma_lex_total, lemma_lex_trans, lex_lt};
use crate::chunk::{ChunkKind, PAYLOAD_CAP};
use crate::container::{extends, lemma_extends_refl, live, Image};
use crate::error::Error;
use crate::seqs::{flat, lemma_flat_same};
use crate::space::cursor::{lemma_down_below, lemma_down_extends};
use crate::space::index::{
    boundary_hash, child_entry_cost, children_sorted, children_view, entries_view, internal_len,
    is_boundary, keys_sorted, law_internal_decode_of_encode, law_leaf_decode_of_encode,
    law_node_decode_of_encode, leaf_entry_cost, leaf_entry_fault, leaf_fault, leaf_len, legal_key,
    lemma_internal_len_push, lemma_leaf_fault_all, lemma_leaf_len_push, node_encode, node_ordered,
    ChildPointer, ChildView, EntryView, IndexNode, InternalNode, LeafNode, Namespace, NodeView,
    MAX_VALUE_LEN, MIN_FULL_INTERNAL_FANOUT, MIN_INTERNAL_CHILDREN, NODE_HEADER_LEN,
};
use crate::space::model::{
    below, down, joined, kids, leaf_close, leaf_feed, leaf_groups, leaf_step, leaves,
    lemma_first_keys_rise, lemma_leaf_close_joined, lemma_level_first, lemma_leaf_feed_joined,
    lemma_leaf_feed_push, lemma_leaf_groups_joined, lemma_level_extends, lemma_node_close_joined,
    lemma_node_extends, lemma_node_feed_joined, lemma_node_feed_push, lemma_node_groups_joined,
    lemma_shaped_extends, level_entries, level_ok, level_slots, no_leaves, no_nodes, node_close,
    node_feed, node_fits, node_groups, node_step, ops_sorted, root_ptr, shaped, slots_of, tree,
    tree_entries, LeafFeed, OpView,
};
use crate::space::walk::{pow_fanout, TreeWalk};
use crate::space::{failed, grown, laid, lemma_laid_refl, lemma_laid_trans, node_at, steady, Space};
use crate::tx::commit::{blake3_digest, blake3_of};

verus! {

broadcast use vstd::std_specs::hash::group_hash_axioms;

// ---------------------------------------------------------------------------
// Operations
// ---------------------------------------------------------------------------

/// One operation per key, by rising key. `None` deletes.
#[derive(Default)]
pub struct KeyOps {
    pub ops: Vec<(Vec<u8>, Option<Vec<u8>>)>,
}

/// An operation, with its bytes as sequences.
pub open spec fn op_view(op: (Vec<u8>, Option<Vec<u8>>)) -> OpView {
    (
        op.0@,
        match op.1 {
            Some(v) => Some(v@),
            None => None,
        },
    )
}

/// Operations, with their bytes as sequences.
pub open spec fn ops_view(v: Seq<(Vec<u8>, Option<Vec<u8>>)>) -> Seq<OpView> {
    Seq::new(v.len(), |i: int| op_view(v[i]))
}

/// The key and the value, if any, have legal lengths.
pub open spec fn op_legal(op: OpView) -> bool {
    legal_key(op.0) && (op.1 matches Some(v) ==> v.len() <= MAX_VALUE_LEN)
}

/// Every operation is legal.
pub open spec fn ops_legal(ops: Seq<OpView>) -> bool {
    forall|i: int| 0 <= i < ops.len() ==> op_legal(#[trigger] ops[i])
}

/// What is to become of `key`: `None` where no operation is on it.
pub open spec fn op_on(ops: Seq<OpView>, key: Seq<u8>) -> Option<Option<Seq<u8>>>
    decreases ops.len(),
{
    if ops.len() == 0 {
        None
    } else if ops.last().0 == key {
        Some(ops.last().1)
    } else {
        op_on(ops.drop_last(), key)
    }
}

/// The operation at a place is the one on its key.
pub proof fn lemma_op_on_at(ops: Seq<OpView>, i: int)
    requires
        ops_sorted(ops),
        0 <= i < ops.len(),
    ensures
        op_on(ops, ops[i].0) == Some(ops[i].1),
    decreases ops.len(),
{
    let last = ops.len() - 1;
    if i < last {
        lemma_lex_total(ops[i].0, ops[last].0);
        assert(lex_lt(ops[i].0, ops[last].0));
        let init = ops.drop_last();
        assert forall|a: int, b: int| 0 <= a < b < init.len() implies lex_lt(
            (#[trigger] init[a]).0,
            (#[trigger] init[b]).0,
        ) by {
            assert(init[a] == ops[a] && init[b] == ops[b]);
        }
        assert(init[i] == ops[i]);
        lemma_op_on_at(init, i);
    }
}

/// A key that no operation is on.
pub proof fn lemma_op_on_none(ops: Seq<OpView>, key: Seq<u8>)
    requires
        forall|i: int| 0 <= i < ops.len() ==> (#[trigger] ops[i]).0 != key,
    ensures
        op_on(ops, key) is None,
    decreases ops.len(),
{
    if ops.len() > 0 {
        let init = ops.drop_last();
        assert(ops[ops.len() - 1].0 != key);
        assert forall|i: int| 0 <= i < init.len() implies (#[trigger] init[i]).0 != key by {
            assert(init[i] == ops[i]);
        }
        lemma_op_on_none(init, key);
    }
}

/// What an operation on a key is, is found somewhere.
pub proof fn lemma_op_on_some(ops: Seq<OpView>, key: Seq<u8>)
    requires
        op_on(ops, key) is Some,
    ensures
        exists|i: int| 0 <= i < ops.len() && (#[trigger] ops[i]) == (key, op_on(ops, key)->0),
    decreases ops.len(),
{
    if ops.last().0 == key {
        assert(ops[ops.len() - 1] == (key, op_on(ops, key)->0));
    } else {
        lemma_op_on_some(ops.drop_last(), key);
        let init = ops.drop_last();
        let i = choose|i: int|
            0 <= i < init.len() && (#[trigger] init[i]) == (key, op_on(init, key)->0);
        assert(ops[i] == init[i]);
    }
}

impl View for KeyOps {
    type V = Seq<OpView>;

    open spec fn view(&self) -> Seq<OpView> {
        ops_view(self.ops@)
    }
}

impl KeyOps {
    /// Says that there are operations, and nothing of what they hold.
    pub fn shown(&self) -> (r: String)
        ensures
            r@ == "Redacted(..)"@,
    {
        "Redacted(..)".to_owned()
    }

    /// One legal operation per key, by rising key.
    pub open spec fn wf(self) -> bool {
        ops_sorted(self@) && ops_legal(self@)
    }

    /// No operations.
    pub fn new() -> (r: KeyOps)
        ensures
            r.wf(),
            r@ == Seq::<OpView>::empty(),
    {
        let r = KeyOps { ops: Vec::new() };
        assert(r@ =~= Seq::<OpView>::empty());
        r
    }

    /// Are there no operations?
    #[must_use]
    pub fn is_empty(&self) -> (r: bool)
        ensures
            r == (self@.len() == 0),
    {
        self.ops.len() == 0
    }

    /// How many operations are on keys before `key`.
    fn place_of(&self, key: &[u8]) -> (r: usize)
        requires
            self.wf(),
        ensures
            r <= self@.len(),
            forall|j: int| 0 <= j < r ==> lex_lt((#[trigger] self@[j]).0, key@),
            forall|j: int| r <= j < self@.len() ==> !lex_lt((#[trigger] self@[j]).0, key@),
    {
        let ghost v = self@;
        let mut lo: usize = 0;
        let mut hi: usize = self.ops.len();
        while lo < hi
            invariant
                v == self@,
                self.wf(),
                lo <= hi <= self.ops@.len(),
                forall|j: int| 0 <= j < lo ==> lex_lt((#[trigger] v[j]).0, key@),
                forall|j: int| hi <= j < v.len() ==> !lex_lt((#[trigger] v[j]).0, key@),
            decreases hi - lo,
        {
            let mid: usize = lo + (hi - lo) / 2;
            assert(v[mid as int].0 == self.ops@[mid as int].0@);
            if bytes_lt(self.ops[mid].0.as_slice(), key) {
                proof {
                    assert forall|j: int| 0 <= j < mid + 1 implies lex_lt(
                        (#[trigger] v[j]).0,
                        key@,
                    ) by {
                        if j < mid {
                            assert(lex_lt(v[j].0, v[mid as int].0));
                            lemma_lex_trans(v[j].0, v[mid as int].0, key@);
                        }
                    }
                }
                lo = mid + 1;
            } else {
                proof {
                    assert forall|j: int| mid <= j < v.len() implies !lex_lt(
                        (#[trigger] v[j]).0,
                        key@,
                    ) by {
                        if j > mid && lex_lt(v[j].0, key@) {
                            assert(lex_lt(v[mid as int].0, v[j].0));
                            lemma_lex_trans(v[mid as int].0, v[j].0, key@);
                        }
                    }
                }
                hi = mid;
            }
        }
        lo
    }

    /// Sets what is to become of `key`, in place of what was set before.
    pub fn insert(&mut self, key: Vec<u8>, value: Option<Vec<u8>>)
        requires
            old(self).wf(),
            op_legal(op_view((key, value))),
        ensures
            final(self).wf(),
            forall|k: Seq<u8>| #[trigger]
                op_on(final(self)@, k) == if k == key@ {
                    Some(op_view((key, value)).1)
                } else {
                    op_on(old(self)@, k)
                },
            final(self)@.len() > 0,
    {
        let ghost was = self@;
        let ghost op = op_view((key, value));
        let i: usize = self.place_of(key.as_slice());
        let replace: bool = i < self.ops.len() && bytes_eq(
            self.ops[i].0.as_slice(),
            key.as_slice(),
        );
        if replace {
            assert(was[i as int].0 == key@);
            self.ops.set(i, (key, value));
            assert(self@ =~= was.update(i as int, op));
        } else {
            self.ops.insert(i, (key, value));
            assert(self@ =~= was.insert(i as int, op));
        }
        proof {
            let now = self@;
            if i < was.len() && !replace {
                lemma_lex_total(was[i as int].0, op.0);
                assert(!lex_lt(was[i as int].0, op.0));
                assert(lex_lt(op.0, was[i as int].0));
            }
            assert forall|j: int| i < j < was.len() implies lex_lt(op.0, (#[trigger] was[j]).0) by {
                assert(lex_lt(was[i as int].0, was[j].0));
                if !replace {
                    lemma_lex_trans(op.0, was[i as int].0, was[j].0);
                }
            }
            assert forall|a: int, b: int| 0 <= a < b < now.len() implies lex_lt(
                (#[trigger] now[a]).0,
                (#[trigger] now[b]).0,
            ) by {
                let shift = if replace {
                    0int
                } else {
                    1int
                };
                let x = if a <= i {
                    a
                } else {
                    a - shift
                };
                let y = if b <= i {
                    b
                } else {
                    b - shift
                };
                if a != i {
                    assert(now[a] == was[x]);
                }
                if b != i {
                    assert(now[b] == was[y]);
                }
            }
            assert forall|j: int| 0 <= j < now.len() implies op_legal(#[trigger] now[j]) by {
                if j < i {
                    assert(now[j] == was[j]);
                } else if j > i {
                    assert(now[j] == if replace {
                        was[j]
                    } else {
                        was[j - 1]
                    });
                }
            }
            assert forall|k: Seq<u8>| #[trigger]
                op_on(now, k) == if k == op.0 {
                    Some(op.1)
                } else {
                    op_on(was, k)
                } by {
                assert(now[i as int] == op);
                lemma_op_on_at(now, i as int);
                if k != op.0 {
                    if op_on(was, k) is Some {
                        lemma_op_on_some(was, k);
                        let j = choose|j: int|
                            0 <= j < was.len() && (#[trigger] was[j]) == (k, op_on(was, k)->0);
                        let m = if j < i || replace {
                            j
                        } else {
                            j + 1
                        };
                        assert(now[m] == was[j]);
                        lemma_op_on_at(now, m);
                    } else {
                        if op_on(now, k) is Some {
                            lemma_op_on_some(now, k);
                            let m = choose|m: int|
                                0 <= m < now.len() && (#[trigger] now[m]) == (k, op_on(now, k)->0);
                            let j = if m < i || replace {
                                m
                            } else {
                                m - 1
                            };
                            assert(now[m] == was[j]);
                            lemma_op_on_at(was, j);
                        }
                    }
                }
            }
        }
    }
}

// ---------------------------------------------------------------------------
// What a build keeps track of
// ---------------------------------------------------------------------------

/// What a build needs besides the entries.
pub struct Build {
    /// Stamped into every chunk that the build writes.
    pub seq: u64,
    /// Nodes of the current tree that have been read: a node that comes out
    /// the same again need not be written again.
    pub reuse: Vec<([u8; 32], u64)>,
    /// Slots that the build points at already.
    pub emitted: HashSet<u64>,
    /// The guard of the walk over the current tree.
    pub walk: TreeWalk,
    /// The last key handed to a leaf.
    pub prev_leaf_key: Option<Vec<u8>>,
    /// The last key handed to each internal level, from the lowest.
    pub prev_level_key: Vec<Option<Vec<u8>>>,
}

/// A remembered key as a sequence.
pub open spec fn key_view(k: Option<Vec<u8>>) -> Option<Seq<u8>> {
    match k {
        Some(v) => Some(v@),
        None => None,
    }
}

impl Build {
    /// The walk's guard is in order.
    pub open spec fn wf(self) -> bool {
        self.walk.wf()
    }

    /// The last key handed to a level: zero for leaves.
    pub open spec fn prev(self, level: int) -> Option<Seq<u8>> {
        if level == 0 {
            key_view(self.prev_leaf_key)
        } else if 1 <= level <= self.prev_level_key@.len() {
            key_view(self.prev_level_key@[level - 1])
        } else {
            None
        }
    }

    /// The slot holds a node of the current tree that has been read.
    pub open spec fn reusable(self, slot: u64) -> bool {
        exists|i: int| 0 <= i < self.reuse@.len() && (#[trigger] self.reuse@[i]).1 == slot
    }

    /// A build that has read and written nothing.
    pub fn new(seq: u64, walk: TreeWalk) -> (r: Build)
        requires
            walk.wf(),
        ensures
            r.wf(),
            r.seq == seq,
            r.walk == walk,
            r.emitted@ == Set::<u64>::empty(),
            r.reuse@.len() == 0,
            forall|l: int| #[trigger] r.prev(l) is None,
    {
        Build {
            seq,
            reuse: Vec::new(),
            emitted: HashSet::new(),
            walk,
            prev_leaf_key: None,
            prev_level_key: Vec::new(),
        }
    }

    /// Notes a node that has been read.
    pub fn remember(&mut self, hash: [u8; 32], slot: u64)
        requires
            old(self).wf(),
        ensures
            final(self).wf(),
            final(self).seq == old(self).seq,
            final(self).emitted == old(self).emitted,
            final(self).walk == old(self).walk,
            forall|l: int| #[trigger] final(self).prev(l) == old(self).prev(l),
            forall|s: u64| #[trigger]
                final(self).reusable(s) <==> old(self).reusable(s) || s == slot,
    {
        self.reuse.push((hash, slot));
        proof {
            let was = old(self).reuse@;
            let now = self.reuse@;
            assert forall|s: u64| #[trigger] self.reusable(s) <==> old(self).reusable(s) || s
                == slot by {
                if old(self).reusable(s) {
                    let i = choose|i: int| 0 <= i < was.len() && (#[trigger] was[i]).1 == s;
                    assert(now[i].1 == s);
                }
                assert(now[was.len() as int].1 == slot);
            }
        }
    }

    /// Notes that `key` goes to a level. Refused where it does not come after
    /// the last one.
    pub fn check_order(&mut self, level: u8, key: &[u8]) -> (r: Result<(), Error>)
        requires
            old(self).wf(),
        ensures
            final(self).wf(),
            final(self).seq == old(self).seq,
            final(self).emitted == old(self).emitted,
            final(self).walk == old(self).walk,
            final(self).reuse == old(self).reuse,
            forall|l: int|
                l != level as int ==> #[trigger] final(self).prev(l) == old(self).prev(l),
            match old(self).prev(level as int) {
                Some(p) if !lex_lt(p, key@) => r == Err::<(), Error>(
                    Error::Malformed("tree nodes are not globally sorted / contain duplicate keys"),
                ),
                _ => r is Ok && final(self).prev(level as int) == Some(key@),
            },
    {
        if level == 0 {
            if let Some(p) = &self.prev_leaf_key {
                if !bytes_lt(p.as_slice(), key) {
                    return Err(
                        Error::Malformed(
                            "tree nodes are not globally sorted / contain duplicate keys",
                        ),
                    );
                }
            }
            self.prev_leaf_key = Some(copy_of(key));
            return Ok(());
        }
        let idx: usize = level as usize - 1;
        while self.prev_level_key.len() <= idx
            invariant
                self.wf(),
                idx == level - 1,
                self.seq == old(self).seq,
                self.emitted == old(self).emitted,
                self.walk == old(self).walk,
                self.reuse == old(self).reuse,
                forall|l: int| #[trigger] self.prev(l) == old(self).prev(l),
            decreases idx + 1 - self.prev_level_key@.len(),
        {
            let ghost before = *self;
            self.prev_level_key.push(None);
            assert forall|l: int| #[trigger] self.prev(l) == old(self).prev(l) by {
                assert(before.prev(l) == old(self).prev(l));
            }
        }
        if let Some(p) = &self.prev_level_key[idx] {
            assert(self.prev(level as int) == Some(p@));
            if !bytes_lt(p.as_slice(), key) {
                return Err(
                    Error::Malformed("tree nodes are not globally sorted / contain duplicate keys"),
                );
            }
        }
        assert(self.prev(level as int) == old(self).prev(level as int));
        let ghost before = *self;
        self.prev_level_key.set(idx, Some(copy_of(key)));
        proof {
            assert forall|l: int| l != level as int implies #[trigger] self.prev(l) == old(
                self,
            ).prev(l) by {
                assert(before.prev(l) == old(self).prev(l));
            }
        }
        Ok(())
    }
}

/// Everything that the build points at opens.
pub open spec fn grounded(b: Build, img: Image) -> bool {
    forall|s: u64| #[trigger] b.emitted@.contains(s) ==> live(img, s)
}

/// Two builds differ in nothing but what they have emitted.
pub open spec fn same_but_emitted(a: Build, b: Build) -> bool {
    &&& b.seq == a.seq
    &&& b.reuse == a.reuse
    &&& b.walk == a.walk
    &&& forall|l: int| #[trigger] b.prev(l) == a.prev(l)
}

/// Two builds differ in nothing but what they have emitted and the last key
/// at one level.
pub open spec fn same_but_level(a: Build, b: Build, level: int) -> bool {
    &&& b.seq == a.seq
    &&& b.reuse == a.reuse
    &&& b.walk == a.walk
    &&& forall|l: int| l != level ==> #[trigger] b.prev(l) == a.prev(l)
}

/// The slot holds an index node with this payload.
pub open spec fn holds_node(img: Image, slot: u64, bytes: Seq<u8>) -> bool {
    live(img, slot) && img[slot as int]->0.kind == ChunkKind::IndexNode && img[slot as int]->0.payload
        == bytes
}

/// The entries of a leaf that is being filled.
pub struct LeafRun {
    pub ns: Namespace,
    pub entries: Vec<(Vec<u8>, Vec<u8>)>,
    pub fill: usize,
}

/// The children of an internal node that is being filled.
pub struct NodeRun {
    pub ns: Namespace,
    pub level: u8,
    pub children: Vec<ChildPointer>,
    pub fill: usize,
}

impl LeafRun {
    /// The entries as sequences.
    pub open spec fn es(self) -> Seq<EntryView> {
        entries_view(self.entries@)
    }

    /// What is in the run makes a leaf.
    pub open spec fn wf(self) -> bool {
        &&& self.fill == leaf_len(self.es())
        &&& self.fill <= PAYLOAD_CAP
        &&& leaf_fault(self.es()) is None
        &&& keys_sorted(self.es())
    }

    /// What is in the run came last.
    pub open spec fn came_last(self, b: Build) -> bool {
        self.es().len() > 0 ==> b.prev(0) == Some(self.es().last().0)
    }

    /// An empty run.
    pub fn new(ns: Namespace) -> (r: LeafRun)
        ensures
            r.ns == ns,
            r.es() == Seq::<EntryView>::empty(),
            r.wf(),
    {
        let r = LeafRun { ns, entries: Vec::new(), fill: NODE_HEADER_LEN };
        assert(r.es() =~= Seq::<EntryView>::empty());
        r
    }

    /// Is the run empty?
    #[must_use]
    pub fn is_empty(&self) -> (r: bool)
        ensures
            r == (self.es().len() == 0),
    {
        self.entries.len() == 0
    }
}

/// Every child can be written.
pub open spec fn all_legal(cs: Seq<ChildView>) -> bool {
    forall|i: int| 0 <= i < cs.len() ==> legal_key((#[trigger] cs[i]).first_key)
}

impl NodeRun {
    /// The children as sequences.
    pub open spec fn cs(self) -> Seq<ChildView> {
        children_view(self.children@)
    }

    /// What is in the run makes an internal node.
    pub open spec fn wf(self) -> bool {
        &&& self.fill == internal_len(self.cs())
        &&& self.fill <= PAYLOAD_CAP
        &&& all_legal(self.cs())
        &&& children_sorted(self.cs())
        &&& self.level > 0
    }

    /// What is in the run came last.
    pub open spec fn came_last(self, b: Build) -> bool {
        self.cs().len() > 0 ==> b.prev(self.level as int) == Some(self.cs().last().first_key)
    }

    /// An empty run.
    pub fn new(ns: Namespace, level: u8) -> (r: NodeRun)
        requires
            level > 0,
        ensures
            r.ns == ns,
            r.level == level,
            r.cs() == Seq::<ChildView>::empty(),
            r.wf(),
    {
        let r = NodeRun { ns, level, children: Vec::new(), fill: NODE_HEADER_LEN };
        assert(r.cs() =~= Seq::<ChildView>::empty());
        r
    }

    /// Is the run empty?
    #[must_use]
    pub fn is_empty(&self) -> (r: bool)
        ensures
            r == (self.cs().len() == 0),
    {
        self.children.len() == 0
    }
}

/// `new` is `old` with pointers added, to slots that the build did not point
/// at before: slots that did not open, or that held a node of the current
/// tree.
pub open spec fn appended(
    img: Image,
    before: Build,
    after: Build,
    old_out: Seq<ChildView>,
    new_out: Seq<ChildView>,
) -> bool {
    &&& old_out.len() <= new_out.len()
    &&& new_out.take(old_out.len() as int) == old_out
    &&& before.emitted@.subset_of(after.emitted@)
    &&& forall|s: u64| #[trigger]
        after.emitted@.contains(s) ==> before.emitted@.contains(s) || new_slot(
            img,
            before,
            after,
            s,
        )
    &&& forall|i: int|
        old_out.len() <= i < new_out.len() ==> new_slot(
            img,
            before,
            after,
            (#[trigger] new_out[i]).child_slot,
        )
    &&& forall|i: int, j: int|
        old_out.len() <= i < j < new_out.len() ==> (#[trigger] new_out[i]).child_slot != (
        #[trigger] new_out[j]).child_slot
}

/// A slot that the build has come to point at.
pub open spec fn new_slot(img: Image, before: Build, after: Build, slot: u64) -> bool {
    &&& !before.emitted@.contains(slot)
    &&& after.emitted@.contains(slot)
    &&& !live(img, slot) || after.reusable(slot)
}

/// Adding pointers twice is adding pointers.
pub proof fn lemma_appended_trans(
    img0: Image,
    img1: Image,
    b0: Build,
    b1: Build,
    b2: Build,
    out0: Seq<ChildView>,
    out1: Seq<ChildView>,
    out2: Seq<ChildView>,
)
    requires
        extends(img0, img1),
        appended(img0, b0, b1, out0, out1),
        appended(img1, b1, b2, out1, out2),
        forall|s: u64| #[trigger] b1.reusable(s) ==> b2.reusable(s),
    ensures
        appended(img0, b0, b2, out0, out2),
{
    assert(out2.take(out0.len() as int) =~= out1.take(out0.len() as int)) by {
        assert(out2.take(out1.len() as int) == out1);
        assert forall|i: int| 0 <= i < out0.len() implies out2[i] == out1[i] by {
            assert(out2.take(out1.len() as int)[i] == out1[i]);
        }
    }
    assert forall|i: int| 0 <= i < out1.len() implies out2[i] == out1[i] by {
        assert(out2.take(out1.len() as int)[i] == out1[i]);
    }
    assert forall|s: u64| #[trigger] b2.emitted@.contains(s) implies b0.emitted@.contains(s)
        || new_slot(img0, b0, b2, s) by {
        if b1.emitted@.contains(s) {
            assert(b0.emitted@.contains(s) || new_slot(img0, b0, b1, s));
        } else {
            assert(new_slot(img1, b1, b2, s));
            assert(live(img0, s) ==> live(img1, s));
        }
    }
    assert forall|i: int| out0.len() <= i < out2.len() implies new_slot(
        img0,
        b0,
        b2,
        (#[trigger] out2[i]).child_slot,
    ) by {
        if i < out1.len() {
            assert(new_slot(img0, b0, b1, out1[i].child_slot));
        } else {
            assert(new_slot(img1, b1, b2, out2[i].child_slot));
            assert(live(img0, out2[i].child_slot) ==> live(img1, out2[i].child_slot));
        }
    }
    assert forall|i: int, j: int| out0.len() <= i < j < out2.len() implies (
    #[trigger] out2[i]).child_slot != (#[trigger] out2[j]).child_slot by {
        if j < out1.len() {
            assert(out2[i] == out1[i] && out2[j] == out1[j]);
        } else if i < out1.len() {
            assert(new_slot(img0, b0, b1, out1[i].child_slot));
            assert(new_slot(img1, b1, b2, out2[j].child_slot));
        }
    }
}

/// Adding no pointers is adding pointers.
pub proof fn lemma_appended_none(img: Image, b0: Build, b1: Build, out: Seq<ChildView>)
    requires
        b0.emitted@ == b1.emitted@,
    ensures
        appended(img, b0, b1, out, out),
{
    assert(out.take(out.len() as int) =~= out);
}

/// Leaves read the same in a larger image.
pub proof fn lemma_leaf_groups_extend(a: Image, b: Image, ns: Namespace, ps: Seq<ChildView>)
    requires
        extends(a, b),
        level_ok(a, ns, ps, 0),
    ensures
        leaf_groups(b, ns, ps) == leaf_groups(a, ns, ps),
{
    assert forall|i: int| 0 <= i < ps.len() implies leaves(b, ns)(#[trigger] ps[i]) == leaves(
        a,
        ns,
    )(ps[i]) by {
        assert(node_fits(a, ns, ps[i], 0));
        lemma_node_extends(a, b, ns, ps[i].child_slot);
    }
    assert(leaf_groups(b, ns, ps) =~= leaf_groups(a, ns, ps));
}

/// Every pointer leads to an internal node that fits it.
pub open spec fn inner_ok(img: Image, ns: Namespace, ps: Seq<ChildView>) -> bool {
    forall|i: int| 0 <= i < ps.len() ==> node_fits(img, ns, #[trigger] ps[i], 1)
}

/// Internal nodes read the same in a larger image.
pub proof fn lemma_inner_extends(a: Image, b: Image, ns: Namespace, ps: Seq<ChildView>)
    requires
        extends(a, b),
        inner_ok(a, ns, ps),
    ensures
        inner_ok(b, ns, ps),
        node_groups(b, ns, ps) == node_groups(a, ns, ps),
        flat(kids(b, ns), ps) == flat(kids(a, ns), ps),
{
    assert forall|i: int| 0 <= i < ps.len() implies kids(b, ns)(#[trigger] ps[i]) == kids(a, ns)(
        ps[i],
    ) && node_fits(b, ns, ps[i], 1) by {
        assert(node_fits(a, ns, ps[i], 1));
        lemma_node_extends(a, b, ns, ps[i].child_slot);
    }
    assert(node_groups(b, ns, ps) =~= node_groups(a, ns, ps));
    lemma_flat_same(kids(b, ns), kids(a, ns), ps);
}

impl Space {
    /// Points at a chunk that holds these bytes: one of the current tree that
    /// does already and is not pointed at yet, else a new one.
    fn emit_index_node(&mut self, bytes: &[u8], b: &mut Build) -> (r: Result<
        (u64, [u8; 32]),
        Error,
    >)
        requires
            old(self).wf(),
            old(b).wf(),
            grounded(*old(b), old(self).file@),
        ensures
            final(self).wf(),
            final(b).wf(),
            grounded(*final(b), final(self).file@),
            laid(*old(self), *final(self), old(b).seq),
            same_but_emitted(*old(b), *final(b)),
            match r {
                Ok((slot, hash)) => {
                    &&& bytes@.len() <= PAYLOAD_CAP
                    &&& hash@ == blake3_digest(bytes@)
                    &&& holds_node(final(self).file@, slot, bytes@)
                    &&& new_slot(old(self).file@, *old(b), *final(b), slot)
                    &&& final(b).emitted@ == old(b).emitted@.insert(slot)
                },
                Err(e) => {
                    &&& final(b).emitted@ == old(b).emitted@
                    &&& failed(*old(self), *final(self), e, bytes@.len() <= PAYLOAD_CAP)
                },
            },
    {
        let hash: [u8; 32] = blake3_of(bytes);
        let mut candidate: Option<u64> = None;
        let mut i: usize = b.reuse.len();
        while i > 0 && candidate.is_none()
            invariant
                i <= b.reuse@.len(),
                candidate matches Some(s) ==> b.reusable(s),
            decreases i,
        {
            i = i - 1;
            if bytes_eq(b.reuse[i].0.as_slice(), hash.as_slice()) {
                assert(b.reuse@[i as int].1 == b.reuse@[i as int].1);
                candidate = Some(b.reuse[i].1);
            }
        }
        if let Some(slot) = candidate {
            if bytes.len() <= PAYLOAD_CAP && !b.emitted.contains(&slot) {
                let mut same: bool = false;
                if let Ok(pt) = self.read_owned_chunk(slot) {
                    same = pt.kind == ChunkKind::IndexNode && bytes_eq(
                        pt.payload.as_slice(),
                        bytes,
                    );
                }
                if same {
                    b.emitted.insert(slot);
                    proof {
                        lemma_laid_refl(*self);
                        assert(b.reusable(slot)) by {
                            assert(b.reuse == old(b).reuse);
                        }
                    }
                    return Ok((slot, hash));
                }
            }
        }
        match self.place_chunk(ChunkKind::IndexNode, b.seq, bytes) {
            Ok(slot) => {
                assert(!b.emitted@.contains(slot));
                b.emitted.insert(slot);
                Ok((slot, hash))
            },
            Err(e) => Err(e),
        }
    }

    /// Closes the leaf that is being filled, if there is anything in it.
    pub(crate) fn leaf_seal(&mut self, run: &mut LeafRun, b: &mut Build, out: &mut Vec<ChildPointer>) -> (r:
        Result<(), Error>)
        requires
            old(self).wf(),
            old(b).wf(),
            grounded(*old(b), old(self).file@),
            old(run).wf(),
            level_ok(old(self).file@, old(run).ns, children_view(old(out)@), 0),
        ensures
            final(self).wf(),
            final(b).wf(),
            grounded(*final(b), final(self).file@),
            laid(*old(self), *final(self), old(b).seq),
            same_but_emitted(*old(b), *final(b)),
            final(run).ns == old(run).ns,
            final(run).wf(),
            r is Ok ==> {
                let was = children_view(old(out)@);
                let now = children_view(final(out)@);
                let ns = old(run).ns;
                &&& final(run).es() == Seq::<EntryView>::empty()
                &&& level_ok(final(self).file@, ns, now, 0)
                &&& appended(old(self).file@, *old(b), *final(b), was, now)
                &&& all_legal(was) ==> all_legal(now)
                &&& leaf_groups(final(self).file@, ns, now) == if old(run).es().len() == 0 {
                    leaf_groups(old(self).file@, ns, was)
                } else {
                    leaf_groups(old(self).file@, ns, was).push(old(run).es())
                }
            },
            r matches Err(e) ==> failed(*old(self), *final(self), e, true),
    {
        let ghost was = children_view(out@);
        let ghost es = run.es();
        let ns: Namespace = run.ns;
        if run.entries.len() == 0 {
            proof {
                lemma_laid_refl(*self);
                lemma_appended_none(self.file@, *b, *b, was);
                assert(run.es() =~= Seq::<EntryView>::empty());
            }
            return Ok(());
        }
        let first_key = copy_of(run.entries[0].0.as_slice());
        let mut entries: Vec<(Vec<u8>, Vec<u8>)> = Vec::new();
        std::mem::swap(&mut entries, &mut run.entries);
        run.fill = NODE_HEADER_LEN;
        assert(run.es() =~= Seq::<EntryView>::empty());
        let node = LeafNode { namespace: ns, entries };
        let ghost view = NodeView::Leaf(node@);
        assert(node@.entries == es);
        let bytes = match node.encode() {
            Ok(v) => v,
            Err(e) => {
                assert(false);
                return Err(e);
            },
        };
        let ghost img0 = self.file@;
        match self.emit_index_node(bytes.as_slice(), b) {
            Ok((child_slot, child_hash)) => {
                let p = ChildPointer { first_key, child_slot, child_hash };
                let ghost pv = p@;
                out.push(p);
                proof {
                    let now = children_view(out@);
                    let img = self.file@;
                    assert(now =~= was.push(pv));
                    lemma_node_held(img, child_slot, view, bytes@);
                    lemma_level_extends(img0, img, ns, was, 0);
                    lemma_leaf_groups_extend(img0, img, ns, was);
                    assert(pv.first_key == es[0].0);
                    assert(node_fits(img, ns, pv, 0));
                    assert forall|i: int| 0 <= i < now.len() implies node_fits(
                        img,
                        ns,
                        #[trigger] now[i],
                        0,
                    ) by {
                        if i < was.len() {
                            assert(now[i] == was[i]);
                            assert(node_fits(img, ns, was[i], 0));
                        }
                    }
                    assert(leaf_groups(img, ns, now) =~= leaf_groups(img, ns, was).push(es));
                    assert(now.take(was.len() as int) =~= was);
                    lemma_leaf_fault_all(es);
                    assert(leaf_entry_fault(es[0]) is None);
                    assert forall|i: int| all_legal(was) && 0 <= i < now.len() implies legal_key(
                        (#[trigger] now[i]).first_key,
                    ) by {
                        if i < was.len() {
                            assert(now[i] == was[i]);
                        }
                    }
                }
                Ok(())
            },
            Err(e) => {
                proof {
                    law_leaf_decode_of_encode(node@);
                }
                Err(e)
            },
        }
    }

    /// Hands an entry to the leaf that is being filled.
    pub(crate) fn leaf_push(
        &mut self,
        run: &mut LeafRun,
        key: Vec<u8>,
        value: Vec<u8>,
        b: &mut Build,
        out: &mut Vec<ChildPointer>,
    ) -> (r: Result<(), Error>)
        requires
            old(self).wf(),
            old(b).wf(),
            grounded(*old(b), old(self).file@),
            old(run).wf(),
            old(run).came_last(*old(b)),
            level_ok(old(self).file@, old(run).ns, children_view(old(out)@), 0),
            leaf_entry_fault((key@, value@)) is None,
        ensures
            final(self).wf(),
            final(b).wf(),
            grounded(*final(b), final(self).file@),
            laid(*old(self), *final(self), old(b).seq),
            same_but_level(*old(b), *final(b), 0),
            final(run).ns == old(run).ns,
            final(run).wf(),
            r is Ok ==> {
                let was = children_view(old(out)@);
                let now = children_view(final(out)@);
                let ns = old(run).ns;
                &&& old(b).prev(0) matches Some(p) ==> lex_lt(p, key@)
                &&& final(b).prev(0) == Some(key@)
                &&& final(run).came_last(*final(b))
                &&& level_ok(final(self).file@, ns, now, 0)
                &&& appended(old(self).file@, *old(b), *final(b), was, now)
                &&& all_legal(was) ==> all_legal(now)
                &&& (leaf_groups(final(self).file@, ns, now), final(run).es()) == leaf_step(
                    (leaf_groups(old(self).file@, ns, was), old(run).es()),
                    (key@, value@),
                )
            },
            r matches Err(e) ==> failed(
                *old(self),
                *final(self),
                e,
                old(b).prev(0) matches Some(p) ==> lex_lt(p, key@),
            ),
    {
        let ghost was = children_view(out@);
        let ghost img0 = self.file@;
        let ghost b0 = *b;
        let ghost ns = run.ns;
        let ghost e = (key@, value@);
        let ghost st0: LeafFeed = (leaf_groups(img0, ns, was), run.es());
        match b.check_order(0, key.as_slice()) {
            Ok(()) => {},
            Err(err) => {
                proof {
                    lemma_laid_refl(*self);
                }
                return Err(err);
            },
        }
        let cost: usize = leaf_entry_cost(key.as_slice(), value.as_slice());
        proof {
            lemma_appended_none(img0, b0, *b, was);
            lemma_laid_refl(*self);
        }
        if !run.is_empty() && run.fill + cost > PAYLOAD_CAP {
            match self.leaf_seal(run, b, out) {
                Ok(()) => {},
                Err(err) => {
                    return Err(err);
                },
            }
        }
        let ghost mid = children_view(out@);
        let ghost img1 = self.file@;
        let ghost s1 = *self;
        let ghost b1 = *b;
        let ghost had = run.es();
        let ghost st1: LeafFeed = (leaf_groups(img1, ns, mid), had);
        assert(appended(img0, b0, b1, was, mid));
        let hash: u64 = boundary_hash(0, key.as_slice());
        proof {
            lemma_leaf_len_push(had, e);
            assert(had.push(e).drop_last() =~= had);
            assert(leaf_fault(had.push(e)) is None);
            assert(keys_sorted(had.push(e))) by {
                crate::space::model::lemma_sorted_join(had, seq![e]);
                assert(had + seq![e] =~= had.push(e));
            }
            if had.len() == 0 {
                assert(had =~= Seq::<EntryView>::empty());
                assert(leaf_len(had) == 4);
            }
        }
        run.fill = run.fill + cost;
        run.entries.push((key, value));
        assert(run.es() =~= had.push(e));
        if is_boundary(hash, cost, run.fill) {
            match self.leaf_seal(run, b, out) {
                Ok(()) => {},
                Err(err) => {
                    proof {
                        lemma_laid_trans(*old(self), s1, *self);
                    }
                    return Err(err);
                },
            }
            proof {
                lemma_laid_trans(*old(self), s1, *self);
                lemma_appended_trans(img0, img1, b0, b1, *b, was, mid, children_view(out@));
            }
        }
        Ok(())
    }

    /// Closes the internal node that is being filled, if there is anything in
    /// it. One that is not the last of its level must have enough children.
    pub(crate) fn node_seal(
        &mut self,
        run: &mut NodeRun,
        b: &mut Build,
        out: &mut Vec<ChildPointer>,
        last_of_level: bool,
    ) -> (r: Result<(), Error>)
        requires
            old(self).wf(),
            old(b).wf(),
            grounded(*old(b), old(self).file@),
            old(run).wf(),
            inner_ok(old(self).file@, old(run).ns, children_view(old(out)@)),
        ensures
            final(self).wf(),
            final(b).wf(),
            grounded(*final(b), final(self).file@),
            laid(*old(self), *final(self), old(b).seq),
            same_but_emitted(*old(b), *final(b)),
            final(run).ns == old(run).ns,
            final(run).level == old(run).level,
            final(run).wf(),
            r is Ok ==> {
                let was = children_view(old(out)@);
                let now = children_view(final(out)@);
                let ns = old(run).ns;
                &&& final(run).cs() == Seq::<ChildView>::empty()
                &&& inner_ok(final(self).file@, ns, now)
                &&& appended(old(self).file@, *old(b), *final(b), was, now)
                &&& all_legal(was) ==> all_legal(now)
                &&& node_groups(final(self).file@, ns, now) == if old(run).cs().len() == 0 {
                    node_groups(old(self).file@, ns, was)
                } else {
                    node_groups(old(self).file@, ns, was).push(old(run).cs())
                }
            },
            r matches Err(e) ==> failed(
                *old(self),
                *final(self),
                e,
                last_of_level || old(run).cs().len() == 0 || old(run).cs().len()
                    >= MIN_FULL_INTERNAL_FANOUT,
            ),
    {
        let ghost was = children_view(out@);
        let ghost cs = run.cs();
        let ns: Namespace = run.ns;
        if run.children.len() == 0 {
            proof {
                lemma_laid_refl(*self);
                lemma_appended_none(self.file@, *b, *b, was);
                assert(run.cs() =~= Seq::<ChildView>::empty());
            }
            return Ok(());
        }
        if !last_of_level && run.children.len() < MIN_FULL_INTERNAL_FANOUT {
            proof {
                lemma_laid_refl(*self);
            }
            return Err(Error::IndexFull);
        }
        let first_key = copy_of(run.children[0].first_key.as_slice());
        let mut children: Vec<ChildPointer> = Vec::new();
        std::mem::swap(&mut children, &mut run.children);
        run.fill = NODE_HEADER_LEN;
        assert(run.cs() =~= Seq::<ChildView>::empty());
        let node = InternalNode { namespace: ns, children };
        let ghost view = NodeView::Internal(node@);
        assert(node@.children == cs);
        let bytes = match node.encode() {
            Ok(v) => v,
            Err(e) => {
                assert(false);
                return Err(e);
            },
        };
        proof {
            assert forall|i: int| 0 <= i < cs.len() implies (#[trigger] cs[i]).child_hash.len()
                == 32 by {
                assert(cs[i].child_hash == node.children@[i].child_hash@);
            }
            law_internal_decode_of_encode(node@);
        }
        let ghost img0 = self.file@;
        match self.emit_index_node(bytes.as_slice(), b) {
            Ok((child_slot, child_hash)) => {
                let p = ChildPointer { first_key, child_slot, child_hash };
                let ghost pv = p@;
                out.push(p);
                proof {
                    let now = children_view(out@);
                    let img = self.file@;
                    assert(now =~= was.push(pv));
                    lemma_node_held(img, child_slot, view, bytes@);
                    lemma_inner_extends(img0, img, ns, was);
                    assert(pv.first_key == cs[0].first_key);
                    assert(node_fits(img, ns, pv, 1));
                    assert forall|i: int| 0 <= i < now.len() implies node_fits(
                        img,
                        ns,
                        #[trigger] now[i],
                        1,
                    ) by {
                        if i < was.len() {
                            assert(now[i] == was[i]);
                            assert(node_fits(img, ns, was[i], 1));
                        }
                    }
                    assert(node_groups(img, ns, now) =~= node_groups(img, ns, was).push(cs));
                    assert(now.take(was.len() as int) =~= was);
                    assert(legal_key(cs[0].first_key));
                    assert forall|i: int| all_legal(was) && 0 <= i < now.len() implies legal_key(
                        (#[trigger] now[i]).first_key,
                    ) by {
                        if i < was.len() {
                            assert(now[i] == was[i]);
                        }
                    }
                }
                Ok(())
            },
            Err(e) => Err(e),
        }
    }

    /// Hands a child to the internal node that is being filled.
    pub(crate) fn node_push(
        &mut self,
        run: &mut NodeRun,
        child: ChildPointer,
        b: &mut Build,
        out: &mut Vec<ChildPointer>,
    ) -> (r: Result<(), Error>)
        requires
            old(self).wf(),
            old(b).wf(),
            grounded(*old(b), old(self).file@),
            old(run).wf(),
            old(run).came_last(*old(b)),
            inner_ok(old(self).file@, old(run).ns, children_view(old(out)@)),
            legal_key(child@.first_key),
        ensures
            final(self).wf(),
            final(b).wf(),
            grounded(*final(b), final(self).file@),
            laid(*old(self), *final(self), old(b).seq),
            same_but_level(*old(b), *final(b), old(run).level as int),
            final(run).ns == old(run).ns,
            final(run).level == old(run).level,
            final(run).wf(),
            r is Ok ==> {
                let was = children_view(old(out)@);
                let now = children_view(final(out)@);
                let ns = old(run).ns;
                let level = old(run).level;
                &&& old(b).prev(level as int) matches Some(p) ==> lex_lt(p, child@.first_key)
                &&& final(b).prev(level as int) == Some(child@.first_key)
                &&& final(run).came_last(*final(b))
                &&& inner_ok(final(self).file@, ns, now)
                &&& appended(old(self).file@, *old(b), *final(b), was, now)
                &&& all_legal(was) ==> all_legal(now)
                &&& (node_groups(final(self).file@, ns, now), final(run).cs()) == node_step(
                    level,
                    (node_groups(old(self).file@, ns, was), old(run).cs()),
                    child@,
                )
            },
            r matches Err(e) ==> failed(
                *old(self),
                *final(self),
                e,
                old(b).prev(old(run).level as int) matches Some(p) ==> lex_lt(p, child@.first_key),
            ),
    {
        let ghost was = children_view(out@);
        let ghost img0 = self.file@;
        let ghost b0 = *b;
        let ghost ns = run.ns;
        let level: u8 = run.level;
        let ghost c = child@;
        match b.check_order(level, child.first_key.as_slice()) {
            Ok(()) => {},
            Err(err) => {
                proof {
                    lemma_laid_refl(*self);
                }
                return Err(err);
            },
        }
        let cost: usize = child_entry_cost(child.first_key.as_slice());
        proof {
            lemma_appended_none(img0, b0, *b, was);
            lemma_laid_refl(*self);
        }
        if !run.is_empty() && run.fill + cost > PAYLOAD_CAP {
            proof {
                lemma_full_node(run.cs());
            }
            match self.node_seal(run, b, out, false) {
                Ok(()) => {},
                Err(err) => {
                    return Err(err);
                },
            }
        }
        let ghost mid = children_view(out@);
        let ghost img1 = self.file@;
        let ghost s1 = *self;
        let ghost b1 = *b;
        let ghost had = run.cs();
        assert(appended(img0, b0, b1, was, mid));
        let hash: u64 = boundary_hash(level, child.first_key.as_slice());
        proof {
            lemma_internal_len_push(had, c);
            assert(children_sorted(had.push(c))) by {
                let now = had.push(c);
                assert forall|i: int, j: int| 0 <= i < j < now.len() implies lex_lt(
                    (#[trigger] now[i]).first_key,
                    (#[trigger] now[j]).first_key,
                ) by {
                    if j == had.len() && i < had.len() - 1 {
                        lemma_lex_trans(had[i].first_key, had.last().first_key, c.first_key);
                    }
                }
            }
            if had.len() == 0 {
                assert(had =~= Seq::<ChildView>::empty());
                assert(internal_len(had) == 4);
            }
        }
        run.fill = run.fill + cost;
        run.children.push(child);
        assert(run.cs() =~= had.push(c));
        if run.children.len() >= MIN_INTERNAL_CHILDREN && is_boundary(hash, cost, run.fill) {
            match self.node_seal(run, b, out, false) {
                Ok(()) => {},
                Err(err) => {
                    proof {
                        lemma_laid_trans(*old(self), s1, *self);
                    }
                    return Err(err);
                },
            }
            proof {
                lemma_laid_trans(*old(self), s1, *self);
                lemma_appended_trans(img0, img1, b0, b1, *b, was, mid, children_view(out@));
            }
        }
        Ok(())
    }
}

/// A node that has been written is read back.
proof fn lemma_node_held(img: Image, slot: u64, n: NodeView, bytes: Seq<u8>)
    requires
        holds_node(img, slot, bytes),
        node_encode(n) == Ok::<Seq<u8>, Error>(bytes),
        node_ordered(n),
    ensures
        node_at(img, slot, n.namespace()) == Ok::<NodeView, Error>(n),
{
    law_node_decode_of_encode(n);
}

/// A node that has no room for another child has enough of them.
proof fn lemma_full_node(cs: Seq<ChildView>)
    requires
        all_legal(cs),
    ensures
        internal_len(cs) <= 4 + 298 * cs.len(),
    decreases cs.len(),
{
    if cs.len() > 0 {
        let init = cs.drop_last();
        assert forall|i: int| 0 <= i < init.len() implies legal_key(
            (#[trigger] init[i]).first_key,
        ) by {
            assert(init[i] == cs[i]);
        }
        lemma_full_node(init);
        assert(legal_key(cs[cs.len() - 1].first_key));
    }
}

/// Feeding closes no node before it has enough children.
proof fn lemma_node_feed_count(level: u8, cs: Seq<ChildView>)
    requires
        all_legal(cs),
    ensures
        4 * node_feed(level, no_nodes(), cs).0.len() + node_feed(level, no_nodes(), cs).1.len()
            <= cs.len(),
        all_legal(node_feed(level, no_nodes(), cs).1),
    decreases cs.len(),
{
    if cs.len() > 0 {
        let init = cs.drop_last();
        let c = cs.last();
        assert forall|i: int| 0 <= i < init.len() implies legal_key(
            (#[trigger] init[i]).first_key,
        ) by {
            assert(init[i] == cs[i]);
        }
        assert(legal_key(cs[cs.len() - 1].first_key));
        lemma_node_feed_count(level, init);
        let prior = node_feed(level, no_nodes(), init);
        lemma_full_node(prior.1);
        assert(all_legal(prior.1.push(c)));
        assert(all_legal(Seq::<ChildView>::empty().push(c)));
    }
}

/// Every one of the slots opens, and is either pointed at by the build or no
/// node that the build has read.
pub open spec fn apart(img: Image, b: Build, slots: Seq<u64>) -> bool {
    forall|i: int|
        0 <= i < slots.len() ==> live(img, #[trigger] slots[i]) && (b.emitted@.contains(slots[i])
            || !b.reusable(slots[i]))
}

/// A level built over a sound one is sound.
proof fn lemma_level_up(
    img0: Image,
    img1: Image,
    b0: Build,
    b1: Build,
    ns: Namespace,
    items: Seq<ChildView>,
    out: Seq<ChildView>,
    h: nat,
)
    requires
        extends(img0, img1),
        level_ok(img0, ns, items, h),
        level_slots(img0, ns, items, h).no_duplicates(),
        apart(img0, b0, level_slots(img0, ns, items, h)),
        appended(img0, b0, b1, Seq::<ChildView>::empty(), out),
        grounded(b1, img1),
        b0.reuse == b1.reuse,
        inner_ok(img1, ns, out),
        below(img1, ns, out) == items,
    ensures
        level_ok(img1, ns, out, h + 1),
        level_entries(img1, ns, out, h + 1) == level_entries(img0, ns, items, h),
        level_slots(img1, ns, out, h + 1).no_duplicates(),
        apart(img1, b1, level_slots(img1, ns, out, h + 1)),
{
    lemma_level_extends(img0, img1, ns, items, h);
    let under = level_slots(img0, ns, items, h);
    let all = level_slots(img1, ns, out, h + 1);
    assert(all == slots_of(out) + under);
    assert forall|i: int| 0 <= i < out.len() implies node_fits(img1, ns, #[trigger] out[i], h
        + 1) by {
        assert(node_fits(img1, ns, out[i], 1));
    }
    assert forall|i: int, j: int| 0 <= i < j < all.len() implies all[i] != all[j] by {
        if j < out.len() {
            assert(out[i].child_slot != out[j].child_slot);
        } else if i < out.len() {
            assert(new_slot(img0, b0, b1, out[i].child_slot));
            let u = under[j - out.len()];
            assert(live(img0, u) && (b0.emitted@.contains(u) || !b0.reusable(u)));
            assert(b0.reusable(u) == b1.reusable(u));
        } else {
            assert(under[i - out.len()] != under[j - out.len()]);
        }
    }
    assert forall|i: int| 0 <= i < all.len() implies live(img1, #[trigger] all[i]) && (
    b1.emitted@.contains(all[i]) || !b1.reusable(all[i])) by {
        if i < out.len() {
            assert(new_slot(img0, b0, b1, out[i].child_slot));
        } else {
            let u = under[i - out.len()];
            assert(live(img0, u));
            assert(b0.reusable(u) == b1.reusable(u));
        }
    }
}

/// Placing chunks does not upset a steady space.
pub proof fn lemma_steady_grown(a: Space, b: Space)
    requires
        grown(a, b),
        steady(a),
    ensures
        steady(b),
{
}

/// What a build of levels ends with.
pub open spec fn topped(
    img: Image,
    ns: Namespace,
    root: (u64, [u8; 32]),
    h: nat,
    g: nat,
    es: Seq<EntryView>,
    cut: bool,
    wide: bool,
) -> bool {
    &&& h <= g
    &&& tree(img, ns, root.0, root.1@, g)
    &&& tree_entries(img, ns, root.0, root.1@, g) == es
    &&& cut ==> shaped(img, ns, seq![root_ptr(img, ns, root.0, root.1@)], g)
    &&& wide ==> g > h
    &&& g > h ==> forked(img, ns, root.0, root.1@, g)
}

/// A build of levels ends with a tree of some height.
pub open spec fn grew_to(
    img: Image,
    ns: Namespace,
    root: (u64, [u8; 32]),
    h: nat,
    es: Seq<EntryView>,
    cut: bool,
    wide: bool,
) -> bool {
    exists|g: nat| #[trigger] topped(img, ns, root, h, g, es, cut, wide)
}

/// The leaves of a tree of height `h`.
pub open spec fn tree_leaves(
    img: Image,
    ns: Namespace,
    slot: u64,
    hash: Seq<u8>,
    h: nat,
) -> Seq<ChildView> {
    down(img, ns, seq![root_ptr(img, ns, slot, hash)], h)
}

/// A tree of some height with these leaves.
pub open spec fn stands_on(
    img: Image,
    ns: Namespace,
    root: (u64, [u8; 32]),
    lv: Seq<ChildView>,
) -> bool {
    exists|g: nat| #[trigger]
        tree(img, ns, root.0, root.1@, g) && tree_leaves(img, ns, root.0, root.1@, g) == lv
}

/// A level to build on: sound, with keys that rise, no chunk twice, and apart
/// from what the build may yet point at.
pub open spec fn solid(img: Image, b: Build, ns: Namespace, ps: Seq<ChildView>, h: nat) -> bool {
    &&& level_ok(img, ns, ps, h)
    &&& keys_sorted(level_entries(img, ns, ps, h))
    &&& level_slots(img, ns, ps, h).no_duplicates()
    &&& apart(img, b, level_slots(img, ns, ps, h))
}

/// A level of height `h` is cut where its items say, and the one to be built
/// on it is the next.
pub open spec fn cut_below(
    img: Image,
    ns: Namespace,
    ps: Seq<ChildView>,
    h: nat,
    level: u8,
) -> bool {
    level == h + 1 && shaped(img, ns, ps, h)
}

/// No key has been handed to this level or one above it.
pub open spec fn untouched_from(b: Build, level: int) -> bool {
    forall|l: int| l >= level ==> #[trigger] b.prev(l) is None
}

/// The root's children are several, if it has any.
pub open spec fn forked(img: Image, ns: Namespace, slot: u64, hash: Seq<u8>, h: nat) -> bool {
    h > 0 ==> below(img, ns, seq![root_ptr(img, ns, slot, hash)]).len() >= 2
}

impl Space {
    /// Builds levels on top of a level until there is one node.
    pub(crate) fn grow_levels(
        &mut self,
        ns: Namespace,
        start: Vec<ChildPointer>,
        start_level: u8,
        b: &mut Build,
        Ghost(h): Ghost<nat>,
    ) -> (r: Result<Option<(u64, [u8; 32])>, Error>)
        requires
            old(self).wf(),
            old(b).wf(),
            grounded(*old(b), old(self).file@),
            start_level > 0,
            all_legal(children_view(start@)),
        ensures
            final(self).wf(),
            final(b).wf(),
            grounded(*final(b), final(self).file@),
            laid(*old(self), *final(self), old(b).seq),
            r matches Ok(None) ==> start@.len() == 0,
            r matches Ok(Some(_)) ==> start@.len() > 0,
            solid(old(self).file@, *old(b), ns, children_view(start@), h) ==> (r matches Ok(
                Some(root),
            ) ==> grew_to(
                final(self).file@,
                ns,
                root,
                h,
                level_entries(old(self).file@, ns, children_view(start@), h),
                cut_below(old(self).file@, ns, children_view(start@), h, start_level),
                start@.len() > 1,
            ) && stands_on(
                final(self).file@,
                ns,
                root,
                down(old(self).file@, ns, children_view(start@), h),
            )),
            r matches Err(e) ==> failed(
                *old(self),
                *final(self),
                e,
                solid(old(self).file@, *old(b), ns, children_view(start@), h) && start_level <= 200
                    && untouched_from(*old(b), start_level as int),
            ),
    {
        let mut level: Vec<ChildPointer> = start;
        let mut lvl: u8 = start_level;
        let ghost img0 = self.file@;
        let ghost ps0 = children_view(level@);
        let ghost es = level_entries(img0, ns, ps0, h);
        let ghost good = solid(img0, *b, ns, ps0, h);
        let ghost lucky = good && start_level <= 200 && untouched_from(
            *b,
            start_level as int,
        );
        let ghost cut = cut_below(img0, ns, ps0, h, start_level);
        let ghost wide = level@.len() > 1;
        let ghost mut at: nat = h;
        let ghost mut room: nat = 32;
        let ghost lv = down(img0, ns, ps0, h);
        proof {
            lemma_laid_refl(*self);
            reveal_with_fuel(pow_fanout, 33);
            assert(pow_fanout(32) == 0x1_0000_0000_0000_0000);
            assert(level.len() <= usize::MAX);
        }
        while level.len() > 1
            invariant
                good == solid(old(self).file@, *old(b), ns, children_view(start@), h),
                lucky == (good && start_level <= 200 && untouched_from(
                    *old(b),
                    start_level as int,
                )),
                cut == cut_below(old(self).file@, ns, children_view(start@), h, start_level),
                wide == (start@.len() > 1),
                wide ==> at > h || level@.len() > 1,
                lv == down(old(self).file@, ns, children_view(start@), h),
                good ==> down(self.file@, ns, children_view(level@), at) == lv,
                es == level_entries(old(self).file@, ns, children_view(start@), h),
                self.wf(),
                b.wf(),
                grounded(*b, self.file@),
                b.seq == old(b).seq,
                laid(*old(self), *self, old(b).seq),
                lvl > 0,
                start_level > 0,
                all_legal(children_view(level@)),
                start@.len() == 0 ==> level@.len() == 0,
                start@.len() > 0 ==> level@.len() > 0,
                at >= h,
                room <= 32,
                level@.len() <= pow_fanout(room),
                lvl + room == start_level + 32,
                cut ==> lvl == at + 1,
                good ==> {
                    let ps = children_view(level@);
                    &&& level_ok(self.file@, ns, ps, at)
                    &&& level_entries(self.file@, ns, ps, at) == es
                    &&& keys_sorted(es)
                    &&& level_slots(self.file@, ns, ps, at).no_duplicates()
                    &&& apart(self.file@, *b, level_slots(self.file@, ns, ps, at))
                    &&& cut ==> shaped(self.file@, ns, ps, at)
                    &&& at > h && level@.len() == 1 ==> below(self.file@, ns, ps).len() >= 2
                },
                steady(*old(self)) ==> steady(*self),
                lucky ==> untouched_from(*b, lvl as int),
            decreases level@.len(),
        {
            let count: usize = level.len();
            let ghost items = children_view(level@);
            let ghost s1 = *self;
            let ghost b1 = *b;
            let ghost img1 = self.file@;
            let mut run = NodeRun::new(ns, lvl);
            let mut out: Vec<ChildPointer> = Vec::new();
            let mut i: usize = 0;
            proof {
                lemma_laid_refl(s1);
                lemma_extends_refl(img1);
                assert(children_view(out@) =~= Seq::<ChildView>::empty());
                assert(items.take(0) =~= Seq::<ChildView>::empty());
                assert(node_groups(img1, ns, children_view(out@)) =~= Seq::<
                    Seq<ChildView>,
                >::empty());
                lemma_appended_none(img1, b1, b1, Seq::<ChildView>::empty());
                if good {
                    assert forall|x: int, y: int| 0 <= x < y < items.len() implies lex_lt(
                        (#[trigger] items[x]).first_key,
                        (#[trigger] items[y]).first_key,
                    ) by {
                        lemma_first_keys_rise(img1, ns, items, at, x, y);
                    }
                }
                assert(lucky ==> b1.prev(lvl as int) is None);
            }
            while i < level.len()
                invariant
                    good == solid(old(self).file@, *old(b), ns, children_view(start@), h),
                    lucky == (good && start_level <= 200 && untouched_from(
                        *old(b),
                        start_level as int,
                    )),
                    b1.seq == old(b).seq,
                    laid(*old(self), s1, old(b).seq),
                    i <= level@.len(),
                    items == children_view(level@),
                    all_legal(items),
                    self.wf(),
                    b.wf(),
                    grounded(*b, self.file@),
                    laid(s1, *self, old(b).seq),
                    run.ns == ns,
                    run.level == lvl,
                    run.wf(),
                    run.came_last(*b),
                    img1 == s1.file@,
                    inner_ok(self.file@, ns, children_view(out@)),
                    all_legal(children_view(out@)),
                    appended(img1, b1, *b, Seq::<ChildView>::empty(), children_view(out@)),
                    same_but_level(b1, *b, lvl as int),
                    (node_groups(self.file@, ns, children_view(out@)), run.cs()) == node_feed(
                        lvl,
                        no_nodes(),
                        items.take(i as int),
                    ),
                    i > 0 ==> b.prev(lvl as int) == Some(items[i - 1].first_key),
                    i == 0 ==> b.prev(lvl as int) == b1.prev(lvl as int),
                    steady(*old(self)) ==> steady(s1),
                    lucky ==> b1.prev(lvl as int) is None,
                    lucky ==> forall|x: int, y: int|
                        0 <= x < y < items.len() ==> lex_lt(
                            (#[trigger] items[x]).first_key,
                            (#[trigger] items[y]).first_key,
                        ),
                decreases level@.len() - i,
            {
                let child: ChildPointer = level[i].clone();
                let ghost s2 = *self;
                let ghost b2 = *b;
                let ghost out2 = children_view(out@);
                proof {
                    assert(child@ == items[i as int]);
                    if steady(s1) {
                        lemma_steady_grown(s1, s2);
                    }
                }
                match self.node_push(&mut run, child, b, &mut out) {
                    Ok(()) => {},
                    Err(e) => {
                        proof {
                            lemma_laid_trans(s1, s2, *self);
                            lemma_laid_trans(*old(self), s1, *self);
                        }
                        return Err(e);
                    },
                }
                proof {
                    lemma_laid_trans(s1, s2, *self);
                    lemma_appended_trans(
                        img1,
                        s2.file@,
                        b1,
                        b2,
                        *b,
                        Seq::<ChildView>::empty(),
                        out2,
                        children_view(out@),
                    );
                    assert(items.take(i + 1) =~= items.take(i as int).push(items[i as int]));
                    lemma_node_feed_push(lvl, no_nodes(), items.take(i as int), items[i as int]);
                }
                i = i + 1;
            }
            let ghost s3 = *self;
            let ghost b3 = *b;
            let ghost out3 = children_view(out@);
            let ghost fed = node_feed(lvl, no_nodes(), items);
            proof {
                assert(items.take(i as int) =~= items);
                if steady(s1) {
                    lemma_steady_grown(s1, s3);
                }
                lemma_node_feed_count(lvl, items);
            }
            match self.node_seal(&mut run, b, &mut out, true) {
                Ok(()) => {},
                Err(e) => {
                    proof {
                        lemma_laid_trans(s1, s3, *self);
                        lemma_laid_trans(*old(self), s1, *self);
                    }
                    return Err(e);
                },
            }
            let ghost now = children_view(out@);
            proof {
                lemma_laid_trans(s1, s3, *self);
                lemma_laid_trans(*old(self), s1, *self);
                lemma_appended_trans(
                    img1,
                    s3.file@,
                    b1,
                    b3,
                    *b,
                    Seq::<ChildView>::empty(),
                    out3,
                    now,
                );
                assert(node_groups(self.file@, ns, now) == node_close(fed));
                assert(now.len() == node_groups(self.file@, ns, now).len());
                lemma_node_groups_joined(self.file@, ns, now);
                lemma_node_close_joined(fed);
                lemma_node_feed_joined(lvl, no_nodes(), items);
                assert(joined(no_nodes().0) =~= Seq::<ChildView>::empty());
                assert(joined(no_nodes().0) + no_nodes().1 + items =~= items);
                assert(below(self.file@, ns, now) == items);
                assert(4 * (now.len() - 1) + 1 <= items.len());
                assert(now.len() > 0) by {
                    if now.len() == 0 {
                        assert(fed.0.len() == 0 && fed.1.len() == 0);
                        assert(joined(fed.0) + fed.1 =~= Seq::<ChildView>::empty());
                    }
                }
            }
            if out.len() >= count {
                assert(false);
                return Err(Error::IndexFull);
            }
            proof {
                if good {
                    lemma_level_up(img1, self.file@, b1, *b, ns, items, now, at);
                    lemma_down_extends(img1, self.file@, ns, items, at, at);
                    lemma_down_below(self.file@, ns, now, at);
                    if cut {
                        lemma_shaped_extends(img1, self.file@, ns, items, at);
                        assert(lvl == (at + 1) as u8);
                    }
                }
                assert(room >= 1) by {
                    assert(pow_fanout(0) == 1);
                }
                assert(pow_fanout(room) == 4 * pow_fanout((room - 1) as nat));
            }
            level = out;
            match lvl.checked_add(1) {
                Some(n) => {
                    lvl = n;
                },
                None => {
                    assert(!lucky);
                    return Err(Error::Internal("index level counter overflow"));
                },
            }
            proof {
                at = at + 1;
                room = (room - 1) as nat;
            }
        }
        let ghost last = level@;
        match level.pop() {
            None => Ok(None),
            Some(p) => {
                let root: (u64, [u8; 32]) = (p.child_slot, p.child_hash);
                proof {
                    if good {
                        let img = self.file@;
                        let ps = seq![p@];
                        assert(children_view(last) =~= ps);
                        assert(node_fits(img, ns, ps[0], at));
                        assert(root_ptr(img, ns, root.0, root.1@) == p@);
                        assert(seq![root_ptr(img, ns, root.0, root.1@)] =~= ps);
                        assert(topped(img, ns, root, h, at, es, cut, wide));
                        assert(grew_to(img, ns, root, h, es, cut, wide));
                        assert(tree(img, ns, root.0, root.1@, at));
                        assert(stands_on(img, ns, root, lv));
                    }
                }
                Ok(Some(root))
            },
        }
    }
}

/// Every entry is legal.
pub open spec fn entries_legal(es: Seq<EntryView>) -> bool {
    forall|i: int| 0 <= i < es.len() ==> leaf_entry_fault(#[trigger] es[i]) is None
}

/// A tree of these entries, cut where they say, under a root that is not
/// idle.
pub open spec fn built(img: Image, ns: Namespace, root: (u64, [u8; 32]), es: Seq<EntryView>) -> bool {
    exists|g: nat| #[trigger] topped(img, ns, root, 0, g, es, true, false)
}

/// Leaves that have been written make a level to build on.
proof fn lemma_leaf_level(
    img0: Image,
    img: Image,
    b0: Build,
    b: Build,
    ns: Namespace,
    out: Seq<ChildView>,
)
    requires
        level_ok(img, ns, out, 0),
        keys_sorted(level_entries(img, ns, out, 0)),
        appended(img0, b0, b, Seq::<ChildView>::empty(), out),
        grounded(b, img),
    ensures
        solid(img, b, ns, out, 0),
{
    let slots = level_slots(img, ns, out, 0);
    assert forall|i: int, j: int| 0 <= i < j < slots.len() implies slots[i] != slots[j] by {
        assert(out[i].child_slot != out[j].child_slot);
    }
    assert forall|i: int| 0 <= i < slots.len() implies live(img, #[trigger] slots[i]) && (
    b.emitted@.contains(slots[i]) || !b.reusable(slots[i])) by {
        assert(new_slot(img0, b0, b, out[i].child_slot));
    }
}

impl Space {
    /// Builds a tree of entries that come by rising key.
    pub fn build_tree(
        &mut self,
        ns: Namespace,
        entries: Vec<(Vec<u8>, Vec<u8>)>,
        b: &mut Build,
    ) -> (r: Result<Option<(u64, [u8; 32])>, Error>)
        requires
            old(self).wf(),
            old(b).wf(),
            grounded(*old(b), old(self).file@),
            entries_legal(entries_view(entries@)),
            untouched_from(*old(b), 0),
        ensures
            final(self).wf(),
            final(b).wf(),
            laid(*old(self), *final(self), old(b).seq),
            match r {
                Ok(None) => entries@.len() == 0,
                Ok(Some(root)) => {
                    &&& entries@.len() > 0
                    &&& keys_sorted(entries_view(entries@))
                    &&& built(final(self).file@, ns, root, entries_view(entries@))
                },
                Err(e) => failed(*old(self), *final(self), e, keys_sorted(entries_view(entries@))),
            },
    {
        let ghost es = entries_view(entries@);
        let ghost s0 = *self;
        let ghost b0 = *b;
        let ghost img0 = self.file@;
        let mut run = LeafRun::new(ns);
        let mut level: Vec<ChildPointer> = Vec::new();
        let mut i: usize = 0;
        proof {
            lemma_laid_refl(s0);
            assert(children_view(level@) =~= Seq::<ChildView>::empty());
            assert(es.take(0) =~= Seq::<EntryView>::empty());
            assert(leaf_groups(img0, ns, children_view(level@)) =~= Seq::<Seq<EntryView>>::empty());
            lemma_appended_none(img0, b0, b0, Seq::<ChildView>::empty());
        }
        while i < entries.len()
            invariant
                i <= entries@.len(),
                es == entries_view(entries@),
                entries_legal(es),
                s0 == *old(self),
                b0 == *old(b),
                img0 == s0.file@,
                self.wf(),
                b.wf(),
                grounded(*b, self.file@),
                laid(s0, *self, old(b).seq),
                run.ns == ns,
                run.wf(),
                run.came_last(*b),
                level_ok(self.file@, ns, children_view(level@), 0),
                all_legal(children_view(level@)),
                appended(img0, b0, *b, Seq::<ChildView>::empty(), children_view(level@)),
                same_but_level(b0, *b, 0),
                untouched_from(b0, 0),
                (leaf_groups(self.file@, ns, children_view(level@)), run.es()) == leaf_feed(
                    no_leaves(),
                    es.take(i as int),
                ),
                i > 0 ==> b.prev(0) == Some(es[i - 1].0),
                i == 0 ==> b.prev(0) is None,
                keys_sorted(es.take(i as int)),
            decreases entries@.len() - i,
        {
            let key = copy_of(entries[i].0.as_slice());
            let value = copy_of(entries[i].1.as_slice());
            let ghost s1 = *self;
            let ghost b1 = *b;
            let ghost out1 = children_view(level@);
            proof {
                assert((key@, value@) == es[i as int]);
                assert(leaf_entry_fault(es[i as int]) is None);
                if steady(s0) {
                    lemma_steady_grown(s0, s1);
                }
            }
            match self.leaf_push(&mut run, key, value, b, &mut level) {
                Ok(()) => {},
                Err(e) => {
                    proof {
                        lemma_laid_trans(s0, s1, *self);
                        if keys_sorted(es) && i > 0 {
                            assert(lex_lt(es[i - 1].0, es[i as int].0));
                        }
                    }
                    return Err(e);
                },
            }
            proof {
                lemma_laid_trans(s0, s1, *self);
                lemma_appended_trans(
                    img0,
                    s1.file@,
                    b0,
                    b1,
                    *b,
                    Seq::<ChildView>::empty(),
                    out1,
                    children_view(level@),
                );
                let head = es.take(i as int);
                assert(es.take(i + 1) =~= head.push(es[i as int]));
                lemma_leaf_feed_push(no_leaves(), head, es[i as int]);
                assert(head + seq![es[i as int]] =~= es.take(i + 1));
                crate::space::model::lemma_sorted_join(head, seq![es[i as int]]);
            }
            i = i + 1;
        }
        let ghost s2 = *self;
        let ghost b2 = *b;
        let ghost out2 = children_view(level@);
        let ghost fed = leaf_feed(no_leaves(), es);
        proof {
            assert(es.take(i as int) =~= es);
            if steady(s0) {
                lemma_steady_grown(s0, s2);
            }
        }
        match self.leaf_seal(&mut run, b, &mut level) {
            Ok(()) => {},
            Err(e) => {
                proof {
                    lemma_laid_trans(s0, s2, *self);
                }
                return Err(e);
            },
        }
        let ghost s3 = *self;
        let ghost b3 = *b;
        let ghost ps = children_view(level@);
        proof {
            lemma_laid_trans(s0, s2, *self);
            lemma_appended_trans(
                img0,
                s2.file@,
                b0,
                b2,
                *b,
                Seq::<ChildView>::empty(),
                out2,
                ps,
            );
            assert(leaf_groups(self.file@, ns, ps) == leaf_close(fed));
            lemma_leaf_groups_joined(self.file@, ns, ps);
            lemma_leaf_close_joined(fed);
            lemma_leaf_feed_joined(no_leaves(), es);
            assert(joined(no_leaves().0) =~= Seq::<EntryView>::empty());
            assert(joined(no_leaves().0) + no_leaves().1 + es =~= es);
            assert(level_entries(self.file@, ns, ps, 0) == es);
            lemma_leaf_level(img0, self.file@, b0, *b, ns, ps);
            if steady(s0) {
                lemma_steady_grown(s0, s3);
            }
            assert(untouched_from(*b, 1)) by {
                assert forall|l: int| l >= 1 implies #[trigger] b.prev(l) is None by {
                    assert(b2.prev(l) == b0.prev(l));
                }
            }
        }
        if level.len() == 0 {
            proof {
                assert(ps =~= Seq::<ChildView>::empty());
                assert(flat(leaves(self.file@, ns), ps) =~= Seq::<EntryView>::empty());
            }
            return Ok(None);
        }
        proof {
            assert(es.len() > 0) by {
                lemma_level_first(self.file@, ns, ps, 0);
            }
            assert(cut_below(self.file@, ns, ps, 0, 1));
        }
        let r = self.grow_levels(ns, level, 1, b, Ghost(0));
        proof {
            lemma_laid_trans(s0, s3, *self);
            if let Ok(Some(root)) = r {
                let wide = ps.len() > 1;
                assert(grew_to(self.file@, ns, root, 0, es, true, wide));
                let g = choose|g: nat| #[trigger]
                    topped(self.file@, ns, root, 0, g, es, true, wide);
                assert(topped(self.file@, ns, root, 0, g, es, true, false));
            }
        }
        r
    }
}

} // verus!
