//! Checking a whole space: every chunk that the current superblock leads to,
//! its hash, its place, and the records behind it.

use std::collections::HashSet;

use vstd::prelude::*;

use crate::bytes::{bytes_eq, bytes_lt, lex_lt};
use crate::chunk::{ChunkKind, Plaintext, PlaintextView};
use crate::container::{chunk_at, Image};
use crate::error::Error;
use crate::space::index::{
    node_decode, ChildView, EntryView, IndexNode, Namespace, NodeView,
};
use crate::space::log::{
    batch_decode, decode_batch, last_with_id, log_id_of_key, parse_batch_slot_value,
    parse_log_id_key, records_view, slot_of_value, RecordView,
};
use crate::space::pairs::{sort_pairs, sorted_pairs};
use crate::space::superblock::{SuperblockView, NO_RECORD};
use crate::space::walk::{walk_refusal, walk_step, TreeWalk, WalkView};
use crate::space::Space;
use crate::tx::commit::{
    blake3_digest, blake3_of, commit_decode, roots_view, tx_root_digest, CommitPayload, CommitView,
    NamespaceKind, RootView,
};

verus! {

/// What a check of a whole space has covered.
#[derive(Debug, Clone, Copy, PartialEq, Eq)]
#[non_exhaustive]
pub struct IntegrityReport {
    /// Namespaces whose trees hold.
    pub namespaces_verified: usize,
    /// The commit record and the nodes that hold.
    pub chunks_verified: usize,
    /// Levels of the tallest tree.
    pub max_depth: u8,
    /// Batches that hold every record the index says they do.
    pub data_batches_verified: usize,
}

/// A batch's slot, and the number of a record that should be in it.
pub type Pointer = (u64, u64);

/// Where a check stands.
pub struct CheckView {
    pub w: WalkView,
    /// What log entries point at, as far as they have been met.
    pub pairs: Seq<Pointer>,
    /// Chunks that hold so far.
    pub chunks: nat,
}

/// What is expected of a node.
pub struct Expected {
    pub slot: u64,
    pub hash: Seq<u8>,
    pub namespace: Namespace,
    pub is_log: bool,
    /// No key comes before this.
    pub lower: Option<Seq<u8>>,
    /// Every key comes before this.
    pub upper: Option<Seq<u8>>,
    pub depth: int,
}

/// What came of checking a subtree: where the check stands, and the depth of
/// the deepest leaf.
pub struct Checked {
    pub st: CheckView,
    pub end: Result<int, Error>,
}

/// What is wrong with a slot.
pub open spec fn fault(detail: &'static str, slot: u64) -> Error {
    Error::IntegrityFailure { detail, slot }
}

/// What a slot opens to; not opening is a fault.
pub open spec fn opened(img: Image, slot: u64, detail: &'static str) -> Result<
    PlaintextView,
    Error,
> {
    match chunk_at(img, slot) {
        Ok(p) => Ok(p),
        Err(Error::AuthFailed) => Err(fault(detail, slot)),
        Err(e) => Err(e),
    }
}

/// The key comes before the range.
pub open spec fn under(lower: Option<Seq<u8>>, key: Seq<u8>) -> bool {
    lower matches Some(lo) && lex_lt(key, lo)
}

/// The key comes after the range.
pub open spec fn over(upper: Option<Seq<u8>>, key: Seq<u8>) -> bool {
    upper matches Some(hi) && !lex_lt(key, hi)
}

/// Checks the entries of a leaf from position `i` on, and notes what log
/// entries point at.
pub open spec fn check_entries(
    e: Expected,
    es: Seq<EntryView>,
    i: int,
    pairs: Seq<Pointer>,
) -> Result<Seq<Pointer>, Error>
    decreases es.len() - i,
{
    if i >= es.len() || i < 0 {
        Ok(pairs)
    } else if under(e.lower, es[i].0) {
        Err(fault("leaf key below the range its parent promised", e.slot))
    } else if over(e.upper, es[i].0) {
        Err(fault("leaf key at or above the range its parent promised", e.slot))
    } else if !e.is_log {
        check_entries(e, es, i + 1, pairs)
    } else {
        match log_id_of_key(es[i].0) {
            Err(_) => Err(fault("log leaf entry key not 8 bytes (log_id)", e.slot)),
            Ok(id) => match slot_of_value(es[i].1) {
                Err(_) => Err(fault("log leaf entry value not 8 bytes (batch_slot)", e.slot)),
                Ok(slot) => check_entries(e, es, i + 1, pairs.push((slot, id))),
            },
        }
    }
}

/// What is expected of the child at position `i` of a node.
pub open spec fn expected_child(e: Expected, cs: Seq<ChildView>, i: int) -> Expected {
    Expected {
        slot: cs[i].child_slot,
        hash: cs[i].child_hash,
        namespace: e.namespace,
        is_log: e.is_log,
        lower: Some(cs[i].first_key),
        upper: if i + 1 < cs.len() {
            Some(cs[i + 1].first_key)
        } else {
            e.upper
        },
        depth: e.depth + 1,
    }
}

/// The node that an expectation is about, if it holds up by itself.
pub open spec fn check_node(img: Image, e: Expected) -> Result<NodeView, Error> {
    match opened(img, e.slot, "owned-chunk AEAD failure on IndexNode") {
        Err(why) => Err(why),
        Ok(p) => if p.kind != ChunkKind::IndexNode {
            Err(fault("expected IndexNode chunk; found different kind", e.slot))
        } else if blake3_digest(p.payload) != e.hash {
            Err(fault("IndexNode chunk hash != parent's recorded hash", e.slot))
        } else {
            match node_decode(p.payload) {
                Err(_) => Err(fault("IndexNode decode failed during integrity walk", e.slot)),
                Ok(n) => if n.namespace() != e.namespace {
                    Err(fault("IndexNode.namespace != IndexRoot.namespace", e.slot))
                } else {
                    Ok(n)
                },
            }
        },
    }
}

/// Checks the subtree under a node, and gives how many steps down its deepest
/// leaf is: none where the node is a leaf.
pub open spec fn check(img: Image, e: Expected, st: CheckView, cap: int) -> Checked
    decreases cap - e.depth + 1, 0int,
{
    match walk_refusal(st.w, e.slot, e.depth) {
        Some(detail) => Checked { st, end: Err(fault(detail, e.slot)) },
        None => if e.depth > cap {
            Checked {
                st,
                end: Err(fault("tree deeper than this space's chunk count can hold", e.slot)),
            }
        } else {
            let next = CheckView { w: walk_step(st.w, e.slot), chunks: st.chunks + 1, ..st };
            match check_node(img, e) {
                Err(why) => Checked { st: next, end: Err(why) },
                Ok(NodeView::Leaf(l)) => match check_entries(e, l.entries, 0, st.pairs) {
                    Err(why) => Checked { st: next, end: Err(why) },
                    Ok(pairs) => Checked { st: CheckView { pairs, ..next }, end: Ok(0) },
                },
                Ok(NodeView::Internal(n)) => if n.children.len() == 0 {
                    Checked {
                        st: next,
                        end: Err(
                            fault(
                                "internal node with zero children reached the integrity walk",
                                e.slot,
                            ),
                        ),
                    }
                } else if under(e.lower, n.children[0].first_key) {
                    Checked {
                        st: next,
                        end: Err(
                            fault(
                                "internal child first_key below the range its parent promised",
                                e.slot,
                            ),
                        ),
                    }
                } else if over(e.upper, n.children.last().first_key) {
                    Checked {
                        st: next,
                        end: Err(
                            fault(
                                "internal child first_key at or above the range its parent promised",
                                e.slot,
                            ),
                        ),
                    }
                } else {
                    check_kids(img, e, n.children, 0, next, 0, cap)
                },
            }
        },
    }
}

/// Checks the subtrees under the children from position `i` on. `deepest` is how
/// many steps down the deepest leaf so far is.
pub open spec fn check_kids(
    img: Image,
    e: Expected,
    cs: Seq<ChildView>,
    i: int,
    st: CheckView,
    deepest: int,
    cap: int,
) -> Checked
    decreases cap - e.depth, cs.len() - i + 1,
{
    if i >= cs.len() || i < 0 || e.depth > cap {
        Checked { st, end: Ok(deepest) }
    } else {
        let c = check(img, expected_child(e, cs, i), st, cap);
        match c.end {
            Err(_) => c,
            Ok(d) => check_kids(
                img,
                e,
                cs,
                i + 1,
                c.st,
                if d + 1 > deepest {
                    d + 1
                } else {
                    deepest
                },
                cap,
            ),
        }
    }
}

/// What is expected of a node, in memory.
pub struct Subtree<'k> {
    pub slot: u64,
    pub expected_hash: [u8; 32],
    pub namespace: Namespace,
    pub is_log: bool,
    pub lower: Option<&'k [u8]>,
    pub upper: Option<&'k [u8]>,
    pub depth: u8,
}

/// A bound as a sequence.
pub open spec fn bound(b: Option<&[u8]>) -> Option<Seq<u8>> {
    match b {
        Some(k) => Some(k@),
        None => None,
    }
}

impl<'k> View for Subtree<'k> {
    type V = Expected;

    open spec fn view(&self) -> Expected {
        Expected {
            slot: self.slot,
            hash: self.expected_hash@,
            namespace: self.namespace,
            is_log: self.is_log,
            lower: bound(self.lower),
            upper: bound(self.upper),
            depth: self.depth as int,
        }
    }
}

/// Where a check stands, in memory.
pub struct VerifyCtx {
    pub walk: TreeWalk,
    pub log_pairs: Vec<Pointer>,
    pub report: IntegrityReport,
}

impl View for VerifyCtx {
    type V = CheckView;

    open spec fn view(&self) -> CheckView {
        CheckView {
            w: self.walk@,
            pairs: self.log_pairs@,
            chunks: self.report.chunks_verified as nat,
        }
    }
}

impl VerifyCtx {
    /// The chunks still to come can be counted.
    pub open spec fn wf(self) -> bool {
        &&& self.walk.wf()
        &&& self.report.chunks_verified + self.walk@.budget <= usize::MAX
    }
}

impl Space {
    /// What a slot opens to; not opening is a fault.
    fn read_chunk_for_verify(&self, slot: u64, aead_fail_detail: &'static str) -> (r: Result<
        &Plaintext,
        Error,
    >)
        ensures
            match r {
                Ok(p) => opened(self.file@, slot, aead_fail_detail) == Ok::<PlaintextView, Error>(
                    p@,
                ),
                Err(e) => opened(self.file@, slot, aead_fail_detail) == Err::<
                    PlaintextView,
                    Error,
                >(e),
            },
    {
        match self.read_owned_chunk(slot) {
            Ok(pt) => Ok(pt),
            Err(Error::AuthFailed) => Err(
                Error::IntegrityFailure { detail: aead_fail_detail, slot },
            ),
            Err(other) => Err(other),
        }
    }

    /// The node that an expectation is about, if it holds up by itself.
    fn verify_node(&self, exp: &Subtree) -> (r: Result<IndexNode, Error>)
        ensures
            match r {
                Ok(n) => check_node(self.file@, exp@) == Ok::<NodeView, Error>(n@),
                Err(e) => check_node(self.file@, exp@) == Err::<NodeView, Error>(e),
            },
    {
        let pt = match self.read_chunk_for_verify(
            exp.slot,
            "owned-chunk AEAD failure on IndexNode",
        ) {
            Ok(p) => p,
            Err(e) => {
                return Err(e);
            },
        };
        if pt.kind != ChunkKind::IndexNode {
            return Err(
                Error::IntegrityFailure {
                    detail: "expected IndexNode chunk; found different kind",
                    slot: exp.slot,
                },
            );
        }
        let actual = blake3_of(pt.payload.as_slice());
        if !bytes_eq(actual.as_slice(), exp.expected_hash.as_slice()) {
            return Err(
                Error::IntegrityFailure {
                    detail: "IndexNode chunk hash != parent's recorded hash",
                    slot: exp.slot,
                },
            );
        }
        let node = match IndexNode::decode(pt.payload.as_slice()) {
            Ok(n) => n,
            Err(_) => {
                return Err(
                    Error::IntegrityFailure {
                        detail: "IndexNode decode failed during integrity walk",
                        slot: exp.slot,
                    },
                );
            },
        };
        if node.namespace() != exp.namespace {
            return Err(
                Error::IntegrityFailure {
                    detail: "IndexNode.namespace != IndexRoot.namespace",
                    slot: exp.slot,
                },
            );
        }
        Ok(node)
    }

    /// Checks the subtree under a node, and gives how many steps down its
    /// deepest leaf is: none where the node is a leaf.
    #[verifier::spinoff_prover]
    #[verifier::rlimit(40)]
    fn verify_subtree(&self, exp: Subtree, ctx: &mut VerifyCtx) -> (r: Result<u8, Error>)
        requires
            old(ctx).wf(),
            exp.depth <= old(ctx).walk@.max_depth + 1,
        ensures
            final(ctx).wf(),
            final(ctx).walk@.max_depth == old(ctx).walk@.max_depth,
            final(ctx).report.namespaces_verified == old(ctx).report.namespaces_verified,
            final(ctx).report.max_depth == old(ctx).report.max_depth,
            final(ctx).report.data_batches_verified == old(ctx).report.data_batches_verified,
            ({
                let c = check(self.file@, exp@, old(ctx)@, old(ctx).walk@.max_depth as int);
                match r {
                    Ok(d) => c.end == Ok::<int, Error>(d as int) && final(ctx)@ == c.st
                        && exp.depth + d <= old(ctx).walk@.max_depth,
                    Err(e) => c.end == Err::<int, Error>(e),
                }
            }),
        decreases old(ctx).walk@.max_depth + 1 - exp.depth,
    {
        let ghost img = self.file@;
        let ghost cap = ctx.walk@.max_depth as int;
        let ghost ev = exp@;
        let ghost st0 = ctx@;
        let ghost want = check(img, ev, st0, cap);
        match ctx.walk.visit_for_verify(exp.slot, exp.depth) {
            Ok(()) => {},
            Err(e) => {
                return Err(e);
            },
        }
        let node = match self.verify_node(&exp) {
            Ok(n) => n,
            Err(e) => {
                return Err(e);
            },
        };
        ctx.report.chunks_verified = ctx.report.chunks_verified + 1;
        let ghost st1 = ctx@;
        match node {
            IndexNode::Leaf(leaf) => {
                let ghost es = leaf@.entries;
                let mut i: usize = 0;
                while i < leaf.entries.len()
                    invariant
                        i <= leaf.entries@.len(),
                        es == leaf@.entries,
                        img == self.file@,
                        ev == exp@,
                        st0 == old(ctx)@,
                        want == check(img, ev, st0, cap),
                        cap == old(ctx).walk@.max_depth,
                        ctx.wf(),
                        ctx.walk@ == st1.w,
                        st1.w.max_depth == cap,
                        st1 == (CheckView {
                            w: walk_step(st0.w, ev.slot),
                            chunks: st0.chunks + 1,
                            ..st0
                        }),
                        ctx.report.chunks_verified == st1.chunks,
                        ctx.report.namespaces_verified == old(ctx).report.namespaces_verified,
                        ctx.report.max_depth == old(ctx).report.max_depth,
                        ctx.report.data_batches_verified == old(ctx).report.data_batches_verified,
                        walk_refusal(st0.w, ev.slot, ev.depth) is None,
                        ev.depth <= cap,
                        check_node(img, ev) == Ok::<NodeView, Error>(NodeView::Leaf(leaf@)),
                        check_entries(ev, es, 0, st0.pairs) == check_entries(
                            ev,
                            es,
                            i as int,
                            ctx.log_pairs@,
                        ),
                    decreases leaf.entries@.len() - i,
                {
                    proof {
                        assert(es[i as int].0 == leaf.entries@[i as int].0@);
                        assert(es[i as int].1 == leaf.entries@[i as int].1@);
                    }
                    let key = leaf.entries[i].0.as_slice();
                    if let Some(lo) = exp.lower {
                        if bytes_lt(key, lo) {
                            return Err(
                                Error::IntegrityFailure {
                                    detail: "leaf key below the range its parent promised",
                                    slot: exp.slot,
                                },
                            );
                        }
                    }
                    if let Some(hi) = exp.upper {
                        if !bytes_lt(key, hi) {
                            return Err(
                                Error::IntegrityFailure {
                                    detail: "leaf key at or above the range its parent promised",
                                    slot: exp.slot,
                                },
                            );
                        }
                    }
                    if exp.is_log {
                        let log_id: u64 = match parse_log_id_key(key) {
                            Ok(n) => n,
                            Err(_) => {
                                return Err(
                                    Error::IntegrityFailure {
                                        detail: "log leaf entry key not 8 bytes (log_id)",
                                        slot: exp.slot,
                                    },
                                );
                            },
                        };
                        let batch_slot: u64 = match parse_batch_slot_value(
                            leaf.entries[i].1.as_slice(),
                        ) {
                            Ok(n) => n,
                            Err(_) => {
                                return Err(
                                    Error::IntegrityFailure {
                                        detail: "log leaf entry value not 8 bytes (batch_slot)",
                                        slot: exp.slot,
                                    },
                                );
                            },
                        };
                        ctx.log_pairs.push((batch_slot, log_id));
                    }
                    i = i + 1;
                }
                Ok(0)
            },
            IndexNode::Internal(inner) => {
                let ghost cs = inner@.children;
                let count: usize = inner.children.len();
                assert(cs.len() == count);
                if count == 0 {
                    return Err(
                        Error::IntegrityFailure {
                            detail: "internal node with zero children reached the integrity walk",
                            slot: exp.slot,
                        },
                    );
                }
                proof {
                    assert(cs[0].first_key == inner.children@[0].first_key@);
                    assert(cs[count - 1].first_key == inner.children@[count - 1].first_key@);
                }
                if let Some(lo) = exp.lower {
                    if bytes_lt(inner.children[0].first_key.as_slice(), lo) {
                        return Err(
                            Error::IntegrityFailure {
                                detail: "internal child first_key below the range its parent promised",
                                slot: exp.slot,
                            },
                        );
                    }
                }
                if let Some(hi) = exp.upper {
                    if !bytes_lt(inner.children[count - 1].first_key.as_slice(), hi) {
                        return Err(
                            Error::IntegrityFailure {
                                detail: "internal child first_key at or above the range its parent promised",
                                slot: exp.slot,
                            },
                        );
                    }
                }
                let mut deepest: u8 = 0;
                let mut i: usize = 0;
                while i < count
                    invariant
                        i <= count,
                        count == inner.children@.len(),
                        cs == inner@.children,
                        cs.len() == count,
                        img == self.file@,
                        ev == exp@,
                        st0 == old(ctx)@,
                        cap == old(ctx).walk@.max_depth,
                        cap <= 32,
                        ctx.wf(),
                        ctx.walk@.max_depth == cap,
                        ctx.report.namespaces_verified == old(ctx).report.namespaces_verified,
                        ctx.report.max_depth == old(ctx).report.max_depth,
                        ctx.report.data_batches_verified == old(ctx).report.data_batches_verified,
                        exp.depth + deepest <= cap,
                        want == check(img, ev, st0, cap),
                        want == check_kids(img, ev, cs, i as int, ctx@, deepest as int, cap),
                    decreases count - i,
                {
                    proof {
                        assert(cs[i as int] == inner.children@[i as int]@);
                        if i + 1 < count {
                            assert(cs[i + 1] == inner.children@[i + 1]@);
                        }
                    }
                    let upper: Option<&[u8]> = if i + 1 < count {
                        Some(inner.children[i + 1].first_key.as_slice())
                    } else {
                        exp.upper
                    };
                    let sub = Subtree {
                        slot: inner.children[i].child_slot,
                        expected_hash: inner.children[i].child_hash,
                        namespace: exp.namespace,
                        is_log: exp.is_log,
                        lower: Some(inner.children[i].first_key.as_slice()),
                        upper,
                        depth: exp.depth + 1,
                    };
                    assert(sub@ == expected_child(ev, cs, i as int));
                    match self.verify_subtree(sub, ctx) {
                        Ok(d) => {
                            if d + 1 > deepest {
                                deepest = d + 1;
                            }
                        },
                        Err(e) => {
                            return Err(e);
                        },
                    }
                    i = i + 1;
                }
                Ok(deepest)
            },
        }
    }
}

// ---------------------------------------------------------------------------
// The batches
// ---------------------------------------------------------------------------

/// The records of a batch, if it holds up by itself.
pub open spec fn check_batch(img: Image, slot: u64) -> Result<Seq<RecordView>, Error> {
    match opened(img, slot, "owned-chunk AEAD failure on DataBatch") {
        Err(why) => Err(why),
        Ok(p) => if p.kind != ChunkKind::DataBatch {
            Err(fault("Log leaf entry references chunk that is not DataBatch", slot))
        } else {
            match batch_decode(p.payload) {
                Err(_) => Err(fault("DataBatch decode failed during integrity walk", slot)),
                Ok(rs) => Ok(rs),
            }
        },
    }
}

/// What came of checking batches: where the walk stands, and how many hold.
pub struct BatchesChecked {
    pub w: WalkView,
    pub end: Result<nat, Error>,
}

/// Checks the batches that sorted pairs point at, from position `i` on: each
/// batch once, and each record it should hold.
pub open spec fn check_batches(
    img: Image,
    ps: Seq<Pointer>,
    i: int,
    w: WalkView,
    n: nat,
) -> BatchesChecked
    decreases ps.len() - i,
{
    if i >= ps.len() || i < 0 {
        BatchesChecked { w, end: Ok(n) }
    } else {
        let slot = ps[i].0;
        let first = i == 0 || ps[i - 1].0 != slot;
        match (if first {
            walk_refusal(w, slot, 0)
        } else {
            None
        }) {
            Some(detail) => BatchesChecked { w, end: Err(fault(detail, slot)) },
            None => {
                let w1 = if first {
                    walk_step(w, slot)
                } else {
                    w
                };
                match check_batch(img, slot) {
                    Err(why) => BatchesChecked { w: w1, end: Err(why) },
                    Ok(rs) => if last_with_id(rs, ps[i].1) is None {
                        BatchesChecked {
                            w: w1,
                            end: Err(
                                fault(
                                    "log index points at a DataBatch that does not hold its record",
                                    slot,
                                ),
                            ),
                        }
                    } else {
                        check_batches(
                            img,
                            ps,
                            i + 1,
                            w1,
                            if first {
                                n + 1
                            } else {
                                n
                            },
                        )
                    },
                }
            },
        }
    }
}

/// The numbers of the records.
fn ids_of(records: &Vec<(u64, Vec<u8>)>) -> (r: HashSet<u64>)
    ensures
        forall|id: u64| #[trigger]
            r@.contains(id) <==> last_with_id(records_view(records@), id) is Some,
{
    broadcast use vstd::std_specs::hash::group_hash_axioms;

    let ghost rs = records_view(records@);
    let mut set: HashSet<u64> = HashSet::new();
    let mut i: usize = 0;
    assert(rs.take(0) =~= Seq::<RecordView>::empty());
    while i < records.len()
        invariant
            i <= records@.len(),
            rs == records_view(records@),
            forall|id: u64| #[trigger]
                set@.contains(id) <==> last_with_id(rs.take(i as int), id) is Some,
        decreases records@.len() - i,
    {
        let ghost was = set@;
        let ghost head = rs.take(i as int);
        let ghost next = rs.take(i + 1);
        proof {
            assert(next.drop_last() =~= head);
            assert(next.last() == rs[i as int]);
        }
        set.insert(records[i].0);
        proof {
            assert forall|id: u64| #[trigger]
                set@.contains(id) <==> last_with_id(next, id) is Some by {
                assert(was.contains(id) <==> last_with_id(head, id) is Some);
            }
        }
        i = i + 1;
    }
    assert(rs.take(i as int) =~= rs);
    set
}

impl Space {
    /// The numbers of the records in a batch, if it holds up by itself.
    fn verify_batch(&self, slot: u64) -> (r: Result<HashSet<u64>, Error>)
        ensures
            match r {
                Ok(ids) => check_batch(self.file@, slot) is Ok && forall|id: u64| #[trigger]
                    ids@.contains(id) <==> last_with_id(
                        check_batch(self.file@, slot)->Ok_0,
                        id,
                    ) is Some,
                Err(e) => check_batch(self.file@, slot) == Err::<Seq<RecordView>, Error>(e),
            },
    {
        let pt = match self.read_chunk_for_verify(slot, "owned-chunk AEAD failure on DataBatch") {
            Ok(p) => p,
            Err(e) => {
                return Err(e);
            },
        };
        if pt.kind != ChunkKind::DataBatch {
            return Err(
                Error::IntegrityFailure {
                    detail: "Log leaf entry references chunk that is not DataBatch",
                    slot,
                },
            );
        }
        match decode_batch(pt.payload.as_slice()) {
            Ok(records) => Ok(ids_of(&records)),
            Err(_) => Err(
                Error::IntegrityFailure {
                    detail: "DataBatch decode failed during integrity walk",
                    slot,
                },
            ),
        }
    }

    /// Checks that every batch that a log entry points at holds its record.
    #[verifier::spinoff_prover]
    fn verify_log_data_batches(&self, ctx: &mut VerifyCtx) -> (r: Result<(), Error>)
        requires
            old(ctx).wf(),
            old(ctx).report.data_batches_verified == 0,
        ensures
            ({
                let c = check_batches(
                    self.file@,
                    sorted_pairs(old(ctx).log_pairs@),
                    0,
                    old(ctx).walk@,
                    0,
                );
                match r {
                    Ok(()) => {
                        &&& c.end == Ok::<nat, Error>(
                            final(ctx).report.data_batches_verified as nat,
                        )
                        &&& final(ctx).report == (IntegrityReport {
                            data_batches_verified: final(ctx).report.data_batches_verified,
                            ..old(ctx).report
                        })
                    },
                    Err(e) => c.end == Err::<nat, Error>(e),
                }
            }),
    {
        broadcast use vstd::std_specs::hash::group_hash_axioms;

        let ghost img = self.file@;
        let pairs = sort_pairs(&ctx.log_pairs);
        let ghost ps = pairs@;
        let ghost want = check_batches(img, ps, 0, ctx.walk@, 0);
        let mut present: HashSet<u64> = HashSet::new();
        let mut count: usize = 0;
        let mut i: usize = 0;
        while i < pairs.len()
            invariant
                i <= pairs@.len(),
                ps == pairs@,
                img == self.file@,
                want == check_batches(
                    img,
                    sorted_pairs(old(ctx).log_pairs@),
                    0,
                    old(ctx).walk@,
                    0,
                ),
                ctx.walk.wf(),
                ctx.report == old(ctx).report,
                count <= i,
                want == check_batches(img, ps, i as int, ctx.walk@, count as nat),
                i > 0 ==> check_batch(img, ps[i - 1].0) is Ok && forall|id: u64| #[trigger]
                    present@.contains(id) <==> last_with_id(
                        check_batch(img, ps[i - 1].0)->Ok_0,
                        id,
                    ) is Some,
            decreases pairs@.len() - i,
        {
            let slot: u64 = pairs[i].0;
            if i == 0 || pairs[i - 1].0 != slot {
                match ctx.walk.visit_for_verify(slot, 0) {
                    Ok(()) => {},
                    Err(e) => {
                        return Err(e);
                    },
                }
                present = match self.verify_batch(slot) {
                    Ok(ids) => ids,
                    Err(e) => {
                        return Err(e);
                    },
                };
                count = count + 1;
            }
            if !present.contains(&pairs[i].1) {
                return Err(
                    Error::IntegrityFailure {
                        detail: "log index points at a DataBatch that does not hold its record",
                        slot,
                    },
                );
            }
            i = i + 1;
        }
        ctx.report.data_batches_verified = count;
        Ok(())
    }
}

// ---------------------------------------------------------------------------
// The whole
// ---------------------------------------------------------------------------

/// What is expected of the node at a namespace's root.
pub open spec fn expected_root(r: RootView) -> Expected {
    Expected {
        slot: r.index_slot,
        hash: r.payload_hash,
        namespace: r.namespace,
        is_log: r.kind == NamespaceKind::Log,
        lower: None,
        upper: None,
        depth: 0,
    }
}

/// What came of checking trees: where the check stands, and the levels of the
/// tallest.
pub struct RootsChecked {
    pub st: CheckView,
    pub end: Result<int, Error>,
}

/// Checks the trees of all roots from position `i` on.
pub open spec fn check_roots(
    img: Image,
    rs: Seq<RootView>,
    i: int,
    st: CheckView,
    levels: int,
) -> RootsChecked
    decreases rs.len() - i,
{
    if i >= rs.len() || i < 0 {
        RootsChecked { st, end: Ok(levels) }
    } else {
        let c = check(img, expected_root(rs[i]), st, st.w.max_depth as int);
        match c.end {
            Err(why) => RootsChecked { st: c.st, end: Err(why) },
            Ok(d) => check_roots(
                img,
                rs,
                i + 1,
                c.st,
                if d + 1 > levels {
                    d + 1
                } else {
                    levels
                },
            ),
        }
    }
}

/// The commit record of a superblock, if it holds up by itself.
pub open spec fn check_commit(img: Image, sb: SuperblockView) -> Result<CommitView, Error> {
    match opened(img, sb.root_slot, "owned-chunk AEAD failure on Commit") {
        Err(why) => Err(why),
        Ok(p) => if p.kind != ChunkKind::Commit {
            Err(fault("Superblock root_slot points at non-Commit chunk", sb.root_slot))
        } else {
            match commit_decode(p.payload) {
                Err(_) => Err(fault("CommitPayload decode failed", sb.root_slot)),
                Ok(c) => if tx_root_digest(c.roots) != sb.root_hash {
                    Err(fault("Superblock.root_hash != BLAKE3(roots)", sb.root_slot))
                } else if c.tx_root_hash != tx_root_digest(c.roots) {
                    Err(
                        fault(
                            "CommitPayload.tx_root_hash internally inconsistent",
                            sb.root_slot,
                        ),
                    )
                } else {
                    Ok(c)
                },
            }
        },
    }
}

/// Where the check of trees starts: at the commit record, which holds.
pub open spec fn check_start(s: Space) -> CheckView {
    CheckView {
        w: walk_step(s.walk_now(), s.state.superblock.root_slot),
        pairs: Seq::<Pointer>::empty(),
        chunks: 1,
    }
}

/// A report in numbers: namespaces, chunks, levels, batches.
pub type ReportView = (nat, nat, int, nat);

/// What a check of the whole space gives.
pub open spec fn check_all(s: Space) -> Result<ReportView, Error> {
    let slot = s.state.superblock.root_slot;
    if slot == NO_RECORD {
        Ok((0, 0, 0, 0))
    } else {
        match walk_refusal(s.walk_now(), slot, 0) {
            Some(detail) => Err(fault(detail, slot)),
            None => match check_commit(s.file@, s.state.superblock@) {
                Err(why) => Err(why),
                Ok(c) => {
                    let t = check_roots(s.file@, c.roots, 0, check_start(s), 0);
                    match t.end {
                        Err(why) => Err(why),
                        Ok(levels) => match check_batches(
                            s.file@,
                            sorted_pairs(t.st.pairs),
                            0,
                            t.st.w,
                            0,
                        ).end {
                            Err(why) => Err(why),
                            Ok(n) => Ok((c.roots.len(), t.st.chunks, levels, n)),
                        },
                    }
                },
            },
        }
    }
}

impl Space {
    /// Checks everything that the current superblock leads to: that each
    /// chunk opens, hashes as what leads to it says, lies in the key range it
    /// should and is reached once, and that each log entry leads to a batch
    /// that holds its record.
    #[verifier::spinoff_prover]
    pub fn verify_integrity(&self) -> (r: Result<IntegrityReport, Error>)
        requires
            self.wf(),
        ensures
            match r {
                Ok(rep) => check_all(*self) == Ok::<ReportView, Error>(
                    (
                        rep.namespaces_verified as nat,
                        rep.chunks_verified as nat,
                        rep.max_depth as int,
                        rep.data_batches_verified as nat,
                    ),
                ),
                Err(e) => check_all(*self) == Err::<ReportView, Error>(e),
            },
    {
        let ghost img = self.file@;
        let mut ctx = VerifyCtx {
            walk: self.new_tree_walk(),
            log_pairs: Vec::new(),
            report: IntegrityReport {
                namespaces_verified: 0,
                chunks_verified: 0,
                max_depth: 0,
                data_batches_verified: 0,
            },
        };
        let slot: u64 = self.state.superblock.root_slot;
        if slot == NO_RECORD {
            return Ok(ctx.report);
        }
        proof {
            let owned = self.state.owned_slots.len;
            assert(self.walk_now().budget == owned);
        }
        match ctx.walk.visit_for_verify(slot, 0) {
            Ok(()) => {},
            Err(e) => {
                return Err(e);
            },
        }
        let pt = match self.read_chunk_for_verify(slot, "owned-chunk AEAD failure on Commit") {
            Ok(p) => p,
            Err(e) => {
                return Err(e);
            },
        };
        if pt.kind != ChunkKind::Commit {
            return Err(
                Error::IntegrityFailure {
                    detail: "Superblock root_slot points at non-Commit chunk",
                    slot,
                },
            );
        }
        ctx.report.chunks_verified = ctx.report.chunks_verified + 1;
        let cp = match CommitPayload::decode(pt.payload.as_slice()) {
            Ok(c) => c,
            Err(_) => {
                return Err(Error::IntegrityFailure { detail: "CommitPayload decode failed", slot });
            },
        };
        let recomputed = CommitPayload::compute_tx_root_hash(cp.roots.as_slice());
        if !bytes_eq(recomputed.as_slice(), self.state.superblock.root_hash.as_slice()) {
            return Err(
                Error::IntegrityFailure { detail: "Superblock.root_hash != BLAKE3(roots)", slot },
            );
        }
        if !bytes_eq(cp.tx_root_hash.as_slice(), recomputed.as_slice()) {
            return Err(
                Error::IntegrityFailure {
                    detail: "CommitPayload.tx_root_hash internally inconsistent",
                    slot,
                },
            );
        }
        let ghost rs = cp@.roots;
        let ghost start = check_start(*self);
        proof {
            assert(ctx.log_pairs@ =~= Seq::<Pointer>::empty());
            assert(ctx@ == start);
            assert(check_commit(img, self.state.superblock@) == Ok::<CommitView, Error>(cp@));
        }
        let ghost want = check_roots(img, rs, 0, start, 0);
        let mut i: usize = 0;
        while i < cp.roots.len()
            invariant
                i <= cp.roots@.len(),
                rs == roots_view(cp.roots@),
                img == self.file@,
                ctx.wf(),
                ctx.report.namespaces_verified == i,
                ctx.report.data_batches_verified == 0,
                want == check_roots(img, rs, 0, start, 0),
                want == check_roots(img, rs, i as int, ctx@, ctx.report.max_depth as int),
                check_all(*self) == match want.end {
                    Err(why) => Err(why),
                    Ok(levels) => match check_batches(
                        img,
                        sorted_pairs(want.st.pairs),
                        0,
                        want.st.w,
                        0,
                    ).end {
                        Err(why) => Err(why),
                        Ok(n) => Ok((rs.len(), want.st.chunks, levels, n)),
                    },
                },
            decreases cp.roots@.len() - i,
        {
            assert(rs[i as int] == cp.roots@[i as int]@);
            let root = cp.roots[i];
            let sub = Subtree {
                slot: root.index_slot,
                expected_hash: root.payload_hash,
                namespace: root.namespace,
                is_log: root.kind == NamespaceKind::Log,
                lower: None,
                upper: None,
                depth: 0,
            };
            assert(sub@ == expected_root(rs[i as int]));
            let ghost st = ctx@;
            let depth: u8 = match self.verify_subtree(sub, &mut ctx) {
                Ok(d) => d,
                Err(e) => {
                    return Err(e);
                },
            };
            let levels: u8 = depth.saturating_add(1);
            if levels > ctx.report.max_depth {
                ctx.report.max_depth = levels;
            }
            ctx.report.namespaces_verified = ctx.report.namespaces_verified + 1;
            i = i + 1;
        }
        match self.verify_log_data_batches(&mut ctx) {
            Ok(()) => Ok(ctx.report),
            Err(e) => Err(e),
        }
    }
}

} // verus!
