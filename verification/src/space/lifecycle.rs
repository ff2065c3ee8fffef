//! How a space begins, is handed on, and how a namespace ends.

use vstd::prelude::*;

use crate::chunk::{ChunkKind, PAYLOAD_CAP};
use crate::container::{
    affords, extends, live, same_settings, writes_less, wrote_only, ContainerFile, Image, LockMode,
};
use crate::error::Error;
use crate::rng::Entropy;
use crate::space::commit::{
    begun, commit_refusal, copies, copies_wanted, early_failure, hidden, involved, involved_count,
    kept_by_commit, lemma_begun_quiet, lemma_hidden_quiet, on_file, published, ready, replicated,
    superblock_chunk, unpublished,
};
use crate::space::index::{
    legal_key, lemma_leaf_decode_valid, lemma_leaf_fault_all, ChildView, EntryView, Namespace,
    NodeView,
};
use crate::space::model::OpView;
use crate::space::pool::DecoyPool;
use crate::space::reads::{
    everything, first_wanted, gather, gather_kids, keys_of, keys_view, range_of, scan, QueryView,
};
use crate::space::slots::OwnedSet;
use crate::space::superblock::{
    law_superblock_decode_of_encode, superblock_encode, Superblock, NO_RECORD,
};
use crate::space::walk::{walk_refusal, walk_step, WalkView};
use crate::space::{grown, lemma_grown_refl, lemma_grown_trans, node_at, quiet};
use crate::space::{Space, SpaceKeys, SpaceState};
use crate::tx::commit::RootView;
use crate::tx::pending::{
    lemma_pending_at, pending_log_of, pending_of, pendings_wf, KvOrigin, PendingLogView,
    PendingView,
};
use crate::tx::touched;

verus! {

/// No slot opens.
pub open spec fn nothing_opens(img: Image) -> bool {
    forall|s: u64| !#[trigger] live(img, s)
}

/// The superblock of a space without a commit.
pub open spec fn is_first(sb: Superblock) -> bool {
    &&& sb.seq == 1
    &&& sb.root_slot == NO_RECORD
    &&& sb.checkpoint_slot == NO_RECORD
    &&& forall|i: int| 0 <= i < 32 ==> #[trigger] sb.root_hash@[i] == 0
}

impl SpaceState {
    /// The state of a space of which nothing is known yet.
    pub fn fresh(keys: SpaceKeys, entropy: Entropy) -> (r: SpaceState)
        ensures
            r.keys == keys,
            r.entropy == entropy,
            r.superblock.seq == 0,
            r.superblock.root_slot == NO_RECORD,
            r.superblock.checkpoint_slot == NO_RECORD,
            r.owned_slots.wf(),
            r.owned_slots@ == Set::<u64>::empty(),
            r.pool.wf(),
            r.pool@ == Set::<u64>::empty(),
            r.pool.drift == 0,
            r.commit_history@.len() == 0,
            r.last_padding_error is None,
            r.last_publish_error is None,
            r.roots_payload_cache is None,
            r.attempted_seq == 0,
            r.unreadable_newer_superblock is None,
            !r.pool_recovered,
            r.reuse_count == 0,
            r.churn_count == 0,
            r.reuse_floor == 0,
    {
        SpaceState {
            keys,
            superblock: Superblock {
                seq: 0,
                root_slot: NO_RECORD,
                root_hash: [0u8;32],
                checkpoint_slot: NO_RECORD,
            },
            owned_slots: OwnedSet::with_capacity(0),
            commit_history: Vec::new(),
            last_padding_error: None,
            last_publish_error: None,
            roots_payload_cache: None,
            attempted_seq: 0,
            unreadable_newer_superblock: None,
            pool: DecoyPool::with_capacity(0),
            pool_recovered: false,
            reuse_count: 0,
            churn_count: 0,
            reuse_floor: 0,
            entropy,
        }
    }
}

/// Does any slot open?
fn any_opens(file: &ContainerFile) -> (r: bool)
    ensures
        r == !nothing_opens(file@),
{
    let mut i: usize = 0;
    while i < file.slots.len()
        invariant
            i <= file.slots@.len(),
            forall|s: u64| s < i ==> !#[trigger] live(file@, s),
        decreases file.slots@.len() - i,
    {
        if file.slots[i].is_some() {
            assert(live(file@, i as u64));
            return true;
        }
        i = i + 1;
    }
    false
}

impl Space {
    /// Starts a space: publishes a superblock without a commit. Refused where
    /// something opens under the keys already.
    #[verifier::spinoff_prover]
    pub fn create(file: ContainerFile, keys: SpaceKeys, entropy: Entropy) -> (r: Result<
        Space,
        Error,
    >)
        requires
            entropy.wf(),
        ensures
            !nothing_opens(file@) <==> r == Err::<Space, Error>(Error::SpaceAlreadyExists),
            nothing_opens(file@) && file.lock_mode != LockMode::Exclusive ==> r == Err::<
                Space,
                Error,
            >(Error::ReadOnly),
            nothing_opens(file@) && file.lock_mode == LockMode::Exclusive ==> match r {
                Ok(_) => affords(file.writes_left, copies_wanted(file) + 1) && affords(
                    file.room_left,
                    copies_wanted(file),
                ),
                Err(e) => if affords(file.room_left, copies_wanted(file)) {
                    &&& !affords(file.writes_left, copies_wanted(file) + 1)
                    &&& e == if affords(file.writes_left, copies_wanted(file)) {
                        Error::Io("device refused to flush")
                    } else {
                        Error::Io("device refused the write")
                    }
                } else {
                    e == if affords(file.writes_left, file.room_left->0 + 1) {
                        Error::Io("no room on the device")
                    } else {
                        Error::Io("device refused the write")
                    }
                },
            },
            r matches Ok(s) ==> {
                &&& same_settings(file, s.file)
                &&& s.file.writes_left == writes_less(file.writes_left, copies_wanted(file) + 1)
                &&& s.file.room_left == writes_less(file.room_left, copies_wanted(file))
                &&& s.file.durable@ == s.file@
                &&& wrote_only(file, s.file, Set::<u64>::empty())
                &&& replicated(file@, s.file@, s.state.superblock@, copies_wanted(file))
                &&& s.file@.len() == file@.len() + copies_wanted(file)
                &&& s.state.attempted_seq == 0
                &&& s.state.unreadable_newer_superblock is None
                &&& s.state.last_padding_error is None
                &&& s.state.last_publish_error is None
                &&& s.state.reuse_count == 0
                &&& s.state.churn_count == 0
                &&& !s.state.pool_recovered
                &&& s.state.entropy == entropy
                &&& s.wf()
                &&& extends(file@, s.file@)
                &&& is_first(s.state.superblock)
                &&& on_file(s.file@, s.state.superblock@)
                &&& s.roots() == Ok::<Seq<RootView>, Error>(Seq::<RootView>::empty())
                &&& s.state.commit_history@ == seq![1u64]
                &&& s.state.keys == keys
                &&& s.state.pool@ == Set::<u64>::empty()
                &&& s.state.pool.drift == 0
            },
    {
        if any_opens(&file) {
            return Err(Error::SpaceAlreadyExists);
        }
        let replicas: u8 = if file.superblock_replicas == 0 {
            1
        } else {
            file.superblock_replicas
        };
        let ghost img0 = file@;
        let mut space = Space { file, state: SpaceState::fresh(keys, entropy) };
        let initial = Superblock {
            seq: 1,
            root_slot: NO_RECORD,
            root_hash: [0u8;32],
            checkpoint_slot: NO_RECORD,
        };
        let bytes = initial.encode();
        let ghost s0 = space;
        let ghost mut v = Seq::<u64>::empty();
        proof {
            law_superblock_decode_of_encode(initial@);
            lemma_grown_refl(s0);
        }
        let mut i: u8 = 0;
        while i < replicas
            invariant
                i <= replicas,
                replicas > 0,
                img0 == file@,
                nothing_opens(img0),
                s0.file == file,
                s0.state.keys == keys,
                s0.state.commit_history@.len() == 0,
                bytes@ == superblock_encode(initial@),
                bytes@.len() <= PAYLOAD_CAP,
                initial.seq == 1,
                space.wf(),
                grown(s0, space),
                space.state.pool@ == Set::<u64>::empty(),
                space.state.pool.drift == 0,
                replicas == copies_wanted(file),
                space.state.entropy == entropy,
                s0.state.attempted_seq == 0,
                s0.state.unreadable_newer_superblock is None,
                s0.state.last_padding_error is None,
                s0.state.last_publish_error is None,
                space.state.reuse_count == 0,
                s0.state.churn_count == 0,
                !s0.state.pool_recovered,
                wrote_only(file, space.file, Set::<u64>::empty()),
                space.file@.len() == file@.len() + i,
                affords(file.writes_left, i as int),
                space.file.writes_left == writes_less(file.writes_left, i as int),
                affords(file.room_left, i as int),
                space.file.room_left == writes_less(file.room_left, i as int),
                copies(file@, space.file@, initial@, v),
                v.len() == i,
                i > 0 ==> on_file(space.file@, initial@) && file.lock_mode == LockMode::Exclusive,
            decreases replicas - i,
        {
            let ghost s1 = space;
            match space.append_chunk(ChunkKind::Superblock, initial.seq, bytes.as_slice()) {
                Ok(slot) => {
                    proof {
                        lemma_grown_trans(s0, s1, space);
                        assert(live(space.file@, slot));
                        assert forall|j: int| 0 <= j < v.len() implies #[trigger] v[j] != slot
                            && live(space.file@, v[j]) && space.file@[v[j] as int] == Some(
                            superblock_chunk(initial@),
                        ) by {
                            assert(live(s1.file@, v[j]));
                        }
                        v = v.push(slot);
                    }
                },
                Err(e) => {
                    return Err(e);
                },
            }
            i = i + 1;
        }
        let ghost s2 = space;
        match space.sync() {
            Ok(()) => {},
            Err(e) => {
                return Err(e);
            },
        }
        space.state.superblock = initial;
        space.state.commit_history.push(1);
        assert(space.state.commit_history@ =~= seq![1u64]);
        assert(copies(file@, space.file@, space.state.superblock@, v));
        Ok(space)
    }

    /// A space that goes on from a state.
    pub fn from_state(file: ContainerFile, state: SpaceState) -> (r: Space)
        requires
            (Space { file, state }).wf(),
        ensures
            r.wf(),
            r.file == file,
            r.state == state,
    {
        Space { file, state }
    }

    /// The state of the space, to go on from later.
    pub fn into_state(self) -> (r: SpaceState)
        ensures
            r == self.state,
    {
        self.state
    }
}

// ---------------------------------------------------------------------------
// Erasing
// ---------------------------------------------------------------------------

/// Deletes of keys.
pub open spec fn deletes(keys: Seq<Seq<u8>>) -> Seq<OpView> {
    Seq::new(keys.len(), |i: int| (keys[i], None))
}

/// What is buffered to erase a namespace with these keys.
pub open spec fn erasure(ns: Namespace, keys: Seq<Seq<u8>>) -> Seq<PendingView> {
    seq![PendingView { ns: ns.0, origin: KvOrigin::Erase, ops: deletes(keys) }]
}

/// No records.
pub open spec fn no_logs() -> Seq<PendingLogView> {
    Seq::<PendingLogView>::empty()
}

/// Entries whose keys are legal.
pub open spec fn keys_legal(es: Seq<EntryView>) -> bool {
    forall|i: int| 0 <= i < es.len() ==> legal_key((#[trigger] es[i]).0)
}

proof fn lemma_scan_legal(q: QueryView, es: Seq<EntryView>, i: int, w: WalkView, out: Seq<EntryView>)
    requires
        0 <= i,
        keys_legal(es),
        keys_legal(out),
    ensures
        keys_legal(scan(q, es, i, w, out).out),
    decreases es.len() - i,
{
    if i < es.len() {
        lemma_scan_legal(q, es, i + 1, w, out);
        let more = out.push(es[i]);
        assert forall|j: int| 0 <= j < more.len() implies legal_key((#[trigger] more[j]).0) by {
            if j < out.len() {
                assert(more[j] == out[j]);
            }
        }
        lemma_scan_legal(q, es, i + 1, w, more);
    }
}

/// What is read from nodes has legal keys.
proof fn lemma_gather_legal(
    img: Image,
    ns: Namespace,
    q: QueryView,
    slot: u64,
    depth: int,
    w: WalkView,
    out: Seq<EntryView>,
    cap: int,
)
    requires
        keys_legal(out),
    ensures
        keys_legal(gather(img, ns, q, slot, depth, w, out, cap).out),
    decreases cap - depth + 1, 0int,
{
    if !q.full(out.len()) && walk_refusal(w, slot, depth) is None && depth <= cap {
        match node_at(img, slot, ns) {
            Err(_) => {},
            Ok(NodeView::Leaf(l)) => {
                let payload = img[slot as int]->0.payload;
                lemma_leaf_decode_valid(payload);
                lemma_leaf_fault_all(l.entries);
                lemma_scan_legal(q, l.entries, 0, walk_step(w, slot), out);
            },
            Ok(NodeView::Internal(n)) => {
                lemma_gather_kids_legal(
                    img,
                    ns,
                    q,
                    n.children,
                    first_wanted(q, n.children),
                    depth + 1,
                    walk_step(w, slot),
                    out,
                    cap,
                );
            },
        }
    }
}

proof fn lemma_gather_kids_legal(
    img: Image,
    ns: Namespace,
    q: QueryView,
    cs: Seq<ChildView>,
    i: int,
    depth: int,
    w: WalkView,
    out: Seq<EntryView>,
    cap: int,
)
    requires
        keys_legal(out),
    ensures
        keys_legal(gather_kids(img, ns, q, cs, i, depth, w, out, cap).out),
    decreases cap - depth + 1, cs.len() - i + 1,
{
    if 0 <= i < cs.len() {
        let g = gather(img, ns, q, cs[i].child_slot, depth, w, out, cap);
        lemma_gather_legal(img, ns, q, cs[i].child_slot, depth, w, out, cap);
        if g.end == Ok::<bool, Error>(false) {
            lemma_gather_kids_legal(img, ns, q, cs, i + 1, depth, g.w, g.out, cap);
        }
    }
}

/// With nothing buffered nothing is touched.
proof fn lemma_nothing_touched(n: nat)
    requires
        n <= 256,
    ensures
        involved_count(
            Seq::<RootView>::empty(),
            Seq::<PendingView>::empty(),
            no_logs(),
            n,
        ) == 0,
    decreases n,
{
    if n > 0 {
        lemma_nothing_touched((n - 1) as nat);
        assert(!involved(
            Seq::<RootView>::empty(),
            Seq::<PendingView>::empty(),
            no_logs(),
            (n - 1) as u8,
        ));
    }
}

/// What is buffered for one namespace only.
proof fn lemma_one_pending(v: Seq<PendingView>, p: PendingView)
    requires
        pendings_wf(v),
        forall|m: u8| #[trigger]
            pending_of(v, m) == if m == p.ns {
                Some(p)
            } else {
                None
            },
    ensures
        v == seq![p],
{
    assert forall|i: int| 0 <= i < v.len() implies #[trigger] v[i] == p by {
        lemma_pending_at(v, i);
        assert(pending_of(v, v[i].ns) == Some(v[i]));
    }
    if v.len() > 1 {
        assert(v[0].ns < v[1].ns);
    }
    if v.len() == 0 {
        assert(pending_of(v, p.ns) is None);
    }
    assert(v =~= seq![p]);
}

impl Space {
    /// Deletes every key of a namespace, of whatever kind, in one commit, and
    /// gives how many there were. An empty namespace takes no commit.
    #[verifier::spinoff_prover]
    #[verifier::rlimit(40)]
    pub fn erase_namespace(&mut self, namespace: Namespace) -> (r: Result<usize, Error>)
        requires
            old(self).wf(),
        ensures
            final(self).wf(),
            match range_of(
                old(self).file@,
                old(self).state.superblock@,
                old(self).walk_now(),
                namespace,
                everything(),
            ) {
                Err(e) => r == Err::<usize, Error>(e) && quiet(*old(self), *final(self)),
                Ok(es) => if es.len() == 0 {
                    r == Ok::<usize, Error>(0) && quiet(*old(self), *final(self))
                } else if namespace.0 == 0 {
                    r == Err::<usize, Error>(Error::Malformed("namespace 0 is reserved")) && quiet(
                        *old(self),
                        *final(self),
                    )
                } else {
                    match r {
                        Ok(n) => {
                            &&& n == es.len()
                            &&& published(
                                *old(self),
                                *final(self),
                                erasure(namespace, keys_of(es)),
                                no_logs(),
                                final(self).state.superblock.seq,
                            )
                            &&& kept_by_commit(*old(self), *final(self))
                            &&& hidden(*old(self), *final(self))
                            &&& old(self).file.lock_mode == LockMode::Exclusive
                        },
                        Err(e) => match commit_refusal(
                            *old(self),
                            erasure(namespace, keys_of(es)),
                            no_logs(),
                        ) {
                            Some(refusal) => e == refusal && quiet(*old(self), *final(self)),
                            None => {
                                &&& kept_by_commit(*old(self), *final(self))
                                &&& unpublished(*old(self), *final(self), e)
                                &&& begun(
                                    *old(self),
                                    *final(self),
                                    erasure(namespace, keys_of(es)),
                                    no_logs(),
                                )
                                &&& early_failure(*old(self), *final(self), no_logs(), e)
                                &&& !ready(*old(self), no_logs())
                            },
                        },
                    }
                },
            },
    {
        let ghost s0 = *self;
        let ghost es = range_of(
            s0.file@,
            s0.state.superblock@,
            s0.walk_now(),
            namespace,
            everything(),
        )->Ok_0;
        let keys = match self.list_keys(namespace) {
            Ok(v) => v,
            Err(e) => {
                return Err(e);
            },
        };
        if keys.len() == 0 {
            assert(keys_view(keys@).len() == keys_of(es).len());
            return Ok(0);
        }
        let ghost s1 = *self;
        let ghost ks = keys_of(es);
        let count: usize = keys.len();
        proof {
            assert(keys_view(keys@).len() == keys@.len());
            assert(keys_of(es).len() == es.len());
            assert(keys_legal(es)) by {
                match s0.roots() {
                    Ok(rs) => match crate::space::root_of(rs, namespace) {
                        Some(r) => {
                            lemma_gather_legal(
                                s0.file@,
                                namespace,
                                everything(),
                                r.index_slot,
                                0,
                                s0.walk_now(),
                                Seq::<EntryView>::empty(),
                                s0.walk_now().max_depth as int,
                            );
                        },
                        None => {},
                    },
                    Err(_) => {},
                }
            }
            lemma_nothing_touched(256);
        }
        let mut tx = self.begin_tx();
        proof {
            assert(tx.kv() =~= Seq::<PendingView>::empty());
            assert(tx.logs() =~= no_logs());
        }
        let mut i: usize = 0;
        while i < keys.len()
            invariant
                i <= keys@.len(),
                count == keys@.len(),
                count > 0,
                s0 == *old(self),
                quiet(s0, s1),
                es.len() == count,
                range_of(
                    s0.file@,
                    s0.state.superblock@,
                    s0.walk_now(),
                    namespace,
                    everything(),
                ) == Ok::<Seq<EntryView>, Error>(es),
                ks.len() == count,
                ks == keys_view(keys@),
                ks == keys_of(es),
                keys_legal(es),
                s1.wf(),
                tx.wf(),
                *tx.space == s1,
                *final(tx.space) == after_borrow(*self),
                tx.logs() == no_logs(),
                tx.kv() == if i == 0 {
                    Seq::<PendingView>::empty()
                } else {
                    erasure(namespace, ks.take(i as int))
                },
                touched(Seq::<PendingView>::empty(), no_logs()) == 0,
                i > 0 ==> namespace.0 != 0,
            decreases keys@.len() - i,
        {
            let ghost before = tx.kv();
            proof {
                assert(ks[i as int] == keys@[i as int]@);
                assert(keys_of(es)[i as int] == es[i as int].0);
                assert(pending_log_of(no_logs(), namespace.0) is None);
                if i > 0 {
                    assert(before.last().ns == namespace.0);
                    assert(pending_of(before, namespace.0) == Some(before[0]));
                    assert(before.drop_last() =~= Seq::<PendingView>::empty());
                }
            }
            match tx.delete_internal(
                namespace,
                crate::bytes::copy_of(keys[i].as_slice()),
                KvOrigin::Erase,
            ) {
                Ok(()) => {},
                Err(e) => {
                    return Err(e);
                },
            }
            proof {
                let p = PendingView {
                    ns: namespace.0,
                    origin: KvOrigin::Erase,
                    ops: deletes(ks.take(i + 1)),
                };
                assert(deletes(ks.take(i + 1)) =~= deletes(ks.take(i as int)).push(
                    (ks[i as int], None),
                ));
                if i == 0 {
                    assert(deletes(ks.take(1)) =~= seq![(ks[0], None)]);
                }
                assert forall|m: u8| #[trigger]
                    pending_of(tx.kv(), m) == if m == p.ns {
                        Some(p)
                    } else {
                        None
                    } by {
                    if m != p.ns {
                        assert(pending_of(before, m) is None) by {
                            if i > 0 {
                                assert(before.drop_last() =~= Seq::<PendingView>::empty());
                                assert(pending_of(before.drop_last(), m) is None);
                            }
                        }
                    }
                }
                lemma_one_pending(tx.kv(), p);
            }
            i = i + 1;
        }
        proof {
            assert(ks.take(i as int) =~= ks);
            assert(tx.kv()[0].ops.len() > 0);
        }
        let done = tx.commit();
        proof {
            let kv = erasure(namespace, ks);
            if done is Ok {
                lemma_hidden_quiet(s0, s1, *self);
            } else if commit_refusal(s0, kv, no_logs()) is None {
                lemma_begun_quiet(s0, s1, *self, kv, no_logs());
            }
        }
        match done {
            Ok(_) => Ok(count),
            Err(e) => Err(e),
        }
    }
}

} // verus!
