//! Committing a transaction: batches, trees, the commit record, the
//! superblock, and then the noise that hides the rest.

use vstd::prelude::*;

use crate::bytes::{be_bytes, copy_of, le_bytes, lemma_be_round_trip, lemma_le_bytes_len};
use crate::chunk::{ChunkKind, PlaintextView, PAYLOAD_CAP};
use crate::container::{
    affords, extends, flushed, lemma_extends_refl, lemma_extends_trans, live, padding_after,
    refused_slot, same_settings, writes_less, wrote_only, ContainerFile, Image, LockMode,
};
use crate::error::Error;
use crate::space::cutting::{is_neat, lemma_is_neat_extends, ns_neat};
use crate::space::integrity::check_commit;
use crate::space::index::{entries_view, keys_sorted, lookup, EntryView, Namespace};
use crate::space::log::{
    lemma_batches_plain, batch_decode, batches_listed, batches_of, batches_records, batches_view,
    encode_batch_slot_value, encode_batches_split, last_with_id, lemma_batches_prefix, log_id_key,
    record_ids, records_view, RecordView,
};
use crate::space::model::{
    law_merged_lookup, lemma_merged_sorted, lemma_ns_holds_extends, lemma_ns_holds_sorted,
    lemma_root_of, lemma_root_of_push, lemma_tree_extends, lemma_tree_unique,
    lemma_walkable_extends, merged, ns_holds, put_of, tree, tree_entries, ops_sorted, walkable,
    OpView,
};
use crate::space::superblock::{
    law_superblock_decode_of_encode, superblock_encode, Superblock, SuperblockView, NO_RECORD,
};
use crate::space::tree::{built, entries_legal, op_legal, op_on, op_view, topped, Build, KeyOps};
use crate::space::update::holds_tree;
use crate::space::walk::lemma_depth_bound_grows;
use crate::space::pool::{drawn, sample_size, sure_words};
use crate::space::{
    blamed, failed, grown, laid, lemma_cache_extends, lemma_grown_refl, lemma_grown_trans,
    lemma_laid_refl, lemma_laid_trans, no_new_superblock, node_at, quiet, reuse_floor_for, root_of,
    roots_at, spec_reuse_floor, stamped, steady, storage_wf, takes_all, within, Space, SpaceState,
    CHURN_PER_REUSE,
};
use crate::tx::commit::{
    law_commit_decode_of_encode, roots_sorted, roots_view, CommitPayload, IndexRoot, NamespaceKind,
    RootView, MAX_NAMESPACES_PER_TX,
};
use crate::tx::pending::{
    all_ops_legal, collapse, ids_rise, kvs_view, last_op, latest_records, lemma_last_with_id,
    lemma_last_with_id_at, lemma_pending_at, lemma_pending_log_at, lemma_pending_log_of,
    lemma_pending_of, pending_log_of, pending_logs_view, pending_logs_wf, pending_of,
    pendings_view, pendings_wf, KvOrigin, PendingLogNs, PendingLogView, PendingNs, PendingView,
};

verus! {

/// The slot holds a batch in which the last record numbered `id` has this
/// payload.
pub open spec fn batch_holds(img: Image, slot: u64, id: u64, payload: Seq<u8>) -> bool {
    &&& live(img, slot)
    &&& img[slot as int]->0.kind == ChunkKind::DataBatch
    &&& batch_decode(img[slot as int]->0.payload) is Ok
    &&& last_with_id(batch_decode(img[slot as int]->0.payload)->Ok_0, id) == Some(payload)
}

/// The operation on a record's key points at a batch that holds the record.
pub open spec fn pointed(img: Image, ops: Seq<OpView>, id: u64, payload: Seq<u8>) -> bool {
    exists|slot: u64| #[trigger]
        batch_holds(img, slot, id, payload) && op_on(ops, be_bytes(id as nat, 8)) == Some(
            Some(le_bytes(slot as nat, 8)),
        )
}

/// The operations point each record's key at a batch that holds it, and touch
/// no other key.
pub open spec fn logged(img: Image, recs: Seq<RecordView>, ops: Seq<OpView>) -> bool {
    &&& forall|m: int|
        0 <= m < recs.len() ==> pointed(img, ops, (#[trigger] recs[m]).0, recs[m].1)
    &&& forall|k: Seq<u8>| #[trigger]
        op_on(ops, k) is Some ==> exists|m: int|
            0 <= m < recs.len() && k == be_bytes((#[trigger] recs[m]).0 as nat, 8)
}

/// A batch that opens holds the same in a larger image.
proof fn lemma_batch_holds_extends(a: Image, b: Image, slot: u64, id: u64, payload: Seq<u8>)
    requires
        extends(a, b),
        batch_holds(a, slot, id, payload),
    ensures
        batch_holds(b, slot, id, payload),
{
    assert(live(a, slot));
}

/// A pointer stays right in a larger image, with the same operation on its
/// key.
proof fn lemma_pointed_extends(
    a: Image,
    b: Image,
    ops: Seq<OpView>,
    more: Seq<OpView>,
    id: u64,
    payload: Seq<u8>,
)
    requires
        extends(a, b),
        pointed(a, ops, id, payload),
        op_on(more, be_bytes(id as nat, 8)) == op_on(ops, be_bytes(id as nat, 8)),
    ensures
        pointed(b, more, id, payload),
{
    let slot = choose|slot: u64| #[trigger]
        batch_holds(a, slot, id, payload) && op_on(ops, be_bytes(id as nat, 8)) == Some(
            Some(le_bytes(slot as nat, 8)),
        );
    lemma_batch_holds_extends(a, b, slot, id, payload);
}

/// Different numbers have different keys.
proof fn lemma_keys_differ(a: u64, b: u64)
    requires
        a != b,
    ensures
        be_bytes(a as nat, 8) != be_bytes(b as nat, 8),
{
    lemma_be_round_trip(a);
    lemma_be_round_trip(b);
}

/// Operations so far point the first `n` records at batches.
pub open spec fn logged_to(img: Image, recs: Seq<RecordView>, ops: Seq<OpView>, n: int) -> bool {
    &&& forall|m: int| 0 <= m < n ==> pointed(img, ops, (#[trigger] recs[m]).0, recs[m].1)
    &&& forall|k: Seq<u8>| #[trigger]
        op_on(ops, k) is Some ==> exists|m: int|
            0 <= m < n && k == be_bytes((#[trigger] recs[m]).0 as nat, 8)
}

/// One more record pointed at.
proof fn lemma_logged_step(
    img: Image,
    recs: Seq<RecordView>,
    was: Seq<OpView>,
    now: Seq<OpView>,
    n: int,
    slot: u64,
)
    requires
        ids_rise(recs),
        0 <= n < recs.len(),
        logged_to(img, recs, was, n),
        batch_holds(img, slot, recs[n].0, recs[n].1),
        forall|k: Seq<u8>| #[trigger]
            op_on(now, k) == if k == be_bytes(recs[n].0 as nat, 8) {
                Some(Some(le_bytes(slot as nat, 8)))
            } else {
                op_on(was, k)
            },
    ensures
        logged_to(img, recs, now, n + 1),
{
    lemma_extends_refl(img);
    assert forall|m: int| 0 <= m < n + 1 implies pointed(
        img,
        now,
        (#[trigger] recs[m]).0,
        recs[m].1,
    ) by {
        if m < n {
            assert(recs[m].0 < recs[n].0);
            lemma_keys_differ(recs[m].0, recs[n].0);
            assert(pointed(img, was, recs[m].0, recs[m].1));
            lemma_pointed_extends(img, img, was, now, recs[m].0, recs[m].1);
        } else {
            assert(batch_holds(img, slot, recs[n].0, recs[n].1) && op_on(
                now,
                be_bytes(recs[n].0 as nat, 8),
            ) == Some(Some(le_bytes(slot as nat, 8))));
        }
    }
    assert forall|k: Seq<u8>| #[trigger] op_on(now, k) is Some implies exists|m: int|
        0 <= m < n + 1 && k == be_bytes((#[trigger] recs[m]).0 as nat, 8) by {
        if k == be_bytes(recs[n].0 as nat, 8) {
            assert(recs[n].0 == recs[n].0);
        } else {
            assert(op_on(was, k) is Some);
            let m = choose|m: int| 0 <= m < n && k == be_bytes((#[trigger] recs[m]).0 as nat, 8);
            assert(recs[m].0 == recs[m].0);
        }
    }
}

/// Pointers stay right in a larger image.
proof fn lemma_logged_extends(a: Image, b: Image, recs: Seq<RecordView>, ops: Seq<OpView>, n: int)
    requires
        extends(a, b),
        logged_to(a, recs, ops, n),
    ensures
        logged_to(b, recs, ops, n),
{
    assert forall|m: int| 0 <= m < n implies pointed(b, ops, (#[trigger] recs[m]).0, recs[m].1) by {
        assert(pointed(a, ops, recs[m].0, recs[m].1));
        lemma_pointed_extends(a, b, ops, ops, recs[m].0, recs[m].1);
    }
}

/// The chunk that holds a superblock.
pub open spec fn superblock_chunk(sb: SuperblockView) -> PlaintextView {
    PlaintextView { kind: ChunkKind::Superblock, seq: sb.seq, payload: superblock_encode(sb) }
}

/// The superblock is on file.
pub open spec fn on_file(img: Image, sb: SuperblockView) -> bool {
    exists|slot: u64| #[trigger] live(img, slot) && img[slot as int] == Some(superblock_chunk(sb))
}

/// Every superblock on file was there before, or is this one.
pub open spec fn only_new_superblock(a: Image, b: Image, sb: SuperblockView) -> bool {
    forall|s: u64| #[trigger]
        live(b, s) && b[s as int]->0.kind == ChunkKind::Superblock ==> live(a, s) || b[s as int]
            == Some(superblock_chunk(sb))
}

/// New slots that hold the superblock.
pub open spec fn copies(a: Image, b: Image, sb: SuperblockView, v: Seq<u64>) -> bool {
    &&& v.no_duplicates()
    &&& forall|i: int|
        0 <= i < v.len() ==> !live(a, #[trigger] v[i]) && live(b, v[i]) && b[v[i] as int] == Some(
            superblock_chunk(sb),
        )
}

/// So many new slots hold the superblock.
pub open spec fn replicated(a: Image, b: Image, sb: SuperblockView, n: int) -> bool {
    exists|v: Seq<u64>| #[trigger] copies(a, b, sb, v) && v.len() == n
}

/// How many copies of a superblock a publish writes: one at least.
pub open spec fn copies_wanted(f: ContainerFile) -> int {
    if f.superblock_replicas == 0 {
        1
    } else {
        f.superblock_replicas as int
    }
}

/// `b` is `a` after a publish that may have failed: nothing but the marks of
/// a publish, and what placing chunks touches, has changed.
pub open spec fn publishing(a: Space, b: Space) -> bool {
    grown(
        Space {
            file: a.file,
            state: SpaceState {
                attempted_seq: b.state.attempted_seq,
                last_publish_error: b.state.last_publish_error,
                ..a.state
            },
        },
        b,
    )
}

impl Space {
    /// Compresses records into batches, stores them, and gives the operations
    /// that point the records' keys at them.
    #[verifier::spinoff_prover]
    fn place_batches(&mut self, records: &Vec<(u64, Vec<u8>)>, seq: u64) -> (r: Result<
        KeyOps,
        Error,
    >)
        requires
            old(self).wf(),
            ids_rise(records_view(records@)),
            records@.len() > 0,
        ensures
            final(self).wf(),
            laid(*old(self), *final(self), seq),
            match r {
                Ok(ops) => {
                    &&& ops.wf()
                    &&& ops@.len() > 0
                    &&& logged(final(self).file@, records_view(records@), ops@)
                },
                Err(e) => failed(*old(self), *final(self), e, records@.len() <= 1024 && batches_of(
                    records_view(records@),
                ) is Ok),
            },
    {
        let ghost recs = records_view(records@);
        let ghost s0 = *self;
        proof {
            lemma_batches_plain(recs);
        }
        let batches = match encode_batches_split(records.as_slice()) {
            Ok(v) => v,
            Err(e) => {
                proof {
                    lemma_laid_refl(s0);
                }
                return Err(e);
            },
        };
        let ghost bs = batches_view(batches@);
        let mut keyed = KeyOps::new();
        let mut i: usize = 0;
        let ghost mut n: int = 0;
        proof {
            lemma_laid_refl(s0);
            lemma_batches_prefix(bs, 0);
            assert(bs.take(0).len() == 0);
        }
        while i < batches.len()
            invariant
                i <= batches@.len(),
                bs == batches_view(batches@),
                recs == records_view(records@),
                s0 == *old(self),
                ids_rise(recs),
                batches_listed(bs),
                batches_records(bs) == Ok::<Seq<RecordView>, Error>(recs),
                self.wf(),
                laid(s0, *self, seq),
                keyed.wf(),
                n == batches_records(bs.take(i as int))->Ok_0.len(),
                0 <= n <= recs.len(),
                logged_to(self.file@, recs, keyed@, n),
                n > 0 ==> keyed@.len() > 0,
            decreases batches@.len() - i,
        {
            let ghost s1 = *self;
            let ghost rs = batch_decode(bs[i as int].1)->Ok_0;
            proof {
                lemma_batches_prefix(bs, i as int);
                lemma_batches_prefix(bs, i + 1);
                assert(bs[i as int].0 == batches@[i as int].0@);
                assert(bs[i as int].1 == batches@[i as int].1@);
                if steady(s0) {
                    crate::space::tree::lemma_steady_grown(s0, s1);
                }
            }
            let slot: u64 = match self.place_chunk(
                ChunkKind::DataBatch,
                seq,
                batches[i].1.as_slice(),
            ) {
                Ok(s) => s,
                Err(e) => {
                    proof {
                        assert(laid(s1, *self, seq));
                        lemma_laid_trans(s0, s1, *self);
                    }
                    return Err(e);
                },
            };
            let ghost img = self.file@;
            let ghost base = n;
            proof {
                assert(laid(s1, *self, seq));
                lemma_laid_trans(s0, s1, *self);
                lemma_logged_extends(s1.file@, img, recs, keyed@, n);
            }
            let mut j: usize = 0;
            while j < batches[i].0.len()
                invariant
                    j <= batches@[i as int].0@.len(),
                    i < batches@.len(),
                    bs == batches_view(batches@),
                    ids_rise(recs),
                    batches_listed(bs),
                    bs[i as int].0 == batches@[i as int].0@,
                    rs == batch_decode(bs[i as int].1)->Ok_0,
                    record_ids(rs) == bs[i as int].0,
                    base + rs.len() <= recs.len(),
                    base >= 0,
                    recs.take(base + rs.len()).skip(base) == rs,
                    n == base + j,
                    live(img, slot),
                    img[slot as int]->0.kind == ChunkKind::DataBatch,
                    img[slot as int]->0.payload == bs[i as int].1,
                    batch_decode(bs[i as int].1) is Ok,
                    keyed.wf(),
                    logged_to(img, recs, keyed@, n),
                    n > 0 ==> keyed@.len() > 0,
                decreases batches@[i as int].0@.len() - j,
            {
                let id: u64 = batches[i].0[j];
                let ghost was = keyed@;
                let key = copy_of(log_id_key(id).as_slice());
                let value = copy_of(encode_batch_slot_value(slot).as_slice());
                proof {
                    lemma_be_round_trip(id);
                    lemma_le_bytes_len(slot as nat, 8);
                    assert(record_ids(rs)[j as int] == rs[j as int].0);
                    assert(id == rs[j as int].0);
                    assert(recs.take(base + rs.len()).skip(base)[j as int] == recs[base + j]);
                    assert(rs[j as int] == recs[n]);
                    assert(ids_rise(rs)) by {
                        assert forall|a: int, b: int| 0 <= a < b < rs.len() implies (
                        #[trigger] rs[a]).0 < (#[trigger] rs[b]).0 by {
                            assert(recs.take(base + rs.len()).skip(base)[a] == recs[base + a]);
                            assert(recs.take(base + rs.len()).skip(base)[b] == recs[base + b]);
                        }
                    }
                    lemma_last_with_id_at(rs, j as int);
                    assert(batch_holds(img, slot, recs[n].0, recs[n].1));
                }
                keyed.insert(key, Some(value));
                proof {
                    lemma_logged_step(img, recs, was, keyed@, n, slot);
                    n = n + 1;
                }
                j = j + 1;
            }
            i = i + 1;
        }
        proof {
            assert(bs.take(i as int) =~= bs);
            assert(n == recs.len());
        }
        Ok(keyed)
    }
}

// ---------------------------------------------------------------------------
// The trees
// ---------------------------------------------------------------------------

/// What is to be done to one namespace.
pub struct Plan {
    pub ns: u8,
    /// Whether the namespace is a log from now on.
    pub log: bool,
    pub ops: KeyOps,
}

/// What is to be done to one namespace, as sequences.
pub struct PlanView {
    pub ns: u8,
    pub log: bool,
    pub ops: Seq<OpView>,
}

impl View for Plan {
    type V = PlanView;

    open spec fn view(&self) -> PlanView {
        PlanView { ns: self.ns, log: self.log, ops: self.ops@ }
    }
}

/// Plans, as sequences.
pub open spec fn plans_view(v: Seq<Plan>) -> Seq<PlanView> {
    Seq::new(v.len(), |i: int| v[i]@)
}

/// The plan for a namespace, if there is one.
pub open spec fn plan_of(v: Seq<PlanView>, ns: u8) -> Option<PlanView>
    decreases v.len(),
{
    if v.len() == 0 {
        None
    } else if v[0].ns == ns {
        Some(v[0])
    } else {
        plan_of(v.drop_first(), ns)
    }
}

/// Every plan has operations, and they are in order.
pub open spec fn plans_wf(v: Seq<Plan>) -> bool {
    forall|i: int| 0 <= i < v.len() ==> (#[trigger] v[i]).ops.wf() && v[i].ops@.len() > 0
}

/// The kind that a namespace has after a plan.
pub open spec fn kind_after(prior: Option<RootView>, log: bool) -> NamespaceKind {
    if log {
        NamespaceKind::Log
    } else {
        match prior {
            Some(r) => r.kind,
            None => NamespaceKind::Kv,
        }
    }
}

/// The root node of the namespace, if it has one, opens.
pub open spec fn root_opens(img: Image, rs: Seq<RootView>, ns: Namespace) -> bool {
    root_of(rs, ns) matches Some(r) ==> node_at(img, r.index_slot, ns) is Ok
}

/// A root node that opens does in a larger image.
proof fn lemma_root_opens_extends(a: Image, b: Image, rs: Seq<RootView>, ns: Namespace)
    requires
        extends(a, b),
        root_opens(a, rs, ns),
    ensures
        root_opens(b, rs, ns),
{
    if let Some(r) = root_of(rs, ns) {
        assert(live(a, r.index_slot));
    }
}

/// What becomes of a namespace's root: it stays where there is no plan; where
/// there is one, what the namespace holds is what it held with the plan's
/// operations applied.
pub open spec fn stepped(
    a: Image,
    b: Image,
    prior: Seq<RootView>,
    roots: Seq<RootView>,
    ns: Namespace,
    plan: Option<PlanView>,
) -> bool {
    match plan {
        None => root_of(roots, ns) == root_of(prior, ns),
        Some(p) => {
            &&& forall|es: Seq<EntryView>| #[trigger]
                ns_holds(a, prior, ns, es) ==> ns_holds(b, roots, ns, merged(es, p.ops))
            &&& root_of(roots, ns) matches Some(r) ==> r.kind == kind_after(
                root_of(prior, ns),
                p.log,
            )
            &&& ns_neat(a, prior, ns) ==> ns_neat(b, roots, ns)
            &&& root_opens(b, prior, ns)
        },
    }
}

/// What becomes of a namespace's root does not change as more is written.
proof fn lemma_stepped_later(
    a: Image,
    b: Image,
    c: Image,
    prior: Seq<RootView>,
    roots: Seq<RootView>,
    more: Seq<RootView>,
    ns: Namespace,
    plan: Option<PlanView>,
)
    requires
        stepped(a, b, prior, roots, ns, plan),
        extends(b, c),
        root_of(more, ns) == root_of(roots, ns),
    ensures
        stepped(a, c, prior, more, ns, plan),
{
    if let Some(p) = plan {
        lemma_root_opens_extends(b, c, prior, ns);
        assert forall|es: Seq<EntryView>| #[trigger] ns_holds(a, prior, ns, es) implies ns_holds(
            c,
            more,
            ns,
            merged(es, p.ops),
        ) by {
            assert(ns_holds(b, roots, ns, merged(es, p.ops)));
            lemma_ns_holds_extends(b, c, roots, ns, merged(es, p.ops));
        }
        if let Some(r) = root_of(roots, ns) {
            if ns_neat(a, prior, ns) {
                lemma_is_neat_extends(b, c, ns, r.index_slot, r.payload_hash);
            }
        }
    }
}

/// The entries that operations leave of nothing.
fn puts_of(ops: &KeyOps) -> (r: Vec<(Vec<u8>, Vec<u8>)>)
    requires
        ops.wf(),
    ensures
        entries_view(r@) == merged(Seq::<EntryView>::empty(), ops@),
        entries_legal(entries_view(r@)),
        keys_sorted(entries_view(r@)),
{
    let ghost ov = ops@;
    let ghost none = Seq::<EntryView>::empty();
    let mut out: Vec<(Vec<u8>, Vec<u8>)> = Vec::new();
    let mut i: usize = 0;
    proof {
        assert(entries_view(out@) =~= none);
        assert(ov.skip(0) =~= ov);
        assert(none + merged(none, ov) =~= merged(none, ov));
    }
    while i < ops.ops.len()
        invariant
            i <= ops.ops@.len(),
            ov == ops@,
            ops.wf(),
            none == Seq::<EntryView>::empty(),
            entries_legal(entries_view(out@)),
            entries_view(out@) + merged(none, ov.skip(i as int)) == merged(none, ov),
        decreases ops.ops@.len() - i,
    {
        let ghost had = entries_view(out@);
        let ghost o = ov.skip(i as int);
        let ghost tail = merged(none, ov.skip(i + 1));
        proof {
            assert(o[0] == ov[i as int]);
            assert(o.drop_first() =~= ov.skip(i + 1));
            assert(op_legal(ov[i as int]));
            assert(ov[i as int] == op_view(ops.ops@[i as int]));
            assert(merged(none, o) == put_of(o[0]) + tail);
        }
        if let Some(v) = &ops.ops[i].1 {
            out.push((copy_of(ops.ops[i].0.as_slice()), copy_of(v.as_slice())));
            proof {
                let e = (ops.ops@[i as int].0@, v@);
                assert(entries_view(out@) =~= had.push(e));
                assert(put_of(o[0]) =~= seq![e]);
                assert(had.push(e) + tail =~= had + (seq![e] + tail));
            }
        } else {
            proof {
                assert(put_of(o[0]) + tail =~= tail);
            }
        }
        i = i + 1;
    }
    proof {
        assert(entries_view(out@) + none =~= entries_view(out@));
        lemma_merged_sorted(none, ov);
    }
    out
}

/// Every planned namespace has a sound tree that a walk can take, or none.
pub open spec fn plans_walkable(
    img: Image,
    prior: Seq<RootView>,
    plans: Seq<PlanView>,
    cap: int,
) -> bool {
    forall|i: int|
        0 <= i < plans.len() ==> walkable(img, prior, Namespace((#[trigger] plans[i]).ns), cap)
}

/// A plan for a namespace stands somewhere.
proof fn lemma_plan_of(v: Seq<PlanView>, ns: u8)
    ensures
        match plan_of(v, ns) {
            Some(p) => p.ns == ns && exists|i: int| 0 <= i < v.len() && #[trigger] v[i] == p,
            None => forall|i: int| 0 <= i < v.len() ==> (#[trigger] v[i]).ns != ns,
        },
    decreases v.len(),
{
    if v.len() > 0 && v[0].ns != ns {
        let t = v.drop_first();
        lemma_plan_of(t, ns);
        match plan_of(t, ns) {
            Some(p) => {
                let i = choose|i: int| 0 <= i < t.len() && #[trigger] t[i] == p;
                assert(v[i + 1] == p);
            },
            None => {
                assert forall|i: int| 0 <= i < v.len() implies (#[trigger] v[i]).ns != ns by {
                    if i > 0 {
                        assert(t[i - 1] == v[i]);
                    }
                }
            },
        }
    }
}

/// The position of the plan for a namespace.
fn find_plan(plans: &Vec<Plan>, ns: u8) -> (r: Option<usize>)
    ensures
        match r {
            Some(i) => i < plans@.len() && plan_of(plans_view(plans@), ns) == Some(plans@[i as int]@),
            None => plan_of(plans_view(plans@), ns) is None,
        },
{
    let ghost v = plans_view(plans@);
    let mut i: usize = 0;
    assert(v.skip(0) =~= v);
    while i < plans.len()
        invariant
            i <= plans@.len(),
            v == plans_view(plans@),
            plan_of(v, ns) == plan_of(v.skip(i as int), ns),
        decreases plans@.len() - i,
    {
        assert(v.skip(i as int)[0] == v[i as int]);
        assert(v.skip(i as int).drop_first() =~= v.skip(i + 1));
        if plans[i].ns == ns {
            return Some(i);
        }
        i = i + 1;
    }
    None
}

/// The position of the root of a namespace.
fn find_prior(roots: &Vec<IndexRoot>, ns: Namespace) -> (r: Option<usize>)
    ensures
        match r {
            Some(i) => i < roots@.len() && root_of(roots_view(roots@), ns) == Some(
                roots@[i as int]@,
            ) && roots@[i as int]@.namespace == ns,
            None => root_of(roots_view(roots@), ns) is None,
        },
{
    let ghost v = roots_view(roots@);
    let mut i: usize = 0;
    assert(v.skip(0) =~= v);
    while i < roots.len()
        invariant
            i <= roots@.len(),
            v == roots_view(roots@),
            root_of(v, ns) == root_of(v.skip(i as int), ns),
        decreases roots@.len() - i,
    {
        assert(v.skip(i as int)[0] == v[i as int]);
        assert(v.skip(i as int).drop_first() =~= v.skip(i + 1));
        if roots[i].namespace == ns {
            return Some(i);
        }
        i = i + 1;
    }
    None
}

impl Space {
    /// Carries out the plan for one namespace, and gives its new root; none
    /// where nothing is left.
    #[verifier::spinoff_prover]
    fn write_tree(&mut self, plan: &Plan, prior: Option<IndexRoot>, seq: u64) -> (r: Result<
        Option<IndexRoot>,
        Error,
    >)
        requires
            old(self).wf(),
            plan.ops.wf(),
            plan.ops@.len() > 0,
            prior matches Some(p) ==> p@.namespace == Namespace(plan.ns),
        ensures
            final(self).wf(),
            laid(*old(self), *final(self), seq),
            r is Ok ==> (prior matches Some(p) ==> node_at(
                old(self).file@,
                p@.index_slot,
                Namespace(plan.ns),
            ) is Ok),
            match r {
                Ok(None) => match prior {
                    None => merged(Seq::<EntryView>::empty(), plan.ops@).len() == 0,
                    Some(p) => forall|h: nat| #[trigger]
                        tree(
                            old(self).file@,
                            Namespace(plan.ns),
                            p@.index_slot,
                            p@.payload_hash,
                            h,
                        ) ==> merged(
                            tree_entries(
                                old(self).file@,
                                Namespace(plan.ns),
                                p@.index_slot,
                                p@.payload_hash,
                                h,
                            ),
                            plan.ops@,
                        ).len() == 0,
                },
                Ok(Some(root)) => {
                    &&& root@.namespace == Namespace(plan.ns)
                    &&& root@.kind == kind_after(
                        match prior {
                            Some(p) => Some(p@),
                            None => None,
                        },
                        plan.log,
                    )
                    &&& match prior {
                        None => true,
                        Some(p) => is_neat(
                            old(self).file@,
                            Namespace(plan.ns),
                            p@.index_slot,
                            p@.payload_hash,
                        ),
                    } ==> is_neat(
                        final(self).file@,
                        Namespace(plan.ns),
                        root.index_slot,
                        root.payload_hash@,
                    )
                    &&& match prior {
                        None => holds_tree(
                            final(self).file@,
                            Namespace(plan.ns),
                            (root.index_slot, root.payload_hash),
                            merged(Seq::<EntryView>::empty(), plan.ops@),
                        ),
                        Some(p) => forall|h: nat| #[trigger]
                            tree(
                                old(self).file@,
                                Namespace(plan.ns),
                                p@.index_slot,
                                p@.payload_hash,
                                h,
                            ) ==> holds_tree(
                                final(self).file@,
                                Namespace(plan.ns),
                                (root.index_slot, root.payload_hash),
                                merged(
                                    tree_entries(
                                        old(self).file@,
                                        Namespace(plan.ns),
                                        p@.index_slot,
                                        p@.payload_hash,
                                        h,
                                    ),
                                    plan.ops@,
                                ),
                            ),
                    }
                },
                Err(e) => failed(*old(self), *final(self), e, match prior {
                    None => true,
                    Some(p) => exists|h: nat| #[trigger]
                        tree(
                            old(self).file@,
                            Namespace(plan.ns),
                            p@.index_slot,
                            p@.payload_hash,
                            h,
                        ) && h <= old(self).walk_now().max_depth,
                }),
            },
    {
        let ns = Namespace(plan.ns);
        let ghost img0 = self.file@;
        let walk = self.new_tree_walk();
        let mut build = Build::new(seq, walk);
        let made = match prior {
            None => {
                let entries = puts_of(&plan.ops);
                self.build_tree(ns, entries, &mut build)
            },
            Some(p) => {
                let ghost d = choose|h: nat| #[trigger]
                    tree(img0, ns, p@.index_slot, p@.payload_hash, h);
                let out = self.update_tree(ns, &p, &plan.ops, &mut build, Ghost(d));
                proof {
                    assert forall|h: nat| #[trigger]
                        tree(img0, ns, p@.index_slot, p@.payload_hash, h) implies h == d by {
                        lemma_tree_unique(img0, ns, p@.index_slot, p@.payload_hash, h, d);
                    }
                }
                out
            },
        };
        let kind: NamespaceKind = if plan.log {
            NamespaceKind::Log
        } else {
            match prior {
                Some(p) => p.kind,
                None => NamespaceKind::Kv,
            }
        };
        match made {
            Err(e) => Err(e),
            Ok(None) => Ok(None),
            Ok(Some(top)) => {
                proof {
                    if prior is None {
                        let es = merged(Seq::<EntryView>::empty(), plan.ops@);
                        assert(built(self.file@, ns, top, es));
                        let g = choose|g: nat| #[trigger] topped(
                            self.file@,
                            ns,
                            top,
                            0,
                            g,
                            es,
                            true,
                            false,
                        );
                        assert(tree(self.file@, ns, top.0, top.1@, g));
                        assert(holds_tree(self.file@, ns, top, es));
                        assert(is_neat(self.file@, ns, top.0, top.1@));
                    }
                }
                Ok(
                    Some(
                        IndexRoot {
                            namespace: ns,
                            kind,
                            index_slot: top.0,
                            payload_hash: top.1,
                        },
                    ),
                )
            },
        }
    }
}

/// What becomes of every namespace below `n`.
pub open spec fn stepped_to(
    a: Image,
    b: Image,
    prior: Seq<RootView>,
    roots: Seq<RootView>,
    plans: Seq<PlanView>,
    n: int,
) -> bool {
    forall|m: u8|
        (m as int) < n ==> #[trigger] stepped(
            a,
            b,
            prior,
            roots,
            Namespace(m),
            plan_of(plans, m),
        )
}

/// Roots of namespaces below `n`, by rising namespace.
pub open spec fn roots_below(roots: Seq<RootView>, n: int) -> bool {
    &&& roots_sorted(roots)
    &&& forall|i: int| 0 <= i < roots.len() ==> ((#[trigger] roots[i]).namespace.0 as int) < n
}

/// A namespace whose plan has been carried out.
proof fn lemma_stepped_now(
    img0: Image,
    img1: Image,
    img: Image,
    prior: Seq<RootView>,
    was: Seq<RootView>,
    roots: Seq<RootView>,
    plan: PlanView,
    made: Option<RootView>,
)
    requires
        extends(img0, img1),
        extends(img1, img),
        root_of(was, Namespace(plan.ns)) is None,
        made matches Some(r) ==> r.namespace == Namespace(plan.ns) && roots == was.push(r)
            && r.kind == kind_after(root_of(prior, Namespace(plan.ns)), plan.log),
        made is None ==> roots == was,
        root_opens(img1, prior, Namespace(plan.ns)),
        made matches Some(r) ==> (match root_of(prior, Namespace(plan.ns)) {
            None => true,
            Some(p) => is_neat(img1, Namespace(plan.ns), p.index_slot, p.payload_hash),
        } ==> is_neat(img, Namespace(plan.ns), r.index_slot, r.payload_hash)),
        match root_of(prior, Namespace(plan.ns)) {
            None => match made {
                None => merged(Seq::<EntryView>::empty(), plan.ops).len() == 0,
                Some(r) => tree_of(
                    img,
                    Namespace(plan.ns),
                    r,
                    merged(Seq::<EntryView>::empty(), plan.ops),
                ),
            },
            Some(p) => forall|h: nat| #[trigger]
                tree(img1, Namespace(plan.ns), p.index_slot, p.payload_hash, h) ==> match made {
                    None => merged(
                        tree_entries(img1, Namespace(plan.ns), p.index_slot, p.payload_hash, h),
                        plan.ops,
                    ).len() == 0,
                    Some(r) => tree_of(
                        img,
                        Namespace(plan.ns),
                        r,
                        merged(
                            tree_entries(img1, Namespace(plan.ns), p.index_slot, p.payload_hash, h),
                            plan.ops,
                        ),
                    ),
                },
        },
    ensures
        stepped(img0, img, prior, roots, Namespace(plan.ns), Some(plan)),
{
    let ns = Namespace(plan.ns);
    lemma_root_opens_extends(img1, img, prior, ns);
    if let Some(r) = made {
        lemma_root_of_push(was, r, ns);
    }
    if let Some(p) = root_of(prior, ns) {
        if is_neat(img0, ns, p.index_slot, p.payload_hash) {
            lemma_is_neat_extends(img0, img1, ns, p.index_slot, p.payload_hash);
        }
    }
    assert forall|es: Seq<EntryView>| #[trigger] ns_holds(img0, prior, ns, es) implies ns_holds(
        img,
        roots,
        ns,
        merged(es, plan.ops),
    ) by {
        match root_of(prior, ns) {
            None => {
                assert(es =~= Seq::<EntryView>::empty());
            },
            Some(p) => {
                let h = choose|h: nat| #[trigger]
                    tree(img0, ns, p.index_slot, p.payload_hash, h) && tree_entries(
                        img0,
                        ns,
                        p.index_slot,
                        p.payload_hash,
                        h,
                    ) == es;
                lemma_tree_extends(img0, img1, ns, p.index_slot, p.payload_hash, h);
                assert(tree(img1, ns, p.index_slot, p.payload_hash, h));
            },
        }
    }
}

/// A tree under a root that holds these entries.
pub open spec fn tree_of(img: Image, ns: Namespace, r: RootView, es: Seq<EntryView>) -> bool {
    exists|h: nat| #[trigger]
        tree(img, ns, r.index_slot, r.payload_hash, h) && tree_entries(
            img,
            ns,
            r.index_slot,
            r.payload_hash,
            h,
        ) == es
}

impl Space {
    /// Carries out all plans, by rising namespace, and gives the roots of the
    /// new commit.
    #[verifier::spinoff_prover]
    #[verifier::rlimit(60)]
    fn write_trees(&mut self, plans: &Vec<Plan>, prior: &Vec<IndexRoot>, seq: u64) -> (r: Result<
        Vec<IndexRoot>,
        Error,
    >)
        requires
            old(self).wf(),
            plans_wf(plans@),
        ensures
            final(self).wf(),
            laid(*old(self), *final(self), seq),
            match r {
                Ok(roots) => {
                    &&& roots_below(roots_view(roots@), 256)
                    &&& stepped_to(
                        old(self).file@,
                        final(self).file@,
                        roots_view(prior@),
                        roots_view(roots@),
                        plans_view(plans@),
                        256,
                    )
                },
                Err(e) => failed(*old(self), *final(self), e, plans_walkable(
                    old(self).file@,
                    roots_view(prior@),
                    plans_view(plans@),
                    old(self).walk_now().max_depth as int,
                )),
            },
    {
        let ghost s0 = *self;
        let ghost img0 = self.file@;
        let ghost pv = roots_view(prior@);
        let ghost plv = plans_view(plans@);
        let ghost cap = self.walk_now().max_depth as int;
        let mut roots: Vec<IndexRoot> = Vec::new();
        let mut n: u16 = 0;
        proof {
            lemma_laid_refl(s0);
            assert(roots_view(roots@) =~= Seq::<RootView>::empty());
        }
        while n < 256
            invariant
                n <= 256,
                s0 == *old(self),
                img0 == s0.file@,
                pv == roots_view(prior@),
                plv == plans_view(plans@),
                cap == s0.walk_now().max_depth,
                s0.wf(),
                plans_wf(plans@),
                self.wf(),
                laid(s0, *self, seq),
                roots_below(roots_view(roots@), n as int),
                stepped_to(img0, self.file@, pv, roots_view(roots@), plv, n as int),
            decreases 256 - n,
        {
            let m: u8 = n as u8;
            let ns = Namespace(m);
            let ghost was = roots_view(roots@);
            let ghost s1 = *self;
            let ghost img1 = self.file@;
            proof {
                lemma_root_of(was, ns);
                lemma_root_of(pv, ns);
            }
            let before: Option<IndexRoot> = match find_prior(prior, ns) {
                Some(i) => Some(prior[i]),
                None => None,
            };
            match find_plan(plans, m) {
                None => {
                    if let Some(root) = before {
                        roots.push(root);
                        proof {
                            assert(roots_view(roots@) =~= was.push(root@));
                            assert forall|k: Namespace| root_of(roots_view(roots@), k)
                                == #[trigger] root_of(was.push(root@), k) by {}
                            lemma_root_of_push(was, root@, ns);
                        }
                    }
                    proof {
                        lemma_extends_refl(img1);
                    }
                },
                Some(i) => {
                    proof {
                        assert(plans@[i as int].ops.wf());
                        lemma_plan_of(plv, m);
                        assert(plv[i as int].ns == plans@[i as int].ns);
                        if steady(s0) {
                            crate::space::tree::lemma_steady_grown(s0, s1);
                        }
                        if plans_walkable(img0, pv, plv, cap) {
                            assert(walkable(img0, pv, ns, cap)) by {
                                let k = choose|k: int|
                                    0 <= k < plv.len() && #[trigger] plv[k] == plan_of(plv, m)->0;
                                assert(walkable(img0, pv, Namespace(plv[k].ns), cap));
                            }
                            lemma_walkable_extends(img0, img1, pv, ns, cap);
                            lemma_bound_grows(s0, s1);
                        }
                    }
                    let made = match self.write_tree(&plans[i], before, seq) {
                        Ok(v) => v,
                        Err(e) => {
                            proof {
                                lemma_laid_trans(s0, s1, *self);
                            }
                            return Err(e);
                        },
                    };
                    proof {
                        lemma_laid_trans(s0, s1, *self);
                    }
                    let ghost mv: Option<RootView> = match made {
                        Some(r) => Some(r@),
                        None => None,
                    };
                    if let Some(root) = made {
                        roots.push(root);
                        assert(roots_view(roots@) =~= was.push(root@));
                    }
                    proof {
                        if let Some(root) = made {
                            assert forall|es: Seq<EntryView>| #[trigger]
                                holds_tree(
                                    self.file@,
                                    ns,
                                    (root.index_slot, root.payload_hash),
                                    es,
                                ) implies tree_of(self.file@, ns, root@, es) by {
                                lemma_holds_tree_of(self.file@, ns, root, es);
                            }
                        }
                        lemma_stepped_now(
                            img0,
                            img1,
                            self.file@,
                            pv,
                            was,
                            roots_view(roots@),
                            plv[i as int],
                            mv,
                        );
                    }
                },
            }
            proof {
                let now = roots_view(roots@);
                assert forall|k: u8| (k as int) < n + 1 implies #[trigger] stepped(
                    img0,
                    self.file@,
                    pv,
                    now,
                    Namespace(k),
                    plan_of(plv, k),
                ) by {
                    if k < n {
                        assert(stepped(img0, img1, pv, was, Namespace(k), plan_of(plv, k)));
                        if now.len() > was.len() {
                            assert(now =~= was.push(now.last()));
                            lemma_root_of_push(was, now.last(), Namespace(k));
                        } else {
                            assert(now =~= was);
                        }
                        lemma_stepped_later(
                            img0,
                            img1,
                            self.file@,
                            pv,
                            was,
                            now,
                            Namespace(k),
                            plan_of(plv, k),
                        );
                    }
                }
            }
            n = n + 1;
        }
        Ok(roots)
    }
}

/// A tree under a pair of slot and hash is one under the root they make.
proof fn lemma_holds_tree_of(img: Image, ns: Namespace, root: IndexRoot, es: Seq<EntryView>)
    requires
        holds_tree(img, ns, (root.index_slot, root.payload_hash), es),
    ensures
        tree_of(img, ns, root@, es),
{
    let g = choose|g: nat| #[trigger]
        tree(img, ns, root.index_slot, root.payload_hash@, g) && tree_entries(
            img,
            ns,
            root.index_slot,
            root.payload_hash@,
            g,
        ) == es;
    assert(tree(img, ns, root@.index_slot, root@.payload_hash, g));
}

/// A space that has grown allows no less depth.
proof fn lemma_bound_grows(a: Space, b: Space)
    requires
        a.wf(),
        b.wf(),
        grown(a, b),
    ensures
        a.walk_now().max_depth <= b.walk_now().max_depth,
{
    vstd::set_lib::lemma_len_subset(a.state.owned_slots@, b.state.owned_slots@);
    lemma_depth_bound_grows(a.state.owned_slots.len, b.state.owned_slots.len);
}

// ---------------------------------------------------------------------------
// Publishing and hiding
// ---------------------------------------------------------------------------

/// `b` is `a` with decoys rewritten: what the file holds is the same.
pub open spec fn churned(a: Space, b: Space) -> bool {
    &&& b.file@ == a.file@
    &&& same_settings(a.file, b.file)
    &&& wrote_only(a.file, b.file, a.state.pool@)
    &&& b.file.durable == a.file.durable
    &&& a.file.writes_left is None ==> b.file.writes_left is None
    &&& b.file.room_left == a.file.room_left
    &&& b.state.pool@ == a.state.pool@
    &&& b.state.pool.drift == a.state.pool.drift
    &&& b.state.churn_count >= a.state.churn_count
    &&& b.state == (SpaceState {
        pool: b.state.pool,
        churn_count: b.state.churn_count,
        entropy: b.state.entropy,
        ..a.state
    })
}

/// So many more, counted as far as a `u64` goes.
pub open spec fn counted(a: u64, n: int) -> int {
    if a + n <= u64::MAX {
        a + n
    } else {
        u64::MAX as int
    }
}

/// Different slots that are free for reuse and have been written to.
pub open spec fn decoys(s: Space, v: Seq<u64>) -> bool {
    &&& v.no_duplicates()
    &&& forall|i: int|
        0 <= i < v.len() ==> s.state.pool@.contains(#[trigger] v[i]) && s.file.written@.contains(
            v[i],
        )
}

impl Space {
    /// Writes the copies of a superblock, and waits until they are on the
    /// device. From the first on, a failure leaves open which superblock a
    /// reopen will find.
    #[verifier::spinoff_prover]
    pub fn publish_superblock(&mut self, sb: &Superblock, what: &'static str) -> (r: Result<
        (),
        Error,
    >)
        requires
            old(self).wf(),
        ensures
            final(self).wf(),
            publishing(*old(self), *final(self)),
            only_new_superblock(old(self).file@, final(self).file@, sb@),
            stamped(old(self).file@, final(self).file@, sb.seq),
            final(self).state.attempted_seq == sb.seq,
            match r {
                Ok(()) => {
                    &&& old(self).file.lock_mode == LockMode::Exclusive
                    &&& final(self).state.last_publish_error is None
                    &&& on_file(final(self).file@, sb@)
                    &&& replicated(
                        old(self).file@,
                        final(self).file@,
                        sb@,
                        copies_wanted(old(self).file),
                    )
                    &&& final(self).file.durable@ == final(self).file@
                },
                Err(e) => {
                    &&& e == Error::PublishUncertain(what)
                    &&& final(self).state.last_publish_error matches Some(cause) && blamed(
                        *final(self),
                        cause,
                    )
                    &&& !steady(*old(self))
                },
            },
    {
        let replicas: u8 = if self.file.superblock_replicas == 0 {
            1
        } else {
            self.file.superblock_replicas
        };
        self.state.attempted_seq = sb.seq;
        let ghost s0 = *self;
        let bytes = sb.encode();
        let mut i: u8 = 0;
        let ghost mut v = Seq::<u64>::empty();
        proof {
            lemma_grown_refl(s0);
            law_superblock_decode_of_encode(sb@);
        }
        while i < replicas
            invariant
                i <= replicas,
                replicas > 0,
                s0.state.attempted_seq == sb.seq,
                s0 == (Space {
                    file: old(self).file,
                    state: SpaceState { attempted_seq: sb.seq, ..old(self).state },
                }),
                bytes@ == superblock_encode(sb@),
                bytes@.len() <= PAYLOAD_CAP,
                self.wf(),
                grown(s0, *self),
                only_new_superblock(s0.file@, self.file@, sb@),
                stamped(s0.file@, self.file@, sb.seq),
                copies(s0.file@, self.file@, sb@, v),
                v.len() == i,
                i > 0 ==> on_file(self.file@, sb@) && old(self).file.lock_mode
                    == LockMode::Exclusive,
            decreases replicas - i,
        {
            let ghost s1 = *self;
            proof {
                if steady(s0) {
                    crate::space::tree::lemma_steady_grown(s0, s1);
                }
            }
            match self.place_chunk(ChunkKind::Superblock, sb.seq, bytes.as_slice()) {
                Ok(slot) => {
                    proof {
                        lemma_grown_trans(s0, s1, *self);
                        assert(live(self.file@, slot));
                        assert forall|j: int| 0 <= j < v.len() implies #[trigger] v[j] != slot
                            && live(self.file@, v[j]) && self.file@[v[j] as int] == Some(
                            superblock_chunk(sb@),
                        ) by {
                            assert(live(s1.file@, v[j]));
                        }
                        v = v.push(slot);
                    }
                },
                Err(cause) => {
                    proof {
                        lemma_grown_trans(s0, s1, *self);
                    }
                    self.state.last_publish_error = Some(cause);
                    return Err(Error::PublishUncertain(what));
                },
            }
            i = i + 1;
        }
        let ghost s2 = *self;
        match self.sync() {
            Ok(()) => {
                proof {
                    lemma_grown_trans(s0, s2, *self);
                }
                self.state.last_publish_error = None;
                Ok(())
            },
            Err(cause) => {
                proof {
                    lemma_grown_trans(s0, s2, *self);
                }
                self.state.last_publish_error = Some(cause);
                Err(Error::PublishUncertain(what))
            },
        }
    }

    /// Writes fresh noise over `n` different decoys, or over all if there are
    /// fewer.
    pub fn churn_decoys(&mut self, n: usize) -> (r: Result<usize, Error>)
        requires
            old(self).wf(),
        ensures
            final(self).wf(),
            churned(*old(self), *final(self)),
            match r {
                Ok(k) => {
                    &&& k == sample_size(old(self).state.pool@, n)
                    &&& final(self).state.churn_count == counted(
                        old(self).state.churn_count,
                        k as int,
                    )
                },
                Err(_) => n > 0 && old(self).state.pool@.len() > 0,
            },
            match drawn(
                old(self).state.pool@,
                old(self).state.entropy.left(),
                sample_size(old(self).state.pool@, n),
            ) {
                None => {
                    &&& r == Err::<usize, Error>(Error::Rng)
                    &&& final(self).file == old(self).file
                    &&& final(self).state.churn_count == old(self).state.churn_count
                    &&& final(self).state.entropy.left().len() == 0
                },
                Some((v, rest)) => {
                    &&& final(self).state.entropy.left() == rest
                    &&& match r {
                        Ok(k) => {
                            &&& decoys(*final(self), v)
                            &&& v.len() == k
                            &&& affords(old(self).file.writes_left, k as int)
                            &&& final(self).file.writes_left == writes_less(
                                old(self).file.writes_left,
                                k as int,
                            )
                        },
                        Err(e) => if old(self).file.lock_mode != LockMode::Exclusive {
                            e == Error::ReadOnly && final(self).file == old(self).file
                        } else {
                            e == Error::Io("device refused the write")
                                && final(self).file.writes_left == Some(0u64)
                        },
                    }
                },
            },
    {
        let victims = match self.state.pool.sample_distinct(n, &mut self.state.entropy) {
            Ok(v) => v,
            Err(e) => {
                return Err(e);
            },
        };
        let ghost s0 = *old(self);
        let mut i: usize = 0;
        while i < victims.len()
            invariant
                i <= victims@.len(),
                s0 == *old(self),
                s0.wf(),
                self.wf(),
                churned(s0, *self),
                victims@.len() <= n,
                victims@.len() <= s0.state.pool@.len(),
                forall|j: int|
                    0 <= j < victims@.len() ==> s0.state.pool@.contains(#[trigger] victims@[j]),
                self.state.churn_count == counted(s0.state.churn_count, i as int),
                drawn(
                    s0.state.pool@,
                    s0.state.entropy.left(),
                    sample_size(s0.state.pool@, n),
                ) == Some((victims@, self.state.entropy.left())),
                victims@.len() == sample_size(s0.state.pool@, n),
                affords(s0.file.writes_left, i as int),
                self.file.writes_left == writes_less(s0.file.writes_left, i as int),
                i == 0 ==> self.file == s0.file,
                i > 0 ==> s0.file.lock_mode == LockMode::Exclusive,
                forall|j: int| 0 <= j < i ==> self.file.written@.contains(#[trigger] victims@[j]),
            decreases victims@.len() - i,
        {
            let slot: u64 = victims[i];
            let ghost before = self.file@;
            assert(s0.state.pool@.contains(victims@[i as int]));
            assert(!live(before, slot));
            match self.file.scrub_slot(slot) {
                Ok(()) => {},
                Err(e) => {
                    return Err(e);
                },
            }
            assert(self.file@ =~= before);
            self.state.churn_count = self.state.churn_count.saturating_add(1);
            i = i + 1;
        }
        Ok(victims.len())
    }
}

// ---------------------------------------------------------------------------
// What a commit refuses
// ---------------------------------------------------------------------------

/// Why operations on a namespace are refused, if they are: it is used as a
/// log in the same transaction, or is of the other kind.
pub open spec fn kv_clash(
    rs: Seq<RootView>,
    p: PendingView,
    logs: Seq<PendingLogView>,
) -> Option<Error> {
    if pending_log_of(logs, p.ns) is Some {
        Some(Error::WrongNamespaceKind("namespace touched as both Kv and Log in one Tx"))
    } else {
        match root_of(rs, Namespace(p.ns)) {
            None => None,
            Some(r) => match (p.origin, r.kind) {
                (KvOrigin::ByKey, NamespaceKind::Log) => Some(
                    Error::WrongNamespaceKind(
                        "KV op addressed by key against an existing Log namespace",
                    ),
                ),
                (KvOrigin::ByLog, NamespaceKind::Kv) => Some(
                    Error::WrongNamespaceKind(
                        "delete addressed by log id against an existing Kv namespace",
                    ),
                ),
                _ => None,
            },
        }
    }
}

/// Why the first refused operations are, if any are.
pub open spec fn kv_clashes(
    rs: Seq<RootView>,
    kv: Seq<PendingView>,
    logs: Seq<PendingLogView>,
) -> Option<Error>
    decreases kv.len(),
{
    if kv.len() == 0 {
        None
    } else {
        match kv_clash(rs, kv[0], logs) {
            Some(e) => Some(e),
            None => kv_clashes(rs, kv.drop_first(), logs),
        }
    }
}

/// Why the first refused records are, if any are.
pub open spec fn log_clashes(rs: Seq<RootView>, logs: Seq<PendingLogView>) -> Option<Error>
    decreases logs.len(),
{
    if logs.len() == 0 {
        None
    } else {
        match root_of(rs, Namespace(logs[0].ns)) {
            Some(r) if r.kind != NamespaceKind::Log => Some(
                Error::WrongNamespaceKind("Log op against existing Kv namespace"),
            ),
            _ => log_clashes(rs, logs.drop_first()),
        }
    }
}

/// The namespace is there already, or is touched.
pub open spec fn involved(
    rs: Seq<RootView>,
    kv: Seq<PendingView>,
    logs: Seq<PendingLogView>,
    m: u8,
) -> bool {
    root_of(rs, Namespace(m)) is Some || pending_of(kv, m) is Some || pending_log_of(logs, m) is Some
}

/// How many namespaces below `n` are there already or are touched.
pub open spec fn involved_count(
    rs: Seq<RootView>,
    kv: Seq<PendingView>,
    logs: Seq<PendingLogView>,
    n: nat,
) -> nat
    decreases n,
{
    if n == 0 {
        0
    } else {
        involved_count(rs, kv, logs, (n - 1) as nat) + if involved(rs, kv, logs, (n - 1) as u8) {
            1nat
        } else {
            0
        }
    }
}

/// There is nothing to commit.
pub open spec fn nothing_pending(kv: Seq<PendingView>, logs: Seq<PendingLogView>) -> bool {
    &&& forall|i: int| 0 <= i < kv.len() ==> (#[trigger] kv[i]).ops.len() == 0
    &&& forall|i: int| 0 <= i < logs.len() ==> (#[trigger] logs[i]).records.len() == 0
}

/// The highest seq that has been used or attempted.
pub open spec fn used_seq(s: Space) -> u64 {
    if s.state.attempted_seq > s.state.superblock.seq {
        s.state.attempted_seq
    } else {
        s.state.superblock.seq
    }
}

/// Why a commit is refused before anything is written, if it is.
pub open spec fn commit_refusal(
    s: Space,
    kv: Seq<PendingView>,
    logs: Seq<PendingLogView>,
) -> Option<Error> {
    if s.state.unreadable_newer_superblock is Some {
        Some(Error::UnreadableNewerState)
    } else if used_seq(s) == u64::MAX {
        Some(Error::Internal("commit seq overflow"))
    } else {
        match s.roots() {
            Err(e) => Some(e),
            Ok(rs) => match kv_clashes(rs, kv, logs) {
                Some(e) => Some(e),
                None => match log_clashes(rs, logs) {
                    Some(e) => Some(e),
                    None => if involved_count(rs, kv, logs, 256) > MAX_NAMESPACES_PER_TX {
                        Some(Error::TooManyNamespaces { limit: MAX_NAMESPACES_PER_TX })
                    } else {
                        None
                    },
                },
            },
        }
    }
}

/// Is anything buffered for the namespace?
pub fn has_pending(kv: &Vec<PendingNs>, ns: u8) -> (r: bool)
    requires
        pendings_wf(pendings_view(kv@)),
    ensures
        r == pending_of(pendings_view(kv@), ns) is Some,
{
    let ghost v = pendings_view(kv@);
    let mut i: usize = 0;
    while i < kv.len()
        invariant
            i <= kv@.len(),
            v == pendings_view(kv@),
            pendings_wf(v),
            forall|j: int| 0 <= j < i ==> (#[trigger] v[j]).ns != ns,
        decreases kv@.len() - i,
    {
        if kv[i].ns == ns {
            proof {
                assert(v[i as int].ns == ns);
                lemma_pending_at(v, i as int);
            }
            return true;
        }
        assert(v[i as int].ns == kv@[i as int].ns);
        i = i + 1;
    }
    proof {
        lemma_pending_of(v, ns);
    }
    false
}

/// Are any records buffered for the namespace?
pub fn has_pending_log(logs: &Vec<PendingLogNs>, ns: u8) -> (r: bool)
    requires
        pending_logs_wf(pending_logs_view(logs@)),
    ensures
        r == pending_log_of(pending_logs_view(logs@), ns) is Some,
{
    let ghost v = pending_logs_view(logs@);
    let mut i: usize = 0;
    while i < logs.len()
        invariant
            i <= logs@.len(),
            v == pending_logs_view(logs@),
            pending_logs_wf(v),
            forall|j: int| 0 <= j < i ==> (#[trigger] v[j]).ns != ns,
        decreases logs@.len() - i,
    {
        if logs[i].ns == ns {
            proof {
                assert(v[i as int].ns == ns);
                lemma_pending_log_at(v, i as int);
            }
            return true;
        }
        assert(v[i as int].ns == logs@[i as int].ns);
        i = i + 1;
    }
    proof {
        lemma_pending_log_of(v, ns);
    }
    false
}

/// Refuses operations and records that do not fit the namespaces they are
/// for.
fn check_kinds(kv: &Vec<PendingNs>, logs: &Vec<PendingLogNs>, prior: &Vec<IndexRoot>) -> (r: Result<
    (),
    Error,
>)
    requires
        pending_logs_wf(pending_logs_view(logs@)),
    ensures
        match kv_clashes(roots_view(prior@), pendings_view(kv@), pending_logs_view(logs@)) {
            Some(e) => r == Err::<(), Error>(e),
            None => match log_clashes(roots_view(prior@), pending_logs_view(logs@)) {
                Some(e) => r == Err::<(), Error>(e),
                None => r is Ok,
            },
        },
{
    let ghost rs = roots_view(prior@);
    let ghost kvv = pendings_view(kv@);
    let ghost lgv = pending_logs_view(logs@);
    let mut i: usize = 0;
    assert(kvv.skip(0) =~= kvv);
    while i < kv.len()
        invariant
            i <= kv@.len(),
            rs == roots_view(prior@),
            kvv == pendings_view(kv@),
            lgv == pending_logs_view(logs@),
            pending_logs_wf(lgv),
            kv_clashes(rs, kvv, lgv) == kv_clashes(rs, kvv.skip(i as int), lgv),
        decreases kv@.len() - i,
    {
        proof {
            assert(kvv.skip(i as int)[0] == kvv[i as int]);
            assert(kvv.skip(i as int).drop_first() =~= kvv.skip(i + 1));
        }
        if has_pending_log(logs, kv[i].ns) {
            return Err(Error::WrongNamespaceKind("namespace touched as both Kv and Log in one Tx"));
        }
        if let Some(k) = find_prior(prior, Namespace(kv[i].ns)) {
            match (kv[i].origin, prior[k].kind) {
                (KvOrigin::ByKey, NamespaceKind::Log) => {
                    return Err(
                        Error::WrongNamespaceKind(
                            "KV op addressed by key against an existing Log namespace",
                        ),
                    );
                },
                (KvOrigin::ByLog, NamespaceKind::Kv) => {
                    return Err(
                        Error::WrongNamespaceKind(
                            "delete addressed by log id against an existing Kv namespace",
                        ),
                    );
                },
                _ => {},
            }
        }
        i = i + 1;
    }
    assert(kvv.skip(i as int).len() == 0);
    let mut j: usize = 0;
    assert(lgv.skip(0) =~= lgv);
    while j < logs.len()
        invariant
            j <= logs@.len(),
            rs == roots_view(prior@),
            kvv == pendings_view(kv@),
            lgv == pending_logs_view(logs@),
            kv_clashes(rs, kvv, lgv) is None,
            log_clashes(rs, lgv) == log_clashes(rs, lgv.skip(j as int)),
        decreases logs@.len() - j,
    {
        proof {
            assert(lgv.skip(j as int)[0] == lgv[j as int]);
            assert(lgv.skip(j as int).drop_first() =~= lgv.skip(j + 1));
        }
        if let Some(k) = find_prior(prior, Namespace(logs[j].ns)) {
            if prior[k].kind != NamespaceKind::Log {
                return Err(Error::WrongNamespaceKind("Log op against existing Kv namespace"));
            }
        }
        j = j + 1;
    }
    assert(lgv.skip(j as int).len() == 0);
    Ok(())
}

/// How many namespaces are there already or are touched?
pub fn count_involved(kv: &Vec<PendingNs>, logs: &Vec<PendingLogNs>, prior: &Vec<IndexRoot>) -> (r:
    usize)
    requires
        pendings_wf(pendings_view(kv@)),
        pending_logs_wf(pending_logs_view(logs@)),
    ensures
        r == involved_count(
            roots_view(prior@),
            pendings_view(kv@),
            pending_logs_view(logs@),
            256,
        ),
{
    let mut n: u16 = 0;
    let mut count: usize = 0;
    while n < 256
        invariant
            n <= 256,
            count <= n,
            pendings_wf(pendings_view(kv@)),
            pending_logs_wf(pending_logs_view(logs@)),
            count == involved_count(
                roots_view(prior@),
                pendings_view(kv@),
                pending_logs_view(logs@),
                n as nat,
            ),
        decreases 256 - n,
    {
        let m: u8 = n as u8;
        if find_prior(prior, Namespace(m)).is_some() || has_pending(kv, m) || has_pending_log(
            logs,
            m,
        ) {
            count = count + 1;
        }
        n = n + 1;
    }
    count
}

/// Is there nothing to commit?
fn is_nothing(kv: &Vec<PendingNs>, logs: &Vec<PendingLogNs>) -> (r: bool)
    ensures
        r == nothing_pending(pendings_view(kv@), pending_logs_view(logs@)),
{
    let ghost kvv = pendings_view(kv@);
    let ghost lgv = pending_logs_view(logs@);
    let mut i: usize = 0;
    while i < kv.len()
        invariant
            i <= kv@.len(),
            kvv == pendings_view(kv@),
            forall|j: int| 0 <= j < i ==> (#[trigger] kvv[j]).ops.len() == 0,
        decreases kv@.len() - i,
    {
        assert(kvv[i as int].ops.len() == kv@[i as int].ops@.len());
        if kv[i].ops.len() != 0 {
            return false;
        }
        i = i + 1;
    }
    let mut j: usize = 0;
    while j < logs.len()
        invariant
            j <= logs@.len(),
            lgv == pending_logs_view(logs@),
            forall|k: int| 0 <= k < j ==> (#[trigger] lgv[k]).records.len() == 0,
        decreases logs@.len() - j,
    {
        assert(lgv[j as int].records.len() == logs@[j as int].records@.len());
        if logs[j].records.len() != 0 {
            return false;
        }
        j = j + 1;
    }
    true
}

// ---------------------------------------------------------------------------
// Plans
// ---------------------------------------------------------------------------

/// The plan does what the buffered operations or records ask for.
pub open spec fn plan_fits(
    img: Image,
    kv: Seq<PendingView>,
    logs: Seq<PendingLogView>,
    m: u8,
    plan: Option<PlanView>,
) -> bool {
    match plan {
        None => {
            &&& pending_of(kv, m) matches Some(p) ==> p.ops.len() == 0
            &&& pending_log_of(logs, m) matches Some(p) ==> p.records.len() == 0
        },
        Some(x) => {
            &&& ops_sorted(x.ops)
            &&& if x.log {
                pending_log_of(logs, m) matches Some(p) && p.records.len() > 0 && logs_ops(
                    img,
                    p.records,
                    x.ops,
                )
            } else {
                pending_of(kv, m) matches Some(p) && p.ops.len() > 0 && kv_ops(p.ops, x.ops)
            }
        },
    }
}

/// One operation per key: the last buffered for it.
pub open spec fn kv_ops(buffered: Seq<OpView>, ops: Seq<OpView>) -> bool {
    forall|k: Seq<u8>| #[trigger] op_on(ops, k) == last_op(buffered, k)
}

/// One operation per record number: it points at a batch that holds the last
/// record buffered with it.
pub open spec fn logs_ops(img: Image, buffered: Seq<RecordView>, ops: Seq<OpView>) -> bool {
    &&& forall|id: u64| #[trigger]
        last_with_id(buffered, id) matches Some(p) ==> pointed(img, ops, id, p)
    &&& forall|k: Seq<u8>| #[trigger]
        op_on(ops, k) is Some ==> exists|id: u64|
            k == be_bytes(id as nat, 8) && #[trigger] last_with_id(buffered, id) is Some
}

/// Operations that point at the latest records do so for what was buffered.
proof fn lemma_logs_ops(
    img: Image,
    buffered: Seq<RecordView>,
    latest: Seq<RecordView>,
    ops: Seq<OpView>,
)
    requires
        ids_rise(latest),
        forall|id: u64| #[trigger] last_with_id(latest, id) == last_with_id(buffered, id),
        logged(img, latest, ops),
    ensures
        logs_ops(img, buffered, ops),
{
    assert forall|id: u64| #[trigger] last_with_id(buffered, id) is Some implies pointed(
        img,
        ops,
        id,
        last_with_id(buffered, id)->0,
    ) by {
        assert(last_with_id(latest, id) is Some);
        lemma_last_with_id(latest, id);
        let p = last_with_id(latest, id)->0;
        let m = choose|m: int| 0 <= m < latest.len() && (#[trigger] latest[m]) == (id, p);
        assert(pointed(img, ops, latest[m].0, latest[m].1));
    }
    assert forall|k: Seq<u8>| #[trigger] op_on(ops, k) is Some implies exists|id: u64|
        k == be_bytes(id as nat, 8) && #[trigger] last_with_id(buffered, id) is Some by {
        let m = choose|m: int|
            0 <= m < latest.len() && k == be_bytes((#[trigger] latest[m]).0 as nat, 8);
        lemma_last_with_id_at(latest, m);
        assert(last_with_id(latest, latest[m].0) is Some);
        assert(last_with_id(buffered, latest[m].0) is Some);
    }
}

/// Pointers stay right in a larger image.
proof fn lemma_plan_fits_extends(
    a: Image,
    b: Image,
    kv: Seq<PendingView>,
    logs: Seq<PendingLogView>,
    m: u8,
    plan: Option<PlanView>,
)
    requires
        extends(a, b),
        plan_fits(a, kv, logs, m, plan),
    ensures
        plan_fits(b, kv, logs, m, plan),
{
    if let Some(x) = plan {
        if x.log {
            let recs = pending_log_of(logs, m)->0.records;
            assert forall|id: u64| #[trigger] last_with_id(recs, id) is Some implies pointed(
                b,
                x.ops,
                id,
                last_with_id(recs, id)->0,
            ) by {
                assert(pointed(a, x.ops, id, last_with_id(recs, id)->0));
                lemma_pointed_extends(a, b, x.ops, x.ops, id, last_with_id(recs, id)->0);
            }
        }
    }
}

/// Adding a plan for another namespace.
proof fn lemma_plan_of_push(v: Seq<PlanView>, x: PlanView, m: u8)
    ensures
        plan_of(v.push(x), m) == match plan_of(v, m) {
            Some(p) => Some(p),
            None => if x.ns == m {
                Some(x)
            } else {
                None
            },
        },
    decreases v.len(),
{
    if v.len() == 0 {
        assert(v.push(x).drop_first() =~= Seq::<PlanView>::empty());
        assert(plan_of(Seq::<PlanView>::empty(), m) is None);
        assert(v.push(x)[0] == x);
    } else {
        assert(v.push(x)[0] == v[0]);
        assert(v.push(x).drop_first() =~= v.drop_first().push(x));
        lemma_plan_of_push(v.drop_first(), x, m);
    }
}

/// The last record of each number, by rising number.
pub open spec fn latest_of(buffered: Seq<RecordView>, rs: Seq<RecordView>) -> bool {
    &&& ids_rise(rs)
    &&& forall|id: u64| #[trigger] last_with_id(rs, id) == last_with_id(buffered, id)
}

/// Every buffered list of records can be cut into batches.
pub open spec fn logs_encodable(logs: Seq<PendingLogView>) -> bool {
    forall|i: int, rs: Seq<RecordView>|
        0 <= i < logs.len() && rs.len() > 0 && #[trigger] latest_of(logs[i].records, rs)
            ==> rs.len() <= 1024 && batches_of(rs) is Ok
}

/// The plans made so far for the first `n` buffered lists of records.
pub open spec fn log_plans(
    img: Image,
    logs: Seq<PendingLogView>,
    plans: Seq<PlanView>,
    n: int,
) -> bool {
    forall|m: u8|
        match #[trigger] plan_of(plans, m) {
            None => pending_log_of(logs.take(n), m) matches Some(p) ==> p.records.len() == 0,
            Some(x) => {
                &&& x.log
                &&& ops_sorted(x.ops)
                &&& pending_log_of(logs.take(n), m) matches Some(p) && p.records.len() > 0
                    && logs_ops(img, p.records, x.ops)
            },
        }
}

/// Plans for records stay right in a larger image.
proof fn lemma_log_plans_extends(
    a: Image,
    b: Image,
    logs: Seq<PendingLogView>,
    plans: Seq<PlanView>,
    n: int,
)
    requires
        extends(a, b),
        log_plans(a, logs, plans, n),
    ensures
        log_plans(b, logs, plans, n),
{
    assert forall|m: u8|
        match #[trigger] plan_of(plans, m) {
            None => pending_log_of(logs.take(n), m) matches Some(p) ==> p.records.len() == 0,
            Some(x) => {
                &&& x.log
                &&& ops_sorted(x.ops)
                &&& pending_log_of(logs.take(n), m) matches Some(p) && p.records.len() > 0
                    && logs_ops(b, p.records, x.ops)
            },
        } by {
        if let Some(x) = plan_of(plans, m) {
            assert(plan_fits(a, Seq::empty(), logs.take(n), m, Some(x)));
            lemma_plan_fits_extends(a, b, Seq::empty(), logs.take(n), m, Some(x));
        }
    }
}

impl Space {
    /// Stores the buffered records, and plans the operations that point at
    /// them.
    #[verifier::spinoff_prover]
    #[verifier::rlimit(40)]
    fn plan_logs(&mut self, logs: &Vec<PendingLogNs>, seq: u64) -> (r: Result<Vec<Plan>, Error>)
        requires
            old(self).wf(),
            pending_logs_wf(pending_logs_view(logs@)),
        ensures
            final(self).wf(),
            laid(*old(self), *final(self), seq),
            match r {
                Ok(plans) => {
                    &&& plans_wf(plans@)
                    &&& log_plans(
                        final(self).file@,
                        pending_logs_view(logs@),
                        plans_view(plans@),
                        logs@.len() as int,
                    )
                },
                Err(e) => failed(*old(self), *final(self), e, logs_encodable(pending_logs_view(logs@))),
            },
    {
        let ghost s0 = *self;
        let ghost lgv = pending_logs_view(logs@);
        let mut plans: Vec<Plan> = Vec::new();
        let mut i: usize = 0;
        proof {
            lemma_laid_refl(s0);
            assert(plans_view(plans@) =~= Seq::<PlanView>::empty());
            assert(lgv.take(0) =~= Seq::<PendingLogView>::empty());
            assert forall|m: u8| plan_of(plans_view(plans@), m) is None by {}
            assert forall|m: u8| pending_log_of(lgv.take(0), m) is None by {}
        }
        while i < logs.len()
            invariant
                i <= logs@.len(),
                s0 == *old(self),
                lgv == pending_logs_view(logs@),
                pending_logs_wf(lgv),
                self.wf(),
                laid(s0, *self, seq),
                plans_wf(plans@),
                log_plans(self.file@, lgv, plans_view(plans@), i as int),
            decreases logs@.len() - i,
        {
            let ghost s1 = *self;
            let ghost recs = lgv[i as int].records;
            let ghost head = lgv.take(i as int);
            let ghost next = lgv.take(i + 1);
            let ghost was = plans_view(plans@);
            proof {
                assert(next.drop_last() =~= head);
                assert(next.last() == lgv[i as int]);
                assert(recs == records_view(logs@[i as int].records@));
                lemma_pending_log_of(head, lgv[i as int].ns);
                if let Some(p) = pending_log_of(head, lgv[i as int].ns) {
                    let j = choose|j: int| 0 <= j < head.len() && (#[trigger] head[j]) == p;
                    assert(lgv[j].ns < lgv[i as int].ns);
                    assert(false);
                }
                assert(plan_of(was, lgv[i as int].ns) is None);
                assert forall|m: u8| #[trigger]
                    pending_log_of(next, m) == if m == lgv[i as int].ns {
                        Some(lgv[i as int])
                    } else {
                        pending_log_of(head, m)
                    } by {}
            }
            if logs[i].records.len() > 0 {
                let latest = latest_records(&logs[i].records);
                proof {
                    assert(latest_of(lgv[i as int].records, records_view(latest@)));
                    assert(records_view(latest@).len() == latest@.len());
                    if steady(s0) {
                        crate::space::tree::lemma_steady_grown(s0, s1);
                    }
                }
                let ops = match self.place_batches(&latest, seq) {
                    Ok(ops) => ops,
                    Err(e) => {
                        proof {
                            lemma_laid_trans(s0, s1, *self);
                        }
                        return Err(e);
                    },
                };
                let plan = Plan { ns: logs[i].ns, log: true, ops };
                let ghost x = plan@;
                proof {
                    lemma_laid_trans(s0, s1, *self);
                    lemma_logs_ops(self.file@, recs, records_view(latest@), x.ops);
                    lemma_log_plans_extends(s1.file@, self.file@, lgv, was, i as int);
                }
                plans.push(plan);
                proof {
                    let now = plans_view(plans@);
                    assert(now =~= was.push(x));
                    assert forall|m: u8|
                        match #[trigger] plan_of(now, m) {
                            None => pending_log_of(next, m) matches Some(p) ==> p.records.len()
                                == 0,
                            Some(x) => {
                                &&& x.log
                                &&& ops_sorted(x.ops)
                                &&& pending_log_of(next, m) matches Some(p) && p.records.len() > 0
                                    && logs_ops(self.file@, p.records, x.ops)
                            },
                        } by {
                        lemma_plan_of_push(was, x, m);
                        assert(plan_of(was, m) is None ==> (pending_log_of(head, m) matches Some(p)
                            ==> p.records.len() == 0));
                    }
                }
            } else {
                proof {
                    assert forall|m: u8|
                        match #[trigger] plan_of(was, m) {
                            None => pending_log_of(next, m) matches Some(p) ==> p.records.len()
                                == 0,
                            Some(x) => {
                                &&& x.log
                                &&& ops_sorted(x.ops)
                                &&& pending_log_of(next, m) matches Some(p) && p.records.len() > 0
                                    && logs_ops(self.file@, p.records, x.ops)
                            },
                        } by {
                        assert(plan_of(was, m) is None ==> (pending_log_of(head, m) matches Some(p)
                            ==> p.records.len() == 0));
                    }
                }
            }
            i = i + 1;
        }
        assert(lgv.take(logs@.len() as int) =~= lgv);
        Ok(plans)
    }
}

/// The plans fit what is buffered.
pub open spec fn plans_fit(
    img: Image,
    kv: Seq<PendingView>,
    logs: Seq<PendingLogView>,
    plans: Seq<PlanView>,
) -> bool {
    forall|m: u8| plan_fits(img, kv, logs, m, #[trigger] plan_of(plans, m))
}

/// No namespace has both operations and records.
proof fn lemma_no_clash(rs: Seq<RootView>, kv: Seq<PendingView>, logs: Seq<PendingLogView>)
    requires
        kv_clashes(rs, kv, logs) is None,
    ensures
        forall|i: int| 0 <= i < kv.len() ==> kv_clash(rs, #[trigger] kv[i], logs) is None,
    decreases kv.len(),
{
    if kv.len() > 0 {
        let t = kv.drop_first();
        lemma_no_clash(rs, t, logs);
        assert forall|i: int| 0 <= i < kv.len() implies kv_clash(
            rs,
            #[trigger] kv[i],
            logs,
        ) is None by {
            if i > 0 {
                assert(t[i - 1] == kv[i]);
            }
        }
    }
}

/// Plans the buffered operations, after those for the records.
#[verifier::spinoff_prover]
#[verifier::rlimit(40)]
fn plan_ops(
    kv: &Vec<PendingNs>,
    plans: &mut Vec<Plan>,
    Ghost(img): Ghost<Image>,
    Ghost(logs): Ghost<Seq<PendingLogView>>,
)
    requires
        pendings_wf(pendings_view(kv@)),
        plans_wf(old(plans)@),
        log_plans(img, logs, plans_view(old(plans)@), logs.len() as int),
        forall|i: int|
            0 <= i < kv@.len() ==> pending_log_of(logs, (#[trigger] pendings_view(kv@)[i]).ns) is None,
    ensures
        plans_wf(final(plans)@),
        plans_fit(img, pendings_view(kv@), logs, plans_view(final(plans)@)),
{
    let ghost kvv = pendings_view(kv@);
    let mut i: usize = 0;
    proof {
        assert(logs.take(logs.len() as int) =~= logs);
        assert(kvv.take(0) =~= Seq::<PendingView>::empty());
        assert forall|m: u8|
            plan_fits(img, kvv.take(0), logs, m, #[trigger] plan_of(plans_view(plans@), m)) by {}
    }
    while i < kv.len()
        invariant
            i <= kv@.len(),
            kvv == pendings_view(kv@),
            pendings_wf(kvv),
            plans_wf(plans@),
            plans_fit(img, kvv.take(i as int), logs, plans_view(plans@)),
            forall|i: int|
                0 <= i < kv@.len() ==> pending_log_of(logs, (#[trigger] kvv[i]).ns) is None,
        decreases kv@.len() - i,
    {
        let ghost was = plans_view(plans@);
        let ghost head = kvv.take(i as int);
        let ghost next = kvv.take(i + 1);
        let ghost ns = kvv[i as int].ns;
        proof {
            assert(next.drop_last() =~= head);
            assert(next.last() == kvv[i as int]);
            lemma_pending_of(head, ns);
            if let Some(p) = pending_of(head, ns) {
                let j = choose|j: int| 0 <= j < head.len() && (#[trigger] head[j]) == p;
                assert(kvv[j].ns < kvv[i as int].ns);
                assert(false);
            }
            assert(plan_fits(img, head, logs, ns, plan_of(was, ns)));
            assert(plan_of(was, ns) is None);
            assert forall|m: u8| #[trigger]
                pending_of(next, m) == if m == ns {
                    Some(kvv[i as int])
                } else {
                    pending_of(head, m)
                } by {}
            assert(kvv[i as int].ops == kvs_view(kv@[i as int].ops@));
            assert(all_ops_legal(kvv[i as int].ops));
        }
        if kv[i].ops.len() > 0 {
            let ops = collapse(&kv[i].ops);
            let plan = Plan { ns: kv[i].ns, log: false, ops };
            let ghost x = plan@;
            plans.push(plan);
            proof {
                assert(plans_view(plans@) =~= was.push(x));
                assert forall|m: u8|
                    plan_fits(img, next, logs, m, #[trigger] plan_of(plans_view(plans@), m)) by {
                    lemma_plan_of_push(was, x, m);
                    assert(plan_fits(img, head, logs, m, plan_of(was, m)));
                }
            }
        } else {
            proof {
                assert forall|m: u8|
                    plan_fits(img, next, logs, m, #[trigger] plan_of(plans_view(plans@), m)) by {
                    assert(plan_fits(img, head, logs, m, plan_of(was, m)));
                }
            }
        }
        i = i + 1;
    }
    assert(kvv.take(kv@.len() as int) =~= kvv);
}

// ---------------------------------------------------------------------------
// After the publish
// ---------------------------------------------------------------------------

/// `b` is `a` with noise behind its slots, free for reuse, and decoys
/// rewritten.
pub open spec fn settled(a: Space, b: Space) -> bool {
    &&& a.file@.len() <= b.file@.len()
    &&& b.file@.take(a.file@.len() as int) == a.file@
    &&& forall|i: int| a.file@.len() <= i < b.file@.len() ==> (#[trigger] b.file@[i]) is None
    &&& same_settings(a.file, b.file)
    &&& wrote_only(a.file, b.file, a.state.pool@)
    &&& b.file.durable == a.file.durable || b.file.durable@ == b.file@
    &&& a.file.writes_left is None ==> b.file.writes_left is None
    &&& a.file.room_left is None ==> b.file.room_left is None
    &&& forall|x: u64| #[trigger]
        b.state.pool@.contains(x) <==> a.state.pool@.contains(x) || a.file@.len() <= x
            < b.file@.len()
    &&& b.state.pool.drift == counted(a.state.pool.drift, b.file@.len() - a.file@.len())
    &&& b.state.churn_count >= a.state.churn_count
    &&& b.state == (SpaceState {
        pool: b.state.pool,
        churn_count: b.state.churn_count,
        entropy: b.state.entropy,
        last_padding_error: b.state.last_padding_error,
        ..a.state
    })
}

/// A space that has settled opens as it did.
proof fn lemma_settled_extends(a: Space, b: Space)
    requires
        settled(a, b),
    ensures
        extends(a.file@, b.file@),
        forall|s: u64| #[trigger] live(b.file@, s) ==> live(a.file@, s),
{
    let n = a.file@.len() as int;
    assert forall|s: u64| #[trigger] live(a.file@, s) implies live(b.file@, s) && b.file@[s as int]
        == a.file@[s as int] by {
        assert(b.file@.take(n)[s as int] == b.file@[s as int]);
    }
    assert forall|s: u64| #[trigger] live(b.file@, s) implies live(a.file@, s) by {
        if s < n {
            assert(b.file@.take(n)[s as int] == b.file@[s as int]);
        }
    }
}

/// What hiding a commit has come to: `pad` slots of noise behind the first
/// `end`, unless that is more than can be counted, and `reused` decoys
/// rewritten. Each is done whether or not the other failed: the noise but for
/// want of room or of a device, the decoys but for want of words or of a
/// device. The error says whether anything failed; where nothing
/// did, all of it is on the device.
pub open spec fn masked(a: Space, b: Space, pad: int, end: int, reused: int) -> bool {
    let padded = b.file@.len() == end + if pad <= u64::MAX {
        pad
    } else {
        0
    };
    let churned = b.state.churn_count == counted(a.state.churn_count, reused)
        && exists|v: Seq<u64>| #[trigger] decoys(b, v) && v.len() == reused;
    let no_words = b.state.entropy.left().len() == 0 && reused > 0;
    let no_device = b.file.writes_left == Some(0u64);
    let no_room = b.file.room_left == Some(0u64);
    &&& padded || no_device || no_room
    &&& churned || no_words || no_device
    &&& match b.state.last_padding_error {
        None => padded && churned && pad <= u64::MAX && b.file.durable@ == b.file@,
        Some(e) => {
            ||| e == Error::ContainerTooLarge && pad > u64::MAX
            ||| e == Error::Rng && no_words
            ||| e == Error::Io("device refused the write") && no_device
            ||| e == Error::Io("device refused to flush") && no_device
            ||| e == Error::Io("no room on the device") && no_room
        },
    }
}

/// The chunks of a commit end at slot `n`: what follows is noise that is free
/// for reuse. What has left the pool and what has come to it is counted.
pub open spec fn chunks_end(a: Space, b: Space, n: int) -> bool {
    &&& a.file@.len() <= n <= b.file@.len()
    &&& n == a.file@.len() || b.file@[n - 1] is Some
    &&& forall|i: int| n <= i < b.file@.len() ==> (#[trigger] b.file@[i]) is None
    &&& forall|x: u64| n <= x < b.file@.len() ==> #[trigger] b.state.pool@.contains(x)
    &&& b.state.pool.drift == counted(
        a.state.pool.drift,
        a.state.pool@.difference(b.state.pool@).len() + (b.file@.len() - n),
    )
}

/// A commit has been hidden: the noise that the policy asks for behind the
/// slots it added, and one decoy rewritten for each slot it reused.
pub open spec fn hidden(a: Space, b: Space) -> bool {
    exists|n: int| #[trigger]
        chunks_end(a, b, n) && masked(
            a,
            b,
            padding_after(a.file.padding_policy, n as u64, (n - a.file@.len()) as u64),
            n,
            b.state.reuse_count - a.state.reuse_count,
        )
}

/// Whether a commit has been hidden does not depend on what reads remember.
pub proof fn lemma_hidden_quiet(a: Space, b: Space, c: Space)
    requires
        quiet(a, b),
        hidden(b, c),
    ensures
        hidden(a, c),
{
    let n = choose|n: int| #[trigger]
        chunks_end(b, c, n) && masked(
            b,
            c,
            padding_after(b.file.padding_policy, n as u64, (n - b.file@.len()) as u64),
            n,
            c.state.reuse_count - b.state.reuse_count,
        );
    assert(chunks_end(a, c, n));
}

/// The first failure of three steps that were all tried.
fn first_failure(a: Result<(), Error>, b: Result<(), Error>, c: Result<(), Error>) -> (r: Option<
    Error,
>)
    ensures
        r == match a {
            Err(e) => Some(e),
            Ok(()) => match b {
                Err(e) => Some(e),
                Ok(()) => match c {
                    Err(e) => Some(e),
                    Ok(()) => None,
                },
            },
        },
{
    match a {
        Err(e) => Some(e),
        Ok(()) => match b {
            Err(e) => Some(e),
            Ok(()) => match c {
                Err(e) => Some(e),
                Ok(()) => None,
            },
        },
    }
}

impl Space {
    /// Adds the noise that the padding policy asks for behind `added` slots.
    fn pad(&mut self, added: u64) -> (r: Result<(), Error>)
        requires
            old(self).wf(),
        ensures
            final(self).state == old(self).state,
            same_settings(old(self).file, final(self).file),
            wrote_only(old(self).file, final(self).file, Set::<u64>::empty()),
            old(self).file.writes_left is None ==> final(self).file.writes_left is None,
            old(self).file.room_left is None ==> final(self).file.room_left is None,
            old(self).file@.len() <= final(self).file@.len(),
            final(self).file@.take(old(self).file@.len() as int) == old(self).file@,
            forall|i: int|
                old(self).file@.len() <= i < final(self).file@.len() ==> (
                #[trigger] final(self).file@[i]) is None,
            final(self).file.durable == old(self).file.durable,
            old(self).file.lock_mode == LockMode::Exclusive ==> ({
                let n = padding_after(
                    old(self).file.padding_policy,
                    old(self).file@.len() as u64,
                    added,
                );
                match r {
                    Ok(()) => final(self).file@.len() == old(self).file@.len() + n && n <= u64::MAX,
                    Err(e) => {
                        ||| e == Error::ContainerTooLarge && n > u64::MAX && final(self).file
                            == old(self).file
                        ||| n <= u64::MAX && refused_slot(final(self).file, e)
                    },
                }
            }),
    {
        assert(self.file@.take(self.file@.len() as int) =~= self.file@);
        let total: u64 = self.file.slot_count();
        match self.file.padding_policy.garbage_after_commit(total, added) {
            Err(e) => Err(e),
            Ok(n) => {
                if n > 0 {
                    self.file.append_garbage_chunks(n)
                } else {
                    Ok(())
                }
            },
        }
    }

    /// Hides a commit that has been published: adds noise, rewrites as many
    /// decoys as slots were reused, and waits for the device. Each is tried
    /// whether or not the one before it failed; the first failure is kept.
    #[verifier::spinoff_prover]
    #[verifier::rlimit(40)]
    fn settle(&mut self, added: u64, reused: usize)
        requires
            old(self).wf(),
            old(self).file.lock_mode == LockMode::Exclusive,
            reused <= old(self).state.pool@.len(),
        ensures
            final(self).wf(),
            settled(*old(self), *final(self)),
            masked(
                *old(self),
                *final(self),
                padding_after(old(self).file.padding_policy, old(self).file@.len() as u64, added),
                old(self).file@.len() as int,
                reused as int,
            ),
    {
        let ghost s0 = *self;
        let pad_from: u64 = self.file.slot_count();
        let padded = self.pad(added);
        let ghost s1 = *self;
        proof {
            lemma_padded_wf(s0, s1);
        }
        let churn = match self.churn_decoys(reused) {
            Ok(_) => Ok(()),
            Err(e) => Err(e),
        };
        let synced = self.sync();
        let ghost s2 = *self;
        let end: u64 = self.file.slot_count();
        let mut slot: u64 = pad_from;
        while slot < end
            invariant
                pad_from <= slot <= end,
                end <= usize::MAX,
                end == self.file@.len(),
                pad_from == s0.file@.len(),
                self.file == s2.file,
                self.state == (SpaceState { pool: self.state.pool, ..s2.state }),
                self.state.pool.wf(),
                forall|x: u64| #[trigger]
                    self.state.pool@.contains(x) <==> s0.state.pool@.contains(x) || pad_from <= x
                        < slot,
                forall|x: u64| #[trigger] s0.state.pool@.contains(x) ==> x < pad_from,
                self.state.pool.drift == counted(s0.state.pool.drift, slot - pad_from),
            decreases end - slot,
        {
            self.state.pool.insert(slot);
            slot = slot + 1;
        }
        self.state.last_padding_error = first_failure(padded, churn, synced);
        proof {
            let s3 = *self;
            assert(s3.file@ == s1.file@);
            assert(settled(s0, s3));
            if churn is Ok {
                let (v, _) = drawn(
                    s1.state.pool@,
                    s1.state.entropy.left(),
                    sample_size(s1.state.pool@, reused),
                )->0;
                assert(decoys(s3, v) && v.len() == reused);
            }
            lemma_settled_extends(s0, s3);
            assert(storage_wf(s3.file@, s3.state.owned_slots@, s3.state.pool@)) by {
                assert forall|s: u64| #[trigger]
                    live(s3.file@, s) implies s3.file@[s as int]->0.payload.len() <= PAYLOAD_CAP by {
                    assert(live(s0.file@, s));
                }
            }
            lemma_cache_extends(
                s0.file@,
                s3.file@,
                s3.state.superblock@,
                s3.state.roots_payload_cache,
            );
        }
    }
}

/// Noise at the end of the file leaves what is in memory fitting.
proof fn lemma_padded_wf(a: Space, b: Space)
    requires
        a.wf(),
        b.state == a.state,
        a.file@.len() <= b.file@.len(),
        b.file@.take(a.file@.len() as int) == a.file@,
        forall|i: int| a.file@.len() <= i < b.file@.len() ==> (#[trigger] b.file@[i]) is None,
    ensures
        b.wf(),
{
    let n = a.file@.len() as int;
    assert forall|s: u64| #[trigger] live(b.file@, s) implies live(a.file@, s) && b.file@[s as int]
        == a.file@[s as int] by {
        if s < n {
            assert(b.file@.take(n)[s as int] == b.file@[s as int]);
        }
    }
    assert forall|s: u64| #[trigger] live(a.file@, s) implies live(b.file@, s) && b.file@[s as int]
        == a.file@[s as int] by {
        assert(b.file@.take(n)[s as int] == b.file@[s as int]);
    }
    lemma_cache_extends(a.file@, b.file@, a.state.superblock@, a.state.roots_payload_cache);
}

// ---------------------------------------------------------------------------
// What a commit makes of the namespaces
// ---------------------------------------------------------------------------

/// The entries `now` are `es` with the operations carried out in order.
pub open spec fn kv_applied(es: Seq<EntryView>, now: Seq<EntryView>, ops: Seq<OpView>) -> bool {
    &&& keys_sorted(now)
    &&& forall|k: Seq<u8>| #[trigger]
        lookup(now, k) == match last_op(ops, k) {
            Some(v) => v,
            None => lookup(es, k),
        }
}

/// The entry for a record's number leads to a batch with the record.
pub open spec fn record_kept(img: Image, es: Seq<EntryView>, id: u64, payload: Seq<u8>) -> bool {
    exists|slot: u64| #[trigger]
        batch_holds(img, slot, id, payload) && lookup(es, be_bytes(id as nat, 8)) == Some(
            le_bytes(slot as nat, 8),
        )
}

/// The key is the number of a buffered record.
pub open spec fn key_of_record(recs: Seq<RecordView>, k: Seq<u8>) -> bool {
    exists|id: u64| k == be_bytes(id as nat, 8) && #[trigger] last_with_id(recs, id) is Some
}

/// The entries `now` are `es` with the records added: of several with one
/// number the last.
pub open spec fn log_applied(
    img: Image,
    es: Seq<EntryView>,
    now: Seq<EntryView>,
    recs: Seq<RecordView>,
) -> bool {
    &&& keys_sorted(now)
    &&& forall|id: u64| #[trigger]
        last_with_id(recs, id) matches Some(p) ==> record_kept(img, now, id, p)
    &&& forall|k: Seq<u8>| !key_of_record(recs, k) ==> #[trigger] lookup(now, k) == lookup(es, k)
}

/// The namespace now holds `es` with the operations carried out.
pub open spec fn holds_kv_applied(
    b: Image,
    now: Seq<RootView>,
    ns: Namespace,
    es: Seq<EntryView>,
    ops: Seq<OpView>,
) -> bool {
    exists|es2: Seq<EntryView>| #[trigger] ns_holds(b, now, ns, es2) && kv_applied(es, es2, ops)
}

/// The namespace now holds `es` with the records added.
pub open spec fn holds_log_applied(
    b: Image,
    now: Seq<RootView>,
    ns: Namespace,
    es: Seq<EntryView>,
    recs: Seq<RecordView>,
) -> bool {
    exists|es2: Seq<EntryView>| #[trigger]
        ns_holds(b, now, ns, es2) && log_applied(b, es, es2, recs)
}

/// What a commit makes of one namespace: with operations, what it held with
/// those carried out; with records, what it held with those added; else it
/// stays as it is. A namespace that was neat still is, and none is touched whose
/// root does not open.
pub open spec fn changed(
    a: Image,
    b: Image,
    prior: Seq<RootView>,
    now: Seq<RootView>,
    kv: Seq<PendingView>,
    logs: Seq<PendingLogView>,
    m: u8,
) -> bool {
    let ns = Namespace(m);
    &&& ns_neat(a, prior, ns) ==> ns_neat(b, now, ns)
    &&& if pending_of(kv, m) is Some && pending_of(kv, m)->0.ops.len() > 0 {
        &&& root_opens(b, prior, ns)
        &&& forall|es: Seq<EntryView>| #[trigger]
            ns_holds(a, prior, ns, es) ==> holds_kv_applied(
                b,
                now,
                ns,
                es,
                pending_of(kv, m)->0.ops,
            )
        &&& root_of(now, ns) is Some ==> root_of(now, ns)->0.kind == kind_after(
            root_of(prior, ns),
            false,
        )
    } else if pending_log_of(logs, m) is Some && pending_log_of(logs, m)->0.records.len() > 0 {
        &&& root_opens(b, prior, ns)
        &&& forall|es: Seq<EntryView>| #[trigger]
            ns_holds(a, prior, ns, es) ==> holds_log_applied(
                b,
                now,
                ns,
                es,
                pending_log_of(logs, m)->0.records,
            )
        &&& root_of(now, ns) is Some ==> root_of(now, ns)->0.kind == NamespaceKind::Log
    } else {
        root_of(now, ns) == root_of(prior, ns)
    }
}

/// What a commit makes of all namespaces.
pub open spec fn committed(
    a: Image,
    b: Image,
    prior: Seq<RootView>,
    now: Seq<RootView>,
    kv: Seq<PendingView>,
    logs: Seq<PendingLogView>,
) -> bool {
    forall|m: u8| #[trigger] changed(a, b, prior, now, kv, logs, m)
}

/// A plan that is carried out does what was buffered.
proof fn lemma_changed(
    a: Image,
    b: Image,
    c: Image,
    prior: Seq<RootView>,
    now: Seq<RootView>,
    kv: Seq<PendingView>,
    logs: Seq<PendingLogView>,
    m: u8,
    plan: Option<PlanView>,
)
    requires
        extends(a, b),
        extends(b, c),
        plan_fits(b, kv, logs, m, plan),
        stepped(b, c, prior, now, Namespace(m), plan),
        pending_of(kv, m) is Some ==> pending_log_of(logs, m) is None,
    ensures
        changed(a, c, prior, now, kv, logs, m),
{
    let ns = Namespace(m);
    if ns_neat(a, prior, ns) {
        if let Some(r) = root_of(prior, ns) {
            lemma_is_neat_extends(a, b, ns, r.index_slot, r.payload_hash);
            lemma_is_neat_extends(b, c, ns, r.index_slot, r.payload_hash);
        }
    }
    if let Some(x) = plan {
        lemma_plan_fits_extends(b, c, kv, logs, m, plan);
        assert forall|es: Seq<EntryView>| #[trigger] ns_holds(a, prior, ns, es) implies (if x.log {
            holds_log_applied(c, now, ns, es, pending_log_of(logs, m)->0.records)
        } else {
            holds_kv_applied(c, now, ns, es, pending_of(kv, m)->0.ops)
        }) by {
            lemma_ns_holds_extends(a, b, prior, ns, es);
            lemma_ns_holds_sorted(a, prior, ns, es);
            let es2 = merged(es, x.ops);
            assert(ns_holds(c, now, ns, es2));
            lemma_merged_sorted(es, x.ops);
            assert forall|k: Seq<u8>| #[trigger]
                lookup(es2, k) == match op_on(x.ops, k) {
                    Some(v) => v,
                    None => lookup(es, k),
                } by {
                law_merged_lookup(es, x.ops, k);
            }
            if x.log {
                let recs = pending_log_of(logs, m)->0.records;
                assert forall|id: u64| #[trigger] last_with_id(recs, id) is Some implies record_kept(
                    c,
                    es2,
                    id,
                    last_with_id(recs, id)->0,
                ) by {
                    let p = last_with_id(recs, id)->0;
                    assert(pointed(c, x.ops, id, p));
                    let slot = choose|slot: u64| #[trigger]
                        batch_holds(c, slot, id, p) && op_on(x.ops, be_bytes(id as nat, 8))
                            == Some(Some(le_bytes(slot as nat, 8)));
                    assert(batch_holds(c, slot, id, p) && lookup(es2, be_bytes(id as nat, 8))
                        == Some(le_bytes(slot as nat, 8)));
                }
                assert forall|k: Seq<u8>| !key_of_record(recs, k) implies #[trigger] lookup(es2, k)
                    == lookup(es, k) by {
                    assert(op_on(x.ops, k) is None);
                }
                assert(log_applied(c, es, es2, recs));
            } else {
                let ops = pending_of(kv, m)->0.ops;
                assert forall|k: Seq<u8>| #[trigger]
                    lookup(es2, k) == match last_op(ops, k) {
                        Some(v) => v,
                        None => lookup(es, k),
                    } by {
                    assert(op_on(x.ops, k) == last_op(ops, k));
                }
                assert(kv_applied(es, es2, ops));
            }
        }
    }
}

/// There are no more roots than namespaces involved.
proof fn lemma_roots_involved(
    now: Seq<RootView>,
    rs: Seq<RootView>,
    kv: Seq<PendingView>,
    logs: Seq<PendingLogView>,
    n: nat,
)
    requires
        n <= 256,
        roots_below(now, n as int),
        forall|i: int|
            0 <= i < now.len() ==> involved(rs, kv, logs, (#[trigger] now[i]).namespace.0),
    ensures
        now.len() <= involved_count(rs, kv, logs, n),
    decreases n,
{
    if now.len() > 0 {
        if n == 0 {
            assert(now[0].namespace.0 < 0);
        } else {
            let last = now.last();
            assert(last == now[now.len() - 1]);
            let k = (n - 1) as nat;
            if last.namespace.0 == k {
                let init = now.drop_last();
                assert forall|i: int| 0 <= i < init.len() implies (
                #[trigger] init[i]).namespace.0 < k && involved(
                    rs,
                    kv,
                    logs,
                    init[i].namespace.0,
                ) by {
                    assert(init[i] == now[i]);
                    assert(now[i].namespace.0 < now[now.len() - 1].namespace.0);
                }
                assert(roots_sorted(init)) by {
                    assert forall|i: int, j: int| 0 <= i < j < init.len() implies (
                    #[trigger] init[i]).namespace.0 < (#[trigger] init[j]).namespace.0 by {
                        assert(init[i] == now[i] && init[j] == now[j]);
                    }
                }
                lemma_roots_involved(init, rs, kv, logs, k);
                assert(involved(rs, kv, logs, k as u8));
            } else {
                assert forall|i: int| 0 <= i < now.len() implies (
                #[trigger] now[i]).namespace.0 < k by {
                    if i < now.len() - 1 {
                        assert(now[i].namespace.0 < now[now.len() - 1].namespace.0);
                    }
                }
                lemma_roots_involved(now, rs, kv, logs, k);
            }
        }
    }
}

/// Every root is found under its namespace.
proof fn lemma_root_of_at(rs: Seq<RootView>, i: int)
    requires
        0 <= i < rs.len(),
    ensures
        root_of(rs, rs[i].namespace) is Some,
    decreases rs.len(),
{
    if rs[0].namespace != rs[i].namespace {
        assert(rs.drop_first()[i - 1] == rs[i]);
        lemma_root_of_at(rs.drop_first(), i - 1);
    }
}

/// Every namespace has a sound tree that a walk can take, or none.
pub open spec fn all_walkable(img: Image, rs: Seq<RootView>, cap: int) -> bool {
    forall|m: u8| #[trigger] walkable(img, rs, Namespace(m), cap)
}

impl Space {
    /// Stores the batches, the trees and the record of a commit. Nothing
    /// points at them yet: gives the superblock that would.
    #[verifier::spinoff_prover]
    #[verifier::rlimit(60)]
    fn write_commit(
        &mut self,
        kv: &Vec<PendingNs>,
        logs: &Vec<PendingLogNs>,
        prior: &Vec<IndexRoot>,
        seq: u64,
    ) -> (r: Result<Superblock, Error>)
        requires
            old(self).wf(),
            pendings_wf(pendings_view(kv@)),
            pending_logs_wf(pending_logs_view(logs@)),
            kv_clashes(roots_view(prior@), pendings_view(kv@), pending_logs_view(logs@)) is None,
            involved_count(
                roots_view(prior@),
                pendings_view(kv@),
                pending_logs_view(logs@),
                256,
            ) <= MAX_NAMESPACES_PER_TX,
        ensures
            final(self).wf(),
            laid(*old(self), *final(self), seq),
            match r {
                Ok(sb) => {
                    &&& old(self).file.lock_mode == LockMode::Exclusive
                    &&& final(self).file.durable@ == final(self).file@
                    &&& sb.seq == seq
                    &&& sb.root_slot != NO_RECORD
                    &&& sb.checkpoint_slot == old(self).state.superblock.checkpoint_slot
                    &&& roots_at(final(self).file@, sb@) is Ok
                    &&& check_commit(final(self).file@, sb@) is Ok
                    &&& committed(
                        old(self).file@,
                        final(self).file@,
                        roots_view(prior@),
                        roots_at(final(self).file@, sb@)->Ok_0,
                        pendings_view(kv@),
                        pending_logs_view(logs@),
                    )
                },
                Err(e) => failed(*old(self), *final(self), e, logs_encodable(pending_logs_view(logs@))
                    && all_walkable(
                    old(self).file@,
                    roots_view(prior@),
                    old(self).walk_now().max_depth as int,
                )),
            },
    {
        let ghost s0 = *self;
        let ghost kvv = pendings_view(kv@);
        let ghost lgv = pending_logs_view(logs@);
        let ghost pv = roots_view(prior@);
        let mut plans = match self.plan_logs(logs, seq) {
            Ok(v) => v,
            Err(e) => {
                return Err(e);
            },
        };
        let ghost s1 = *self;
        proof {
            lemma_no_clash(pv, kvv, lgv);
            assert(lgv.len() == logs@.len());
            assert forall|i: int| 0 <= i < kv@.len() implies pending_log_of(
                lgv,
                (#[trigger] kvv[i]).ns,
            ) is None by {
                assert(kv_clash(pv, kvv[i], lgv) is None);
            }
        }
        plan_ops(kv, &mut plans, Ghost(s1.file@), Ghost(lgv));
        let ghost plv = plans_view(plans@);
        proof {
            if steady(s0) {
                crate::space::tree::lemma_steady_grown(s0, s1);
            }
            lemma_bound_grows(s0, s1);
            let cap = s0.walk_now().max_depth as int;
            if all_walkable(s0.file@, pv, cap) {
                assert forall|i: int| 0 <= i < plv.len() implies walkable(
                    s1.file@,
                    pv,
                    Namespace((#[trigger] plv[i]).ns),
                    s1.walk_now().max_depth as int,
                ) by {
                    assert(walkable(s0.file@, pv, Namespace(plv[i].ns), cap));
                    lemma_walkable_extends(s0.file@, s1.file@, pv, Namespace(plv[i].ns), cap);
                }
            }
        }
        let roots = match self.write_trees(&plans, prior, seq) {
            Ok(v) => v,
            Err(e) => {
                proof {
                    lemma_laid_trans(s0, s1, *self);
                }
                return Err(e);
            },
        };
        let ghost s2 = *self;
        let ghost rs = roots_view(roots@);
        proof {
            lemma_laid_trans(s0, s1, s2);
            if steady(s0) {
                crate::space::tree::lemma_steady_grown(s0, s2);
            }
            assert forall|m: u8| #[trigger] changed(s0.file@, s2.file@, pv, rs, kvv, lgv, m) by {
                assert(plan_fits(s1.file@, kvv, lgv, m, plan_of(plv, m)));
                assert(stepped(s1.file@, s2.file@, pv, rs, Namespace(m), plan_of(plv, m)));
                lemma_pending_of(kvv, m);
                if let Some(p) = pending_of(kvv, m) {
                    let i = choose|i: int| 0 <= i < kvv.len() && (#[trigger] kvv[i]) == p;
                    assert(pending_log_of(lgv, kvv[i].ns) is None);
                }
                lemma_changed(
                    s0.file@,
                    s1.file@,
                    s2.file@,
                    pv,
                    rs,
                    kvv,
                    lgv,
                    m,
                    plan_of(plv, m),
                );
            }
            assert forall|i: int| 0 <= i < rs.len() implies involved(
                pv,
                kvv,
                lgv,
                (#[trigger] rs[i]).namespace.0,
            ) by {
                let m = rs[i].namespace.0;
                lemma_root_of_at(rs, i);
                assert(plan_fits(s1.file@, kvv, lgv, m, plan_of(plv, m)));
                assert(stepped(s1.file@, s2.file@, pv, rs, Namespace(m), plan_of(plv, m)));
            }
            lemma_roots_involved(rs, pv, kvv, lgv, 256);
        }
        match self.sync() {
            Ok(()) => {},
            Err(e) => {
                proof {
                    assert(laid(s2, *self, seq));
                    lemma_laid_trans(s0, s2, *self);
                }
                return Err(e);
            },
        }
        let tx_root_hash = CommitPayload::compute_tx_root_hash(roots.as_slice());
        let ghost s3 = *self;
        let record = CommitPayload { roots, tx_root_hash };
        let ghost cv = record@;
        proof {
            assert(laid(s2, s3, seq));
            lemma_laid_trans(s0, s2, s3);
            if steady(s0) {
                crate::space::tree::lemma_steady_grown(s0, s3);
            }
            assert(cv.roots == rs);
            assert forall|i: int| 0 <= i < cv.roots.len() implies (
            #[trigger] cv.roots[i]).payload_hash.len() == 32 by {
                assert(cv.roots[i] == record.roots@[i]@);
            }
            law_commit_decode_of_encode(cv);
        }
        let bytes = match record.encode() {
            Ok(b) => b,
            Err(e) => {
                return Err(e);
            },
        };
        assert(rs.len() <= 95) by {
            assert((4040int - 2 - 32) / (1int + 1 + 8 + 32) == 95) by (nonlinear_arith);
            assert(MAX_NAMESPACES_PER_TX == 95);
        }
        assert(bytes@.len() <= PAYLOAD_CAP);
        let slot: u64 = match self.place_chunk(ChunkKind::Commit, seq, bytes.as_slice()) {
            Ok(s) => s,
            Err(e) => {
                proof {
                    assert(laid(s3, *self, seq));
                    lemma_laid_trans(s0, s3, *self);
                }
                return Err(e);
            },
        };
        let ghost s4 = *self;
        proof {
            assert(laid(s3, s4, seq));
            lemma_laid_trans(s0, s3, s4);
            if steady(s0) {
                crate::space::tree::lemma_steady_grown(s0, s4);
            }
        }
        match self.sync() {
            Ok(()) => {},
            Err(e) => {
                proof {
                    assert(laid(s4, *self, seq));
                    lemma_laid_trans(s0, s4, *self);
                }
                return Err(e);
            },
        }
        let sb = Superblock {
            seq,
            root_slot: slot,
            root_hash: tx_root_hash,
            checkpoint_slot: self.state.superblock.checkpoint_slot,
        };
        proof {
            assert(laid(s4, *self, seq));
            lemma_laid_trans(s0, s4, *self);
            let count = self.file.slots.len();
            assert(live(self.file@, slot));
            assert(slot < count);
            assert(roots_at(self.file@, sb@) == Ok::<Seq<RootView>, Error>(rs));
            assert forall|m: u8| #[trigger]
                changed(s0.file@, self.file@, pv, rs, kvv, lgv, m) by {
                assert(changed(s0.file@, s2.file@, pv, rs, kvv, lgv, m));
                lemma_changed_later(s0.file@, s2.file@, self.file@, pv, rs, kvv, lgv, m);
            }
        }
        Ok(sb)
    }
}

/// What a commit has made of a namespace stays as the file grows.
proof fn lemma_changed_later(
    a: Image,
    b: Image,
    c: Image,
    prior: Seq<RootView>,
    now: Seq<RootView>,
    kv: Seq<PendingView>,
    logs: Seq<PendingLogView>,
    m: u8,
)
    requires
        changed(a, b, prior, now, kv, logs, m),
        extends(b, c),
    ensures
        changed(a, c, prior, now, kv, logs, m),
{
    let ns = Namespace(m);
    if root_opens(b, prior, ns) {
        lemma_root_opens_extends(b, c, prior, ns);
    }
    if let Some(r) = root_of(now, ns) {
        if ns_neat(a, prior, ns) {
            lemma_is_neat_extends(b, c, ns, r.index_slot, r.payload_hash);
        }
    }
    if pending_of(kv, m) is Some && pending_of(kv, m)->0.ops.len() > 0 {
        let ops = pending_of(kv, m)->0.ops;
        assert forall|es: Seq<EntryView>| #[trigger]
            ns_holds(a, prior, ns, es) implies holds_kv_applied(c, now, ns, es, ops) by {
            assert(holds_kv_applied(b, now, ns, es, ops));
            let es2 = choose|es2: Seq<EntryView>| #[trigger]
                ns_holds(b, now, ns, es2) && kv_applied(es, es2, ops);
            lemma_ns_holds_extends(b, c, now, ns, es2);
            assert(ns_holds(c, now, ns, es2) && kv_applied(es, es2, ops));
        }
    } else if pending_log_of(logs, m) is Some && pending_log_of(logs, m)->0.records.len() > 0 {
        let recs = pending_log_of(logs, m)->0.records;
        assert forall|es: Seq<EntryView>| #[trigger]
            ns_holds(a, prior, ns, es) implies holds_log_applied(c, now, ns, es, recs) by {
            assert(holds_log_applied(b, now, ns, es, recs));
            let es2 = choose|es2: Seq<EntryView>| #[trigger]
                ns_holds(b, now, ns, es2) && log_applied(b, es, es2, recs);
            lemma_ns_holds_extends(b, c, now, ns, es2);
            assert forall|id: u64| #[trigger] last_with_id(recs, id) is Some implies record_kept(
                c,
                es2,
                id,
                last_with_id(recs, id)->0,
            ) by {
                let p = last_with_id(recs, id)->0;
                assert(record_kept(b, es2, id, p));
                let slot = choose|slot: u64| #[trigger]
                    batch_holds(b, slot, id, p) && lookup(es2, be_bytes(id as nat, 8)) == Some(
                        le_bytes(slot as nat, 8),
                    );
                lemma_batch_holds_extends(b, c, slot, id, p);
            }
            assert(ns_holds(c, now, ns, es2) && log_applied(c, es, es2, recs));
        }
    }
}

// ---------------------------------------------------------------------------
// The commit
// ---------------------------------------------------------------------------

/// There are words for as many slots as a commit may draw from the pool.
pub open spec fn enough_words(s: Space) -> bool {
    s.state.attempted_seq > s.state.superblock.seq || s.state.pool@.len() <= spec_reuse_floor(
        s.state.pool@.len(),
    ) + sure_words(s.state.entropy.left())
}

/// The records can be cut into batches, and the trees are sound and within the
/// depth that walks allow.
pub open spec fn committable(s: Space, logs: Seq<PendingLogView>) -> bool {
    &&& logs_encodable(logs)
    &&& s.roots() is Ok
    &&& all_walkable(s.file@, s.roots()->Ok_0, s.walk_now().max_depth as int)
}

/// A commit that is not refused cannot fail: the device takes everything, there
/// are words for the slots that it may reuse, the records can be cut into
/// batches, and the trees are sound and within the depth that walks allow.
pub open spec fn ready(s: Space, logs: Seq<PendingLogView>) -> bool {
    &&& takes_all(s)
    &&& enough_words(s)
    &&& committable(s, logs)
}

/// `b` is `a` after a commit that was published under `seq`.
pub open spec fn published(
    a: Space,
    b: Space,
    kv: Seq<PendingView>,
    logs: Seq<PendingLogView>,
    seq: u64,
) -> bool {
    &&& b.state.superblock.seq == seq
    &&& b.state.attempted_seq == seq
    &&& b.state.superblock.checkpoint_slot == a.state.superblock.checkpoint_slot
    &&& on_file(b.file@, b.state.superblock@)
    &&& on_file(b.file.durable@, b.state.superblock@)
    &&& replicated(a.file@, b.file@, b.state.superblock@, copies_wanted(a.file))
    &&& b.roots() is Ok
    &&& new_era(a, b.file@, kv, logs, b.state.superblock@)
    &&& new_era(a, b.file.durable@, kv, logs, b.state.superblock@)
    &&& b.state.commit_history@ == a.state.commit_history@.push(seq)
    &&& b.state.last_publish_error is None
}

/// The superblock leads to a commit record that makes of `a` what was buffered.
pub open spec fn new_era(
    a: Space,
    img: Image,
    kv: Seq<PendingView>,
    logs: Seq<PendingLogView>,
    sb: SuperblockView,
) -> bool {
    &&& commit_refusal(a, kv, logs) is None
    &&& sb.seq == used_seq(a) + 1
    &&& sb.root_slot != NO_RECORD
    &&& check_commit(img, sb) is Ok
    &&& committed(a.file@, img, a.roots()->Ok_0, roots_at(img, sb)->Ok_0, kv, logs)
}

/// Every superblock on file was there before, or leads to all of what was
/// buffered, and all of that is on the device.
pub open spec fn all_or_nothing(
    a: Space,
    b: Space,
    kv: Seq<PendingView>,
    logs: Seq<PendingLogView>,
) -> bool {
    no_new_superblock(a.file@, b.file@) || exists|sb: SuperblockView| #[trigger]
        new_era(a, b.file.durable@, kv, logs, sb) && only_new_superblock(a.file@, b.file@, sb)
}

/// What a commit keeps, whether it succeeds or fails.
pub open spec fn kept_by_commit(a: Space, b: Space) -> bool {
    &&& extends(a.file@, b.file@)
    &&& same_settings(a.file, b.file)
    &&& wrote_only(a.file, b.file, a.state.pool@)
    &&& flushed(a.file, b.file)
    &&& stamped(a.file@, b.file@, (used_seq(a) + 1) as u64)
    &&& a.file.lock_mode != LockMode::Exclusive ==> b.file == a.file
    &&& within(a, b)
    &&& a.file.writes_left is None ==> b.file.writes_left is None
    &&& a.file.room_left is None ==> b.file.room_left is None
    &&& a.state.owned_slots@.subset_of(b.state.owned_slots@)
    &&& forall|s: u64| #[trigger]
        b.state.owned_slots@.contains(s) ==> a.state.owned_slots@.contains(s) || live(b.file@, s)
    &&& forall|s: u64| #[trigger]
        a.state.pool@.contains(s) && !b.state.pool@.contains(s) && !b.state.owned_slots@.contains(s)
            ==> !takes_all(a)
    &&& b.state.keys == a.state.keys
    &&& b.state.unreadable_newer_superblock == a.state.unreadable_newer_superblock
    &&& b.state.pool_recovered == a.state.pool_recovered
    &&& b.state.reuse_count >= a.state.reuse_count
    &&& b.state.churn_count >= a.state.churn_count
    &&& b.state.reuse_count - a.state.reuse_count <= a.state.pool@.len() / 2
    &&& a.state.attempted_seq > a.state.superblock.seq ==> b.state.reuse_count
        == a.state.reuse_count
}

/// `b` is `a` after a commit that failed: what is published is as before.
/// Once the publish has been started the failure says so.
pub open spec fn unpublished(a: Space, b: Space, e: Error) -> bool {
    &&& b.state.superblock == a.state.superblock
    &&& b.state.commit_history == a.state.commit_history
    &&& b.state.last_padding_error == a.state.last_padding_error
    &&& b.state.churn_count == a.state.churn_count
    &&& if b.state.attempted_seq == a.state.attempted_seq {
        &&& b.state.last_publish_error == a.state.last_publish_error
        &&& !(e is PublishUncertain)
    } else {
        &&& b.state.attempted_seq == used_seq(a) + 1
        &&& b.state.last_publish_error matches Some(cause) && blamed(b, cause)
        &&& e == Error::PublishUncertain("committing")
    }
}

/// `b` is `a` after a commit that failed: no superblock is new, or the publish
/// has been started, and all that its superblock leads to is on the device.
pub open spec fn begun(
    a: Space,
    b: Space,
    kv: Seq<PendingView>,
    logs: Seq<PendingLogView>,
) -> bool {
    if b.state.attempted_seq == a.state.attempted_seq {
        no_new_superblock(a.file@, b.file@)
    } else {
        exists|sb: SuperblockView| #[trigger]
            new_era(a, b.file.durable@, kv, logs, sb) && only_new_superblock(a.file@, b.file@, sb)
                && sb.seq == b.state.attempted_seq
    }
}

/// How far a commit got before it failed does not depend on what reads
/// remember.
pub proof fn lemma_begun_quiet(
    a: Space,
    b: Space,
    c: Space,
    kv: Seq<PendingView>,
    logs: Seq<PendingLogView>,
)
    requires
        quiet(a, b),
        begun(b, c, kv, logs),
    ensures
        begun(a, c, kv, logs),
{
    if c.state.attempted_seq != b.state.attempted_seq {
        let sb = choose|sb: SuperblockView| #[trigger]
            new_era(b, c.file.durable@, kv, logs, sb) && only_new_superblock(b.file@, c.file@, sb)
                && sb.seq == c.state.attempted_seq;
        assert(new_era(a, c.file.durable@, kv, logs, sb));
    }
}

/// Where nothing else is wrong, a failure before the publish is that of the
/// handle, the device or the words; a handle that does not write says so.
pub open spec fn early_failure(
    a: Space,
    b: Space,
    logs: Seq<PendingLogView>,
    e: Error,
) -> bool {
    committable(a, logs) ==> {
        &&& b.state.attempted_seq == a.state.attempted_seq ==> blamed(b, e)
        &&& a.file.lock_mode != LockMode::Exclusive ==> e == Error::ReadOnly
    }
}

/// How many slots a commit can have reused.
proof fn lemma_reused(pool0: nat, reuse0: u64, floor: usize, pool1: nat, reuse1: u64)
    requires
        reuse1 >= reuse0,
        reuse1 + pool1 <= reuse0 + pool0,
        pool1 >= pool0 || pool1 >= floor,
        floor == usize::MAX || floor == spec_reuse_floor(pool0),
        pool0 <= usize::MAX,
    ensures
        reuse1 - reuse0 <= pool0 / 2,
        reuse1 - reuse0 <= pool1,
        floor == usize::MAX ==> reuse1 == reuse0,
{
}

impl Space {
    /// Commits buffered operations and records: stores what they make of
    /// their namespaces, publishes a superblock that leads there, and hides
    /// what was done. With nothing buffered, nothing happens.
    #[verifier::spinoff_prover]
    #[verifier::rlimit(80)]
    pub fn commit_tx(&mut self, pending: &Vec<PendingNs>, pending_log: &Vec<PendingLogNs>) -> (r:
        Result<u64, Error>)
        requires
            old(self).wf(),
            pendings_wf(pendings_view(pending@)),
            pending_logs_wf(pending_logs_view(pending_log@)),
        ensures
            final(self).wf(),
            all_or_nothing(
                *old(self),
                *final(self),
                pendings_view(pending@),
                pending_logs_view(pending_log@),
            ),
            nothing_pending(pendings_view(pending@), pending_logs_view(pending_log@)) ==> r == Ok::<
                u64,
                Error,
            >(old(self).state.superblock.seq) && *final(self) == *old(self),
            !nothing_pending(pendings_view(pending@), pending_logs_view(pending_log@)) ==> match r {
                Ok(seq) => {
                    &&& published(
                        *old(self),
                        *final(self),
                        pendings_view(pending@),
                        pending_logs_view(pending_log@),
                        seq,
                    )
                    &&& kept_by_commit(*old(self), *final(self))
                    &&& hidden(*old(self), *final(self))
                    &&& old(self).file.lock_mode == LockMode::Exclusive
                },
                Err(e) => match commit_refusal(
                    *old(self),
                    pendings_view(pending@),
                    pending_logs_view(pending_log@),
                ) {
                    Some(refusal) => e == refusal && quiet(*old(self), *final(self)),
                    None => {
                        &&& kept_by_commit(*old(self), *final(self))
                        &&& unpublished(*old(self), *final(self), e)
                        &&& begun(
                            *old(self),
                            *final(self),
                            pendings_view(pending@),
                            pending_logs_view(pending_log@),
                        )
                        &&& early_failure(
                            *old(self),
                            *final(self),
                            pending_logs_view(pending_log@),
                            e,
                        )
                        &&& !ready(*old(self), pending_logs_view(pending_log@))
                    },
                },
            },
    {
        let ghost kvv = pendings_view(pending@);
        let ghost lgv = pending_logs_view(pending_log@);
        let ghost s0 = *self;
        if is_nothing(pending, pending_log) {
            return Ok(self.state.superblock.seq);
        }
        if self.state.unreadable_newer_superblock.is_some() {
            return Err(Error::UnreadableNewerState);
        }
        let used: u64 = if self.state.attempted_seq > self.state.superblock.seq {
            self.state.attempted_seq
        } else {
            self.state.superblock.seq
        };
        if used == u64::MAX {
            return Err(Error::Internal("commit seq overflow"));
        }
        let seq: u64 = used + 1;
        let prior = match self.load_prior_roots() {
            Ok(v) => v,
            Err(e) => {
                return Err(e);
            },
        };
        let ghost pv = roots_view(prior@);
        match check_kinds(pending, pending_log, &prior) {
            Ok(()) => {},
            Err(e) => {
                return Err(e);
            },
        }
        if count_involved(pending, pending_log, &prior) > MAX_NAMESPACES_PER_TX {
            return Err(Error::TooManyNamespaces { limit: MAX_NAMESPACES_PER_TX });
        }
        let slots_before: u64 = self.file.slot_count();
        let reuse_before: u64 = self.state.reuse_count;
        let pool_len: usize = self.state.pool.len();
        // While it is open whether a later superblock is on file, no slot is
        // known to be free.
        self.state.reuse_floor = if self.state.attempted_seq > self.state.superblock.seq {
            usize::MAX
        } else {
            reuse_floor_for(pool_len)
        };
        let ghost s1 = *self;
        proof {
            if ready(s0, lgv) {
                assert(steady(s1));
            }
            lemma_extends_refl(s0.file@);
        }
        let sb = match self.write_commit(pending, pending_log, &prior, seq) {
            Ok(sb) => sb,
            Err(e) => {
                proof {
                    lemma_reused(
                        s1.state.pool@.len(),
                        s1.state.reuse_count,
                        s1.state.reuse_floor,
                        self.state.pool@.len(),
                        self.state.reuse_count,
                    );
                }
                return Err(e);
            },
        };
        let ghost s2 = *self;
        proof {
            if steady(s1) {
                crate::space::tree::lemma_steady_grown(s1, s2);
            }
        }
        let out = self.publish_superblock(&sb, "committing");
        let ghost s3 = *self;
        proof {
            lemma_extends_trans(s0.file@, s2.file@, s3.file@);
            lemma_reused(
                s1.state.pool@.len(),
                s1.state.reuse_count,
                s1.state.reuse_floor,
                s3.state.pool@.len(),
                s3.state.reuse_count,
            );
        }
        proof {
            lemma_new_era(s0, s2.file@, s3.file@, kvv, lgv, sb@);
            lemma_only_new(s0.file@, s2.file@, s3.file@, sb@);
            if s3.file.durable != s2.file.durable {
                lemma_new_era(s0, s2.file@, s3.file.durable@, kvv, lgv, sb@);
                lemma_extends_trans(s0.file@, s2.file@, s3.file.durable@);
            }
            assert(flushed(s0.file, s3.file));
        }
        match out {
            Ok(()) => {},
            Err(e) => {
                return Err(e);
            },
        }
        self.state.superblock = sb;
        self.state.roots_payload_cache = None;
        self.state.commit_history.push(seq);
        let ghost s4 = *self;
        let added: u64 = self.file.slot_count() - slots_before;
        let reused: usize = (self.state.reuse_count - reuse_before) as usize;
        self.settle(added, reused * CHURN_PER_REUSE);
        proof {
            let s5 = *self;
            let rs = roots_at(s2.file@, sb@)->Ok_0;
            lemma_settled_extends(s4, s5);
            lemma_extends_trans(s2.file@, s3.file@, s5.file@);
            lemma_extends_trans(s0.file@, s3.file@, s5.file@);
            assert(live(s2.file@, sb.root_slot));
            assert(live(s5.file@, sb.root_slot));
            assert(roots_at(s5.file@, sb@) == Ok::<Seq<RootView>, Error>(rs));
            assert forall|m: u8| #[trigger]
                changed(s0.file@, s5.file@, pv, rs, kvv, lgv, m) by {
                assert(changed(s0.file@, s2.file@, pv, rs, kvv, lgv, m));
                lemma_changed_later(s0.file@, s2.file@, s5.file@, pv, rs, kvv, lgv, m);
            }
            lemma_on_file_extends(s3.file@, s5.file@, sb@);
            lemma_new_era(s0, s3.file@, s5.file@, kvv, lgv, sb@);
            lemma_replicated_extends(
                s0.file@,
                s2.file@,
                s3.file@,
                s5.file@,
                sb@,
                copies_wanted(s0.file),
            );
            assert(on_file(s5.file.durable@, sb@));
            assert(new_era(s0, s5.file.durable@, kvv, lgv, sb@));
            lemma_extends_refl(s5.file@);
            assert(extends(s5.file.durable@, s5.file@));
            assert(extends(s0.file@, s5.file.durable@));
            let n = s4.file@.len() as int;
            lemma_drift(s0, s3, s5);
            assert(chunks_end(s0, s5, n)) by {
                if n > s0.file@.len() {
                    let top = (n - 1) as u64;
                    let count = s4.file.slots.len();
                    assert(s4.file@.len() == count);
                    if n == s2.file@.len() {
                        assert(live(s2.file@, top));
                    }
                    assert(live(s4.file@, top));
                    assert(live(s5.file@, top));
                }
            }
            assert(hidden(s0, s5));
            assert(only_new_superblock(s0.file@, s5.file@, sb@)) by {
                assert forall|s: u64| #[trigger]
                    live(s5.file@, s) && s5.file@[s as int]->0.kind
                        == ChunkKind::Superblock implies live(s0.file@, s) || s5.file@[s as int]
                    == Some(superblock_chunk(sb@)) by {
                    assert(live(s3.file@, s));
                    assert(s5.file@[s as int] == s3.file@[s as int]);
                }
            }
        }
        Ok(seq)
    }
}

/// What has left the pool is what is no longer in it, whatever has come to it
/// from past the end.
proof fn lemma_drift(a: Space, b: Space, c: Space)
    requires
        a.wf(),
        b.state.pool@.subset_of(a.state.pool@),
        forall|x: u64| #[trigger]
            c.state.pool@.contains(x) <==> b.state.pool@.contains(x) || b.file@.len() <= x
                < c.file@.len(),
        a.file@.len() <= b.file@.len(),
    ensures
        a.state.pool@.difference(c.state.pool@).len() == a.state.pool@.len()
            - b.state.pool@.len(),
{
    let gone = a.state.pool@.difference(c.state.pool@);
    assert(gone =~= a.state.pool@.difference(b.state.pool@));
    vstd::set_lib::lemma_len_subset(b.state.pool@, a.state.pool@);
    vstd::set_lib::lemma_len_subset(gone, a.state.pool@);
    assert(gone.union(b.state.pool@) =~= a.state.pool@);
    vstd::set_lib::lemma_set_disjoint_lens(gone, b.state.pool@);
}

/// What a superblock leads to stays as the file grows.
pub proof fn lemma_new_era(
    a: Space,
    x: Image,
    y: Image,
    kv: Seq<PendingView>,
    logs: Seq<PendingLogView>,
    sb: SuperblockView,
)
    requires
        new_era(a, x, kv, logs, sb),
        extends(x, y),
    ensures
        new_era(a, y, kv, logs, sb),
{
    assert(live(x, sb.root_slot));
    let prior = a.roots()->Ok_0;
    let now = roots_at(x, sb)->Ok_0;
    assert forall|m: u8| #[trigger] changed(a.file@, y, prior, now, kv, logs, m) by {
        assert(changed(a.file@, x, prior, now, kv, logs, m));
        lemma_changed_later(a.file@, x, y, prior, now, kv, logs, m);
    }
}

/// With nothing but one superblock new after no superblock was, nothing but
/// that one is new.
pub proof fn lemma_only_new(a: Image, b: Image, c: Image, sb: SuperblockView)
    requires
        no_new_superblock(a, b),
        extends(b, c),
        only_new_superblock(b, c, sb),
    ensures
        only_new_superblock(a, c, sb),
{
    assert forall|s: u64| #[trigger]
        live(c, s) && c[s as int]->0.kind == ChunkKind::Superblock implies live(a, s)
        || c[s as int] == Some(superblock_chunk(sb)) by {
        if live(b, s) {
            assert(c[s as int] == b[s as int]);
        }
    }
}

/// Copies that are new are new to what came before, and stay.
pub proof fn lemma_replicated_extends(
    a: Image,
    b: Image,
    c: Image,
    d: Image,
    sb: SuperblockView,
    n: int,
)
    requires
        extends(a, b),
        replicated(b, c, sb, n),
        extends(c, d),
    ensures
        replicated(a, d, sb, n),
{
    let v = choose|v: Seq<u64>| #[trigger] copies(b, c, sb, v) && v.len() == n;
    assert forall|i: int| 0 <= i < v.len() implies !live(a, #[trigger] v[i]) && live(d, v[i])
        && d[v[i] as int] == Some(superblock_chunk(sb)) by {
        assert(live(c, v[i]));
    }
    assert(copies(a, d, sb, v));
}

/// A superblock on file stays there as the file grows.
pub proof fn lemma_on_file_extends(a: Image, b: Image, sb: SuperblockView)
    requires
        on_file(a, sb),
        extends(a, b),
    ensures
        on_file(b, sb),
{
    let slot = choose|slot: u64| #[trigger]
        live(a, slot) && a[slot as int] == Some(superblock_chunk(sb));
    assert(live(b, slot));
}

} // verus!
