//! What a slot is read as: a chunk, a node, a commit's roots, a record, a link of
//! a checkpoint; and how the first or the last of several is found.

use vstd::prelude::*;

use crate::chunk::{ChunkKind, Plaintext, PlaintextView};
use crate::container::{chunk_at, image_of, Image};
use crate::error::Error;
use crate::space::chain::link_at;
use crate::space::checkpoint::{checkpoint_decode, CheckpointView};
use crate::space::index::{
    children_view, lookup, node_decode, ChildPointer, EntryView, Namespace, NodeView,
};
use crate::space::laws::{got, listed};
use crate::space::log::{
    batch_decode, last_with_id, log_id_of_key, slot_of_value, RecordView,
};
use crate::space::log_iter::{
    batch_at, log_page, log_root, log_value, record_at, record_of, records_of,
};
use crate::space::model::OpView;
use crate::space::reads::QueryView;
use crate::space::superblock::SuperblockView;
use crate::space::tree::op_on;
use crate::space::{any_node_at, node_at, root_of, roots_at, Space};
use crate::tx::commit::{commit_decode, roots_view, IndexRoot, NamespaceKind, RootView};
use crate::tx::pending::{
    kvs_view, last_op, pending_log_of, pending_logs_view, pending_of, pendings_view, KvOp,
    PendingLogNs, PendingLogView, PendingNs, PendingView,
};

verus! {

// ---------------------------------------------------------------------------
// Chunks
// ---------------------------------------------------------------------------

/// A slot in the file gives the chunk in it, if it opens; one that does not open
/// is not authentic, and one past the end is an error of its own.
pub proof fn law_what_a_slot_gives(img: Image, slot: u64)
    ensures
        slot < img.len() && img[slot as int] is Some ==> chunk_at(img, slot) == Ok::<
            PlaintextView,
            Error,
        >(img[slot as int]->0),
        slot < img.len() && img[slot as int] is None ==> chunk_at(img, slot) == Err::<
            PlaintextView,
            Error,
        >(Error::AuthFailed),
        slot >= img.len() ==> chunk_at(img, slot) is Err && chunk_at(img, slot)->Err_0 is Io,
{
}

/// What was written to a slot, or put after the last, is what the slot gives; a
/// slot that was overwritten with noise gives nothing; and no other slot gives
/// anything else than it did.
pub proof fn law_what_is_written_is_given(img: Image, slot: u64, p: PlaintextView, other: u64)
    requires
        img.len() < u64::MAX,
    ensures
        slot < img.len() ==> chunk_at(img.update(slot as int, Some(p)), slot) == Ok::<
            PlaintextView,
            Error,
        >(p),
        slot < img.len() ==> chunk_at(img.update(slot as int, None), slot) is Err,
        slot < img.len() && other != slot ==> chunk_at(img.update(slot as int, Some(p)), other)
            == chunk_at(img, other),
        chunk_at(img.push(Some(p)), img.len() as u64) == Ok::<PlaintextView, Error>(p),
        other < img.len() ==> chunk_at(img.push(Some(p)), other) == chunk_at(img, other),
{
}

/// The image of a file has a place for each of its slots, and in it the chunk
/// that is in the slot, if one is.
pub proof fn law_images_stand_for_files(slots: Seq<Option<Plaintext>>, i: int)
    ensures
        image_of(slots).len() == slots.len(),
        0 <= i < slots.len() && slots[i] is None ==> image_of(slots)[i] is None,
        0 <= i < slots.len() && slots[i] is Some ==> image_of(slots)[i] == Some(
            PlaintextView {
                kind: slots[i]->0.kind,
                seq: slots[i]->0.seq,
                payload: slots[i]->0.payload@,
            },
        ),
{
}

// ---------------------------------------------------------------------------
// Nodes and roots
// ---------------------------------------------------------------------------

/// A slot is read as a node of a namespace where its chunk opens, is an index
/// node, decodes, and names that namespace; and nowhere else.
pub proof fn law_which_nodes_are_read(img: Image, slot: u64, ns: Namespace, n: NodeView)
    ensures
        any_node_at(img, slot) == Ok::<NodeView, Error>(n) <==> slot < img.len()
            && img[slot as int] is Some && img[slot as int]->0.kind == ChunkKind::IndexNode
            && node_decode(img[slot as int]->0.payload) == Ok::<NodeView, Error>(n),
        node_at(img, slot, ns) == Ok::<NodeView, Error>(n) <==> any_node_at(img, slot) == Ok::<
            NodeView,
            Error,
        >(n) && (match n {
            NodeView::Leaf(l) => l.namespace,
            NodeView::Internal(k) => k.namespace,
        }) == ns,
{
}

/// The roots are those of the commit record that the superblock leads to: its
/// chunk opens, is a commit record and decodes. Where there was no commit yet
/// there are none.
pub proof fn law_which_roots_are_read(img: Image, sb: SuperblockView, rs: Seq<RootView>)
    ensures
        sb.root_slot == 0xffff_ffff_ffff_ffff ==> roots_at(img, sb) == Ok::<Seq<RootView>, Error>(
            Seq::empty(),
        ),
        sb.root_slot != 0xffff_ffff_ffff_ffff ==> (roots_at(img, sb) == Ok::<
            Seq<RootView>,
            Error,
        >(rs) <==> sb.root_slot < img.len() && img[sb.root_slot as int] is Some
            && img[sb.root_slot as int]->0.kind == ChunkKind::Commit && (commit_decode(
            img[sb.root_slot as int]->0.payload,
        ) matches Ok(c) && c.roots == rs)),
{
}

/// The root of a namespace is the first that names it; there is none where none
/// names it.
pub proof fn law_which_root_is_found(rs: Seq<RootView>, ns: Namespace)
    ensures
        match root_of(rs, ns) {
            None => forall|i: int| 0 <= i < rs.len() ==> (#[trigger] rs[i]).namespace != ns,
            Some(r) => r.namespace == ns && exists|i: int|
                0 <= i < rs.len() && #[trigger] rs[i] == r && forall|j: int|
                    0 <= j < i ==> (#[trigger] rs[j]).namespace != ns,
        },
    decreases rs.len(),
{
    if rs.len() > 0 {
        let rest = rs.drop_first();
        law_which_root_is_found(rest, ns);
        if rs[0].namespace != ns {
            if let Some(r) = root_of(rest, ns) {
                let i = choose|i: int|
                    0 <= i < rest.len() && #[trigger] rest[i] == r && forall|j: int|
                        0 <= j < i ==> (#[trigger] rest[j]).namespace != ns;
                assert(rs[i + 1] == r);
                assert forall|j: int| 0 <= j < i + 1 implies (#[trigger] rs[j]).namespace != ns by {
                    if j > 0 {
                        assert(rest[j - 1] == rs[j]);
                    }
                }
            } else {
                assert forall|i: int| 0 <= i < rs.len() implies (#[trigger] rs[i]).namespace
                    != ns by {
                    if i > 0 {
                        assert(rest[i - 1] == rs[i]);
                    }
                }
            }
        } else {
            assert(rs[0] == root_of(rs, ns)->0);
        }
    }
}

/// A namespace without a root holds nothing: every key is absent, and lists and
/// logs are empty.
pub proof fn law_unknown_namespace_is_empty(
    s: Space,
    ns: Namespace,
    key: Seq<u8>,
    id: u64,
    q: QueryView,
    back: bool,
)
    requires
        s.roots() is Ok,
        forall|i: int|
            0 <= i < s.roots()->Ok_0.len() ==> (#[trigger] s.roots()->Ok_0[i]).namespace != ns,
    ensures
        got(s, ns, key) == Ok::<Option<Seq<u8>>, Error>(None),
        listed(s, ns) == Ok::<Seq<EntryView>, Error>(Seq::empty()),
        log_value(s.file@, s.state.superblock@, s.walk_now(), ns, id) == Ok::<
            Option<Seq<u8>>,
            Error,
        >(None),
        log_page(s.file@, s.state.superblock@, s.walk_now(), ns, q, back) == Ok::<
            Seq<RecordView>,
            Error,
        >(Seq::empty()),
{
    law_which_root_is_found(s.roots()->Ok_0, ns);
}

// ---------------------------------------------------------------------------
// Records
// ---------------------------------------------------------------------------

/// A slot is read as a batch where its chunk opens, is a batch and decodes. A
/// pointer to a chunk of another kind is no pointer of a log.
pub proof fn law_which_batches_are_read(img: Image, slot: u64, rs: Seq<RecordView>)
    ensures
        batch_at(img, slot) == Ok::<Seq<RecordView>, Error>(rs) <==> slot < img.len()
            && img[slot as int] is Some && img[slot as int]->0.kind == ChunkKind::DataBatch
            && batch_decode(img[slot as int]->0.payload) == Ok::<Seq<RecordView>, Error>(rs),
        slot < img.len() && img[slot as int] is Some && img[slot as int]->0.kind
            != ChunkKind::DataBatch ==> batch_at(img, slot) is Err && batch_at(img, slot)->Err_0
            is WrongNamespaceKind,
{
}

/// The record that an entry of a log is about is in the batch that the entry
/// points at, under the number that the entry's key is; and where it is not
/// there, that is an error and no answer.
pub proof fn law_where_a_record_is(img: Image, e: EntryView, id: u64, payload: Seq<u8>)
    ensures
        record_of(img, e) == Ok::<RecordView, Error>((id, payload)) <==> log_id_of_key(e.0)
            == Ok::<u64, Error>(id) && record_at(img, e.1, id) == Ok::<Seq<u8>, Error>(payload),
        record_at(img, e.1, id) == Ok::<Seq<u8>, Error>(payload) <==> (slot_of_value(
            e.1,
        ) matches Ok(slot) && (batch_at(img, slot) matches Ok(rs) && last_with_id(rs, id) == Some(
            payload,
        ))),
{
}

/// The records of entries are the records that each is about, in their order;
/// they are given where each of them is there.
pub proof fn law_records_stand_for_entries(img: Image, es: Seq<EntryView>, rs: Seq<RecordView>)
    ensures
        records_of(img, es) == Ok::<Seq<RecordView>, Error>(rs) <==> rs.len() == es.len()
            && forall|i: int|
            0 <= i < es.len() ==> record_of(img, #[trigger] es[i]) == Ok::<RecordView, Error>(
                rs[i],
            ),
    decreases es.len(),
{
    if es.len() == 0 {
        assert(rs.len() == 0 ==> rs =~= Seq::<RecordView>::empty());
    } else if rs.len() == 0 {
        if let Ok(v) = records_of(img, es.drop_last()) {
            if let Ok(r) = record_of(img, es.last()) {
                assert(v.push(r).len() > 0);
            }
        }
    } else {
        let init = es.drop_last();
        law_records_stand_for_entries(img, init, rs.drop_last());
        if records_of(img, es) == Ok::<Seq<RecordView>, Error>(rs) {
            let v = records_of(img, init)->Ok_0;
            let r = record_of(img, es.last())->Ok_0;
            assert(rs == v.push(r));
            assert(rs.drop_last() =~= v);
            assert forall|i: int| 0 <= i < es.len() implies record_of(img, #[trigger] es[i])
                == Ok::<RecordView, Error>(rs[i]) by {
                if i < es.len() - 1 {
                    assert(init[i] == es[i]);
                }
            }
        }
        if rs.len() == es.len() && forall|i: int|
            0 <= i < es.len() ==> record_of(img, #[trigger] es[i]) == Ok::<RecordView, Error>(
                rs[i],
            ) {
            assert forall|i: int| 0 <= i < init.len() implies record_of(img, #[trigger] init[i])
                == Ok::<RecordView, Error>(rs.drop_last()[i]) by {
                assert(es[i] == init[i]);
            }
            assert(record_of(img, es[es.len() - 1]) == Ok::<RecordView, Error>(
                rs[es.len() - 1],
            ));
            assert(rs =~= rs.drop_last().push(rs.last()));
        }
    }
}

/// A log is read from the root of its namespace, if the root says that it is a
/// log; a namespace that is none is refused.
pub proof fn law_which_logs_are_read(img: Image, sb: SuperblockView, ns: Namespace)
    requires
        roots_at(img, sb) is Ok,
    ensures
        match root_of(roots_at(img, sb)->Ok_0, ns) {
            None => log_root(img, sb, ns) == Ok::<Option<u64>, Error>(None),
            Some(r) => match r.kind {
                NamespaceKind::Log => log_root(img, sb, ns) == Ok::<Option<u64>, Error>(
                    Some(r.index_slot),
                ),
                NamespaceKind::Kv => log_root(img, sb, ns) is Err && log_root(img, sb, ns)->Err_0
                    is WrongNamespaceKind,
            },
        },
{
}

/// A slot is read as a link where its chunk opens, is a link and decodes; and
/// nowhere else.
pub proof fn law_which_links_are_read(img: Image, slot: u64, c: CheckpointView)
    ensures
        link_at(img, slot) == Some(c) <==> slot < img.len() && img[slot as int] is Some
            && img[slot as int]->0.kind == ChunkKind::Checkpoint && checkpoint_decode(
            img[slot as int]->0.payload,
        ) == Ok::<CheckpointView, Error>(c),
{
}

// ---------------------------------------------------------------------------
// The last of several
// ---------------------------------------------------------------------------

/// A later entry, operation or record on a key comes before an earlier one, and
/// what is on another key does not matter.
pub proof fn law_the_last_counts(
    es: Seq<EntryView>,
    e: EntryView,
    ops: Seq<OpView>,
    op: OpView,
    key: Seq<u8>,
)
    ensures
        lookup(Seq::<EntryView>::empty(), key) is None,
        lookup(es.push(e), key) == if e.0 == key {
            Some(e.1)
        } else {
            lookup(es, key)
        },
        last_op(Seq::<OpView>::empty(), key) is None,
        last_op(ops.push(op), key) == if op.0 == key {
            Some(op.1)
        } else {
            last_op(ops, key)
        },
        op_on(ops, key) == last_op(ops, key),
    decreases ops.len(),
{
    assert(es.push(e).drop_last() =~= es);
    assert(ops.push(op).drop_last() =~= ops);
    if ops.len() > 0 {
        law_the_last_counts(es, e, ops.drop_last(), op, key);
    }
}

/// What is pending for a namespace is what stands under it, where each namespace
/// stands once.
pub proof fn law_what_is_pending(
    kv: Seq<PendingView>,
    p: PendingView,
    logs: Seq<PendingLogView>,
    l: PendingLogView,
    ns: u8,
)
    ensures
        pending_of(Seq::<PendingView>::empty(), ns) is None,
        pending_of(kv.push(p), ns) == if p.ns == ns {
            Some(p)
        } else {
            pending_of(kv, ns)
        },
        pending_log_of(Seq::<PendingLogView>::empty(), ns) is None,
        pending_log_of(logs.push(l), ns) == if l.ns == ns {
            Some(l)
        } else {
            pending_log_of(logs, ns)
        },
{
    assert(kv.push(p).drop_last() =~= kv);
    assert(logs.push(l).drop_last() =~= logs);
}

// ---------------------------------------------------------------------------
// Values as they are held
// ---------------------------------------------------------------------------

/// What is held in memory stands for what is in it, place by place.
pub proof fn law_buffers_stand_for_their_bytes(
    ops: Seq<KvOp>,
    kv: Seq<PendingNs>,
    logs: Seq<PendingLogNs>,
    roots: Seq<IndexRoot>,
    children: Seq<ChildPointer>,
    i: int,
)
    ensures
        kvs_view(ops).len() == ops.len(),
        0 <= i < ops.len() ==> kvs_view(ops)[i] == (match ops[i] {
            KvOp::Put { key, value } => (key@, Some(value@)),
            KvOp::Delete { key } => (key@, None),
        }),
        pendings_view(kv).len() == kv.len(),
        0 <= i < kv.len() ==> pendings_view(kv)[i].ns == kv[i].ns && pendings_view(kv)[i].origin
            == kv[i].origin && pendings_view(kv)[i].ops == kvs_view(kv[i].ops@),
        pending_logs_view(logs).len() == logs.len(),
        0 <= i < logs.len() ==> pending_logs_view(logs)[i].ns == logs[i].ns
            && pending_logs_view(logs)[i].records.len() == logs[i].records@.len(),
        roots_view(roots).len() == roots.len(),
        0 <= i < roots.len() ==> ({
            let r = roots_view(roots)[i];
            &&& r.namespace == roots[i].namespace
            &&& r.kind == roots[i].kind
            &&& r.index_slot == roots[i].index_slot
            &&& r.payload_hash == roots[i].payload_hash@
        }),
        children_view(children).len() == children.len(),
        0 <= i < children.len() ==> ({
            let c = children_view(children)[i];
            &&& c.first_key == children[i].first_key@
            &&& c.child_slot == children[i].child_slot
            &&& c.child_hash == children[i].child_hash@
        }),
{
}

} // verus!
