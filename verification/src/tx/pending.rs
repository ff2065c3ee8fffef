//! What a transaction has buffered.

use vstd::prelude::*;

use crate::bytes::copy_of;
use crate::space::log::{last_with_id, records_view, RecordView};
use crate::space::model::OpView;
use crate::space::tree::{op_legal, op_on, KeyOps};
use crate::wipe::zeroize_bytes;

verus! {

/// One operation on a key.
pub enum KvOp {
    Put { key: Vec<u8>, value: Vec<u8> },
    Delete { key: Vec<u8> },
}

/// An operation, with its bytes as sequences; `None` deletes.
pub open spec fn kv_view(op: KvOp) -> OpView {
    match op {
        KvOp::Put { key, value } => (key@, Some(value@)),
        KvOp::Delete { key } => (key@, None),
    }
}

/// Operations, with their bytes as sequences.
pub open spec fn kvs_view(v: Seq<KvOp>) -> Seq<OpView> {
    Seq::new(v.len(), |i: int| kv_view(v[i]))
}

/// How the operations on a namespace came to be addressed.
#[derive(Debug, Clone, Copy, PartialEq, Eq, Structural)]
pub enum KvOrigin {
    /// By key, by the user.
    ByKey,
    /// By record number, by the user.
    ByLog,
    /// By erasing the whole namespace, of whatever kind.
    Erase,
}

/// The operations buffered for one namespace.
pub struct PendingNs {
    pub ns: u8,
    pub origin: KvOrigin,
    pub ops: Vec<KvOp>,
}

/// The records buffered for one namespace.
pub struct PendingLogNs {
    pub ns: u8,
    pub records: Vec<(u64, Vec<u8>)>,
}

/// The operations buffered for one namespace, as sequences.
pub struct PendingView {
    pub ns: u8,
    pub origin: KvOrigin,
    pub ops: Seq<OpView>,
}

/// The records buffered for one namespace, as sequences.
pub struct PendingLogView {
    pub ns: u8,
    pub records: Seq<RecordView>,
}

impl View for PendingNs {
    type V = PendingView;

    open spec fn view(&self) -> PendingView {
        PendingView { ns: self.ns, origin: self.origin, ops: kvs_view(self.ops@) }
    }
}

impl View for PendingLogNs {
    type V = PendingLogView;

    open spec fn view(&self) -> PendingLogView {
        PendingLogView { ns: self.ns, records: records_view(self.records@) }
    }
}

/// Buffered operations, as sequences.
pub open spec fn pendings_view(v: Seq<PendingNs>) -> Seq<PendingView> {
    Seq::new(v.len(), |i: int| v[i]@)
}

/// Buffered records, as sequences.
pub open spec fn pending_logs_view(v: Seq<PendingLogNs>) -> Seq<PendingLogView> {
    Seq::new(v.len(), |i: int| v[i]@)
}

/// By rising namespace, with legal operations only.
pub open spec fn pendings_wf(v: Seq<PendingView>) -> bool {
    &&& forall|i: int, j: int|
        0 <= i < j < v.len() ==> (#[trigger] v[i]).ns < (#[trigger] v[j]).ns
    &&& forall|i: int| 0 <= i < v.len() ==> all_ops_legal((#[trigger] v[i]).ops)
}

/// Every operation is legal.
pub open spec fn all_ops_legal(ops: Seq<OpView>) -> bool {
    forall|i: int| 0 <= i < ops.len() ==> op_legal(#[trigger] ops[i])
}

/// By rising namespace.
pub open spec fn pending_logs_wf(v: Seq<PendingLogView>) -> bool {
    forall|i: int, j: int| 0 <= i < j < v.len() ==> (#[trigger] v[i]).ns < (#[trigger] v[j]).ns
}

/// The operations buffered for a namespace, if any were.
pub open spec fn pending_of(v: Seq<PendingView>, ns: u8) -> Option<PendingView>
    decreases v.len(),
{
    if v.len() == 0 {
        None
    } else if v.last().ns == ns {
        Some(v.last())
    } else {
        pending_of(v.drop_last(), ns)
    }
}

/// The records buffered for a namespace, if any were.
pub open spec fn pending_log_of(v: Seq<PendingLogView>, ns: u8) -> Option<PendingLogView>
    decreases v.len(),
{
    if v.len() == 0 {
        None
    } else if v.last().ns == ns {
        Some(v.last())
    } else {
        pending_log_of(v.drop_last(), ns)
    }
}

/// What stands at a place is what is buffered for its namespace.
pub proof fn lemma_pending_at(v: Seq<PendingView>, i: int)
    requires
        pendings_wf(v),
        0 <= i < v.len(),
    ensures
        pending_of(v, v[i].ns) == Some(v[i]),
    decreases v.len(),
{
    if i < v.len() - 1 {
        let init = v.drop_last();
        assert(v[i].ns < v[v.len() - 1].ns);
        assert forall|a: int, b: int| 0 <= a < b < init.len() implies (#[trigger] init[a]).ns < (
        #[trigger] init[b]).ns by {
            assert(init[a] == v[a] && init[b] == v[b]);
        }
        assert forall|a: int| 0 <= a < init.len() implies all_ops_legal(
            (#[trigger] init[a]).ops,
        ) by {
            assert(init[a] == v[a]);
        }
        assert(init[i] == v[i]);
        lemma_pending_at(init, i);
    }
}

/// What is buffered for a namespace stands somewhere.
pub proof fn lemma_pending_of(v: Seq<PendingView>, ns: u8)
    ensures
        match pending_of(v, ns) {
            Some(p) => exists|i: int| 0 <= i < v.len() && (#[trigger] v[i]) == p && p.ns == ns,
            None => forall|i: int| 0 <= i < v.len() ==> (#[trigger] v[i]).ns != ns,
        },
    decreases v.len(),
{
    if v.len() > 0 {
        let init = v.drop_last();
        if v.last().ns == ns {
            assert(v[v.len() - 1] == v.last());
        } else {
            lemma_pending_of(init, ns);
            match pending_of(init, ns) {
                Some(p) => {
                    let i = choose|i: int| 0 <= i < init.len() && (#[trigger] init[i]) == p;
                    assert(v[i] == p);
                },
                None => {
                    assert forall|i: int| 0 <= i < v.len() implies (#[trigger] v[i]).ns != ns by {
                        if i < init.len() {
                            assert(init[i] == v[i]);
                        }
                    }
                },
            }
        }
    }
}

/// What stands at a place is what is buffered for its namespace.
pub proof fn lemma_pending_log_at(v: Seq<PendingLogView>, i: int)
    requires
        pending_logs_wf(v),
        0 <= i < v.len(),
    ensures
        pending_log_of(v, v[i].ns) == Some(v[i]),
    decreases v.len(),
{
    if i < v.len() - 1 {
        let init = v.drop_last();
        assert(v[i].ns < v[v.len() - 1].ns);
        assert forall|a: int, b: int| 0 <= a < b < init.len() implies (#[trigger] init[a]).ns < (
        #[trigger] init[b]).ns by {
            assert(init[a] == v[a] && init[b] == v[b]);
        }
        assert(init[i] == v[i]);
        lemma_pending_log_at(init, i);
    }
}

/// What is buffered for a namespace stands somewhere.
pub proof fn lemma_pending_log_of(v: Seq<PendingLogView>, ns: u8)
    ensures
        match pending_log_of(v, ns) {
            Some(p) => exists|i: int| 0 <= i < v.len() && (#[trigger] v[i]) == p && p.ns == ns,
            None => forall|i: int| 0 <= i < v.len() ==> (#[trigger] v[i]).ns != ns,
        },
    decreases v.len(),
{
    if v.len() > 0 {
        let init = v.drop_last();
        if v.last().ns == ns {
            assert(v[v.len() - 1] == v.last());
        } else {
            lemma_pending_log_of(init, ns);
            match pending_log_of(init, ns) {
                Some(p) => {
                    let i = choose|i: int| 0 <= i < init.len() && (#[trigger] init[i]) == p;
                    assert(v[i] == p);
                },
                None => {
                    assert forall|i: int| 0 <= i < v.len() implies (#[trigger] v[i]).ns != ns by {
                        if i < init.len() {
                            assert(init[i] == v[i]);
                        }
                    }
                },
            }
        }
    }
}

/// What the last operation on `key` makes of it: `None` where none is on it.
pub open spec fn last_op(ops: Seq<OpView>, key: Seq<u8>) -> Option<Option<Seq<u8>>>
    decreases ops.len(),
{
    if ops.len() == 0 {
        None
    } else if ops.last().0 == key {
        Some(ops.last().1)
    } else {
        last_op(ops.drop_last(), key)
    }
}

/// Collapses operations to one per key: the last on each.
pub fn collapse(ops: &Vec<KvOp>) -> (r: KeyOps)
    requires
        all_ops_legal(kvs_view(ops@)),
    ensures
        r.wf(),
        forall|k: Seq<u8>| #[trigger] op_on(r@, k) == last_op(kvs_view(ops@), k),
        r@.len() == 0 <==> ops@.len() == 0,
{
    let ghost ov = kvs_view(ops@);
    let mut keyed = KeyOps::new();
    let mut i: usize = 0;
    assert(ov.take(0) =~= Seq::<OpView>::empty());
    while i < ops.len()
        invariant
            i <= ops@.len(),
            ov == kvs_view(ops@),
            all_ops_legal(ov),
            keyed.wf(),
            forall|k: Seq<u8>| #[trigger] op_on(keyed@, k) == last_op(ov.take(i as int), k),
            i == 0 ==> keyed@.len() == 0,
            i > 0 ==> keyed@.len() > 0,
        decreases ops@.len() - i,
    {
        let ghost head = ov.take(i as int);
        let ghost next = ov.take(i + 1);
        let ghost was = keyed@;
        proof {
            assert(next.drop_last() =~= head);
            assert(next.last() == ov[i as int]);
            assert(op_legal(ov[i as int]));
        }
        match &ops[i] {
            KvOp::Put { key, value } => {
                keyed.insert(copy_of(key.as_slice()), Some(copy_of(value.as_slice())));
            },
            KvOp::Delete { key } => {
                keyed.insert(copy_of(key.as_slice()), None);
            },
        }
        proof {
            assert forall|k: Seq<u8>| #[trigger] op_on(keyed@, k) == last_op(next, k) by {
                assert(op_on(was, k) == last_op(head, k));
            }
        }
        i = i + 1;
    }
    assert(ov.take(i as int) =~= ov);
    keyed
}

/// Record numbers rise strictly.
pub open spec fn ids_rise(rs: Seq<RecordView>) -> bool {
    forall|i: int, j: int| 0 <= i < j < rs.len() ==> (#[trigger] rs[i]).0 < (#[trigger] rs[j]).0
}

/// Among rising numbers the record at a place is the last with its number.
pub proof fn lemma_last_with_id_at(rs: Seq<RecordView>, i: int)
    requires
        ids_rise(rs),
        0 <= i < rs.len(),
    ensures
        last_with_id(rs, rs[i].0) == Some(rs[i].1),
    decreases rs.len(),
{
    if i < rs.len() - 1 {
        let init = rs.drop_last();
        assert(rs[i].0 < rs[rs.len() - 1].0);
        assert forall|a: int, b: int| 0 <= a < b < init.len() implies (#[trigger] init[a]).0 < (
        #[trigger] init[b]).0 by {
            assert(init[a] == rs[a] && init[b] == rs[b]);
        }
        assert(init[i] == rs[i]);
        lemma_last_with_id_at(init, i);
    }
}

/// The last record with a number stands somewhere.
pub proof fn lemma_last_with_id(rs: Seq<RecordView>, id: u64)
    ensures
        match last_with_id(rs, id) {
            Some(p) => exists|i: int| 0 <= i < rs.len() && (#[trigger] rs[i]) == (id, p),
            None => forall|i: int| 0 <= i < rs.len() ==> (#[trigger] rs[i]).0 != id,
        },
    decreases rs.len(),
{
    if rs.len() > 0 {
        let init = rs.drop_last();
        if rs.last().0 == id {
            assert(rs[rs.len() - 1] == (id, rs.last().1));
        } else {
            lemma_last_with_id(init, id);
            match last_with_id(init, id) {
                Some(p) => {
                    let i = choose|i: int| 0 <= i < init.len() && (#[trigger] init[i]) == (id, p);
                    assert(rs[i] == (id, p));
                },
                None => {
                    assert forall|i: int| 0 <= i < rs.len() implies (#[trigger] rs[i]).0 != id by {
                        if i < init.len() {
                            assert(init[i] == rs[i]);
                        }
                    }
                },
            }
        }
    }
}

/// Puts a record among records by rising number, in place of one with the
/// same number.
fn insert_record(v: &mut Vec<(u64, Vec<u8>)>, id: u64, payload: Vec<u8>)
    requires
        ids_rise(records_view(old(v)@)),
    ensures
        ids_rise(records_view(final(v)@)),
        final(v)@.len() <= old(v)@.len() + 1,
        final(v)@.len() > 0,
        forall|k: u64| #[trigger]
            last_with_id(records_view(final(v)@), k) == if k == id {
                Some(payload@)
            } else {
                last_with_id(records_view(old(v)@), k)
            },
{
    let ghost was = records_view(v@);
    let ghost x = (id, payload@);
    let mut i: usize = 0;
    while i < v.len() && v[i].0 < id
        invariant
            was == records_view(v@),
            v@ == old(v)@,
            i <= v@.len(),
            forall|j: int| 0 <= j < i ==> (#[trigger] was[j]).0 < id,
        decreases v@.len() - i,
    {
        assert(was[i as int].0 == v@[i as int].0);
        i = i + 1;
    }
    let replace: bool = i < v.len() && v[i].0 == id;
    if replace {
        assert(was[i as int].0 == id);
        v.set(i, (id, payload));
        assert(records_view(v@) =~= was.update(i as int, x));
    } else {
        v.insert(i, (id, payload));
        assert(records_view(v@) =~= was.insert(i as int, x));
    }
    proof {
        let now = records_view(v@);
        let shift = if replace {
            0int
        } else {
            1int
        };
        if i < was.len() {
            assert(was[i as int].0 == old(v)@[i as int].0);
            assert(was[i as int].0 >= id);
        }
        assert forall|j: int| i < j < was.len() implies id < (#[trigger] was[j]).0 by {
            assert(was[i as int].0 < was[j].0);
        }
        assert forall|a: int, b: int| 0 <= a < b < now.len() implies (#[trigger] now[a]).0 < (
        #[trigger] now[b]).0 by {
            let xa = if a <= i {
                a
            } else {
                a - shift
            };
            let xb = if b <= i {
                b
            } else {
                b - shift
            };
            if a != i {
                assert(now[a] == was[xa]);
            }
            if b != i {
                assert(now[b] == was[xb]);
            }
        }
        assert forall|k: u64| #[trigger]
            last_with_id(now, k) == if k == id {
                Some(x.1)
            } else {
                last_with_id(was, k)
            } by {
            assert(now[i as int] == x);
            lemma_last_with_id_at(now, i as int);
            if k != id {
                lemma_last_with_id(was, k);
                lemma_last_with_id(now, k);
                match last_with_id(was, k) {
                    Some(p) => {
                        let j = choose|j: int| 0 <= j < was.len() && (#[trigger] was[j]) == (k, p);
                        let m = if j < i || replace {
                            j
                        } else {
                            j + 1
                        };
                        assert(now[m] == was[j]);
                        lemma_last_with_id_at(now, m);
                    },
                    None => {
                        if let Some(p) = last_with_id(now, k) {
                            let m = choose|m: int|
                                0 <= m < now.len() && (#[trigger] now[m]) == (k, p);
                            let j = if m < i || replace {
                                m
                            } else {
                                m - 1
                            };
                            assert(now[m] == was[j]);
                        }
                    },
                }
            }
        }
    }
}

/// Collapses records to one per number, by rising number: the last of each.
pub fn latest_records(records: &Vec<(u64, Vec<u8>)>) -> (r: Vec<(u64, Vec<u8>)>)
    ensures
        ids_rise(records_view(r@)),
        r@.len() <= records@.len(),
        r@.len() == 0 <==> records@.len() == 0,
        forall|id: u64| #[trigger]
            last_with_id(records_view(r@), id) == last_with_id(records_view(records@), id),
{
    let ghost rs = records_view(records@);
    let mut out: Vec<(u64, Vec<u8>)> = Vec::new();
    let mut i: usize = 0;
    proof {
        assert(rs.take(0) =~= Seq::<RecordView>::empty());
        assert(records_view(out@) =~= Seq::<RecordView>::empty());
    }
    while i < records.len()
        invariant
            i <= records@.len(),
            rs == records_view(records@),
            ids_rise(records_view(out@)),
            out@.len() <= i,
            i > 0 ==> out@.len() > 0,
            forall|id: u64| #[trigger]
                last_with_id(records_view(out@), id) == last_with_id(rs.take(i as int), id),
        decreases records@.len() - i,
    {
        let ghost head = rs.take(i as int);
        let ghost next = rs.take(i + 1);
        let ghost was = records_view(out@);
        proof {
            assert(next.drop_last() =~= head);
            assert(next.last() == rs[i as int]);
        }
        insert_record(&mut out, records[i].0, copy_of(records[i].1.as_slice()));
        proof {
            assert forall|id: u64| #[trigger]
                last_with_id(records_view(out@), id) == last_with_id(next, id) by {
                assert(last_with_id(was, id) == last_with_id(head, id));
            }
        }
        i = i + 1;
    }
    assert(rs.take(i as int) =~= rs);
    out
}

/// `w` is `v` with one more operation buffered for a namespace. How its
/// operations are addressed is settled by the first.
pub open spec fn with_op(
    v: Seq<PendingView>,
    w: Seq<PendingView>,
    ns: u8,
    origin: KvOrigin,
    op: OpView,
) -> bool {
    forall|m: u8| #[trigger]
        pending_of(w, m) == if m == ns {
            match pending_of(v, ns) {
                Some(p) => Some(PendingView { ops: p.ops.push(op), ..p }),
                None => Some(PendingView { ns, origin, ops: seq![op] }),
            }
        } else {
            pending_of(v, m)
        }
}

/// `w` is `v` with one more record buffered for a namespace.
pub open spec fn with_record(
    v: Seq<PendingLogView>,
    w: Seq<PendingLogView>,
    ns: u8,
    rec: RecordView,
) -> bool {
    forall|m: u8| #[trigger]
        pending_log_of(w, m) == if m == ns {
            match pending_log_of(v, ns) {
                Some(p) => Some(PendingLogView { records: p.records.push(rec), ..p }),
                None => Some(PendingLogView { ns, records: seq![rec] }),
            }
        } else {
            pending_log_of(v, m)
        }
}

/// Something put in its place, or in place of what has its namespace.
proof fn lemma_pending_placed(v: Seq<PendingView>, w: Seq<PendingView>, i: int, fresh: bool)
    requires
        pendings_wf(v),
        pendings_wf(w),
        0 <= i < w.len(),
        fresh ==> w == v.insert(i, w[i]) && 0 <= i <= v.len(),
        !fresh ==> w == v.update(i, w[i]) && 0 <= i < v.len() && v[i].ns == w[i].ns,
    ensures
        forall|m: u8| #[trigger]
            pending_of(w, m) == if m == w[i].ns {
                Some(w[i])
            } else {
                pending_of(v, m)
            },
        fresh ==> pending_of(v, w[i].ns) is None,
        !fresh ==> pending_of(v, w[i].ns) == Some(v[i]),
{
    let shift = if fresh {
        1int
    } else {
        0int
    };
    assert forall|m: u8| #[trigger]
        pending_of(w, m) == if m == w[i].ns {
            Some(w[i])
        } else {
            pending_of(v, m)
        } by {
        lemma_pending_at(w, i);
        if m != w[i].ns {
            lemma_pending_of(v, m);
            lemma_pending_of(w, m);
            if let Some(p) = pending_of(v, m) {
                let j = choose|j: int| 0 <= j < v.len() && (#[trigger] v[j]) == p;
                let k = if j < i {
                    j
                } else {
                    j + shift
                };
                assert(w[k] == v[j]);
                lemma_pending_at(w, k);
            } else if let Some(p) = pending_of(w, m) {
                let k = choose|k: int| 0 <= k < w.len() && (#[trigger] w[k]) == p;
                let j = if k < i {
                    k
                } else {
                    k - shift
                };
                assert(w[k] == v[j]);
            }
        }
    }
    if fresh {
        lemma_pending_of(v, w[i].ns);
        if let Some(p) = pending_of(v, w[i].ns) {
            let j = choose|j: int| 0 <= j < v.len() && (#[trigger] v[j]) == p;
            if j < i {
                assert(w[j] == v[j]);
                assert(w[j].ns < w[i].ns);
            } else {
                assert(w[j + 1] == v[j]);
                assert(w[i].ns < w[j + 1].ns);
            }
        }
    } else {
        lemma_pending_at(v, i);
    }
}

/// Something put in its place, or in place of what has its namespace.
proof fn lemma_pending_log_placed(
    v: Seq<PendingLogView>,
    w: Seq<PendingLogView>,
    i: int,
    fresh: bool,
)
    requires
        pending_logs_wf(v),
        pending_logs_wf(w),
        0 <= i < w.len(),
        fresh ==> w == v.insert(i, w[i]) && 0 <= i <= v.len(),
        !fresh ==> w == v.update(i, w[i]) && 0 <= i < v.len() && v[i].ns == w[i].ns,
    ensures
        forall|m: u8| #[trigger]
            pending_log_of(w, m) == if m == w[i].ns {
                Some(w[i])
            } else {
                pending_log_of(v, m)
            },
        fresh ==> pending_log_of(v, w[i].ns) is None,
        !fresh ==> pending_log_of(v, w[i].ns) == Some(v[i]),
{
    let shift = if fresh {
        1int
    } else {
        0int
    };
    assert forall|m: u8| #[trigger]
        pending_log_of(w, m) == if m == w[i].ns {
            Some(w[i])
        } else {
            pending_log_of(v, m)
        } by {
        lemma_pending_log_at(w, i);
        if m != w[i].ns {
            lemma_pending_log_of(v, m);
            lemma_pending_log_of(w, m);
            if let Some(p) = pending_log_of(v, m) {
                let j = choose|j: int| 0 <= j < v.len() && (#[trigger] v[j]) == p;
                let k = if j < i {
                    j
                } else {
                    j + shift
                };
                assert(w[k] == v[j]);
                lemma_pending_log_at(w, k);
            } else if let Some(p) = pending_log_of(w, m) {
                let k = choose|k: int| 0 <= k < w.len() && (#[trigger] w[k]) == p;
                let j = if k < i {
                    k
                } else {
                    k - shift
                };
                assert(w[k] == v[j]);
            }
        }
    }
    if fresh {
        lemma_pending_log_of(v, w[i].ns);
        if let Some(p) = pending_log_of(v, w[i].ns) {
            let j = choose|j: int| 0 <= j < v.len() && (#[trigger] v[j]) == p;
            if j < i {
                assert(w[j] == v[j]);
                assert(w[j].ns < w[i].ns);
            } else {
                assert(w[j + 1] == v[j]);
                assert(w[i].ns < w[j + 1].ns);
            }
        }
    } else {
        lemma_pending_log_at(v, i);
    }
}

/// Buffers an operation.
pub fn buffer_op(v: &mut Vec<PendingNs>, ns: u8, origin: KvOrigin, op: KvOp)
    requires
        pendings_wf(pendings_view(old(v)@)),
        op_legal(kv_view(op)),
    ensures
        pendings_wf(pendings_view(final(v)@)),
        with_op(pendings_view(old(v)@), pendings_view(final(v)@), ns, origin, kv_view(op)),
{
    let ghost was = pendings_view(v@);
    let ghost ov = kv_view(op);
    let mut i: usize = 0;
    while i < v.len() && v[i].ns < ns
        invariant
            v@ == old(v)@,
            was == pendings_view(v@),
            i <= v@.len(),
            forall|j: int| 0 <= j < i ==> (#[trigger] was[j]).ns < ns,
        decreases v@.len() - i,
    {
        assert(was[i as int].ns == v@[i as int].ns);
        i = i + 1;
    }
    proof {
        assert forall|j: int| i <= j < was.len() implies (#[trigger] was[j]).ns >= ns by {
            assert(was[i as int].ns == v@[i as int].ns);
            assert(was[i as int].ns >= ns);
            if j > i {
                assert(was[i as int].ns < was[j].ns);
            }
        }
    }
    let fresh: bool = !(i < v.len() && v[i].ns == ns);
    let mut slot = if fresh {
        PendingNs { ns, origin, ops: Vec::new() }
    } else {
        v.remove(i)
    };
    let ghost had = slot@;
    slot.ops.push(op);
    proof {
        assert(slot@.ops =~= had.ops.push(ov));
        if fresh {
            assert(slot@.ops =~= seq![ov]);
        } else {
            assert(had == was[i as int]);
            assert(all_ops_legal(was[i as int].ops));
        }
    }
    let ghost x = slot@;
    v.insert(i, slot);
    proof {
        let now = pendings_view(v@);
        if fresh {
            assert(now =~= was.insert(i as int, x));
        } else {
            assert(now =~= was.update(i as int, x));
        }
        assert(now[i as int] == x);
        assert(all_ops_legal(x.ops)) by {
            assert forall|j: int| 0 <= j < x.ops.len() implies op_legal(#[trigger] x.ops[j]) by {
                if j < had.ops.len() {
                    assert(x.ops[j] == had.ops[j]);
                }
            }
        }
        let shift = if fresh {
            1int
        } else {
            0int
        };
        assert forall|a: int| 0 <= a < now.len() implies (#[trigger] now[a]) == if a == i {
            x
        } else if a < i {
            was[a]
        } else {
            was[a - shift]
        } by {}
        assert forall|a: int, b: int| 0 <= a < b < now.len() implies (#[trigger] now[a]).ns < (
        #[trigger] now[b]).ns by {
            if a == i {
                if !fresh {
                    assert(was[i as int].ns < was[b].ns);
                } else {
                    assert(was[b - 1].ns >= ns);
                    assert(was[i as int].ns == old(v)@[i as int].ns);
                    if b - 1 > i {
                        assert(was[i as int].ns < was[b - 1].ns);
                    }
                }
            }
        }
        assert forall|a: int| 0 <= a < now.len() implies all_ops_legal((#[trigger] now[a]).ops) by {
            if a < i {
                assert(all_ops_legal(was[a].ops));
            } else if a > i {
                assert(all_ops_legal(was[a - shift].ops));
            }
        }
        lemma_pending_placed(was, now, i as int, fresh);
    }
}

/// Buffers a record.
pub fn buffer_record(v: &mut Vec<PendingLogNs>, ns: u8, id: u64, payload: Vec<u8>)
    requires
        pending_logs_wf(pending_logs_view(old(v)@)),
    ensures
        pending_logs_wf(pending_logs_view(final(v)@)),
        with_record(
            pending_logs_view(old(v)@),
            pending_logs_view(final(v)@),
            ns,
            (id, payload@),
        ),
{
    let ghost was = pending_logs_view(v@);
    let ghost rec = (id, payload@);
    let mut i: usize = 0;
    while i < v.len() && v[i].ns < ns
        invariant
            v@ == old(v)@,
            was == pending_logs_view(v@),
            i <= v@.len(),
            forall|j: int| 0 <= j < i ==> (#[trigger] was[j]).ns < ns,
        decreases v@.len() - i,
    {
        assert(was[i as int].ns == v@[i as int].ns);
        i = i + 1;
    }
    proof {
        assert forall|j: int| i <= j < was.len() implies (#[trigger] was[j]).ns >= ns by {
            assert(was[i as int].ns == v@[i as int].ns);
            assert(was[i as int].ns >= ns);
            if j > i {
                assert(was[i as int].ns < was[j].ns);
            }
        }
    }
    let fresh: bool = !(i < v.len() && v[i].ns == ns);
    let mut slot = if fresh {
        PendingLogNs { ns, records: Vec::new() }
    } else {
        v.remove(i)
    };
    let ghost had = slot@;
    slot.records.push((id, payload));
    proof {
        assert(slot@.records =~= had.records.push(rec));
        if fresh {
            assert(slot@.records =~= seq![rec]);
        } else {
            assert(had == was[i as int]);
        }
    }
    let ghost x = slot@;
    v.insert(i, slot);
    proof {
        let now = pending_logs_view(v@);
        if fresh {
            assert(now =~= was.insert(i as int, x));
        } else {
            assert(now =~= was.update(i as int, x));
        }
        assert(now[i as int] == x);
        let shift = if fresh {
            1int
        } else {
            0int
        };
        assert forall|a: int| 0 <= a < now.len() implies (#[trigger] now[a]) == if a == i {
            x
        } else if a < i {
            was[a]
        } else {
            was[a - shift]
        } by {}
        assert forall|a: int, b: int| 0 <= a < b < now.len() implies (#[trigger] now[a]).ns < (
        #[trigger] now[b]).ns by {
            if a == i {
                if !fresh {
                    assert(was[i as int].ns < was[b].ns);
                } else {
                    assert(was[b - 1].ns >= ns);
                    assert(was[i as int].ns == old(v)@[i as int].ns);
                    if b - 1 > i {
                        assert(was[i as int].ns < was[b - 1].ns);
                    }
                }
            }
        }
        lemma_pending_log_placed(was, now, i as int, fresh);
    }
}

/// An operation with nothing left of its key and its value.
pub open spec fn wiped_op(op: KvOp) -> bool {
    kv_view(op).0.len() == 0 && (kv_view(op).1 matches Some(x) ==> x.len() == 0)
}

/// Clears every key and value of buffered operations.
pub fn wipe_ops(v: &mut Vec<PendingNs>)
    ensures
        final(v)@.len() == old(v)@.len(),
        forall|i: int, j: int|
            0 <= i < final(v)@.len() && 0 <= j < final(v)@[i].ops@.len() ==> wiped_op(
                #[trigger] final(v)@[i].ops@[j],
            ),
{
    let mut i: usize = 0;
    while i < v.len()
        invariant
            i <= v@.len(),
            v@.len() == old(v)@.len(),
            forall|k: int, j: int|
                0 <= k < i && 0 <= j < v@[k].ops@.len() ==> wiped_op(#[trigger] v@[k].ops@[j]),
        decreases v@.len() - i,
    {
        wipe_kv(&mut v[i].ops);
        i = i + 1;
    }
}

fn wipe_kv(ops: &mut Vec<KvOp>)
    ensures
        final(ops)@.len() == old(ops)@.len(),
        forall|j: int| 0 <= j < final(ops)@.len() ==> wiped_op(#[trigger] final(ops)@[j]),
{
    let mut j: usize = 0;
    while j < ops.len()
        invariant
            j <= ops@.len(),
            ops@.len() == old(ops)@.len(),
            forall|k: int| 0 <= k < j ==> wiped_op(#[trigger] ops@[k]),
        decreases ops@.len() - j,
    {
        match &mut ops[j] {
            KvOp::Put { key, value } => {
                zeroize_bytes(key);
                zeroize_bytes(value);
            },
            KvOp::Delete { key } => {
                zeroize_bytes(key);
            },
        }
        j = j + 1;
    }
}

/// Clears every payload of buffered records.
pub fn wipe_records(v: &mut Vec<PendingLogNs>)
    ensures
        final(v)@.len() == old(v)@.len(),
        forall|i: int, j: int|
            0 <= i < final(v)@.len() && 0 <= j < final(v)@[i].records@.len() ==> (
            #[trigger] final(v)@[i].records@[j]).1@.len() == 0,
{
    let mut i: usize = 0;
    while i < v.len()
        invariant
            i <= v@.len(),
            v@.len() == old(v)@.len(),
            forall|k: int, j: int|
                0 <= k < i && 0 <= j < v@[k].records@.len() ==> (
                #[trigger] v@[k].records@[j]).1@.len() == 0,
        decreases v@.len() - i,
    {
        wipe_payloads(&mut v[i].records);
        i = i + 1;
    }
}

fn wipe_payloads(records: &mut Vec<(u64, Vec<u8>)>)
    ensures
        final(records)@.len() == old(records)@.len(),
        forall|j: int| 0 <= j < final(records)@.len() ==> (#[trigger] final(records)@[j]).1@.len() == 0,
{
    let mut j: usize = 0;
    while j < records.len()
        invariant
            j <= records@.len(),
            records@.len() == old(records)@.len(),
            forall|k: int| 0 <= k < j ==> (#[trigger] records@[k]).1@.len() == 0,
        decreases records@.len() - j,
    {
        zeroize_bytes(&mut records[j].1);
        j = j + 1;
    }
}

} // verus!
