//! What a transaction takes, what a commit takes, and what is read after it: told
//! by the calls and the answers alone.

use vstd::prelude::*;

use crate::container::LockMode;
use crate::error::Error;
use crate::space::commit::{
    changed, commit_refusal, involved_count, kv_clashes, log_clashes, logs_encodable,
    nothing_pending, published, ready,
};
use crate::space::index::{lemma_lookup, EntryView, Namespace};
use crate::space::laws::{
    got, holds, law_commit_then_get, law_commit_then_read_log, law_held_is_read, listed,
    within_reach,
};
use crate::space::log::RecordView;
use crate::space::log_iter::log_value;
use crate::space::model::OpView;
use crate::space::ns_laws::law_sound_committed_list;
use crate::space::order_laws::{law_orderly_is_walkable, orderly};
use crate::space::pool::sure_words;
use crate::space::{root_of, Space};
use crate::tx::commit::{NamespaceKind, RootView};
use crate::tx::pending::{
    last_op, pending_log_of, pending_of, wiped_op, with_op, with_record, KvOp, KvOrigin,
    PendingLogView, PendingView,
};
use crate::tx::{append_refusal, delete_refusal, erase_refusal, put_refusal, touched};

verus! {

// ---------------------------------------------------------------------------
// What a transaction takes
// ---------------------------------------------------------------------------

/// The namespaces that a transaction touches, or that are there already.
pub open spec fn namespaces_in(
    rs: Seq<RootView>,
    kv: Seq<PendingView>,
    logs: Seq<PendingLogView>,
) -> Set<u8> {
    Set::new(
        |m: u8|
            root_of(rs, Namespace(m)) is Some || pending_of(kv, m) is Some || pending_log_of(
                logs,
                m,
            ) is Some,
    )
}

proof fn lemma_count_below(
    rs: Seq<RootView>,
    kv: Seq<PendingView>,
    logs: Seq<PendingLogView>,
    n: nat,
)
    requires
        n <= 256,
    ensures
        namespaces_in(rs, kv, logs).filter(|m: u8| m < n).finite(),
        namespaces_in(rs, kv, logs).filter(|m: u8| m < n).len() == involved_count(
            rs,
            kv,
            logs,
            n,
        ),
    decreases n,
{
    let all = namespaces_in(rs, kv, logs);
    let now = all.filter(|m: u8| m < n);
    if n == 0 {
        assert(now =~= Set::<u8>::empty());
    } else {
        let k = (n - 1) as nat;
        lemma_count_below(rs, kv, logs, k);
        let before = all.filter(|m: u8| m < k);
        let m = k as u8;
        if all.contains(m) {
            assert(now =~= before.insert(m));
            assert(!before.contains(m));
        } else {
            assert(now =~= before);
        }
    }
}

/// Namespaces are counted once each.
proof fn lemma_count(rs: Seq<RootView>, kv: Seq<PendingView>, logs: Seq<PendingLogView>)
    ensures
        namespaces_in(rs, kv, logs).finite(),
        namespaces_in(rs, kv, logs).len() == involved_count(rs, kv, logs, 256),
{
    lemma_count_below(rs, kv, logs, 256);
    assert(namespaces_in(rs, kv, logs).filter(|m: u8| m < 256nat) =~= namespaces_in(rs, kv, logs));
}

/// There is room for the namespace in the transaction: it is touched already, or
/// fewer than 95 others are.
pub open spec fn has_place(kv: Seq<PendingView>, logs: Seq<PendingLogView>, ns: Namespace) -> bool {
    let all = namespaces_in(Seq::<RootView>::empty(), kv, logs);
    all.contains(ns.0) || all.len() < 95
}

proof fn lemma_place(kv: Seq<PendingView>, logs: Seq<PendingLogView>, ns: Namespace)
    ensures
        has_place(kv, logs, ns) <==> pending_of(kv, ns.0) is Some || pending_log_of(
            logs,
            ns.0,
        ) is Some || touched(kv, logs) < 95,
{
    let none = Seq::<RootView>::empty();
    lemma_count(none, kv, logs);
    assert(root_of(none, Namespace(ns.0)) is None);
}

/// A put is taken in any namespace but the reserved one, with a key of 1 to 256
/// bytes and a value of up to 2048, where the transaction has room for the
/// namespace and does not use it as a log; and else it is refused, and why.
pub proof fn law_which_puts_are_taken(
    kv: Seq<PendingView>,
    logs: Seq<PendingLogView>,
    ns: Namespace,
    key: Seq<u8>,
    value: Seq<u8>,
)
    ensures
        ({
            let named = ns.0 != 0;
            let keyed = 1 <= key.len() <= 256;
            let small = value.len() <= 2048;
            let room = has_place(kv, logs, ns);
            let free = pending_log_of(logs, ns.0) is None;
            let r = put_refusal(kv, logs, ns, key, value);
            &&& r is None <==> named && keyed && small && room && free
            &&& !named || !keyed ==> r is Some && r->0 is Malformed
            &&& named && keyed && !small ==> r == Some(Error::PayloadTooLarge)
            &&& named && keyed && small && !room ==> r == Some(
                Error::TooManyNamespaces { limit: 95 },
            )
            &&& named && keyed && small && room && !free ==> r is Some
                && r->0 is WrongNamespaceKind
        }),
{
    lemma_place(kv, logs, ns);
    assert((4040int - 2 - 32) / (1int + 1 + 8 + 32) == 95) by (nonlinear_arith);
}

/// A delete is taken where a put under the same key is.
pub proof fn law_which_deletes_are_taken(
    kv: Seq<PendingView>,
    logs: Seq<PendingLogView>,
    ns: Namespace,
    key: Seq<u8>,
)
    ensures
        delete_refusal(kv, logs, ns, key) == put_refusal(
            kv,
            logs,
            ns,
            key,
            Seq::<u8>::empty(),
        ),
{
}

/// A record is taken in any namespace but the reserved one, with a payload of up
/// to 8 KiB, where the transaction has room for the namespace, does not use it
/// for keys, and holds fewer than 1024 records for it; and else it is refused,
/// and why.
pub proof fn law_which_records_are_taken(
    kv: Seq<PendingView>,
    logs: Seq<PendingLogView>,
    ns: Namespace,
    payload: Seq<u8>,
)
    ensures
        ({
            let named = ns.0 != 0;
            let small = payload.len() <= 8192;
            let room = has_place(kv, logs, ns);
            let free = pending_of(kv, ns.0) is None;
            let few = pending_log_of(logs, ns.0) matches Some(p) ==> p.records.len() < 1024;
            let r = append_refusal(kv, logs, ns, payload);
            &&& r is None <==> named && small && room && free && few
            &&& !named ==> r is Some && r->0 is Malformed
            &&& named && !small ==> r == Some(Error::PayloadTooLarge)
            &&& named && small && !room ==> r == Some(Error::TooManyNamespaces { limit: 95 })
            &&& named && small && room && !free ==> r is Some && r->0 is WrongNamespaceKind
            &&& named && small && room && free && !few ==> r == Some(Error::PayloadTooLarge)
        }),
{
    lemma_place(kv, logs, ns);
    assert((4040int - 2 - 32) / (1int + 1 + 8 + 32) == 95) by (nonlinear_arith);
}

/// An erasure is taken where a delete is, and in a namespace that the transaction
/// uses as a log too: it may empty either kind.
pub proof fn law_which_erasures_are_taken(
    kv: Seq<PendingView>,
    logs: Seq<PendingLogView>,
    ns: Namespace,
    key: Seq<u8>,
)
    ensures
        ({
            let legal = ns.0 != 0 && 1 <= key.len() <= 256;
            let room = has_place(kv, logs, ns);
            let r = erase_refusal(kv, logs, ns, key);
            &&& r is None <==> legal && room
            &&& !legal ==> r is Some && r->0 is Malformed
            &&& legal && !room ==> r == Some(Error::TooManyNamespaces { limit: 95 })
        }),
{
    lemma_place(kv, logs, ns);
    assert((4040int - 2 - 32) / (1int + 1 + 8 + 32) == 95) by (nonlinear_arith);
}

/// An operation that is taken comes after those on its namespace, which stay as
/// they are; the first settles how they are addressed; and nothing changes in any
/// other namespace.
pub proof fn law_operations_are_kept_in_order(
    v: Seq<PendingView>,
    w: Seq<PendingView>,
    ns: u8,
    origin: KvOrigin,
    op: OpView,
    m: u8,
)
    requires
        with_op(v, w, ns, origin, op),
    ensures
        pending_of(w, ns) is Some,
        pending_of(w, ns)->0.ops.len() > 0,
        pending_of(w, ns)->0.ops.last() == op,
        pending_of(v, ns) is None ==> pending_of(w, ns)->0.ops.len() == 1 && pending_of(
            w,
            ns,
        )->0.origin == origin && pending_of(w, ns)->0.ns == ns,
        pending_of(v, ns) matches Some(p) ==> pending_of(w, ns)->0.ops.drop_last() == p.ops
            && pending_of(w, ns)->0.origin == p.origin && pending_of(w, ns)->0.ns == p.ns,
        m != ns ==> pending_of(w, m) == pending_of(v, m),
{
    assert(pending_of(w, m) == pending_of(w, m));
    if let Some(p) = pending_of(v, ns) {
        assert(p.ops.push(op).drop_last() =~= p.ops);
    }
    assert(pending_of(w, ns) is Some);
}

/// A record that is taken comes after those in its namespace, which stay as they
/// are; and nothing changes in any other namespace.
pub proof fn law_records_are_kept_in_order(
    v: Seq<PendingLogView>,
    w: Seq<PendingLogView>,
    ns: u8,
    rec: RecordView,
    m: u8,
)
    requires
        with_record(v, w, ns, rec),
    ensures
        pending_log_of(w, ns) is Some,
        pending_log_of(w, ns)->0.records.len() > 0,
        pending_log_of(w, ns)->0.records.last() == rec,
        pending_log_of(v, ns) is None ==> pending_log_of(w, ns)->0.records.len() == 1,
        pending_log_of(v, ns) matches Some(p) ==> pending_log_of(w, ns)->0.records.drop_last()
            == p.records,
        m != ns ==> pending_log_of(w, m) == pending_log_of(v, m),
{
    assert(pending_log_of(w, m) == pending_log_of(w, m));
    if let Some(p) = pending_log_of(v, ns) {
        assert(p.records.push(rec).drop_last() =~= p.records);
    }
    assert(pending_log_of(w, ns) is Some);
}

/// A transaction touches as many namespaces as have something buffered for them.
/// Nothing is pending where nothing is buffered for any of them, neither
/// operations nor records.
pub proof fn law_what_a_transaction_touches(
    kv: Seq<PendingView>,
    logs: Seq<PendingLogView>,
    i: int,
)
    ensures
        touched(kv, logs) == Set::<u8>::new(
            |m: u8| pending_of(kv, m) is Some || pending_log_of(logs, m) is Some,
        ).len(),
        nothing_pending(kv, logs) && 0 <= i < kv.len() ==> kv[i].ops.len() == 0,
        nothing_pending(kv, logs) && 0 <= i < logs.len() ==> logs[i].records.len() == 0,
        !nothing_pending(kv, logs) ==> (exists|j: int|
            0 <= j < kv.len() && (#[trigger] kv[j]).ops.len() > 0) || (exists|j: int|
            0 <= j < logs.len() && (#[trigger] logs[j]).records.len() > 0),
{
    let none = Seq::<RootView>::empty();
    lemma_count(none, kv, logs);
    assert(namespaces_in(none, kv, logs) =~= Set::<u8>::new(
        |m: u8| pending_of(kv, m) is Some || pending_log_of(logs, m) is Some,
    ));
}

/// Nothing is left of an operation that was wiped: neither its key nor its value.
pub proof fn law_wiped_is_gone(op: KvOp)
    requires
        wiped_op(op),
    ensures
        match op {
            KvOp::Put { key, value } => key@.len() == 0 && value@.len() == 0,
            KvOp::Delete { key } => key@.len() == 0,
        },
{
}

// ---------------------------------------------------------------------------
// What a commit takes
// ---------------------------------------------------------------------------

/// The operations go with what the namespace is: not used as a log in the same
/// transaction, and of the kind that they are addressed to.
pub open spec fn op_fits(rs: Seq<RootView>, p: PendingView, logs: Seq<PendingLogView>) -> bool {
    &&& pending_log_of(logs, p.ns) is None
    &&& root_of(rs, Namespace(p.ns)) matches Some(r) ==> match p.origin {
        KvOrigin::ByKey => r.kind == NamespaceKind::Kv,
        KvOrigin::ByLog => r.kind == NamespaceKind::Log,
        KvOrigin::Erase => true,
    }
}

proof fn lemma_kv_clashes(rs: Seq<RootView>, kv: Seq<PendingView>, logs: Seq<PendingLogView>)
    ensures
        kv_clashes(rs, kv, logs) is None <==> forall|i: int|
            0 <= i < kv.len() ==> op_fits(rs, #[trigger] kv[i], logs),
        kv_clashes(rs, kv, logs) matches Some(e) ==> e is WrongNamespaceKind,
    decreases kv.len(),
{
    if kv.len() > 0 {
        let t = kv.drop_first();
        lemma_kv_clashes(rs, t, logs);
        if kv_clashes(rs, kv, logs) is None {
            assert forall|i: int| 0 <= i < kv.len() implies op_fits(
                rs,
                #[trigger] kv[i],
                logs,
            ) by {
                if i > 0 {
                    assert(t[i - 1] == kv[i]);
                }
            }
        }
        if forall|i: int| 0 <= i < kv.len() ==> op_fits(rs, #[trigger] kv[i], logs) {
            assert(op_fits(rs, kv[0], logs));
            assert forall|i: int| 0 <= i < t.len() implies op_fits(
                rs,
                #[trigger] t[i],
                logs,
            ) by {
                assert(t[i] == kv[i + 1]);
            }
        }
    }
}

proof fn lemma_log_clashes(rs: Seq<RootView>, logs: Seq<PendingLogView>)
    ensures
        log_clashes(rs, logs) is None <==> forall|i: int|
            0 <= i < logs.len() ==> (root_of(rs, Namespace((#[trigger] logs[i]).ns)) matches Some(
                r,
            ) ==> r.kind == NamespaceKind::Log),
        log_clashes(rs, logs) matches Some(e) ==> e is WrongNamespaceKind,
    decreases logs.len(),
{
    if logs.len() > 0 {
        let t = logs.drop_first();
        lemma_log_clashes(rs, t);
        if log_clashes(rs, logs) is None {
            assert forall|i: int| 0 <= i < logs.len() implies (root_of(
                rs,
                Namespace((#[trigger] logs[i]).ns),
            ) matches Some(r) ==> r.kind == NamespaceKind::Log) by {
                if i > 0 {
                    assert(t[i - 1] == logs[i]);
                }
            }
        }
        if forall|i: int|
            0 <= i < logs.len() ==> (root_of(rs, Namespace((#[trigger] logs[i]).ns)) matches Some(
                r,
            ) ==> r.kind == NamespaceKind::Log) {
            assert(root_of(rs, Namespace(logs[0].ns)) matches Some(r) ==> r.kind
                == NamespaceKind::Log);
            assert forall|i: int| 0 <= i < t.len() implies (root_of(
                rs,
                Namespace((#[trigger] t[i]).ns),
            ) matches Some(r) ==> r.kind == NamespaceKind::Log) by {
                assert(t[i] == logs[i + 1]);
            }
        }
    }
}

/// A commit is refused at once where there is newer state that cannot be read,
/// where no number is left, where the current commit cannot be read, where
/// something buffered goes against the kind of its namespace, or where there
/// would be more than 95 namespaces; and for nothing else.
pub proof fn law_which_commits_are_refused(
    s: Space,
    kv: Seq<PendingView>,
    logs: Seq<PendingLogView>,
)
    ensures
        ({
            let rs = s.roots()->Ok_0;
            let readable = s.state.unreadable_newer_superblock is None;
            let numbered = s.state.superblock.seq < u64::MAX && s.state.attempted_seq < u64::MAX;
            let fits = (forall|i: int| 0 <= i < kv.len() ==> op_fits(rs, #[trigger] kv[i], logs))
                && (forall|i: int|
                0 <= i < logs.len() ==> (root_of(
                    rs,
                    Namespace((#[trigger] logs[i]).ns),
                ) matches Some(r) ==> r.kind == NamespaceKind::Log));
            let few = namespaces_in(rs, kv, logs).len() <= 95;
            let r = commit_refusal(s, kv, logs);
            &&& r is None <==> readable && numbered && s.roots() is Ok && fits && few
            &&& !readable ==> r == Some(Error::UnreadableNewerState)
            &&& readable && !numbered ==> r is Some && r->0 is Internal
            &&& readable && numbered && s.roots() is Err ==> r == Some(s.roots()->Err_0)
            &&& readable && numbered && s.roots() is Ok && !fits ==> r is Some
                && r->0 is WrongNamespaceKind
            &&& readable && numbered && s.roots() is Ok && fits && !few ==> r == Some(
                Error::TooManyNamespaces { limit: 95 },
            )
        }),
{
    let rs = s.roots()->Ok_0;
    lemma_kv_clashes(rs, kv, logs);
    lemma_log_clashes(rs, logs);
    lemma_count(rs, kv, logs);
    assert((4040int - 2 - 32) / (1int + 1 + 8 + 32) == 95) by (nonlinear_arith);
}

/// A commit on a space in order cannot fail once it is not refused, where the
/// handle writes, the device takes everything, the records can be written, and
/// there are words for half of the pool, or a publish is open and the pool is not
/// drawn on.
pub proof fn law_which_commits_succeed(s: Space, logs: Seq<PendingLogView>)
    requires
        s.wf(),
        orderly(s),
        s.file.lock_mode == LockMode::Exclusive,
        s.file.writes_left is None,
        s.file.room_left is None,
        logs_encodable(logs),
        s.state.attempted_seq > s.state.superblock.seq || s.state.pool@.len() / 2 <= sure_words(
            s.state.entropy.left(),
        ),
    ensures
        ready(s, logs),
{
    law_orderly_is_walkable(s);
}

// ---------------------------------------------------------------------------
// What is read after it
// ---------------------------------------------------------------------------

/// The last call on a key decides: after a put and a commit, `get` gives the
/// value and `list` lists it.
pub proof fn law_put_is_read_back(
    a: Space,
    b: Space,
    before: Seq<PendingView>,
    kv: Seq<PendingView>,
    logs: Seq<PendingLogView>,
    seq: u64,
    m: u8,
    origin: KvOrigin,
    key: Seq<u8>,
    value: Seq<u8>,
    es: Seq<EntryView>,
)
    requires
        b.wf(),
        with_op(before, kv, m, origin, (key, Some(value))),
        published(a, b, kv, logs, seq),
        holds(a, Namespace(m), es),
        within_reach(b, Namespace(m)),
    ensures
        got(b, Namespace(m), key) == Ok::<Option<Seq<u8>>, Error>(Some(value)),
        listed(b, Namespace(m)) matches Ok(now) && now.contains((key, value)),
{
    assert(pending_of(kv, m) is Some);
    let ops = pending_of(kv, m)->0.ops;
    assert(ops.last() == (key, Some(value)));
    law_commit_then_get(a, b, kv, logs, seq, m, es, key);
    law_sound_committed_list(a, b, kv, logs, seq, m, es);
    let now = listed(b, Namespace(m))->Ok_0;
    law_held_is_read(b, Namespace(m), now, key);
    lemma_lookup(now, key);
    let i = choose|i: int| 0 <= i < now.len() && #[trigger] now[i] == (key, value);
    assert(now.contains((key, value)));
}

/// After a delete and a commit, `get` gives nothing and `list` does not list the
/// key.
pub proof fn law_deleted_is_gone(
    a: Space,
    b: Space,
    before: Seq<PendingView>,
    kv: Seq<PendingView>,
    logs: Seq<PendingLogView>,
    seq: u64,
    m: u8,
    origin: KvOrigin,
    key: Seq<u8>,
    es: Seq<EntryView>,
)
    requires
        b.wf(),
        with_op(before, kv, m, origin, (key, None)),
        published(a, b, kv, logs, seq),
        holds(a, Namespace(m), es),
        within_reach(b, Namespace(m)),
    ensures
        got(b, Namespace(m), key) == Ok::<Option<Seq<u8>>, Error>(None),
        listed(b, Namespace(m)) matches Ok(now) && forall|i: int|
            0 <= i < now.len() ==> (#[trigger] now[i]).0 != key,
{
    assert(pending_of(kv, m) is Some);
    let ops = pending_of(kv, m)->0.ops;
    assert(ops.last() == (key, None::<Seq<u8>>));
    law_commit_then_get(a, b, kv, logs, seq, m, es, key);
    law_sound_committed_list(a, b, kv, logs, seq, m, es);
    let now = listed(b, Namespace(m))->Ok_0;
    law_held_is_read(b, Namespace(m), now, key);
    lemma_lookup(now, key);
}

/// A key that no buffered operation is on is after the commit what it was before.
pub proof fn law_other_keys_stay(
    a: Space,
    b: Space,
    kv: Seq<PendingView>,
    logs: Seq<PendingLogView>,
    seq: u64,
    m: u8,
    key: Seq<u8>,
    es: Seq<EntryView>,
)
    requires
        a.wf(),
        b.wf(),
        published(a, b, kv, logs, seq),
        holds(a, Namespace(m), es),
        within_reach(a, Namespace(m)),
        within_reach(b, Namespace(m)),
        pending_of(kv, m) is Some,
        pending_of(kv, m)->0.ops.len() > 0,
        forall|i: int|
            0 <= i < pending_of(kv, m)->0.ops.len() ==> (#[trigger] pending_of(kv, m)->0.ops[i]).0
                != key,
    ensures
        got(b, Namespace(m), key) == got(a, Namespace(m), key),
{
    lemma_no_op(pending_of(kv, m)->0.ops, key);
    law_commit_then_get(a, b, kv, logs, seq, m, es, key);
    law_held_is_read(a, Namespace(m), es, key);
}

proof fn lemma_no_op(ops: Seq<OpView>, key: Seq<u8>)
    requires
        forall|i: int| 0 <= i < ops.len() ==> (#[trigger] ops[i]).0 != key,
    ensures
        last_op(ops, key) is None,
    decreases ops.len(),
{
    if ops.len() > 0 {
        let init = ops.drop_last();
        assert(ops[ops.len() - 1].0 != key);
        assert forall|i: int| 0 <= i < init.len() implies (#[trigger] init[i]).0 != key by {
            assert(init[i] == ops[i]);
        }
        lemma_no_op(init, key);
    }
}

/// After a record is appended and committed, `read_log` gives it under its
/// number; of several under one number, the last.
pub proof fn law_appended_is_read_back(
    a: Space,
    b: Space,
    kv: Seq<PendingView>,
    before: Seq<PendingLogView>,
    logs: Seq<PendingLogView>,
    seq: u64,
    m: u8,
    rec: RecordView,
    es: Seq<EntryView>,
)
    requires
        b.wf(),
        with_record(before, logs, m, rec),
        published(a, b, kv, logs, seq),
        holds(a, Namespace(m), es),
        within_reach(b, Namespace(m)),
        pending_of(kv, m) is None,
    ensures
        log_value(b.file@, b.state.superblock@, b.walk_now(), Namespace(m), rec.0) == Ok::<
            Option<Seq<u8>>,
            Error,
        >(Some(rec.1)),
{
    assert(pending_log_of(logs, m) is Some);
    let recs = pending_log_of(logs, m)->0.records;
    assert(recs.last() == rec);
    law_commit_then_read_log(a, b, kv, logs, seq, m, es, rec.0, rec.1);
}

/// Each commit takes the number after the highest that was used or attempted,
/// and the current superblock and the history carry it.
pub proof fn law_commit_numbers(
    a: Space,
    b: Space,
    kv: Seq<PendingView>,
    logs: Seq<PendingLogView>,
    seq: u64,
)
    requires
        published(a, b, kv, logs, seq),
    ensures
        seq == if a.state.attempted_seq > a.state.superblock.seq {
            a.state.attempted_seq + 1
        } else {
            a.state.superblock.seq + 1
        },
        b.state.superblock.seq == seq,
        b.state.commit_history@ == a.state.commit_history@.push(seq),
{
}

/// A commit gives a namespace the kind of what was written to it: a new one that keys
/// were put in is for keys, one that records were appended to is a log, and any
/// other that is still there is of the kind it was.
pub proof fn law_kinds_after_a_commit(
    a: Space,
    b: Space,
    kv: Seq<PendingView>,
    logs: Seq<PendingLogView>,
    seq: u64,
    m: u8,
)
    requires
        published(a, b, kv, logs, seq),
        root_of(b.roots()->Ok_0, Namespace(m)) is Some,
    ensures
        a.roots() is Ok,
        ({
            let prior = root_of(a.roots()->Ok_0, Namespace(m));
            let now = root_of(b.roots()->Ok_0, Namespace(m))->0.kind;
            let keyed = pending_of(kv, m) matches Some(p) && p.ops.len() > 0;
            let appended = pending_log_of(logs, m) matches Some(p) && p.records.len() > 0;
            &&& keyed && prior is None ==> now == NamespaceKind::Kv
            &&& keyed && prior is Some ==> now == prior->0.kind
            &&& !keyed && appended ==> now == NamespaceKind::Log
            &&& !keyed && !appended ==> prior is Some && now == prior->0.kind
        }),
{
    assert(changed(a.file@, b.file@, a.roots()->Ok_0, b.roots()->Ok_0, kv, logs, m));
}

} // verus!
