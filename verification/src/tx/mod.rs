//! Transactions: operations that are buffered and then committed together.

pub mod commit;
pub mod pending;

use vstd::prelude::*;

use crate::bytes::copy_of;
use crate::container::LockMode;
use crate::error::Error;
use crate::space::commit::{
    all_or_nothing, begun, commit_refusal, count_involved, early_failure, has_pending,
    has_pending_log, hidden, involved_count, kept_by_commit, nothing_pending, published, ready,
    unpublished,
};
use crate::space::index::{legal_key, Namespace, MAX_KEY_LEN, MAX_VALUE_LEN};
use crate::space::log::{MAX_LOG_PAYLOAD_LEN, MAX_RECORDS_PER_BATCH};
use crate::space::{quiet, Space};

use self::commit::{roots_view, IndexRoot, NamespaceKind, RootView, MAX_NAMESPACES_PER_TX};
use self::pending::{
    buffer_op, buffer_record, wipe_ops, wipe_records, pending_log_of, pending_logs_view,
    pending_logs_wf, pending_of, pendings_view, pendings_wf, with_op, with_record, KvOp, KvOrigin,
    PendingLogNs, PendingLogView, PendingNs, PendingView,
};

verus! {

/// A transaction on a space. Nothing reaches the space before the commit;
/// dropped without one, it leaves no trace.
pub struct Tx<'s> {
    pub space: &'s mut Space,
    pub pending_kv: Vec<PendingNs>,
    pub pending_log: Vec<PendingLogNs>,
}

/// How many namespaces are touched.
pub open spec fn touched(kv: Seq<PendingView>, logs: Seq<PendingLogView>) -> nat {
    involved_count(Seq::<RootView>::empty(), kv, logs, 256)
}

/// Why a namespace cannot be touched, if it cannot.
pub open spec fn capacity_refusal(
    kv: Seq<PendingView>,
    logs: Seq<PendingLogView>,
    ns: u8,
) -> Option<Error> {
    if pending_of(kv, ns) is Some || pending_log_of(logs, ns) is Some {
        None
    } else if touched(kv, logs) >= MAX_NAMESPACES_PER_TX {
        Some(Error::TooManyNamespaces { limit: MAX_NAMESPACES_PER_TX })
    } else {
        None
    }
}

/// Why a namespace cannot be used as this kind, if it cannot.
pub open spec fn kind_refusal(
    kv: Seq<PendingView>,
    logs: Seq<PendingLogView>,
    ns: u8,
    want: NamespaceKind,
) -> Option<Error> {
    let other = match want {
        NamespaceKind::Kv => pending_log_of(logs, ns) is Some,
        NamespaceKind::Log => pending_of(kv, ns) is Some,
    };
    if other {
        Some(Error::WrongNamespaceKind("namespace already used as the other kind in this Tx"))
    } else {
        None
    }
}

/// The first of two refusals.
pub open spec fn either(a: Option<Error>, b: Option<Error>) -> Option<Error> {
    match a {
        Some(e) => Some(e),
        None => b,
    }
}

/// Why a key cannot be used in a namespace, if it cannot.
pub open spec fn key_refusal(ns: Namespace, key: Seq<u8>) -> Option<Error> {
    if ns.0 == 0 {
        Some(Error::Malformed("namespace 0 is reserved"))
    } else if !legal_key(key) {
        Some(Error::Malformed("invalid key length"))
    } else {
        None
    }
}

/// Why a put is refused, if it is.
pub open spec fn put_refusal(
    kv: Seq<PendingView>,
    logs: Seq<PendingLogView>,
    ns: Namespace,
    key: Seq<u8>,
    value: Seq<u8>,
) -> Option<Error> {
    either(
        key_refusal(ns, key),
        if value.len() > MAX_VALUE_LEN {
            Some(Error::PayloadTooLarge)
        } else {
            either(
                capacity_refusal(kv, logs, ns.0),
                kind_refusal(kv, logs, ns.0, NamespaceKind::Kv),
            )
        },
    )
}

/// Why a delete is refused, if it is.
pub open spec fn delete_refusal(
    kv: Seq<PendingView>,
    logs: Seq<PendingLogView>,
    ns: Namespace,
    key: Seq<u8>,
) -> Option<Error> {
    either(
        key_refusal(ns, key),
        either(
            capacity_refusal(kv, logs, ns.0),
            kind_refusal(kv, logs, ns.0, NamespaceKind::Kv),
        ),
    )
}

/// Why a delete that may go against the kind of the namespace is refused, if
/// it is.
pub open spec fn erase_refusal(
    kv: Seq<PendingView>,
    logs: Seq<PendingLogView>,
    ns: Namespace,
    key: Seq<u8>,
) -> Option<Error> {
    either(key_refusal(ns, key), capacity_refusal(kv, logs, ns.0))
}

/// Why a record is refused, if it is.
pub open spec fn append_refusal(
    kv: Seq<PendingView>,
    logs: Seq<PendingLogView>,
    ns: Namespace,
    payload: Seq<u8>,
) -> Option<Error> {
    if ns.0 == 0 {
        Some(Error::Malformed("namespace 0 is reserved"))
    } else if payload.len() > MAX_LOG_PAYLOAD_LEN {
        Some(Error::PayloadTooLarge)
    } else {
        either(
            capacity_refusal(kv, logs, ns.0),
            either(
                kind_refusal(kv, logs, ns.0, NamespaceKind::Log),
                match pending_log_of(logs, ns.0) {
                    Some(p) if p.records.len() >= MAX_RECORDS_PER_BATCH => Some(
                        Error::PayloadTooLarge,
                    ),
                    _ => None,
                },
            ),
        )
    }
}

impl<'s> Tx<'s> {
    /// The buffered operations.
    pub open spec fn kv(self) -> Seq<PendingView> {
        pendings_view(self.pending_kv@)
    }

    /// The buffered records.
    pub open spec fn logs(self) -> Seq<PendingLogView> {
        pending_logs_view(self.pending_log@)
    }

    /// The space is well formed, and what is buffered is in order.
    pub open spec fn wf(self) -> bool {
        &&& (*self.space).wf()
        &&& pendings_wf(self.kv())
        &&& pending_logs_wf(self.logs())
    }

    /// An empty transaction.
    pub fn new(space: &'s mut Space) -> (r: Tx<'s>)
        requires
            old(space).wf(),
        ensures
            r.wf(),
            r.kv().len() == 0,
            r.logs().len() == 0,
            *r.space == *old(space),
            *final(r.space) == *final(space),
    {
        Tx { space, pending_kv: Vec::new(), pending_log: Vec::new() }
    }

    /// Refuses a further namespace where as many as one commit can take are
    /// touched.
    pub fn check_namespace_capacity(&self, ns_byte: u8) -> (r: Result<(), Error>)
        requires
            self.wf(),
        ensures
            match capacity_refusal(self.kv(), self.logs(), ns_byte) {
                Some(e) => r == Err::<(), Error>(e),
                None => r is Ok,
            },
    {
        if has_pending(&self.pending_kv, ns_byte) || has_pending_log(&self.pending_log, ns_byte) {
            return Ok(());
        }
        if self.touched_namespaces() >= MAX_NAMESPACES_PER_TX {
            return Err(Error::TooManyNamespaces { limit: MAX_NAMESPACES_PER_TX });
        }
        Ok(())
    }

    /// Refuses a namespace that is already used as the other kind.
    pub fn check_namespace_kind(&self, ns_byte: u8, want: NamespaceKind) -> (r: Result<(), Error>)
        requires
            self.wf(),
        ensures
            match kind_refusal(self.kv(), self.logs(), ns_byte, want) {
                Some(e) => r == Err::<(), Error>(e),
                None => r is Ok,
            },
    {
        let other: bool = match want {
            NamespaceKind::Kv => has_pending_log(&self.pending_log, ns_byte),
            NamespaceKind::Log => has_pending(&self.pending_kv, ns_byte),
        };
        if other {
            return Err(
                Error::WrongNamespaceKind("namespace already used as the other kind in this Tx"),
            );
        }
        Ok(())
    }

    /// Buffers a put.
    pub fn put(&mut self, namespace: Namespace, key: &[u8], value: &[u8]) -> (r: Result<(), Error>)
        requires
            old(self).wf(),
        ensures
            final(self).wf(),
            *final(self).space == *old(self).space,
            *final(final(self).space) == *final(old(self).space),
            final(self).logs() == old(self).logs(),
            match put_refusal(old(self).kv(), old(self).logs(), namespace, key@, value@) {
                Some(e) => r == Err::<(), Error>(e) && final(self).kv() == old(self).kv(),
                None => r is Ok && with_op(
                    old(self).kv(),
                    final(self).kv(),
                    namespace.0,
                    KvOrigin::ByKey,
                    (key@, Some(value@)),
                ),
            },
    {
        if namespace.0 == 0 {
            return Err(Error::Malformed("namespace 0 is reserved"));
        }
        if key.len() == 0 || key.len() > MAX_KEY_LEN {
            return Err(Error::Malformed("invalid key length"));
        }
        if value.len() > MAX_VALUE_LEN {
            return Err(Error::PayloadTooLarge);
        }
        match self.check_namespace_capacity(namespace.0) {
            Ok(()) => {},
            Err(e) => {
                return Err(e);
            },
        }
        match self.check_namespace_kind(namespace.0, NamespaceKind::Kv) {
            Ok(()) => {},
            Err(e) => {
                return Err(e);
            },
        }
        buffer_op(
            &mut self.pending_kv,
            namespace.0,
            KvOrigin::ByKey,
            KvOp::Put { key: copy_of(key), value: copy_of(value) },
        );
        Ok(())
    }

    /// Buffers a delete.
    pub fn delete(&mut self, namespace: Namespace, key: &[u8]) -> (r: Result<(), Error>)
        requires
            old(self).wf(),
        ensures
            final(self).wf(),
            *final(self).space == *old(self).space,
            *final(final(self).space) == *final(old(self).space),
            final(self).logs() == old(self).logs(),
            match delete_refusal(old(self).kv(), old(self).logs(), namespace, key@) {
                Some(e) => r == Err::<(), Error>(e) && final(self).kv() == old(self).kv(),
                None => r is Ok && with_op(
                    old(self).kv(),
                    final(self).kv(),
                    namespace.0,
                    KvOrigin::ByKey,
                    (key@, None),
                ),
            },
    {
        if namespace.0 == 0 {
            return Err(Error::Malformed("namespace 0 is reserved"));
        }
        if key.len() == 0 || key.len() > MAX_KEY_LEN {
            return Err(Error::Malformed("invalid key length"));
        }
        match self.check_namespace_capacity(namespace.0) {
            Ok(()) => {},
            Err(e) => {
                return Err(e);
            },
        }
        match self.check_namespace_kind(namespace.0, NamespaceKind::Kv) {
            Ok(()) => {},
            Err(e) => {
                return Err(e);
            },
        }
        buffer_op(
            &mut self.pending_kv,
            namespace.0,
            KvOrigin::ByKey,
            KvOp::Delete { key: copy_of(key) },
        );
        Ok(())
    }

    /// Buffers a delete that says itself how it is addressed, whatever else
    /// the namespace is used as.
    pub fn delete_internal(&mut self, namespace: Namespace, key: Vec<u8>, origin: KvOrigin) -> (r:
        Result<(), Error>)
        requires
            old(self).wf(),
        ensures
            final(self).wf(),
            *final(self).space == *old(self).space,
            *final(final(self).space) == *final(old(self).space),
            final(self).logs() == old(self).logs(),
            match erase_refusal(old(self).kv(), old(self).logs(), namespace, key@) {
                Some(e) => r == Err::<(), Error>(e) && final(self).kv() == old(self).kv(),
                None => r is Ok && with_op(
                    old(self).kv(),
                    final(self).kv(),
                    namespace.0,
                    origin,
                    (key@, None),
                ),
            },
    {
        if namespace.0 == 0 {
            return Err(Error::Malformed("namespace 0 is reserved"));
        }
        if key.len() == 0 || key.len() > MAX_KEY_LEN {
            return Err(Error::Malformed("invalid key length"));
        }
        match self.check_namespace_capacity(namespace.0) {
            Ok(()) => {},
            Err(e) => {
                return Err(e);
            },
        }
        buffer_op(&mut self.pending_kv, namespace.0, origin, KvOp::Delete { key });
        Ok(())
    }

    /// Buffers a record. Of several with one number the last counts.
    pub fn append_log(&mut self, namespace: Namespace, log_id: u64, payload: &[u8]) -> (r: Result<
        (),
        Error,
    >)
        requires
            old(self).wf(),
        ensures
            final(self).wf(),
            *final(self).space == *old(self).space,
            *final(final(self).space) == *final(old(self).space),
            final(self).kv() == old(self).kv(),
            match append_refusal(old(self).kv(), old(self).logs(), namespace, payload@) {
                Some(e) => r == Err::<(), Error>(e) && final(self).logs() == old(self).logs(),
                None => r is Ok && with_record(
                    old(self).logs(),
                    final(self).logs(),
                    namespace.0,
                    (log_id, payload@),
                ),
            },
    {
        if namespace.0 == 0 {
            return Err(Error::Malformed("namespace 0 is reserved"));
        }
        if payload.len() > MAX_LOG_PAYLOAD_LEN {
            return Err(Error::PayloadTooLarge);
        }
        match self.check_namespace_capacity(namespace.0) {
            Ok(()) => {},
            Err(e) => {
                return Err(e);
            },
        }
        match self.check_namespace_kind(namespace.0, NamespaceKind::Log) {
            Ok(()) => {},
            Err(e) => {
                return Err(e);
            },
        }
        if records_buffered(&self.pending_log, namespace.0) >= MAX_RECORDS_PER_BATCH {
            return Err(Error::PayloadTooLarge);
        }
        buffer_record(&mut self.pending_log, namespace.0, log_id, copy_of(payload));
        Ok(())
    }

    /// How many namespaces are touched.
    #[must_use]
    pub fn touched_namespaces(&self) -> (r: usize)
        requires
            self.wf(),
        ensures
            r == touched(self.kv(), self.logs()),
    {
        let none: Vec<IndexRoot> = Vec::new();
        assert(roots_view(none@) =~= Seq::<RootView>::empty());
        count_involved(&self.pending_kv, &self.pending_log, &none)
    }

    /// Is nothing buffered?
    #[must_use]
    pub fn is_empty(&self) -> (r: bool)
        ensures
            r == (self.kv().len() == 0 && self.logs().len() == 0),
    {
        self.pending_kv.len() == 0 && self.pending_log.len() == 0
    }

    /// Commits everything that is buffered, and gives the seq under which it
    /// was published. What was buffered is cleared either way.
    pub fn commit(self) -> (r: Result<u64, Error>)
        requires
            self.wf(),
        ensures
            (*final(self.space)).wf(),
            all_or_nothing(*old(self.space), *final(self.space), self.kv(), self.logs()),
            nothing_pending(self.kv(), self.logs()) ==> r == Ok::<u64, Error>(
                old(self.space).state.superblock.seq,
            ) && *final(self.space) == *old(self.space),
            !nothing_pending(self.kv(), self.logs()) ==> match r {
                Ok(seq) => {
                    &&& published(*old(self.space), *final(self.space), self.kv(), self.logs(), seq)
                    &&& kept_by_commit(*old(self.space), *final(self.space))
                    &&& hidden(*old(self.space), *final(self.space))
                    &&& old(self.space).file.lock_mode == LockMode::Exclusive
                },
                Err(e) => match commit_refusal(*old(self.space), self.kv(), self.logs()) {
                    Some(refusal) => e == refusal && quiet(*old(self.space), *final(self.space)),
                    None => {
                        &&& kept_by_commit(*old(self.space), *final(self.space))
                        &&& unpublished(*old(self.space), *final(self.space), e)
                        &&& begun(*old(self.space), *final(self.space), self.kv(), self.logs())
                        &&& early_failure(*old(self.space), *final(self.space), self.logs(), e)
                        &&& !ready(*old(self.space), self.logs())
                    },
                },
            },
    {
        let Tx { space, pending_kv, pending_log } = self;
        let mut kv = pending_kv;
        let mut logs = pending_log;
        let r = space.commit_tx(&kv, &logs);
        wipe_ops(&mut kv);
        wipe_records(&mut logs);
        r
    }
}

/// How many records are buffered for a namespace.
fn records_buffered(logs: &Vec<PendingLogNs>, ns: u8) -> (r: usize)
    requires
        pending_logs_wf(pending_logs_view(logs@)),
    ensures
        match pending_log_of(pending_logs_view(logs@), ns) {
            Some(p) => r == p.records.len(),
            None => r == 0,
        },
{
    let ghost v = pending_logs_view(logs@);
    let mut i: usize = 0;
    while i < logs.len()
        invariant
            i <= logs@.len(),
            v == pending_logs_view(logs@),
            pending_logs_wf(v),
            forall|j: int| 0 <= j < i ==> (#[trigger] v[j]).ns != ns,
        decreases logs@.len() - i,
    {
        assert(v[i as int] == logs@[i as int]@);
        if logs[i].ns == ns {
            proof {
                self::pending::lemma_pending_log_at(v, i as int);
            }
            return logs[i].records.len();
        }
        i = i + 1;
    }
    proof {
        self::pending::lemma_pending_log_of(v, ns);
    }
    0
}

} // verus!
