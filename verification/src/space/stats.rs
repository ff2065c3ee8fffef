//! Counting, and what a space says of itself.

use vstd::prelude::*;

use crate::container::{ContainerFile, LockMode, PaddingPolicy};
use crate::error::Error;
use crate::space::index::{EntryView, IndexNode, Namespace};
use crate::space::reads::{everything, gather, gather_kids, range_of, scan, Gathered};
use crate::space::walk::{TreeWalk, WalkView};
use crate::space::{quiet, Space, SpaceKeys};
use crate::tx::commit::{roots_view, NamespaceKind, RootView};
use crate::tx::Tx;

verus! {

/// A count, as far as a `usize` goes.
pub open spec fn clamped(n: int) -> int {
    if n <= usize::MAX {
        n
    } else {
        usize::MAX as int
    }
}

/// What a space holds, in numbers.
#[derive(Debug, Clone)]
#[non_exhaustive]
pub struct SpaceStats {
    /// The seq of the current publish.
    pub commit_seq: u64,
    /// How many publishes are on record.
    pub commit_history_len: usize,
    /// How many chunks the space owns.
    pub owned_chunk_count: usize,
    /// How many slots the container has.
    pub total_slot_count: u64,
    /// How many slots are free for reuse.
    pub reusable_slot_count: usize,
    /// How many entries each namespace has.
    pub namespace_counts: Vec<(Namespace, usize)>,
}

/// The sum of counts.
pub open spec fn sum_counts(v: Seq<(Namespace, usize)>) -> int
    decreases v.len(),
{
    if v.len() == 0 {
        0
    } else {
        sum_counts(v.drop_last()) + v.last().1
    }
}

impl SpaceStats {
    /// How many entries there are in all, as far as a `usize` goes.
    #[must_use]
    pub fn total_entries(&self) -> (r: usize)
        ensures
            r == clamped(sum_counts(self.namespace_counts@)),
    {
        let ghost v = self.namespace_counts@;
        let mut total: usize = 0;
        let mut i: usize = 0;
        assert(v.take(0) =~= Seq::<(Namespace, usize)>::empty());
        while i < self.namespace_counts.len()
            invariant
                i <= self.namespace_counts@.len(),
                v == self.namespace_counts@,
                total == clamped(sum_counts(v.take(i as int))),
                sum_counts(v.take(i as int)) >= 0,
            decreases self.namespace_counts@.len() - i,
        {
            assert(v.take(i + 1).drop_last() =~= v.take(i as int));
            assert(v.take(i + 1).last() == v[i as int]);
            total = total.saturating_add(self.namespace_counts[i].1);
            i = i + 1;
        }
        assert(v.take(i as int) =~= v);
        total
    }
}

/// How many entries a namespace has, or why that cannot be read.
pub open spec fn count_of(s: Space, ns: Namespace) -> Result<int, Error> {
    match range_of(s.file@, s.state.superblock@, s.walk_now(), ns, everything()) {
        Ok(es) => Ok(clamped(es.len() as int)),
        Err(e) => Err(e),
    }
}

/// A leaf is read whole when everything is wanted.
pub proof fn lemma_scan_everything(es: Seq<EntryView>, i: int, w: WalkView, out: Seq<EntryView>)
    requires
        0 <= i <= es.len(),
    ensures
        scan(everything(), es, i, w, out) == (Gathered { w, out: out + es.skip(i), end: Ok(false) }),
    decreases es.len() - i,
{
    if i < es.len() {
        lemma_scan_everything(es, i + 1, w, out.push(es[i]));
        assert(out.push(es[i]) + es.skip(i + 1) =~= out + es.skip(i));
    } else {
        assert(out + es.skip(i) =~= out);
    }
}

/// The namespaces of roots.
pub open spec fn namespaces_of(rs: Seq<RootView>) -> Seq<Namespace> {
    Seq::new(rs.len(), |i: int| rs[i].namespace)
}

/// The namespaces of roots, with their kinds.
pub open spec fn kinds_of(rs: Seq<RootView>) -> Seq<(Namespace, NamespaceKind)> {
    Seq::new(rs.len(), |i: int| (rs[i].namespace, rs[i].kind))
}

/// Why the entries of some namespace cannot be counted, if they cannot: the
/// first failure.
pub open spec fn count_failure(s: Space, rs: Seq<RootView>) -> Option<Error>
    decreases rs.len(),
{
    if rs.len() == 0 {
        None
    } else {
        match count_of(s, rs[0].namespace) {
            Err(e) => Some(e),
            Ok(_) => count_failure(s, rs.drop_first()),
        }
    }
}

/// The counts are those of the namespaces of the roots, in their order.
pub open spec fn counts_right(s: Space, rs: Seq<RootView>, v: Seq<(Namespace, usize)>) -> bool {
    &&& v.len() == rs.len()
    &&& forall|i: int|
        0 <= i < v.len() ==> (#[trigger] v[i]).0 == rs[i].namespace && count_of(
            s,
            rs[i].namespace,
        ) == Ok::<int, Error>(v[i].1 as int)
}

impl Space {
    /// Counts the entries under the node at `slot`, on top of `total`.
    fn count_leaves_at(
        &self,
        slot: u64,
        namespace: Namespace,
        depth: u8,
        walk: &mut TreeWalk,
        total: usize,
        Ghost(out): Ghost<Seq<EntryView>>,
    ) -> (r: Result<usize, Error>)
        requires
            old(walk).wf(),
            depth <= old(walk)@.max_depth + 1,
            total == clamped(out.len() as int),
        ensures
            final(walk).wf(),
            final(walk)@.max_depth == old(walk)@.max_depth,
            ({
                let g = gather(
                    self.file@,
                    namespace,
                    everything(),
                    slot,
                    depth as int,
                    old(walk)@,
                    out,
                    old(walk)@.max_depth as int,
                );
                match r {
                    Ok(n) => {
                        &&& g.end == Ok::<bool, Error>(false)
                        &&& n == clamped(g.out.len() as int)
                        &&& final(walk)@ == g.w
                    },
                    Err(e) => g.end == Err::<bool, Error>(e),
                }
            }),
        decreases old(walk)@.max_depth + 1 - depth,
    {
        let ghost img = self.file@;
        let ghost cap = walk@.max_depth as int;
        let ghost want = gather(
            img,
            namespace,
            everything(),
            slot,
            depth as int,
            walk@,
            out,
            cap,
        );
        match walk.visit(slot, depth) {
            Ok(()) => {},
            Err(e) => {
                return Err(e);
            },
        }
        match self.read_index_node_at_expected(slot, namespace) {
            Err(e) => Err(e),
            Ok(IndexNode::Leaf(l)) => {
                let ghost es = l@.entries;
                proof {
                    lemma_scan_everything(es, 0, walk@, out);
                    assert(es.skip(0) =~= es);
                }
                Ok(total.saturating_add(l.entries.len()))
            },
            Ok(IndexNode::Internal(node)) => {
                let ghost cs = node@.children;
                let mut sum: usize = total;
                let ghost mut had = out;
                let mut i: usize = 0;
                while i < node.children.len()
                    invariant
                        i <= node.children@.len(),
                        cs == node@.children,
                        walk.wf(),
                        walk@.max_depth == cap,
                        old(walk)@.max_depth == cap,
                        depth <= cap,
                        cap <= 32,
                        img == self.file@,
                        sum == clamped(had.len() as int),
                        want == gather_kids(
                            img,
                            namespace,
                            everything(),
                            cs,
                            i as int,
                            depth + 1,
                            walk@,
                            had,
                            cap,
                        ),
                        want == gather(
                            img,
                            namespace,
                            everything(),
                            slot,
                            depth as int,
                            old(walk)@,
                            out,
                            cap,
                        ),
                    decreases node.children@.len() - i,
                {
                    assert(cs[i as int].child_slot == node.children@[i as int].child_slot);
                    let ghost g = gather(
                        img,
                        namespace,
                        everything(),
                        cs[i as int].child_slot,
                        depth + 1,
                        walk@,
                        had,
                        cap,
                    );
                    match self.count_leaves_at(
                        node.children[i].child_slot,
                        namespace,
                        depth + 1,
                        walk,
                        sum,
                        Ghost(had),
                    ) {
                        Err(e) => {
                            return Err(e);
                        },
                        Ok(n) => {
                            sum = n;
                        },
                    }
                    proof {
                        had = g.out;
                    }
                    i = i + 1;
                }
                Ok(sum)
            },
        }
    }

    /// How many entries a namespace has.
    pub fn count(&mut self, namespace: Namespace) -> (r: Result<usize, Error>)
        requires
            old(self).wf(),
        ensures
            final(self).wf(),
            quiet(*old(self), *final(self)),
            match r {
                Ok(n) => count_of(*old(self), namespace) == Ok::<int, Error>(n as int),
                Err(e) => count_of(*old(self), namespace) == Err::<int, Error>(e),
            },
    {
        let root = match self.find_root(namespace) {
            Err(e) => {
                return Err(e);
            },
            Ok(None) => {
                return Ok(0);
            },
            Ok(Some(r)) => r,
        };
        let mut walk = self.new_tree_walk();
        self.count_leaves_at(
            root.index_slot,
            namespace,
            0,
            &mut walk,
            0,
            Ghost(Seq::<EntryView>::empty()),
        )
    }

    /// The namespaces that hold something, rising.
    pub fn list_namespaces(&mut self) -> (r: Result<Vec<Namespace>, Error>)
        requires
            old(self).wf(),
        ensures
            final(self).wf(),
            quiet(*old(self), *final(self)),
            match r {
                Ok(v) => old(self).roots() is Ok && v@ == namespaces_of(old(self).roots()->Ok_0),
                Err(e) => old(self).roots() == Err::<Seq<RootView>, Error>(e),
            },
    {
        let roots = match self.load_prior_roots() {
            Ok(v) => v,
            Err(e) => {
                return Err(e);
            },
        };
        let ghost rs = roots_view(roots@);
        let mut out: Vec<Namespace> = Vec::with_capacity(roots.len());
        let mut i: usize = 0;
        while i < roots.len()
            invariant
                i <= roots@.len(),
                rs == roots_view(roots@),
                out@.len() == i,
                forall|j: int| 0 <= j < i ==> #[trigger] out@[j] == rs[j].namespace,
            decreases roots@.len() - i,
        {
            out.push(roots[i].namespace);
            i = i + 1;
        }
        assert(out@ =~= namespaces_of(rs));
        Ok(out)
    }

    /// The namespaces that hold something, rising, with their kinds.
    pub fn list_namespaces_with_kind(&mut self) -> (r: Result<
        Vec<(Namespace, NamespaceKind)>,
        Error,
    >)
        requires
            old(self).wf(),
        ensures
            final(self).wf(),
            quiet(*old(self), *final(self)),
            match r {
                Ok(v) => old(self).roots() is Ok && v@ == kinds_of(old(self).roots()->Ok_0),
                Err(e) => old(self).roots() == Err::<Seq<RootView>, Error>(e),
            },
    {
        let roots = match self.load_prior_roots() {
            Ok(v) => v,
            Err(e) => {
                return Err(e);
            },
        };
        let ghost rs = roots_view(roots@);
        let mut out: Vec<(Namespace, NamespaceKind)> = Vec::with_capacity(roots.len());
        let mut i: usize = 0;
        while i < roots.len()
            invariant
                i <= roots@.len(),
                rs == roots_view(roots@),
                out@.len() == i,
                forall|j: int|
                    0 <= j < i ==> #[trigger] out@[j] == (rs[j].namespace, rs[j].kind),
            decreases roots@.len() - i,
        {
            out.push((roots[i].namespace, roots[i].kind));
            i = i + 1;
        }
        assert(out@ =~= kinds_of(rs));
        Ok(out)
    }

    /// What the space holds, in numbers.
    pub fn stats(&mut self) -> (r: Result<SpaceStats, Error>)
        requires
            old(self).wf(),
        ensures
            final(self).wf(),
            quiet(*old(self), *final(self)),
            match r {
                Ok(st) => {
                    &&& old(self).roots() is Ok
                    &&& st.commit_seq == old(self).state.superblock.seq
                    &&& st.commit_history_len == old(self).state.commit_history@.len()
                    &&& st.owned_chunk_count == old(self).state.owned_slots@.len()
                    &&& st.total_slot_count == old(self).file@.len()
                    &&& st.reusable_slot_count == old(self).state.pool@.len()
                    &&& counts_right(
                        *old(self),
                        old(self).roots()->Ok_0,
                        st.namespace_counts@,
                    )
                },
                Err(e) => match old(self).roots() {
                    Err(why) => e == why,
                    Ok(rs) => count_failure(*old(self), rs) == Some(e),
                },
            },
    {
        let ghost s0 = *self;
        let namespaces = match self.list_namespaces() {
            Ok(v) => v,
            Err(e) => {
                return Err(e);
            },
        };
        let ghost rs = s0.roots()->Ok_0;
        let mut counts: Vec<(Namespace, usize)> = Vec::with_capacity(namespaces.len());
        let mut i: usize = 0;
        assert(rs.skip(0) =~= rs);
        while i < namespaces.len()
            invariant
                i <= namespaces@.len(),
                s0 == *old(self),
                s0.roots() == Ok::<Seq<RootView>, Error>(rs),
                namespaces@ == namespaces_of(rs),
                self.wf(),
                quiet(s0, *self),
                counts@.len() == i,
                forall|j: int|
                    0 <= j < i ==> (#[trigger] counts@[j]).0 == rs[j].namespace && count_of(
                        s0,
                        rs[j].namespace,
                    ) == Ok::<int, Error>(counts@[j].1 as int),
                count_failure(s0, rs) == count_failure(s0, rs.skip(i as int)),
            decreases namespaces@.len() - i,
        {
            let ns = namespaces[i];
            proof {
                assert(namespaces@[i as int] == rs[i as int].namespace);
                assert(rs.skip(i as int)[0] == rs[i as int]);
                assert(rs.skip(i as int).drop_first() =~= rs.skip(i + 1));
                assert(count_of(*self, ns) == count_of(s0, ns));
            }
            match self.count(ns) {
                Ok(n) => {
                    counts.push((ns, n));
                },
                Err(e) => {
                    return Err(e);
                },
            }
            i = i + 1;
        }
        Ok(
            SpaceStats {
                commit_seq: self.commit_seq(),
                commit_history_len: self.commit_history().len(),
                owned_chunk_count: self.audit_owned_chunk_count(),
                total_slot_count: self.file.slot_count(),
                reusable_slot_count: self.state.pool.len(),
                namespace_counts: counts,
            },
        )
    }

    /// The seq of the current publish.
    #[must_use]
    pub fn commit_seq(&self) -> (r: u64)
        ensures
            r == self.state.superblock.seq,
    {
        self.state.superblock.seq
    }

    /// The keys of this space.
    #[must_use]
    pub fn space_keys(&self) -> (r: SpaceKeys)
        ensures
            r == self.state.keys,
    {
        self.state.keys
    }

    /// The publishes that are on record, rising.
    #[must_use]
    pub fn commit_history(&self) -> (r: &[u64])
        ensures
            r@ == self.state.commit_history@,
    {
        self.state.commit_history.as_slice()
    }

    /// Sets how much noise follows a commit. Refused on a handle that does
    /// not write.
    pub fn set_padding_policy(&mut self, policy: PaddingPolicy) -> (r: Result<(), Error>)
        requires
            old(self).wf(),
        ensures
            final(self).wf(),
            final(self).state == old(self).state,
            if old(self).file.lock_mode == LockMode::Exclusive {
                &&& r is Ok
                &&& final(self).file == (ContainerFile {
                    padding_policy: policy,
                    ..old(self).file
                })
            } else {
                r == Err::<(), Error>(Error::ReadOnly) && *final(self) == *old(self)
            },
    {
        if !self.file.lock_mode.allows_writes() {
            return Err(Error::ReadOnly);
        }
        self.file.padding_policy = policy;
        Ok(())
    }

    /// How much noise follows a commit.
    #[must_use]
    pub fn padding_policy(&self) -> (r: PaddingPolicy)
        ensures
            r == self.file.padding_policy,
    {
        self.file.padding_policy
    }

    /// Why the last commit's padding was not completed, if it was not.
    #[must_use]
    pub fn last_padding_error(&self) -> (r: Option<&Error>)
        ensures
            match (r, self.state.last_padding_error) {
                (Some(e), Some(f)) => *e == f,
                (None, None) => true,
                _ => false,
            },
    {
        match &self.state.last_padding_error {
            Some(e) => Some(e),
            None => None,
        }
    }

    /// Why the last publish was not completed, if it was not.
    #[must_use]
    pub fn last_publish_error(&self) -> (r: Option<&Error>)
        ensures
            match (r, self.state.last_publish_error) {
                (Some(e), Some(f)) => *e == f,
                (None, None) => true,
                _ => false,
            },
    {
        match &self.state.last_publish_error {
            Some(e) => Some(e),
            None => None,
        }
    }

    /// How many chunks the space owns.
    #[must_use]
    pub fn audit_owned_chunk_count(&self) -> (r: usize)
        requires
            self.wf(),
        ensures
            r == self.state.owned_slots@.len(),
    {
        self.state.owned_slots.len()
    }

    /// Begins a transaction.
    pub fn begin_tx<'s>(&'s mut self) -> (r: Tx<'s>)
        requires
            old(self).wf(),
        ensures
            r.wf(),
            r.kv().len() == 0,
            r.logs().len() == 0,
            *r.space == *old(self),
            *final(r.space) == *final(self),
    {
        Tx::new(self)
    }
}

} // verus!
