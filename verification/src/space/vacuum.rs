//! Overwriting what is no longer reachable, so that it cannot be recovered.

use vstd::prelude::*;

use crate::chunk::ChunkKind;
use crate::container::{
    affords, live, one_write_less, same_settings, takes_write, writes_less, wrote_only, Image,
    LockMode,
};
use crate::error::Error;
use crate::space::commit::counted;
use crate::space::index::{ChildView, EntryView, IndexNode, Namespace, NodeView};
use crate::space::log::{parse_batch_slot_value, slot_of_value};
use crate::space::reads::{everything, gather, gather_kids, scan};
use crate::space::slots::{lists, slots_in_word, OwnedSet};
use crate::space::superblock::NO_RECORD;
use crate::space::walk::{walk_refusal, walk_step, TreeWalk, WalkView};
use crate::space::{any_node_at, quiet, Space, SpaceState};
use crate::tx::commit::{roots_view, IndexRoot, NamespaceKind, RootView};

verus! {

// ---------------------------------------------------------------------------
// What is reachable
// ---------------------------------------------------------------------------

/// Where a walk over all nodes of a tree stands.
pub struct Trodden {
    pub w: WalkView,
    pub end: Result<(), Error>,
}

/// A walk over all nodes under the one at `slot`.
pub open spec fn tread(img: Image, slot: u64, depth: int, w: WalkView, cap: int) -> Trodden
    decreases cap - depth + 1, 0int,
{
    match walk_refusal(w, slot, depth) {
        Some(why) => Trodden { w, end: Err(Error::Malformed(why)) },
        None => if depth > cap {
            Trodden {
                w,
                end: Err(Error::Malformed("tree deeper than this space's chunk count can hold")),
            }
        } else {
            match any_node_at(img, slot) {
                Err(e) => Trodden { w: walk_step(w, slot), end: Err(e) },
                Ok(NodeView::Leaf(_)) => Trodden { w: walk_step(w, slot), end: Ok(()) },
                Ok(NodeView::Internal(n)) => tread_kids(
                    img,
                    n.children,
                    0,
                    depth + 1,
                    walk_step(w, slot),
                    cap,
                ),
            }
        },
    }
}

/// A walk over all nodes under the children from position `i` on.
pub open spec fn tread_kids(
    img: Image,
    cs: Seq<ChildView>,
    i: int,
    depth: int,
    w: WalkView,
    cap: int,
) -> Trodden
    decreases cap - depth + 1, cs.len() - i + 1,
{
    if i >= cs.len() || i < 0 {
        Trodden { w, end: Ok(()) }
    } else {
        let t = tread(img, cs[i].child_slot, depth, w, cap);
        match t.end {
            Ok(()) => tread_kids(img, cs, i + 1, depth, t.w, cap),
            Err(_) => t,
        }
    }
}

/// A walk over the trees of all roots from position `i` on.
pub open spec fn tread_roots(img: Image, rs: Seq<RootView>, i: int, w: WalkView) -> Trodden
    decreases rs.len() - i,
{
    if i >= rs.len() || i < 0 {
        Trodden { w, end: Ok(()) }
    } else {
        let t = tread(img, rs[i].index_slot, 0, w, w.max_depth as int);
        match t.end {
            Ok(()) => tread_roots(img, rs, i + 1, t.w),
            Err(_) => t,
        }
    }
}

/// A walk over everything that the current superblock leads to.
pub open spec fn tread_all(s: Space) -> Trodden {
    let w = s.walk_now();
    match s.roots() {
        Err(e) => Trodden { w, end: Err(e) },
        Ok(rs) => match walk_refusal(w, s.state.superblock.root_slot, 0) {
            Some(why) => Trodden { w, end: Err(Error::Malformed(why)) },
            None => tread_roots(s.file@, rs, 0, walk_step(w, s.state.superblock.root_slot)),
        },
    }
}

impl Space {
    /// Goes to every node under the one at `slot`.
    fn walk_tree_chunks_at(&self, slot: u64, depth: u8, walk: &mut TreeWalk) -> (r: Result<
        (),
        Error,
    >)
        requires
            old(walk).wf(),
            depth <= old(walk)@.max_depth + 1,
        ensures
            final(walk).wf(),
            final(walk)@.max_depth == old(walk)@.max_depth,
            ({
                let t = tread(
                    self.file@,
                    slot,
                    depth as int,
                    old(walk)@,
                    old(walk)@.max_depth as int,
                );
                &&& r == t.end
                &&& r is Ok ==> final(walk)@ == t.w
            }),
        decreases old(walk)@.max_depth + 1 - depth,
    {
        let ghost img = self.file@;
        let ghost cap = walk@.max_depth as int;
        let ghost want = tread(img, slot, depth as int, walk@, cap);
        match walk.visit(slot, depth) {
            Ok(()) => {},
            Err(e) => {
                return Err(e);
            },
        }
        match self.read_index_node_at(slot) {
            Err(e) => Err(e),
            Ok(IndexNode::Leaf(_)) => Ok(()),
            Ok(IndexNode::Internal(node)) => {
                let ghost cs = node@.children;
                let mut i: usize = 0;
                while i < node.children.len()
                    invariant
                        i <= node.children@.len(),
                        cs == node@.children,
                        walk.wf(),
                        walk@.max_depth == cap,
                        old(walk)@.max_depth == cap,
                        depth <= cap,
                        cap <= 32,
                        img == self.file@,
                        want == tread_kids(img, cs, i as int, depth + 1, walk@, cap),
                        want == tread(img, slot, depth as int, old(walk)@, cap),
                    decreases node.children@.len() - i,
                {
                    assert(cs[i as int].child_slot == node.children@[i as int].child_slot);
                    match self.walk_tree_chunks_at(node.children[i].child_slot, depth + 1, walk) {
                        Err(e) => {
                            return Err(e);
                        },
                        Ok(()) => {},
                    }
                    i = i + 1;
                }
                Ok(())
            },
        }
    }

    /// Goes to everything that the current superblock leads to.
    fn walk_reachable(&mut self) -> (r: Result<TreeWalk, Error>)
        requires
            old(self).wf(),
        ensures
            final(self).wf(),
            quiet(*old(self), *final(self)),
            match r {
                Ok(walk) => tread_all(*old(self)).end is Ok && walk@ == tread_all(*old(self)).w,
                Err(e) => tread_all(*old(self)).end == Err::<(), Error>(e),
            },
    {
        let ghost s0 = *self;
        let roots = match self.load_prior_roots() {
            Ok(v) => v,
            Err(e) => {
                return Err(e);
            },
        };
        let ghost rs = roots_view(roots@);
        let mut walk = self.new_tree_walk();
        match walk.visit(self.state.superblock.root_slot, 0) {
            Ok(()) => {},
            Err(e) => {
                return Err(e);
            },
        }
        let mut i: usize = 0;
        while i < roots.len()
            invariant
                i <= roots@.len(),
                rs == roots_view(roots@),
                s0 == *old(self),
                self.wf(),
                quiet(s0, *self),
                walk.wf(),
                tread_all(s0) == tread_roots(s0.file@, rs, i as int, walk@),
            decreases roots@.len() - i,
        {
            assert(rs[i as int].index_slot == roots@[i as int].index_slot);
            match self.walk_tree_chunks_at(roots[i].index_slot, 0, &mut walk) {
                Ok(()) => {},
                Err(e) => {
                    return Err(e);
                },
            }
            i = i + 1;
        }
        Ok(walk)
    }
}

// ---------------------------------------------------------------------------
// What log entries point at
// ---------------------------------------------------------------------------

/// Some entry points at the slot.
pub open spec fn points_at(es: Seq<EntryView>, x: u64) -> bool {
    exists|i: int| 0 <= i < es.len() && slot_of_value((#[trigger] es[i]).1) == Ok::<u64, Error>(x)
}

/// The slots below `n` that entries point at.
pub open spec fn pointed_below(es: Seq<EntryView>, n: int) -> Set<u64> {
    Set::new(|x: u64| x < n && points_at(es, x))
}

/// The entries of all logs among the first `n` roots, or why they cannot be
/// read.
pub open spec fn log_entries(s: Space, rs: Seq<RootView>, n: int) -> Result<Seq<EntryView>, Error>
    decreases n,
{
    if n <= 0 {
        Ok(Seq::<EntryView>::empty())
    } else {
        match log_entries(s, rs, n - 1) {
            Err(e) => Err(e),
            Ok(es) => if rs[n - 1].kind != NamespaceKind::Log {
                Ok(es)
            } else {
                let g = gather(
                    s.file@,
                    rs[n - 1].namespace,
                    everything(),
                    rs[n - 1].index_slot,
                    0,
                    s.walk_now(),
                    es,
                    s.walk_now().max_depth as int,
                );
                match g.end {
                    Ok(_) => Ok(g.out),
                    Err(e) => Err(e),
                }
            },
        }
    }
}

/// A failure among the first roots is the failure of all.
proof fn lemma_log_entries_fails(s: Space, rs: Seq<RootView>, m: int, n: int)
    requires
        m <= n,
        log_entries(s, rs, m) is Err,
    ensures
        log_entries(s, rs, n) == log_entries(s, rs, m),
    decreases n - m,
{
    if m < n {
        lemma_log_entries_fails(s, rs, m, n - 1);
    }
}

/// One more entry.
proof fn lemma_pointed_push(es: Seq<EntryView>, e: EntryView, n: int)
    ensures
        pointed_below(es.push(e), n) == match slot_of_value(e.1) {
            Ok(x) => if x < n {
                pointed_below(es, n).insert(x)
            } else {
                pointed_below(es, n)
            },
            Err(_) => pointed_below(es, n),
        },
{
    let more = es.push(e);
    assert forall|x: u64| points_at(more, x) <==> points_at(es, x) || slot_of_value(e.1) == Ok::<
        u64,
        Error,
    >(x) by {
        if points_at(more, x) {
            let i = choose|i: int|
                0 <= i < more.len() && slot_of_value((#[trigger] more[i]).1) == Ok::<u64, Error>(x);
            if i < es.len() {
                assert(es[i] == more[i]);
            }
        }
        if points_at(es, x) {
            let i = choose|i: int|
                0 <= i < es.len() && slot_of_value((#[trigger] es[i]).1) == Ok::<u64, Error>(x);
            assert(more[i] == es[i]);
        }
        if slot_of_value(e.1) == Ok::<u64, Error>(x) {
            assert(more[es.len() as int] == e);
        }
    }
    match slot_of_value(e.1) {
        Ok(x) => {
            if x < n {
                assert(pointed_below(more, n) =~= pointed_below(es, n).insert(x));
            } else {
                assert(pointed_below(more, n) =~= pointed_below(es, n));
            }
        },
        Err(_) => {
            assert(pointed_below(more, n) =~= pointed_below(es, n));
        },
    }
}

impl Space {
    /// Notes the slots that the entries under the node at `slot` point at.
    #[verifier::spinoff_prover]
    fn note_pointers_at(
        &self,
        slot: u64,
        namespace: Namespace,
        depth: u8,
        walk: &mut TreeWalk,
        referenced: &mut OwnedSet,
        Ghost(out): Ghost<Seq<EntryView>>,
    ) -> (r: Result<(), Error>)
        requires
            old(walk).wf(),
            depth <= old(walk)@.max_depth + 1,
            old(referenced).wf(),
            old(referenced)@ == pointed_below(out, self.file@.len() as int),
        ensures
            final(walk).wf(),
            final(walk)@.max_depth == old(walk)@.max_depth,
            final(referenced).wf(),
            ({
                let g = gather(
                    self.file@,
                    namespace,
                    everything(),
                    slot,
                    depth as int,
                    old(walk)@,
                    out,
                    old(walk)@.max_depth as int,
                );
                match r {
                    Ok(()) => {
                        &&& g.end == Ok::<bool, Error>(false)
                        &&& final(referenced)@ == pointed_below(g.out, self.file@.len() as int)
                        &&& final(walk)@ == g.w
                    },
                    Err(e) => g.end == Err::<bool, Error>(e),
                }
            }),
        decreases old(walk)@.max_depth + 1 - depth,
    {
        let ghost img = self.file@;
        let ghost cap = walk@.max_depth as int;
        let total: u64 = self.file.slot_count();
        let ghost want = gather(
            img,
            namespace,
            everything(),
            slot,
            depth as int,
            walk@,
            out,
            cap,
        );
        match walk.visit(slot, depth) {
            Ok(()) => {},
            Err(e) => {
                return Err(e);
            },
        }
        let ghost w1 = walk@;
        match self.read_index_node_at_expected(slot, namespace) {
            Err(e) => Err(e),
            Ok(IndexNode::Leaf(l)) => {
                let ghost es = l@.entries;
                let ghost mut had = out;
                let mut i: usize = 0;
                while i < l.entries.len()
                    invariant
                        i <= l.entries@.len(),
                        es == l@.entries,
                        total == img.len(),
                        img == self.file@,
                        total <= usize::MAX,
                        walk.wf(),
                        walk@ == w1,
                        w1.max_depth == cap,
                        old(walk)@.max_depth == cap,
                        referenced.wf(),
                        referenced@ == pointed_below(had, img.len() as int),
                        want == scan(everything(), es, i as int, w1, had),
                        want == gather(
                            img,
                            namespace,
                            everything(),
                            slot,
                            depth as int,
                            old(walk)@,
                            out,
                            cap,
                        ),
                    decreases l.entries@.len() - i,
                {
                    proof {
                        assert(es[i as int].1 == l.entries@[i as int].1@);
                        lemma_pointed_push(had, es[i as int], img.len() as int);
                    }
                    if let Ok(x) = parse_batch_slot_value(l.entries[i].1.as_slice()) {
                        if x < total {
                            referenced.insert(x);
                        }
                    }
                    proof {
                        had = had.push(es[i as int]);
                    }
                    i = i + 1;
                }
                Ok(())
            },
            Ok(IndexNode::Internal(node)) => {
                let ghost cs = node@.children;
                let ghost mut had = out;
                let mut i: usize = 0;
                while i < node.children.len()
                    invariant
                        i <= node.children@.len(),
                        cs == node@.children,
                        walk.wf(),
                        walk@.max_depth == cap,
                        old(walk)@.max_depth == cap,
                        depth <= cap,
                        cap <= 32,
                        img == self.file@,
                        referenced.wf(),
                        referenced@ == pointed_below(had, img.len() as int),
                        want == gather_kids(
                            img,
                            namespace,
                            everything(),
                            cs,
                            i as int,
                            depth + 1,
                            walk@,
                            had,
                            cap,
                        ),
                        want == gather(
                            img,
                            namespace,
                            everything(),
                            slot,
                            depth as int,
                            old(walk)@,
                            out,
                            cap,
                        ),
                    decreases node.children@.len() - i,
                {
                    assert(cs[i as int].child_slot == node.children@[i as int].child_slot);
                    let ghost g = gather(
                        img,
                        namespace,
                        everything(),
                        cs[i as int].child_slot,
                        depth + 1,
                        walk@,
                        had,
                        cap,
                    );
                    match self.note_pointers_at(
                        node.children[i].child_slot,
                        namespace,
                        depth + 1,
                        walk,
                        referenced,
                        Ghost(had),
                    ) {
                        Err(e) => {
                            return Err(e);
                        },
                        Ok(()) => {},
                    }
                    proof {
                        had = g.out;
                    }
                    i = i + 1;
                }
                Ok(())
            },
        }
    }

    /// The slots that log entries point at.
    #[verifier::spinoff_prover]
    fn referenced_batches(&self, roots: &Vec<IndexRoot>) -> (r: Result<OwnedSet, Error>)
        requires
            self.wf(),
        ensures
            match r {
                Ok(set) => {
                    &&& set.wf()
                    &&& log_entries(*self, roots_view(roots@), roots@.len() as int) is Ok
                    &&& set@ == pointed_below(
                        log_entries(*self, roots_view(roots@), roots@.len() as int)->Ok_0,
                        self.file@.len() as int,
                    )
                },
                Err(e) => log_entries(*self, roots_view(roots@), roots@.len() as int) == Err::<
                    Seq<EntryView>,
                    Error,
                >(e),
            },
    {
        let ghost rs = roots_view(roots@);
        let ghost mut es = Seq::<EntryView>::empty();
        let mut referenced = OwnedSet::with_capacity(0);
        assert(referenced@ =~= pointed_below(es, self.file@.len() as int));
        let mut i: usize = 0;
        while i < roots.len()
            invariant
                i <= roots@.len(),
                rs == roots_view(roots@),
                self.wf(),
                referenced.wf(),
                log_entries(*self, rs, i as int) == Ok::<Seq<EntryView>, Error>(es),
                referenced@ == pointed_below(es, self.file@.len() as int),
            decreases roots@.len() - i,
        {
            assert(rs[i as int] == roots@[i as int]@);
            if roots[i].kind == NamespaceKind::Log {
                let mut walk = self.new_tree_walk();
                let ghost g = gather(
                    self.file@,
                    rs[i as int].namespace,
                    everything(),
                    rs[i as int].index_slot,
                    0,
                    self.walk_now(),
                    es,
                    self.walk_now().max_depth as int,
                );
                match self.note_pointers_at(
                    roots[i].index_slot,
                    roots[i].namespace,
                    0,
                    &mut walk,
                    &mut referenced,
                    Ghost(es),
                ) {
                    Ok(()) => {},
                    Err(e) => {
                        proof {
                            lemma_log_entries_fails(*self, rs, i + 1, rs.len() as int);
                        }
                        return Err(e);
                    },
                }
                proof {
                    es = g.out;
                }
            }
            i = i + 1;
        }
        Ok(referenced)
    }
}

// ---------------------------------------------------------------------------
// Sweeping
// ---------------------------------------------------------------------------

/// The slots that a sweep leaves alone.
pub enum Spared<'a> {
    Walked(&'a TreeWalk),
    Listed(&'a OwnedSet),
}

impl<'a> Spared<'a> {
    /// The slots that are left alone.
    pub open spec fn set(self) -> Set<u64> {
        match self {
            Spared::Walked(w) => w@.visited,
            Spared::Listed(l) => l@,
        }
    }

    /// Is the slot left alone?
    fn contains(&self, slot: u64) -> (r: bool)
        ensures
            r == self.set().contains(slot),
    {
        match self {
            Spared::Walked(w) => w.has_visited(slot),
            Spared::Listed(l) => l.contains(slot),
        }
    }
}

/// What a sweep is after.
pub struct Aim {
    /// Batches, rather than nodes.
    pub batches: bool,
    pub spared: Set<u64>,
}

/// What becomes of an owned slot.
pub enum Fate {
    Keep,
    /// It no longer opens; it is free for reuse.
    Forget,
    /// It is overwritten, and then free for reuse.
    Scrub,
}

/// What becomes of an owned slot.
pub open spec fn fate(img: Image, aim: Aim, slot: u64) -> Fate {
    if aim.spared.contains(slot) {
        Fate::Keep
    } else {
        match img[slot as int] {
            None => Fate::Forget,
            Some(p) => if aim.batches {
                if p.kind == ChunkKind::DataBatch {
                    Fate::Scrub
                } else {
                    Fate::Keep
                }
            } else if p.kind == ChunkKind::IndexNode {
                Fate::Scrub
            } else {
                Fate::Keep
            },
        }
    }
}

/// The owned slots below `mark` that are overwritten.
pub open spec fn swept(img: Image, owned: Set<u64>, aim: Aim, mark: int) -> Set<u64> {
    Set::new(|s: u64| s < mark && owned.contains(s) && fate(img, aim, s) is Scrub)
}

/// The owned slots below `mark` that become free.
pub open spec fn freed(img: Image, owned: Set<u64>, aim: Aim, mark: int) -> Set<u64> {
    Set::new(|s: u64| s < mark && owned.contains(s) && !(fate(img, aim, s) is Keep))
}

/// Past every slot number.
pub open spec fn past_all() -> int {
    0x1_0000_0000_0000_0000
}

/// What a sweep has gathered.
pub struct Sweep {
    pub batches: bool,
    pub to_drop: OwnedSet,
    pub scrubbed: usize,
}

impl Sweep {
    /// The set is well formed.
    pub open spec fn wf(self) -> bool {
        self.to_drop.wf()
    }

    /// What this sweep is after.
    pub open spec fn aim(self, spared: Set<u64>) -> Aim {
        Aim { batches: self.batches, spared }
    }
}

/// The sweep `b` is `a` after one slot.
pub open spec fn swept_slot(img: Image, a: Sweep, b: Sweep, spared: Set<u64>, slot: u64) -> bool {
    let aim = a.aim(spared);
    &&& b.batches == a.batches
    &&& b.to_drop@ == if fate(img, aim, slot) is Keep {
        a.to_drop@
    } else {
        a.to_drop@.insert(slot)
    }
    &&& b.scrubbed == a.scrubbed + if fate(img, aim, slot) is Scrub {
        1int
    } else {
        0
    }
}

impl Space {
    /// Judges one owned slot.
    #[verifier::spinoff_prover]
    fn sweep_slot(&mut self, slot: u64, spared: &Spared, sweep: &mut Sweep) -> (r: Result<
        (),
        Error,
    >)
        requires
            slot < old(self).file@.len(),
            old(self).file.lock_mode == LockMode::Exclusive,
            old(sweep).wf(),
            old(sweep).scrubbed < usize::MAX,
        ensures
            final(sweep).wf(),
            final(self).state == old(self).state,
            same_settings(old(self).file, final(self).file),
            final(self).file.durable == old(self).file.durable,
            final(self).file.room_left == old(self).file.room_left,
            match r {
                Ok(()) => {
                    &&& if fate(
                        old(self).file@,
                        old(sweep).aim(spared.set()),
                        slot,
                    ) is Scrub {
                        &&& takes_write(old(self).file)
                        &&& final(self).file.writes_left == one_write_less(
                            old(self).file.writes_left,
                        )
                        &&& wrote_only(old(self).file, final(self).file, set![slot])
                    } else {
                        final(self).file == old(self).file
                    }
                    &&& swept_slot(
                        old(self).file@,
                        *old(sweep),
                        *final(sweep),
                        spared.set(),
                        slot,
                    )
                    &&& final(self).file@ == if fate(
                        old(self).file@,
                        old(sweep).aim(spared.set()),
                        slot,
                    ) is Scrub {
                        old(self).file@.update(slot as int, None)
                    } else {
                        old(self).file@
                    }
                },
                Err(e) => {
                    &&& final(self).file == old(self).file
                    &&& e == Error::Io("device refused the write")
                    &&& fate(
                        old(self).file@,
                        old(sweep).aim(spared.set()),
                        slot,
                    ) is Scrub
                    &&& !takes_write(old(self).file)
                },
            },
    {
        proof {
            let count = self.file.slots.len();
            assert(slot < count);
        }
        if spared.contains(slot) {
            return Ok(());
        }
        let kind: ChunkKind;
        match self.read_owned_chunk(slot) {
            Ok(pt) => {
                kind = pt.kind;
            },
            Err(_) => {
                sweep.to_drop.insert(slot);
                return Ok(());
            },
        }
        let wanted: bool = if sweep.batches {
            kind == ChunkKind::DataBatch
        } else {
            kind == ChunkKind::IndexNode
        };
        if !wanted {
            return Ok(());
        }
        match self.file.scrub_slot(slot) {
            Ok(()) => {},
            Err(e) => {
                return Err(e);
            },
        }
        sweep.to_drop.insert(slot);
        sweep.scrubbed = sweep.scrubbed + 1;
        Ok(())
    }
}

/// The image with the slots of `gone` overwritten.
pub open spec fn scrubbed(img: Image, gone: Set<u64>) -> Image {
    Seq::new(
        img.len(),
        |i: int|
            if gone.contains(i as u64) {
                None
            } else {
                img[i]
            },
    )
}

/// Some of the slots of `gone` have been overwritten.
pub open spec fn partly_scrubbed(a: Image, b: Image, gone: Set<u64>) -> bool {
    &&& b.len() == a.len()
    &&& forall|s: u64|
        s < a.len() ==> (#[trigger] b[s as int]) == a[s as int] || (gone.contains(s)
            && b[s as int] is None)
}

/// A sweep of the owned slots below `mark`.
pub open spec fn swept_to(a: Space, b: Space, sw: Sweep, spared: Set<u64>, mark: int) -> bool {
    let img = a.file@;
    let owned = a.state.owned_slots@;
    let aim = sw.aim(spared);
    &&& b.state == a.state
    &&& same_settings(a.file, b.file)
    &&& wrote_only(a.file, b.file, swept(img, owned, aim, mark))
    &&& b.file.durable == a.file.durable
    &&& b.file.room_left == a.file.room_left
    &&& affords(a.file.writes_left, sw.scrubbed as int)
    &&& b.file.writes_left == writes_less(a.file.writes_left, sw.scrubbed as int)
    &&& b.file@ == scrubbed(img, swept(img, owned, aim, mark))
    &&& sw.wf()
    &&& sw.to_drop@ == freed(img, owned, aim, mark)
    &&& swept(img, owned, aim, mark).finite()
    &&& sw.scrubbed == swept(img, owned, aim, mark).len()
}

/// A mark moves on over slots that are not owned.
proof fn lemma_sweep_skip(a: Space, b: Space, sw: Sweep, spared: Set<u64>, m: int, n: int)
    requires
        swept_to(a, b, sw, spared, m),
        m <= n,
        forall|s: u64| m <= s < n ==> !a.state.owned_slots@.contains(s),
    ensures
        swept_to(a, b, sw, spared, n),
{
    let img = a.file@;
    let owned = a.state.owned_slots@;
    let aim = sw.aim(spared);
    assert(swept(img, owned, aim, n) =~= swept(img, owned, aim, m));
    assert(freed(img, owned, aim, n) =~= freed(img, owned, aim, m));
}

/// A mark moves on over an owned slot that has been judged.
proof fn lemma_sweep_step(
    a: Space,
    b: Space,
    c: Space,
    sw: Sweep,
    sx: Sweep,
    spared: Set<u64>,
    slot: u64,
)
    requires
        swept_to(a, b, sw, spared, slot as int),
        a.state.owned_slots@.contains(slot),
        slot < a.file@.len(),
        sx.wf(),
        c.state == b.state,
        same_settings(b.file, c.file),
        if fate(b.file@, sw.aim(spared), slot) is Scrub {
            &&& takes_write(b.file)
            &&& c.file.writes_left == one_write_less(b.file.writes_left)
            &&& wrote_only(b.file, c.file, set![slot])
        } else {
            c.file == b.file
        },
        c.file.durable == b.file.durable,
        c.file.room_left == b.file.room_left,
        swept_slot(b.file@, sw, sx, spared, slot),
        c.file@ == if fate(b.file@, sw.aim(spared), slot) is Scrub {
            b.file@.update(slot as int, None)
        } else {
            b.file@
        },
    ensures
        swept_to(a, c, sx, spared, slot + 1),
{
    let img = a.file@;
    let owned = a.state.owned_slots@;
    let aim = sw.aim(spared);
    assert(sx.aim(spared) == aim);
    assert(b.file@[slot as int] == img[slot as int]);
    assert(fate(b.file@, aim, slot) == fate(img, aim, slot));
    let m = slot as int;
    let n = slot + 1;
    if fate(img, aim, slot) is Scrub {
        assert(swept(img, owned, aim, n) =~= swept(img, owned, aim, m).insert(slot));
        assert(!swept(img, owned, aim, m).contains(slot));
    } else {
        assert(swept(img, owned, aim, n) =~= swept(img, owned, aim, m));
    }
    let count = a.file.slots.len();
    assert(img.len() == count);
    assert(c.file@ =~= scrubbed(img, swept(img, owned, aim, n)));
    if fate(img, aim, slot) is Keep {
        assert(freed(img, owned, aim, n) =~= freed(img, owned, aim, m));
    } else {
        assert(freed(img, owned, aim, n) =~= freed(img, owned, aim, m).insert(slot));
    }
}

/// What is swept is owned, so it can be counted.
proof fn lemma_swept_len(a: Space, aim: Aim, mark: int)
    requires
        a.wf(),
    ensures
        swept(a.file@, a.state.owned_slots@, aim, mark).len() <= a.state.owned_slots@.len(),
{
    let owned = a.state.owned_slots@;
    assert(swept(a.file@, owned, aim, mark).subset_of(owned));
    vstd::set_lib::lemma_len_subset(swept(a.file@, owned, aim, mark), owned);
}

/// What is still to be overwritten counts.
proof fn lemma_one_more(a: Space, b: Space, sw: Sweep, spared: Set<u64>, slot: u64)
    requires
        a.wf(),
        swept_to(a, b, sw, spared, slot as int),
        a.state.owned_slots@.contains(slot),
        slot < a.file@.len(),
        fate(b.file@, sw.aim(spared), slot) is Scrub,
    ensures
        sw.scrubbed < scrub_set(a, sw.aim(spared)).len(),
{
    let aim = sw.aim(spared);
    let m = swept(a.file@, a.state.owned_slots@, aim, slot as int);
    let all = scrub_set(a, aim);
    lemma_scrub_set_owned(a, aim);
    assert(b.file@[slot as int] == a.file@[slot as int]);
    assert(m.insert(slot).subset_of(all));
    assert(!m.contains(slot));
    vstd::set_lib::lemma_len_subset(m.insert(slot), all);
}

/// A part of what is to be overwritten has been.
proof fn lemma_partly(a: Space, b: Space, sw: Sweep, spared: Set<u64>, m: int)
    requires
        swept_to(a, b, sw, spared, m),
        m <= past_all(),
    ensures
        partly_scrubbed(
            a.file@,
            b.file@,
            swept(a.file@, a.state.owned_slots@, sw.aim(spared), past_all()),
        ),
{
}

impl Space {
    /// Judges every owned slot.
    #[verifier::spinoff_prover]
    #[verifier::rlimit(40)]
    fn sweep_owned(&mut self, spared: &Spared, sweep: &mut Sweep) -> (r: Result<(), Error>)
        requires
            old(self).wf(),
            old(self).file.lock_mode == LockMode::Exclusive,
            swept_to(*old(self), *old(self), *old(sweep), spared.set(), 0),
        ensures
            match r {
                Ok(()) => {
                    &&& final(sweep).batches == old(sweep).batches
                    &&& swept_to(
                        *old(self),
                        *final(self),
                        *final(sweep),
                        spared.set(),
                        past_all(),
                    )
                },
                Err(e) => {
                    &&& e == Error::Io("device refused the write")
                    &&& !affords(
                        old(self).file.writes_left,
                        scrub_set(*old(self), old(sweep).aim(spared.set())).len() as int,
                    )
                    &&& exists|mark: int| #[trigger]
                        broke_off(*old(self), *final(self), old(sweep).aim(spared.set()), mark)
                    &&& final(self).file.writes_left == Some(0u64)
                    &&& final(self).state == old(self).state
                    &&& final(self).file.durable == old(self).file.durable
                    &&& final(self).file.room_left == old(self).file.room_left
                    &&& same_settings(old(self).file, final(self).file)
                    &&& wrote_only(
                        old(self).file,
                        final(self).file,
                        scrub_set(*old(self), old(sweep).aim(spared.set())),
                    )
                    &&& partly_scrubbed(
                        old(self).file@,
                        final(self).file@,
                        swept(
                            old(self).file@,
                            old(self).state.owned_slots@,
                            old(sweep).aim(spared.set()),
                            past_all(),
                        ),
                    )
                },
            },
    {
        let ghost a = *self;
        let ghost owned = a.state.owned_slots@;
        let ghost sp = spared.set();
        let ghost aim = sweep.aim(sp);
        let count: usize = self.state.owned_slots.word_count();
        let mut w: usize = 0;
        while w < count
            invariant
                a == *old(self),
                a.wf(),
                owned == a.state.owned_slots@,
                sp == spared.set(),
                a.file.lock_mode == LockMode::Exclusive,
                w <= count,
                count == a.state.owned_slots.words@.len(),
                sweep.batches == old(sweep).batches,
                aim == sweep.aim(sp),
                aim == old(sweep).aim(sp),
                swept_to(a, *self, *sweep, sp, w * 64),
            decreases count - w,
        {
            let word: u64 = self.state.owned_slots.word(w);
            let list = slots_in_word(w, word);
            let ghost mut mark: int = w * 64;
            let mut j: usize = 0;
            while j < list.len()
                invariant
                    a == *old(self),
                    a.wf(),
                    owned == a.state.owned_slots@,
                    sp == spared.set(),
                    a.file.lock_mode == LockMode::Exclusive,
                    w < count,
                    count == a.state.owned_slots.words@.len(),
                    sweep.batches == old(sweep).batches,
                    aim == sweep.aim(sp),
                    aim == old(sweep).aim(sp),
                    crate::space::slots::lists_word(list@, w as int, word),
                    word == a.state.owned_slots.words@[w as int],
                    j <= list@.len(),
                    w * 64 <= mark,
                    j > 0 ==> mark == list@[j - 1] + 1,
                    j == 0 ==> mark == w * 64,
                    swept_to(a, *self, *sweep, sp, mark),
                decreases list@.len() - j,
            {
                let slot: u64 = list[j];
                let ghost b = *self;
                let ghost sw = *sweep;
                proof {
                    assert(list@.contains(list@[j as int]));
                    assert(owned.contains(slot));
                    assert forall|s: u64| mark <= s < slot implies !owned.contains(s) by {
                        if owned.contains(s) {
                            assert(s / 64 == w);
                            assert(list@.contains(s));
                            let k = choose|k: int| 0 <= k < list@.len() && list@[k] == s;
                            if k < j {
                                assert(list@[k] <= list@[j - 1]);
                            } else if k > j {
                                assert(list@[j as int] < list@[k]);
                            }
                        }
                    }
                    assert(mark <= slot) by {
                        if j > 0 {
                            assert(list@[j - 1] < list@[j as int]);
                        } else {
                            assert(slot / 64 == w);
                        }
                    }
                    lemma_sweep_skip(a, b, sw, sp, mark, slot as int);
                    lemma_swept_len(a, aim, slot as int);
                    assert(slot < a.file@.len());
                    assert(!swept(a.file@, owned, aim, slot as int).contains(slot));
                    lemma_room_to_count(a, aim, slot);
                }
                match self.sweep_slot(slot, spared, sweep) {
                    Ok(()) => {},
                    Err(e) => {
                        proof {
                            lemma_partly(a, b, sw, sp, slot as int);
                            lemma_one_more(a, b, sw, sp, slot);
                            assert(broke_off(a, *self, aim, slot as int));
                        }
                        return Err(e);
                    },
                }
                proof {
                    lemma_sweep_step(a, b, *self, sw, *sweep, sp, slot);
                    mark = slot + 1;
                }
                j = j + 1;
            }
            proof {
                assert forall|s: u64| mark <= s < (w + 1) * 64 implies !owned.contains(s) by {
                    if owned.contains(s) {
                        assert(s / 64 == w);
                        assert(list@.contains(s));
                        let k = choose|k: int| 0 <= k < list@.len() && list@[k] == s;
                        if k < j - 1 {
                            assert(list@[k] < list@[j - 1]);
                        }
                    }
                }
                assert(mark <= (w + 1) * 64) by {
                    if j > 0 {
                        assert(list@.contains(list@[j - 1]));
                        assert(list@[j - 1] / 64 == w);
                    }
                }
                lemma_sweep_skip(a, *self, *sweep, sp, mark, (w + 1) * 64);
            }
            w = w + 1;
        }
        proof {
            assert forall|s: u64|
                w * 64 <= s < past_all() implies !owned.contains(s) by {}
            assert(a.state.owned_slots.words@.len() <= crate::space::slots::MAX_WORDS);
            lemma_sweep_skip(a, *self, *sweep, sp, w * 64, past_all());
        }
        Ok(())
    }
}

/// Before an owned slot is judged, fewer than all have been overwritten.
proof fn lemma_room_to_count(a: Space, aim: Aim, slot: u64)
    requires
        a.wf(),
        a.state.owned_slots@.contains(slot),
    ensures
        swept(a.file@, a.state.owned_slots@, aim, slot as int).len() < usize::MAX,
{
    let owned = a.state.owned_slots@;
    let set = swept(a.file@, owned, aim, slot as int);
    assert(set.subset_of(owned.remove(slot)));
    vstd::set_lib::lemma_len_subset(set, owned.remove(slot));
    assert(a.state.owned_slots.len == owned.len());
}

/// Everything that is overwritten.
pub open spec fn scrub_set(a: Space, aim: Aim) -> Set<u64> {
    swept(a.file@, a.state.owned_slots@, aim, past_all())
}

/// Everything that becomes free for reuse.
pub open spec fn free_set(a: Space, aim: Aim) -> Set<u64> {
    freed(a.file@, a.state.owned_slots@, aim, past_all())
}

/// What is overwritten is owned and in the file.
pub proof fn lemma_scrub_set_owned(a: Space, aim: Aim)
    requires
        a.wf(),
    ensures
        scrub_set(a, aim).subset_of(free_set(a, aim)),
        free_set(a, aim).subset_of(a.state.owned_slots@),
        scrub_set(a, aim).finite(),
        free_set(a, aim).finite(),
        scrub_set(a, aim).len() <= a.state.owned_slots@.len(),
        forall|s: u64| #[trigger] free_set(a, aim).contains(s) ==> s < a.file@.len(),
{
    let owned = a.state.owned_slots@;
    assert(free_set(a, aim).subset_of(owned));
    assert(scrub_set(a, aim).subset_of(free_set(a, aim)));
    vstd::set_lib::lemma_len_subset(scrub_set(a, aim), owned);
    vstd::set_lib::lemma_len_subset(free_set(a, aim), owned);
}

// ---------------------------------------------------------------------------
// Vacuuming
// ---------------------------------------------------------------------------

/// How often a sweep goes to the device: once for each chunk, and once to make
/// it last where there was one.
pub open spec fn sweep_writes(a: Space, aim: Aim) -> int {
    let n = scrub_set(a, aim).len() as int;
    if n == 0 {
        0
    } else {
        n + 1
    }
}

/// What stops a sweep on a device that does not take that many writes.
pub open spec fn sweep_error(a: Space, aim: Aim) -> Error {
    if affords(a.file.writes_left, scrub_set(a, aim).len() as int) {
        Error::Io("device refused to flush")
    } else {
        Error::Io("device refused the write")
    }
}

/// `b` is `a` with everything overwritten that the sweep is after, which is on
/// the device, and the slots free for reuse.
pub open spec fn vacuumed(a: Space, b: Space, aim: Aim) -> bool {
    &&& b.file@ == scrubbed(a.file@, scrub_set(a, aim))
    &&& same_settings(a.file, b.file)
    &&& wrote_only(a.file, b.file, scrub_set(a, aim))
    &&& affords(a.file.writes_left, sweep_writes(a, aim))
    &&& b.file.writes_left == writes_less(a.file.writes_left, sweep_writes(a, aim))
    &&& b.file.room_left == a.file.room_left
    &&& if sweep_writes(a, aim) > 0 {
        b.file.durable@ == b.file@
    } else {
        b.file.durable == a.file.durable
    }
    &&& b.state.owned_slots@ == a.state.owned_slots@.difference(free_set(a, aim))
    &&& b.state.pool@ == a.state.pool@.union(free_set(a, aim))
    &&& b.state.pool.drift == counted(a.state.pool.drift, free_set(a, aim).len() as int)
    &&& b.state == (SpaceState {
        owned_slots: b.state.owned_slots,
        pool: b.state.pool,
        roots_payload_cache: b.state.roots_payload_cache,
        ..a.state
    })
}

/// The sweep, by rising slot, broke off at `mark`: as many chunks before it are
/// overwritten as the device took writes.
pub open spec fn broke_off(a: Space, b: Space, aim: Aim, mark: int) -> bool {
    let gone = swept(a.file@, a.state.owned_slots@, aim, mark);
    &&& b.file@ == scrubbed(a.file@, gone)
    &&& a.file.writes_left matches Some(n) && gone.len() == n
}

/// `b` is `a` with some of that overwritten, and nothing else changed: the
/// device does not take as many writes.
pub open spec fn half_vacuumed(a: Space, b: Space, aim: Aim) -> bool {
    &&& partly_scrubbed(a.file@, b.file@, scrub_set(a, aim))
    &&& !affords(a.file.writes_left, sweep_writes(a, aim))
    &&& exists|mark: int| #[trigger] broke_off(a, b, aim, mark)
    &&& b.file.writes_left == Some(0u64)
    &&& b.file.durable == a.file.durable
    &&& b.file.room_left == a.file.room_left
    &&& same_settings(a.file, b.file)
    &&& wrote_only(a.file, b.file, scrub_set(a, aim))
    &&& b.state == (SpaceState { roots_payload_cache: b.state.roots_payload_cache, ..a.state })
}

/// Why nothing may be overwritten, if it may not.
pub open spec fn vacuum_refusal(s: Space) -> Option<Error> {
    if s.state.unreadable_newer_superblock is Some {
        Some(Error::UnreadableNewerState)
    } else if s.file.lock_mode != LockMode::Exclusive {
        Some(Error::ReadOnly)
    } else if s.state.attempted_seq > s.state.superblock.seq {
        Some(Error::PublishUncertain("vacuuming"))
    } else {
        None
    }
}

/// The sweep for nodes that are not reachable.
pub open spec fn orphan_aim(s: Space) -> Aim {
    Aim {
        batches: false,
        spared: tread_all(s).w.visited,
    }
}

/// The slots that the entries of all logs point at, or why those cannot be
/// read.
pub open spec fn all_log_entries(s: Space) -> Result<Seq<EntryView>, Error> {
    match s.roots() {
        Err(e) => Err(e),
        Ok(rs) => log_entries(s, rs, rs.len() as int),
    }
}

/// The sweep for batches that nothing points at.
pub open spec fn batch_aim(s: Space) -> Aim {
    Aim {
        batches: true,
        spared: pointed_below(all_log_entries(s)->Ok_0, s.file@.len() as int),
    }
}

/// What is in memory fits the file while things are overwritten.
proof fn lemma_half_wf(a: Space, b: Space, aim: Aim)
    requires
        a.wf(),
        b.state == a.state,
        partly_scrubbed(a.file@, b.file@, scrub_set(a, aim)),
    ensures
        b.wf(),
{
    let root = a.state.superblock.root_slot;
    assert forall|s: u64| #[trigger] live(b.file@, s) implies live(a.file@, s) && b.file@[s as int]
        == a.file@[s as int] by {}
    if live(a.file@, root) && a.file@[root as int]->0.kind == ChunkKind::Commit {
        assert(b.file@[root as int] == a.file@[root as int]);
    }
}

impl Space {
    /// Sweeps, and frees what became free.
    #[verifier::spinoff_prover]
    #[verifier::rlimit(40)]
    fn sweep(&mut self, spared: &Spared, batches: bool) -> (r: Result<usize, Error>)
        requires
            old(self).wf(),
            old(self).file.lock_mode == LockMode::Exclusive,
        ensures
            final(self).wf(),
            match r {
                Ok(n) => {
                    &&& n == scrub_set(
                        *old(self),
                        (Aim { batches, spared: spared.set() }),
                    ).len()
                    &&& vacuumed(
                        *old(self),
                        *final(self),
                        (Aim { batches, spared: spared.set() }),
                    )
                },
                Err(e) => {
                    &&& e == sweep_error(*old(self), (Aim { batches, spared: spared.set() }))
                    &&& half_vacuumed(
                        *old(self),
                        *final(self),
                        (Aim { batches, spared: spared.set() }),
                    )
                },
            },
    {
        let ghost a = *self;
        let ghost aim = Aim { batches, spared: spared.set() };
        let ghost owned = a.state.owned_slots@;
        let total: u64 = self.file.slot_count();
        let mut sweep = Sweep {
            batches,
            to_drop: OwnedSet::with_capacity(total),
            scrubbed: 0,
        };
        proof {
            assert(sweep.aim(spared.set()) == aim);
            assert(swept(a.file@, owned, aim, 0) =~= Set::<u64>::empty());
            assert(freed(a.file@, owned, aim, 0) =~= Set::<u64>::empty());
            assert(scrubbed(a.file@, Set::<u64>::empty()) =~= a.file@);
            lemma_scrub_set_owned(a, aim);
        }
        match self.sweep_owned(spared, &mut sweep) {
            Ok(()) => {},
            Err(e) => {
                proof {
                    lemma_half_wf(a, *self, aim);
                }
                return Err(e);
            },
        }
        let ghost b = *self;
        proof {
            assert(partly_scrubbed(a.file@, b.file@, scrub_set(a, aim)));
            lemma_half_wf(a, b, aim);
        }
        if sweep.scrubbed > 0 {
            match self.sync() {
                Ok(()) => {},
                Err(e) => {
                    assert(broke_off(a, *self, aim, past_all()));
                    return Err(e);
                },
            }
        }
        if !sweep.to_drop.is_empty() {
            let list = sweep.to_drop.to_sorted_vec();
            self.state.owned_slots.remove_all(&sweep.to_drop);
            let ghost freed_all = free_set(a, aim);
            assert(freed_all.disjoint(a.state.pool@)) by {
                assert forall|x: u64| #[trigger] freed_all.contains(x) implies !a.state.pool@.contains(
                    x,
                ) by {
                    assert(owned.contains(x));
                }
            }
            let mut i: usize = 0;
            let ghost c = *self;
            while i < list.len()
                invariant
                    i <= list@.len(),
                    lists(list@, freed_all),
                    sweep.to_drop.wf(),
                    sweep.to_drop@ == freed_all,
                    self.file == c.file,
                    self.state == (SpaceState { pool: self.state.pool, ..c.state }),
                    self.state.pool.wf(),
                    self.state.pool@ == a.state.pool@.union(list@.take(i as int).to_set()),
                    self.state.pool.drift == counted(a.state.pool.drift, i as int),
                    freed_all.disjoint(a.state.pool@),
                decreases list@.len() - i,
            {
                proof {
                    assert(list@.contains(list@[i as int]));
                    assert(freed_all.contains(list@[i as int]));
                    assert(!list@.take(i as int).contains(list@[i as int]));
                    crate::space::slots::lemma_take_to_set(list@, i as int);
                }
                self.state.pool.insert(list[i]);
                proof {
                    assert(self.state.pool@ =~= a.state.pool@.union(
                        list@.take(i + 1).to_set(),
                    ));
                }
                i = i + 1;
            }
            proof {
                assert(list@.take(i as int) =~= list@);
                assert(list@.to_set() =~= freed_all);
                crate::space::slots::lemma_lists_len(list@, freed_all);
                lemma_freed_live(a, b, aim);
            }
        } else {
            proof {
                assert(free_set(a, aim) =~= Set::<u64>::empty());
                assert(scrub_set(a, aim) =~= Set::<u64>::empty());
                assert(owned.difference(free_set(a, aim)) =~= owned);
                assert(a.state.pool@.union(free_set(a, aim)) =~= a.state.pool@);
            }
        }
        Ok(sweep.scrubbed)
    }
}

/// What becomes free does not open.
proof fn lemma_freed_live(a: Space, b: Space, aim: Aim)
    requires
        a.wf(),
        b.file@ == scrubbed(a.file@, scrub_set(a, aim)),
    ensures
        forall|s: u64| #[trigger] free_set(a, aim).contains(s) ==> !live(b.file@, s),
{
    assert forall|s: u64| #[trigger] free_set(a, aim).contains(s) implies !live(b.file@, s) by {
        if !(fate(a.file@, aim, s) is Scrub) {
            assert(a.file@[s as int] is None);
        } else {
            assert(scrub_set(a, aim).contains(s));
        }
    }
}

/// What `vacuum_orphans` makes of `a`, and what it answers.
pub open spec fn orphans_vacuumed(a: Space, b: Space, r: Result<usize, Error>) -> bool {
    match vacuum_refusal(a) {
        Some(e) => r == Err::<usize, Error>(e) && b == a,
        None => if a.state.superblock.root_slot == NO_RECORD {
            r == Ok::<usize, Error>(0) && b == a
        } else {
            match tread_all(a).end {
                Err(e) => r == Err::<usize, Error>(e) && quiet(a, b),
                Ok(()) => match r {
                    Ok(n) => n == scrub_set(a, orphan_aim(a)).len() && vacuumed(
                        a,
                        b,
                        orphan_aim(a),
                    ),
                    Err(e) => e == sweep_error(a, orphan_aim(a)) && half_vacuumed(
                        a,
                        b,
                        orphan_aim(a),
                    ),
                },
            }
        },
    }
}

impl Space {
    /// Says why nothing may be overwritten, if it may not.
    fn check_vacuum(&self) -> (r: Result<(), Error>)
        ensures
            match vacuum_refusal(*self) {
                Some(e) => r == Err::<(), Error>(e),
                None => r is Ok,
            },
    {
        if self.state.unreadable_newer_superblock.is_some() {
            return Err(Error::UnreadableNewerState);
        }
        if !self.file.lock_mode.allows_writes() {
            return Err(Error::ReadOnly);
        }
        if self.state.attempted_seq > self.state.superblock.seq {
            return Err(Error::PublishUncertain("vacuuming"));
        }
        Ok(())
    }

    /// Overwrites every node that the current superblock does not lead to.
    /// Batches, superblocks and commit records stay. Gives how many chunks were
    /// overwritten.
    pub fn vacuum_orphans(&mut self) -> (r: Result<usize, Error>)
        requires
            old(self).wf(),
        ensures
            final(self).wf(),
            orphans_vacuumed(*old(self), *final(self), r),
    {
        match self.check_vacuum() {
            Ok(()) => {},
            Err(e) => {
                return Err(e);
            },
        }
        if self.state.superblock.root_slot == NO_RECORD {
            return Ok(0);
        }
        let ghost s0 = *self;
        let walk = match self.walk_reachable() {
            Ok(w) => w,
            Err(e) => {
                return Err(e);
            },
        };
        let ghost s1 = *self;
        proof {
            let rs = s0.roots()->Ok_0;
            lemma_tread_roots_grows(
                s0.file@,
                rs,
                0,
                walk_step(s0.walk_now(), s0.state.superblock.root_slot),
            );
            lemma_quiet_sets(s0, s1, orphan_aim(s0));
        }
        let r = self.sweep(&Spared::Walked(&walk), false);
        proof {
            if r is Err {
                lemma_quiet_half(s0, s1, *self, orphan_aim(s0));
            }
        }
        r
    }

    /// Overwrites what the last session left unreachable. Does nothing on a
    /// handle that does not write.
    pub fn vacuum_after_open(&mut self) -> (r: Result<usize, Error>)
        requires
            old(self).wf(),
        ensures
            final(self).wf(),
            old(self).file.lock_mode != LockMode::Exclusive ==> r == Ok::<usize, Error>(0)
                && *final(self) == *old(self),
            old(self).file.lock_mode == LockMode::Exclusive ==> orphans_vacuumed(
                *old(self),
                *final(self),
                r,
            ),
    {
        if !self.file.lock_mode.allows_writes() {
            return Ok(0);
        }
        self.vacuum_orphans()
    }

    /// Overwrites every batch that no log entry points at. Gives how many
    /// chunks were overwritten.
    pub fn vacuum_data_batches(&mut self) -> (r: Result<usize, Error>)
        requires
            old(self).wf(),
        ensures
            final(self).wf(),
            match vacuum_refusal(*old(self)) {
                Some(e) => r == Err::<usize, Error>(e) && *final(self) == *old(self),
                None => if old(self).state.superblock.root_slot == NO_RECORD {
                    r == Ok::<usize, Error>(0) && *final(self) == *old(self)
                } else {
                    match all_log_entries(*old(self)) {
                        Err(e) => r == Err::<usize, Error>(e) && quiet(*old(self), *final(self)),
                        Ok(_) => match r {
                            Ok(n) => {
                                &&& n == scrub_set(*old(self), batch_aim(*old(self))).len()
                                &&& vacuumed(*old(self), *final(self), batch_aim(*old(self)))
                            },
                            Err(e) => {
                                &&& e == sweep_error(*old(self), batch_aim(*old(self)))
                                &&& half_vacuumed(*old(self), *final(self), batch_aim(*old(self)))
                            },
                        },
                    }
                },
            },
    {
        match self.check_vacuum() {
            Ok(()) => {},
            Err(e) => {
                return Err(e);
            },
        }
        if self.state.superblock.root_slot == NO_RECORD {
            return Ok(0);
        }
        let ghost s0 = *self;
        let roots = match self.load_prior_roots() {
            Ok(v) => v,
            Err(e) => {
                return Err(e);
            },
        };
        let ghost s1 = *self;
        proof {
            lemma_quiet_entries(s0, s1, roots_view(roots@), roots@.len() as int);
            lemma_quiet_sets(s0, s1, batch_aim(s0));
        }
        let referenced = match self.referenced_batches(&roots) {
            Ok(set) => set,
            Err(e) => {
                return Err(e);
            },
        };
        let r = self.sweep(&Spared::Listed(&referenced), true);
        proof {
            if r is Err {
                lemma_quiet_half(s0, s1, *self, batch_aim(s0));
            }
        }
        r
    }
}

/// What is overwritten does not depend on what is remembered.
proof fn lemma_quiet_sets(a: Space, b: Space, aim: Aim)
    requires
        quiet(a, b),
    ensures
        scrub_set(b, aim) == scrub_set(a, aim),
        free_set(b, aim) == free_set(a, aim),
{
}

/// Nor does what is overwritten before the device refuses.
proof fn lemma_quiet_half(a: Space, b: Space, c: Space, aim: Aim)
    requires
        quiet(a, b),
        half_vacuumed(b, c, aim),
    ensures
        half_vacuumed(a, c, aim),
{
    lemma_quiet_sets(a, b, aim);
    let m = choose|mark: int| #[trigger] broke_off(b, c, aim, mark);
    assert(broke_off(a, c, aim, m));
}

/// Nor do the entries of logs.
proof fn lemma_quiet_entries(a: Space, b: Space, rs: Seq<RootView>, n: int)
    requires
        quiet(a, b),
    ensures
        log_entries(b, rs, n) == log_entries(a, rs, n),
    decreases n,
{
    if n > 0 {
        lemma_quiet_entries(a, b, rs, n - 1);
    }
}

/// A walk forgets no slot.
pub proof fn lemma_tread_grows(img: Image, slot: u64, depth: int, w: WalkView, cap: int)
    ensures
        w.visited.subset_of(tread(img, slot, depth, w, cap).w.visited),
    decreases cap - depth + 1, 0int,
{
    if walk_refusal(w, slot, depth) is None && depth <= cap {
        if let Ok(NodeView::Internal(n)) = any_node_at(img, slot) {
            lemma_tread_kids_grows(img, n.children, 0, depth + 1, walk_step(w, slot), cap);
        }
    }
}

pub proof fn lemma_tread_kids_grows(
    img: Image,
    cs: Seq<ChildView>,
    i: int,
    depth: int,
    w: WalkView,
    cap: int,
)
    ensures
        w.visited.subset_of(tread_kids(img, cs, i, depth, w, cap).w.visited),
    decreases cap - depth + 1, cs.len() - i + 1,
{
    if 0 <= i < cs.len() {
        let t = tread(img, cs[i].child_slot, depth, w, cap);
        lemma_tread_grows(img, cs[i].child_slot, depth, w, cap);
        if t.end is Ok {
            lemma_tread_kids_grows(img, cs, i + 1, depth, t.w, cap);
        }
    }
}

pub proof fn lemma_tread_roots_grows(img: Image, rs: Seq<RootView>, i: int, w: WalkView)
    ensures
        w.visited.subset_of(tread_roots(img, rs, i, w).w.visited),
    decreases rs.len() - i,
{
    if 0 <= i < rs.len() {
        let t = tread(img, rs[i].index_slot, 0, w, w.max_depth as int);
        lemma_tread_grows(img, rs[i].index_slot, 0, w, w.max_depth as int);
        if t.end is Ok {
            lemma_tread_roots_grows(img, rs, i + 1, t.w);
        }
    }
}

} // verus!
