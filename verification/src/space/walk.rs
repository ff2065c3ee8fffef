//! The guard that every tree walk goes through: no chunk twice, no more
//! chunks than the space owns, and no deeper than that many chunks allow.

use std::collections::HashSet;

use vstd::prelude::*;
use vstd::std_specs::iter::IteratorSpec;

use crate::error::Error;
use crate::space::index::MIN_FULL_INTERNAL_FANOUT;
use crate::space::slots::OwnedSet;

verus! {

broadcast use vstd::std_specs::hash::group_hash_axioms;

/// Most slots that an open scan will look at.
pub const MAX_OPEN_SCAN_CHUNKS: u64 = 16 * 1024 * 1024;

/// One hashed member for so many slots of file.
pub const SLOTS_PER_HASHED_MEMBER: u64 = 512;

/// Hashed members that any walk may have.
pub const MIN_HASHED_SLOTS: usize = 32;

/// The fanout to the power `d`.
pub open spec fn pow_fanout(d: nat) -> nat
    decreases d,
{
    if d == 0 {
        1
    } else {
        4 * pow_fanout((d - 1) as nat)
    }
}

/// The fewest chunks that a tree of `d` descents is made of: a root over two
/// children, each level at least four times as wide as the one above it, but
/// for the last node of a level.
pub open spec fn min_chunks(d: nat) -> nat
    decreases d,
{
    if d == 0 {
        1
    } else {
        min_chunks((d - 1) as nat) + pow_fanout((d - 1) as nat) + 1
    }
}

/// The deepest that `budget` chunks can be arranged, as far as a `u8` counts.
pub open spec fn is_depth_bound(d: u8, budget: nat) -> bool {
    &&& d == 0 || min_chunks(d as nat) <= budget
    &&& d < u8::MAX ==> min_chunks((d + 1) as nat) > budget
}

/// The deepest that `budget` chunks can be arranged.
pub open spec fn depth_bound(budget: nat) -> u8 {
    choose|d: u8| is_depth_bound(d, budget)
}

/// There is one bound.
pub proof fn lemma_depth_bound_unique(d: u8, budget: nat)
    requires
        is_depth_bound(d, budget),
    ensures
        d == depth_bound(budget),
{
    let e = depth_bound(budget);
    assert(is_depth_bound(e, budget));
    if d < e {
        lemma_min_chunks_grows((d + 1) as nat, e as nat);
    } else if e < d {
        lemma_min_chunks_grows((e + 1) as nat, d as nat);
    }
}

/// More chunks allow no less depth.
pub proof fn lemma_depth_bound_grows(a: usize, b: usize)
    requires
        a <= b,
    ensures
        depth_bound(a as nat) <= depth_bound(b as nat),
        is_depth_bound(depth_bound(a as nat), a as nat),
{
    lemma_min_chunks_many();
    let x = lemma_depth_bound_exists(a as nat, 32);
    let y = lemma_depth_bound_exists(b as nat, 32);
    lemma_depth_bound_unique(x, a as nat);
    lemma_depth_bound_unique(y, b as nat);
    if y < x {
        lemma_min_chunks_grows((y + 1) as nat, x as nat);
    }
}

/// There is a bound.
proof fn lemma_depth_bound_exists(budget: nat, top: u8) -> (r: u8)
    requires
        top <= 32,
        min_chunks((top + 1) as nat) > budget,
    ensures
        is_depth_bound(r, budget),
    decreases top,
{
    if top == 0 {
        0
    } else if min_chunks(top as nat) <= budget {
        top
    } else {
        lemma_depth_bound_exists(budget, (top - 1) as u8)
    }
}

/// The bound is small, however many chunks there are.
pub proof fn lemma_depth_bound_small(d: u8, budget: usize)
    requires
        is_depth_bound(d, budget as nat),
    ensures
        d <= 32,
{
    if d > 32 {
        lemma_min_chunks_grows(33, d as nat);
        lemma_min_chunks_many();
    }
}

/// More chunks than can be counted.
proof fn lemma_min_chunks_many()
    ensures
        min_chunks(33) > usize::MAX,
{
    reveal_with_fuel(pow_fanout, 33);
    assert(pow_fanout(32) == 0x1_0000_0000_0000_0000);
    assert(min_chunks(33) >= pow_fanout(32));
}

/// `min_chunks` grows.
pub proof fn lemma_min_chunks_grows(a: nat, b: nat)
    requires
        a <= b,
    ensures
        min_chunks(a) <= min_chunks(b),
    decreases b,
{
    if a < b {
        lemma_min_chunks_grows(a, (b - 1) as nat);
    }
}

/// The bound turns no tree away that is filled as it should be: a depth that
/// the chunks suffice for is within it.
pub proof fn law_depth_bound_admits(d: u8, bound: u8, budget: nat)
    requires
        is_depth_bound(bound, budget),
        min_chunks(d as nat) <= budget,
    ensures
        d <= bound,
{
    if d > bound {
        lemma_min_chunks_grows((bound + 1) as nat, d as nat);
    }
}

/// The most descents that a tree of `budget` chunks can have.
pub fn max_depth_for_budget(budget: usize) -> (r: u8)
    ensures
        is_depth_bound(r, budget as nat),
        r == depth_bound(budget as nat),
        r <= 32,
{
    let fanout: u128 = MIN_FULL_INTERNAL_FANOUT as u128;
    let limit: u128 = budget as u128;
    let mut chunks: u128 = 1;
    let mut level: u128 = 1;
    let mut depth: u8 = 0;
    loop
        invariant
            fanout == 4,
            limit == budget,
            chunks == min_chunks(depth as nat),
            level == pow_fanout(depth as nat),
            level <= 4 * chunks,
            chunks <= 0x1_0000_0000_0000_0000,
            depth == 0 || chunks <= limit,
        decreases u8::MAX - depth,
    {
        let with_level: u128 = chunks + level + 1;
        if with_level > limit || depth == u8::MAX {
            proof {
                lemma_depth_bound_unique(depth, budget as nat);
                lemma_depth_bound_small(depth, budget);
            }
            return depth;
        }
        chunks = with_level;
        level = level * fanout;
        depth = depth + 1;
    }
}

/// How many slots a walk keeps hashed before it turns to a bitmap.
pub fn dense_threshold(slot_count: u64) -> (r: usize)
    requires
        slot_count / 512 <= usize::MAX,
    ensures
        r == if slot_count / 512 >= 32 {
            (slot_count / 512) as int
        } else {
            32
        },
{
    let n: usize = (slot_count / SLOTS_PER_HASHED_MEMBER) as usize;
    if n >= MIN_HASHED_SLOTS {
        n
    } else {
        MIN_HASHED_SLOTS
    }
}

/// The slots that a walk has visited: hashed while they are few, one bit per
/// slot of the file after that.
pub enum Visited {
    Hashed(HashSet<u64>),
    Dense(OwnedSet),
}

impl View for Visited {
    type V = Set<u64>;

    open spec fn view(&self) -> Set<u64> {
        match self {
            Visited::Hashed(h) => h@,
            Visited::Dense(d) => d@,
        }
    }
}

/// The bitmap of a hashed set.
fn bitmap_of(h: &HashSet<u64>, capacity: u64) -> (r: OwnedSet)
    requires
        capacity <= usize::MAX,
        forall|s: u64| #[trigger] h@.contains(s) ==> s < capacity,
    ensures
        r.wf(),
        r@ == h@,
{
    let mut dense = OwnedSet::with_capacity(capacity);
    let ghost keys = h.iter().remaining().unref();
    assert(dense@ =~= keys.take(0).to_set());
    for s in it: h.iter()
        invariant
            dense.wf(),
            capacity <= usize::MAX,
            forall|s: u64| #[trigger] h@.contains(s) ==> s < capacity,
            keys == it.seq().unref(),
            keys.to_set() == h@,
            dense@ == keys.take(it.index()).to_set(),
    {
        assert(keys[it.index()] == *s);
        assert(keys.contains(*s));
        assert(keys.to_set().contains(*s));
        dense.insert(*s);
        proof {
            crate::space::slots::lemma_take_to_set(keys, it.index());
        }
    }
    assert(keys.take(keys.len() as int) =~= keys);
    dense
}

impl Visited {
    /// Every slot is below `capacity`, and the counts are right.
    pub open spec fn wf(self, capacity: u64) -> bool {
        &&& self@.finite()
        &&& forall|s: u64| #[trigger] self@.contains(s) ==> s < capacity
        &&& match self {
            Visited::Hashed(_) => true,
            Visited::Dense(d) => d.wf(),
        }
    }

    /// Has the slot been visited?
    pub fn contains(&self, slot: u64) -> (r: bool)
        ensures
            r == self@.contains(slot),
    {
        match self {
            Visited::Hashed(h) => h.contains(&slot),
            Visited::Dense(d) => d.contains(slot),
        }
    }

    /// Marks the slot as visited. True if it was not.
    pub fn insert(&mut self, slot: u64, capacity: u64, promote_at: usize) -> (r: bool)
        requires
            old(self).wf(capacity),
            slot < capacity,
            capacity <= usize::MAX,
        ensures
            final(self).wf(capacity),
            final(self)@ == old(self)@.insert(slot),
            r == !old(self)@.contains(slot),
            *old(self) is Dense ==> *final(self) is Dense,
            *old(self) is Hashed && r ==> (*final(self) is Dense <==> old(self)@.len() + 1
                >= promote_at),
            !r ==> *final(self) is Dense == *old(self) is Dense,
    {
        let ghost was = self@;
        let mut promoted: Option<OwnedSet> = None;
        match self {
            Visited::Hashed(h) => {
                if !h.insert(slot) {
                    assert(h@ =~= was.insert(slot));
                    return false;
                }
                assert(h@ == was.insert(slot));
                if h.len() >= promote_at {
                    let dense = bitmap_of(h, capacity);
                    promoted = Some(dense);
                }
            },
            Visited::Dense(d) => {
                let fresh: bool = d.insert(slot);
                return fresh;
            },
        }
        match promoted {
            Some(dense) => {
                *self = Visited::Dense(dense);
            },
            None => {},
        }
        true
    }
}

/// The state of a walk.
pub struct TreeWalk {
    pub visited: Visited,
    pub capacity: u64,
    pub promote_at: usize,
    pub budget: usize,
    pub max_depth: u8,
}

/// The state of a walk, with the visited slots as a set.
pub struct WalkView {
    pub visited: Set<u64>,
    pub capacity: u64,
    pub budget: nat,
    pub max_depth: u8,
}

impl View for TreeWalk {
    type V = WalkView;

    open spec fn view(&self) -> WalkView {
        WalkView {
            visited: self.visited@,
            capacity: self.capacity,
            budget: self.budget as nat,
            max_depth: self.max_depth,
        }
    }
}

/// A walk before its first step.
pub open spec fn fresh_walk(budget: nat, slot_count: u64) -> WalkView {
    WalkView {
        visited: Set::<u64>::empty(),
        capacity: slot_count,
        budget,
        max_depth: depth_bound(budget),
    }
}

/// Why a walk may not go to `slot`, if it may not.
pub open spec fn walk_refusal(w: WalkView, slot: u64, depth: int) -> Option<&'static str> {
    if depth > w.max_depth {
        Some("tree deeper than this space's chunk count can hold")
    } else if w.budget == 0 {
        Some("tree walk exceeded its traversal budget")
    } else if slot >= w.capacity {
        Some("chunk pointer outside the container")
    } else if w.visited.contains(slot) {
        Some("chunk reachable more than once in one tree walk")
    } else {
        None
    }
}

/// The walk after a step that is refused: a slot that has been visited is
/// counted once more, any other refusal changes nothing.
pub open spec fn walk_stop(w: WalkView, slot: u64, depth: int) -> WalkView {
    if depth > w.max_depth || w.budget == 0 || slot >= w.capacity {
        w
    } else {
        WalkView { budget: (w.budget - 1) as nat, ..w }
    }
}

/// A walk after a step to `slot`.
pub open spec fn walk_step(w: WalkView, slot: u64) -> WalkView {
    WalkView { visited: w.visited.insert(slot), budget: (w.budget - 1) as nat, ..w }
}

impl TreeWalk {
    /// The visited slots lie in the file.
    pub open spec fn wf(self) -> bool {
        &&& self.visited.wf(self.capacity)
        &&& self.capacity <= usize::MAX
        &&& self.max_depth <= 32
    }

    /// A walk of at most `budget` chunks in a file of `slot_count` slots.
    pub fn new(budget: usize, slot_count: u64) -> (r: TreeWalk)
        requires
            slot_count <= usize::MAX,
        ensures
            r.wf(),
            r@ == fresh_walk(budget as nat, slot_count),
    {
        TreeWalk {
            visited: Visited::Hashed(HashSet::new()),
            capacity: slot_count,
            promote_at: dense_threshold(slot_count),
            budget,
            max_depth: max_depth_for_budget(budget),
        }
    }

    /// Goes to `slot`, or says what is wrong with the tree.
    pub fn visit(&mut self, slot: u64, depth: u8) -> (r: Result<(), Error>)
        requires
            old(self).wf(),
        ensures
            final(self).wf(),
            final(self)@.capacity == old(self)@.capacity,
            final(self)@.max_depth == old(self)@.max_depth,
            match walk_refusal(old(self)@, slot, depth as int) {
                Some(why) => r == Err::<(), Error>(Error::Malformed(why)) && final(self)@
                    == walk_stop(old(self)@, slot, depth as int),
                None => r == Ok::<(), Error>(()) && final(self)@ == walk_step(old(self)@, slot),
            },
    {
        match self.check(slot, depth) {
            Ok(()) => Ok(()),
            Err(why) => Err(Error::Malformed(why)),
        }
    }

    /// Goes to `slot`, or says what is wrong with the tree and at which slot.
    pub fn visit_for_verify(&mut self, slot: u64, depth: u8) -> (r: Result<(), Error>)
        requires
            old(self).wf(),
        ensures
            final(self).wf(),
            final(self)@.capacity == old(self)@.capacity,
            final(self)@.max_depth == old(self)@.max_depth,
            match walk_refusal(old(self)@, slot, depth as int) {
                Some(detail) => r == Err::<(), Error>(Error::IntegrityFailure { detail, slot })
                    && final(self)@ == walk_stop(old(self)@, slot, depth as int),
                None => r == Ok::<(), Error>(()) && final(self)@ == walk_step(old(self)@, slot),
            },
    {
        match self.check(slot, depth) {
            Ok(()) => Ok(()),
            Err(detail) => Err(Error::IntegrityFailure { detail, slot }),
        }
    }

    /// Has the walk been at `slot`?
    pub fn has_visited(&self, slot: u64) -> (r: bool)
        ensures
            r == self@.visited.contains(slot),
    {
        self.visited.contains(slot)
    }

    /// Bytes that the visited slots take: eight each while they are hashed,
    /// one bit per slot of the file after that.
    pub fn visited_heap_bytes(&self) -> (r: usize)
        requires
            match self.visited {
                Visited::Hashed(h) => h@.len() * 8 <= usize::MAX,
                Visited::Dense(d) => d.words@.len() * 8 <= usize::MAX,
            },
        ensures
            r == match self.visited {
                Visited::Hashed(h) => h@.len() * 8,
                Visited::Dense(d) => (d.words@.len() * 8) as nat,
            },
    {
        match &self.visited {
            Visited::Hashed(h) => h.len() * 8,
            Visited::Dense(d) => d.heap_bytes(),
        }
    }

    fn check(&mut self, slot: u64, depth: u8) -> (r: Result<(), &'static str>)
        requires
            old(self).wf(),
        ensures
            final(self).wf(),
            final(self)@.capacity == old(self)@.capacity,
            final(self)@.max_depth == old(self)@.max_depth,
            match walk_refusal(old(self)@, slot, depth as int) {
                Some(why) => r == Err::<(), &'static str>(why) && final(self)@ == walk_stop(
                    old(self)@,
                    slot,
                    depth as int,
                ),
                None => r == Ok::<(), &'static str>(()) && final(self)@ == walk_step(
                    old(self)@,
                    slot,
                ),
            },
    {
        if depth > self.max_depth {
            return Err("tree deeper than this space's chunk count can hold");
        }
        if self.budget == 0 {
            return Err("tree walk exceeded its traversal budget");
        }
        if slot >= self.capacity {
            return Err("chunk pointer outside the container");
        }
        self.budget = self.budget - 1;
        if !self.visited.insert(slot, self.capacity, self.promote_at) {
            assert(self@.visited =~= old(self)@.visited);
            return Err("chunk reachable more than once in one tree walk");
        }
        Ok(())
    }
}

} // verus!
