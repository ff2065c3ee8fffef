//! The decoy pool: slots that this space has retired, and may rewrite.
//!
//! Drawing from it is uniform, so that a slot taken for a real write and a
//! slot rewritten with noise cannot be told apart by where they lie.

use vstd::prelude::*;

use crate::error::Error;
use crate::rng::Entropy;
use crate::space::slots::{countable, lists, rank_of, OwnedSet};

verus! {

/// Slots free for reuse.
pub struct DecoyPool {
    /// The slots.
    pub set: OwnedSet,
    /// How often membership has changed since the pool was last recorded.
    pub drift: u64,
}

impl View for DecoyPool {
    type V = Set<u64>;

    open spec fn view(&self) -> Set<u64> {
        self.set@
    }
}

impl Default for DecoyPool {
    fn default() -> (r: DecoyPool)
        ensures
            r.wf(),
            r@ == Set::<u64>::empty(),
            r.drift == 0,
    {
        DecoyPool { set: OwnedSet::with_capacity(0), drift: 0 }
    }
}

/// One more change, counted as far as a `u64` goes.
pub open spec fn drifted(d: u64) -> u64 {
    if d == u64::MAX {
        d
    } else {
        (d + 1) as u64
    }
}

impl DecoyPool {
    /// The count is right.
    pub open spec fn wf(self) -> bool {
        self.set.wf()
    }

    /// A pool of the recorded slots that lie below `total`.
    pub fn from_recorded(slots: Vec<u64>, total: u64) -> (r: DecoyPool)
        requires
            total <= usize::MAX,
        ensures
            r.wf(),
            r@ == slots@.to_set().filter(|s: u64| s < total),
            r.drift == 0,
    {
        let mut p = DecoyPool { set: OwnedSet::with_capacity(0), drift: 0 };
        let mut i: usize = 0;
        assert(p@ =~= slots@.take(0).to_set().filter(|s: u64| s < total));
        while i < slots.len()
            invariant
                p.wf(),
                p.drift == 0,
                total <= usize::MAX,
                i <= slots@.len(),
                p@ == slots@.take(i as int).to_set().filter(|s: u64| s < total),
            decreases slots@.len() - i,
        {
            if slots[i] < total {
                p.record(slots[i]);
            }
            proof {
                crate::space::slots::lemma_take_to_set(slots@, i as int);
                assert(p@ =~= slots@.take(i + 1).to_set().filter(|s: u64| s < total));
            }
            i = i + 1;
        }
        assert(slots@.take(i as int) =~= slots@);
        p
    }

    /// An empty pool with room for slots below `capacity`.
    pub fn with_capacity(capacity: u64) -> (r: DecoyPool)
        requires
            (capacity + 63) / 64 <= usize::MAX,
        ensures
            r.wf(),
            r@ == Set::<u64>::empty(),
            r.drift == 0,
    {
        DecoyPool { set: OwnedSet::with_capacity(capacity), drift: 0 }
    }

    /// Puts in a slot that is already recorded: no drift.
    pub fn record(&mut self, slot: u64)
        requires
            old(self).wf(),
            countable(slot),
        ensures
            final(self).wf(),
            final(self)@ == old(self)@.insert(slot),
            final(self).drift == old(self).drift,
    {
        self.set.insert(slot);
    }

    /// Is the pool empty?
    #[must_use]
    pub fn is_empty(&self) -> (r: bool)
        requires
            self.wf(),
        ensures
            r == (self@.len() == 0),
    {
        self.set.is_empty()
    }

    /// Keeps the slots below `high_water` that are not owned.
    pub fn retain_below_and_unowned(&mut self, high_water: u64, owned: &OwnedSet)
        requires
            old(self).wf(),
        ensures
            final(self).wf(),
            final(self)@ == old(self)@.filter(|s: u64| s < high_water && !owned@.contains(s)),
            final(self).drift == old(self).drift,
    {
        self.set.keep_below_and_not_in(high_water, owned);
    }

    /// How often membership has changed since the pool was last recorded.
    #[must_use]
    pub fn drift(&self) -> (r: u64)
        ensures
            r == self.drift,
    {
        self.drift
    }

    /// The pool has been recorded as it is.
    pub fn clear_drift(&mut self)
        requires
            old(self).wf(),
        ensures
            final(self).wf(),
            final(self)@ == old(self)@,
            final(self).drift == 0,
    {
        self.drift = 0;
    }

    /// How many slots are in the pool?
    #[must_use]
    pub fn len(&self) -> (r: usize)
        requires
            self.wf(),
        ensures
            r == self@.len(),
    {
        self.set.len()
    }

    /// Puts in a slot that has been retired.
    pub fn insert(&mut self, slot: u64)
        requires
            old(self).wf(),
            countable(slot),
        ensures
            final(self).wf(),
            final(self)@ == old(self)@.insert(slot),
            final(self).drift == if old(self)@.contains(slot) {
                old(self).drift
            } else {
                drifted(old(self).drift)
            },
    {
        if self.set.insert(slot) {
            self.drift = self.drift.saturating_add(1);
        }
    }

    /// Takes out every slot that is owned.
    pub fn subtract_owned(&mut self, owned: &OwnedSet)
        requires
            old(self).wf(),
            owned.wf(),
        ensures
            final(self).wf(),
            final(self)@ == old(self)@.difference(owned@),
            final(self).drift == old(self).drift,
    {
        self.set.remove_all(owned);
    }

    /// The slots, in rising order.
    pub fn sorted(&self) -> (r: Vec<u64>)
        requires
            self.wf(),
        ensures
            lists(r@, self@),
    {
        self.set.to_sorted_vec()
    }

    /// The slots, in rising order, unless there is no memory for the list. An
    /// empty pool takes none.
    pub fn try_sorted(&self) -> (r: Result<Vec<u64>, std::collections::TryReserveError>)
        requires
            self.wf(),
        ensures
            r matches Ok(v) ==> lists(v@, self@),
            self@.len() == 0 ==> r is Ok,
    {
        self.set.try_to_sorted_vec()
    }

    /// Takes out one slot, each as likely as any other. Nothing changes where
    /// the pool is empty or no randomness is to be had.
    pub fn take(&mut self, rng: &mut Entropy) -> (r: Result<Option<u64>, Error>)
        requires
            old(self).wf(),
            old(rng).wf(),
        ensures
            final(self).wf(),
            final(rng).wf(),
            match r {
                Ok(Some(s)) => {
                    &&& old(self)@.contains(s)
                    &&& final(self)@ == old(self)@.remove(s)
                    &&& final(self).drift == drifted(old(self).drift)
                    &&& uniform_from(old(rng).left(), old(self)@.len()) == Some(
                        rank_of(old(self)@, s),
                    )
                    &&& s == slot_at(old(self)@, rank_of(old(self)@, s))
                    &&& final(rng).left() == words_after(old(rng).left(), old(self)@.len())
                },
                Ok(None) => old(self)@.len() == 0 && *final(self) == *old(self) && *final(rng)
                    == *old(rng),
                Err(e) => {
                    &&& e == Error::Rng
                    &&& old(self)@.len() > 0
                    &&& uniform_from(old(rng).left(), old(self)@.len()) is None
                    &&& *final(self) == *old(self)
                    &&& final(rng).left().len() == 0
                },
            },
    {
        if self.set.len() == 0 {
            return Ok(None);
        }
        let rank: usize = match uniform_below(self.set.len(), rng) {
            Ok(k) => k,
            Err(e) => {
                return Err(e);
            },
        };
        match self.set.select(rank) {
            Some(slot) => {
                proof {
                    lemma_slot_at(self@, slot);
                }
                self.set.remove(slot);
                self.drift = self.drift.saturating_add(1);
                Ok(Some(slot))
            },
            None => {
                assert(false);
                Ok(None)
            },
        }
    }

    /// Draws `n` different slots, or all if there are fewer, one after the
    /// other, each as likely as any other that is left, and leaves them in the
    /// pool. A draw that fails for want of randomness leaves the pool as it was
    /// too.
    pub fn sample_distinct(&mut self, n: usize, rng: &mut Entropy) -> (r: Result<Vec<u64>, Error>)
        requires
            old(self).wf(),
            old(rng).wf(),
        ensures
            final(self).wf(),
            final(rng).wf(),
            final(self)@ == old(self)@,
            final(self).drift == old(self).drift,
            match r {
                Ok(v) => {
                    &&& v@.len() == if n <= old(self)@.len() {
                        n as nat
                    } else {
                        old(self)@.len()
                    }
                    &&& v@.no_duplicates()
                    &&& forall|i: int| 0 <= i < v@.len() ==> old(self)@.contains(#[trigger] v@[i])
                    &&& drawn(old(self)@, old(rng).left(), sample_size(old(self)@, n)) == Some(
                        (v@, final(rng).left()),
                    )
                },
                Err(e) => {
                    &&& e == Error::Rng
                    &&& drawn(old(self)@, old(rng).left(), sample_size(old(self)@, n)) is None
                    &&& final(rng).left().len() == 0
                },
            },
            n == 0 || old(self)@.len() == 0 ==> r is Ok && *final(rng) == *old(rng),
    {
        let k: usize = if n <= self.set.len() {
            n
        } else {
            self.set.len()
        };
        let mut out: Vec<u64> = Vec::with_capacity(k);
        let mut failure: Option<Error> = None;
        let ghost all = self@;
        let ghost words = rng.left();
        let ghost want = drawn(all, words, k as nat);
        let mut i: usize = 0;
        assert(out@.to_set() =~= Set::<u64>::empty());
        proof {
            lemma_prepend_none(want);
            assert(out@ =~= Seq::<u64>::empty());
        }
        while i < k && failure.is_none()
            invariant
                self.wf(),
                rng.wf(),
                i <= k,
                all == old(self)@,
                all.finite(),
                k <= all.len(),
                self.drift == old(self).drift,
                failure is None ==> out@.len() == i,
                out@.len() <= k,
                out@.no_duplicates(),
                forall|j: int| 0 <= j < out@.len() ==> all.contains(#[trigger] out@[j]),
                self@ == all.difference(out@.to_set()),
                failure is None ==> self@.len() == all.len() - out@.len(),
                failure matches Some(e) ==> e == Error::Rng && want is None && rng.left().len() == 0,
                want == drawn(all, old(rng).left(), k as nat),
                failure is None ==> want == prepend(
                    out@,
                    drawn(self@, rng.left(), (k - i) as nat),
                ),
                k == 0 ==> *rng == *old(rng) && failure is None,
            decreases k - i,
        {
            let ghost had_set = self@;
            let ghost had_words = rng.left();
            match uniform_below(self.set.len(), rng) {
                Ok(rank) => {
                    match self.set.select(rank) {
                        Some(slot) => {
                            proof {
                                lemma_slot_at(had_set, slot);
                            }
                            self.set.remove(slot);
                            let ghost had = out@;
                            proof {
                                assert(!had.contains(slot)) by {
                                    if had.contains(slot) {
                                        assert(had.to_set().contains(slot));
                                    }
                                }
                            }
                            out.push(slot);
                            proof {
                                lemma_push_to_set(had, slot);
                                assert(self@ =~= all.difference(out@.to_set()));
                                let rest = drawn(self@, rng.left(), (k - i - 1) as nat);
                                assert(drawn(had_set, had_words, (k - i) as nat) == prepend(
                                    seq![slot],
                                    rest,
                                ));
                                lemma_prepend_twice(had, slot, rest);
                            }
                        },
                        None => {
                            assert(false);
                        },
                    }
                },
                Err(e) => {
                    failure = Some(e);
                },
            }
            i = i + 1;
        }
        let mut j: usize = 0;
        let ghost left = self@;
        proof {
            if failure is None {
                assert(out@ + Seq::<u64>::empty() =~= out@);
            }
        }
        assert(self@ =~= left.union(out@.take(0).to_set()));
        while j < out.len()
            invariant
                self.wf(),
                rng.wf(),
                j <= out@.len(),
                old(self).wf(),
                all == old(self)@,
                self.drift == old(self).drift,
                forall|m: int| 0 <= m < out@.len() ==> all.contains(#[trigger] out@[m]),
                k == sample_size(all, n),
                failure is None ==> want == Some((out@, rng.left())),
                failure matches Some(e) ==> e == Error::Rng && want is None && rng.left().len() == 0,
                self@ == left.union(out@.take(j as int).to_set()),
            decreases out@.len() - j,
        {
            assert(all.contains(out@[j as int]));
            self.set.insert(out[j]);
            proof {
                crate::space::slots::lemma_take_to_set(out@, j as int);
                assert(self@ =~= left.union(out@.take(j + 1).to_set()));
            }
            j = j + 1;
        }
        proof {
            assert(out@.take(j as int) =~= out@);
            assert forall|s: u64| self@.contains(s) == all.contains(s) by {
                if out@.to_set().contains(s) {
                    assert(out@.contains(s));
                }
            }
            assert(self@ =~= all);
        }
        match failure {
            Some(e) => Err(e),
            None => Ok(out),
        }
    }
}

/// One more element of a list.
proof fn lemma_push_to_set(v: Seq<u64>, s: u64)
    ensures
        v.push(s).to_set() == v.to_set().insert(s),
{
    assert(v.push(s).take(v.len() as int) =~= v);
    assert(v.push(s).take(v.len() as int + 1) =~= v.push(s));
    crate::space::slots::lemma_take_to_set(v.push(s), v.len() as int);
}

/// The largest multiple of `n` that is not above the largest word: draws at
/// or above it are thrown away, so that what is left divides evenly.
pub open spec fn draw_limit(n: nat) -> int {
    u64::MAX - (u64::MAX as int % n as int)
}

/// The number below `n` that the first usable word gives.
pub open spec fn uniform_from(words: Seq<u64>, n: nat) -> Option<nat>
    decreases words.len(),
{
    if words.len() == 0 {
        None
    } else if words[0] < draw_limit(n) {
        Some((words[0] as nat) % n)
    } else {
        uniform_from(words.drop_first(), n)
    }
}

/// The words after the first usable one.
pub open spec fn words_after(words: Seq<u64>, n: nat) -> Seq<u64>
    decreases words.len(),
{
    if words.len() == 0 {
        words
    } else if words[0] < draw_limit(n) {
        words.drop_first()
    } else {
        words_after(words.drop_first(), n)
    }
}

/// How many of the words are good for a draw whatever is drawn from.
pub open spec fn sure_words(words: Seq<u64>) -> nat
    decreases words.len(),
{
    if words.len() == 0 {
        0
    } else {
        sure_words(words.drop_first()) + if words[0] < 0x8000_0000_0000_0000 {
            1nat
        } else {
            0
        }
    }
}

/// A draw uses up at most one word that is good for any, and fails only where
/// there is none.
pub proof fn lemma_sure_words(words: Seq<u64>, n: nat)
    requires
        0 < n <= u64::MAX,
    ensures
        uniform_from(words, n) is None ==> sure_words(words) == 0,
        sure_words(words) <= sure_words(words_after(words, n)) + 1,
    decreases words.len(),
{
    assert(draw_limit(n) >= 0x8000_0000_0000_0000) by {
        let m = u64::MAX as int;
        if n > 0x7fff_ffff_ffff_ffff {
            vstd::arithmetic::div_mod::lemma_fundamental_div_mod_converse(m, n as int, 1, m - n);
        } else {
            vstd::arithmetic::div_mod::lemma_mod_bound(m, n as int);
        }
    }
    if words.len() > 0 && words[0] >= draw_limit(n) {
        lemma_sure_words(words.drop_first(), n);
    }
}

/// The member with so many members below it.
pub open spec fn slot_at(set: Set<u64>, rank: nat) -> u64 {
    choose|s: u64| set.contains(s) && #[trigger] rank_of(set, s) == rank
}

/// No two members have as many below them.
pub proof fn lemma_slot_at(set: Set<u64>, s: u64)
    requires
        set.finite(),
        set.contains(s),
    ensures
        slot_at(set, rank_of(set, s)) == s,
{
    let t = slot_at(set, rank_of(set, s));
    assert(set.contains(t) && rank_of(set, t) == rank_of(set, s));
    if s != t {
        let lo = if s < t {
            s
        } else {
            t
        };
        let hi = if s < t {
            t
        } else {
            s
        };
        let below = set.filter(|x: u64| x < lo);
        let above = set.filter(|x: u64| x < hi);
        assert(above.contains(lo));
        assert(below.subset_of(above.remove(lo)));
        vstd::set_lib::lemma_len_subset(below, above.remove(lo));
        assert(false);
    }
}

/// How many slots are drawn where `n` are asked for.
pub open spec fn sample_size(set: Set<u64>, n: usize) -> nat {
    if n <= set.len() {
        n as nat
    } else {
        set.len()
    }
}

/// `k` draws, one after the other, each from what the ones before it left: the
/// slots, and the words that are left. None where the words give out.
pub open spec fn drawn(set: Set<u64>, words: Seq<u64>, k: nat) -> Option<(Seq<u64>, Seq<u64>)>
    decreases k,
{
    if k == 0 {
        Some((Seq::<u64>::empty(), words))
    } else {
        match uniform_from(words, set.len()) {
            None => None,
            Some(rank) => {
                let s = slot_at(set, rank);
                prepend(
                    seq![s],
                    drawn(set.remove(s), words_after(words, set.len()), (k - 1) as nat),
                )
            },
        }
    }
}

/// Draws after others.
pub open spec fn prepend(v: Seq<u64>, d: Option<(Seq<u64>, Seq<u64>)>) -> Option<
    (Seq<u64>, Seq<u64>),
> {
    match d {
        None => None,
        Some((w, rest)) => Some((v + w, rest)),
    }
}

proof fn lemma_prepend_none(d: Option<(Seq<u64>, Seq<u64>)>)
    ensures
        prepend(Seq::<u64>::empty(), d) == d,
{
    if let Some((w, rest)) = d {
        assert(Seq::<u64>::empty() + w =~= w);
    }
}

proof fn lemma_prepend_twice(v: Seq<u64>, s: u64, d: Option<(Seq<u64>, Seq<u64>)>)
    ensures
        prepend(v, prepend(seq![s], d)) == prepend(v.push(s), d),
{
    if let Some((w, rest)) = d {
        assert(v + (seq![s] + w) =~= v.push(s) + w);
    }
}

/// A number below `n`, each as likely as any other.
pub fn uniform_below(n: usize, rng: &mut Entropy) -> (r: Result<usize, Error>)
    requires
        n > 0,
        old(rng).wf(),
    ensures
        final(rng).wf(),
        match r {
            Ok(k) => k < n && uniform_from(old(rng).left(), n as nat) == Some(k as nat),
            Err(e) => e == Error::Rng && uniform_from(old(rng).left(), n as nat) is None,
        },
        final(rng).left() == words_after(old(rng).left(), n as nat),
        r is Err ==> final(rng).left().len() == 0,
{
    let m: u64 = n as u64;
    let limit: u64 = u64::MAX - (u64::MAX % m);
    loop
        invariant
            n > 0,
            m == n,
            limit == draw_limit(n as nat),
            rng.wf(),
            uniform_from(rng.left(), n as nat) == uniform_from(old(rng).left(), n as nat),
            words_after(rng.left(), n as nat) == words_after(old(rng).left(), n as nat),
        decreases rng.left().len(),
    {
        let v: u64 = match rng.draw() {
            Ok(w) => w,
            Err(e) => {
                return Err(e);
            },
        };
        if v < limit {
            return Ok((v % m) as usize);
        }
    }
}

} // verus!
