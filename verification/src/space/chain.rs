//! The checkpoint chain on file: reading it, writing it, and replacing it.

use vstd::prelude::*;

use crate::chunk::ChunkKind;
use crate::container::{
    chunk_at, extends, flushed, lemma_extends_refl, lemma_extends_trans, live, same_settings,
    wrote_only, ContainerFile, Image, LockMode,
};
use crate::error::Error;
use crate::space::commit::{
    copies_wanted, counted, lemma_only_new, lemma_replicated_extends, on_file, only_new_superblock,
    replicated, used_seq,
};
use crate::space::checkpoint::{
    checkpoint_decode, checkpoint_encode, law_checkpoint_decode_of_encode, merge_carried_pool,
    recorded_pool, CheckpointChunk, CheckpointView, CHECKPOINT_MIN_POOL_DRIFT,
    CHECKPOINT_MIN_TAIL_REFRESH, CHECKPOINT_MIN_TOTAL, CP_ENTRIES_PER_CHUNK, MAX_CHECKPOINT_CHAIN,
};
use crate::space::pool::DecoyPool;
use crate::space::slots::{countable, lemma_lists_len, lemma_take_to_set, lists, OwnedSet};
use crate::space::superblock::{Superblock, SuperblockView, NO_RECORD};
use crate::space::vacuum::{partly_scrubbed, scrubbed};
use crate::space::{
    blamed, failed, laid, lemma_laid_refl, lemma_laid_trans, no_new_superblock, stamped, steady,
    takes_all, within, Space, SpaceState,
};

verus! {

// ---------------------------------------------------------------------------
// Reading
// ---------------------------------------------------------------------------

/// What a chain records: slots owned, and slots free for reuse.
pub type Lists = (Seq<u64>, Seq<u64>);

/// The link in a slot, if one is there.
pub open spec fn link_at(img: Image, slot: u64) -> Option<CheckpointView> {
    match chunk_at(img, slot) {
        Err(_) => None,
        Ok(p) => if p.kind != ChunkKind::Checkpoint {
            None
        } else {
            match checkpoint_decode(p.payload) {
                Err(_) => None,
                Ok(c) => Some(c),
            }
        },
    }
}

/// What the chain from `slot` on records, in at most `hops` links, all of
/// which must belong to one checkpoint. `None` where it cannot be followed to
/// its end.
pub open spec fn chain(
    img: Image,
    slot: u64,
    same: Option<(u64, u64)>,
    total: int,
    hops: nat,
) -> Option<Lists>
    decreases hops,
{
    if slot == NO_RECORD {
        if same is None {
            None
        } else {
            Some((Seq::<u64>::empty(), Seq::<u64>::empty()))
        }
    } else if hops == 0 || slot >= total {
        None
    } else {
        match link_at(img, slot) {
            None => None,
            Some(c) => if same is Some && same != Some((c.cp_seq, c.cp_high_water)) {
                None
            } else {
                match chain(
                    img,
                    c.next_slot,
                    Some((c.cp_seq, c.cp_high_water)),
                    total,
                    (hops - 1) as nat,
                ) {
                    None => None,
                    Some(rest) => Some((c.owned + rest.0, c.pool + rest.1)),
                }
            },
        }
    }
}

/// The chain from `head` on belongs to the checkpoint of this number, which
/// covers so many slots.
pub open spec fn headed(img: Image, head: u64, seq: u64, water: u64) -> bool {
    link_at(img, head) matches Some(c) && c.cp_seq == seq && c.cp_high_water == water
}

/// Lists put together link by link are the lists of the chain.
pub open spec fn joined_with(
    head: Lists,
    rest: Option<Lists>,
) -> Option<Lists> {
    match rest {
        None => None,
        Some(r) => Some((head.0 + r.0, head.1 + r.1)),
    }
}

/// What a chain records.
pub struct Recorded {
    pub owned: Vec<u64>,
    pub pool: Vec<u64>,
}

impl Space {
    /// The link in a slot, if one is there.
    fn read_link(&self, slot: u64) -> (r: Option<CheckpointChunk>)
        ensures
            match r {
                Some(c) => link_at(self.file@, slot) == Some(c@),
                None => link_at(self.file@, slot) is None,
            },
    {
        match self.read_owned_chunk(slot) {
            Err(_) => None,
            Ok(pt) => {
                if pt.kind != ChunkKind::Checkpoint {
                    return None;
                }
                match CheckpointChunk::decode(pt.payload.as_slice()) {
                    Ok(c) => Some(c),
                    Err(_) => None,
                }
            },
        }
    }

    /// What the chain from `head` on records, unless it cannot be followed to
    /// its end or its links belong to different checkpoints.
    #[verifier::spinoff_prover]
    pub fn read_checkpoint_chain(&self, head: u64, total: u64) -> (r: Option<Recorded>)
        ensures
            match r {
                Some(v) => chain(
                    self.file@,
                    head,
                    None,
                    total as int,
                    MAX_CHECKPOINT_CHAIN as nat,
                ) == Some((v.owned@, v.pool@)),
                None => chain(
                    self.file@,
                    head,
                    None,
                    total as int,
                    MAX_CHECKPOINT_CHAIN as nat,
                ) is None,
            },
    {
        let ghost img = self.file@;
        let ghost want = chain(img, head, None, total as int, MAX_CHECKPOINT_CHAIN as nat);
        let mut owned: Vec<u64> = Vec::new();
        let mut pool: Vec<u64> = Vec::new();
        let mut cur: u64 = head;
        let mut same: Option<(u64, u64)> = None;
        let mut left: u64 = MAX_CHECKPOINT_CHAIN;
        proof {
            if let Some(v) = want {
                assert(owned@ + v.0 =~= v.0);
                assert(pool@ + v.1 =~= v.1);
            }
        }
        while cur != NO_RECORD
            invariant
                img == self.file@,
                want == chain(img, head, None, total as int, MAX_CHECKPOINT_CHAIN as nat),
                want == joined_with(
                    (owned@, pool@),
                    chain(img, cur, same, total as int, left as nat),
                ),
            decreases left,
        {
            if left == 0 || cur >= total {
                return None;
            }
            let c = match self.read_link(cur) {
                None => {
                    return None;
                },
                Some(c) => c,
            };
            if let Some((seq, water)) = same {
                if seq != c.cp_seq || water != c.cp_high_water {
                    return None;
                }
            }
            let ghost o = owned@;
            let ghost p = pool@;
            let ghost rest = chain(
                img,
                c.next_slot,
                Some((c.cp_seq, c.cp_high_water)),
                total as int,
                (left - 1) as nat,
            );
            owned.extend_from_slice(c.owned.as_slice());
            pool.extend_from_slice(c.pool.as_slice());
            proof {
                if let Some(v) = rest {
                    assert(o + (c.owned@ + v.0) =~= owned@ + v.0);
                    assert(p + (c.pool@ + v.1) =~= pool@ + v.1);
                }
            }
            same = Some((c.cp_seq, c.cp_high_water));
            cur = c.next_slot;
            left = left - 1;
        }
        if same.is_none() {
            return None;
        }
        proof {
            assert(owned@ + Seq::<u64>::empty() =~= owned@);
            assert(pool@ + Seq::<u64>::empty() =~= pool@);
        }
        Some(Recorded { owned, pool })
    }

    /// How many slots the checkpoint whose first link is in `head` covers, if
    /// it can be read.
    pub fn read_checkpoint_head_high_water(&self, head: u64) -> (r: Option<u64>)
        ensures
            r == match link_at(self.file@, head) {
                Some(c) => Some(c.cp_high_water),
                None => None,
            },
    {
        match self.read_link(head) {
            Some(c) => Some(c.cp_high_water),
            None => None,
        }
    }
}

/// A chain that can be followed is the same in a larger image, with more
/// hops.
pub proof fn lemma_chain_extends(
    a: Image,
    b: Image,
    slot: u64,
    same: Option<(u64, u64)>,
    m: int,
    n: int,
    hops: nat,
    more: nat,
)
    requires
        chain(a, slot, same, m, hops) is Some,
        extends(a, b),
        m <= n,
        hops <= more,
    ensures
        chain(b, slot, same, n, more) == chain(a, slot, same, m, hops),
    decreases hops,
{
    if slot != NO_RECORD {
        let c = link_at(a, slot)->0;
        assert(live(a, slot));
        assert(link_at(b, slot) == Some(c));
        lemma_chain_extends(
            a,
            b,
            c.next_slot,
            Some((c.cp_seq, c.cp_high_water)),
            m,
            n,
            (hops - 1) as nat,
            (more - 1) as nat,
        );
    }
}

// ---------------------------------------------------------------------------
// Writing
// ---------------------------------------------------------------------------

/// How many links two lists of so many slots together take.
pub open spec fn links_for(n: nat) -> nat {
    if n == 0 {
        1
    } else {
        (n + 500) / 501
    }
}

/// How many owned slots stand before link `k`.
pub open spec fn owned_before(k: int, owned: nat) -> int {
    if k * 501 <= owned {
        k * 501
    } else {
        owned as int
    }
}

/// How many free slots stand before link `k`.
pub open spec fn pool_before(k: int, owned: nat, pool: nat) -> int {
    if k * 501 <= owned {
        0
    } else if k * 501 - owned <= pool {
        k * 501 - owned
    } else {
        pool as int
    }
}

/// A part of a list.
fn part_of(v: &[u64], from: usize, to: usize) -> (r: Vec<u64>)
    requires
        from <= to <= v@.len(),
    ensures
        r@ == v@.subrange(from as int, to as int),
{
    let mut out: Vec<u64> = Vec::with_capacity(to - from);
    let mut i: usize = from;
    while i < to
        invariant
            from <= i <= to <= v@.len(),
            out@ == v@.subrange(from as int, i as int),
        decreases to - i,
    {
        out.push(v[i]);
        i = i + 1;
        assert(out@ =~= v@.subrange(from as int, i as int));
    }
    out
}

/// The size of link `k`, and where the next one starts.
proof fn lemma_link_sizes(k: int, owned: nat, pool: nat)
    requires
        0 <= k,
    ensures
        0 <= owned_before(k, owned) <= owned_before(k + 1, owned) <= owned,
        0 <= pool_before(k, owned, pool) <= pool_before(k + 1, owned, pool) <= pool,
        owned_before(k + 1, owned) - owned_before(k, owned) + pool_before(k + 1, owned, pool)
            - pool_before(k, owned, pool) <= 501,
        k >= links_for(owned + pool) ==> owned_before(k, owned) == owned && pool_before(
            k,
            owned,
            pool,
        ) == pool,
        owned_before(0, owned) == 0,
        pool_before(0, owned, pool) == 0,
{
    assert((k + 1) * 501 == k * 501 + 501) by (nonlinear_arith);
    if k >= links_for(owned + pool) {
        let n = owned + pool;
        assert(k * 501 >= n) by {
            if n == 0 {
                assert(k * 501 >= 0) by (nonlinear_arith)
                    requires
                        k >= 0,
                ;
            } else {
                let l = (n + 500) / 501;
                assert(l * 501 >= n);
                assert(k * 501 >= l * 501) by (nonlinear_arith)
                    requires
                        k >= l,
                ;
            }
        }
    }
}

impl Space {
    /// Writes a chain that records the two lists, from its last link to its
    /// first, and gives the slot of the first.
    #[verifier::spinoff_prover]
    #[verifier::rlimit(60)]
    pub fn write_checkpoint_chain(
        &mut self,
        cp_seq: u64,
        cp_high_water: u64,
        owned: &[u64],
        pool: &[u64],
    ) -> (r: Result<u64, Error>)
        requires
            old(self).wf(),
            owned@.len() + pool@.len() <= usize::MAX,
        ensures
            final(self).wf(),
            laid(*old(self), *final(self), cp_seq),
            final(self).state.pool == old(self).state.pool,
            final(self).state.reuse_count == old(self).state.reuse_count,
            match r {
                Ok(head) => {
                    &&& head != NO_RECORD
                    &&& headed(final(self).file@, head, cp_seq, cp_high_water)
                    &&& chain(
                        final(self).file@,
                        head,
                        None,
                        final(self).file@.len() as int,
                        links_for(owned@.len() + pool@.len()),
                    ) == Some((owned@, pool@))
                },
                Err(e) => !takes_all(*old(self)) && failed(*old(self), *final(self), e, true),
            },
    {
        let ghost s0 = *self;
        let ghost lo = owned@.len();
        let ghost lp = pool@.len();
        let total: usize = owned.len() + pool.len();
        let mut n: usize = total / 501;
        if total == 0 || total % 501 != 0 {
            n = n + 1;
        }
        assert(n == links_for(lo + lp));
        let ghost want: Option<(u64, u64)> = Some((cp_seq, cp_high_water));
        let mut next: u64 = NO_RECORD;
        let mut k: usize = n;
        proof {
            lemma_laid_refl(s0);
            lemma_link_sizes(n as int, lo, lp);
            assert(owned@.skip(lo as int) =~= Seq::<u64>::empty());
            assert(pool@.skip(lp as int) =~= Seq::<u64>::empty());
            assert((n - 1) * 501 <= total);
        }
        while k > 0
            invariant
                k <= n,
                n >= 1,
                n == links_for(lo + lp),
                (n - 1) * 501 <= total,
                total == lo + lp,
                lo == owned@.len(),
                lp == pool@.len(),
                s0 == *old(self),
                want == Some((cp_seq, cp_high_water)),
                self.wf(),
                laid(s0, *self, cp_seq),
                self.state.pool == s0.state.pool,
                self.state.reuse_count == s0.state.reuse_count,
                k == n ==> next == NO_RECORD,
                k < n ==> next != NO_RECORD,
                k < n ==> headed(self.file@, next, cp_seq, cp_high_water),
                chain(self.file@, next, want, self.file@.len() as int, (n - k) as nat) == Some(
                    (
                        owned@.skip(owned_before(k as int, lo)),
                        pool@.skip(pool_before(k as int, lo, lp)),
                    ),
                ),
                k < n ==> chain(
                    self.file@,
                    next,
                    None,
                    self.file@.len() as int,
                    (n - k) as nat,
                ) == Some(
                    (
                        owned@.skip(owned_before(k as int, lo)),
                        pool@.skip(pool_before(k as int, lo, lp)),
                    ),
                ),
            decreases k,
        {
            k = k - 1;
            proof {
                lemma_link_sizes(k as int, lo, lp);
                assert(k * 501 <= (n - 1) * 501) by (nonlinear_arith)
                    requires
                        k <= n - 1,
                ;
                assert((k + 1) * 501 == k * 501 + 501) by (nonlinear_arith);
            }
            let from: usize = k * 501;
            let to: usize = if total - from < 501 {
                total
            } else {
                from + 501
            };
            let o_from: usize = if from <= owned.len() {
                from
            } else {
                owned.len()
            };
            let o_to: usize = if to <= owned.len() {
                to
            } else {
                owned.len()
            };
            let p_from: usize = if from <= owned.len() {
                0
            } else if from - owned.len() <= pool.len() {
                from - owned.len()
            } else {
                pool.len()
            };
            let p_to: usize = if to <= owned.len() {
                0
            } else if to - owned.len() <= pool.len() {
                to - owned.len()
            } else {
                pool.len()
            };
            let link = CheckpointChunk {
                cp_seq,
                cp_high_water,
                next_slot: next,
                owned: part_of(owned, o_from, o_to),
                pool: part_of(pool, p_from, p_to),
            };
            let ghost lv = link@;
            proof {
                assert(CP_ENTRIES_PER_CHUNK == 501) by {
                    assert((4040int - 32) / 8 == 501);
                }
                assert(checkpoint_encode(lv) is Ok);
                law_checkpoint_decode_of_encode(lv);
            }
            let payload = match link.encode() {
                Ok(b) => b,
                Err(e) => {
                    return Err(e);
                },
            };
            let ghost s1 = *self;
            match self.place_chunk(ChunkKind::Checkpoint, cp_seq, payload.as_slice()) {
                Ok(slot) => {
                    proof {
                        lemma_laid_trans(s0, s1, *self);
                        let img = self.file@;
                        let count = self.file.slots.len();
                        assert(live(img, slot));
                        assert(slot < count);
                        assert(link_at(img, slot) == Some(lv));
                        lemma_chain_extends(
                            s1.file@,
                            img,
                            next,
                            want,
                            s1.file@.len() as int,
                            img.len() as int,
                            (n - k - 1) as nat,
                            (n - k - 1) as nat,
                        );
                        assert(lv.owned + owned@.skip(owned_before(k + 1, lo)) =~= owned@.skip(
                            owned_before(k as int, lo),
                        ));
                        assert(lv.pool + pool@.skip(pool_before(k + 1, lo, lp)) =~= pool@.skip(
                            pool_before(k as int, lo, lp),
                        ));
                    }
                    next = slot;
                },
                Err(e) => {
                    proof {
                        lemma_laid_trans(s0, s1, *self);
                        if takes_all(s0) {
                            assert(takes_all(s1));
                        }
                        if steady(s0) {
                            crate::space::tree::lemma_steady_grown(s0, s1);
                        }
                    }
                    return Err(e);
                },
            }
        }
        proof {
            lemma_link_sizes(0, lo, lp);
            assert(owned@.skip(0) =~= owned@);
            assert(pool@.skip(0) =~= pool@);
        }
        Ok(next)
    }
}

// ---------------------------------------------------------------------------
// Replacing
// ---------------------------------------------------------------------------

/// The slots of the chain from `slot` on, as far as it can be followed in at
/// most `hops` links while each is overwritten.
pub open spec fn old_links(img: Image, slot: u64, hops: nat) -> Seq<u64>
    decreases hops,
{
    if slot == NO_RECORD || hops == 0 {
        Seq::<u64>::empty()
    } else {
        match chunk_at(img, slot) {
            Ok(p) if p.kind == ChunkKind::Checkpoint => seq![slot] + old_links(
                img.update(slot as int, None),
                match checkpoint_decode(p.payload) {
                    Ok(c) => c.next_slot,
                    Err(_) => NO_RECORD,
                },
                (hops - 1) as nat,
            ),
            _ => Seq::<u64>::empty(),
        }
    }
}

/// The slots of the old chain.
pub open spec fn old_chain(s: Space, head: u64) -> Set<u64> {
    old_links(s.file@, head, MAX_CHECKPOINT_CHAIN as nat).to_set()
}

/// Only links are overwritten.
proof fn lemma_old_links(img: Image, slot: u64, hops: nat)
    ensures
        forall|i: int|
            0 <= i < old_links(img, slot, hops).len() ==> {
                &&& live(img, #[trigger] old_links(img, slot, hops)[i])
                &&& img[old_links(img, slot, hops)[i] as int]->0.kind == ChunkKind::Checkpoint
            },
    decreases hops,
{
    if slot != NO_RECORD && hops > 0 {
        if let Ok(p) = chunk_at(img, slot) {
            if p.kind == ChunkKind::Checkpoint {
                let next = match checkpoint_decode(p.payload) {
                    Ok(c) => c.next_slot,
                    Err(_) => NO_RECORD,
                };
                let img1 = img.update(slot as int, None);
                let rest = old_links(img1, next, (hops - 1) as nat);
                lemma_old_links(img1, next, (hops - 1) as nat);
                let all = old_links(img, slot, hops);
                assert forall|i: int| 0 <= i < all.len() implies {
                    &&& live(img, #[trigger] all[i])
                    &&& img[all[i] as int]->0.kind == ChunkKind::Checkpoint
                } by {
                    if i > 0 {
                        assert(all[i] == rest[i - 1]);
                        assert(live(img1, rest[i - 1]));
                    }
                }
            }
        }
    }
}

/// All of the slots are links.
pub open spec fn all_links(img: Image, gone: Set<u64>) -> bool {
    forall|x: u64| #[trigger]
        gone.contains(x) ==> live(img, x) && img[x as int]->0.kind == ChunkKind::Checkpoint
}

pub proof fn lemma_old_chain(s: Space, head: u64)
    ensures
        all_links(s.file@, old_chain(s, head)),
{
    let l = old_links(s.file@, head, MAX_CHECKPOINT_CHAIN as nat);
    lemma_old_links(s.file@, head, MAX_CHECKPOINT_CHAIN as nat);
    assert forall|x: u64| #[trigger] old_chain(s, head).contains(x) implies live(s.file@, x)
        && s.file@[x as int]->0.kind == ChunkKind::Checkpoint by {
        let i = choose|i: int| 0 <= i < l.len() && l[i] == x;
        assert(live(s.file@, l[i]));
    }
}

/// What is in memory fits the file while links are overwritten.
proof fn lemma_links_wf(a: Space, b: Space, gone: Set<u64>)
    requires
        a.wf(),
        all_links(a.file@, gone),
        b.state == a.state,
        partly_scrubbed(a.file@, b.file@, gone),
    ensures
        b.wf(),
{
    let root = a.state.superblock.root_slot;
    assert forall|s: u64| #[trigger] live(b.file@, s) implies live(a.file@, s) && b.file@[s as int]
        == a.file@[s as int] by {}
    if live(a.file@, root) && a.file@[root as int]->0.kind == ChunkKind::Commit {
        assert(b.file@[root as int] == a.file@[root as int]);
    }
}

/// `b` is `a` with the links overwritten and free for reuse.
pub open spec fn unchained(a: Space, b: Space, gone: Set<u64>) -> bool {
    &&& b.file@ == scrubbed(a.file@, gone)
    &&& same_settings(a.file, b.file)
    &&& wrote_only(a.file, b.file, gone)
    &&& a.file.writes_left is None ==> b.file.writes_left is None
    &&& b.file.room_left == a.file.room_left
    &&& if gone == Set::<u64>::empty() {
        b.file.durable == a.file.durable
    } else {
        b.file.durable@ == b.file@
    }
    &&& b.state.owned_slots@ == a.state.owned_slots@.difference(gone)
    &&& b.state.pool@ == a.state.pool@.union(gone)
    &&& b.state.pool.drift == counted(a.state.pool.drift, gone.len() as int)
    &&& b.state == (SpaceState {
        owned_slots: b.state.owned_slots,
        pool: b.state.pool,
        ..a.state
    })
}

/// The list with one more slot.
proof fn lemma_scrub_one(img: Image, list: Seq<u64>, slot: u64, n: usize)
    requires
        img.len() == n,
        slot < img.len(),
    ensures
        scrubbed(img, list.to_set()).update(slot as int, None) == scrubbed(
            img,
            list.push(slot).to_set(),
        ),
{
    let more = list.push(slot);
    assert(more.take(list.len() as int) =~= list);
    assert(more.take(more.len() as int) =~= more);
    lemma_take_to_set(more, list.len() as int);
    assert(scrubbed(img, list.to_set()).update(slot as int, None) =~= scrubbed(
        img,
        more.to_set(),
    ));
}

impl Space {
    /// Overwrites the chain from `head` on, as far as it can be followed.
    #[verifier::spinoff_prover]
    #[verifier::rlimit(60)]
    pub fn scrub_checkpoint_chain(&mut self, head: u64) -> (r: Result<(), Error>)
        requires
            old(self).wf(),
            old(self).file.lock_mode == LockMode::Exclusive,
        ensures
            final(self).wf(),
            match r {
                Ok(()) => unchained(*old(self), *final(self), old_chain(*old(self), head)),
                Err(e) => {
                    &&& old(self).file.writes_left is Some
                    &&& final(self).file.writes_left == Some(0u64)
                    &&& e == Error::Io("device refused the write") || e == Error::Io(
                        "device refused to flush",
                    )
                    &&& final(self).state == old(self).state
                    &&& final(self).file.durable == old(self).file.durable
                    &&& final(self).file.room_left == old(self).file.room_left
                    &&& same_settings(old(self).file, final(self).file)
                    &&& wrote_only(
                        old(self).file,
                        final(self).file,
                        old_chain(*old(self), head),
                    )
                    &&& partly_scrubbed(
                        old(self).file@,
                        final(self).file@,
                        old_chain(*old(self), head),
                    )
                },
            },
    {
        let ghost a = *self;
        let ghost all = old_links(a.file@, head, MAX_CHECKPOINT_CHAIN as nat);
        let ghost gone = old_chain(a, head);
        let count: u64 = self.file.slot_count();
        let mut list: Vec<u64> = Vec::new();
        let mut cur: u64 = head;
        let mut left: u64 = MAX_CHECKPOINT_CHAIN;
        proof {
            lemma_old_chain(a, head);
            assert(list@ + all =~= all);
            assert(list@.to_set() =~= Set::<u64>::empty());
            assert(scrubbed(a.file@, list@.to_set()) =~= a.file@);
        }
        while cur != NO_RECORD && left > 0
            invariant_except_break
                all == list@ + old_links(self.file@, cur, left as nat),
            invariant
                a == *old(self),
                a.wf(),
                a.file.lock_mode == LockMode::Exclusive,
                count == a.file@.len(),
                count <= usize::MAX,
                gone == old_chain(a, head),
                gone == all.to_set(),
                all_links(a.file@, gone),
                self.state == a.state,
                same_settings(a.file, self.file),
                wrote_only(a.file, self.file, gone),
                self.file.durable == a.file.durable,
                self.file.room_left == a.file.room_left,
                a.file.writes_left is None ==> self.file.writes_left is None,
                self.file@ == scrubbed(a.file@, list@.to_set()),
                list@.len() <= all.len(),
                list@ == all.take(list@.len() as int),
            ensures
                all == list@,
            decreases left,
        {
            left = left - 1;
            let next: u64;
            match self.read_owned_chunk(cur) {
                Err(_) => {
                    assert(all =~= list@);
                    break;
                },
                Ok(pt) => {
                    if pt.kind != ChunkKind::Checkpoint {
                        assert(all =~= list@);
                        break;
                    }
                    next = match CheckpointChunk::decode(pt.payload.as_slice()) {
                        Ok(c) => c.next_slot,
                        Err(_) => NO_RECORD,
                    };
                },
            }
            let ghost before = self.file@;
            let ghost rest = old_links(
                before.update(cur as int, None),
                next,
                left as nat,
            );
            proof {
                assert(all == list@ + (seq![cur] + rest));
                assert(all =~= list@.push(cur) + rest);
                assert(all[list@.len() as int] == cur);
                assert(gone.contains(cur));
            }
            match self.file.scrub_slot(cur) {
                Ok(()) => {},
                Err(e) => {
                    proof {
                        lemma_some_links(a.file@, all, list@);
                        lemma_links_wf(a, *self, gone);
                    }
                    return Err(e);
                },
            }
            proof {
                lemma_scrub_one(a.file@, list@, cur, a.file.slots.len());
                assert(list@.push(cur) =~= all.take(list@.len() as int + 1));
            }
            list.push(cur);
            cur = next;
        }
        let ghost b = *self;
        proof {
            lemma_some_links(a.file@, all, list@);
            lemma_links_wf(a, b, gone);
        }
        if list.len() > 0 {
            assert(gone.contains(list@[0]));
            match self.sync() {
                Ok(()) => {},
                Err(e) => {
                    return Err(e);
                },
            }
            proof {
                assert forall|i: int| 0 <= i < list@.len() implies countable(
                    #[trigger] list@[i],
                ) by {
                    assert(gone.contains(list@[i]));
                }
                assert(gone.disjoint(a.state.pool@)) by {
                    assert forall|x: u64| #[trigger] gone.contains(x) implies !a.state.pool@.contains(
                        x,
                    ) by {
                        assert(live(a.file@, x));
                    }
                }
            }
            let dropped = OwnedSet::from_slots(list.as_slice());
            self.state.owned_slots.remove_all(&dropped);
            let ghost c = *self;
            let mut i: usize = 0;
            assert(list@.take(0).to_set() =~= Set::<u64>::empty());
            assert(a.state.pool@.union(list@.take(0).to_set()) =~= a.state.pool@);
            while i < list.len()
                invariant
                    i <= list@.len(),
                    forall|i: int| 0 <= i < list@.len() ==> countable(#[trigger] list@[i]),
                    self.file == c.file,
                    self.state == (SpaceState { pool: self.state.pool, ..c.state }),
                    self.state.pool.wf(),
                    self.state.pool@ == a.state.pool@.union(list@.take(i as int).to_set()),
                    self.state.pool.drift == counted(
                        a.state.pool.drift,
                        list@.take(i as int).to_set().len() as int,
                    ),
                    gone.disjoint(a.state.pool@),
                    list@.to_set() == gone,
                decreases list@.len() - i,
            {
                proof {
                    lemma_take_to_set(list@, i as int);
                    assert(list@.to_set().contains(list@[i as int]));
                }
                self.state.pool.insert(list[i]);
                assert(self.state.pool@ =~= a.state.pool@.union(list@.take(i + 1).to_set()));
                i = i + 1;
            }
            assert(list@.take(i as int) =~= list@);
        } else {
            proof {
                assert(gone =~= Set::<u64>::empty());
                assert(a.state.owned_slots@.difference(gone) =~= a.state.owned_slots@);
                assert(a.state.pool@.union(gone) =~= a.state.pool@);
            }
        }
        Ok(())
    }
}

/// Overwriting the first links overwrites some.
proof fn lemma_some_links(img: Image, all: Seq<u64>, list: Seq<u64>)
    requires
        list.len() <= all.len(),
        list == all.take(list.len() as int),
    ensures
        partly_scrubbed(img, scrubbed(img, list.to_set()), all.to_set()),
{
    let b = scrubbed(img, list.to_set());
    assert forall|s: u64| s < img.len() implies (#[trigger] b[s as int]) == img[s as int] || (
    all.to_set().contains(s) && b[s as int] is None) by {
        if list.to_set().contains(s) {
            let i = choose|i: int| 0 <= i < list.len() && list[i] == s;
            assert(all[i] == s);
        }
    }
}

// ---------------------------------------------------------------------------
// Self-healing
// ---------------------------------------------------------------------------

/// Everything but links that opened still opens as it did.
pub open spec fn survives(a: Image, b: Image) -> bool {
    forall|s: u64| #[trigger]
        live(a, s) && a[s as int]->0.kind != ChunkKind::Checkpoint ==> live(b, s) && b[s as int]
            == a[s as int]
}

/// The slots free for reuse that only the old chain still knows.
pub open spec fn carried(s: Space) -> Set<u64> {
    let head = s.state.superblock.checkpoint_slot;
    let total = s.file@.len() as int;
    if s.state.pool_recovered || head == NO_RECORD {
        Set::<u64>::empty()
    } else {
        match chain(s.file@, head, None, total, MAX_CHECKPOINT_CHAIN as nat) {
            None => Set::<u64>::empty(),
            Some(v) => v.1.to_set().filter(|x: u64| x < total),
        }
    }
}

/// The slots owned once the old chain is gone.
pub open spec fn owned_to_record(s: Space) -> Set<u64> {
    s.state.owned_slots@.difference(old_chain(s, s.state.superblock.checkpoint_slot))
}

/// The slots free for reuse once the old chain is gone.
pub open spec fn pool_to_record(s: Space) -> Set<u64> {
    recorded_pool(
        s.state.pool@.union(old_chain(s, s.state.superblock.checkpoint_slot)),
        carried(s),
        owned_to_record(s),
        s.file@.len() as u64,
    )
}

/// The chain from `head` on records these slots, in rising order.
pub open spec fn records(img: Image, head: u64, owned: Set<u64>, pool: Set<u64>) -> bool {
    exists|o: Seq<u64>, p: Seq<u64>| #[trigger]
        lists(o, owned) && #[trigger] lists(p, pool) && chain_of(img, head, o, p)
}

/// The chain from `head` on records these lists.
pub open spec fn chain_of(img: Image, head: u64, owned: Seq<u64>, pool: Seq<u64>) -> bool {
    chain(img, head, None, img.len() as int, links_for(owned.len() + pool.len())) == Some(
        (owned, pool),
    )
}

/// A chain stays as the file grows.
proof fn lemma_chain_of_extends(
    a: Image,
    b: Image,
    head: u64,
    owned: Seq<u64>,
    pool: Seq<u64>,
    seq: u64,
    water: u64,
)
    requires
        chain_of(a, head, owned, pool),
        headed(a, head, seq, water),
        extends(a, b),
        a.len() <= b.len(),
    ensures
        chain_of(b, head, owned, pool),
        headed(b, head, seq, water),
{
    let n = links_for(owned.len() + pool.len());
    lemma_chain_extends(a, b, head, None, a.len() as int, b.len() as int, n, n);
    assert(live(a, head));
}

/// `b` is `a` with a new checkpoint published.
pub open spec fn healed(a: Space, b: Space) -> bool {
    &&& used_seq(a) < u64::MAX
    &&& b.state.superblock.seq == used_seq(a) + 1
    &&& b.state.superblock.root_slot == a.state.superblock.root_slot
    &&& b.state.superblock.root_hash == a.state.superblock.root_hash
    &&& on_file(b.file@, b.state.superblock@)
    &&& replicated(
        scrubbed(a.file@, old_chain(a, a.state.superblock.checkpoint_slot)),
        b.file@,
        b.state.superblock@,
        copies_wanted(a.file),
    )
    &&& b.file.durable@ == b.file@
    &&& records(
        b.file@,
        b.state.superblock.checkpoint_slot,
        owned_to_record(a),
        pool_to_record(a),
    )
    &&& headed(
        b.file@,
        b.state.superblock.checkpoint_slot,
        b.state.superblock.seq,
        a.file@.len() as u64,
    )
    &&& b.state.attempted_seq == b.state.superblock.seq
    &&& b.state.last_publish_error is None
    &&& b.state.commit_history@ == a.state.commit_history@.push(b.state.superblock.seq)
    &&& b.state.pool@ == a.state.pool@.union(
        old_chain(a, a.state.superblock.checkpoint_slot),
    )
    &&& b.state.pool.drift == 0
}

/// A superblock that leads where the current one does, and to a chain that is
/// on the device, is all that is new.
pub open spec fn heal_begun(a: Space, b: Space, sb: SuperblockView) -> bool {
    &&& leads_there(a, sb)
    &&& only_new_superblock(a.file@, b.file@, sb)
    &&& records(b.file.durable@, sb.checkpoint_slot, owned_to_record(a), pool_to_record(a))
    &&& headed(b.file.durable@, sb.checkpoint_slot, sb.seq, a.file@.len() as u64)
}

/// Every superblock on file was there before, or leads where the current one
/// does and to a chain that is on the device.
pub open spec fn same_era(a: Space, b: Space) -> bool {
    no_new_superblock(a.file@, b.file@) || exists|sb: SuperblockView| #[trigger]
        heal_begun(a, b, sb)
}

/// The superblock leads where the current one does.
pub open spec fn leads_there(a: Space, sb: SuperblockView) -> bool {
    sb.root_slot == a.state.superblock.root_slot && sb.root_hash == a.state.superblock.root_hash@
}

/// With no superblock new twice, none is new.
proof fn lemma_no_new(a: Image, b: Image, c: Image)
    requires
        no_new_superblock(a, b),
        no_new_superblock(b, c),
        extends(b, c),
    ensures
        no_new_superblock(a, c),
{
    assert forall|s: u64| #[trigger]
        live(c, s) && c[s as int]->0.kind == ChunkKind::Superblock implies live(a, s) by {
        assert(live(b, s));
    }
}

/// What is on the device was in the slots and is still there, but for links of
/// chains: it is what was on it in `a`, or all that `a` held and more.
pub open spec fn heal_flushed(a: ContainerFile, b: ContainerFile) -> bool {
    b.durable == a.durable || (survives(a@, b.durable@) && survives(b.durable@, b@))
}

/// What writing a checkpoint keeps, whether it succeeds or fails: all that is
/// stored, and no slot is reused.
pub open spec fn kept_by_heal(a: Space, b: Space) -> bool {
    &&& survives(a.file@, b.file@)
    &&& a.file@.len() <= b.file@.len()
    &&& same_settings(a.file, b.file)
    &&& wrote_only(a.file, b.file, a.state.owned_slots@.union(a.state.pool@))
    &&& heal_flushed(a.file, b.file)
    &&& stamped(a.file@, b.file@, (used_seq(a) + 1) as u64)
    &&& within(a, b)
    &&& a.state.owned_slots@.difference(
        old_chain(a, a.state.superblock.checkpoint_slot),
    ).subset_of(b.state.owned_slots@)
    &&& forall|s: u64| #[trigger]
        b.state.owned_slots@.contains(s) ==> a.state.owned_slots@.contains(s) || live(b.file@, s)
    &&& a.state.pool@.subset_of(b.state.pool@)
    &&& same_era(a, b)
    &&& b.state.keys == a.state.keys
    &&& b.state.unreadable_newer_superblock == a.state.unreadable_newer_superblock
    &&& b.state.last_padding_error == a.state.last_padding_error
    &&& b.state.pool_recovered == a.state.pool_recovered
    &&& b.state.reuse_count == a.state.reuse_count
    &&& b.state.churn_count == a.state.churn_count
}

/// `b` is `a` after writing a checkpoint failed: what is published is as
/// before. Once the publish has been started, with the chain on the device,
/// the failure says so.
pub open spec fn heal_failed(a: Space, b: Space, e: Error) -> bool {
    &&& b.state.superblock == a.state.superblock
    &&& b.state.commit_history == a.state.commit_history
    &&& if b.state.attempted_seq == a.state.attempted_seq {
        &&& b.state.last_publish_error == a.state.last_publish_error
        &&& no_new_superblock(a.file@, b.file@)
        &&& {
            ||| e == Error::Internal("checkpoint owned set does not fit in memory")
                && owned_to_record(a).len() > 0 && dropped(a, b)
            ||| e == Error::Internal("checkpoint pool does not fit in memory") && pool_to_record(
                a,
            ).len() > 0 && dropped(a, b)
            ||| e == Error::Internal("checkpoint seq overflow") && used_seq(a) == u64::MAX
                && dropped(a, b)
            ||| blamed(b, e)
        }
    } else {
        &&& b.state.attempted_seq == used_seq(a) + 1
        &&& exists|sb: SuperblockView| #[trigger]
            heal_begun(a, b, sb) && sb.seq == b.state.attempted_seq
        &&& b.state.last_publish_error matches Some(cause) && blamed(b, cause)
        &&& e == Error::PublishUncertain("checkpointing")
    }
    &&& takes_all(a) ==> dropped(a, b) && e is Internal
}

/// `b` is `a` without the old chain.
pub open spec fn dropped(a: Space, b: Space) -> bool {
    unchained(a, b, old_chain(a, a.state.superblock.checkpoint_slot))
}

// ---------------------------------------------------------------------------
// Publishing
// ---------------------------------------------------------------------------

/// What publishing a checkpoint keeps, whether it succeeds or fails.
pub open spec fn kept_by_checkpoint(a: Space, b: Space) -> bool {
    &&& extends(a.file@, b.file@)
    &&& same_settings(a.file, b.file)
    &&& wrote_only(a.file, b.file, a.state.pool@)
    &&& flushed(a.file, b.file)
    &&& stamped(a.file@, b.file@, (used_seq(a) + 1) as u64)
    &&& within(a, b)
    &&& a.state.owned_slots@.subset_of(b.state.owned_slots@)
    &&& forall|s: u64| #[trigger]
        b.state.owned_slots@.contains(s) ==> a.state.owned_slots@.contains(s) || live(b.file@, s)
    &&& b.state.pool@ == a.state.pool@
    &&& b.state.keys == a.state.keys
    &&& b.state.unreadable_newer_superblock == a.state.unreadable_newer_superblock
    &&& b.state.last_padding_error == a.state.last_padding_error
    &&& b.state.pool_recovered == a.state.pool_recovered
    &&& b.state.reuse_count == a.state.reuse_count
    &&& b.state.churn_count == a.state.churn_count
}

/// A superblock that leads where the current one does, and to a chain with
/// these lists that is on the device, is all that is new.
pub open spec fn checkpoint_begun(
    a: Space,
    b: Space,
    owned: Seq<u64>,
    pool: Seq<u64>,
    sb: SuperblockView,
) -> bool {
    &&& leads_there(a, sb)
    &&& only_new_superblock(a.file@, b.file@, sb)
    &&& chain_of(b.file.durable@, sb.checkpoint_slot, owned, pool)
    &&& headed(b.file.durable@, sb.checkpoint_slot, sb.seq, a.file@.len() as u64)
}

/// `b` is `a` with a checkpoint published that records these lists.
pub open spec fn checkpointed(a: Space, b: Space, owned: Seq<u64>, pool: Seq<u64>) -> bool {
    let sb = b.state.superblock;
    &&& sb.seq == used_seq(a) + 1
    &&& sb.root_slot == a.state.superblock.root_slot
    &&& sb.root_hash == a.state.superblock.root_hash
    &&& on_file(b.file@, sb@)
    &&& replicated(a.file@, b.file@, sb@, copies_wanted(a.file))
    &&& b.file.durable@ == b.file@
    &&& checkpoint_begun(a, b, owned, pool, sb@)
    &&& b.state.attempted_seq == sb.seq
    &&& b.state.last_publish_error is None
    &&& b.state.commit_history@ == a.state.commit_history@.push(sb.seq)
    &&& b.state.pool.drift == 0
}

/// `b` is `a` after the device refused a checkpoint of these lists: what is
/// published is as before. Once the publish has been started, with the chain
/// on the device, the failure says so.
pub open spec fn checkpoint_refused(
    a: Space,
    b: Space,
    owned: Seq<u64>,
    pool: Seq<u64>,
    e: Error,
) -> bool {
    &&& !takes_all(a)
    &&& b.state.superblock == a.state.superblock
    &&& b.state.commit_history == a.state.commit_history
    &&& if b.state.attempted_seq == a.state.attempted_seq {
        &&& b.state.last_publish_error == a.state.last_publish_error
        &&& no_new_superblock(a.file@, b.file@)
        &&& blamed(b, e)
    } else {
        &&& b.state.attempted_seq == used_seq(a) + 1
        &&& exists|sb: SuperblockView| #[trigger]
            checkpoint_begun(a, b, owned, pool, sb) && sb.seq == b.state.attempted_seq
        &&& b.state.last_publish_error matches Some(cause) && blamed(b, cause)
        &&& e == Error::PublishUncertain("checkpointing")
    }
}

/// Why a checkpoint of these lists is not begun, if it is not: there was no
/// memory for one of them, or no number is left.
pub open spec fn checkpoint_refusal(
    s: Space,
    owned: Result<Vec<u64>, std::collections::TryReserveError>,
    pool: Result<Vec<u64>, Error>,
) -> Option<Error> {
    match (owned, pool) {
        (Err(_), _) => Some(Error::Internal("checkpoint owned set does not fit in memory")),
        (Ok(_), Err(e)) => Some(e),
        (Ok(o), Ok(p)) => if o@.len() + p@.len() > usize::MAX {
            Some(Error::Internal("checkpoint pool does not fit in memory"))
        } else if used_seq(s) == u64::MAX {
            Some(Error::Internal("checkpoint seq overflow"))
        } else {
            None
        },
    }
}

/// Links go, and everything else stays.
proof fn lemma_unchained_survives(a: Image, gone: Set<u64>)
    requires
        all_links(a, gone),
    ensures
        survives(a, scrubbed(a, gone)),
{
}

/// What survives stays as the file grows.
proof fn lemma_survives_extends(a: Image, b: Image, c: Image)
    requires
        survives(a, b),
        extends(b, c),
    ensures
        survives(a, c),
{
    assert forall|s: u64| #[trigger]
        live(a, s) && a[s as int]->0.kind != ChunkKind::Checkpoint implies live(c, s)
        && c[s as int] == a[s as int] by {
        assert(live(b, s));
    }
}

/// What of it is on the device stays there as the file grows.
proof fn lemma_heal_flushed(a: ContainerFile, b: ContainerFile, c: ContainerFile)
    requires
        survives(a@, b@),
        heal_flushed(a, b),
        extends(b@, c@),
        flushed(b, c),
    ensures
        heal_flushed(a, c),
{
    if c.durable != b.durable {
        lemma_survives_extends(a@, b@, c.durable@);
    } else if b.durable != a.durable {
        lemma_survives_extends(b.durable@, b@, c@);
    }
}

/// Dropping the old chain and publishing a new one is writing a checkpoint.
#[verifier::spinoff_prover]
proof fn lemma_healing(a: Space, b: Space, c: Space, owned: Seq<u64>, pool: Seq<u64>)
    requires
        a.wf(),
        b.wf(),
        c.wf(),
        dropped(a, b),
        lists(owned, owned_to_record(a)),
        lists(pool, pool_to_record(a)),
        kept_by_checkpoint(b, c),
    ensures
        checkpointed(b, c, owned, pool) ==> kept_by_heal(a, c) && healed(a, c),
        forall|e: Error| #[trigger]
            checkpoint_refused(b, c, owned, pool, e) ==> kept_by_heal(a, c) && heal_failed(a, c, e),
{
    let gone = old_chain(a, a.state.superblock.checkpoint_slot);
    lemma_old_chain(a, a.state.superblock.checkpoint_slot);
    lemma_unchained_survives(a.file@, gone);
    lemma_survives_extends(a.file@, b.file@, c.file@);
    lemma_heal_flushed(a.file, b.file, c.file);
    assert(no_new_superblock(a.file@, b.file@));
    assert forall|sb: SuperblockView| #[trigger]
        checkpoint_begun(b, c, owned, pool, sb) implies heal_begun(a, c, sb) by {
        lemma_only_new(a.file@, b.file@, c.file@, sb);
    }
    if no_new_superblock(b.file@, c.file@) {
        lemma_no_new(a.file@, b.file@, c.file@);
    }
}

impl Space {
    /// The slots free for reuse that only the old chain still knows.
    fn carried_pool(&self) -> (r: DecoyPool)
        requires
            self.wf(),
        ensures
            r.wf(),
            r@ == carried(*self),
    {
        let head: u64 = self.state.superblock.checkpoint_slot;
        let total: u64 = self.file.slot_count();
        if self.state.pool_recovered || head == NO_RECORD {
            return DecoyPool::with_capacity(0);
        }
        match self.read_checkpoint_chain(head, total) {
            None => DecoyPool::with_capacity(0),
            Some(v) => {
                let p = DecoyPool::from_recorded(v.pool, total);
                assert(p@ =~= carried(*self));
                p
            },
        }
    }

    /// Publishes a checkpoint: writes a chain that records the slots owned and
    /// the slots free for reuse, and then a superblock that leads to it and to
    /// the same commit. Takes the two lists as memory was found for them.
    /// Reuses no slot.
    #[verifier::spinoff_prover]
    #[verifier::rlimit(60)]
    pub fn publish_checkpoint(
        &mut self,
        owned: Result<Vec<u64>, std::collections::TryReserveError>,
        pool: Result<Vec<u64>, Error>,
    ) -> (r: Result<(), Error>)
        requires
            old(self).wf(),
            old(self).file.lock_mode == LockMode::Exclusive,
        ensures
            final(self).wf(),
            match checkpoint_refusal(*old(self), owned, pool) {
                Some(e) => r == Err::<(), Error>(e) && *final(self) == *old(self),
                None => {
                    &&& kept_by_checkpoint(*old(self), *final(self))
                    &&& match r {
                        Ok(()) => checkpointed(
                            *old(self),
                            *final(self),
                            owned->Ok_0@,
                            pool->Ok_0@,
                        ),
                        Err(e) => checkpoint_refused(
                            *old(self),
                            *final(self),
                            owned->Ok_0@,
                            pool->Ok_0@,
                            e,
                        ),
                    }
                },
            },
    {
        let owned = match owned {
            Ok(v) => v,
            Err(_) => {
                return Err(Error::Internal("checkpoint owned set does not fit in memory"));
            },
        };
        let pool = match pool {
            Ok(v) => v,
            Err(e) => {
                return Err(e);
            },
        };
        if pool.len() > usize::MAX - owned.len() {
            return Err(Error::Internal("checkpoint pool does not fit in memory"));
        }
        let used: u64 = if self.state.attempted_seq > self.state.superblock.seq {
            self.state.attempted_seq
        } else {
            self.state.superblock.seq
        };
        if used == u64::MAX {
            return Err(Error::Internal("checkpoint seq overflow"));
        }
        let ghost a = *self;
        let cp_seq: u64 = used + 1;
        let total: u64 = self.file.slot_count();
        self.state.reuse_floor = usize::MAX;
        let ghost s2 = *self;
        proof {
            let pool_len = s2.state.pool.set.len;
            assert(s2.state.pool@.len() == pool_len);
        }
        let head: u64 = match self.write_checkpoint_chain(
            cp_seq,
            total,
            owned.as_slice(),
            pool.as_slice(),
        ) {
            Ok(h) => h,
            Err(e) => {
                return Err(e);
            },
        };
        let ghost s3 = *self;
        match self.sync() {
            Ok(()) => {},
            Err(e) => {
                return Err(e);
            },
        }
        let ghost s4 = *self;
        let sb = Superblock {
            seq: cp_seq,
            root_slot: self.state.superblock.root_slot,
            root_hash: self.state.superblock.root_hash,
            checkpoint_slot: head,
        };
        let out = self.publish_superblock(&sb, "checkpointing");
        let ghost s5 = *self;
        proof {
            lemma_extends_trans(a.file@, s4.file@, s5.file@);
            lemma_only_new(a.file@, s4.file@, s5.file@, sb@);
            assert(s4.file.durable@ == s4.file@);
            if s5.file.durable == s4.file.durable {
                lemma_extends_refl(s4.file@);
            }
            lemma_chain_of_extends(
                s4.file@,
                s5.file.durable@,
                head,
                owned@,
                pool@,
                cp_seq,
                total,
            );
            lemma_extends_trans(a.file@, s4.file@, s5.file.durable@);
            assert(checkpoint_begun(a, s5, owned@, pool@, sb@));
            lemma_pool_kept(s2, s5);
        }
        match out {
            Ok(()) => {},
            Err(e) => {
                return Err(e);
            },
        }
        self.state.superblock = sb;
        self.state.pool.clear_drift();
        self.state.commit_history.push(cp_seq);
        proof {
            assert(checkpoint_begun(a, *self, owned@, pool@, sb@));
            lemma_extends_refl(s5.file@);
            lemma_replicated_extends(
                a.file@,
                s4.file@,
                s5.file@,
                s5.file@,
                sb@,
                copies_wanted(a.file),
            );
        }
        Ok(())
    }

    /// Writes a checkpoint: overwrites the old chain, records the slots owned
    /// and the slots free for reuse, and publishes a superblock that leads to
    /// the new chain and to the same commit. Reuses no slot. Refused while there
    /// is newer state on file that cannot be read.
    #[verifier::spinoff_prover]
    #[verifier::rlimit(80)]
    pub fn write_self_heal_checkpoint(&mut self) -> (r: Result<(), Error>)
        requires
            old(self).wf(),
        ensures
            final(self).wf(),
            old(self).file.lock_mode != LockMode::Exclusive ==> r == Err::<(), Error>(
                Error::ReadOnly,
            ) && *final(self) == *old(self),
            old(self).file.lock_mode == LockMode::Exclusive
                && old(self).state.unreadable_newer_superblock is Some ==> r == Err::<(), Error>(
                Error::UnreadableNewerState,
            ) && *final(self) == *old(self),
            old(self).file.lock_mode == LockMode::Exclusive
                && old(self).state.unreadable_newer_superblock is None ==> {
                &&& kept_by_heal(*old(self), *final(self))
                &&& match r {
                    Ok(()) => healed(*old(self), *final(self)),
                    Err(e) => heal_failed(*old(self), *final(self), e),
                }
            },
    {
        if !self.file.lock_mode.allows_writes() {
            return Err(Error::ReadOnly);
        }
        if self.state.unreadable_newer_superblock.is_some() {
            return Err(Error::UnreadableNewerState);
        }
        let ghost a = *self;
        let old_head: u64 = self.state.superblock.checkpoint_slot;
        let ghost gone = old_chain(a, old_head);
        let total: u64 = self.file.slot_count();
        let carried_pool = self.carried_pool();
        proof {
            lemma_old_chain(a, old_head);
        }
        if old_head != NO_RECORD {
            match self.scrub_checkpoint_chain(old_head) {
                Ok(()) => {},
                Err(e) => {
                    return Err(e);
                },
            }
        } else {
            proof {
                assert(gone =~= Set::<u64>::empty());
                assert(scrubbed(a.file@, gone) =~= a.file@);
                assert(a.state.owned_slots@.difference(gone) =~= a.state.owned_slots@);
                assert(a.state.pool@.union(gone) =~= a.state.pool@);
            }
        }
        let ghost b = *self;
        proof {
            assert(dropped(a, b));
            lemma_unchained_survives(a.file@, gone);
            assert(heal_flushed(a.file, b.file));
            assert(no_new_superblock(a.file@, b.file@));
            assert(kept_by_heal(a, b));
        }
        let owned = self.state.owned_slots.try_to_sorted_vec();
        let pool = merge_carried_pool(
            &self.state.pool,
            carried_pool,
            &self.state.owned_slots,
            total,
        );
        let ghost lists_of = (owned, pool);
        let r = self.publish_checkpoint(owned, pool);
        proof {
            let c = *self;
            let (o, p) = lists_of;
            if checkpoint_refusal(b, o, p) is Some {
                if let Ok(v) = p {
                    lemma_lists_len(v@, pool_to_record(a));
                }
                assert(c == b);
                assert(used_seq(b) == used_seq(a));
                if let (Ok(v), Ok(w)) = (o, p) {
                    let n = v.len();
                    assert(v@.len() == n);
                }
                assert(r is Err);
                assert(takes_all(a) ==> r->Err_0 is Internal);
                assert(heal_failed(a, c, r->Err_0));
            } else {
                lemma_healing(a, b, c, o->Ok_0@, p->Ok_0@);
            }
        }
        r
    }

    /// Writes a checkpoint where one is worth having: on a handle that
    /// writes, in a file that is large enough, if there is none yet, or it
    /// covers too little, or the pool has drifted too far from it. Says
    /// whether one was written. Refused while there is newer state on file that
    /// cannot be read.
    pub fn maybe_self_heal_checkpoint(&mut self) -> (r: Result<bool, Error>)
        requires
            old(self).wf(),
        ensures
            final(self).wf(),
            heal_barred(*old(self)) ==> r == Err::<bool, Error>(Error::UnreadableNewerState)
                && *final(self) == *old(self),
            !heal_barred(*old(self)) && !worth_healing(*old(self)) ==> r == Ok::<bool, Error>(false)
                && *final(self) == *old(self),
            !heal_barred(*old(self)) && worth_healing(*old(self)) ==> {
                &&& kept_by_heal(*old(self), *final(self))
                &&& match r {
                    Ok(done) => done && healed(*old(self), *final(self)),
                    Err(e) => heal_failed(*old(self), *final(self), e),
                }
            },
    {
        if !self.file.lock_mode.allows_writes() {
            return Ok(false);
        }
        if self.state.unreadable_newer_superblock.is_some() {
            return Err(Error::UnreadableNewerState);
        }
        let total: u64 = self.file.slot_count();
        if total < CHECKPOINT_MIN_TOTAL {
            return Ok(false);
        }
        let old_head: u64 = self.state.superblock.checkpoint_slot;
        let existing: u64 = if old_head == NO_RECORD {
            0
        } else {
            match self.read_checkpoint_head_high_water(old_head) {
                Some(n) => n,
                None => 0,
            }
        };
        let tail: u64 = total.saturating_sub(existing);
        let owned_count: u64 = self.state.owned_slots.len() as u64;
        let least: u64 = if owned_count > CHECKPOINT_MIN_TAIL_REFRESH {
            owned_count
        } else {
            CHECKPOINT_MIN_TAIL_REFRESH
        };
        if old_head != NO_RECORD && tail <= least && self.state.pool.drift()
            < CHECKPOINT_MIN_POOL_DRIFT {
            return Ok(false);
        }
        match self.write_self_heal_checkpoint() {
            Ok(()) => Ok(true),
            Err(e) => Err(e),
        }
    }
}

/// There is newer state on file that cannot be read, on a handle that writes:
/// what this handle knows must not be recorded.
pub open spec fn heal_barred(s: Space) -> bool {
    s.file.lock_mode == LockMode::Exclusive && s.state.unreadable_newer_superblock is Some
}

/// A checkpoint is worth writing.
pub open spec fn worth_healing(s: Space) -> bool {
    let head = s.state.superblock.checkpoint_slot;
    let total = s.file@.len() as int;
    let covered = match link_at(s.file@, head) {
        Some(c) if head != NO_RECORD => c.cp_high_water as int,
        _ => 0,
    };
    let owned = s.state.owned_slots@.len() as int;
    &&& s.file.lock_mode == LockMode::Exclusive
    &&& total >= CHECKPOINT_MIN_TOTAL
    &&& {
        ||| head == NO_RECORD
        ||| total - covered > owned && total - covered > CHECKPOINT_MIN_TAIL_REFRESH
        ||| s.state.pool.drift >= CHECKPOINT_MIN_POOL_DRIFT
    }
}

/// While no slot may be reused, the pool stays as it is.
proof fn lemma_pool_kept(a: Space, b: Space)
    requires
        a.state.pool@.finite(),
        a.state.pool@.len() <= a.state.reuse_floor,
        b.state.pool@.subset_of(a.state.pool@),
        b.state.pool@.len() >= a.state.pool@.len() || b.state.pool@.len() >= a.state.reuse_floor,
    ensures
        b.state.pool@ == a.state.pool@,
{
    vstd::set_lib::lemma_len_subset(b.state.pool@, a.state.pool@);
    vstd::set_lib::lemma_subset_equality(b.state.pool@, a.state.pool@);
}

} // verus!
