//! Drawing, padding, checkpoints and bounds, told by what comes of them.

use vstd::prelude::*;

use crate::chunk::{ChunkKind, PlaintextView};
use crate::container::{
    affords, live, padding_after, writes_less, Image, LockMode, PaddingPolicy,
};
use crate::error::Error;
use crate::space::chain::{
    chain, heal_barred, link_at, old_chain, old_links, owned_to_record, pool_to_record,
    worth_healing,
};
use crate::space::checkpoint::MAX_CHECKPOINT_CHAIN;
use crate::space::log::{footprint, RecordView};
use crate::space::pool::{drawn, lemma_slot_at, slot_at, uniform_from, words_after};
use crate::space::slots::rank_of;
use crate::space::superblock::NO_RECORD;
use crate::space::vacuum::vacuum_refusal;
use crate::space::walk::{
    depth_bound, lemma_depth_bound_grows, min_chunks, pow_fanout, walk_refusal, WalkView,
};
use crate::space::{reused, spec_reuse_floor, stored, Space};

verus! {

// ---------------------------------------------------------------------------
// Drawing
// ---------------------------------------------------------------------------

/// A draw below `n` takes the first word below a multiple of `n`, the greatest
/// there is, and gives its remainder: so every number below `n` comes from as
/// many words as any other. Words from there on are passed over; without a word
/// below it there is no draw.
pub proof fn law_draws_are_even(words: Seq<u64>, n: nat, limit: nat)
    requires
        0 < n <= u64::MAX,
        limit <= u64::MAX,
        limit % n == 0,
        limit + n > u64::MAX,
    ensures
        limit > 0,
        words.len() == 0 ==> uniform_from(words, n) is None,
        words.len() > 0 && words[0] < limit ==> uniform_from(words, n) == Some(
            (words[0] as nat) % n,
        ) && words_after(words, n) == words.drop_first(),
        words.len() > 0 && words[0] >= limit ==> uniform_from(words, n) == uniform_from(
            words.drop_first(),
            n,
        ) && words_after(words, n) == words_after(words.drop_first(), n),
        uniform_from(words, n) matches Some(k) ==> k < n,
    decreases words.len(),
{
    let m = u64::MAX as int;
    let r = m - limit;
    let q = limit as int / n as int;
    vstd::arithmetic::div_mod::lemma_fundamental_div_mod(limit as int, n as int);
    assert(m == n * q + r);
    vstd::arithmetic::div_mod::lemma_fundamental_div_mod_converse(m, n as int, q, r);
    assert(m % (n as int) == r);
    if limit == 0 {
        assert(n > u64::MAX);
    }
    if words.len() > 0 {
        law_draws_are_even(words.drop_first(), n, limit);
        if words[0] < limit {
            vstd::arithmetic::div_mod::lemma_mod_bound(words[0] as int, n as int);
        }
    }
}

/// Every slot in a pool can come out of a draw: there is a word that gives it.
pub proof fn law_every_slot_can_be_drawn(pool: Set<u64>, slot: u64)
    requires
        pool.finite(),
        pool.contains(slot),
        pool.len() < u64::MAX,
    ensures
        exists|word: u64|
            #![trigger seq![word]]
            uniform_from(seq![word], pool.len()) matches Some(rank) && slot_at(pool, rank) == slot,
{
    let rank = rank_of(pool, slot);
    let below = pool.filter(|t: u64| t < slot);
    assert(below.subset_of(pool.remove(slot)));
    vstd::set_lib::lemma_len_subset(below, pool.remove(slot));
    let n = pool.len();
    assert(rank < n);
    let m = u64::MAX as int;
    let limit = (m - m % (n as int)) as nat;
    vstd::arithmetic::div_mod::lemma_fundamental_div_mod(m, n as int);
    vstd::arithmetic::div_mod::lemma_mod_bound(m, n as int);
    vstd::arithmetic::div_mod::lemma_mod_multiples_basic(m / (n as int), n as int);
    assert(limit as int == n * (m / (n as int)));
    assert((m / (n as int)) * (n as int) == n * (m / (n as int))) by (nonlinear_arith);
    let word = rank as u64;
    law_draws_are_even(seq![word], n, limit);
    assert(limit >= n) by {
        assert(m / (n as int) >= 1) by (nonlinear_arith)
            requires
                0 < n <= m,
        ;
        assert(n * (m / (n as int)) >= n) by (nonlinear_arith)
            requires
                m / (n as int) >= 1,
                n > 0,
        ;
    }
    vstd::arithmetic::div_mod::lemma_small_mod(rank, n);
    lemma_slot_at(pool, slot);
    assert(uniform_from(seq![word], n) == Some(rank));
}

/// A finite set has a greatest member.
proof fn lemma_greatest(set: Set<u64>) -> (m: u64)
    requires
        set.finite(),
        set.len() > 0,
    ensures
        set.contains(m),
        forall|x: u64| #[trigger] set.contains(x) ==> x <= m,
    decreases set.len(),
{
    let x = set.choose();
    let rest = set.remove(x);
    if rest.len() == 0 {
        assert forall|y: u64| #[trigger] set.contains(y) implies y <= x by {
            if y != x {
                assert(rest.contains(y));
                assert(rest =~= Set::<u64>::empty());
            }
        }
        x
    } else {
        let m = lemma_greatest(rest);
        assert forall|y: u64| #[trigger] set.contains(y) && y != x implies y <= m by {
            assert(rest.contains(y));
        }
        if x > m {
            x
        } else {
            m
        }
    }
}

/// Every rank below the number of members is that of a member.
proof fn lemma_rank_is_taken(set: Set<u64>, rank: nat)
    requires
        set.finite(),
        rank < set.len(),
    ensures
        set.contains(slot_at(set, rank)),
        rank_of(set, slot_at(set, rank)) == rank,
    decreases set.len(),
{
    let m = lemma_greatest(set);
    let rest = set.remove(m);
    assert(set.filter(|t: u64| t < m) =~= rest);
    if rank < rest.len() {
        lemma_rank_is_taken(rest, rank);
        let s = slot_at(rest, rank);
        assert(set.contains(s));
        assert(set.filter(|t: u64| t < s) =~= rest.filter(|t: u64| t < s));
        assert(rank_of(set, s) == rank);
    } else {
        assert(rank_of(set, m) == rank);
    }
}

/// Several draws take as many slots as are asked for, each from what the ones before
/// left: so they are in the pool and none comes twice. Without a word for one of
/// them there is no draw at all.
pub proof fn law_draws_are_without_replacement(pool: Set<u64>, words: Seq<u64>, k: nat, i: int)
    requires
        pool.finite(),
        k <= pool.len() < u64::MAX,
    ensures
        drawn(pool, words, 0) == Some((Seq::<u64>::empty(), words)),
        k > 0 && uniform_from(words, pool.len()) is None ==> drawn(pool, words, k) is None,
        drawn(pool, words, k) matches Some(d) ==> {
            &&& d.0.len() == k
            &&& d.0.no_duplicates()
            &&& 0 <= i < k ==> pool.contains(d.0[i])
            &&& k > 0 ==> (uniform_from(words, pool.len()) matches Some(rank) && rank_of(
                pool,
                d.0[0],
            ) == rank)
        },
    decreases k,
{
    if k > 0 {
        if let Some(rank) = uniform_from(words, pool.len()) {
            let m = u64::MAX as int;
            let n = pool.len() as int;
            vstd::arithmetic::div_mod::lemma_fundamental_div_mod(m, n);
            vstd::arithmetic::div_mod::lemma_mod_bound(m, n);
            vstd::arithmetic::div_mod::lemma_mod_multiples_basic(m / n, n);
            assert((m / n) * n == n * (m / n)) by (nonlinear_arith);
            law_draws_are_even(words, pool.len(), (m - m % n) as nat);
            let s = slot_at(pool, rank);
            lemma_rank_is_taken(pool, rank);
            let rest = pool.remove(s);
            let left = words_after(words, pool.len());
            law_draws_are_without_replacement(rest, left, (k - 1) as nat, i - 1);
            if let Some(d) = drawn(rest, left, (k - 1) as nat) {
                let v = seq![s] + d.0;
                assert forall|a: int, b: int| 0 <= a < v.len() && 0 <= b < v.len() && a
                    != b implies v[a] != v[b] by {
                    if a == 0 {
                        law_draws_are_without_replacement(rest, left, (k - 1) as nat, b - 1);
                    } else if b == 0 {
                        law_draws_are_without_replacement(rest, left, (k - 1) as nat, a - 1);
                    } else {
                        assert(v[a] == d.0[a - 1] && v[b] == d.0[b - 1]);
                    }
                }
            }
        }
    }
}

/// A slot that is placed on did not open and was not owned before; it now holds the
/// chunk and is owned; and no other slot opens that did not. One that is reused was
/// drawn from the pool and is no longer in it, and all others still are.
pub proof fn law_where_a_chunk_is_placed(
    a: Space,
    b: Space,
    slot: u64,
    p: PlaintextView,
    other: u64,
)
    requires
        stored(a, b, slot, p),
    ensures
        !live(a.file@, slot),
        !a.state.owned_slots@.contains(slot),
        slot < b.file@.len() && b.file@[slot as int] == Some(p),
        b.state.owned_slots@.contains(slot),
        other != slot ==> (b.state.owned_slots@.contains(other)
            <==> a.state.owned_slots@.contains(other)),
        other != slot && live(b.file@, other) ==> live(a.file@, other),
        reused(a, b, slot) ==> {
            &&& !b.state.pool@.contains(slot)
            &&& other != slot ==> (b.state.pool@.contains(other) <==> a.state.pool@.contains(other))
            &&& uniform_from(a.state.entropy.left(), a.state.pool@.len()) is Some
            &&& a.state.reuse_count < u64::MAX ==> b.state.reuse_count == a.state.reuse_count + 1
        },
{
}

/// A commit may draw on half of the pool, rounded down, and no more.
pub proof fn law_half_of_the_pool_stays(n: nat)
    ensures
        spec_reuse_floor(n) <= n,
        n - spec_reuse_floor(n) <= spec_reuse_floor(n),
        spec_reuse_floor(n) <= n - spec_reuse_floor(n) + 1,
{
}

// ---------------------------------------------------------------------------
// Padding
// ---------------------------------------------------------------------------

/// The noise after a commit: none where none is wanted; up to the next multiple
/// of the bucket, and less than a bucket; or so many slots for each that was
/// added.
pub proof fn law_padding(total: u64, added: u64, bucket: u64, ratio: u64)
    ensures
        padding_after(PaddingPolicy::Off, total, added) == 0,
        bucket == 0 ==> padding_after(
            PaddingPolicy::BucketGrowth { bucket_chunks: bucket },
            total,
            added,
        ) == 0,
        bucket > 0 ==> ({
            let n = padding_after(
                PaddingPolicy::BucketGrowth { bucket_chunks: bucket },
                total,
                added,
            );
            0 <= n < bucket && (total + n) % (bucket as int) == 0
        }),
        padding_after(PaddingPolicy::FixedRatio { noise_per_chunk: ratio }, total, added) == added
            * ratio,
{
    if bucket > 0 {
        let t = total as int;
        let k = bucket as int;
        vstd::arithmetic::div_mod::lemma_mod_bound(t, k);
        vstd::arithmetic::div_mod::lemma_fundamental_div_mod(t, k);
        if t % k != 0 {
            let n = k - t % k;
            assert(t + n == k * (t / k + 1)) by (nonlinear_arith)
                requires
                    t == k * (t / k) + t % k,
                    n == k - t % k,
            ;
            vstd::arithmetic::div_mod::lemma_mod_multiples_basic(t / k + 1, k);
            assert((t / k + 1) * k == k * (t / k + 1)) by (nonlinear_arith);
        }
    }
}

/// A device that takes so many writes takes that many and no more, and has as
/// many fewer left after some.
pub proof fn law_writes_are_counted(left: u64, n: int)
    requires
        0 <= n,
    ensures
        affords(None, n),
        writes_less(None, n) is None,
        affords(Some(left), n) <==> n <= left,
        n <= left ==> writes_less(Some(left), n) == Some((left - n) as u64),
{
}

// ---------------------------------------------------------------------------
// Checkpoints
// ---------------------------------------------------------------------------

/// A checkpoint is written for a file of at least 4096 slots, by a handle that
/// writes: where there is none, where more slots have come since than are owned
/// and than 2048, or where the pool has changed 256 times since; a checkpoint
/// that cannot be read covers nothing. It is barred while there is newer state
/// that cannot be read.
pub proof fn law_when_a_checkpoint_is_written(s: Space)
    ensures
        ({
            let total = s.file@.len() as int;
            let head = s.state.superblock.checkpoint_slot;
            let owned = s.state.owned_slots@.len() as int;
            let writes = s.file.lock_mode == LockMode::Exclusive;
            let covered = match link_at(s.file@, head) {
                Some(c) => c.cp_high_water as int,
                None => 0,
            };
            &&& !writes || total < 4096 ==> !worth_healing(s)
            &&& writes && total >= 4096 && head == 0xffff_ffff_ffff_ffff ==> worth_healing(s)
            &&& writes && total >= 4096 && head != 0xffff_ffff_ffff_ffff ==> (worth_healing(s)
                <==> total - covered > owned && total - covered > 2048 || s.state.pool.drift >= 256)
            &&& heal_barred(s) <==> writes && s.state.unreadable_newer_superblock is Some
        }),
{
}

/// A checkpoint records as owned what is owned, but for the links of the chain it
/// replaces; and as free for reuse what is free in memory, those links, and what
/// the old chain recorded as free where that was not taken over, as far as it is
/// in the file and not owned.
pub proof fn law_what_a_checkpoint_records(s: Space, slot: u64)
    requires
        s.wf(),
    ensures
        ({
            let head = s.state.superblock.checkpoint_slot;
            let links = old_chain(s, head);
            let known = match chain(
                s.file@,
                head,
                None,
                s.file@.len() as int,
                MAX_CHECKPOINT_CHAIN as nat,
            ) {
                Some(v) => !s.state.pool_recovered && v.1.contains(slot),
                None => false,
            };
            &&& owned_to_record(s).contains(slot) <==> s.state.owned_slots@.contains(slot)
                && !links.contains(slot)
            &&& pool_to_record(s).contains(slot) <==> slot < s.file@.len()
                && !owned_to_record(s).contains(slot) && (s.state.pool@.contains(slot)
                || links.contains(slot) || known)
        }),
{
    let count = s.file.slots.len();
    assert(s.file@.len() == count);
    let head = s.state.superblock.checkpoint_slot;
    if head == NO_RECORD {
        assert(chain(
            s.file@,
            head,
            None,
            s.file@.len() as int,
            MAX_CHECKPOINT_CHAIN as nat,
        ) is None);
    } else if let Some(v) = chain(
        s.file@,
        head,
        None,
        s.file@.len() as int,
        MAX_CHECKPOINT_CHAIN as nat,
    ) {
        assert(v.1.to_set().contains(slot) <==> v.1.contains(slot));
    }
}

/// The links that a checkpoint replaces are links that open, and the first of
/// them is the one that the superblock leads to, if it opens.
pub proof fn law_which_links_are_replaced(s: Space, slot: u64)
    ensures
        ({
            let head = s.state.superblock.checkpoint_slot;
            let links = old_chain(s, head);
            &&& links.contains(slot) ==> live(s.file@, slot) && s.file@[slot as int]->0.kind
                == ChunkKind::Checkpoint
            &&& head != 0xffff_ffff_ffff_ffff && live(s.file@, head) && s.file@[head as int]->0.kind
                == ChunkKind::Checkpoint ==> links.contains(head)
            &&& head == 0xffff_ffff_ffff_ffff ==> links == Set::<u64>::empty()
        }),
{
    let head = s.state.superblock.checkpoint_slot;
    crate::space::chain::lemma_old_chain(s, head);
    let l = old_links(s.file@, head, MAX_CHECKPOINT_CHAIN as nat);
    if head == NO_RECORD {
        assert(l =~= Seq::<u64>::empty());
        assert(old_chain(s, head) =~= Set::<u64>::empty());
    } else if live(s.file@, head) && s.file@[head as int]->0.kind == ChunkKind::Checkpoint {
        assert(MAX_CHECKPOINT_CHAIN > 0) by {
            assert(16 * 1024 * 1024 / 501 + 2 > 0u64);
        }
        assert(l[0] == head);
        assert(l.contains(head));
    }
}

/// A chain is read if and only if its first link is in the file, opens, and is of
/// the same checkpoint as the one before it, and the rest is read within as many
/// hops as are left; and what it gives is what the first link holds, followed by
/// what the rest gives. It ends where no slot follows; a chain has a link.
pub proof fn law_chain_is_read_link_by_link(
    img: Image,
    slot: u64,
    same: Option<(u64, u64)>,
    total: int,
    hops: nat,
    owned: Seq<u64>,
    pool: Seq<u64>,
)
    ensures
        slot == 0xffff_ffff_ffff_ffff && same is None ==> chain(img, slot, same, total, hops)
            is None,
        slot == 0xffff_ffff_ffff_ffff && same is Some ==> chain(img, slot, same, total, hops)
            == Some((Seq::<u64>::empty(), Seq::<u64>::empty())),
        slot != 0xffff_ffff_ffff_ffff ==> (chain(img, slot, same, total, hops) == Some(
            (owned, pool),
        ) <==> slot < total && hops > 0 && (link_at(img, slot) matches Some(c) && (
        same matches Some(x) ==> x == (c.cp_seq, c.cp_high_water)) && (chain(
            img,
            c.next_slot,
            Some((c.cp_seq, c.cp_high_water)),
            total,
            (hops - 1) as nat,
        ) matches Some(rest) && owned == c.owned + rest.0 && pool == c.pool + rest.1))),
{
}

// ---------------------------------------------------------------------------
// Bounds
// ---------------------------------------------------------------------------

/// The fewest chunks of a tree that goes down so many levels: one for a leaf, and
/// for each level above one node more and four times as many below the top as
/// the level before. A walk goes down as far as the chunks there are suffice
/// for, and no further.
pub proof fn law_how_deep_a_walk_goes(d: nat, budget: usize)
    ensures
        pow_fanout(0) == 1,
        pow_fanout(d + 1) == 4 * pow_fanout(d),
        min_chunks(0) == 1,
        min_chunks(d + 1) == min_chunks(d) + pow_fanout(d) + 1,
        depth_bound(budget as nat) > 0 ==> min_chunks(depth_bound(budget as nat) as nat) <= budget,
        depth_bound(budget as nat) < 255 ==> min_chunks((depth_bound(budget as nat) + 1) as nat)
            > budget,
{
    lemma_depth_bound_grows(budget, budget);
}

/// A walk may go to a slot where it is not too deep, has chunks left to go to,
/// and the slot is in the file and has not been gone to; and nowhere else.
pub proof fn law_where_a_walk_may_go(w: WalkView, slot: u64, depth: int)
    ensures
        walk_refusal(w, slot, depth) is None <==> depth <= w.max_depth && w.budget > 0 && slot
            < w.capacity && !w.visited.contains(slot),
{
}

/// Cleaning up is refused where there is newer state that cannot be read, on a
/// handle that does not write, and while it is open which publish is on file;
/// and else it is not.
pub proof fn law_when_cleaning_up_is_refused(s: Space)
    ensures
        ({
            let readable = s.state.unreadable_newer_superblock is None;
            let writes = s.file.lock_mode == LockMode::Exclusive;
            let settled = s.state.attempted_seq <= s.state.superblock.seq;
            &&& vacuum_refusal(s) is None <==> readable && writes && settled
            &&& !readable ==> vacuum_refusal(s) == Some(Error::UnreadableNewerState)
            &&& readable && !writes ==> vacuum_refusal(s) == Some(Error::ReadOnly)
            &&& readable && writes && !settled ==> vacuum_refusal(s) is Some
                && vacuum_refusal(s)->0 is PublishUncertain
        }),
{
}

/// A batch costs nothing to keep without records, and for each record 32 bytes
/// and its payload.
pub proof fn law_what_a_batch_costs(rs: Seq<RecordView>, r: RecordView)
    ensures
        footprint(Seq::<RecordView>::empty()) == 0,
        footprint(rs.push(r)) == footprint(rs) + 32 + r.1.len(),
{
    assert(rs.push(r).drop_last() =~= rs);
}

} // verus!
