//! What a publish leaves on file, and what hides it: copies of the superblock,
//! noise behind it, decoys for what was reused, and links of a checkpoint.

use vstd::prelude::*;

use crate::chunk::{ChunkKind, PlaintextView};
use crate::container::{
    has_room, live, one_write_less, padding_after, refused_slot, takes_write, ContainerFile, Image,
    LockMode,
};
use crate::error::Error;
use crate::space::chain::{
    chain, chain_of, checkpoint_refused, checkpointed, heal_failed, healed, kept_by_checkpoint,
    kept_by_heal, link_at, links_for, old_chain, records, unchained,
};
use crate::space::checkpoint::MAX_CHECKPOINT_CHAIN;
use crate::space::commit::{
    chunks_end, churned, copies, copies_wanted, counted, decoys, hidden, kept_by_commit, masked,
    on_file, published, replicated, superblock_chunk,
};
use crate::space::index::{EntryView, Namespace};
use crate::space::laws::{got, listed};
use crate::space::lifecycle::{is_first, nothing_opens};
use crate::space::pairs::{lemma_sorted_exists, sorted_pairs};
use crate::space::pool::{drifted, sure_words};
use crate::space::slots::lists;
use crate::space::stats::{count_failure, count_of};
use crate::space::superblock::{superblock_encode, Superblock, SuperblockView};
use crate::space::trail_laws::{is_spent, lemma_spent};
use crate::space::vacuum::{
    all_log_entries, batch_aim, half_vacuumed, scrub_set, scrubbed, sweep_error, sweep_writes, Aim,
};
use crate::space::{at_hand, blamed, quiet, Space};
use crate::tx::commit::RootView;
use crate::tx::pending::{PendingLogView, PendingView};

verus! {

// ---------------------------------------------------------------------------
// Superblocks
// ---------------------------------------------------------------------------

/// There are this many slots, all different, that did not open before and now hold
/// the superblock.
pub open spec fn copied(a: Image, b: Image, sb: SuperblockView, n: int) -> bool {
    exists|v: Seq<u64>|
        #![trigger v.no_duplicates()]
        v.no_duplicates() && v.len() == n && forall|i: int|
            0 <= i < v.len() ==> !live(a, #[trigger] v[i]) && v[i] < b.len() && b[v[i] as int]
                == Some(
                PlaintextView {
                    kind: ChunkKind::Superblock,
                    seq: sb.seq,
                    payload: superblock_encode(sb),
                },
            )
}

/// A publish writes as many copies of the superblock as were asked for, and one
/// where none was: each in a slot of its own that did not open before.
pub proof fn law_copies_of_a_superblock(f: ContainerFile, a: Image, b: Image, sb: SuperblockView)
    requires
        replicated(a, b, sb, copies_wanted(f)),
    ensures
        copied(
            a,
            b,
            sb,
            if f.superblock_replicas == 0 {
                1
            } else {
                f.superblock_replicas as int
            },
        ),
{
    let v = choose|v: Seq<u64>| #[trigger]
        copies(a, b, sb, v) && v.len() == copies_wanted(f);
    assert(v.no_duplicates());
}

/// So a commit and a checkpoint do, and the copies are on the device.
pub proof fn law_what_is_published_is_on_file(
    a: Space,
    b: Space,
    kv: Seq<PendingView>,
    logs: Seq<PendingLogView>,
    seq: u64,
    owned: Seq<u64>,
    pool: Seq<u64>,
)
    requires
        published(a, b, kv, logs, seq) || checkpointed(a, b, owned, pool),
    ensures
        copied(
            a.file@,
            b.file@,
            b.state.superblock@,
            if a.file.superblock_replicas == 0 {
                1
            } else {
                a.file.superblock_replicas as int
            },
        ),
        exists|slot: u64|
            slot < b.file.durable@.len() && #[trigger] b.file.durable@[slot as int] == Some(
                PlaintextView {
                    kind: ChunkKind::Superblock,
                    seq: b.state.superblock.seq,
                    payload: superblock_encode(b.state.superblock@),
                },
            ),
{
    law_copies_of_a_superblock(a.file, a.file@, b.file@, b.state.superblock@);
    assert(on_file(b.file.durable@, b.state.superblock@));
    let slot = choose|slot: u64| #[trigger]
        live(b.file.durable@, slot) && b.file.durable@[slot as int] == Some(
            superblock_chunk(b.state.superblock@),
        );
    assert(b.file.durable@[slot as int] is Some);
}

/// A space begins with the first superblock, which leads nowhere: it has no
/// namespaces, and nothing is read from it. It begins only where nothing opens.
pub proof fn law_where_a_space_begins(
    s: Space,
    sb: Superblock,
    img: Image,
    ns: Namespace,
    key: Seq<u8>,
    i: int,
)
    ensures
        is_first(sb) ==> sb.seq == 1 && sb.root_slot == 0xffff_ffff_ffff_ffff && sb.checkpoint_slot
            == 0xffff_ffff_ffff_ffff && (0 <= i < 32 ==> sb.root_hash@[i] == 0),
        is_first(s.state.superblock) ==> s.roots() == Ok::<Seq<RootView>, Error>(Seq::empty())
            && got(s, ns, key) == Ok::<Option<Seq<u8>>, Error>(None) && listed(s, ns) == Ok::<
            Seq<EntryView>,
            Error,
        >(Seq::empty()),
        img.len() <= u64::MAX && 0 <= i < img.len() && nothing_opens(img) ==> img[i] is None,
        img.len() <= u64::MAX && !nothing_opens(img) ==> exists|j: int|
            0 <= j < img.len() && #[trigger] img[j] is Some,
{
    if img.len() <= u64::MAX {
        if 0 <= i < img.len() && nothing_opens(img) {
            assert(!live(img, i as u64));
        }
        if !nothing_opens(img) {
            let x = choose|x: u64| #[trigger] live(img, x);
            assert(img[x as int] is Some);
        }
    }
}

// ---------------------------------------------------------------------------
// Noise and decoys
// ---------------------------------------------------------------------------

/// A commit that is hidden in full ends, behind its last chunk, in as much noise as
/// the policy asks for; as many slots that are free were overwritten as were
/// reused, each of them once; and all of it is on the device.
pub proof fn law_what_hides_a_commit(a: Space, b: Space)
    requires
        hidden(a, b),
        b.state.last_padding_error is None,
    ensures
        b.file.durable@ == b.file@,
        exists|end: int, v: Seq<u64>|
            #![trigger b.file@.take(end), v.no_duplicates()]
            {
                let noise = padding_after(
                    a.file.padding_policy,
                    end as u64,
                    (end - a.file@.len()) as u64,
                );
                &&& a.file@.len() <= end <= b.file@.len()
                &&& end == a.file@.len() || b.file@[end - 1] is Some
                &&& b.file@.len() == end + noise
                &&& forall|i: int| end <= i < b.file@.len() ==> (#[trigger] b.file@[i]) is None
                &&& v.no_duplicates()
                &&& v.len() == b.state.reuse_count - a.state.reuse_count
                &&& forall|i: int|
                    0 <= i < v.len() ==> b.state.pool@.contains(#[trigger] v[i])
                        && b.file.written@.contains(v[i])
            },
{
    let end = choose|n: int| #[trigger]
        chunks_end(a, b, n) && masked(
            a,
            b,
            padding_after(
                a.file.padding_policy,
                n as u64,
                (n - a.file@.len()) as u64,
            ),
            n,
            b.state.reuse_count - a.state.reuse_count,
        );
    let v = choose|v: Seq<u64>| #[trigger]
        decoys(b, v) && v.len() == b.state.reuse_count - a.state.reuse_count;
    assert(b.file@.take(end) == b.file@.take(end) && v.no_duplicates());
}

/// Counts stop at the greatest number there is.
pub proof fn law_counts_stop_at_the_top(n: u64, more: int, words: Seq<u64>)
    requires
        0 <= more,
    ensures
        n + more <= u64::MAX ==> counted(n, more) == n + more,
        n + more > u64::MAX ==> counted(n, more) == u64::MAX,
        n < u64::MAX ==> drifted(n) == n + 1,
        drifted(u64::MAX) == u64::MAX,
        sure_words(Seq::<u64>::empty()) == 0,
        words.len() > 0 ==> sure_words(words) == sure_words(words.drop_first()) + (if words[0]
            < 0x8000_0000_0000_0000 {
            1int
        } else {
            0
        }),
{
}

/// Where something fails and all else was sound, the handle does not write, or the
/// device takes no more, or has no room, or there is no word for a draw; and the
/// error says which.
pub proof fn law_who_is_to_blame(s: Space, e: Error)
    requires
        blamed(s, e),
    ensures
        s.file.lock_mode != LockMode::Exclusive <==> e == Error::ReadOnly,
        e == Error::ReadOnly || e == Error::Rng || e is Io,
        e == Error::Rng ==> s.state.entropy.left().len() == 0,
        e is Io ==> s.file.writes_left == Some(0u64) || s.file.room_left == Some(0u64),
{
}

// ---------------------------------------------------------------------------
// Checkpoints
// ---------------------------------------------------------------------------

/// A checkpoint has as many links as it takes, at 501 slots a link, and at least
/// one; and as many are read as sixteen Mi slots take, and one more.
pub proof fn law_how_many_links(n: nat)
    ensures
        links_for(n) >= 1,
        links_for(n) * 501 >= n,
        n > 0 ==> (links_for(n) - 1) * 501 < n,
        n == 0 ==> links_for(n) == 1,
        MAX_CHECKPOINT_CHAIN == links_for(0x100_0000) + 1,
{
}

/// A new checkpoint takes the number after the highest that was used or attempted,
/// leads to the same commit, is on the device, and covers the file as it was. None
/// of the links that it replaces opens any more, and they are free for reuse.
pub proof fn law_what_a_new_checkpoint_leaves(a: Space, b: Space, slot: u64)
    requires
        a.wf(),
        b.wf(),
        kept_by_heal(a, b),
        healed(a, b),
    ensures
        b.state.superblock.seq == if a.state.attempted_seq > a.state.superblock.seq {
            a.state.attempted_seq + 1
        } else {
            a.state.superblock.seq + 1
        },
        b.state.superblock.root_slot == a.state.superblock.root_slot,
        b.state.superblock.root_hash == a.state.superblock.root_hash,
        b.state.commit_history@ == a.state.commit_history@.push(b.state.superblock.seq),
        b.file.durable@ == b.file@,
        b.state.pool.drift == 0,
        link_at(b.file@, b.state.superblock.checkpoint_slot) matches Some(c)
            && c.cp_seq == b.state.superblock.seq && c.cp_high_water == a.file@.len(),
        old_chain(a, a.state.superblock.checkpoint_slot).contains(slot) ==> !live(b.file@, slot)
            && b.state.pool@.contains(slot),
        a.state.pool@.contains(slot) ==> !live(b.file@, slot) && b.state.pool@.contains(slot),
        live(a.file@, slot) && a.file@[slot as int]->0.kind != ChunkKind::Checkpoint ==> live(
            b.file@,
            slot,
        ) && b.file@[slot as int] == a.file@[slot as int],
        copied(
            scrubbed(
                a.file@,
                old_chain(a, a.state.superblock.checkpoint_slot),
            ),
            b.file@,
            b.state.superblock@,
            if a.file.superblock_replicas == 0 {
                1
            } else {
                a.file.superblock_replicas as int
            },
        ),
{
    let count = a.file.slots.len();
    assert(a.file@.len() == count);
    law_copies_of_a_superblock(
        a.file,
        scrubbed(a.file@, old_chain(a, a.state.superblock.checkpoint_slot)),
        b.file@,
        b.state.superblock@,
    );
    let pool = b.state.pool@;
    assert(pool.contains(slot) ==> !b.state.owned_slots@.contains(slot));
}

/// What a checkpoint records is read back from its chain: what it records as owned
/// and what it records as free, each slot once and by rising number.
pub proof fn law_a_checkpoint_is_read_back(
    img: Image,
    head: u64,
    owned: Set<u64>,
    pool: Set<u64>,
    slot: u64,
    i: int,
    j: int,
)
    requires
        records(img, head, owned, pool),
    ensures
        exists|hops: nat|
            (#[trigger] chain(img, head, None, img.len() as int, hops)) is Some
                && ({
                let r = chain(img, head, None, img.len() as int, hops)->0;
                &&& r.0.contains(slot) <==> owned.contains(slot)
                &&& r.1.contains(slot) <==> pool.contains(slot)
                &&& 0 <= i < j < r.0.len() ==> r.0[i] < r.0[j]
                &&& 0 <= i < j < r.1.len() ==> r.1[i] < r.1[j]
            }),
{
    let (o, p) = choose|o: Seq<u64>, p: Seq<u64>| #[trigger]
        lists(o, owned) && #[trigger] lists(p, pool) && chain_of(
            img,
            head,
            o,
            p,
        );
    let hops = links_for(o.len() + p.len());
    assert(chain(img, head, None, img.len() as int, hops) == Some((o, p)));
}

// ---------------------------------------------------------------------------
// Counts and clean-ups that fail
// ---------------------------------------------------------------------------

/// Counting every namespace fails where counting one of them does, and with the
/// error of the first.
pub proof fn law_when_counting_fails(s: Space, rs: Seq<RootView>)
    ensures
        match count_failure(s, rs) {
            None => forall|i: int|
                0 <= i < rs.len() ==> count_of(s, (#[trigger] rs[i]).namespace) is Ok,
            Some(e) => exists|i: int|
                0 <= i < rs.len() && count_of(s, (#[trigger] rs[i]).namespace) == Err::<int, Error>(
                    e,
                ) && forall|j: int|
                    0 <= j < i ==> count_of(s, (#[trigger] rs[j]).namespace) is Ok,
        },
    decreases rs.len(),
{
    if rs.len() > 0 {
        let rest = rs.drop_first();
        law_when_counting_fails(s, rest);
        if count_of(s, rs[0].namespace) is Ok {
            if let Some(e) = count_failure(s, rest) {
                let i = choose|i: int|
                    0 <= i < rest.len() && count_of(s, (#[trigger] rest[i]).namespace) == Err::<
                        int,
                        Error,
                    >(e) && forall|j: int|
                        0 <= j < i ==> count_of(s, (#[trigger] rest[j]).namespace) is Ok;
                assert(rs[i + 1] == rest[i]);
                assert forall|j: int| 0 <= j < i + 1 implies count_of(
                    s,
                    (#[trigger] rs[j]).namespace,
                ) is Ok by {
                    if j > 0 {
                        assert(rest[j - 1] == rs[j]);
                    }
                }
            } else {
                assert forall|i: int| 0 <= i < rs.len() implies count_of(
                    s,
                    (#[trigger] rs[i]).namespace,
                ) is Ok by {
                    if i > 0 {
                        assert(rest[i - 1] == rs[i]);
                    }
                }
            }
        } else {
            assert(count_of(s, rs[0].namespace) is Err);
        }
    }
}

/// Cleaning up takes a write for each chunk that it overwrites and one to flush,
/// and none where there is nothing to overwrite. It fails where the device does
/// not take them: at a chunk, or at the flush.
pub proof fn law_what_cleaning_up_takes(a: Space, b: Space, aim: Aim)
    ensures
        sweep_writes(a, aim) == if scrub_set(a, aim).len() == 0 {
            0
        } else {
            scrub_set(a, aim).len() + 1
        },
        half_vacuumed(a, b, aim) ==> (a.file.writes_left matches Some(n) && n
            < scrub_set(a, aim).len() + 1 && b.file.writes_left == Some(0u64) && sweep_error(a, aim)
            == if n < scrub_set(a, aim).len() {
            Error::Io("device refused the write")
        } else {
            Error::Io("device refused to flush")
        }),
{
}

/// However far `vacuum_data_batches` gets, every chunk but a batch that no entry
/// names opens as it did, and what is owned and what is free is as it was.
pub proof fn law_broken_batch_vacuum_takes_spent_only(a: Space, b: Space, slot: u64)
    requires
        a.wf(),
        all_log_entries(a) is Ok,
        half_vacuumed(a, b, batch_aim(a)),
    ensures
        live(b.file@, slot) ==> live(a.file@, slot) && b.file@[slot as int]
            == a.file@[slot as int],
        live(a.file@, slot) && !is_spent(a, slot) ==> live(b.file@, slot),
        b.state.owned_slots == a.state.owned_slots,
        b.state.pool == a.state.pool,
        b.state.superblock == a.state.superblock,
{
    let count = a.file.slots.len();
    assert(a.file@.len() == count);
    lemma_spent(a);
    assert(scrub_set(a, batch_aim(a)).contains(slot) <==> is_spent(a, slot));
}

// ---------------------------------------------------------------------------
// What stays as it is
// ---------------------------------------------------------------------------

/// To read leaves everything as it is: the file, and all of the state but what is
/// remembered of the roots. So what is read next is what would have been read.
pub proof fn law_reading_changes_nothing(a: Space, b: Space, ns: Namespace, key: Seq<u8>)
    requires
        quiet(a, b),
    ensures
        b.file == a.file,
        b.state.superblock == a.state.superblock,
        b.state.owned_slots == a.state.owned_slots,
        b.state.pool == a.state.pool,
        b.state.entropy == a.state.entropy,
        b.state.commit_history == a.state.commit_history,
        b.state.attempted_seq == a.state.attempted_seq,
        b.state.reuse_count == a.state.reuse_count,
        b.state.churn_count == a.state.churn_count,
        b.roots() == a.roots(),
        got(b, ns, key) == got(a, ns, key),
        listed(b, ns) == listed(a, ns),
{
}

/// Decoys change nothing that opens, nothing that is owned or free, and no setting.
pub proof fn law_decoys_change_nothing(a: Space, b: Space)
    requires
        churned(a, b),
    ensures
        b.file@ == a.file@,
        b.file.durable == a.file.durable,
        b.file.lock_mode == a.file.lock_mode,
        b.file.padding_policy == a.file.padding_policy,
        b.file.superblock_replicas == a.file.superblock_replicas,
        b.state.pool@ == a.state.pool@,
        b.state.owned_slots == a.state.owned_slots,
        b.state.superblock == a.state.superblock,
        b.state.commit_history == a.state.commit_history,
{
}

/// A commit, whether it is published or not, writes no chunk over one that opens,
/// gives its own number to every chunk that is new, and changes no setting.
pub proof fn law_what_a_commit_writes(a: Space, b: Space, slot: u64)
    requires
        kept_by_commit(a, b),
    ensures
        live(a.file@, slot) ==> live(b.file@, slot) && b.file@[slot as int]
            == a.file@[slot as int],
        live(b.file@, slot) && !live(a.file@, slot) ==> b.file@[slot as int]->0.seq == (if
            a.state.attempted_seq > a.state.superblock.seq {
            a.state.attempted_seq + 1
        } else {
            a.state.superblock.seq + 1
        }) as u64,
        b.file.written@.contains(slot) ==> a.file.written@.contains(slot)
            || a.state.pool@.contains(slot) || slot >= a.file@.len(),
        a.state.owned_slots@.contains(slot) ==> b.state.owned_slots@.contains(slot),
        b.state.owned_slots@.contains(slot) ==> a.state.owned_slots@.contains(slot)
            || a.state.pool@.contains(slot) || slot >= a.file@.len(),
        b.file.lock_mode == a.file.lock_mode,
        b.file.padding_policy == a.file.padding_policy,
        b.file.superblock_replicas == a.file.superblock_replicas,
        a.file.lock_mode != LockMode::Exclusive ==> b.file == a.file,
        b.state.keys == a.state.keys,
{
    if b.state.owned_slots@.contains(slot) {
        assert(at_hand(a, slot));
    }
}

/// A checkpoint that could not be published leaves the superblock and the history as
/// they were and loses no chunk but links of the old chain, and says so where it is
/// open whether it is on file.
pub proof fn law_failed_checkpoint_changes_nothing(
    a: Space,
    b: Space,
    owned: Seq<u64>,
    pool: Seq<u64>,
    e: Error,
    slot: u64,
)
    ensures
        heal_failed(a, b, e) || checkpoint_refused(a, b, owned, pool, e) ==> {
            &&& b.state.superblock == a.state.superblock
            &&& b.state.commit_history == a.state.commit_history
            &&& b.state.attempted_seq != a.state.attempted_seq ==> e is PublishUncertain
            &&& b.state.attempted_seq == a.state.attempted_seq ==> !(e is PublishUncertain)
        },
        kept_by_heal(a, b) && live(a.file@, slot) && a.file@[slot as int]->0.kind
            != ChunkKind::Checkpoint ==> live(b.file@, slot) && b.file@[slot as int]
            == a.file@[slot as int],
        kept_by_checkpoint(a, b) && live(a.file@, slot) ==> live(b.file@, slot)
            && b.file@[slot as int] == a.file@[slot as int],
        kept_by_checkpoint(a, b) ==> b.state.pool@ == a.state.pool@ && (
        a.state.owned_slots@.contains(slot) ==> b.state.owned_slots@.contains(slot)),
{
}

/// A chain that is scrubbed is gone from the file and from what is owned, and free
/// for reuse; and nothing else is.
pub proof fn law_a_scrubbed_chain_is_gone(a: Space, b: Space, gone: Set<u64>, slot: u64)
    requires
        a.wf(),
        unchained(a, b, gone),
    ensures
        b.file@.len() == a.file@.len(),
        live(b.file@, slot) <==> live(a.file@, slot) && !gone.contains(slot),
        live(b.file@, slot) ==> b.file@[slot as int] == a.file@[slot as int],
        b.state.owned_slots@.contains(slot) <==> a.state.owned_slots@.contains(slot)
            && !gone.contains(slot),
        b.state.pool@.contains(slot) <==> a.state.pool@.contains(slot) || gone.contains(slot),
        b.state.superblock == a.state.superblock,
        gone.contains(slot) ==> b.file.durable@ == b.file@,
{
}

/// The device takes a write as long as it has writes left, and a slot more as long
/// as it has room left; what is refused says which of the two it was.
pub proof fn law_what_a_device_takes(f: ContainerFile, e: Error, left: u64)
    ensures
        takes_write(f) <==> f.writes_left != Some(0u64),
        has_room(f) <==> f.room_left != Some(0u64),
        one_write_less(None) is None,
        left > 0 ==> one_write_less(Some(left)) == Some((left - 1) as u64),
        refused_slot(f, e) ==> f.writes_left == Some(0u64) && e == Error::Io(
            "device refused the write",
        ) || f.writes_left != Some(0u64) && f.room_left == Some(0u64) && e == Error::Io(
            "no room on the device",
        ),
{
}

/// Pairs that are sorted rise, by slot and then by number, and are the pairs that
/// there were.
pub proof fn law_sorted_pairs(v: Seq<(u64, u64)>, p: (u64, u64), i: int, j: int)
    ensures
        sorted_pairs(v).contains(p) <==> v.contains(p),
        0 <= i < j < sorted_pairs(v).len() ==> ({
            let (a, b) = (sorted_pairs(v)[i], sorted_pairs(v)[j]);
            a.0 < b.0 || a.0 == b.0 && a.1 < b.1
        }),
{
    lemma_sorted_exists(v);
}

} // verus!
