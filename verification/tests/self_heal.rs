use hidden_volume::chunk::ChunkKind;
use hidden_volume::container::{ContainerFile, LockMode};
use hidden_volume::error::Error;
use hidden_volume::rng::Entropy;
use hidden_volume::space::checkpoint::{CheckpointChunk, CHECKPOINT_MIN_TOTAL};
use hidden_volume::space::index::Namespace;
use hidden_volume::space::superblock::NO_RECORD;
use hidden_volume::space::{Space, SpaceKeys};

/// `n` words that look random, the same each time.
fn words(n: usize) -> Entropy {
    let mut x: u64 = 0x2545_f491_4f6c_dd1d;
    let mut out = Vec::with_capacity(n);
    for _ in 0..n {
        x ^= x << 13;
        x ^= x >> 7;
        x ^= x << 17;
        out.push(x);
    }
    Entropy::new(out)
}

fn keys() -> SpaceKeys {
    SpaceKeys {
        container_id: [1u8; 32],
        aead_root: [2u8; 32],
    }
}

/// A fresh space in an empty container.
fn fresh(replicas: u8) -> Space {
    let mut file = ContainerFile::new(Vec::new(), LockMode::Exclusive);
    file.superblock_replicas = replicas;
    Space::create(file, keys(), words(20_000)).unwrap()
}

const N_KEYS: u32 = 40;

fn filled() -> Space {
    let mut s = fresh(3);
    for i in 0..N_KEYS {
        let mut tx = s.begin_tx();
        tx.put(
            Namespace::settings(),
            format!("k{i}").as_bytes(),
            format!("v{i}").as_bytes(),
        )
        .unwrap();
        tx.commit().unwrap();
    }
    s
}

#[test]
fn refresh_scrubs_old_checkpoint_chain() {
    let mut s = filled();
    s.write_self_heal_checkpoint().unwrap();
    let after_first = s.audit_owned_chunk_count();
    s.write_self_heal_checkpoint().unwrap();
    let after_second = s.audit_owned_chunk_count();
    let replicas = 8usize;
    assert!(
        after_second <= after_first + replicas,
        "refresh must scrub the superseded chain (was {after_first}, now {after_second})"
    );
}

/// Two links laid down by hand; the first leads to the second.
fn lay_chain(s: &mut Space, head_seq: u64, tail_seq: u64) -> (u64, u64) {
    let hw = s.file.slot_count();
    let tail = CheckpointChunk {
        cp_seq: tail_seq,
        cp_high_water: hw,
        next_slot: NO_RECORD,
        owned: vec![1],
        pool: Vec::new(),
    };
    let tail_slot = s
        .place_chunk(ChunkKind::Checkpoint, tail_seq, &tail.encode().unwrap())
        .unwrap();
    let head = CheckpointChunk {
        cp_seq: head_seq,
        cp_high_water: hw,
        next_slot: tail_slot,
        owned: vec![2],
        pool: Vec::new(),
    };
    let head_slot = s
        .place_chunk(ChunkKind::Checkpoint, head_seq, &head.encode().unwrap())
        .unwrap();
    (head_slot, s.file.slot_count())
}

#[test]
fn a_chain_whose_links_disagree_about_their_checkpoint_is_refused() {
    const SEQ_A: u64 = 41;
    const SEQ_B: u64 = 42;

    let mut s = fresh(1);
    for i in 0..8u32 {
        let mut tx = s.begin_tx();
        tx.put(Namespace::settings(), format!("k{i}").as_bytes(), b"v")
            .unwrap();
        tx.commit().unwrap();
    }

    let (agreeing_head, total) = lay_chain(&mut s, SEQ_A, SEQ_A);
    let agreed = s.read_checkpoint_chain(agreeing_head, total);
    assert!(
        agreed.is_some(),
        "a two-link chain that agrees about its checkpoint must be read"
    );
    assert_eq!(agreed.unwrap().owned, vec![2, 1]);

    let (forged_head, total) = lay_chain(&mut s, SEQ_A, SEQ_B);
    let forged = s.read_checkpoint_chain(forged_head, total);
    assert!(
        forged.is_none(),
        "links from two different checkpoints were folded into one state"
    );
    assert!(
        s.read_checkpoint_chain(agreeing_head, agreeing_head).is_none(),
        "a link past the end is not followed"
    );
}

#[test]
fn a_checkpoint_records_what_is_owned_and_what_is_free() {
    let mut s = filled();
    s.vacuum_orphans().unwrap();
    let owned = s.state.owned_slots.to_sorted_vec();
    let pool = s.state.pool.sorted();
    let root = s.state.superblock.root_slot;
    let seq = s.commit_seq();
    s.write_self_heal_checkpoint().unwrap();
    let head = s.state.superblock.checkpoint_slot;
    let recorded = s
        .read_checkpoint_chain(head, s.file.slot_count())
        .unwrap();
    assert_eq!(recorded.owned, owned);
    assert_eq!(recorded.pool, pool);
    assert_eq!(s.state.superblock.root_slot, root);
    assert_eq!(s.commit_seq(), seq + 1);
    for i in 0..N_KEYS {
        assert_eq!(
            s.get(Namespace::settings(), format!("k{i}").as_bytes())
                .unwrap()
                .unwrap(),
            format!("v{i}").into_bytes()
        );
    }
    s.verify_integrity().unwrap();
}

#[test]
fn long_lists_take_several_links() {
    let mut s = fresh(1);
    let owned: Vec<u64> = (0..1_000).collect();
    let pool: Vec<u64> = (2_000..2_600).collect();
    let before = s.file.slot_count();
    let head = s.write_checkpoint_chain(9, 3_000, &owned, &pool).unwrap();
    // 1600 slots, 501 to a link.
    assert_eq!(s.file.slot_count() - before, 4);
    let back = s.read_checkpoint_chain(head, s.file.slot_count()).unwrap();
    assert_eq!(back.owned, owned);
    assert_eq!(back.pool, pool);
    assert_eq!(s.read_checkpoint_head_high_water(head), Some(3_000));
    assert_eq!(s.read_checkpoint_head_high_water(0), None);
    let empty = s.write_checkpoint_chain(9, 0, &[], &[]).unwrap();
    let back = s.read_checkpoint_chain(empty, s.file.slot_count()).unwrap();
    assert!(back.owned.is_empty() && back.pool.is_empty());
}

#[test]
fn a_chain_that_runs_in_a_circle_is_not_read_and_is_scrubbed() {
    let mut s = fresh(1);
    let slot = s.file.slot_count();
    let link = CheckpointChunk {
        cp_seq: 1,
        cp_high_water: 1,
        next_slot: slot,
        owned: vec![0],
        pool: Vec::new(),
    };
    let at = s
        .place_chunk(ChunkKind::Checkpoint, 1, &link.encode().unwrap())
        .unwrap();
    assert_eq!(at, slot, "the link leads to itself");
    assert!(s.read_checkpoint_chain(slot, slot + 1).is_none());
    s.scrub_checkpoint_chain(slot).unwrap();
    assert!(s.read_owned_chunk(slot).is_err());
    assert!(s.state.pool.sorted().contains(&slot));
}

#[test]
fn an_unreadable_checkpoint_is_replaced_and_costs_no_data() {
    let mut s = filled();
    s.write_self_heal_checkpoint().unwrap();
    let head = s.state.superblock.checkpoint_slot;
    s.file.scrub_slot(head).unwrap();
    assert!(s.read_checkpoint_chain(head, s.file.slot_count()).is_none());
    s.write_self_heal_checkpoint().unwrap();
    assert_ne!(s.state.superblock.checkpoint_slot, head);
    assert_eq!(s.count(Namespace::settings()).unwrap(), N_KEYS as usize);
}

#[test]
fn a_checkpoint_is_written_where_it_is_worth_it() {
    let mut s = filled();
    assert!(!s.maybe_self_heal_checkpoint().unwrap(), "the file is small");
    s.file.append_garbage_chunks(CHECKPOINT_MIN_TOTAL).unwrap();
    assert!(s.maybe_self_heal_checkpoint().unwrap(), "there is none yet");
    assert!(!s.maybe_self_heal_checkpoint().unwrap(), "it covers all");
    s.file.append_garbage_chunks(2_049).unwrap();
    assert!(s.maybe_self_heal_checkpoint().unwrap(), "the tail is long");
    let far: u64 = s.file.slot_count() - 1;
    for i in 0..256u64 {
        s.state.pool.insert(far - i);
    }
    assert!(s.maybe_self_heal_checkpoint().unwrap(), "the pool has moved");
    assert!(!s.maybe_self_heal_checkpoint().unwrap());
}

#[test]
fn a_pool_that_was_not_recovered_is_carried_over() {
    let mut s = filled();
    s.vacuum_orphans().unwrap();
    s.write_self_heal_checkpoint().unwrap();
    let pool = s.state.pool.sorted();
    assert!(!pool.is_empty());
    // A session that did not load the pool must not lose it.
    s.state.pool = hidden_volume::space::pool::DecoyPool::with_capacity(0);
    s.state.pool_recovered = false;
    let old_head = s.state.superblock.checkpoint_slot;
    s.write_self_heal_checkpoint().unwrap();
    let mut want = pool;
    want.push(old_head);
    want.sort();
    let back = s
        .read_checkpoint_chain(s.state.superblock.checkpoint_slot, s.file.slot_count())
        .unwrap();
    assert_eq!(back.pool, want);
}

#[test]
fn nothing_is_recorded_over_newer_state_that_cannot_be_read() {
    let mut s = fresh(1);
    for i in 0..300u32 {
        let mut tx = s.begin_tx();
        tx.put(Namespace::settings(), format!("k{}", i % 5).as_bytes(), b"v")
            .unwrap();
        tx.commit().unwrap();
    }
    s.state.unreadable_newer_superblock = Some(s.commit_seq() + 1);
    let slots = s.file.slot_count();
    let seq = s.commit_seq();
    let history = s.commit_history().to_vec();
    assert_eq!(
        s.maybe_self_heal_checkpoint(),
        Err(Error::UnreadableNewerState)
    );
    assert_eq!(
        s.write_self_heal_checkpoint(),
        Err(Error::UnreadableNewerState)
    );
    assert_eq!(s.file.slot_count(), slots);
    assert_eq!(s.commit_seq(), seq);
    assert_eq!(s.state.attempted_seq, seq);
    assert_eq!(s.commit_history(), &history[..]);
    s.state.unreadable_newer_superblock = None;
    assert_eq!(s.write_self_heal_checkpoint(), Ok(()));
    assert_eq!(s.commit_seq(), seq + 1);
}

/// The error of a list for which there is no memory.
fn no_memory() -> std::collections::TryReserveError {
    Vec::<u64>::new().try_reserve(usize::MAX).unwrap_err()
}

#[test]
fn a_checkpoint_covers_the_slots_there_were() {
    let mut s = filled();
    let total = s.file.slot_count();
    let seq = s.commit_seq() + 1;
    s.write_self_heal_checkpoint().unwrap();
    let head = s.state.superblock.checkpoint_slot;
    assert_eq!(s.read_checkpoint_head_high_water(head), Some(total));
    let link = CheckpointChunk::decode(&s.read_owned_chunk(head).unwrap().payload).unwrap();
    assert_eq!(link.cp_seq, seq);
    assert!(link.owned.iter().all(|slot| *slot < total));
    for slot in 0..total {
        if s.read_owned_chunk(slot).is_ok() {
            assert!(link.owned.contains(&slot), "slot {slot} is left out");
        }
    }
}

#[test]
fn what_came_of_the_memory_decides_about_a_checkpoint() {
    let mut s = filled();
    let seq = s.commit_seq();
    let count = s.file.slot_count();
    assert!(matches!(
        s.publish_checkpoint(Err(no_memory()), Ok(Vec::new())),
        Err(Error::Internal("checkpoint owned set does not fit in memory"))
    ));
    assert!(matches!(
        s.publish_checkpoint(Ok(vec![1, 2]), Err(Error::Internal("no pool"))),
        Err(Error::Internal("no pool"))
    ));
    assert_eq!(s.commit_seq(), seq);
    assert_eq!(s.file.slot_count(), count);

    s.publish_checkpoint(Ok(vec![1, 2]), Ok(vec![3])).unwrap();
    assert_eq!(s.commit_seq(), seq + 1);
    let head = s.state.superblock.checkpoint_slot;
    let recorded = s.read_checkpoint_chain(head, s.file.slot_count()).unwrap();
    assert_eq!(recorded.owned, vec![1, 2]);
    assert_eq!(recorded.pool, vec![3]);
    assert_eq!(s.read_checkpoint_head_high_water(head), Some(count));

    s.file.writes_left = Some(1);
    assert!(matches!(
        s.publish_checkpoint(Ok(vec![1]), Ok(Vec::new())),
        Err(Error::Io("device refused to flush"))
    ));
    s.file.writes_left = Some(2);
    assert!(matches!(
        s.publish_checkpoint(Ok(vec![1]), Ok(Vec::new())),
        Err(Error::PublishUncertain("checkpointing"))
    ));
    s.file.writes_left = None;
    s.state.attempted_seq = u64::MAX;
    assert!(matches!(
        s.publish_checkpoint(Ok(vec![1]), Ok(Vec::new())),
        Err(Error::Internal("checkpoint seq overflow"))
    ));
}
