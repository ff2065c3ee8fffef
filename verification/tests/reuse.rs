use hidden_volume::container::{ContainerFile, LockMode, PaddingPolicy};
use hidden_volume::error::Error;
use hidden_volume::rng::Entropy;
use hidden_volume::space::checkpoint::CheckpointChunk;
use hidden_volume::space::index::Namespace;
use hidden_volume::space::pool::DecoyPool;
use hidden_volume::space::superblock::NO_RECORD;
use hidden_volume::space::{Space, SpaceKeys};

/// `n` words that look random, the same each time.
fn words(n: usize) -> Entropy {
    let mut x: u64 = 0x2545_f491_4f6c_dd1d;
    let mut out = Vec::with_capacity(n);
    for _ in 0..n {
        x ^= x << 13;
        x ^= x >> 7;
        x ^= x << 17;
        out.push(x);
    }
    Entropy::new(out)
}

fn keys() -> SpaceKeys {
    SpaceKeys {
        container_id: [1u8; 32],
        aead_root: [2u8; 32],
    }
}

/// A fresh space in an empty container.
fn fresh(replicas: u8) -> Space {
    let mut file = ContainerFile::new(Vec::new(), LockMode::Exclusive);
    file.superblock_replicas = replicas;
    Space::create(file, keys(), words(20_000)).unwrap()
}

/// A space that has retired slots and recorded them.
fn build_with_pool(keys: u32) -> Space {
    let mut s = fresh(1);
    for i in 0..keys {
        let mut tx = s.begin_tx();
        tx.put(Namespace::settings(), format!("k{i}").as_bytes(), b"v")
            .unwrap();
        tx.commit().unwrap();
    }
    s.vacuum_orphans().unwrap();
    s.write_self_heal_checkpoint().unwrap();
    s.state.reuse_count = 0;
    s.state.churn_count = 0;
    s
}

/// The space as the next session finds it.
fn reopen(s: Space) -> Space {
    let Space { file, state } = s;
    Space::from_state(file, state)
}

fn overlap(s: &Space) -> Vec<u64> {
    let owned = s.state.owned_slots.to_sorted_vec();
    s.state
        .pool
        .sorted()
        .into_iter()
        .filter(|slot| owned.contains(slot))
        .collect()
}

#[test]
fn a_container_that_reuses_slots_still_reopens_with_every_value() {
    let mut s = reopen(build_with_pool(40));
    assert!(
        s.stats().unwrap().reusable_slot_count > 0,
        "fixture must hand this test a non-empty pool, or it proves nothing"
    );
    for i in 0..40u32 {
        let mut tx = s.begin_tx();
        tx.put(
            Namespace::settings(),
            format!("k{i}").as_bytes(),
            format!("second-{i}").as_bytes(),
        )
        .unwrap();
        tx.commit().unwrap();
    }
    let reused = s.state.reuse_count;
    assert!(reused > 0, "no slot was reused, so nothing here is tested");

    let mut s = reopen(s);
    for i in 0..40u32 {
        assert_eq!(
            s.get(Namespace::settings(), format!("k{i}").as_bytes())
                .unwrap()
                .as_deref(),
            Some(format!("second-{i}").as_bytes()),
            "k{i} did not survive a container that reused {reused} slots"
        );
    }
    s.verify_integrity()
        .expect("the tree a reusing writer left must verify");
}

#[test]
fn no_slot_is_ever_both_pooled_and_owned() {
    let mut s = reopen(build_with_pool(30));
    for round in 0..12u32 {
        for i in 0..10u32 {
            let mut tx = s.begin_tx();
            tx.put(
                Namespace::settings(),
                format!("k{i}").as_bytes(),
                format!("r{round}").as_bytes(),
            )
            .unwrap();
            tx.commit().unwrap();
        }
        s.vacuum_orphans().unwrap();
        assert!(
            overlap(&s).is_empty(),
            "round {round}: slots {:?} are in the pool AND owned",
            overlap(&s)
        );
    }
    let s = reopen(s);
    assert!(
        overlap(&s).is_empty(),
        "after reopen: slots {:?} are in the pool AND owned",
        overlap(&s)
    );
}

#[test]
fn a_stale_recorded_pool_drops_the_slots_that_went_live() {
    let mut s = reopen(build_with_pool(120));
    let before = s.state.pool.sorted();
    for i in 0..5u32 {
        let mut tx = s.begin_tx();
        tx.put(Namespace::settings(), format!("n{i}").as_bytes(), b"v")
            .unwrap();
        tx.commit().unwrap();
    }
    let after = s.state.pool.sorted();
    let consumed: Vec<u64> = before
        .into_iter()
        .filter(|slot| !after.contains(slot))
        .collect();
    assert!(
        !consumed.is_empty(),
        "the fixture consumed nothing from the pool, so staleness is untested"
    );

    // What the record says, corrected by what is owned now.
    let total = s.file.slot_count();
    let recorded = s
        .read_checkpoint_chain(s.state.superblock.checkpoint_slot, total)
        .expect("the chain is there");
    let mut pool = DecoyPool::from_recorded(recorded.pool, total);
    pool.subtract_owned(&s.state.owned_slots);
    let pool = pool.sorted();
    assert!(
        pool.len() > consumed.len(),
        "the recorded pool ({}) did not outlast what the commits consumed ({})",
        pool.len(),
        consumed.len()
    );
    let still_offered: Vec<u64> = consumed
        .iter()
        .copied()
        .filter(|slot| pool.contains(slot))
        .collect();
    assert!(
        still_offered.is_empty(),
        "the recorded pool still offers slots {still_offered:?} that a later commit wrote to"
    );
}

#[test]
fn reuse_recycles_the_index_tree_and_nothing_else() {
    let mut s = reopen(build_with_pool(24));
    for i in 0..24u32 {
        let mut tx = s.begin_tx();
        tx.put(Namespace::settings(), format!("k{i}").as_bytes(), b"a")
            .unwrap();
        tx.commit().unwrap();
        s.vacuum_orphans().unwrap();
    }

    let before_slots = s.file.slot_count();
    let before_reuse = s.state.reuse_count;
    for i in 0..24u32 {
        let mut tx = s.begin_tx();
        tx.put(Namespace::settings(), format!("k{i}").as_bytes(), b"b")
            .unwrap();
        tx.commit().unwrap();
        s.vacuum_orphans().unwrap();
    }
    let grew = s.file.slot_count() - before_slots;
    let reused = s.state.reuse_count - before_reuse;

    assert!(
        reused >= 24,
        "24 commits reused only {reused} slots — the index path is being appended, not recycled"
    );
    assert_eq!(
        grew, 48,
        "24 commits appended {grew} slots; 48 is one Commit plus one Superblock each, \
         and 72 is what append-only cost"
    );
}

#[test]
fn a_padding_failure_does_not_cost_the_commit_its_churn() {
    let mut s = reopen(build_with_pool(40));
    s.set_padding_policy(PaddingPolicy::BucketGrowth { bucket_chunks: 64 })
        .unwrap();
    let pool = s.stats().unwrap().reusable_slot_count;
    assert!(pool >= 4, "fixture pool too small: {pool}");

    // The pool has slots enough for the commit, and there is no room for noise.
    s.file.room_left = Some(0);
    let mut tx = s.begin_tx();
    tx.put(Namespace::settings(), b"k0", b"changed").unwrap();
    let seq = tx.commit().unwrap();
    assert!(seq > 0, "commit returned no sequence");

    assert!(
        s.last_padding_error().is_some(),
        "the padding fault never fired, so this test proves nothing"
    );
    assert!(matches!(
        s.last_padding_error(),
        Some(Error::Io("no room on the device"))
    ));

    let reused = s.state.reuse_count;
    let churned = s.state.churn_count;
    assert!(reused > 0, "the commit appended instead of reusing");
    assert_eq!(
        churned, reused,
        "padding failed and took the churn with it: {reused} slots reused, \
         {churned} decoys churned"
    );
}

#[test]
fn noise_that_cannot_be_counted_does_not_cost_the_churn_either() {
    let mut s = reopen(build_with_pool(40));
    while s.state.pool.len() > 2 {
        s.state.pool.take(&mut words(8)).unwrap().unwrap();
    }
    s.set_padding_policy(PaddingPolicy::FixedRatio {
        noise_per_chunk: u64::MAX,
    })
    .unwrap();
    let mut tx = s.begin_tx();
    tx.put(Namespace::settings(), b"k0", b"changed").unwrap();
    tx.commit().unwrap();
    assert!(matches!(
        s.last_padding_error(),
        Some(Error::ContainerTooLarge)
    ));
    assert!(s.state.reuse_count > 0);
    assert_eq!(s.state.churn_count, s.state.reuse_count);
}

#[test]
fn a_small_pool_bounds_the_reuse_and_not_the_churn() {
    let mut s = reopen(build_with_pool(40));
    while s.state.pool.len() > 2 {
        s.state.pool.take(&mut words(8)).unwrap().unwrap();
    }
    assert_eq!(s.state.pool.len(), 2);

    let mut tx = s.begin_tx();
    tx.put(Namespace::settings(), b"k0", b"changed").unwrap();
    tx.commit().unwrap();

    let reused = s.state.reuse_count;
    let churned = s.state.churn_count;
    assert!(
        reused > 0,
        "the budget stopped reuse altogether on a pool of two"
    );
    assert_eq!(
        churned, reused,
        "the pool could not fund the churn and the reuse went ahead anyway: \
         {reused} slots reused, {churned} decoys churned"
    );
}

#[test]
fn every_write_path_churns_what_it_reuses() {
    let mut s = reopen(build_with_pool(40));
    let check = |s: &Space, step: &str| {
        assert_eq!(
            s.state.churn_count, s.state.reuse_count,
            "after {step}: {} slots reused, {} decoys churned",
            s.state.reuse_count, s.state.churn_count
        );
    };

    for round in 0..6 {
        for i in 0..4 {
            let mut tx = s.begin_tx();
            tx.put(
                Namespace::settings(),
                format!("r{round}k{i}").as_bytes(),
                b"v",
            )
            .unwrap();
            tx.commit().unwrap();
            check(&s, &format!("commit r{round}i{i}"));
        }
        s.vacuum_orphans().unwrap();
        check(&s, &format!("vacuum_orphans r{round}"));
        s.write_self_heal_checkpoint().unwrap();
        check(&s, &format!("checkpoint r{round}"));
    }

    assert!(
        s.state.reuse_count > 0,
        "nothing was reused, so the equality proves nothing"
    );
}

#[test]
fn a_commit_that_reuses_slots_also_dirties_decoys() {
    let mut s = reopen(build_with_pool(40));
    let pool = s.stats().unwrap().reusable_slot_count;
    assert!(
        pool >= 4,
        "fixture pool too small to observe the split: {pool}"
    );

    // Every write to the device is counted.
    s.file.writes_left = Some(1_000);
    let mut tx = s.begin_tx();
    tx.put(Namespace::settings(), b"k0", b"changed").unwrap();
    tx.commit().unwrap();
    let reused = s.state.reuse_count;
    let churned = s.state.churn_count;

    assert!(reused > 0, "the commit appended instead of reusing");
    assert_eq!(
        churned, reused,
        "the churn must match the reuse one-for-one: {reused} reused, {churned} churned"
    );
    // Three chunks, as many decoys as were reused, and four flushes.
    let written = 1_000 - s.file.writes_left.unwrap();
    assert_eq!(written, 3 + churned + 4);
}

#[test]
fn churn_never_touches_another_spaces_chunks() {
    // Another space's chunks do not open under this one's keys.
    let foreign: Vec<u64> = (0..12).collect();
    let mut file = ContainerFile::new((0..12).map(|_| None).collect(), LockMode::Exclusive);
    file.superblock_replicas = 1;
    let mut a = Space::create(file, keys(), words(20_000)).unwrap();
    for i in 0..40u32 {
        let mut tx = a.begin_tx();
        tx.put(Namespace::settings(), format!("a{i}").as_bytes(), b"v")
            .unwrap();
        tx.commit().unwrap();
    }
    a.vacuum_orphans().unwrap();
    a.write_self_heal_checkpoint().unwrap();

    for round in 0..8u32 {
        for i in 0..20u32 {
            let mut tx = a.begin_tx();
            tx.put(
                Namespace::settings(),
                format!("a{i}").as_bytes(),
                format!("r{round}").as_bytes(),
            )
            .unwrap();
            tx.commit().unwrap();
        }
        a.vacuum_orphans().unwrap();
    }
    assert!(
        a.state.reuse_count > 0,
        "space A never reused, so it never churned either"
    );
    for slot in foreign {
        assert!(
            !a.state.pool.sorted().contains(&slot) && !a.state.owned_slots.contains(slot),
            "slot {slot} is not this space's to touch"
        );
        assert!(a.read_owned_chunk(slot).is_err());
    }
}

#[test]
fn an_uncertain_publish_stops_reuse_the_way_it_stops_vacuum() {
    let mut s = reopen(build_with_pool(40));
    assert!(s.stats().unwrap().reusable_slot_count > 0);

    let before = s.state.reuse_count;
    let mut tx = s.begin_tx();
    tx.put(Namespace::settings(), b"ctl", b"v").unwrap();
    tx.commit().unwrap();
    assert!(
        s.state.reuse_count > before,
        "control: a settled handle must reuse, or the test below proves nothing"
    );

    s.state.attempted_seq = s.commit_seq() + 1;
    assert!(
        matches!(s.vacuum_orphans(), Err(Error::PublishUncertain(_))),
        "precondition: this is the state that stops a vacuum"
    );

    let before = s.state.reuse_count;
    let slots_before = s.stats().unwrap().total_slot_count;
    let mut tx = s.begin_tx();
    tx.put(Namespace::settings(), b"after", b"v").unwrap();
    tx.commit().expect("committing must stay available");
    assert_eq!(
        s.state.reuse_count, before,
        "a commit on a handle whose publish may have landed reused a pool slot"
    );
    assert!(
        s.stats().unwrap().total_slot_count > slots_before,
        "the commit must have appended instead"
    );
}

#[test]
fn readonly_handles_neither_reuse_nor_churn() {
    let mut s = reopen(build_with_pool(40));
    s.file.lock_mode = LockMode::Shared;
    s.file.writes_left = Some(100);
    assert!(s.get(Namespace::settings(), b"k0").unwrap().is_some());
    let mut tx = s.begin_tx();
    tx.put(Namespace::settings(), b"k0", b"nope").unwrap();
    assert!(matches!(tx.commit(), Err(Error::ReadOnly)));
    assert_eq!(s.state.churn_count, 0);
    assert_eq!(
        s.file.writes_left,
        Some(100),
        "a read-only handle changed the file"
    );
}

#[test]
fn a_checkpoint_chain_is_never_built_out_of_pool_slots() {
    let mut s = reopen(build_with_pool(120));
    for i in 0..30u32 {
        let mut tx = s.begin_tx();
        tx.put(Namespace::settings(), format!("k{i}").as_bytes(), b"x")
            .unwrap();
        tx.commit().unwrap();
    }
    s.vacuum_orphans().unwrap();

    let offered = s.state.pool.sorted();
    assert!(
        offered.len() >= 8,
        "pool of {} is too thin for this to mean anything",
        offered.len()
    );

    s.write_self_heal_checkpoint().unwrap();

    let mut cur = s.state.superblock.checkpoint_slot;
    let mut hops = 0;
    while cur != NO_RECORD {
        assert!(
            !offered.contains(&cur),
            "checkpoint chain chunk at slot {cur} came out of the decoy pool"
        );
        let pt = s.read_owned_chunk(cur).unwrap();
        cur = CheckpointChunk::decode(&pt.payload).unwrap().next_slot;
        hops += 1;
        assert!(hops < 64, "chain did not terminate");
    }
    assert!(hops >= 1, "no chain was written, so nothing was checked");
}

#[test]
fn post_commit_padding_becomes_churnable_decoy() {
    let mut s = fresh(1);
    s.set_padding_policy(PaddingPolicy::BucketGrowth { bucket_chunks: 64 })
        .unwrap();

    assert_eq!(s.state.pool.len(), 0, "precondition: nothing retired yet");
    let mut tx = s.begin_tx();
    tx.put(Namespace::settings(), b"k", b"v").unwrap();
    tx.commit().unwrap();

    let total = s.file.slot_count();
    assert_eq!(
        total % 64,
        0,
        "the padding policy did not run; {total} is not a bucket boundary"
    );
    assert!(
        s.state.pool.len() >= 32,
        "only {} padded slots reached the pool out of a 64-slot bucket",
        s.state.pool.len()
    );

    let before = s.file.slot_count();
    for i in 0..5u32 {
        let mut tx = s.begin_tx();
        tx.put(Namespace::settings(), format!("k{i}").as_bytes(), b"v")
            .unwrap();
        tx.commit().unwrap();
    }
    assert!(s.state.reuse_count > 0, "padded slots were not reused");
    assert_eq!(
        s.file.slot_count(),
        before,
        "the file grew although the bucket still had padded slots free"
    );
}

#[test]
fn a_supply_of_words_that_runs_out_fails_the_draw() {
    let mut s = reopen(build_with_pool(40));
    s.state.entropy = Entropy::new(Vec::new());
    let seq = s.commit_seq();
    let mut tx = s.begin_tx();
    tx.put(Namespace::settings(), b"k0", b"x").unwrap();
    assert!(matches!(tx.commit(), Err(Error::Rng)));
    assert_eq!(s.commit_seq(), seq);
    assert_eq!(
        s.get(Namespace::settings(), b"k0").unwrap().as_deref(),
        Some(&b"v"[..])
    );
}
