use hidden_volume::chunk::ChunkKind;
use hidden_volume::container::{ContainerFile, LockMode};
use hidden_volume::error::Error;
use hidden_volume::rng::Entropy;
use hidden_volume::space::index::Namespace;
use hidden_volume::space::{Space, SpaceKeys};

/// `n` words that look random, the same each time.
fn words(n: usize) -> Entropy {
    let mut x: u64 = 0x2545_f491_4f6c_dd1d;
    let mut out = Vec::with_capacity(n);
    for _ in 0..n {
        x ^= x << 13;
        x ^= x >> 7;
        x ^= x << 17;
        out.push(x);
    }
    Entropy::new(out)
}

fn keys() -> SpaceKeys {
    SpaceKeys {
        container_id: [1u8; 32],
        aead_root: [2u8; 32],
    }
}

/// A fresh space in an empty container.
fn fresh(replicas: u8) -> Space {
    let mut file = ContainerFile::new(Vec::new(), LockMode::Exclusive);
    file.superblock_replicas = replicas;
    Space::create(file, keys(), words(20_000)).unwrap()
}

fn put(s: &mut Space, key: &[u8], value: &[u8]) {
    let mut tx = s.begin_tx();
    tx.put(Namespace::settings(), key, value).unwrap();
    tx.commit().unwrap();
}

fn chunks_of(s: &Space, kind: ChunkKind) -> Vec<u64> {
    (0..s.file.slot_count())
        .filter(|slot| matches!(s.read_owned_chunk(*slot), Ok(p) if p.kind == kind))
        .collect()
}

#[test]
fn an_unreadable_newer_superblock_blocks_destruction_but_not_reads() {
    let mut s = fresh(3);
    put(&mut s, b"k", b"v");

    s.state.unreadable_newer_superblock = Some(s.state.superblock.seq + 1);

    assert!(
        matches!(s.get(Namespace::settings(), b"k"), Ok(Some(_))),
        "reads must keep working — the data is still there"
    );
    assert!(
        matches!(s.vacuum_orphans(), Err(Error::UnreadableNewerState)),
        "vacuum would delete exactly the newer writer's chunks"
    );
    assert!(
        matches!(s.vacuum_data_batches(), Err(Error::UnreadableNewerState)),
        "the batch pass scrubs exactly the batches the newer era points at"
    );

    let mut tx = s.begin_tx();
    tx.put(Namespace::settings(), b"k2", b"v2").unwrap();
    assert!(
        matches!(tx.commit(), Err(Error::UnreadableNewerState)),
        "committing on a superseded root forks the space"
    );
}

#[test]
fn a_space_without_newer_state_is_unaffected() {
    let mut s = fresh(3);
    put(&mut s, b"k", b"v");
    assert!(s.state.unreadable_newer_superblock.is_none());
    assert!(s.vacuum_orphans().is_ok());
    assert!(s.vacuum_data_batches().is_ok());
}

#[test]
fn a_vacuum_on_an_uncertain_publish_is_refused_until_reopen() {
    let mut s = fresh(3);
    put(&mut s, b"k", b"v");
    let mut tx = s.begin_tx();
    tx.delete(Namespace::settings(), b"k").unwrap();
    tx.commit().unwrap();

    assert!(s.vacuum_orphans().is_ok());
    assert!(s.vacuum_data_batches().is_ok());

    s.state.attempted_seq = s.commit_seq() + 1;

    assert!(
        matches!(s.vacuum_orphans(), Err(Error::PublishUncertain(_))),
        "vacuum_orphans must refuse rather than erase an era it cannot see"
    );
    assert!(
        matches!(s.vacuum_data_batches(), Err(Error::PublishUncertain(_))),
        "vacuum_data_batches must refuse for the same reason"
    );

    let mut tx = s.begin_tx();
    tx.put(Namespace::settings(), b"k2", b"v2").unwrap();
    assert!(tx.commit().is_ok(), "commit must remain available");
}

#[test]
fn orphans_go_and_contents_stay() {
    let mut s = fresh(1);
    for i in 0..10u32 {
        put(&mut s, format!("k{i}").as_bytes(), b"v");
    }
    assert_eq!(chunks_of(&s, ChunkKind::IndexNode).len(), 10);
    let listed = s.list(Namespace::settings()).unwrap();
    assert_eq!(s.vacuum_orphans().unwrap(), 9);
    assert_eq!(chunks_of(&s, ChunkKind::IndexNode).len(), 1);
    assert_eq!(chunks_of(&s, ChunkKind::Commit).len(), 10);
    assert_eq!(s.state.pool.len(), 9);
    assert_eq!(s.list(Namespace::settings()).unwrap(), listed);
    s.verify_integrity().unwrap();
    assert_eq!(s.vacuum_orphans().unwrap(), 0, "a second time finds nothing");
}

#[test]
fn a_slot_that_no_longer_opens_is_freed_without_a_write() {
    let mut s = fresh(1);
    put(&mut s, b"k", b"1");
    put(&mut s, b"k", b"2");
    let dead = chunks_of(&s, ChunkKind::IndexNode)[0];
    s.file.scrub_slot(dead).unwrap();
    assert_eq!(s.vacuum_orphans().unwrap(), 0);
    assert!(s.state.pool.sorted().contains(&dead));
    assert!(!s.state.owned_slots.contains(dead));
}

#[test]
fn superblocks_and_records_of_old_publishes_stay() {
    let mut s = fresh(1);
    put(&mut s, b"k", b"1");
    put(&mut s, b"k", b"2");
    let sbs = chunks_of(&s, ChunkKind::Superblock);
    let commits = chunks_of(&s, ChunkKind::Commit);
    assert_eq!((sbs.len(), commits.len()), (3, 2));
    // As if a thousand and more publishes had gone by.
    s.state.attempted_seq = 1027;
    put(&mut s, b"k", b"3");
    assert_eq!(s.commit_seq(), 1028);
    assert_eq!(s.vacuum_orphans().unwrap(), 2, "two superseded nodes");
    assert_eq!(chunks_of(&s, ChunkKind::Superblock).len(), 4);
    assert_eq!(chunks_of(&s, ChunkKind::Commit).len(), 3);
    for slot in sbs.into_iter().chain(commits) {
        assert!(s.read_owned_chunk(slot).is_ok());
    }
    assert_eq!(s.commit_history(), &[1, 2, 3, 1028]);
    assert_eq!(
        s.get(Namespace::settings(), b"k").unwrap().as_deref(),
        Some(&b"3"[..])
    );
    s.verify_integrity().unwrap();
}

#[test]
fn superseded_batches_go_and_records_stay() {
    let mut s = fresh(1);
    let ns = Namespace::message_log();
    for round in 0..3u8 {
        let mut tx = s.begin_tx();
        tx.append_log(ns, 7, &[round]).unwrap();
        tx.append_log(ns, u64::from(round) + 100, b"kept").unwrap();
        tx.commit().unwrap();
    }
    assert_eq!(chunks_of(&s, ChunkKind::DataBatch).len(), 3);
    assert_eq!(s.vacuum_data_batches().unwrap(), 0, "all are pointed at");
    let mut tx = s.begin_tx();
    tx.append_log(ns, 100, b"new").unwrap();
    tx.commit().unwrap();
    assert_eq!(s.vacuum_data_batches().unwrap(), 1);
    assert_eq!(chunks_of(&s, ChunkKind::DataBatch).len(), 3);
    assert_eq!(s.read_log(ns, 7).unwrap().as_deref(), Some(&[2u8][..]));
    assert_eq!(s.read_log(ns, 100).unwrap().as_deref(), Some(&b"new"[..]));
    assert_eq!(s.read_log(ns, 101).unwrap().as_deref(), Some(&b"kept"[..]));
    assert_eq!(s.vacuum_data_batches().unwrap(), 0);
    s.verify_integrity().unwrap();
}

#[test]
fn a_vacuum_that_fails_half_way_loses_nothing() {
    let mut s = fresh(1);
    for i in 0..6u32 {
        put(&mut s, format!("k{i}").as_bytes(), b"v");
    }
    let listed = s.list(Namespace::settings()).unwrap();
    s.file.writes_left = Some(2);
    assert!(matches!(s.vacuum_orphans(), Err(Error::Io(_))));
    s.file.writes_left = None;
    assert_eq!(s.list(Namespace::settings()).unwrap(), listed);
    assert_eq!(s.vacuum_orphans().unwrap(), 3, "two were done already");
    s.verify_integrity().unwrap();
}

#[test]
fn a_space_without_a_commit_has_nothing_to_clean_up() {
    let mut s = fresh(2);
    assert_eq!(s.vacuum_orphans().unwrap(), 0);
    assert_eq!(s.vacuum_data_batches().unwrap(), 0);
    assert_eq!(s.vacuum_after_open().unwrap(), 0);
}

#[test]
fn a_vacuum_needs_one_write_for_each_chunk_and_one_to_flush() {
    let mut s = fresh(1);
    for i in 0..6u32 {
        put(&mut s, format!("k{i}").as_bytes(), b"v");
    }
    // Five nodes are superseded.
    s.file.writes_left = Some(4);
    assert!(matches!(
        s.vacuum_orphans(),
        Err(Error::Io("device refused the write"))
    ));
    s.file.writes_left = Some(1);
    assert!(matches!(
        s.vacuum_orphans(),
        Err(Error::Io("device refused to flush"))
    ));
    // All are overwritten by now, so that nothing is left to flush.
    s.file.writes_left = Some(0);
    assert_eq!(s.vacuum_orphans().unwrap(), 0);
    assert_eq!(s.state.pool.len(), 5, "what does not open is free");
    s.file.writes_left = None;
    s.verify_integrity().unwrap();
}

#[test]
fn cleaning_up_after_opening_is_cleaning_up() {
    for writes in [None, Some(0), Some(2), Some(5), Some(6)] {
        let mut answers = Vec::new();
        for after_open in [false, true] {
            let mut s = fresh(1);
            for i in 0..6u32 {
                put(&mut s, format!("k{i}").as_bytes(), b"v");
            }
            s.file.writes_left = writes;
            let r = if after_open {
                s.vacuum_after_open()
            } else {
                s.vacuum_orphans()
            };
            answers.push((
                format!("{r:?}"),
                format!("{:?}", s.file.slots),
                s.state.owned_slots.to_sorted_vec(),
                s.state.pool.sorted(),
                s.file.writes_left,
            ));
        }
        assert_eq!(answers[0], answers[1], "with {writes:?} writes");
    }
}
