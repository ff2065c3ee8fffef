use hidden_volume::chunk::ChunkKind;
use hidden_volume::container::{ContainerFile, LockMode, PaddingPolicy};
use hidden_volume::error::Error;
use hidden_volume::rng::Entropy;
use hidden_volume::space::index::Namespace;
use hidden_volume::space::superblock::Superblock;
use hidden_volume::space::{Space, SpaceKeys};
use hidden_volume::tx::commit::NamespaceKind;

/// `n` words that look random, the same each time.
fn words(n: usize) -> Entropy {
    let mut x: u64 = 0x2545_f491_4f6c_dd1d;
    let mut out = Vec::with_capacity(n);
    for _ in 0..n {
        x ^= x << 13;
        x ^= x >> 7;
        x ^= x << 17;
        out.push(x);
    }
    Entropy::new(out)
}

fn keys() -> SpaceKeys {
    SpaceKeys {
        container_id: [1u8; 32],
        aead_root: [2u8; 32],
    }
}

/// A fresh space in an empty container.
fn fresh(replicas: u8) -> Space {
    let mut file = ContainerFile::new(Vec::new(), LockMode::Exclusive);
    file.superblock_replicas = replicas;
    Space::create(file, keys(), words(20_000)).unwrap()
}

fn put(s: &mut Space, key: &[u8], value: &[u8]) -> Result<u64, Error> {
    let mut tx = s.begin_tx();
    tx.put(Namespace::settings(), key, value).unwrap();
    tx.commit()
}

#[test]
fn a_commit_that_fails_after_a_replica_lands_says_reopen() {
    let mut s = fresh(3);
    put(&mut s, b"k", b"v1").unwrap();
    let durable = s.commit_seq();

    // A node, a flush, the record, a flush, one replica: the second replica
    // fails.
    s.file.writes_left = Some(5);
    let err = put(&mut s, b"k", b"v2").expect_err("the second replica was made to fail");
    s.file.writes_left = None;

    assert!(
        matches!(err, Error::PublishUncertain(_)),
        "a publish that may have landed must name its remedy, got {err:?}"
    );
    assert!(
        matches!(s.last_publish_error(), Some(Error::Io(_))),
        "the original failure was dropped on the floor: {:?}",
        s.last_publish_error()
    );
    assert!(
        matches!(s.vacuum_orphans(), Err(Error::PublishUncertain(_))),
        "the burnt seq did not arm the vacuum refusal"
    );
    let seq = put(&mut s, b"k", b"v3").expect("a burnt publish must not brick writes");
    assert!(
        seq > durable + 1,
        "the next commit re-used the burnt seq {}: got {seq}",
        durable + 1
    );
    assert_eq!(
        s.get(Namespace::settings(), b"k").unwrap().as_deref(),
        Some(&b"v3"[..])
    );
    assert!(s.commit_seq() > durable, "nothing was published at all");
}

#[test]
fn a_failure_before_the_publish_window_is_not_uncertain() {
    let mut s = fresh(3);
    put(&mut s, b"k", b"v1").unwrap();
    let durable = s.commit_seq();

    // A node and a flush: the record fails.
    s.file.writes_left = Some(2);
    let err = put(&mut s, b"k", b"v2").expect_err("the commit record was made to fail");
    s.file.writes_left = None;

    assert!(
        matches!(err, Error::Io(_)),
        "a pre-publish failure published nothing, got {err:?}"
    );
    assert_eq!(
        s.state.attempted_seq, durable,
        "nothing was published, so no seq should have been burnt"
    );
    assert!(s.last_publish_error().is_none());
    s.vacuum_orphans()
        .expect("a pre-publish failure must not arm the reopen gate");
    assert_eq!(
        s.get(Namespace::settings(), b"k").unwrap().as_deref(),
        Some(&b"v1"[..])
    );
}

#[test]
fn a_checkpoint_publish_that_fails_says_reopen_too() {
    let mut s = fresh(3);
    put(&mut s, b"k", b"v1").unwrap();
    let durable = s.commit_seq();

    // One link, a flush, one replica: the second replica fails.
    s.file.writes_left = Some(3);
    let err = s
        .write_self_heal_checkpoint()
        .expect_err("the second replica was made to fail");
    s.file.writes_left = None;

    assert!(
        matches!(err, Error::PublishUncertain(_)),
        "the checkpoint publish burnt a seq and may have landed a replica: {err:?}"
    );
    assert!(
        matches!(s.last_publish_error(), Some(Error::Io(_))),
        "the original failure was dropped on the floor: {:?}",
        s.last_publish_error()
    );
    assert!(
        s.state.attempted_seq > durable,
        "the checkpoint seq was not burnt"
    );
}

#[test]
fn a_burnt_seq_is_never_reused() {
    let mut s = fresh(1);
    put(&mut s, b"k", b"v1").unwrap();
    let durable = s.commit_seq();
    s.state.attempted_seq = durable + 1;
    put(&mut s, b"k", b"v2").unwrap();
    assert_eq!(
        s.commit_seq(),
        durable + 2,
        "the next commit must skip the seq a failed publish may have already written"
    );
    assert_eq!(
        s.get(Namespace::settings(), b"k").unwrap().as_deref(),
        Some(&b"v2"[..])
    );
}

#[test]
fn the_first_commit_follows_the_first_publish() {
    let mut s = fresh(1);
    assert_eq!(s.commit_seq(), 1);
    assert_eq!(s.commit_history(), &[1]);
    assert_eq!(put(&mut s, b"a", b"1").unwrap(), 2);
    assert_eq!(put(&mut s, b"b", b"2").unwrap(), 3);
    assert_eq!(s.commit_history(), &[1, 2, 3]);
}

#[test]
fn the_last_operation_on_a_key_wins() {
    let mut s = fresh(1);
    let ns = Namespace::settings();
    let mut tx = s.begin_tx();
    tx.put(ns, b"a", b"1").unwrap();
    tx.put(ns, b"a", b"2").unwrap();
    tx.put(ns, b"b", b"1").unwrap();
    tx.delete(ns, b"b").unwrap();
    tx.delete(ns, b"c").unwrap();
    tx.put(ns, b"c", b"3").unwrap();
    tx.commit().unwrap();
    assert_eq!(
        s.list(ns).unwrap(),
        vec![
            (b"a".to_vec(), b"2".to_vec()),
            (b"c".to_vec(), b"3".to_vec())
        ]
    );
}

#[test]
fn an_empty_transaction_commits_nothing() {
    let mut s = fresh(1);
    put(&mut s, b"a", b"1").unwrap();
    let slots = s.file.slot_count();
    let tx = s.begin_tx();
    assert!(tx.is_empty());
    assert_eq!(tx.touched_namespaces(), 0);
    assert_eq!(tx.commit().unwrap(), 2);
    assert_eq!(s.file.slot_count(), slots);
}

#[test]
fn a_namespace_that_is_emptied_is_gone() {
    let mut s = fresh(1);
    put(&mut s, b"a", b"1").unwrap();
    let mut tx = s.begin_tx();
    tx.delete(Namespace::settings(), b"a").unwrap();
    tx.commit().unwrap();
    assert!(s.list_namespaces().unwrap().is_empty());
    assert_eq!(s.get(Namespace::settings(), b"a").unwrap(), None);
}

#[test]
fn other_namespaces_are_left_alone() {
    let mut s = fresh(1);
    let mut tx = s.begin_tx();
    tx.put(Namespace::contacts(), b"bob", b"1").unwrap();
    tx.put(Namespace::settings(), b"k", b"v").unwrap();
    tx.append_log(Namespace::message_log(), 5, b"hi").unwrap();
    assert_eq!(tx.touched_namespaces(), 3);
    tx.commit().unwrap();
    let before = s.find_root(Namespace::contacts()).unwrap().unwrap();
    put(&mut s, b"k", b"w").unwrap();
    let after = s.find_root(Namespace::contacts()).unwrap().unwrap();
    assert_eq!(before.index_slot, after.index_slot);
    assert_eq!(
        s.list_namespaces_with_kind().unwrap(),
        vec![
            (Namespace::settings(), NamespaceKind::Kv),
            (Namespace::contacts(), NamespaceKind::Kv),
            (Namespace::message_log(), NamespaceKind::Log),
        ]
    );
}

#[test]
fn arguments_out_of_range_are_refused_when_buffered() {
    let mut s = fresh(1);
    let ns = Namespace::settings();
    let mut tx = s.begin_tx();
    assert!(matches!(
        tx.put(Namespace::reserved(), b"k", b"v"),
        Err(Error::Malformed("namespace 0 is reserved"))
    ));
    assert!(matches!(
        tx.put(ns, b"", b"v"),
        Err(Error::Malformed("invalid key length"))
    ));
    assert!(matches!(
        tx.delete(ns, &[0u8; 257]),
        Err(Error::Malformed("invalid key length"))
    ));
    assert!(matches!(
        tx.put(ns, b"k", &[0u8; 2049]),
        Err(Error::PayloadTooLarge)
    ));
    assert!(matches!(
        tx.append_log(ns, 1, &vec![0u8; 8193]),
        Err(Error::PayloadTooLarge)
    ));
    tx.put(ns, &[1u8; 256], &[2u8; 2048]).unwrap();
    assert!(matches!(
        tx.append_log(ns, 1, b"x"),
        Err(Error::WrongNamespaceKind(
            "namespace already used as the other kind in this Tx"
        ))
    ));
    tx.commit().unwrap();
    assert_eq!(s.get(ns, &[1u8; 256]).unwrap(), Some(vec![2u8; 2048]));
}

#[test]
fn one_transaction_takes_so_many_namespaces_and_records() {
    let mut s = fresh(1);
    let mut tx = s.begin_tx();
    for n in 1..=95u8 {
        tx.put(Namespace(n), b"k", b"v").unwrap();
    }
    assert!(matches!(
        tx.put(Namespace(96), b"k", b"v"),
        Err(Error::TooManyNamespaces { limit: 95 })
    ));
    tx.put(Namespace(95), b"j", b"v").unwrap();
    tx.commit().unwrap();
    assert_eq!(s.list_namespaces().unwrap().len(), 95);
    let mut tx = s.begin_tx();
    tx.put(Namespace(96), b"k", b"v").unwrap();
    assert!(matches!(
        tx.commit(),
        Err(Error::TooManyNamespaces { limit: 95 })
    ));

    let mut s = fresh(1);
    let mut tx = s.begin_tx();
    for id in 0..1024u64 {
        tx.append_log(Namespace::message_log(), id, b"m").unwrap();
    }
    assert!(matches!(
        tx.append_log(Namespace::message_log(), 1024, b"m"),
        Err(Error::PayloadTooLarge)
    ));
    tx.commit().unwrap();
    assert_eq!(s.count(Namespace::message_log()).unwrap(), 1024);
}

#[test]
fn operations_against_the_kind_of_a_namespace_are_refused() {
    let mut s = fresh(1);
    let mut tx = s.begin_tx();
    tx.append_log(Namespace::message_log(), 1, b"m").unwrap();
    tx.put(Namespace::settings(), b"k", b"v").unwrap();
    tx.commit().unwrap();
    let seq = s.commit_seq();

    let mut tx = s.begin_tx();
    tx.put(Namespace::message_log(), b"12345678", b"v").unwrap();
    assert!(matches!(
        tx.commit(),
        Err(Error::WrongNamespaceKind(
            "KV op addressed by key against an existing Log namespace"
        ))
    ));
    let mut tx = s.begin_tx();
    tx.append_log(Namespace::settings(), 1, b"m").unwrap();
    assert!(matches!(
        tx.commit(),
        Err(Error::WrongNamespaceKind("Log op against existing Kv namespace"))
    ));
    assert_eq!(s.commit_seq(), seq);
    assert!(matches!(
        s.iter_log(Namespace::settings()),
        Err(Error::WrongNamespaceKind("namespace is a KV namespace, not a log"))
    ));
    assert!(matches!(
        s.read_log(Namespace::settings(), 1),
        Err(Error::WrongNamespaceKind("namespace is a KV namespace, not a log"))
    ));
}

#[test]
fn erasing_takes_either_kind_and_counts() {
    let mut s = fresh(1);
    let mut tx = s.begin_tx();
    for i in 0..500u32 {
        tx.put(Namespace::settings(), format!("k{i}").as_bytes(), &[1u8; 40])
            .unwrap();
    }
    for id in 0..20u64 {
        tx.append_log(Namespace::message_log(), id, b"m").unwrap();
    }
    tx.commit().unwrap();
    assert_eq!(s.erase_namespace(Namespace::settings()).unwrap(), 500);
    assert_eq!(s.erase_namespace(Namespace::message_log()).unwrap(), 20);
    assert!(s.list_namespaces().unwrap().is_empty());
    let seq = s.commit_seq();
    assert_eq!(s.erase_namespace(Namespace::settings()).unwrap(), 0);
    assert_eq!(s.commit_seq(), seq, "nothing to erase takes no commit");
}

#[test]
fn seqs_end() {
    let mut s = fresh(1);
    s.state.attempted_seq = u64::MAX;
    assert!(matches!(
        put(&mut s, b"k", b"v"),
        Err(Error::Internal("commit seq overflow"))
    ));
    assert!(matches!(
        s.write_self_heal_checkpoint(),
        Err(Error::Internal("checkpoint seq overflow"))
    ));
}

#[test]
fn a_handle_that_does_not_write_says_so() {
    let mut s = fresh(1);
    put(&mut s, b"k", b"v").unwrap();
    s.file.lock_mode = LockMode::Shared;
    assert!(matches!(put(&mut s, b"k", b"w"), Err(Error::ReadOnly)));
    assert!(matches!(s.vacuum_orphans(), Err(Error::ReadOnly)));
    assert!(matches!(s.vacuum_data_batches(), Err(Error::ReadOnly)));
    assert_eq!(s.vacuum_after_open().unwrap(), 0);
    assert!(matches!(s.write_self_heal_checkpoint(), Err(Error::ReadOnly)));
    assert!(!s.maybe_self_heal_checkpoint().unwrap());
    assert!(matches!(
        s.set_padding_policy(PaddingPolicy::Off),
        Err(Error::ReadOnly)
    ));
    assert_eq!(
        s.get(Namespace::settings(), b"k").unwrap().as_deref(),
        Some(&b"v"[..])
    );
}

#[test]
fn a_space_is_started_once() {
    let s = fresh(3);
    assert_eq!(s.file.slot_count(), 3, "one slot for each replica");
    let again = Space::create(s.file, keys(), words(4));
    assert!(matches!(again, Err(Error::SpaceAlreadyExists)));
    let shared = ContainerFile::new(Vec::new(), LockMode::Shared);
    assert!(matches!(
        Space::create(shared, keys(), words(4)),
        Err(Error::ReadOnly)
    ));
}

#[test]
fn padding_follows_the_policy() {
    let mut s = fresh(1);
    s.set_padding_policy(PaddingPolicy::FixedRatio { noise_per_chunk: 2 })
        .unwrap();
    let before = s.file.slot_count();
    put(&mut s, b"k", b"v").unwrap();
    // A node, a record, a superblock, and two of noise for each.
    assert_eq!(s.file.slot_count(), before + 9);
    assert_eq!(s.stats().unwrap().reusable_slot_count, 6);
    assert!(s.last_padding_error().is_none());
    assert!(matches!(
        s.padding_policy(),
        PaddingPolicy::FixedRatio { noise_per_chunk: 2 }
    ));
}

#[test]
fn numbers_add_up() {
    let mut s = fresh(1);
    let mut tx = s.begin_tx();
    tx.put(Namespace::settings(), b"a", b"1").unwrap();
    tx.put(Namespace::settings(), b"b", b"1").unwrap();
    tx.put(Namespace::contacts(), b"c", b"1").unwrap();
    tx.commit().unwrap();
    let st = s.stats().unwrap();
    assert_eq!(st.commit_seq, 2);
    assert_eq!(st.commit_history_len, 2);
    assert_eq!(st.namespace_counts, vec![
        (Namespace::settings(), 2),
        (Namespace::contacts(), 1),
    ]);
    assert_eq!(st.total_entries(), 3);
    assert_eq!(st.owned_chunk_count, s.audit_owned_chunk_count());
    assert_eq!(st.total_slot_count, s.file.slot_count());
    assert_eq!(s.space_keys().aead_root, [2u8; 32]);
}

#[test]
fn a_state_can_be_handed_on() {
    let mut s = fresh(1);
    put(&mut s, b"k", b"v").unwrap();
    let Space { file, state } = s;
    let mut s = Space::from_state(file, state);
    put(&mut s, b"j", b"w").unwrap();
    assert_eq!(s.count(Namespace::settings()).unwrap(), 2);
    assert_eq!(s.into_state().superblock.seq, 3);
}

/// Stands the space at the newest superblock on file, as opening it would.
fn stand_at_newest(s: &mut Space) {
    let mut newest: Option<Superblock> = None;
    for slot in s.file.slots.iter().flatten() {
        if slot.kind == ChunkKind::Superblock {
            let sb = Superblock::decode(&slot.payload).unwrap();
            if newest.as_ref().map_or(true, |n| sb.seq > n.seq) {
                newest = Some(sb);
            }
        }
    }
    s.state.superblock = newest.expect("a superblock is on file");
    s.state.attempted_seq = s.state.superblock.seq;
    s.state.roots_payload_cache = None;
}

#[test]
fn wherever_a_commit_breaks_off_it_is_done_or_not_begun() {
    let (mut old_seen, mut new_seen) = (0, 0);
    for writes in 0..20u64 {
        let mut s = fresh(3);
        let mut tx = s.begin_tx();
        for i in 0..80u32 {
            tx.put(Namespace::settings(), format!("k{i:03}").as_bytes(), &[b'a'; 90])
                .unwrap();
        }
        tx.append_log(Namespace::message_log(), 1, b"one").unwrap();
        tx.commit().unwrap();

        s.file.writes_left = Some(writes);
        let mut tx = s.begin_tx();
        for i in 0..80u32 {
            tx.put(Namespace::settings(), format!("k{i:03}").as_bytes(), &[b'b'; 90])
                .unwrap();
        }
        tx.append_log(Namespace::message_log(), 2, b"two").unwrap();
        let _ = tx.commit();
        s.file.writes_left = None;
        stand_at_newest(&mut s);

        s.verify_integrity().expect("what is found is whole");
        let values = s.list(Namespace::settings()).unwrap();
        assert_eq!(values.len(), 80);
        let log = s.iter_log(Namespace::message_log()).unwrap();
        let one = (1u64, b"one".to_vec());
        let two = (2u64, b"two".to_vec());
        if values.iter().all(|(_, v)| v == &vec![b'a'; 90]) {
            assert_eq!(log, vec![one], "after {writes} writes");
            old_seen += 1;
        } else {
            assert!(values.iter().all(|(_, v)| v == &vec![b'b'; 90]));
            assert_eq!(log, vec![one, two], "after {writes} writes");
            new_seen += 1;
        }
    }
    assert!(old_seen > 0 && new_seen > 0);
}

#[test]
fn a_commit_leaves_as_many_superblocks_as_the_policy_asks_for() {
    for replicas in 1..=4u8 {
        let mut s = fresh(replicas);
        let seq = put(&mut s, b"k", b"v").unwrap();
        let copies = s
            .file
            .slots
            .iter()
            .flatten()
            .filter(|p| p.kind == ChunkKind::Superblock)
            .filter(|p| Superblock::decode(&p.payload).unwrap().seq == seq)
            .count();
        assert_eq!(copies, usize::from(replicas));
    }
}

#[test]
fn a_commit_on_a_handle_that_does_not_write_leaves_the_file_alone() {
    let mut s = fresh(1);
    put(&mut s, b"k", b"v").unwrap();
    let before = format!("{:?}", s.file.slots);
    let seq = s.commit_seq();
    s.file.lock_mode = LockMode::Shared;
    assert!(matches!(put(&mut s, b"l", b"w"), Err(Error::ReadOnly)));
    assert!(matches!(
        s.erase_namespace(Namespace::settings()),
        Err(Error::ReadOnly)
    ));
    assert_eq!(format!("{:?}", s.file.slots), before);
    assert_eq!(s.commit_seq(), seq);
}

#[test]
fn what_stops_a_commit_is_what_it_reports() {
    let mut s = fresh(3);
    put(&mut s, b"k", b"v1").unwrap();
    s.file.writes_left = Some(0);
    assert!(matches!(
        put(&mut s, b"k", b"v2"),
        Err(Error::Io("device refused the write"))
    ));
    // The node, and the flush after it is refused.
    s.file.writes_left = Some(1);
    assert!(matches!(
        put(&mut s, b"k", b"v2"),
        Err(Error::Io("device refused to flush"))
    ));
    // A node, a flush, the record, a flush, three replicas: the last flush is
    // refused.
    s.file.writes_left = Some(7);
    assert!(matches!(
        put(&mut s, b"k", b"v2"),
        Err(Error::PublishUncertain(_))
    ));
    assert!(matches!(
        s.last_publish_error(),
        Some(Error::Io("device refused to flush"))
    ));
}

#[test]
fn a_listing_is_what_was_there_with_the_changes() {
    let mut s = fresh(1);
    let (kv, log) = (Namespace::settings(), Namespace::message_log());
    let mut tx = s.begin_tx();
    tx.put(kv, b"a", b"1").unwrap();
    tx.put(kv, b"b", b"2").unwrap();
    tx.put(kv, b"d", b"4").unwrap();
    tx.append_log(log, 7, b"seven").unwrap();
    tx.append_log(log, 9, b"nine").unwrap();
    tx.commit().unwrap();
    let records = s.iter_log(log).unwrap();

    let mut tx = s.begin_tx();
    tx.put(kv, b"c", b"3").unwrap();
    tx.put(kv, b"a", b"one").unwrap();
    tx.delete(kv, b"b").unwrap();
    tx.commit().unwrap();
    let listed = s.list(kv).unwrap();
    assert_eq!(
        listed,
        vec![
            (b"a".to_vec(), b"one".to_vec()),
            (b"c".to_vec(), b"3".to_vec()),
            (b"d".to_vec(), b"4".to_vec()),
        ]
    );
    assert_eq!(s.iter_log(log).unwrap(), records, "the log was not touched");

    let mut tx = s.begin_tx();
    tx.append_log(log, 8, b"eight").unwrap();
    tx.append_log(log, 9, b"other").unwrap();
    tx.commit().unwrap();
    assert_eq!(
        s.iter_log(log).unwrap(),
        vec![
            (7, b"seven".to_vec()),
            (8, b"eight".to_vec()),
            (9, b"other".to_vec()),
        ]
    );
    assert_eq!(s.list(kv).unwrap(), listed);
}

#[test]
fn everything_that_a_commit_writes_carries_its_number() {
    let mut s = fresh(2);
    put(&mut s, b"k", b"v").unwrap();
    let before = s.file.slots.len();
    let mut tx = s.begin_tx();
    tx.put(Namespace::settings(), b"l", b"w").unwrap();
    tx.append_log(Namespace::message_log(), 1, b"one").unwrap();
    let seq = tx.commit().unwrap();
    let mut kinds = Vec::new();
    for slot in s.file.slots[before..].iter().flatten() {
        assert_eq!(slot.seq, seq, "{:?}", slot.kind);
        kinds.push(slot.kind);
    }
    for kind in [
        ChunkKind::DataBatch,
        ChunkKind::IndexNode,
        ChunkKind::Commit,
        ChunkKind::Superblock,
    ] {
        assert!(kinds.contains(&kind), "no {kind:?}");
    }
}

#[test]
fn a_full_device_refuses_to_grow() {
    let mut s = fresh(1);
    put(&mut s, b"k", b"v").unwrap();
    s.file.room_left = Some(0);
    assert!(matches!(
        put(&mut s, b"k", b"w"),
        Err(Error::Io("no room on the device"))
    ));
    s.file.room_left = Some(2);
    assert!(matches!(
        put(&mut s, b"k", b"w"),
        Err(Error::PublishUncertain(_))
    ));
    assert!(matches!(
        s.last_publish_error(),
        Some(Error::Io("no room on the device"))
    ));
    let mut file = ContainerFile::new(Vec::new(), LockMode::Exclusive);
    file.superblock_replicas = 3;
    file.room_left = Some(2);
    assert!(matches!(
        Space::create(file, keys(), words(4)),
        Err(Error::Io("no room on the device"))
    ));
}
