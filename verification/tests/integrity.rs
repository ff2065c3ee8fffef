use hidden_volume::chunk::ChunkKind;
use hidden_volume::container::{ContainerFile, LockMode};
use hidden_volume::error::Error;
use hidden_volume::rng::Entropy;
use hidden_volume::space::index::{ChildPointer, IndexNode, InternalNode, LeafNode, Namespace};
use hidden_volume::space::log::{encode_batch_slot_value, log_id_key};
use hidden_volume::space::superblock::Superblock;
use hidden_volume::space::walk::max_depth_for_budget;
use hidden_volume::space::{Space, SpaceKeys};
use hidden_volume::tx::commit::{blake3_of, CommitPayload, IndexRoot, NamespaceKind};

/// `n` words that look random, the same each time.
fn words(n: usize) -> Entropy {
    let mut x: u64 = 0x2545_f491_4f6c_dd1d;
    let mut out = Vec::with_capacity(n);
    for _ in 0..n {
        x ^= x << 13;
        x ^= x >> 7;
        x ^= x << 17;
        out.push(x);
    }
    Entropy::new(out)
}

fn keys() -> SpaceKeys {
    SpaceKeys {
        container_id: [1u8; 32],
        aead_root: [2u8; 32],
    }
}

/// A fresh space in an empty container.
fn fresh(replicas: u8) -> Space {
    let mut file = ContainerFile::new(Vec::new(), LockMode::Exclusive);
    file.superblock_replicas = replicas;
    Space::create(file, keys(), words(20_000)).unwrap()
}

fn seal_node(s: &mut Space, node: &IndexNode, seq: u64) -> (u64, [u8; 32]) {
    let bytes = node.encode().unwrap();
    let slot = s.append_chunk(ChunkKind::IndexNode, seq, &bytes).unwrap();
    (slot, blake3_of(&bytes))
}

fn leaf(ns: Namespace, entries: &[(&[u8], &[u8])]) -> IndexNode {
    IndexNode::Leaf(LeafNode {
        namespace: ns,
        entries: entries
            .iter()
            .map(|(k, v)| (k.to_vec(), v.to_vec()))
            .collect(),
    })
}

fn child(first_key: &[u8], child_slot: u64, child_hash: [u8; 32]) -> ChildPointer {
    ChildPointer {
        first_key: first_key.to_vec(),
        child_slot,
        child_hash,
    }
}

fn internal(ns: Namespace, children: Vec<ChildPointer>) -> IndexNode {
    IndexNode::Internal(InternalNode {
        namespace: ns,
        children,
    })
}

fn publish(s: &mut Space, roots: Vec<IndexRoot>, seq: u64) {
    let tx_root_hash = CommitPayload::compute_tx_root_hash(&roots);
    let cp = CommitPayload {
        roots,
        tx_root_hash,
    };
    let cp_bytes = cp.encode().unwrap();
    let commit_slot = s.append_chunk(ChunkKind::Commit, seq, &cp_bytes).unwrap();
    let sb = Superblock {
        seq,
        root_slot: commit_slot,
        root_hash: tx_root_hash,
        checkpoint_slot: s.state.superblock.checkpoint_slot,
    };
    s.append_chunk(ChunkKind::Superblock, seq, &sb.encode())
        .unwrap();
    s.state.superblock = sb;
    s.state.roots_payload_cache = None;
}

fn kv_root(ns: Namespace, slot: u64, hash: [u8; 32]) -> IndexRoot {
    IndexRoot {
        namespace: ns,
        kind: NamespaceKind::Kv,
        index_slot: slot,
        payload_hash: hash,
    }
}

fn log_root(ns: Namespace, slot: u64, hash: [u8; 32]) -> IndexRoot {
    IndexRoot {
        namespace: ns,
        kind: NamespaceKind::Log,
        index_slot: slot,
        payload_hash: hash,
    }
}

fn integrity_detail(e: Error) -> &'static str {
    match e {
        Error::IntegrityFailure { detail, .. } => detail,
        other => panic!("expected IntegrityFailure, got {other:?}"),
    }
}

#[test]
fn a_hand_built_well_formed_tree_verifies() {
    let mut s = fresh(3);
    let ns = Namespace::settings();
    let (s0, h0) = seal_node(&mut s, &leaf(ns, &[(b"a", b"1"), (b"b", b"2")]), 1);
    let (s1, h1) = seal_node(&mut s, &leaf(ns, &[(b"m", b"3"), (b"z", b"4")]), 1);
    let node = internal(ns, vec![child(b"a", s0, h0), child(b"m", s1, h1)]);
    let (root_slot, root_hash) = seal_node(&mut s, &node, 1);
    publish(&mut s, vec![kv_root(ns, root_slot, root_hash)], 1);

    let report = s.verify_integrity().unwrap();
    assert_eq!(report.namespaces_verified, 1);
    assert_eq!(report.chunks_verified, 4);
    assert_eq!(report.max_depth, 2);
    assert_eq!(report.data_batches_verified, 0);
}

#[test]
fn two_children_naming_one_chunk_are_rejected() {
    let mut s = fresh(3);
    let ns = Namespace::settings();
    let (s0, h0) = seal_node(&mut s, &leaf(ns, &[(b"a", b"1")]), 1);
    let node = internal(ns, vec![child(b"a", s0, h0), child(b"b", s0, h0)]);
    let (root_slot, root_hash) = seal_node(&mut s, &node, 1);
    publish(&mut s, vec![kv_root(ns, root_slot, root_hash)], 1);

    let detail = integrity_detail(s.verify_integrity().unwrap_err());
    assert_eq!(detail, "chunk reachable more than once in one tree walk");
}

fn publish_chain(s: &mut Space, ns: Namespace, descents: u8, seq: u64) {
    let (mut slot, mut hash) = seal_node(s, &leaf(ns, &[(b"a", b"1")]), seq);
    for _ in 0..descents {
        let node = internal(ns, vec![child(b"a", slot, hash)]);
        (slot, hash) = seal_node(s, &node, seq);
    }
    publish(s, vec![kv_root(ns, slot, hash)], seq);
}

#[test]
fn a_chain_deeper_than_the_container_could_hold_is_rejected() {
    let mut s = fresh(3);
    let ns = Namespace::settings();

    let mut saw_reject = false;
    for descents in 1..=5u8 {
        publish_chain(&mut s, ns, descents, u64::from(descents));
        let owned = s.audit_owned_chunk_count();
        let bound = max_depth_for_budget(owned);

        if descents <= bound {
            s.verify_integrity().unwrap_or_else(|e| {
                panic!("{descents} descents fit in {owned} chunks (bound {bound}): {e:?}")
            });
            assert_eq!(s.get(ns, b"a").unwrap().as_deref(), Some(&b"1"[..]));
            continue;
        }

        saw_reject = true;
        assert_eq!(
            descents,
            bound + 1,
            "walking the boundary one step at a time"
        );
        let detail = integrity_detail(s.verify_integrity().unwrap_err());
        assert_eq!(detail, "tree deeper than this space's chunk count can hold");
        for err in [
            s.get(ns, b"a").unwrap_err(),
            s.count(ns).unwrap_err(),
            s.list(ns).unwrap_err(),
            s.vacuum_orphans().unwrap_err(),
        ] {
            assert!(
                matches!(err, Error::Malformed(d) if d.contains("deeper than")),
                "every walker must refuse the same shape, got {err:?}"
            );
        }
        break;
    }
    assert!(saw_reject, "a near-empty container must run out of depth");
}

#[test]
fn the_same_chain_verifies_in_a_container_big_enough_for_it() {
    let mut s = fresh(3);
    let mut tx = s.begin_tx();
    for i in 0..8000u32 {
        tx.put(Namespace::media(), format!("k{i:08}").as_bytes(), &[b'v'; 64])
            .unwrap();
    }
    tx.commit().unwrap();

    let ns = Namespace::settings();
    let descents = 3u8;
    let seq = s.state.superblock.seq + 1;
    publish_chain(&mut s, ns, descents, seq);

    let owned = s.audit_owned_chunk_count();
    let bound = max_depth_for_budget(owned);
    assert!(
        descents <= bound,
        "{owned} owned chunks should permit {descents} descents, got {bound}"
    );

    let report = s.verify_integrity().unwrap();
    assert_eq!(report.max_depth, descents + 1, "levels = descents + 1");
    assert_eq!(s.get(ns, b"a").unwrap().as_deref(), Some(&b"1"[..]));
    assert_eq!(s.count(ns).unwrap(), 1);
}

#[test]
fn two_namespaces_naming_one_chunk_are_rejected() {
    let mut s = fresh(3);
    let ns = Namespace::settings();
    let (s0, h0) = seal_node(&mut s, &leaf(ns, &[(b"a", b"1")]), 1);
    publish(
        &mut s,
        vec![kv_root(ns, s0, h0), kv_root(Namespace::contacts(), s0, h0)],
        1,
    );

    let detail = integrity_detail(s.verify_integrity().unwrap_err());
    assert_eq!(detail, "chunk reachable more than once in one tree walk");
}

#[test]
fn overlapping_sibling_key_ranges_are_rejected() {
    let mut s = fresh(3);
    let ns = Namespace::settings();
    let (s0, h0) = seal_node(&mut s, &leaf(ns, &[(b"a", b"1"), (b"m", b"2")]), 1);
    let (s1, h1) = seal_node(&mut s, &leaf(ns, &[(b"c", b"3"), (b"z", b"4")]), 1);
    let node = internal(ns, vec![child(b"a", s0, h0), child(b"c", s1, h1)]);
    let (root_slot, root_hash) = seal_node(&mut s, &node, 1);
    publish(&mut s, vec![kv_root(ns, root_slot, root_hash)], 1);

    assert_eq!(s.get(ns, b"m").unwrap(), None);

    let detail = integrity_detail(s.verify_integrity().unwrap_err());
    assert_eq!(detail, "leaf key at or above the range its parent promised");
}

#[test]
fn a_leaf_key_exactly_on_the_sibling_boundary_is_rejected() {
    let mut s = fresh(3);
    let ns = Namespace::settings();
    let (s0, h0) = seal_node(&mut s, &leaf(ns, &[(b"a", b"1"), (b"c", b"2")]), 1);
    let (s1, h1) = seal_node(&mut s, &leaf(ns, &[(b"c", b"3"), (b"z", b"4")]), 1);
    let node = internal(ns, vec![child(b"a", s0, h0), child(b"c", s1, h1)]);
    let (root_slot, root_hash) = seal_node(&mut s, &node, 1);
    publish(&mut s, vec![kv_root(ns, root_slot, root_hash)], 1);

    let detail = integrity_detail(s.verify_integrity().unwrap_err());
    assert_eq!(detail, "leaf key at or above the range its parent promised");
}

#[test]
fn a_leaf_under_its_promised_lower_bound_is_rejected() {
    let mut s = fresh(3);
    let ns = Namespace::settings();
    let (s0, h0) = seal_node(&mut s, &leaf(ns, &[(b"a", b"1")]), 1);
    let (s1, h1) = seal_node(&mut s, &leaf(ns, &[(b"b", b"2")]), 1);
    let node = internal(ns, vec![child(b"a", s0, h0), child(b"m", s1, h1)]);
    let (root_slot, root_hash) = seal_node(&mut s, &node, 1);
    publish(&mut s, vec![kv_root(ns, root_slot, root_hash)], 1);

    assert_eq!(s.get(ns, b"b").unwrap(), None);

    let detail = integrity_detail(s.verify_integrity().unwrap_err());
    assert_eq!(detail, "leaf key below the range its parent promised");
}

#[test]
fn an_internal_child_outside_its_promised_range_is_rejected() {
    let mut s = fresh(3);
    let ns = Namespace::settings();
    let (l0, lh0) = seal_node(&mut s, &leaf(ns, &[(b"a", b"1")]), 1);
    let (l1, lh1) = seal_node(&mut s, &leaf(ns, &[(b"q", b"2")]), 1);
    let (l2, lh2) = seal_node(&mut s, &leaf(ns, &[(b"m", b"3")]), 1);

    let mid = internal(ns, vec![child(b"a", l0, lh0), child(b"m", l2, lh2)]);
    let (mid_slot, mid_hash) = seal_node(&mut s, &mid, 1);

    let root = internal(
        ns,
        vec![child(b"a", mid_slot, mid_hash), child(b"m", l1, lh1)],
    );
    let (root_slot, root_hash) = seal_node(&mut s, &root, 1);
    publish(&mut s, vec![kv_root(ns, root_slot, root_hash)], 1);

    let detail = integrity_detail(s.verify_integrity().unwrap_err());
    assert_eq!(
        detail,
        "internal child first_key at or above the range its parent promised"
    );
}

#[test]
fn an_internal_node_starting_below_its_promised_range_is_rejected() {
    let mut s = fresh(3);
    let ns = Namespace::settings();
    let (l0, lh0) = seal_node(&mut s, &leaf(ns, &[(b"a", b"1")]), 1);
    let (l1, lh1) = seal_node(&mut s, &leaf(ns, &[(b"b", b"2")]), 1);

    let mid = internal(ns, vec![child(b"b", l1, lh1)]);
    let (mid_slot, mid_hash) = seal_node(&mut s, &mid, 1);

    let root = internal(
        ns,
        vec![child(b"a", l0, lh0), child(b"m", mid_slot, mid_hash)],
    );
    let (root_slot, root_hash) = seal_node(&mut s, &root, 1);
    publish(&mut s, vec![kv_root(ns, root_slot, root_hash)], 1);

    assert_eq!(s.get(ns, b"b").unwrap(), None);

    let detail = integrity_detail(s.verify_integrity().unwrap_err());
    assert_eq!(
        detail,
        "internal child first_key below the range its parent promised"
    );
}

#[test]
fn every_walker_refuses_a_dag_not_just_the_integrity_walk() {
    let mut s = fresh(3);
    let ns = Namespace::message_log();
    let entry = (
        log_id_key(1).to_vec(),
        encode_batch_slot_value(0).to_vec(),
    );
    let (l0, lh0) = seal_node(
        &mut s,
        &IndexNode::Leaf(LeafNode {
            namespace: ns,
            entries: vec![entry],
        }),
        1,
    );
    let node = internal(ns, vec![child(b"a", l0, lh0), child(b"b", l0, lh0)]);
    let (root_slot, root_hash) = seal_node(&mut s, &node, 1);
    publish(&mut s, vec![log_root(ns, root_slot, root_hash)], 1);

    let aliased = |e: Error| match e {
        Error::Malformed(m) => assert_eq!(m, "chunk reachable more than once in one tree walk"),
        other => panic!("expected Malformed, got {other:?}"),
    };
    aliased(s.list(ns).unwrap_err());
    aliased(s.count(ns).unwrap_err());
    aliased(s.iter_log_after(ns, None, 10).unwrap_err());
    aliased(s.iter_log_before(ns, None, 10).unwrap_err());
    aliased(s.iter_log_range(ns, None, None, 10).unwrap_err());
    aliased(s.vacuum_orphans().unwrap_err());
}

#[test]
fn a_log_pointer_aliasing_an_index_chunk_is_rejected() {
    let mut s = fresh(3);
    let ns = Namespace::message_log();
    let self_slot = s.file.slot_count();
    let node = IndexNode::Leaf(LeafNode {
        namespace: ns,
        entries: vec![(
            log_id_key(7).to_vec(),
            encode_batch_slot_value(self_slot).to_vec(),
        )],
    });
    let (slot, hash) = seal_node(&mut s, &node, 1);
    assert_eq!(slot, self_slot, "leaf must land on the slot it names");
    publish(&mut s, vec![log_root(ns, slot, hash)], 1);

    let detail = integrity_detail(s.verify_integrity().unwrap_err());
    assert_eq!(detail, "chunk reachable more than once in one tree walk");
}

/// A committed space with a KV and a log namespace.
fn committed() -> Space {
    let mut s = fresh(1);
    let mut tx = s.begin_tx();
    for i in 0..200u32 {
        tx.put(Namespace::settings(), format!("k{i:04}").as_bytes(), &[7u8; 64])
            .unwrap();
    }
    for id in 0..50u64 {
        tx.append_log(Namespace::message_log(), id, &[id as u8; 20])
            .unwrap();
    }
    tx.commit().unwrap();
    s
}

#[test]
fn what_is_committed_verifies() {
    let s = committed();
    let report = s.verify_integrity().unwrap();
    assert_eq!(report.namespaces_verified, 2);
    assert_eq!(report.data_batches_verified, 1);
    assert!(report.max_depth >= 2);
    assert_eq!(
        fresh(1).verify_integrity().unwrap().chunks_verified,
        0,
        "nothing committed, nothing to check"
    );
}

#[test]
fn a_hash_that_does_not_match_is_a_fault() {
    let mut s = fresh(1);
    let ns = Namespace::settings();
    let (slot, _) = seal_node(&mut s, &leaf(ns, &[(b"a", b"1")]), 1);
    publish(&mut s, vec![kv_root(ns, slot, [0u8; 32])], 1);
    assert_eq!(
        integrity_detail(s.verify_integrity().unwrap_err()),
        "IndexNode chunk hash != parent's recorded hash"
    );
    s.state.superblock.root_hash = [5u8; 32];
    assert_eq!(
        integrity_detail(s.verify_integrity().unwrap_err()),
        "Superblock.root_hash != BLAKE3(roots)"
    );
}

#[test]
fn a_chunk_that_does_not_open_is_a_fault_and_names_its_slot() {
    let mut s = committed();
    let root = s.state.superblock.root_slot;
    s.file.scrub_slot(root).unwrap();
    assert!(matches!(
        s.verify_integrity(),
        Err(Error::IntegrityFailure { detail: "owned-chunk AEAD failure on Commit", slot }) if slot == root
    ));
}

#[test]
fn a_record_that_is_missing_from_its_batch_is_a_fault() {
    let mut s = fresh(1);
    let ns = Namespace::message_log();
    let batch = hidden_volume::space::log::encode_batch(&[(1, b"one".to_vec())]).unwrap();
    let b = s.append_chunk(ChunkKind::DataBatch, 1, &batch).unwrap();
    let value = encode_batch_slot_value(b);
    let (slot, hash) = seal_node(
        &mut s,
        &leaf(ns, &[(&log_id_key(1), &value), (&log_id_key(2), &value)]),
        1,
    );
    publish(&mut s, vec![log_root(ns, slot, hash)], 1);
    assert_eq!(
        integrity_detail(s.verify_integrity().unwrap_err()),
        "log index points at a DataBatch that does not hold its record"
    );
    assert_eq!(s.read_log(ns, 1).unwrap().as_deref(), Some(&b"one"[..]));
    assert!(matches!(
        s.read_log(ns, 2),
        Err(Error::Malformed("log_id not found in pointed batch"))
    ));
}
