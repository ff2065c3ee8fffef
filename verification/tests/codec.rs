use hidden_volume::bytes::{be_to_u64, bytes_lt, u64_to_be};
use hidden_volume::error::Error;
use hidden_volume::space::index::{
    boundary_hash, is_boundary, ChildPointer, IndexNode, InternalNode, LeafNode, Namespace,
};
use hidden_volume::space::log::{
    decode_batch, encode_batch, encode_batch_slot_value, encode_batches_split, find_in_batch,
    log_id_key, parse_batch_slot_value, parse_log_id_key,
};
use hidden_volume::tx::commit::{blake3_of, CommitPayload, IndexRoot, NamespaceKind};

fn hex(s: &str) -> Vec<u8> {
    (0..s.len() / 2)
        .map(|i| u8::from_str_radix(&s[2 * i..2 * i + 2], 16).unwrap())
        .collect()
}

#[test]
fn the_hash_is_blake3() {
    assert_eq!(
        blake3_of(b"").to_vec(),
        hex("af1349b9f5f9a1a6a0404dea36dcc9499bcb25c9adc112b7cc9a93cae41f3262")
    );
    assert_eq!(blake3_of(b"abc"), *blake3::hash(b"abc").as_bytes());
    assert_ne!(blake3_of(b"abc"), blake3_of(b"abd"));
}

#[test]
fn a_leaf_reads_back_as_written() {
    let leaf = LeafNode {
        namespace: Namespace::settings(),
        entries: vec![(b"a".to_vec(), b"".to_vec()), (b"bc".to_vec(), b"de".to_vec())],
    };
    let bytes = leaf.encode().unwrap();
    assert_eq!(bytes.len(), leaf.encoded_len());
    // Type, namespace, count; then key length, key, value length, value.
    assert_eq!(bytes[1], Namespace::settings().as_u8());
    assert_eq!(&bytes[2..4], &[2, 0]);
    assert_eq!(&bytes[4..11], &[1, 0, b'a', 0, 0, 0, 0]);
    let back = LeafNode::decode(&bytes).unwrap();
    assert_eq!(back.namespace, leaf.namespace);
    assert_eq!(back.entries, leaf.entries);
    assert_eq!(back.get(b"bc"), Some(&b"de"[..]));
    assert_eq!(back.get(b"b"), None);
    assert!(matches!(IndexNode::decode(&bytes), Ok(IndexNode::Leaf(_))));
    assert!(InternalNode::decode(&bytes).is_err());
    for cut in 0..bytes.len() {
        assert!(LeafNode::decode(&bytes[..cut]).is_err());
    }
}

#[test]
fn a_leaf_out_of_order_or_out_of_range_is_refused() {
    let mut leaf = LeafNode::new(Namespace::settings());
    leaf.entries = vec![(b"b".to_vec(), Vec::new()), (b"a".to_vec(), Vec::new())];
    assert!(LeafNode::decode(&leaf.encode().unwrap()).is_err());
    leaf.entries = vec![(Vec::new(), Vec::new())];
    assert!(leaf.encode().is_err());
    leaf.entries = vec![(b"a".to_vec(), vec![0u8; 2049])];
    assert!(leaf.encode().is_err());
    leaf.entries = vec![(b"a".to_vec(), vec![0u8; 2048]), (b"b".to_vec(), vec![0u8; 2048])];
    assert!(matches!(
        leaf.encode(),
        Err(Error::Malformed("leaf node would exceed PAYLOAD_CAP"))
    ));
}

#[test]
fn an_internal_node_reads_back_and_steers() {
    let child = |k: &[u8], slot: u64| ChildPointer {
        first_key: k.to_vec(),
        child_slot: slot,
        child_hash: [slot as u8; 32],
    };
    let node = InternalNode {
        namespace: Namespace::contacts(),
        children: vec![child(b"b", 7), child(b"m", 8), child(b"t", 9)],
    };
    let bytes = node.encode().unwrap();
    assert_eq!(bytes.len(), node.encoded_len());
    let back = InternalNode::decode(&bytes).unwrap();
    assert_eq!(back.children.len(), 3);
    assert_eq!(back.children[1].child_slot, 8);
    assert_eq!(back.children[2].child_hash, [9u8; 32]);
    assert_eq!(back.child_index_for(b"a"), 0);
    assert_eq!(back.child_index_for(b"b"), 0);
    assert_eq!(back.child_index_for(b"m"), 1);
    assert_eq!(back.child_index_for(b"s"), 1);
    assert_eq!(back.child_index_for(b"z"), 2);
    assert!(InternalNode::new(Namespace::contacts()).encode().is_err());
}

#[test]
fn a_commit_record_reads_back_as_written() {
    let roots = vec![
        IndexRoot {
            namespace: Namespace(1),
            kind: NamespaceKind::Kv,
            index_slot: 10,
            payload_hash: [1u8; 32],
        },
        IndexRoot {
            namespace: Namespace(3),
            kind: NamespaceKind::Log,
            index_slot: 11,
            payload_hash: [2u8; 32],
        },
    ];
    let tx_root_hash = CommitPayload::compute_tx_root_hash(&roots);
    let mut both = [1u8; 64];
    both[32..].copy_from_slice(&[2u8; 32]);
    assert_eq!(tx_root_hash, *blake3::hash(&both).as_bytes());
    let cp = CommitPayload {
        roots,
        tx_root_hash,
    };
    let bytes = cp.encode().unwrap();
    assert_eq!(bytes.len(), 2 + 2 * 42 + 32);
    assert_eq!(bytes.len(), cp.encoded_len());
    let back = CommitPayload::decode(&bytes).unwrap();
    assert_eq!(back.tx_root_hash, tx_root_hash);
    assert_eq!(back.roots.len(), 2);
    assert_eq!(back.roots[1].kind, NamespaceKind::Log);
    assert_eq!(back.roots[1].index_slot, 11);
    for cut in 0..bytes.len() {
        assert!(CommitPayload::decode(&bytes[..cut]).is_err());
    }
    let mut swapped = cp;
    swapped.roots.reverse();
    assert!(matches!(
        swapped.encode(),
        Err(Error::Internal("commit roots not sorted"))
    ));
    assert_eq!(NamespaceKind::Log.as_u8(), 1);
    assert!(NamespaceKind::from_u8(2).is_err());
}

#[test]
fn a_batch_reads_back_as_written() {
    let records = vec![(1u64, b"one".to_vec()), (2, vec![9u8; 8192]), (1, b"uno".to_vec())];
    let bytes = encode_batch(&records).unwrap();
    assert!(bytes.len() < 200, "long runs compress");
    let back = decode_batch(&bytes).unwrap();
    assert_eq!(back, records);
    assert_eq!(find_in_batch(&back, 1), Some(&b"uno".to_vec()));
    assert_eq!(find_in_batch(&back, 3), None);
    assert!(decode_batch(b"not a frame").is_err());
    // A frame that unpacks to something that is no batch.
    let junk = zstd::stream::encode_all(&b"\x05\x00\x00\x00"[..], 3).unwrap();
    assert!(decode_batch(&junk).is_err());
    // A frame that unpacks to more than any batch.
    let bomb = zstd::stream::encode_all(&vec![0u8; 20_000_000][..], 3).unwrap();
    assert!(decode_batch(&bomb).is_err());
}

#[test]
fn batches_are_halved_until_they_fit() {
    let mut x: u64 = 1442695040888963407;
    let mut noise = |n: usize| {
        (0..n)
            .map(|_| {
                x ^= x << 13;
                x ^= x >> 7;
                x ^= x << 17;
                x as u8
            })
            .collect::<Vec<u8>>()
    };
    let records: Vec<(u64, Vec<u8>)> = (0..8).map(|i| (i, noise(1_800))).collect();
    let batches = encode_batches_split(&records).unwrap();
    assert_eq!(batches.len(), 4, "two records to a batch");
    let mut seen = Vec::new();
    for (ids, bytes) in &batches {
        assert!(bytes.len() <= 4040);
        let back = decode_batch(bytes).unwrap();
        assert_eq!(&back.iter().map(|(id, _)| *id).collect::<Vec<_>>(), ids);
        seen.extend(back);
    }
    assert_eq!(seen, records);
    assert!(matches!(
        encode_batches_split(&[(1, noise(5_000))]),
        Err(Error::PayloadTooLarge)
    ));
    let many: Vec<(u64, Vec<u8>)> = (0..1025).map(|i| (i, Vec::new())).collect();
    assert!(matches!(
        encode_batches_split(&many),
        Err(Error::Malformed("batch exceeds MAX_RECORDS_PER_BATCH"))
    ));
    assert!(encode_batches_split(&[]).unwrap().is_empty());
}

#[test]
fn record_keys_order_as_numbers() {
    let ids = [0u64, 1, 255, 256, 65_535, 1 << 32, u64::MAX];
    for pair in ids.windows(2) {
        assert!(bytes_lt(&log_id_key(pair[0]), &log_id_key(pair[1])));
    }
    for id in ids {
        assert_eq!(parse_log_id_key(&log_id_key(id)).unwrap(), id);
        assert_eq!(
            parse_batch_slot_value(&encode_batch_slot_value(id)).unwrap(),
            id
        );
        assert_eq!(be_to_u64(&u64_to_be(id)), id);
    }
    assert_eq!(log_id_key(0x0102), [0, 0, 0, 0, 0, 0, 1, 2]);
    assert_eq!(encode_batch_slot_value(0x0102), [2, 1, 0, 0, 0, 0, 0, 0]);
    assert!(matches!(
        parse_log_id_key(b"short"),
        Err(Error::WrongNamespaceKind(_))
    ));
    assert!(matches!(
        parse_batch_slot_value(b"short"),
        Err(Error::WrongNamespaceKind(_))
    ));
}

#[test]
fn a_full_node_always_ends() {
    let hash = boundary_hash(0, b"key");
    assert!(is_boundary(hash, 100, 4040));
    assert_eq!(boundary_hash(0, b"key"), hash);
    assert_ne!(boundary_hash(1, b"key"), hash, "each level has its own coin");
    assert!(!is_boundary(u64::MAX, 1, 100));
}
