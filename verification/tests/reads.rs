use hidden_volume::container::{ContainerFile, LockMode};
use hidden_volume::error::Error;
use hidden_volume::rng::Entropy;
use hidden_volume::space::index::Namespace;
use hidden_volume::space::{Space, SpaceKeys};

/// `n` words that look random, the same each time.
fn words(n: usize) -> Entropy {
    let mut x: u64 = 0x2545_f491_4f6c_dd1d;
    let mut out = Vec::with_capacity(n);
    for _ in 0..n {
        x ^= x << 13;
        x ^= x >> 7;
        x ^= x << 17;
        out.push(x);
    }
    Entropy::new(out)
}

fn keys() -> SpaceKeys {
    SpaceKeys {
        container_id: [1u8; 32],
        aead_root: [2u8; 32],
    }
}

/// A fresh space in an empty container.
fn fresh(replicas: u8) -> Space {
    let mut file = ContainerFile::new(Vec::new(), LockMode::Exclusive);
    file.superblock_replicas = replicas;
    Space::create(file, keys(), words(20_000)).unwrap()
}

const N: u64 = 3_000;

fn kv_key(i: u64) -> Vec<u8> {
    format!("k{i:08}").into_bytes()
}

/// `N` KV keys and `N` log records.
fn seeded() -> Space {
    let mut s = fresh(1);
    for batch in 0..(N / 1_000) {
        let mut tx = s.begin_tx();
        for i in (batch * 1_000)..(batch * 1_000 + 1_000) {
            tx.put(Namespace::settings(), &kv_key(i), &i.to_le_bytes())
                .unwrap();
            tx.append_log(Namespace::message_log(), i, format!("m{i}").as_bytes())
                .unwrap();
        }
        tx.commit().unwrap();
    }
    s
}

#[test]
fn every_key_is_found_and_no_other() {
    let mut s = seeded();
    let ns = Namespace::settings();
    for i in 0..N {
        assert_eq!(
            s.get(ns, &kv_key(i)).unwrap().as_deref(),
            Some(&i.to_le_bytes()[..])
        );
    }
    assert_eq!(s.get(ns, b"k").unwrap(), None);
    assert_eq!(s.get(ns, b"z").unwrap(), None);
    assert_eq!(s.get(ns, b"k00000001x").unwrap(), None);
    assert_eq!(s.get(Namespace::media(), b"k").unwrap(), None);
    assert_eq!(s.count(ns).unwrap(), N as usize);
    let all = s.list(ns).unwrap();
    assert_eq!(all.len(), N as usize);
    for (i, (k, v)) in all.iter().enumerate() {
        assert_eq!(k, &kv_key(i as u64));
        assert_eq!(v, &(i as u64).to_le_bytes());
    }
}

#[test]
fn pages_put_end_to_end_are_the_whole() {
    let mut s = seeded();
    let ns = Namespace::settings();
    let mut seen: Vec<Vec<u8>> = Vec::new();
    let mut cursor: Option<Vec<u8>> = None;
    loop {
        let page = s.list_keys_after(ns, cursor.as_deref(), 77).unwrap();
        assert!(page.len() <= 77);
        match page.last() {
            None => break,
            Some(k) => cursor = Some(k.clone()),
        }
        seen.extend(page);
    }
    assert_eq!(seen, s.list_keys(ns).unwrap());
    assert!(s.list_after(ns, None, 0).unwrap().is_empty());
    let page = s.list_after(ns, Some(&kv_key(10)), 2).unwrap();
    assert_eq!(page[0].0, kv_key(11));
    assert_eq!(page[1].0, kv_key(12));
    // A cursor between two keys.
    let page = s.list_keys_after(ns, Some(b"k00000010x"), 1).unwrap();
    assert_eq!(page, vec![kv_key(11)]);
}

#[test]
fn a_page_far_from_the_start_reads_nothing_before_it() {
    let mut s = seeded();
    let ns = Namespace::settings();
    // The first leaf is gone; a page from the far end does not miss it.
    let mut slot = s.find_root(ns).unwrap().unwrap().index_slot;
    loop {
        match s.read_index_node_at_expected(slot, ns).unwrap() {
            hidden_volume::space::index::IndexNode::Leaf(_) => break,
            hidden_volume::space::index::IndexNode::Internal(n) => slot = n.children[0].child_slot,
        }
    }
    s.file.scrub_slot(slot).unwrap();
    assert!(matches!(s.list(ns), Err(Error::AuthFailed)));
    let far = s.list_keys_after(ns, Some(&kv_key(N - 51)), 50).unwrap();
    assert_eq!(far.len(), 50);
    assert_eq!(far[0], kv_key(N - 50));
    assert_eq!(
        s.get(ns, &kv_key(N - 1)).unwrap().as_deref(),
        Some(&(N - 1).to_le_bytes()[..])
    );
}

#[test]
fn log_pages_run_both_ways() {
    let mut s = seeded();
    let ns = Namespace::message_log();
    let first = s.iter_log_after(ns, None, 50).unwrap();
    assert_eq!(first.len(), 50);
    assert_eq!(first[0], (0, b"m0".to_vec()));
    let far = s.iter_log_after(ns, Some(N - 51), 50).unwrap();
    assert_eq!(far.len(), 50);
    assert_eq!(far[0].0, N - 50);
    let last = s.iter_log_before(ns, None, 50).unwrap();
    assert_eq!(last.len(), 50);
    assert_eq!(last[0].0, N - 1);
    assert_eq!(last[49].0, N - 50);
    let near = s.iter_log_before(ns, Some(51), 50).unwrap();
    assert_eq!(near.len(), 50);
    assert_eq!(near[0].0, 50);
    assert_eq!(near[49].0, 1);
    let all = s.iter_log(ns).unwrap();
    assert_eq!(all.len(), N as usize);
    for (i, (id, payload)) in all.iter().enumerate() {
        assert_eq!(*id, i as u64);
        assert_eq!(payload, &format!("m{i}").into_bytes());
    }
    assert!(s.iter_log(Namespace::media()).unwrap().is_empty());
}

#[test]
fn log_ranges_are_half_open() {
    let mut s = seeded();
    let ns = Namespace::message_log();
    let ids = |v: Vec<(u64, Vec<u8>)>| v.into_iter().map(|(id, _)| id).collect::<Vec<_>>();
    assert_eq!(
        ids(s.iter_log_range(ns, Some(5), Some(8), 50).unwrap()),
        vec![5, 6, 7]
    );
    assert_eq!(
        ids(s.iter_log_range(ns, Some(N - 2), None, 50).unwrap()),
        vec![N - 2, N - 1]
    );
    assert_eq!(
        ids(s.iter_log_range(ns, None, Some(2), 50).unwrap()),
        vec![0, 1]
    );
    assert_eq!(
        ids(s.iter_log_range(ns, Some(5), Some(8), 2).unwrap()),
        vec![5, 6]
    );
    assert!(s.iter_log_range(ns, Some(8), Some(8), 9).unwrap().is_empty());
    assert!(s.iter_log_range(ns, Some(9), Some(8), 9).unwrap().is_empty());
    assert!(s.iter_log_range(ns, None, None, 0).unwrap().is_empty());
    assert!(s.iter_log_after(ns, None, 0).unwrap().is_empty());
    assert!(s.iter_log_before(ns, None, 0).unwrap().is_empty());
}

#[test]
fn the_last_record_under_a_number_is_read() {
    let mut s = fresh(1);
    let ns = Namespace::message_log();
    let mut tx = s.begin_tx();
    tx.append_log(ns, 3, b"old").unwrap();
    tx.append_log(ns, 3, b"new").unwrap();
    tx.append_log(ns, u64::MAX, b"top").unwrap();
    tx.commit().unwrap();
    assert_eq!(s.read_log(ns, 3).unwrap().as_deref(), Some(&b"new"[..]));
    let mut tx = s.begin_tx();
    tx.append_log(ns, 3, b"newer").unwrap();
    tx.commit().unwrap();
    assert_eq!(s.read_log(ns, 3).unwrap().as_deref(), Some(&b"newer"[..]));
    assert_eq!(
        s.read_log(ns, u64::MAX).unwrap().as_deref(),
        Some(&b"top"[..])
    );
    assert_eq!(s.read_log(ns, 4).unwrap(), None);
    assert_eq!(
        s.iter_log(ns).unwrap(),
        vec![(3, b"newer".to_vec()), (u64::MAX, b"top".to_vec())]
    );
}

#[test]
fn records_that_do_not_fit_one_batch_are_split() {
    let mut s = fresh(1);
    let ns = Namespace::message_log();
    // Bytes that do not compress.
    let mut x: u64 = 88172645463325252;
    let mut noise = || {
        (0..1_500)
            .map(|_| {
                x ^= x << 13;
                x ^= x >> 7;
                x ^= x << 17;
                x as u8
            })
            .collect::<Vec<u8>>()
    };
    let payloads: Vec<Vec<u8>> = (0..10).map(|_| noise()).collect();
    let mut tx = s.begin_tx();
    for (i, p) in payloads.iter().enumerate() {
        tx.append_log(ns, i as u64, p).unwrap();
    }
    tx.commit().unwrap();
    for (i, p) in payloads.iter().enumerate() {
        assert_eq!(s.read_log(ns, i as u64).unwrap().as_ref(), Some(p));
    }
    assert!(s.verify_integrity().unwrap().data_batches_verified >= 5);
    // One record that does not fit by itself.
    let mut tx = s.begin_tx();
    let big: Vec<u8> = (0..6).flat_map(|_| noise()).take(8_000).collect();
    tx.append_log(ns, 99, &big).unwrap();
    assert!(matches!(tx.commit(), Err(Error::PayloadTooLarge)));
    assert_eq!(s.read_log(ns, 99).unwrap(), None);
}

#[test]
fn pages_read_backwards_put_end_to_end_are_the_whole() {
    let mut s = seeded();
    let ns = Namespace::message_log();
    let mut ids: Vec<u64> = Vec::new();
    let mut before = None;
    loop {
        let page = s.iter_log_before(ns, before, 37).unwrap();
        if page.is_empty() {
            break;
        }
        before = Some(page[page.len() - 1].0);
        ids.extend(page.iter().map(|(id, _)| *id));
    }
    assert_eq!(ids, (0..N).rev().collect::<Vec<_>>());
}

#[test]
fn a_page_read_backwards_reads_nothing_after_it() {
    let mut s = seeded();
    let ns = Namespace::message_log();
    // The last leaf is gone; a page that ends far before it does not miss it.
    let mut slot = s.find_root(ns).unwrap().unwrap().index_slot;
    loop {
        match s.read_index_node_at_expected(slot, ns).unwrap() {
            hidden_volume::space::index::IndexNode::Leaf(_) => break,
            hidden_volume::space::index::IndexNode::Internal(n) => {
                slot = n.children[n.children.len() - 1].child_slot
            }
        }
    }
    s.file.scrub_slot(slot).unwrap();
    assert!(matches!(s.iter_log(ns), Err(Error::AuthFailed)));
    let page = s.iter_log_before(ns, Some(50), 50).unwrap();
    assert_eq!(page.len(), 50);
    assert_eq!(page[0], (49, b"m49".to_vec()));
    assert_eq!(page[49], (0, b"m0".to_vec()));
}

#[test]
fn pages_of_records_are_parts_of_the_whole() {
    let mut s = seeded();
    let ns = Namespace::message_log();
    let all = s.iter_log(ns).unwrap();
    for (start, end, limit) in [
        (None, None, 20),
        (Some(10), None, 7),
        (None, Some(30), 100),
        (Some(100), Some(150), 20),
        (Some(100), Some(110), 20),
        (Some(9), Some(9), 20),
        (Some(9), Some(3), 20),
        (Some(1), Some(30), 0),
    ] {
        let want: Vec<(u64, Vec<u8>)> = all
            .iter()
            .filter(|(id, _)| start.map_or(true, |s| s <= *id) && end.map_or(true, |e| *id < e))
            .take(limit)
            .cloned()
            .collect();
        assert_eq!(s.iter_log_range(ns, start, end, limit).unwrap(), want);
    }
    let want: Vec<(u64, Vec<u8>)> = all
        .iter()
        .rev()
        .filter(|(id, _)| *id < 77)
        .take(30)
        .cloned()
        .collect();
    assert_eq!(s.iter_log_before(ns, Some(77), 30).unwrap(), want);
    assert_eq!(
        s.iter_log_range(ns, None, None, 30).unwrap(),
        s.iter_log_after(ns, None, 30).unwrap()
    );
}
