use hidden_volume::container::{ContainerFile, LockMode};
use hidden_volume::rng::Entropy;
use hidden_volume::space::index::{IndexNode, Namespace};
use hidden_volume::space::{Space, SpaceKeys};

/// `n` words that look random, the same each time.
fn words(n: usize) -> Entropy {
    let mut x: u64 = 0x2545_f491_4f6c_dd1d;
    let mut out = Vec::with_capacity(n);
    for _ in 0..n {
        x ^= x << 13;
        x ^= x >> 7;
        x ^= x << 17;
        out.push(x);
    }
    Entropy::new(out)
}

fn keys() -> SpaceKeys {
    SpaceKeys {
        container_id: [1u8; 32],
        aead_root: [2u8; 32],
    }
}

/// A fresh space in an empty container.
fn fresh(replicas: u8) -> Space {
    let mut file = ContainerFile::new(Vec::new(), LockMode::Exclusive);
    file.superblock_replicas = replicas;
    Space::create(file, keys(), words(20_000)).unwrap()
}

fn key(i: usize) -> Vec<u8> {
    format!("k{i:08}").into_bytes()
}

type Shape = Vec<(u8, char, Vec<Vec<u8>>)>;

/// Every node of the tree, depth-first: how deep, which kind, which keys.
fn walk(s: &mut Space, slot: u64, ns: Namespace, depth: u8, out: &mut Shape) {
    match s.read_index_node_at_expected(slot, ns).unwrap() {
        IndexNode::Leaf(l) => {
            out.push((
                depth,
                'L',
                l.entries.iter().map(|(k, _)| k.clone()).collect(),
            ));
        }
        IndexNode::Internal(i) => {
            out.push((
                depth,
                'I',
                i.children.iter().map(|c| c.first_key.clone()).collect(),
            ));
            for c in &i.children {
                walk(s, c.child_slot, ns, depth + 1, out);
            }
        }
    }
}

fn shape(s: &mut Space, ns: Namespace) -> Shape {
    let root = s.find_root(ns).unwrap().expect("namespace has a root");
    let mut out = Vec::new();
    walk(s, root.index_slot, ns, 0, &mut out);
    out
}

fn shape_after(build: impl FnOnce(&mut Space)) -> Shape {
    let mut s = fresh(1);
    build(&mut s);
    shape(&mut s, Namespace::settings())
}

fn put_all(s: &mut Space, keys: impl IntoIterator<Item = usize>, vlen: usize) {
    let mut tx = s.begin_tx();
    for i in keys {
        tx.put(Namespace::settings(), &key(i), &vec![b'v'; vlen])
            .unwrap();
    }
    tx.commit().unwrap();
}

#[test]
fn a_namespace_has_one_shape_however_it_was_written() {
    const N: usize = 300;

    let at_once = shape_after(|s| put_all(s, 0..N, 64));
    assert!(
        at_once.len() > 1,
        "the fixture must be big enough to have a shape at all"
    );

    let ascending = shape_after(|s| {
        for i in 0..N {
            put_all(s, [i], 64);
        }
    });
    assert_eq!(ascending, at_once, "one entry per Tx, in order");

    let descending = shape_after(|s| {
        for i in (0..N).rev() {
            put_all(s, [i], 64);
        }
    });
    assert_eq!(descending, at_once, "one entry per Tx, backwards");

    let scattered = shape_after(|s| {
        for step in 0..N {
            put_all(s, [(step * 97) % N], 64);
        }
    });
    assert_eq!(scattered, at_once, "one entry per Tx, scattered");

    let overshoot_then_delete = shape_after(|s| {
        put_all(s, 0..N + 60, 64);
        let mut tx = s.begin_tx();
        for i in N..N + 60 {
            tx.delete(Namespace::settings(), &key(i)).unwrap();
        }
        tx.commit().unwrap();
    });
    assert_eq!(
        overshoot_then_delete, at_once,
        "written wider then trimmed back"
    );

    let interleaved = shape_after(|s| {
        put_all(s, (0..N).step_by(2), 64);
        put_all(s, (1..N).step_by(2), 64);
        let mut tx = s.begin_tx();
        for i in (0..N).step_by(3) {
            tx.delete(Namespace::settings(), &key(i)).unwrap();
        }
        tx.commit().unwrap();
        put_all(s, (0..N).step_by(3), 64);
    });
    assert_eq!(interleaved, at_once, "churned into the same final set");
}

#[test]
fn a_deep_namespace_has_one_shape_however_it_was_written() {
    const N: usize = 20_000;

    let at_once = shape_after(|s| put_all(s, 0..N, 64));
    let levels = at_once.iter().map(|(d, _, _)| *d).max().unwrap();
    assert!(levels >= 2, "fixture must be at least three levels deep");

    let forward_batches = shape_after(|s| {
        for batch in 0..40 {
            put_all(s, (batch * 500)..(batch * 500 + 500), 64);
        }
    });
    assert_eq!(forward_batches, at_once, "40 ascending batches");

    let backward_batches = shape_after(|s| {
        for batch in (0..40).rev() {
            put_all(s, (batch * 500)..(batch * 500 + 500), 64);
        }
    });
    assert_eq!(backward_batches, at_once, "40 descending batches");

    let striped = shape_after(|s| {
        for offset in 0..4 {
            put_all(s, (offset..N).step_by(4), 64);
        }
    });
    assert_eq!(striped, at_once, "four interleaved strides");
}

#[test]
fn growing_past_a_level_and_shrinking_back_restores_the_shape() {
    const SMALL: usize = 400;
    const BIG: usize = 12_000;

    let plain = shape_after(|s| put_all(s, 0..SMALL, 64));
    let there_and_back = shape_after(|s| {
        put_all(s, 0..BIG, 64);
        for batch in (SMALL..BIG).collect::<Vec<_>>().chunks(2_000) {
            let mut tx = s.begin_tx();
            for &i in batch {
                tx.delete(Namespace::settings(), &key(i)).unwrap();
            }
            tx.commit().unwrap();
        }
    });
    assert_eq!(
        there_and_back, plain,
        "a namespace that grew levels and lost them again must not remember having had them"
    );
}

#[test]
fn an_edit_writes_the_path_and_not_the_namespace() {
    let mut s = fresh(1);
    put_all(&mut s, 0..5_000, 64);
    let before = s.file.slot_count();
    put_all(&mut s, [2_500], 65);
    let written = s.file.slot_count() - before;
    assert!(written <= 8, "one edit wrote {written} chunks");
    assert_eq!(s.count(Namespace::settings()).unwrap(), 5_000);
    assert_eq!(
        s.get(Namespace::settings(), &key(2_500)).unwrap().unwrap().len(),
        65
    );
}

/// The shape of these entries when they are written in one go.
fn shape_of(entries: &[(Vec<u8>, Vec<u8>)]) -> Shape {
    shape_after(|s| {
        let mut tx = s.begin_tx();
        for (k, v) in entries {
            tx.put(Namespace::settings(), k, v).unwrap();
        }
        tx.commit().unwrap();
    })
}

fn put_one(s: &mut Space, i: usize, vlen: usize) {
    let mut tx = s.begin_tx();
    tx.put(Namespace::settings(), &key(i), &vec![b'v'; vlen])
        .unwrap();
    tx.commit().unwrap();
}

#[test]
fn a_leaf_takes_in_what_has_come_to_fit() {
    let mut s = fresh(1);
    for i in 0..12 {
        put_one(&mut s, i, 2048);
    }
    for i in 0..12 {
        put_one(&mut s, i, 10);
        let now = s.list(Namespace::settings()).unwrap();
        assert_eq!(
            shape(&mut s, Namespace::settings()),
            shape_of(&now),
            "after shrinking {i}"
        );
    }
    for i in (0..12).rev() {
        put_one(&mut s, i, 1300);
        let now = s.list(Namespace::settings()).unwrap();
        assert_eq!(
            shape(&mut s, Namespace::settings()),
            shape_of(&now),
            "after growing {i}"
        );
    }
    assert!(s.verify_integrity().is_ok());
}

#[test]
fn a_tree_that_loses_whole_leaves_loses_its_levels() {
    for first in [true, false] {
        let mut s = fresh(1);
        put_all(&mut s, 0..600, 64);
        loop {
            let nodes = shape(&mut s, Namespace::settings());
            let leaves: Vec<Vec<Vec<u8>>> = nodes
                .iter()
                .filter(|n| n.1 == 'L')
                .map(|n| n.2.clone())
                .collect();
            if leaves.len() == 1 {
                assert_eq!(nodes.len(), 1, "a single leaf is the root");
                break;
            }
            let goes = if first { &leaves[0] } else { &leaves[1] };
            let mut tx = s.begin_tx();
            for k in goes {
                tx.delete(Namespace::settings(), k).unwrap();
            }
            tx.commit().unwrap();
            let now = s.list(Namespace::settings()).unwrap();
            assert_eq!(shape(&mut s, Namespace::settings()), shape_of(&now));
        }
        assert!(s.verify_integrity().is_ok());
    }
}

#[test]
fn many_small_edits_leave_no_trace_in_the_shape() {
    let mut s = fresh(1);
    let lens = [10usize, 2048, 700, 64, 1500];
    let mut x: u64 = 0x9e37_79b9_7f4a_7c15;
    for round in 0..250 {
        x ^= x << 13;
        x ^= x >> 7;
        x ^= x << 17;
        let i = (x % 60) as usize;
        if x % 7 < 2 {
            let mut tx = s.begin_tx();
            tx.delete(Namespace::settings(), &key(i)).unwrap();
            tx.commit().unwrap();
        } else {
            put_one(&mut s, i, lens[(x >> 20) as usize % lens.len()]);
        }
        let now = s.list(Namespace::settings()).unwrap();
        if now.is_empty() {
            assert!(s.find_root(Namespace::settings()).unwrap().is_none());
        } else {
            assert_eq!(
                shape(&mut s, Namespace::settings()),
                shape_of(&now),
                "after round {round}"
            );
        }
    }
    assert!(s.verify_integrity().is_ok());
}

/// The slots of the leaves, from left to right.
fn leaf_slots(s: &mut Space, slot: u64, out: &mut Vec<u64>) {
    match s
        .read_index_node_at_expected(slot, Namespace::settings())
        .unwrap()
    {
        IndexNode::Leaf(_) => out.push(slot),
        IndexNode::Internal(n) => {
            for c in &n.children {
                leaf_slots(s, c.child_slot, out);
            }
        }
    }
}

#[test]
fn leaves_that_an_edit_does_not_reach_stay_where_they_are() {
    let mut s = fresh(1);
    put_all(&mut s, 0..5_000, 64);
    let root = s.find_root(Namespace::settings()).unwrap().unwrap();
    let mut before = Vec::new();
    leaf_slots(&mut s, root.index_slot, &mut before);
    put_all(&mut s, [2_500], 64 + 1);
    let root = s.find_root(Namespace::settings()).unwrap().unwrap();
    let mut after = Vec::new();
    leaf_slots(&mut s, root.index_slot, &mut after);
    let head = before
        .iter()
        .zip(&after)
        .take_while(|(x, y)| x == y)
        .count();
    let tail = before
        .iter()
        .rev()
        .zip(after.iter().rev())
        .take_while(|(x, y)| x == y)
        .count();
    assert!(head > before.len() / 3, "{head} of {}", before.len());
    assert!(tail > before.len() / 3, "{tail} of {}", before.len());
    assert!(head + tail < before.len());
    assert!(before.len() - head - tail <= 4);
}
