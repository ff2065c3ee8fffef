use hidden_volume::space::log::batch_footprint;
use hidden_volume::space::log_iter::{BatchCache, DecodedBatch};

/// `n` records of `payload_len` bytes each, ids `0..n`.
fn records(n: usize, payload_len: usize) -> DecodedBatch {
    (0..n).map(|i| (i as u64, vec![0xAB; payload_len])).collect()
}

#[test]
fn resident_bytes_never_exceed_the_budget() {
    let budget = 64 * 1024;
    let mut c = BatchCache::new(1024, budget);
    for slot in 0..200u64 {
        c.insert(slot, records(4, 1024));
        assert!(
            c.bytes <= budget,
            "slot {slot}: {} bytes resident, budget {budget}",
            c.bytes
        );
    }
    assert!(c.entries.len() < 200, "nothing was evicted");
}

#[test]
fn the_entry_cap_bounds_batches_that_weigh_nothing() {
    let mut c = BatchCache::new(8, 1024 * 1024);
    for slot in 0..100u64 {
        c.insert(slot, Vec::new());
    }
    assert_eq!(c.entries.len(), 8);
}

#[test]
fn an_oversized_batch_is_not_admitted() {
    let mut c = BatchCache::new(16, 8 * 1024);
    c.insert(1, records(1, 512));
    let resident_before = c.entries.len();
    c.insert(2, records(1, 64 * 1024));
    assert_eq!(c.entries.len(), resident_before, "the small entry survived");
    assert!(c.get(2).is_none(), "the oversized batch was not cached");
    assert!(c.get(1).is_some());
}

#[test]
fn eviction_drops_the_least_recently_used_entry() {
    let one = batch_footprint(&records(1, 1000));
    let mut c = BatchCache::new(16, one * 3 + one / 2);

    c.insert(1, records(1, 1000));
    c.insert(2, records(1, 1000));
    c.insert(3, records(1, 1000));
    assert!(c.get(1).is_some());
    assert!(c.get(3).is_some());

    c.insert(4, records(1, 1000));
    assert!(c.get(2).is_none(), "the least recently used should go");
    assert!(c.get(1).is_some());
    assert!(c.get(3).is_some());
    assert!(c.get(4).is_some());
}

#[test]
fn re_inserting_a_resident_slot_does_not_double_count() {
    let mut c = BatchCache::new(16, 1024 * 1024);
    c.insert(7, records(2, 500));
    let after_first = c.bytes;
    c.insert(7, records(2, 500));
    assert_eq!(c.bytes, after_first);
    assert_eq!(c.entries.len(), 1);
}

#[test]
fn a_cached_batch_is_handed_back_as_it_was() {
    let mut c = BatchCache::new(4, 4096);
    c.insert(3, vec![(9, b"nine".to_vec())]);
    assert_eq!(c.get(3).unwrap(), &vec![(9, b"nine".to_vec())]);
    assert!(c.get(4).is_none());
    let mut none = BatchCache::new(0, 4096);
    none.insert(1, Vec::new());
    assert!(none.get(1).is_none());
}
