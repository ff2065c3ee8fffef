use hidden_volume::error::Error;
use hidden_volume::rng::Entropy;
use hidden_volume::space::pool::{uniform_below, DecoyPool};
use hidden_volume::space::slots::OwnedSet;

/// `n` words that look random, the same each time.
fn words(n: usize) -> Entropy {
    let mut x: u64 = 0x9e37_79b9_7f4a_7c15;
    let mut out = Vec::with_capacity(n);
    for _ in 0..n {
        x ^= x << 13;
        x ^= x >> 7;
        x ^= x << 17;
        out.push(x);
    }
    Entropy::new(out)
}

#[test]
fn a_failed_draw_leaves_the_pool_whole() {
    let slots = vec![1u64, 3, 5, 7, 9, 11, 13, 15];
    let mut p = DecoyPool::from_recorded(slots.clone(), 64);

    assert_eq!(p.sample_distinct(4, &mut words(64)).unwrap().len(), 4);
    assert_eq!(p.sorted(), slots, "sampling is not supposed to retire");

    // One word: the second draw fails.
    let mut short = words(1);
    let err = p.sample_distinct(4, &mut short);
    assert!(matches!(err, Err(Error::Rng)), "the supply never ran out");
    assert_eq!(
        p.sorted(),
        slots,
        "a failed draw kept the slots it had already drawn"
    );
    assert_eq!(p.len(), slots.len(), "len disagrees with membership");
}

#[test]
fn the_writer_filter_cuts_on_the_right_bit_in_every_word() {
    let mut p = DecoyPool::with_capacity(0);
    for s in [1u64, 63, 64, 127, 128, 200, 255, 256, 4096] {
        p.record(s);
    }
    let owned = OwnedSet::from_slots(&[64u64, 1 << 20]);
    p.retain_below_and_unowned(200, &owned);
    assert_eq!(p.sorted(), vec![1, 63, 127, 128]);
    assert_eq!(p.len(), 4, "len disagrees with membership");
}

#[test]
fn a_high_water_on_a_word_boundary_keeps_the_slot_below_it() {
    let mut p = DecoyPool::with_capacity(0);
    for s in [63u64, 64, 65] {
        p.record(s);
    }
    p.retain_below_and_unowned(64, &OwnedSet::default());
    assert_eq!(p.sorted(), vec![63]);
}

#[test]
fn recorded_entries_past_the_end_are_dropped() {
    let p = DecoyPool::from_recorded(vec![1, 5, 9, 12], 10);
    assert_eq!(p.sorted(), vec![1, 5, 9]);
}

#[test]
fn duplicates_collapse() {
    let mut p = DecoyPool::from_recorded(vec![3, 3, 3, 7], 100);
    assert_eq!(p.sorted(), vec![3, 7]);
    p.insert(3);
    p.insert(11);
    assert_eq!(p.sorted(), vec![3, 7, 11]);
    assert_eq!(p.len(), 3);
}

#[test]
fn a_slot_past_the_seeded_capacity_is_kept() {
    let mut p = DecoyPool::from_recorded(vec![1], 8);
    p.insert(4096);
    assert_eq!(p.sorted(), vec![1, 4096]);
    assert_eq!(p.len(), 2);
}

#[test]
fn owned_slots_leave_the_pool() {
    let mut p = DecoyPool::from_recorded(vec![1, 2, 3, 4, 5], 100);
    p.subtract_owned(&OwnedSet::from_slots(&[4u64, 2]));
    assert_eq!(p.sorted(), vec![1, 3, 5]);
    assert_eq!(p.len(), 3);
}

#[test]
fn take_removes_and_sampling_does_not() {
    let mut rng = words(64);
    let mut p = DecoyPool::from_recorded(vec![8], 100);
    assert_eq!(p.sample_distinct(1, &mut rng).unwrap(), vec![8]);
    assert_eq!(p.len(), 1, "sampling must leave the slot in the pool");
    assert_eq!(p.take(&mut rng).unwrap(), Some(8));
    assert_eq!(p.len(), 0);
    assert_eq!(p.take(&mut rng).unwrap(), None);
    assert!(p.sample_distinct(3, &mut rng).unwrap().is_empty());
}

#[test]
fn sampling_never_repeats_a_slot() {
    let mut rng = words(4096);
    let mut p = DecoyPool::from_recorded(vec![10, 11, 12], 100);
    for _ in 0..500 {
        let got = p.sample_distinct(3, &mut rng).unwrap();
        let uniq: std::collections::BTreeSet<u64> = got.iter().copied().collect();
        assert_eq!(uniq.len(), 3, "sample repeated a slot: {got:?}");
        assert_eq!(p.len(), 3, "sampling changed pool membership");
    }
    let got = p.sample_distinct(9, &mut rng).unwrap();
    assert_eq!(got.len(), 3);
}

#[test]
fn draws_cover_the_whole_pool() {
    let mut rng = words(8192);
    let mut p = DecoyPool::from_recorded((0..16).collect(), 100);
    let mut seen = std::collections::BTreeSet::new();
    for _ in 0..2000 {
        seen.extend(p.sample_distinct(1, &mut rng).unwrap());
    }
    assert_eq!(
        seen.len(),
        16,
        "some pool slots are unreachable by a draw: {seen:?}"
    );
}

#[test]
fn uniform_below_stays_in_range() {
    let mut rng = words(4096);
    for n in [1usize, 2, 3, 7, 1000] {
        for _ in 0..200 {
            assert!(uniform_below(n, &mut rng).unwrap() < n);
        }
    }
}

#[test]
fn a_draw_follows_the_words_it_is_given() {
    assert_eq!(uniform_below(10, &mut Entropy::new(vec![23])).unwrap(), 3);
    // The last partial stretch of numbers is passed over.
    assert_eq!(
        uniform_below(10, &mut Entropy::new(vec![u64::MAX, 14])).unwrap(),
        4
    );
    assert!(matches!(
        uniform_below(10, &mut Entropy::new(Vec::new())),
        Err(Error::Rng)
    ));
}

#[test]
fn recording_does_not_drift_and_inserting_does() {
    let mut p = DecoyPool::from_recorded(vec![1, 2], 10);
    assert_eq!(p.drift(), 0);
    p.record(3);
    assert_eq!(p.drift(), 0);
    p.insert(3);
    assert_eq!(p.drift(), 0);
    p.insert(4);
    assert_eq!(p.drift(), 1);
    p.take(&mut words(8)).unwrap();
    assert_eq!(p.drift(), 2);
    p.clear_drift();
    assert_eq!(p.drift(), 0);
}

#[test]
fn a_sample_follows_the_words_it_is_given() {
    let mut p = DecoyPool::from_recorded(vec![1, 3, 5, 7], 10);
    // The third of four, then the second of the three that are left.
    let mut rng = Entropy::new(vec![6, 4, 9]);
    assert_eq!(p.sample_distinct(2, &mut rng).unwrap(), vec![5, 3]);
    assert_eq!(rng.draw().unwrap(), 9, "two words were enough");
    assert_eq!(p.sorted(), vec![1, 3, 5, 7]);
}
