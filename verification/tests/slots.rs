use hidden_volume::space::slots::{slots_in_word, OwnedSet};

#[test]
fn a_slot_past_the_capacity_grows_the_set() {
    let mut s = OwnedSet::with_capacity(64);
    assert!(s.insert(1_000_000));
    assert!(s.contains(1_000_000));
    assert_eq!(s.len(), 1);
}

#[test]
fn inserting_twice_counts_once() {
    let mut s = OwnedSet::with_capacity(64);
    assert!(s.insert(7));
    assert!(!s.insert(7));
    assert_eq!(s.len(), 1);
    assert_eq!(s.len(), 1);
}

#[test]
fn iteration_is_ascending_and_complete() {
    let slots = [0u64, 1, 63, 64, 65, 4095, 4096];
    let s = OwnedSet::from_slots(&slots);
    assert_eq!(s.to_sorted_vec(), slots);
    assert_eq!(s.len(), slots.len());
}

#[test]
fn retain_keeps_the_count_honest() {
    let all: Vec<u64> = (0u64..200).collect();
    let mut s = OwnedSet::from_slots(&all);
    s.retain(|slot| slot % 2 == 0);
    assert_eq!(s.len(), 100);
    assert!(s.contains(198));
    assert!(!s.contains(199));
    assert_eq!(s.to_sorted_vec().len(), 100);
}

#[test]
fn a_union_counts_the_overlap_once() {
    let mut a = OwnedSet::from_slots(&[1u64, 2, 3]);
    let b = OwnedSet::from_slots(&[3u64, 300]);
    a.union_from(&b);
    assert_eq!(a.to_sorted_vec(), vec![1, 2, 3, 300]);
    assert_eq!(a.len(), 4);
}

#[test]
fn walking_by_word_sees_every_slot() {
    let s = OwnedSet::from_slots(&[0u64, 63, 64, 130, 4097]);
    let mut walked = Vec::new();
    for w in 0..s.word_count() {
        walked.extend(slots_in_word(w, s.word(w)));
    }
    assert_eq!(walked, s.to_sorted_vec());
}

#[test]
fn debug_does_not_name_the_slots() {
    let s = OwnedSet::from_slots(&[17u64, 4242]);
    let shown = s.shown();
    assert!(!shown.contains("17"), "{shown}");
    assert!(!shown.contains("4242"), "{shown}");
    assert!(shown.contains('2'), "{shown} should still carry the count");
}

#[test]
fn the_count_is_shown_in_decimal() {
    let all: Vec<u64> = (0u64..1203).collect();
    assert_eq!(OwnedSet::from_slots(&all).shown(), "OwnedSet(1203 slots)");
    assert_eq!(OwnedSet::with_capacity(0).shown(), "OwnedSet(0 slots)");
}

#[test]
fn a_slot_that_is_removed_is_gone() {
    let mut s = OwnedSet::from_slots(&[5u64, 70]);
    assert!(s.remove(70));
    assert!(!s.remove(70));
    assert!(!s.remove(1 << 40));
    assert_eq!(s.to_sorted_vec(), vec![5]);
    s.remove_all(&OwnedSet::from_slots(&[5u64, 6]));
    assert!(s.is_empty());
}

#[test]
fn selecting_by_rank_follows_the_order() {
    let slots = [0u64, 1, 63, 64, 65, 127, 128, 200, 511];
    let s = OwnedSet::from_slots(&slots);
    for (rank, want) in slots.iter().enumerate() {
        assert_eq!(s.select(rank), Some(*want));
    }
    assert_eq!(s.select(slots.len()), None);
}

#[test]
fn a_list_needs_room_and_an_empty_one_needs_none() {
    let empty = OwnedSet::with_capacity(100);
    assert_eq!(empty.try_to_sorted_vec().unwrap(), Vec::<u64>::new());
    let mut set = OwnedSet::with_capacity(100);
    for slot in [70u64, 3, 64] {
        set.insert(slot);
    }
    assert_eq!(set.try_to_sorted_vec().unwrap(), vec![3, 64, 70]);
    assert_eq!(set.sorted_in(Ok(Vec::new())).unwrap(), vec![3, 64, 70]);
    let refusal = Vec::<u64>::new().try_reserve(usize::MAX).unwrap_err();
    assert_eq!(set.sorted_in(Err(refusal.clone())), Err(refusal));
}
