use hidden_volume::error::Error;
use hidden_volume::space::walk::{
    dense_threshold, max_depth_for_budget, TreeWalk, Visited, MAX_OPEN_SCAN_CHUNKS,
    MIN_HASHED_SLOTS,
};

#[test]
fn a_second_visit_to_a_slot_is_rejected() {
    let mut w = TreeWalk::new(16, 4096);
    w.visit(7, 0).unwrap();
    w.visit(8, 1).unwrap();
    let err = w.visit(7, 2).unwrap_err();
    assert!(matches!(err, Error::Malformed(d) if d.contains("more than once")));
}

#[test]
fn the_budget_permits_exactly_its_count_then_stops() {
    let mut w = TreeWalk::new(2, 4096);
    w.visit(1, 0).unwrap();
    w.visit(2, 0).unwrap();
    let err = w.visit(3, 0).unwrap_err();
    assert!(matches!(err, Error::Malformed(d) if d.contains("traversal budget")));
}

#[test]
fn a_zero_budget_admits_nothing() {
    let mut w = TreeWalk::new(0, 4096);
    assert!(w.visit(1, 0).is_err());
    assert!(w.visit(2, 0).is_err());
}

#[test]
fn the_verify_variant_names_the_slot() {
    let mut w = TreeWalk::new(4, 4096);
    w.visit_for_verify(9, 0).unwrap();
    let err = w.visit_for_verify(9, 0).unwrap_err();
    match err {
        Error::IntegrityFailure { detail, slot } => {
            assert_eq!(slot, 9);
            assert!(detail.contains("more than once"));
        }
        other => panic!("expected IntegrityFailure, got {other:?}"),
    }
}

#[test]
fn depth_is_bounded_by_what_the_budget_could_hold() {
    let mut w = TreeWalk::new(3, 4096);
    w.visit(1, 0).unwrap();
    w.visit(2, 1).unwrap();
    let err = w.visit(3, 2).unwrap_err();
    assert!(
        matches!(err, Error::Malformed(d) if d.contains("deeper than")),
        "a 3-chunk space cannot hold a depth-2 tree"
    );
}

#[test]
fn a_bigger_budget_buys_the_depth_it_pays_for() {
    let mut w = TreeWalk::new(16, 4096);
    for depth in 0..=2 {
        w.visit(depth as u64 + 100, depth).unwrap();
    }
    let err = w.visit(200, 3).unwrap_err();
    assert!(matches!(err, Error::Malformed(d) if d.contains("deeper than")));
}

#[test]
fn a_pointer_past_the_end_of_the_file_is_refused() {
    let mut w = TreeWalk::new(64, 64);
    let err = w.visit(64, 0).unwrap_err();
    assert!(matches!(err, Error::Malformed(d) if d.contains("outside the container")));
    w.visit(63, 0).unwrap();

    let mut v = TreeWalk::new(64, 64);
    match v.visit_for_verify(u64::MAX, 0).unwrap_err() {
        Error::IntegrityFailure { detail, slot } => {
            assert_eq!(slot, u64::MAX);
            assert!(detail.contains("outside the container"));
        }
        other => panic!("expected IntegrityFailure, got {other:?}"),
    }
}

#[test]
fn the_visited_set_is_sized_by_the_file_not_by_the_walk() {
    let slots = MAX_OPEN_SCAN_CHUNKS;
    let promote_at = dense_threshold(slots) as u64;
    let mut w = TreeWalk::new(slots as usize, slots);
    for slot in 0..promote_at * 4 {
        w.visit(slot, 0).unwrap();
    }
    let bytes = w.visited_heap_bytes();
    assert_eq!(
        bytes,
        (slots / 8) as usize,
        "one bit per slot of file and nothing else"
    );
    for slot in promote_at * 4..promote_at * 16 {
        w.visit(slot, 0).unwrap();
    }
    assert_eq!(w.visited_heap_bytes(), bytes);

    const HASHED_BYTES_PER_MEMBER: usize = 18;
    assert!(
        bytes * 100 < HASHED_BYTES_PER_MEMBER * slots as usize,
        "a full walk of a {slots}-slot container holds {bytes} bytes; hashed it would be {}",
        HASHED_BYTES_PER_MEMBER * slots as usize
    );
}

#[test]
fn a_point_read_does_not_allocate_the_container() {
    let slots = MAX_OPEN_SCAN_CHUNKS;
    let mut w = TreeWalk::new(slots as usize, slots);
    for depth in 0..=max_depth_for_budget(slots as usize) {
        w.visit(u64::from(depth) + 1, depth).unwrap();
    }
    let bytes = w.visited_heap_bytes();
    assert!(
        bytes < 1024,
        "a descent of {} chunks held {bytes} bytes; this container's bitmap is {}",
        max_depth_for_budget(slots as usize) + 1,
        slots / 8
    );
}

#[test]
fn the_switch_to_a_bitmap_keeps_every_slot_it_had() {
    let slots: u64 = 4096;
    let promote_at = dense_threshold(slots) as u64;
    assert_eq!(promote_at, MIN_HASHED_SLOTS as u64);

    let mut w = TreeWalk::new(slots as usize, slots);
    for slot in 0..promote_at + 8 {
        w.visit(slot, 0).unwrap();
    }
    assert!(
        matches!(w.visited, Visited::Dense(_)),
        "{} admitted slots should have crossed the {promote_at}-slot threshold",
        promote_at + 8
    );
    for slot in 0..promote_at + 8 {
        assert!(w.has_visited(slot), "slot {slot} was lost in the switch");
        let err = w.visit(slot, 0).unwrap_err();
        assert!(
            matches!(err, Error::Malformed(d) if d.contains("more than once")),
            "slot {slot} was admitted twice"
        );
    }
}

#[test]
fn the_threshold_follows_the_file_size() {
    assert_eq!(dense_threshold(0), MIN_HASHED_SLOTS);
    assert_eq!(
        dense_threshold(512 * MIN_HASHED_SLOTS as u64),
        MIN_HASHED_SLOTS
    );
    assert_eq!(dense_threshold(1 << 20), (1 << 20) / 512);
    let slots = MAX_OPEN_SCAN_CHUNKS;
    let hashed_at_switch = dense_threshold(slots) * 28;
    assert!(
        hashed_at_switch < (slots / 8) as usize,
        "the hashed set costs {hashed_at_switch} bytes at the switch, over the {} the bitmap costs",
        slots / 8
    );
}

#[test]
fn the_depth_bound_matches_the_minimum_tree_that_fits() {
    let steps: [(u8, usize); 12] = [
        (1, 3),
        (2, 8),
        (3, 25),
        (4, 90),
        (5, 347),
        (6, 1_372),
        (7, 5_469),
        (8, 21_854),
        (9, 87_391),
        (10, 349_536),
        (11, 1_398_113),
        (12, 5_592_418),
    ];
    assert_eq!(max_depth_for_budget(0), 0);
    assert_eq!(max_depth_for_budget(1), 0);
    for (depth, min_chunks) in steps {
        assert_eq!(
            max_depth_for_budget(min_chunks),
            depth,
            "{min_chunks} chunks is exactly a depth-{depth} tree"
        );
        assert_eq!(
            max_depth_for_budget(min_chunks - 1),
            depth - 1,
            "one chunk short of a depth-{depth} tree"
        );
    }
    assert_eq!(
        max_depth_for_budget(MAX_OPEN_SCAN_CHUNKS as usize),
        12,
        "64 GiB of container is a depth-12 tree at the very most"
    );
    assert!(max_depth_for_budget(usize::MAX) < 40);
}
