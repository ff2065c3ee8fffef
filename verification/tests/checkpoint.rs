use byteorder::{ByteOrder, LittleEndian};
use hidden_volume::error::Error;
use hidden_volume::space::checkpoint::{
    merge_carried_pool, CheckpointChunk, CP_ENTRIES_PER_CHUNK, CP_HEADER_LEN,
};
use hidden_volume::space::pool::DecoyPool;
use hidden_volume::space::slots::OwnedSet;
use hidden_volume::space::superblock::NO_RECORD;

#[test]
fn the_header_is_thirty_two_bytes() {
    assert_eq!(
        CP_HEADER_LEN, 32,
        "the header changed size — every offset in format.md moved with it"
    );
}

#[test]
fn a_slot_list_too_large_to_hold_is_refused_rather_than_fatal() {
    let mut small = OwnedSet::default();
    for slot in [1u64, 5, 9] {
        small.insert(slot);
    }
    assert_eq!(small.try_to_sorted_vec().unwrap(), vec![1, 5, 9]);

    let mut v: Vec<u64> = Vec::new();
    assert!(
        v.try_reserve_exact(usize::MAX / 8).is_err(),
        "the fixture's premise is that an over-large reserve FAILS"
    );

    let pool = DecoyPool::with_capacity(0);
    assert!(pool.try_sorted().is_ok());
}

fn pool_of(slots: &[u64]) -> DecoyPool {
    let mut p = DecoyPool::with_capacity(0);
    for &s in slots {
        p.record(s);
    }
    p
}

#[test]
fn a_carried_slot_this_era_owns_is_not_recorded_as_reusable() {
    let owned = OwnedSet::from_slots(&[5u64, 9]);
    let pool = merge_carried_pool(&pool_of(&[2]), pool_of(&[5, 7, 9]), &owned, 100).unwrap();
    assert_eq!(pool, vec![2, 7], "a live slot was recorded as reusable");
}

#[test]
fn a_carried_slot_above_the_high_water_is_not_recorded() {
    let pool =
        merge_carried_pool(&pool_of(&[1]), pool_of(&[3, 42]), &OwnedSet::default(), 10).unwrap();
    assert_eq!(pool, vec![1, 3]);
}

#[test]
fn the_live_pool_and_the_carried_one_are_both_kept() {
    let pool =
        merge_carried_pool(&pool_of(&[4, 1]), pool_of(&[1, 6]), &OwnedSet::default(), 10).unwrap();
    assert_eq!(pool, vec![1, 4, 6]);
}

#[test]
fn checkpoint_chunk_roundtrip() {
    let cc = CheckpointChunk {
        cp_seq: 5,
        cp_high_water: 1000,
        next_slot: 42,
        owned: vec![1, 7, 9, 900],
        pool: vec![2, 400],
    };
    let enc = cc.encode().unwrap();
    let dec = CheckpointChunk::decode(&enc).unwrap();
    assert_eq!(dec.cp_seq, 5);
    assert_eq!(dec.cp_high_water, 1000);
    assert_eq!(dec.next_slot, 42);
    assert_eq!(dec.owned, vec![1, 7, 9, 900]);
    assert_eq!(dec.pool, vec![2, 400]);
}

#[test]
fn the_two_lists_do_not_bleed_into_each_other() {
    let cc = CheckpointChunk {
        cp_seq: 3,
        cp_high_water: 100,
        next_slot: NO_RECORD,
        owned: vec![10, 11, 12, 13, 14],
        pool: vec![90],
    };
    let dec = CheckpointChunk::decode(&cc.encode().unwrap()).unwrap();
    assert_eq!(dec.owned, vec![10, 11, 12, 13, 14]);
    assert_eq!(dec.pool, vec![90]);

    let cc = CheckpointChunk {
        cp_seq: 3,
        cp_high_water: 100,
        next_slot: NO_RECORD,
        owned: vec![7],
        pool: vec![80, 81, 82, 83],
    };
    let dec = CheckpointChunk::decode(&cc.encode().unwrap()).unwrap();
    assert_eq!(dec.owned, vec![7]);
    assert_eq!(dec.pool, vec![80, 81, 82, 83]);
}

#[test]
fn checkpoint_chunk_empty_owned() {
    let cc = CheckpointChunk {
        cp_seq: 1,
        cp_high_water: 0,
        next_slot: NO_RECORD,
        owned: vec![],
        pool: vec![],
    };
    let enc = cc.encode().unwrap();
    assert_eq!(enc.len(), CP_HEADER_LEN);
    let dec = CheckpointChunk::decode(&enc).unwrap();
    assert!(dec.owned.is_empty());
    assert!(dec.pool.is_empty());
    assert_eq!(dec.next_slot, NO_RECORD);
}

fn small() -> Vec<u8> {
    CheckpointChunk {
        cp_seq: 1,
        cp_high_water: 10,
        next_slot: NO_RECORD,
        owned: vec![3],
        pool: vec![],
    }
    .encode()
    .unwrap()
}

#[test]
fn checkpoint_chunk_rejects_trailing_slack() {
    let mut enc = CheckpointChunk {
        cp_seq: 1,
        cp_high_water: 10,
        next_slot: NO_RECORD,
        owned: vec![3],
        pool: vec![4],
    }
    .encode()
    .unwrap();
    enc.push(0);
    assert!(CheckpointChunk::decode(&enc).is_err());
}

#[test]
fn checkpoint_chunk_rejects_overlarge_count() {
    let mut enc = small();
    LittleEndian::write_u32(&mut enc[24..28], u32::MAX);
    assert!(CheckpointChunk::decode(&enc).is_err());
}

#[test]
fn checkpoint_chunk_rejects_two_counts_that_only_overflow_together() {
    assert_eq!(
        CP_ENTRIES_PER_CHUNK, 501,
        "the payload budget moved; recheck the literals below"
    );
    let mut enc = small();
    LittleEndian::write_u32(&mut enc[24..28], 300);
    LittleEndian::write_u32(&mut enc[28..32], 300);
    assert!(CheckpointChunk::decode(&enc).is_err());
}

#[test]
fn an_overfull_chunk_is_not_written() {
    let cc = CheckpointChunk {
        cp_seq: 1,
        cp_high_water: 10,
        next_slot: NO_RECORD,
        owned: (0..300).collect(),
        pool: (300..502).collect(),
    };
    assert!(matches!(
        cc.encode(),
        Err(Error::Internal("checkpoint chunk overfull"))
    ));
    assert!(matches!(
        CheckpointChunk::decode(&[0u8; 31]),
        Err(Error::Malformed("checkpoint chunk shorter than header"))
    ));
}

#[test]
fn the_counts_lie_where_the_format_puts_them() {
    let enc = CheckpointChunk {
        cp_seq: 1,
        cp_high_water: 2,
        next_slot: 3,
        owned: vec![4],
        pool: vec![5, 6],
    }
    .encode()
    .unwrap();
    assert_eq!(LittleEndian::read_u32(&enc[24..28]), 1);
    assert_eq!(LittleEndian::read_u32(&enc[28..32]), 2);
    assert_eq!(LittleEndian::read_u64(&enc[32..40]), 4);
    assert_eq!(enc.len(), 32 + 24);
}

#[test]
fn a_live_slot_is_filtered_even_where_nothing_is_carried() {
    let owned = OwnedSet::from_slots(&[5u64]);
    let pool = merge_carried_pool(&pool_of(&[5, 200]), DecoyPool::with_capacity(0), &owned, 100);
    assert_eq!(pool.unwrap(), Vec::<u64>::new());
}
