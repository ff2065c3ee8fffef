use hidden_volume::error::Error;
use hidden_volume::space::superblock::{Superblock, NO_RECORD};

fn sb(checkpoint_slot: u64) -> Superblock {
    Superblock {
        seq: 7,
        root_slot: 42,
        root_hash: [9u8; 32],
        checkpoint_slot,
    }
}

#[test]
fn short_form_roundtrip_is_48_bytes() {
    let s = sb(NO_RECORD);
    let enc = s.encode();
    assert_eq!(enc.len(), Superblock::ENCODED_LEN);
    assert_eq!(enc.len(), 48);
    let dec = Superblock::decode(&enc).expect("decode short");
    assert_eq!(dec.seq, s.seq);
    assert_eq!(dec.root_slot, s.root_slot);
    assert_eq!(dec.root_hash, s.root_hash);
    assert_eq!(dec.checkpoint_slot, NO_RECORD);
}

#[test]
fn long_form_roundtrip_is_56_bytes() {
    let s = sb(1234);
    let enc = s.encode();
    assert_eq!(enc.len(), Superblock::ENCODED_LEN_WITH_CHECKPOINT);
    assert_eq!(enc.len(), 56);
    let dec = Superblock::decode(&enc).expect("decode long");
    assert_eq!(dec.seq, s.seq);
    assert_eq!(dec.root_slot, s.root_slot);
    assert_eq!(dec.root_hash, s.root_hash);
    assert_eq!(dec.checkpoint_slot, 1234);
}

#[test]
fn long_form_prefix_equals_short_form() {
    let short = sb(NO_RECORD).encode();
    let long = sb(99).encode();
    assert_eq!(&long[..Superblock::ENCODED_LEN], &short[..]);
}

#[test]
fn rejects_noncanonical_long_form_with_no_record() {
    let mut enc = sb(NO_RECORD).encode();
    enc.extend_from_slice(&NO_RECORD.to_le_bytes());
    assert_eq!(enc.len(), Superblock::ENCODED_LEN_WITH_CHECKPOINT);
    let err = Superblock::decode(&enc).expect_err("must reject non-canonical");
    assert!(matches!(err, Error::Malformed(_)));
}

#[test]
fn rejects_wrong_length() {
    for len in [0usize, 1, 47, 49, 55, 57, 64, 128] {
        let buf = vec![0u8; len];
        assert!(Superblock::decode(&buf).is_err(), "len {len} must be rejected");
    }
    assert!(Superblock::is_valid_encoded_len(48));
    assert!(Superblock::is_valid_encoded_len(56));
    assert!(!Superblock::is_valid_encoded_len(47));
    assert!(!Superblock::is_valid_encoded_len(55));
}

#[test]
fn the_fields_lie_where_the_format_puts_them() {
    let enc = sb(0x0102_0304_0506_0708).encode();
    assert_eq!(&enc[0..8], &[7, 0, 0, 0, 0, 0, 0, 0]);
    assert_eq!(&enc[8..16], &[42, 0, 0, 0, 0, 0, 0, 0]);
    assert_eq!(&enc[16..48], &[9u8; 32]);
    assert_eq!(&enc[48..56], &[8, 7, 6, 5, 4, 3, 2, 1]);
}
