use hidden_volume::space::tree::KeyOps;
use hidden_volume::wipe::{WipedKeys, WipedLogPage, WipedPairs};

#[test]
fn a_kv_page_clears_every_byte_it_still_holds() {
    let mut page = WipedPairs(vec![
        (b"key-one".to_vec(), b"secret-value".to_vec()),
        (b"key-two".to_vec(), b"another-secret".to_vec()),
    ]);

    page.wipe();

    assert_eq!(page.0.len(), 2);
    for (key, value) in &page.0 {
        assert!(key.iter().all(|b| *b == 0), "key survived: {key:?}");
        assert!(value.iter().all(|b| *b == 0), "value survived: {value:?}");
    }
}

#[test]
fn a_key_page_clears_every_byte_it_still_holds() {
    let mut page = WipedKeys(vec![b"contact:alice".to_vec(), b"contact:bob".to_vec()]);

    page.wipe();

    assert_eq!(page.0.len(), 2);
    for key in &page.0 {
        assert!(key.iter().all(|b| *b == 0), "key survived: {key:?}");
        assert!(key.is_empty());
    }
}

#[test]
fn a_log_page_clears_its_payloads() {
    let mut page = WipedLogPage(vec![
        (1, b"a message body".to_vec()),
        (2, b"another one".to_vec()),
    ]);

    page.wipe();

    assert_eq!(page.0.len(), 2);
    for (id, payload) in &page.0 {
        assert!(*id > 0, "ids are not secret and are left alone");
        assert!(
            payload.iter().all(|b| *b == 0),
            "payload survived: {payload:?}"
        );
    }
}

#[test]
fn taking_the_page_hands_it_over_intact_and_leaves_nothing_to_wipe() {
    let mut page = WipedPairs::new(vec![(b"k".to_vec(), b"v".to_vec())]);
    let taken = page.take();
    assert_eq!(taken, vec![(b"k".to_vec(), b"v".to_vec())]);
    assert!(
        page.0.is_empty(),
        "the guard still holds what it handed over"
    );
    drop(page);
    assert_eq!(
        taken,
        vec![(b"k".to_vec(), b"v".to_vec())],
        "the drop reached what had already been handed to the caller"
    );

    let mut keys = WipedKeys::new(vec![b"k".to_vec()]);
    let taken = keys.take();
    assert_eq!(taken, vec![b"k".to_vec()]);
    assert!(keys.0.is_empty());
}

#[test]
fn key_ops_is_the_redacted_type() {
    let mut ops = KeyOps::default();
    ops.insert(b"k".to_vec(), Some(b"a-plaintext-value".to_vec()));

    let printed = ops.shown();
    assert!(
        printed.starts_with("Redacted"),
        "KeyOps prints a full copy of the plaintext: {printed}"
    );
    assert!(
        !printed.contains("a-plaintext-value"),
        "value leaked: {printed}"
    );
}

#[test]
fn operations_keep_one_per_key_in_order() {
    let mut ops = KeyOps::new();
    for k in [b"m", b"c", b"x", b"a"] {
        ops.insert(k.to_vec(), Some(b"1".to_vec()));
    }
    ops.insert(b"c".to_vec(), None);
    ops.insert(b"m".to_vec(), Some(b"2".to_vec()));
    let keys: Vec<&[u8]> = ops.ops.iter().map(|(k, _)| k.as_slice()).collect();
    assert_eq!(keys, vec![&b"a"[..], b"c", b"m", b"x"]);
    assert_eq!(ops.ops[1].1, None);
    assert_eq!(ops.ops[2].1, Some(b"2".to_vec()));
}
