use rpc_monitor::keys::{make_response_key, make_slot_key, read_slot_entry, read_two_part_slot};

#[test]
fn slot_keys_join_nickname_and_slot() {
    assert_eq!(make_slot_key("alpha", 42), b"alpha:42".to_vec());
    assert_eq!(make_slot_key("", 0), b":0".to_vec());
    assert_eq!(make_slot_key("é", u64::MAX), "é:18446744073709551615".as_bytes().to_vec());
}

#[test]
fn response_keys_join_url_and_seconds() {
    assert_eq!(make_response_key("http://a", 1_700_000_000), b"http://a:1700000000".to_vec());
    assert_eq!(make_response_key("u", -5), b"u:-5".to_vec());
    assert_eq!(make_response_key("u", i64::MIN), b"u:-9223372036854775808".to_vec());
}

#[test]
fn slot_keys_read_back() {
    for slot in [0u64, 7, 10, 123_456_789, u64::MAX] {
        let key = make_slot_key("node", slot);
        assert_eq!(read_slot_entry(&key), Some((4, slot)));
        assert_eq!(read_two_part_slot(&key), Some(slot));
    }
}

#[test]
fn both_readings_of_a_key_agree() {
    let keys: [&[u8]; 11] = [
        b"a:1",
        b"a:b:1",
        b":9",
        b"a:",
        b"a",
        b"",
        b"a:+7",
        b"a:-7",
        b"a:1 ",
        b"a:18446744073709551616",
        b"a:1:",
    ];
    let slots = [Some(1), None, Some(9), None, None, None, Some(7), None, None, None, None];
    for (key, slot) in keys.iter().zip(slots) {
        assert_eq!(read_two_part_slot(key), slot);
        assert_eq!(read_slot_entry(key).map(|entry| entry.1), slot);
    }
}

#[test]
fn keys_that_are_no_text_hold_no_slot() {
    assert_eq!(read_slot_entry(b"\xff:5"), None);
    assert_eq!(read_two_part_slot(b"\xff:5"), None);
    assert_eq!(read_slot_entry("ü:5".as_bytes()), Some((2, 5)));
}

#[test]
fn different_names_or_slots_have_different_keys() {
    let names = ["a", "b", "a:1", "ab", ""];
    let slots = [0u64, 1, 11, 111];
    let mut keys = Vec::new();
    for name in names {
        for slot in slots {
            keys.push(make_slot_key(name, slot));
        }
    }
    for i in 0..keys.len() {
        for j in 0..i {
            assert_ne!(keys[i], keys[j]);
        }
    }
}

#[test]
fn earlier_response_keys_sort_first() {
    assert!(make_response_key("u", 1_699_999_999) < make_response_key("u", 1_700_000_000));
    assert!(make_response_key("u", 10) < make_response_key("u", 11));
}
