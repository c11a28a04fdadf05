use pg_hstore::codec::{decode, encode, encode_checked, DecodeError};
use pg_hstore::map::Hstore;
use pg_hstore::render::{render_literal, render_literal_checked};

fn decode_err(bytes: &[u8]) -> DecodeError {
    match decode(bytes) {
        Ok(_) => panic!("expected a decode failure"),
        Err(e) => e,
    }
}

fn wire_entry(key: &str, value: Option<&str>) -> Vec<u8> {
    let mut out = Vec::new();
    out.extend_from_slice(&(key.len() as i32).to_be_bytes());
    out.extend_from_slice(key.as_bytes());
    match value {
        Some(v) => {
            out.extend_from_slice(&(v.len() as i32).to_be_bytes());
            out.extend_from_slice(v.as_bytes());
        }
        None => {
            out.extend_from_slice(&(-1i32).to_be_bytes());
        }
    }
    out
}

fn wire(count: i32, entries: &[Vec<u8>]) -> Vec<u8> {
    let mut out = Vec::new();
    out.extend_from_slice(&count.to_be_bytes());
    for e in entries {
        out.extend_from_slice(e);
    }
    out
}

#[test]
fn round_trip_two_entries() {
    let mut m = Hstore::new();
    m.insert("alpha".to_string(), "one".to_string());
    m.insert("beta".to_string(), "two".to_string());
    let bytes = encode(&m);
    let back = decode(&bytes).expect("round trip must decode");
    assert!(back.map_eq(&m));
    assert_eq!(back.get("alpha"), Some(&"one".to_string()));
    assert_eq!(back.get("beta"), Some(&"two".to_string()));
}

#[test]
fn round_trip_unicode() {
    let mut m = Hstore::new();
    m.insert("clé".to_string(), "où".to_string());
    m.insert("鍵".to_string(), "値です".to_string());
    let bytes = encode(&m);
    let back = decode(&bytes).expect("unicode round trip must decode");
    assert!(back.map_eq(&m));
    assert_eq!(back.get("鍵"), Some(&"値です".to_string()));
}

#[test]
fn round_trip_empty_map() {
    let m = Hstore::new();
    let bytes = encode(&m);
    assert_eq!(bytes, vec![0, 0, 0, 0]);
    let back = decode(&bytes).expect("empty map must decode");
    assert!(back.is_empty());
}

#[test]
fn encode_exact_bytes_one_entry() {
    let mut m = Hstore::new();
    m.insert("a".to_string(), "b".to_string());
    let bytes = encode(&m);
    assert_eq!(
        bytes,
        vec![0, 0, 0, 1, 0, 0, 0, 1, b'a', 0, 0, 0, 1, b'b']
    );
}

#[test]
fn encode_checked_matches_encode() {
    let mut m = Hstore::new();
    m.insert("k".to_string(), "v".to_string());
    assert_eq!(encode_checked(&m), Some(encode(&m)));
}

#[test]
fn null_value_entry_is_dropped() {
    let entries = [wire_entry("a", None), wire_entry("b", Some("c"))];
    let bytes = wire(2, &entries);
    let m = decode(&bytes).expect("null entry must be skipped, not fail");
    assert_eq!(m.len(), 1);
    assert_eq!(m.get("a"), None);
    assert_eq!(m.get("b"), Some(&"c".to_string()));
}

#[test]
fn only_null_entries_give_empty_map() {
    let entries = [wire_entry("a", None), wire_entry("b", None)];
    let bytes = wire(2, &entries);
    let m = decode(&bytes).expect("null-only buffer must decode");
    assert!(m.is_empty());
}

#[test]
fn multibyte_key_length_is_in_bytes() {
    // "é" is two bytes in UTF-8, so its length prefix is 2.
    let bytes = vec![0, 0, 0, 1, 0, 0, 0, 2, 0xC3, 0xA9, 0, 0, 0, 1, b'x'];
    let m = decode(&bytes).expect("two-byte key must decode");
    assert_eq!(m.get("é"), Some(&"x".to_string()));
    assert_eq!(encode(&m), bytes);
}

#[test]
fn negative_count_fails() {
    let bytes = vec![0xFF, 0xFF, 0xFF, 0xFF];
    assert_eq!(decode_err(&bytes), DecodeError::InvalidEntryCount);
}

#[test]
fn trailing_byte_fails() {
    let entries = [wire_entry("a", Some("b"))];
    let mut bytes = wire(1, &entries);
    bytes.push(0x00);
    assert_eq!(decode_err(&bytes), DecodeError::InvalidBufferSize);
}

#[test]
fn invalid_utf8_key_fails() {
    let bytes = vec![0, 0, 0, 1, 0, 0, 0, 1, 0xFF];
    assert_eq!(decode_err(&bytes), DecodeError::InvalidUtf8);
}

#[test]
fn invalid_utf8_value_fails() {
    let bytes = vec![0, 0, 0, 1, 0, 0, 0, 1, b'k', 0, 0, 0, 1, 0xC0];
    assert_eq!(decode_err(&bytes), DecodeError::InvalidUtf8);
}

#[test]
fn negative_key_length_fails() {
    let bytes = vec![0, 0, 0, 1, 0xFF, 0xFF, 0xFF, 0xFF];
    assert_eq!(decode_err(&bytes), DecodeError::InvalidKeyLength);
}

#[test]
fn truncated_key_bytes_fail() {
    let bytes = vec![0, 0, 0, 1, 0, 0, 0, 5, b'a', b'b'];
    assert_eq!(decode_err(&bytes), DecodeError::TruncatedBuffer);
}

#[test]
fn truncated_value_bytes_fail() {
    let bytes = vec![0, 0, 0, 1, 0, 0, 0, 1, b'a', 0, 0, 0, 9, b'b'];
    assert_eq!(decode_err(&bytes), DecodeError::TruncatedBuffer);
}

#[test]
fn missing_length_prefix_fails() {
    let bytes = vec![0, 0, 0, 1, 0, 0];
    assert_eq!(decode_err(&bytes), DecodeError::TruncatedBuffer);
    let short = vec![0, 0];
    assert_eq!(decode_err(&short), DecodeError::TruncatedBuffer);
}

#[test]
fn duplicate_wire_keys_last_wins() {
    let entries = [wire_entry("x", Some("1")), wire_entry("x", Some("2"))];
    let bytes = wire(2, &entries);
    let m = decode(&bytes).expect("duplicate keys are allowed on the wire");
    assert_eq!(m.len(), 1);
    assert_eq!(m.get("x"), Some(&"2".to_string()));
}

#[test]
fn literal_single_entry() {
    let mut m = Hstore::new();
    m.insert("a".to_string(), "b".to_string());
    assert_eq!(render_literal(&m), "'a=>b'::hstore");
}

#[test]
fn literal_two_entries_joined_by_comma() {
    let mut m = Hstore::new();
    m.insert("a".to_string(), "1".to_string());
    m.insert("b".to_string(), "2".to_string());
    assert_eq!(render_literal(&m), "'a=>1,b=>2'::hstore");
}

#[test]
fn literal_checked_empty_is_none() {
    let m = Hstore::new();
    assert_eq!(render_literal_checked(&m), None);
    let mut one = Hstore::new();
    one.insert("k".to_string(), "v".to_string());
    assert_eq!(
        render_literal_checked(&one),
        Some("'k=>v'::hstore".to_string())
    );
}

#[test]
fn insert_overwrites_and_returns_previous() {
    let mut m = Hstore::new();
    assert_eq!(m.insert("k".to_string(), "v1".to_string()), None);
    assert_eq!(
        m.insert("k".to_string(), "v2".to_string()),
        Some("v1".to_string())
    );
    assert_eq!(m.get("k"), Some(&"v2".to_string()));
    assert_eq!(m.len(), 1);
}

#[test]
fn index_returns_present_value() {
    let mut m = Hstore::new();
    m.insert("k".to_string(), "v".to_string());
    assert_eq!(m.index("k"), &"v".to_string());
}

#[test]
fn get_mut_rewrites_value_in_place() {
    let mut m = Hstore::new();
    m.insert("k".to_string(), "old".to_string());
    match m.get_mut("k") {
        Some(v) => *v = "new".to_string(),
        None => panic!("key must be present"),
    }
    assert_eq!(m.get("k"), Some(&"new".to_string()));
    assert_eq!(m.get_mut("missing"), None);
}

#[test]
fn remove_deletes_entry() {
    let mut m = Hstore::new();
    m.insert("k".to_string(), "v".to_string());
    assert_eq!(m.remove("missing"), None);
    assert_eq!(m.remove("k"), Some("v".to_string()));
    assert_eq!(m.get("k"), None);
    assert!(m.is_empty());
}

#[test]
fn retain_keeps_matching_entries() {
    let mut m = Hstore::new();
    m.insert("keep".to_string(), "1".to_string());
    m.insert("drop".to_string(), "2".to_string());
    m.insert("also".to_string(), "1".to_string());
    m.retain(|_k: &String, v: &String| v == "1");
    assert_eq!(m.len(), 2);
    assert_eq!(m.get("keep"), Some(&"1".to_string()));
    assert_eq!(m.get("also"), Some(&"1".to_string()));
    assert_eq!(m.get("drop"), None);
}

#[test]
fn contains_key_reports_presence() {
    let mut m = Hstore::new();
    m.insert("here".to_string(), "x".to_string());
    assert!(m.contains_key("here"));
    assert!(!m.contains_key("gone"));
}

#[test]
fn from_pairs_later_duplicate_wins() {
    let m = Hstore::from_pairs(vec![
        ("k".to_string(), "first".to_string()),
        ("other".to_string(), "x".to_string()),
        ("k".to_string(), "second".to_string()),
    ]);
    assert_eq!(m.len(), 2);
    assert_eq!(m.get("k"), Some(&"second".to_string()));
}

#[test]
fn extend_overwrites_existing_keys() {
    let mut m = Hstore::new();
    m.insert("a".to_string(), "1".to_string());
    m.extend(vec![
        ("a".to_string(), "9".to_string()),
        ("b".to_string(), "2".to_string()),
    ]);
    assert_eq!(m.len(), 2);
    assert_eq!(m.get("a"), Some(&"9".to_string()));
    assert_eq!(m.get("b"), Some(&"2".to_string()));
}

#[test]
fn from_hashmap_holds_all_entries() {
    let mut hm = std::collections::HashMap::new();
    hm.insert("a".to_string(), "1".to_string());
    hm.insert("b".to_string(), "2".to_string());
    let m = Hstore::from_hashmap(hm);
    assert_eq!(m.len(), 2);
    assert_eq!(m.get("a"), Some(&"1".to_string()));
    assert_eq!(m.get("b"), Some(&"2".to_string()));
}

#[test]
fn keys_values_iter_agree() {
    let mut m = Hstore::new();
    m.insert("a".to_string(), "1".to_string());
    m.insert("b".to_string(), "2".to_string());
    assert_eq!(m.keys(), vec!["a".to_string(), "b".to_string()]);
    assert_eq!(m.values(), vec!["1".to_string(), "2".to_string()]);
    assert_eq!(
        m.iter(),
        vec![
            ("a".to_string(), "1".to_string()),
            ("b".to_string(), "2".to_string())
        ]
    );
}

#[test]
fn drain_empties_the_map() {
    let mut m = Hstore::new();
    m.insert("a".to_string(), "1".to_string());
    m.insert("b".to_string(), "2".to_string());
    let taken = m.drain();
    assert_eq!(taken.len(), 2);
    assert!(m.is_empty());
    assert_eq!(m.get("a"), None);
}

#[test]
fn clear_removes_everything() {
    let mut m = Hstore::new();
    m.insert("a".to_string(), "1".to_string());
    m.clear();
    assert!(m.is_empty());
    assert_eq!(m.len(), 0);
}

#[test]
fn clone_is_equal_but_independent() {
    let mut m = Hstore::new();
    m.insert("a".to_string(), "1".to_string());
    let mut c = m.clone();
    assert!(c.map_eq(&m));
    c.insert("b".to_string(), "2".to_string());
    assert!(!c.map_eq(&m));
    assert_eq!(m.len(), 1);
}

#[test]
fn map_eq_ignores_insertion_order() {
    let mut m1 = Hstore::new();
    m1.insert("a".to_string(), "1".to_string());
    m1.insert("b".to_string(), "2".to_string());
    let mut m2 = Hstore::new();
    m2.insert("b".to_string(), "2".to_string());
    m2.insert("a".to_string(), "1".to_string());
    assert!(m1.map_eq(&m2));
    m2.insert("a".to_string(), "other".to_string());
    assert!(!m1.map_eq(&m2));
}

#[test]
fn capacity_tracks_reservations() {
    let mut m = Hstore::with_capacity(8);
    assert!(m.capacity() >= 8);
    m.insert("a".to_string(), "1".to_string());
    m.reserve(16);
    assert!(m.capacity() >= 17);
    m.shrink_to_fit();
    assert_eq!(m.get("a"), Some(&"1".to_string()));
}
