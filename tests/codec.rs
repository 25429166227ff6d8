use bee_api::codec::{decode, encode, DecodeError};
use bee_api::puzzle::{key_for_id, PartialPuzzle, Puzzle, Timestamp};

fn texts(items: &[&str]) -> Vec<String> {
    items.iter().map(|s| s.to_string()).collect()
}

fn sample() -> Puzzle {
    Puzzle {
        id: 0x0123_4567_89ab_cdef_fedc_ba98_7654_3210,
        created_at: Timestamp { secs: 1_700_000_000, nanos: 5 },
        updated_at: Timestamp { secs: -3, nanos: 999_999_999 },
        name: "Dailý 🐝".to_string(),
        released_at: Some(Timestamp { secs: 42, nanos: 0 }),
        words: texts(&["bee", "eel", "été"]),
        letters: texts(&["b", "e", "l"]),
        middle: "e".to_string(),
        language: "en".to_string(),
    }
}

fn same(a: &Puzzle, b: &Puzzle) -> bool {
    a.id == b.id
        && a.created_at == b.created_at
        && a.updated_at == b.updated_at
        && a.name == b.name
        && a.released_at == b.released_at
        && a.words == b.words
        && a.letters == b.letters
        && a.middle == b.middle
        && a.language == b.language
}

#[test]
fn round_trip_keeps_every_field() {
    let p = sample();
    let back = decode(&encode(&p)).unwrap();
    assert!(same(&p, &back));
}

#[test]
fn round_trip_without_release_and_empty_lists() {
    let mut p = sample();
    p.released_at = None;
    p.words = Vec::new();
    p.letters = Vec::new();
    p.name = String::new();
    let back = decode(&encode(&p)).unwrap();
    assert!(same(&p, &back));
}

#[test]
fn encoding_layout_starts_with_tagged_identity() {
    let p = sample();
    let bytes = encode(&p);
    assert_eq!(bytes[0], 1);
    assert_eq!(&bytes[1..17], &p.id.to_be_bytes()[..]);
    assert_eq!(bytes[17], 2);
    assert_eq!(&bytes[18..26], &1_700_000_000u64.to_be_bytes()[..]);
    assert_eq!(&bytes[26..34], &5u64.to_be_bytes()[..]);
}

#[test]
fn encoding_is_deterministic() {
    assert_eq!(encode(&sample()), encode(&sample()));
}

#[test]
fn decode_rejects_empty_and_truncated_bytes() {
    assert_eq!(decode(&[]).unwrap_err(), DecodeError);
    let bytes = encode(&sample());
    for cut in [1usize, 10, 17, 40, bytes.len() - 1] {
        assert!(decode(&bytes[..cut]).is_err());
    }
}

#[test]
fn decode_rejects_trailing_bytes_and_wrong_tags() {
    let mut bytes = encode(&sample());
    bytes.push(0);
    assert!(decode(&bytes).is_err());
    let mut other = encode(&sample());
    other[0] = 2;
    assert!(decode(&other).is_err());
}

#[test]
fn decode_rejects_invalid_utf8() {
    let mut p = sample();
    p.name = "ab".to_string();
    let mut bytes = encode(&p);
    // The name's two bytes follow its tag at 51 and its length at 52..60.
    assert_eq!(bytes[51], 4);
    bytes[60] = 0xff;
    assert!(decode(&bytes).is_err());
}

#[test]
fn decode_rejects_json() {
    assert!(decode(br#"{"name":"Daily"}"#).is_err());
}

#[test]
fn key_is_prefix_and_hyphenated_uuid() {
    let key = key_for_id(0x0123_4567_89ab_cdef_fedc_ba98_7654_3210);
    assert_eq!(key, "puzzle:01234567-89ab-cdef-fedc-ba9876543210");
    assert_eq!(key_for_id(0), "puzzle:00000000-0000-0000-0000-000000000000");
    assert_eq!(sample().to_key(), key_for_id(sample().id));
}

#[test]
fn from_partial_at_copies_fields_and_stamps_both_times() {
    let partial = PartialPuzzle {
        name: "Daily".to_string(),
        released_at: None,
        words: texts(&["bee", "eel"]),
        letters: texts(&["b", "e", "l"]),
        middle: "e".to_string(),
        language: "en".to_string(),
    };
    let now = Timestamp { secs: 10, nanos: 20 };
    let p = Puzzle::from_partial_at(partial, 7, now);
    assert_eq!(p.id, 7);
    assert_eq!(p.created_at, now);
    assert_eq!(p.updated_at, now);
    assert_eq!(p.words, texts(&["bee", "eel"]));
    assert_eq!(p.middle, "e");
}

#[test]
fn from_partial_draws_fresh_identities_and_current_time() {
    let partial = PartialPuzzle {
        name: "Daily".to_string(),
        released_at: None,
        words: Vec::new(),
        letters: Vec::new(),
        middle: "e".to_string(),
        language: "en".to_string(),
    };
    let a = Puzzle::from_partial(partial.clone());
    let b = Puzzle::from_partial(partial);
    assert_ne!(a.id, b.id);
    assert_eq!(a.created_at, a.updated_at);
    assert!(a.created_at.secs > 1_600_000_000);
    assert_eq!((a.id >> 76) & 0xf, 4);
}

#[test]
fn decode_accepts_fields_in_any_order() {
    let p = sample();
    let bytes = encode(&p);
    // The identity, created and updated fields take 17 bytes each.
    let (id, rest) = bytes.split_at(17);
    let (created, rest) = rest.split_at(17);
    let (updated, tail) = rest.split_at(17);
    let mut reordered = Vec::new();
    reordered.extend_from_slice(created);
    reordered.extend_from_slice(id);
    reordered.extend_from_slice(tail);
    reordered.extend_from_slice(updated);
    let back = decode(&reordered).unwrap();
    assert!(same(&p, &back));
    assert_ne!(reordered, bytes);
}

#[test]
fn decode_rejects_repeated_and_missing_fields() {
    let bytes = encode(&sample());
    let (id, rest) = bytes.split_at(17);
    let (_created, tail) = rest.split_at(17);
    let mut repeated = Vec::new();
    repeated.extend_from_slice(id);
    repeated.extend_from_slice(id);
    repeated.extend_from_slice(tail);
    assert!(decode(&repeated).is_err());
    let mut missing = Vec::new();
    missing.extend_from_slice(id);
    missing.extend_from_slice(tail);
    assert!(decode(&missing).is_err());
}

#[test]
fn decode_rejects_nanoseconds_past_a_leap_second() {
    let mut bytes = encode(&sample());
    // created_at's nanoseconds sit at 26..34.
    bytes[26..34].copy_from_slice(&2_000_000_000u64.to_be_bytes());
    assert!(decode(&bytes).is_err());
    bytes[26..34].copy_from_slice(&1_999_999_999u64.to_be_bytes());
    assert_eq!(decode(&bytes).unwrap().created_at.nanos, 1_999_999_999);
}
