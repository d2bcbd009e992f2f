use polyseme::{
    create_polyseme, fetch_polyseme, ContentEntry, ContentSet, PolysemeBuilder,
    PolysemeParseError, PolysemeParser,
};
use std::collections::HashMap;

fn table(sets: Vec<ContentSet>) -> HashMap<String, ContentSet> {
    let mut map = HashMap::new();
    for set in sets {
        map.insert(set.name.clone(), set);
    }
    map
}

fn sha256(data: &[u8]) -> [u8; 32] {
    let mut out = [0u8; 32];
    out.copy_from_slice(ring::digest::digest(&ring::digest::SHA256, data).as_ref());
    out
}

fn wire_size(set: &ContentSet) -> usize {
    set.entries.iter().map(|entry| 1 + entry.to_string().len()).sum()
}

fn hash_holds(set: &ContentSet) -> bool {
    let mut covered = Vec::new();
    for entry in &set.entries[1..] {
        covered.extend_from_slice(entry.to_string().as_bytes());
    }
    set.entries[0] == ContentEntry::Hash(sha256(&covered))
}

#[test]
fn test_it_ok() {
    let key = b"this is a key";
    let data = b"y".repeat(10001);

    let poly = create_polyseme(key, &data);
    let poly = poly
        .into_iter()
        .map(|set| (set.name.clone(), set))
        .collect::<HashMap<_, _>>();
    let output = fetch_polyseme(key, poly).unwrap();

    assert_eq!(&output[..], &data[..])
}

#[test]
fn empty_input_gives_hash_and_marker() {
    let sets = create_polyseme(b"k", b"");
    assert_eq!(sets.len(), 1);
    let marker = sha256(b"k");
    let hash = sha256(base64::encode(marker).as_bytes());
    assert_eq!(
        sets[0].entries,
        vec![ContentEntry::Hash(hash), ContentEntry::EOF(marker)]
    );
    let output = fetch_polyseme(b"k", table(sets)).unwrap();
    assert_eq!(output, Vec::<u8>::new());
}

#[test]
fn marker_of_the_empty_secret_is_the_known_digest() {
    let sets = create_polyseme(b"", b"");
    let expected: [u8; 32] = [
        0xe3, 0xb0, 0xc4, 0x42, 0x98, 0xfc, 0x1c, 0x14, 0x9a, 0xfb, 0xf4, 0xc8, 0x99, 0x6f, 0xb9,
        0x24, 0x27, 0xae, 0x41, 0xe4, 0x64, 0x9b, 0x93, 0x4c, 0xa4, 0x95, 0x99, 0x1b, 0x78, 0x52,
        0xb8, 0x55,
    ];
    assert_eq!(sets[0].entries[1], ContentEntry::EOF(expected));
    assert_eq!(
        sets[0].entries[1].to_string(),
        "47DEQpj8HBSa+/TImW+5JCeuQeRkm5NMpJWZG3hSuFU="
    );
}

#[test]
fn small_input_is_one_record() {
    let key = b"this is a key";
    let sets = create_polyseme(key, b"hello world");
    assert_eq!(sets.len(), 1);
    assert_eq!(sets[0].entries.len(), 3);
    assert!(matches!(sets[0].entries[0], ContentEntry::Hash(_)));
    assert_eq!(
        sets[0].entries[1],
        ContentEntry::Content("aGVsbG8gd29ybGQ=".to_string())
    );
    assert_eq!(
        base64::decode(sets[0].entries[1].to_string()).unwrap(),
        b"hello world".to_vec()
    );
    assert_eq!(sets[0].entries[2], ContentEntry::EOF(sha256(key)));
    assert!(hash_holds(&sets[0]));
    let output = fetch_polyseme(key, table(sets)).unwrap();
    assert_eq!(output, b"hello world".to_vec());
}

#[test]
fn many_records_round_trip() {
    let key = b"this is a key";
    let data = vec![0xAAu8; 200000];
    let sets = create_polyseme(key, &data);
    assert!(sets.len() >= 5);
    for set in &sets {
        assert!(wire_size(set) <= 65535);
        assert!(hash_holds(set));
    }
    let output = fetch_polyseme(key, table(sets)).unwrap();
    assert_eq!(output, data);
}

#[test]
fn ten_thousand_bytes_fit_one_record() {
    let key = b"this is a key";
    let data = b"y".repeat(10001);
    let sets = create_polyseme(key, &data);
    // 13336 characters of text: 52 full pieces, one of 76, and the marker.
    assert_eq!(sets.len(), 1);
    assert_eq!(sets[0].entries.len(), 1 + 52 + 1 + 1);
    assert_eq!(sets[0].entries[1].to_string().len(), 255);
    assert_eq!(sets[0].entries[53].to_string().len(), 76);
    assert_eq!(sets[0].size, 44 + 52 * 256 + 77 + 45);
}

#[test]
fn a_changed_character_fails_the_hash() {
    let key = b"this is a key";
    let data = b"y".repeat(10001);
    let mut sets = create_polyseme(key, &data);
    let text = sets[0].entries[3].to_string();
    let first = text.as_bytes()[0];
    let other = if first == b'A' { "B" } else { "A" };
    let changed = format!("{}{}", other, &text[1..]);
    assert_ne!(changed, text);
    sets[0].entries[3] = ContentEntry::Content(changed);
    let result = fetch_polyseme(key, table(sets));
    assert!(matches!(
        result,
        Err(PolysemeParseError::HashVerificationError)
    ));
}

#[test]
fn a_missing_record_is_an_empty_result() {
    let key = b"this is a key";
    let data = b"y".repeat(10001);
    let sets = create_polyseme(key, &data);
    let mut map = table(sets);
    let name = map.keys().next().unwrap().clone();
    map.remove(&name);
    let result = fetch_polyseme(key, map);
    assert!(matches!(result, Err(PolysemeParseError::EmptyResult)));
}

#[test]
fn a_missing_later_record_stops_the_reading_there() {
    let key = b"this is a key";
    let data = vec![0x5Au8; 120000];
    let sets = create_polyseme(key, &data);
    assert_eq!(sets.len(), 3);
    let second = sets[1].name.clone();
    let mut map = table(sets);
    map.remove(&second);
    let mut parser = PolysemeParser::new(key, Box::new(map));
    let first = parser.read().unwrap().unwrap();
    assert_eq!(first.len(), 255 * 255 * 3 / 4);
    assert!(first.iter().all(|b| *b == 0x5A));
    assert!(matches!(
        parser.read(),
        Err(PolysemeParseError::EmptyResult)
    ));
}

#[test]
fn streaming_gives_the_same_records() {
    let key = b"secret";
    let data: Vec<u8> = (0..150000u32).map(|i| (i % 251) as u8).collect();
    let whole = create_polyseme(key, &data);

    let mut builder = PolysemeBuilder::new(key);
    let mut streamed = Vec::new();
    streamed.extend(builder.consume(&data[..1]));
    streamed.extend(builder.consume(&data[1..70000]));
    streamed.extend(builder.consume(&data[70000..70000]));
    streamed.extend(builder.consume(&data[70000..149999]));
    streamed.extend(builder.consume(&data[149999..]));
    assert!(builder.can_finalize());
    streamed.extend(builder.finalize());

    assert_eq!(streamed.len(), whole.len());
    for (a, b) in streamed.iter().zip(whole.iter()) {
        assert!(a == b);
        assert_eq!(a.name, b.name);
        assert_eq!(a.entries, b.entries);
    }
    let output = fetch_polyseme(key, table(streamed)).unwrap();
    assert_eq!(output, data);
}

#[test]
fn encoding_is_deterministic() {
    let key = b"another key";
    let data = vec![7u8; 70000];
    let first = create_polyseme(key, &data);
    let second = create_polyseme(key, &data);
    assert_eq!(first.len(), second.len());
    for (a, b) in first.iter().zip(second.iter()) {
        assert!(a == b);
    }
    let other = create_polyseme(b"a different key", &data);
    assert!(first[0] != other[0]);
}

#[test]
fn only_the_last_record_has_the_marker() {
    let key = b"this is a key";
    let data = vec![1u8; 200000];
    let sets = create_polyseme(key, &data);
    let last = sets.len() - 1;
    for (i, set) in sets.iter().enumerate() {
        let markers = set
            .entries
            .iter()
            .filter(|entry| matches!(entry, ContentEntry::EOF(_)))
            .count();
        if i == last {
            assert_eq!(markers, 1);
            assert!(matches!(set.entries.last(), Some(ContentEntry::EOF(_))));
        } else {
            assert_eq!(markers, 0);
        }
        assert!(matches!(set.entries[0], ContentEntry::Hash(_)));
    }
}

#[test]
fn full_records_hold_255_pieces_of_255_characters() {
    let key = b"k";
    let data = vec![0u8; 100000];
    let sets = create_polyseme(key, &data);
    assert_eq!(sets.len(), 3);
    assert_eq!(sets[0].entries.len(), 256);
    assert_eq!(sets[0].size, 44 + 255 * 256);
    for entry in &sets[0].entries[1..] {
        assert_eq!(entry.to_string().len(), 255);
    }
    assert_eq!(wire_size(&sets[0]), 45 + 255 * 256);
}

#[test]
fn the_last_piece_takes_in_the_padded_group() {
    // 189 bytes make 252 characters, which wait; the 190th byte adds four.
    let sets = create_polyseme(b"k", &vec![9u8; 190]);
    assert_eq!(sets.len(), 1);
    assert_eq!(sets[0].entries.len(), 3);
    assert_eq!(sets[0].entries[1].to_string().len(), 256);
    let output = fetch_polyseme(b"k", table(sets)).unwrap();
    assert_eq!(output, vec![9u8; 190]);
}

#[test]
fn a_marker_that_finds_no_room_is_told_beforehand() {
    // 65192 characters of text: 255 full pieces and one of 167, which
    // leaves 43 bytes where the marker needs 45.
    let mut builder = PolysemeBuilder::new(b"k");
    let sets = builder.consume(&vec![3u8; 48894]);
    assert_eq!(sets.len(), 0);
    assert!(!builder.can_finalize());

    let mut builder = PolysemeBuilder::new(b"k");
    builder.consume(&vec![3u8; 48891]);
    assert!(builder.can_finalize());
    let sets = builder.finalize();
    assert_eq!(sets.len(), 1);
    assert_eq!(sets[0].entries.len(), 1 + 255 + 1 + 1);
}

#[test]
fn a_last_piece_that_finds_no_room_opens_a_record() {
    // 255 full pieces and one of 211 characters.
    let data = vec![3u8; 48927];
    let mut builder = PolysemeBuilder::new(b"k");
    assert_eq!(builder.consume(&data).len(), 0);
    assert!(builder.can_finalize());
    let sets = builder.finalize();
    assert_eq!(sets.len(), 2);
    assert_eq!(sets[0].entries.len(), 256);
    assert_eq!(sets[1].entries.len(), 3);
    assert_eq!(sets[1].entries[1].to_string().len(), 211);
    let output = fetch_polyseme(b"k", table(sets)).unwrap();
    assert_eq!(output, data);
}

#[test]
fn every_split_of_a_short_input_round_trips() {
    let key = b"key";
    let data: Vec<u8> = (0..40u8).collect();
    for n in 0..data.len() {
        for cut in 0..=n {
            let mut builder = PolysemeBuilder::new(key);
            let mut sets = builder.consume(&data[..cut]);
            sets.extend(builder.consume(&data[cut..n]));
            sets.extend(builder.finalize());
            let whole = create_polyseme(key, &data[..n]);
            assert_eq!(sets.len(), whole.len());
            assert!(sets[0] == whole[0]);
            let output = fetch_polyseme(key, table(sets)).unwrap();
            assert_eq!(&output[..], &data[..n]);
        }
    }
}

#[test]
fn the_builder_tells_whether_it_can_go_on() {
    let mut builder = PolysemeBuilder::new(b"k");
    assert!(builder.can_consume(0));
    assert!(builder.can_consume(usize::MAX));
    assert!(builder.can_finalize());
    builder.consume(b"abc");
    assert!(builder.can_consume(12345));
    assert!(builder.can_finalize());
}

#[test]
fn a_record_can_weigh_one_byte_more_than_it_counts() {
    // three records; in the last, 255 full pieces, one of 165 characters and
    // the marker count 65535 bytes, the hash without its length byte
    let data = vec![5u8; 146430];
    let sets = create_polyseme(b"k", &data);
    assert_eq!(sets.len(), 3);
    assert_eq!(sets[2].size, 65535);
    assert_eq!(wire_size(&sets[2]), 65536);
    let output = fetch_polyseme(b"k", table(sets)).unwrap();
    assert_eq!(output, data);
}

#[test]
fn records_keep_their_weight_and_hash_at_every_length() {
    let key = b"weights";
    for n in [0usize, 1, 2, 3, 188, 189, 190, 191, 192, 254, 255, 256, 382, 383, 48768, 48769] {
        let data: Vec<u8> = (0..n).map(|i| (i * 7 % 256) as u8).collect();
        let sets = create_polyseme(key, &data);
        for set in &sets {
            assert_eq!(wire_size(set), set.size + 1);
            assert!(set.size <= 65535);
            assert!(hash_holds(set));
            assert!(set.hash_context.is_none());
        }
        let text: String = sets
            .iter()
            .flat_map(|set| set.entries.iter())
            .filter(|entry| matches!(entry, ContentEntry::Content(_)))
            .map(|entry| entry.to_string())
            .collect();
        assert_eq!(text, base64::encode(&data));
        let output = fetch_polyseme(key, table(sets)).unwrap();
        assert_eq!(output, data);
    }
}

#[test]
fn payload_that_ends_like_the_marker_is_taken_for_it() {
    // the text of the digest of the secret as the last piece: the reader
    // stops there, and the hash, which covers the true marker too, fails
    let key = b"k";
    let data = sha256(key).to_vec();
    let sets = create_polyseme(key, &data);
    assert_eq!(sets.len(), 1);
    assert_eq!(sets[0].entries[1].to_string(), sets[0].entries[2].to_string());
    let result = fetch_polyseme(key, table(sets));
    assert!(matches!(
        result,
        Err(PolysemeParseError::HashVerificationError)
    ));
}
