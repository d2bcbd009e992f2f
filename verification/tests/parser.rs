use polyseme::{create_polyseme, PolysemeParseError, PolysemeParser, RecordFetcher};
use std::collections::HashMap;

struct Nothing;

impl RecordFetcher for Nothing {
    fn record(&self, _name: &str) -> Vec<String> {
        vec![]
    }
}

struct Names(std::rc::Rc<std::cell::RefCell<Vec<String>>>);

fn digest(data: &[u8]) -> Vec<u8> {
    ring::digest::digest(&ring::digest::SHA256, data)
        .as_ref()
        .to_vec()
}

fn record(strings: &[&str]) -> Vec<String> {
    let mut covered = Vec::new();
    for s in strings {
        covered.extend_from_slice(s.as_bytes());
    }
    let mut out = vec![base64::encode(digest(&covered))];
    out.extend(strings.iter().map(|s| s.to_string()));
    out
}

fn marker(key: &[u8]) -> String {
    base64::encode(digest(key))
}

#[test]
fn no_strings_are_an_empty_result() {
    let mut parser = PolysemeParser::new(b"k", Box::new(Nothing));
    assert!(matches!(
        parser.read_record(vec![]),
        Err(PolysemeParseError::EmptyResult)
    ));
    assert!(matches!(
        parser.read(),
        Err(PolysemeParseError::EmptyResult)
    ));
    assert!(matches!(
        parser.read_to_end(),
        Err(PolysemeParseError::EmptyResult)
    ));
}

#[test]
fn a_hash_that_is_no_text_is_a_decoding_error() {
    let mut parser = PolysemeParser::new(b"k", Box::new(Nothing));
    let result = parser.read_record(vec!["not base64!".to_string(), "aGk=".to_string()]);
    assert!(matches!(
        result,
        Err(PolysemeParseError::Base64DecodingError(
            base64::DecodeError::InvalidByte(3, b' ')
        ))
    ));
}

#[test]
fn content_that_is_no_text_is_a_decoding_error() {
    let mut parser = PolysemeParser::new(b"k", Box::new(Nothing));
    let result = parser.read_record(record(&["a*c="]));
    assert!(matches!(
        result,
        Err(PolysemeParseError::Base64DecodingError(
            base64::DecodeError::InvalidByte(1, b'*')
        ))
    ));
    let mut parser = PolysemeParser::new(b"k", Box::new(Nothing));
    let result = parser.read_record(record(&["aGk\u{e9}"]));
    assert!(matches!(
        result,
        Err(PolysemeParseError::Base64DecodingError(_))
    ));
}

#[test]
fn a_string_of_44_characters_must_decode_alone() {
    let mut parser = PolysemeParser::new(b"k", Box::new(Nothing));
    let text = format!("{}{}", "A".repeat(43), "*");
    let result = parser.read_record(record(&[&text]));
    assert!(matches!(
        result,
        Err(PolysemeParseError::Base64DecodingError(_))
    ));
}

#[test]
fn a_wrong_hash_is_a_verification_error() {
    let mut parser = PolysemeParser::new(b"k", Box::new(Nothing));
    let mut strings = record(&["aGVsbG8="]);
    strings[0] = base64::encode(digest(b"something else"));
    assert!(matches!(
        parser.read_record(strings),
        Err(PolysemeParseError::HashVerificationError)
    ));
    let mut parser = PolysemeParser::new(b"k", Box::new(Nothing));
    let mut strings = record(&["aGVsbG8="]);
    strings[0] = "aGk=".to_string();
    assert!(matches!(
        parser.read_record(strings),
        Err(PolysemeParseError::HashVerificationError)
    ));
}

#[test]
fn payload_is_decoded_across_strings() {
    let mut parser = PolysemeParser::new(b"k", Box::new(Nothing));
    // "aGVsbG8gd29ybGQ=" cut where no group of four ends
    let result = parser.read_record(record(&["aGVsb", "G8gd29y", "bGQ="]));
    assert_eq!(result.unwrap(), Some(b"hello world".to_vec()));
}

#[test]
fn text_waits_for_the_next_record() {
    let mut parser = PolysemeParser::new(b"k", Box::new(Nothing));
    let result = parser.read_record(record(&["aGVsbG8gd2"]));
    assert_eq!(result.unwrap(), Some(b"hello ".to_vec()));
    let end = marker(b"k");
    let result = parser.read_record(record(&["9ybGQ=", &end]));
    assert_eq!(result.unwrap(), Some(b"world".to_vec()));
    assert!(matches!(parser.read(), Ok(None)));
    assert!(matches!(parser.read(), Ok(None)));
    assert_eq!(parser.read_to_end().unwrap(), Vec::<u8>::new());
}

#[test]
fn a_record_without_payload_gives_nothing() {
    let mut parser = PolysemeParser::new(b"k", Box::new(Nothing));
    assert!(matches!(parser.read_record(record(&["aG"])), Ok(None)));
    let end = marker(b"k");
    let result = parser.read_record(record(&["k=", &end]));
    assert_eq!(result.unwrap(), Some(b"hi".to_vec()));
}

#[test]
fn strings_after_the_marker_are_not_read() {
    let mut parser = PolysemeParser::new(b"k", Box::new(Nothing));
    let end = marker(b"k");
    let mut strings = record(&["aGk=", &end]);
    strings.push("!!! not text".to_string());
    assert_eq!(parser.read_record(strings).unwrap(), Some(b"hi".to_vec()));
    assert!(matches!(parser.read(), Ok(None)));
}

#[test]
fn the_marker_of_another_secret_is_payload() {
    let mut parser = PolysemeParser::new(b"k", Box::new(Nothing));
    let other = marker(b"another secret");
    let result = parser.read_record(record(&[&other]));
    assert_eq!(result.unwrap(), Some(digest(b"another secret")));
    assert!(matches!(
        parser.read(),
        Err(PolysemeParseError::EmptyResult)
    ));
}

#[test]
fn text_left_over_at_the_marker_is_decoded_as_it_stands() {
    let mut parser = PolysemeParser::new(b"k", Box::new(Nothing));
    let end = marker(b"k");
    // two characters wait: the decoder takes them without padding
    let result = parser.read_record(record(&["aGkhaA", &end]));
    assert_eq!(result.unwrap(), Some(b"hi!h".to_vec()));
    let mut parser = PolysemeParser::new(b"k", Box::new(Nothing));
    // one character cannot carry a byte
    let result = parser.read_record(record(&["aGkha", &end]));
    assert!(matches!(
        result,
        Err(PolysemeParseError::Base64DecodingError(
            base64::DecodeError::InvalidLength
        ))
    ));
    assert!(matches!(parser.read(), Ok(None)));
}

impl RecordFetcher for Names {
    fn record(&self, name: &str) -> Vec<String> {
        self.0.borrow_mut().push(name.to_string());
        vec![]
    }
}

#[test]
fn records_are_asked_for_under_the_labels_in_order() {
    let log = std::rc::Rc::new(std::cell::RefCell::new(Vec::new()));
    let mut parser = PolysemeParser::new(b"k", Box::new(Names(log.clone())));
    assert!(matches!(
        parser.read(),
        Err(PolysemeParseError::EmptyResult)
    ));
    assert!(matches!(
        parser.read(),
        Err(PolysemeParseError::EmptyResult)
    ));
    let mut counter = 0u64;
    let first = polyseme::next_ahotp(&mut counter, b"k");
    let second = polyseme::next_ahotp(&mut counter, b"k");
    assert_eq!(*log.borrow(), vec![first, second]);
}

#[test]
fn the_table_gives_the_strings_of_a_set() {
    let sets = create_polyseme(b"k", b"hello world");
    let name = sets[0].name.clone();
    let strings: Vec<String> = sets[0].entries.iter().map(|e| e.to_string()).collect();
    let mut map = HashMap::new();
    map.insert(name.clone(), sets[0].clone());
    assert_eq!(map.record(&name), strings);
    assert_eq!(map.record("absent"), Vec::<String>::new());
}

#[test]
fn the_parser_asks_for_the_labels_in_order() {
    let sets = create_polyseme(b"k", &vec![0u8; 100000]);
    let mut map = HashMap::new();
    for set in &sets {
        map.insert(set.name.clone(), set.clone());
    }
    let mut parser = PolysemeParser::new(b"k", Box::new(map));
    let mut total = 0;
    let mut reads = 0;
    while let Some(data) = parser.read().unwrap() {
        total += data.len();
        reads += 1;
    }
    assert_eq!(reads, 3);
    assert_eq!(total, 100000);
    let mut counter = 0u64;
    for set in &sets {
        assert_eq!(set.name, polyseme::next_ahotp(&mut counter, b"k"));
    }
}
