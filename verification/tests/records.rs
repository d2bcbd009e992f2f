use polyseme::content::{bytes_equal, entries_equal, entry_equal};
use polyseme::label::counter_to_bytes;
use polyseme::{next_ahotp, ContentEntry, ContentSet, HashContext};

fn expected_label(key: &[u8], counter: u64) -> String {
    let key = ring::hmac::Key::new(ring::hmac::HMAC_SHA256, key);
    let tag = ring::hmac::sign(&key, &counter.to_be_bytes());
    base32::encode(base32::Alphabet::Crockford, tag.as_ref()).to_ascii_lowercase()
}

#[test]
fn labels_follow_the_counter() {
    let key = b"this is a key";
    let mut counter = 0u64;
    let first = next_ahotp(&mut counter, key);
    assert_eq!(counter, 1);
    let second = next_ahotp(&mut counter, key);
    assert_eq!(counter, 2);
    assert_eq!(first, expected_label(key, 0));
    assert_eq!(second, expected_label(key, 1));
    assert_ne!(first, second);
    let mut again = 0u64;
    assert_eq!(next_ahotp(&mut again, key), first);
    let mut other = 0u64;
    assert_ne!(next_ahotp(&mut other, b"another key"), first);
}

#[test]
fn labels_are_52_small_characters() {
    let mut counter = 41u64;
    let name = next_ahotp(&mut counter, b"k");
    assert_eq!(name.len(), 52);
    assert!(name
        .chars()
        .all(|c| c.is_ascii_digit() || (c.is_ascii_lowercase() && !"ilou".contains(c))));
}

#[test]
fn counter_bytes_are_big_endian() {
    assert_eq!(counter_to_bytes(0), [0u8; 8]);
    assert_eq!(counter_to_bytes(1), [0, 0, 0, 0, 0, 0, 0, 1]);
    assert_eq!(
        counter_to_bytes(0x0102030405060708),
        [1, 2, 3, 4, 5, 6, 7, 8]
    );
    assert_eq!(counter_to_bytes(u64::MAX), [0xff; 8]);
}

#[test]
fn wire_size_of_each_kind() {
    assert_eq!(ContentEntry::Hash([0; 32]).dns_size(), 45);
    assert_eq!(ContentEntry::EOF([9; 32]).dns_size(), 45);
    assert_eq!(ContentEntry::Content(String::new()).dns_size(), 1);
    assert_eq!(ContentEntry::Content("abcd".to_string()).dns_size(), 5);
    assert_eq!(ContentEntry::Content("a".repeat(255)).dns_size(), 256);
}

#[test]
fn text_of_each_kind() {
    assert_eq!(
        ContentEntry::Hash([0; 32]).to_string(),
        "AAAAAAAAAAAAAAAAAAAAAAAAAAAAAAAAAAAAAAAAAAA="
    );
    assert_eq!(
        ContentEntry::EOF([0xff; 32]).to_string(),
        "//////////////////////////////////////////8="
    );
    assert_eq!(ContentEntry::Content("aGk=".to_string()).to_string(), "aGk=");
    assert_eq!(ContentEntry::Hash([7; 32]).to_string().len(), 44);
}

#[test]
fn a_new_set_holds_a_blank_hash() {
    let set = ContentSet::new("label".to_string());
    assert_eq!(set.name, "label");
    assert_eq!(set.size, 44);
    assert_eq!(set.entries, vec![ContentEntry::Hash([0; 32])]);
    assert!(set.hash_context.is_some());
}

#[test]
fn a_set_takes_entries_up_to_its_limit() {
    let mut set = ContentSet::new("label".to_string());
    for _ in 0..255 {
        assert!(set
            .add_entry(ContentEntry::Content("x".repeat(255)))
            .is_ok());
    }
    assert_eq!(set.size, 44 + 255 * 256);
    let rejected = set.add_entry(ContentEntry::Content("y".repeat(255)));
    assert_eq!(rejected, Err(ContentEntry::Content("y".repeat(255))));
    assert_eq!(set.size, 44 + 255 * 256);
    assert_eq!(set.entries.len(), 256);
    // 211 bytes are left: an entry of 210 characters is the largest that fits.
    let rejected = set.add_entry(ContentEntry::Content("z".repeat(211)));
    assert!(rejected.is_err());
    assert!(set
        .add_entry(ContentEntry::Content("z".repeat(210)))
        .is_ok());
    assert_eq!(set.size, 65535);
    assert!(set.add_entry(ContentEntry::Content(String::new())).is_err());
}

#[test]
fn the_hash_covers_the_entries_after_it() {
    let mut set = ContentSet::new("label".to_string());
    set.add_entry(ContentEntry::Content("aGVs".to_string()))
        .unwrap();
    set.add_entry(ContentEntry::EOF([1; 32])).unwrap();
    set.calculate_hash();
    assert!(set.hash_context.is_none());
    let mut covered = b"aGVs".to_vec();
    covered.extend_from_slice(base64::encode([1u8; 32]).as_bytes());
    let digest = ring::digest::digest(&ring::digest::SHA256, &covered);
    let mut expected = [0u8; 32];
    expected.copy_from_slice(digest.as_ref());
    assert_eq!(set.entries[0], ContentEntry::Hash(expected));
    // a second call changes nothing
    let before = set.entries.clone();
    set.calculate_hash();
    assert_eq!(set.entries, before);
}

#[test]
fn the_hash_of_no_entries_is_that_of_nothing() {
    let mut set = ContentSet::new("label".to_string());
    set.calculate_hash();
    let digest = ring::digest::digest(&ring::digest::SHA256, b"");
    let mut expected = [0u8; 32];
    expected.copy_from_slice(digest.as_ref());
    assert_eq!(set.entries, vec![ContentEntry::Hash(expected)]);
}

#[test]
fn hash_context_digests_what_it_was_given() {
    let mut ctx = HashContext::new();
    assert_eq!(ctx.len(), 0);
    ctx.update(b"hello");
    ctx.update(b", ");
    ctx.update(b"world");
    assert_eq!(ctx.len(), 12);
    let digest = ring::digest::digest(&ring::digest::SHA256, b"hello, world");
    assert_eq!(&ctx.finish()[..], digest.as_ref());
}

#[test]
fn sets_are_equal_by_label_and_entries() {
    let mut a = ContentSet::new("label".to_string());
    let mut b = ContentSet::new("label".to_string());
    assert!(a == b);
    a.add_entry(ContentEntry::Content("abcd".to_string()))
        .unwrap();
    assert!(a != b);
    b.add_entry(ContentEntry::Content("abcd".to_string()))
        .unwrap();
    assert!(a == b);
    b.calculate_hash();
    assert!(a != b);
    a.calculate_hash();
    assert!(a == b);
    let c = ContentSet::new("other".to_string());
    assert!(c != ContentSet::new("label".to_string()));
    let mut d = ContentSet::new("label".to_string());
    d.size = 50;
    assert!(d == ContentSet::new("label".to_string()));
}

#[test]
fn entries_compare_by_kind_and_content() {
    assert!(entry_equal(
        &ContentEntry::Hash([1; 32]),
        &ContentEntry::Hash([1; 32])
    ));
    assert!(!entry_equal(
        &ContentEntry::Hash([1; 32]),
        &ContentEntry::EOF([1; 32])
    ));
    assert!(!entry_equal(
        &ContentEntry::Hash([1; 32]),
        &ContentEntry::Hash([2; 32])
    ));
    assert!(entry_equal(
        &ContentEntry::Content("a".to_string()),
        &ContentEntry::Content("a".to_string())
    ));
    assert!(!entry_equal(
        &ContentEntry::Content("a".to_string()),
        &ContentEntry::Content("b".to_string())
    ));
    assert!(entries_equal(&vec![], &vec![]));
    assert!(!entries_equal(&vec![ContentEntry::Hash([0; 32])], &vec![]));
    assert!(bytes_equal(b"abc", b"abc"));
    assert!(!bytes_equal(b"abc", b"abd"));
    assert!(!bytes_equal(b"abc", b"ab"));
}

#[test]
fn a_zone_line_quotes_every_string() {
    let mut set = ContentSet::new("label".to_string());
    set.add_entry(ContentEntry::Content("aGk=".to_string()))
        .unwrap();
    assert_eq!(
        polyseme::zone_line(&set, "example.org"),
        "label.example.org TXT \"AAAAAAAAAAAAAAAAAAAAAAAAAAAAAAAAAAAAAAAAAAA=\" \"aGk=\"\n"
    );
    let mut empty = ContentSet::new(String::new());
    empty.entries.clear();
    assert_eq!(polyseme::zone_line(&empty, ""), ". TXT\n");
}

#[test]
fn the_text_of_a_digest_uses_the_standard_alphabet() {
    let mut digest = [0u8; 32];
    for (i, byte) in digest.iter_mut().enumerate() {
        *byte = i as u8;
    }
    assert_eq!(
        ContentEntry::Hash(digest).to_string(),
        "AAECAwQFBgcICQoLDA0ODxAREhMUFRYXGBkaGxwdHh8="
    );
    let mut digest = [0u8; 32];
    for (i, byte) in digest.iter_mut().enumerate() {
        *byte = 0xfb - 4 * (i as u8);
    }
    assert_eq!(
        ContentEntry::EOF(digest).to_string(),
        base64::encode(digest)
    );
}
