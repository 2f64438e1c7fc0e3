use dns_drop::cache::MessageBufferCache;
use dns_drop::chunk::{checksum, ChunkError, MessageChunk};
use dns_drop::response::{get_checksum, response_address};

fn chunk(q: &str) -> MessageChunk {
    MessageChunk::from(q, "foo.co").unwrap()
}

#[test]
fn test_ring_hash() {
    let mut message_buffer_cache = MessageBufferCache::new(3);

    message_buffer_cache.add(chunk("AAAAAAAAAAAAAAAAPMRGM33PEI5.foo.co"));
    message_buffer_cache.add(chunk("BBAAAAAAAAAAAAAACEYTBOIRH2.foo.co"));
    message_buffer_cache.add(chunk("AA22222222222222FOO.foo.co"));
    message_buffer_cache.add(chunk("AA33333333333333FOO.foo.co"));
    message_buffer_cache.add(chunk("AA44444444444444Foo.foo.co"));
    assert!(message_buffer_cache.len() == 3);
    assert!(!message_buffer_cache.contains_key("AAAAAAAAAAAAA"));
    assert!(message_buffer_cache.contains_key("2222222222222"));
}

#[test]
fn test_message_building() {
    let mut message_buffer_cache = MessageBufferCache::new(3);
    message_buffer_cache.add(chunk("AADDDDDDDDDDDDDDPMRGM33PEI5.foo.co"));
    let is_complete = message_buffer_cache.add(chunk("BBDDDDDDDDDDDDDDCEYTBOIRH2.foo.co"));
    assert!(is_complete);
    let byte_message = message_buffer_cache.get_value("DDDDDDDDDDDDD").unwrap();
    let message = String::from_utf8(byte_message).unwrap();
    assert_eq!(message, String::from("{\"foo\":\"bar\"}"));
}

#[test]
fn test_message_dupes() {
    let mut message_buffer_cache = MessageBufferCache::new(3);
    let mut is_complete = message_buffer_cache.add(chunk("AAZ222222222222ZPMRGM33PEI5.foo.co"));
    assert!(!is_complete);
    is_complete = message_buffer_cache.add(chunk("BBZ222222222222ZCEYTBOIRH2.foo.co"));
    assert!(is_complete);
    is_complete = message_buffer_cache.add(chunk("BBZ222222222222ZCEYTBOIRH2.foo.co"));
    assert!(is_complete);
    let byte_message = message_buffer_cache.get_value("Z222222222222").unwrap();
    let message = String::from_utf8(byte_message).unwrap();
    assert_eq!(message, String::from("{\"foo\":\"bar\"}"));
}

#[test]
fn concrete_foo_bar_scenario() {
    let a = chunk("AAAAAAAAAAAAAAAAPMRGM33PEI5.foo.co");
    assert_eq!(a.version, 'A');
    assert!(!a.last);
    assert_eq!(a.idx, 0);
    assert_eq!(a.id(), "AAAAAAAAAAAAA");
    assert_eq!(a.content(), "PMRGM33PEI5");
    let b = chunk("BBAAAAAAAAAAAAAACEYTBOIRH2.foo.co");
    assert_eq!(b.version, 'B');
    assert!(b.last);
    assert_eq!(b.idx, 1);
    assert_eq!(b.id(), "AAAAAAAAAAAAA");
    let mut cache = MessageBufferCache::new(4);
    assert!(!cache.add(b));
    assert!(cache.add(a));
    assert_eq!(cache.get_text("AAAAAAAAAAAAA").unwrap(), "PMRGM33PEI5CEYTBOIRH2");
    assert_eq!(cache.get_value("AAAAAAAAAAAAA").unwrap(), b"{\"foo\":\"bar\"}".to_vec());
}

#[test]
fn lower_case_and_inner_dots_are_normalized() {
    let c = chunk("aa.aaaaaaaaaaaaaa.pmrgm33pei5.foo.co");
    assert_eq!(c.source, "AAAAAAAAAAAAAAAAPMRGM33PEI5");
}

#[test]
fn rejects_short_label() {
    assert_eq!(MessageChunk::from("AAAAAAAAAAAAAAA.foo.co", "foo.co").unwrap_err(), ChunkError::TooShort);
}

#[test]
fn rejects_bad_version() {
    assert_eq!(MessageChunk::from("CAAAAAAAAAAAAAAAPMRG.foo.co", "foo.co").unwrap_err(), ChunkError::BadVersion);
}

#[test]
fn rejects_bad_index() {
    assert_eq!(MessageChunk::from("A1AAAAAAAAAAAAAAPMRG.foo.co", "foo.co").unwrap_err(), ChunkError::BadIndex);
}

#[test]
fn rejects_bad_checksum() {
    assert_eq!(MessageChunk::from("AAAAAAAAAAAAAAABPMRG.foo.co", "foo.co").unwrap_err(), ChunkError::BadChecksum);
}

#[test]
fn rejects_bad_domain_pattern() {
    assert_eq!(MessageChunk::from("AAAAAAAAAAAAAAAAPMRG.foo.co", "foo(").unwrap_err(), ChunkError::BadDomain);
}

#[test]
fn checksum_detects_single_substitution() {
    assert!(checksum("AAAAAAAAAAAAAAAA"));
    assert!(checksum("BBAAAAAAAAAAAAAA"));
    assert!(!checksum("BAAAAAAAAAAAAAAA"));
    assert!(!checksum("AAAAAAAAAAAAAAA1"));
    // 'C' is 2, 'D' is 3, 'B' is 1: 2 ^ 3 ^ 1 == 0
    assert!(checksum("CDBAAAAAAAAAAAAA"));
    assert!(!checksum("CDCAAAAAAAAAAAAA"));
}

#[test]
fn capacity_evicts_first_seen_only() {
    let mut cache = MessageBufferCache::new(2);
    cache.add(chunk("BAAAAAAAAAAAAAABPMRGM33PEI5CEYTBOIRH2.foo.co"));
    cache.add(chunk("BB22222222222222FOO.foo.co"));
    // re-arrival does not refresh the first id's place
    cache.add(chunk("BAAAAAAAAAAAAAABPMRGM33PEI5CEYTBOIRH2.foo.co"));
    cache.add(chunk("BB33333333333333FOO.foo.co"));
    assert_eq!(cache.len(), 2);
    assert!(cache.get_value("AAAAAAAAAAAAA").is_none());
    assert!(cache.contains_key("2222222222222"));
    assert!(cache.contains_key("3333333333333"));
}

#[test]
fn zero_capacity_holds_nothing() {
    let mut cache = MessageBufferCache::new(0);
    assert!(cache.add(chunk("BAAAAAAAAAAAAAABPMRGM33PEI5CEYTBOIRH2.foo.co")));
    assert_eq!(cache.len(), 0);
}

#[test]
fn reordered_and_duplicated_chunks_reassemble() {
    let mut cache = MessageBufferCache::new(3);
    assert!(!cache.add(chunk("BBAAAAAAAAAAAAAACEYTBOIRH2.foo.co")));
    assert!(!cache.add(chunk("BBAAAAAAAAAAAAAACEYTBOIRH2.foo.co")));
    assert!(cache.add(chunk("AAAAAAAAAAAAAAAAPMRGM33PEI5.foo.co")));
    assert!(cache.add(chunk("AAAAAAAAAAAAAAAAPMRGM33PEI5.foo.co")));
    assert_eq!(cache.get_value("AAAAAAAAAAAAA").unwrap(), b"{\"foo\":\"bar\"}".to_vec());
}

#[test]
fn invalid_base32_text_gives_no_value() {
    let mut cache = MessageBufferCache::new(3);
    assert!(cache.add(chunk("BAAAAAAAAAAAAAAB1.foo.co")));
    assert_eq!(cache.get_text("AAAAAAAAAAAAA").unwrap(), "1");
    assert!(cache.get_value("AAAAAAAAAAAAA").is_none());
    assert!(cache.get_value("BBBBBBBBBBBBB").is_none());
}

#[test]
fn time_checksum_and_addresses() {
    assert_eq!(get_checksum(&[1, 2, 4, 8, 16]), 31);
    assert_eq!(get_checksum(&[255, 0, 0, 0, 0]), 0);
    assert_eq!(get_checksum(&[]), 0);
    let t: [u8; 8] = [1, 2, 3, 4, 5, 6, 7, 8];
    assert_eq!(response_address(false, &t), [10, 1, 2, 3]);
    assert_eq!(response_address(true, &t), [11, 4, 5, 1 ^ 2 ^ 3 ^ 4 ^ 5]);
}

const ALPHA: &[u8; 32] = b"ABCDEFGHIJKLMNOPQRSTUVWXYZ234567";

fn pos_of(c: u8) -> usize {
    ALPHA.iter().position(|x| *x == c).unwrap()
}

/// Builds a label for `fragment` at `idx` of message `id13`; the last header
/// character is chosen so that the header folds to zero.
fn make_label(id13: &str, idx: usize, last: bool, fragment: &str) -> String {
    let version = if last { b'B' } else { b'A' };
    let mut header = vec![version, ALPHA[idx]];
    header.extend_from_slice(id13.as_bytes());
    let mut fold = 0usize;
    for c in &header {
        fold ^= pos_of(*c);
    }
    header.push(ALPHA[fold]);
    let mut s = String::from_utf8(header).unwrap();
    s.push_str(fragment);
    s
}

#[test]
fn payload_round_trip_in_any_order() {
    let payloads: [&[u8]; 4] = [b"", b"x", b"hello, tunnel", &[0u8, 255, 1, 2, 3, 4, 5, 6, 7, 8, 9, 10]];
    for (n, payload) in payloads.iter().enumerate() {
        let text = base32::encode(base32::Alphabet::RFC4648 { padding: false }, payload);
        let frags: Vec<String> = if text.is_empty() {
            vec![String::new()]
        } else {
            text.as_bytes().chunks(3).map(|c| String::from_utf8(c.to_vec()).unwrap()).collect()
        };
        let id13 = format!("{}MESSAGEIDXYZ", ALPHA[n] as char);
        let labels: Vec<String> = frags
            .iter()
            .enumerate()
            .map(|(i, f)| make_label(&id13, i, i + 1 == frags.len(), f))
            .collect();
        let mut cache = MessageBufferCache::new(4);
        let mut order: Vec<usize> = (0..labels.len()).rev().collect();
        order.push(0);
        let mut complete = false;
        for i in order {
            let c = MessageChunk::from(&format!("{}.foo.co", labels[i].to_lowercase()), "foo.co").unwrap();
            complete = cache.add(c);
        }
        assert!(complete);
        assert_eq!(cache.get_value(&id13).unwrap(), payload.to_vec());
    }
}
