//! Info-hash derivation against a fixed fixture and the serializer sink.

use sha1::{Digest, Sha1};

use bencode::decode::parse_torrent_file;
use bencode::hash::info_hash;
use bencode::encode::Serializer;
use bencode::value::ParseError;

const FIXTURE_INFO: &[u8] = b"d4:name7:example12:piece lengthi32768e6:pieces20:aabbccddeeffgghhiijje";

#[test]
fn info_hash_matches_reference_value() {
    let torrent = [
        &b"d8:announce22:http://tracker.example4:info"[..],
        FIXTURE_INFO,
        &b"e"[..],
    ]
    .concat();
    let root = parse_torrent_file(&torrent).unwrap();
    let (digest, hex_str) = info_hash(&root).unwrap();
    assert_eq!(hex_str, "b46f078e2957ef3f579d7fd97fb4dccf8dfa512b");
    assert_eq!(hex_str.len(), 40);
    // the same digest, computed directly over the canonical info bytes
    let direct: [u8; 20] = Sha1::digest(FIXTURE_INFO).into();
    assert_eq!(digest, direct);
    assert_eq!(hex_str, hex::encode(digest));
}

#[test]
fn info_hash_is_invariant_to_source_key_order() {
    let torrent_a = [
        &b"d8:announce22:http://tracker.example4:info"[..],
        FIXTURE_INFO,
        &b"e"[..],
    ]
    .concat();
    let torrent_b =
        b"d4:infod6:pieces20:aabbccddeeffgghhiijj12:piece lengthi32768e4:name7:examplee8:announce22:http://tracker.examplee";
    let root_a = parse_torrent_file(&torrent_a).unwrap();
    let root_b = parse_torrent_file(torrent_b).unwrap();
    let (digest_a, hex_a) = info_hash(&root_a).unwrap();
    let (digest_b, hex_b) = info_hash(&root_b).unwrap();
    assert_eq!(digest_a, digest_b);
    assert_eq!(hex_a, hex_b);
    assert_eq!(hex_a, "b46f078e2957ef3f579d7fd97fb4dccf8dfa512b");
}

#[test]
fn info_hash_without_info_entry_is_invalid_format() {
    let root = parse_torrent_file(b"d3:cow3:mooe").unwrap();
    assert_eq!(info_hash(&root), Err(ParseError::InvalidFormat));
}

#[test]
fn info_hash_with_non_dictionary_info_is_invalid_format() {
    let root = parse_torrent_file(b"d4:infoi7ee").unwrap();
    assert_eq!(info_hash(&root), Err(ParseError::InvalidFormat));
}

#[test]
fn serializer_accumulates_pushed_tokens() {
    let mut s = Serializer::new();
    s.push(b"4:");
    s.push(b"spam");
    assert_eq!(s.into_vec(), b"4:spam".to_vec());
}
