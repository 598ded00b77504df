//! Encoding primitives: little-endian integers, decimal strings, record
//! id strings, MIME validation, base64 file names, and the `.map` JSON.

use vennbase::binio::{i64_to_le_bytes, i64_from_le_bytes, u64_to_dec_string, parse_u64_dec, str_eq};
use vennbase::ids::{uuid_to_string, parse_uuid};
use vennbase::mime::MimeType;
use vennbase::tags::InvertedIndexMap;

#[test]
fn i64_le_bytes_round_trip() {
    for v in [0i64, 1, -1, 1700000000123, i64::MAX, i64::MIN] {
        let bytes = i64_to_le_bytes(v);
        assert_eq!(bytes.len(), 8);
        assert_eq!(i64_from_le_bytes(bytes.as_slice()), v);
        assert_eq!(bytes, v.to_le_bytes().to_vec());
    }
}

#[test]
fn decimal_strings() {
    assert_eq!(u64_to_dec_string(0), "0");
    assert_eq!(u64_to_dec_string(7), "7");
    assert_eq!(u64_to_dec_string(1234), "1234");
    assert_eq!(u64_to_dec_string(u64::MAX), "18446744073709551615");
    assert_eq!(parse_u64_dec("0"), Some(0));
    assert_eq!(parse_u64_dec("1234"), Some(1234));
    assert_eq!(parse_u64_dec("18446744073709551615"), Some(u64::MAX));
    assert_eq!(parse_u64_dec("18446744073709551616"), None);
    assert_eq!(parse_u64_dec(""), None);
    assert_eq!(parse_u64_dec("12a"), None);
    assert_eq!(parse_u64_dec("+1"), None);
}

#[test]
fn str_eq_compares_by_characters() {
    assert!(str_eq("abc", "abc"));
    assert!(!str_eq("abc", "abd"));
    assert!(!str_eq("abc", "ab"));
    assert!(str_eq("", ""));
}

#[test]
fn uuid_string_round_trip() {
    let id: Vec<u8> = (0u8..16).collect();
    let s = uuid_to_string(id.as_slice());
    assert_eq!(s, "00010203-0405-0607-0809-0a0b0c0d0e0f");
    let back = parse_uuid(&s).unwrap();
    assert_eq!(back, id);
}

#[test]
fn uuid_parsing_rejects_bad_shapes() {
    assert!(parse_uuid("").is_none());
    assert!(parse_uuid("00010203-0405-0607-0809-0a0b0c0d0e0").is_none());
    assert!(parse_uuid("00010203x0405-0607-0809-0a0b0c0d0e0f").is_none());
    assert!(parse_uuid("00010203-0405-0607-0809-0A0B0C0D0E0F").is_none());
    assert!(parse_uuid("g0010203-0405-0607-0809-0a0b0c0d0e0f").is_none());
}

#[test]
fn mime_validation() {
    assert_eq!(MimeType::from("image/png").unwrap().as_str(), "image/png");
    assert_eq!(MimeType::from("IMAGE/PNG").unwrap().as_str(), "image/png");
    assert!(MimeType::from("plain").is_err());
    assert!(MimeType::from("a//b").is_err());
    assert!(MimeType::from("a/b").is_ok());
    assert!(MimeType::from("/a").is_err());
    assert!(MimeType::from("text/pl ain").is_err());
    let long = format!("text/{}", "x".repeat(260));
    assert!(MimeType::from(&long).is_err());
}

#[test]
fn mime_base64_pathname_round_trip() {
    let m = MimeType::from("image/png").unwrap();
    let name = m.to_base64_pathname();
    assert_eq!(name, "aW1hZ2UvcG5n");
    let back = MimeType::from_base64_filename(&name).unwrap();
    assert_eq!(back.as_str(), "image/png");
    let m2 = MimeType::from("video/mp4").unwrap();
    let name2 = m2.to_base64_pathname();
    assert_eq!(
        MimeType::from_base64_filename(&name2).unwrap().as_str(),
        "video/mp4"
    );
}

#[test]
fn base64_filename_rejects_garbage() {
    assert!(MimeType::from_base64_filename("???").is_err());
    assert!(MimeType::from_base64_filename("aW1hZ2UvcG5n=").is_err());
}

#[test]
fn map_json_round_trip() {
    let mut map = InvertedIndexMap::new();
    assert_eq!(map.to_map_json(), "{\"map\":[]}");
    map.add_tag("alpha", "00010203-0405-0607-0809-0a0b0c0d0e0f");
    let text = map.to_map_json();
    assert_eq!(
        text,
        "{\"map\":[[\"alpha\",[\"00010203-0405-0607-0809-0a0b0c0d0e0f\"]]]}"
    );
    let back = InvertedIndexMap::from_map_json(&text).unwrap();
    let tags = back.get_tags_for_id("00010203-0405-0607-0809-0a0b0c0d0e0f");
    assert_eq!(tags, vec!["alpha".to_string()]);
}

#[test]
fn map_json_escapes_control_and_quotes() {
    let mut map = InvertedIndexMap::new();
    map.add_tag("a\"b\\c\nd", "x");
    let text = map.to_map_json();
    assert_eq!(text, "{\"map\":[[\"a\\\"b\\\\c\\u000ad\",[\"x\"]]]}");
    let back = InvertedIndexMap::from_map_json(&text).unwrap();
    let tags = back.get_tags_for_id("x");
    assert_eq!(tags, vec!["a\"b\\c\nd".to_string()]);
}

#[test]
fn map_json_accepts_short_escapes() {
    let back = InvertedIndexMap::from_map_json("{\"map\":[[\"a\\nb\",[\"x\"]]]}").unwrap();
    let tags = back.get_tags_for_id("x");
    assert_eq!(tags, vec!["a\nb".to_string()]);
}

#[test]
fn map_json_rejects_malformed_text() {
    assert!(InvertedIndexMap::from_map_json("").is_none());
    assert!(InvertedIndexMap::from_map_json("{\"map\":[").is_none());
    assert!(InvertedIndexMap::from_map_json("{\"map\":[]} ").is_none());
    assert!(InvertedIndexMap::from_map_json("{\"map\":[[\"a\",[\"x\"],]]}").is_none());
    // duplicate tags are refused
    assert!(
        InvertedIndexMap::from_map_json("{\"map\":[[\"a\",[\"x\"]],[\"a\",[\"y\"]]]}").is_none()
    );
}

#[test]
fn add_tag_twice_does_not_duplicate() {
    let mut map = InvertedIndexMap::new();
    map.add_tag("t", "id-1");
    map.add_tag("t", "id-1");
    let tags = map.get_tags_for_id("id-1");
    assert_eq!(tags, vec!["t".to_string()]);
}

#[test]
fn remove_tag_detaches_id() {
    let mut map = InvertedIndexMap::new();
    map.add_tag("t", "id-1");
    map.add_tag("t", "id-2");
    map.remove_tag("t", "id-1");
    assert!(map.get_tags_for_id("id-1").is_empty());
    assert_eq!(map.get_tags_for_id("id-2"), vec!["t".to_string()]);
}
