//! The line protocol: request parsing, response formatting, bounded line
//! reads, resize dimensions, and the cache.

use vennbase::cache::LRUCacheBuilder;
use vennbase::ids::parse_uuid;
use vennbase::mime::MimeType;
use vennbase::protocol::{Request, parse_request, format_query_response, format_get_header, format_ok_save, format_unknown_method, read_string_until, read_line_limited};
use vennbase::resize::{Dimensions, Resize, is_resizeable_format};
use vennbase::vennbase::Vennbase;
use vennbase::VennError;

const ID: &str = "00010203-0405-0607-0809-0a0b0c0d0e0f";

#[test]
fn request_parsing() {
    assert!(matches!(parse_request(""), Request::Empty));
    match parse_request("query tag:a && tag:b") {
        Request::Query { expr } => assert_eq!(expr, "tag:a && tag:b"),
        _ => panic!("expected a query request"),
    }
    assert!(matches!(parse_request("query"), Request::QueryBad));
    match parse_request(&format!("get {}", ID)) {
        Request::Get { id, dims } => {
            assert_eq!(id, parse_uuid(ID).unwrap());
            assert!(dims.is_none());
        },
        _ => panic!("expected a get request"),
    }
    match parse_request(&format!("get {} 200xauto", ID)) {
        Request::Get { dims, .. } => {
            assert_eq!(dims, Some(Dimensions(Resize::Dimension(200), Resize::Auto)));
        },
        _ => panic!("expected a get request"),
    }
    match parse_request(&format!("get {} banana", ID)) {
        Request::Get { dims, .. } => assert!(dims.is_none()),
        _ => panic!("expected a get request"),
    }
    assert!(matches!(parse_request("get nonsense"), Request::GetBad));
    assert!(matches!(parse_request("get"), Request::GetBad));
    match parse_request("save image/png 2") {
        Request::Save { mime, tag_count } => {
            assert_eq!(mime.as_str(), "image/png");
            assert_eq!(tag_count, 2);
        },
        _ => panic!("expected a save request"),
    }
    assert!(matches!(parse_request("save nonsense 2"), Request::SaveBadMime));
    assert!(matches!(parse_request("save image/png x"), Request::SaveBadCount));
    assert!(matches!(parse_request("save image/png"), Request::SaveBadCount));
    assert!(matches!(parse_request("del x"), Request::Del));
    assert!(matches!(parse_request("replace x"), Request::Replace));
    match parse_request("frobnicate x") {
        Request::Unknown { method } => assert_eq!(method, "frobnicate"),
        _ => panic!("expected an unknown request"),
    }
}

#[test]
fn response_formatting() {
    let id = parse_uuid(ID).unwrap();
    let mime = MimeType::from("image/png").unwrap();
    assert_eq!(format_get_header(&mime, 3), "image/png 3\n");
    assert_eq!(format_ok_save(id.as_slice()), format!("OK {}\n", ID));
    assert_eq!(
        format_unknown_method("frobnicate"),
        "Unknown method: 'frobnicate'\n"
    );
}

#[test]
fn query_response_blocks() {
    let mut db = Vennbase::new();
    let mime = MimeType::from("text/plain").unwrap();
    let saved = db
        .save_record(&mime, b"data", vec!["alpha".to_string(), "beta".to_string()])
        .unwrap();
    let results = db.query_records("tag:alpha").unwrap();
    let text = format_query_response(&results, &db);
    let id_str = format_ok_save(saved.id.as_slice());
    let id_str = id_str.trim_start_matches("OK ").trim_end();
    assert_eq!(
        text,
        format!("OK 1\n{}\ntext/plain\n2\nalpha\nbeta\n", id_str)
    );
    let empty = db.query_records("mime:video/mp4").unwrap();
    assert_eq!(format_query_response(&empty, &db), "OK 0\n");
}

#[test]
fn bounded_line_reads() {
    let data = b"hello\nworld";
    let (line, consumed) = read_string_until(data, b'\n', 1024).unwrap();
    assert_eq!(line, "hello");
    assert_eq!(consumed, 6);
    let (rest, rest_consumed) = read_string_until(&data[consumed..], b'\n', 1024).unwrap();
    assert_eq!(rest, "world");
    assert_eq!(rest_consumed, 5);
    let (clipped, c2) = read_string_until(data, b'\n', 3).unwrap();
    assert_eq!(clipped, "hel");
    assert_eq!(c2, 3);
    assert!(matches!(
        read_string_until(&[0xffu8, 0xfe], b'\n', 10),
        Err(VennError::Io)
    ));
    let (line2, c3) = read_line_limited(b"abc\ndef", 100).unwrap();
    assert_eq!(line2, "abc");
    assert_eq!(c3, 4);
}

#[test]
fn dimension_tokens() {
    assert_eq!(
        Dimensions::from_dim_str("200xauto").unwrap(),
        Dimensions(Resize::Dimension(200), Resize::Auto)
    );
    assert_eq!(
        Dimensions::from_dim_str("autoxauto").unwrap(),
        Dimensions(Resize::Auto, Resize::Auto)
    );
    assert_eq!(
        Dimensions::from_dim_str("10x20").unwrap(),
        Dimensions(Resize::Dimension(10), Resize::Dimension(20))
    );
    assert!(Dimensions::from_dim_str("0x10").is_err());
    assert!(Dimensions::from_dim_str("10").is_err());
    assert!(Dimensions::from_dim_str("axb").is_err());
    assert!(Dimensions::from_dim_str("10x-5").is_err());
}

#[test]
fn resizable_formats() {
    let png = MimeType::from("image/png").unwrap();
    let jpeg = MimeType::from("image/jpeg").unwrap();
    let webp = MimeType::from("image/webp").unwrap();
    let bmp = MimeType::from("image/bmp").unwrap();
    let gif = MimeType::from("image/gif").unwrap();
    let mp4 = MimeType::from("video/mp4").unwrap();
    assert!(is_resizeable_format(&png));
    assert!(is_resizeable_format(&jpeg));
    assert!(is_resizeable_format(&webp));
    assert!(is_resizeable_format(&bmp));
    assert!(!is_resizeable_format(&gif));
    assert!(!is_resizeable_format(&mp4));
}

#[test]
fn fetch_requests_transcoding_for_images() {
    let mut db = Vennbase::new();
    let png = MimeType::from("image/png").unwrap();
    let mp4 = MimeType::from("video/mp4").unwrap();
    let saved_png = db.save_record(&png, b"p", vec![]).unwrap();
    let saved_mp4 = db.save_record(&mp4, b"v", vec![]).unwrap();
    let dims = Some(Dimensions(Resize::Dimension(200), Resize::Auto));
    assert!(db.fetch_record_by_id(saved_png.id.as_slice(), &dims).unwrap().transcode);
    assert!(!db.fetch_record_by_id(saved_png.id.as_slice(), &None).unwrap().transcode);
    assert!(!db.fetch_record_by_id(saved_mp4.id.as_slice(), &dims).unwrap().transcode);
}

#[test]
fn cache_stores_and_evicts() {
    let mut cache = LRUCacheBuilder::<u32>::new().with_ttl(60).with_max_size(2).build();
    cache.save("a".to_string(), 1);
    cache.save("b".to_string(), 2);
    assert_eq!(cache.get("a".to_string()), Some(&1));
    assert_eq!(cache.get("b".to_string()), Some(&2));
    cache.save("c".to_string(), 3);
    assert_eq!(cache.get("a".to_string()), None);
    assert_eq!(cache.get("c".to_string()), Some(&3));
    let unbounded = LRUCacheBuilder::<u32>::default().build();
    assert_eq!(unbounded.get("x".to_string()), None);
}
