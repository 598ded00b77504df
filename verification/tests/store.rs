//! The storage engine: partition files, the database coordinator, and
//! re-opening from a directory image.

use vennbase::mime::VennTimestamp;
use vennbase::partition::{Partition, read_record_data};
use vennbase::vennbase::{Vennbase, DirEntry};
use vennbase::VennError;

/// Builds the partition file bytes a sequence of saves produced.
fn file_image(header: &[u8], slots: &[Vec<u8>]) -> Vec<u8> {
    let mut out = header.to_vec();
    for s in slots {
        out.extend_from_slice(s);
    }
    out
}

#[test]
fn partition_push_and_lookup() {
    let mut p = Partition::new(VennTimestamp(11), VennTimestamp(22));
    let (id, slot) = p.push_record(b"abc").unwrap();
    assert_eq!(slot.len(), 25 + 3);
    assert_eq!(slot[0], 0x80);
    assert_eq!(&slot[1..17], id.as_slice());
    assert_eq!(&slot[17..25], &3u64.to_le_bytes());
    assert_eq!(&slot[25..], b"abc");
    let info = p.get_record_information(id.as_slice()).unwrap();
    assert!(info.is_active);
    assert_eq!(info.start, 41);
    assert_eq!(info.size, 3);
    assert!(p.get_record_information(&[0u8; 16]).is_none());
}

#[test]
fn partition_file_round_trip() {
    let mut p = Partition::new(VennTimestamp(-5), VennTimestamp(7));
    let header = Partition::header_bytes(VennTimestamp(-5), VennTimestamp(7));
    let (id1, slot1) = p.push_record(b"first").unwrap();
    let (id2, slot2) = p.push_record(b"second!").unwrap();
    let bytes = file_image(&header, &[slot1, slot2]);
    let q = Partition::from_bytes(&bytes).unwrap();
    assert_eq!(q.records_len(), 2);
    assert_eq!(q.created_at().0, -5);
    assert_eq!(q.last_compaction().0, 7);
    let i1 = q.get_record_information(id1.as_slice()).unwrap();
    assert_eq!((i1.start, i1.size, i1.is_active), (41, 5, true));
    let i2 = q.get_record_information(id2.as_slice()).unwrap();
    assert_eq!((i2.start, i2.size, i2.is_active), (41 + 5 + 25, 7, true));
    assert_eq!(read_record_data(&bytes, i1), b"first".to_vec());
    assert_eq!(read_record_data(&bytes, i2), b"second!".to_vec());
}

#[test]
fn partition_file_length_formula() {
    let mut p = Partition::new(VennTimestamp(0), VennTimestamp(0));
    let header = Partition::header_bytes(VennTimestamp(0), VennTimestamp(0));
    let sizes: [usize; 3] = [3, 0, 10];
    let mut slots = Vec::new();
    for s in sizes {
        let data = vec![7u8; s];
        let (_, slot) = p.push_record(&data).unwrap();
        slots.push(slot);
    }
    let bytes = file_image(&header, &slots);
    let total: usize = sizes.iter().sum();
    assert_eq!(bytes.len(), 16 + sizes.len() * 25 + total);
}

#[test]
fn partition_rejects_malformed_bytes() {
    assert!(matches!(
        Partition::from_bytes(&[0u8; 10]),
        Err(VennError::ShortRead)
    ));
    // a full header followed by a cut-off record header
    let mut bytes = vec![0u8; 16];
    bytes.extend_from_slice(&[0x80, 1, 2]);
    assert!(matches!(
        Partition::from_bytes(&bytes),
        Err(VennError::MalformedPartition)
    ));
    // impossible flag bits
    let mut bytes2 = vec![0u8; 16];
    bytes2.push(0x81);
    bytes2.extend_from_slice(&[0u8; 24]);
    assert!(matches!(
        Partition::from_bytes(&bytes2),
        Err(VennError::MalformedPartition)
    ));
    // data length pointing past the end of the file
    let mut bytes3 = vec![0u8; 16];
    bytes3.push(0x80);
    bytes3.extend_from_slice(&[9u8; 16]);
    bytes3.extend_from_slice(&100u64.to_le_bytes());
    assert!(matches!(
        Partition::from_bytes(&bytes3),
        Err(VennError::MalformedPartition)
    ));
}

#[test]
fn save_then_fetch_returns_the_data() {
    let mut db = Vennbase::new();
    let mime = vennbase::mime::MimeType::from("image/png").unwrap();
    let outcome = db.save_record(&mime, b"abc", vec![]).unwrap();
    assert!(outcome.new_partition_header.is_some());
    let hit = db.fetch_record_by_id(outcome.id.as_slice(), &None).unwrap();
    assert_eq!(hit.mime.as_str(), "image/png");
    assert_eq!(hit.info.size, 3);
    assert!(!hit.transcode);
    let bytes = file_image(
        outcome.new_partition_header.as_ref().unwrap(),
        &[outcome.record_slot.clone()],
    );
    assert_eq!(read_record_data(&bytes, &hit.info), b"abc".to_vec());
    assert!(db.fetch_record_by_id(&[0u8; 16], &None).is_none());
}

#[test]
fn restart_durability() {
    // save into a fresh database, rebuild the directory image, reopen
    let mut db = Vennbase::new();
    let mime = vennbase::mime::MimeType::from("image/png").unwrap();
    let outcome = db.save_record(&mime, b"abc", vec![]).unwrap();
    let bytes = file_image(
        outcome.new_partition_header.as_ref().unwrap(),
        &[outcome.record_slot.clone()],
    );
    let entries = vec![DirEntry { filename: outcome.partition_filename.clone(), bytes: bytes.clone() }];
    let db2 = Vennbase::from_dir(entries, &outcome.map_json).unwrap();
    assert_eq!(db2.partition_count(), 1);
    let hit = db2.fetch_record_by_id(outcome.id.as_slice(), &None).unwrap();
    assert_eq!(hit.mime.as_str(), "image/png");
    assert_eq!(read_record_data(&bytes, &hit.info), b"abc".to_vec());
}

#[test]
fn reopen_skips_map_entry_and_rejects_junk() {
    let db = Vennbase::from_dir(
        vec![DirEntry { filename: ".map".to_string(), bytes: vec![] }],
        "{\"map\":[]}",
    )
    .unwrap();
    assert_eq!(db.partition_count(), 0);
    assert!(Vennbase::from_dir(
        vec![DirEntry { filename: "???".to_string(), bytes: vec![] }],
        "{\"map\":[]}",
    )
    .is_err());
    assert!(Vennbase::from_dir(vec![], "not json").is_err());
}

#[test]
fn tags_attach_on_save() {
    let mut db = Vennbase::new();
    let mime = vennbase::mime::MimeType::from("text/plain").unwrap();
    let outcome = db
        .save_record(&mime, b"data", vec!["alpha".to_string(), "beta".to_string()])
        .unwrap();
    let tags = db.get_tags_for_record(outcome.id.as_slice());
    assert_eq!(tags, vec!["alpha".to_string(), "beta".to_string()]);
}

#[test]
fn reserved_operations_change_nothing() {
    let mut db = Vennbase::new();
    let mime = vennbase::mime::MimeType::from("text/plain").unwrap();
    let outcome = db.save_record(&mime, b"x", vec![]).unwrap();
    db.delete_record("whatever");
    db.replace_record("whatever", b"y");
    assert!(db.fetch_record_by_id(outcome.id.as_slice(), &None).is_some());
}
