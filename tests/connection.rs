use diffuse::{object_id_of, parse_blob, Connection, ConnectionResult, Database, Packet, Record};
use crypto::digest::Digest;
use std::io::Write;

fn zlib(data: &[u8]) -> Vec<u8> {
    let mut enc = flate2::write::ZlibEncoder::new(Vec::new(), flate2::Compression::default());
    enc.write_all(data).unwrap();
    enc.finish().unwrap()
}

fn pack(records: &[Vec<u8>]) -> Vec<u8> {
    let mut out = b"PACK".to_vec();
    out.extend_from_slice(&[0, 0, 0, 2]);
    out.extend_from_slice(&(records.len() as u32).to_be_bytes());
    for r in records {
        out.extend_from_slice(r);
    }
    let mut hasher = crypto::sha1::Sha1::new();
    hasher.input(&out);
    let mut trailer = [0u8; 20];
    hasher.result(&mut trailer);
    out.extend_from_slice(&trailer);
    out
}

#[test]
fn flush_line_ends_the_stream() {
    let mut conn = Connection::new(b"0000".to_vec(), Database::new());
    assert!(matches!(conn.receive_packet(), Err(ConnectionResult::EndOfStream)));
}

#[test]
fn control_line_gives_its_payload() {
    let mut conn = Connection::new(b"0009helloMORE".to_vec(), Database::new());
    match conn.receive_packet() {
        Ok(Packet::Message { size, data }) => {
            assert_eq!(size, 9);
            assert_eq!(data, b"hello".to_vec());
        }
        _ => panic!("expected a message"),
    }
}

#[test]
fn lines_follow_each_other() {
    let mut conn = Connection::new(b"0006ab0004000".to_vec(), Database::new());
    match conn.receive_packet() {
        Ok(Packet::Message { size, data }) => {
            assert_eq!(size, 6);
            assert_eq!(data, b"ab".to_vec());
        }
        _ => panic!("expected a message"),
    }
    match conn.receive_packet() {
        Ok(Packet::Message { size, data }) => {
            assert_eq!(size, 4);
            assert!(data.is_empty());
        }
        _ => panic!("expected an empty message"),
    }
    assert!(matches!(conn.receive_packet(), Err(ConnectionResult::IOError)));
}

#[test]
fn short_reads_and_bad_headers() {
    let mut short = Connection::new(b"000ahi".to_vec(), Database::new());
    assert!(matches!(short.receive_packet(), Err(ConnectionResult::IOError)));
    let mut empty = Connection::new(Vec::new(), Database::new());
    assert!(matches!(empty.receive_packet(), Err(ConnectionResult::IOError)));
    let mut bad = Connection::new(b"zz12".to_vec(), Database::new());
    assert!(matches!(bad.receive_packet(), Err(ConnectionResult::InvalidLength)));
    let mut tiny = Connection::new(b"0003".to_vec(), Database::new());
    assert!(matches!(tiny.receive_packet(), Err(ConnectionResult::InvalidLength)));
}

#[test]
fn pack_with_blob_and_tree() {
    let blob_id = object_id_of(&parse_blob(b"hi".to_vec()));
    let mut tree = b"100644 hi\0".to_vec();
    tree.extend_from_slice(&blob_id.as_bytes());
    assert_eq!(tree.len(), 30);
    let mut blob_rec = vec![0x32];
    blob_rec.extend_from_slice(&zlib(b"hi"));
    let mut tree_rec = vec![0xAE, 0x01];
    tree_rec.extend_from_slice(&zlib(&tree));
    let stream = pack(&[blob_rec, tree_rec]);
    let mut conn = Connection::new(stream, Database::new());
    match conn.receive_packet() {
        Ok(Packet::Pack { records, degraded, trailer_ok }) => {
            assert_eq!(records.len(), 2);
            assert_eq!(degraded, vec![false, false]);
            assert!(trailer_ok);
            match &records[0] {
                Record::Blob { data } => assert_eq!(data, &b"hi".to_vec()),
                _ => panic!("first record is no blob"),
            }
            match &records[1] {
                Record::Tree { entries, .. } => {
                    assert_eq!(entries.len(), 1);
                    assert_eq!(entries[0].name, "hi\0");
                    assert_eq!(entries[0].mode, b"100644 ".to_vec());
                    assert_eq!(entries[0].object_id, blob_id);
                }
                _ => panic!("second record is no tree"),
            }
        }
        _ => panic!("expected a pack"),
    }
    let db = conn.get_database();
    assert_eq!(db.object_count(), 2);
    assert!(matches!(db.fetch(&blob_id), Some(Record::Blob { .. })));
    let trees = db
        .object_ids()
        .iter()
        .filter(|id| matches!(db.fetch(id), Some(Record::Tree { .. })))
        .count();
    assert_eq!(trees, 1);
}

#[test]
fn ref_delta_against_stored_base() {
    let base_id = object_id_of(&parse_blob(b"abcdefgh".to_vec()));
    let mut base_rec = vec![0xB8, 0x00];
    base_rec.extend_from_slice(&zlib(b"abcdefgh"));
    let mut delta_rec = vec![0x79];
    delta_rec.extend_from_slice(&base_id.as_bytes());
    delta_rec.extend_from_slice(&zlib(&[8, 7, 0x91, 2, 4, 3, b'X', b'Y', b'Z']));
    let mut conn = Connection::new(pack(&[base_rec, delta_rec]), Database::new());
    match conn.receive_packet() {
        Ok(Packet::Pack { records, degraded, trailer_ok }) => {
            assert_eq!(degraded, vec![false, false]);
            assert!(trailer_ok);
            match &records[1] {
                Record::Blob { data } => assert_eq!(data, &b"cdefXYZ".to_vec()),
                _ => panic!("delta result is no blob"),
            }
        }
        _ => panic!("expected a pack"),
    }
    assert_eq!(conn.get_database().object_count(), 2);
}

#[test]
fn ref_delta_with_missing_base_is_degraded() {
    let mut delta_rec = vec![0x79];
    delta_rec.extend_from_slice(&[0x42u8; 20]);
    delta_rec.extend_from_slice(&zlib(&[8, 7, 0x91, 2, 4, 3, b'X', b'Y', b'Z']));
    let mut blob_rec = vec![0x32];
    blob_rec.extend_from_slice(&zlib(b"hi"));
    let mut conn = Connection::new(pack(&[delta_rec, blob_rec]), Database::new());
    match conn.receive_packet() {
        Ok(Packet::Pack { records, degraded, trailer_ok }) => {
            assert_eq!(degraded, vec![true, false]);
            assert!(trailer_ok);
            match &records[0] {
                Record::Blob { data } => assert_eq!(data, &b"XYZ".to_vec()),
                _ => panic!("degraded result is no blob"),
            }
        }
        _ => panic!("expected a pack"),
    }
    let db = conn.get_database();
    assert_eq!(db.object_count(), 2);
    assert!(db.fetch(&object_id_of(&parse_blob(b"hi".to_vec()))).is_some());
}

#[test]
fn pack_errors_keep_earlier_records() {
    let mut blob_rec = vec![0x32];
    blob_rec.extend_from_slice(&zlib(b"hi"));
    let ofs = vec![0x62, 0x01];
    let mut conn = Connection::new(pack(&[blob_rec.clone(), ofs]), Database::new());
    assert!(matches!(conn.receive_packet(), Err(ConnectionResult::UnsupportedFeature)));
    assert_eq!(conn.get_database().object_count(), 1);

    let unknown = vec![0x52, 0x01];
    let mut conn2 = Connection::new(pack(&[unknown]), Database::new());
    assert!(matches!(conn2.receive_packet(), Err(ConnectionResult::UnknownRecordType(5))));

    let garbage = vec![0x32, 0x00, 0x01, 0x02];
    let mut conn3 = Connection::new(pack(&[blob_rec.clone(), garbage]), Database::new());
    assert!(matches!(conn3.receive_packet(), Err(ConnectionResult::DecompressionError)));
    assert_eq!(conn3.get_database().object_count(), 1);

    let mut no_trailer = pack(&[blob_rec]);
    no_trailer.truncate(no_trailer.len() - 1);
    let mut conn4 = Connection::new(no_trailer, Database::new());
    assert!(matches!(conn4.receive_packet(), Err(ConnectionResult::IOError)));
    assert_eq!(conn4.get_database().object_count(), 1);
}

#[test]
fn corrupted_trailer_is_reported() {
    let mut blob_rec = vec![0x32];
    blob_rec.extend_from_slice(&zlib(b"hi"));
    let mut stream = pack(&[blob_rec]);
    let last = stream.len() - 1;
    stream[last] ^= 0xff;
    let mut conn = Connection::new(stream, Database::new());
    match conn.receive_packet() {
        Ok(Packet::Pack { records, trailer_ok, .. }) => {
            assert_eq!(records.len(), 1);
            assert!(!trailer_ok);
        }
        _ => panic!("expected a pack"),
    }
    assert!(conn.at_end());
    assert_eq!(conn.get_database().object_count(), 1);
}

#[test]
fn malformed_tree_and_delta_stop_the_pack() {
    let mut tree_rec = vec![0x23];
    tree_rec.extend_from_slice(&zlib(b"1 x"));
    let mut conn = Connection::new(pack(&[tree_rec]), Database::new());
    assert!(matches!(conn.receive_packet(), Err(ConnectionResult::MalformedTree)));
    assert_eq!(conn.get_database().object_count(), 0);

    let mut bad_delta = vec![0x79];
    bad_delta.extend_from_slice(&[0x42u8; 20]);
    bad_delta.extend_from_slice(&zlib(&[8, 7, 9, b'X']));
    let mut conn2 = Connection::new(pack(&[bad_delta]), Database::new());
    assert!(matches!(conn2.receive_packet(), Err(ConnectionResult::MalformedDelta)));
}

#[test]
fn pack_after_control_lines() {
    let mut blob_rec = vec![0x32];
    blob_rec.extend_from_slice(&zlib(b"hi"));
    let mut stream = b"0008want".to_vec();
    stream.extend_from_slice(&pack(&[blob_rec]));
    stream.extend_from_slice(b"0000");
    let mut conn = Connection::new(stream, Database::new());
    assert!(matches!(conn.receive_packet(), Ok(Packet::Message { size: 8, .. })));
    assert!(matches!(conn.receive_packet(), Ok(Packet::Pack { .. })));
    assert!(!conn.at_end());
    assert!(matches!(conn.receive_packet(), Err(ConnectionResult::EndOfStream)));
    assert!(conn.at_end());
}

#[test]
fn record_size_is_advisory() {
    let mut small = vec![0x32];
    small.extend_from_slice(&zlib(b"hi"));
    let mut huge = vec![0xBF, 0xFF, 0xFF, 0xFF, 0xFF, 0xFF, 0x7F];
    huge.extend_from_slice(&zlib(b"hi"));
    for rec in [small, huge] {
        let mut conn = Connection::new(pack(&[rec]), Database::new());
        match conn.receive_packet() {
            Ok(Packet::Pack { records, .. }) => match &records[0] {
                Record::Blob { data } => assert_eq!(data, &b"hi".to_vec()),
                _ => panic!("not a blob"),
            },
            _ => panic!("expected a pack"),
        }
        assert!(conn.at_end());
    }
}
