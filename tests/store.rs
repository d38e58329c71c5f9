use diffuse::{
    get_object_id, object_id_of, parse_blob, parse_commit, parse_ofs_delta, parse_ref_delta,
    parse_tree, ConnectionResult, Database, ObjectID, Record,
};

#[test]
fn empty_blob_and_tree_have_the_well_known_ids() {
    assert_eq!(
        get_object_id(&Record::Blob { data: Vec::new() }),
        "e69de29bb2d1d6434b8b29ae775ad8c2e48c5391"
    );
    assert_eq!(
        get_object_id(&Record::Tree { data: Vec::new(), entries: Vec::new() }),
        "4b825dc642cb6eb9a060e54bf8d69288fbee4904"
    );
}

#[test]
fn object_id_is_deterministic_and_depends_on_type() {
    let a = object_id_of(&parse_blob(b"hi".to_vec()));
    let b = object_id_of(&parse_blob(b"hi".to_vec()));
    assert_eq!(a, b);
    let c = object_id_of(&parse_commit(b"hi".to_vec()));
    assert_ne!(a, c);
    assert_eq!(a.to_hex_string().len(), 40);
}

#[test]
fn inserting_twice_adds_one_entry() {
    let mut db = Database::new();
    assert_eq!(db.object_count(), 0);
    let first = db.insert(parse_blob(b"hello".to_vec())).unwrap();
    let second = db.insert(parse_blob(b"hello".to_vec())).unwrap();
    assert_eq!(first, second);
    assert_eq!(db.object_count(), 1);
    db.insert(parse_blob(b"other".to_vec())).unwrap();
    assert_eq!(db.object_count(), 2);
    assert_eq!(db.object_ids().len(), 2);
    match db.fetch(&first) {
        Some(Record::Blob { data }) => assert_eq!(data, &b"hello".to_vec()),
        _ => panic!("blob not found"),
    }
    let absent = ObjectID::from_oid_bytes([7u8; 20]);
    assert!(db.fetch(&absent).is_none());
}

#[test]
fn object_id_text_round_trip() {
    let bytes: [u8; 20] = [
        0x00, 0x01, 0x02, 0xab, 0xcd, 0xef, 0x10, 0x20, 0x30, 0x40, 0x50, 0x60, 0x70, 0x80, 0x90,
        0xa0, 0xb0, 0xc0, 0xd0, 0xff,
    ];
    let id = ObjectID::from_oid_bytes(bytes);
    let text = id.to_hex_string();
    assert_eq!(text, "000102abcdef102030405060708090a0b0c0d0ff");
    let back = ObjectID::from_oid_string(text).unwrap();
    assert_eq!(back, id);
    assert_eq!(back.as_bytes(), bytes);
    let upper = ObjectID::from_oid_string("000102ABCDEF102030405060708090A0B0C0D0FF".to_string())
        .unwrap();
    assert_eq!(upper.to_hex_string(), "000102abcdef102030405060708090a0b0c0d0ff");
    assert!(ObjectID::from_oid_string("abcd".to_string()).is_none());
    assert!(ObjectID::from_oid_string("x".repeat(40)).is_none());
}

fn tree_bytes(entries: &[(&[u8], &[u8], [u8; 20])]) -> Vec<u8> {
    let mut out = Vec::new();
    for (mode, name, id) in entries {
        out.extend_from_slice(mode);
        out.push(b' ');
        out.extend_from_slice(name);
        out.push(0);
        out.extend_from_slice(id);
    }
    out
}

#[test]
fn tree_entries_round_trip() {
    let content = tree_bytes(&[
        (b"100644", b"README", [1u8; 20]),
        (b"40000", b"src", [2u8; 20]),
        (b"100755", b"run.sh", [3u8; 20]),
    ]);
    match parse_tree(content.clone()) {
        Some(Record::Tree { data, entries }) => {
            assert_eq!(data, content);
            assert_eq!(entries.len(), 3);
            assert_eq!(entries[0].mode, b"100644 ".to_vec());
            assert_eq!(entries[0].name, "README\0");
            assert_eq!(entries[0].object_id.as_bytes(), [1u8; 20]);
            assert_eq!(entries[1].mode, b"40000 ".to_vec());
            assert_eq!(entries[1].name, "src\0");
            assert_eq!(entries[1].object_id.as_bytes(), [2u8; 20]);
            assert_eq!(entries[2].name, "run.sh\0");
            assert_eq!(entries[2].object_id.as_bytes(), [3u8; 20]);
        }
        _ => panic!("tree did not parse"),
    }
}

#[test]
fn empty_tree_has_no_entries() {
    match parse_tree(Vec::new()) {
        Some(Record::Tree { entries, .. }) => assert!(entries.is_empty()),
        _ => panic!("empty tree did not parse"),
    }
}

#[test]
fn truncated_tree_is_rejected() {
    let mut content = tree_bytes(&[(b"100644", b"a", [9u8; 20])]);
    content.pop();
    assert!(parse_tree(content).is_none());
    assert!(parse_tree(b"100644 no-nul".to_vec()).is_none());
    assert!(parse_tree(b"no-space".to_vec()).is_none());
}

#[test]
fn tree_names_are_decoded_leniently() {
    let content = tree_bytes(&[(b"100644", &[0x66, 0xff, 0x67], [4u8; 20])]);
    match parse_tree(content) {
        Some(Record::Tree { entries, .. }) => assert_eq!(entries[0].name, "f\u{fffd}g\0"),
        _ => panic!("tree did not parse"),
    }
}

#[test]
fn commit_keeps_raw_bytes_and_text() {
    match parse_commit(b"tree abc\n\nmsg".to_vec()) {
        Record::Commit { data, commit_info } => {
            assert_eq!(data, b"tree abc\n\nmsg".to_vec());
            assert_eq!(commit_info, "tree abc\n\nmsg");
        }
        _ => panic!("not a commit"),
    }
    match parse_commit(vec![0xc3, 0x28]) {
        Record::Commit { commit_info, .. } => assert_eq!(commit_info, "\u{fffd}("),
        _ => panic!("not a commit"),
    }
}

#[test]
fn offset_delta_is_unsupported_and_ref_delta_is_a_blob() {
    assert!(matches!(parse_ofs_delta(vec![1, 2]), Err(ConnectionResult::UnsupportedFeature)));
    match parse_ref_delta(vec![5, 6]) {
        Record::Blob { data } => assert_eq!(data, vec![5, 6]),
        _ => panic!("not a blob"),
    }
}

#[test]
fn tree_entry_keeps_its_delimiters() {
    let mut content = b"100644 hi\0".to_vec();
    content.extend_from_slice(&[0xAB; 20]);
    match parse_tree(content.clone()) {
        Some(Record::Tree { data, entries }) => {
            assert_eq!(data, content);
            assert_eq!(entries.len(), 1);
            assert_eq!(entries[0].mode, b"100644 ".to_vec());
            assert_eq!(entries[0].name, "hi\0");
            assert_eq!(entries[0].object_id.to_hex_string(), "ab".repeat(20));
        }
        _ => panic!("tree did not parse"),
    }
}
