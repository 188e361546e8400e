use vectordb::{
    collection_file_name, collection_name_of_file, decode_collection, encode_collection,
    load_collection, wal_collection_name, wal_file_name, Collection, Embedding, Metadata,
    VectorDbError,
};

fn bits(values: &[f32]) -> Vec<u32> {
    values.iter().map(|v| v.to_bits()).collect()
}

fn sample() -> Collection {
    let mut collection = Collection::new("docs".into(), 2).unwrap();
    let mut metadata = Metadata::new();
    metadata.insert("title".into(), "Doc".into());
    collection
        .insert_embedding(Embedding::new(1, bits(&[0.1, 0.2]), metadata))
        .unwrap();
    collection
}

#[test]
fn encode_and_decode_round_trip() {
    let collection = sample();
    let bytes = encode_collection(&collection);
    let decoded = decode_collection("docs", &bytes).unwrap();

    assert_eq!(decoded.dimension(), 2);
    assert!(decoded.embedding(1).is_some());
}

#[test]
fn encoding_has_the_documented_layout() {
    let mut collection = Collection::new("c".into(), 1).unwrap();
    let mut metadata = Metadata::new();
    metadata.insert("k".into(), "v".into());
    collection
        .insert_embedding(Embedding::new(7, vec![0x3f80_0000], metadata))
        .unwrap();
    let bytes = encode_collection(&collection);
    let mut expected: Vec<u8> = b"VDB1".to_vec();
    expected.extend_from_slice(&1u16.to_le_bytes());
    expected.extend_from_slice(&1u64.to_le_bytes());
    expected.extend_from_slice(&1u64.to_le_bytes());
    expected.extend_from_slice(&7u64.to_le_bytes());
    expected.extend_from_slice(&1u64.to_le_bytes());
    expected.extend_from_slice(&1.0f32.to_bits().to_le_bytes());
    expected.extend_from_slice(&1u64.to_le_bytes());
    expected.extend_from_slice(&1u64.to_le_bytes());
    expected.extend_from_slice(b"k");
    expected.extend_from_slice(&1u64.to_le_bytes());
    expected.extend_from_slice(b"v");
    assert_eq!(bytes, expected);
}

#[test]
fn decoding_restores_every_field() {
    let collection = sample();
    let bytes = encode_collection(&collection);
    let decoded = decode_collection("docs", &bytes).unwrap();
    assert_eq!(decoded.name(), "docs");
    let e = decoded.embedding(1).unwrap();
    assert_eq!(e.vector, bits(&[0.1, 0.2]));
    assert_eq!(e.metadata.get("title").unwrap(), "Doc");
    assert_eq!(encode_collection(&decoded), bytes);
}

#[test]
fn truncated_file_is_an_io_error() {
    let bytes = encode_collection(&sample());
    for cut in [0usize, 3, 5, 13, 21, bytes.len() - 1] {
        let err = decode_collection("docs", &bytes[..cut]).unwrap_err();
        assert!(matches!(err, VectorDbError::Io(_)), "cut at {cut}");
    }
}

#[test]
fn bad_magic_is_refused() {
    let mut bytes = encode_collection(&sample());
    bytes[0] = b'X';
    let err = decode_collection("docs", &bytes).unwrap_err();
    assert_eq!(err.to_string(), "corrupted storage: invalid file magic");
}

#[test]
fn unknown_version_is_refused() {
    let mut bytes = encode_collection(&sample());
    bytes[4] = 9;
    let err = decode_collection("docs", &bytes).unwrap_err();
    assert_eq!(err.to_string(), "corrupted storage: unsupported file version 9");
}

#[test]
fn zero_dimension_in_file_is_refused() {
    let mut bytes = b"VDB1".to_vec();
    bytes.extend_from_slice(&1u16.to_le_bytes());
    bytes.extend_from_slice(&0u64.to_le_bytes());
    bytes.extend_from_slice(&0u64.to_le_bytes());
    let err = decode_collection("docs", &bytes).unwrap_err();
    assert!(matches!(err, VectorDbError::InvalidDimension));
}

#[test]
fn nan_in_file_is_refused() {
    let mut bytes = b"VDB1".to_vec();
    bytes.extend_from_slice(&1u16.to_le_bytes());
    bytes.extend_from_slice(&1u64.to_le_bytes());
    bytes.extend_from_slice(&1u64.to_le_bytes());
    bytes.extend_from_slice(&3u64.to_le_bytes());
    bytes.extend_from_slice(&1u64.to_le_bytes());
    bytes.extend_from_slice(&f32::NAN.to_bits().to_le_bytes());
    bytes.extend_from_slice(&0u64.to_le_bytes());
    let err = decode_collection("docs", &bytes).unwrap_err();
    assert_eq!(
        err.to_string(),
        "corrupted storage: failed to load embedding: vector contains NaN values"
    );
}

#[test]
fn duplicate_id_in_file_is_refused() {
    let mut bytes = b"VDB1".to_vec();
    bytes.extend_from_slice(&1u16.to_le_bytes());
    bytes.extend_from_slice(&1u64.to_le_bytes());
    bytes.extend_from_slice(&2u64.to_le_bytes());
    for _ in 0..2 {
        bytes.extend_from_slice(&4u64.to_le_bytes());
        bytes.extend_from_slice(&1u64.to_le_bytes());
        bytes.extend_from_slice(&0u32.to_le_bytes());
        bytes.extend_from_slice(&0u64.to_le_bytes());
    }
    let err = decode_collection("docs", &bytes).unwrap_err();
    assert_eq!(
        err.to_string(),
        "corrupted storage: failed to load embedding: vector with id 4 already exists in the index"
    );
}

#[test]
fn invalid_utf8_in_file_is_refused() {
    let mut bytes = b"VDB1".to_vec();
    bytes.extend_from_slice(&1u16.to_le_bytes());
    bytes.extend_from_slice(&1u64.to_le_bytes());
    bytes.extend_from_slice(&1u64.to_le_bytes());
    bytes.extend_from_slice(&4u64.to_le_bytes());
    bytes.extend_from_slice(&1u64.to_le_bytes());
    bytes.extend_from_slice(&0u32.to_le_bytes());
    bytes.extend_from_slice(&1u64.to_le_bytes());
    bytes.extend_from_slice(&1u64.to_le_bytes());
    bytes.push(0xff);
    let err = decode_collection("docs", &bytes).unwrap_err();
    assert!(matches!(err, VectorDbError::CorruptedStorage(_)));
}

#[test]
fn metadata_in_file_is_set_in_order() {
    let mut bytes = b"VDB1".to_vec();
    bytes.extend_from_slice(&1u16.to_le_bytes());
    bytes.extend_from_slice(&1u64.to_le_bytes());
    bytes.extend_from_slice(&1u64.to_le_bytes());
    bytes.extend_from_slice(&4u64.to_le_bytes());
    bytes.extend_from_slice(&1u64.to_le_bytes());
    bytes.extend_from_slice(&0u32.to_le_bytes());
    bytes.extend_from_slice(&3u64.to_le_bytes());
    for (k, v) in [("b", "1"), ("a", "2"), ("b", "3")] {
        bytes.extend_from_slice(&1u64.to_le_bytes());
        bytes.extend_from_slice(k.as_bytes());
        bytes.extend_from_slice(&1u64.to_le_bytes());
        bytes.extend_from_slice(v.as_bytes());
    }
    let decoded = decode_collection("docs", &bytes).unwrap();
    let e = decoded.embedding(4).unwrap();
    let entries: Vec<(String, String)> = e.metadata.entries().to_vec();
    assert_eq!(
        entries,
        vec![("a".to_string(), "2".to_string()), ("b".to_string(), "3".to_string())]
    );
}

#[test]
fn trailing_bytes_are_ignored() {
    let mut bytes = encode_collection(&sample());
    bytes.extend_from_slice(b"junk");
    assert!(decode_collection("docs", &bytes).is_ok());
}

#[test]
fn loading_checks_the_name_first() {
    let bytes = encode_collection(&sample());
    let err = load_collection("a/b", &bytes).unwrap_err();
    assert!(matches!(err, VectorDbError::InvalidCollectionName(n) if n == "a/b"));
    assert!(load_collection("docs", &bytes).is_ok());
}

#[test]
fn file_names_follow_the_collection_name() {
    assert_eq!(collection_file_name("docs"), "docs.vdb");
    assert_eq!(wal_file_name("docs"), "docs.vdb.wal");
}

#[test]
fn short_header_reports_unexpected_eof() {
    let err = decode_collection("docs", b"VDB").unwrap_err();
    match &err {
        VectorDbError::Io(e) => assert_eq!(e.kind(), std::io::ErrorKind::UnexpectedEof),
        other => panic!("unexpected error {other:?}"),
    }
    assert_eq!(err.to_string(), "io error: failed to fill whole buffer");
}

#[test]
fn header_is_checked_before_the_rest() {
    let mut ok = b"VDB1".to_vec();
    ok.extend_from_slice(&[1, 0]);
    ok.extend_from_slice(b"xy");
    let err = decode_collection("docs", &ok).unwrap_err();
    assert!(matches!(err, VectorDbError::Io(e) if e.kind() == std::io::ErrorKind::UnexpectedEof));
    let err = decode_collection("docs", &[b'V', b'D', b'B', b'2', 1, 0]).unwrap_err();
    assert_eq!(err.to_string(), "corrupted storage: invalid file magic");
    let err = decode_collection("docs", &[b'V', b'D', b'B', b'1', 2, 0]).unwrap_err();
    assert_eq!(err.to_string(), "corrupted storage: unsupported file version 2");
}

#[test]
fn collection_files_name_their_collection() {
    assert_eq!(collection_name_of_file("docs.vdb").as_deref(), Some("docs"));
    assert_eq!(collection_name_of_file("a.b.vdb").as_deref(), Some("a.b"));
    assert_eq!(collection_name_of_file(&collection_file_name("my docs")).as_deref(), Some("my docs"));
    assert_eq!(collection_name_of_file(".vdb"), None);
    assert_eq!(collection_name_of_file("docs.vdb.wal"), None);
    assert_eq!(collection_name_of_file("docs.tmp"), None);
    assert_eq!(collection_name_of_file("vdb"), None);
}

#[test]
fn wal_files_name_the_collection_they_replay() {
    let name = |f: &str| match wal_collection_name(f) {
        None => None,
        Some(Ok(n)) => Some(Ok(n)),
        Some(Err(e)) => Some(Err(e.to_string())),
    };
    assert_eq!(name(&wal_file_name("docs")), Some(Ok("docs".to_string())));
    assert_eq!(name("docs.wal"), Some(Ok("docs".to_string())));
    assert_eq!(name("x.y.z.wal"), Some(Ok("x.y".to_string())));
    assert_eq!(name(".hidden.wal"), Some(Ok(".hidden".to_string())));
    assert_eq!(name("..wal"), Some(Err("corrupted storage: invalid wal stem".to_string())));
    assert_eq!(name("...wal"), Some(Err("corrupted storage: invalid wal stem".to_string())));
    assert_eq!(name(".wal"), None);
    assert_eq!(name("docs.vdb"), None);
}
