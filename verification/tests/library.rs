use vectordb::api::models::{CollectionResponse, CollectionsResponse, ErrorResponse};
use vectordb::api::responses::map_error;
use vectordb::api::{authorize, check_update_ids};
use vectordb::config::LogLevel;
use vectordb::{
    bits_are_nan, collection_name_is_valid, rank, validate_collection_name, DistanceMetric,
    Metadata, VectorDatabase, VectorDbError,
};

fn bits(values: &[f32]) -> Vec<u32> {
    values.iter().map(|v| v.to_bits()).collect()
}

#[test]
fn collection_names_are_validated() {
    assert!(collection_name_is_valid("docs"));
    assert!(collection_name_is_valid("my docs.v2"));
    assert!(!collection_name_is_valid(""));
    assert!(!collection_name_is_valid("a/b"));
    assert!(!collection_name_is_valid("a\\b"));
    assert!(!collection_name_is_valid("a\0b"));
    let err = validate_collection_name("x/y").unwrap_err();
    assert_eq!(err.to_string(), "collection name 'x/y' is not allowed");
}

#[test]
fn metric_codes_round_trip() {
    for m in [DistanceMetric::Euclidean, DistanceMetric::Cosine, DistanceMetric::Dot] {
        assert_eq!(DistanceMetric::from_u8(m.to_u8()), Some(m));
    }
    assert_eq!(DistanceMetric::Cosine.to_u8(), 1);
    assert_eq!(DistanceMetric::from_u8(2), Some(DistanceMetric::Dot));
    assert_eq!(DistanceMetric::from_u8(3), None);
}

#[test]
fn metadata_reads_back_what_was_written() {
    let mut m = Metadata::new();
    m.insert("title".into(), "A".into());
    m.insert("author".into(), "B".into());
    m.insert("title".into(), "C".into());
    assert_eq!(m.len(), 2);
    assert_eq!(m.get("title").unwrap(), "C");
    assert_eq!(m.get("author").unwrap(), "B");
    assert!(m.get("missing").is_none());
    let keys: Vec<&str> = m.entries().iter().map(|(k, _)| k.as_str()).collect();
    assert_eq!(keys, vec!["author", "title"]);
}

#[test]
fn metadata_orders_keys_by_bytes() {
    let mut m = Metadata::new();
    for k in ["b", "é", "a", "Z", "ab"] {
        m.insert(k.into(), "v".into());
    }
    let keys: Vec<&str> = m.entries().iter().map(|(k, _)| k.as_str()).collect();
    let mut sorted = vec!["b", "é", "a", "Z", "ab"];
    sorted.sort();
    assert_eq!(keys, sorted);
}

#[test]
fn nan_bit_patterns_are_recognised() {
    assert!(bits_are_nan(f32::NAN.to_bits()));
    assert!(bits_are_nan((-f32::NAN).to_bits()));
    assert!(!bits_are_nan(f32::INFINITY.to_bits()));
    assert!(!bits_are_nan(f32::NEG_INFINITY.to_bits()));
    assert!(!bits_are_nan(0.0f32.to_bits()));
    assert!(!bits_are_nan(1.5f32.to_bits()));
}

#[test]
fn ranking_orders_by_distance_then_position() {
    let scores = bits(&[5.0, 3.0, 5.0, -1.0, 0.0, -0.0]);
    assert_eq!(rank(&scores, 6), vec![3, 4, 5, 1, 0, 2]);
    assert_eq!(rank(&scores, 2), vec![3, 4]);
    let inf = bits(&[f32::INFINITY, 1.0, f32::NEG_INFINITY]);
    assert_eq!(rank(&inf, 3), vec![2, 1, 0]);
}

#[test]
fn ranking_agrees_with_a_stable_float_sort() {
    let values: Vec<f32> = vec![0.5, -2.0, 0.5, 3.25, -0.0, 0.0, 1e-30, -1e30, 7.0, 0.5];
    let mut order: Vec<usize> = (0..values.len()).collect();
    order.sort_by(|a, b| values[*a].partial_cmp(&values[*b]).unwrap());
    assert_eq!(rank(&bits(&values), values.len()), order);
}

#[test]
fn search_ties_keep_insertion_order() {
    let mut db = VectorDatabase::new();
    db.create_collection("t".into(), 1).unwrap();
    db.insert("t", 10, bits(&[1.0])).unwrap();
    db.insert("t", 20, bits(&[2.0])).unwrap();
    db.insert("t", 30, bits(&[1.0])).unwrap();
    let scores = bits(&[5.0, 3.0, 5.0]);
    let results = db.search("t", &bits(&[0.0]), 3, &scores).unwrap();
    let ids: Vec<u64> = results.iter().map(|r| r.id).collect();
    assert_eq!(ids, vec![20, 10, 30]);
}

#[test]
fn search_in_missing_collection_fails() {
    let db = VectorDatabase::new();
    let err = db.search("none", &bits(&[0.0]), 1, &[]).unwrap_err();
    assert!(matches!(err, VectorDbError::CollectionNotFound(n) if n == "none"));
}

#[test]
fn search_with_zero_k_fails() {
    let mut db = VectorDatabase::new();
    db.create_collection("t".into(), 1).unwrap();
    db.insert("t", 1, bits(&[1.0])).unwrap();
    let err = db.search("t", &bits(&[0.0]), 0, &bits(&[1.0])).unwrap_err();
    assert!(matches!(err, VectorDbError::ZeroResultsRequested));
}

#[test]
fn update_vector_keeps_metadata() {
    let mut db = VectorDatabase::new();
    db.create_collection("t".into(), 2).unwrap();
    let mut m = Metadata::new();
    m.insert("k".into(), "v".into());
    db.insert_embedding("t", vectordb::Embedding::new(1, bits(&[0.0, 0.0]), m)).unwrap();
    db.update_vector("t", 1, bits(&[2.0, 3.0])).unwrap();
    let e = db.embedding("t", 1).unwrap();
    assert_eq!(e.vector, bits(&[2.0, 3.0]));
    assert_eq!(e.metadata.get("k").unwrap(), "v");
    let err = db.update_vector("t", 2, bits(&[2.0, 3.0])).unwrap_err();
    assert!(matches!(err, VectorDbError::VectorNotFound(2)));
    let err = db.update_vector("t", 1, bits(&[f32::NAN, 3.0])).unwrap_err();
    assert!(matches!(err, VectorDbError::VectorContainsNaN));
}

#[test]
fn operations_on_missing_collection_fail() {
    let mut db = VectorDatabase::new();
    let err = db.insert("none", 1, bits(&[0.0])).unwrap_err();
    assert_eq!(err.to_string(), "collection 'none' not found");
    assert!(db.embedding("none", 1).is_none());
    assert!(db.collection("none").is_none());
}

#[test]
fn invalid_collection_name_is_refused_on_create() {
    let mut db = VectorDatabase::new();
    let err = db.create_collection("a/b".into(), 2).unwrap_err();
    assert!(matches!(err, VectorDbError::InvalidCollectionName(n) if n == "a/b"));
}

#[test]
fn collection_dimension_can_change_while_empty() {
    let mut db = VectorDatabase::new();
    db.create_collection("images".into(), 512).unwrap();
    db.update_collection_dimension("images", 256).unwrap();
    assert_eq!(db.collection("images").unwrap().dimension(), 256);
    db.insert("images", 1, vec![0; 256]).unwrap();
    let err = db.update_collection_dimension("images", 128).unwrap_err();
    assert_eq!(err.to_string(), "collection 'images' is not empty");
    assert!(db.update_collection_dimension("images", 256).is_ok());
    let err = db.update_collection_dimension("images", 0).unwrap_err();
    assert!(matches!(err, VectorDbError::InvalidDimension));
    let err = db.update_collection_dimension("none", 3).unwrap_err();
    assert!(matches!(err, VectorDbError::CollectionNotFound(_)));
}

#[test]
fn renaming_moves_the_collection() {
    let mut db = VectorDatabase::new();
    db.create_collection("images".into(), 2).unwrap();
    db.create_collection("other".into(), 2).unwrap();
    db.insert("images", 1, bits(&[1.0, 2.0])).unwrap();
    assert!(db.check_rename("images", "pictures").is_ok());
    db.rename_collection("images", "pictures".into()).unwrap();
    assert!(db.collection("images").is_none());
    let c = db.collection("pictures").unwrap();
    assert_eq!(c.name(), "pictures");
    assert!(c.embedding(1).is_some());
    let err = db.rename_collection("pictures", "other".into()).unwrap_err();
    assert!(matches!(err, VectorDbError::CollectionAlreadyExists(n) if n == "other"));
    let err = db.rename_collection("missing", "x".into()).unwrap_err();
    assert!(matches!(err, VectorDbError::CollectionNotFound(n) if n == "missing"));
    let err = db.rename_collection("pictures", "".into()).unwrap_err();
    assert!(matches!(err, VectorDbError::InvalidCollectionName(_)));
}

#[test]
fn deleting_a_collection_removes_it() {
    let mut db = VectorDatabase::new();
    db.create_collection("images".into(), 2).unwrap();
    db.delete_collection("images").unwrap();
    assert!(db.collection("images").is_none());
    let err = db.delete_collection("images").unwrap_err();
    assert!(matches!(err, VectorDbError::CollectionNotFound(_)));
}

#[test]
fn failed_store_reloads_what_the_file_holds() {
    let mut db = VectorDatabase::new();
    let stored = db.create_collection("docs".into(), 2).unwrap();
    db.insert("docs", 1, bits(&[1.0, 1.0])).unwrap();
    let err = db.recover(
        "docs",
        Ok(stored),
        VectorDbError::CorruptedStorage("disk full".into()),
    );
    assert_eq!(err.to_string(), "corrupted storage: disk full");
    assert!(db.embedding("docs", 1).is_none());
    assert!(db.collection("docs").is_some());
}

#[test]
fn failed_store_without_readable_file_drops_the_collection() {
    let mut db = VectorDatabase::new();
    db.create_collection("docs".into(), 2).unwrap();
    let err = db.recover(
        "docs",
        Err(VectorDbError::CorruptedStorage("missing".into())),
        VectorDbError::CorruptedStorage("disk full".into()),
    );
    assert_eq!(err.to_string(), "corrupted storage: missing");
    assert!(db.collection("docs").is_none());

    db.create_collection("docs".into(), 2).unwrap();
    let err = db.recover(
        "docs",
        Ok(b"nonsense".to_vec()),
        VectorDbError::CorruptedStorage("disk full".into()),
    );
    assert_eq!(err.to_string(), "corrupted storage: invalid file magic");
    assert!(db.collection("docs").is_none());
}

#[test]
fn error_messages_match_their_variants() {
    let cases: Vec<(VectorDbError, &str)> = vec![
        (VectorDbError::CollectionAlreadyExists("a".into()), "collection 'a' already exists"),
        (VectorDbError::CollectionNotFound("a".into()), "collection 'a' not found"),
        (VectorDbError::CollectionNotEmpty("a".into()), "collection 'a' is not empty"),
        (VectorDbError::InvalidCollectionName("a".into()), "collection name 'a' is not allowed"),
        (VectorDbError::InvalidDimension, "dimension must be greater than zero"),
        (
            VectorDbError::DimensionMismatch { expected: 3, found: 20 },
            "vector dimension mismatch: expected 3, found 20",
        ),
        (VectorDbError::EmptyIndex, "cannot search empty index"),
        (
            VectorDbError::InvalidSearchK { requested: 12, available: 0 },
            "requested 12 results but only 0 vectors indexed",
        ),
        (VectorDbError::ZeroResultsRequested, "search requires at least one result"),
        (VectorDbError::VectorContainsNaN, "vector contains NaN values"),
        (
            VectorDbError::VectorAlreadyExists(18446744073709551615),
            "vector with id 18446744073709551615 already exists in the index",
        ),
        (VectorDbError::VectorNotFound(100), "vector with id 100 not found in the index"),
        (VectorDbError::CorruptedStorage("x".into()), "corrupted storage: x"),
        (VectorDbError::InvalidStorageRoot("/p".into()), "storage root '/p' is not a directory"),
    ];
    for (err, text) in cases {
        assert_eq!(err.to_string(), text);
    }
    let io = VectorDbError::from(std::io::Error::new(std::io::ErrorKind::Other, "boom"));
    assert_eq!(io.to_string(), "io error: boom");
}

#[test]
fn errors_map_to_status_and_code() {
    let (status, body) = map_error(&VectorDbError::InvalidDimension);
    assert_eq!(status, 400);
    assert_eq!(body.code, "invalid_dimension");
    assert_eq!(body.message, "dimension must be greater than zero");
    let (status, body) = map_error(&VectorDbError::CollectionNotFound("x".into()));
    assert_eq!((status, body.code.as_str()), (404, "collection_not_found"));
    let (status, body) = map_error(&VectorDbError::VectorAlreadyExists(1));
    assert_eq!((status, body.code.as_str()), (409, "vector_exists"));
    let (status, body) = map_error(&VectorDbError::CorruptedStorage("x".into()));
    assert_eq!((status, body.code.as_str()), (500, "corrupted_storage"));
}

#[test]
fn authorization_requires_the_bearer_token() {
    assert!(authorize(None, None));
    assert!(authorize(None, Some("anything")));
    assert!(!authorize(Some("secret"), None));
    assert!(!authorize(Some("secret"), Some("secret")));
    assert!(!authorize(Some("secret"), Some("Bearer secret2")));
    assert!(authorize(Some("secret"), Some("Bearer secret")));
}

#[test]
fn log_levels_name_their_filters() {
    assert_eq!(LogLevel::Error.into_filter(), "error");
    assert_eq!(LogLevel::Warn.into_filter(), "warn");
    assert_eq!(LogLevel::Info.into_filter(), "info");
    assert_eq!(LogLevel::Debug.into_filter(), "debug");
    assert_eq!(LogLevel::Trace.into_filter(), "trace");
}

#[test]
fn responses_describe_collections() {
    let r = CollectionResponse::new("docs", 3, 0);
    assert_eq!((r.name.as_str(), r.dimension, r.vectors), ("docs", 3, 0));
    let e = ErrorResponse::new("unauthorized", "missing or invalid token");
    assert_eq!(e.code, "unauthorized");
    assert_eq!(e.message, "missing or invalid token");

    let mut db = VectorDatabase::new();
    db.create_collection("a".into(), 2).unwrap();
    db.create_collection("b".into(), 3).unwrap();
    db.insert("b", 1, bits(&[0.0, 0.0, 0.0])).unwrap();
    let all = CollectionsResponse::from_database(&db);
    let mut listed: Vec<(String, usize, usize)> = all
        .collections
        .iter()
        .map(|c| (c.name.clone(), c.dimension, c.vectors))
        .collect();
    listed.sort();
    assert_eq!(listed, vec![("a".to_string(), 2, 0), ("b".to_string(), 3, 1)]);
}

#[test]
fn io_errors_answer_with_their_text() {
    let err = VectorDbError::Io(std::io::Error::new(std::io::ErrorKind::Other, "disk full"));
    let (status, body) = map_error(&err);
    assert_eq!(status, 500);
    assert_eq!(body.code, "io_error");
    assert_eq!(body.message, "io error: disk full");
}

#[test]
fn update_ids_must_agree() {
    assert!(check_update_ids(7, 7).is_ok());
    let (status, body) = check_update_ids(7, 8).unwrap_err();
    assert_eq!(status, 400);
    assert_eq!(body.code, "invalid_request");
    assert_eq!(body.message, "id in path and payload must match");
}

#[test]
fn single_entry_search_returns_its_distance() {
    let mut db = VectorDatabase::new();
    db.create_collection("t".into(), 1).unwrap();
    db.insert("t", 4, bits(&[1.0])).unwrap();
    let scores = bits(&[f32::NAN]);
    let results = db.search("t", &bits(&[0.0]), 1, &scores).unwrap();
    assert_eq!(results.len(), 1);
    assert_eq!(results[0].id, 4);
    assert!(f32::from_bits(results[0].distance).is_nan());
}

#[test]
fn ranked_positions_are_distinct() {
    let scores = bits(&[2.0, 1.0, 2.0, 0.5, 1.0]);
    let order = rank(&scores, 5);
    assert_eq!(order, vec![3, 1, 4, 0, 2]);
    let mut seen = order.clone();
    seen.sort();
    seen.dedup();
    assert_eq!(seen.len(), order.len());
}
