use std::collections::BTreeMap;

use vectordb::{
    collection_file_name, load_collection, DistanceMetric, Embedding, Metadata, SearchResult,
    VectorDatabase, VectorDbError,
};

fn bits(values: &[f32]) -> Vec<u32> {
    values.iter().map(|v| v.to_bits()).collect()
}

fn floats(values: &[u32]) -> Vec<f32> {
    values.iter().map(|b| f32::from_bits(*b)).collect()
}

fn euclidean(left: &[f32], right: &[f32]) -> f32 {
    left.iter()
        .zip(right.iter())
        .map(|(a, b)| {
            let diff = a - b;
            diff * diff
        })
        .sum::<f32>()
        .sqrt()
}

/// Euclidean distances from `query` to every entry of `collection`, as bit
/// patterns, in the order in which the entries are stored.
fn scores(db: &VectorDatabase, collection: &str, query: &[f32]) -> Vec<u32> {
    match db.collection(collection) {
        Some(c) => c
            .embeddings()
            .iter()
            .map(|e| euclidean(query, &floats(&e.vector)).to_bits())
            .collect(),
        None => Vec::new(),
    }
}

fn search<'a>(
    db: &'a VectorDatabase,
    collection: &str,
    query: &[f32],
    k: usize,
) -> Result<Vec<SearchResult<'a>>, VectorDbError> {
    let s = scores(db, collection, query);
    db.search(collection, &bits(query), k, &s)
}

fn metadata(pairs: &[(&str, &str)]) -> Metadata {
    let mut m = Metadata::new();
    for (k, v) in pairs {
        m.insert(k.to_string(), v.to_string());
    }
    m
}

/// Reloads every collection of `db` from the bytes of its file, as opening
/// the database from disk does.
fn reopen(files: &[(String, Vec<u8>)]) -> VectorDatabase {
    let mut db = VectorDatabase::new();
    for (name, bytes) in files {
        let c = load_collection(name, bytes).unwrap();
        db.restore_collection(c).unwrap();
    }
    db
}

#[test]
fn creating_collections_with_invalid_dimension_fails() {
    let mut db = VectorDatabase::new();
    let err = db.create_collection("users".to_string(), 0).unwrap_err();
    assert!(matches!(err, VectorDbError::InvalidDimension));
}

#[test]
fn adding_duplicate_collection_name_fails() {
    let mut db = VectorDatabase::new();
    db.create_collection("items".to_string(), 3).unwrap();
    let err = db.create_collection("items".to_string(), 3).unwrap_err();
    match err {
        VectorDbError::CollectionAlreadyExists(name) => assert_eq!(name, "items"),
        other => panic!("unexpected error: {}", other.to_string()),
    }
}

#[test]
fn insert_and_search_round_trip() {
    let mut db = VectorDatabase::new();
    db.create_collection("embeddings".to_string(), 2).unwrap();
    db.insert("embeddings", 1, bits(&[1.0, 0.0])).unwrap();
    db.insert("embeddings", 2, bits(&[0.0, 1.0])).unwrap();
    db.insert("embeddings", 3, bits(&[1.0, 1.0])).unwrap();

    let results = search(&db, "embeddings", &[1.0, 0.0], 2).unwrap();
    assert_eq!(results.len(), 2);
    assert_eq!(results[0].id, 1);
    assert!(f32::from_bits(results[0].distance) <= f32::from_bits(results[1].distance));
}

#[test]
fn search_with_empty_index_fails() {
    let mut db = VectorDatabase::new();
    db.create_collection("vectors".to_string(), 2).unwrap();
    let err = search(&db, "vectors", &[0.0, 0.0], 1).unwrap_err();
    assert!(matches!(err, VectorDbError::EmptyIndex));
}

#[test]
fn insert_with_dimension_mismatch_fails() {
    let mut db = VectorDatabase::new();
    db.create_collection("vectors".to_string(), 3).unwrap();
    let err = db.insert("vectors", 1, bits(&[1.0, 2.0])).unwrap_err();
    assert!(matches!(
        err,
        VectorDbError::DimensionMismatch {
            expected: 3,
            found: 2
        }
    ));
}

#[test]
fn search_with_k_greater_than_entries_fails() {
    let mut db = VectorDatabase::new();
    db.create_collection("vectors".to_string(), 2).unwrap();
    db.insert("vectors", 1, bits(&[1.0, 1.0])).unwrap();
    let err = search(&db, "vectors", &[0.0, 0.0], 2).unwrap_err();
    assert!(matches!(
        err,
        VectorDbError::InvalidSearchK {
            requested: 2,
            available: 1
        }
    ));
}

#[test]
fn search_with_nan_vector_fails() {
    let mut db = VectorDatabase::new();
    db.create_collection("vectors".to_string(), 2).unwrap();
    db.insert("vectors", 1, bits(&[1.0, 1.0])).unwrap();
    let err = search(&db, "vectors", &[f32::NAN, 0.0], 1).unwrap_err();
    assert!(matches!(err, VectorDbError::VectorContainsNaN));
}

#[test]
fn embedding_metadata_round_trip() {
    let mut db = VectorDatabase::new();
    db.create_collection("docs".to_string(), 3).unwrap();
    db.insert_embedding(
        "docs",
        Embedding::new(1, bits(&[0.1, 0.2, 0.3]), metadata(&[("title", "Doc")])),
    )
    .unwrap();

    let results = search(&db, "docs", &[0.1, 0.2, 0.3], 1).unwrap();
    assert_eq!(results[0].embedding.metadata.get("title").unwrap(), "Doc");
}

#[test]
fn duplicate_vector_id_fails() {
    let mut db = VectorDatabase::new();
    db.create_collection("dup".to_string(), 2).unwrap();
    db.insert("dup", 1, bits(&[0.0, 0.0])).unwrap();
    let err = db.insert("dup", 1, bits(&[0.1, 0.2])).unwrap_err();
    assert!(matches!(err, VectorDbError::VectorAlreadyExists(1)));
}

#[test]
fn reopening_preserves_embeddings() {
    let mut db = VectorDatabase::new();
    db.create_collection("docs".to_string(), 2).unwrap();
    let stored = db
        .insert_embedding(
            "docs",
            Embedding::new(5, bits(&[0.4, 0.5]), metadata(&[("title", "Persisted")])),
        )
        .unwrap();

    let db = reopen(&[("docs".to_string(), stored)]);
    let embedding = db.embedding("docs", 5).expect("embedding should persist");
    assert_eq!(floats(&embedding.vector), vec![0.4, 0.5]);
    assert_eq!(embedding.metadata.get("title").unwrap(), "Persisted");
}

#[test]
fn updating_embedding_replaces_vector_and_metadata() {
    let mut db = VectorDatabase::new();
    db.create_collection("docs".to_string(), 2).unwrap();
    db.insert("docs", 1, bits(&[0.0, 0.0])).unwrap();
    db.update_embedding(
        "docs",
        Embedding::new(1, bits(&[1.0, 1.0]), metadata(&[("title", "Updated")])),
    )
    .unwrap();

    let embedding = db.embedding("docs", 1).unwrap();
    assert_eq!(floats(&embedding.vector), vec![1.0, 1.0]);
    assert_eq!(embedding.metadata.get("title").unwrap(), "Updated");
}

#[test]
fn deleting_embedding_removes_it_from_disk() {
    let mut db = VectorDatabase::new();
    db.create_collection("docs".to_string(), 2).unwrap();
    db.insert("docs", 1, bits(&[0.0, 0.0])).unwrap();
    db.insert("docs", 2, bits(&[1.0, 1.0])).unwrap();
    let stored = db.delete("docs", 1).unwrap();

    let db = reopen(&[("docs".to_string(), stored)]);
    assert!(db.embedding("docs", 1).is_none());
    assert!(db.embedding("docs", 2).is_some());
}

#[test]
fn updating_or_deleting_nonexistent_vector_fails() {
    let mut db = VectorDatabase::new();
    db.create_collection("docs".to_string(), 2).unwrap();
    let err = db.delete("docs", 42).unwrap_err();
    assert!(matches!(err, VectorDbError::VectorNotFound(42)));

    let err = db
        .update_embedding(
            "docs",
            Embedding::new(99, bits(&[0.0, 0.0]), metadata(&[("title", "Missing")])),
        )
        .unwrap_err();
    assert!(matches!(err, VectorDbError::VectorNotFound(99)));
}

#[test]
fn reopening_the_stored_files_gives_every_collection_back() {
    let mut db = VectorDatabase::new();
    let mut dir: BTreeMap<String, Vec<u8>> = BTreeMap::new();
    let bytes = db.create_collection("a".into(), 2).unwrap();
    dir.insert(collection_file_name("a"), bytes);
    let bytes = db.create_collection_with_metric("b".into(), 1, DistanceMetric::Cosine).unwrap();
    dir.insert(collection_file_name("b"), bytes);
    let bytes = db.create_collection("gone".into(), 1).unwrap();
    dir.insert(collection_file_name("gone"), bytes);
    let mut metadata = Metadata::new();
    metadata.insert("k".into(), "v".into());
    let bytes = db.insert_embedding("a", Embedding::new(5, bits(&[1.0, 2.0]), metadata)).unwrap();
    dir.insert(collection_file_name("a"), bytes);
    let bytes = db.insert("a", 3, bits(&[0.5, 0.5])).unwrap();
    dir.insert(collection_file_name("a"), bytes);
    let bytes = db.insert("b", 9, bits(&[4.0])).unwrap();
    dir.insert(collection_file_name("b"), bytes);
    db.delete_collection("gone").unwrap();
    dir.remove(&collection_file_name("gone"));
    db.rename_collection("b", "c".into()).unwrap();
    let moved = dir.remove(&collection_file_name("b")).unwrap();
    dir.insert(collection_file_name("c"), moved);
    dir.insert("notes.txt".into(), b"not a collection".to_vec());

    let mut listing: Vec<(String, Vec<u8>)> = dir.into_iter().collect();
    listing.reverse();
    let mut reopened = VectorDatabase::new();
    for (name, bytes) in &listing {
        reopened.load_collection_file(name, bytes).unwrap();
    }

    let mut names: Vec<String> = reopened.collections().iter().map(|c| c.name().to_string()).collect();
    names.sort();
    assert_eq!(names, vec!["a".to_string(), "c".to_string()]);
    for name in ["a", "c"] {
        let before = db.collection(name).unwrap();
        let after = reopened.collection(name).unwrap();
        assert_eq!(after.dimension(), before.dimension());
        assert_eq!(after.metric(), DistanceMetric::Euclidean);
        let ids = |c: &vectordb::Collection| -> Vec<(u64, Vec<u32>, Option<String>)> {
            c.embeddings()
                .iter()
                .map(|e| (e.id, e.vector.clone(), e.metadata.get("k").map(|v| v.to_string())))
                .collect()
        };
        assert_eq!(ids(after), ids(before));
    }
}

#[test]
fn a_corrupt_collection_file_stops_the_reopening() {
    let mut db = VectorDatabase::new();
    let err = db.load_collection_file("x.vdb", b"VDB").unwrap_err();
    assert!(matches!(err, VectorDbError::Io(_)));
    assert!(db.collection("x").is_none());
    assert!(db.load_collection_file("x.tmp", b"VDB").is_ok());
}

#[test]
fn cloned_collections_are_equal() {
    let mut db = VectorDatabase::new();
    db.create_collection("a".into(), 1).unwrap();
    db.insert("a", 1, bits(&[2.0])).unwrap();
    let c = db.collection("a").unwrap().clone();
    assert_eq!(c.name(), "a");
    assert_eq!(c.len(), 1);
    let e = c.embedding(1).unwrap().clone();
    assert_eq!(e.vector, bits(&[2.0]));
}
