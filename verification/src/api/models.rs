use vstd::prelude::*;

use crate::collection::Collection;
use crate::database::{collection_views, names_distinct, VectorDatabase};

verus! {

/// A request to create a collection.
#[derive(Debug)]
pub struct CollectionCreateRequest {
    pub name: String,
    pub dimension: usize,
}

/// A request to rename a collection.
#[derive(Debug)]
pub struct CollectionRenameRequest {
    pub name: String,
}

/// A request to change the dimension of a collection.
#[derive(Debug)]
pub struct CollectionUpdateRequest {
    pub dimension: usize,
}

/// A collection as the interface describes it.
#[derive(Debug)]
pub struct CollectionResponse {
    pub name: String,
    pub dimension: usize,
    pub vectors: usize,
}

impl CollectionResponse {
    /// Describes a collection by its name, dimension and number of vectors.
    pub fn new(name: &str, dimension: usize, vectors: usize) -> (r: Self)
        ensures
            r.name@ == name@,
            r.dimension == dimension,
            r.vectors == vectors,
    {
        CollectionResponse { name: String::from_str(name), dimension, vectors }
    }

    /// Describes `collection`.
    pub fn from_collection(collection: &Collection) -> (r: Self)
        ensures
            r.name@ == collection@.name,
            r.dimension == collection@.index.dimension,
            r.vectors == collection@.index.entries.len(),
    {
        Self::new(collection.name(), collection.dimension(), collection.len())
    }
}

/// Every collection of a database.
#[derive(Debug)]
pub struct CollectionsResponse {
    pub collections: Vec<CollectionResponse>,
}

impl CollectionsResponse {
    /// Describes every collection of `db`, each once.
    pub fn from_database(db: &VectorDatabase) -> (r: Self)
        ensures
            r.collections@.len() == db@.len(),
            forall|i: int|
                0 <= i < r.collections@.len() ==> {
                    let c = #[trigger] r.collections@[i];
                    &&& db@.contains_key(c.name@)
                    &&& c.dimension == db@[c.name@].dimension
                    &&& c.vectors == db@[c.name@].entries.len()
                },
            forall|i: int, j: int|
                0 <= i < r.collections@.len() && 0 <= j < r.collections@.len() && i != j
                    ==> #[trigger] r.collections@[i].name@ != #[trigger] r.collections@[j].name@,
    {
        let all = db.collections();
        let ghost s = collection_views(all@);
        let mut collections: Vec<CollectionResponse> = Vec::new();
        let mut i: usize = 0;
        while i < all.len()
            invariant
                s == collection_views(all@),
                names_distinct(s),
                crate::database::catalog(s) == db@,
                i <= s.len(),
                collections@.len() == i,
                forall|t: int|
                    0 <= t < i ==> {
                        let c = #[trigger] collections@[t];
                        &&& c.name@ == s[t].name
                        &&& c.dimension == s[t].index.dimension
                        &&& c.vectors == s[t].index.entries.len()
                    },
            decreases s.len() - i,
        {
            collections.push(CollectionResponse::from_collection(&all[i]));
            i = i + 1;
        }
        proof {
            crate::database::lemma_catalog_len(s);
            assert forall|t: int| 0 <= t < collections@.len() implies {
                let c = #[trigger] collections@[t];
                &&& db@.contains_key(c.name@)
                &&& c.dimension == db@[c.name@].dimension
                &&& c.vectors == db@[c.name@].entries.len()
            } by {
                crate::database::lemma_catalog_at(s, t);
            }
        }
        CollectionsResponse { collections }
    }
}

/// An error as the interface describes it: a stable code and a message.
#[derive(Debug)]
pub struct ErrorResponse {
    pub code: String,
    pub message: String,
}

impl ErrorResponse {
    /// An error body from its code and message.
    pub fn new(code: &str, message: &str) -> (r: Self)
        ensures
            r.code@ == code@,
            r.message@ == message@,
    {
        ErrorResponse { code: String::from_str(code), message: String::from_str(message) }
    }
}

} // verus!
