//! A minimal vector database with a flat index: the verified core.
//!
//! The database holds named collections; each collection enforces a fixed
//! dimension for its vectors and answers nearest-neighbour searches by
//! brute force. Every change to a collection hands back the bytes of the
//! collection's file, and reading those bytes back gives the collection
//! again.

mod collection;
mod database;
mod distance;
mod embedding;
mod errors;
mod ieee;
mod index;
mod metadata;
mod ranking;
mod storage;
mod validation;

pub mod api;
pub mod config;

pub use crate::collection::{Collection, CollectionView};
pub use crate::database::{Change, VectorDatabase};
pub use crate::distance::DistanceMetric;
pub use crate::embedding::{bits_are_nan, contains_nan, Embedding, EmbeddingView, VectorId};
pub use crate::errors::{ErrorView, VectorDbError};
pub use crate::index::{IndexView, SearchResult};
pub use crate::metadata::Metadata;
pub use crate::ranking::rank;
pub use crate::storage::{
    collection_file_name, collection_name_of_file, decode_collection, encode_collection,
    load_collection, wal_collection_name, wal_file_name,
    COLLECTION_EXTENSION, FILE_VERSION, WAL_SUFFIX,
};
pub use crate::validation::{collection_name_is_valid, validate_collection_name};
