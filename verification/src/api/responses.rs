use vstd::prelude::*;

use crate::errors::{ErrorView, VectorDbError};
use crate::api::models::ErrorResponse;

verus! {

/// The HTTP status and the error code that answer each error.
pub open spec fn error_status(e: ErrorView) -> (u16, Seq<char>) {
    match e {
        ErrorView::CollectionAlreadyExists(_) => (409, "collection_exists"@),
        ErrorView::CollectionNotFound(_) => (404, "collection_not_found"@),
        ErrorView::CollectionNotEmpty(_) => (409, "collection_not_empty"@),
        ErrorView::InvalidCollectionName(_) => (400, "invalid_collection_name"@),
        ErrorView::InvalidDimension => (400, "invalid_dimension"@),
        ErrorView::DimensionMismatch { .. } => (400, "dimension_mismatch"@),
        ErrorView::EmptyIndex => (400, "empty_index"@),
        ErrorView::InvalidSearchK { .. } => (400, "invalid_search_k"@),
        ErrorView::ZeroResultsRequested => (400, "zero_results"@),
        ErrorView::VectorContainsNaN => (400, "vector_contains_nan"@),
        ErrorView::VectorAlreadyExists(_) => (409, "vector_exists"@),
        ErrorView::VectorNotFound(_) => (404, "vector_not_found"@),
        ErrorView::CorruptedStorage(_) => (500, "corrupted_storage"@),
        ErrorView::InvalidStorageRoot(_) => (500, "invalid_storage_root"@),
        ErrorView::Io(_) => (500, "io_error"@),
    }
}

/// The HTTP status code and the body that answer `err`: its code and its
/// message (for an I/O error, `io error: ` and the error's own text).
pub fn map_error(err: &VectorDbError) -> (r: (u16, ErrorResponse))
    ensures
        r.0 == error_status(err@).0,
        r.1.code@ == error_status(err@).1,
        !(err is Io) ==> r.1.message@ == crate::errors::error_message(err@),
        err is Io ==> r.1.message@.len() >= 10 && r.1.message@.subrange(0, 10) == "io error: "@,
{
    let (status, code): (u16, &str) = match err {
        VectorDbError::CollectionAlreadyExists(_) => (409, "collection_exists"),
        VectorDbError::CollectionNotFound(_) => (404, "collection_not_found"),
        VectorDbError::CollectionNotEmpty(_) => (409, "collection_not_empty"),
        VectorDbError::InvalidCollectionName(_) => (400, "invalid_collection_name"),
        VectorDbError::InvalidDimension => (400, "invalid_dimension"),
        VectorDbError::DimensionMismatch { .. } => (400, "dimension_mismatch"),
        VectorDbError::EmptyIndex => (400, "empty_index"),
        VectorDbError::InvalidSearchK { .. } => (400, "invalid_search_k"),
        VectorDbError::ZeroResultsRequested => (400, "zero_results"),
        VectorDbError::VectorContainsNaN => (400, "vector_contains_nan"),
        VectorDbError::VectorAlreadyExists(_) => (409, "vector_exists"),
        VectorDbError::VectorNotFound(_) => (404, "vector_not_found"),
        VectorDbError::CorruptedStorage(_) => (500, "corrupted_storage"),
        VectorDbError::InvalidStorageRoot(_) => (500, "invalid_storage_root"),
        VectorDbError::Io(_) => (500, "io_error"),
    };
    let message = err.to_string();
    (status, ErrorResponse::new(code, message.as_str()))
}

/// The status that answers each kind of error: a missing collection or
/// vector gets 404; a name, vector or collection in the way gets 409; a
/// malformed request gets 400; a failure of storage gets 500.
pub proof fn lemma_error_status_classes(e: ErrorView)
    ensures
        (e is CollectionNotFound || e is VectorNotFound) <==> error_status(e).0 == 404,
        (e is CollectionAlreadyExists || e is VectorAlreadyExists || e is CollectionNotEmpty) <==> error_status(e).0 == 409,
        (e is InvalidCollectionName || e is InvalidDimension || e is DimensionMismatch || e is EmptyIndex
            || e is InvalidSearchK || e is ZeroResultsRequested || e is VectorContainsNaN) <==> error_status(e).0
            == 400,
        (e is CorruptedStorage || e is InvalidStorageRoot || e is Io) <==> error_status(e).0 == 500,
{
}

} // verus!
