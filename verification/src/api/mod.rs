//! The values that the HTTP interface exchanges, and its decisions.

pub mod models;
pub mod responses;

use vstd::prelude::*;

use crate::api::models::ErrorResponse;
use crate::embedding::VectorId;
use crate::metadata::{compare_keys, KeyOrder};

verus! {

/// A request is let through when no token is configured, or when its
/// `Authorization` header is exactly `Bearer ` followed by the token.
pub open spec fn is_authorized(token: Option<Seq<char>>, header: Option<Seq<char>>) -> bool {
    match token {
        None => true,
        Some(t) => header == Some("Bearer "@ + t),
    }
}

/// Whether a request with `header` (its `Authorization` value, if any and
/// readable as text) is let through when the server requires `token`.
pub fn authorize(token: Option<&str>, header: Option<&str>) -> (ok: bool)
    ensures
        ok == is_authorized(
            match token {
                Some(t) => Some(t@),
                None => None,
            },
            match header {
                Some(h) => Some(h@),
                None => None,
            },
        ),
{
    match token {
        None => true,
        Some(t) => match header {
            None => false,
            Some(h) => {
                let mut expected = String::from_str("Bearer ");
                expected.append(t);
                matches!(compare_keys(h, expected.as_str()), KeyOrder::Equal)
            },
        },
    }
}

/// An update names its embedding twice, in the path and in the body: the
/// two identifiers must agree. Refused with status 400, code
/// `invalid_request`.
pub fn check_update_ids(path_id: VectorId, payload_id: VectorId) -> (r: Result<(), (u16, ErrorResponse)>)
    ensures
        r is Ok <==> path_id == payload_id,
        r matches Err(e) ==> e.0 == 400 && e.1.code@ == "invalid_request"@ && e.1.message@
            == "id in path and payload must match"@,
{
    if path_id != payload_id {
        return Err((400, ErrorResponse::new("invalid_request", "id in path and payload must match")));
    }
    Ok(())
}

/// Without a configured token every request is let through; with token
/// `t`, exactly the requests whose header reads `Bearer ` followed by `t`
/// are, and a request without the header never is.
pub proof fn lemma_authorization(t: Seq<char>, h: Seq<char>, header: Option<Seq<char>>)
    ensures
        is_authorized(None, header),
        !is_authorized(Some(t), None),
        is_authorized(Some(t), Some(h)) <==> (h.len() == t.len() + 7 && h.take(7) == "Bearer "@ && h.skip(
            7,
        ) == t),
{
    reveal_strlit("Bearer ");
    if h.len() == t.len() + 7 && h.take(7) == "Bearer "@ && h.skip(7) == t {
        assert(h =~= "Bearer "@ + t);
    }
    if h == "Bearer "@ + t {
        assert(h.take(7) =~= "Bearer "@);
        assert(h.skip(7) =~= t);
    }
}

} // verus!
