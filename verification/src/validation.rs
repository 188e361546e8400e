use vstd::prelude::*;

use crate::errors::{ErrorView, VectorDbError};

verus! {

/// A collection name is accepted when it is non-empty and holds none of
/// the characters `/`, `\` and NUL, so that it can name a file.
pub open spec fn is_valid_collection_name(name: Seq<char>) -> bool {
    &&& name.len() > 0
    &&& !name.contains('/')
    &&& !name.contains('\\')
    &&& !name.contains('\0')
}

/// Returns `true` exactly when `name` is a valid collection name.
pub fn collection_name_is_valid(name: &str) -> (ok: bool)
    ensures
        ok == is_valid_collection_name(name@),
{
    let mut ok = !name.is_empty();
    for c in it: name.chars()
        invariant
            it.seq() == name@,
            ok == (name@.len() > 0 && forall|j: int|
                0 <= j < it.index() ==> name@[j] != '/' && name@[j] != '\\' && name@[j] != '\0'),
    {
        if c == '/' || c == '\\' || c == '\0' {
            ok = false;
        }
    }
    ok
}

/// Accepts a valid collection name; refuses any other with
/// `InvalidCollectionName` carrying the name.
pub fn validate_collection_name(name: &str) -> (r: Result<(), VectorDbError>)
    ensures
        is_valid_collection_name(name@) ==> r is Ok,
        !is_valid_collection_name(name@) ==> (r matches Err(e) && e@
            == ErrorView::InvalidCollectionName(name@)),
{
    if !collection_name_is_valid(name) {
        return Err(VectorDbError::InvalidCollectionName(String::from_str(name)));
    }
    Ok(())
}

/// Which names are accepted: exactly the non-empty ones in which no
/// character is `/`, `\` or NUL. Every other character, `_`, `.`, a space
/// or any letter, may stand anywhere in a name.
pub proof fn lemma_valid_names(name: Seq<char>)
    ensures
        is_valid_collection_name(name) <==> (name.len() > 0 && forall|i: int|
            0 <= i < name.len() ==> #[trigger] name[i] != '/' && name[i] != '\\' && name[i] != '\0'),
{
    if name.len() > 0 && forall|i: int|
        0 <= i < name.len() ==> #[trigger] name[i] != '/' && name[i] != '\\' && name[i] != '\0' {
        assert(!name.contains('/'));
        assert(!name.contains('\\'));
        assert(!name.contains('\0'));
    }
}

/// Adding a character other than `/`, `\` and NUL to an accepted name
/// gives an accepted name.
pub proof fn lemma_valid_name_extends(name: Seq<char>, c: char)
    requires
        is_valid_collection_name(name),
        c != '/' && c != '\\' && c != '\0',
    ensures
        is_valid_collection_name(name.push(c)),
{
    lemma_valid_names(name);
    lemma_valid_names(name.push(c));
    assert forall|i: int| 0 <= i < name.push(c).len() implies #[trigger] name.push(c)[i] != '/' && name.push(c)[i]
        != '\\' && name.push(c)[i] != '\0' by {
        if i < name.len() {
            assert(name.push(c)[i] == name[i]);
        }
    }
}

} // verus!
