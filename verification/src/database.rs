use vstd::prelude::*;
use vstd::seq_lib::seq_to_set_is_finite;

use crate::collection::{Collection, CollectionView};
use crate::distance::DistanceMetric;
use crate::embedding::{has_nan, Embedding, EmbeddingView, VectorId};
use crate::errors::{ErrorView, VectorDbError};
use crate::index::{
    index_wf, lookup, search_outcome, spec_add, spec_remove, spec_search_check, spec_update_embedding,
    spec_update_vector, IndexView, SearchResult,
};
use crate::metadata::{compare_keys, KeyOrder};
use crate::storage::{
    collection_bytes, collection_name_of_file, encodable, encode_collection, error_matches,
    lemma_load_after_store, load_collection, spec_collection_of_file, spec_load, DecodeFailure,
};
use crate::storage::lemma_file_names_round_trip;
use crate::validation::{is_valid_collection_name, validate_collection_name};

verus! {

/// The models of a sequence of collections.
pub open spec fn collection_views(s: Seq<Collection>) -> Seq<CollectionView> {
    s.map_values(|c: Collection| c@)
}

/// No name occurs twice.
pub open spec fn names_distinct(s: Seq<CollectionView>) -> bool {
    forall|i: int, j: int|
        0 <= i < s.len() && 0 <= j < s.len() && i != j ==> #[trigger] s[i].name != #[trigger] s[j].name
}

/// Some collection is named `name`.
pub open spec fn has_name(s: Seq<CollectionView>, name: Seq<char>) -> bool {
    exists|i: int| 0 <= i < s.len() && #[trigger] s[i].name == name
}

/// The collections as a map from name to index.
pub open spec fn catalog(s: Seq<CollectionView>) -> Map<Seq<char>, IndexView> {
    Map::new(
        |name: Seq<char>| has_name(s, name),
        |name: Seq<char>| s[choose|i: int| 0 <= i < s.len() && #[trigger] s[i].name == name].index,
    )
}

pub proof fn lemma_catalog_at(s: Seq<CollectionView>, i: int)
    requires
        names_distinct(s),
        0 <= i < s.len(),
    ensures
        catalog(s).contains_key(s[i].name),
        catalog(s)[s[i].name] == s[i].index,
{
    assert(s[i].name == s[i].name);
    let c = choose|c: int| 0 <= c < s.len() && #[trigger] s[c].name == s[i].name;
    if c != i {
        assert(s[c].name != s[i].name);
    }
}

/// With distinct names, the map has one key per collection.
pub proof fn lemma_catalog_len(s: Seq<CollectionView>)
    requires
        names_distinct(s),
    ensures
        catalog(s).dom().finite(),
        catalog(s).len() == s.len(),
{
    let names = s.map_values(|c: CollectionView| c.name);
    assert forall|i: int, j: int| 0 <= i < names.len() && 0 <= j < names.len() && i != j implies names[i]
        != names[j] by {
        assert(s[i].name != s[j].name);
    }
    names.unique_seq_to_set();
    assert forall|n: Seq<char>| catalog(s).dom().contains(n) <==> names.to_set().contains(n) by {
        if catalog(s).dom().contains(n) {
            let w = choose|w: int| 0 <= w < s.len() && #[trigger] s[w].name == n;
            assert(names[w] == n);
        }
        if names.to_set().contains(n) {
            let w = choose|w: int| 0 <= w < names.len() && names[w] == n;
            assert(s[w].name == n);
        }
    }
    assert(catalog(s).dom() =~= names.to_set());
    seq_to_set_is_finite(names);
}

/// Replacing the collection at `i` by one whose name no other collection
/// has.
proof fn lemma_catalog_replace(s: Seq<CollectionView>, i: int, c: CollectionView)
    requires
        names_distinct(s),
        0 <= i < s.len(),
        forall|j: int| 0 <= j < s.len() && j != i ==> #[trigger] s[j].name != c.name,
    ensures
        names_distinct(s.update(i, c)),
        catalog(s.update(i, c)) == catalog(s).remove(s[i].name).insert(c.name, c.index),
{
    let t = s.update(i, c);
    assert forall|a: int, b: int| 0 <= a < t.len() && 0 <= b < t.len() && a != b implies #[trigger] t[a].name
        != #[trigger] t[b].name by {
        if a != i && b != i {
            assert(t[a] == s[a] && t[b] == s[b]);
        }
    }
    let lhs = catalog(t);
    let rhs = catalog(s).remove(s[i].name).insert(c.name, c.index);
    assert forall|n: Seq<char>| #[trigger] lhs.contains_key(n) <==> rhs.contains_key(n) by {
        if lhs.contains_key(n) {
            let w = choose|w: int| 0 <= w < t.len() && #[trigger] t[w].name == n;
            if w != i {
                assert(s[w].name == n);
                assert(s[w].name != s[i].name);
            }
        }
        if rhs.contains_key(n) && n != c.name {
            let w = choose|w: int| 0 <= w < s.len() && #[trigger] s[w].name == n;
            assert(w != i);
            assert(t[w].name == n);
        }
        if n == c.name {
            assert(t[i].name == n);
        }
    }
    assert forall|n: Seq<char>| #[trigger] lhs.contains_key(n) implies lhs[n] == rhs[n] by {
        let w = choose|w: int| 0 <= w < t.len() && #[trigger] t[w].name == n;
        lemma_catalog_at(t, w);
        if w != i {
            lemma_catalog_at(s, w);
            assert(s[w].name != s[i].name);
        }
    }
    assert(lhs =~= rhs);
}

proof fn lemma_catalog_push(s: Seq<CollectionView>, c: CollectionView)
    requires
        names_distinct(s),
        !has_name(s, c.name),
    ensures
        names_distinct(s.push(c)),
        catalog(s.push(c)) == catalog(s).insert(c.name, c.index),
{
    let t = s.push(c);
    assert forall|a: int, b: int| 0 <= a < t.len() && 0 <= b < t.len() && a != b implies #[trigger] t[a].name
        != #[trigger] t[b].name by {
        if a < s.len() && b < s.len() {
            assert(t[a] == s[a] && t[b] == s[b]);
        } else if a < s.len() {
            assert(t[a] == s[a]);
        } else {
            assert(t[b] == s[b]);
        }
    }
    let lhs = catalog(t);
    let rhs = catalog(s).insert(c.name, c.index);
    assert forall|n: Seq<char>| #[trigger] lhs.contains_key(n) <==> rhs.contains_key(n) by {
        if lhs.contains_key(n) && n != c.name {
            let w = choose|w: int| 0 <= w < t.len() && #[trigger] t[w].name == n;
            assert(s[w].name == n);
        }
        if rhs.contains_key(n) && n != c.name {
            let w = choose|w: int| 0 <= w < s.len() && #[trigger] s[w].name == n;
            assert(t[w].name == n);
        }
        if n == c.name {
            assert(t[s.len() as int].name == n);
        }
    }
    assert forall|n: Seq<char>| #[trigger] lhs.contains_key(n) implies lhs[n] == rhs[n] by {
        let w = choose|w: int| 0 <= w < t.len() && #[trigger] t[w].name == n;
        lemma_catalog_at(t, w);
        if w < s.len() {
            lemma_catalog_at(s, w);
        }
    }
    assert(lhs =~= rhs);
}

proof fn lemma_catalog_remove(s: Seq<CollectionView>, i: int)
    requires
        names_distinct(s),
        0 <= i < s.len(),
    ensures
        names_distinct(s.remove(i)),
        catalog(s.remove(i)) == catalog(s).remove(s[i].name),
{
    let t = s.remove(i);
    assert forall|a: int, b: int| 0 <= a < t.len() && 0 <= b < t.len() && a != b implies #[trigger] t[a].name
        != #[trigger] t[b].name by {
        let a2 = if a < i { a } else { a + 1 };
        let b2 = if b < i { b } else { b + 1 };
        assert(t[a] == s[a2] && t[b] == s[b2]);
    }
    let lhs = catalog(t);
    let rhs = catalog(s).remove(s[i].name);
    assert forall|n: Seq<char>| #[trigger] lhs.contains_key(n) <==> rhs.contains_key(n) by {
        if lhs.contains_key(n) {
            let w = choose|w: int| 0 <= w < t.len() && #[trigger] t[w].name == n;
            let w2 = if w < i { w } else { w + 1 };
            assert(s[w2].name == n);
            assert(s[w2].name != s[i].name);
        }
        if rhs.contains_key(n) {
            let w = choose|w: int| 0 <= w < s.len() && #[trigger] s[w].name == n;
            assert(w != i);
            let w2 = if w < i { w } else { w - 1 };
            assert(t[w2].name == n);
        }
    }
    assert forall|n: Seq<char>| #[trigger] lhs.contains_key(n) implies lhs[n] == rhs[n] by {
        let w = choose|w: int| 0 <= w < t.len() && #[trigger] t[w].name == n;
        let w2 = if w < i { w } else { w + 1 };
        lemma_catalog_at(t, w);
        lemma_catalog_at(s, w2);
    }
    assert(lhs =~= rhs);
}

/// A change to the embeddings of one collection.
pub enum Change {
    Insert(VectorId, Vec<u32>),
    InsertEmbedding(Embedding),
    UpdateEmbedding(Embedding),
    UpdateVector(VectorId, Vec<u32>),
    Delete(VectorId),
}

/// What a change does to an index.
pub open spec fn spec_change(index: IndexView, change: Change) -> Result<IndexView, ErrorView> {
    match change {
        Change::Insert(id, vector) => spec_add(
            index,
            EmbeddingView { id, vector: vector@, metadata: Seq::empty() },
        ),
        Change::InsertEmbedding(e) => spec_add(index, e@),
        Change::UpdateEmbedding(e) => spec_update_embedding(index, e@),
        Change::UpdateVector(id, vector) => spec_update_vector(index, id, vector@),
        Change::Delete(id) => spec_remove(index, id),
    }
}

/// What changing the dimension of a collection does: a dimension of zero
/// is refused, an unchanged one is kept, and a collection that holds
/// embeddings keeps its dimension.
pub open spec fn spec_set_dimension(index: IndexView, name: Seq<char>, dimension: usize) -> Result<
    IndexView,
    ErrorView,
> {
    if dimension == 0 {
        Err(ErrorView::InvalidDimension)
    } else if dimension == index.dimension {
        Ok(index)
    } else if index.entries.len() > 0 {
        Err(ErrorView::CollectionNotEmpty(name))
    } else {
        Ok(IndexView { dimension, ..index })
    }
}

/// The outcome of an operation on collection `name`: refused with
/// `CollectionNotFound` when there is none, otherwise what `op` gives.
pub open spec fn on_collection(
    db: Map<Seq<char>, IndexView>,
    name: Seq<char>,
    op: spec_fn(IndexView) -> Result<IndexView, ErrorView>,
) -> Result<IndexView, ErrorView> {
    if db.contains_key(name) {
        op(db[name])
    } else {
        Err(ErrorView::CollectionNotFound(name))
    }
}

/// A change of collection `name` went as `expected` says: on success the
/// collection became the new index and `r` holds the bytes of its file; on
/// failure the expected error came back and nothing changed.
pub open spec fn persisted(
    r: Result<Vec<u8>, VectorDbError>,
    before: Map<Seq<char>, IndexView>,
    after: Map<Seq<char>, IndexView>,
    name: Seq<char>,
    expected: Result<IndexView, ErrorView>,
) -> bool {
    match expected {
        Ok(index) => r matches Ok(bytes) && bytes@ == collection_bytes(index) && after == before.insert(
            name,
            index,
        ) && is_valid_collection_name(name) && index_wf(index) && encodable(index),
        Err(e) => r matches Err(x) && x@ == e && after == before,
    }
}

/// The bytes that a successful change hands back load as the collection's
/// new state, whose metric reads back as Euclidean.
pub proof fn lemma_persisted_bytes_reload(
    r: Result<Vec<u8>, VectorDbError>,
    before: Map<Seq<char>, IndexView>,
    after: Map<Seq<char>, IndexView>,
    name: Seq<char>,
    expected: Result<IndexView, ErrorView>,
)
    requires
        persisted(r, before, after, name, expected),
        expected is Ok,
    ensures
        r matches Ok(bytes) && spec_load(name, bytes@) == Ok::<IndexView, DecodeFailure>(
            IndexView { metric: DistanceMetric::Euclidean, ..expected->Ok_0 },
        ),
        after[name] == expected->Ok_0,
{
    lemma_load_after_store(name, expected->Ok_0);
}

/// Removing a collection just created restores the database as it was
/// before: what undoing a creation whose file could not be stored relies on.
pub proof fn lemma_create_then_delete(
    before: Map<Seq<char>, IndexView>,
    name: Seq<char>,
    dimension: usize,
    metric: DistanceMetric,
)
    requires
        spec_create(before, name, dimension, metric) is Ok,
    ensures
        before.insert(name, spec_create(before, name, dimension, metric)->Ok_0).remove(name) == before,
{
    assert(before.insert(name, spec_create(before, name, dimension, metric)->Ok_0).remove(name) =~= before);
}

/// Creating collection `name`: refused for an invalid name, a taken name or
/// dimension zero, otherwise an empty index.
pub open spec fn spec_create(
    db: Map<Seq<char>, IndexView>,
    name: Seq<char>,
    dimension: usize,
    metric: DistanceMetric,
) -> Result<IndexView, ErrorView> {
    if !is_valid_collection_name(name) {
        Err(ErrorView::InvalidCollectionName(name))
    } else if db.contains_key(name) {
        Err(ErrorView::CollectionAlreadyExists(name))
    } else if dimension == 0 {
        Err(ErrorView::InvalidDimension)
    } else {
        Ok(IndexView { dimension, metric, entries: Seq::empty() })
    }
}

/// Why renaming `from` to `to` is refused, if it is.
pub open spec fn spec_rename_check(db: Map<Seq<char>, IndexView>, from: Seq<char>, to: Seq<char>) -> Result<
    (),
    ErrorView,
> {
    if !is_valid_collection_name(to) {
        Err(ErrorView::InvalidCollectionName(to))
    } else if !db.contains_key(from) {
        Err(ErrorView::CollectionNotFound(from))
    } else if db.contains_key(to) {
        Err(ErrorView::CollectionAlreadyExists(to))
    } else {
        Ok(())
    }
}

// ---------------------------------------------------------------------
// The database on disk.
// ---------------------------------------------------------------------

/// Every collection can be stored and read back: its name is valid, its
/// index well formed and every length in it fits a machine word.
pub open spec fn storable(db: Map<Seq<char>, IndexView>) -> bool {
    forall|n: Seq<char>|
        #[trigger] db.contains_key(n) ==> is_valid_collection_name(n) && index_wf(db[n]) && encodable(
            db[n],
        )
}

/// The directory `dir` (file name to contents) stores `db`: each collection
/// `n` has its file `n.vdb` holding its bytes, and every collection file
/// belongs to a collection of `db`.
pub open spec fn directory_holds(dir: Map<Seq<char>, Seq<u8>>, db: Map<Seq<char>, IndexView>) -> bool {
    &&& forall|n: Seq<char>|
        #[trigger] db.contains_key(n) ==> dir.contains_key(n + ".vdb"@) && dir[n + ".vdb"@]
            == collection_bytes(db[n])
    &&& forall|f: Seq<char>|
        #[trigger] dir.contains_key(f) && spec_collection_of_file(f) is Some ==> db.contains_key(
            spec_collection_of_file(f)->0,
        )
}

/// `files` lists the directory `dir` in some order: each of its files
/// exactly once, with its contents.
pub open spec fn lists(files: Seq<(Seq<char>, Seq<u8>)>, dir: Map<Seq<char>, Seq<u8>>) -> bool {
    &&& forall|i: int, j: int|
        0 <= i < files.len() && 0 <= j < files.len() && i != j ==> #[trigger] files[i].0
            != #[trigger] files[j].0
    &&& forall|i: int|
        0 <= i < files.len() ==> dir.contains_key(#[trigger] files[i].0) && dir[files[i].0]
            == files[i].1
    &&& forall|f: Seq<char>| #[trigger] dir.contains_key(f) ==> exists|i: int| 0 <= i < files.len() && #[trigger] files[i].0 == f
}

/// Loading one file of the directory into `db`: a collection file adds its
/// collection, or tells why it cannot be read; any other file is passed by.
pub open spec fn spec_load_file(db: Map<Seq<char>, IndexView>, file: Seq<char>, bytes: Seq<u8>) -> Result<
    Map<Seq<char>, IndexView>,
    DecodeFailure,
> {
    match spec_collection_of_file(file) {
        None => Ok(db),
        Some(name) => match spec_load(name, bytes) {
            Ok(index) => Ok(db.insert(name, index)),
            Err(f) => Err(f),
        },
    }
}

/// Opening a directory listed as `files`: its files loaded one after the
/// other into an empty database.
pub open spec fn spec_reopen(files: Seq<(Seq<char>, Seq<u8>)>) -> Result<Map<Seq<char>, IndexView>, DecodeFailure>
    decreases files.len(),
{
    if files.len() == 0 {
        Ok(Map::empty())
    } else {
        match spec_reopen(files.drop_last()) {
            Err(f) => Err(f),
            Ok(db) => spec_load_file(db, files.last().0, files.last().1),
        }
    }
}

/// What reopening gives of `db`: every collection as it was, ranked by
/// Euclidean distance, since a file does not hold the metric.
pub open spec fn reopened(db: Map<Seq<char>, IndexView>) -> Map<Seq<char>, IndexView> {
    db.map_values(|v: IndexView| IndexView { metric: DistanceMetric::Euclidean, ..v })
}

/// The file of a collection is the only file that names it.
proof fn lemma_collection_file_is(f: Seq<char>)
    requires
        spec_collection_of_file(f) is Some,
    ensures
        f == spec_collection_of_file(f)->0 + ".vdb"@,
{
    reveal_strlit(".vdb");
    assert(f =~= f.take(f.len() - 4) + f.skip(f.len() - 4));
}

/// A successful change, with its bytes written to the collection's file,
/// leaves a directory that stores the changed database.
pub proof fn lemma_change_on_disk(
    dir: Map<Seq<char>, Seq<u8>>,
    r: Result<Vec<u8>, VectorDbError>,
    before: Map<Seq<char>, IndexView>,
    after: Map<Seq<char>, IndexView>,
    name: Seq<char>,
    expected: Result<IndexView, ErrorView>,
)
    requires
        directory_holds(dir, before),
        storable(before),
        persisted(r, before, after, name, expected),
        expected is Ok,
    ensures
        r is Ok,
        directory_holds(dir.insert(name + ".vdb"@, r->Ok_0@), after),
        storable(after),
{
    let d2 = dir.insert(name + ".vdb"@, r->Ok_0@);
    lemma_file_names_round_trip(name);
    assert forall|n: Seq<char>| #[trigger] after.contains_key(n) implies d2.contains_key(n + ".vdb"@) && d2[n
        + ".vdb"@] == collection_bytes(after[n]) by {
        lemma_file_names_round_trip(n);
        if n != name {
            assert(n + ".vdb"@ != name + ".vdb"@);
            assert(before.contains_key(n));
        }
    }
    assert forall|f: Seq<char>| #[trigger] d2.contains_key(f) && spec_collection_of_file(f) is Some implies after.contains_key(
        spec_collection_of_file(f)->0,
    ) by {
        if f != name + ".vdb"@ {
            assert(dir.contains_key(f));
        }
    }
}

/// Deleting a collection, and its file with it, leaves a directory that
/// stores the smaller database.
pub proof fn lemma_delete_on_disk(dir: Map<Seq<char>, Seq<u8>>, db: Map<Seq<char>, IndexView>, name: Seq<char>)
    requires
        directory_holds(dir, db),
        storable(db),
        db.contains_key(name),
    ensures
        directory_holds(dir.remove(name + ".vdb"@), db.remove(name)),
        storable(db.remove(name)),
{
    let d2 = dir.remove(name + ".vdb"@);
    let db2 = db.remove(name);
    assert forall|n: Seq<char>| #[trigger] db2.contains_key(n) implies d2.contains_key(n + ".vdb"@) && d2[n
        + ".vdb"@] == collection_bytes(db2[n]) by {
        lemma_file_names_round_trip(n);
        lemma_file_names_round_trip(name);
        assert(n + ".vdb"@ != name + ".vdb"@);
    }
    assert forall|f: Seq<char>| #[trigger] d2.contains_key(f) && spec_collection_of_file(f) is Some implies db2.contains_key(
        spec_collection_of_file(f)->0,
    ) by {
        lemma_collection_file_is(f);
        assert(dir.contains_key(f));
    }
}

/// Renaming a collection, and moving its file with it, leaves a directory
/// that stores the renamed database.
pub proof fn lemma_rename_on_disk(
    dir: Map<Seq<char>, Seq<u8>>,
    db: Map<Seq<char>, IndexView>,
    from: Seq<char>,
    to: Seq<char>,
)
    requires
        directory_holds(dir, db),
        storable(db),
        spec_rename_check(db, from, to) is Ok,
    ensures
        directory_holds(
            dir.remove(from + ".vdb"@).insert(to + ".vdb"@, dir[from + ".vdb"@]),
            db.remove(from).insert(to, db[from]),
        ),
        storable(db.remove(from).insert(to, db[from])),
{
    let d2 = dir.remove(from + ".vdb"@).insert(to + ".vdb"@, dir[from + ".vdb"@]);
    let db2 = db.remove(from).insert(to, db[from]);
    lemma_file_names_round_trip(from);
    lemma_file_names_round_trip(to);
    assert forall|n: Seq<char>| #[trigger] db2.contains_key(n) implies d2.contains_key(n + ".vdb"@) && d2[n
        + ".vdb"@] == collection_bytes(db2[n]) by {
        lemma_file_names_round_trip(n);
        if n != to {
            assert(n + ".vdb"@ != from + ".vdb"@);
            assert(n + ".vdb"@ != to + ".vdb"@);
        }
    }
    assert forall|f: Seq<char>| #[trigger] d2.contains_key(f) && spec_collection_of_file(f) is Some implies db2.contains_key(
        spec_collection_of_file(f)->0,
    ) by {
        lemma_collection_file_is(f);
        if f != to + ".vdb"@ {
            assert(dir.contains_key(f));
            assert(spec_collection_of_file(f)->0 != from);
        }
    }
}

/// Reopening: whatever order the directory is listed in, loading a
/// directory that stores `db` gives back every collection of `db` and no
/// other, each with its dimension and its embeddings in order; the metric
/// reads back as Euclidean.
pub proof fn lemma_reopen(db: Map<Seq<char>, IndexView>, dir: Map<Seq<char>, Seq<u8>>, files: Seq<(Seq<char>, Seq<u8>)>)
    requires
        storable(db),
        directory_holds(dir, db),
        lists(files, dir),
    ensures
        spec_reopen(files) == Ok::<Map<Seq<char>, IndexView>, DecodeFailure>(reopened(db)),
        storable(reopened(db)),
        directory_holds(dir, reopened(db)),
{
    lemma_reopen_prefix(db, dir, files, files.len() as int);
    let loaded = Map::new(
        |n: Seq<char>| db.contains_key(n) && exists|i: int| 0 <= i < files.len() && #[trigger] files[i].0 == n + ".vdb"@,
        |n: Seq<char>| IndexView { metric: DistanceMetric::Euclidean, ..db[n] },
    );
    assert(files.take(files.len() as int) =~= files);
    assert forall|n: Seq<char>| #[trigger] db.contains_key(n) implies loaded.contains_key(n) by {
        assert(dir.contains_key(n + ".vdb"@));
    }
    assert(loaded =~= reopened(db));
    assert forall|n: Seq<char>| #[trigger] reopened(db).contains_key(n) implies index_wf(reopened(db)[n])
        && encodable(reopened(db)[n]) by {
        assert(index_wf(db[n]) && encodable(db[n]));
    }
}

/// Loading the first `m` listed files gives the collections whose files
/// are among them.
proof fn lemma_reopen_prefix(
    db: Map<Seq<char>, IndexView>,
    dir: Map<Seq<char>, Seq<u8>>,
    files: Seq<(Seq<char>, Seq<u8>)>,
    m: int,
)
    requires
        storable(db),
        directory_holds(dir, db),
        lists(files, dir),
        0 <= m <= files.len(),
    ensures
        spec_reopen(files.take(m)) == Ok::<Map<Seq<char>, IndexView>, DecodeFailure>(
            Map::new(
                |n: Seq<char>| db.contains_key(n) && exists|i: int| 0 <= i < m && #[trigger] files[i].0 == n + ".vdb"@,
                |n: Seq<char>| IndexView { metric: DistanceMetric::Euclidean, ..db[n] },
            ),
        ),
    decreases m,
{
    let target = Map::new(
        |n: Seq<char>| db.contains_key(n) && exists|i: int| 0 <= i < m && #[trigger] files[i].0 == n + ".vdb"@,
        |n: Seq<char>| IndexView { metric: DistanceMetric::Euclidean, ..db[n] },
    );
    if m == 0 {
        assert(target =~= Map::empty());
    } else {
        lemma_reopen_prefix(db, dir, files, m - 1);
        let prev = Map::new(
            |n: Seq<char>| db.contains_key(n) && exists|i: int| 0 <= i < m - 1 && #[trigger] files[i].0 == n + ".vdb"@,
            |n: Seq<char>| IndexView { metric: DistanceMetric::Euclidean, ..db[n] },
        );
        let t = files.take(m);
        assert(t.drop_last() =~= files.take(m - 1));
        assert(t.last() == files[m - 1]);
        let f = files[m - 1].0;
        assert(dir.contains_key(f) && dir[f] == files[m - 1].1);
        match spec_collection_of_file(f) {
            None => {
                assert forall|n: Seq<char>| #[trigger] target.contains_key(n) implies prev.contains_key(n) by {
                    let i = choose|i: int| 0 <= i < m && #[trigger] files[i].0 == n + ".vdb"@;
                    if i == m - 1 {
                        lemma_file_names_round_trip(n);
                    }
                }
                assert(target =~= prev);
            },
            Some(name) => {
                lemma_collection_file_is(f);
                assert(db.contains_key(name));
                lemma_load_after_store(name, db[name]);
                assert(spec_load(name, files[m - 1].1) == Ok::<IndexView, DecodeFailure>(
                    IndexView { metric: DistanceMetric::Euclidean, ..db[name] },
                ));
                let grown = prev.insert(name, IndexView { metric: DistanceMetric::Euclidean, ..db[name] });
                assert forall|n: Seq<char>| #[trigger] target.contains_key(n) implies grown.contains_key(n) by {
                    let i = choose|i: int| 0 <= i < m && #[trigger] files[i].0 == n + ".vdb"@;
                    if i != m - 1 {
                        assert(prev.contains_key(n));
                    } else {
                        lemma_file_names_round_trip(n);
                    }
                }
                assert forall|n: Seq<char>| #[trigger] grown.contains_key(n) implies target.contains_key(n) by {
                    if n == name {
                        assert(files[m - 1].0 == n + ".vdb"@);
                    } else {
                        let i = choose|i: int| 0 <= i < m - 1 && #[trigger] files[i].0 == n + ".vdb"@;
                        assert(files[i].0 == n + ".vdb"@);
                    }
                }
                assert(target =~= grown);
            },
        }
    }
}

/// The named collections of a database, held in memory; every change to a
/// collection hands back the bytes of its file, for the caller to store.
#[derive(Debug)]
pub struct VectorDatabase {
    collections: Vec<Collection>,
}

impl View for VectorDatabase {
    type V = Map<Seq<char>, IndexView>;

    closed spec fn view(&self) -> Map<Seq<char>, IndexView> {
        catalog(collection_views(self.collections@))
    }
}

impl VectorDatabase {
    #[verifier::type_invariant]
    spec fn well_formed(self) -> bool {
        &&& names_distinct(collection_views(self.collections@))
        &&& forall|i: int|
            0 <= i < self.collections@.len() ==> is_valid_collection_name(
                #[trigger] collection_views(self.collections@)[i].name,
            )
    }

    /// A database without collections.
    pub fn new() -> (db: Self)
        ensures
            db@ == Map::<Seq<char>, IndexView>::empty(),
    {
        let db = VectorDatabase { collections: Vec::new() };
        assert(db@ =~= Map::<Seq<char>, IndexView>::empty());
        db
    }

    /// The position of collection `name`, if any.
    fn find(&self, name: &str) -> (r: Option<usize>)
        ensures
            match r {
                Some(i) => i < self.collections@.len() && collection_views(self.collections@)[i as int].name
                    == name@,
                None => !has_name(collection_views(self.collections@), name@),
            },
            self@.contains_key(name@) == r is Some,
    {
        let ghost s = collection_views(self.collections@);
        let mut i: usize = 0;
        while i < self.collections.len()
            invariant
                s == collection_views(self.collections@),
                i <= s.len(),
                forall|j: int| 0 <= j < i ==> s[j].name != name@,
            decreases s.len() - i,
        {
            if matches!(compare_keys(self.collections[i].name(), name), KeyOrder::Equal) {
                return Some(i);
            }
            i = i + 1;
        }
        None
    }

    /// The collection named `name`, if any.
    pub fn collection(&self, name: &str) -> (r: Option<&Collection>)
        ensures
            match r {
                Some(c) => self@.contains_key(name@) && c@ == (CollectionView {
                    name: name@,
                    index: self@[name@],
                }),
                None => !self@.contains_key(name@),
            },
    {
        proof {
            use_type_invariant(self);
        }
        match self.find(name) {
            Some(i) => {
                proof {
                    lemma_catalog_at(collection_views(self.collections@), i as int);
                }
                Some(&self.collections[i])
            },
            None => None,
        }
    }

    /// All collections; their names are distinct.
    pub fn collections(&self) -> (s: &[Collection])
        ensures
            names_distinct(collection_views(s@)),
            catalog(collection_views(s@)) == self@,
    {
        proof {
            use_type_invariant(self);
        }
        self.collections.as_slice()
    }

    /// The embedding with identifier `id` in collection `collection`, if any.
    pub fn embedding(&self, collection: &str, id: VectorId) -> (r: Option<&Embedding>)
        ensures
            match r {
                Some(e) => self@.contains_key(collection@) && lookup(self@[collection@].entries, id)
                    == Some(e@),
                None => !self@.contains_key(collection@) || lookup(self@[collection@].entries, id) is None,
            },
    {
        match self.collection(collection) {
            Some(c) => c.embedding(id),
            None => None,
        }
    }

    /// Creates an empty collection ranked by Euclidean distance; returns the
    /// bytes of its file.
    pub fn create_collection(&mut self, name: String, dimension: usize) -> (r: Result<Vec<u8>, VectorDbError>)
        ensures
            persisted(
                r,
                old(self)@,
                final(self)@,
                name@,
                spec_create(old(self)@, name@, dimension, DistanceMetric::Euclidean),
            ),
    {
        self.create_collection_with_metric(name, dimension, DistanceMetric::Euclidean)
    }

    /// Creates an empty collection ranked by `metric`; returns the bytes of
    /// its file.
    pub fn create_collection_with_metric(&mut self, name: String, dimension: usize, metric: DistanceMetric) -> (r: Result<Vec<u8>, VectorDbError>)
        ensures
            persisted(r, old(self)@, final(self)@, name@, spec_create(old(self)@, name@, dimension, metric)),
    {
        proof {
            use_type_invariant(&*self);
        }
        validate_collection_name(name.as_str())?;
        if self.find(name.as_str()).is_some() {
            return Err(VectorDbError::CollectionAlreadyExists(name));
        }
        let collection = Collection::with_metric(name, dimension, metric)?;
        let bytes = encode_collection(&collection);
        let ghost s = collection_views(self.collections@);
        let ghost c = collection@;
        let mut cols: Vec<Collection> = Vec::new();
        std::mem::swap(&mut cols, &mut self.collections);
        cols.push(collection);
        proof {
            assert(collection_views(cols@) =~= s.push(c));
            lemma_catalog_push(s, c);
            assert forall|i: int| 0 <= i < cols@.len() implies is_valid_collection_name(
                #[trigger] collection_views(cols@)[i].name,
            ) by {
                if i < s.len() {
                    assert(collection_views(cols@)[i] == s[i]);
                }
            }
        }
        self.collections = cols;
        Ok(bytes)
    }

    /// Adds a collection read from storage, in place of one of the same
    /// name.
    pub fn restore_collection(&mut self, collection: Collection) -> (r: Result<(), VectorDbError>)
        ensures
            is_valid_collection_name(collection@.name) ==> r is Ok && final(self)@ == old(self)@.insert(
                collection@.name,
                collection@.index,
            ),
            !is_valid_collection_name(collection@.name) ==> (r matches Err(e) && e@
                == ErrorView::InvalidCollectionName(collection@.name) && final(self)@ == old(self)@),
    {
        proof {
            use_type_invariant(&*self);
        }
        validate_collection_name(collection.name())?;
        let ghost s = collection_views(self.collections@);
        let ghost c = collection@;
        let found = self.find(collection.name());
        let mut cols: Vec<Collection> = Vec::new();
        std::mem::swap(&mut cols, &mut self.collections);
        match found {
            Some(i) => {
                cols.set(i, collection);
                proof {
                    assert(collection_views(cols@) =~= s.update(i as int, c));
                    lemma_catalog_replace(s, i as int, c);
                    assert(catalog(s).remove(c.name).insert(c.name, c.index) =~= catalog(s).insert(c.name, c.index));
                }
            },
            None => {
                cols.push(collection);
                proof {
                    assert(collection_views(cols@) =~= s.push(c));
                    lemma_catalog_push(s, c);
                }
            },
        }
        proof {
            assert forall|i: int| 0 <= i < cols@.len() implies is_valid_collection_name(
                #[trigger] collection_views(cols@)[i].name,
            ) by {
                if collection_views(cols@)[i] != c {
                    assert(exists|j: int| 0 <= j < s.len() && s[j] == collection_views(cols@)[i]);
                }
            }
        }
        self.collections = cols;
        Ok(())
    }

    /// Puts `c` in place of the collection at `i`, which has the same name.
    fn replace_at(&mut self, i: usize, c: Collection)
        requires
            i < old(self).collections@.len(),
            collection_views(old(self).collections@)[i as int].name == c@.name,
        ensures
            final(self)@ == old(self)@.insert(c@.name, c@.index),
    {
        proof {
            use_type_invariant(&*self);
        }
        let ghost s = collection_views(self.collections@);
        let ghost cv = c@;
        let mut cols: Vec<Collection> = Vec::new();
        std::mem::swap(&mut cols, &mut self.collections);
        cols.set(i, c);
        proof {
            assert(collection_views(cols@) =~= s.update(i as int, cv));
            lemma_catalog_replace(s, i as int, cv);
            assert(catalog(s).remove(cv.name).insert(cv.name, cv.index) =~= catalog(s).insert(
                cv.name,
                cv.index,
            ));
            assert forall|j: int| 0 <= j < cols@.len() implies is_valid_collection_name(
                #[trigger] collection_views(cols@)[j].name,
            ) by {
                assert(collection_views(cols@)[j].name == s[j].name);
            }
        }
        self.collections = cols;
    }

    /// Removes the collection at `i`.
    fn remove_at(&mut self, i: usize)
        requires
            i < old(self).collections@.len(),
        ensures
            final(self)@ == old(self)@.remove(collection_views(old(self).collections@)[i as int].name),
    {
        proof {
            use_type_invariant(&*self);
        }
        let ghost s = collection_views(self.collections@);
        let mut cols: Vec<Collection> = Vec::new();
        std::mem::swap(&mut cols, &mut self.collections);
        let _removed = cols.remove(i);
        proof {
            assert(collection_views(cols@) =~= s.remove(i as int));
            lemma_catalog_remove(s, i as int);
            assert forall|j: int| 0 <= j < cols@.len() implies is_valid_collection_name(
                #[trigger] collection_views(cols@)[j].name,
            ) by {
                let j2 = if j < i { j } else { j + 1 };
                assert(collection_views(cols@)[j] == s[j2]);
            }
        }
        self.collections = cols;
    }

    /// Loads the file `file_name` of the storage directory, which holds
    /// `bytes`: a collection file adds its collection (see
    /// [`spec_load_file`]); any other file is passed by.
    pub fn load_collection_file(&mut self, file_name: &str, bytes: &[u8]) -> (r: Result<(), VectorDbError>)
        ensures
            match spec_load_file(old(self)@, file_name@, bytes@) {
                Ok(db) => r is Ok && final(self)@ == db,
                Err(f) => r matches Err(e) && error_matches(e, f) && final(self)@ == old(self)@,
            },
    {
        match collection_name_of_file(file_name) {
            None => Ok(()),
            Some(name) => {
                let collection = load_collection(name.as_str(), bytes)?;
                self.restore_collection(collection)
            },
        }
    }

    /// Applies `change` to collection `name`; returns the bytes of its file.
    pub fn apply(&mut self, name: &str, change: Change) -> (r: Result<Vec<u8>, VectorDbError>)
        ensures
            persisted(
                r,
                old(self)@,
                final(self)@,
                name@,
                on_collection(old(self)@, name@, |index: IndexView| spec_change(index, change)),
            ),
    {
        let i = match self.find(name) {
            Some(i) => i,
            None => {
                return Err(VectorDbError::CollectionNotFound(String::from_str(name)));
            },
        };
        proof {
            use_type_invariant(&*self);
            lemma_catalog_at(collection_views(self.collections@), i as int);
        }
        let ghost s = collection_views(self.collections@);
        let mut cols: Vec<Collection> = Vec::new();
        std::mem::swap(&mut cols, &mut self.collections);
        let mut c = cols.remove(i);
        let ghost before = c@;
        assert(before == s[i as int]);
        let result = match change {
            Change::Insert(id, vector) => c.insert(id, vector),
            Change::InsertEmbedding(e) => c.insert_embedding(e),
            Change::UpdateEmbedding(e) => c.update_embedding(e),
            Change::UpdateVector(id, vector) => c.update_vector(id, vector),
            Change::Delete(id) => c.delete(id),
        };
        let outcome = match result {
            Ok(()) => Ok(encode_collection(&c)),
            Err(e) => Err(e),
        };
        let ghost after = c@;
        cols.insert(i, c);
        proof {
            assert(after.name == before.name);
            assert(collection_views(cols@) =~= s.update(i as int, after));
            lemma_catalog_replace(s, i as int, after);
            assert(catalog(s).remove(after.name).insert(after.name, after.index) =~= catalog(s).insert(
                after.name,
                after.index,
            ));
            if after == before {
                assert(catalog(s).insert(after.name, after.index) =~= catalog(s));
            }
            assert forall|j: int| 0 <= j < cols@.len() implies is_valid_collection_name(
                #[trigger] collection_views(cols@)[j].name,
            ) by {
                assert(collection_views(cols@)[j].name == s[j].name);
            }
        }
        self.collections = cols;
        outcome
    }

    /// Adds a vector with empty metadata to collection `collection`.
    pub fn insert(&mut self, collection: &str, id: VectorId, vector: Vec<u32>) -> (r: Result<
        Vec<u8>,
        VectorDbError,
    >)
        ensures
            persisted(
                r,
                old(self)@,
                final(self)@,
                collection@,
                on_collection(
                    old(self)@,
                    collection@,
                    |index: IndexView|
                        spec_add(index, EmbeddingView { id, vector: vector@, metadata: Seq::empty() }),
                ),
            ),
    {
        self.apply(collection, Change::Insert(id, vector))
    }

    /// Adds an embedding to collection `collection`.
    pub fn insert_embedding(&mut self, collection: &str, embedding: Embedding) -> (r: Result<
        Vec<u8>,
        VectorDbError,
    >)
        ensures
            persisted(
                r,
                old(self)@,
                final(self)@,
                collection@,
                on_collection(old(self)@, collection@, |index: IndexView| spec_add(index, embedding@)),
            ),
    {
        self.apply(collection, Change::InsertEmbedding(embedding))
    }

    /// Replaces the embedding with the same identifier in `collection`.
    pub fn update_embedding(&mut self, collection: &str, embedding: Embedding) -> (r: Result<
        Vec<u8>,
        VectorDbError,
    >)
        ensures
            persisted(
                r,
                old(self)@,
                final(self)@,
                collection@,
                on_collection(
                    old(self)@,
                    collection@,
                    |index: IndexView| spec_update_embedding(index, embedding@),
                ),
            ),
    {
        self.apply(collection, Change::UpdateEmbedding(embedding))
    }

    /// Replaces the vector of embedding `id` in `collection`.
    pub fn update_vector(&mut self, collection: &str, id: VectorId, vector: Vec<u32>) -> (r: Result<
        Vec<u8>,
        VectorDbError,
    >)
        ensures
            persisted(
                r,
                old(self)@,
                final(self)@,
                collection@,
                on_collection(
                    old(self)@,
                    collection@,
                    |index: IndexView| spec_update_vector(index, id, vector@),
                ),
            ),
    {
        self.apply(collection, Change::UpdateVector(id, vector))
    }

    /// Removes embedding `id` from `collection`.
    pub fn delete(&mut self, collection: &str, id: VectorId) -> (r: Result<Vec<u8>, VectorDbError>)
        ensures
            persisted(
                r,
                old(self)@,
                final(self)@,
                collection@,
                on_collection(old(self)@, collection@, |index: IndexView| spec_remove(index, id)),
            ),
    {
        self.apply(collection, Change::Delete(id))
    }

    /// Changes the dimension of collection `name`; returns the bytes of its
    /// file.
    pub fn update_collection_dimension(&mut self, name: &str, dimension: usize) -> (r: Result<
        Vec<u8>,
        VectorDbError,
    >)
        ensures
            persisted(
                r,
                old(self)@,
                final(self)@,
                name@,
                on_collection(
                    old(self)@,
                    name@,
                    |index: IndexView| spec_set_dimension(index, name@, dimension),
                ),
            ),
    {
        let i = match self.find(name) {
            Some(i) => i,
            None => {
                return Err(VectorDbError::CollectionNotFound(String::from_str(name)));
            },
        };
        proof {
            use_type_invariant(&*self);
            lemma_catalog_at(collection_views(self.collections@), i as int);
        }
        if dimension == 0 {
            return Err(VectorDbError::InvalidDimension);
        }
        let current = &self.collections[i];
        if dimension == current.dimension() {
            let bytes = encode_collection(current);
            proof {
                assert(old(self)@.insert(name@, old(self)@[name@]) =~= old(self)@);
            }
            return Ok(bytes);
        }
        if current.len() > 0 {
            return Err(VectorDbError::CollectionNotEmpty(String::from_str(name)));
        }
        let metric = current.metric();
        let resized = match Collection::with_metric(String::from_str(name), dimension, metric) {
            Ok(c) => c,
            Err(e) => {
                return Err(e);
            },
        };
        let bytes = encode_collection(&resized);
        proof {
            assert(resized@.index.entries =~= old(self)@[name@].entries);
        }
        self.replace_at(i, resized);
        Ok(bytes)
    }

    /// Checks that collection `from` can be renamed `to`.
    pub fn check_rename(&self, from: &str, to: &str) -> (r: Result<(), VectorDbError>)
        ensures
            match spec_rename_check(self@, from@, to@) {
                Ok(_) => r is Ok,
                Err(e) => r matches Err(x) && x@ == e,
            },
    {
        validate_collection_name(to)?;
        if self.find(from).is_none() {
            return Err(VectorDbError::CollectionNotFound(String::from_str(from)));
        }
        if self.find(to).is_some() {
            return Err(VectorDbError::CollectionAlreadyExists(String::from_str(to)));
        }
        Ok(())
    }

    /// Renames collection `from` to `to`.
    pub fn rename_collection(&mut self, from: &str, to: String) -> (r: Result<(), VectorDbError>)
        ensures
            match spec_rename_check(old(self)@, from@, to@) {
                Ok(_) => r is Ok && final(self)@ == old(self)@.remove(from@).insert(
                    to@,
                    old(self)@[from@],
                ),
                Err(e) => r matches Err(x) && x@ == e && final(self)@ == old(self)@,
            },
    {
        self.check_rename(from, to.as_str())?;
        proof {
            use_type_invariant(&*self);
        }
        let i = match self.find(from) {
            Some(i) => i,
            None => {
                return Err(VectorDbError::CollectionNotFound(String::from_str(from)));
            },
        };
        let ghost s = collection_views(self.collections@);
        proof {
            lemma_catalog_at(s, i as int);
        }
        let mut cols: Vec<Collection> = Vec::new();
        std::mem::swap(&mut cols, &mut self.collections);
        let mut c = cols.remove(i);
        c.set_name(to);
        let ghost renamed = c@;
        cols.insert(i, c);
        proof {
            assert(collection_views(cols@) =~= s.update(i as int, renamed));
            assert forall|j: int| 0 <= j < s.len() && j != i implies #[trigger] s[j].name != renamed.name by {
                if s[j].name == renamed.name {
                    lemma_catalog_at(s, j);
                }
            }
            lemma_catalog_replace(s, i as int, renamed);
            assert forall|j: int| 0 <= j < cols@.len() implies is_valid_collection_name(
                #[trigger] collection_views(cols@)[j].name,
            ) by {
                if j != i {
                    assert(collection_views(cols@)[j] == s[j]);
                }
            }
        }
        self.collections = cols;
        Ok(())
    }

    /// Removes collection `name`.
    pub fn delete_collection(&mut self, name: &str) -> (r: Result<(), VectorDbError>)
        ensures
            old(self)@.contains_key(name@) ==> r is Ok && final(self)@ == old(self)@.remove(name@),
            !old(self)@.contains_key(name@) ==> (r matches Err(e) && e@ == ErrorView::CollectionNotFound(
                name@,
            ) && final(self)@ == old(self)@),
    {
        match self.find(name) {
            Some(i) => {
                self.remove_at(i);
                Ok(())
            },
            None => Err(VectorDbError::CollectionNotFound(String::from_str(name))),
        }
    }

    /// The `k` entries of `collection` nearest to `query`, given the
    /// distance `scores[i]` of each of its entries `i`.
    pub fn search<'a>(&'a self, collection: &str, query: &[u32], k: usize, scores: &[u32]) -> (r: Result<
        Vec<SearchResult<'a>>,
        VectorDbError,
    >)
        requires
            self@.contains_key(collection@) ==> scores@.len() == self@[collection@].entries.len(),
            self@.contains_key(collection@) && spec_search_check(self@[collection@], query@, k) is Ok
                && scores@.len() >= 2 ==> !has_nan(scores@),
        ensures
            !self@.contains_key(collection@) ==> (r matches Err(e) && e@ == ErrorView::CollectionNotFound(
                collection@,
            )),
            self@.contains_key(collection@) ==> search_outcome(self@[collection@], query@, k, scores@, r),
    {
        match self.collection(collection) {
            Some(c) => c.search(query, k, scores),
            None => Err(VectorDbError::CollectionNotFound(String::from_str(collection))),
        }
    }

    /// After the file of collection `name` could not be written (error
    /// `persist_error`): `stored` is what its file holds now, or why it
    /// cannot be read. The collection becomes what the file holds, or is
    /// dropped when the file cannot be loaded; returns the error to report.
    pub fn recover(
        &mut self,
        name: &str,
        stored: Result<Vec<u8>, VectorDbError>,
        persist_error: VectorDbError,
    ) -> (err: VectorDbError)
        ensures
            match stored {
                Err(e) => err == e && final(self)@ == old(self)@.remove(name@),
                Ok(bytes) => match spec_load(name@, bytes@) {
                    Ok(index) => err == persist_error && final(self)@ == (if old(self)@.contains_key(
                        name@,
                    ) {
                        old(self)@.insert(name@, index)
                    } else {
                        old(self)@
                    }),
                    Err(f) => error_matches(err, f) && final(self)@ == old(self)@.remove(name@),
                },
            },
    {
        let reloaded = match stored {
            Ok(bytes) => load_collection(name, bytes.as_slice()),
            Err(e) => Err(e),
        };
        match reloaded {
            Ok(c) => {
                if let Some(i) = self.find(name) {
                    self.replace_at(i, c);
                }
                persist_error
            },
            Err(e) => {
                match self.find(name) {
                    Some(i) => self.remove_at(i),
                    None => {
                        assert(old(self)@.remove(name@) =~= old(self)@);
                    },
                }
                e
            },
        }
    }
}

} // verus!
