use vstd::prelude::*;

use crate::distance::DistanceMetric;
use crate::embedding::{contains_nan, has_nan, order_key, Embedding, EmbeddingView, VectorId};
use crate::errors::{ErrorView, VectorDbError};
use crate::metadata::{keys_sorted, Metadata};
use crate::ranking::{rank, ranking};

verus! {

/// The model of a flat index: its fixed dimension, its metric and its
/// entries in the order in which they were stored.
pub struct IndexView {
    pub dimension: usize,
    pub metric: DistanceMetric,
    pub entries: Seq<EmbeddingView>,
}

/// The models of a sequence of embeddings.
pub open spec fn entries_view(s: Seq<Embedding>) -> Seq<EmbeddingView> {
    s.map_values(|e: Embedding| e@)
}

/// An entry fits an index of this dimension: right length, no NaN, and
/// metadata keys in increasing order.
pub open spec fn entry_fits(dimension: usize, e: EmbeddingView) -> bool {
    &&& e.vector.len() == dimension
    &&& !has_nan(e.vector)
    &&& keys_sorted(e.metadata)
}

/// No identifier occurs twice.
pub open spec fn ids_unique(s: Seq<EmbeddingView>) -> bool {
    forall|i: int, j: int|
        0 <= i < s.len() && 0 <= j < s.len() && i != j ==> #[trigger] s[i].id != #[trigger] s[j].id
}

/// What every index keeps: a positive dimension, entries that fit it, and
/// distinct identifiers.
pub open spec fn index_wf(v: IndexView) -> bool {
    &&& v.dimension > 0
    &&& forall|i: int| 0 <= i < v.entries.len() ==> entry_fits(v.dimension, #[trigger] v.entries[i])
    &&& ids_unique(v.entries)
}

/// Why a vector is refused by an index of this dimension, if it is.
pub open spec fn check_vector(dimension: usize, vector: Seq<u32>) -> Result<(), ErrorView> {
    if vector.len() != dimension {
        Err(ErrorView::DimensionMismatch { expected: dimension, found: vector.len() as usize })
    } else if has_nan(vector) {
        Err(ErrorView::VectorContainsNaN)
    } else {
        Ok(())
    }
}

/// Some entry has identifier `id`.
pub open spec fn has_id(s: Seq<EmbeddingView>, id: VectorId) -> bool {
    exists|i: int| 0 <= i < s.len() && #[trigger] s[i].id == id
}

/// The position of the entry with identifier `id`.
pub open spec fn index_of(s: Seq<EmbeddingView>, id: VectorId) -> int {
    choose|i: int| 0 <= i < s.len() && #[trigger] s[i].id == id
}

/// The entry with identifier `id`, if any.
pub open spec fn lookup(s: Seq<EmbeddingView>, id: VectorId) -> Option<EmbeddingView> {
    if has_id(s, id) {
        Some(s[index_of(s, id)])
    } else {
        None
    }
}

/// Adding an embedding: refused for a bad vector or a taken identifier,
/// otherwise appended.
pub open spec fn spec_add(v: IndexView, e: EmbeddingView) -> Result<IndexView, ErrorView> {
    match check_vector(v.dimension, e.vector) {
        Err(err) => Err(err),
        Ok(_) => if has_id(v.entries, e.id) {
            Err(ErrorView::VectorAlreadyExists(e.id))
        } else {
            Ok(IndexView { entries: v.entries.push(e), ..v })
        },
    }
}

/// Replacing the embedding that has the same identifier.
pub open spec fn spec_update_embedding(v: IndexView, e: EmbeddingView) -> Result<IndexView, ErrorView> {
    match check_vector(v.dimension, e.vector) {
        Err(err) => Err(err),
        Ok(_) => if has_id(v.entries, e.id) {
            Ok(IndexView { entries: v.entries.update(index_of(v.entries, e.id), e), ..v })
        } else {
            Err(ErrorView::VectorNotFound(e.id))
        },
    }
}

/// Replacing the vector of the embedding with identifier `id`, keeping its
/// metadata.
pub open spec fn spec_update_vector(v: IndexView, id: VectorId, vector: Seq<u32>) -> Result<
    IndexView,
    ErrorView,
> {
    match check_vector(v.dimension, vector) {
        Err(err) => Err(err),
        Ok(_) => if has_id(v.entries, id) {
            let i = index_of(v.entries, id);
            Ok(
                IndexView {
                    entries: v.entries.update(i, EmbeddingView { vector, ..v.entries[i] }),
                    ..v
                },
            )
        } else {
            Err(ErrorView::VectorNotFound(id))
        },
    }
}

/// Removing the embedding with identifier `id`.
pub open spec fn spec_remove(v: IndexView, id: VectorId) -> Result<IndexView, ErrorView> {
    if has_id(v.entries, id) {
        Ok(IndexView { entries: v.entries.remove(index_of(v.entries, id)), ..v })
    } else {
        Err(ErrorView::VectorNotFound(id))
    }
}

/// Why a search for `k` results with `query` is refused, if it is.
pub open spec fn spec_search_check(v: IndexView, query: Seq<u32>, k: usize) -> Result<(), ErrorView> {
    if v.entries.len() == 0 {
        Err(ErrorView::EmptyIndex)
    } else if k == 0 {
        Err(ErrorView::ZeroResultsRequested)
    } else if k > v.entries.len() {
        Err(ErrorView::InvalidSearchK { requested: k, available: v.entries.len() as usize })
    } else {
        check_vector(v.dimension, query)
    }
}

/// An operation returned `r` and took the model from `before` to `after`
/// as `expected` says: on success to the new model, on failure with the
/// expected error and nothing changed.
pub open spec fn applied<T>(
    r: Result<(), VectorDbError>,
    before: T,
    after: T,
    expected: Result<T, ErrorView>,
) -> bool {
    match expected {
        Ok(next) => r is Ok && after == next,
        Err(e) => r matches Err(x) && x@ == e && after == before,
    }
}

/// What a search returns: the refusal that `spec_search_check` gives, or
/// the `k` entries that `ranking` selects, nearest first, each with its
/// distance; no entry left out is nearer than one returned.
pub open spec fn search_outcome<'a>(
    v: IndexView,
    query: Seq<u32>,
    k: usize,
    scores: Seq<u32>,
    r: Result<Vec<SearchResult<'a>>, VectorDbError>,
) -> bool {
    match spec_search_check(v, query, k) {
        Err(e) => r matches Err(x) && x@ == e,
        Ok(_) => r matches Ok(results) && results@.len() == k && (forall|j: int|
            #![trigger results@[j]]
            0 <= j < k ==> {
                let p = ranking(scores, k as nat)[j];
                &&& 0 <= p < v.entries.len()
                &&& results@[j].id == v.entries[p].id
                &&& results@[j].distance == scores[p]
                &&& results@[j].embedding@ == v.entries[p]
            }) && (forall|a: int, b: int|
            0 <= a < b < k ==> order_key(#[trigger] results@[a].distance) <= order_key(
                #[trigger] results@[b].distance,
            )) && (forall|i: int, j: int|
            0 <= i < v.entries.len() && 0 <= j < k && !ranking(scores, k as nat).contains(i)
                ==> order_key(#[trigger] results@[j].distance) <= order_key(#[trigger] scores[i])),
    }
}

/// Reading an identifier back after a write: an added or replaced
/// embedding is found under its identifier, a removed one is not, and every
/// other identifier reads as before.
pub proof fn lemma_read_after_write(v: IndexView, e: EmbeddingView, id: VectorId, vector: Seq<u32>, other: VectorId)
    requires
        index_wf(v),
    ensures
        spec_add(v, e) matches Ok(n) ==> lookup(n.entries, e.id) == Some(e) && (other != e.id
            ==> lookup(n.entries, other) == lookup(v.entries, other)),
        spec_update_embedding(v, e) matches Ok(n) ==> lookup(n.entries, e.id) == Some(e) && (other
            != e.id ==> lookup(n.entries, other) == lookup(v.entries, other)),
        spec_update_vector(v, id, vector) matches Ok(n) ==> lookup(n.entries, id) == Some(
            EmbeddingView { vector, ..lookup(v.entries, id).unwrap() },
        ) && (other != id ==> lookup(n.entries, other) == lookup(v.entries, other)),
        spec_remove(v, id) matches Ok(n) ==> lookup(n.entries, id) is None && (other != id
            ==> lookup(n.entries, other) == lookup(v.entries, other)),
{
    lemma_operations_keep_well_formed(v, e, id, vector);
    let s = v.entries;
    if let Ok(n) = spec_add(v, e) {
        let t = n.entries;
        lemma_index_of(t, e.id, s.len() as int);
        if has_id(s, other) {
            let i = index_of(s, other);
            assert(t[i] == s[i]);
            lemma_index_of(t, other, i);
        } else if other != e.id && has_id(t, other) {
            let w = choose|w: int| 0 <= w < t.len() && #[trigger] t[w].id == other;
            assert(s[w].id == other);
        }
    }
    if let Ok(n) = spec_update_embedding(v, e) {
        let t = n.entries;
        let p = index_of(s, e.id);
        lemma_index_of(t, e.id, p);
        if has_id(s, other) && other != e.id {
            let i = index_of(s, other);
            assert(t[i] == s[i]);
            lemma_index_of(t, other, i);
        } else if other != e.id && has_id(t, other) {
            let w = choose|w: int| 0 <= w < t.len() && #[trigger] t[w].id == other;
            assert(s[w].id == other);
        }
    }
    if let Ok(n) = spec_update_vector(v, id, vector) {
        let t = n.entries;
        let p = index_of(s, id);
        lemma_index_of(t, id, p);
        if has_id(s, other) && other != id {
            let i = index_of(s, other);
            assert(t[i] == s[i]);
            lemma_index_of(t, other, i);
        } else if other != id && has_id(t, other) {
            let w = choose|w: int| 0 <= w < t.len() && #[trigger] t[w].id == other;
            assert(s[w].id == other);
        }
    }
    if let Ok(n) = spec_remove(v, id) {
        let t = n.entries;
        let p = index_of(s, id);
        if has_id(t, id) {
            let w = choose|w: int| 0 <= w < t.len() && #[trigger] t[w].id == id;
            let w2 = if w < p { w } else { w + 1 };
            assert(s[w2].id == id);
            assert(s[p].id == id);
        }
        if has_id(s, other) && other != id {
            let i = index_of(s, other);
            let i2 = if i < p { i } else { i - 1 };
            assert(t[i2] == s[i]);
            lemma_index_of(t, other, i2);
        } else if other != id && has_id(t, other) {
            let w = choose|w: int| 0 <= w < t.len() && #[trigger] t[w].id == other;
            let w2 = if w < p { w } else { w + 1 };
            assert(s[w2].id == other);
        }
    }
}

/// Every operation that succeeds keeps an index well formed.
pub proof fn lemma_operations_keep_well_formed(v: IndexView, e: EmbeddingView, id: VectorId, vector: Seq<u32>)
    requires
        index_wf(v),
    ensures
        keys_sorted(e.metadata) ==> (spec_add(v, e) matches Ok(n) ==> index_wf(n)),
        keys_sorted(e.metadata) ==> (spec_update_embedding(v, e) matches Ok(n) ==> index_wf(n)),
        spec_update_vector(v, id, vector) matches Ok(n) ==> index_wf(n),
        spec_remove(v, id) matches Ok(n) ==> index_wf(n),
{
    let s = v.entries;
    if keys_sorted(e.metadata) && spec_add(v, e) is Ok {
        let n = spec_add(v, e)->Ok_0;
        let t = n.entries;
        assert forall|i: int, j: int| 0 <= i < t.len() && 0 <= j < t.len() && i != j implies #[trigger] t[i].id
            != #[trigger] t[j].id by {
            if i < s.len() && j < s.len() {
                assert(t[i] == s[i] && t[j] == s[j]);
            } else if i < s.len() {
                assert(t[i] == s[i]);
            } else {
                assert(t[j] == s[j]);
            }
        }
        assert forall|i: int| 0 <= i < t.len() implies entry_fits(v.dimension, #[trigger] t[i]) by {
            if i < s.len() {
                assert(t[i] == s[i]);
            }
        }
    }
    if keys_sorted(e.metadata) && spec_update_embedding(v, e) is Ok {
        let n = spec_update_embedding(v, e)->Ok_0;
        let t = n.entries;
        let p = index_of(s, e.id);
        assert forall|i: int, j: int| 0 <= i < t.len() && 0 <= j < t.len() && i != j implies #[trigger] t[i].id
            != #[trigger] t[j].id by {
            assert(t[i].id == s[i].id && t[j].id == s[j].id);
        }
        assert forall|i: int| 0 <= i < t.len() implies entry_fits(v.dimension, #[trigger] t[i]) by {
            if i != p {
                assert(t[i] == s[i]);
            }
        }
    }
    if let Ok(n) = spec_update_vector(v, id, vector) {
        let t = n.entries;
        let p = index_of(s, id);
        assert forall|i: int, j: int| 0 <= i < t.len() && 0 <= j < t.len() && i != j implies #[trigger] t[i].id
            != #[trigger] t[j].id by {
            assert(t[i].id == s[i].id && t[j].id == s[j].id);
        }
        assert forall|i: int| 0 <= i < t.len() implies entry_fits(v.dimension, #[trigger] t[i]) by {
            if i != p {
                assert(t[i] == s[i]);
            } else {
                assert(entry_fits(v.dimension, s[p]));
            }
        }
    }
    if let Ok(n) = spec_remove(v, id) {
        let t = n.entries;
        let p = index_of(s, id);
        assert forall|i: int, j: int| 0 <= i < t.len() && 0 <= j < t.len() && i != j implies #[trigger] t[i].id
            != #[trigger] t[j].id by {
            let i2 = if i < p { i } else { i + 1 };
            let j2 = if j < p { j } else { j + 1 };
            assert(t[i] == s[i2] && t[j] == s[j2]);
        }
        assert forall|i: int| 0 <= i < t.len() implies entry_fits(v.dimension, #[trigger] t[i]) by {
            let i2 = if i < p { i } else { i + 1 };
            assert(t[i] == s[i2]);
        }
    }
}

/// One search hit: the identifier of the entry, its distance (as the bit
/// pattern it was given) and the entry itself.
#[derive(Debug)]
pub struct SearchResult<'a> {
    pub id: VectorId,
    pub distance: u32,
    pub embedding: &'a Embedding,
}

/// Brute-force index over embeddings of a fixed dimension.
#[derive(Debug)]
pub struct FlatIndex {
    dimension: usize,
    metric: DistanceMetric,
    entries: Vec<Embedding>,
}

impl View for FlatIndex {
    type V = IndexView;

    closed spec fn view(&self) -> IndexView {
        IndexView { dimension: self.dimension, metric: self.metric, entries: entries_view(self.entries@) }
    }
}

proof fn lemma_index_of(s: Seq<EmbeddingView>, id: VectorId, i: int)
    requires
        ids_unique(s),
        0 <= i < s.len(),
        s[i].id == id,
    ensures
        has_id(s, id),
        index_of(s, id) == i,
{
    assert(s[i].id == id);
    let c = index_of(s, id);
    if c != i {
        assert(s[c].id != s[i].id);
    }
}

impl Clone for FlatIndex {
    /// A copy with the same dimension, metric and entries.
    fn clone(&self) -> (c: Self)
        ensures
            c@ == self@,
    {
        proof {
            use_type_invariant(self);
        }
        let mut entries: Vec<Embedding> = Vec::new();
        let mut i: usize = 0;
        while i < self.entries.len()
            invariant
                i <= self.entries@.len(),
                entries@.len() == i,
                entries_view(entries@) == entries_view(self.entries@).take(i as int),
            decreases self.entries@.len() - i,
        {
            entries.push(self.entries[i].clone());
            assert(entries_view(entries@) =~= entries_view(self.entries@).take(i + 1));
            i = i + 1;
        }
        assert(entries_view(self.entries@).take(i as int) =~= entries_view(self.entries@));
        FlatIndex { dimension: self.dimension, metric: self.metric, entries }
    }
}

impl FlatIndex {
    /// Every index is well formed.
    #[verifier::type_invariant]
    pub open spec fn well_formed(self) -> bool {
        index_wf(self@)
    }

    /// An empty index; refused for dimension zero.
    pub fn new(dimension: usize, metric: DistanceMetric) -> (r: Result<Self, VectorDbError>)
        ensures
            match r {
                Ok(index) => dimension > 0 && index@ == IndexView {
                    dimension,
                    metric,
                    entries: Seq::empty(),
                },
                Err(e) => dimension == 0 && e@ == ErrorView::InvalidDimension,
            },
    {
        if dimension == 0 {
            return Err(VectorDbError::InvalidDimension);
        }
        let index = FlatIndex { dimension, metric, entries: Vec::new() };
        assert(index@.entries =~= Seq::<EmbeddingView>::empty());
        Ok(index)
    }

    /// Accepts a vector of the index's dimension with no NaN component.
    pub fn validate_vector(&self, vector: &[u32]) -> (r: Result<(), VectorDbError>)
        ensures
            match check_vector(self@.dimension, vector@) {
                Ok(_) => r is Ok,
                Err(e) => r matches Err(x) && x@ == e,
            },
    {
        if vector.len() != self.dimension {
            return Err(
                VectorDbError::DimensionMismatch { expected: self.dimension, found: vector.len() },
            );
        }
        if contains_nan(vector) {
            return Err(VectorDbError::VectorContainsNaN);
        }
        Ok(())
    }

    /// The position of the entry with identifier `id`, if any.
    fn position(&self, id: VectorId) -> (r: Option<usize>)
        ensures
            match r {
                Some(i) => i < self@.entries.len() && has_id(self@.entries, id) && index_of(
                    self@.entries,
                    id,
                ) == i,
                None => !has_id(self@.entries, id),
            },
    {
        proof {
            use_type_invariant(self);
        }
        let mut i: usize = 0;
        while i < self.entries.len()
            invariant
                i <= self.entries@.len(),
                index_wf(self@),
                forall|j: int| 0 <= j < i ==> self@.entries[j].id != id,
            decreases self.entries@.len() - i,
        {
            if self.entries[i].id == id {
                proof {
                    lemma_index_of(self@.entries, id, i as int);
                }
                return Some(i);
            }
            i = i + 1;
        }
        None
    }

    /// Adds an embedding built from its parts.
    pub fn add(&mut self, id: VectorId, vector: Vec<u32>, metadata: Metadata) -> (r: Result<
        (),
        VectorDbError,
    >)
        ensures
            applied(
                r,
                old(self)@,
                final(self)@,
                spec_add(old(self)@, EmbeddingView { id, vector: vector@, metadata: metadata@ }),
            ),
    {
        let embedding = Embedding::new(id, vector, metadata);
        self.add_embedding(embedding)
    }

    /// Adds an embedding under a new identifier.
    pub fn add_embedding(&mut self, embedding: Embedding) -> (r: Result<(), VectorDbError>)
        ensures
            applied(r, old(self)@, final(self)@, spec_add(old(self)@, embedding@)),
    {
        proof {
            use_type_invariant(&*self);
            use_type_invariant(&embedding.metadata);
        }
        self.validate_vector(embedding.vector.as_slice())?;
        if let Some(_) = self.position(embedding.id) {
            return Err(VectorDbError::VectorAlreadyExists(embedding.id));
        }
        let ghost before = self@;
        let ghost e = embedding@;
        let mut entries: Vec<Embedding> = Vec::new();
        std::mem::swap(&mut entries, &mut self.entries);
        entries.push(embedding);
        proof {
            let s = entries_view(entries@);
            assert(s =~= before.entries.push(e));
            assert forall|i: int, j: int|
                0 <= i < s.len() && 0 <= j < s.len() && i != j implies #[trigger] s[i].id
                != #[trigger] s[j].id by {
                if i == s.len() - 1 {
                    assert(before.entries[j].id == s[j].id);
                } else if j == s.len() - 1 {
                    assert(before.entries[i].id == s[i].id);
                } else {
                    assert(before.entries[i].id == s[i].id);
                    assert(before.entries[j].id == s[j].id);
                }
            }
        }
        self.entries = entries;
        Ok(())
    }

    /// Replaces the embedding with the same identifier.
    pub fn update_embedding(&mut self, embedding: Embedding) -> (r: Result<(), VectorDbError>)
        ensures
            applied(r, old(self)@, final(self)@, spec_update_embedding(old(self)@, embedding@)),
    {
        proof {
            use_type_invariant(&*self);
            use_type_invariant(&embedding.metadata);
        }
        self.validate_vector(embedding.vector.as_slice())?;
        match self.position(embedding.id) {
            Some(i) => {
                let ghost before = self@;
                let ghost e = embedding@;
                let mut entries: Vec<Embedding> = Vec::new();
                std::mem::swap(&mut entries, &mut self.entries);
                entries.set(i, embedding);
                proof {
                    let s = entries_view(entries@);
                    assert(s =~= before.entries.update(i as int, e));
                    assert forall|a: int, b: int|
                        0 <= a < s.len() && 0 <= b < s.len() && a != b implies #[trigger] s[a].id
                        != #[trigger] s[b].id by {
                        assert(s[a].id == before.entries[a].id);
                        assert(s[b].id == before.entries[b].id);
                    }
                }
                self.entries = entries;
                Ok(())
            },
            None => Err(VectorDbError::VectorNotFound(embedding.id)),
        }
    }

    /// Replaces the vector of the embedding with identifier `id`.
    pub fn update_vector(&mut self, id: VectorId, vector: Vec<u32>) -> (r: Result<(), VectorDbError>)
        ensures
            applied(r, old(self)@, final(self)@, spec_update_vector(old(self)@, id, vector@)),
    {
        proof {
            use_type_invariant(&*self);
        }
        self.validate_vector(vector.as_slice())?;
        match self.position(id) {
            Some(i) => {
                let ghost before = self@;
                let ghost v = vector@;
                let mut entries: Vec<Embedding> = Vec::new();
                std::mem::swap(&mut entries, &mut self.entries);
                let old_entry = entries.remove(i);
                let Embedding { id: old_id, vector: _, metadata } = old_entry;
                entries.insert(i, Embedding { id: old_id, vector, metadata });
                proof {
                    let s = entries_view(entries@);
                    let i = i as int;
                    assert(s =~= before.entries.update(i, EmbeddingView { vector: v, ..before.entries[i] }));
                    assert forall|a: int, b: int|
                        0 <= a < s.len() && 0 <= b < s.len() && a != b implies #[trigger] s[a].id
                        != #[trigger] s[b].id by {
                        assert(s[a].id == before.entries[a].id);
                        assert(s[b].id == before.entries[b].id);
                    }
                    assert forall|a: int| 0 <= a < s.len() implies entry_fits(
                        before.dimension,
                        #[trigger] s[a],
                    ) by {
                        if a != i {
                            assert(s[a] == before.entries[a]);
                        }
                    }
                }
                self.entries = entries;
                Ok(())
            },
            None => Err(VectorDbError::VectorNotFound(id)),
        }
    }

    /// Removes the embedding with identifier `id`.
    pub fn remove(&mut self, id: VectorId) -> (r: Result<(), VectorDbError>)
        ensures
            applied(r, old(self)@, final(self)@, spec_remove(old(self)@, id)),
    {
        proof {
            use_type_invariant(&*self);
        }
        match self.position(id) {
            Some(i) => {
                let ghost before = self@;
                let mut entries: Vec<Embedding> = Vec::new();
                std::mem::swap(&mut entries, &mut self.entries);
                let _removed = entries.remove(i);
                proof {
                    let s = entries_view(entries@);
                    assert(s =~= before.entries.remove(i as int));
                    assert forall|a: int, b: int|
                        0 <= a < s.len() && 0 <= b < s.len() && a != b implies #[trigger] s[a].id
                        != #[trigger] s[b].id by {
                        let a2 = if a < i { a } else { a + 1 };
                        let b2 = if b < i { b } else { b + 1 };
                        assert(s[a] == before.entries[a2]);
                        assert(s[b] == before.entries[b2]);
                    }
                    assert forall|a: int| 0 <= a < s.len() implies entry_fits(
                        before.dimension,
                        #[trigger] s[a],
                    ) by {
                        let a2 = if a < i { a } else { a + 1 };
                        assert(s[a] == before.entries[a2]);
                    }
                }
                self.entries = entries;
                Ok(())
            },
            None => Err(VectorDbError::VectorNotFound(id)),
        }
    }

    /// Checks a search request: a non-empty index, `0 < k <= len`, and a
    /// valid query.
    pub fn validate_search(&self, query: &[u32], k: usize) -> (r: Result<(), VectorDbError>)
        ensures
            match spec_search_check(self@, query@, k) {
                Ok(_) => r is Ok,
                Err(e) => r matches Err(x) && x@ == e,
            },
    {
        if self.entries.len() == 0 {
            return Err(VectorDbError::EmptyIndex);
        }
        if k == 0 {
            return Err(VectorDbError::ZeroResultsRequested);
        }
        if k > self.entries.len() {
            return Err(VectorDbError::InvalidSearchK { requested: k, available: self.entries.len() });
        }
        self.validate_vector(query)
    }

    /// The `k` entries nearest to `query`, nearest first, where `scores[i]`
    /// is the distance of entry `i` under the index's metric. Entries at
    /// equal distance keep the order in which they were stored.
    pub fn search<'a>(&'a self, query: &[u32], k: usize, scores: &[u32]) -> (r: Result<
        Vec<SearchResult<'a>>,
        VectorDbError,
    >)
        requires
            scores@.len() == self@.entries.len(),
            spec_search_check(self@, query@, k) is Ok && scores@.len() >= 2 ==> !has_nan(scores@),
        ensures
            search_outcome(self@, query@, k, scores@, r),
    {
        self.validate_search(query, k)?;
        let order = rank(scores, k);
        let mut results: Vec<SearchResult<'a>> = Vec::new();
        let mut j: usize = 0;
        while j < k
            invariant
                j <= k,
                k == order@.len(),
                scores@.len() == self@.entries.len() == self.entries@.len(),
                forall|t: int| 0 <= t < k ==> #[trigger] order@[t] < scores@.len(),
                results@.len() == j,
                forall|t: int|
                    #![trigger results@[t]]
                    0 <= t < j ==> {
                        let p = order@[t] as int;
                        &&& results@[t].id == self@.entries[p].id
                        &&& results@[t].distance == scores@[p]
                        &&& results@[t].embedding@ == self@.entries[p]
                    },
            decreases k - j,
        {
            let p = order[j];
            let entry = &self.entries[p];
            results.push(SearchResult { id: entry.id, distance: scores[p], embedding: entry });
            j = j + 1;
        }
        proof {
            let rk = ranking(scores@, k as nat);
            assert forall|t: int| 0 <= t < k implies rk[t] == order@[t] as int by {
                assert(order@[t] as int == rk[t]);
            }
            assert forall|a: int, b: int| 0 <= a < b < k implies order_key(
                #[trigger] results@[a].distance,
            ) <= order_key(#[trigger] results@[b].distance) by {
                assert(order_key(scores@[order@[a] as int]) <= order_key(scores@[order@[b] as int]));
            }
            assert forall|i: int, t: int|
                0 <= i < self@.entries.len() && 0 <= t < k && !rk.contains(i) implies order_key(
                #[trigger] results@[t].distance,
            ) <= order_key(#[trigger] scores@[i]) by {
                assert(order_key(scores@[order@[t] as int]) <= order_key(scores@[i]));
            }
        }
        Ok(results)
    }

    /// The embedding with identifier `id`, if any.
    pub fn get(&self, id: VectorId) -> (r: Option<&Embedding>)
        ensures
            match r {
                Some(e) => lookup(self@.entries, id) == Some(e@),
                None => lookup(self@.entries, id) is None,
            },
    {
        match self.position(id) {
            Some(i) => Some(&self.entries[i]),
            None => None,
        }
    }

    /// The dimension every vector of the index has.
    pub fn dimension(&self) -> (d: usize)
        ensures
            d == self@.dimension,
    {
        self.dimension
    }

    /// The metric the index ranks by.
    pub fn metric(&self) -> (m: DistanceMetric)
        ensures
            m == self@.metric,
    {
        self.metric
    }

    /// The stored embeddings, in the order in which they were stored.
    pub fn embeddings(&self) -> (s: &[Embedding])
        ensures
            entries_view(s@) == self@.entries,
            index_wf(self@),
    {
        proof {
            use_type_invariant(self);
        }
        self.entries.as_slice()
    }
}

/// When a search is accepted: the index holds embeddings, `0 < k <= len`,
/// and the query has exactly the index's dimension and no NaN. A query of
/// another length is refused with `DimensionMismatch`, naming the dimension
/// and the query's length.
pub proof fn lemma_search_request(v: IndexView, query: Seq<u32>, k: usize)
    ensures
        spec_search_check(v, query, k) is Ok <==> (v.entries.len() > 0 && 0 < k <= v.entries.len()
            && query.len() == v.dimension && !has_nan(query)),
        v.entries.len() > 0 && 0 < k <= v.entries.len() && query.len() != v.dimension
            ==> spec_search_check(v, query, k) == Err::<(), ErrorView>(
            ErrorView::DimensionMismatch { expected: v.dimension, found: query.len() as usize },
        ),
{
}

/// When an embedding is added: its vector has the index's dimension and no
/// NaN, and no stored entry has its identifier; it then comes last and
/// nothing else changes. A vector of another length is refused with
/// `DimensionMismatch`.
pub proof fn lemma_add_accepts(v: IndexView, e: EmbeddingView)
    ensures
        spec_add(v, e) is Ok <==> (e.vector.len() == v.dimension && !has_nan(e.vector) && forall|i: int|
            0 <= i < v.entries.len() ==> #[trigger] v.entries[i].id != e.id),
        spec_add(v, e) is Ok ==> spec_add(v, e)->Ok_0 == (IndexView { entries: v.entries.push(e), ..v }),
        e.vector.len() != v.dimension ==> spec_add(v, e) == Err::<IndexView, ErrorView>(
            ErrorView::DimensionMismatch { expected: v.dimension, found: e.vector.len() as usize },
        ),
{
}

} // verus!
