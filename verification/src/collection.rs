use vstd::prelude::*;

use crate::distance::DistanceMetric;
use crate::embedding::{Embedding, EmbeddingView, VectorId};
use crate::errors::{ErrorView, VectorDbError};
use crate::index::{
    applied, entries_view, index_wf, lookup, spec_add, spec_remove, spec_search_check,
    spec_update_embedding, spec_update_vector, search_outcome, FlatIndex, IndexView, SearchResult,
};
use crate::embedding::has_nan;
use crate::metadata::Metadata;

verus! {

/// The model of a collection: its name and its index.
pub struct CollectionView {
    pub name: Seq<char>,
    pub index: IndexView,
}

/// A named set of embeddings of one dimension.
#[derive(Debug)]
pub struct Collection {
    name: String,
    index: FlatIndex,
}

impl View for Collection {
    type V = CollectionView;

    closed spec fn view(&self) -> CollectionView {
        CollectionView { name: self.name@, index: self.index@ }
    }
}

/// The model after an index operation on a collection.
pub open spec fn with_index(c: CollectionView, r: Result<IndexView, ErrorView>) -> Result<
    CollectionView,
    ErrorView,
> {
    match r {
        Ok(index) => Ok(CollectionView { index, ..c }),
        Err(e) => Err(e),
    }
}

impl Clone for Collection {
    /// A copy with the same name and index.
    fn clone(&self) -> (c: Self)
        ensures
            c@ == self@,
    {
        Collection { name: self.name.clone(), index: self.index.clone() }
    }
}

impl Collection {
    /// An empty collection ranked by Euclidean distance; refused for
    /// dimension zero.
    pub fn new(name: String, dimension: usize) -> (r: Result<Self, VectorDbError>)
        ensures
            match r {
                Ok(c) => dimension > 0 && c@ == CollectionView {
                    name: name@,
                    index: IndexView {
                        dimension,
                        metric: DistanceMetric::Euclidean,
                        entries: Seq::empty(),
                    },
                },
                Err(e) => dimension == 0 && e@ == ErrorView::InvalidDimension,
            },
    {
        Self::with_metric(name, dimension, DistanceMetric::Euclidean)
    }

    /// An empty collection ranked by `metric`; refused for dimension zero.
    pub fn with_metric(name: String, dimension: usize, metric: DistanceMetric) -> (r: Result<
        Self,
        VectorDbError,
    >)
        ensures
            match r {
                Ok(c) => dimension > 0 && c@ == CollectionView {
                    name: name@,
                    index: IndexView { dimension, metric, entries: Seq::empty() },
                },
                Err(e) => dimension == 0 && e@ == ErrorView::InvalidDimension,
            },
    {
        let index = FlatIndex::new(dimension, metric)?;
        Ok(Collection { name, index })
    }

    /// The collection's name.
    pub fn name(&self) -> (n: &str)
        ensures
            n@ == self@.name,
    {
        self.name.as_str()
    }

    /// The dimension of every vector in the collection.
    pub fn dimension(&self) -> (d: usize)
        ensures
            d == self@.index.dimension,
    {
        self.index.dimension()
    }

    /// The metric the collection ranks by.
    pub fn metric(&self) -> (m: DistanceMetric)
        ensures
            m == self@.index.metric,
    {
        self.index.metric()
    }

    /// Adds a vector with empty metadata.
    pub fn insert(&mut self, id: VectorId, vector: Vec<u32>) -> (r: Result<(), VectorDbError>)
        ensures
            applied(
                r,
                old(self)@,
                final(self)@,
                with_index(
                    old(self)@,
                    spec_add(
                        old(self)@.index,
                        EmbeddingView { id, vector: vector@, metadata: Seq::empty() },
                    ),
                ),
            ),
    {
        self.index.add(id, vector, Metadata::new())
    }

    /// Adds an embedding under a new identifier.
    pub fn insert_embedding(&mut self, embedding: Embedding) -> (r: Result<(), VectorDbError>)
        ensures
            applied(
                r,
                old(self)@,
                final(self)@,
                with_index(old(self)@, spec_add(old(self)@.index, embedding@)),
            ),
    {
        self.index.add_embedding(embedding)
    }

    /// Replaces the embedding with the same identifier.
    pub fn update_embedding(&mut self, embedding: Embedding) -> (r: Result<(), VectorDbError>)
        ensures
            applied(
                r,
                old(self)@,
                final(self)@,
                with_index(old(self)@, spec_update_embedding(old(self)@.index, embedding@)),
            ),
    {
        self.index.update_embedding(embedding)
    }

    /// Replaces the vector of the embedding with identifier `id`.
    pub fn update_vector(&mut self, id: VectorId, vector: Vec<u32>) -> (r: Result<(), VectorDbError>)
        ensures
            applied(
                r,
                old(self)@,
                final(self)@,
                with_index(old(self)@, spec_update_vector(old(self)@.index, id, vector@)),
            ),
    {
        self.index.update_vector(id, vector)
    }

    /// Removes the embedding with identifier `id`.
    pub fn delete(&mut self, id: VectorId) -> (r: Result<(), VectorDbError>)
        ensures
            applied(r, old(self)@, final(self)@, with_index(old(self)@, spec_remove(old(self)@.index, id))),
    {
        self.index.remove(id)
    }

    /// Checks a search request without ranking.
    pub fn validate_search(&self, query: &[u32], k: usize) -> (r: Result<(), VectorDbError>)
        ensures
            match spec_search_check(self@.index, query@, k) {
                Ok(_) => r is Ok,
                Err(e) => r matches Err(x) && x@ == e,
            },
    {
        self.index.validate_search(query, k)
    }

    /// The `k` entries nearest to `query`, nearest first, given the distance
    /// `scores[i]` of each entry `i`.
    pub fn search<'a>(&'a self, query: &[u32], k: usize, scores: &[u32]) -> (r: Result<
        Vec<SearchResult<'a>>,
        VectorDbError,
    >)
        requires
            scores@.len() == self@.index.entries.len(),
            spec_search_check(self@.index, query@, k) is Ok && scores@.len() >= 2 ==> !has_nan(scores@),
        ensures
            search_outcome(self@.index, query@, k, scores@, r),
    {
        self.index.search(query, k, scores)
    }

    /// The embedding with identifier `id`, if any.
    pub fn embedding(&self, id: VectorId) -> (r: Option<&Embedding>)
        ensures
            match r {
                Some(e) => lookup(self@.index.entries, id) == Some(e@),
                None => lookup(self@.index.entries, id) is None,
            },
    {
        self.index.get(id)
    }

    /// The stored embeddings, in the order in which they were stored.
    pub fn embeddings(&self) -> (s: &[Embedding])
        ensures
            entries_view(s@) == self@.index.entries,
            index_wf(self@.index),
    {
        self.index.embeddings()
    }

    /// The number of stored embeddings.
    pub fn len(&self) -> (n: usize)
        ensures
            n == self@.index.entries.len(),
    {
        self.index.embeddings().len()
    }

    /// Gives the collection another name.
    pub fn set_name(&mut self, name: String)
        ensures
            final(self)@ == (CollectionView { name: name@, ..old(self)@ }),
    {
        self.name = name;
    }
}

} // verus!
