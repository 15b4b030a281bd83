//! A memory client on the in-process index and the hashing embedder.

pub mod manager;
pub mod pipeline;
pub mod steps;

use vstd::prelude::*;
use vstd::pervasive::unreached;
use crate::config::MemoryConfig;
use crate::embedder::{Embedder, HashEmbedder};
use crate::errors::{ErrorView, MemoryError};
use crate::models::{
    is_clock_time, is_random_uuid_text, scored_views, MemoryRecord, RecordView, ScoredMemory,
};
use crate::ranking::is_ranked;
use crate::scoping::{admitted, select_scored, ScopeView};
use crate::store::{
    all_of_width, contains_id, embed_and_store, first_mismatch, lemma_filter_keeps_width,
    lemma_search_result_ranked, lemma_uniform_has_no_mismatch, search_result, search_store,
    spared, without_id, EntryView, InMemoryStore, Selection, VectorStore,
};

verus! {

/// Adds, searches and deletes memories held in the process itself, on the
/// hashing embedder and the in-process index.
pub struct MemoryClient {
    config: MemoryConfig,
    embedder: HashEmbedder,
    store: InMemoryStore,
}

/// The scope that asks for nothing.
pub open spec fn nowhere() -> ScopeView {
    ScopeView { user_id: None, agent_id: None, run_id: None }
}

impl MemoryClient {
    /// The stored entries, in insertion order.
    pub closed spec fn entries(&self) -> Seq<EntryView> {
        self.store.entries()
    }

    /// The settings that the client was built from.
    pub closed spec fn config(&self) -> MemoryConfig {
        self.config
    }

    /// The embedder.
    pub closed spec fn embedder(&self) -> HashEmbedder {
        self.embedder
    }

    /// Settings and embedder are those of `other`.
    pub open spec fn same_setup(&self, other: &Self) -> bool {
        self.config() == other.config() && self.embedder() == other.embedder()
    }

    /// The embedding of a text.
    pub open spec fn embedding_of(&self, text: Seq<char>) -> Seq<i32> {
        self.embedder().spec_embed(text)
    }

    /// The number of components of an embedding.
    pub open spec fn width(&self) -> nat {
        self.embedder().spec_dimensions()
    }

    /// Every stored embedding has the width of the client's embedder. A new
    /// client is uniform, and `add` and `delete` keep it so; a uniform
    /// client's `search` succeeds.
    pub open spec fn is_uniform(&self) -> bool {
        all_of_width(self.entries(), self.width())
    }

    /// A client with nothing stored, whose embeddings have as many
    /// components as the settings ask for, and one where they ask for none.
    pub fn new(config: MemoryConfig) -> (client: MemoryClient)
        ensures
            client.is_uniform(),
            client.config() == config,
            client.entries() == Seq::<EntryView>::empty(),
            client.width() == if config.embedding_dim == 0 {
                1
            } else {
                config.embedding_dim as nat
            },
    {
        let embedder = HashEmbedder::new(&config);
        MemoryClient { config, embedder, store: InMemoryStore::new() }
    }

    /// Stores the content as a new memory, without scoping, and returns its
    /// record.
    pub fn add(&mut self, content: &str, metadata: serde_json::Value) -> (record: MemoryRecord)
        ensures
            final(self).same_setup(old(self)),
            is_random_uuid_text(record@.id),
            is_clock_time(record@.created_at),
            record@ == (RecordView {
                id: record@.id,
                content: content@,
                metadata,
                created_at: record@.created_at,
                user_id: None,
                agent_id: None,
                run_id: None,
            }),
            final(self).entries() == old(self).entries().push(
                (EntryView { record: record@, embedding: old(self).embedding_of(content@) }),
            ),
            old(self).is_uniform() ==> final(self).is_uniform(),
    {
        proof {
            self.embedder().lemma_embedding_length(content@);
        }
        let record = MemoryRecord::new(content, metadata);
        match embed_and_store(&mut self.store, &self.embedder, record) {
            Ok(stored) => stored,
            Err(_) => unreached(),
        }
    }

    /// The memories most similar to the query: at most the configured
    /// number, best first, none below the configured threshold. Fails with
    /// `DimensionMismatch` exactly when a stored embedding has another
    /// length than the query's.
    pub fn search(&self, query: &str) -> (r: Result<Vec<ScoredMemory>, MemoryError>)
        ensures
            self.is_uniform() ==> r is Ok,
            r is Ok <==> first_mismatch(self.entries(), self.width(), None) is None,
            r is Ok ==> scored_views(r->Ok_0@) == search_result(
                self.entries(),
                self.embedding_of(query@),
                self.config().max_results as nat,
                None,
            ).filter(admitted(self.config().similarity_threshold as int, nowhere())),
            r is Ok ==> is_ranked(scored_views(r->Ok_0@)) && r->Ok_0@.len()
                <= self.config().max_results,
            r is Err ==> r->Err_0@ == (ErrorView::DimensionMismatch {
                expected: self.width(),
                actual: first_mismatch(self.entries(), self.width(), None)->Some_0,
            }),
    {
        proof {
            if self.is_uniform() {
                lemma_uniform_has_no_mismatch(self.entries(), self.width(), None);
            }
        }
        match search_store(&self.store, &self.embedder, query, self.config.max_results) {
            Ok(found) => {
                let none: Option<String> = None;
                let kept = select_scored(
                    &found,
                    self.config.similarity_threshold,
                    &none,
                    &none,
                    &none,
                    self.config.max_results,
                );
                proof {
                    scored_views(found@).lemma_filter_len(
                        admitted(self.config.similarity_threshold as int, nowhere()),
                    );
                    lemma_search_result_ranked(
                        self.entries(),
                        self.embedding_of(query@),
                        self.config.max_results as nat,
                        None,
                    );
                }
                Ok(kept)
            },
            Err(e) => Err(e),
        }
    }

    /// Deletes the memory with this id; fails with `NotFound`, and changes
    /// nothing, where there is none.
    pub fn delete(&mut self, id: &str) -> (r: Result<(), MemoryError>)
        ensures
            final(self).same_setup(old(self)),
            r is Ok <==> contains_id(old(self).entries(), id@),
            r is Ok ==> final(self).entries() == without_id(old(self).entries(), id@),
            r is Err ==> final(self).entries() == old(self).entries() && r->Err_0@
                == ErrorView::NotFound(id@),
            old(self).is_uniform() ==> final(self).is_uniform(),
    {
        proof {
            if self.is_uniform() {
                lemma_filter_keeps_width(
                    self.entries(),
                    spared(Selection::Id(id@)),
                    self.width(),
                );
            }
        }
        self.store.delete(id)
    }

    /// The number of stored memories.
    pub fn count(&self) -> (n: usize)
        ensures
            n == self.entries().len(),
    {
        self.store.count()
    }
}

impl Default for MemoryClient {
    /// A client with the default settings and nothing stored.
    fn default() -> (client: MemoryClient)
        ensures
            client.is_uniform(),
            client.entries() == Seq::<EntryView>::empty(),
            client.width() == 128,
            client.config().embedding_dim == 128,
            client.config().max_results == 10,
            client.config().similarity_threshold == 200_000,
            client.config().llm is None,
    {
        MemoryClient::new(MemoryConfig::default())
    }
}

} // verus!
