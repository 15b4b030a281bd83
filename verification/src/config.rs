//! Configuration of a memory client.

use vstd::prelude::*;
use vstd::string::StringExecFns;

verus! {

/// How to reach the language model. The library only asks whether one is
/// configured.
#[derive(Debug, Clone, PartialEq, Eq)]
pub struct LlmConfig {
    pub model: String,
}

/// The settings that a memory client is built from.
#[derive(Debug, Clone, PartialEq, Eq)]
pub struct MemoryConfig {
    /// Number of components of an embedding.
    pub embedding_dim: usize,
    /// Most results that a search returns.
    pub max_results: usize,
    /// Least score, in millionths, that a search result may have.
    pub similarity_threshold: i32,
    /// Name of the collection that the memories belong to.
    pub collection_name: String,
    /// The language model for inference; without one, memories are added
    /// as they are given.
    pub llm: Option<LlmConfig>,
}

impl Default for MemoryConfig {
    /// 128 components, at most 10 results, a threshold of 0.2, the
    /// collection `mem0`, and no language model.
    fn default() -> (config: MemoryConfig)
        ensures
            config.embedding_dim == 128,
            config.max_results == 10,
            config.similarity_threshold == 200_000,
            config.collection_name@ == "mem0"@,
            config.llm is None,
    {
        MemoryConfig {
            embedding_dim: 128,
            max_results: 10,
            similarity_threshold: 200_000,
            collection_name: String::from_str("mem0"),
            llm: None,
        }
    }
}

} // verus!
