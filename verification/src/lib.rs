//! A memory layer for conversational agents.
//!
//! Text is turned into embeddings, stored in a vector index and retrieved by
//! cosine similarity; facts extracted from a conversation are reconciled
//! against the index by planned `ADD`, `UPDATE` and `DELETE` actions.
//!
//! All quantities are integers. An embedding is a vector of `i32`
//! components counted in billionths, a similarity score is an `i32`
//! counted in millionths. Every public function states what it returns over
//! the mathematical content of its arguments, and is proved to meet that.
//!
//! - [`text`], [`sketch`], [`embedder`]: tokens, feature hashing, embedders.
//! - [`similarity`], [`ranking`], [`store`]: cosine similarity, ranking, the
//!   vector index.
//! - [`models`], [`scoping`], [`messages`], [`events`], [`options`],
//!   [`config`], [`errors`]: the values that go in and out.
//! - [`memory`]: a client without scoping, and the memory manager with its
//!   reconciliation pipeline. The language model stays outside: `add`
//!   returns what it needs next, and `resume` goes on with the answer.

pub mod config;
pub mod embedder;
pub mod errors;
pub mod events;
pub mod memory;
pub mod messages;
pub mod models;
pub mod options;
pub mod ranking;
pub mod scoping;
pub mod similarity;
pub mod sketch;
pub mod store;
pub mod text;
