//! Embedders: from a text to a vector of fixed length, the same vector for
//! the same text.

use std::collections::hash_map::DefaultHasher;
use std::hash::Hasher;
use vstd::prelude::*;
use vstd::std_specs::hash::DefaultHasherAdditionalSpecFns;
use vstd::utf8::encode_utf8;
use crate::config::MemoryConfig;
use crate::errors::MemoryError;
use crate::similarity::{norm_sq, COMPONENT_ONE};
use crate::sketch::{
    compute_sketch, is_unit_vector, is_zero_vector, lemma_sketch_is_unit_or_zero, occupied, sketch,
    MOST_ROUNDED, TOLERANCE,
};
use crate::text::{lowercase, string_views, tokenize, tokens};

verus! {

broadcast use vstd::array::group_array_axioms;

/// What turns text into embeddings.
///
/// `spec_embed` is the vector that belongs to a text. An embedder may fail,
/// unless it `never_fails`; where it answers, the answer is `spec_embed`.
pub trait Embedder {
    /// The number of components of every embedding.
    spec fn spec_dimensions(&self) -> nat;

    /// The embedding of a text.
    spec fn spec_embed(&self, text: Seq<char>) -> Seq<i32>;

    /// This embedder answers every request.
    spec fn never_fails(&self) -> bool;

    /// Every embedding has `spec_dimensions` components.
    proof fn lemma_embedding_length(&self, text: Seq<char>)
        ensures
            self.spec_embed(text).len() == self.spec_dimensions(),
    ;

    /// The embedding of the text, or an `EmbeddingError`.
    fn embed(&self, text: &str) -> (r: Result<Vec<i32>, MemoryError>)
        ensures
            r is Ok ==> r->Ok_0@ == self.spec_embed(text@) && r->Ok_0@.len()
                == self.spec_dimensions(),
            r is Err ==> r->Err_0 is EmbeddingError,
            self.never_fails() ==> r is Ok,
    ;

    /// The number of components of every embedding.
    fn dimensions(&self) -> (d: usize)
        ensures
            d == self.spec_dimensions(),
    ;
}

/// An embedder is deterministic: two answers to the same text are the same
/// vector, and it has as many components as the embedder has dimensions.
pub proof fn lemma_embed_deterministic<E: Embedder>(
    embedder: &E,
    text: Seq<char>,
    first: Seq<i32>,
    second: Seq<i32>,
)
    requires
        first == embedder.spec_embed(text),
        second == embedder.spec_embed(text),
    ensures
        first == second,
        first.len() == embedder.spec_dimensions(),
{
    embedder.lemma_embedding_length(text);
}

/// Every embedding of the hashing embedder is the zero vector or a unit
/// vector, rounded at no more components than the text has tokens or the
/// embedder dimensions, and none of its components exceeds one. For a text
/// of up to ten thousand million tokens, and for any text at up to as many
/// dimensions, its length is within a ten-thousandth of one.
pub proof fn lemma_hash_embedding_is_unit_or_zero(embedder: HashEmbedder, text: Seq<char>)
    ensures
        is_zero_vector(embedder.spec_embed(text)) || is_unit_vector(
            embedder.spec_embed(text),
            occupied(token_hashes(text), embedder.spec_dimensions()),
        ),
        occupied(token_hashes(text), embedder.spec_dimensions()) <= tokens(text).len(),
        occupied(token_hashes(text), embedder.spec_dimensions()) <= embedder.spec_dimensions(),
        forall|i: int|
            0 <= i < embedder.spec_embed(text).len() ==> -COMPONENT_ONE <= (
            #[trigger] embedder.spec_embed(text)[i]) <= COMPONENT_ONE,
        !is_zero_vector(embedder.spec_embed(text)) && (tokens(text).len() <= MOST_ROUNDED
            || embedder.spec_dimensions() <= MOST_ROUNDED) ==> (COMPONENT_ONE - TOLERANCE) * (
        COMPONENT_ONE - TOLERANCE) <= norm_sq(embedder.spec_embed(text)) <= (COMPONENT_ONE
            + TOLERANCE) * (COMPONENT_ONE + TOLERANCE),
{
    lemma_sketch_is_unit_or_zero(token_hashes(text), embedder.spec_dimensions());
}

/// The hash of a text: what a `DefaultHasher` makes of its UTF-8 bytes and
/// a closing `0xff`.
pub open spec fn text_hash(text: Seq<char>) -> u64 {
    DefaultHasher::spec_finish(seq![encode_utf8(text), seq![0xffu8]])
}

/// The hash of a token: that of its lower-case form.
pub open spec fn token_hash(token: Seq<char>) -> u64 {
    text_hash(lowercase(token))
}

/// The hashes of the tokens of a text, in order.
pub open spec fn token_hashes(text: Seq<char>) -> Seq<u64> {
    tokens(text).map_values(|token: Seq<char>| token_hash(token))
}

/// The hash of a text.
pub fn hash_text(text: &str) -> (hash: u64)
    ensures
        hash == text_hash(text@),
{
    let end: [u8; 1] = [0xff];
    let mut hasher = DefaultHasher::new();
    hasher.write(text.as_bytes());
    hasher.write(end.as_slice());
    proof {
        assert(end@ =~= seq![0xffu8]);
        assert(hasher@ =~= seq![encode_utf8(text@), seq![0xffu8]]);
    }
    hasher.finish()
}

/// The hash of a token.
pub fn hash_token(token: &str) -> (hash: u64)
    ensures
        hash == token_hash(token@),
{
    let lower: String = token.to_lowercase();
    hash_text(lower.as_str())
}

/// The hashes of the tokens of a text, in order.
pub fn hash_tokens(text: &str) -> (hashes: Vec<u64>)
    ensures
        hashes@ == token_hashes(text@),
{
    let words: Vec<String> = tokenize(text);
    let mut hashes: Vec<u64> = Vec::new();
    let n: usize = words.len();
    let mut i: usize = 0;
    while i < n
        invariant
            n == words@.len(),
            i <= n,
            string_views(words@) == tokens(text@),
            hashes@.len() == i,
            forall|j: int| 0 <= j < i ==> hashes@[j] == #[trigger] token_hashes(text@)[j],
        decreases n - i,
    {
        assert(string_views(words@)[i as int] == words@[i as int]@);
        hashes.push(hash_token(words[i].as_str()));
        i = i + 1;
    }
    assert(hashes@ =~= token_hashes(text@));
    hashes
}

/// An embedder by feature hashing: a sketch of the bag of tokens, not of
/// their meaning. Every embedding is the zero vector or has Euclidean length
/// one, as far as components rounded toward zero allow.
#[derive(Debug, Clone)]
pub struct HashEmbedder {
    dim: usize,
}

impl HashEmbedder {
    /// The number of slots: the configured dimension, and one slot where
    /// none is configured.
    pub closed spec fn width(&self) -> nat {
        if self.dim == 0 {
            1
        } else {
            self.dim as nat
        }
    }

    /// An embedder with as many components as the configuration asks for,
    /// and with one where it asks for none.
    pub fn new(config: &MemoryConfig) -> (embedder: HashEmbedder)
        ensures
            embedder.width() == if config.embedding_dim == 0 {
                1
            } else {
                config.embedding_dim as nat
            },
    {
        HashEmbedder { dim: config.embedding_dim }
    }

    /// The number of slots.
    pub fn slots(&self) -> (n: usize)
        ensures
            n == self.width(),
    {
        if self.dim == 0 {
            1
        } else {
            self.dim
        }
    }

    /// The embedding that a sequence of token hashes yields.
    pub fn embed_hashes(&self, hashes: &[u64]) -> (v: Vec<i32>)
        ensures
            v@ == sketch(hashes@, self.width()),
            v@.len() == self.width(),
            forall|i: int|
                0 <= i < v@.len() ==> -COMPONENT_ONE <= #[trigger] v@[i] <= COMPONENT_ONE,
            is_zero_vector(v@) || is_unit_vector(v@, occupied(hashes@, self.width())),
    {
        compute_sketch(hashes, self.slots())
    }

    /// The embedding of a text: the sketch of the hashes of its tokens.
    pub fn embed_text(&self, text: &str) -> (v: Vec<i32>)
        ensures
            v@ == sketch(token_hashes(text@), self.width()),
            v@.len() == self.width(),
            forall|i: int|
                0 <= i < v@.len() ==> -COMPONENT_ONE <= #[trigger] v@[i] <= COMPONENT_ONE,
            is_zero_vector(v@) || is_unit_vector(
                v@,
                occupied(token_hashes(text@), self.width()),
            ),
    {
        let hashes: Vec<u64> = hash_tokens(text);
        self.embed_hashes(hashes.as_slice())
    }
}

impl Embedder for HashEmbedder {
    open spec fn spec_dimensions(&self) -> nat {
        self.width()
    }

    open spec fn spec_embed(&self, text: Seq<char>) -> Seq<i32> {
        sketch(token_hashes(text), self.width())
    }

    open spec fn never_fails(&self) -> bool {
        true
    }

    proof fn lemma_embedding_length(&self, text: Seq<char>) {
        lemma_sketch_is_unit_or_zero(token_hashes(text), self.width());
    }

    /// The embedding of the text; this embedder answers every request, and
    /// its answer is the zero vector or a unit vector.
    fn embed(&self, text: &str) -> (r: Result<Vec<i32>, MemoryError>)
        ensures
            r is Ok,
            is_zero_vector(r->Ok_0@) || is_unit_vector(
                r->Ok_0@,
                occupied(token_hashes(text@), self.width()),
            ),
    {
        Ok(self.embed_text(text))
    }

    fn dimensions(&self) -> (d: usize) {
        self.slots()
    }
}

} // verus!
