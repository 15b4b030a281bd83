use mem0_rust::config::MemoryConfig;
use mem0_rust::embedder::{hash_text, hash_token, hash_tokens, Embedder, HashEmbedder};
use mem0_rust::similarity::cosine_similarity;
use mem0_rust::sketch::compute_sketch;
use mem0_rust::similarity::integer_sqrt;
use mem0_rust::text::{is_space, mark_gaps, same_text, split_runs, to_decimal, tokenize};
use std::collections::hash_map::DefaultHasher;
use std::hash::{Hash, Hasher};

fn embedder_of(dim: usize) -> HashEmbedder {
    HashEmbedder::new(&MemoryConfig { embedding_dim: dim, ..MemoryConfig::default() })
}

fn std_hash(text: &str) -> u64 {
    let mut hasher = DefaultHasher::new();
    text.to_string().hash(&mut hasher);
    hasher.finish()
}

#[test]
fn sketch_of_one_hash_fills_one_slot() {
    assert_eq!(compute_sketch(&[0], 4), vec![1_000_000_000, 0, 0, 0]);
    assert_eq!(compute_sketch(&[1], 4), vec![0, -1_000_000_000, 0, 0]);
    assert_eq!(compute_sketch(&[u64::MAX], 8), vec![0, 0, 0, 0, 0, 0, 0, -1_000_000_000]);
}

#[test]
fn sketch_adds_up_the_weights_of_a_slot() {
    assert_eq!(compute_sketch(&[0, 4], 4), vec![1_000_000_000, 0, 0, 0]);
    assert_eq!(compute_sketch(&[5, 5, 5], 1), vec![-1_000_000_000]);
    assert_eq!(compute_sketch(&[2, 3, 6, 7, 10], 4), vec![0, 0, 832_050_294, -554_700_196]);
}

#[test]
fn sketch_is_normalised_to_length_one() {
    assert_eq!(compute_sketch(&[0, 1], 4), vec![707_106_781, -707_106_781, 0, 0]);
    assert_eq!(compute_sketch(&[0, 1, 2, 3], 4), vec![500_000_000, -500_000_000, 500_000_000, -500_000_000]);
    assert_eq!(compute_sketch(&[0, 3], 2), vec![707_106_781, -707_106_781]);
}

#[test]
fn sketch_weighs_by_the_upper_bits() {
    assert_eq!(compute_sketch(&[1 << 63, 1], 4), vec![780_868_809, -624_695_047, 0, 0]);
}

#[test]
fn sketch_of_nothing_is_the_zero_vector() {
    assert_eq!(compute_sketch(&[], 3), vec![0, 0, 0]);
    assert_eq!(compute_sketch(&[], 0), Vec::<i32>::new());
    assert_eq!(compute_sketch(&[1, 2, 3], 0), Vec::<i32>::new());
}

#[test]
fn sketch_of_cancelling_weights_is_the_zero_vector() {
    // 0 and 1 weigh the same and fall into the one slot with opposite signs
    assert_eq!(compute_sketch(&[0, 1], 1), vec![0]);
}

#[test]
fn embed_hashes_is_the_sketch_in_the_embedder_width() {
    let embedder = embedder_of(4);
    assert_eq!(embedder.embed_hashes(&[0, 1]), vec![707_106_781, -707_106_781, 0, 0]);
    let narrow = embedder_of(0);
    assert_eq!(narrow.embed_hashes(&[5, 5, 5]), vec![-1_000_000_000]);
}

#[test]
fn embedding_is_deterministic() {
    let embedder = embedder_of(128);
    let texts = ["", "Rust", "Rust is great for systems programming", "a b c d e f g", "  spaced   out  "];
    for text in texts {
        assert_eq!(embedder.embed(text).unwrap(), embedder.embed(text).unwrap());
        assert_eq!(embedder.embed_text(text), embedder.embed(text).unwrap());
    }
    let twin = embedder_of(128);
    assert_eq!(embedder.embed_text("same text"), twin.embed_text("same text"));
}

#[test]
fn embedding_has_the_configured_length() {
    for dim in [1usize, 2, 16, 64, 128, 1000] {
        let embedder = embedder_of(dim);
        assert_eq!(embedder.dimensions(), dim);
        assert_eq!(embedder.embed_text("some words to embed").len(), dim);
        assert_eq!(embedder.embed_text("").len(), dim);
    }
}

#[test]
fn embedder_without_dimension_has_one_slot() {
    let embedder = embedder_of(0);
    assert_eq!(embedder.dimensions(), 1);
    assert_eq!(embedder.embed_text("anything at all").len(), 1);
}

#[test]
fn embedding_of_empty_text_is_the_zero_vector() {
    let embedder = embedder_of(8);
    assert_eq!(embedder.embed_text(""), vec![0; 8]);
    assert_eq!(embedder.embed_text("  \t \n "), vec![0; 8]);
}

#[test]
fn embedding_ignores_case_and_spacing() {
    let embedder = embedder_of(64);
    let plain = embedder.embed_text("rust is great");
    assert_eq!(embedder.embed_text("Rust IS Great"), plain);
    assert_eq!(embedder.embed_text("  rust\tis \n great  "), plain);
    assert_ne!(embedder.embed_text("python is great"), plain);
}

#[test]
fn embedding_of_a_text_is_similar_to_itself() {
    let embedder = embedder_of(128);
    let a = embedder.embed_text("Rust is great for systems programming");
    let score = cosine_similarity(&a, &a).unwrap();
    assert_eq!(score, 1_000_000);
    let b = embedder.embed_text("systems programming");
    let related = cosine_similarity(&a, &b).unwrap();
    assert!(related > 400_000 && related < 800_000);
}

#[test]
fn hash_of_a_token_is_that_of_its_lower_case_string() {
    assert_eq!(hash_token("rust"), std_hash("rust"));
    assert_eq!(hash_token("Rust"), std_hash("rust"));
    assert_eq!(hash_token("ÉCOLE"), std_hash("école"));
    assert_eq!(hash_token(""), std_hash(""));
    assert_ne!(hash_token("Rust"), std_hash("Rust"));
}

#[test]
fn hashes_of_a_text_are_those_of_its_tokens() {
    assert_eq!(
        hash_tokens("Rust is  GREAT"),
        vec![std_hash("rust"), std_hash("is"), std_hash("great")]
    );
    assert_eq!(hash_tokens("   "), Vec::<u64>::new());
}

#[test]
fn tokens_are_the_runs_between_whitespace() {
    assert_eq!(tokenize("  Hello   world\t\n again "), vec!["Hello", "world", "again"]);
    assert_eq!(tokenize("one"), vec!["one"]);
    assert_eq!(tokenize(""), Vec::<String>::new());
    assert_eq!(tokenize(" \u{a0}\u{2003} "), Vec::<String>::new());
    assert_eq!(tokenize("a\u{a0}b\u{3000}c"), vec!["a", "b", "c"]);
}

#[test]
fn tokens_agree_with_the_standard_split() {
    let texts = [
        "Rust is great for systems programming",
        "tabs\tand\nnewlines\r\nmixed",
        " leading and trailing ",
        "unicode\u{2028}separators\u{205f}too",
        "zero\u{200b}width is no space",
        "",
    ];
    for text in texts {
        let expected: Vec<String> = text.split_whitespace().map(|t| t.to_string()).collect();
        assert_eq!(tokenize(text), expected);
    }
}

#[test]
fn decimal_notation_of_numbers() {
    assert_eq!(to_decimal(0), "0");
    assert_eq!(to_decimal(7), "7");
    assert_eq!(to_decimal(10), "10");
    assert_eq!(to_decimal(407), "407");
    assert_eq!(to_decimal(usize::MAX), usize::MAX.to_string());
}

#[test]
fn texts_are_compared_by_their_characters() {
    assert!(same_text("abc", "abc"));
    assert!(same_text("", ""));
    assert!(!same_text("abc", "abd"));
    assert!(!same_text("abc", "ABC"));
    assert!(!same_text("abc", "abcd"));
}

fn float_embedding(text: &str, dim: usize) -> Vec<f32> {
    let mut vector = vec![0.0_f32; dim.max(1)];
    for token in text.split_whitespace() {
        let hash = std_hash(&token.to_lowercase());
        let idx = (hash as usize) % dim.max(1);
        let sign = if hash & 1 == 0 { 1.0 } else { -1.0 };
        let magnitude = 1.0 + ((hash >> 1) as f32 / u64::MAX as f32);
        vector[idx] += sign * magnitude;
    }
    let norm: f32 = vector.iter().map(|v| v * v).sum::<f32>().sqrt();
    if norm > 0.0 {
        for value in &mut vector {
            *value /= norm;
        }
    }
    vector
}

#[test]
fn embedding_agrees_with_the_floating_point_formula() {
    let texts = [
        "Rust is great for systems programming",
        "Python is often used for rapid prototyping",
        "the the the the cat sat on the mat",
        "a",
        "",
        "GraphQL APIs benefit from schema stitching and REST endpoints are easy to cache",
    ];
    for dim in [1usize, 4, 16, 64, 128] {
        let embedder = embedder_of(dim);
        for text in texts {
            let exact = float_embedding(text, dim);
            let counted = embedder.embed_text(text);
            assert_eq!(counted.len(), exact.len());
            for (c, e) in counted.iter().zip(exact.iter()) {
                let shown = (f64::from(*c) / 1_000_000_000.0) as f32;
                assert!((shown - e).abs() < 5.0e-5, "{} against {} for {:?}", shown, e, text);
            }
        }
    }
}

#[test]
fn hash_of_a_text_is_that_of_the_string() {
    assert_eq!(hash_text("rust"), std_hash("rust"));
    assert_eq!(hash_text("Rust"), std_hash("Rust"));
    assert_eq!(hash_text(""), std_hash(""));
    assert_ne!(hash_text("Rust"), hash_text("rust"));
}

#[test]
fn runs_are_split_at_the_marked_characters() {
    let gap = true;
    let held = false;
    assert_eq!(
        split_runs("ab-cd", &[held, held, gap, held, held]),
        vec!["ab", "cd"]
    );
    assert_eq!(
        split_runs("abcde", &[gap, held, gap, gap, held]),
        vec!["b", "e"]
    );
    assert_eq!(split_runs("abc", &[gap, gap, gap]), Vec::<String>::new());
    // a character without a mark is no gap
    assert_eq!(split_runs("a b c", &[held, gap]), vec!["a", "b c"]);
    assert_eq!(split_runs("a b", &[]), vec!["a b"]);
    assert_eq!(split_runs("", &[gap, gap]), Vec::<String>::new());
    assert_eq!(split_runs("héllo wörld", &mark_gaps("héllo wörld")), vec!["héllo", "wörld"]);
}

#[test]
fn gaps_are_the_whitespace_characters() {
    assert_eq!(mark_gaps("a b\tc"), vec![false, true, false, true, false]);
    assert_eq!(mark_gaps("é\u{a0}x"), vec![false, true, false]);
    assert_eq!(mark_gaps(""), Vec::<bool>::new());
}

#[test]
fn embedding_has_length_one_or_is_zero() {
    let texts = [
        "Rust is great for systems programming",
        "Python is often used for rapid prototyping",
        "a",
        "the quick brown fox jumps over the lazy dog and keeps running through the field",
    ];
    for dim in [1usize, 2, 8, 128, 1536] {
        let embedder = embedder_of(dim);
        for text in texts {
            let v = embedder.embed_text(text);
            let squared: i128 = v.iter().map(|c| i128::from(*c) * i128::from(*c)).sum();
            if squared != 0 {
                let one: i128 = 1_000_000_000;
                assert!(squared < (one + 1) * (one + 1));
                // short of one by at most the root of the components that are not zero
                let rounded = v.iter().filter(|c| **c != 0).count() as i128;
                let root = i128::from(integer_sqrt((rounded * squared) as u128));
                assert!(squared + 2 * root + rounded >= one * one);
                // within a ten-thousandth of one, and far closer
                assert!(squared >= (one - 100_000) * (one - 100_000));
                let length = (squared as f64).sqrt() / 1.0e9;
                assert!((length - 1.0).abs() <= 1.0e-6, "length {}", length);
            }
            assert!(v.iter().all(|c| c.abs() <= 1_000_000_000));
        }
    }
    assert_eq!(compute_sketch(&[902 << 49, (322 << 49) + 1], 2), vec![710_199_989, -703_999_982]);
}

#[test]
fn whitespace_is_what_the_standard_library_takes_for_it() {
    for code in 0..=0x10_ffffu32 {
        if let Some(c) = char::from_u32(code) {
            assert_eq!(is_space(c), c.is_whitespace(), "at {:#x}", code);
        }
    }
}

#[test]
fn whitespace_is_a_short_list() {
    let spaces: Vec<char> = (0..=0x10_ffffu32)
        .filter_map(char::from_u32)
        .filter(|c| is_space(*c))
        .collect();
    assert_eq!(spaces.len(), 25);
    assert!(is_space(' ') && is_space('\t') && is_space('\n') && is_space('\r'));
    assert!(is_space('\u{a0}') && is_space('\u{3000}') && is_space('\u{2028}'));
    assert!(!is_space('a') && !is_space('\u{200b}') && !is_space('\u{180e}') && !is_space('_'));
}
