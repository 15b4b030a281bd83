use mem0_rust::config::MemoryConfig;
use mem0_rust::embedder::{Embedder, HashEmbedder};
use mem0_rust::errors::MemoryError;
use mem0_rust::models::{
    Condition, FilterLogic, Filters, MemoryRecord, ScoredMemory, Stamp, Timestamp,
};
use mem0_rust::store::{embed_and_store, search_store, InMemoryStore, VectorStore};
use serde_json::Value;

fn record(id: &str, content: &str, user: Option<&str>, agent: Option<&str>) -> MemoryRecord {
    MemoryRecord::assemble(
        id.to_string(),
        Timestamp { seconds: 1_700_000_000, nanos: 5 },
        content,
        Value::String(content.to_string()),
        user.map(|u| u.to_string()),
        agent.map(|a| a.to_string()),
        None,
    )
}

fn ranked_store() -> InMemoryStore {
    let mut store = InMemoryStore::new();
    store.insert(record("c", "across", Some("ann"), None), vec![0, 1_000_000_000]);
    store.insert(record("b", "near", Some("bob"), Some("x")), vec![600_000_000, 800_000_000]);
    store.insert(record("e", "against", Some("ann"), Some("x")), vec![-1_000_000_000, 0]);
    store.insert(record("a", "same", Some("ann"), None), vec![1_000_000_000, 0]);
    store.insert(record("d", "near too", None, Some("x")), vec![600_000_000, 800_000_000]);
    store
}

fn ids(found: &[ScoredMemory]) -> Vec<String> {
    found.iter().map(|m| m.record.id.clone()).collect()
}

#[test]
fn insert_then_get_returns_the_record() {
    let mut store = InMemoryStore::new();
    let r = record("id-1", "first", Some("ann"), None);
    store.insert(r.clone(), vec![1, 2, 3]);
    assert_eq!(store.count(), 1);
    assert_eq!(store.get("id-1"), Some(r));
    assert_eq!(store.get("id-2"), None);
}

#[test]
fn delete_then_get_returns_nothing() {
    let mut store = InMemoryStore::new();
    store.insert(record("id-1", "first", None, None), vec![1, 2, 3]);
    store.insert(record("id-2", "second", None, None), vec![4, 5, 6]);
    assert_eq!(store.delete("id-1"), Ok(()));
    assert_eq!(store.get("id-1"), None);
    assert_eq!(store.count(), 1);
    assert_eq!(store.get("id-2").unwrap().content, "second");
}

#[test]
fn deleting_twice_fails_and_changes_nothing() {
    let mut store = InMemoryStore::new();
    store.insert(record("id-1", "first", None, None), vec![1, 2, 3]);
    store.insert(record("id-2", "second", None, None), vec![4, 5, 6]);
    assert_eq!(store.delete("id-1"), Ok(()));
    assert_eq!(store.delete("id-1"), Err(MemoryError::NotFound("id-1".to_string())));
    assert_eq!(store.count(), 1);
    assert_eq!(store.list(None, 10), vec![record("id-2", "second", None, None)]);
}

#[test]
fn deleting_an_unknown_id_fails() {
    let mut store = InMemoryStore::new();
    assert_eq!(
        store.delete("non-existent-id"),
        Err(MemoryError::NotFound("non-existent-id".to_string()))
    );
    store.insert(record("id-1", "first", None, None), vec![1]);
    assert_eq!(
        store.delete("non-existent-id"),
        Err(MemoryError::NotFound("non-existent-id".to_string()))
    );
    assert_eq!(store.count(), 1);
}

#[test]
fn delete_keeps_the_order_of_the_others() {
    let mut store = ranked_store();
    assert_eq!(store.delete("e"), Ok(()));
    let left: Vec<String> = store.list(None, 10).iter().map(|r| r.id.clone()).collect();
    assert_eq!(left, vec!["c", "b", "a", "d"]);
}

#[test]
fn get_finds_the_record_inserted_last_under_an_id() {
    let mut store = InMemoryStore::new();
    store.insert(record("twin", "older", None, None), vec![1]);
    store.insert(record("twin", "newer", None, None), vec![2]);
    assert_eq!(store.get("twin").unwrap().content, "newer");
    assert_eq!(store.delete("twin"), Ok(()));
    assert_eq!(store.count(), 0);
}

#[test]
fn search_ranks_by_score_and_keeps_ties_in_order() {
    let store = ranked_store();
    let found = store.search(&[1_000_000_000, 0], 10, None).unwrap();
    assert_eq!(ids(&found), vec!["a", "b", "d", "c", "e"]);
    let scores: Vec<i32> = found.iter().map(|m| m.score).collect();
    assert_eq!(scores, vec![1_000_000, 600_000, 600_000, 0, -1_000_000]);
}

#[test]
fn search_returns_at_most_k() {
    let store = ranked_store();
    assert_eq!(ids(&store.search(&[1_000_000_000, 0], 2, None).unwrap()), vec!["a", "b"]);
    assert_eq!(ids(&store.search(&[1_000_000_000, 0], 3, None).unwrap()), vec!["a", "b", "d"]);
    assert_eq!(ids(&store.search(&[1_000_000_000, 0], 1, None).unwrap()), vec!["a"]);
    assert!(store.search(&[1_000_000_000, 0], 0, None).unwrap().is_empty());
    assert_eq!(store.search(&[1_000_000_000, 0], usize::MAX, None).unwrap().len(), 5);
}

#[test]
fn search_results_are_sorted() {
    let store = ranked_store();
    for query in [[1_000_000_000i32, 0], [0, 1_000_000_000], [-600_000_000, 800_000_000], [707_106_781, 707_106_781], [0, 0]] {
        for k in 0..7 {
            let found = store.search(&query, k, None).unwrap();
            assert!(found.len() <= k);
            for pair in found.windows(2) {
                assert!(pair[0].score >= pair[1].score);
            }
        }
    }
}

#[test]
fn search_applies_the_filter_before_ranking() {
    let store = ranked_store();
    let ann = Filters {
        conditions: vec![Condition::UserId("ann".to_string())],
        logic: FilterLogic::And,
    };
    assert_eq!(ids(&store.search(&[1_000_000_000, 0], 2, Some(&ann)).unwrap()), vec!["a", "c"]);
    let ann_and_x = Filters {
        conditions: vec![Condition::UserId("ann".to_string()), Condition::AgentId("x".to_string())],
        logic: FilterLogic::And,
    };
    assert_eq!(ids(&store.search(&[1_000_000_000, 0], 5, Some(&ann_and_x)).unwrap()), vec!["e"]);
    let bob_or_x = Filters {
        conditions: vec![Condition::UserId("bob".to_string()), Condition::AgentId("x".to_string())],
        logic: FilterLogic::Or,
    };
    assert_eq!(
        ids(&store.search(&[1_000_000_000, 0], 5, Some(&bob_or_x)).unwrap()),
        vec!["b", "d", "e"]
    );
    let run = Filters { conditions: vec![Condition::RunId("r".to_string())], logic: FilterLogic::And };
    assert!(store.search(&[1_000_000_000, 0], 5, Some(&run)).unwrap().is_empty());
}

#[test]
fn filter_without_conditions_passes_all_or_none() {
    let store = ranked_store();
    let all = Filters { conditions: vec![], logic: FilterLogic::And };
    assert_eq!(store.search(&[1_000_000_000, 0], 10, Some(&all)).unwrap().len(), 5);
    assert_eq!(store.list(Some(&all), 10).len(), 5);
    let none = Filters { conditions: vec![], logic: FilterLogic::Or };
    assert!(store.search(&[1_000_000_000, 0], 10, Some(&none)).unwrap().is_empty());
    assert!(store.list(Some(&none), 10).is_empty());
    let r = record("r", "text", Some("ann"), None);
    assert!(all.matches(&r));
    assert!(!none.matches(&r));
}

#[test]
fn search_with_another_length_is_a_mismatch() {
    let store = ranked_store();
    assert_eq!(
        store.search(&[1_000_000_000, 0, 0], 5, None),
        Err(MemoryError::DimensionMismatch { expected: 3, actual: 2 })
    );
    assert_eq!(
        store.search(&[], 5, None),
        Err(MemoryError::DimensionMismatch { expected: 0, actual: 2 })
    );
    let empty = InMemoryStore::new();
    assert_eq!(empty.search(&[1, 2, 3], 5, None), Ok(vec![]));
}

#[test]
fn search_reports_the_first_mismatch_among_those_that_pass() {
    let mut store = InMemoryStore::new();
    store.insert(record("1", "two wide", Some("ann"), None), vec![1, 2]);
    store.insert(record("2", "three wide", Some("bob"), None), vec![1, 2, 3]);
    store.insert(record("3", "four wide", Some("bob"), None), vec![1, 2, 3, 4]);
    assert_eq!(
        store.search(&[1, 2], 5, None),
        Err(MemoryError::DimensionMismatch { expected: 2, actual: 3 })
    );
    let ann = Filters {
        conditions: vec![Condition::UserId("ann".to_string())],
        logic: FilterLogic::And,
    };
    assert_eq!(ids(&store.search(&[1, 2], 5, Some(&ann)).unwrap()), vec!["1"]);
    let bob = Filters {
        conditions: vec![Condition::UserId("bob".to_string())],
        logic: FilterLogic::And,
    };
    assert_eq!(
        store.search(&[1, 2, 3, 4], 5, Some(&bob)),
        Err(MemoryError::DimensionMismatch { expected: 4, actual: 3 })
    );
}

#[test]
fn list_returns_the_first_that_pass() {
    let store = ranked_store();
    let all: Vec<String> = store.list(None, 10).iter().map(|r| r.id.clone()).collect();
    assert_eq!(all, vec!["c", "b", "e", "a", "d"]);
    let two: Vec<String> = store.list(None, 2).iter().map(|r| r.id.clone()).collect();
    assert_eq!(two, vec!["c", "b"]);
    assert!(store.list(None, 0).is_empty());
    let x = Filters { conditions: vec![Condition::AgentId("x".to_string())], logic: FilterLogic::And };
    let some: Vec<String> = store.list(Some(&x), 2).iter().map(|r| r.id.clone()).collect();
    assert_eq!(some, vec!["b", "e"]);
}

#[test]
fn update_replaces_payload_and_embedding() {
    let mut store = ranked_store();
    let payload = record("ignored", "rewritten", Some("cat"), None);
    assert_eq!(store.update("b", Some(vec![1_000_000_000, 0]), payload), Ok(()));
    let stored = store.get("b").unwrap();
    assert_eq!(stored.id, "b");
    assert_eq!(stored.content, "rewritten");
    assert_eq!(stored.user_id, Some("cat".to_string()));
    assert_eq!(stored.agent_id, None);
    assert_eq!(stored.created_at, Timestamp { seconds: 1_700_000_000, nanos: 5 });
    let found = store.search(&[1_000_000_000, 0], 2, None).unwrap();
    assert_eq!(ids(&found), vec!["b", "a"]);
    assert_eq!(store.count(), 5);
}

#[test]
fn update_without_embedding_keeps_the_embedding() {
    let mut store = ranked_store();
    assert_eq!(store.update("b", None, record("b", "new words", None, None)), Ok(()));
    assert_eq!(store.get("b").unwrap().content, "new words");
    let found = store.search(&[600_000_000, 800_000_000], 2, None).unwrap();
    assert_eq!(ids(&found), vec!["b", "d"]);
}

#[test]
fn update_of_an_unknown_id_fails() {
    let mut store = ranked_store();
    assert_eq!(
        store.update("zz", None, record("zz", "text", None, None)),
        Err(MemoryError::NotFound("zz".to_string()))
    );
    assert_eq!(store.count(), 5);
    assert_eq!(store.get("zz"), None);
}

#[test]
fn delete_all_removes_what_passes() {
    let mut store = ranked_store();
    let ann = Filters {
        conditions: vec![Condition::UserId("ann".to_string())],
        logic: FilterLogic::And,
    };
    store.delete_all(Some(&ann));
    let left: Vec<String> = store.list(None, 10).iter().map(|r| r.id.clone()).collect();
    assert_eq!(left, vec!["b", "d"]);
    store.delete_all(None);
    assert_eq!(store.count(), 0);
}

#[test]
fn embed_and_store_keeps_the_record_with_its_embedding() {
    let embedder = HashEmbedder::new(&MemoryConfig { embedding_dim: 32, ..MemoryConfig::default() });
    let mut store = InMemoryStore::default();
    let r = record("k", "Rust is great", None, None);
    let stored = embed_and_store(&mut store, &embedder, r.clone()).unwrap();
    assert_eq!(stored, r);
    assert_eq!(store.get("k"), Some(r));
    let found = store.search(&embedder.embed("Rust is great").unwrap(), 1, None).unwrap();
    assert_eq!(found[0].score, 1_000_000);
}

#[test]
fn search_store_embeds_the_query() {
    let embedder = HashEmbedder::new(&MemoryConfig { embedding_dim: 32, ..MemoryConfig::default() });
    let mut store = InMemoryStore::default();
    embed_and_store(&mut store, &embedder, record("1", "Rust is great", None, None)).unwrap();
    embed_and_store(&mut store, &embedder, record("2", "cooking with garlic", None, None)).unwrap();
    let found = search_store(&store, &embedder, "rust  IS great", 5).unwrap();
    assert_eq!(found.len(), 2);
    assert_eq!(found[0].record.id, "1");
    assert_eq!(found[0].score, 1_000_000);
    let one = search_store(&store, &embedder, "garlic", 1).unwrap();
    assert_eq!(ids(&one), vec!["2"]);
}

#[test]
fn search_store_meets_a_store_of_another_width() {
    let embedder = HashEmbedder::new(&MemoryConfig { embedding_dim: 32, ..MemoryConfig::default() });
    let mut store = InMemoryStore::default();
    store.insert(record("1", "short", None, None), vec![1, 2, 3]);
    assert_eq!(
        search_store(&store, &embedder, "anything", 5),
        Err(MemoryError::DimensionMismatch { expected: 32, actual: 3 })
    );
}

#[test]
fn new_records_get_a_uuid_and_no_scope() {
    let r = MemoryRecord::new("content", Value::Bool(true));
    assert_eq!(r.content, "content");
    assert_eq!(r.metadata, Value::Bool(true));
    assert_eq!(r.user_id, None);
    assert_eq!(r.agent_id, None);
    assert_eq!(r.run_id, None);
    assert_eq!(r.id.len(), 36);
    for (i, c) in r.id.chars().enumerate() {
        if i == 8 || i == 13 || i == 18 || i == 23 {
            assert_eq!(c, '-');
        } else {
            assert!(c.is_ascii_digit() || ('a'..='f').contains(&c));
        }
    }
    assert_eq!(r.id.chars().nth(14), Some('4'));
    assert!(matches!(r.id.chars().nth(19), Some('8' | '9' | 'a' | 'b')));
    let other = MemoryRecord::new("content", Value::Bool(true));
    assert_ne!(r.id, other.id);
    assert!(r.created_at.seconds > 1_600_000_000);
}

#[test]
fn scoped_records_carry_their_scope() {
    let r = MemoryRecord::with_scoping(
        "content",
        Value::Null,
        Some("u".to_string()),
        None,
        Some("r".to_string()),
    );
    assert_eq!(r.user_id, Some("u".to_string()));
    assert_eq!(r.agent_id, None);
    assert_eq!(r.run_id, Some("r".to_string()));
    assert_eq!(r.id.len(), 36);
}

#[test]
fn update_content_keeps_identity_and_time() {
    let mut r = record("fixed", "before", Some("u"), None);
    r.update_content("after");
    assert_eq!(r.id, "fixed");
    assert_eq!(r.content, "after");
    assert_eq!(r.metadata, Value::String("before".to_string()));
    assert_eq!(r.created_at, Timestamp { seconds: 1_700_000_000, nanos: 5 });
    assert_eq!(r.user_id, Some("u".to_string()));
    assert_eq!(r.agent_id, None);
}

#[test]
fn stamps_are_drawn_fresh() {
    let stamps = Stamp::draw_many(3);
    assert_eq!(stamps.len(), 3);
    assert_ne!(stamps[0].id, stamps[1].id);
    assert_ne!(stamps[1].id, stamps[2].id);
    assert_eq!(Stamp::draw().id.len(), 36);
    assert!(Stamp::draw_many(0).is_empty());
}
