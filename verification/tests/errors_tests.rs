use mem0_rust::config::{LlmConfig, MemoryConfig};
use mem0_rust::embedder::HashEmbedder;
use mem0_rust::errors::MemoryError;
use mem0_rust::events::{Candidate, MemoryAction};
use mem0_rust::memory::manager::Memory;
use mem0_rust::memory::steps::AddEvent;
use mem0_rust::messages::{Message, Messages};
use mem0_rust::models::{MemoryRecord, Stamp, Timestamp};
use mem0_rust::options::{AddOptions, SearchOptions};
use mem0_rust::store::{search_embedded, store_embedded, InMemoryStore, VectorStore};

#[test]
fn errors_say_what_went_wrong() {
    assert_eq!(
        MemoryError::DimensionMismatch { expected: 128, actual: 64 }.message(),
        "embedding dimension mismatch: expected 128, got 64"
    );
    assert_eq!(
        MemoryError::DimensionMismatch { expected: 0, actual: usize::MAX }.message(),
        format!("embedding dimension mismatch: expected 0, got {}", usize::MAX)
    );
    assert_eq!(
        MemoryError::NotFound("abc".to_string()).message(),
        "memory with id abc not found"
    );
    assert_eq!(
        MemoryError::InvalidInput("no scope".to_string()).message(),
        "invalid input: no scope"
    );
    assert_eq!(
        MemoryError::EmbeddingError("away".to_string()).message(),
        "embedding error: away"
    );
    assert_eq!(MemoryError::LLMError("away".to_string()).message(), "LLM error: away");
}

#[test]
fn errors_are_copied_as_they_are() {
    let errors = vec![
        MemoryError::DimensionMismatch { expected: 3, actual: 2 },
        MemoryError::NotFound("abc".to_string()),
        MemoryError::InvalidInput("why".to_string()),
        MemoryError::EmbeddingError("why".to_string()),
        MemoryError::LLMError("why".to_string()),
    ];
    for error in &errors {
        assert_eq!(&error.clone(), error);
    }
}

#[test]
fn a_failure_of_a_collaborator_is_handed_on_as_it_is() {
    let config = MemoryConfig {
        llm: Some(LlmConfig { model: "planner".to_string() }),
        ..MemoryConfig::default()
    };
    let mut memory = Memory::new(config).unwrap();
    let options = AddOptions { user_id: Some("ann".to_string()), ..Default::default() };
    for failure in [
        MemoryError::EmbeddingError("the provider is away".to_string()),
        MemoryError::LLMError("the model is away".to_string()),
    ] {
        let step = memory.add(Messages::from_text("hello"), options.clone());
        let step = memory.resume(step.state, AddEvent::Facts(Err(failure.clone())));
        assert_eq!(step.into_result(), Some(Err(failure)));
    }
    assert_eq!(memory.count(), 0);
}

#[test]
fn messages_are_made_from_strings_and_lists() {
    let text: Messages = String::from("just this").into();
    assert_eq!(text, Messages::Text("just this".to_string()));
    let list: Messages = vec![Message::user("u")].into();
    assert_eq!(list, Messages::List(vec![Message::user("u")]));
}

#[test]
fn the_error_of_an_embedder_is_handed_on_as_it_is() {
    let failure = MemoryError::EmbeddingError("the provider is away".to_string());
    let mut store = InMemoryStore::new();
    let record = MemoryRecord::new("kept out", serde_json::Value::Null);
    assert_eq!(store_embedded(&mut store, record.clone(), Err(failure.clone())), Err(failure.clone()));
    assert_eq!(store.count(), 0);
    assert_eq!(store_embedded(&mut store, record.clone(), Ok(vec![1, 2])), Ok(record));
    assert_eq!(store.count(), 1);
    assert_eq!(search_embedded(&store, Err(failure.clone()), 5), Err(failure.clone()));
    assert_eq!(search_embedded(&store, Ok(vec![1, 2]), 5).unwrap().len(), 1);
    assert_eq!(
        search_embedded(&store, Ok(vec![1, 2, 3]), 5),
        Err(MemoryError::DimensionMismatch { expected: 3, actual: 2 })
    );

    let mut memory = Memory::new(MemoryConfig::default()).unwrap();
    let options = AddOptions { user_id: Some("ann".to_string()), ..Default::default() };
    let stamp = Stamp { id: "chosen".to_string(), created_at: Timestamp { seconds: 1, nanos: 2 } };
    assert_eq!(
        memory.add_memory_embedded(stamp.clone(), "text", Err(failure.clone()), &options),
        Err(failure.clone())
    );
    assert_eq!(memory.count(), 0);
    assert!(memory.history("chosen").is_err());
    let mut vector = vec![0i32; 128];
    vector[3] = 1_000_000_000;
    let added = memory.add_memory_embedded(stamp, "text", Ok(vector.clone()), &options).unwrap();
    assert_eq!(added.id, "chosen");
    assert_eq!(memory.count(), 1);
    assert_eq!(
        memory.search_embedded(Err(failure.clone()), SearchOptions::default()),
        Err(failure.clone())
    );
    let found = memory.search_embedded(Ok(vector.clone()), SearchOptions::default()).unwrap();
    assert_eq!(found.results[0].score, 1_000_000);
    let mut candidates: Vec<Candidate> = Vec::new();
    assert_eq!(memory.relate(&mut candidates, Err(failure.clone())), Err(failure));
    assert!(candidates.is_empty());
    assert_eq!(
        memory.relate(&mut candidates, Ok(vec![1, 2])),
        Err(MemoryError::DimensionMismatch { expected: 2, actual: 128 })
    );
    assert!(candidates.is_empty());
    assert_eq!(memory.relate(&mut candidates, Ok(vector)), Ok(()));
    assert_eq!(candidates.len(), 1);
    assert_eq!(candidates[0].temp_id, "0");
    assert_eq!(candidates[0].memory_id, "chosen");
}

#[test]
fn history_of_a_stored_memory_without_lines_is_empty() {
    let config = MemoryConfig::default();
    let mut store = InMemoryStore::new();
    let record = MemoryRecord::new("stored before", serde_json::Value::Null);
    let id = record.id.clone();
    store.insert(record, vec![0; 128]);
    let mut memory = Memory::with_backends(config.clone(), HashEmbedder::new(&config), store);
    assert_eq!(memory.history(&id), Ok(vec![]));
    assert_eq!(
        memory.history("never seen"),
        Err(MemoryError::NotFound("never seen".to_string()))
    );
    // an update is its first line
    memory.update(&id, "stored since").unwrap();
    let lines = memory.history(&id).unwrap();
    assert_eq!(lines.len(), 1);
    assert_eq!(lines[0].previous, Some("stored before".to_string()));
    memory.delete(&id).unwrap();
    assert_eq!(memory.history(&id), Err(MemoryError::NotFound(id)));
}

#[test]
fn options_are_scoped_by_any_one_attribute() {
    assert!(!AddOptions::default().is_scoped());
    assert!(AddOptions { user_id: Some("u".to_string()), ..Default::default() }.is_scoped());
    assert!(AddOptions { agent_id: Some("a".to_string()), ..Default::default() }.is_scoped());
    assert!(AddOptions { run_id: Some("r".to_string()), ..Default::default() }.is_scoped());
}

#[test]
fn a_batch_of_idle_actions_returns_no_event() {
    let mut memory = Memory::new(MemoryConfig::default()).unwrap();
    let options = AddOptions { user_id: Some("ann".to_string()), ..Default::default() };
    let idle = |tag: &str| MemoryAction { event: tag.to_string(), text: None, id: None };
    let actions = vec![idle("NOOP"), idle("noop"), idle("SHRUG")];
    assert_eq!(memory.apply_actions(&actions, &vec![], &options), Ok(vec![]));
    assert_eq!(memory.apply_actions(&vec![], &vec![], &options), Ok(vec![]));
    assert_eq!(memory.count(), 0);
}
