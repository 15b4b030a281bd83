use mem0_rust::config::{LlmConfig, MemoryConfig};
use mem0_rust::embedder::HashEmbedder;
use mem0_rust::errors::MemoryError;
use mem0_rust::events::{
    action_kind, classify_tag, ActionKind, AddResult, Candidate, EventType, HistoryEntry,
    MemoryAction, MemoryEvent,
};
use mem0_rust::memory::manager::{filter_for, Memory};
use mem0_rust::memory::steps::{AddAction, AddEvent, AddState, AddStep};
use mem0_rust::messages::{spoken_texts, write_transcript, Message, Messages, Role};
use mem0_rust::models::{Condition, FilterLogic, Filters, Stamp, Timestamp};
use mem0_rust::options::{AddOptions, GetAllOptions, ResetOptions, SearchOptions};
use mem0_rust::store::{InMemoryStore, VectorStore};
use serde_json::Value;

type Manager = Memory<HashEmbedder, InMemoryStore>;

fn plain() -> Manager {
    Memory::new(MemoryConfig::default()).unwrap()
}

fn inferring() -> Manager {
    let config = MemoryConfig {
        llm: Some(LlmConfig { model: "planner".to_string() }),
        ..MemoryConfig::default()
    };
    Memory::new(config).unwrap()
}

fn user(name: &str) -> AddOptions {
    AddOptions { user_id: Some(name.to_string()), infer: false, ..Default::default() }
}

fn finished(step: AddStep) -> Result<AddResult, MemoryError> {
    assert!(matches!(step.state, AddState::Finished));
    step.into_result().expect("the call to have ended")
}

fn add_text(memory: &mut Manager, text: &str, options: AddOptions) -> MemoryEvent {
    let mut added = finished(memory.add(Messages::from_text(text), options)).unwrap();
    assert_eq!(added.results.len(), 1);
    added.results.remove(0)
}

fn action(event: &str, text: Option<&str>, id: Option<&str>) -> MemoryAction {
    MemoryAction {
        event: event.to_string(),
        text: text.map(|t| t.to_string()),
        id: id.map(|i| i.to_string()),
    }
}

fn stamp(id: &str) -> Stamp {
    Stamp { id: id.to_string(), created_at: Timestamp { seconds: 10, nanos: 20 } }
}

#[test]
fn test_memory_creation() {
    let config = MemoryConfig::default();
    let memory = Memory::new(config);
    assert!(memory.is_ok());
}

#[test]
fn test_add_raw() {
    let config = MemoryConfig::default();
    let mut memory = Memory::new(config).unwrap();

    let result = memory
        .add(
            Messages::from_text("Test memory content"),
            AddOptions {
                user_id: Some("test_user".to_string()),
                infer: false,
                ..Default::default()
            },
        )
        .into_result()
        .unwrap();

    assert!(result.is_ok());
    assert_eq!(result.unwrap().results.len(), 1);
}

#[test]
fn test_search() {
    let config = MemoryConfig::default();
    let mut memory = Memory::new(config).unwrap();

    // Add a memory
    memory
        .add(
            Messages::from_text("I love programming in Rust"),
            AddOptions {
                user_id: Some("test_user".to_string()),
                infer: false,
                ..Default::default()
            },
        )
        .into_result()
        .unwrap()
        .unwrap();

    // Search for it
    let results = memory
        .search(
            "Rust programming",
            SearchOptions {
                user_id: Some("test_user".to_string()),
                ..Default::default()
            },
        )
        .unwrap();

    assert!(!results.results.is_empty());
}

#[test]
fn add_without_scope_is_invalid_and_stores_nothing() {
    let mut memory = plain();
    let step = memory.add(
        Messages::from_text("nobody owns this"),
        AddOptions { infer: false, ..Default::default() },
    );
    assert_eq!(
        finished(step),
        Err(MemoryError::InvalidInput(
            "At least one of user_id, agent_id, or run_id is required".to_string()
        ))
    );
    assert_eq!(memory.count(), 0);
    let mut other = inferring();
    let step = other.add(Messages::from_text("nobody owns this"), AddOptions::default());
    assert!(matches!(finished(step), Err(MemoryError::InvalidInput(_))));
    assert_eq!(other.count(), 0);
}

#[test]
fn add_accepts_any_one_scope() {
    let mut memory = plain();
    let by_agent = AddOptions { agent_id: Some("a".to_string()), infer: false, ..Default::default() };
    let by_run = AddOptions { run_id: Some("r".to_string()), infer: false, ..Default::default() };
    add_text(&mut memory, "for the agent", by_agent);
    add_text(&mut memory, "for the run", by_run);
    let all = memory.get_all(GetAllOptions::default()).unwrap();
    assert_eq!(all.len(), 2);
    assert_eq!(all[0].agent_id, Some("a".to_string()));
    assert_eq!(all[0].user_id, None);
    assert_eq!(all[1].run_id, Some("r".to_string()));
}

#[test]
fn raw_add_skips_system_messages() {
    let mut memory = plain();
    let talk = vec![
        Message::system("You are a helpful assistant"),
        Message::user("I moved to Lisbon"),
        Message::assistant("Noted, Lisbon it is"),
    ];
    let added = finished(memory.add(Messages::List(talk), user("ann"))).unwrap();
    let texts: Vec<&str> = added.results.iter().map(|e| e.memory.as_str()).collect();
    assert_eq!(texts, vec!["I moved to Lisbon", "Noted, Lisbon it is"]);
    assert!(added.results.iter().all(|e| e.event == EventType::Add));
    assert_eq!(memory.count(), 2);
    let first = memory.get(&added.results[0].id).unwrap().unwrap();
    assert_eq!(first.content, "I moved to Lisbon");
    assert_eq!(first.user_id, Some("ann".to_string()));
}

#[test]
fn raw_add_gives_the_default_metadata_or_the_given_one() {
    let mut memory = plain();
    let bare = add_text(&mut memory, "no metadata", user("ann"));
    let stored = memory.get(&bare.id).unwrap().unwrap();
    assert_eq!(stored.metadata, Value::Object(serde_json::Map::new()));
    let tagged = AddOptions { metadata: Some(Value::String("tag".to_string())), ..user("ann") };
    let with = add_text(&mut memory, "with metadata", tagged);
    let stored = memory.get(&with.id).unwrap().unwrap();
    assert_eq!(stored.metadata, Value::String("tag".to_string()));
}

#[test]
fn add_without_language_model_never_infers() {
    let mut memory = plain();
    let options = AddOptions { user_id: Some("ann".to_string()), infer: true, ..Default::default() };
    let added = finished(memory.add(Messages::from_text("stored as it is"), options)).unwrap();
    assert_eq!(added.results.len(), 1);
    assert_eq!(memory.count(), 1);
}

#[test]
fn add_with_language_model_asks_for_the_facts() {
    let mut memory = inferring();
    let talk = vec![
        Message::system("Be brief"),
        Message::user("I moved to Lisbon"),
        Message::assistant("Noted"),
    ];
    let options = AddOptions { user_id: Some("ann".to_string()), ..Default::default() };
    let step = memory.add(Messages::List(talk), options.clone());
    match step.action {
        AddAction::ExtractFacts { transcript } => {
            assert_eq!(transcript, "System: Be brief\nUser: I moved to Lisbon\nAssistant: Noted");
        }
        other => panic!("unexpected action {:?}", other),
    }
    match step.state {
        AddState::AwaitingFacts { options: kept } => assert_eq!(kept, options),
        other => panic!("unexpected state {:?}", other),
    }
    assert_eq!(memory.count(), 0);
}

#[test]
fn add_with_language_model_but_without_inference_stores_as_given() {
    let mut memory = inferring();
    let added = finished(memory.add(Messages::from_text("as given"), user("ann"))).unwrap();
    assert_eq!(added.results.len(), 1);
}

#[test]
fn zero_facts_end_the_call_with_no_event() {
    let mut memory = inferring();
    add_text(&mut memory, "already here", user("ann"));
    let options = AddOptions { user_id: Some("ann".to_string()), ..Default::default() };
    let step = memory.add(Messages::from_text("nothing worth keeping"), options);
    let step = memory.resume(step.state, AddEvent::Facts(Ok(vec![])));
    assert_eq!(finished(step), Ok(AddResult { results: vec![] }));
    assert_eq!(memory.count(), 1);
}

#[test]
fn failed_extraction_ends_the_call_with_its_error() {
    let mut memory = inferring();
    let options = AddOptions { user_id: Some("ann".to_string()), ..Default::default() };
    let step = memory.add(Messages::from_text("hello"), options);
    let failure = MemoryError::LLMError("the model is away".to_string());
    let step = memory.resume(step.state, AddEvent::Facts(Err(failure.clone())));
    assert_eq!(finished(step), Err(failure));
    assert_eq!(memory.count(), 0);
}

#[test]
fn facts_retrieve_related_memories_once_each() {
    let mut memory = inferring();
    let lisbon = add_text(&mut memory, "Lives in Lisbon", user("ann"));
    let tea = add_text(&mut memory, "Likes green tea", user("ann"));
    let options = AddOptions { user_id: Some("ann".to_string()), ..Default::default() };
    let step = memory.add(Messages::from_text("I moved to Porto and I like tea"), options);
    let facts = vec!["Lives in Porto".to_string(), "Likes tea".to_string()];
    let step = memory.resume(step.state, AddEvent::Facts(Ok(facts.clone())));
    match &step.action {
        AddAction::PlanActions { facts: asked } => assert_eq!(asked, &facts),
        other => panic!("unexpected action {:?}", other),
    }
    match &step.state {
        AddState::AwaitingActions { candidates, .. } => {
            // each fact finds both memories; each content is listed once
            assert_eq!(
                candidates,
                &vec![
                    Candidate {
                        temp_id: "0".to_string(),
                        memory_id: lisbon.id.clone(),
                        content: "Lives in Lisbon".to_string(),
                    },
                    Candidate {
                        temp_id: "1".to_string(),
                        memory_id: tea.id.clone(),
                        content: "Likes green tea".to_string(),
                    },
                ]
            );
        }
        other => panic!("unexpected state {:?}", other),
    }
    assert_eq!(memory.count(), 2);
}

#[test]
fn related_memories_list_each_content_once() {
    let mut memory = plain();
    let first = add_text(&mut memory, "same words", user("ann"));
    add_text(&mut memory, "same words", user("bob"));
    let other = add_text(&mut memory, "other words", user("ann"));
    let found = memory.related_memories(&vec!["same words".to_string()]).unwrap();
    assert_eq!(found.len(), 2);
    assert_eq!(found[0].temp_id, "0");
    assert_eq!(found[0].memory_id, first.id);
    assert_eq!(found[0].content, "same words");
    assert_eq!(found[1].temp_id, "1");
    assert_eq!(found[1].memory_id, other.id);
    assert!(memory.related_memories(&vec![]).unwrap().is_empty());
}

#[test]
fn related_memories_are_at_most_five_for_a_fact() {
    let mut memory = plain();
    for i in 0..8 {
        add_text(&mut memory, &format!("note number {}", i), user("ann"));
    }
    let found = memory.related_memories(&vec!["note number".to_string()]).unwrap();
    assert_eq!(found.len(), 5);
    let temp_ids: Vec<&str> = found.iter().map(|c| c.temp_id.as_str()).collect();
    assert_eq!(temp_ids, vec!["0", "1", "2", "3", "4"]);
}

#[test]
fn planned_actions_are_applied_in_turn() {
    let mut memory = inferring();
    let lisbon = add_text(&mut memory, "Lives in Lisbon", user("ann"));
    let tea = add_text(&mut memory, "Likes green tea", user("ann"));
    let options = AddOptions { user_id: Some("ann".to_string()), ..Default::default() };
    let step = memory.add(Messages::from_text("I moved to Porto, no more tea"), options);
    let facts = vec!["Lives in Porto".to_string(), "Stopped drinking tea".to_string()];
    let step = memory.resume(step.state, AddEvent::Facts(Ok(facts)));
    let actions = vec![
        action("update", Some("Lives in Porto"), Some("0")),
        action("NOOP", None, None),
        action("Delete", None, Some("1")),
        action("ADD", Some("Moved in spring"), None),
        action("MERGE", Some("ignored"), Some("0")),
    ];
    let step = memory.resume(step.state, AddEvent::Actions(Ok(actions)));
    let added = finished(step).unwrap();
    assert_eq!(added.results.len(), 3);
    assert_eq!(
        added.results[0],
        MemoryEvent {
            id: lisbon.id.clone(),
            memory: "Lives in Porto".to_string(),
            event: EventType::Update,
        }
    );
    assert_eq!(
        added.results[1],
        MemoryEvent {
            id: tea.id.clone(),
            memory: "Likes green tea".to_string(),
            event: EventType::Delete,
        }
    );
    assert_eq!(added.results[2].event, EventType::Add);
    assert_eq!(added.results[2].memory, "Moved in spring");
    assert_eq!(memory.count(), 2);
    let moved = memory.get(&lisbon.id).unwrap().unwrap();
    assert_eq!(moved.content, "Lives in Porto");
    assert_eq!(moved.user_id, Some("ann".to_string()));
    assert_eq!(memory.get(&tea.id).unwrap(), None);
    let fresh = memory.get(&added.results[2].id).unwrap().unwrap();
    assert_eq!(fresh.content, "Moved in spring");
    assert_eq!(fresh.user_id, Some("ann".to_string()));
    // the updated memory is found by its new words
    let porto = memory.search("Porto", SearchOptions::default()).unwrap();
    assert_eq!(porto.results[0].record.id, lisbon.id);
}

#[test]
fn delete_of_an_unknown_id_surfaces_not_found() {
    let mut memory = plain();
    let kept = add_text(&mut memory, "Lives in Lisbon", user("ann"));
    let candidates = memory.related_memories(&vec!["Lisbon".to_string()]).unwrap();
    let actions = vec![
        action("ADD", Some("applied before the failure"), None),
        action("DELETE", None, Some("7")),
        action("ADD", Some("never reached"), None),
    ];
    let result = memory.apply_actions(&actions, &candidates, &user("ann"));
    assert_eq!(result, Err(MemoryError::NotFound("7".to_string())));
    // what was applied before the failure stays
    assert_eq!(memory.count(), 2);
    assert!(memory.get(&kept.id).unwrap().is_some());
    let all = memory.get_all(GetAllOptions::default()).unwrap();
    assert_eq!(all[1].content, "applied before the failure");
}

#[test]
fn update_of_an_unknown_id_surfaces_not_found() {
    let mut memory = plain();
    add_text(&mut memory, "Lives in Lisbon", user("ann"));
    let actions = vec![action("UPDATE", Some("Lives in Porto"), Some("no such id"))];
    let result = memory.apply_actions(&actions, &vec![], &user("ann"));
    assert_eq!(result, Err(MemoryError::NotFound("no such id".to_string())));
    assert_eq!(memory.count(), 1);
}

#[test]
fn action_on_a_memory_that_is_gone_surfaces_not_found() {
    let mut memory = plain();
    let gone = add_text(&mut memory, "Lives in Lisbon", user("ann"));
    let candidates = memory.related_memories(&vec!["Lisbon".to_string()]).unwrap();
    memory.delete(&gone.id).unwrap();
    let actions = vec![action("DELETE", None, Some("0"))];
    let result = memory.apply_actions(&actions, &candidates, &user("ann"));
    assert_eq!(result, Err(MemoryError::NotFound(gone.id.clone())));
    let again = vec![action("UPDATE", Some("text"), Some("0"))];
    assert_eq!(
        memory.apply_actions(&again, &candidates, &user("ann")),
        Err(MemoryError::NotFound(gone.id))
    );
}

#[test]
fn actions_that_lack_what_they_need_are_passed_over() {
    let mut memory = plain();
    add_text(&mut memory, "Lives in Lisbon", user("ann"));
    let candidates = memory.related_memories(&vec!["Lisbon".to_string()]).unwrap();
    let actions = vec![
        action("ADD", None, None),
        action("UPDATE", Some("text"), None),
        action("UPDATE", None, Some("0")),
        action("DELETE", Some("text"), None),
        action("NOOP", Some("text"), Some("0")),
        action("", None, None),
        action("REPLACE", Some("text"), Some("0")),
    ];
    let result = memory.apply_actions(&actions, &candidates, &user("ann"));
    assert_eq!(result, Ok(vec![]));
    assert_eq!(memory.count(), 1);
}

#[test]
fn failed_planning_ends_the_call_with_its_error() {
    let mut memory = inferring();
    add_text(&mut memory, "Lives in Lisbon", user("ann"));
    let options = AddOptions { user_id: Some("ann".to_string()), ..Default::default() };
    let step = memory.add(Messages::from_text("hello"), options);
    let step = memory.resume(step.state, AddEvent::Facts(Ok(vec!["a fact".to_string()])));
    let failure = MemoryError::LLMError("no plan".to_string());
    let step = memory.resume(step.state, AddEvent::Actions(Err(failure.clone())));
    assert_eq!(finished(step), Err(failure));
    assert_eq!(memory.count(), 1);
}

#[test]
fn an_event_that_is_not_awaited_is_invalid() {
    let mut memory = inferring();
    let options = AddOptions { user_id: Some("ann".to_string()), ..Default::default() };
    let step = memory.add(Messages::from_text("hello"), options);
    let step = memory.resume(step.state, AddEvent::Actions(Ok(vec![action("ADD", Some("x"), None)])));
    assert_eq!(
        finished(step),
        Err(MemoryError::InvalidInput(
            "The event is not the one that the state awaits".to_string()
        ))
    );
    let step = memory.resume(AddState::Finished, AddEvent::Facts(Ok(vec!["x".to_string()])));
    assert!(matches!(finished(step), Err(MemoryError::InvalidInput(_))));
    let waiting = AddState::AwaitingActions { options: user("ann"), candidates: vec![] };
    let step = memory.resume(waiting, AddEvent::Facts(Ok(vec![])));
    assert!(matches!(finished(step), Err(MemoryError::InvalidInput(_))));
    assert_eq!(memory.count(), 0);
}

#[test]
fn add_memory_uses_the_given_stamp() {
    let mut memory = plain();
    let options = AddOptions {
        user_id: Some("ann".to_string()),
        agent_id: Some("helper".to_string()),
        metadata: Some(Value::Bool(true)),
        ..Default::default()
    };
    let event = memory.add_memory(stamp("chosen-id"), "a chosen memory", &options).unwrap();
    assert_eq!(
        event,
        MemoryEvent {
            id: "chosen-id".to_string(),
            memory: "a chosen memory".to_string(),
            event: EventType::Add,
        }
    );
    let stored = memory.get("chosen-id").unwrap().unwrap();
    assert_eq!(stored.content, "a chosen memory");
    assert_eq!(stored.created_at, Timestamp { seconds: 10, nanos: 20 });
    assert_eq!(stored.user_id, Some("ann".to_string()));
    assert_eq!(stored.agent_id, Some("helper".to_string()));
    assert_eq!(stored.run_id, None);
    assert_eq!(stored.metadata, Value::Bool(true));
}

#[test]
fn search_finds_what_was_added_and_deleted_memories_are_gone() {
    let mut memory = plain();
    let kept = add_text(&mut memory, "Delete me", user("ann"));
    let found = memory.search("Delete me", SearchOptions::default()).unwrap();
    assert_eq!(found.results.len(), 1);
    assert_eq!(found.results[0].score, 1_000_000);
    memory.delete(&kept.id).unwrap();
    let found = memory.search("Delete me", SearchOptions::default()).unwrap();
    assert!(found.results.is_empty());
}

#[test]
fn search_puts_the_related_memory_first() {
    let mut memory = plain();
    let rust = AddOptions {
        metadata: Some(Value::String("rust".to_string())),
        ..user("ann")
    };
    let python = AddOptions {
        metadata: Some(Value::String("python".to_string())),
        ..user("ann")
    };
    add_text(&mut memory, "Rust is great for systems programming", rust);
    add_text(&mut memory, "Python is often used for rapid prototyping", python);
    let options = SearchOptions { threshold: Some(0), ..Default::default() };
    let found = memory.search("systems programming", options).unwrap();
    assert!(!found.results.is_empty());
    assert_eq!(found.results[0].record.metadata, Value::String("rust".to_string()));
}

#[test]
fn search_keeps_to_the_limit() {
    let mut memory = plain();
    add_text(&mut memory, "First item", user("ann"));
    add_text(&mut memory, "Second item", user("ann"));
    add_text(&mut memory, "Third item", user("ann"));
    let one = SearchOptions { limit: Some(1), threshold: Some(0), ..Default::default() };
    assert_eq!(memory.search("item", one).unwrap().results.len(), 1);
    let two = SearchOptions { limit: Some(2), threshold: Some(0), ..Default::default() };
    assert_eq!(memory.search("item", two).unwrap().results.len(), 2);
    let none = SearchOptions { limit: Some(0), ..Default::default() };
    assert!(memory.search("item", none).unwrap().results.is_empty());
    let many = SearchOptions { limit: Some(usize::MAX), threshold: Some(-1_000_000), ..Default::default() };
    assert_eq!(memory.search("item", many).unwrap().results.len(), 3);
}

#[test]
fn search_drops_what_is_below_the_threshold() {
    let mut memory = plain();
    add_text(&mut memory, "Rust is great for systems programming", user("ann"));
    add_text(&mut memory, "cooking with garlic and butter", user("ann"));
    let strict = SearchOptions { threshold: Some(900_000), ..Default::default() };
    assert!(memory.search("systems programming", strict).unwrap().results.is_empty());
    let exact = SearchOptions { threshold: Some(1_000_000), ..Default::default() };
    let found = memory.search("Rust is great for systems programming", exact).unwrap();
    assert_eq!(found.results.len(), 1);
    let loose = SearchOptions { threshold: Some(-1_000_000), ..Default::default() };
    assert_eq!(memory.search("systems programming", loose).unwrap().results.len(), 2);
}

#[test]
fn search_stays_within_the_scope() {
    let mut memory = plain();
    add_text(&mut memory, "Ann likes tea", user("ann"));
    add_text(&mut memory, "Bob likes tea", user("bob"));
    let both = AddOptions { agent_id: Some("helper".to_string()), ..user("ann") };
    add_text(&mut memory, "Ann likes tea with the helper", both);
    let ann = SearchOptions { user_id: Some("ann".to_string()), ..Default::default() };
    let found = memory.search("likes tea", ann).unwrap();
    assert_eq!(found.results.len(), 2);
    assert!(found.results.iter().all(|m| m.record.user_id == Some("ann".to_string())));
    let helper = SearchOptions {
        user_id: Some("ann".to_string()),
        agent_id: Some("helper".to_string()),
        ..Default::default()
    };
    let found = memory.search("likes tea", helper).unwrap();
    assert_eq!(found.results.len(), 1);
    assert_eq!(found.results[0].record.content, "Ann likes tea with the helper");
    let nobody = SearchOptions { run_id: Some("r".to_string()), ..Default::default() };
    assert!(memory.search("likes tea", nobody).unwrap().results.is_empty());
}

#[test]
fn search_hands_its_filters_to_the_index() {
    let mut memory = plain();
    add_text(&mut memory, "Ann likes tea", user("ann"));
    add_text(&mut memory, "Bob likes tea", user("bob"));
    let bob = Filters {
        conditions: vec![Condition::UserId("bob".to_string())],
        logic: FilterLogic::And,
    };
    let options = SearchOptions { filters: Some(bob), ..Default::default() };
    let found = memory.search("likes tea", options).unwrap();
    assert_eq!(found.results.len(), 1);
    assert_eq!(found.results[0].record.content, "Bob likes tea");
}

#[test]
fn search_in_an_index_of_another_width_is_a_mismatch() {
    let embedder = HashEmbedder::new(&MemoryConfig { embedding_dim: 16, ..MemoryConfig::default() });
    let mut store = InMemoryStore::new();
    store.insert(
        mem0_rust::models::MemoryRecord::new("short", Value::Null),
        vec![1, 2, 3],
    );
    let memory = Memory::with_backends(MemoryConfig::default(), embedder, store);
    assert_eq!(
        memory.search("anything", SearchOptions::default()),
        Err(MemoryError::DimensionMismatch { expected: 16, actual: 3 })
    );
    assert_eq!(
        memory.related_memories(&vec!["a fact".to_string()]),
        Err(MemoryError::DimensionMismatch { expected: 16, actual: 3 })
    );
    assert_eq!(memory.related_memories(&vec![]), Ok(vec![]));
}

#[test]
fn get_returns_the_record_or_nothing() {
    let mut memory = plain();
    let event = add_text(&mut memory, "remember this", user("ann"));
    let stored = memory.get(&event.id).unwrap().unwrap();
    assert_eq!(stored.id, event.id);
    assert_eq!(stored.content, "remember this");
    assert_eq!(memory.get("no such id"), Ok(None));
}

#[test]
fn get_all_lists_within_scope_and_limit() {
    let mut memory = plain();
    add_text(&mut memory, "one", user("ann"));
    add_text(&mut memory, "two", user("bob"));
    add_text(&mut memory, "three", user("ann"));
    let all = memory.get_all(GetAllOptions::default()).unwrap();
    assert_eq!(all.iter().map(|r| r.content.as_str()).collect::<Vec<_>>(), vec!["one", "two", "three"]);
    let ann = GetAllOptions { user_id: Some("ann".to_string()), ..Default::default() };
    let hers = memory.get_all(ann).unwrap();
    assert_eq!(hers.iter().map(|r| r.content.as_str()).collect::<Vec<_>>(), vec!["one", "three"]);
    // the limit is taken before the scope
    let first_two = GetAllOptions { user_id: Some("ann".to_string()), limit: Some(2), ..Default::default() };
    let few = memory.get_all(first_two).unwrap();
    assert_eq!(few.iter().map(|r| r.content.as_str()).collect::<Vec<_>>(), vec!["one"]);
}

#[test]
fn update_rewrites_the_content_and_keeps_the_rest() {
    let mut memory = plain();
    let tagged = AddOptions { metadata: Some(Value::String("tag".to_string())), ..user("ann") };
    let event = add_text(&mut memory, "Lives in Lisbon", tagged);
    let before = memory.get(&event.id).unwrap().unwrap();
    let updated = memory.update(&event.id, "Lives in Porto").unwrap();
    assert_eq!(updated.id, event.id);
    assert_eq!(updated.content, "Lives in Porto");
    assert_eq!(updated.created_at, before.created_at);
    assert_eq!(updated.metadata, Value::String("tag".to_string()));
    assert_eq!(updated.user_id, Some("ann".to_string()));
    assert_eq!(memory.get(&event.id).unwrap().unwrap(), updated);
    let found = memory.search("Lives in Porto", SearchOptions::default()).unwrap();
    assert_eq!(found.results[0].score, 1_000_000);
    assert_eq!(memory.count(), 1);
}

#[test]
fn update_and_delete_of_an_unknown_id_fail() {
    let mut memory = plain();
    add_text(&mut memory, "Lives in Lisbon", user("ann"));
    assert_eq!(
        memory.update("missing", "text"),
        Err(MemoryError::NotFound("missing".to_string()))
    );
    assert_eq!(memory.delete("missing"), Err(MemoryError::NotFound("missing".to_string())));
    assert!(matches!(memory.remove("missing"), Err(MemoryError::NotFound(_))));
    assert_eq!(memory.count(), 1);
}

#[test]
fn remove_hands_back_what_was_stored() {
    let mut memory = plain();
    let event = add_text(&mut memory, "Lives in Lisbon", user("ann"));
    let removed = memory.remove(&event.id).unwrap();
    assert_eq!(removed.content, "Lives in Lisbon");
    assert_eq!(removed.id, event.id);
    assert_eq!(memory.count(), 0);
    assert_eq!(memory.delete(&event.id), Err(MemoryError::NotFound(event.id)));
}

#[test]
fn history_tells_what_happened_to_a_memory() {
    let mut memory = plain();
    let event = add_text(&mut memory, "Lives in Lisbon", user("ann"));
    let other = add_text(&mut memory, "Likes tea", user("ann"));
    memory.update(&event.id, "Lives in Porto").unwrap();
    memory.update(&event.id, "Lives in Faro").unwrap();
    let lines = memory.history(&event.id).unwrap();
    assert_eq!(
        lines,
        vec![
            HistoryEntry {
                memory_id: event.id.clone(),
                event: EventType::Add,
                previous: None,
                current: Some("Lives in Lisbon".to_string()),
            },
            HistoryEntry {
                memory_id: event.id.clone(),
                event: EventType::Update,
                previous: Some("Lives in Lisbon".to_string()),
                current: Some("Lives in Porto".to_string()),
            },
            HistoryEntry {
                memory_id: event.id.clone(),
                event: EventType::Update,
                previous: Some("Lives in Porto".to_string()),
                current: Some("Lives in Faro".to_string()),
            },
        ]
    );
    assert_eq!(memory.history(&other.id).unwrap().len(), 1);
    assert_eq!(
        memory.history("never seen"),
        Err(MemoryError::NotFound("never seen".to_string()))
    );
}

#[test]
fn history_of_a_deleted_memory_is_not_found() {
    let mut memory = plain();
    let event = add_text(&mut memory, "Lives in Lisbon", user("ann"));
    let other = add_text(&mut memory, "Likes tea", user("ann"));
    assert_eq!(memory.history(&event.id).unwrap().len(), 1);
    memory.delete(&event.id).unwrap();
    assert_eq!(memory.history(&event.id), Err(MemoryError::NotFound(event.id.clone())));
    // the history of the others is as it was
    assert_eq!(memory.history(&other.id).unwrap().len(), 1);
}

#[test]
fn reset_forgets_the_scope_or_everything() {
    let mut memory = plain();
    let hers = add_text(&mut memory, "one", user("ann"));
    let his = add_text(&mut memory, "two", user("bob"));
    add_text(&mut memory, "three", user("ann"));
    let ann = ResetOptions { user_id: Some("ann".to_string()), ..Default::default() };
    assert_eq!(memory.reset(ann), Ok(()));
    assert_eq!(memory.count(), 1);
    assert_eq!(memory.get(&his.id).unwrap().unwrap().content, "two");
    // what was forgotten has no history, what stays keeps its own
    assert_eq!(memory.history(&hers.id), Err(MemoryError::NotFound(hers.id.clone())));
    assert_eq!(memory.history(&his.id).unwrap().len(), 1);
    assert_eq!(memory.reset(ResetOptions::default()), Ok(()));
    assert_eq!(memory.count(), 0);
    assert_eq!(memory.history(&his.id), Err(MemoryError::NotFound(his.id.clone())));
}

#[test]
fn filter_of_a_scope_asks_for_each_named_attribute() {
    assert_eq!(filter_for(&None, &None, &None), None);
    assert_eq!(
        filter_for(&Some("u".to_string()), &None, &Some("r".to_string())),
        Some(Filters {
            conditions: vec![Condition::UserId("u".to_string()), Condition::RunId("r".to_string())],
            logic: FilterLogic::And,
        })
    );
}

#[test]
fn tags_are_read_in_any_case() {
    assert_eq!(action_kind("ADD"), ActionKind::Add);
    assert_eq!(action_kind("add"), ActionKind::Add);
    assert_eq!(action_kind("Update"), ActionKind::Update);
    assert_eq!(action_kind("dElEtE"), ActionKind::Delete);
    assert_eq!(action_kind("noop"), ActionKind::Noop);
    assert_eq!(action_kind("merge"), ActionKind::Unknown);
    assert_eq!(action_kind(""), ActionKind::Unknown);
    assert_eq!(action_kind(" ADD"), ActionKind::Unknown);
    assert_eq!(classify_tag("ADD"), ActionKind::Add);
    assert_eq!(classify_tag("add"), ActionKind::Unknown);
    assert_eq!(classify_tag("NOOP"), ActionKind::Noop);
}

#[test]
fn transcript_names_the_roles() {
    let talk = vec![Message::user("hi"), Message::assistant("hello"), Message::system("be kind")];
    assert_eq!(write_transcript(&talk), "User: hi\nAssistant: hello\nSystem: be kind");
    assert_eq!(write_transcript(&vec![Message::user("alone")]), "User: alone");
    assert_eq!(write_transcript(&vec![]), "");
    assert_eq!(spoken_texts(&talk), vec!["hi", "hello"]);
}

#[test]
fn a_text_stands_for_one_message_of_the_user() {
    let list = Messages::from_text("just this").into_messages();
    assert_eq!(list, vec![Message { role: Role::User, content: "just this".to_string() }]);
    let talk = vec![Message::system("s"), Message::user("u")];
    assert_eq!(Messages::List(talk.clone()).into_messages(), talk);
}

#[test]
fn defaults_of_the_settings() {
    let config = MemoryConfig::default();
    assert_eq!(config.embedding_dim, 128);
    assert_eq!(config.max_results, 10);
    assert_eq!(config.similarity_threshold, 200_000);
    assert_eq!(config.collection_name, "mem0");
    assert_eq!(config.llm, None);
    let options = AddOptions::default();
    assert!(options.infer);
    assert_eq!(options.user_id, None);
    assert_eq!(SearchOptions::default().limit, None);
    assert_eq!(GetAllOptions::default().limit, None);
    assert_eq!(ResetOptions::default().user_id, None);
}

#[test]
fn search_by_vector_takes_the_query_as_it_is() {
    let mut memory = plain();
    let options = user("ann");
    memory.add_memory_with(stamp("east"), "east", east(), &options);
    memory.add_memory_with(stamp("north"), "north", north(), &options);
    memory.add_memory_with(stamp("north-east"), "north-east", north_east(), &options);
    let all = SearchOptions { threshold: Some(-1_000_000), ..Default::default() };
    let found = memory.search_by_vector(&east(), all).unwrap();
    let ids: Vec<&str> = found.results.iter().map(|m| m.record.id.as_str()).collect();
    assert_eq!(ids, vec!["east", "north-east", "north"]);
    let scores: Vec<i32> = found.results.iter().map(|m| m.score).collect();
    assert_eq!(scores[0], 1_000_000);
    assert_eq!(scores[2], 0);
    // a threshold is an inclusive lower bound
    let at_least = SearchOptions { threshold: Some(scores[1]), ..Default::default() };
    assert_eq!(memory.search_by_vector(&east(), at_least).unwrap().results.len(), 2);
    let above = SearchOptions { threshold: Some(scores[1] + 1), ..Default::default() };
    assert_eq!(memory.search_by_vector(&east(), above).unwrap().results.len(), 1);
    // without a threshold, nothing below zero is returned
    let opposite: Vec<i32> = east().iter().map(|c| -c).collect();
    let found = memory.search_by_vector(&opposite, SearchOptions::default()).unwrap();
    let ids: Vec<&str> = found.results.iter().map(|m| m.record.id.as_str()).collect();
    assert_eq!(ids, vec!["north"]);
}

#[test]
fn search_by_vector_of_another_length_is_a_mismatch() {
    let mut memory = plain();
    memory.add_memory_with(stamp("east"), "east", east(), &user("ann"));
    assert_eq!(
        memory.search_by_vector(&[1, 2, 3], SearchOptions::default()),
        Err(MemoryError::DimensionMismatch { expected: 3, actual: 128 })
    );
}

#[test]
fn search_fetches_twice_the_limit_before_it_drops() {
    let mut memory = plain();
    // the two best belong to bob, the third and fourth to ann
    memory.add_memory_with(stamp("b1"), "b1", east(), &user("bob"));
    memory.add_memory_with(stamp("b2"), "b2", east(), &user("bob"));
    memory.add_memory_with(stamp("a1"), "a1", north_east(), &user("ann"));
    memory.add_memory_with(stamp("a2"), "a2", north_east(), &user("ann"));
    memory.add_memory_with(stamp("a3"), "a3", north_east(), &user("ann"));
    let one = SearchOptions {
        user_id: Some("ann".to_string()),
        limit: Some(1),
        ..Default::default()
    };
    // with a limit of one, two are fetched, and both are bob's
    assert!(memory.search_by_vector(&east(), one).unwrap().results.is_empty());
    let two = SearchOptions {
        user_id: Some("ann".to_string()),
        limit: Some(2),
        ..Default::default()
    };
    let found = memory.search_by_vector(&east(), two).unwrap();
    let ids: Vec<&str> = found.results.iter().map(|m| m.record.id.as_str()).collect();
    assert_eq!(ids, vec!["a1", "a2"]);
}

#[test]
fn update_with_takes_the_embedding_as_it_is() {
    let mut memory = plain();
    memory.add_memory_with(stamp("east"), "east", east(), &user("ann"));
    let updated = memory.update_with("east", "now north", north()).unwrap();
    assert_eq!(updated.id, "east");
    assert_eq!(updated.content, "now north");
    assert_eq!(updated.created_at, Timestamp { seconds: 10, nanos: 20 });
    let found = memory.search_by_vector(&north(), SearchOptions::default()).unwrap();
    assert_eq!(found.results[0].score, 1_000_000);
    assert_eq!(found.results[0].record.content, "now north");
    assert_eq!(
        memory.update_with("west", "text", north()),
        Err(MemoryError::NotFound("west".to_string()))
    );
    assert_eq!(memory.history("east").unwrap().len(), 2);
}

fn axis(slot: usize) -> Vec<i32> {
    let mut v = vec![0i32; 128];
    v[slot] = 1_000_000_000;
    v
}

fn east() -> Vec<i32> {
    axis(0)
}

fn north() -> Vec<i32> {
    axis(1)
}

fn north_east() -> Vec<i32> {
    let mut v = vec![0i32; 128];
    v[0] = 707_106_781;
    v[1] = 707_106_781;
    v
}
