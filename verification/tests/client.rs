use mem0_rust::config::MemoryConfig;
use mem0_rust::memory::MemoryClient;
use serde_json::{Number, Value};

fn object(key: &str, value: Value) -> Value {
    let mut map = serde_json::Map::new();
    map.insert(key.to_string(), value);
    Value::Object(map)
}

#[test]
fn add_and_search_memory() {
    let mut client = MemoryClient::default();
    client.add(
        "Rust is great for systems programming",
        object("topic", Value::String("rust".to_string())),
    );
    client.add(
        "Python is often used for rapid prototyping",
        object("topic", Value::String("python".to_string())),
    );

    let results = client
        .search("systems programming")
        .expect("search to succeed");

    assert!(!results.is_empty());
    assert_eq!(results[0].record.metadata["topic"], "rust");
}

#[test]
fn delete_memory() {
    let mut client = MemoryClient::default();
    let memory = client.add("Delete me", object("id", Value::Number(Number::from(1))));
    assert!(client.delete(&memory.id.to_string()).is_ok());
    assert!(client.search("Delete me").unwrap().is_empty());
}

#[test]
fn configurable_limits() {
    let config = MemoryConfig {
        embedding_dim: 64,
        max_results: 1,
        similarity_threshold: 0,
        collection_name: "mem0".to_string(),
        llm: None,
    };
    let mut client = MemoryClient::new(config);
    client.add("First item", object("order", Value::Number(Number::from(1))));
    client.add("Second item", object("order", Value::Number(Number::from(2))));

    let results = client.search("item").expect("search to work");
    assert_eq!(results.len(), 1);
}
