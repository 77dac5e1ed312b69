//! The on-disk format against a reference JSON implementation.

use kv::{KvStore, Segment};
use serde_json::Value;

fn active_text(files: &[Segment]) -> String {
    // the active segment carries the highest generation
    let seg = files.iter().max_by_key(|s| s.gen).unwrap();
    seg.data.iter().collect()
}

fn all_text(files: &[Segment]) -> String {
    let mut sorted: Vec<&Segment> = files.iter().collect();
    sorted.sort_by_key(|s| s.gen);
    sorted.iter().flat_map(|s| s.data.iter()).collect()
}

#[test]
fn set_writes_the_reference_json_record() {
    let mut store = KvStore::open(Vec::new()).unwrap();
    store.set("key".to_string(), "value".to_string()).unwrap();
    let files = store.into_files();
    assert_eq!(all_text(&files), "{\"Set\":{\"key\":\"key\",\"value\":\"value\"}}");
}

#[test]
fn remove_writes_the_reference_json_record() {
    let mut store = KvStore::open(Vec::new()).unwrap();
    store.set("key".to_string(), "v".to_string()).unwrap();
    store.remove("key".to_string()).unwrap();
    let files = store.into_files();
    let text = active_text(&files);
    assert!(text.ends_with("{\"Remove\":{\"key\":\"key\"}}"), "got: {}", text);
}

#[test]
fn records_parse_as_a_json_stream() {
    let mut store = KvStore::open(Vec::new()).unwrap();
    store.set("a".to_string(), "with \"quotes\" and \\slashes\\".to_string()).unwrap();
    store.set("b\n".to_string(), "bell\u{7}".to_string()).unwrap();
    store.remove("a".to_string()).unwrap();
    let files = store.into_files();
    let text = all_text(&files);
    let stream = serde_json::Deserializer::from_str(&text).into_iter::<Value>();
    let values: Vec<Value> = stream.collect::<Result<_, _>>().expect("every record is JSON");
    assert_eq!(values.len(), 3);
    assert_eq!(values[0]["Set"]["key"], Value::String("a".to_string()));
    assert_eq!(
        values[0]["Set"]["value"],
        Value::String("with \"quotes\" and \\slashes\\".to_string())
    );
    assert_eq!(values[1]["Set"]["key"], Value::String("b\n".to_string()));
    assert_eq!(values[1]["Set"]["value"], Value::String("bell\u{7}".to_string()));
    assert_eq!(values[2]["Remove"]["key"], Value::String("a".to_string()));
}
