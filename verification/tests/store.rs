use kv::{KvError, KvStore, Segment};

fn open_empty() -> KvStore {
    KvStore::open(Vec::new()).expect("an empty directory opens")
}

fn chars(s: &str) -> Vec<char> {
    s.chars().collect()
}

#[test]
fn basic_round_trip() {
    let mut store = open_empty();
    store.set("a".to_string(), "1".to_string()).unwrap();
    assert_eq!(store.get("a".to_string()).unwrap(), Some("1".to_string()));
    store.set("a".to_string(), "2".to_string()).unwrap();
    assert_eq!(store.get("a".to_string()).unwrap(), Some("2".to_string()));
    store.remove("a".to_string()).unwrap();
    assert_eq!(store.get("a".to_string()).unwrap(), None);
    assert_eq!(store.remove("a".to_string()), Err(KvError::KeyNotFound));
}

#[test]
fn get_missing_is_not_an_error() {
    let mut store = open_empty();
    assert_eq!(store.get("absent".to_string()).unwrap(), None);
}

#[test]
fn persistence_across_reopen() {
    let mut store = open_empty();
    store.set("k".to_string(), "v".to_string()).unwrap();
    let files = store.into_files();
    let mut store = KvStore::open(files).unwrap();
    assert_eq!(store.get("k".to_string()).unwrap(), Some("v".to_string()));
}

#[test]
fn overwrite_survives_restart() {
    let mut store = open_empty();
    store.set("k".to_string(), "1".to_string()).unwrap();
    store.set("k".to_string(), "2".to_string()).unwrap();
    let files = store.into_files();
    let mut store = KvStore::open(files).unwrap();
    assert_eq!(store.get("k".to_string()).unwrap(), Some("2".to_string()));
}

#[test]
fn remove_survives_restart() {
    let mut store = open_empty();
    store.set("k".to_string(), "v".to_string()).unwrap();
    store.remove("k".to_string()).unwrap();
    let files = store.into_files();
    let mut store = KvStore::open(files).unwrap();
    assert_eq!(store.get("k".to_string()).unwrap(), None);
    assert_eq!(store.remove("k".to_string()), Err(KvError::KeyNotFound));
}

#[test]
fn compaction_triggers_and_reclaims() {
    let mut store = open_empty();
    let value: String = std::iter::repeat('x').take(200).collect();
    for _ in 1..=10000 {
        store.set("key0".to_string(), value.clone()).unwrap();
    }
    let disk: usize = store.segments().iter().map(|s| s.data.len()).sum();
    assert!(disk < 3 * kv::COMPACTION_THRESHOLD as usize / 2);
    assert_eq!(store.get("key0".to_string()).unwrap(), Some(value));
}

#[test]
fn compaction_preserves_many_live_keys() {
    let mut store = open_empty();
    let filler: String = std::iter::repeat('y').take(300).collect();
    for i in 0..3500u32 {
        store.set(format!("key{}", i), format!("{}-{}", filler, i)).unwrap();
    }
    // enough was written to cross the threshold at least once
    let disk: usize = store.segments().iter().map(|s| s.data.len()).sum();
    assert!(disk < 2 * kv::COMPACTION_THRESHOLD as usize);
    // a key whose record was rewritten by compaction still reads back
    assert_eq!(
        store.get("key0".to_string()).unwrap(),
        Some(format!("{}-0", filler))
    );
    store.remove("key1".to_string()).unwrap();
    assert_eq!(store.get("key1".to_string()).unwrap(), None);
    let files = store.into_files();
    let mut store = KvStore::open(files).unwrap();
    for i in (0..3500u32).step_by(293) {
        let got = store.get(format!("key{}", i)).unwrap();
        assert_eq!(got, Some(format!("{}-{}", filler, i)));
    }
    assert_eq!(store.get("key1".to_string()).unwrap(), None);
}

#[test]
fn many_keys_with_interleaved_removes() {
    let mut store = open_empty();
    for i in 0..1000u32 {
        store.set(format!("k{}", i), format!("v{}", i)).unwrap();
    }
    for i in (0..1000u32).step_by(2) {
        store.remove(format!("k{}", i)).unwrap();
    }
    let files = store.into_files();
    let mut store = KvStore::open(files).unwrap();
    for i in 0..1000u32 {
        let got = store.get(format!("k{}", i)).unwrap();
        if i % 2 == 0 {
            assert_eq!(got, None);
        } else {
            assert_eq!(got, Some(format!("v{}", i)));
        }
    }
}

#[test]
fn values_with_escapes_round_trip() {
    let cases = [
        ("quote", "a \"quoted\" value"),
        ("backslash", "C:\\path\\to\\file"),
        ("newline", "line one\nline two\ttabbed"),
        ("control", "bell\u{7}escape\u{1b}null\u{0}"),
        ("unicode", "\u{1F600} caf\u{e9} \u{4e2d}\u{6587}"),
        ("{\"Set\":{", "}}\"tricky\\key"),
    ];
    let mut store = open_empty();
    for (k, v) in cases.iter() {
        store.set(k.to_string(), v.to_string()).unwrap();
    }
    for (k, v) in cases.iter() {
        assert_eq!(store.get(k.to_string()).unwrap(), Some(v.to_string()));
    }
    let files = store.into_files();
    let mut store = KvStore::open(files).unwrap();
    for (k, v) in cases.iter() {
        assert_eq!(store.get(k.to_string()).unwrap(), Some(v.to_string()));
    }
}

#[test]
fn open_rejects_malformed_segment() {
    let files = vec![Segment { gen: 1, data: chars("this is not a record") }];
    assert!(matches!(KvStore::open(files), Err(KvError::Serde)));
}

#[test]
fn open_rejects_truncated_record() {
    let files = vec![Segment { gen: 1, data: chars("{\"Set\":{\"key\":\"a\",\"value\":\"1\"") }];
    assert!(matches!(KvStore::open(files), Err(KvError::Serde)));
}

#[test]
fn open_rejects_tombstone_for_absent_key() {
    let files = vec![Segment { gen: 1, data: chars("{\"Remove\":{\"key\":\"ghost\"}}") }];
    assert!(matches!(KvStore::open(files), Err(KvError::Serde)));
}

#[test]
fn open_rejects_exhausted_generation() {
    let files = vec![Segment { gen: u64::MAX, data: Vec::new() }];
    assert!(matches!(KvStore::open(files), Err(KvError::Io)));
}

#[test]
fn set_fails_only_when_generations_run_out() {
    // opening above this file leaves the store one generation short of the
    // two a compaction needs
    let files = vec![Segment { gen: u64::MAX - 2, data: Vec::new() }];
    let mut store = KvStore::open(files).unwrap();
    // a small write stays below the compaction threshold and succeeds
    store.set("small".to_string(), "v".to_string()).unwrap();
    assert_eq!(store.get("small".to_string()).unwrap(), Some("v".to_string()));
    // a write crossing the threshold would compact, and there is no room
    let big: String = std::iter::repeat('x').take(kv::COMPACTION_THRESHOLD as usize).collect();
    assert_eq!(store.set("big".to_string(), big), Err(KvError::Io));
    // the failed write left the store untouched
    assert_eq!(store.get("big".to_string()).unwrap(), None);
    assert_eq!(store.get("small".to_string()).unwrap(), Some("v".to_string()));
}

#[test]
fn open_empty_creates_one_fresh_segment() {
    let store = open_empty();
    let files = store.into_files();
    assert_eq!(files.len(), 1);
    assert_eq!(files[0].gen, 1);
    assert!(files[0].data.is_empty());
}

#[test]
fn set_appends_to_the_active_segment_only() {
    let old_record = "{\"Set\":{\"key\":\"a\",\"value\":\"old\"}}";
    let files = vec![Segment { gen: 3, data: chars(old_record) }];
    let mut store = KvStore::open(files).unwrap();
    store.set("b".to_string(), "1".to_string()).unwrap();
    store.set("c".to_string(), "2".to_string()).unwrap();
    let files = store.into_files();
    assert_eq!(files.len(), 2);
    assert_eq!(files[0].gen, 3);
    assert_eq!(files[0].data.iter().collect::<String>(), old_record);
    assert_eq!(files[1].gen, 4);
    assert_eq!(
        files[1].data.iter().collect::<String>(),
        "{\"Set\":{\"key\":\"b\",\"value\":\"1\"}}{\"Set\":{\"key\":\"c\",\"value\":\"2\"}}"
    );
}

#[test]
fn compaction_leaves_two_fresh_segments() {
    let mut store = open_empty();
    let big: String = std::iter::repeat('z').take(kv::COMPACTION_THRESHOLD as usize).collect();
    store.set("k".to_string(), big).unwrap();
    let files = store.into_files();
    // the active segment was generation 1; compaction rewrote the live
    // record into generation 2 and opened generation 3 as the new active
    assert_eq!(files.len(), 2);
    assert_eq!(files[0].gen, 2);
    assert_eq!(files[1].gen, 3);
    assert!(files[1].data.is_empty());
    assert!(files[0].data.len() > kv::COMPACTION_THRESHOLD as usize);
}

#[test]
fn open_replays_existing_segments_in_generation_order() {
    // later generations supersede earlier ones, whatever order they are given in
    let files = vec![
        Segment { gen: 5, data: chars("{\"Set\":{\"key\":\"a\",\"value\":\"new\"}}") },
        Segment { gen: 2, data: chars("{\"Set\":{\"key\":\"a\",\"value\":\"old\"}}{\"Set\":{\"key\":\"b\",\"value\":\"kept\"}}") },
    ];
    let mut store = KvStore::open(files).unwrap();
    assert_eq!(store.get("a".to_string()).unwrap(), Some("new".to_string()));
    assert_eq!(store.get("b".to_string()).unwrap(), Some("kept".to_string()));
}

#[test]
fn generations_stay_distinct_and_grow_across_opens() {
    let mut store = open_empty();
    store.set("k".to_string(), "v".to_string()).unwrap();
    let files = store.into_files();
    let gens1: Vec<u64> = files.iter().map(|s| s.gen).collect();
    let max1 = *gens1.iter().max().unwrap();
    let store = KvStore::open(files).unwrap();
    let files = store.into_files();
    let gens2: Vec<u64> = files.iter().map(|s| s.gen).collect();
    let max2 = *gens2.iter().max().unwrap();
    assert!(max2 > max1);
    let mut sorted = gens2.clone();
    sorted.sort_unstable();
    sorted.dedup();
    assert_eq!(sorted.len(), gens2.len(), "no two segments share a generation");
}

#[test]
fn log_path_names_segments_by_generation() {
    assert_eq!(kv::log_path(0), "0.log");
    assert_eq!(kv::log_path(7), "7.log");
    assert_eq!(kv::log_path(1048576), "1048576.log");
    assert_eq!(kv::log_path(u64::MAX), "18446744073709551615.log");
}

#[test]
fn parse_log_name_reads_back_what_log_path_writes() {
    for gen in [0u64, 1, 9, 10, 4096, 1048575, u64::MAX - 1, u64::MAX] {
        assert_eq!(kv::parse_log_name(&kv::log_path(gen)), Some(gen));
    }
    assert_eq!(kv::parse_log_name(&"17.log".to_string()), Some(17));
    assert_eq!(kv::parse_log_name(&"17.txt".to_string()), None);
    assert_eq!(kv::parse_log_name(&".log".to_string()), None);
    assert_eq!(kv::parse_log_name(&"07.log".to_string()), None);
    assert_eq!(kv::parse_log_name(&"1a.log".to_string()), None);
    assert_eq!(kv::parse_log_name(&"".to_string()), None);
    // one above u64::MAX
    assert_eq!(kv::parse_log_name(&"18446744073709551616.log".to_string()), None);
    assert_eq!(kv::parse_log_name(&"111111111111111111111.log".to_string()), None);
}

#[test]
fn threshold_is_one_mebibyte() {
    assert_eq!(kv::COMPACTION_THRESHOLD, 1048576);
}
