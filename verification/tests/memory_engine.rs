use kv_engine::{KvError, MemoryEngine, Sequence, StorageEngine};

fn collect(engine: &MemoryEngine, start: &[u8], end: &[u8]) -> Vec<(Vec<u8>, Vec<u8>)> {
    engine.scan(start, end).unwrap().collect()
}

#[test]
fn get_of_unknown_key_is_absent() {
    let engine = MemoryEngine::new();
    assert!(matches!(engine.get(b"missing"), Ok(None)));
    assert!(matches!(engine.get(b""), Ok(None)));
    assert!(engine.is_empty());
}

#[test]
fn last_write_wins() {
    let mut engine = MemoryEngine::new();
    engine.put(b"k".to_vec(), b"v1".to_vec()).unwrap();
    engine.put(b"k".to_vec(), b"v2".to_vec()).unwrap();
    assert_eq!(engine.get(b"k").unwrap(), Some(b"v2".to_vec()));
    assert_eq!(engine.len(), 1);
}

#[test]
fn delete_then_get_is_absent() {
    let mut engine = MemoryEngine::new();
    engine.put(b"k".to_vec(), b"v".to_vec()).unwrap();
    engine.delete(b"k").unwrap();
    assert_eq!(engine.get(b"k").unwrap(), None);
    assert!(engine.is_empty());
}

#[test]
fn delete_of_absent_key_succeeds() {
    let mut engine = MemoryEngine::new();
    engine.put(b"a".to_vec(), b"1".to_vec()).unwrap();
    assert!(engine.delete(b"zzz").is_ok());
    assert_eq!(engine.get(b"a").unwrap(), Some(b"1".to_vec()));
    assert_eq!(engine.len(), 1);
}

#[test]
fn scan_after_put_put_delete() {
    let mut engine = MemoryEngine::new();
    engine.put(b"a".to_vec(), b"1".to_vec()).unwrap();
    engine.put(b"b".to_vec(), b"2".to_vec()).unwrap();
    engine.delete(b"a").unwrap();
    assert_eq!(collect(&engine, b"", b"z"), vec![(b"b".to_vec(), b"2".to_vec())]);
}

#[test]
fn scan_is_sorted_and_half_open() {
    let mut engine = MemoryEngine::new();
    for k in [&b"d"[..], b"b", b"e", b"a", b"c", b"bb"] {
        engine.put(k.to_vec(), k.to_vec()).unwrap();
    }
    let got = collect(&engine, b"b", b"d");
    let keys: Vec<Vec<u8>> = got.iter().map(|p| p.0.clone()).collect();
    assert_eq!(keys, vec![b"b".to_vec(), b"bb".to_vec(), b"c".to_vec()]);
}

#[test]
fn scan_of_empty_interval_is_empty() {
    let mut engine = MemoryEngine::new();
    engine.put(b"m".to_vec(), b"1".to_vec()).unwrap();
    assert!(collect(&engine, b"z", b"a").is_empty());
    assert!(collect(&engine, b"m", b"m").is_empty());
}

#[test]
fn scan_is_a_snapshot() {
    let mut engine = MemoryEngine::new();
    engine.put(b"a".to_vec(), b"1".to_vec()).unwrap();
    engine.put(b"b".to_vec(), b"2".to_vec()).unwrap();
    let mut scan = engine.scan(b"", b"z").unwrap();
    engine.delete(b"b").unwrap();
    engine.put(b"a".to_vec(), b"9".to_vec()).unwrap();
    assert_eq!(scan.remaining(), 2);
    assert_eq!(scan.next(), Some((b"a".to_vec(), b"1".to_vec())));
    assert_eq!(scan.next(), Some((b"b".to_vec(), b"2".to_vec())));
    assert_eq!(scan.next(), None);
    assert_eq!(scan.next(), None);
}

#[test]
fn repeated_mutations_are_idempotent_for_readers() {
    let mut once = MemoryEngine::new();
    let mut twice = MemoryEngine::new();
    once.put(b"k".to_vec(), b"v".to_vec()).unwrap();
    twice.put(b"k".to_vec(), b"v".to_vec()).unwrap();
    twice.put(b"k".to_vec(), b"v".to_vec()).unwrap();
    assert_eq!(once.get(b"k").unwrap(), twice.get(b"k").unwrap());
    assert_eq!(collect(&once, b"", b"\xff"), collect(&twice, b"", b"\xff"));
    once.delete(b"k").unwrap();
    twice.delete(b"k").unwrap();
    twice.delete(b"k").unwrap();
    assert_eq!(once.get(b"k").unwrap(), twice.get(b"k").unwrap());
    assert_eq!(collect(&once, b"", b"\xff"), collect(&twice, b"", b"\xff"));
}

#[test]
fn every_mutation_takes_the_next_sequence() {
    let mut engine = MemoryEngine::new();
    assert_eq!(engine.last_sequence(), Sequence(0));
    engine.put(b"a".to_vec(), b"1".to_vec()).unwrap();
    assert_eq!(engine.last_sequence(), Sequence(1));
    assert_eq!(engine.version_of(b"a"), Some(Sequence(1)));
    engine.delete(b"nothing").unwrap();
    assert_eq!(engine.last_sequence(), Sequence(2));
    engine.put(b"a".to_vec(), b"2".to_vec()).unwrap();
    assert_eq!(engine.version_of(b"a"), Some(Sequence(3)));
    assert_eq!(engine.version_of(b"b"), None);
}

#[test]
fn empty_key_and_empty_value_are_ordinary() {
    let mut engine = MemoryEngine::new();
    engine.put(Vec::new(), Vec::new()).unwrap();
    assert_eq!(engine.get(b"").unwrap(), Some(Vec::new()));
    assert_eq!(collect(&engine, b"", b"\x00"), vec![(Vec::new(), Vec::new())]);
}

#[test]
fn io_errors_convert_and_are_retryable() {
    let e: KvError = std::io::Error::new(std::io::ErrorKind::Other, "device gone").into();
    assert!(matches!(e, KvError::Io(_)));
    assert!(e.is_retryable());
    assert!(!KvError::Corruption("bad checksum".to_string()).is_retryable());
    assert!(!KvError::NotFound.is_retryable());
}
