use kv_engine::{CompactionTrigger, LsmEngine, LsmOptions, MemoryEngine, Sequence, StorageEngine};

fn small() -> LsmOptions {
    LsmOptions { memtable_size_threshold: 8, max_sealed: 2, compaction_trigger: CompactionTrigger::RunCount(3) }
}

fn collect<E: StorageEngine>(engine: &E, start: &[u8], end: &[u8]) -> Vec<(Vec<u8>, Vec<u8>)> {
    engine.scan(start, end).unwrap().collect()
}

fn key(i: u32) -> Vec<u8> {
    format!("key{:04}", i).into_bytes()
}

#[test]
fn lsm_get_of_unknown_key_is_absent() {
    let engine = LsmEngine::new(small());
    assert!(matches!(engine.get(b"missing"), Ok(None)));
}

#[test]
fn lsm_last_write_wins_across_tables() {
    let mut engine = LsmEngine::new(small());
    engine.put(b"k".to_vec(), b"old-value".to_vec()).unwrap();
    assert_eq!(engine.pending_flushes(), 1);
    engine.put(b"k".to_vec(), b"new".to_vec()).unwrap();
    assert_eq!(engine.get(b"k").unwrap(), Some(b"new".to_vec()));
    engine.flush_all();
    assert_eq!(engine.get(b"k").unwrap(), Some(b"new".to_vec()));
    engine.compact_all();
    assert_eq!(engine.get(b"k").unwrap(), Some(b"new".to_vec()));
}

#[test]
fn lsm_tombstone_shadows_older_runs() {
    let mut engine = LsmEngine::new(small());
    engine.put(b"a".to_vec(), b"11111111".to_vec()).unwrap();
    engine.flush_all();
    assert_eq!(engine.runs_len(), 1);
    engine.delete(b"a").unwrap();
    assert_eq!(engine.get(b"a").unwrap(), None);
    engine.flush_all();
    assert_eq!(engine.runs_len(), 2);
    assert_eq!(engine.get(b"a").unwrap(), None);
    assert!(collect(&engine, b"", b"z").is_empty());
}

#[test]
fn lsm_scan_after_put_put_delete() {
    let mut engine = LsmEngine::new(small());
    engine.put(b"a".to_vec(), b"1".to_vec()).unwrap();
    engine.put(b"b".to_vec(), b"2".to_vec()).unwrap();
    engine.delete(b"a").unwrap();
    assert_eq!(collect(&engine, b"", b"z"), vec![(b"b".to_vec(), b"2".to_vec())]);
}

#[test]
fn lsm_partial_compaction_keeps_tombstones() {
    let opts = LsmOptions { memtable_size_threshold: 1, max_sealed: 0, compaction_trigger: CompactionTrigger::RunCount(100) };
    let mut engine = LsmEngine::new(opts);
    engine.put(b"a".to_vec(), b"1".to_vec()).unwrap();
    engine.put(b"b".to_vec(), b"2".to_vec()).unwrap();
    engine.delete(b"a").unwrap();
    assert_eq!(engine.runs_len(), 3);
    // merge the two newest runs: the tombstone of "a" must survive, since
    // the oldest run still holds a value for "a"
    assert!(engine.compact(0, 2));
    assert_eq!(engine.runs_len(), 2);
    assert_eq!(engine.runs()[0].len(), 2);
    assert_eq!(engine.get(b"a").unwrap(), None);
    assert_eq!(collect(&engine, b"", b"z"), vec![(b"b".to_vec(), b"2".to_vec())]);
    // merging down to the oldest run drops it
    assert!(engine.compact(0, 2));
    assert_eq!(engine.runs_len(), 1);
    assert_eq!(engine.runs()[0].len(), 1);
    assert_eq!(engine.get(b"a").unwrap(), None);
    assert_eq!(engine.get(b"b").unwrap(), Some(b"2".to_vec()));
}

#[test]
fn lsm_compact_rejects_bad_ranges() {
    let opts = LsmOptions { memtable_size_threshold: 1, max_sealed: 0, compaction_trigger: CompactionTrigger::RunCount(100) };
    let mut engine = LsmEngine::new(opts);
    assert!(!engine.compact_all());
    engine.put(b"a".to_vec(), b"1".to_vec()).unwrap();
    engine.put(b"b".to_vec(), b"2".to_vec()).unwrap();
    assert!(!engine.compact(1, 1));
    assert!(!engine.compact(2, 1));
    assert!(!engine.compact(0, 3));
    assert_eq!(engine.runs_len(), 2);
    assert!(engine.compact_all());
    assert_eq!(engine.runs_len(), 1);
}

#[test]
fn lsm_backpressure_bounds_sealed_buffers() {
    let opts = LsmOptions { memtable_size_threshold: 4, max_sealed: 2, compaction_trigger: CompactionTrigger::RunCount(100) };
    let mut engine = LsmEngine::new(opts);
    for i in 0..10u32 {
        engine.put(key(i), b"v".to_vec()).unwrap();
        assert!(engine.pending_flushes() <= 2);
    }
    assert_eq!(engine.pending_flushes(), 2);
    assert_eq!(engine.runs_len(), 8);
    assert_eq!(engine.buffered_bytes(), 0);
    for i in 0..10u32 {
        assert_eq!(engine.get(&key(i)).unwrap(), Some(b"v".to_vec()));
    }
    assert!(engine.flush());
    assert!(engine.flush());
    assert!(!engine.flush());
    assert_eq!(engine.runs_len(), 10);
}

#[test]
fn lsm_buffer_counts_written_bytes() {
    let opts = LsmOptions { memtable_size_threshold: 100, max_sealed: 1, compaction_trigger: CompactionTrigger::RunCount(4) };
    let mut engine = LsmEngine::new(opts);
    engine.put(b"abc".to_vec(), b"12345".to_vec()).unwrap();
    assert_eq!(engine.buffered_bytes(), 8);
    engine.put(b"abc".to_vec(), b"1".to_vec()).unwrap();
    assert_eq!(engine.buffered_bytes(), 12);
    engine.delete(b"abc").unwrap();
    assert_eq!(engine.buffered_bytes(), 15);
    assert_eq!(engine.pending_flushes(), 0);
}

#[test]
fn lsm_needs_compaction_at_trigger() {
    let opts = LsmOptions { memtable_size_threshold: 1, max_sealed: 0, compaction_trigger: CompactionTrigger::RunCount(3) };
    let mut engine = LsmEngine::new(opts);
    engine.put(b"a".to_vec(), b"1".to_vec()).unwrap();
    engine.put(b"b".to_vec(), b"2".to_vec()).unwrap();
    assert!(!engine.needs_compaction());
    engine.put(b"c".to_vec(), b"3".to_vec()).unwrap();
    assert!(engine.needs_compaction());
    engine.compact_all();
    assert!(!engine.needs_compaction());
}

#[test]
fn lsm_agrees_with_memory_engine() {
    let mut lsm = LsmEngine::new(LsmOptions {
        memtable_size_threshold: 24,
        max_sealed: 1,
        compaction_trigger: CompactionTrigger::RunCount(3),
    });
    let mut mem = MemoryEngine::new();
    let mut x: u32 = 12345;
    for step in 0..400u32 {
        x = x.wrapping_mul(1664525).wrapping_add(1013904223);
        let k = key((x >> 16) % 40);
        if (x >> 8) % 4 == 0 {
            lsm.delete(&k).unwrap();
            mem.delete(&k).unwrap();
        } else {
            let v = format!("v{}", step).into_bytes();
            lsm.put(k.clone(), v.clone()).unwrap();
            mem.put(k, v).unwrap();
        }
        if lsm.needs_compaction() {
            if step % 2 == 0 {
                lsm.compact_all();
            } else {
                let n = lsm.runs_len();
                lsm.compact(0, n - 1);
            }
        }
        if step % 37 == 0 {
            for i in 0..40u32 {
                assert_eq!(lsm.get(&key(i)).unwrap(), mem.get(&key(i)).unwrap());
            }
            assert_eq!(collect(&lsm, b"key0010", b"key0030"), collect(&mem, b"key0010", b"key0030"));
        }
    }
    assert_eq!(collect(&lsm, b"", b"\xff"), collect(&mem, b"", b"\xff"));
    assert_eq!(lsm.last_sequence(), mem.last_sequence());
    assert_eq!(lsm.last_sequence(), Sequence(400));
}

#[test]
fn lsm_scan_is_a_snapshot() {
    let mut engine = LsmEngine::new(small());
    engine.put(b"a".to_vec(), b"1".to_vec()).unwrap();
    engine.put(b"b".to_vec(), b"2".to_vec()).unwrap();
    let mut scan = engine.scan(b"a", b"c").unwrap();
    engine.delete(b"a").unwrap();
    engine.compact_all();
    assert_eq!(scan.next(), Some((b"a".to_vec(), b"1".to_vec())));
    assert_eq!(scan.next(), Some((b"b".to_vec(), b"2".to_vec())));
    assert_eq!(scan.next(), None);
}

#[test]
fn lsm_needs_compaction_by_entry_count() {
    let opts = LsmOptions {
        memtable_size_threshold: 1,
        max_sealed: 0,
        compaction_trigger: CompactionTrigger::TotalEntries(3),
    };
    let mut engine = LsmEngine::new(opts);
    engine.put(b"a".to_vec(), b"1".to_vec()).unwrap();
    engine.put(b"a".to_vec(), b"2".to_vec()).unwrap();
    assert!(!engine.needs_compaction());
    engine.put(b"a".to_vec(), b"3".to_vec()).unwrap();
    assert!(engine.needs_compaction());
    engine.compact_all();
    assert_eq!(engine.runs_len(), 1);
    assert!(!engine.needs_compaction());
    assert_eq!(engine.get(b"a").unwrap(), Some(b"3".to_vec()));
}
