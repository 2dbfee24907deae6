use std::sync::{Arc, RwLock};

use kv_engine::{CompactionTrigger, LsmEngine, LsmOptions, MemoryEngine, StorageEngine};

// Writers take the lock one at a time, so two racing puts apply in one of two
// orders. Either order must leave one whole value that every later read sees.
fn settle<E: StorageEngine>(engine: E, first: &[u8], second: &[u8]) -> Vec<u8> {
    let shared = Arc::new(RwLock::new(engine));
    for value in [first, second] {
        let writer = Arc::clone(&shared);
        assert!(writer.write().unwrap().put(b"k".to_vec(), value.to_vec()).is_ok());
    }
    let seen = shared.read().unwrap().get(b"k").unwrap().unwrap();
    for _ in 0..8 {
        let reader = Arc::clone(&shared);
        assert_eq!(reader.read().unwrap().get(b"k").unwrap(), Some(seen.clone()));
    }
    seen
}

fn lsm() -> LsmEngine {
    LsmEngine::new(LsmOptions {
        memtable_size_threshold: 1,
        max_sealed: 1,
        compaction_trigger: CompactionTrigger::RunCount(2),
    })
}

#[test]
fn racing_puts_leave_one_whole_value() {
    assert_eq!(settle(MemoryEngine::new(), b"x", b"y"), b"y".to_vec());
    assert_eq!(settle(MemoryEngine::new(), b"y", b"x"), b"x".to_vec());
}

#[test]
fn racing_puts_leave_one_whole_value_in_the_lsm_engine() {
    assert_eq!(settle(lsm(), b"x", b"y"), b"y".to_vec());
    assert_eq!(settle(lsm(), b"y", b"x"), b"x".to_vec());
}

#[test]
fn engines_and_scans_may_be_shared_across_threads() {
    fn shareable<T: Send + Sync + 'static>() {}
    shareable::<MemoryEngine>();
    shareable::<LsmEngine>();
    shareable::<kv_engine::Engine>();
    shareable::<kv_engine::Scan>();
}
