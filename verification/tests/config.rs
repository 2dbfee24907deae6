use kv_engine::manifest::{decode_manifest, encode_manifest, Manifest};
use kv_engine::{
    BackingMode, CompactionTrigger, Engine, EngineConfig, KvError, Sequence, StorageEngine,
};

fn config(mode: BackingMode, dir: Option<&str>) -> EngineConfig {
    EngineConfig {
        mode,
        data_directory: dir.map(|d| d.to_string()),
        memtable_size_threshold: 8,
        max_sealed: 1,
        compaction_trigger: CompactionTrigger::RunCount(2),
    }
}

#[test]
fn config_selects_the_engine() {
    let mem = Engine::open(&config(BackingMode::InMemory, None)).unwrap();
    assert!(matches!(mem, Engine::Memory(_)));
    let lsm = Engine::open(&config(BackingMode::OnDisk, Some("/var/lib/kv"))).unwrap();
    assert!(matches!(lsm, Engine::Lsm(_)));
}

#[test]
fn on_disk_needs_a_directory() {
    assert!(!config(BackingMode::OnDisk, None).is_valid());
    assert!(Engine::open(&config(BackingMode::OnDisk, None)).is_none());
    assert!(config(BackingMode::InMemory, Some("ignored")).is_valid());
    let opts = config(BackingMode::OnDisk, Some("d")).lsm_options();
    assert_eq!(opts.memtable_size_threshold, 8);
    assert_eq!(opts.max_sealed, 1);
    assert_eq!(opts.compaction_trigger, CompactionTrigger::RunCount(2));
}

#[test]
fn callers_are_engine_agnostic() {
    for cfg in [config(BackingMode::InMemory, None), config(BackingMode::OnDisk, Some("d"))] {
        let mut engine = Engine::open(&cfg).unwrap();
        engine.put(b"a".to_vec(), b"1".to_vec()).unwrap();
        engine.put(b"b".to_vec(), b"2".to_vec()).unwrap();
        engine.delete(b"a").unwrap();
        assert_eq!(engine.get(b"a").unwrap(), None);
        assert_eq!(engine.get(b"b").unwrap(), Some(b"2".to_vec()));
        assert_eq!(
            engine.scan(b"", b"z").unwrap().collect(),
            vec![(b"b".to_vec(), b"2".to_vec())]
        );
        assert_eq!(engine.last_sequence(), Sequence(3));
    }
}

#[test]
fn manifest_roundtrip() {
    let m = Manifest { durable: Sequence(77), files: vec![9, 4, 0x0102030405060708] };
    let bytes = encode_manifest(&m);
    assert_eq!(bytes.len(), 16 + 3 * 8 + 4);
    assert_eq!(&bytes[..8], &[77, 0, 0, 0, 0, 0, 0, 0]);
    assert_eq!(&bytes[8..16], &[3, 0, 0, 0, 0, 0, 0, 0]);
    assert_eq!(&bytes[32..40], &[8, 7, 6, 5, 4, 3, 2, 1]);
    let back = decode_manifest(&bytes).unwrap();
    assert_eq!(back.durable, Sequence(77));
    assert_eq!(back.files, m.files);
    let empty = Manifest { durable: Sequence(0), files: Vec::new() };
    let back = decode_manifest(&encode_manifest(&empty)).unwrap();
    assert!(back.files.is_empty());
}

#[test]
fn manifest_rejects_damage() {
    let m = Manifest { durable: Sequence(5), files: vec![1, 2] };
    let good = encode_manifest(&m);
    for n in 0..good.len() {
        assert!(matches!(decode_manifest(&good[..n]), Err(KvError::Corruption(_))));
    }
    for i in 0..good.len() {
        let mut bad = good.clone();
        bad[i] ^= 0x10;
        assert!(matches!(decode_manifest(&bad), Err(KvError::Corruption(_))));
    }
    let mut longer = good.clone();
    longer.push(0);
    assert!(matches!(decode_manifest(&longer), Err(KvError::Corruption(_))));
}
