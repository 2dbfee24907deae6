use kv_engine::codec::{checksum, decode_entry, encode_entry, Decoded};
use kv_engine::sstable::{decode_table, encode_table};
use kv_engine::table::Table;
use kv_engine::wal::{append_record, decode_log, encode_log};
use kv_engine::{CompactionTrigger, Entry, KvError, LsmEngine, LsmOptions, Sequence, StorageEngine};

fn options() -> LsmOptions {
    LsmOptions { memtable_size_threshold: 16, max_sealed: 1, compaction_trigger: CompactionTrigger::RunCount(4) }
}

fn live(key: &[u8], value: &[u8], seq: u64) -> Entry {
    Entry::live(key.to_vec(), value.to_vec(), Sequence(seq))
}

fn dead(key: &[u8], seq: u64) -> Entry {
    Entry::tombstone(key.to_vec(), Sequence(seq))
}

fn same(a: &Entry, b: &Entry) -> bool {
    a.key == b.key && a.value == b.value && a.seq == b.seq
}

fn table_of(entries: Vec<Entry>) -> Table {
    Table::from_entries(entries).unwrap()
}

fn collect(engine: &LsmEngine, start: &[u8], end: &[u8]) -> Vec<(Vec<u8>, Vec<u8>)> {
    engine.scan(start, end).unwrap().collect()
}

#[test]
fn checksum_has_exact_values() {
    assert_eq!(checksum(b"", 0, 0), 0);
    assert_eq!(checksum(&[0], 0, 1), 1);
    assert_eq!(checksum(&[0, 0], 0, 2), 32);
    assert_eq!(checksum(b"ab", 0, 2), (97 + 1) * 31 + 98 + 1);
    assert_eq!(checksum(b"xaby", 1, 3), (97 + 1) * 31 + 98 + 1);
}

#[test]
fn entry_layout_is_header_key_value() {
    let mut out = Vec::new();
    encode_entry(&live(b"ke", b"val", 0x0102), &mut out);
    let mut want = vec![1u8];
    want.extend_from_slice(&[0x02, 0x01, 0, 0, 0, 0, 0, 0]);
    want.extend_from_slice(&[2, 0, 0, 0, 0, 0, 0, 0]);
    want.extend_from_slice(&[3, 0, 0, 0, 0, 0, 0, 0]);
    want.extend_from_slice(b"ke");
    want.extend_from_slice(b"val");
    assert_eq!(out, want);
}

#[test]
fn entry_roundtrip_live_and_tombstone() {
    let mut out = vec![0xaa];
    let a = live(b"key", b"", 7);
    let b = dead(b"", u64::MAX);
    encode_entry(&a, &mut out);
    let mid = out.len();
    encode_entry(&b, &mut out);
    match decode_entry(&out, 1) {
        Decoded::Whole { entry, next } => {
            assert!(same(&entry, &a));
            assert_eq!(next, mid);
        }
        other => panic!("unexpected {:?}", other),
    }
    match decode_entry(&out, mid) {
        Decoded::Whole { entry, next } => {
            assert!(same(&entry, &b));
            assert!(entry.is_tombstone());
            assert_eq!(next, out.len());
        }
        other => panic!("unexpected {:?}", other),
    }
    assert!(matches!(decode_entry(&out, out.len()), Decoded::Short));
}

#[test]
fn entry_decoding_tells_short_from_bad() {
    let mut out = Vec::new();
    encode_entry(&live(b"key", b"value", 1), &mut out);
    for n in 0..out.len() {
        assert!(matches!(decode_entry(&out[..n], 0), Decoded::Short));
    }
    let mut bad_kind = out.clone();
    bad_kind[0] = 2;
    assert!(matches!(decode_entry(&bad_kind, 0), Decoded::Bad));
    let mut tombstone_with_value = out.clone();
    tombstone_with_value[0] = 0;
    assert!(matches!(decode_entry(&tombstone_with_value, 0), Decoded::Bad));
    let mut huge = out.clone();
    for b in &mut huge[9..17] {
        *b = 0xff;
    }
    assert!(matches!(decode_entry(&huge, 0), Decoded::Short));
}

#[test]
fn log_roundtrip() {
    let entries = vec![live(b"a", b"1", 1), dead(b"a", 2), live(b"b", b"22", 3)];
    let bytes = encode_log(&entries);
    let back = decode_log(&bytes).unwrap();
    assert_eq!(back.len(), 3);
    for (x, y) in entries.iter().zip(back.iter()) {
        assert!(same(x, y));
    }
    assert!(decode_log(b"").unwrap().is_empty());
}

#[test]
fn log_with_torn_tail_is_not_corrupt() {
    let entries = vec![live(b"a", b"1", 1), live(b"b", b"2", 2)];
    let whole = encode_log(&entries);
    let mut tail = Vec::new();
    append_record(&live(b"cc", b"333", 3), &mut tail);
    for n in 0..tail.len() {
        let mut bytes = whole.clone();
        bytes.extend_from_slice(&tail[..n]);
        let back = decode_log(&bytes).unwrap();
        assert_eq!(back.len(), 2);
        assert!(same(&back[0], &entries[0]));
        assert!(same(&back[1], &entries[1]));
    }
    let mut bytes = whole.clone();
    bytes.extend_from_slice(&tail);
    assert_eq!(decode_log(&bytes).unwrap().len(), 3);
}

#[test]
fn log_with_flipped_byte_is_corrupt() {
    let entries = vec![live(b"a", b"1", 1), live(b"b", b"2", 2)];
    let mut bytes = encode_log(&entries);
    // flip a byte of the first record's value
    bytes[26] ^= 0x40;
    assert!(matches!(decode_log(&bytes), Err(KvError::Corruption(_))));
    let mut bytes = encode_log(&entries);
    bytes[0] = 9;
    assert!(matches!(decode_log(&bytes), Err(KvError::Corruption(_))));
}

#[test]
fn table_file_roundtrip() {
    let t = table_of(vec![live(b"a", b"1", 4), dead(b"b", 9), live(b"c", b"", 2)]);
    let bytes = encode_table(&t);
    assert_eq!(&bytes[..8], &[3, 0, 0, 0, 0, 0, 0, 0]);
    let back = decode_table(&bytes).unwrap();
    assert_eq!(back.len(), 3);
    for i in 0..3 {
        assert!(same(back.entry(i), t.entry(i)));
    }
    assert_eq!(back.first_key(), Some(&b"a".to_vec()));
    assert_eq!(back.last_key(), Some(&b"c".to_vec()));
    let empty = decode_table(&encode_table(&Table::new())).unwrap();
    assert!(empty.is_empty());
    assert_eq!(empty.first_key(), None);
}

#[test]
fn table_file_rejects_damage() {
    let t = table_of(vec![live(b"a", b"1", 4), live(b"b", b"2", 5)]);
    let good = encode_table(&t);
    assert!(matches!(decode_table(b""), Err(KvError::Corruption(_))));
    for n in 0..good.len() {
        assert!(matches!(decode_table(&good[..n]), Err(KvError::Corruption(_))));
    }
    for i in 0..good.len() {
        let mut bad = good.clone();
        bad[i] ^= 1;
        assert!(matches!(decode_table(&bad), Err(KvError::Corruption(_))));
    }
    let mut longer = good.clone();
    longer.push(0);
    assert!(matches!(decode_table(&longer), Err(KvError::Corruption(_))));
}

#[test]
fn table_file_rejects_unsorted_entries() {
    // a file that is well formed but for the order of its keys
    let mut body = vec![2u8, 0, 0, 0, 0, 0, 0, 0];
    encode_entry(&live(b"b", b"2", 5), &mut body);
    encode_entry(&live(b"a", b"1", 4), &mut body);
    let c = checksum(&body, 0, body.len());
    body.extend_from_slice(&c.to_le_bytes());
    assert!(matches!(decode_table(&body), Err(KvError::Corruption(_))));
    assert!(Table::from_entries(vec![live(b"a", b"1", 1), live(b"a", b"2", 2)]).is_none());
}

#[test]
fn recover_replays_the_log_over_the_runs() {
    let newer = table_of(vec![dead(b"a", 5), live(b"c", b"new", 6)]);
    let older = table_of(vec![live(b"a", b"1", 1), live(b"b", b"2", 2), live(b"c", b"old", 3)]);
    let log = vec![live(b"d", b"4", 7), dead(b"b", 9)];
    let engine = LsmEngine::recover(options(), vec![newer, older], Sequence(6), &log).unwrap();
    assert_eq!(engine.get(b"a").unwrap(), None);
    assert_eq!(engine.get(b"b").unwrap(), None);
    assert_eq!(engine.get(b"c").unwrap(), Some(b"new".to_vec()));
    assert_eq!(engine.get(b"d").unwrap(), Some(b"4".to_vec()));
    assert_eq!(engine.last_sequence(), Sequence(9));
    assert_eq!(
        collect(&engine, b"", b"z"),
        vec![(b"c".to_vec(), b"new".to_vec()), (b"d".to_vec(), b"4".to_vec())]
    );
}

#[test]
fn recover_without_anything_is_a_fresh_engine() {
    let engine = LsmEngine::recover(options(), Vec::new(), Sequence(0), &Vec::new()).unwrap();
    assert_eq!(engine.last_sequence(), Sequence(0));
    assert!(collect(&engine, b"", b"\xff").is_empty());
}

#[test]
fn recover_rejects_what_does_not_fit() {
    let run = || table_of(vec![live(b"a", b"1", 3)]);
    // a run with a sequence above the durable one
    assert!(matches!(
        LsmEngine::recover(options(), vec![run()], Sequence(2), &Vec::new()),
        Err(KvError::Corruption(_))
    ));
    // an older run that holds a key at a higher sequence than a newer run
    let newer = table_of(vec![live(b"a", b"x", 2)]);
    assert!(matches!(
        LsmEngine::recover(options(), vec![newer, run()], Sequence(9), &Vec::new()),
        Err(KvError::Corruption(_))
    ));
    // a log whose sequences do not ascend above the durable one
    assert!(matches!(
        LsmEngine::recover(options(), vec![run()], Sequence(3), &vec![live(b"b", b"2", 3)]),
        Err(KvError::Corruption(_))
    ));
    assert!(matches!(
        LsmEngine::recover(
            options(),
            vec![run()],
            Sequence(3),
            &vec![live(b"b", b"2", 5), live(b"c", b"3", 5)]
        ),
        Err(KvError::Corruption(_))
    ));
    assert!(LsmEngine::recover(options(), vec![run()], Sequence(3), &vec![live(b"b", b"2", 4)]).is_ok());
}

#[test]
fn acknowledged_mutations_survive_a_crash() {
    // the engine as it runs: every mutation is logged before it is applied
    let mut engine = LsmEngine::new(options());
    let mut wal: Vec<u8> = Vec::new();
    let steps: Vec<(&[u8], Option<&[u8]>)> = vec![
        (b"a", Some(b"1")),
        (b"b", Some(b"2")),
        (b"a", None),
        (b"c", Some(b"3")),
        (b"b", Some(b"22")),
    ];
    for (k, v) in &steps {
        let seq = Sequence(engine.last_sequence().0 + 1);
        match v {
            Some(v) => {
                append_record(&live(k, v, seq.0), &mut wal);
                engine.put(k.to_vec(), v.to_vec()).unwrap();
            }
            None => {
                append_record(&dead(k, seq.0), &mut wal);
                engine.delete(k).unwrap();
            }
        }
    }
    let acknowledged = collect(&engine, b"", b"\xff");
    // a crash in the middle of logging one more mutation
    let mut torn = Vec::new();
    append_record(&live(b"zz", b"never acknowledged", 6), &mut torn);
    for n in 0..torn.len() {
        let mut disk = wal.clone();
        disk.extend_from_slice(&torn[..n]);
        let log = decode_log(&disk).unwrap();
        let back = LsmEngine::recover(options(), Vec::new(), Sequence(0), &log).unwrap();
        assert_eq!(collect(&back, b"", b"\xff"), acknowledged);
        assert_eq!(back.last_sequence(), engine.last_sequence());
    }
}

#[test]
fn runs_survive_a_restart_through_their_files() {
    let mut engine = LsmEngine::new(LsmOptions {
        memtable_size_threshold: 4,
        max_sealed: 0,
        compaction_trigger: CompactionTrigger::RunCount(100),
    });
    engine.put(b"a".to_vec(), b"1111".to_vec()).unwrap();
    engine.put(b"b".to_vec(), b"2222".to_vec()).unwrap();
    engine.delete(b"a-long-key").unwrap();
    engine.delete(b"a").unwrap();
    engine.flush_all();
    let files: Vec<Vec<u8>> = engine.runs().iter().map(encode_table).collect();
    let runs: Vec<Table> = files.iter().map(|f| decode_table(f).unwrap()).collect();
    let back = LsmEngine::recover(options(), runs, engine.last_sequence(), &Vec::new()).unwrap();
    assert_eq!(collect(&back, b"", b"\xff"), collect(&engine, b"", b"\xff"));
    assert_eq!(back.get(b"a").unwrap(), None);
    assert_eq!(back.get(b"b").unwrap(), Some(b"2222".to_vec()));
}
