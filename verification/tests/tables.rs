use kv_engine::memtable::MemTable;
use kv_engine::merge::merge;
use kv_engine::mutation::{apply_to, replay_into, Mutation};
use kv_engine::table::Table;
use kv_engine::{Entry, MemoryEngine, Scan, Sequence, StorageEngine};

fn live(key: &[u8], value: &[u8], seq: u64) -> Entry {
    Entry::live(key.to_vec(), value.to_vec(), Sequence(seq))
}

fn dead(key: &[u8], seq: u64) -> Entry {
    Entry::tombstone(key.to_vec(), Sequence(seq))
}

fn summary(t: &Table) -> Vec<(Vec<u8>, Option<Vec<u8>>, u64)> {
    (0..t.len()).map(|i| (t.entry(i).key.clone(), t.entry(i).value.clone(), t.entry(i).seq.0)).collect()
}

fn row(key: &[u8], value: Option<&[u8]>, seq: u64) -> (Vec<u8>, Option<Vec<u8>>, u64) {
    (key.to_vec(), value.map(|v| v.to_vec()), seq)
}

#[test]
fn table_keeps_entries_sorted_and_unique() {
    let mut t = Table::new();
    assert!(t.is_empty());
    for (k, s) in [(&b"m"[..], 1u64), (b"a", 2), (b"z", 3), (b"m", 4), (b"ab", 5)] {
        t.upsert(live(k, b"v", s));
    }
    assert!(t.is_sorted());
    assert_eq!(
        summary(&t),
        vec![
            row(b"a", Some(b"v"), 2),
            row(b"ab", Some(b"v"), 5),
            row(b"m", Some(b"v"), 4),
            row(b"z", Some(b"v"), 3)
        ]
    );
    assert_eq!(t.first_key(), Some(&b"a".to_vec()));
    assert_eq!(t.last_key(), Some(&b"z".to_vec()));
}

#[test]
fn table_lower_bound_and_find() {
    let t = Table::from_entries(vec![live(b"b", b"1", 1), live(b"d", b"2", 2), live(b"f", b"3", 3)]).unwrap();
    assert_eq!(t.lower_bound(b""), 0);
    assert_eq!(t.lower_bound(b"b"), 0);
    assert_eq!(t.lower_bound(b"c"), 1);
    assert_eq!(t.lower_bound(b"d"), 1);
    assert_eq!(t.lower_bound(b"f"), 2);
    assert_eq!(t.lower_bound(b"g"), 3);
    assert_eq!(t.find(b"d").map(|e| e.seq), Some(Sequence(2)));
    assert!(t.find(b"c").is_none());
    assert!(t.find(b"").is_none());
}

#[test]
fn table_remove_and_range() {
    let mut t = Table::new();
    for k in [&b"a"[..], b"b", b"c", b"d"] {
        t.upsert(live(k, k, 1));
    }
    assert!(t.remove(b"x").is_none());
    assert_eq!(t.remove(b"b").map(|e| e.key), Some(b"b".to_vec()));
    assert_eq!(t.len(), 3);
    let part = t.range(b"a", b"d");
    assert_eq!(summary(&part), vec![row(b"a", Some(b"a"), 1), row(b"c", Some(b"c"), 1)]);
    assert!(t.range(b"d", b"a").is_empty());
    assert!(t.range(b"b", b"c").is_empty());
    assert_eq!(t.range(b"", b"\xff").len(), 3);
}

#[test]
fn table_push_last_and_without_tombstones() {
    let mut t = Table::new();
    t.push_last(live(b"a", b"1", 1));
    t.push_last(dead(b"b", 2));
    t.push_last(live(b"c", b"", 3));
    let purged = t.without_tombstones();
    assert_eq!(summary(&purged), vec![row(b"a", Some(b"1"), 1), row(b"c", Some(b""), 3)]);
    assert_eq!(t.into_entries().len(), 3);
}

#[test]
fn table_checks_for_recovery() {
    let newer = Table::from_entries(vec![live(b"a", b"2", 5), live(b"c", b"2", 6)]).unwrap();
    let older = Table::from_entries(vec![live(b"a", b"1", 1), live(b"b", b"1", 9)]).unwrap();
    assert!(newer.is_newer_than(&older));
    assert!(!older.is_newer_than(&newer));
    assert!(newer.sequences_at_most(Sequence(6)));
    assert!(!newer.sequences_at_most(Sequence(5)));
    assert!(Table::new().sequences_at_most(Sequence(0)));
}

#[test]
fn merge_takes_the_highest_sequence() {
    let newest = Table::from_entries(vec![dead(b"b", 9), live(b"d", b"new", 8)]).unwrap();
    let middle = Table::from_entries(vec![live(b"a", b"mid", 5), live(b"d", b"mid", 6)]).unwrap();
    let oldest = Table::from_entries(vec![
        live(b"a", b"old", 1),
        live(b"b", b"old", 2),
        live(b"c", b"old", 3),
    ])
    .unwrap();
    let out = merge(&vec![newest, middle, oldest]);
    assert_eq!(
        summary(&out),
        vec![
            row(b"a", Some(b"mid"), 5),
            row(b"b", None, 9),
            row(b"c", Some(b"old"), 3),
            row(b"d", Some(b"new"), 8)
        ]
    );
    assert!(merge(&Vec::new()).is_empty());
}

#[test]
fn merge_goes_by_sequence_and_breaks_ties_by_position() {
    let front = Table::from_entries(vec![live(b"k", b"front", 4), live(b"t", b"front", 7)]).unwrap();
    let back = Table::from_entries(vec![live(b"k", b"back", 6), live(b"t", b"back", 7)]).unwrap();
    let out = merge(&vec![front, back]);
    assert_eq!(summary(&out), vec![row(b"k", Some(b"back"), 6), row(b"t", Some(b"front"), 7)]);
}

#[test]
fn memtable_counts_what_was_written() {
    let mut m = MemTable::new();
    m.put(b"key".to_vec(), b"value".to_vec(), Sequence(1));
    assert_eq!(m.approximate_size(), 8);
    m.delete(b"key", Sequence(2));
    assert_eq!(m.approximate_size(), 11);
    m.record(live(b"k2", b"v", 3));
    assert_eq!(m.approximate_size(), 14);
    assert_eq!(m.len(), 2);
    assert!(m.is_full(14));
    assert!(!m.is_full(15));
    assert!(m.find(b"key").unwrap().is_tombstone());
    assert_eq!(m.range(b"k", b"k3").len(), 1);
    let sealed = m.seal();
    assert_eq!(summary(&sealed), vec![row(b"k2", Some(b"v"), 3), row(b"key", None, 2)]);
}

#[test]
fn scan_over_a_table_skips_tombstones() {
    let t = Table::from_entries(vec![live(b"a", b"1", 1), dead(b"b", 2), live(b"c", b"3", 3)]).unwrap();
    let mut scan = Scan::over(t);
    assert_eq!(scan.remaining(), 2);
    assert_eq!(scan.next(), Some((b"a".to_vec(), b"1".to_vec())));
    assert_eq!(scan.collect(), vec![(b"c".to_vec(), b"3".to_vec())]);
    assert_eq!(Scan::empty().next(), None);
}

#[test]
fn replay_applies_mutations_in_order() {
    let mut engine = MemoryEngine::new();
    let log = vec![
        Mutation::Put { key: b"a".to_vec(), value: b"1".to_vec() },
        Mutation::Put { key: b"b".to_vec(), value: b"2".to_vec() },
        Mutation::Delete { key: b"a".to_vec() },
        Mutation::Put { key: b"b".to_vec(), value: b"3".to_vec() },
    ];
    let (applied, outcome) = replay_into(&mut engine, log);
    assert_eq!(applied, 4);
    assert!(outcome.is_ok());
    assert_eq!(engine.get(b"a").unwrap(), None);
    assert_eq!(engine.get(b"b").unwrap(), Some(b"3".to_vec()));
    assert_eq!(engine.last_sequence(), Sequence(4));
    assert!(apply_to(&mut engine, Mutation::Delete { key: b"b".to_vec() }).is_ok());
    assert!(engine.is_empty());
}

#[test]
fn sequences_step_by_one() {
    assert_eq!(Sequence::zero(), Sequence(0));
    assert_eq!(Sequence(41).next(), Sequence(42));
    assert!(Sequence(2).is_newer_than(Sequence(1)));
    assert!(!Sequence(2).is_newer_than(Sequence(2)));
}
