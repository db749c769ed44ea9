use std::collections::HashMap;

use kvs::common::{Command, OffSet};
use kvs::error::ErrorKind;
use kvs::kvs_store::{KvStore, COMPACT_THRESHOLD};

/// Segment bytes as the files would hold them, kept beside the store.
struct Disk {
    segments: HashMap<u64, Vec<u8>>,
    records: HashMap<(u64, u64), Command>,
}

impl Disk {
    fn new() -> Disk {
        Disk { segments: HashMap::new(), records: HashMap::new() }
    }

    fn encode(cmd: &Command) -> Vec<u8> {
        match cmd {
            Command::Put { key, value } => format!("P{}={};", key, value).into_bytes(),
            Command::Remove { key } => format!("R{};", key).into_bytes(),
            Command::Get { key } => format!("G{};", key).into_bytes(),
        }
    }

    /// A write as the engine performs it: append, flush, then apply.
    fn write(&mut self, store: &mut KvStore, cmd: Command) -> bool {
        let bytes = Disk::encode(&cmd);
        let off = store.append(&bytes).unwrap();
        assert_eq!(off.len(), bytes.len() as u64);
        let flushed = store.flush();
        assert_eq!(flushed, bytes);
        let seg = self.segments.entry(off.no()).or_default();
        assert_eq!(seg.len() as u64, off.start());
        seg.extend_from_slice(&flushed);
        self.records.insert((off.no(), off.start()), cmd.clone());
        store.apply(&cmd, off).unwrap()
    }

    fn get(&self, store: &KvStore, key: &str) -> Option<String> {
        let off = store.lookup(key)?;
        let cmd = self.records.get(&(off.no(), off.start())).unwrap().clone();
        Some(KvStore::record_value(cmd).unwrap())
    }

    /// Replays every segment of `store`, in order, as opening does.
    fn replay(&self, store: &mut KvStore) {
        let segs = store.segments().clone();
        for g in segs {
            let mut recs: Vec<(&(u64, u64), &Command)> =
                self.records.iter().filter(|(k, _)| k.0 == g).collect();
            recs.sort_by_key(|(k, _)| k.1);
            let records: Vec<(Command, OffSet)> = recs
                .into_iter()
                .map(|(&(no, start), cmd)| {
                    let len = Disk::encode(cmd).len() as u64;
                    (cmd.clone(), OffSet::new(no, start, start + len))
                })
                .collect();
            store.replay(&records).unwrap();
        }
    }

    fn reopen(&self) -> KvStore {
        let gens: Vec<u64> = self.segments.keys().cloned().collect();
        let mut store = KvStore::open(&gens).unwrap();
        self.replay(&mut store);
        store
    }

    fn size(&self) -> u64 {
        self.segments.values().map(|s| s.len() as u64).sum()
    }
}

fn put(k: &str, v: &str) -> Command {
    Command::Put { key: k.to_string(), value: v.to_string() }
}

fn rm(k: &str) -> Command {
    Command::Remove { key: k.to_string() }
}

#[test]
fn open_empty_directory_gets_nothing() {
    let store = KvStore::open(&vec![]).unwrap();
    assert_eq!(store.current_no(), 1);
    assert_eq!(store.segments(), &vec![1]);
    assert_eq!(store.lookup("a"), None);
    assert_eq!(store.wild(), 0);
}

#[test]
fn open_picks_a_fresh_segment() {
    let store = KvStore::open(&vec![3, 1, 2, 2]).unwrap();
    assert_eq!(store.current_no(), 4);
    assert_eq!(store.segments(), &vec![1, 2, 3, 4]);
}

#[test]
fn open_refuses_segment_number_overflow() {
    let r = KvStore::open(&vec![7, u64::MAX]);
    assert!(matches!(r.err().unwrap().kind, ErrorKind::TypeConversionFailed(_)));
}

#[test]
fn set_then_reopen_keeps_latest_values() {
    let mut disk = Disk::new();
    let mut store = KvStore::open(&vec![]).unwrap();
    disk.write(&mut store, put("a", "1"));
    disk.write(&mut store, put("b", "2"));
    disk.write(&mut store, put("a", "3"));
    assert_eq!(disk.get(&store, "a"), Some("3".to_string()));
    let reopened = disk.reopen();
    assert_eq!(reopened.current_no(), 2);
    assert_eq!(disk.get(&reopened, "a"), Some("3".to_string()));
    assert_eq!(disk.get(&reopened, "b"), Some("2".to_string()));
}

#[test]
fn remove_then_get_and_remove_again() {
    let mut disk = Disk::new();
    let mut store = KvStore::open(&vec![]).unwrap();
    disk.write(&mut store, put("k", "v"));
    let off = store.locate_for_remove("k").unwrap();
    assert_eq!(off, store.lookup("k").unwrap());
    disk.write(&mut store, rm("k"));
    assert_eq!(disk.get(&store, "k"), None);
    let e = store.locate_for_remove("k").unwrap_err();
    assert!(e.is_key_not_found());
    assert_eq!(e.as_string(), "key k not found");
}

#[test]
fn overwrite_counts_shadowed_bytes() {
    let mut disk = Disk::new();
    let mut store = KvStore::open(&vec![]).unwrap();
    disk.write(&mut store, put("k", "v1"));
    assert_eq!(store.wild(), 0);
    disk.write(&mut store, put("k", "v2"));
    // "Pk=v1;" is six bytes
    assert_eq!(store.wild(), 6);
    disk.write(&mut store, rm("k"));
    // the shadowed put and the tombstone "Rk;"
    assert_eq!(store.wild(), 6 + 6 + 3);
    assert_eq!(disk.get(&store, "k"), None);
}

#[test]
fn replay_counts_the_same_obsolete_bytes() {
    let mut disk = Disk::new();
    let mut store = KvStore::open(&vec![]).unwrap();
    disk.write(&mut store, put("k", "v1"));
    disk.write(&mut store, put("k", "v2"));
    disk.write(&mut store, put("j", "w"));
    disk.write(&mut store, rm("j"));
    let reopened = disk.reopen();
    assert_eq!(reopened.wild(), store.wild());
}

#[test]
fn reopen_twice_answers_the_same() {
    let mut disk = Disk::new();
    let mut store = KvStore::open(&vec![]).unwrap();
    disk.write(&mut store, put("x", "1"));
    disk.write(&mut store, put("y", "2"));
    disk.write(&mut store, rm("x"));
    let first = disk.reopen();
    let second = disk.reopen();
    for k in ["x", "y", "z"] {
        assert_eq!(disk.get(&first, k), disk.get(&second, k));
    }
    assert_eq!(disk.get(&second, "y"), Some("2".to_string()));
    assert_eq!(disk.get(&second, "x"), None);
}

#[test]
fn apply_refuses_a_get_record() {
    let mut store = KvStore::open(&vec![]).unwrap();
    let r = store.apply(&Command::Get { key: "a".to_string() }, OffSet::new(1, 0, 4));
    assert!(matches!(r.unwrap_err().kind, ErrorKind::InvalidCommand(_)));
    assert_eq!(store.lookup("a"), None);
}

#[test]
fn replay_stops_at_a_get_record() {
    let mut store = KvStore::open(&vec![1]).unwrap();
    let records = vec![
        (put("a", "1"), OffSet::new(1, 0, 5)),
        (Command::Get { key: "a".to_string() }, OffSet::new(1, 5, 9)),
        (put("b", "2"), OffSet::new(1, 9, 14)),
    ];
    let r = store.replay(&records);
    assert!(matches!(r.unwrap_err().kind, ErrorKind::InvalidCommand(_)));
    assert_eq!(store.lookup("a"), Some(OffSet::new(1, 0, 5)));
    assert_eq!(store.lookup("b"), None);
}

#[test]
fn replay_applies_records_in_order() {
    let mut store = KvStore::open(&vec![1]).unwrap();
    let records = vec![
        (put("a", "1"), OffSet::new(1, 0, 5)),
        (put("a", "2"), OffSet::new(1, 5, 10)),
        (rm("b"), OffSet::new(1, 10, 13)),
    ];
    store.replay(&records).unwrap();
    assert_eq!(store.lookup("a"), Some(OffSet::new(1, 5, 10)));
    assert_eq!(store.wild(), 5 + 3);
}

#[test]
fn apply_refuses_overlapping_records() {
    let mut store = KvStore::open(&vec![1]).unwrap();
    store.apply(&put("a", "1"), OffSet::new(1, 0, 5)).unwrap();
    // starts inside the record before it
    let r = store.apply(&put("b", "2"), OffSet::new(1, 4, 9));
    assert!(matches!(r.unwrap_err().kind, ErrorKind::InvalidCommand(_)));
    // an empty record
    let r = store.apply(&put("b", "2"), OffSet::new(1, 5, 5));
    assert!(r.is_err());
    // a segment the store does not have
    let r = store.apply(&put("b", "2"), OffSet::new(7, 0, 5));
    assert!(r.is_err());
    // past what was appended to the active segment
    let r = store.apply(&put("b", "2"), OffSet::new(2, 0, 5));
    assert!(r.is_err());
    assert_eq!(store.lookup("b"), None);
    store.apply(&put("b", "2"), OffSet::new(1, 5, 10)).unwrap();
    assert_eq!(store.lookup("b"), Some(OffSet::new(1, 5, 10)));
}

#[test]
fn append_refuses_an_empty_record() {
    let mut store = KvStore::open(&vec![]).unwrap();
    let r = store.append(&[]);
    assert!(matches!(r.unwrap_err().kind, ErrorKind::SerializerError(_)));
}

#[test]
fn record_value_of_a_non_put_is_invalid_command() {
    let r = KvStore::record_value(rm("a"));
    assert!(matches!(r.unwrap_err().kind, ErrorKind::InvalidCommand(_)));
    assert_eq!(KvStore::record_value(put("a", "b")).unwrap(), "b");
}

#[test]
fn append_places_records_back_to_back() {
    let mut store = KvStore::open(&vec![5]).unwrap();
    let a = store.append(b"abc").unwrap();
    let b = store.append(b"de").unwrap();
    assert_eq!((a.no(), a.start(), a.len()), (6, 0, 3));
    assert_eq!((b.no(), b.start(), b.len()), (6, 3, 2));
    assert_eq!(store.flush(), b"abcde".to_vec());
    assert_eq!(store.flush(), Vec::<u8>::new());
}

/// Runs a compaction the way the engine does: the plan, then the copies.
fn compact(disk: &mut Disk, store: &mut KvStore) {
    let c = store.compact().unwrap();
    let mut dest = Vec::new();
    for (from, to) in &c.moves {
        let seg = &disk.segments[&from.no()];
        let bytes = &seg[from.start() as usize..(from.start() + from.len()) as usize];
        assert_eq!(dest.len() as u64, to.start());
        dest.extend_from_slice(bytes);
        let cmd = disk.records[&(from.no(), from.start())].clone();
        disk.records.insert((to.no(), to.start()), cmd);
    }
    disk.segments.insert(c.compact_no, dest);
    disk.segments.insert(c.active_no, Vec::new());
    for g in &c.obsolete {
        disk.segments.remove(g);
        disk.records.retain(|k, _| k.0 != *g);
    }
}

#[test]
fn compaction_keeps_values_and_drops_old_segments() {
    let mut disk = Disk::new();
    let mut store = KvStore::open(&vec![]).unwrap();
    disk.write(&mut store, put("a", "1"));
    disk.write(&mut store, put("b", "2"));
    disk.write(&mut store, put("a", "3"));
    disk.write(&mut store, put("c", "4"));
    disk.write(&mut store, rm("c"));
    let before = store.current_no();
    compact(&mut disk, &mut store);
    assert_eq!(store.wild(), 0);
    assert_eq!(store.current_no(), before + 2);
    assert_eq!(store.segments(), &vec![before + 1, before + 2]);
    assert_eq!(disk.get(&store, "a"), Some("3".to_string()));
    assert_eq!(disk.get(&store, "b"), Some("2".to_string()));
    assert_eq!(disk.get(&store, "c"), None);
    // writes go on in the new active segment
    disk.write(&mut store, put("d", "5"));
    assert_eq!(store.lookup("d").unwrap().no(), before + 2);
    let reopened = disk.reopen();
    assert_eq!(disk.get(&reopened, "a"), Some("3".to_string()));
    assert_eq!(disk.get(&reopened, "d"), Some("5".to_string()));
}

#[test]
fn heavy_overwrites_trigger_compaction_and_shrink_the_log() {
    let mut disk = Disk::new();
    let mut store = KvStore::open(&vec![]).unwrap();
    let value = "v".repeat(1024);
    let mut triggered = 0;
    for round in 0..3 {
        for i in 0..10_000 {
            let v = format!("{}{}", round, value);
            if disk.write(&mut store, put(&format!("key{}", i), &v)) {
                triggered += 1;
                let before = disk.size();
                compact(&mut disk, &mut store);
                assert_eq!(store.wild(), 0);
                assert!(disk.size() * 2 <= before);
            }
        }
    }
    assert!(triggered >= 1);
    for i in 0..10_000 {
        let want = format!("2{}", value);
        assert_eq!(disk.get(&store, &format!("key{}", i)), Some(want));
    }
}

#[test]
fn should_compact_follows_the_threshold() {
    let mut store = KvStore::open(&vec![1]).unwrap();
    assert!(!store.should_compact());
    let off = OffSet::new(1, 0, COMPACT_THRESHOLD + 1);
    store.apply(&rm("gone"), off).unwrap();
    assert!(store.should_compact());
}

#[test]
fn interleaved_partitions_end_as_their_own_writes() {
    // two clients on disjoint keys, interleaved
    let mut disk = Disk::new();
    let mut store = KvStore::open(&vec![]).unwrap();
    for i in 0..50 {
        disk.write(&mut store, put(&format!("a{}", i % 5), &format!("{}", i)));
        disk.write(&mut store, put(&format!("b{}", i % 7), &format!("{}", i)));
        if i % 11 == 0 {
            disk.write(&mut store, rm(&format!("a{}", i % 5)));
        }
    }
    let mut alone = Disk::new();
    let mut only_a = KvStore::open(&vec![]).unwrap();
    for i in 0..50 {
        alone.write(&mut only_a, put(&format!("a{}", i % 5), &format!("{}", i)));
        if i % 11 == 0 {
            alone.write(&mut only_a, rm(&format!("a{}", i % 5)));
        }
    }
    for j in 0..5 {
        let k = format!("a{}", j);
        assert_eq!(disk.get(&store, &k), alone.get(&only_a, &k));
    }
}

#[test]
fn offset_accessors() {
    let o = OffSet::new(7, 10, 25);
    assert_eq!(o.no(), 7);
    assert_eq!(o.start(), 10);
    assert_eq!(o.len(), 15);
}

#[test]
fn compaction_refuses_segment_number_overflow() {
    let mut store = KvStore::open(&vec![u64::MAX - 2]).unwrap();
    assert_eq!(store.current_no(), u64::MAX - 1);
    let r = store.compact();
    assert!(matches!(r.err().unwrap().kind, ErrorKind::TypeConversionFailed(_)));
    assert_eq!(store.current_no(), u64::MAX - 1);
}

#[test]
fn compaction_packs_moves_from_offset_zero() {
    let mut disk = Disk::new();
    let mut store = KvStore::open(&vec![]).unwrap();
    disk.write(&mut store, put("a", "1"));
    disk.write(&mut store, put("bb", "22"));
    let c = store.compact().unwrap();
    assert_eq!((c.compact_no, c.active_no), (2, 3));
    assert_eq!(c.obsolete, vec![1]);
    let mut next = 0;
    for (from, to) in &c.moves {
        assert_eq!(to.no(), 2);
        assert_eq!(to.start(), next);
        assert_eq!(to.len(), from.len());
        next += to.len();
    }
    assert_eq!(c.moves.len(), 2);
    assert_eq!(next, 5 + 7);
}

#[test]
fn abandon_forgets_an_uncommitted_append() {
    let mut store = KvStore::open(&vec![]).unwrap();
    let a = store.append(b"abc").unwrap();
    store.flush();
    store.apply(&put("a", "1"), a).unwrap();
    let b = store.append(b"defg").unwrap();
    store.flush();
    // the write of b failed: forget it
    store.abandon(b).unwrap();
    let c = store.append(b"hi").unwrap();
    assert_eq!((c.no(), c.start(), c.len()), (1, 3, 2));
    store.apply(&put("c", "2"), c).unwrap();
    assert_eq!(store.lookup("c"), Some(c));
    // only the last append can be abandoned
    assert!(store.abandon(a).is_err());
    assert!(store.abandon(c).is_err());
}

#[test]
fn replay_keeps_other_segments_open_to_replay() {
    let mut store = KvStore::open(&vec![1, 2]).unwrap();
    store.replay(&vec![(put("a", "1"), OffSet::new(2, 0, 5))]).unwrap();
    // an earlier segment can still be replayed from offset 0
    store.replay(&vec![(put("b", "2"), OffSet::new(1, 0, 5))]).unwrap();
    assert_eq!(store.lookup("a"), Some(OffSet::new(2, 0, 5)));
    assert_eq!(store.lookup("b"), Some(OffSet::new(1, 0, 5)));
}
