use rust_titan::{
    ColumnFamilyOptions, CompactOptions, CompactionFilter, CompactionFilterDecision,
    CompactionFilterValueType, DBBottommostLevelCompaction, DBOptions, Env, ReadOptions, SeekKey,
    DB,
};
use std::sync::mpsc::{self, SyncSender};

struct TestCompactionFilter(SyncSender<(Vec<u8>, Vec<u8>, u64)>);

impl CompactionFilter for TestCompactionFilter {
    fn featured_filter(
        &mut self,
        _: usize,
        key: &[u8],
        seqno: u64,
        value: &[u8],
        _: CompactionFilterValueType,
    ) -> CompactionFilterDecision {
        self.0.send((key.to_vec(), value.to_vec(), seqno)).unwrap();
        CompactionFilterDecision::Keep
    }
}

#[test]
fn test_iter_sequence_number() {
    let (tx, rx) = mpsc::sync_channel(8);
    let filter = TestCompactionFilter(tx);

    let mut env = Env::new();
    let path = "_rust_rocksdb_sequence_number";
    let mut opts = DBOptions::new();
    opts.create_if_missing(true);
    let mut cf_opts = ColumnFamilyOptions::new();
    cf_opts.set_disable_auto_compactions(true);
    cf_opts.set_num_levels(7);
    cf_opts.set_compaction_filter("test", filter).unwrap();
    let mut db = DB::open_cf(&mut env, opts, path, vec![("default", cf_opts)]).unwrap();

    db.put(b"key1", b"value11").unwrap();
    db.flush(false).unwrap();
    db.put(b"key1", b"value22").unwrap();
    db.flush(false).unwrap();
    db.put(b"key2", b"value21").unwrap();
    db.flush(false).unwrap();
    db.put(b"key2", b"value22").unwrap();

    let mut iter = db.iter().unwrap();
    assert!(iter.seek(SeekKey::Key(b"key1")).unwrap());
    assert_eq!(iter.key(), b"key1");
    assert_eq!(iter.value(), b"value22");
    assert_eq!(iter.sequence().unwrap(), 2);

    assert!(iter.next().unwrap());
    assert_eq!(iter.key(), b"key2");
    assert_eq!(iter.value(), b"value22");
    assert_eq!(iter.sequence().unwrap(), 4);

    let mut compact_opts = CompactOptions::new();
    compact_opts.set_bottommost_level_compaction(DBBottommostLevelCompaction::Force);
    compact_opts.set_target_level(6);
    let cf_default = db.cf_handle("default").unwrap();
    db.compact_range_cf_opt(
        cf_default,
        &compact_opts,
        Some(b"a" as &[u8]),
        Some(b"z" as &[u8]),
    )
    .unwrap();

    let (k, v, seqno) = rx.recv().unwrap();
    assert_eq!(k, b"key1");
    assert_eq!(v, b"value22");
    assert_eq!(seqno, 2);

    let (k, v, seqno) = rx.recv().unwrap();
    assert_eq!(k, b"key2");
    assert_eq!(v, b"value22");
    assert_eq!(seqno, 4);

    // The filter was shown each surviving key once, and nothing else.
    assert!(rx.try_recv().is_err());
}

struct Rewriter;

impl CompactionFilter for Rewriter {
    fn featured_filter(
        &mut self,
        _: usize,
        key: &[u8],
        _: u64,
        _: &[u8],
        _: CompactionFilterValueType,
    ) -> CompactionFilterDecision {
        if key == b"gone" {
            CompactionFilterDecision::Remove
        } else if key == b"changed" {
            CompactionFilterDecision::ChangeValue(b"new".to_vec())
        } else {
            CompactionFilterDecision::Keep
        }
    }
}

#[test]
fn compaction_does_what_the_filter_decides() {
    let mut env = Env::new();
    let mut opts = DBOptions::new();
    opts.create_if_missing(true);
    let mut cf_opts = ColumnFamilyOptions::new();
    cf_opts.set_compaction_filter("rewriter", Rewriter).unwrap();
    let mut db = DB::open_cf(&mut env, opts, "decisions", vec![("default", cf_opts)]).unwrap();
    db.put(b"changed", b"old").unwrap();
    db.put(b"gone", b"x").unwrap();
    db.put(b"kept", b"y").unwrap();

    let report = db.compact_range(None, None).unwrap();
    assert_eq!(report.offered.len(), 3);
    assert_eq!(
        report.decisions,
        vec![
            CompactionFilterDecision::ChangeValue(b"new".to_vec()),
            CompactionFilterDecision::Remove,
            CompactionFilterDecision::Keep,
        ]
    );
    assert_eq!(db.get(b"changed").unwrap(), Some(b"new".to_vec()));
    assert_eq!(db.get(b"gone").unwrap(), None);
    assert_eq!(db.get(b"kept").unwrap(), Some(b"y".to_vec()));
}

#[test]
fn compaction_keeps_what_a_snapshot_sees() {
    let mut env = Env::new();
    let mut opts = DBOptions::new();
    opts.create_if_missing(true);
    let mut cf_opts = ColumnFamilyOptions::new();
    cf_opts.set_compaction_filter("rewriter", Rewriter).unwrap();
    let mut db = DB::open_cf(&mut env, opts, "pinned", vec![("default", cf_opts)]).unwrap();
    db.put(b"gone", b"v1").unwrap();
    db.put(b"k", b"old").unwrap();
    let snap = db.snapshot();
    db.put(b"k", b"new").unwrap();
    db.delete(b"gone").unwrap();

    let report = db.compact_range(None, None).unwrap();
    // "k" at its newest version is shown; "gone" is deleted, so it is not.
    assert_eq!(report.offered.len(), 1);
    assert_eq!(report.offered[0].key, b"k".to_vec());
    assert_eq!(report.offered[0].sequence, 3);

    let mut through = ReadOptions::new();
    through.set_snapshot(&snap);
    let cf = db.cf_handle("default").unwrap();
    assert_eq!(db.get_cf_opt(cf, b"k", &through).unwrap(), Some(b"old".to_vec()));
    assert_eq!(db.get_cf_opt(cf, b"gone", &through).unwrap(), Some(b"v1".to_vec()));
    assert_eq!(db.get(b"k").unwrap(), Some(b"new".to_vec()));
    assert_eq!(db.get(b"gone").unwrap(), None);

    // Once the snapshot is released the old versions go.
    assert!(db.release_snapshot(&snap));
    db.compact_range(None, None).unwrap();
    assert_eq!(db.get_cf_opt(cf, b"k", &through).unwrap(), None);
    assert_eq!(db.get(b"k").unwrap(), Some(b"new".to_vec()));
}

#[test]
fn compaction_to_a_level_that_does_not_exist_is_refused() {
    let mut env = Env::new();
    let mut db = DB::open_default(&mut env, "levels").unwrap();
    db.put(b"k", b"v").unwrap();
    let mut compact_opts = CompactOptions::new();
    compact_opts.set_target_level(7);
    let cf = db.cf_handle("default").unwrap();
    assert!(db.compact_range_cf_opt(cf, &compact_opts, None, None).is_err());
    compact_opts.set_target_level(6);
    assert!(db.compact_range_cf_opt(cf, &compact_opts, None, None).is_ok());
}
