use rust_titan::{
    ColumnFamilyOptions, DBIterator, DBOptions, Env, FixedPrefixTransform, FixedSuffixTransform,
    ReadOptions, SeekKey, WriteOptions, DB,
};

type Kv = (Vec<u8>, Vec<u8>);

fn prev_collect(iter: &mut DBIterator) -> Vec<Kv> {
    let mut buf = vec![];
    while iter.valid().unwrap() {
        let k = iter.key().to_vec();
        let v = iter.value().to_vec();
        buf.push((k, v));
        let _ = iter.prev();
    }
    buf
}

fn next_collect(iter: &mut DBIterator) -> Vec<(Vec<u8>, Vec<u8>)> {
    let mut buf = vec![];
    while iter.valid().unwrap() {
        let k = iter.key().to_vec();
        let v = iter.value().to_vec();
        buf.push((k, v));
        let _ = iter.next();
    }
    buf
}

#[test]
pub fn test_iterator() {
    let mut env = Env::new();
    let path = "_rust_rocksdb_iteratortest";

    let k1 = b"k1";
    let k2 = b"k2";
    let k3 = b"k3";
    let k4 = b"k4";
    let v1 = b"v1111";
    let v2 = b"v2222";
    let v3 = b"v3333";
    let v4 = b"v4444";
    let mut db = DB::open_default(&mut env, path).unwrap();
    let p = db.put(k1, v1);
    assert!(p.is_ok());
    let p = db.put(k2, v2);
    assert!(p.is_ok());
    let p = db.put(k3, v3);
    assert!(p.is_ok());
    let expected = vec![
        (k1.to_vec(), v1.to_vec()),
        (k2.to_vec(), v2.to_vec()),
        (k3.to_vec(), v3.to_vec()),
    ];

    let mut iter = db.iter().unwrap();

    iter.seek(SeekKey::Start).unwrap();
    assert_eq!(iter.collect(), expected);

    // Test that it's idempotent
    iter.seek(SeekKey::Start).unwrap();
    assert_eq!(iter.collect(), expected);

    // Test it in reverse a few times
    iter.seek(SeekKey::End).unwrap();
    let mut tmp_vec = prev_collect(&mut iter);
    tmp_vec.reverse();
    assert_eq!(tmp_vec, expected);

    iter.seek(SeekKey::End).unwrap();
    let mut tmp_vec = prev_collect(&mut iter);
    tmp_vec.reverse();
    assert_eq!(tmp_vec, expected);

    // Try it forward again
    iter.seek(SeekKey::Start).unwrap();
    assert_eq!(iter.collect(), expected);

    iter.seek(SeekKey::Start).unwrap();
    assert_eq!(iter.collect(), expected);

    let mut old_iterator = db.iter().unwrap();
    old_iterator.seek(SeekKey::Start).unwrap();
    let p = db.put(&*k4, &*v4);
    assert!(p.is_ok());
    let expected2 = vec![
        (k1.to_vec(), v1.to_vec()),
        (k2.to_vec(), v2.to_vec()),
        (k3.to_vec(), v3.to_vec()),
        (k4.to_vec(), v4.to_vec()),
    ];
    assert_eq!(old_iterator.collect(), expected);

    iter = db.iter().unwrap();
    iter.seek(SeekKey::Start).unwrap();
    assert_eq!(iter.collect(), expected2);

    iter.seek(SeekKey::Key(k2)).unwrap();
    let expected = vec![
        (k2.to_vec(), v2.to_vec()),
        (k3.to_vec(), v3.to_vec()),
        (k4.to_vec(), v4.to_vec()),
    ];
    assert_eq!(iter.collect(), expected);

    iter.seek(SeekKey::Key(k2)).unwrap();
    let expected = vec![(k2.to_vec(), v2.to_vec()), (k1.to_vec(), v1.to_vec())];
    assert_eq!(prev_collect(&mut iter), expected);

    assert!(iter.seek(SeekKey::Key(b"k0")).unwrap());
    assert!(iter.seek(SeekKey::Key(b"k1")).unwrap());
    assert!(iter.seek(SeekKey::Key(b"k11")).unwrap());
    assert!(!iter.seek(SeekKey::Key(b"k5")).unwrap());
    assert!(iter.seek(SeekKey::Key(b"k0")).unwrap());
    assert!(iter.seek(SeekKey::Key(b"k1")).unwrap());
    assert!(iter.seek(SeekKey::Key(b"k11")).unwrap());
    assert!(!iter.seek(SeekKey::Key(b"k5")).unwrap());

    assert!(iter.seek(SeekKey::Key(b"k4")).unwrap());
    assert!(iter.prev().unwrap());
    assert!(iter.next().unwrap());
    assert!(!iter.next().unwrap());
    // Once iterator is invalid, it can't be reverted.
    assert!(!iter.prev().unwrap());
    assert!(!iter.valid().unwrap());
}

#[test]
fn test_send_iterator() {
    let mut env = Env::new();
    let path = "_rust_rocksdb_iteratortest_send";

    let mut db = DB::open_default(&mut env, path).unwrap();
    db.put(b"k1", b"v1").unwrap();

    let opt = ReadOptions::new();
    let iter = db.iter_opt(opt).unwrap();

    let check = |mut iter: DBIterator| {
        iter.seek(SeekKey::Start).unwrap();
        assert_eq!(iter.key(), b"k1");
        assert_eq!(iter.value(), b"v1");
    };

    // The iterator outlives the handle that made it.
    db.close(&mut env).unwrap();
    check(iter);

    let mut db = DB::open_default(&mut env, path).unwrap();
    db.flush(true).unwrap();

    let snap = db.snapshot();
    let mut opt = ReadOptions::new();
    opt.set_snapshot(&snap);
    let iter = db.iter_opt(opt).unwrap();
    db.put(b"k1", b"v2").unwrap();
    db.flush(true).unwrap();

    // The iterator still holds what it pinned, so it reads the old value.
    assert!(db.release_snapshot(&snap));
    db.close(&mut env).unwrap();
    check(iter);
}

#[test]
fn test_seek_for_prev() {
    let mut env = Env::new();
    let path = "_rust_rocksdb_seek_for_prev";
    let mut opts = DBOptions::new();
    opts.create_if_missing(true);
    {
        let mut db = DB::open(&mut env, opts, path).unwrap();
        let writeopts = WriteOptions::new();
        db.put_opt(b"k1-0", b"a", &writeopts).unwrap();
        db.put_opt(b"k1-1", b"b", &writeopts).unwrap();
        db.put_opt(b"k1-3", b"d", &writeopts).unwrap();

        let mut iter = db.iter().unwrap();
        iter.seek_for_prev(SeekKey::Key(b"k1-2")).unwrap();
        assert!(iter.valid().unwrap());
        assert_eq!(iter.key(), b"k1-1");
        assert_eq!(iter.value(), b"b");

        let mut iter = db.iter().unwrap();
        iter.seek_for_prev(SeekKey::Key(b"k1-3")).unwrap();
        assert!(iter.valid().unwrap());
        assert_eq!(iter.key(), b"k1-3");
        assert_eq!(iter.value(), b"d");

        let mut iter = db.iter().unwrap();
        iter.seek_for_prev(SeekKey::Start).unwrap();
        assert!(iter.valid().unwrap());
        assert_eq!(iter.key(), b"k1-0");
        assert_eq!(iter.value(), b"a");

        let mut iter = db.iter().unwrap();
        iter.seek_for_prev(SeekKey::End).unwrap();
        assert!(iter.valid().unwrap());
        assert_eq!(iter.key(), b"k1-3");
        assert_eq!(iter.value(), b"d");

        let mut iter = db.iter().unwrap();
        iter.seek_for_prev(SeekKey::Key(b"k0-0")).unwrap();
        assert!(!iter.valid().unwrap());

        let mut iter = db.iter().unwrap();
        iter.seek_for_prev(SeekKey::Key(b"k2-0")).unwrap();
        assert!(iter.valid().unwrap());
        assert_eq!(iter.key(), b"k1-3");
        assert_eq!(iter.value(), b"d");
    }
}

#[test]
fn read_with_upper_bound() {
    let mut env = Env::new();
    let path = "_rust_rocksdb_read_with_upper_bound_test";
    let mut opts = DBOptions::new();
    opts.create_if_missing(true);
    {
        let mut db = DB::open(&mut env, opts, path).unwrap();
        let writeopts = WriteOptions::new();
        db.put_opt(b"k1-0", b"a", &writeopts).unwrap();
        db.put_opt(b"k1-1", b"b", &writeopts).unwrap();
        db.put_opt(b"k2-0", b"c", &writeopts).unwrap();

        let mut readopts = ReadOptions::new();
        let upper_bound = b"k2".to_vec();
        readopts.set_iterate_upper_bound(upper_bound);
        assert_eq!(readopts.iterate_upper_bound(), b"k2");
        let mut iter = db.iter_opt(readopts).unwrap();
        iter.seek(SeekKey::Start).unwrap();
        let vec = next_collect(&mut iter);
        assert_eq!(vec.len(), 2);
    }
}

#[test]
fn test_total_order_seek() {
    let mut env = Env::new();
    let path = "_rust_rocksdb_total_order_seek";
    let transform = FixedPrefixTransform { prefix_len: 2 };
    let mut cf_opts = ColumnFamilyOptions::new();
    let mut opts = DBOptions::new();
    opts.create_if_missing(true);
    cf_opts
        .set_prefix_extractor("FixedPrefixTransform", &transform)
        .unwrap();

    let keys = vec![
        b"k1-1", b"k1-2", b"k1-3", b"k2-1", b"k2-2", b"k2-3", b"k3-1", b"k3-2", b"k3-3",
    ];
    let mut db = DB::open_cf(&mut env, opts, path, vec![("default", cf_opts)]).unwrap();
    let wopts = WriteOptions::new();

    // sst1
    db.put_opt(b"k1-1", b"a", &wopts).unwrap();
    db.put_opt(b"k1-2", b"b", &wopts).unwrap();
    db.put_opt(b"k1-3", b"c", &wopts).unwrap();
    db.put_opt(b"k2-1", b"a", &wopts).unwrap();
    db.flush(true /* sync */).unwrap(); // flush memtable to sst file.

    // sst2
    db.put_opt(b"k2-2", b"b", &wopts).unwrap();
    db.put_opt(b"k2-3", b"c", &wopts).unwrap();
    db.flush(true /* sync */).unwrap(); // flush memtable to sst file.

    // memtable
    db.put_opt(b"k3-1", b"a", &wopts).unwrap();
    db.put_opt(b"k3-2", b"b", &wopts).unwrap();
    db.put_opt(b"k3-3", b"c", &wopts).unwrap();

    let mut ropts = ReadOptions::new();
    ropts.set_prefix_same_as_start(true);
    let mut iter = db.iter_opt(ropts).unwrap();
    // only iterate sst files and memtables that contain keys with the same prefix as b"k1"
    // and the keys is iterated as valid when prefixed as b"k1"
    iter.seek(SeekKey::Key(b"k1-0")).unwrap();
    let mut key_count = 0;
    while iter.valid().unwrap() {
        assert_eq!(keys[key_count], iter.key());
        key_count = key_count + 1;
        iter.next().unwrap();
    }
    assert!(key_count == 3);

    let mut iter = db.iter().unwrap();
    // only iterate sst files and memtables that contain keys with the same prefix as b"k1"
    // but it still can next/prev to the keys which is not prefixed as b"k1" with
    // prefix_same_as_start
    iter.seek(SeekKey::Key(b"k1-0")).unwrap();
    let mut key_count = 0;
    while iter.valid().unwrap() {
        assert_eq!(keys[key_count], iter.key());
        key_count = key_count + 1;
        iter.next().unwrap();
    }
    assert!(key_count == 4);

    let mut ropts = ReadOptions::new();
    ropts.set_total_order_seek(true);
    let mut iter = db.iter_opt(ropts).unwrap();
    iter.seek(SeekKey::Key(b"k1-0")).unwrap();
    let mut key_count = 0;
    while iter.valid().unwrap() {
        // iterator all sst files and memtables
        assert_eq!(keys[key_count], iter.key());
        key_count = key_count + 1;
        iter.next().unwrap();
    }
    assert!(key_count == 9);
}

#[test]
fn test_fixed_suffix_seek() {
    let mut env = Env::new();
    let path = "_rust_rocksdb_fixed_suffix_seek";
    let transform = FixedSuffixTransform { suffix_len: 2 };
    let mut opts = DBOptions::new();
    let mut cf_opts = ColumnFamilyOptions::new();
    opts.create_if_missing(true);
    cf_opts
        .set_prefix_extractor("FixedSuffixTransform", &transform)
        .unwrap();

    let mut db = DB::open_cf(&mut env, opts, path, vec![("default", cf_opts)]).unwrap();
    db.put(b"k-eghe-5", b"a").unwrap();
    db.put(b"k-24yfae-6", b"a").unwrap();
    db.put(b"k-h1fwd-7", b"a").unwrap();
    db.flush(true).unwrap();

    let mut iter = db.iter().unwrap();
    iter.seek(SeekKey::Key(b"k-24yfae-8")).unwrap();
    let vec = prev_collect(&mut iter);
    assert!(vec.len() == 2);

    let mut iter = db.iter().unwrap();
    iter.seek(SeekKey::Key(b"k-24yfa-9")).unwrap();
    let vec = prev_collect(&mut iter);
    assert!(vec.len() == 0);
}
