use rust_titan::{
    key_order, AppendOperator, ColumnFamilyOptions, DBOptions, Env, Error, FamilyData,
    FamilyIdentity, FixedPrefixTransform, KeyOrder, MergeOperands, MergeOperator, ReadOptions,
    SeekKey, SliceTransform, Store, Version, WriteKind, DB,
};

fn creating() -> DBOptions {
    let mut opts = DBOptions::new();
    opts.create_if_missing(true);
    opts
}

#[test]
fn keys_are_ordered_byte_by_byte() {
    assert_eq!(key_order(b"", b""), KeyOrder::Equal);
    assert_eq!(key_order(b"", b"a"), KeyOrder::Less);
    assert_eq!(key_order(b"a", b""), KeyOrder::Greater);
    assert_eq!(key_order(b"k1", b"k11"), KeyOrder::Less);
    assert_eq!(key_order(b"k2", b"k11"), KeyOrder::Greater);
    assert_eq!(key_order(b"k-24yfa-9", b"k-24yfae-6"), KeyOrder::Less);
    assert_eq!(key_order(&[0xff], &[0x00, 0xff]), KeyOrder::Greater);
    assert_eq!(key_order(b"same", b"same"), KeyOrder::Equal);
}

#[test]
fn forward_and_reverse_scans_agree() {
    let mut env = Env::new();
    let mut db = DB::open_default(&mut env, "scan").unwrap();
    // Put in no particular order.
    for k in [b"m", b"a", b"z", b"c", b"q"] {
        db.put(k, k).unwrap();
    }
    let mut iter = db.iter().unwrap();
    assert!(!iter.valid().unwrap());
    iter.seek(SeekKey::Start).unwrap();
    let forward: Vec<Vec<u8>> = iter.collect().into_iter().map(|kv| kv.0).collect();
    assert_eq!(
        forward,
        vec![b"a".to_vec(), b"c".to_vec(), b"m".to_vec(), b"q".to_vec(), b"z".to_vec()]
    );
    iter.seek(SeekKey::End).unwrap();
    let mut backward = vec![];
    while iter.valid().unwrap() {
        backward.push(iter.key().to_vec());
        iter.prev().unwrap();
    }
    backward.reverse();
    assert_eq!(backward, forward);
    // An iterator that ran off the view stays invalid until it is sought.
    assert!(!iter.next().unwrap());
    assert!(!iter.prev().unwrap());
    assert_eq!(iter.sequence(), None);
    assert_eq!(iter.kv(), None);
    assert!(iter.seek(SeekKey::Key(b"b")).unwrap());
    assert_eq!(iter.key(), b"c");
    assert_eq!(iter.kv(), Some((b"c".to_vec(), b"c".to_vec())));
}

#[test]
fn an_empty_column_family_has_no_valid_position() {
    let mut env = Env::new();
    let db = DB::open_default(&mut env, "empty").unwrap();
    let mut iter = db.iter().unwrap();
    assert!(!iter.seek(SeekKey::Start).unwrap());
    assert!(!iter.seek(SeekKey::End).unwrap());
    assert!(!iter.seek(SeekKey::Key(b"k")).unwrap());
    assert!(!iter.seek_for_prev(SeekKey::Key(b"k")).unwrap());
    assert!(iter.collect().is_empty());
}

#[test]
fn deleted_keys_are_not_visited() {
    let mut env = Env::new();
    let mut db = DB::open_default(&mut env, "deleted").unwrap();
    db.put(b"a", b"1").unwrap();
    db.put(b"b", b"2").unwrap();
    db.put(b"c", b"3").unwrap();
    db.delete(b"b").unwrap();
    assert_eq!(db.get(b"b").unwrap(), None);
    let mut iter = db.iter().unwrap();
    iter.seek(SeekKey::Start).unwrap();
    assert_eq!(
        iter.collect(),
        vec![(b"a".to_vec(), b"1".to_vec()), (b"c".to_vec(), b"3".to_vec())]
    );
    assert!(iter.seek(SeekKey::Key(b"b")).unwrap());
    assert_eq!(iter.key(), b"c");
    assert!(iter.seek_for_prev(SeekKey::Key(b"b")).unwrap());
    assert_eq!(iter.key(), b"a");
}

#[test]
fn a_snapshot_sees_the_writes_before_it_and_none_after() {
    let mut env = Env::new();
    let mut db = DB::open_default(&mut env, "snapshots").unwrap();
    db.put(b"k", b"v1").unwrap();
    db.put(b"gone", b"x").unwrap();
    let snap = db.snapshot();
    assert_eq!(snap.sequence(), 2);
    db.put(b"k", b"v2").unwrap();
    db.delete(b"gone").unwrap();
    db.put(b"late", b"y").unwrap();
    assert_eq!(db.latest_sequence_number(), 5);

    let cf = db.cf_handle("default").unwrap();
    let mut through = ReadOptions::new();
    through.set_snapshot(&snap);
    assert_eq!(db.get_cf_opt(cf, b"k", &through).unwrap(), Some(b"v1".to_vec()));
    assert_eq!(db.get_cf_opt(cf, b"gone", &through).unwrap(), Some(b"x".to_vec()));
    assert_eq!(db.get_cf_opt(cf, b"late", &through).unwrap(), None);
    assert_eq!(db.get(b"k").unwrap(), Some(b"v2".to_vec()));
    assert_eq!(db.get_opt(b"k", &through).unwrap(), Some(b"v1".to_vec()));
    assert_eq!(db.get_opt(b"k", &ReadOptions::new()).unwrap(), Some(b"v2".to_vec()));

    let mut iter = db.iter_opt(through.duplicate()).unwrap();
    iter.seek(SeekKey::Start).unwrap();
    assert_eq!(iter.sequence(), Some(2));
    assert_eq!(
        iter.collect(),
        vec![(b"gone".to_vec(), b"x".to_vec()), (b"k".to_vec(), b"v1".to_vec())]
    );

    assert!(db.release_snapshot(&snap));
    assert!(!db.release_snapshot(&snap));
}

#[test]
fn merge_operands_are_folded_into_the_value() {
    let operator = AppendOperator;
    let mut env = Env::new();
    let mut cf_opts = ColumnFamilyOptions::new();
    cf_opts.add_merge_operator("append", &operator);
    let mut db = DB::open_cf(&mut env, creating(), "merge", vec![("default", cf_opts)]).unwrap();
    db.put(b"k1", b"a").unwrap();
    db.merge(b"k1", b"b").unwrap();
    db.merge(b"k1", b"c").unwrap();
    db.merge(b"k1", b"d").unwrap();
    db.merge(b"k1", b"efg").unwrap();
    db.merge(b"k1", b"h").unwrap();
    assert_eq!(db.get(b"k1").unwrap(), Some(b"abcdefgh".to_vec()));
    // Operands without a value below them.
    db.merge(b"k2", b"x").unwrap();
    db.merge(b"k2", b"y").unwrap();
    assert_eq!(db.get(b"k2").unwrap(), Some(b"xy".to_vec()));
    // A delete cuts the operands off from what was below.
    db.delete(b"k1").unwrap();
    db.merge(b"k1", b"z").unwrap();
    assert_eq!(db.get(b"k1").unwrap(), Some(b"z".to_vec()));

    let mut iter = db.iter().unwrap();
    iter.seek(SeekKey::Start).unwrap();
    assert_eq!(iter.sequence(), Some(10));
    assert_eq!(
        iter.collect(),
        vec![(b"k1".to_vec(), b"z".to_vec()), (b"k2".to_vec(), b"xy".to_vec())]
    );

    // A flush and a compaction change nothing of what is read.
    db.flush(true).unwrap();
    db.compact_range(None, None).unwrap();
    assert_eq!(db.get(b"k1").unwrap(), Some(b"z".to_vec()));
    assert_eq!(db.get(b"k2").unwrap(), Some(b"xy".to_vec()));
    assert!(db.delete(b"k1").is_ok());
    assert!(db.get(b"k1").unwrap().is_none());
}

#[test]
fn the_append_operator_reads_its_operands_once() {
    let operator = AppendOperator;
    let mut operands = MergeOperands::new(vec![b"b".to_vec(), b"cd".to_vec()]);
    assert_eq!(operands.size_hint(), 2);
    let merged = operator.merge(b"k", Some(b"a"), &mut operands);
    assert_eq!(merged, b"abcd".to_vec());
    assert_eq!(operands.size_hint(), 0);
    assert_eq!(operands.next(), None);
    // What was taken does not come again.
    assert_eq!(operator.merge(b"k", None, &mut operands), Vec::<u8>::new());

    // Merging in two steps gives what merging at once gives.
    let mut older = MergeOperands::new(vec![b"b".to_vec()]);
    let first = operator.merge(b"k", Some(b"a"), &mut older);
    let mut newer = MergeOperands::new(vec![b"cd".to_vec()]);
    assert_eq!(operator.merge(b"k", Some(&first), &mut newer), merged);
}

#[test]
fn a_merge_without_an_operator_is_refused() {
    let mut env = Env::new();
    let mut db = DB::open_default(&mut env, "no_operator").unwrap();
    assert_eq!(db.merge(b"k", b"v"), Err(Error::InvalidArgument));
    assert_eq!(db.latest_sequence_number(), 0);
}

#[test]
fn prefix_extractors_name_their_domain() {
    let prefix = FixedPrefixTransform { prefix_len: 2 };
    assert!(prefix.in_domain(b"k1-1"));
    assert!(prefix.in_domain(b"k1"));
    assert!(!prefix.in_domain(b"k"));
    assert_eq!(prefix.transform(b"k1-1"), b"k1");
    let suffix = rust_titan::FixedSuffixTransform { suffix_len: 2 };
    assert!(!suffix.in_domain(b"k"));
    assert_eq!(suffix.transform(b"k-24yfae-6"), b"k-24yfae");
    assert_eq!(suffix.transform(b"-6"), b"");
}

#[test]
fn a_seek_key_outside_the_domain_is_sought_in_total_order() {
    let transform = FixedPrefixTransform { prefix_len: 2 };
    let mut env = Env::new();
    let mut cf_opts = ColumnFamilyOptions::new();
    cf_opts.set_prefix_extractor("fixed", &transform).unwrap();
    let mut db = DB::open_cf(&mut env, creating(), "domain", vec![("default", cf_opts)]).unwrap();
    db.put(b"k1-1", b"a").unwrap();
    db.flush(true).unwrap();
    db.put(b"k2-1", b"b").unwrap();

    let mut ropts = ReadOptions::new();
    ropts.set_prefix_same_as_start(true);
    let mut iter = db.iter_opt(ropts).unwrap();
    // "k" is too short for the extractor: no bucket, every run is read.
    assert!(iter.seek(SeekKey::Key(b"k")).unwrap());
    assert_eq!(iter.collect().len(), 2);
    // A bucket that no run holds.
    assert!(!iter.seek(SeekKey::Key(b"k0-0")).unwrap());
    // The cursor may not leave the bucket, in either direction.
    assert!(iter.seek(SeekKey::Key(b"k2-0")).unwrap());
    assert_eq!(iter.key(), b"k2-1");
    assert!(!iter.prev().unwrap());
    // Start and end name no key, so they name no bucket.
    assert!(iter.seek(SeekKey::End).unwrap());
    assert_eq!(iter.key(), b"k2-1");
    assert!(iter.prev().unwrap());
    assert_eq!(iter.key(), b"k1-1");
}

#[test]
fn the_upper_bound_cuts_every_seek() {
    let mut env = Env::new();
    let mut db = DB::open_default(&mut env, "bound").unwrap();
    db.put(b"k1-0", b"a").unwrap();
    db.put(b"k1-1", b"b").unwrap();
    db.put(b"k2-0", b"c").unwrap();
    let mut readopts = ReadOptions::new();
    assert_eq!(readopts.iterate_upper_bound(), b"");
    readopts.set_iterate_upper_bound(b"k2".to_vec());
    let mut iter = db.iter_opt(readopts).unwrap();
    assert!(iter.seek(SeekKey::End).unwrap());
    assert_eq!(iter.key(), b"k1-1");
    assert!(!iter.next().unwrap());
    assert!(!iter.seek(SeekKey::Key(b"k2-0")).unwrap());
    assert!(iter.seek_for_prev(SeekKey::Key(b"k9")).unwrap());
    assert_eq!(iter.key(), b"k1-1");
}

#[test]
fn column_families_are_kept_apart() {
    let mut env = Env::new();
    let mut db = DB::open_default(&mut env, "families").unwrap();
    let cf1 = db.create_cf("cf1").unwrap();
    assert_eq!(db.cf_handle("cf1"), Some(cf1));
    assert_eq!(db.cf_handle("cf2"), None);
    assert_eq!(db.create_cf("cf1"), Err(Error::InvalidArgument));
    db.put(b"k", b"default").unwrap();
    db.put_cf(cf1, b"k", b"one").unwrap();
    assert_eq!(db.get(b"k").unwrap(), Some(b"default".to_vec()));
    assert_eq!(db.get_cf(cf1, b"k").unwrap(), Some(b"one".to_vec()));
    db.delete_cf(cf1, b"k").unwrap();
    assert_eq!(db.get_cf(cf1, b"k").unwrap(), None);
    assert_eq!(db.get(b"k").unwrap(), Some(b"default".to_vec()));

    // An iterator made before the drop keeps what it pinned.
    db.put_cf(cf1, b"p", b"pinned").unwrap();
    let mut iter = db.iter_cf(cf1).unwrap();
    assert_eq!(db.drop_cf("cf1"), Ok(()));
    assert_eq!(db.cf_names(), vec!["default"]);
    assert!(iter.seek(SeekKey::Start).unwrap());
    assert_eq!(iter.value(), b"pinned");
    // The handle names nothing from then on.
    assert_eq!(db.put_cf(cf1, b"k", b"v"), Err(Error::InvalidArgument));
    assert_eq!(db.get_cf(cf1, b"k"), Err(Error::InvalidArgument));
    assert!(db.iter_cf(cf1).is_err());
    assert_eq!(db.drop_cf("cf1"), Err(Error::InvalidArgument));
    assert_eq!(db.drop_cf("default"), Err(Error::InvalidArgument));
    // A family of the same name is another family.
    let again = db.create_cf("cf1").unwrap();
    assert_ne!(again, cf1);
    assert_eq!(db.get_cf(again, b"p").unwrap(), None);
}

#[test]
fn an_open_that_is_refused_says_why() {
    let mut env = Env::new();
    // No database, and none to be made.
    assert_eq!(DB::open(&mut env, DBOptions::new(), "why").err(), Some(Error::InvalidArgument));
    assert!(env.is_db_locked("why").is_err());
    // A list without entries, and a list that names a family twice.
    assert_eq!(DB::open_cf(&mut env, creating(), "why", vec![]).err(), Some(Error::InvalidArgument));
    let twice = vec![("a", ColumnFamilyOptions::new()), ("a", ColumnFamilyOptions::new())];
    assert_eq!(DB::open_cf(&mut env, creating(), "why", twice).err(), Some(Error::InvalidArgument));
    let mut no_level = ColumnFamilyOptions::new();
    no_level.set_num_levels(0);
    assert_eq!(
        DB::open_cf(&mut env, creating(), "why", vec![("default", no_level)]).err(),
        Some(Error::InvalidArgument)
    );
    assert!(env.is_db_locked("why").is_err());

    // A custom list leaves the default family out for good.
    let mut db =
        DB::open_cf(&mut env, creating(), "why", vec![("a", ColumnFamilyOptions::new())]).unwrap();
    assert_eq!(db.cf_names(), vec!["a"]);
    assert_eq!(db.put(b"k", b"v"), Err(Error::InvalidArgument));
    assert_eq!(db.get(b"k"), Err(Error::InvalidArgument));
    assert!(db.iter().is_err());
    db.close(&mut env).unwrap();

    match DB::open(&mut env, DBOptions::new(), "why") {
        Ok(_) => panic!("opened without the column family that the database holds"),
        Err(e) => assert_eq!(e.message(), "Invalid argument: Column families not opened: a"),
    }
    let both = vec![("a", ColumnFamilyOptions::new()), ("b", ColumnFamilyOptions::new())];
    match DB::open_cf(&mut env, DBOptions::new(), "why", both) {
        Ok(_) => panic!("opened with a column family that the database does not hold"),
        Err(e) => assert_eq!(e.message(), "Invalid argument: Column family not found: b"),
    }
    assert_eq!(env.is_db_locked("why"), Ok(false));
}

#[test]
fn a_default_family_that_holds_data_must_be_declared() {
    let mut env = Env::new();
    let mut db = DB::open_default(&mut env, "used").unwrap();
    db.create_cf("cf1").unwrap();
    db.put(b"k", b"v").unwrap();
    db.close(&mut env).unwrap();
    match DB::open_cf(&mut env, DBOptions::new(), "used", vec![("cf1", ColumnFamilyOptions::new())])
    {
        Ok(_) => panic!("opened without the default family, which holds data"),
        Err(e) => assert_eq!(e.message(), "Invalid argument: Column families not opened: default"),
    }
}

#[test]
fn options_that_do_not_fit_are_refused() {
    let operator = AppendOperator;
    let mut env = Env::new();
    let mut cf_opts = ColumnFamilyOptions::new();
    cf_opts.add_merge_operator("append", &operator);
    let mut db = DB::open_cf(&mut env, creating(), "fit", vec![("default", cf_opts)]).unwrap();
    db.merge(b"k", b"v").unwrap();
    db.close(&mut env).unwrap();

    // The operands are of the operator "append".
    match DB::open(&mut env, DBOptions::new(), "fit") {
        Ok(_) => panic!("opened without the merge operator of the operands"),
        Err(e) => assert_eq!(
            e.message(),
            "Invalid argument: Options do not fit column family: default"
        ),
    }
    let mut other = ColumnFamilyOptions::new();
    other.add_merge_operator("other", &operator);
    assert!(DB::open_cf(&mut env, DBOptions::new(), "fit", vec![("default", other)]).is_err());

    let mut same = ColumnFamilyOptions::new();
    same.add_merge_operator("append", &operator);
    let mut db = DB::open_cf(&mut env, DBOptions::new(), "fit", vec![("default", same)]).unwrap();
    db.compact_range(None, None).unwrap();
    db.close(&mut env).unwrap();

    // The run lies at level 0; one level is enough, none is not asked for.
    let mut one_level = ColumnFamilyOptions::new();
    one_level.add_merge_operator("append", &operator);
    one_level.set_num_levels(1);
    assert!(DB::open_cf(&mut env, DBOptions::new(), "fit", vec![("default", one_level)]).is_ok());
}

#[test]
fn a_run_below_the_levels_given_is_refused() {
    let mut env = Env::new();
    let mut db = DB::open_default(&mut env, "deep").unwrap();
    db.put(b"k", b"v").unwrap();
    let mut compact_opts = rust_titan::CompactOptions::new();
    compact_opts.set_target_level(6);
    let cf = db.cf_handle("default").unwrap();
    db.compact_range_cf_opt(cf, &compact_opts, None, None).unwrap();
    db.close(&mut env).unwrap();
    let mut shallow = ColumnFamilyOptions::new();
    shallow.set_num_levels(3);
    assert!(DB::open_cf(&mut env, DBOptions::new(), "deep", vec![("default", shallow)]).is_err());
    assert!(DB::open(&mut env, DBOptions::new(), "deep").is_ok());
}

#[test]
fn a_read_only_handle_takes_no_write_and_no_lock() {
    let mut env = Env::new();
    let mut db = DB::open_default(&mut env, "ro").unwrap();
    db.put(b"k", b"v").unwrap();
    db.close(&mut env).unwrap();

    let mut reader = DB::open_for_read_only(&env, DBOptions::new(), "ro", false).unwrap();
    assert_eq!(env.is_db_locked("ro"), Ok(false));
    assert_eq!(reader.get(b"k").unwrap(), Some(b"v".to_vec()));
    assert_eq!(reader.put(b"k", b"w"), Err(Error::InvalidArgument));
    assert_eq!(reader.delete(b"k"), Err(Error::InvalidArgument));
    assert_eq!(reader.create_cf("cf1"), Err(Error::InvalidArgument));
    assert_eq!(reader.drop_cf("cf1"), Err(Error::InvalidArgument));
    assert_eq!(reader.flush(true), Err(Error::InvalidArgument));
    assert!(reader.compact_range(None, None).is_err());

    // The write above was not flushed: its log exists.
    assert_eq!(
        DB::open_for_read_only(&env, DBOptions::new(), "ro", true).err(),
        Some(Error::InvalidArgument)
    );
    // A writer does not hold a reader up, nor a reader a writer.
    let mut writer = DB::open_default(&mut env, "ro").unwrap();
    assert!(DB::open_for_read_only(&env, DBOptions::new(), "ro", false).is_ok());
    writer.flush(true).unwrap();
    writer.close(&mut env).unwrap();
    assert!(DB::open_for_read_only(&env, DBOptions::new(), "ro", true).is_ok());
    assert_eq!(reader.close(&mut env), Ok(()));
    assert_eq!(
        DB::open_for_read_only(&env, DBOptions::new(), "nowhere", false).err(),
        Some(Error::InvalidArgument)
    );
}

#[test]
fn names_with_a_zero_byte_name_nothing() {
    let transform = FixedPrefixTransform { prefix_len: 2 };
    let mut cf_opts = ColumnFamilyOptions::new();
    assert_eq!(cf_opts.set_prefix_extractor("fix\0ed", &transform), Err(Error::InvalidArgument));
    assert_eq!(cf_opts.set_prefix_extractor("fixed", &transform), Ok(()));
}

fn one_family(table: Vec<Version>, last_sequence: u64) -> Store {
    Store {
        path: "restored".to_string(),
        locked: true,
        families: vec![FamilyData {
            name: "default".to_string(),
            id: 0,
            identity: FamilyIdentity::new(),
            table,
            runs: vec![],
            memtable_run: 0,
            next_run: 1,
        }],
        last_sequence,
        next_family_id: 1,
    }
}

fn put_version(key: &[u8], sequence: u64) -> Version {
    Version { key: key.to_vec(), sequence, kind: WriteKind::Put, value: key.to_vec(), run: 0 }
}

#[test]
fn what_is_restored_is_checked() {
    let mut env = Env::new();
    // Versions out of order.
    let unsorted = one_family(vec![put_version(b"b", 1), put_version(b"a", 2)], 2);
    assert_eq!(env.restore(unsorted), Err(Error::CorruptionError));
    // The older version of a key before the newer one.
    let backwards = one_family(vec![put_version(b"a", 1), put_version(b"a", 2)], 2);
    assert_eq!(env.restore(backwards), Err(Error::CorruptionError));
    // A version that is newer than the last write.
    let ahead = one_family(vec![put_version(b"a", 3)], 2);
    assert_eq!(env.restore(ahead), Err(Error::CorruptionError));
    assert!(env.is_db_locked("restored").is_err());

    let sound = one_family(vec![put_version(b"a", 2), put_version(b"a", 1), put_version(b"b", 3)], 3);
    assert_eq!(env.restore(sound), Ok(()));
    assert_eq!(env.is_db_locked("restored"), Ok(false));
    let mut db = DB::open(&mut env, DBOptions::new(), "restored").unwrap();
    assert_eq!(db.get(b"a").unwrap(), Some(b"a".to_vec()));
    db.put(b"c", b"c").unwrap();
    assert_eq!(db.latest_sequence_number(), 4);
    // A database that a writer is open on is not replaced.
    assert_eq!(env.restore(one_family(vec![], 0)), Err(Error::LockHeld));
    db.close(&mut env).unwrap();
    let kept = env.export("restored").unwrap();
    assert_eq!(kept.last_sequence, 4);
    assert_eq!(kept.families[0].table.len(), 4);
    assert_eq!(env.export("nowhere").err(), Some(Error::PathError));
}

#[test]
fn a_database_that_is_out_of_sequence_numbers_takes_no_write() {
    let mut env = Env::new();
    assert_eq!(env.restore(one_family(vec![put_version(b"a", u64::MAX)], u64::MAX)), Ok(()));
    let mut db = DB::open(&mut env, DBOptions::new(), "restored").unwrap();
    assert_eq!(db.put(b"b", b"b"), Err(Error::IOError));
    assert_eq!(db.get(b"a").unwrap(), Some(b"a".to_vec()));
}

#[test]
fn closing_without_the_database_is_a_path_error() {
    let mut env = Env::new();
    let db = DB::open_default(&mut env, "here").unwrap();
    let mut elsewhere = Env::default();
    assert_eq!(db.close(&mut elsewhere), Err(Error::PathError));
}

#[test]
fn write_options_say_how_a_write_is_made_durable() {
    let mut wopts = rust_titan::WriteOptions::new();
    assert!(!wopts.sync);
    assert!(!wopts.disable_wal);
    wopts.set_sync(true);
    wopts.disable_wal(true);
    assert!(wopts.sync && wopts.disable_wal);
    let mut env = Env::new();
    let mut db = DB::open_default(&mut env, "durable").unwrap();
    db.put_opt(b"k", b"v", &wopts).unwrap();
    assert_eq!(db.get(b"k").unwrap(), Some(b"v".to_vec()));
}

#[test]
fn every_failure_has_its_text() {
    assert_eq!(Error::LockHeld.message(), "IO error: lock held by another handle");
    assert_eq!(Error::PathError.message(), "IO error: No such file or directory");
    assert_eq!(Error::InvalidArgument.message(), "Invalid argument");
    assert_eq!(Error::IOError.message(), "IO error");
    assert_eq!(Error::CorruptionError.message(), "Corruption");
    assert_eq!(
        Error::not_opened("cf1").message(),
        "Invalid argument: Column families not opened: cf1"
    );
}
