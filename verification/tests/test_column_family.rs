use rust_titan::{AppendOperator, ColumnFamilyOptions, DBOptions, Env, Error, DB};

#[test]
pub fn test_column_family() {
    let mut env = Env::new();
    let path_str = "_rust_rocksdb_cftest";
    let test_provided_merge = AppendOperator;

    // should be able to create column families
    {
        let mut opts = DBOptions::new();
        opts.create_if_missing(true);
        let mut cf_opts = ColumnFamilyOptions::new();
        cf_opts.add_merge_operator("test operator", &test_provided_merge);
        let mut db = DB::open_cf(&mut env, opts, path_str, vec![("default", cf_opts)]).unwrap();
        match db.create_cf("cf1") {
            Ok(_) => println!("cf1 created successfully"),
            Err(e) => {
                panic!("could not create column family: {}", e.message());
            }
        }
        assert_eq!(db.cf_names(), vec!["default", "cf1"]);
        db.close(&mut env).unwrap();
    }

    // should fail to open db without specifying same column families
    {
        let mut cf_opts = ColumnFamilyOptions::new();
        cf_opts.add_merge_operator("test operator", &test_provided_merge);
        match DB::open_cf(&mut env, DBOptions::new(), path_str, vec![("default", cf_opts)]) {
            Ok(_) => panic!(
                "should not have opened DB successfully without \
                        specifying column
            families"
            ),
            Err(e) => assert!(e
                .message()
                .starts_with("Invalid argument: Column families not opened")),
        }
    }

    // should properly open db when specifying all column families
    {
        let mut cf_opts = ColumnFamilyOptions::new();
        cf_opts.add_merge_operator("test operator", &test_provided_merge);
        match DB::open_cf(&mut env, DBOptions::new(), path_str, vec![("cf1", cf_opts)]) {
            Ok(db) => {
                println!("successfully opened db with column family");
                db.close(&mut env).unwrap();
            }
            Err(e) => panic!("failed to open db with column family: {}", e.message()),
        }
    }
    // should be able to write and read in a cf
    {
        let mut cf_opts = ColumnFamilyOptions::new();
        cf_opts.add_merge_operator("test operator", &test_provided_merge);
        let mut db = match DB::open_cf(&mut env, DBOptions::new(), path_str, vec![("cf1", cf_opts)])
        {
            Ok(db) => {
                println!("successfully opened db with column family");
                db
            }
            Err(e) => panic!("failed to open db with column family: {}", e.message()),
        };
        let cf1 = db.cf_handle("cf1").unwrap();
        assert!(db.put_cf(cf1, b"k1", b"v1").is_ok());
        assert!(String::from_utf8(db.get_cf(cf1, b"k1").unwrap().unwrap()).unwrap() == "v1");
        let p = db.put_cf(cf1, b"k1", b"a");
        assert!(p.is_ok());
        db.close(&mut env).unwrap();
    }
    // should be able to drop a cf
    {
        let mut db = DB::open_cf(
            &mut env,
            DBOptions::new(),
            path_str,
            vec![("cf1", ColumnFamilyOptions::new())],
        )
        .unwrap();
        match db.drop_cf("cf1") {
            Ok(_) => println!("cf1 successfully dropped."),
            Err(e) => panic!("failed to drop column family: {}", e.message()),
        }
        db.close(&mut env).unwrap();
    }
}

#[test]
pub fn test_column_family_option_use_doubly_skiplist() {
    let mut cf_opts = ColumnFamilyOptions::new();
    let memtable_name = cf_opts.get_memtable_factory_name();
    assert!(memtable_name.is_some());
    assert_eq!("SkipListFactory", memtable_name.unwrap());
    cf_opts.set_doubly_skiplist();
    let memtable_name = cf_opts.get_memtable_factory_name();
    assert_eq!("DoublySkipListFactory", memtable_name.unwrap());
}

#[test]
fn test_db_lock() {
    let mut env = Env::new();
    let path = "_rust_rocksdb_test_open_for_read_only";
    assert!(env
        .is_db_locked("_rust_rocksdb_test_open_for_read_only/non-exist")
        .is_err());

    let mut opts = DBOptions::new();
    opts.create_if_missing(true);
    let db = DB::open_default(&mut env, path).unwrap();
    assert_eq!(env.is_db_locked(path), Ok(true));
    db.close(&mut env).unwrap();
    assert_eq!(env.is_db_locked(path), Ok(false));

    let _r1 = DB::open_for_read_only(&env, opts.clone(), path, false).unwrap();
    assert_eq!(env.is_db_locked(path), Ok(false));
}

#[test]
fn lock_query_on_missing_path_is_a_path_error() {
    let env = Env::new();
    assert_eq!(env.is_db_locked("nowhere"), Err(Error::PathError));
}

#[test]
fn second_writable_open_is_refused_while_the_lock_is_held() {
    let mut env = Env::new();
    let db = DB::open_default(&mut env, "locked").unwrap();
    match DB::open_default(&mut env, "locked") {
        Ok(_) => panic!("two writable handles on one database"),
        Err(e) => assert_eq!(e, Error::LockHeld),
    }
    db.close(&mut env).unwrap();
    assert!(DB::open_default(&mut env, "locked").is_ok());
}
