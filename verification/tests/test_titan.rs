use rust_titan::{TitanBlobRunMode, TitanDBOptions};

#[test]
fn create_db_options() {
    let titan_options = TitanDBOptions::new();

    println!("{}", titan_options.to_string());
}

#[test]
fn default_options_in_a_line() {
    let titan_options = TitanDBOptions::new();
    assert_eq!(titan_options.dirname, "");
    assert!(!titan_options.disable_background_gc);
    assert_eq!(titan_options.max_background_gc, 1);
    assert_eq!(titan_options.purge_obsolete_files_period_sec, 10);
    assert_eq!(titan_options.titan_stats_dump_period_sec, 600);
    assert_eq!(titan_options.to_string(), " false 1 10 600");
}

#[test]
fn options_in_a_line_are_what_formatting_gives() {
    let cases: Vec<(&str, bool, i32, u32, u32)> = vec![
        ("/data/titandb", true, -7, 0, 4294967295),
        ("d", false, i32::MIN, 9, 10),
        ("", true, i32::MAX, 100, 99),
        ("päth", false, 0, 1, 1000000),
    ];
    for (dirname, gc, threads, purge, dump) in cases {
        let options = TitanDBOptions {
            dirname: dirname.to_string(),
            disable_background_gc: gc,
            max_background_gc: threads,
            purge_obsolete_files_period_sec: purge,
            titan_stats_dump_period_sec: dump,
        };
        assert_eq!(
            options.to_string(),
            format!("{} {} {} {} {}", dirname, gc, threads, purge, dump)
        );
    }
}

#[test]
fn run_modes_have_their_codes() {
    assert_eq!(TitanBlobRunMode::Normal.code(), 0);
    assert_eq!(TitanBlobRunMode::ReadOnly.code(), 1);
    assert_eq!(TitanBlobRunMode::Fallback.code(), 2);
    assert_eq!(TitanBlobRunMode::from_code(0), Some(TitanBlobRunMode::Normal));
    assert_eq!(TitanBlobRunMode::from_code(1), Some(TitanBlobRunMode::ReadOnly));
    assert_eq!(TitanBlobRunMode::from_code(2), Some(TitanBlobRunMode::Fallback));
    assert_eq!(TitanBlobRunMode::from_code(3), None);
}
