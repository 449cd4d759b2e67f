use tsreduce::bytes::contains_range;
use tsreduce::bytes::splice;
use tsreduce::clock::civil_from_epoch_ms;
use tsreduce::job::Job;
use tsreduce::nodelist::Replacement;
use tsreduce::numfmt::format_timestamp;
use tsreduce::numfmt::padded_u64;
use tsreduce::numfmt::u64_to_string;
use tsreduce::numfmt::usize_to_string;
use tsreduce::snapshots::str_le;
use tsreduce::test::ShellTest;
use tsreduce::util::IndicatifWriter;
use tsreduce::util::Opt;
use tsreduce::util::has_rs_extension;

#[test]
fn decimal_formatting_matches_std() {
    for n in [0u64, 7, 10, 123, 65535, 1_000_000, u64::MAX] {
        assert_eq!(u64_to_string(n), n.to_string());
    }
    assert_eq!(usize_to_string(42), "42");
}

#[test]
fn padding_reaches_the_width() {
    assert_eq!(padded_u64(7, 4), "0007");
    assert_eq!(padded_u64(2024, 4), "2024");
    assert_eq!(padded_u64(12345, 4), "12345");
    assert_eq!(padded_u64(0, 3), "000");
}

#[test]
fn timestamps_are_fixed_width_and_ordered() {
    let t = format_timestamp(2024, 3, 7, 9, 5, 30, 7);
    assert_eq!(t, "2024-03-07-09-05-30-007");
    let later = format_timestamp(2024, 3, 7, 9, 5, 30, 8);
    assert!(str_le(&t, &later));
    assert!(!str_le(&later, &t));
}

#[test]
fn job_ids_are_deterministic() {
    let j1 = Job::new(String::from("src/lib.rs"), 5, 99, 127);
    let j2 = Job::new(String::from("src/lib.rs"), 5, 99, 127);
    assert_eq!(j1.id(3), j2.id(3));
}

#[test]
fn splice_replaces_ordered_ranges() {
    let s: Vec<u8> = b"hello cruel world".to_vec();
    let reps = vec![Replacement { start: 6, end: 12, with: Vec::new() }];
    assert_eq!(splice(&s, &reps), b"hello world".to_vec());

    let reps = vec![
        Replacement { start: 0, end: 5, with: b"bye".to_vec() },
        Replacement { start: 6, end: 11, with: b"kind".to_vec() },
    ];
    assert_eq!(splice(&s, &reps), b"bye kind world".to_vec());
}

#[test]
fn substring_search_finds_node_bytes() {
    let hay: Vec<u8> = b"{loop{}}".to_vec();
    let contents: Vec<u8> = b"xx{}yy".to_vec();
    assert!(contains_range(&hay, &contents, 2, 4));
    assert!(!contains_range(&hay, &contents, 0, 2));
}

#[test]
fn rs_extension_is_detected() {
    assert!(has_rs_extension(&String::from("a.rs")));
    assert!(has_rs_extension(&String::from("dir/mod.rs")));
    assert!(!has_rs_extension(&String::from("a.rc")));
    assert!(!has_rs_extension(&String::from("rs")));
    assert!(!has_rs_extension(&String::from("a.rs.bak")));
}

#[test]
fn explicit_file_list_wins_over_default() {
    let opt = Opt {
        root_path: Some(String::from("/tmp/x")),
        resume: false,
        only_files: Some(vec![String::from("one.rs")]),
        snapshot_directory: String::from("/tmp/snaps"),
        snapshot_interval: 10,
        max_snapshots: None,
        jobs: 4,
        random_seed: None,
        do_not_validate_input: false,
        no_progress_bars: false,
    };
    let files = opt.files(vec![String::from("a.rs"), String::from("b.rs")]);
    assert_eq!(files, vec![String::from("one.rs")]);

    let opt = Opt { only_files: None, ..opt };
    let files = opt.files(vec![String::from("a.rs"), String::from("b.rs")]);
    assert_eq!(files, vec![String::from("a.rs"), String::from("b.rs")]);
}

#[test]
fn shell_test_builders_keep_the_command() {
    let t = ShellTest::new(String::from("./test.sh"));
    assert_eq!(t.test, "./test.sh");
    let t = t.with_fixture(1u32, 2u32);
    assert_eq!(t.prep, 1);
    assert_eq!(t.clean, 2);
    assert_eq!(t.test, "./test.sh");
    let t = t.with_snapshot_cleanup(3u32);
    assert_eq!(t.snap_clean, 3);
    assert_eq!(t.prep, 1);
}

#[test]
fn indicatif_writer_holds_its_sink() {
    let w = IndicatifWriter::new(5u8);
    assert_eq!(w.0, 5);
}

#[test]
fn epoch_zero_is_the_first_of_january_1970() {
    let t = civil_from_epoch_ms(0);
    assert_eq!((t.year, t.month, t.day), (1970, 1, 1));
    assert_eq!((t.hour, t.minute, t.second, t.milli), (0, 0, 0, 0));
}

#[test]
fn a_known_epoch_instant_maps_to_its_civil_time() {
    // 1_700_000_000 seconds after the epoch.
    let t = civil_from_epoch_ms(1_700_000_000_000);
    assert_eq!((t.year, t.month, t.day), (2023, 11, 14));
    assert_eq!((t.hour, t.minute, t.second, t.milli), (22, 13, 20, 0));
}

#[test]
fn leap_day_is_reached_in_a_leap_year() {
    // 2024-02-29 12:00:00 UTC.
    let t = civil_from_epoch_ms(1_709_208_000_000);
    assert_eq!((t.year, t.month, t.day), (2024, 2, 29));
    assert_eq!(t.hour, 12);
}
