use s3_meta::bounded::apply;
use s3_meta::bounded::Bounded;
use s3_meta::metrics::chain;
use s3_meta::metrics::extensions::Extensions;
use s3_meta::metrics::file_size::FileSize;
use s3_meta::metrics::general::General;
use s3_meta::metrics::modification::Modification;
use s3_meta::types::ObjectRecord;

fn record(key: &str, size: u64, last_modified: u64) -> ObjectRecord {
    ObjectRecord { key: key.to_string(), size, last_modified }
}

#[test]
fn tracking_extremes_over_a_sequence() {
    let mut low = Bounded::new();
    let mut high = Bounded::new();
    let pairs: [(&str, u64); 6] =
        [("a", 5), ("b", 2), ("c", 9), ("d", 2), ("e", 9), ("f", 9)];
    for (key, value) in pairs.iter() {
        apply(&mut low, &mut high, key, *value);
    }
    assert_eq!(low.best_value, 2);
    assert_eq!(low.best_key.as_deref(), Some("b"));
    assert_eq!(low.tie_count, 1);
    assert_eq!(high.best_value, 9);
    assert_eq!(high.best_key.as_deref(), Some("c"));
    assert_eq!(high.tie_count, 2);
}

#[test]
fn seeding_both_trackers_with_the_first_record() {
    let mut low = Bounded::new();
    let mut high = Bounded::new();
    apply(&mut low, &mut high, "only", 7);
    assert_eq!(low.best_key.as_deref(), Some("only"));
    assert_eq!(high.best_key.as_deref(), Some("only"));
    assert_eq!(low.best_value, 7);
    assert_eq!(high.best_value, 7);
    assert_eq!(low.tie_count, 0);
    assert_eq!(high.tie_count, 0);
}

#[test]
fn leaving_trackers_unset_without_records() {
    let low = Bounded::new();
    let high = Bounded::new();
    assert!(low.best_key.is_none());
    assert!(high.best_key.is_none());

    let modification = Modification::new();
    assert_eq!(modification.report(), vec!["[modification]"]);

    let file_size = FileSize::new();
    assert_eq!(file_size.report(), vec!["[file_size]", "average_size=0B"]);
}

#[test]
fn counting_extensions_and_picking_the_most_popular() {
    let mut ext = Extensions::new();
    ext.register(&record("a.txt", 1, 0));
    ext.register(&record("b.txt", 1, 0));
    ext.register(&record("c.md", 1, 0));
    let lines = ext.report();
    assert_eq!(
        lines,
        vec!["[extensions]", "unique_extensions=2", "most_popular_extension=txt"]
    );
}

#[test]
fn breaking_extension_ties_lexicographically() {
    let mut ext = Extensions::new();
    ext.register(&record("a.txt", 1, 0));
    ext.register(&record("b.md", 1, 0));
    let lines = ext.report();
    assert_eq!(
        lines,
        vec!["[extensions]", "unique_extensions=2", "most_popular_extension=md"]
    );
}

#[test]
fn skipping_records_without_extensions() {
    let mut ext = Extensions::new();
    ext.register(&record("README", 1, 0));
    ext.register(&record("folder/.hidden", 1, 0));
    let lines = ext.report();
    assert_eq!(lines, vec!["[extensions]", "unique_extensions=0"]);
}

#[test]
fn deriving_folders_from_keys() {
    let mut general = General::new(0);
    general.register(&record("x/y/f1", 1, 0));
    general.register(&record("x/y/f2", 1, 0));
    general.register(&record("x/z/f3", 1, 0));
    let lines = general.report(0);
    assert_eq!(lines[2], "total_files=3");
    assert_eq!(lines[3], "total_folders=2");
}

#[test]
fn keeping_root_objects_out_of_the_folder_count() {
    let mut general = General::new(0);
    general.register(&record("rootfile", 7, 0));
    let lines = general.report(0);
    assert_eq!(lines[3], "total_folders=0");
}

#[test]
fn averaging_sizes() {
    let mut fs = FileSize::new();
    fs.register(&record("a", 10, 0));
    fs.register(&record("b", 20, 0));
    fs.register(&record("c", 30, 0));
    assert_eq!(fs.average(), 20);
    let lines = fs.report();
    assert_eq!(lines[1], "average_size=20B");
}

#[test]
fn averaging_zero_records_without_failing() {
    let fs = FileSize::new();
    assert_eq!(fs.average(), 0);
}

#[test]
fn reporting_size_extremes_with_ties() {
    let mut fs = FileSize::new();
    fs.register(&record("small", 5, 0));
    fs.register(&record("big", 500, 0));
    fs.register(&record("also-small", 5, 0));
    fs.register(&record("third-small", 5, 0));
    let lines = fs.report();
    assert_eq!(
        lines,
        vec![
            "[file_size]",
            "average_size=128B",
            "largest_file_size=500B",
            "largest_file_name=big",
            "smallest_file_size=5B",
            "smallest_file_name=small",
            "smallest_file_others=2",
        ]
    );
}

#[test]
fn suppressing_a_single_tie() {
    let mut fs = FileSize::new();
    fs.register(&record("one", 5, 0));
    fs.register(&record("two", 5, 0));
    let lines = fs.report();
    assert_eq!(
        lines,
        vec![
            "[file_size]",
            "average_size=5B",
            "largest_file_size=5B",
            "largest_file_name=one",
            "smallest_file_size=5B",
            "smallest_file_name=one",
        ]
    );
}

#[test]
fn reporting_modification_extremes() {
    let early = ObjectRecord::from_parts("old".to_string(), 1, "2013-09-17T18:07:53.000Z")
        .expect("record");
    let late = ObjectRecord::from_parts("new".to_string(), 1, "2020-01-01T00:00:00.000Z")
        .expect("record");
    let mut modification = Modification::new();
    modification.register(&early);
    modification.register(&late);
    let lines = modification.report();
    assert_eq!(
        lines,
        vec![
            "[modification]",
            "earliest_file_date=2013-09-17T18:07:53Z",
            "earliest_file_name=old",
            "latest_file_date=2020-01-01T00:00:00Z",
            "latest_file_name=new",
        ]
    );
}

#[test]
fn reporting_elapsed_time() {
    let general = General::new(100);
    let lines = general.report(3761);
    assert_eq!(lines[1], "total_time=1h 1m 1s");
}

#[test]
fn ignoring_page_boundaries() {
    let records = [
        record("x/y/f1.txt", 10, 300),
        record("x/y/f2.md", 20, 100),
        record("x/z/f3.txt", 30, 200),
        record("x/z/f4", 40, 400),
    ];

    let mut one_page = chain(0);
    one_page.register_page(&records.to_vec());

    let mut many_pages = chain(0);
    many_pages.register_page(&records[0..1].to_vec());
    many_pages.register_page(&Vec::new());
    many_pages.register_page(&records[1..3].to_vec());
    many_pages.register_page(&records[3..4].to_vec());

    assert_eq!(one_page.report(50), many_pages.report(50));
}

#[test]
fn rendering_the_whole_report_in_order() {
    let mut c = chain(0);
    c.register_page(&vec![
        record("docs/a.txt", 1000, 100),
        record("docs/b.txt", 3000, 200),
    ]);
    let lines = c.report(60);
    assert_eq!(
        lines,
        vec![
            "[general]",
            "total_time=1m",
            "total_files=2",
            "total_folders=1",
            "total_storage=4kB",
            "",
            "[file_size]",
            "average_size=2kB",
            "largest_file_size=3kB",
            "largest_file_name=docs/b.txt",
            "smallest_file_size=1kB",
            "smallest_file_name=docs/a.txt",
            "",
            "[extensions]",
            "unique_extensions=1",
            "most_popular_extension=txt",
            "",
            "[modification]",
            "earliest_file_date=1970-01-01T00:01:40Z",
            "earliest_file_name=docs/a.txt",
            "latest_file_date=1970-01-01T00:03:20Z",
            "latest_file_name=docs/b.txt",
        ]
    );
}
