use bigfiles::builder::accumulate_event;
use bigfiles::builder::find_all_files_and_directories;
use bigfiles::builder::merge_children;
use bigfiles::builder::WalkEvent;
use bigfiles::node::Dir;
use bigfiles::node::File;
use bigfiles::node::FsItem;
use bigfiles::report::ReportLine;

fn file_entry(path: &str, size: u64) -> WalkEvent {
    WalkEvent::Entry { path: path.to_owned(), size, is_dir: false }
}

fn dir_entry(path: &str) -> WalkEvent {
    WalkEvent::Entry { path: path.to_owned(), size: 0, is_dir: true }
}

fn line(size: u64, is_file: bool, path: &str) -> ReportLine {
    ReportLine { size, is_file, path: path.to_owned() }
}

/// A small nested fixture: r/a (5 bytes), r/s/b (7 bytes).
fn nested_fixture() -> FsItem {
    FsItem::Dir(Dir {
        path: "r".to_owned(),
        children: vec![
            FsItem::File(File { size: 5, path: "r/a".to_owned() }),
            FsItem::Dir(Dir {
                path: "r/s".to_owned(),
                children: vec![FsItem::File(File { size: 7, path: "r/s/b".to_owned() })],
                size: None,
            }),
        ],
        size: None,
    })
}

#[test]
fn single_file_tree() {
    let mut root = Dir::new("root");
    find_all_files_and_directories(
        &mut root,
        vec![dir_entry("root"), file_entry("root/a.bin", 1000)],
    );
    let sized = root.calc_size();
    assert_eq!(sized.size(), 1000);
    assert_eq!(sized.largest_child(), 1000);
    // percent = 50 of the largest leaf
    let cutoff = 1000 * 50 / 100;
    assert_eq!(cutoff, 500);
    let lines = sized.report(cutoff);
    assert_eq!(lines, vec![line(1000, false, "root"), line(1000, true, "root/a.bin")]);
}

#[test]
fn two_files_small_one_suppressed() {
    let mut root = Dir::new("root");
    find_all_files_and_directories(
        &mut root,
        vec![
            dir_entry("root"),
            file_entry("root/small", 100),
            file_entry("root/big", 10000),
        ],
    );
    let sized = root.calc_size();
    assert_eq!(sized.size(), 10100);
    assert_eq!(sized.largest_child(), 10000);
    let cutoff = 10000 * 50 / 100;
    assert_eq!(cutoff, 5000);
    let lines = sized.report(cutoff);
    // the directory meets the cutoff, the big file exceeds it, the small one
    // is suppressed
    assert_eq!(lines, vec![line(10100, false, "root"), line(10000, true, "root/big")]);
}

#[test]
fn empty_directory() {
    let root = Dir::new("empty");
    let sized = root.calc_size();
    assert_eq!(sized.size(), 0);
    assert_eq!(sized.largest_child(), 0);
    // printed only at cutoff 0: the directory comparison is inclusive
    assert_eq!(sized.report(0), vec![line(0, false, "empty")]);
    assert_eq!(sized.report(1), Vec::<ReportLine>::new());
}

#[test]
fn ignored_file_absent_when_filtered() {
    // With ignore-mode on, the walk never hands the matched file in; the
    // events are all the tree ever sees, so the file is absent from the
    // totals and the report.
    let all_events = vec![
        dir_entry("root"),
        file_entry("root/kept", 1000),
        file_entry("root/.ignored", 500),
    ];
    let filtered_events = vec![dir_entry("root"), file_entry("root/kept", 1000)];

    let mut with_ignored = Dir::new("root");
    find_all_files_and_directories(&mut with_ignored, all_events);
    let with_ignored = with_ignored.calc_size();
    assert_eq!(with_ignored.size(), 1500);
    let lines = with_ignored.report(0);
    assert!(lines.iter().any(|l| l.path == "root/.ignored"));

    let mut without = Dir::new("root");
    find_all_files_and_directories(&mut without, filtered_events);
    let without = without.calc_size();
    assert_eq!(without.size(), 1000);
    assert_eq!(without.largest_child(), 1000);
    let lines = without.report(0);
    assert!(!lines.iter().any(|l| l.path == "root/.ignored"));
}

#[test]
fn nested_totals_and_largest() {
    let sized = nested_fixture().calc_size();
    assert_eq!(sized.size(), 12);
    assert_eq!(sized.largest_child(), 7);
    match &sized {
        FsItem::Dir(d) => {
            assert_eq!(d.size, Some(12));
            match &d.children[1] {
                FsItem::Dir(sub) => assert_eq!(sub.size, Some(7)),
                FsItem::File(_) => panic!("expected a directory"),
            }
        }
        FsItem::File(_) => panic!("expected a directory"),
    }
}

#[test]
fn cutoff_zero_prints_every_node() {
    let sized = nested_fixture().calc_size();
    let lines = sized.report(0);
    assert_eq!(
        lines,
        vec![
            line(12, false, "r"),
            line(5, true, "r/a"),
            line(7, false, "r/s"),
            line(7, true, "r/s/b"),
        ]
    );
}

#[test]
fn cutoff_above_total_prints_nothing() {
    let sized = nested_fixture().calc_size();
    assert_eq!(sized.report(13), Vec::<ReportLine>::new());
}

#[test]
fn directory_below_cutoff_prunes_larger_descendants() {
    // a subdirectory whose own size misses the cutoff suppresses its whole
    // subtree, even the file that would pass on its own
    let tree = FsItem::Dir(Dir {
        path: "r".to_owned(),
        children: vec![
            FsItem::File(File { size: 100, path: "r/top".to_owned() }),
            FsItem::Dir(Dir {
                path: "r/s".to_owned(),
                children: vec![FsItem::File(File { size: 40, path: "r/s/deep".to_owned() })],
                size: None,
            }),
        ],
        size: None,
    });
    let sized = tree.calc_size();
    // cutoff 50: r (140) passes, r/top (100) passes, r/s (40) is pruned and
    // r/s/deep (40) with it
    let lines = sized.report(50);
    assert_eq!(lines, vec![line(140, false, "r"), line(100, true, "r/top")]);
}

#[test]
fn file_comparison_is_strict() {
    // a file exactly at the cutoff is suppressed; a directory exactly at the
    // cutoff is printed
    let tree = FsItem::Dir(Dir {
        path: "r".to_owned(),
        children: vec![FsItem::File(File { size: 10, path: "r/a".to_owned() })],
        size: None,
    });
    let sized = tree.calc_size();
    let lines = sized.report(10);
    assert_eq!(lines, vec![line(10, false, "r")]);
}

#[test]
fn scan_twice_is_identical() {
    let events = || {
        vec![
            dir_entry("root"),
            file_entry("root/a", 300),
            file_entry("root/b", 4500),
            WalkEvent::Failed,
            file_entry("root/c", 60),
        ]
    };
    let mut first = Dir::new("root");
    find_all_files_and_directories(&mut first, events());
    let first = first.calc_size();
    let mut second = Dir::new("root");
    find_all_files_and_directories(&mut second, events());
    let second = second.calc_size();
    assert_eq!(first.size(), second.size());
    assert_eq!(first.largest_child(), second.largest_child());
    assert_eq!(first.report(2250), second.report(2250));
    assert_eq!(first.report(0), second.report(0));
}

#[test]
fn failed_events_are_skipped() {
    let mut root = Dir::new("root");
    find_all_files_and_directories(
        &mut root,
        vec![WalkEvent::Failed, file_entry("root/a", 11), WalkEvent::Failed],
    );
    assert_eq!(root.children.len(), 1);
    let sized = root.calc_size();
    assert_eq!(sized.size(), 11);
}

#[test]
fn accumulate_classifies_events() {
    let mut buf: Vec<FsItem> = Vec::new();
    accumulate_event(&mut buf, dir_entry("root/sub"));
    assert_eq!(buf.len(), 0);
    accumulate_event(&mut buf, file_entry("root/a", 3));
    assert_eq!(buf.len(), 1);
    accumulate_event(&mut buf, WalkEvent::Failed);
    assert_eq!(buf.len(), 1);
    match &buf[0] {
        FsItem::File(f) => {
            assert_eq!(f.size, 3);
            assert_eq!(f.path, "root/a");
        }
        FsItem::Dir(_) => panic!("expected a file"),
    }
}

#[test]
fn merge_order_does_not_change_results() {
    let buffers = || {
        (
            vec![FsItem::File(File { size: 1, path: "r/a".to_owned() })],
            vec![
                FsItem::File(File { size: 9, path: "r/b".to_owned() }),
                FsItem::File(File { size: 4, path: "r/c".to_owned() }),
            ],
        )
    };
    let (mut left, right) = buffers();
    merge_children(&mut left, right);
    let one = Dir { path: "r".to_owned(), children: left, size: None }.calc_size();

    let (first, mut second) = buffers();
    merge_children(&mut second, first);
    let other = Dir { path: "r".to_owned(), children: second, size: None }.calc_size();

    assert_eq!(one.size(), other.size());
    assert_eq!(one.size(), 14);
    assert_eq!(one.largest_child(), other.largest_child());
    assert_eq!(one.largest_child(), 9);
    // the printed lines may come in another order, but the set is the same
    let lines_one = one.report(0);
    let lines_other = other.report(0);
    assert_eq!(lines_one.len(), lines_other.len());
    for l in &lines_one {
        assert!(lines_other.contains(l));
    }
}

#[test]
fn checked_total_guards_overflow() {
    let ok = nested_fixture();
    assert_eq!(ok.checked_total(), Some(12));
    let too_big = FsItem::Dir(Dir {
        path: "r".to_owned(),
        children: vec![
            FsItem::File(File { size: u64::MAX, path: "r/a".to_owned() }),
            FsItem::File(File { size: 1, path: "r/b".to_owned() }),
        ],
        size: None,
    });
    assert_eq!(too_big.checked_total(), None);
}

#[test]
fn node_accessors() {
    let f = File::new(42, "r/a");
    assert_eq!(f.size(), 42);
    assert_eq!(f.largest_child(), 42);
    assert_eq!(f.path(), "r/a");
    assert!(f.is_file());
    let d = Dir::new("r");
    assert_eq!(d.size(), 0);
    assert_eq!(d.path(), "r");
    assert!(!d.is_file());
    let item = FsItem::File(File::new(42, "r/a"));
    assert_eq!(item.size(), 42);
    assert!(item.is_file());
    assert_eq!(item.path(), "r/a");
    assert_eq!(item.largest_child(), 42);
}
