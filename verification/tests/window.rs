//! What the window shows.

use dagcmp::compare::{compare, Counts, DiffNode, Status};
use dagcmp::model::{Meta, Node, EPOCH_TICKS};
use dagcmp::scan::{Elapsed, ScanMethod, ScanProgress, ScanResult};
use dagcmp::window::{
    attr_string, breadcrumb, dir_status_color, find_node, fmt_time, format_scan, has_subdirs,
    method_name, progress_text, same_path, shown_moment, shown_node, shown_size, starts_open,
    status_color, status_label, summary_text, up, visible, ScanNews, ScanOutcome, Shade, Window,
};

const HOUR: u64 = 36_000_000_000;

fn put(root: &mut Node, path: &[&str], mtime: u64) {
    let name = path[path.len() - 1];
    root.insert_at(path, Node::new_file(name, Meta { size: 1, mtime, attrs: 0 }));
}

fn sides() -> (Node, Node) {
    let mut l = Node::new_dir("l", Meta::default());
    put(&mut l, &["a", "b", "x"], HOUR);
    put(&mut l, &["quiet", "same"], HOUR);
    put(&mut l, &["f"], HOUR);
    put(&mut l, &["same"], HOUR);
    let mut r = Node::new_dir("r", Meta::default());
    put(&mut r, &["quiet", "same"], HOUR);
    put(&mut r, &["same"], HOUR);
    (l, r)
}

fn sample() -> DiffNode {
    let (l, r) = sides();
    compare(&l, &r)
}

fn result(root: Node, method: ScanMethod) -> ScanResult {
    ScanResult {
        root_path: "/r".to_string(),
        root,
        method,
        duration: Elapsed { nanos: 1 },
        skipped: 0,
        mft_fallback_reason: None,
    }
}

fn path(names: &[&str]) -> Vec<String> {
    names.iter().map(|n| n.to_string()).collect()
}

#[test]
fn window_progress_in_words() {
    let records = ScanProgress::MftRecords { done: 1, total: 2, files: 3, dirs: 4 };
    assert_eq!(progress_text("scan", records, ""), "scan: MFT records 1/2 — 3 files, 4 dirs matched");
    assert_eq!(progress_text("scan", ScanProgress::MftLoading, ""), "scan: reading MFT…");
    assert_eq!(
        progress_text("scan", ScanProgress::MftReading { bytes: 8 }, "8 B"),
        "scan: reading MFT… 8 B"
    );
    assert_eq!(
        progress_text("scan", ScanProgress::MftLoaded { records: 2, bytes: 8 }, "8 B"),
        "scan: MFT loaded (2 records, 8 B)"
    );
    assert_eq!(
        progress_text("scan", ScanProgress::WalkEntries { entries: 5 }, ""),
        "scan: 5 entries walked"
    );
}

#[test]
fn colours_of_statuses() {
    assert_eq!(status_color(Status::Identical), Shade::Gray);
    assert_eq!(status_color(Status::LeftNewer), Shade::Rgb(70, 130, 255));
    assert_eq!(status_color(Status::LeftOnly), Shade::Rgb(70, 130, 255));
    assert_eq!(status_color(Status::RightNewer), Shade::Rgb(230, 80, 80));
    assert_eq!(status_color(Status::RightOnly), Shade::Rgb(230, 80, 80));
    assert_eq!(status_color(Status::Different), Shade::Rgb(200, 90, 220));
}

#[test]
fn colours_of_directories() {
    let c = Counts::default();
    assert_eq!(dir_status_color(&Counts { identical: 4, ..c }), Shade::Gray);
    let left = Counts { left_only: 1, left_newer: 2, ..c };
    assert_eq!(dir_status_color(&left), Shade::Rgb(70, 130, 255));
    let right = Counts { right_only: 1, right_newer: 2, ..c };
    assert_eq!(dir_status_color(&right), Shade::Rgb(230, 80, 80));
    let mixed = Counts { left_only: 1, right_only: 1, ..c };
    assert_eq!(dir_status_color(&mixed), Shade::Rgb(200, 90, 220));
    let differ = Counts { different: 1, left_only: 1, ..c };
    assert_eq!(dir_status_color(&differ), Shade::Rgb(200, 90, 220));
}

#[test]
fn labels_of_statuses() {
    assert_eq!(status_label(Status::Identical), "identical");
    assert_eq!(status_label(Status::LeftNewer), "left is newer");
    assert_eq!(status_label(Status::RightNewer), "right is newer");
    assert_eq!(status_label(Status::Different), "different (same age, different size)");
    assert_eq!(status_label(Status::LeftOnly), "left side only");
    assert_eq!(status_label(Status::RightOnly), "right side only");
}

#[test]
fn attribute_letters() {
    let m = |attrs: u32| Some(Meta { size: 0, mtime: 0, attrs });
    assert_eq!(attr_string(None), "");
    assert_eq!(attr_string(m(0)), "");
    assert_eq!(attr_string(m(0x20)), "A");
    assert_eq!(attr_string(m(0x3)), "RH");
    assert_eq!(attr_string(m(0xFFFF_FFFF)), "RHSA");
    assert_eq!(attr_string(m(0x18)), "");
}

#[test]
fn sizes_of_files_only() {
    let m = Some(Meta { size: 9, mtime: 0, attrs: 0 });
    assert_eq!(shown_size(false, m), Some(9));
    assert_eq!(shown_size(true, m), None);
    assert_eq!(shown_size(false, None), None);
}

#[test]
fn times_since_1970_are_shown() {
    let m = |mtime: u64| Some(Meta { size: 0, mtime, attrs: 0 });
    assert_eq!(fmt_time(None), "");
    assert_eq!(fmt_time(m(0)), "");
    assert_eq!(fmt_time(m(EPOCH_TICKS - 1)), "");
    assert_eq!(shown_moment(m(EPOCH_TICKS + 3)).unwrap().nanos, 300);
    // 2001-09-09 01:46:40 UTC, which is the ninth of September or the eighth.
    let s = fmt_time(m(EPOCH_TICKS + 1_000_000_000 * 10_000_000));
    assert_eq!(s.len(), 17);
    assert!(s.starts_with("20010909 ") || s.starts_with("20010908 "));
    assert_eq!((&s[8..9], &s[11..12], &s[14..15]), (" ", ":", ":"));
    assert!(s.ends_with(":40"));
    // 2024-02-29 12:00:00 UTC, up to fourteen hours earlier or later.
    let s = fmt_time(m(EPOCH_TICKS + 1_709_208_000 * 10_000_000));
    assert!(s.starts_with("20240229 ") || s.starts_with("20240301 "));
    assert!(s.ends_with(":00"));
    let next = fmt_time(m(EPOCH_TICKS + 1_709_208_001 * 10_000_000 + 9_999_999));
    assert_eq!(next, s[..16].to_string() + "1");
    // The last moment that can be shown.
    let last = fmt_time(m(EPOCH_TICKS + u64::MAX / 100));
    assert!(last.starts_with("2554"));
}

#[test]
fn selections_are_resolved() {
    let d = sample();
    assert_eq!(find_node(&d, &path(&[])).unwrap().name, "l");
    assert_eq!(find_node(&d, &path(&["a", "b"])).unwrap().name, "b");
    assert!(find_node(&d, &path(&["f"])).is_none());
    assert!(find_node(&d, &path(&["a", "missing"])).is_none());
    assert!(find_node(&d, &path(&["A"])).is_none());
    assert_eq!(shown_node(&d, &path(&["a"])).name, "a");
    assert_eq!(shown_node(&d, &path(&["gone"])).name, "l");
}

#[test]
fn entries_are_listed_by_pane() {
    let d = sample();
    let names = |ix: Vec<usize>| -> Vec<String> {
        ix.into_iter().map(|i| d.children[i].name.clone()).collect()
    };
    assert_eq!(names(visible(&d, true, false)), ["a"]);
    assert_eq!(names(visible(&d, true, true)), ["a", "quiet"]);
    assert_eq!(names(visible(&d, false, false)), ["f"]);
    assert_eq!(names(visible(&d, false, true)), ["f", "same"]);
    assert!(has_subdirs(&d.children[0], false));
    assert!(!has_subdirs(&d.children[1], true));
}

#[test]
fn the_way_up_and_the_breadcrumb() {
    assert_eq!(breadcrumb(&path(&[])), "\\");
    assert_eq!(breadcrumb(&path(&["a", "b"])), "\\a\\b");
    assert_eq!(up(&path(&["a", "b"])), Some(path(&["a"])));
    assert_eq!(up(&path(&[])), None);
    assert!(starts_open(&path(&["a"])));
    assert!(!starts_open(&path(&["a", "b"])));
    assert!(same_path(&path(&["a"]), &path(&["a"])));
    assert!(!same_path(&path(&["a"]), &path(&["b"])));
    assert!(!same_path(&path(&["a"]), &path(&["a", "b"])));
}

#[test]
fn window_summary() {
    let c = Counts {
        identical: 1,
        left_newer: 2,
        right_newer: 3,
        different: 4,
        left_only: 5,
        right_only: 6,
    };
    assert_eq!(
        summary_text(&c),
        "identical 1  |  ◀ newer 2  |  newer ▶ 3  |  ≠ 4  |  ◀ only 5  |  only ▶ 6"
    );
}

#[test]
fn a_scan_from_start_to_end() {
    let mut w = Window::new();
    assert!(!w.start(true, false));
    assert_eq!(w.status_line, "Both paths must be existing directories.");
    assert!(!w.scanning);
    assert!(w.start(true, true));
    assert_eq!(w.status_line, "Scanning…");
    w.progress(Some("scan: 1 entries walked".to_string()));
    assert_eq!(w.status_line, "scan: 1 entries walked");
    w.progress(None);
    assert!(!w.hear(ScanNews::Pending, "", ""));
    assert_eq!(w.status_line, "scan: 1 entries walked");
    w.selected = path(&["x"]);
    let (l, r) = sides();
    let diff = compare(&l, &r);
    let o = ScanOutcome {
        left: result(l, ScanMethod::Mft),
        right: result(r, ScanMethod::Walk),
        diff,
    };
    assert_eq!(format_scan(&o.left, "1.00s"), "4 files / 3 dirs in 1.00s");
    assert_eq!((method_name(&o.left), method_name(&o.right)), ("MFT", "walk"));
    assert!(w.hear(ScanNews::Finished(o), "1.00s", "2.00s"));
    assert_eq!(
        w.status_line,
        "Left: 4 files / 3 dirs in 1.00s via MFT   |   Right: 2 files / 1 dirs in 2.00s via walk"
    );
    assert!(!w.scanning && w.selected.is_empty() && w.outcome.is_some());
    w.progress(Some("late".to_string()));
    assert!(w.status_line.starts_with("Left: "));
    w.navigate(Some(path(&["a"])));
    w.navigate(None);
    assert_eq!(w.selected, ["a"]);
}

#[test]
fn a_scan_that_fails_keeps_what_was_shown() {
    let mut w = Window::new();
    w.selected = path(&["x"]);
    assert!(w.start(true, true));
    assert!(w.hear(ScanNews::Failed("no".to_string()), "", ""));
    assert_eq!(w.status_line, "Scan failed: no");
    assert!(!w.scanning);
    assert_eq!(w.selected, ["x"]);
    assert!(w.start(true, true));
    assert!(w.hear(ScanNews::Died, "", ""));
    assert_eq!(w.status_line, "Scan thread died unexpectedly.");
    assert!(!w.scanning && w.outcome.is_none());
}
