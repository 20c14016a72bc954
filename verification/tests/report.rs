//! What the command line prints.

use dagcmp::compare::{compare, Counts, DiffNode, Status};
use dagcmp::model::{Meta, Node};
use dagcmp::report::{
    copy_line, diff_lines, error_line, method_name, op_line, outcome_line, parse_direction,
    plan_line, progress_bytes, progress_message, report_scan, scan_line, shown_errors,
    status_marker, summary_line, summary_suffix, tree_lines, ProgressLine,
};
use dagcmp::scan::{Elapsed, ScanMethod, ScanProgress, ScanResult};
use dagcmp::sync::{Direction, SyncOp, SyncOutcome, SyncPlan, TreePath};

const HOUR: u64 = 36_000_000_000;

fn put(root: &mut Node, path: &[&str], size: u64, mtime: u64) {
    let name = path[path.len() - 1];
    root.insert_at(path, Node::new_file(name, Meta { size, mtime, attrs: 0 }));
}

fn sample() -> DiffNode {
    let mut l = Node::new_dir("l", Meta::default());
    put(&mut l, &["sub", "deep", "x"], 1, HOUR);
    put(&mut l, &["sub", "same"], 1, HOUR);
    put(&mut l, &["quiet", "same"], 1, HOUR);
    put(&mut l, &["newer"], 1, 9 * HOUR);
    let mut r = Node::new_dir("r", Meta::default());
    put(&mut r, &["sub", "same"], 1, HOUR);
    put(&mut r, &["quiet", "same"], 1, HOUR);
    put(&mut r, &["newer"], 1, HOUR);
    put(&mut r, &["size"], 1, HOUR);
    put(&mut l, &["size"], 2, HOUR);
    compare(&l, &r)
}

fn result(method: ScanMethod, reason: Option<&str>) -> ScanResult {
    let mut root = Node::new_dir("root", Meta::default());
    put(&mut root, &["d", "f"], 3, HOUR);
    put(&mut root, &["g"], 4, HOUR);
    ScanResult {
        root_path: "/r".to_string(),
        root,
        method,
        duration: Elapsed { nanos: 1 },
        skipped: 0,
        mft_fallback_reason: reason.map(|r| r.to_string()),
    }
}

#[test]
fn progress_in_words() {
    let loaded = ScanProgress::MftLoaded { records: 12, bytes: 99 };
    let records = ScanProgress::MftRecords { done: 1, total: 2, files: 3, dirs: 4 };
    assert_eq!(progress_message("s", ScanProgress::MftLoading, ""), "s: reading MFT…");
    assert_eq!(
        progress_message("s", ScanProgress::MftReading { bytes: 5 }, "5 B"),
        "s: reading MFT… 5 B"
    );
    assert_eq!(progress_message("s", loaded, "99 B"), "s: MFT loaded (12 records, 99 B)");
    assert_eq!(progress_message("s", records, ""), "s: 1/2 MFT records — 3 files, 4 dirs matched");
    assert_eq!(
        progress_message("s", ScanProgress::WalkEntries { entries: 4096 }, ""),
        "s: 4096 entries walked"
    );
    assert_eq!(progress_bytes(loaded), Some(99));
    assert_eq!(progress_bytes(ScanProgress::MftReading { bytes: 5 }), Some(5));
    assert_eq!(progress_bytes(records), None);
}

#[test]
fn a_progress_line_covers_the_one_before() {
    let mut line = ProgressLine::new("s".to_string());
    assert_eq!(line.finish(), None);
    let long = ScanProgress::WalkEntries { entries: 40_960 };
    let short = ScanProgress::WalkEntries { entries: 1 };
    assert_eq!(line.update(long, ""), "\rs: 40960 entries walked");
    assert_eq!(line.erase_len, 23);
    assert_eq!(line.update(short, ""), "\rs: 1 entries walked    ");
    assert_eq!(line.erase_len, 23);
    assert_eq!(line.finish(), Some(format!("\r{}\r", " ".repeat(23))));
    assert_eq!(line.erase_len, 0);
}

#[test]
fn a_progress_line_is_measured_in_bytes() {
    let mut line = ProgressLine::new("s".to_string());
    line.update(ScanProgress::MftLoading, "");
    assert_eq!(line.erase_len, "s: reading MFT…".len());
    assert_eq!(line.erase_len, 17);
}

#[test]
fn methods_in_words() {
    assert_eq!(method_name(&result(ScanMethod::Mft, None)), "MFT");
    assert_eq!(method_name(&result(ScanMethod::Walk, None)), "directory walk");
    assert_eq!(
        method_name(&result(ScanMethod::Walk, Some("process is not elevated"))),
        "directory walk (MFT unavailable: process is not elevated)"
    );
}

#[test]
fn scan_reports() {
    let res = result(ScanMethod::Walk, None);
    assert_eq!(
        scan_line(&res, "7 B", "2.48s"),
        "2 files, 1 dirs, 7 B — scanned in 2.48s via directory walk"
    );
    assert_eq!(
        report_scan(&res, "2.48s"),
        "scanned /r (2 files, 1 dirs) in 2.48s via directory walk"
    );
}

#[test]
fn markers() {
    assert_eq!(status_marker(Status::Identical), "  =  ");
    assert_eq!(status_marker(Status::LeftNewer), " <<  ");
    assert_eq!(status_marker(Status::RightNewer), "  >> ");
    assert_eq!(status_marker(Status::Different), "  !  ");
    assert_eq!(status_marker(Status::LeftOnly), " <-  ");
    assert_eq!(status_marker(Status::RightOnly), "  -> ");
}

#[test]
fn differences_only_by_default() {
    assert_eq!(
        diff_lines(&sample(), usize::MAX, false),
        [
            "     [≠] sub  (1 differing)",
            "       [≠] deep  (1 differing)",
            " <-      x",
            " <<  newer",
            "  !  size",
        ]
    );
}

#[test]
fn identical_files_on_demand() {
    assert_eq!(
        diff_lines(&sample(), usize::MAX, true),
        [
            "     [=] quiet",
            "  =    same",
            "     [≠] sub  (1 differing)",
            "       [≠] deep  (1 differing)",
            " <-      x",
            "  =    same",
            " <<  newer",
            "  !  size",
        ]
    );
}

#[test]
fn depth_is_limited() {
    assert!(diff_lines(&sample(), 0, true).is_empty());
    assert_eq!(
        diff_lines(&sample(), 1, false),
        ["     [≠] sub  (1 differing)", " <<  newer", "  !  size"]
    );
    let mut out = vec!["before".to_string()];
    tree_lines(&sample().children[1], 0, 2, false, &mut out);
    assert_eq!(out, ["before", "     [≠] sub  (1 differing)", "       [≠] deep  (1 differing)"]);
    // From the depth limit on a directory has its own line and no more.
    let mut out = Vec::new();
    tree_lines(&sample().children[1], 3, 2, false, &mut out);
    assert_eq!(out, ["           [≠] sub  (1 differing)"]);
}

#[test]
fn trees_in_sync_print_nothing() {
    let mut l = Node::new_dir("l", Meta::default());
    put(&mut l, &["d", "f"], 1, HOUR);
    assert!(diff_lines(&compare(&l, &l), usize::MAX, false).is_empty());
}

#[test]
fn summaries() {
    let c = Counts {
        identical: 1,
        left_newer: 2,
        right_newer: 3,
        different: 4,
        left_only: 5,
        right_only: 6,
    };
    assert_eq!(
        summary_line(&c),
        "identical: 1   left-newer: 2   right-newer: 3   different: 4   left-only: 5   right-only: 6"
    );
    assert_eq!(summary_suffix(&c), "  (20 differing)");
    assert_eq!(summary_suffix(&Counts::default()), "");
    let most = Counts { left_only: u64::MAX, right_only: 1, ..Counts::default() };
    assert_eq!(summary_suffix(&most), "  (18446744073709551616 differing)");
}

#[test]
fn directions() {
    assert_eq!(parse_direction("l2r"), Ok(Direction::LeftToRight));
    assert_eq!(parse_direction("r2l"), Ok(Direction::RightToLeft));
    assert_eq!(
        parse_direction("up"),
        Err("invalid --direction 'up' (use l2r or r2l)".to_string())
    );
}

#[test]
fn sync_lines() {
    let mkdir = SyncOp::CreateDir { dst: TreePath::new() };
    let copy = SyncOp::Copy { src: TreePath::new(), dst: TreePath::new(), size: 5 };
    assert_eq!(op_line(&mkdir, "", "R/d", ""), "mkdir  R/d");
    assert_eq!(op_line(&copy, "L/f", "R/f", "5 B"), "copy   L/f -> R/f (5 B)");
    let plan = SyncPlan { ops: vec![copy], total_bytes: 5, total_files: 1 };
    assert_eq!(plan_line(&plan, "5 B"), "1 files, 5 B to copy");
    assert_eq!(copy_line(1, 2, "3 B", "4 B"), "\r1/2 files, 3 B/4 B    ");
}

#[test]
fn outcome_lines() {
    let mut o = SyncOutcome { copied_files: 3, copied_bytes: 9, errors: Vec::new() };
    assert_eq!(outcome_line(&o, "9 B"), "Copied 3 files (9 B). 0 errors.");
    assert_eq!(shown_errors(&o), 0);
    for _ in 0..25 {
        o.errors.push((TreePath::new(), "no".to_string()));
    }
    assert_eq!(outcome_line(&o, "9 B"), "Copied 3 files (9 B). 25 errors.");
    assert_eq!(shown_errors(&o), 20);
    assert_eq!(error_line("L/f", "denied"), "  error: L/f: denied");
}
