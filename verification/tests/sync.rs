//! Planning a sync and keeping its books.

use dagcmp::compare::compare;
use dagcmp::model::{Meta, Node};
use dagcmp::sync::{checked_plan, plan, Direction, SyncOp, SyncPlan, SyncRun, TreePath};

const HOUR: u64 = 36_000_000_000;

fn put(root: &mut Node, path: &[&str], size: u64, mtime: u64) {
    let name = path[path.len() - 1];
    root.insert_at(path, Node::new_file(name, Meta { size, mtime, attrs: 0 }));
}

fn put_dir(root: &mut Node, path: &[&str]) {
    let name = path[path.len() - 1];
    root.insert_at(path, Node::new_dir(name, Meta::default()));
}

fn root() -> Node {
    Node::new_dir("root", Meta::default())
}

fn at(names: &[&str]) -> TreePath {
    let mut p = TreePath::new();
    for n in names {
        p = p.join(n);
    }
    p
}

fn show(ops: &[SyncOp]) -> Vec<String> {
    ops.iter()
        .map(|op| match op {
            SyncOp::CreateDir { dst } => format!("mkdir {}", dst.components.join("/")),
            SyncOp::Copy { src, dst, size } => {
                format!("copy {} {} {}", src.components.join("/"), dst.components.join("/"), size)
            }
        })
        .collect()
}

fn sides() -> (Node, Node) {
    let mut l = root();
    put(&mut l, &["same"], 1, HOUR);
    put(&mut l, &["newer"], 2, 3 * HOUR);
    put(&mut l, &["older"], 3, HOUR);
    put(&mut l, &["size"], 4, HOUR);
    put(&mut l, &["New", "deep", "x"], 5, HOUR);
    put(&mut l, &["mine"], 6, HOUR);
    let mut r = root();
    put(&mut r, &["same"], 1, HOUR);
    put(&mut r, &["newer"], 20, HOUR);
    put(&mut r, &["older"], 30, 3 * HOUR);
    put(&mut r, &["size"], 40, HOUR);
    put(&mut r, &["theirs"], 60, HOUR);
    (l, r)
}

#[test]
fn left_to_right_copies_what_is_missing_or_older() {
    let (l, r) = sides();
    let p = plan(&compare(&l, &r), &at(&["L"]), &at(&["R"]), Direction::LeftToRight);
    assert_eq!(
        show(&p.ops),
        [
            "mkdir R/New",
            "mkdir R/New/deep",
            "copy L/New/deep/x R/New/deep/x 5",
            "copy L/mine R/mine 6",
            "copy L/newer R/newer 2",
        ]
    );
    assert_eq!((p.total_files, p.total_bytes), (3, 13));
}

#[test]
fn right_to_left_copies_the_other_way() {
    let (l, r) = sides();
    let p = plan(&compare(&l, &r), &at(&["L"]), &at(&["R"]), Direction::RightToLeft);
    assert_eq!(show(&p.ops), ["copy R/older L/older 30", "copy R/theirs L/theirs 60"]);
    assert_eq!((p.total_files, p.total_bytes), (2, 90));
}

#[test]
fn trees_in_sync_need_nothing() {
    let (l, _) = sides();
    let p = plan(&compare(&l, &l), &at(&[]), &at(&[]), Direction::LeftToRight);
    assert!(p.ops.is_empty());
    assert_eq!((p.total_files, p.total_bytes), (0, 0));
}

#[test]
fn copies_match_the_counts() {
    let (l, r) = sides();
    let d = compare(&l, &r);
    let p = plan(&d, &at(&[]), &at(&[]), Direction::LeftToRight);
    assert_eq!(p.total_files, d.counts.left_only + d.counts.left_newer);
    let q = plan(&d, &at(&[]), &at(&[]), Direction::RightToLeft);
    assert_eq!(q.total_files, d.counts.right_only + d.counts.right_newer);
}

#[test]
fn an_empty_directory_is_created() {
    let mut l = root();
    put_dir(&mut l, &["e"]);
    let d = compare(&l, &root());
    let p = plan(&d, &at(&["L"]), &at(&["R"]), Direction::LeftToRight);
    assert_eq!(show(&p.ops), ["mkdir R/e"]);
    assert_eq!((p.total_files, p.total_bytes), (0, 0));
    assert!(plan(&d, &at(&["L"]), &at(&["R"]), Direction::RightToLeft).ops.is_empty());
}

#[test]
fn empty_directories_are_created_at_any_depth() {
    let mut l = root();
    put_dir(&mut l, &["both", "mid", "deep"]);
    put(&mut l, &["f"], 1, HOUR);
    let mut r = root();
    put_dir(&mut r, &["both"]);
    put(&mut r, &["f"], 1, HOUR);
    let p = plan(&compare(&l, &r), &at(&[]), &at(&[]), Direction::LeftToRight);
    assert_eq!(show(&p.ops), ["mkdir both/mid", "mkdir both/mid/deep"]);
}

#[test]
fn a_type_mismatch_is_brought_over() {
    let mut l = root();
    put(&mut l, &["x", "in"], 4, HOUR);
    let mut r = root();
    put(&mut r, &["x"], 9, HOUR);
    let d = compare(&l, &r);
    let p = plan(&d, &at(&["L"]), &at(&["R"]), Direction::LeftToRight);
    assert_eq!(show(&p.ops), ["mkdir R/x", "copy L/x/in R/x/in 4"]);
    let q = plan(&d, &at(&["L"]), &at(&["R"]), Direction::RightToLeft);
    assert_eq!(show(&q.ops), ["copy R/x L/x 9"]);
    assert_eq!((q.total_files, d.counts.right_only, d.counts.different), (1, 0, 1));
}

fn found(root: &Node, names: &[String]) -> Meta {
    let mut n = root;
    for name in names {
        let key = name.to_lowercase();
        n = &n.children.entries.iter().find(|e| e.key == key).unwrap().node;
    }
    n.meta
}

#[test]
fn a_second_sync_does_nothing() {
    let (mut l, r) = sides();
    put_dir(&mut l, &["hollow", "inner"]);
    for dir in [Direction::LeftToRight, Direction::RightToLeft] {
        let (src, mut dst) = match dir {
            Direction::LeftToRight => (l.clone(), r.clone()),
            Direction::RightToLeft => (r.clone(), l.clone()),
        };
        let diff = |src: &Node, dst: &Node| match dir {
            Direction::LeftToRight => compare(src, dst),
            Direction::RightToLeft => compare(dst, src),
        };
        let p = plan(&diff(&src, &dst), &at(&[]), &at(&[]), dir);
        assert!(!p.ops.is_empty());
        for op in &p.ops {
            let (to, new) = match op {
                SyncOp::CreateDir { dst } => {
                    let name = dst.components.last().unwrap();
                    let made = Meta { size: 0, mtime: 7 * HOUR, attrs: 0x10 };
                    (dst, Node::new_dir(name, made))
                }
                SyncOp::Copy { src: from, dst, .. } => {
                    let name = dst.components.last().unwrap();
                    (dst, Node::new_file(name, found(&src, &from.components)))
                }
            };
            let names: Vec<&str> = to.components.iter().map(|c| c.as_str()).collect();
            dst.insert_at(&names, new);
        }
        assert!(plan(&diff(&src, &dst), &at(&[]), &at(&[]), dir).ops.is_empty());
    }
}

#[test]
fn a_size_difference_of_one_age_is_left_alone() {
    let mut l = root();
    put(&mut l, &["f"], 1, HOUR);
    let mut r = root();
    put(&mut r, &["f"], 2, HOUR);
    let d = compare(&l, &r);
    assert!(plan(&d, &at(&[]), &at(&[]), Direction::LeftToRight).ops.is_empty());
    assert!(plan(&d, &at(&[]), &at(&[]), Direction::RightToLeft).ops.is_empty());
}

#[test]
fn a_plan_that_does_not_fit_is_refused() {
    let mut l = root();
    put(&mut l, &["a"], u64::MAX, HOUR);
    let fits = checked_plan(&compare(&l, &root()), &at(&[]), &at(&[]), Direction::LeftToRight);
    assert_eq!(fits.unwrap().total_bytes, u64::MAX);
    put(&mut l, &["b"], 1, HOUR);
    let none = checked_plan(&compare(&l, &root()), &at(&[]), &at(&[]), Direction::LeftToRight);
    assert!(none.is_none());
}

#[test]
fn a_run_keeps_the_books() {
    let (l, r) = sides();
    let p = plan(&compare(&l, &r), &at(&["L"]), &at(&["R"]), Direction::LeftToRight);
    let mut run = SyncRun::new();
    let mut seen = Vec::new();
    while let Some(op) = run.next_op(&p) {
        let failure = match op {
            SyncOp::CreateDir { .. } => None,
            SyncOp::Copy { src, .. } => {
                if src.components[1] == "mine" {
                    Some("access denied".to_string())
                } else {
                    None
                }
            }
        };
        if let Some(progress) = run.record(&p, failure) {
            seen.push((progress.done_files, progress.done_bytes, progress.current.components.join("/")));
            assert_eq!((progress.total_files, progress.total_bytes), (3, 13));
        }
    }
    assert_eq!(
        seen,
        [
            (1, 5, "R/New/deep/x".to_string()),
            (1, 5, "R/mine".to_string()),
            (2, 7, "R/newer".to_string()),
        ]
    );
    assert_eq!((run.outcome.copied_files, run.outcome.copied_bytes), (2, 7));
    assert_eq!(run.outcome.errors.len(), 1);
    assert_eq!(run.outcome.errors[0].0.components, ["L", "mine"]);
    assert_eq!(run.outcome.errors[0].1, "access denied");
}

#[test]
fn a_failed_directory_is_reported_under_its_destination() {
    let mut l = root();
    put(&mut l, &["d", "f"], 1, HOUR);
    let p = plan(&compare(&l, &root()), &at(&["L"]), &at(&["R"]), Direction::LeftToRight);
    let mut run = SyncRun::new();
    assert!(run.record(&p, Some("no".to_string())).is_none());
    assert_eq!(run.outcome.errors[0].0.components, ["R", "d"]);
    assert!(run.record(&p, None).is_some());
    assert!(run.next_op(&p).is_none());
    assert_eq!(run.outcome.copied_files, 1);
}

#[test]
fn an_empty_plan_is_done_at_once() {
    let p = SyncPlan::default();
    assert!(SyncRun::new().next_op(&p).is_none());
}

#[test]
fn paths_are_joined_by_component() {
    let p = at(&["a", "b"]);
    assert_eq!(p.components, ["a", "b"]);
    assert_eq!(p.clone().join("c").components, ["a", "b", "c"]);
    assert!(TreePath::new().components.is_empty());
    let op = SyncOp::Copy { src: at(&["x"]), dst: at(&["y"]), size: 3 };
    assert_eq!(show(&[op.clone()]), show(&[op]));
}

/// The destination after a plan, all of whose operations succeeded.
fn apply(p: &SyncPlan, src: &Node, dst: &Node) -> Node {
    let mut out = dst.clone();
    for op in &p.ops {
        match op {
            SyncOp::CreateDir { dst } => {
                let path: Vec<&str> = dst.components.iter().map(|c| c.as_str()).collect();
                put_dir(&mut out, &path);
            }
            SyncOp::Copy { src: from, dst, size } => {
                let mut node = src;
                for c in &from.components {
                    node = node.children.get(&c.to_lowercase()).unwrap();
                }
                assert_eq!(node.meta.size, *size);
                let path: Vec<&str> = dst.components.iter().map(|c| c.as_str()).collect();
                put(&mut out, &path, node.meta.size, node.meta.mtime);
            }
        }
    }
    out
}

#[test]
fn a_sync_leaves_nothing_to_do() {
    let (l, r) = sides();
    let p = plan(&compare(&l, &r), &at(&[]), &at(&[]), Direction::LeftToRight);
    let after = apply(&p, &l, &r);
    let again = plan(&compare(&l, &after), &at(&[]), &at(&[]), Direction::LeftToRight);
    assert!(again.ops.is_empty());
    let q = plan(&compare(&l, &r), &at(&[]), &at(&[]), Direction::RightToLeft);
    let back = apply(&q, &r, &l);
    let again = plan(&compare(&back, &r), &at(&[]), &at(&[]), Direction::RightToLeft);
    assert!(again.ops.is_empty());
}

#[test]
fn a_sync_keeps_the_rest() {
    let (l, r) = sides();
    let p = plan(&compare(&l, &r), &at(&[]), &at(&[]), Direction::LeftToRight);
    let after = apply(&p, &l, &r);
    for (name, size) in [("older", 30), ("size", 40), ("theirs", 60), ("same", 1)] {
        assert_eq!(after.children.get(name).unwrap().meta.size, size);
    }
    assert_eq!(after.children.get("newer").unwrap().meta.size, 2);
}
