//! Comparing trees.

use dagcmp::compare::{
    checked_compare, compare, file_status, Counts, DiffNode, Status, MTIME_TOLERANCE,
};
use dagcmp::display_order::{ranks_before, sort_dirs_first};
use dagcmp::model::{Meta, Node};

fn file(name: &str, size: u64, mtime: u64) -> Node {
    Node::new_file(
        name,
        Meta {
            size,
            mtime,
            attrs: 0,
        },
    )
}

fn tree(children: Vec<Node>) -> Node {
    let mut root = Node::new_dir("root", Meta::default());
    for c in children {
        root.children.insert(c.name.to_lowercase(), c);
    }
    root
}

fn dir(name: &str, children: Vec<Node>) -> Node {
    let mut n = Node::new_dir(name, Meta::default());
    for c in children {
        n.children.insert(c.name.to_lowercase(), c);
    }
    n
}

fn names(d: &DiffNode) -> Vec<String> {
    d.children.iter().map(|c| c.name.clone()).collect()
}

const HOUR: u64 = 3600 * 10_000_000;

#[test]
fn statuses() {
    let left = tree(vec![
        file("same.txt", 10, HOUR),
        file("newer_left.txt", 10, 3 * HOUR),
        file("newer_right.txt", 10, HOUR),
        file("size_diff.txt", 10, HOUR),
        file("left_only.txt", 10, HOUR),
    ]);
    let right = tree(vec![
        file("SAME.TXT", 10, HOUR),
        file("newer_left.txt", 10, HOUR),
        file("newer_right.txt", 10, 3 * HOUR),
        file("size_diff.txt", 20, HOUR),
        file("right_only.txt", 10, HOUR),
    ]);
    let diff = compare(&left, &right);
    let get = |n: &str| {
        diff.children
            .iter()
            .find(|c| c.name.to_lowercase() == n)
            .unwrap()
            .status
    };
    assert_eq!(get("same.txt"), Status::Identical);
    assert_eq!(get("newer_left.txt"), Status::LeftNewer);
    assert_eq!(get("newer_right.txt"), Status::RightNewer);
    assert_eq!(get("size_diff.txt"), Status::Different);
    assert_eq!(get("left_only.txt"), Status::LeftOnly);
    assert_eq!(get("right_only.txt"), Status::RightOnly);
    assert_eq!(diff.counts.identical, 1);
    assert_eq!(diff.counts.differing(), 5);
}

#[test]
fn mtime_tolerance_absorbs_fat_resolution() {
    let l = tree(vec![file("a.txt", 10, HOUR)]);
    let r = tree(vec![file("a.txt", 10, HOUR + MTIME_TOLERANCE)]);
    assert!(compare(&l, &r).counts.in_sync());
    let r2 = tree(vec![file("a.txt", 10, HOUR + MTIME_TOLERANCE + 1)]);
    assert!(!compare(&l, &r2).counts.in_sync());
}

#[test]
fn dir_aggregation() {
    let mut l_sub = Node::new_dir("sub", Meta::default());
    l_sub
        .children
        .insert("x.txt".into(), file("x.txt", 1, HOUR));
    let mut r_sub = Node::new_dir("sub", Meta::default());
    r_sub
        .children
        .insert("y.txt".into(), file("y.txt", 1, HOUR));
    let l = tree(vec![l_sub]);
    let r = tree(vec![r_sub]);
    let diff = compare(&l, &r);
    assert_eq!(diff.counts.left_only, 1);
    assert_eq!(diff.counts.right_only, 1);
    let sub = &diff.children[0];
    assert!(sub.is_dir);
    assert_eq!(sub.counts.differing(), 2);
}

#[test]
fn tolerance_is_two_seconds() {
    assert_eq!(MTIME_TOLERANCE, 20_000_000);
}

#[test]
fn counts_of_each_status() {
    let all = [
        (Status::Identical, [1, 0, 0, 0, 0, 0]),
        (Status::LeftNewer, [0, 1, 0, 0, 0, 0]),
        (Status::RightNewer, [0, 0, 1, 0, 0, 0]),
        (Status::Different, [0, 0, 0, 1, 0, 0]),
        (Status::LeftOnly, [0, 0, 0, 0, 1, 0]),
        (Status::RightOnly, [0, 0, 0, 0, 0, 1]),
    ];
    for (s, n) in all {
        let c = Counts::from_status(s);
        assert_eq!(
            [c.identical, c.left_newer, c.right_newer, c.different, c.left_only, c.right_only],
            n
        );
        assert_eq!(c.in_sync(), s == Status::Identical);
        assert_eq!(c.differing(), if s == Status::Identical { 0 } else { 1 });
    }
}

#[test]
fn counts_add_up_field_by_field() {
    let mut c = Counts {
        identical: 1,
        left_newer: 2,
        right_newer: 3,
        different: 4,
        left_only: 5,
        right_only: 6,
    };
    let d = Counts {
        identical: 10,
        left_newer: 20,
        right_newer: 30,
        different: 40,
        left_only: 50,
        right_only: 60,
    };
    c.add_assign(d);
    assert_eq!(
        c,
        Counts {
            identical: 11,
            left_newer: 22,
            right_newer: 33,
            different: 44,
            left_only: 55,
            right_only: 66,
        }
    );
    assert_eq!(c.differing(), 220);
    assert_eq!(Counts::default().differing(), 0);
}

#[test]
fn directories_come_first_then_lower_cased_names() {
    let left = tree(vec![
        file("b.txt", 1, HOUR),
        file("A.txt", 1, HOUR),
        dir("Zebra", vec![]),
        dir("apple", vec![]),
    ]);
    let diff = compare(&left, &tree(vec![]));
    assert_eq!(names(&diff), ["apple", "Zebra", "A.txt", "b.txt"]);
    assert!(sort_dirs_first(&diff.children[0], &diff.children[3]));
    assert!(!sort_dirs_first(&diff.children[3], &diff.children[0]));
    assert!(sort_dirs_first(&diff.children[2], &diff.children[3]));
    assert!(ranks_before(true, "z", false, "a"));
    assert!(!ranks_before(false, "a", true, "z"));
    assert!(ranks_before(false, "a", false, "a"));
    assert!(!ranks_before(true, "b", true, "a"));
}

#[test]
fn upper_case_sorts_by_its_lower_case() {
    // By code point "B" comes before "a": only the lower-cased names put "a" first.
    let left = tree(vec![file("B", 1, HOUR), file("a", 1, HOUR)]);
    assert_eq!(names(&compare(&left, &tree(vec![]))), ["a", "B"]);
}

#[test]
fn left_name_is_kept_for_a_match() {
    let l = tree(vec![file("ReadMe.md", 1, HOUR)]);
    let r = tree(vec![file("README.MD", 1, HOUR)]);
    let diff = compare(&l, &r);
    assert_eq!(names(&diff), ["ReadMe.md"]);
    assert_eq!(diff.children[0].status, Status::Identical);
    assert_eq!(diff.name, "root");
}

#[test]
fn a_tree_equals_itself() {
    let t = tree(vec![
        dir("d", vec![file("x", 1, HOUR), dir("e", vec![file("y", 2, 2 * HOUR)])]),
        file("z", 3, 3 * HOUR),
    ]);
    let diff = compare(&t, &t);
    assert_eq!(diff.status, Status::Identical);
    assert_eq!(diff.counts.identical, 3);
    assert_eq!(diff.counts.differing(), 0);
}

#[test]
fn exchanging_the_sides_mirrors_the_counts() {
    let l = tree(vec![
        file("a", 1, 9 * HOUR),
        file("b", 1, HOUR),
        file("c", 1, HOUR),
        dir("d", vec![file("e", 1, HOUR), file("f", 1, HOUR)]),
    ]);
    let r = tree(vec![file("a", 1, HOUR), file("b", 2, HOUR), file("g", 1, HOUR)]);
    let x = compare(&l, &r).counts;
    let y = compare(&r, &l).counts;
    assert_eq!((x.left_newer, x.right_newer), (1, 0));
    assert_eq!((y.left_newer, y.right_newer), (0, 1));
    assert_eq!((x.left_only, x.right_only), (3, 1));
    assert_eq!((y.left_only, y.right_only), (1, 3));
    assert_eq!((x.different, y.different), (1, 1));
}

#[test]
fn type_mismatch_shows_as_two_different_entries() {
    let l = tree(vec![dir("x", vec![file("inner", 1, HOUR)])]);
    let r = tree(vec![file("X", 5, HOUR)]);
    let diff = compare(&l, &r);
    assert_eq!(names(&diff), ["x", "X"]);
    assert!(diff.children[0].is_dir && !diff.children[1].is_dir);
    assert_eq!(diff.children[0].status, Status::Different);
    assert_eq!(diff.children[1].status, Status::Different);
    assert!(diff.children[0].left.is_some());
    assert_eq!(diff.children[0].right, None);
    assert_eq!(diff.children[1].left, None);
    assert_eq!(diff.children[1].right.unwrap().size, 5);
    assert_eq!(diff.children[0].children[0].status, Status::LeftOnly);
    assert_eq!(diff.status, Status::Different);
    let c = diff.counts;
    assert_eq!((c.left_only, c.right_only, c.different), (1, 0, 1));
}

#[test]
fn an_empty_directory_against_a_file_is_different() {
    let diff = compare(&tree(vec![file("x", 5, HOUR)]), &tree(vec![dir("x", vec![])]));
    assert_eq!(diff.children.len(), 2);
    assert!(diff.children[0].is_dir);
    assert_eq!(diff.children[0].status, Status::Different);
    assert_eq!(diff.children[1].status, Status::Different);
    assert_eq!(diff.children[0].left, None);
    assert_eq!(diff.children[1].right, None);
    assert_eq!(diff.counts.different, 1);
    assert_eq!(diff.counts.differing(), 1);
}

fn mirrored(s: Status) -> Status {
    match s {
        Status::LeftNewer => Status::RightNewer,
        Status::RightNewer => Status::LeftNewer,
        Status::LeftOnly => Status::RightOnly,
        Status::RightOnly => Status::LeftOnly,
        s => s,
    }
}

fn assert_mirrors(a: &DiffNode, b: &DiffNode) {
    assert_eq!(a.is_dir, b.is_dir);
    assert_eq!((a.left, a.right), (b.right, b.left));
    assert_eq!(a.status, mirrored(b.status));
    assert_eq!(a.counts.left_only, b.counts.right_only);
    assert_eq!(a.counts.right_newer, b.counts.left_newer);
    assert_eq!(a.counts.different, b.counts.different);
    assert_eq!(a.counts.identical, b.counts.identical);
    assert_eq!(a.children.len(), b.children.len());
    for (x, y) in a.children.iter().zip(b.children.iter()) {
        assert_eq!(x.name.to_lowercase(), y.name.to_lowercase());
        assert_mirrors(x, y);
    }
}

#[test]
fn exchanging_the_sides_mirrors_the_diff() {
    let l = tree(vec![
        file("A", 1, 9 * HOUR),
        file("b", 1, HOUR),
        dir("clash", vec![file("in", 1, HOUR)]),
        dir("Both", vec![file("x", 1, HOUR), dir("deep", vec![])]),
        dir("left", vec![file("e", 1, HOUR), dir("d", vec![])]),
    ]);
    let r = tree(vec![
        file("a", 1, HOUR),
        file("b", 2, HOUR),
        file("CLASH", 7, HOUR),
        dir("bOTH", vec![file("X", 1, 5 * HOUR)]),
        file("right", 1, HOUR),
    ]);
    let d = compare(&l, &r);
    assert_eq!(names(&d), ["Both", "clash", "left", "A", "b", "CLASH", "right"]);
    assert_eq!(names(&compare(&r, &l)), ["bOTH", "clash", "left", "a", "b", "CLASH", "right"]);
    assert_mirrors(&d, &compare(&r, &l));
}

#[test]
fn only_size_and_time_make_a_status() {
    let meta = |size: u64, mtime: u64, attrs: u32| Meta { size, mtime, attrs };
    let d = MTIME_TOLERANCE;
    let pairs = [
        (meta(7, HOUR, 0), meta(7, HOUR + d, 0), Status::Identical),
        (meta(7, HOUR, 0), meta(8, HOUR + d, 0), Status::Different),
        (meta(7, HOUR, 0), meta(7, HOUR + d + 1, 0), Status::RightNewer),
        (meta(7, HOUR + d + 1, 0), meta(8, HOUR, 0), Status::LeftNewer),
    ];
    for (l, r, status) in pairs {
        assert_eq!(file_status(&l, &r), status);
        // Exchanging the files exchanges the sides.
        assert_eq!(file_status(&r, &l), mirrored(status));
        // A file equals itself.
        assert_eq!(file_status(&l, &l), Status::Identical);
        // Attributes play no part.
        let other = Meta { attrs: 0x21, ..l };
        assert_eq!(file_status(&other, &r), status);
        // Moving both times leaves the status.
        let (later, too) = (Meta { mtime: l.mtime + HOUR, ..l }, Meta { mtime: r.mtime + HOUR, ..r });
        assert_eq!(file_status(&later, &too), status);
    }
}

#[test]
fn newer_wins_over_size() {
    let l = tree(vec![file("a", 1, HOUR)]);
    let r = tree(vec![file("a", 99, HOUR + MTIME_TOLERANCE + 1)]);
    assert_eq!(compare(&l, &r).children[0].status, Status::RightNewer);
    assert_eq!(compare(&r, &l).children[0].status, Status::LeftNewer);
}

#[test]
fn empty_directories_count_nothing() {
    let diff = compare(&tree(vec![dir("only", vec![])]), &tree(vec![]));
    assert_eq!(diff.children[0].status, Status::LeftOnly);
    assert!(diff.counts.in_sync());
    assert_eq!(diff.status, Status::Identical);
}

#[test]
fn every_file_of_both_sides_is_counted() {
    let l = tree(vec![dir("d", vec![file("x", 1, 1), file("y", 1, 1)]), file("z", 1, 1)]);
    let r = tree(vec![dir("D", vec![file("X", 1, 1)]), file("w", 1, 1)]);
    let c = compare(&l, &r).counts;
    let on_left = c.identical + c.left_newer + c.right_newer + c.different + c.left_only;
    let on_right = c.identical + c.left_newer + c.right_newer + c.different + c.right_only;
    assert_eq!(on_left, l.totals().0);
    assert_eq!(on_right, r.totals().0);
}

#[test]
fn a_file_that_faces_a_directory_counts_as_different() {
    let l = tree(vec![file("x", 1, 1), file("z", 1, 1)]);
    let r = tree(vec![dir("X", vec![file("in", 1, 1)]), file("Z", 1, 1)]);
    let c = compare(&l, &r).counts;
    assert_eq!((c.identical, c.different, c.left_only, c.right_only), (1, 1, 0, 1));
    let on_left = c.identical + c.left_newer + c.right_newer + c.different + c.left_only;
    let on_right = c.identical + c.left_newer + c.right_newer + c.different + c.right_only;
    assert_eq!(on_left, l.totals().0);
    assert_eq!(on_right, r.totals().0 + 1);
}

#[test]
fn checked_compare_gives_the_same_diff() {
    let l = tree(vec![file("a", 1, HOUR)]);
    let r = tree(vec![file("b", 1, HOUR)]);
    let d = checked_compare(&l, &r).unwrap();
    assert_eq!(d.counts, compare(&l, &r).counts);
    assert_eq!(d.clone().children.len(), 2);
}
