//! Metadata, nodes and insertion.

use dagcmp::model::{filetime_from_systemtime, Children, Meta, Node, UnixTime, EPOCH_TICKS};
use dagcmp::text::{decimal_text, led_text, names_match, spaces_text, text_contains, text_equals, text_precedes};

fn meta(size: u64) -> Meta {
    Meta { size, mtime: 7, attrs: 3 }
}

fn keys(n: &Node) -> Vec<String> {
    n.children.entries.iter().map(|c| c.key.clone()).collect()
}

#[test]
fn unix_epoch_has_its_filetime() {
    assert_eq!(EPOCH_TICKS, 11_644_473_600 * 10_000_000);
    assert_eq!(filetime_from_systemtime(UnixTime { nanos: 0 }), 116_444_736_000_000_000);
    assert_eq!(filetime_from_systemtime(UnixTime { nanos: 199 }), 116_444_736_000_000_001);
    assert_eq!(filetime_from_systemtime(UnixTime { nanos: 1_000_000_000 }), 116_444_736_010_000_000);
}

#[test]
fn early_moments_are_clamped() {
    assert_eq!(filetime_from_systemtime(UnixTime { nanos: -100 }), 116_444_735_999_999_999);
    assert_eq!(filetime_from_systemtime(UnixTime { nanos: -99 }), 116_444_736_000_000_000);
    // The year 1600 lies before the Windows epoch.
    let nanos = -(11_644_473_600i128 + 86_400) * 1_000_000_000;
    assert_eq!(filetime_from_systemtime(UnixTime { nanos }), 0);
}

#[test]
fn moments_beyond_the_file_times_are_told_apart() {
    assert!(UnixTime { nanos: i128::MIN }.fits_filetime());
    assert!(UnixTime { nanos: 0 }.fits_filetime());
    let last = (u64::MAX - EPOCH_TICKS) as i128 * 100;
    assert!(UnixTime { nanos: last }.fits_filetime());
    assert!(!UnixTime { nanos: last + 100 }.fits_filetime());
    // A moment 2^64 ticks away or more is not taken for one nearby.
    let far = (u64::MAX as i128 + 1) * 100;
    assert!(!UnixTime { nanos: far }.fits_filetime());
    assert!(!UnixTime { nanos: far + 500 }.fits_filetime());
    assert!(!UnixTime { nanos: i128::MAX }.fits_filetime());
    assert_eq!(filetime_from_systemtime(UnixTime { nanos: -far }), 0);
    assert_eq!(filetime_from_systemtime(UnixTime { nanos: -far - 500 }), 0);
    assert_eq!(filetime_from_systemtime(UnixTime { nanos: i128::MIN }), 0);
}

#[test]
fn filetime_converts_back() {
    let m = Meta { size: 0, mtime: EPOCH_TICKS + 12_345, attrs: 0 };
    let t = m.mtime_systemtime().unwrap();
    assert_eq!(t.nanos, 1_234_500);
    assert_eq!(filetime_from_systemtime(t), m.mtime);
    let early = Meta { mtime: EPOCH_TICKS - 1, ..m };
    assert_eq!(early.mtime_systemtime(), None);
    assert!(m.fits_moment() && early.fits_moment());
    assert!(!Meta { mtime: u64::MAX, ..m }.fits_moment());
}

#[test]
fn metadata_from_a_file_system() {
    let t = UnixTime { nanos: 300 };
    let f = Meta::from_fs(Some(t), false, 42, 0x20);
    assert_eq!(f, Meta { size: 42, mtime: EPOCH_TICKS + 3, attrs: 0x20 });
    let d = Meta::from_fs(None, true, 4096, 0x10);
    assert_eq!(d, Meta { size: 0, mtime: 0, attrs: 0x10 });
    assert_eq!(Meta::default(), Meta { size: 0, mtime: 0, attrs: 0 });
}

#[test]
fn children_are_a_map_in_ascending_order() {
    let mut c = Children::new();
    assert_eq!(c.len(), 0);
    assert!(c.insert("b".to_string(), Node::new_file("b", meta(1))).is_none());
    assert!(c.insert("a".to_string(), Node::new_file("a", meta(2))).is_none());
    assert!(c.insert("c".to_string(), Node::new_file("c", meta(3))).is_none());
    let old = c.insert("b".to_string(), Node::new_file("B", meta(4))).unwrap();
    assert_eq!(old.meta.size, 1);
    assert_eq!(c.len(), 3);
    assert_eq!(c.get("b").unwrap().name, "B");
    assert!(c.get("d").is_none());
    let order: Vec<&str> = c.entries.iter().map(|e| e.key.as_str()).collect();
    assert_eq!(order, ["a", "b", "c"]);
}

#[test]
fn insertion_creates_placeholders() {
    let mut root = Node::new_dir("root", meta(0));
    root.insert_at(&["Docs", "Old", "a.txt"], Node::new_file("a.txt", meta(5)));
    let docs = root.children.get("docs").unwrap();
    assert!(docs.is_dir && docs.name == "Docs" && docs.meta == Meta::default());
    let old = docs.children.get("old").unwrap();
    assert_eq!(old.name, "Old");
    assert_eq!(old.children.get("a.txt").unwrap().meta.size, 5);
}

#[test]
fn keys_are_lower_cased() {
    let mut root = Node::new_dir("root", meta(0));
    root.insert_at(&["ÄPFEL.TXT"], Node::new_file("ÄPFEL.TXT", meta(1)));
    assert_eq!(keys(&root), ["äpfel.txt"]);
    root.insert_at(&["äpfel.txt"], Node::new_file("äpfel.txt", meta(2)));
    assert_eq!(root.children.len(), 1);
    assert_eq!(root.children.get("äpfel.txt").unwrap().meta.size, 2);
    assert!(names_match("SAME.TXT", "same.txt"));
    assert!(!names_match("same.txt", "sane.txt"));
}

#[test]
fn insertion_under_given_keys() {
    let mut root = Node::new_dir("root", meta(0));
    let under = vec!["k".to_string(), "l".to_string()];
    root.insert_under(&["A", "B"], &under, Node::new_file("B", meta(9)));
    assert_eq!(keys(&root), ["k"]);
    assert_eq!(root.children.get("k").unwrap().name, "A");
    assert_eq!(root.children.get("k").unwrap().children.get("l").unwrap().meta.size, 9);
}

#[test]
fn placeholders_are_filled_in_later() {
    let mut a = Node::new_dir("root", meta(0));
    a.insert_at(&["d", "x"], Node::new_file("x", meta(1)));
    a.insert_at(&["D"], Node::new_dir("D", meta(8)));
    let mut b = Node::new_dir("root", meta(0));
    b.insert_at(&["D"], Node::new_dir("D", meta(8)));
    b.insert_at(&["D", "x"], Node::new_file("x", meta(1)));
    for t in [&a, &b] {
        let d = t.children.get("d").unwrap();
        assert!(d.is_dir && d.name == "D" && d.meta == meta(8));
        assert_eq!(d.children.len(), 1);
    }
}

#[test]
fn the_order_of_insertions_does_not_matter() {
    let mut a = Node::new_dir("root", meta(0));
    a.insert_at(&["d", "x"], Node::new_file("x", meta(1)));
    a.insert_at(&["d", "y"], Node::new_file("y", meta(2)));
    let mut b = Node::new_dir("root", meta(0));
    b.insert_at(&["d", "y"], Node::new_file("y", meta(2)));
    b.insert_at(&["d", "x"], Node::new_file("x", meta(1)));
    assert_eq!(format!("{:?}", a), format!("{:?}", b));
}

#[test]
fn inserting_twice_is_inserting_once() {
    let mut a = Node::new_dir("root", meta(0));
    a.insert_at(&["d", "x"], Node::new_file("x", meta(1)));
    let once = format!("{:?}", a);
    a.insert_at(&["d", "x"], Node::new_file("x", meta(1)));
    assert_eq!(format!("{:?}", a), once);
}

#[test]
fn an_empty_path_updates_the_node_itself() {
    let mut root = Node::new_dir("root", meta(0));
    root.insert_at(&[], Node::new_dir("other", meta(6)));
    assert_eq!(root.name, "root");
    assert_eq!(root.meta, meta(6));
}

#[test]
fn totals_exclude_the_node_itself() {
    let mut root = Node::new_dir("root", meta(100));
    assert_eq!(root.totals(), (0, 0, 0));
    root.insert_at(&["d", "e", "x"], Node::new_file("x", meta(5)));
    root.insert_at(&["y"], Node::new_file("y", meta(6)));
    assert_eq!(root.totals(), (2, 2, 11));
    assert_eq!(root.checked_totals(), Some((2, 2, 11)));
    assert_eq!(root.checked_node_count(), Some(4));
}

#[test]
fn totals_that_do_not_fit_are_refused() {
    let mut root = Node::new_dir("root", meta(0));
    root.insert_at(&["a"], Node::new_file("a", meta(u64::MAX)));
    assert_eq!(root.checked_totals(), Some((1, 0, u64::MAX)));
    root.insert_at(&["b"], Node::new_file("b", meta(1)));
    assert_eq!(root.checked_totals(), None);
}

#[test]
fn a_clone_is_the_same_tree() {
    let mut root = Node::new_dir("root", meta(1));
    root.insert_at(&["d", "x"], Node::new_file("x", meta(5)));
    assert_eq!(format!("{:?}", root.clone()), format!("{:?}", root));
}

#[test]
fn texts_are_ordered_by_code_point() {
    assert!(text_precedes("", "a"));
    assert!(text_precedes("a", "a"));
    assert!(text_precedes("a", "ab"));
    assert!(!text_precedes("b", "ab"));
    assert!(text_precedes("Z", "a"));
    assert!(text_precedes("z", "ä"));
    assert!(text_equals("ä", "ä"));
    assert!(!text_equals("ä", "a"));
}

#[test]
fn texts_are_searched() {
    assert!(text_contains("elevation error", "elevat"));
    assert!(text_contains("needs elevation", "elevat"));
    assert!(!text_contains("eleva", "elevat"));
    assert!(!text_contains("access denied", "elevat"));
    assert!(text_contains("anything", ""));
}

#[test]
fn numbers_and_spaces_are_written() {
    assert_eq!(decimal_text(0), "0");
    assert_eq!(decimal_text(9), "9");
    assert_eq!(decimal_text(10), "10");
    assert_eq!(decimal_text(1_234_567_890), "1234567890");
    assert_eq!(decimal_text(u64::MAX as u128), "18446744073709551615");
    assert_eq!(spaces_text(0), "");
    assert_eq!(spaces_text(3), "   ");
    assert_eq!(led_text(&vec!["a".to_string(), "b".to_string()], "/"), "/a/b");
}

#[test]
fn a_directory_may_be_spelled_in_two_ways() {
    let file = || Node::new_file("f", meta(1));
    let mut later = Node::new_dir("root", meta(0));
    later.insert_at(&["A", "B", "f"], file());
    later.insert_at(&["a", "b"], Node::new_dir("b", meta(8)));
    let mut first = Node::new_dir("root", meta(0));
    first.insert_at(&["a", "b"], Node::new_dir("b", meta(8)));
    first.insert_at(&["A", "B", "f"], file());
    for t in [&later, &first] {
        let b = t.children.get("a").unwrap().children.get("b").unwrap();
        assert!(b.is_dir && b.name == "b" && b.meta == meta(8));
        assert_eq!(b.children.get("f").unwrap().meta, meta(1));
        assert_eq!(t.totals(), (1, 2, 1));
    }
    // A directory above keeps the spelling that it came with.
    assert_eq!(later.children.get("a").unwrap().name, "A");
    assert_eq!(first.children.get("a").unwrap().name, "a");
    // Once it is in the tree, the order does not matter.
    for root in [&mut later, &mut first] {
        root.insert_at(&["A"], Node::new_dir("A", meta(3)));
    }
    assert_eq!(format!("{later:?}"), format!("{first:?}"));
}

#[test]
fn totals_follow_insertions() {
    let mut root = Node::new_dir("root", meta(0));
    root.insert_at(&["a", "b", "f"], Node::new_file("f", meta(5)));
    assert_eq!(root.totals(), (1, 2, 5));
    root.insert_at(&["a", "c"], Node::new_dir("c", meta(9)));
    assert_eq!(root.totals(), (1, 3, 5));
    root.insert_at(&["A", "B", "F"], Node::new_file("F", meta(7)));
    assert_eq!(root.totals(), (1, 3, 7));
    root.insert_at(&["a"], Node::new_dir("a", meta(4)));
    assert_eq!(root.totals(), (1, 3, 7));
}
