//! Scans: their decisions, and the trees that both scanners build.

use dagcmp::model::{Meta, Node, UnixTime, EPOCH_TICKS};
use dagcmp::scan::fixup::{fixup_record, fixup_records};
use dagcmp::scan::mft::{
    drive_of, require_part, volume_path, MftError, MftPart, MftRecord, MftScan, PathPrefix,
};
use dagcmp::scan::volume::{
    fill_step, AlignedVolumeReader, FillStep, ReadEvent, SeekError, SeekTo, READ_ALIGN, READ_CHUNK,
};
use dagcmp::scan::walk::{WalkEntry, WalkScan};
use dagcmp::scan::{
    check_root, AutoEvent, AutoScan, Elapsed, PairEvent, PairScan, RootKind, ScanError, ScanMethod,
    ScanOptions, ScanProgress, ScanResult,
};

fn dir(name: &str) -> Node {
    Node::new_dir(name, Meta::default())
}

fn texts(names: &[&str]) -> Vec<String> {
    names.iter().map(|n| n.to_string()).collect()
}

const TOOK: Elapsed = Elapsed { nanos: 1_500 };

#[test]
fn options_try_the_fast_path_by_default() {
    assert!(ScanOptions::default().try_mft);
}

#[test]
fn errors_in_words() {
    assert_eq!(
        ScanError::RootNotFound("x".to_string()).message(),
        "path does not exist or is not accessible: x"
    );
    assert_eq!(ScanError::NotADirectory("x".to_string()).message(), "path is not a directory: x");
    assert_eq!(ScanError::Io("boom".to_string()).message(), "io error: boom");
    assert_eq!(MftError::NotLocalDrive.message(), "not a local drive path");
    assert_eq!(MftError::NotElevated.message(), "process is not elevated");
    assert_eq!(MftError::Ntfs("bad".to_string()).message(), "volume error: bad");
    assert_eq!(MftError::Io("bad".to_string()).message(), "io error: bad");
}

#[test]
fn a_root_has_to_be_a_directory() {
    assert!(check_root("p", RootKind::Directory).is_ok());
    assert!(matches!(check_root("p", RootKind::Missing), Err(ScanError::RootNotFound(p)) if p == "p"));
    assert!(matches!(check_root("p", RootKind::Other), Err(ScanError::NotADirectory(p)) if p == "p"));
    match step(AutoScan::Look, AutoEvent::Root(RootKind::Missing), true) {
        AutoScan::Failed(e) => {
            assert_eq!(e.message(), "path does not exist or is not accessible: p")
        }
        other => panic!("{other:?}"),
    }
    assert!(matches!(
        step(AutoScan::Look, AutoEvent::Root(RootKind::Other), true),
        AutoScan::Failed(ScanError::NotADirectory(_))
    ));
}

const ON: ScanOptions = ScanOptions { try_mft: true };
const OFF: ScanOptions = ScanOptions { try_mft: false };

fn step(s: AutoScan, e: AutoEvent, has_mft: bool) -> AutoScan {
    s.next(e, "p", ON, has_mft)
}

fn ended(s: AutoScan) -> ScanResult {
    match s {
        AutoScan::Done(r) => r,
        other => panic!("{other:?}"),
    }
}

#[test]
fn the_fast_path_ends_the_scan() {
    let s = step(AutoScan::Look, AutoEvent::Root(RootKind::Directory), true);
    assert!(matches!(s, AutoScan::Mft));
    let r = ended(step(s, AutoEvent::Mft(Ok(dir("root")), TOOK), true));
    assert_eq!(r.method, ScanMethod::Mft);
    assert_eq!((r.root_path.as_str(), r.root.name.as_str()), ("p", "root"));
    assert_eq!((r.skipped, r.duration), (0, TOOK));
    assert_eq!(r.mft_fallback_reason, None);
}

#[test]
fn a_fallback_is_explained() {
    let s = step(AutoScan::Look, AutoEvent::Root(RootKind::Directory), true);
    let s = step(s, AutoEvent::Mft(Err(MftError::NotElevated), TOOK), true);
    assert!(matches!(&s, AutoScan::Walk { reason: Some(_) }));
    let r = ended(step(s, AutoEvent::Walk(Ok((dir("root"), 3)), TOOK), true));
    assert_eq!(r.method, ScanMethod::Walk);
    assert_eq!(r.skipped, 3);
    assert_eq!(r.mft_fallback_reason.as_deref(), Some("process is not elevated"));
}

#[test]
fn a_plain_walk_needs_no_reason() {
    let s = AutoScan::Look.next(AutoEvent::Root(RootKind::Directory), "p", OFF, true);
    assert!(matches!(&s, AutoScan::Walk { reason: None }));
    let r = ended(s.next(AutoEvent::Walk(Ok((dir("root"), 0)), TOOK), "p", OFF, true));
    assert_eq!(r.mft_fallback_reason, None);
    let s = step(AutoScan::Look, AutoEvent::Root(RootKind::Directory), false);
    assert!(matches!(&s, AutoScan::Walk { reason: None }));
    match step(s, AutoEvent::Walk(Err("gone".to_string()), TOOK), false) {
        AutoScan::Failed(e) => assert_eq!(e.message(), "io error: gone"),
        other => panic!("{other:?}"),
    }
}

#[test]
fn an_event_that_was_not_awaited_changes_nothing() {
    let s = step(AutoScan::Look, AutoEvent::Walk(Ok((dir("x"), 0)), TOOK), true);
    assert!(matches!(s, AutoScan::Look));
    let s = pair_step(PairScan::Shared, PairEvent::Root(RootKind::Missing));
    assert!(matches!(s, PairScan::Shared));
}

fn pair_step(s: PairScan, e: PairEvent) -> PairScan {
    s.next(e, "l", "r", ON)
}

fn walked(path: &str, name: &str) -> ScanResult {
    ScanResult {
        root_path: path.to_string(),
        root: dir(name),
        method: ScanMethod::Walk,
        duration: TOOK,
        skipped: 1,
        mft_fallback_reason: None,
    }
}

#[test]
fn a_pair_shares_a_volume_only_on_one_drive() {
    assert!(matches!(PairScan::start(ON, true), PairScan::Drives));
    assert!(matches!(PairScan::start(ON, false), PairScan::Left { reason: None, .. }));
    assert!(matches!(PairScan::start(OFF, true), PairScan::Left { reason: None, .. }));
    let after = |l: Option<char>, r: Option<char>| {
        pair_step(PairScan::Drives, PairEvent::Drives(l, r))
    };
    assert!(matches!(after(Some('C'), Some('C')), PairScan::LeftRoot));
    for (l, r) in [(Some('C'), Some('D')), (None, None), (Some('C'), None), (None, Some('C'))] {
        assert!(matches!(
            after(l, r),
            PairScan::Left { options: ScanOptions { try_mft: true }, reason: None }
        ));
    }
}

#[test]
fn a_shared_read_looks_at_both_roots_first() {
    let s = pair_step(PairScan::LeftRoot, PairEvent::Root(RootKind::Directory));
    assert!(matches!(s, PairScan::RightRoot));
    match pair_step(s, PairEvent::Root(RootKind::Other)) {
        PairScan::Failed(e) => assert_eq!(e.message(), "path is not a directory: r"),
        other => panic!("{other:?}"),
    }
    match pair_step(PairScan::LeftRoot, PairEvent::Root(RootKind::Missing)) {
        PairScan::Failed(e) => {
            assert_eq!(e.message(), "path does not exist or is not accessible: l")
        }
        other => panic!("{other:?}"),
    }
    let s = pair_step(PairScan::RightRoot, PairEvent::Root(RootKind::Directory));
    assert!(matches!(s, PairScan::Shared));
}

#[test]
fn a_shared_read_serves_both_sides() {
    match pair_step(PairScan::Shared, PairEvent::Shared(Ok((dir("a"), dir("b"))), TOOK)) {
        PairScan::Done(l, r) => {
            assert_eq!((l.root_path.as_str(), l.root.name.as_str()), ("l", "a"));
            assert_eq!((r.root_path.as_str(), r.root.name.as_str()), ("r", "b"));
            assert_eq!((l.method, r.method), (ScanMethod::Mft, ScanMethod::Mft));
            assert_eq!((l.duration, r.duration), (TOOK, TOOK));
            assert_eq!(r.mft_fallback_reason, None);
        }
        other => panic!("{other:?}"),
    }
}

#[test]
fn a_failed_shared_read_is_not_repeated() {
    let s = pair_step(PairScan::Shared, PairEvent::Shared(Err(MftError::NotElevated), TOOK));
    assert!(matches!(
        &s,
        PairScan::Left { options: ScanOptions { try_mft: false }, reason: Some(_) }
    ));
    let s = pair_step(s, PairEvent::Side(Ok(walked("l", "a"))));
    assert!(matches!(
        &s,
        PairScan::Right { options: ScanOptions { try_mft: false }, reason: Some(_), .. }
    ));
    match pair_step(s, PairEvent::Side(Ok(walked("r", "b")))) {
        PairScan::Done(l, r) => {
            for side in [&l, &r] {
                assert_eq!(side.mft_fallback_reason.as_deref(), Some("process is not elevated"));
                assert_eq!((side.method, side.skipped), (ScanMethod::Walk, 1));
            }
            assert_eq!((l.root.name.as_str(), r.root.name.as_str()), ("a", "b"));
        }
        other => panic!("{other:?}"),
    }
}

#[test]
fn sides_scanned_alone_keep_their_results() {
    let s = PairScan::start(ON, false);
    let s = pair_step(s, PairEvent::Side(Ok(walked("l", "a"))));
    match pair_step(s, PairEvent::Side(Ok(walked("r", "b")))) {
        PairScan::Done(l, r) => {
            assert_eq!((l.mft_fallback_reason, r.mft_fallback_reason), (None, None));
        }
        other => panic!("{other:?}"),
    }
    let failed = PairEvent::Side(Err(ScanError::Io("x".to_string())));
    assert!(matches!(
        pair_step(PairScan::start(ON, false), failed),
        PairScan::Failed(ScanError::Io(_))
    ));
}

#[test]
fn a_walk_counts_and_skips() {
    let mut w = WalkScan::new(Some("root"), "/x/root", Meta::default());
    assert_eq!(w.tree.name, "root");
    let found = |path: &[&str], is_dir: bool| WalkEntry::Found {
        components: texts(path),
        is_dir,
        meta: Meta { size: 1, mtime: 2, attrs: 3 },
    };
    assert!(w.record(found(&["A"], true)).is_none());
    assert!(w.record(WalkEntry::Unreadable).is_none());
    assert!(w.record(found(&["A", "b"], false)).is_none());
    assert_eq!((w.entries, w.skipped), (3, 1));
    let a = w.tree.children.get("a").unwrap();
    assert!(a.is_dir && a.name == "A" && a.meta.attrs == 3);
    assert!(!a.children.get("b").unwrap().is_dir);
    assert_eq!(w.tree.totals(), (1, 1, 1));
}

#[test]
fn the_order_of_entries_does_not_matter() {
    let entries: [(&[&str], bool); 4] =
        [(&["d"], true), (&["d", "e"], true), (&["d", "e", "x"], false), (&["y"], false)];
    let built = |order: [usize; 4]| {
        let mut w = WalkScan::new(Some("r"), "/r", Meta::default());
        for i in order {
            let (path, is_dir) = entries[i];
            w.record(WalkEntry::Found {
                components: texts(path),
                is_dir,
                meta: Meta { size: i as u64, mtime: 1, attrs: 0 },
            });
        }
        format!("{:?}", w.tree)
    };
    let first = built([0, 1, 2, 3]);
    for order in [[3, 2, 1, 0], [2, 0, 3, 1], [1, 3, 0, 2], [0, 2, 1, 3]] {
        assert_eq!(built(order), first);
    }
}

#[test]
fn a_root_without_a_name_is_shown_whole() {
    assert_eq!(WalkScan::new(None, "/", Meta::default()).tree.name, "/");
}

#[test]
fn a_walk_reports_every_4096_entries() {
    let mut w = WalkScan::new(None, "/", Meta::default());
    let mut reports = Vec::new();
    for _ in 0..8200 {
        if let Some(ScanProgress::WalkEntries { entries }) = w.record(WalkEntry::Unreadable) {
            reports.push(entries);
        }
    }
    assert_eq!(reports, [4096, 8192]);
    assert_eq!(w.skipped, 8200);
}

#[test]
fn drives_and_volumes() {
    assert_eq!(drive_of(PathPrefix::Disk(b'C')), Some('C'));
    assert_eq!(drive_of(PathPrefix::VerbatimDisk(b'd')), Some('d'));
    assert_eq!(drive_of(PathPrefix::Other), None);
    assert_eq!(volume_path('C'), "\\\\.\\C:");
}

#[test]
fn reader_errors_that_speak_of_elevation() {
    assert!(matches!(MftError::from_reader("Elevation error".to_string()), MftError::NotElevated));
    assert!(matches!(MftError::from_reader("not ELEVATED".to_string()), MftError::NotElevated));
    assert!(matches!(MftError::from_reader("Disk".to_string()), MftError::Ntfs(m) if m == "Disk"));
    assert!(matches!(MftError::from_lowered("X".to_string(), "elevated"), MftError::NotElevated));
    assert!(matches!(MftError::from_lowered("elevated".to_string(), "x"), MftError::Ntfs(_)));
}

#[test]
fn missing_parts_of_the_mft() {
    assert_eq!(require_part(MftPart::Data, Some(vec![1])).unwrap(), [1]);
    let e = require_part(MftPart::Data, None).unwrap_err();
    assert_eq!(e.message(), "volume error: missing $MFT Data attribute");
    let e = require_part(MftPart::Bitmap, None).unwrap_err();
    assert_eq!(e.message(), "volume error: missing $MFT Bitmap attribute");
}

fn record(path: &[&str], is_directory: bool) -> MftRecord {
    MftRecord {
        name: path[path.len() - 1].to_string(),
        path: texts(path),
        is_directory,
        size: 10,
        modified: Some(UnixTime { nanos: 500 }),
        attrs: 0x20,
    }
}

#[test]
fn records_carry_metadata() {
    assert_eq!(
        record(&["f"], false).meta(),
        Meta { size: 10, mtime: EPOCH_TICKS + 5, attrs: 0x20 }
    );
    assert_eq!(record(&["d"], true).meta().size, 0);
    let mut r = record(&["f"], false);
    r.modified = None;
    assert_eq!(r.meta().mtime, 0);
    r.modified = Some(UnixTime { nanos: -250 });
    assert_eq!(r.meta().mtime, EPOCH_TICKS - 2);
    r.modified = Some(UnixTime { nanos: -(EPOCH_TICKS as i128 + 1) * 100 });
    assert_eq!(r.meta().mtime, 0);
    let far = (u64::MAX as i128 + 1) * 100;
    r.modified = Some(UnixTime { nanos: -far });
    assert_eq!(r.meta().mtime, 0);
    let last = (u64::MAX - EPOCH_TICKS) as i128 * 100;
    r.modified = Some(UnixTime { nanos: last });
    assert_eq!(r.meta().mtime, u64::MAX);
    // Too late for a file time.
    r.modified = Some(UnixTime { nanos: last + 100 });
    assert_eq!(r.meta().mtime, 0);
    r.modified = Some(UnixTime { nanos: far + 700 });
    assert_eq!(r.meta().mtime, 0);
}

#[test]
fn records_go_to_every_root_they_lie_below() {
    let mut s = MftScan::new(Some('C')).unwrap();
    assert!(s.check_drive(Some('C')).is_ok());
    assert!(matches!(s.check_drive(Some('D')), Err(MftError::NotLocalDrive)));
    assert!(matches!(s.check_drive(None), Err(MftError::NotLocalDrive)));
    s.add_root(&texts(&["Data"]), Some("Data"), Meta::default());
    s.add_root(&texts(&["DATA", "Sub"]), Some("Sub"), Meta::default());
    s.add_root(&texts(&[]), None, Meta::default());
    s.record(&record(&["data", "sub", "X.txt"], false));
    s.record(&record(&["data", "sub"], true));
    s.record(&record(&["other", "y"], false));
    s.record(&record(&["Data"], true));
    assert_eq!((s.files, s.dirs), (2, 2));
    let trees = s.finish();
    assert_eq!(trees.len(), 3);
    assert_eq!(trees[0].name, "Data");
    let sub = trees[0].children.get("sub").unwrap();
    assert!(sub.is_dir && sub.meta.attrs == 0x20);
    assert_eq!(sub.children.get("x.txt").unwrap().name, "X.txt");
    assert_eq!(trees[0].totals(), (1, 1, 10));
    assert_eq!(trees[1].totals(), (1, 0, 10));
    assert_eq!(trees[2].name, "C:");
    assert_eq!(trees[2].totals(), (2, 3, 20));
}

#[test]
fn roots_are_matched_whatever_their_case() {
    let mut s = MftScan::new(Some('C')).unwrap();
    s.add_root(&texts(&["PROJECTS"]), Some("PROJECTS"), Meta::default());
    s.record(&record(&["Projects", "a"], false));
    s.record(&record(&["Project", "b"], false));
    assert_eq!(s.files, 1);
    let mut k = MftScan::new(Some('C')).unwrap();
    k.add_root(&texts(&["x"]), Some("x"), Meta::default());
    k.record_keyed(&record(&["Anything", "a"], false), &texts(&["x", "a"]));
    assert_eq!(k.files, 1);
}

#[test]
fn unnamed_records_are_passed_over() {
    let mut s = MftScan::new(Some('C')).unwrap();
    s.add_root(&texts(&[]), None, Meta::default());
    let mut r = record(&["a"], false);
    r.name = String::new();
    s.record(&r);
    assert_eq!((s.files, s.finish()[0].children.len()), (0, 0));
    assert!(matches!(MftScan::new(None), Err(MftError::NotLocalDrive)));
}

#[test]
fn both_scanners_build_the_same_tree() {
    let mut s = MftScan::new(Some('C')).unwrap();
    s.add_root(&texts(&["r"]), Some("r"), Meta::default());
    let mut w = WalkScan::new(Some("r"), "C:\\r", Meta::default());
    for (path, is_dir) in [(vec!["d", "f"], false), (vec!["d"], true), (vec!["g"], false)] {
        let mut full = vec!["R"];
        full.extend(path.iter());
        let rec = record(&full, is_dir);
        let meta = rec.meta();
        s.record(&rec);
        w.record(WalkEntry::Found { components: texts(&path), is_dir, meta });
    }
    assert_eq!(format!("{:?}", s.finish()[0]), format!("{:?}", w.tree));
}

#[test]
fn record_progress_comes_every_65536_records() {
    let s = MftScan::new(Some('C')).unwrap();
    assert!(s.progress(65_535, 100_000).is_none());
    match s.progress(131_072, 200_000) {
        Some(ScanProgress::MftRecords { done, total, files, dirs }) => {
            assert_eq!((done, total, files, dirs), (131_072, 200_000, 0, 0));
        }
        other => panic!("{other:?}"),
    }
}

/// A sound record of two sectors whose sector ends were `clean`.
fn stored(clean: [u8; 4]) -> Vec<u8> {
    let mut d = vec![7u8; 1024];
    d[4] = 48;
    d[5] = 0;
    d[6] = 3;
    d[7] = 0;
    d[48] = 0xAA;
    d[49] = 0xBB;
    d[50..54].copy_from_slice(&clean);
    for tail in [510, 1022] {
        d[tail] = 0xAA;
        d[tail + 1] = 0xBB;
    }
    d
}

#[test]
fn fixup_restores_the_sector_ends() {
    let mut d = stored([1, 2, 3, 4]);
    assert!(fixup_record(0, &mut d, 0, 1024).is_ok());
    assert_eq!(&d[510..512], [1, 2]);
    assert_eq!(&d[1022..1024], [3, 4]);
    assert_eq!(d[509], 7);
    assert_eq!(&d[48..50], [0xAA, 0xBB]);
}

#[test]
fn fixup_refuses_a_torn_record() {
    let mut d = stored([1, 2, 3, 4]);
    d[1023] = 0;
    let e = fixup_record(12, &mut d, 0, 1024).unwrap_err();
    assert_eq!(e.message(), "volume error: corrupt MFT record 12");
    assert_eq!(&d[510..512], [1, 2]);
    assert_eq!(&d[1022..1024], [0xAA, 0]);
}

#[test]
fn fixup_refuses_a_record_without_room() {
    assert!(fixup_record(0, &mut vec![0; 41], 0, 41).is_err());
    let mut far = stored([0; 4]);
    far[4] = 255;
    far[5] = 3;
    assert!(fixup_record(0, &mut far, 0, 1024).is_err());
    let mut long = stored([0; 4]);
    long[7] = 2;
    assert!(fixup_record(0, &mut long, 0, 1024).is_err());
    // An array with no entries leaves the record alone.
    let mut none = stored([0; 4]);
    none[6] = 0;
    let before = none.clone();
    assert!(fixup_record(0, &mut none, 0, 1024).is_ok());
    assert_eq!(none, before);
}

#[test]
fn fixup_stops_at_the_end_of_a_short_record() {
    let mut d = stored([1, 2, 3, 4]);
    d.truncate(1000);
    assert!(fixup_record(0, &mut d, 0, 1000).is_ok());
    assert_eq!(&d[510..512], [1, 2]);
}

#[test]
fn a_table_is_fixed_up_record_by_record() {
    let mut table = stored([1, 2, 3, 4]);
    table.extend(stored([5, 6, 7, 8]));
    table.extend([9; 100]);
    let (after, count) = fixup_records(table.clone(), 1024).unwrap();
    assert_eq!(count, 2);
    assert_eq!(&after[510..512], [1, 2]);
    assert_eq!(&after[2046..2048], [7, 8]);
    assert_eq!(&after[2048..], [9; 100]);
    table[1024 + 510] = 0;
    let e = fixup_records(table, 1024).unwrap_err();
    assert_eq!(e.message(), "volume error: corrupt MFT record 1");
}

#[test]
fn reads_are_served_from_the_chunk() {
    let volume: Vec<u8> = (0..10_000u32).map(|i| (i % 251) as u8).collect();
    let mut r = AlignedVolumeReader::new();
    assert_eq!(r.seek(SeekTo::Start(5000)), Ok(5000));
    let mut out = [0u8; 10];
    assert!(r.needs_fill(out.len()));
    assert!(!r.needs_fill(0));
    assert_eq!(r.fill_start(), 4096);
    let chunk = volume[4096..].to_vec();
    let filled = chunk.len();
    assert!(r.has_room(filled));
    assert_eq!(r.fill(chunk, filled), 5904);
    assert!(!r.needs_fill(out.len()));
    assert_eq!(r.buffered(), Some((904, 5000)));
    assert_eq!(r.read(&mut out), 10);
    assert_eq!(out[..], volume[5000..5010]);
    assert_eq!(r.position, 5010);
    assert_eq!(r.seek(SeekTo::Start(9_995)), Ok(9_995));
    let mut tail = [1u8; 10];
    assert_eq!(r.read(&mut tail), 5);
    assert_eq!(tail[..5], volume[9_995..]);
    assert_eq!(tail[5..], [1; 5]);
    // Behind the end of the volume there is nothing.
    assert!(r.needs_fill(1));
    assert_eq!(r.read(&mut tail), 0);
}

#[test]
fn seeks_move_the_position() {
    let mut r = AlignedVolumeReader::new();
    assert_eq!(r.seek(SeekTo::Start(100)), Ok(100));
    assert_eq!(r.seek(SeekTo::Current(-40)), Ok(60));
    assert_eq!(r.seek(SeekTo::Current(5)), Ok(65));
    assert_eq!(r.seek(SeekTo::Current(-66)), Err(SeekError::BeforeStart));
    assert_eq!(r.seek(SeekTo::Current(i64::MIN)), Err(SeekError::BeforeStart));
    assert_eq!(r.seek(SeekTo::End(0)), Err(SeekError::EndUnsupported));
    assert_eq!(r.position, 65);
    assert_eq!(r.seek(SeekTo::Start(u64::MAX)), Ok(u64::MAX));
    assert_eq!(r.seek(SeekTo::Current(1)), Ok(u64::MAX));
    assert!(!r.has_room(READ_CHUNK));
    assert_eq!(SeekError::BeforeStart.message(), "seek before start");
    assert_eq!(SeekError::EndUnsupported.message(), "SeekFrom::End unsupported");
}

#[test]
fn a_chunk_is_read_until_it_is_full() {
    assert_eq!(READ_CHUNK, 8 * 1024 * 1024);
    assert_eq!(READ_ALIGN, 4096);
    assert_eq!(fill_step(0, ReadEvent::Bytes(10)), FillStep::Again(10));
    assert_eq!(fill_step(10, ReadEvent::Interrupted), FillStep::Again(10));
    assert_eq!(fill_step(10, ReadEvent::Bytes(0)), FillStep::Done(10));
    assert_eq!(fill_step(10, ReadEvent::Bytes(READ_CHUNK - 10)), FillStep::Done(READ_CHUNK));
    assert_eq!(fill_step(10, ReadEvent::Failed), FillStep::Failed);
}
