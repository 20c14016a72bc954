//! What the window shows: labels and colours, which entries are listed, where
//! the user is, and how the view follows a scan.

use vstd::prelude::*;
use crate::compare::{Counts, DiffModel, DiffNode, Status, Tally};
use crate::model;
use crate::model::{Meta, UnixTime};
use crate::report;
use crate::scan::{ScanMethod, ScanProgress, ScanResult};
use crate::text;

verus! {

/// A progress event in words; `size` is the text for its bytes.
pub open spec fn progress_of(side: Seq<char>, p: ScanProgress, size: Seq<char>) -> Seq<char> {
    match p {
        ScanProgress::MftRecords { done, total, files, dirs } => side + ": MFT records "@
            + text::decimal(done as nat) + "/"@ + text::decimal(total as nat) + " — "@
            + text::decimal(files as nat) + " files, "@ + text::decimal(dirs as nat)
            + " dirs matched"@,
        _ => report::message_of(side, p, size),
    }
}

/// A progress event in words; `size` is the text for its bytes.
pub fn progress_text(side: &str, p: ScanProgress, size: &str) -> (r: String)
    ensures
        r@ == progress_of(side@, p, size@),
{
    match p {
        ScanProgress::MftRecords { done, total, files, dirs } => side.to_owned().concat(
            ": MFT records ",
        ).concat(report::number(done).as_str()).concat("/").concat(
            report::number(total).as_str(),
        ).concat(" — ").concat(report::number(files).as_str()).concat(" files, ").concat(
            report::number(dirs).as_str(),
        ).concat(" dirs matched"),
        _ => report::progress_message(side, p, size),
    }
}

/// What was found on one side; `elapsed` is the text for the scan's duration.
pub open spec fn scan_text(t: model::Totals, elapsed: Seq<char>) -> Seq<char> {
    text::decimal(t.files) + " files / "@ + text::decimal(t.dirs) + " dirs in "@ + elapsed
}

/// What was found on one side; `elapsed` is the text for the scan's duration.
pub fn format_scan(res: &ScanResult, elapsed: &str) -> (r: String)
    requires
        model::totals_of(res.model().root.children).fits(),
    ensures
        r@ == scan_text(model::totals_of(res.model().root.children), elapsed@),
{
    let (files, dirs, _) = res.root.totals();
    report::number(files).concat(" files / ").concat(report::number(dirs).as_str()).concat(
        " dirs in ",
    ).concat(elapsed)
}

/// How a scan was done, in a word.
pub open spec fn method_word(m: ScanMethod) -> Seq<char> {
    match m {
        ScanMethod::Mft => "MFT"@,
        ScanMethod::Walk => "walk"@,
    }
}

/// How a scan was done, in a word.
pub fn method_name(res: &ScanResult) -> (r: &'static str)
    ensures
        r@ == method_word(res.method),
{
    match res.method {
        ScanMethod::Mft => "MFT",
        ScanMethod::Walk => "walk",
    }
}

/// A colour of an entry.
#[derive(Debug, Clone, Copy, PartialEq, Eq, Structural)]
pub enum Shade {
    Gray,
    Rgb(u8, u8, u8),
}

/// The colour of a status: gray where nothing differs, blue in favour of the
/// left side, red in favour of the right side, purple otherwise.
pub open spec fn shade_of(s: Status) -> Shade {
    match s {
        Status::Identical => Shade::Gray,
        Status::LeftNewer | Status::LeftOnly => Shade::Rgb(70, 130, 255),
        Status::RightNewer | Status::RightOnly => Shade::Rgb(230, 80, 80),
        Status::Different => Shade::Rgb(200, 90, 220),
    }
}

/// The colour of a status.
pub fn status_color(s: Status) -> (r: Shade)
    ensures
        r == shade_of(s),
{
    match s {
        Status::Identical => Shade::Gray,
        Status::LeftNewer | Status::LeftOnly => Shade::Rgb(70, 130, 255),
        Status::RightNewer | Status::RightOnly => Shade::Rgb(230, 80, 80),
        Status::Different => Shade::Rgb(200, 90, 220),
    }
}

/// A status in words.
pub open spec fn label_of(s: Status) -> Seq<char> {
    match s {
        Status::Identical => "identical"@,
        Status::LeftNewer => "left is newer"@,
        Status::RightNewer => "right is newer"@,
        Status::Different => "different (same age, different size)"@,
        Status::LeftOnly => "left side only"@,
        Status::RightOnly => "right side only"@,
    }
}

/// A status in words.
pub fn status_label(s: Status) -> (r: &'static str)
    ensures
        r@ == match s {
            Status::Identical => "identical"@,
            Status::LeftNewer => "left is newer"@,
            Status::RightNewer => "right is newer"@,
            Status::Different => "different (same age, different size)"@,
            Status::LeftOnly => "left side only"@,
            Status::RightOnly => "right side only"@,
        },
        r@ == label_of(s),
{
    match s {
        Status::Identical => "identical",
        Status::LeftNewer => "left is newer",
        Status::RightNewer => "right is newer",
        Status::Different => "different (same age, different size)",
        Status::LeftOnly => "left side only",
        Status::RightOnly => "right side only",
    }
}

/// The letter of an attribute if its bit is set.
pub open spec fn attr_letter(attrs: u32, bit: u32, letter: Seq<char>) -> Seq<char> {
    if attrs & bit != 0 {
        letter
    } else {
        Seq::empty()
    }
}

/// The letters of the attributes that are set: read-only, hidden, system and
/// archive, in this order.
pub open spec fn attr_letters(attrs: u32) -> Seq<char> {
    attr_letter(attrs, 0x1, "R"@) + attr_letter(attrs, 0x2, "H"@) + attr_letter(attrs, 0x4, "S"@)
        + attr_letter(attrs, 0x20, "A"@)
}

fn push_letter(s: String, attrs: u32, bit: u32, letter: &str) -> (r: String)
    ensures
        r@ == s@ + attr_letter(attrs, bit, letter@),
{
    if attrs & bit != 0 {
        s.concat(letter)
    } else {
        assert(s@ =~= s@ + Seq::<char>::empty());
        s
    }
}

/// Set attribute letters only ("A", "RH", ...).
pub fn attr_string(meta: Option<Meta>) -> (r: String)
    ensures
        r@ == match meta {
            Some(m) => attr_letters(m.attrs),
            None => Seq::empty(),
        },
{
    let s = String::new();
    match meta {
        None => {
            assert(s@ =~= Seq::<char>::empty());
            s
        },
        Some(m) => {
            let s = push_letter(s, m.attrs, 0x1, "R");
            assert(s@ =~= attr_letter(m.attrs, 0x1, "R"@));
            let s = push_letter(s, m.attrs, 0x2, "H");
            let s = push_letter(s, m.attrs, 0x4, "S");
            push_letter(s, m.attrs, 0x20, "A")
        },
    }
}

/// The size to show for an entry: that of a file which this side has.
pub fn shown_size(is_dir: bool, meta: Option<Meta>) -> (r: Option<u64>)
    ensures
        r == match meta {
            Some(m) => if is_dir {
                None
            } else {
                Some(m.size)
            },
            None => None::<u64>,
        },
{
    match meta {
        Some(m) => if is_dir {
            None
        } else {
            Some(m.size)
        },
        None => None,
    }
}

/// A number below one hundred in two digits.
pub open spec fn two_digits(n: int) -> Seq<char> {
    seq![text::digit((n / 10) as nat), text::digit((n % 10) as nat)]
}

/// The date and the time of day `secs` seconds after the start of 1970: year,
/// month and day of the Gregorian calendar in eight digits, a space, and hours,
/// minutes and seconds in two digits each with colons between them. Days are
/// counted from the first of March of the year 0, in cycles of 400 years, so
/// that the day a leap year adds is the last of its year.
pub open spec fn stamp_of(secs: int) -> Seq<char> {
    let day = secs / 86_400 + 719_468;
    let of_cycle = day % 146_097;
    let year = (of_cycle - of_cycle / 1460 + of_cycle / 36_524 - of_cycle / 146_096) / 365;
    let of_year = of_cycle - (365 * year + year / 4 - year / 100);
    let month = (5 * of_year + 2) / 153;
    let d = of_year - (153 * month + 2) / 5 + 1;
    let m = if month < 10 {
        month + 3
    } else {
        month - 9
    };
    let y = year + (day / 146_097) * 400 + (if m <= 2 {
        1int
    } else {
        0int
    });
    let t = secs % 86_400;
    two_digits(y / 100) + two_digits(y % 100) + two_digits(m) + two_digits(d) + seq![' ']
        + two_digits(t / 3600) + seq![':'] + two_digits(t / 60 % 60) + seq![':']
        + two_digits(t % 60)
}

/// The text shows the moment `secs` seconds after the start of 1970 in a time
/// zone that is `off` seconds ahead, less than a day either way.
pub open spec fn shows_moment(s: Seq<char>, secs: int, off: int) -> bool {
    -86_400 < off < 86_400 && s == stamp_of(secs + off)
}

/// Calls chrono's conversion of a system time into `DateTime<Local>` and its
/// `format` with `%Y%m%d %H:%M:%S`, for the moment `nanos` nanoseconds after the
/// Unix epoch. The contract claims that the result is the text of that moment,
/// down to the second, shifted by the offset of a time zone, which chrono keeps
/// below a day. Which offset it is depends on the machine's time zone and is
/// left unsaid.
#[verifier::external_body]
fn local_stamp(nanos: u64) -> (r: String)
    ensures
        exists|off: int| #[trigger] shows_moment(r@, nanos as int / 1_000_000_000, off),
{
    let t = std::time::UNIX_EPOCH + std::time::Duration::from_nanos(nanos);
    let dt: chrono::DateTime<chrono::Local> = t.into();
    dt.format("%Y%m%d %H:%M:%S").to_string()
}

/// The moment to show for an entry: that of a modification since 1970.
pub fn shown_moment(meta: Option<Meta>) -> (r: Option<UnixTime>)
    requires
        meta matches Some(m) ==> m.mtime_representable(),
    ensures
        r == match meta {
            Some(m) => if m.mtime < model::EPOCH_TICKS {
                None
            } else {
                Some(UnixTime { nanos: ((m.mtime - model::EPOCH_TICKS) * 100) as i128 })
            },
            None => None::<UnixTime>,
        },
        meta matches Some(m) ==> r == model::moment_of(m),
        meta is None ==> r is None,
{
    match meta {
        Some(m) => m.mtime_systemtime(),
        None => None,
    }
}

/// The whole seconds between the start of 1970 and a modification time.
pub open spec fn second_of(m: Meta) -> int {
    (m.mtime - model::EPOCH_TICKS) / 10_000_000
}

/// The modification time of an entry in the machine's time zone; nothing for a
/// side that lacks the entry or for a time before 1970.
pub fn fmt_time(meta: Option<Meta>) -> (r: String)
    requires
        meta matches Some(m) ==> m.mtime_representable(),
    ensures
        match meta {
            Some(m) => if m.mtime < model::EPOCH_TICKS {
                r@.len() == 0
            } else {
                exists|off: int| #[trigger]
                    shows_moment(r@, (m.mtime - model::EPOCH_TICKS) / 10_000_000, off)
            },
            None => r@.len() == 0,
        },
        meta matches Some(m) ==> (m.mtime >= model::EPOCH_TICKS ==> exists|off: int| #[trigger]
            shows_moment(r@, second_of(m), off)),
{
    match shown_moment(meta) {
        Some(t) => {
            let r = local_stamp(t.nanos as u64);
            proof {
                let ticks: int = (meta->0).mtime - model::EPOCH_TICKS;
                assert((ticks * 100) / 1_000_000_000 == ticks / 10_000_000);
                let secs = second_of(meta->0);
                let off = choose|off: int| #[trigger]
                    shows_moment(r@, (t.nanos as u64) as int / 1_000_000_000, off);
                assert(shows_moment(r@, secs, off));
            }
            r
        },
        None => String::new(),
    }
}

/// Aggregate color for a directory: gray when the subtree is in sync, blue
/// when all differences favor the left side, red when all favor the right,
/// purple when mixed.
pub open spec fn dir_shade(c: Tally) -> Shade {
    if c.in_sync() {
        shade_of(Status::Identical)
    } else if c.different == 0 && c.right_only + c.right_newer == 0 {
        shade_of(Status::LeftOnly)
    } else if c.different == 0 && c.left_only + c.left_newer == 0 {
        shade_of(Status::RightOnly)
    } else {
        shade_of(Status::Different)
    }
}

/// Aggregate color for a directory.
pub fn dir_status_color(c: &Counts) -> (r: Shade)
    ensures
        r == dir_shade(c.model()),
{
    let no_left = c.left_only == 0 && c.left_newer == 0;
    let no_right = c.right_only == 0 && c.right_newer == 0;
    if c.in_sync() {
        status_color(Status::Identical)
    } else if c.different == 0 && no_right {
        status_color(Status::LeftOnly)
    } else if c.different == 0 && no_left {
        status_color(Status::RightOnly)
    } else {
        status_color(Status::Different)
    }
}

/// The first directory of that name from entry `i` on.
pub open spec fn dir_from(s: Seq<DiffModel>, name: Seq<char>, i: int) -> Option<DiffModel>
    decreases s.len() - i,
{
    if i < 0 || i >= s.len() {
        None
    } else if s[i].is_dir && s[i].name == name {
        Some(s[i])
    } else {
        dir_from(s, name, i + 1)
    }
}

/// The directory that the names lead to.
pub open spec fn node_of(d: DiffModel, path: Seq<Seq<char>>) -> Option<DiffModel>
    decreases path.len(),
{
    if path.len() == 0 {
        Some(d)
    } else {
        match dir_from(d.children, path[0], 0) {
            Some(c) => node_of(c, path.drop_first()),
            None => None,
        }
    }
}

/// Where the first directory of that name stands.
fn find_dir(node: &DiffNode, name: &str) -> (r: Option<usize>)
    ensures
        match r {
            Some(at) => at < node.children@.len() && dir_from(node.model().children, name@, 0)
                == Some(node.children@[at as int].model()),
            None => dir_from(node.model().children, name@, 0) is None,
        },
{
    let ghost children = node.model().children;
    let mut i: usize = 0;
    while i < node.children.len()
        invariant
            children == node.model().children,
            i <= node.children@.len(),
            dir_from(children, name@, 0) == dir_from(children, name@, i as int),
        decreases node.children@.len() - i,
    {
        let c = &node.children[i];
        assert(c.model() == children[i as int]);
        if c.is_dir && text::text_equals(c.name.as_str(), name) {
            return Some(i);
        }
        i += 1;
    }
    None
}

/// Resolve a tree-pane selection path to its node.
pub fn find_node<'a>(root: &'a DiffNode, path: &Vec<String>) -> (r: Option<&'a DiffNode>)
    ensures
        r is Some <==> node_of(root.model(), text::texts(path@)) is Some,
        r matches Some(n) ==> node_of(root.model(), text::texts(path@)) == Some(n.model()),
{
    let ghost whole = text::texts(path@);
    let mut node = root;
    let mut k: usize = 0;
    assert(whole.skip(0) =~= whole);
    while k < path.len()
        invariant
            k <= path@.len(),
            whole == text::texts(path@),
            node_of(root.model(), whole) == node_of(node.model(), whole.skip(k as int)),
        decreases path@.len() - k,
    {
        assert(whole.skip(k as int)[0] == path@[k as int]@);
        assert(whole.skip(k as int).drop_first() =~= whole.skip(k + 1));
        match find_dir(node, path[k].as_str()) {
            Some(at) => {
                node = &node.children[at];
            },
            None => {
                return None;
            },
        }
        k += 1;
    }
    assert(whole.skip(k as int) =~= Seq::<Seq<char>>::empty());
    Some(node)
}

/// The node to show: the one selected, or the root where there is none.
pub fn shown_node<'a>(root: &'a DiffNode, selected: &Vec<String>) -> (r: &'a DiffNode)
    ensures
        r.model() == match node_of(root.model(), text::texts(selected@)) {
            Some(n) => n,
            None => root.model(),
        },
{
    match find_node(root, selected) {
        Some(n) => n,
        None => root,
    }
}

/// An entry is shown if it differs, or if identical ones are to be shown too.
pub open spec fn is_shown(d: DiffModel, show_identical: bool) -> bool {
    show_identical || !d.counts.in_sync()
}

/// The positions of the entries that are shown and are directories, or are
/// files.
pub open spec fn rows(s: Seq<DiffModel>, dirs: bool, show_identical: bool) -> Seq<int>
    decreases s.len(),
{
    if s.len() == 0 {
        Seq::empty()
    } else {
        let before = rows(s.drop_last(), dirs, show_identical);
        if s.last().is_dir == dirs && is_shown(s.last(), show_identical) {
            before.push(s.len() - 1)
        } else {
            before
        }
    }
}

/// The positions of the entries to list: of the directories for the tree pane,
/// of the files for the table.
pub fn visible(node: &DiffNode, dirs: bool, show_identical: bool) -> (r: Vec<usize>)
    ensures
        r@.map_values(|i: usize| i as int) == rows(node.model().children, dirs, show_identical),
        forall|k: int| 0 <= k < r@.len() ==> (#[trigger] r@[k]) < node.children@.len(),
{
    let ghost children = node.model().children;
    let mut r: Vec<usize> = Vec::new();
    let mut i: usize = 0;
    assert(children.take(0) =~= Seq::<DiffModel>::empty());
    assert(r@.map_values(|i: usize| i as int) =~= Seq::<int>::empty());
    while i < node.children.len()
        invariant
            i <= node.children@.len(),
            children == node.model().children,
            r@.map_values(|i: usize| i as int) == rows(
                children.take(i as int),
                dirs,
                show_identical,
            ),
            forall|k: int| 0 <= k < r@.len() ==> (#[trigger] r@[k]) < i,
        decreases node.children@.len() - i,
    {
        let c = &node.children[i];
        assert(c.model() == children[i as int]);
        let ghost before = r@;
        if c.is_dir == dirs && (show_identical || !c.counts.in_sync()) {
            r.push(i);
        }
        i += 1;
        assert(children.take(i as int).drop_last() =~= children.take(i - 1));
        assert(r@.map_values(|i: usize| i as int) =~= rows(
            children.take(i as int),
            dirs,
            show_identical,
        ));
    }
    assert(children.take(i as int) =~= children);
    r
}

/// Whether a directory of the tree pane can be opened: it has directories to
/// show.
pub fn has_subdirs(node: &DiffNode, show_identical: bool) -> (r: bool)
    ensures
        r <==> exists|i: int|
            0 <= i < node.model().children.len() && (#[trigger] node.model().children[i]).is_dir
                && is_shown(node.model().children[i], show_identical),
{
    let ghost children = node.model().children;
    let mut i: usize = 0;
    while i < node.children.len()
        invariant
            i <= node.children@.len(),
            children == node.model().children,
            forall|k: int|
                0 <= k < i ==> !((#[trigger] children[k]).is_dir && is_shown(
                    children[k],
                    show_identical,
                )),
        decreases node.children@.len() - i,
    {
        let c = &node.children[i];
        assert(c.model() == children[i as int]);
        if c.is_dir && (show_identical || !c.counts.in_sync()) {
            return true;
        }
        i += 1;
    }
    false
}

/// Whether a directory of the tree pane starts out open: those of the first
/// level do.
pub fn starts_open(path: &Vec<String>) -> (r: bool)
    ensures
        r <==> path@.len() <= 1,
{
    path.len() <= 1
}

/// Whether two paths have the same components.
pub fn same_path(a: &Vec<String>, b: &Vec<String>) -> (r: bool)
    ensures
        r <==> text::texts(a@) == text::texts(b@),
{
    if a.len() != b.len() {
        assert(text::texts(a@).len() != text::texts(b@).len());
        return false;
    }
    let mut i: usize = 0;
    while i < a.len()
        invariant
            a@.len() == b@.len(),
            i <= a@.len(),
            forall|k: int| 0 <= k < i ==> (#[trigger] a@[k])@ == b@[k]@,
        decreases a@.len() - i,
    {
        if !text::text_equals(a[i].as_str(), b[i].as_str()) {
            assert(text::texts(a@)[i as int] != text::texts(b@)[i as int]);
            return false;
        }
        i += 1;
    }
    assert(text::texts(a@) =~= text::texts(b@));
    true
}

/// The path of the directory shown, from the root down.
pub open spec fn crumbs(names: Seq<Seq<char>>) -> Seq<char> {
    if names.len() == 0 {
        "\\"@
    } else {
        text::led_by(names, "\\"@)
    }
}

/// The path of the directory shown, from the root down.
pub fn breadcrumb(selected: &Vec<String>) -> (r: String)
    ensures
        r@ == if selected@.len() == 0 {
            "\\"@
        } else {
            text::led_by(text::texts(selected@), "\\"@)
        },
        r@ == crumbs(text::texts(selected@)),
{
    if selected.len() == 0 {
        "\\".to_owned()
    } else {
        text::led_text(selected, "\\")
    }
}

/// The directory above the one selected; the root has none.
pub open spec fn above(names: Seq<Seq<char>>) -> Option<Seq<Seq<char>>> {
    if names.len() == 0 {
        None
    } else {
        Some(names.drop_last())
    }
}

/// The directory above the one selected; the root has none.
pub fn up(selected: &Vec<String>) -> (r: Option<Vec<String>>)
    ensures
        r is Some <==> selected@.len() > 0,
        r matches Some(p) ==> text::texts(p@) == text::texts(selected@).drop_last(),
        r is None <==> above(text::texts(selected@)) is None,
        r matches Some(p) ==> above(text::texts(selected@)) == Some(text::texts(p@)),
{
    if selected.len() == 0 {
        None
    } else {
        let mut p: Vec<String> = Vec::new();
        let mut i: usize = 0;
        while i < selected.len() - 1
            invariant
                selected@.len() > 0,
                i <= selected@.len() - 1,
                p@.len() == i,
                forall|k: int| 0 <= k < i ==> (#[trigger] p@[k])@ == selected@[k]@,
            decreases selected@.len() - i,
        {
            p.push(selected[i].clone());
            i += 1;
        }
        assert(text::texts(p@) =~= text::texts(selected@).drop_last());
        Some(p)
    }
}

/// The counts of a whole comparison in words.
pub open spec fn shown_summary(t: Tally) -> Seq<char> {
    "identical "@ + text::decimal(t.identical) + "  |  ◀ newer "@ + text::decimal(t.left_newer)
        + "  |  newer ▶ "@ + text::decimal(t.right_newer) + "  |  ≠ "@ + text::decimal(t.different)
        + "  |  ◀ only "@ + text::decimal(t.left_only) + "  |  only ▶ "@ + text::decimal(
        t.right_only,
    )
}

/// The counts of a whole comparison.
pub fn summary_text(c: &Counts) -> (r: String)
    ensures
        r@ == "identical "@ + text::decimal(c.identical as nat) + "  |  ◀ newer "@
            + text::decimal(c.left_newer as nat) + "  |  newer ▶ "@ + text::decimal(
            c.right_newer as nat,
        ) + "  |  ≠ "@ + text::decimal(c.different as nat) + "  |  ◀ only "@ + text::decimal(
            c.left_only as nat,
        ) + "  |  only ▶ "@ + text::decimal(c.right_only as nat),
        r@ == shown_summary(c.model()),
{
    "identical ".to_owned().concat(report::number(c.identical).as_str()).concat(
        "  |  ◀ newer ",
    ).concat(report::number(c.left_newer).as_str()).concat("  |  newer ▶ ").concat(
        report::number(c.right_newer).as_str(),
    ).concat("  |  ≠ ").concat(report::number(c.different).as_str()).concat(
        "  |  ◀ only ",
    ).concat(report::number(c.left_only).as_str()).concat("  |  only ▶ ").concat(
        report::number(c.right_only).as_str(),
    )
}

/// What a scan of both sides and their comparison gave.
#[derive(Debug)]
pub struct ScanOutcome {
    pub left: ScanResult,
    pub right: ScanResult,
    pub diff: DiffNode,
}

impl ScanOutcome {
    /// The totals of both sides fit in 64 bits.
    pub open spec fn fits(self) -> bool {
        &&& model::totals_of(self.left.model().root.children).fits()
        &&& model::totals_of(self.right.model().root.children).fits()
    }
}

/// What was found on both sides in words.
pub open spec fn found_text(
    left: model::Totals,
    left_elapsed: Seq<char>,
    left_method: ScanMethod,
    right: model::Totals,
    right_elapsed: Seq<char>,
    right_method: ScanMethod,
) -> Seq<char> {
    "Left: "@ + scan_text(left, left_elapsed) + " via "@ + method_word(left_method)
        + "   |   Right: "@ + scan_text(right, right_elapsed) + " via "@ + method_word(
        right_method,
    )
}

/// What there is from the thread that scans.
#[derive(Debug)]
pub enum ScanNews {
    Finished(ScanOutcome),
    /// It failed, with a message.
    Failed(String),
    /// It is still at work.
    Pending,
    /// It is gone without an answer.
    Died,
}

/// The state of the window.
#[derive(Debug)]
pub struct Window {
    pub scanning: bool,
    pub show_identical: bool,
    pub status_line: String,
    pub outcome: Option<ScanOutcome>,
    /// Path (component names) of the directory selected in the tree pane.
    pub selected: Vec<String>,
}

impl Window {
    /// Nothing compared yet.
    pub fn new() -> (r: Self)
        ensures
            !r.scanning,
            !r.show_identical,
            r.status_line@.len() == 0,
            r.outcome is None,
            r.selected@.len() == 0,
    {
        Window {
            scanning: false,
            show_identical: false,
            status_line: String::new(),
            outcome: None,
            selected: Vec::new(),
        }
    }

    /// Starts a scan if both paths are directories; says so if they are not.
    pub fn start(&mut self, left_is_dir: bool, right_is_dir: bool) -> (r: bool)
        ensures
            r <==> left_is_dir && right_is_dir,
            final(self).scanning == (r || old(self).scanning),
            final(self).status_line@ == if r {
                "Scanning…"@
            } else {
                "Both paths must be existing directories."@
            },
            final(self).show_identical == old(self).show_identical,
            final(self).outcome == old(self).outcome,
            final(self).selected == old(self).selected,
    {
        if !left_is_dir || !right_is_dir {
            self.status_line = "Both paths must be existing directories.".to_owned();
            return false;
        }
        self.scanning = true;
        self.status_line = "Scanning…".to_owned();
        true
    }

    /// Shows the latest progress, if there is any and the scan is still on.
    pub fn progress(&mut self, latest: Option<String>)
        ensures
            final(self).status_line == match latest {
                Some(msg) => if old(self).scanning {
                    msg
                } else {
                    old(self).status_line
                },
                None => old(self).status_line,
            },
            final(self).scanning == old(self).scanning,
            final(self).show_identical == old(self).show_identical,
            final(self).outcome == old(self).outcome,
            final(self).selected == old(self).selected,
    {
        if let Some(msg) = latest {
            if self.scanning {
                self.status_line = msg;
            }
        }
    }

    /// Takes in what there is from the scan; `left_elapsed` and `right_elapsed`
    /// are the texts for how long each side took. True once the scan is over.
    pub fn hear(&mut self, news: ScanNews, left_elapsed: &str, right_elapsed: &str) -> (r: bool)
        requires
            news matches ScanNews::Finished(o) ==> o.fits(),
        ensures
            r <==> !(news is Pending),
            final(self).show_identical == old(self).show_identical,
            match news {
                ScanNews::Finished(o) => {
                    &&& final(self).status_line@ == "Left: "@ + scan_text(
                        model::totals_of(o.left.model().root.children),
                        left_elapsed@,
                    ) + " via "@ + method_word(o.left.method) + "   |   Right: "@ + scan_text(
                        model::totals_of(o.right.model().root.children),
                        right_elapsed@,
                    ) + " via "@ + method_word(o.right.method)
                    &&& final(self).status_line@ == found_text(
                        model::totals_of(o.left.model().root.children),
                        left_elapsed@,
                        o.left.method,
                        model::totals_of(o.right.model().root.children),
                        right_elapsed@,
                        o.right.method,
                    )
                    &&& final(self).outcome == Some(o)
                    &&& final(self).selected@.len() == 0
                    &&& !final(self).scanning
                },
                ScanNews::Failed(msg) => {
                    &&& final(self).status_line@ == "Scan failed: "@ + msg@
                    &&& final(self).outcome == old(self).outcome
                    &&& final(self).selected == old(self).selected
                    &&& !final(self).scanning
                },
                ScanNews::Pending => *final(self) == *old(self),
                ScanNews::Died => {
                    &&& final(self).status_line@ == "Scan thread died unexpectedly."@
                    &&& final(self).outcome == old(self).outcome
                    &&& final(self).selected == old(self).selected
                    &&& !final(self).scanning
                },
            },
    {
        match news {
            ScanNews::Finished(o) => {
                let left = format_scan(&o.left, left_elapsed);
                let right = format_scan(&o.right, right_elapsed);
                self.status_line = "Left: ".to_owned().concat(left.as_str()).concat(
                    " via ",
                ).concat(method_name(&o.left)).concat("   |   Right: ").concat(
                    right.as_str(),
                ).concat(" via ").concat(method_name(&o.right));
                self.outcome = Some(o);
                self.selected = Vec::new();
                self.scanning = false;
                true
            },
            ScanNews::Failed(msg) => {
                self.status_line = "Scan failed: ".to_owned().concat(msg.as_str());
                self.scanning = false;
                true
            },
            ScanNews::Pending => false,
            ScanNews::Died => {
                self.status_line = "Scan thread died unexpectedly.".to_owned();
                self.scanning = false;
                true
            },
        }
    }

    /// Goes to another directory, if one was asked for.
    pub fn navigate(&mut self, to: Option<Vec<String>>)
        ensures
            final(self).selected == match to {
                Some(p) => p,
                None => old(self).selected,
            },
            final(self).scanning == old(self).scanning,
            final(self).show_identical == old(self).show_identical,
            final(self).status_line == old(self).status_line,
            final(self).outcome == old(self).outcome,
    {
        if let Some(p) = to {
            self.selected = p;
        }
    }
}

} // verus!
