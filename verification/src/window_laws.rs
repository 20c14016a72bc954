//! What the window shows of a comparison.

use vstd::prelude::*;
use crate::compare::{DiffModel, Status, Tally};
use crate::match_laws;
use crate::model::Totals;
use crate::report;
use crate::report_laws;
use crate::scan::{ScanMethod, ScanProgress};
use crate::text;
use crate::window;
use crate::window::Shade;

verus! {

/// A file is shown in gray if it is the same on both sides, in blue if the left
/// side is ahead, in red if the right side is ahead, and else in purple.
pub proof fn colours_tell_the_status(s: Status)
    ensures
        window::shade_of(s) == Shade::Gray <==> s == Status::Identical,
        window::shade_of(s) == Shade::Rgb(70, 130, 255) <==> (s == Status::LeftNewer || s
            == Status::LeftOnly),
        window::shade_of(s) == Shade::Rgb(230, 80, 80) <==> (s == Status::RightNewer || s
            == Status::RightOnly),
        window::shade_of(s) == Shade::Rgb(200, 90, 220) <==> s == Status::Different,
{
}

/// A directory is shown in gray if nothing in it differs, in blue if all that
/// differs favours the left side, in red if all favours the right side, and else
/// in purple.
pub proof fn colours_sum_up_a_directory(t: Tally)
    ensures
        ({
            let left = t.left_newer > 0 || t.left_only > 0;
            let right = t.right_newer > 0 || t.right_only > 0;
            let size = t.different > 0;
            let shade = window::dir_shade(t);
            &&& !left && !right && !size ==> shade == Shade::Gray
            &&& left && !right && !size ==> shade == Shade::Rgb(70, 130, 255)
            &&& right && !left && !size ==> shade == Shade::Rgb(230, 80, 80)
            &&& size || (left && right) ==> shade == Shade::Rgb(200, 90, 220)
        }),
{
}

/// The letters of attributes are told by their bits, in the order R, H, S, A.
pub proof fn letters_tell_the_attributes(attrs: u32)
    ensures
        ({
            let r = attrs & 0x1 != 0;
            let h = attrs & 0x2 != 0;
            let s = attrs & 0x4 != 0;
            let a = attrs & 0x20 != 0;
            let letters = window::attr_letters(attrs);
            &&& letters.contains('R') <==> r
            &&& letters.contains('H') <==> h
            &&& letters.contains('S') <==> s
            &&& letters.contains('A') <==> a
            &&& letters.len() == (if r { 1int } else { 0 }) + (if h { 1int } else { 0 }) + (if s {
                1int
            } else {
                0
            }) + (if a { 1int } else { 0 })
            &&& r && h && s && a ==> letters == seq!['R', 'H', 'S', 'A']
            &&& r ==> letters[0] == 'R'
            &&& a ==> letters.last() == 'A'
            &&& h && s ==> letters[(if r { 1int } else { 0 })] == 'H'
        }),
{
    reveal_strlit("R");
    reveal_strlit("H");
    reveal_strlit("S");
    reveal_strlit("A");
    let none = Seq::<char>::empty();
    let r = window::attr_letter(attrs, 0x1, "R"@);
    let h = window::attr_letter(attrs, 0x2, "H"@);
    let s = window::attr_letter(attrs, 0x4, "S"@);
    let a = window::attr_letter(attrs, 0x20, "A"@);
    assert(r =~= if attrs & 0x1 != 0 { seq!['R'] } else { none });
    assert(h =~= if attrs & 0x2 != 0 { seq!['H'] } else { none });
    assert(s =~= if attrs & 0x4 != 0 { seq!['S'] } else { none });
    assert(a =~= if attrs & 0x20 != 0 { seq!['A'] } else { none });
    let all = window::attr_letters(attrs);
    assert(all == r + h + s + a);
    if r.len() > 0 {
        assert(all[0] == 'R');
    }
    if h.len() > 0 {
        assert(all[r.len() as int] == 'H');
    }
    if s.len() > 0 {
        assert(all[(r.len() + h.len()) as int] == 'S');
    }
    if a.len() > 0 {
        assert(all[(r.len() + h.len() + s.len()) as int] == 'A');
    }
    if r.len() > 0 && h.len() > 0 && s.len() > 0 && a.len() > 0 {
        assert(all =~= seq!['R', 'H', 'S', 'A']);
    }
}

/// A pane lists exactly the entries of its kind that differ, or all of its kind
/// if identical ones are to be shown, each once and in their order.
pub proof fn panes_list_what_is_to_be_shown(
    s: Seq<DiffModel>,
    dirs: bool,
    show_identical: bool,
    i: int,
)
    ensures
        window::rows(s, dirs, show_identical).contains(i) <==> (0 <= i < s.len() && s[i].is_dir
            == dirs && (show_identical || !report_laws::none_differ(s[i].counts))),
        forall|j: int, k: int|
            0 <= j < k < window::rows(s, dirs, show_identical).len() ==> #[trigger] window::rows(
                s,
                dirs,
                show_identical,
            )[j] < #[trigger] window::rows(s, dirs, show_identical)[k],
        forall|j: int|
            0 <= j < window::rows(s, dirs, show_identical).len() ==> 0 <= #[trigger] window::rows(
                s,
                dirs,
                show_identical,
            )[j] < s.len(),
    decreases s.len(),
{
    let all = window::rows(s, dirs, show_identical);
    if s.len() > 0 {
        let front = s.drop_last();
        let before = window::rows(front, dirs, show_identical);
        panes_list_what_is_to_be_shown(front, dirs, show_identical, i);
        let last = s.len() - 1;
        if s.last().is_dir == dirs && window::is_shown(s.last(), show_identical) {
            assert(all == before.push(last));
            if i == last {
                assert(all[before.len() as int] == i);
            }
            if before.contains(i) {
                let k = before.index_of(i);
                assert(all[k] == i);
            }
            if all.contains(i) && i != last {
                let k = all.index_of(i);
                assert(before[k] == i);
            }
        }
        if 0 <= i < last {
            assert(front[i] == s[i]);
        }
    } else {
        assert(!all.contains(i));
    }
}

/// What a selection leads to stands at the names selected.
pub proof fn selections_lead_to_what_stands_there(
    d: DiffModel,
    path: Seq<Seq<char>>,
    f: DiffModel,
)
    requires
        d.is_dir,
        window::node_of(d, path) == Some(f),
    ensures
        match_laws::stands_at(d, path, f),
        f.is_dir,
    decreases path.len(),
{
    if path.len() > 0 {
        let c = window::dir_from(d.children, path[0], 0)->0;
        let i = found_from(d.children, path[0], 0);
        selections_lead_to_what_stands_there(c, path.drop_first(), f);
        assert(match_laws::stands_at(d.children[i], path.drop_first(), f));
    }
}

proof fn found_from(s: Seq<DiffModel>, name: Seq<char>, from: int) -> (i: int)
    requires
        window::dir_from(s, name, from) is Some,
    ensures
        0 <= i < s.len(),
        s[i].is_dir,
        s[i].name == name,
        window::dir_from(s, name, from) == Some(s[i]),
    decreases s.len() - from,
{
    if s[from].is_dir && s[from].name == name {
        from
    } else {
        found_from(s, name, from + 1)
    }
}

/// What was found on a side is told by the numbers of files and directories, and
/// the method by its word.
pub proof fn statistics_are_told(t: Totals, elapsed: Seq<char>)
    ensures
        window::scan_text(t, elapsed) == text::decimal(t.files) + " files / "@ + text::decimal(
            t.dirs,
        ) + " dirs in "@ + elapsed,
        window::method_word(ScanMethod::Mft) == "MFT"@,
        window::method_word(ScanMethod::Walk) == "walk"@,
{
}

/// Progress through the records is told with the numbers that were reported;
/// all other progress as on the command line.
pub proof fn progress_is_shown(
    side: Seq<char>,
    p: ScanProgress,
    size: Seq<char>,
    done: u64,
    total: u64,
    files: u64,
    dirs: u64,
)
    ensures
        window::progress_of(side, ScanProgress::MftRecords { done, total, files, dirs }, size)
            == side + ": MFT records "@ + text::decimal(done as nat) + "/"@ + text::decimal(
            total as nat,
        ) + " — "@ + text::decimal(files as nat) + " files, "@ + text::decimal(dirs as nat)
            + " dirs matched"@,
        !(p is MftRecords) ==> window::progress_of(side, p, size) == report::message_of(
            side,
            p,
            size,
        ),
{
}

/// A status is told in words: which side is newer, which side alone has the
/// entry, or that the sizes differ.
pub proof fn labels_tell_the_status(s: Status)
    ensures
        s == Status::Identical ==> window::label_of(s) == "identical"@,
        s == Status::LeftNewer ==> window::label_of(s) == "left is newer"@,
        s == Status::RightNewer ==> window::label_of(s) == "right is newer"@,
        s == Status::Different ==> window::label_of(s) == "different (same age, different size)"@,
        s == Status::LeftOnly ==> window::label_of(s) == "left side only"@,
        s == Status::RightOnly ==> window::label_of(s) == "right side only"@,
{
}

/// The path shown is that of the directory above, if that is not the root, with
/// a backslash and the name behind it; the root is shown as a backslash.
pub proof fn crumbs_follow_the_way(names: Seq<Seq<char>>, name: Seq<char>)
    ensures
        window::crumbs(Seq::empty()) == "\\"@,
        names.len() == 0 ==> window::crumbs(names.push(name)) == "\\"@ + name,
        names.len() > 0 ==> window::crumbs(names.push(name)) == window::crumbs(names) + "\\"@
            + name,
{
    assert(names.push(name).drop_last() =~= names);
    if names.len() == 0 {
        assert(text::led_by(names, "\\"@) =~= Seq::<char>::empty());
        assert(Seq::<char>::empty() + "\\"@ =~= "\\"@);
    }
}

/// The summary shown tells each number behind its own label.
pub proof fn shown_summaries_tell_every_count(t: Tally)
    ensures
        report_laws::tells(window::shown_summary(t), "identical "@, t.identical),
        report_laws::tells(window::shown_summary(t), "  |  ◀ newer "@, t.left_newer),
        report_laws::tells(window::shown_summary(t), "  |  newer ▶ "@, t.right_newer),
        report_laws::tells(window::shown_summary(t), "  |  ≠ "@, t.different),
        report_laws::tells(window::shown_summary(t), "  |  ◀ only "@, t.left_only),
        report_laws::tells(window::shown_summary(t), "  |  only ▶ "@, t.right_only),
{
    let line = window::shown_summary(t);
    let none = Seq::<char>::empty();
    let a = "identical "@ + text::decimal(t.identical);
    let b = "  |  ◀ newer "@ + text::decimal(t.left_newer);
    let c = "  |  newer ▶ "@ + text::decimal(t.right_newer);
    let d = "  |  ≠ "@ + text::decimal(t.different);
    let e = "  |  ◀ only "@ + text::decimal(t.left_only);
    let f = "  |  only ▶ "@ + text::decimal(t.right_only);
    assert(line =~= none + a + (b + c + d + e + f));
    assert(line =~= a + b + (c + d + e + f));
    assert(line =~= (a + b) + c + (d + e + f));
    assert(line =~= (a + b + c) + d + (e + f));
    assert(line =~= (a + b + c + d) + e + f);
    assert(line =~= (a + b + c + d + e) + f + none);
}

/// Going up from a directory leads back to where it was entered from; the root
/// has nothing above it.
pub proof fn going_up_leads_back(names: Seq<Seq<char>>, name: Seq<char>)
    ensures
        window::above(names.push(name)) == Some(names),
        window::above(Seq::empty()) is None,
{
    assert(names.push(name).drop_last() =~= names);
}

/// What was found is told for the left side first, and for each side with its
/// own numbers, duration and method.
pub proof fn both_sides_are_told(
    left: Totals,
    left_elapsed: Seq<char>,
    left_method: ScanMethod,
    right: Totals,
    right_elapsed: Seq<char>,
    right_method: ScanMethod,
) -> (told: (Seq<char>, Seq<char>))
    ensures
        window::found_text(
            left,
            left_elapsed,
            left_method,
            right,
            right_elapsed,
            right_method,
        ) == "Left: "@ + told.0 + "   |   Right: "@ + told.1,
        tells_side(told.0, left, left_elapsed, left_method),
        tells_side(told.1, right, right_elapsed, right_method),
{
    let l = window::scan_text(left, left_elapsed) + " via "@ + window::method_word(left_method);
    let r = window::scan_text(right, right_elapsed) + " via "@ + window::method_word(right_method);
    assert(window::found_text(
        left,
        left_elapsed,
        left_method,
        right,
        right_elapsed,
        right_method,
    ) =~= "Left: "@ + l + "   |   Right: "@ + r);
    (l, r)
}

/// The text tells what was found on one side, how long it took, and how it was
/// done.
pub open spec fn tells_side(
    s: Seq<char>,
    t: Totals,
    elapsed: Seq<char>,
    method: ScanMethod,
) -> bool {
    s == text::decimal(t.files) + " files / "@ + text::decimal(t.dirs) + " dirs in "@ + elapsed
        + " via "@ + (match method {
        ScanMethod::Mft => "MFT"@,
        ScanMethod::Walk => "walk"@,
    })
}

} // verus!
