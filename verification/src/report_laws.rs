//! What the lines of a printed comparison say.

use vstd::prelude::*;
use crate::compare;
use crate::compare::{DiffModel, Status, Tally};
use crate::compare_laws;
use crate::match_laws;
use crate::model::{NodeModel, Totals};
use crate::output_laws;
use crate::report;
use crate::scan::{ScanMethod, ScanProgress};
use crate::text;

verus! {

/// The five characters that stand before a file of the given status.
pub open spec fn is_marker(s: Seq<char>, status: Status) -> bool {
    match status {
        Status::Identical => s == seq![' ', ' ', '=', ' ', ' '],
        Status::LeftNewer => s == seq![' ', '<', '<', ' ', ' '],
        Status::RightNewer => s == seq![' ', ' ', '>', '>', ' '],
        Status::Different => s == seq![' ', ' ', '!', ' ', ' '],
        Status::LeftOnly => s == seq![' ', '<', '-', ' ', ' '],
        Status::RightOnly => s == seq![' ', ' ', '-', '>', ' '],
    }
}

/// Every status has its marker.
pub proof fn markers_tell_the_status(status: Status)
    ensures
        is_marker(report::marker(status), status),
        report::marker(status).len() == 5,
{
    reveal_strlit("  =  ");
    reveal_strlit(" <<  ");
    reveal_strlit("  >> ");
    reveal_strlit("  !  ");
    reveal_strlit(" <-  ");
    reveal_strlit("  -> ");
    assert("  =  "@ =~= seq![' ', ' ', '=', ' ', ' ']);
    assert(" <<  "@ =~= seq![' ', '<', '<', ' ', ' ']);
    assert("  >> "@ =~= seq![' ', ' ', '>', '>', ' ']);
    assert("  !  "@ =~= seq![' ', ' ', '!', ' ', ' ']);
    assert(" <-  "@ =~= seq![' ', '<', '-', ' ', ' ']);
    assert("  -> "@ =~= seq![' ', ' ', '-', '>', ' ']);
}

/// No file among those counted differs.
pub open spec fn none_differ(t: Tally) -> bool {
    t.left_newer == 0 && t.right_newer == 0 && t.different == 0 && t.left_only == 0 && t.right_only
        == 0
}

/// A file that is printed has one line: at every indent it starts with the five
/// characters of its status, then come two spaces for each level, and then its
/// name.
pub proof fn files_are_printed_with_their_status(
    d: DiffModel,
    indent: nat,
    max_depth: nat,
    all: bool,
)
    requires
        !d.is_dir,
        all || !none_differ(d.counts),
    ensures
        report::lines_of(d, indent, max_depth, all).len() == 1,
        ({
            let line = report::lines_of(d, indent, max_depth, all)[0];
            &&& line.len() == 5 + 2 * indent + d.name.len()
            &&& is_marker(line.take(5), d.status)
            &&& forall|i: int| 5 <= i < 5 + 2 * indent ==> #[trigger] line[i] == ' '
            &&& line.skip(5 + 2 * indent as int) == d.name
        }),
{
    markers_tell_the_status(d.status);
    let line = report::lines_of(d, indent, max_depth, all)[0];
    assert(line == report::marker(d.status) + text::spaces(2 * indent) + d.name);
    assert(line.take(5) =~= report::marker(d.status));
    assert(line.skip(5 + 2 * indent as int) =~= d.name);
}

/// A directory that is printed has a line of its own before those of its
/// entries: two spaces for each level and five more, a sign for whether it is in
/// sync, its name, and the number of files that differ, if there are any. Its
/// entries follow one level deeper, in their order, down to the greatest depth.
pub proof fn directories_are_printed_before_their_entries(
    d: DiffModel,
    indent: nat,
    max_depth: nat,
    all: bool,
)
    requires
        d.is_dir,
        all || !none_differ(d.counts),
    ensures
        ({
            let lines = report::lines_of(d, indent, max_depth, all);
            let c = d.counts;
            let blank = Seq::new(2 * indent + 5, |i: int| ' ');
            let n = c.left_newer + c.right_newer + c.different + c.left_only + c.right_only;
            &&& lines.len() > 0
            &&& none_differ(c) ==> lines[0] == blank + "["@ + "="@ + "] "@ + d.name
            &&& !none_differ(c) ==> lines[0] == blank + "["@ + "≠"@ + "] "@ + d.name + ("  ("@
                + text::decimal(n) + " differing)"@)
            &&& indent + 1 < max_depth ==> lines.skip(1) == report::lines_of_all(
                d.children,
                indent + 1,
                max_depth,
                all,
            )
            &&& indent + 1 >= max_depth ==> lines.len() == 1
        }),
{
    let lines = report::lines_of(d, indent, max_depth, all);
    let blank = Seq::new(2 * indent + 5, |i: int| ' ');
    assert(text::spaces(2 * indent + 5) =~= blank);
    let below = if indent + 1 < max_depth {
        report::lines_of_all(d.children, indent + 1, max_depth, all)
    } else {
        Seq::<Seq<char>>::empty()
    };
    assert(lines == seq![report::dir_line(d, indent)] + below);
    assert(lines.skip(1) =~= below);
    let head = blank + "["@ + "="@ + "] "@ + d.name;
    assert(head + Seq::<char>::empty() =~= head);
}

/// Without asking for all, what does not differ is not printed.
pub proof fn only_differences_are_printed(d: DiffModel, indent: nat, max_depth: nat)
    requires
        none_differ(d.counts),
    ensures
        report::lines_of(d, indent, max_depth, false).len() == 0,
{
}

/// Entries are printed one after the other: the lines of a list followed by one
/// more entry are the lines of the list and then those of the entry.
pub proof fn entries_are_printed_in_order(
    s: Seq<DiffModel>,
    d: DiffModel,
    indent: nat,
    max_depth: nat,
    all: bool,
)
    ensures
        report::lines_of_all(Seq::empty(), indent, max_depth, all).len() == 0,
        report::lines_of_all(s.push(d), indent, max_depth, all) == report::lines_of_all(
            s,
            indent,
            max_depth,
            all,
        ) + report::lines_of(d, indent, max_depth, all),
{
    assert(s.push(d).drop_last() =~= s);
}

/// The suffix of a directory speaks of the files that differ, if there are any.
pub proof fn suffixes_tell_what_differs(t: Tally)
    ensures
        none_differ(t) ==> report::suffix(t).len() == 0,
        !none_differ(t) ==> report::suffix(t) == "  ("@ + text::decimal(
            t.left_newer + t.right_newer + t.different + t.left_only + t.right_only,
        ) + " differing)"@,
{
}

/// How a scan was done is told in one of three ways, and a reason that is known
/// is told in full.
pub proof fn methods_are_told(reason: Seq<char>)
    ensures
        report::method_text(ScanMethod::Mft, None) == "MFT"@,
        report::method_text(ScanMethod::Mft, Some(reason)) == "MFT"@,
        report::method_text(ScanMethod::Walk, None) == "directory walk"@,
        report::method_text(ScanMethod::Walk, Some(reason)) == "directory walk (MFT unavailable: "@
            + reason + ")"@,
{
}

/// Progress is told with the numbers that were reported, each in its place.
pub proof fn progress_is_told(
    label: Seq<char>,
    size: Seq<char>,
    bytes: u64,
    a: u64,
    b: u64,
    c: u64,
    d: u64,
)
    ensures
        report::message_of(label, ScanProgress::MftLoading, size) == label + ": reading MFT…"@,
        report::message_of(label, ScanProgress::MftReading { bytes }, size) == label
            + ": reading MFT… "@ + size,
        report::message_of(label, ScanProgress::MftLoaded { records: a, bytes }, size) == label
            + ": MFT loaded ("@ + text::decimal(a as nat) + " records, "@ + size + ")"@,
        report::message_of(
            label,
            ScanProgress::MftRecords { done: a, total: b, files: c, dirs: d },
            size,
        ) == label + ": "@ + text::decimal(a as nat) + "/"@ + text::decimal(b as nat)
            + " MFT records — "@ + text::decimal(c as nat) + " files, "@ + text::decimal(d as nat)
            + " dirs matched"@,
        report::message_of(label, ScanProgress::WalkEntries { entries: a }, size) == label + ": "@
            + text::decimal(a as nat) + " entries walked"@,
{
}

/// The line tells the number `n` behind the label.
pub open spec fn tells(line: Seq<char>, label: Seq<char>, n: nat) -> bool {
    exists|before: Seq<char>, behind: Seq<char>|
        line == #[trigger] (before + (label + text::decimal(n)) + behind)
}

/// The summary of a comparison tells each number behind its own label.
pub proof fn summaries_tell_every_count(t: Tally)
    ensures
        tells(report::summary_of(t), "identical: "@, t.identical),
        tells(report::summary_of(t), "   left-newer: "@, t.left_newer),
        tells(report::summary_of(t), "   right-newer: "@, t.right_newer),
        tells(report::summary_of(t), "   different: "@, t.different),
        tells(report::summary_of(t), "   left-only: "@, t.left_only),
        tells(report::summary_of(t), "   right-only: "@, t.right_only),
{
    let line = report::summary_of(t);
    let none = Seq::<char>::empty();
    let a = "identical: "@ + text::decimal(t.identical);
    let b = "   left-newer: "@ + text::decimal(t.left_newer);
    let c = "   right-newer: "@ + text::decimal(t.right_newer);
    let d = "   different: "@ + text::decimal(t.different);
    let e = "   left-only: "@ + text::decimal(t.left_only);
    let f = "   right-only: "@ + text::decimal(t.right_only);
    assert(line =~= none + a + (b + c + d + e + f));
    assert(line =~= a + b + (c + d + e + f));
    assert(line =~= (a + b) + c + (d + e + f));
    assert(line =~= (a + b + c) + d + (e + f));
    assert(line =~= (a + b + c + d) + e + f);
    assert(line =~= (a + b + c + d + e) + f + none);
}

/// The statistics of a scan tell the numbers of files and directories, the size,
/// the duration and the method, and the report of a side its path.
pub proof fn statistics_tell_what_was_scanned(
    t: Totals,
    path: Seq<char>,
    size: Seq<char>,
    elapsed: Seq<char>,
    method: Seq<char>,
)
    ensures
        report::statistics(t, size, elapsed, method) == text::decimal(t.files) + " files, "@
            + text::decimal(t.dirs) + " dirs, "@ + size + " — scanned in "@ + elapsed + " via "@
            + method,
        tells(report::side_report(path, t, elapsed, method), " ("@, t.files),
        tells(report::side_report(path, t, elapsed, method), " files, "@, t.dirs),
        report::side_report(path, t, elapsed, method) == "scanned "@ + path + " ("@
            + text::decimal(t.files) + " files, "@ + text::decimal(t.dirs) + " dirs) in "@ + elapsed
            + " via "@ + method,
{
    let line = report::side_report(path, t, elapsed, method);
    let tail = " dirs) in "@ + elapsed + " via "@ + method;
    let head = "scanned "@ + path;
    let files = " ("@ + text::decimal(t.files);
    let dirs = " files, "@ + text::decimal(t.dirs);
    assert(line =~= head + files + (dirs + tail));
    assert(line =~= (head + files) + dirs + tail);
}

/// An operation is told with its paths: a copy goes from its source to its
/// destination, a directory is made at its destination. What came of a sync is
/// told with the files copied and the errors.
pub proof fn operations_and_outcomes_are_told(
    src: Seq<char>,
    dst: Seq<char>,
    size: Seq<char>,
    files: nat,
    errors: nat,
)
    ensures
        report::op_text(true, src, dst, size) == "copy   "@ + src + " -> "@ + dst + " ("@ + size
            + ")"@,
        report::op_text(false, src, dst, size) == "mkdir  "@ + dst,
        tells(report::outcome_text(files, size, errors), "Copied "@, files),
        tells(report::outcome_text(files, size, errors), "). "@, errors),
        report::outcome_text(files, size, errors) == "Copied "@ + text::decimal(files)
            + " files ("@ + size + "). "@ + text::decimal(errors) + " errors."@,
{
    let line = report::outcome_text(files, size, errors);
    let none = Seq::<char>::empty();
    let a = "Copied "@ + text::decimal(files);
    let b = " files ("@ + size;
    let c = "). "@ + text::decimal(errors);
    assert(line =~= none + a + (b + c + " errors."@));
    assert(line =~= (a + b) + c + " errors."@);
}

/// The line is that of a file: its marker, two spaces for each level, its name.
pub open spec fn is_file_line(line: Seq<char>, status: Status, level: nat, name: Seq<char>) -> bool {
    &&& line.len() == 5 + 2 * level + name.len()
    &&& is_marker(line.take(5), status)
    &&& forall|i: int| 5 <= i < 5 + 2 * level ==> #[trigger] line[i] == ' '
    &&& line.skip(5 + 2 * level as int) == name
}

/// Every file of a comparison that differs, and with `all` every file, has a line
/// with its status, its level and its name, as long as it lies within the depth.
pub proof fn every_file_is_printed(
    l: NodeModel,
    r: NodeModel,
    rel: Seq<Seq<char>>,
    f: DiffModel,
    max_depth: nat,
    all: bool,
) -> (k: int)
    requires
        match_laws::stands_at(compare::tree_diff(l, r), rel, f),
        !f.is_dir,
        all || f.status != Status::Identical,
        rel.len() <= max_depth,
    ensures
        rel.len() > 0,
        0 <= k < report::printed(compare::tree_diff(l, r), max_depth, all).len(),
        is_file_line(
            report::printed(compare::tree_diff(l, r), max_depth, all)[k],
            f.status,
            (rel.len() - 1) as nat,
            f.name,
        ),
{
    let d = compare::tree_diff(l, r);
    assert(rel.len() > 0);
    compare_laws::diff_aggregates(l, r);
    output_laws::every_difference_has_a_line(d, rel, f, 0, max_depth, all);
    let level = (rel.len() - 1) as nat;
    let line = report::file_line(f, level);
    file_lines(f, level);
    let lines = report::printed(d, max_depth, all);
    let k = lines.index_of(line);
    k
}

proof fn file_lines(f: DiffModel, level: nat)
    requires
        !f.is_dir,
    ensures
        is_file_line(report::file_line(f, level), f.status, level, f.name),
{
    files_are_printed_with_their_status(f, level, 0, true);
    let line = report::lines_of(f, level, 0, true)[0];
    assert(line == report::file_line(f, level));
}

/// With depth 0 nothing is printed, and of two trees in sync nothing is printed
/// unless all is asked for.
pub proof fn nothing_to_print(l: NodeModel, r: NodeModel, max_depth: nat, all: bool)
    requires
        max_depth == 0 || (!all && none_differ(compare::tree_diff(l, r).counts)),
    ensures
        report::printed(compare::tree_diff(l, r), max_depth, all).len() == 0,
{
    if max_depth > 0 {
        compare_laws::diff_aggregates(l, r);
        output_laws::in_sync_prints_nothing(compare::tree_diff(l, r), 0, max_depth);
    }
}

/// A message printed over a line starts at its beginning, is there in full, and
/// leaves nothing of the line before: with the spaces behind it it is at least
/// as long, and no longer than the longer of the two.
pub proof fn messages_cover_the_line_before(before: int, msg: Seq<char>)
    requires
        before >= 0,
    ensures
        ({
            let s = report::overprint(before, msg);
            let pad = s.len() - 1 - msg.len();
            let len = report::byte_len(msg) as int;
            &&& s.len() >= 1 + msg.len()
            &&& s[0] == '\r'
            &&& s.subrange(1, 1 + msg.len() as int) == msg
            &&& forall|i: int| 1 + msg.len() <= i < s.len() ==> #[trigger] s[i] == ' '
            &&& len + pad >= before
            &&& pad > 0 ==> len + pad == before
        }),
{
    reveal_strlit("\r");
    let s = report::overprint(before, msg);
    assert(s.subrange(1, 1 + msg.len() as int) =~= msg);
}

/// At most twenty errors are printed, and all of them if there are no more.
pub proof fn few_errors_are_all_printed(n: nat)
    ensures
        report::errors_printed(n) <= 20,
        report::errors_printed(n) <= n,
        report::errors_printed(n) == 20 || report::errors_printed(n) == n,
{
}

/// A plan is told by its number of files and its size, an error by its path and
/// its message.
pub proof fn plans_and_errors_are_told(
    files: nat,
    size: Seq<char>,
    path: Seq<char>,
    message: Seq<char>,
)
    ensures
        report::plan_text(files, size) == text::decimal(files) + " files, "@ + size + " to copy"@,
        report::error_text(path, message) == "  error: "@ + path + ": "@ + message,
{
}

} // verus!
