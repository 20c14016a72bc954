//! What the command line prints.

use vstd::prelude::*;
use crate::compare::{Counts, DiffModel, DiffNode, Status, Tally};
use crate::model;
use crate::scan::{ScanMethod, ScanProgress, ScanResult};
use crate::sync::{Direction, SyncOp, SyncOutcome, SyncPlan};
use crate::text;

verus! {

/// A number in decimal.
pub(crate) fn number(n: u64) -> (r: String)
    ensures
        r@ == text::decimal(n as nat),
{
    text::decimal_text(n as u128)
}

/// The bytes that a progress event speaks of.
pub fn progress_bytes(p: ScanProgress) -> (r: Option<u64>)
    ensures
        r == match p {
            ScanProgress::MftReading { bytes } => Some(bytes),
            ScanProgress::MftLoaded { bytes, .. } => Some(bytes),
            _ => None,
        },
{
    match p {
        ScanProgress::MftReading { bytes } => Some(bytes),
        ScanProgress::MftLoaded { bytes, .. } => Some(bytes),
        _ => None,
    }
}

/// A progress event in words; `size` is the text for its bytes.
pub open spec fn message_of(label: Seq<char>, p: ScanProgress, size: Seq<char>) -> Seq<char> {
    match p {
        ScanProgress::MftLoading => label + ": reading MFT…"@,
        ScanProgress::MftReading { .. } => label + ": reading MFT… "@ + size,
        ScanProgress::MftLoaded { records, .. } => label + ": MFT loaded ("@ + text::decimal(
            records as nat,
        ) + " records, "@ + size + ")"@,
        ScanProgress::MftRecords { done, total, files, dirs } => label + ": "@ + text::decimal(
            done as nat,
        ) + "/"@ + text::decimal(total as nat) + " MFT records — "@ + text::decimal(files as nat)
            + " files, "@ + text::decimal(dirs as nat) + " dirs matched"@,
        ScanProgress::WalkEntries { entries } => label + ": "@ + text::decimal(entries as nat)
            + " entries walked"@,
    }
}

/// A progress event in words; `size` is the text for its bytes.
pub fn progress_message(label: &str, p: ScanProgress, size: &str) -> (r: String)
    ensures
        r@ == message_of(label@, p, size@),
{
    let s = label.to_owned();
    match p {
        ScanProgress::MftLoading => s.concat(": reading MFT…"),
        ScanProgress::MftReading { .. } => s.concat(": reading MFT… ").concat(size),
        ScanProgress::MftLoaded { records, .. } => s.concat(": MFT loaded (").concat(
            number(records).as_str(),
        ).concat(" records, ").concat(size).concat(")"),
        ScanProgress::MftRecords { done, total, files, dirs } => s.concat(": ").concat(
            number(done).as_str(),
        ).concat("/").concat(number(total).as_str()).concat(" MFT records — ").concat(
            number(files).as_str(),
        ).concat(" files, ").concat(number(dirs).as_str()).concat(" dirs matched"),
        ScanProgress::WalkEntries { entries } => s.concat(": ").concat(
            number(entries).as_str(),
        ).concat(" entries walked"),
    }
}

/// The length of a text in bytes.
pub open spec fn byte_len(s: Seq<char>) -> usize {
    vstd::utf8::encode_utf8(s).len() as usize
}

/// What is printed for a message over a line of which `before` bytes may be left:
/// the message, and spaces over the rest.
pub open spec fn overprint(before: int, msg: Seq<char>) -> Seq<char> {
    let len = byte_len(msg);
    "\r"@ + msg + text::spaces(
        if before < len {
            0
        } else {
            (before - len) as nat
        },
    )
}

/// Single-line progress; erases itself when done.
#[derive(Debug)]
pub struct ProgressLine {
    pub label: String,
    /// The length of the longest line so far.
    pub erase_len: usize,
}

impl ProgressLine {
    pub fn new(label: String) -> (r: Self)
        ensures
            r.label == label,
            r.erase_len == 0,
    {
        ProgressLine { label, erase_len: 0 }
    }

    /// What to print for a progress event: the message over the line before,
    /// with spaces over what is left of that line.
    pub fn update(&mut self, p: ScanProgress, size: &str) -> (r: String)
        ensures
            final(self).label == old(self).label,
            ({
                let msg = message_of(old(self).label@, p, size@);
                let len = byte_len(msg);
                let before = old(self).erase_len;
                &&& final(self).erase_len == if before < len {
                    len
                } else {
                    before
                }
                &&& r@ == "\r"@ + msg + text::spaces(
                    if before < len {
                        0
                    } else {
                        (before - len) as nat
                    },
                )
            }),
            r@ == overprint(
                old(self).erase_len as int,
                message_of(old(self).label@, p, size@),
            ),
    {
        let msg = progress_message(self.label.as_str(), p, size);
        let len: usize = msg.as_str().len();
        let pad: usize = self.erase_len.saturating_sub(len);
        if self.erase_len < len {
            self.erase_len = len;
        }
        let blank = text::spaces_text(pad);
        "\r".to_owned().concat(msg.as_str()).concat(blank.as_str())
    }

    /// What to print to erase the line; nothing if there is none.
    pub fn finish(&mut self) -> (r: Option<String>)
        ensures
            final(self).label == old(self).label,
            final(self).erase_len == 0,
            r is Some <==> old(self).erase_len > 0,
            r matches Some(s) ==> s@ == "\r"@ + text::spaces(old(self).erase_len as nat) + "\r"@,
    {
        if self.erase_len > 0 {
            let blank = text::spaces_text(self.erase_len);
            self.erase_len = 0;
            Some("\r".to_owned().concat(blank.as_str()).concat("\r"))
        } else {
            None
        }
    }
}

/// How a scan was done, in words.
pub open spec fn method_text(method: ScanMethod, reason: Option<Seq<char>>) -> Seq<char> {
    match (method, reason) {
        (ScanMethod::Mft, _) => "MFT"@,
        (ScanMethod::Walk, Some(reason)) => "directory walk (MFT unavailable: "@ + reason + ")"@,
        (ScanMethod::Walk, None) => "directory walk"@,
    }
}

/// How a scan was done, in words.
pub fn method_name(res: &ScanResult) -> (r: String)
    ensures
        r@ == method_text(res.model().method, res.model().reason),
{
    match res.method {
        ScanMethod::Mft => "MFT".to_owned(),
        ScanMethod::Walk => match &res.mft_fallback_reason {
            Some(reason) => "directory walk (MFT unavailable: ".to_owned().concat(
                reason.as_str(),
            ).concat(")"),
            None => "directory walk".to_owned(),
        },
    }
}

/// The statistics of one scanned tree in words.
pub open spec fn statistics(
    t: model::Totals,
    size: Seq<char>,
    elapsed: Seq<char>,
    method: Seq<char>,
) -> Seq<char> {
    text::decimal(t.files) + " files, "@ + text::decimal(t.dirs) + " dirs, "@ + size
        + " — scanned in "@ + elapsed + " via "@ + method
}

/// The statistics of one scanned tree; `size` is the text for its bytes,
/// `elapsed` that for its duration.
pub fn scan_line(res: &ScanResult, size: &str, elapsed: &str) -> (r: String)
    requires
        model::totals_of(res.model().root.children).fits(),
    ensures
        ({
            let t = model::totals_of(res.model().root.children);
            r@ == text::decimal(t.files) + " files, "@ + text::decimal(t.dirs) + " dirs, "@ + size@
                + " — scanned in "@ + elapsed@ + " via "@ + method_text(
                res.model().method,
                res.model().reason,
            )
        }),
        r@ == statistics(
            model::totals_of(res.model().root.children),
            size@,
            elapsed@,
            method_text(res.model().method, res.model().reason),
        ),
{
    let (files, dirs, _) = res.root.totals();
    let method = method_name(res);
    number(files).concat(" files, ").concat(number(dirs).as_str()).concat(" dirs, ").concat(
        size,
    ).concat(" — scanned in ").concat(elapsed).concat(" via ").concat(method.as_str())
}

/// The report on one side of a compare in words.
pub open spec fn side_report(
    path: Seq<char>,
    t: model::Totals,
    elapsed: Seq<char>,
    method: Seq<char>,
) -> Seq<char> {
    "scanned "@ + path + " ("@ + text::decimal(t.files) + " files, "@ + text::decimal(t.dirs)
        + " dirs) in "@ + elapsed + " via "@ + method
}

/// The report on one side of a compare.
pub fn report_scan(res: &ScanResult, elapsed: &str) -> (r: String)
    requires
        model::totals_of(res.model().root.children).fits(),
    ensures
        ({
            let t = model::totals_of(res.model().root.children);
            r@ == "scanned "@ + res.model().root_path + " ("@ + text::decimal(t.files)
                + " files, "@ + text::decimal(t.dirs) + " dirs) in "@ + elapsed@ + " via "@
                + method_text(res.model().method, res.model().reason)
        }),
        r@ == side_report(
            res.model().root_path,
            model::totals_of(res.model().root.children),
            elapsed@,
            method_text(res.model().method, res.model().reason),
        ),
{
    let (files, dirs, _) = res.root.totals();
    let method = method_name(res);
    "scanned ".to_owned().concat(res.root_path.as_str()).concat(" (").concat(
        number(files).as_str(),
    ).concat(" files, ").concat(number(dirs).as_str()).concat(" dirs) in ").concat(elapsed).concat(
        " via ",
    ).concat(method.as_str())
}

/// The marker of a file.
pub open spec fn marker(s: Status) -> Seq<char> {
    match s {
        Status::Identical => "  =  "@,
        Status::LeftNewer => " <<  "@,
        Status::RightNewer => "  >> "@,
        Status::Different => "  !  "@,
        Status::LeftOnly => " <-  "@,
        Status::RightOnly => "  -> "@,
    }
}

/// The marker of a file.
pub fn status_marker(s: Status) -> (r: &'static str)
    ensures
        r@ == marker(s),
{
    match s {
        Status::Identical => "  =  ",
        Status::LeftNewer => " <<  ",
        Status::RightNewer => "  >> ",
        Status::Different => "  !  ",
        Status::LeftOnly => " <-  ",
        Status::RightOnly => "  -> ",
    }
}

/// The number of differing files behind a directory's name; nothing if there
/// are none.
pub open spec fn suffix(c: Tally) -> Seq<char> {
    if c.in_sync() {
        Seq::empty()
    } else {
        "  ("@ + text::decimal(c.differing()) + " differing)"@
    }
}

/// The number of differing files behind a directory's name; nothing if there
/// are none.
pub fn summary_suffix(c: &Counts) -> (r: String)
    ensures
        r@ == suffix(c.model()),
{
    if c.in_sync() {
        let s = String::new();
        assert(s@ =~= Seq::<char>::empty());
        s
    } else {
        let n: u128 = c.left_newer as u128 + c.right_newer as u128 + c.different as u128
            + c.left_only as u128 + c.right_only as u128;
        "  (".to_owned().concat(text::decimal_text(n).as_str()).concat(" differing)")
    }
}

/// The line of a directory.
pub open spec fn dir_line(d: DiffModel, indent: nat) -> Seq<char> {
    text::spaces(2 * indent + 5) + "["@ + (if d.counts.in_sync() {
        "="@
    } else {
        "≠"@
    }) + "] "@ + d.name + suffix(d.counts)
}

/// The line of a file.
pub open spec fn file_line(d: DiffModel, indent: nat) -> Seq<char> {
    marker(d.status) + text::spaces(2 * indent) + d.name
}

/// The lines for a node at the given indent: differences only, unless `all`
/// are asked for, down to `max_depth`.
pub open spec fn lines_of(d: DiffModel, indent: nat, max_depth: nat, all: bool) -> Seq<Seq<char>>
    decreases d, 0nat,
{
    if !all && d.counts.in_sync() {
        Seq::empty()
    } else if d.is_dir {
        seq![dir_line(d, indent)] + (if indent + 1 < max_depth {
            lines_of_all(d.children, indent + 1, max_depth, all)
        } else {
            Seq::empty()
        })
    } else {
        seq![file_line(d, indent)]
    }
}

/// The lines for nodes at the given indent, one after the other.
pub open spec fn lines_of_all(
    s: Seq<DiffModel>,
    indent: nat,
    max_depth: nat,
    all: bool,
) -> Seq<Seq<char>>
    decreases s, 1nat,
{
    if s.len() == 0 {
        Seq::empty()
    } else {
        lines_of_all(s.drop_last(), indent, max_depth, all) + lines_of(
            s.last(),
            indent,
            max_depth,
            all,
        )
    }
}

/// Two spaces for each level of indent.
fn indent_text(indent: usize) -> (r: String)
    ensures
        r@ == text::spaces(2 * indent as nat),
{
    let mut s = String::new();
    let mut i: usize = 0;
    proof {
        reveal_strlit("  ");
    }
    assert(s@ =~= text::spaces(0));
    while i < indent
        invariant
            i <= indent,
            s@ == text::spaces(2 * i as nat),
            "  "@ =~= seq![' ', ' '],
        decreases indent - i,
    {
        s.append("  ");
        i += 1;
        assert(s@ =~= text::spaces(2 * i as nat));
    }
    s
}

/// Adds the lines for a node to `out`.
pub fn tree_lines(
    node: &DiffNode,
    indent: usize,
    max_depth: usize,
    all: bool,
    out: &mut Vec<String>,
)
    requires
        indent < usize::MAX,
    ensures
        text::texts(final(out)@) == text::texts(old(out)@) + lines_of(
            node.model(),
            indent as nat,
            max_depth as nat,
            all,
        ),
    decreases node,
{
    let ghost before = text::texts(out@);
    if !all && node.counts.in_sync() {
        assert(before =~= before + lines_of(node.model(), indent as nat, max_depth as nat, all));
        return;
    }
    let pad = indent_text(indent);
    if node.is_dir {
        proof {
            reveal_strlit("     ");
        }
        assert(pad@ + "     "@ =~= text::spaces(2 * indent as nat + 5));
        let suffix = summary_suffix(&node.counts);
        let line = pad.concat("     ").concat("[").concat(
            if node.counts.in_sync() {
                "="
            } else {
                "≠"
            },
        ).concat("] ").concat(node.name.as_str()).concat(suffix.as_str());
        let ghost first = dir_line(node.model(), indent as nat);
        assert(line@ == first);
        out.push(line);
        assert(text::texts(out@) =~= before + seq![first]);
        if indent + 1 < max_depth {
            let ghost children = node.model().children;
            let ghost head = text::texts(out@);
            let mut i: usize = 0;
            assert(children.take(0) =~= Seq::<DiffModel>::empty());
            assert(head =~= head + lines_of_all(
                children.take(0),
                (indent + 1) as nat,
                max_depth as nat,
                all,
            ));
            while i < node.children.len()
                invariant
                    indent + 1 < max_depth,
                    i <= node.children@.len(),
                    children == node.model().children,
                    text::texts(out@) == head + lines_of_all(
                        children.take(i as int),
                        (indent + 1) as nat,
                        max_depth as nat,
                        all,
                    ),
                decreases node.children@.len() - i,
            {
                let ghost so_far = lines_of_all(
                    children.take(i as int),
                    (indent + 1) as nat,
                    max_depth as nat,
                    all,
                );
                let c = &node.children[i];
                assert(c.model() == children[i as int]);
                tree_lines(c, indent + 1, max_depth, all, out);
                i += 1;
                proof {
                    assert(children.take(i as int).drop_last() =~= children.take(i - 1));
                    let more = lines_of(
                        children[i - 1],
                        (indent + 1) as nat,
                        max_depth as nat,
                        all,
                    );
                    assert(head + so_far + more =~= head + (so_far + more));
                }
            }
            assert(children.take(i as int) =~= children);
            assert(text::texts(out@) =~= before + lines_of(
                node.model(),
                indent as nat,
                max_depth as nat,
                all,
            ));
        } else {
            assert(text::texts(out@) =~= before + lines_of(
                node.model(),
                indent as nat,
                max_depth as nat,
                all,
            ));
        }
    } else {
        let line = status_marker(node.status).to_owned().concat(pad.as_str()).concat(
            node.name.as_str(),
        );
        let ghost first = file_line(node.model(), indent as nat);
        assert(line@ == first);
        out.push(line);
        assert(text::texts(out@) =~= before + seq![first]);
    }
}

/// The lines for a whole comparison.
pub open spec fn printed(d: DiffModel, max_depth: nat, all: bool) -> Seq<Seq<char>> {
    if max_depth == 0 {
        Seq::empty()
    } else {
        lines_of_all(d.children, 0, max_depth, all)
    }
}

/// The lines for a whole comparison: every child of the root down to
/// `max_depth`, nothing with depth 0.
pub fn diff_lines(diff: &DiffNode, max_depth: usize, all: bool) -> (r: Vec<String>)
    ensures
        text::texts(r@) == if max_depth == 0 {
            Seq::empty()
        } else {
            lines_of_all(diff.model().children, 0, max_depth as nat, all)
        },
        text::texts(r@) == printed(diff.model(), max_depth as nat, all),
{
    let mut out: Vec<String> = Vec::new();
    let ghost children = diff.model().children;
    assert(text::texts(out@) =~= Seq::<Seq<char>>::empty());
    assert(children.take(0) =~= Seq::<DiffModel>::empty());
    if max_depth > 0 {
        let mut i: usize = 0;
        while i < diff.children.len()
            invariant
                max_depth > 0,
                i <= diff.children@.len(),
                children == diff.model().children,
                text::texts(out@) == lines_of_all(
                    children.take(i as int),
                    0,
                    max_depth as nat,
                    all,
                ),
            decreases diff.children@.len() - i,
        {
            let c = &diff.children[i];
            assert(c.model() == children[i as int]);
            tree_lines(c, 0, max_depth, all, &mut out);
            i += 1;
            assert(children.take(i as int).drop_last() =~= children.take(i - 1));
        }
        assert(children.take(i as int) =~= children);
    }
    out
}

/// The counts of a whole comparison in words.
pub open spec fn summary_of(t: Tally) -> Seq<char> {
    "identical: "@ + text::decimal(t.identical) + "   left-newer: "@ + text::decimal(t.left_newer)
        + "   right-newer: "@ + text::decimal(t.right_newer) + "   different: "@ + text::decimal(
        t.different,
    ) + "   left-only: "@ + text::decimal(t.left_only) + "   right-only: "@ + text::decimal(
        t.right_only,
    )
}

/// The counts of a whole comparison.
pub fn summary_line(c: &Counts) -> (r: String)
    ensures
        r@ == "identical: "@ + text::decimal(c.identical as nat) + "   left-newer: "@
            + text::decimal(c.left_newer as nat) + "   right-newer: "@ + text::decimal(
            c.right_newer as nat,
        ) + "   different: "@ + text::decimal(c.different as nat) + "   left-only: "@
            + text::decimal(c.left_only as nat) + "   right-only: "@ + text::decimal(
            c.right_only as nat,
        ),
        r@ == summary_of(c.model()),
{
    "identical: ".to_owned().concat(number(c.identical).as_str()).concat(
        "   left-newer: ",
    ).concat(number(c.left_newer).as_str()).concat("   right-newer: ").concat(
        number(c.right_newer).as_str(),
    ).concat("   different: ").concat(number(c.different).as_str()).concat(
        "   left-only: ",
    ).concat(number(c.left_only).as_str()).concat("   right-only: ").concat(
        number(c.right_only).as_str(),
    )
}

/// The direction of a sync: "l2r" (left to right) or "r2l" (right to left).
pub fn parse_direction(s: &str) -> (r: Result<Direction, String>)
    ensures
        match r {
            Ok(Direction::LeftToRight) => s@ == "l2r"@,
            Ok(Direction::RightToLeft) => s@ == "r2l"@,
            Err(e) => s@ != "l2r"@ && s@ != "r2l"@ && e@ == "invalid --direction '"@ + s@
                + "' (use l2r or r2l)"@,
        },
{
    if text::text_equals(s, "l2r") {
        Ok(Direction::LeftToRight)
    } else if text::text_equals(s, "r2l") {
        Ok(Direction::RightToLeft)
    } else {
        Err("invalid --direction '".to_owned().concat(s).concat("' (use l2r or r2l)"))
    }
}

/// One operation of a plan in words, given whether it copies.
pub open spec fn op_text(
    copies: bool,
    src: Seq<char>,
    dst: Seq<char>,
    size: Seq<char>,
) -> Seq<char> {
    if copies {
        "copy   "@ + src + " -> "@ + dst + " ("@ + size + ")"@
    } else {
        "mkdir  "@ + dst
    }
}

/// The line for one operation of a plan, given its paths as they are shown and
/// the text for its bytes.
pub fn op_line(op: &SyncOp, src: &str, dst: &str, size: &str) -> (r: String)
    ensures
        r@ == match op {
            SyncOp::CreateDir { .. } => "mkdir  "@ + dst@,
            SyncOp::Copy { .. } => "copy   "@ + src@ + " -> "@ + dst@ + " ("@ + size@ + ")"@,
        },
        r@ == op_text(op is Copy, src@, dst@, size@),
{
    match op {
        SyncOp::CreateDir { .. } => "mkdir  ".to_owned().concat(dst),
        SyncOp::Copy { .. } => "copy   ".to_owned().concat(src).concat(" -> ").concat(dst).concat(
            " (",
        ).concat(size).concat(")"),
    }
}

/// The total of a plan in words.
pub open spec fn plan_text(files: nat, size: Seq<char>) -> Seq<char> {
    text::decimal(files) + " files, "@ + size + " to copy"@
}

/// The total of a plan; `size` is the text for its bytes.
pub fn plan_line(plan: &SyncPlan, size: &str) -> (r: String)
    ensures
        r@ == text::decimal(plan.total_files as nat) + " files, "@ + size@ + " to copy"@,
        r@ == plan_text(plan.total_files as nat, size@),
{
    number(plan.total_files).concat(" files, ").concat(size).concat(" to copy")
}

/// How far a sync has come; the sizes are the texts for the bytes done and for
/// all of them.
pub fn copy_line(done_files: u64, total_files: u64, done_size: &str, total_size: &str) -> (r:
    String)
    ensures
        r@ == "\r"@ + text::decimal(done_files as nat) + "/"@ + text::decimal(total_files as nat)
            + " files, "@ + done_size@ + "/"@ + total_size@ + "    "@,
{
    "\r".to_owned().concat(number(done_files).as_str()).concat("/").concat(
        number(total_files).as_str(),
    ).concat(" files, ").concat(done_size).concat("/").concat(total_size).concat("    ")
}

/// What came of a sync in words.
pub open spec fn outcome_text(files: nat, size: Seq<char>, errors: nat) -> Seq<char> {
    "Copied "@ + text::decimal(files) + " files ("@ + size + "). "@ + text::decimal(errors)
        + " errors."@
}

/// What came of a sync; `size` is the text for the bytes copied.
pub fn outcome_line(outcome: &SyncOutcome, size: &str) -> (r: String)
    ensures
        r@ == "Copied "@ + text::decimal(outcome.copied_files as nat) + " files ("@ + size@
            + "). "@ + text::decimal(outcome.errors@.len()) + " errors."@,
        r@ == outcome_text(outcome.copied_files as nat, size@, outcome.errors@.len()),
{
    let errors: usize = outcome.errors.len();
    "Copied ".to_owned().concat(number(outcome.copied_files).as_str()).concat(" files (").concat(
        size,
    ).concat("). ").concat(text::decimal_text(errors as u128).as_str()).concat(" errors.")
}

/// How many of so many errors are printed.
pub open spec fn errors_printed(n: nat) -> nat {
    if n < 20 {
        n
    } else {
        20
    }
}

/// The most errors that are printed.
pub const SHOWN_ERRORS: usize = 20;

/// How many errors of a sync are printed: the first twenty.
pub fn shown_errors(outcome: &SyncOutcome) -> (r: usize)
    ensures
        r == if outcome.errors@.len() < 20 {
            outcome.errors@.len()
        } else {
            20
        },
        r == errors_printed(outcome.errors@.len()),
{
    if outcome.errors.len() < SHOWN_ERRORS {
        outcome.errors.len()
    } else {
        SHOWN_ERRORS
    }
}

/// One error in words.
pub open spec fn error_text(path: Seq<char>, message: Seq<char>) -> Seq<char> {
    "  error: "@ + path + ": "@ + message
}

/// The line for one error, given its path as it is shown.
pub fn error_line(path: &str, message: &str) -> (r: String)
    ensures
        r@ == "  error: "@ + path@ + ": "@ + message@,
        r@ == error_text(path@, message@),
{
    "  error: ".to_owned().concat(path).concat(": ").concat(message)
}

} // verus!
