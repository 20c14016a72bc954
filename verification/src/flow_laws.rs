//! How scans go on from step to step, and whose result ends up on which side.

use vstd::prelude::*;
use crate::model::Node;
use crate::scan;
use crate::scan::mft::MftError;
use crate::scan::{
    AutoEvent, AutoScan, Elapsed, PairEvent, PairScan, RootKind, ScanError, ScanMethod, ScanOptions,
    ScanResult,
};

verus! {

/// `x` is the result `y`, but for the reason noted on it.
pub open spec fn same_scan(x: ScanResult, y: ScanResult) -> bool {
    &&& x.root_path@ == y.root_path@
    &&& x.root.model() == y.root.model()
    &&& x.method == y.method
    &&& x.duration == y.duration
    &&& x.skipped == y.skipped
}

/// The text that is there is `t`.
pub open spec fn is_text(s: Option<String>, t: Seq<char>) -> bool {
    s matches Some(x) && x@ == t
}

/// The two texts are the same, or both are missing.
pub open spec fn same_text(a: Option<String>, b: Option<String>) -> bool {
    match (a, b) {
        (Some(x), Some(y)) => x@ == y@,
        (None, None) => true,
        _ => false,
    }
}

/// `r` is what the scan of two roots `s` comes to with `event`.
pub open spec fn pair_goes_on(
    s: PairScan,
    event: PairEvent,
    left: Seq<char>,
    right: Seq<char>,
    options: ScanOptions,
    r: PairScan,
) -> bool {
    r.model() == scan::pair_next(s.model(), event.model(), left, right, options.try_mft)
}

/// Roots that are scanned one by one keep their sides: the result heard first
/// is the left one, the result heard second is the right one, whatever the
/// trees hold. A reason for giving up the shared read is noted on both;
/// without one each keeps its own. The right side is scanned with the options
/// of the left one.
pub proof fn sides_keep_their_place(
    options: ScanOptions,
    reason: Option<String>,
    a: ScanResult,
    b: ScanResult,
    left: Seq<char>,
    right: Seq<char>,
    asked: ScanOptions,
    half: PairScan,
    done: PairScan,
)
    requires
        pair_goes_on(
            PairScan::Left { options, reason },
            PairEvent::Side(Ok(a)),
            left,
            right,
            asked,
            half,
        ),
        pair_goes_on(half, PairEvent::Side(Ok(b)), left, right, asked, done),
    ensures
        half matches PairScan::Right { options: o, left: l, .. } && o.try_mft == options.try_mft
            && same_scan(l, a),
        done matches PairScan::Done(x, y) && {
            &&& same_scan(x, a)
            &&& same_scan(y, b)
            &&& match reason {
                Some(t) => is_text(x.mft_fallback_reason, t@) && is_text(
                    y.mft_fallback_reason,
                    t@,
                ),
                None => same_text(x.mft_fallback_reason, a.mft_fallback_reason) && same_text(
                    y.mft_fallback_reason,
                    b.mft_fallback_reason,
                ),
            }
        },
{
}

/// The scan of the right side ends with the left result that was kept and the
/// right one that was heard.
pub proof fn right_side_comes_second(
    options: ScanOptions,
    reason: Option<String>,
    a: ScanResult,
    b: ScanResult,
    left: Seq<char>,
    right: Seq<char>,
    asked: ScanOptions,
    done: PairScan,
)
    requires
        pair_goes_on(
            PairScan::Right { options, reason, left: a },
            PairEvent::Side(Ok(b)),
            left,
            right,
            asked,
            done,
        ),
    ensures
        done matches PairScan::Done(x, y) && {
            &&& same_scan(x, a)
            &&& same_scan(y, b)
            &&& match reason {
                Some(t) => is_text(x.mft_fallback_reason, t@) && is_text(
                    y.mft_fallback_reason,
                    t@,
                ),
                None => same_text(x.mft_fallback_reason, a.mft_fallback_reason) && same_text(
                    y.mft_fallback_reason,
                    b.mft_fallback_reason,
                ),
            }
        },
{
}

/// The result is a tree out of the MFT of the root at `path`.
pub open spec fn out_of_mft(x: ScanResult, path: Seq<char>, root: Node, took: Elapsed) -> bool {
    &&& x.root_path@ == path
    &&& x.root.model() == root.model()
    &&& x.method == ScanMethod::Mft
    &&& x.duration == took
    &&& x.skipped == 0
    &&& x.mft_fallback_reason is None
}

/// A shared read ends the scan with the left tree under the left path and the
/// right tree under the right path.
pub proof fn shared_read_serves_both_sides(
    l: Node,
    r: Node,
    took: Elapsed,
    left: Seq<char>,
    right: Seq<char>,
    asked: ScanOptions,
    done: PairScan,
)
    requires
        pair_goes_on(
            PairScan::Shared,
            PairEvent::Shared(Ok((l, r)), took),
            left,
            right,
            asked,
            done,
        ),
    ensures
        done matches PairScan::Done(x, y) && out_of_mft(x, left, l, took) && out_of_mft(
            y,
            right,
            r,
            took,
        ),
{
}

/// The words for an error of the fast path.
pub open spec fn says_error(t: Seq<char>, e: MftError) -> bool {
    match e {
        MftError::NotLocalDrive => t == "not a local drive path"@,
        MftError::NotElevated => t == "process is not elevated"@,
        MftError::Ntfs(m) => t == "volume error: "@ + m@,
        MftError::Io(m) => t == "io error: "@ + m@,
    }
}

/// A shared read that fails has both sides scanned one by one, without the MFT
/// and with the error in words as the reason.
pub proof fn failed_shared_read_falls_back(
    e: MftError,
    took: Elapsed,
    left: Seq<char>,
    right: Seq<char>,
    asked: ScanOptions,
    next: PairScan,
)
    requires
        pair_goes_on(
            PairScan::Shared,
            PairEvent::Shared(Err(e), took),
            left,
            right,
            asked,
            next,
        ),
    ensures
        next matches PairScan::Left { options, reason } && !options.try_mft && (reason matches Some(
            t,
        ) && says_error(t@, e)),
{
}

/// A shared read is considered exactly if the fast path is asked for and the
/// platform has it; else the sides are scanned one by one as asked.
pub proof fn pair_scans_start(options: ScanOptions, has_mft: bool, r: PairScan)
    requires
        r.model() == scan::pair_start(options.try_mft, has_mft),
    ensures
        options.try_mft && has_mft ==> r is Drives,
        !options.try_mft || !has_mft ==> (r matches PairScan::Left { options: o, reason }
            && o.try_mft == options.try_mft && reason is None),
{
}

/// Roots share a read exactly if they live on the same local drive.
pub proof fn same_drive_shares(
    l: Option<char>,
    r: Option<char>,
    left: Seq<char>,
    right: Seq<char>,
    asked: ScanOptions,
    next: PairScan,
)
    requires
        pair_goes_on(PairScan::Drives, PairEvent::Drives(l, r), left, right, asked, next),
    ensures
        (exists|c: char| l == Some(c) && r == Some(c)) ==> next is LeftRoot,
        !(exists|c: char| l == Some(c) && r == Some(c)) ==> (next matches PairScan::Left {
            options,
            reason,
        } && options.try_mft == asked.try_mft && reason is None),
{
    if l is Some && r == l {
        assert(l == Some(l->0) && r == Some(l->0));
    }
}

/// The scan failed because of what the file system says of the root at `path`.
pub open spec fn refuses(e: ScanError, path: Seq<char>, kind: RootKind) -> bool {
    match kind {
        RootKind::Missing => e matches ScanError::RootNotFound(p) && p@ == path,
        RootKind::Other => e matches ScanError::NotADirectory(p) && p@ == path,
        RootKind::Directory => false,
    }
}

/// Both roots have to be directories before the shared read; the left one is
/// looked at first, and each is named in its own error.
pub proof fn both_roots_are_looked_at(
    kind: RootKind,
    left: Seq<char>,
    right: Seq<char>,
    asked: ScanOptions,
    after_left: PairScan,
    after_right: PairScan,
)
    requires
        pair_goes_on(PairScan::LeftRoot, PairEvent::Root(kind), left, right, asked, after_left),
        pair_goes_on(PairScan::RightRoot, PairEvent::Root(kind), left, right, asked, after_right),
    ensures
        kind == RootKind::Directory ==> after_left is RightRoot && after_right is Shared,
        kind != RootKind::Directory ==> {
            &&& after_left matches PairScan::Failed(e) && refuses(e, left, kind)
            &&& after_right matches PairScan::Failed(e) && refuses(e, right, kind)
        },
{
}

/// The two errors say the same.
pub open spec fn same_error(a: ScanError, b: ScanError) -> bool {
    match (a, b) {
        (ScanError::RootNotFound(x), ScanError::RootNotFound(y)) => x@ == y@,
        (ScanError::NotADirectory(x), ScanError::NotADirectory(y)) => x@ == y@,
        (ScanError::Io(x), ScanError::Io(y)) => x@ == y@,
        _ => false,
    }
}

/// A side that cannot be scanned fails the scan of both with its own error.
pub proof fn a_failed_side_fails_the_scan(
    s: PairScan,
    e: ScanError,
    left: Seq<char>,
    right: Seq<char>,
    asked: ScanOptions,
    next: PairScan,
)
    requires
        s is Left || s is Right,
        pair_goes_on(s, PairEvent::Side(Err(e)), left, right, asked, next),
    ensures
        next matches PairScan::Failed(x) && same_error(x, e),
{
}

/// A scan of two roots that has ended stays as it is, and an event that is not
/// awaited changes nothing.
pub proof fn pair_scans_wait_for_their_event(
    s: PairScan,
    event: PairEvent,
    left: Seq<char>,
    right: Seq<char>,
    asked: ScanOptions,
    next: PairScan,
)
    requires
        pair_goes_on(s, event, left, right, asked, next),
        match s {
            PairScan::Drives => !(event is Drives),
            PairScan::LeftRoot => !(event is Root),
            PairScan::RightRoot => !(event is Root),
            PairScan::Shared => !(event is Shared),
            PairScan::Left { .. } => !(event is Side),
            PairScan::Right { .. } => !(event is Side),
            PairScan::Done(_, _) => true,
            PairScan::Failed(_) => true,
        },
    ensures
        match s {
            PairScan::Drives => next is Drives,
            PairScan::LeftRoot => next is LeftRoot,
            PairScan::RightRoot => next is RightRoot,
            PairScan::Shared => next is Shared,
            PairScan::Left { options, reason } => next matches PairScan::Left {
                options: o,
                reason: t,
            } && o.try_mft == options.try_mft && same_text(t, reason),
            PairScan::Right { options, reason, left: a } => next matches PairScan::Right {
                options: o,
                reason: t,
                left: b,
            } && o.try_mft == options.try_mft && same_text(t, reason) && same_scan(b, a)
                && same_text(b.mft_fallback_reason, a.mft_fallback_reason),
            PairScan::Done(a, b) => next matches PairScan::Done(x, y) && same_scan(x, a)
                && same_scan(y, b) && same_text(x.mft_fallback_reason, a.mft_fallback_reason)
                && same_text(y.mft_fallback_reason, b.mft_fallback_reason),
            PairScan::Failed(e) => next matches PairScan::Failed(x) && same_error(x, e),
        },
{
}

/// `r` is what the scan of one root `s` comes to with `event`.
pub open spec fn auto_goes_on(
    s: AutoScan,
    event: AutoEvent,
    path: Seq<char>,
    options: ScanOptions,
    has_mft: bool,
    r: AutoScan,
) -> bool {
    r.model() == scan::auto_next(s.model(), event.model(), path, options.try_mft && has_mft)
}

/// Only a directory is scanned, with the fast path first exactly if it is asked
/// for and the platform has it; any other root fails the scan and is named.
pub proof fn only_directories_are_scanned(
    kind: RootKind,
    path: Seq<char>,
    options: ScanOptions,
    has_mft: bool,
    next: AutoScan,
)
    requires
        auto_goes_on(AutoScan::Look, AutoEvent::Root(kind), path, options, has_mft, next),
    ensures
        kind != RootKind::Directory ==> (next matches AutoScan::Failed(e) && refuses(
            e,
            path,
            kind,
        )),
        kind == RootKind::Directory && options.try_mft && has_mft ==> next is Mft,
        kind == RootKind::Directory && !(options.try_mft && has_mft) ==> (next matches AutoScan::Walk {
            reason,
        } && reason is None),
{
}

/// The fast path ends the scan with its tree; where it fails, the directories
/// are walked, and its error in words is kept as the reason.
pub proof fn fast_path_ends_or_falls_back(
    outcome: Result<Node, MftError>,
    took: Elapsed,
    path: Seq<char>,
    options: ScanOptions,
    has_mft: bool,
    next: AutoScan,
)
    requires
        auto_goes_on(AutoScan::Mft, AutoEvent::Mft(outcome, took), path, options, has_mft, next),
    ensures
        match outcome {
            Ok(root) => next matches AutoScan::Done(x) && out_of_mft(x, path, root, took),
            Err(e) => next matches AutoScan::Walk { reason } && (reason matches Some(t)
                && says_error(t@, e)),
        },
{
}

/// A walk ends the scan with its tree, the entries it skipped, and the reason
/// why the fast path was given up; where it fails, the scan fails with the
/// system's message.
pub proof fn walks_end_the_scan(
    reason: Option<String>,
    outcome: Result<(Node, u64), String>,
    took: Elapsed,
    path: Seq<char>,
    options: ScanOptions,
    has_mft: bool,
    next: AutoScan,
)
    requires
        auto_goes_on(
            AutoScan::Walk { reason },
            AutoEvent::Walk(outcome, took),
            path,
            options,
            has_mft,
            next,
        ),
    ensures
        match outcome {
            Ok((root, skipped)) => next matches AutoScan::Done(x) && {
                &&& x.root_path@ == path
                &&& x.root.model() == root.model()
                &&& x.method == ScanMethod::Walk
                &&& x.duration == took
                &&& x.skipped == skipped
                &&& same_text(x.mft_fallback_reason, reason)
            },
            Err(e) => next matches AutoScan::Failed(x) && (x matches ScanError::Io(m) && m@ == e@),
        },
{
}

/// A scan of one root that has ended stays as it is, and an event that is not
/// awaited changes nothing.
pub proof fn scans_wait_for_their_event(
    s: AutoScan,
    event: AutoEvent,
    path: Seq<char>,
    options: ScanOptions,
    has_mft: bool,
    next: AutoScan,
)
    requires
        auto_goes_on(s, event, path, options, has_mft, next),
        match s {
            AutoScan::Look => !(event is Root),
            AutoScan::Mft => !(event is Mft),
            AutoScan::Walk { .. } => !(event is Walk),
            AutoScan::Done(_) => true,
            AutoScan::Failed(_) => true,
        },
    ensures
        match s {
            AutoScan::Look => next is Look,
            AutoScan::Mft => next is Mft,
            AutoScan::Walk { reason } => next matches AutoScan::Walk { reason: t } && same_text(
                t,
                reason,
            ),
            AutoScan::Done(a) => next matches AutoScan::Done(x) && same_scan(x, a) && same_text(
                x.mft_fallback_reason,
                a.mft_fallback_reason,
            ),
            AutoScan::Failed(e) => next matches AutoScan::Failed(x) && same_error(x, e),
        },
{
}

} // verus!
