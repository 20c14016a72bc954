//! Scanning: what a scan is asked for and what it gives back, and the
//! decisions between the MFT fast path and directory traversal.

pub mod fixup;
pub mod mft;
pub mod volume;
pub mod walk;

use vstd::prelude::*;
use crate::model::{Node, NodeModel};
use crate::scan::mft::MftError;

verus! {

#[derive(Debug, Clone, Copy, PartialEq, Eq, Structural)]
pub enum ScanMethod {
    /// Whole-volume MFT read, filtered to the subtree (fast path).
    Mft,
    /// Recursive directory traversal (fallback).
    Walk,
}

#[derive(Debug, Clone, Copy)]
pub struct ScanOptions {
    /// Attempt the MFT fast path first (local NTFS + elevation required).
    pub try_mft: bool,
}

/// Coarse progress events emitted during a scan. Emitted at most every few
/// thousand records, so the callback may do I/O (e.g. print to stderr).
#[derive(Debug, Clone, Copy)]
pub enum ScanProgress {
    /// Opening the volume; the raw $MFT read follows immediately.
    MftLoading,
    /// Cumulative bytes read from the volume so far while slurping the $MFT
    /// (reported every 8 MiB chunk).
    MftReading { bytes: u64 },
    MftLoaded { records: u64, bytes: u64 },
    /// Progress through the in-memory record table. `files`/`dirs` count what
    /// has matched the requested subtree so far.
    MftRecords { done: u64, total: u64, files: u64, dirs: u64 },
    WalkEntries { entries: u64 },
}

impl Default for ScanOptions {
    fn default() -> (r: Self)
        ensures
            r.try_mft,
    {
        ScanOptions { try_mft: true }
    }
}

/// How long something took.
#[derive(Debug, Clone, Copy, PartialEq, Eq, Structural)]
pub struct Elapsed {
    pub nanos: u128,
}

#[derive(Debug)]
pub struct ScanResult {
    /// The root as it is shown.
    pub root_path: String,
    pub root: Node,
    pub method: ScanMethod,
    pub duration: Elapsed,
    /// Entries skipped due to access errors (walk scanner only).
    pub skipped: u64,
    /// Why the MFT fast path was not used, if it was requested but fell back.
    pub mft_fallback_reason: Option<String>,
}

/// What a [`ScanResult`] stands for.
#[verifier::ext_equal]
pub struct ResultModel {
    pub root_path: Seq<char>,
    pub root: NodeModel,
    pub method: ScanMethod,
    pub duration: Elapsed,
    pub skipped: u64,
    pub reason: Option<Seq<char>>,
}

/// The characters of a text that may be missing.
pub open spec fn text_model(s: Option<String>) -> Option<Seq<char>> {
    match s {
        Some(t) => Some(t@),
        None => None,
    }
}

impl ScanResult {
    pub open spec fn model(self) -> ResultModel {
        ResultModel {
            root_path: self.root_path@,
            root: self.root.model(),
            method: self.method,
            duration: self.duration,
            skipped: self.skipped,
            reason: text_model(self.mft_fallback_reason),
        }
    }
}

/// Why a scan failed, with the root as it is shown or the system's message.
#[derive(Debug)]
pub enum ScanError {
    RootNotFound(String),
    NotADirectory(String),
    Io(String),
}

/// What a [`ScanError`] stands for.
pub enum ErrorModel {
    RootNotFound(Seq<char>),
    NotADirectory(Seq<char>),
    Io(Seq<char>),
}

impl ScanError {
    pub open spec fn model(self) -> ErrorModel {
        match self {
            ScanError::RootNotFound(p) => ErrorModel::RootNotFound(p@),
            ScanError::NotADirectory(p) => ErrorModel::NotADirectory(p@),
            ScanError::Io(e) => ErrorModel::Io(e@),
        }
    }

    /// The error in words.
    pub fn message(&self) -> (r: String)
        ensures
            r@ == match self.model() {
                ErrorModel::RootNotFound(p) => "path does not exist or is not accessible: "@ + p,
                ErrorModel::NotADirectory(p) => "path is not a directory: "@ + p,
                ErrorModel::Io(e) => "io error: "@ + e,
            },
    {
        match self {
            ScanError::RootNotFound(p) => {
                let s = "path does not exist or is not accessible: ".to_owned();
                s.concat(p.as_str())
            },
            ScanError::NotADirectory(p) => {
                "path is not a directory: ".to_owned().concat(p.as_str())
            },
            ScanError::Io(e) => "io error: ".to_owned().concat(e.as_str()),
        }
    }
}

/// What the file system says of a root.
#[derive(Debug, Clone, Copy, PartialEq, Eq, Structural)]
pub enum RootKind {
    /// It does not exist or cannot be looked at.
    Missing,
    /// It exists and is no directory.
    Other,
    Directory,
}

/// What is wrong with a root, if anything is.
pub open spec fn root_error(path: Seq<char>, kind: RootKind) -> Option<ErrorModel> {
    match kind {
        RootKind::Missing => Some(ErrorModel::RootNotFound(path)),
        RootKind::Other => Some(ErrorModel::NotADirectory(path)),
        RootKind::Directory => None,
    }
}

/// Only an existing directory can be scanned.
pub fn check_root(path: &str, kind: RootKind) -> (r: Result<(), ScanError>)
    ensures
        r is Ok <==> root_error(path@, kind) is None,
        r matches Err(e) ==> root_error(path@, kind) == Some(e.model()),
{
    match kind {
        RootKind::Missing => Err(ScanError::RootNotFound(path.to_owned())),
        RootKind::Other => Err(ScanError::NotADirectory(path.to_owned())),
        RootKind::Directory => Ok(()),
    }
}

/// The result of a scan over the MFT.
pub open spec fn mft_result(path: Seq<char>, root: NodeModel, took: Elapsed) -> ResultModel {
    ResultModel {
        root_path: path,
        root,
        method: ScanMethod::Mft,
        duration: took,
        skipped: 0,
        reason: None,
    }
}

/// The result of a scan by directory traversal.
pub open spec fn walk_result(
    path: Seq<char>,
    root: NodeModel,
    skipped: u64,
    took: Elapsed,
    reason: Option<Seq<char>>,
) -> ResultModel {
    ResultModel { root_path: path, root, method: ScanMethod::Walk, duration: took, skipped, reason }
}

fn mft_scan(path: &str, root: Node, took: Elapsed) -> (r: ScanResult)
    ensures
        r.model() == mft_result(path@, root.model(), took),
{
    ScanResult {
        root_path: path.to_owned(),
        root,
        method: ScanMethod::Mft,
        duration: took,
        skipped: 0,
        mft_fallback_reason: None,
    }
}

/// A scan of one root under way: what is to be done next, or how it ended.
#[derive(Debug)]
pub enum AutoScan {
    /// Look at the root.
    Look,
    /// Try the MFT fast path.
    Mft,
    /// Walk the directories. The reason is why the fast path was given up, if
    /// it was tried.
    Walk { reason: Option<String> },
    Done(ScanResult),
    Failed(ScanError),
}

/// What a step of a scan came to.
#[derive(Debug)]
pub enum AutoEvent {
    /// What the file system says of the root.
    Root(RootKind),
    /// The tree that the fast path built, or why it could not.
    Mft(Result<Node, MftError>, Elapsed),
    /// The tree that the traversal built and the number of entries skipped, or
    /// the system's message.
    Walk(Result<(Node, u64), String>, Elapsed),
}

/// What an [`AutoScan`] stands for.
pub enum AutoModel {
    Look,
    Mft,
    Walk { reason: Option<Seq<char>> },
    Done(ResultModel),
    Failed(ErrorModel),
}

/// What an [`AutoEvent`] stands for.
pub enum AutoEventModel {
    Root(RootKind),
    Mft(Result<NodeModel, Seq<char>>, Elapsed),
    Walk(Result<(NodeModel, u64), Seq<char>>, Elapsed),
}

impl AutoEvent {
    pub open spec fn model(self) -> AutoEventModel {
        match self {
            AutoEvent::Root(kind) => AutoEventModel::Root(kind),
            AutoEvent::Mft(Ok(root), took) => AutoEventModel::Mft(Ok(root.model()), took),
            AutoEvent::Mft(Err(e), took) => AutoEventModel::Mft(Err(e.text()), took),
            AutoEvent::Walk(Ok((root, skipped)), took) => AutoEventModel::Walk(
                Ok((root.model(), skipped)),
                took,
            ),
            AutoEvent::Walk(Err(e), took) => AutoEventModel::Walk(Err(e@), took),
        }
    }
}

/// How a scan of the root at `path` goes on. `tries_mft` says whether the fast
/// path is to be tried first: its tree ends the scan, its error is kept as the
/// reason for walking. An event that was not awaited changes nothing.
pub open spec fn auto_next(
    s: AutoModel,
    e: AutoEventModel,
    path: Seq<char>,
    tries_mft: bool,
) -> AutoModel {
    match (s, e) {
        (AutoModel::Look, AutoEventModel::Root(kind)) => match root_error(path, kind) {
            Some(x) => AutoModel::Failed(x),
            None => if tries_mft {
                AutoModel::Mft
            } else {
                AutoModel::Walk { reason: None }
            },
        },
        (AutoModel::Mft, AutoEventModel::Mft(Ok(root), took)) => AutoModel::Done(
            mft_result(path, root, took),
        ),
        (AutoModel::Mft, AutoEventModel::Mft(Err(x), _)) => AutoModel::Walk { reason: Some(x) },
        (AutoModel::Walk { reason }, AutoEventModel::Walk(Ok((root, skipped)), took)) => {
            AutoModel::Done(walk_result(path, root, skipped, took, reason))
        },
        (AutoModel::Walk { .. }, AutoEventModel::Walk(Err(x), _)) => AutoModel::Failed(
            ErrorModel::Io(x),
        ),
        _ => s,
    }
}

impl AutoScan {
    pub open spec fn model(self) -> AutoModel {
        match self {
            AutoScan::Look => AutoModel::Look,
            AutoScan::Mft => AutoModel::Mft,
            AutoScan::Walk { reason } => AutoModel::Walk { reason: text_model(reason) },
            AutoScan::Done(r) => AutoModel::Done(r.model()),
            AutoScan::Failed(e) => AutoModel::Failed(e.model()),
        }
    }

    /// Goes on with a scan of the root at `path`. The fast path is tried first
    /// if the options ask for it and the platform has it.
    pub fn next(self, event: AutoEvent, path: &str, options: ScanOptions, has_mft: bool) -> (r:
        Self)
        ensures
            r.model() == auto_next(
                self.model(),
                event.model(),
                path@,
                options.try_mft && has_mft,
            ),
    {
        match (self, event) {
            (AutoScan::Look, AutoEvent::Root(kind)) => match check_root(path, kind) {
                Err(e) => AutoScan::Failed(e),
                Ok(()) => if options.try_mft && has_mft {
                    AutoScan::Mft
                } else {
                    AutoScan::Walk { reason: None }
                },
            },
            (AutoScan::Mft, AutoEvent::Mft(outcome, took)) => match outcome {
                Ok(root) => AutoScan::Done(mft_scan(path, root, took)),
                Err(e) => AutoScan::Walk { reason: Some(e.message()) },
            },
            (AutoScan::Walk { reason }, AutoEvent::Walk(outcome, took)) => match outcome {
                Ok((root, skipped)) => AutoScan::Done(
                    ScanResult {
                        root_path: path.to_owned(),
                        root,
                        method: ScanMethod::Walk,
                        duration: took,
                        skipped,
                        mft_fallback_reason: reason,
                    },
                ),
                Err(e) => AutoScan::Failed(ScanError::Io(e)),
            },
            (state, _) => state,
        }
    }
}

/// A scan of two roots for a compare under way: what is to be done next, or how
/// it ended.
#[derive(Debug)]
pub enum PairScan {
    /// Find out which drives the roots live on.
    Drives,
    /// Look at the left root, then at the right one: they share a volume.
    LeftRoot,
    RightRoot,
    /// Read the MFT of that volume once, for both roots.
    Shared,
    /// Scan the left side by itself, then the right one. The reason, if there
    /// is one, is why a shared read was given up.
    Left { options: ScanOptions, reason: Option<String> },
    Right { options: ScanOptions, reason: Option<String>, left: ScanResult },
    Done(ScanResult, ScanResult),
    Failed(ScanError),
}

/// What a step of a scan of two roots came to.
#[derive(Debug)]
pub enum PairEvent {
    /// The drives of the left and the right root, where they are local.
    Drives(Option<char>, Option<char>),
    /// What the file system says of the root looked at.
    Root(RootKind),
    /// The trees of both sides out of one MFT, or why there are none.
    Shared(Result<(Node, Node), MftError>, Elapsed),
    /// What came of the scan of one side.
    Side(Result<ScanResult, ScanError>),
}

/// What a [`PairScan`] stands for.
pub enum PairModel {
    Drives,
    LeftRoot,
    RightRoot,
    Shared,
    Left { try_mft: bool, reason: Option<Seq<char>> },
    Right { try_mft: bool, reason: Option<Seq<char>>, left: ResultModel },
    Done(ResultModel, ResultModel),
    Failed(ErrorModel),
}

/// What a [`PairEvent`] stands for.
pub enum PairEventModel {
    Drives(Option<char>, Option<char>),
    Root(RootKind),
    Shared(Result<(NodeModel, NodeModel), Seq<char>>, Elapsed),
    Side(Result<ResultModel, ErrorModel>),
}

impl PairEvent {
    pub open spec fn model(self) -> PairEventModel {
        match self {
            PairEvent::Drives(l, r) => PairEventModel::Drives(l, r),
            PairEvent::Root(kind) => PairEventModel::Root(kind),
            PairEvent::Shared(Ok((l, r)), took) => PairEventModel::Shared(
                Ok((l.model(), r.model())),
                took,
            ),
            PairEvent::Shared(Err(e), took) => PairEventModel::Shared(Err(e.text()), took),
            PairEvent::Side(Ok(r)) => PairEventModel::Side(Ok(r.model())),
            PairEvent::Side(Err(e)) => PairEventModel::Side(Err(e.model())),
        }
    }
}

/// A result with the reason noted on it, if there is one.
pub open spec fn noted(r: ResultModel, reason: Option<Seq<char>>) -> ResultModel {
    match reason {
        Some(t) => ResultModel { reason: Some(t), ..r },
        None => r,
    }
}

/// How a scan of two roots starts: a shared read is considered only if the
/// fast path is asked for and the platform has it.
pub open spec fn pair_start(try_mft: bool, has_mft: bool) -> PairModel {
    if try_mft && has_mft {
        PairModel::Drives
    } else {
        PairModel::Left { try_mft, reason: None }
    }
}

/// How a scan of the roots at `left` and `right` goes on. Roots on the same
/// local drive share one MFT read; if that fails, both sides are walked without
/// trying the MFT again, and the reason is noted on both results. An event that
/// was not awaited changes nothing.
pub open spec fn pair_next(
    s: PairModel,
    e: PairEventModel,
    left: Seq<char>,
    right: Seq<char>,
    try_mft: bool,
) -> PairModel {
    match (s, e) {
        (PairModel::Drives, PairEventModel::Drives(l, r)) => if l is Some && l == r {
            PairModel::LeftRoot
        } else {
            PairModel::Left { try_mft, reason: None }
        },
        (PairModel::LeftRoot, PairEventModel::Root(kind)) => match root_error(left, kind) {
            Some(x) => PairModel::Failed(x),
            None => PairModel::RightRoot,
        },
        (PairModel::RightRoot, PairEventModel::Root(kind)) => match root_error(right, kind) {
            Some(x) => PairModel::Failed(x),
            None => PairModel::Shared,
        },
        (PairModel::Shared, PairEventModel::Shared(Ok((l, r)), took)) => PairModel::Done(
            mft_result(left, l, took),
            mft_result(right, r, took),
        ),
        (PairModel::Shared, PairEventModel::Shared(Err(x), _)) => PairModel::Left {
            try_mft: false,
            reason: Some(x),
        },
        (PairModel::Left { try_mft: t, reason }, PairEventModel::Side(Ok(l))) => PairModel::Right {
            try_mft: t,
            reason,
            left: l,
        },
        (PairModel::Right { reason, left: l, .. }, PairEventModel::Side(Ok(r))) => PairModel::Done(
            noted(l, reason),
            noted(r, reason),
        ),
        (PairModel::Left { .. }, PairEventModel::Side(Err(x))) => PairModel::Failed(x),
        (PairModel::Right { .. }, PairEventModel::Side(Err(x))) => PairModel::Failed(x),
        _ => s,
    }
}

impl ScanResult {
    /// Notes on a result why the MFT fast path was not used.
    fn with_reason(self, reason: &Option<String>) -> (r: Self)
        ensures
            r.model() == noted(self.model(), text_model(*reason)),
    {
        match reason {
            Some(t) => ScanResult {
                root_path: self.root_path,
                root: self.root,
                method: self.method,
                duration: self.duration,
                skipped: self.skipped,
                mft_fallback_reason: Some(t.clone()),
            },
            None => self,
        }
    }
}

impl PairScan {
    pub open spec fn model(self) -> PairModel {
        match self {
            PairScan::Drives => PairModel::Drives,
            PairScan::LeftRoot => PairModel::LeftRoot,
            PairScan::RightRoot => PairModel::RightRoot,
            PairScan::Shared => PairModel::Shared,
            PairScan::Left { options, reason } => PairModel::Left {
                try_mft: options.try_mft,
                reason: text_model(reason),
            },
            PairScan::Right { options, reason, left } => PairModel::Right {
                try_mft: options.try_mft,
                reason: text_model(reason),
                left: left.model(),
            },
            PairScan::Done(l, r) => PairModel::Done(l.model(), r.model()),
            PairScan::Failed(e) => PairModel::Failed(e.model()),
        }
    }

    /// Starts a scan of two roots.
    pub fn start(options: ScanOptions, has_mft: bool) -> (r: Self)
        ensures
            r.model() == pair_start(options.try_mft, has_mft),
    {
        if options.try_mft && has_mft {
            PairScan::Drives
        } else {
            PairScan::Left { options, reason: None }
        }
    }

    /// Goes on with a scan of the roots at `left` and `right`.
    pub fn next(self, event: PairEvent, left: &str, right: &str, options: ScanOptions) -> (r: Self)
        ensures
            r.model() == pair_next(
                self.model(),
                event.model(),
                left@,
                right@,
                options.try_mft,
            ),
    {
        match (self, event) {
            (PairScan::Drives, PairEvent::Drives(l, r)) => {
                let same = match (l, r) {
                    (Some(a), Some(b)) => a == b,
                    _ => false,
                };
                if same {
                    PairScan::LeftRoot
                } else {
                    PairScan::Left { options, reason: None }
                }
            },
            (PairScan::LeftRoot, PairEvent::Root(kind)) => match check_root(left, kind) {
                Err(e) => PairScan::Failed(e),
                Ok(()) => PairScan::RightRoot,
            },
            (PairScan::RightRoot, PairEvent::Root(kind)) => match check_root(right, kind) {
                Err(e) => PairScan::Failed(e),
                Ok(()) => PairScan::Shared,
            },
            (PairScan::Shared, PairEvent::Shared(outcome, took)) => match outcome {
                Ok((l, r)) => PairScan::Done(mft_scan(left, l, took), mft_scan(right, r, took)),
                Err(e) => PairScan::Left {
                    options: ScanOptions { try_mft: false },
                    reason: Some(e.message()),
                },
            },
            (PairScan::Left { options: o, reason }, PairEvent::Side(outcome)) => match outcome {
                Ok(l) => PairScan::Right { options: o, reason, left: l },
                Err(e) => PairScan::Failed(e),
            },
            (PairScan::Right { reason, left: l, .. }, PairEvent::Side(outcome)) => match outcome {
                Ok(r) => PairScan::Done(l.with_reason(&reason), r.with_reason(&reason)),
                Err(e) => PairScan::Failed(e),
            },
            (state, _) => state,
        }
    }
}

} // verus!
