//! MFT fast-path scanner: building trees out of the record table of a whole
//! volume, filtered down to the requested subtrees. Requires elevation and a
//! local NTFS volume; callers fall back to the walk scanner on any error.

use vstd::prelude::*;
use crate::model;
use crate::model::{Meta, Node, NodeModel, UnixTime};
use crate::scan::walk;
use crate::scan::ScanProgress;
use crate::text;

verus! {

/// Why the fast path cannot be used.
#[derive(Debug)]
pub enum MftError {
    NotLocalDrive,
    NotElevated,
    Ntfs(String),
    Io(String),
}

/// What an [`MftError`] stands for.
pub enum MftErrorModel {
    NotLocalDrive,
    NotElevated,
    Ntfs(Seq<char>),
    Io(Seq<char>),
}

/// The error for a message of the volume reader, also given in lower case.
pub open spec fn reader_error(message: Seq<char>, lower: Seq<char>) -> MftErrorModel {
    if text::contains(lower, "elevat"@) {
        MftErrorModel::NotElevated
    } else {
        MftErrorModel::Ntfs(message)
    }
}

impl MftError {
    pub open spec fn model(self) -> MftErrorModel {
        match self {
            MftError::NotLocalDrive => MftErrorModel::NotLocalDrive,
            MftError::NotElevated => MftErrorModel::NotElevated,
            MftError::Ntfs(e) => MftErrorModel::Ntfs(e@),
            MftError::Io(e) => MftErrorModel::Io(e@),
        }
    }

    /// The error in words.
    pub open spec fn text(self) -> Seq<char> {
        match self {
            MftError::NotLocalDrive => "not a local drive path"@,
            MftError::NotElevated => "process is not elevated"@,
            MftError::Ntfs(e) => "volume error: "@ + e@,
            MftError::Io(e) => "io error: "@ + e@,
        }
    }

    /// The error in words.
    pub fn message(&self) -> (r: String)
        ensures
            r@ == self.text(),
    {
        match self {
            MftError::NotLocalDrive => "not a local drive path".to_owned(),
            MftError::NotElevated => "process is not elevated".to_owned(),
            MftError::Ntfs(e) => "volume error: ".to_owned().concat(e.as_str()),
            MftError::Io(e) => "io error: ".to_owned().concat(e.as_str()),
        }
    }

    /// The error for what the volume reader says: a message that speaks of
    /// elevation means that the process lacks it.
    pub fn from_reader(message: String) -> (r: Self)
        ensures
            r.model() == reader_error(message@, text::lowercase(message@)),
    {
        let lower = text::to_lowercase(message.as_str());
        Self::from_lowered(message, lower.as_str())
    }

    /// As `from_reader`, given the message in lower case.
    pub fn from_lowered(message: String, lower: &str) -> (r: Self)
        ensures
            r.model() == reader_error(message@, lower@),
    {
        if text::text_contains(lower, "elevat") {
            MftError::NotElevated
        } else {
            MftError::Ntfs(message)
        }
    }
}

/// Progress is reported once in so many records.
pub const PROGRESS_INTERVAL: u64 = 65_536;

/// What the first component of a canonical path says of where it lives.
#[derive(Debug, Clone, Copy, PartialEq, Eq, Structural)]
pub enum PathPrefix {
    VerbatimDisk(u8),
    Disk(u8),
    /// A network share or a device, or no prefix at all.
    Other,
}

/// The letter of a local drive.
pub open spec fn drive_letter(prefix: PathPrefix) -> Option<char> {
    match prefix {
        PathPrefix::VerbatimDisk(d) => Some(d as char),
        PathPrefix::Disk(d) => Some(d as char),
        PathPrefix::Other => None,
    }
}

/// Drive letter of a canonical path, if it lives on a plain local drive (UNC
/// paths and mapped network drives return `None`: they have no locally readable
/// MFT).
pub fn drive_of(prefix: PathPrefix) -> (r: Option<char>)
    ensures
        r == match prefix {
            PathPrefix::VerbatimDisk(d) => Some(d as char),
            PathPrefix::Disk(d) => Some(d as char),
            PathPrefix::Other => None,
        },
        r == drive_letter(prefix),
{
    match prefix {
        PathPrefix::VerbatimDisk(d) => Some(d as char),
        PathPrefix::Disk(d) => Some(d as char),
        PathPrefix::Other => None,
    }
}

/// The path that opens a drive as a volume.
pub fn volume_path(drive: char) -> (r: String)
    ensures
        r@ == "\\\\.\\"@ + seq![drive] + ":"@,
{
    let letter = text::char_text(drive);
    "\\\\.\\".to_owned().concat(letter.as_str()).concat(":")
}

/// A part of the $MFT that has to be there.
#[derive(Debug, Clone, Copy, PartialEq, Eq, Structural)]
pub enum MftPart {
    Data,
    Bitmap,
}

/// The bytes of a part of the $MFT, or the error that it is missing.
pub fn require_part(part: MftPart, found: Option<Vec<u8>>) -> (r: Result<Vec<u8>, MftError>)
    ensures
        match found {
            Some(bytes) => r == Ok::<Vec<u8>, MftError>(bytes),
            None => r matches Err(e) && e.model() == MftErrorModel::Ntfs(
                match part {
                    MftPart::Data => "missing $MFT Data attribute"@,
                    MftPart::Bitmap => "missing $MFT Bitmap attribute"@,
                },
            ),
        },
{
    match found {
        Some(bytes) => Ok(bytes),
        None => Err(
            MftError::Ntfs(
                match part {
                    MftPart::Data => "missing $MFT Data attribute".to_owned(),
                    MftPart::Bitmap => "missing $MFT Bitmap attribute".to_owned(),
                },
            ),
        ),
    }
}

/// One used record of the table, with its full path below the volume's root.
#[derive(Debug)]
pub struct MftRecord {
    pub name: String,
    pub path: Vec<String>,
    pub is_directory: bool,
    pub size: u64,
    pub modified: Option<UnixTime>,
    pub attrs: u32,
}

/// What an [`MftRecord`] stands for.
pub struct RecordModel {
    pub name: Seq<char>,
    pub path: Seq<Seq<char>>,
    pub is_directory: bool,
    pub size: u64,
    pub modified: Option<UnixTime>,
    pub attrs: u32,
}

/// The file time of a record's modification. One that is not known, or that
/// lies too late for a file time, is stored as 0.
pub open spec fn record_mtime(modified: Option<UnixTime>) -> int {
    match modified {
        Some(t) => if model::has_filetime(t) {
            model::filetime(t)
        } else {
            0
        },
        None => 0,
    }
}

impl MftRecord {
    pub open spec fn model(self) -> RecordModel {
        RecordModel {
            name: self.name@,
            path: text::texts(self.path@),
            is_directory: self.is_directory,
            size: self.size,
            modified: self.modified,
            attrs: self.attrs,
        }
    }

    /// The metadata of the record. A directory has no size.
    pub fn meta(&self) -> (r: Meta)
        ensures
            r == self.model().meta(),
    {
        let mtime: u64 = match self.modified {
            Some(t) => if t.fits_filetime() {
                model::filetime_from_systemtime(t)
            } else {
                0
            },
            None => 0,
        };
        Meta {
            size: if self.is_directory {
                0
            } else {
                self.size
            },
            mtime,
            attrs: self.attrs,
        }
    }
}

impl RecordModel {
    pub open spec fn meta(self) -> Meta {
        Meta {
            size: if self.is_directory {
                0
            } else {
                self.size
            },
            mtime: record_mtime(self.modified) as u64,
            attrs: self.attrs,
        }
    }
}

/// One subtree being collected out of the shared MFT pass.
#[derive(Debug)]
pub struct Target {
    /// Path relative to the drive root, lower-cased for matching.
    pub rel_root: Vec<String>,
    pub tree: Node,
}

/// What a [`Target`] stands for.
#[verifier::ext_equal]
pub struct TargetModel {
    pub rel_root: Seq<Seq<char>>,
    pub tree: NodeModel,
}

impl Target {
    pub open spec fn model(self) -> TargetModel {
        TargetModel { rel_root: text::texts(self.rel_root@), tree: self.tree.model() }
    }
}

impl TargetModel {
    /// The record lies in this target's subtree and is not its root. `keys`
    /// are the lower-cased names of the record's path.
    pub open spec fn takes(self, rec: RecordModel, keys: Seq<Seq<char>>) -> bool {
        &&& rec.name.len() > 0
        &&& rec.path.len() > self.rel_root.len()
        &&& keys.take(self.rel_root.len() as int) == self.rel_root
    }

    /// The target with the record in its tree, if it lies in there.
    pub open spec fn with(self, rec: RecordModel, keys: Seq<Seq<char>>) -> TargetModel {
        let depth = self.rel_root.len() as int;
        if self.takes(rec, keys) {
            TargetModel {
                tree: model::insert_keyed(
                    self.tree,
                    rec.path.skip(depth),
                    keys.skip(depth),
                    walk::leaf(rec.path.skip(depth), rec.is_directory, rec.meta()),
                ),
                ..self
            }
        } else {
            self
        }
    }
}

/// The target of a root: nothing is in its tree yet, and it collects what lies
/// below the components. A root without a name of its own is named by its drive.
pub open spec fn root_target(
    drive: char,
    components: Seq<Seq<char>>,
    file_name: Option<Seq<char>>,
    meta: Meta,
) -> TargetModel {
    TargetModel {
        rel_root: text::keys_of(components),
        tree: NodeModel {
            name: match file_name {
                Some(n) => n,
                None => seq![drive] + ":"@,
            },
            is_dir: true,
            meta,
            children: Seq::empty(),
        },
    }
}

/// What a list of targets stands for.
pub open spec fn target_models(s: Seq<Target>) -> Seq<TargetModel> {
    s.map_values(|t: Target| t.model())
}

/// The trees of the targets, in their order.
pub open spec fn trees_of(targets: Seq<TargetModel>) -> Seq<NodeModel> {
    targets.map_values(|t: TargetModel| t.tree)
}

/// Some target takes the record.
pub open spec fn matched(
    targets: Seq<TargetModel>,
    rec: RecordModel,
    keys: Seq<Seq<char>>,
) -> bool {
    exists|i: int| 0 <= i < targets.len() && (#[trigger] targets[i]).takes(rec, keys)
}

/// The targets with the record in each tree that it lies in.
pub open spec fn with_record(
    targets: Seq<TargetModel>,
    rec: RecordModel,
    keys: Seq<Seq<char>>,
) -> Seq<TargetModel> {
    targets.map_values(|t: TargetModel| t.with(rec, keys))
}

/// Several roots, all on the same local volume, being scanned in a single pass
/// over the record table. This is what makes a same-drive compare cost one MFT
/// scan instead of two.
#[derive(Debug)]
pub struct MftScan {
    pub drive: char,
    pub targets: Vec<Target>,
    pub files: u64,
    pub dirs: u64,
}

fn same_texts(a: &Vec<String>, b: &Vec<String>, n: usize) -> (r: bool)
    requires
        n <= a@.len(),
        n <= b@.len(),
    ensures
        r == (text::texts(a@).take(n as int) == text::texts(b@).take(n as int)),
{
    let mut i: usize = 0;
    while i < n
        invariant
            i <= n <= a@.len(),
            n <= b@.len(),
            forall|j: int| 0 <= j < i ==> #[trigger] a@[j]@ == b@[j]@,
        decreases n - i,
    {
        if !text::text_equals(a[i].as_str(), b[i].as_str()) {
            assert(text::texts(a@).take(n as int)[i as int] != text::texts(b@).take(
                n as int,
            )[i as int]);
            return false;
        }
        i += 1;
    }
    assert(text::texts(a@).take(n as int) =~= text::texts(b@).take(n as int));
    true
}

impl MftScan {
    /// The trees are well-formed.
    pub open spec fn wf(self) -> bool {
        forall|i: int| 0 <= i < self.targets@.len() ==> (#[trigger] self.targets@[i]).tree.wf()
    }

    /// Starts a scan of the volume of the first root's drive.
    pub fn new(drive: Option<char>) -> (r: Result<Self, MftError>)
        ensures
            match drive {
                Some(d) => r matches Ok(s) && {
                    &&& s.wf()
                    &&& s.drive == d
                    &&& s.targets@.len() == 0
                    &&& s.files == 0
                    &&& s.dirs == 0
                },
                None => r == Err::<Self, MftError>(MftError::NotLocalDrive),
            },
    {
        match drive {
            Some(d) => Ok(MftScan { drive: d, targets: Vec::new(), files: 0, dirs: 0 }),
            None => Err(MftError::NotLocalDrive),
        }
    }

    /// Every root has to live on the volume that is scanned.
    pub fn check_drive(&self, drive: Option<char>) -> (r: Result<(), MftError>)
        ensures
            r == if drive == Some(self.drive) {
                Ok::<(), MftError>(())
            } else {
                Err(MftError::NotLocalDrive)
            },
    {
        match drive {
            Some(d) => if d == self.drive {
                Ok(())
            } else {
                Err(MftError::NotLocalDrive)
            },
            None => Err(MftError::NotLocalDrive),
        }
    }

    /// Adds a root: the components of its canonical path below the drive's
    /// root, its own name, if it has one, and its metadata.
    pub fn add_root(&mut self, components: &Vec<String>, file_name: Option<&str>, meta: Meta)
        requires
            old(self).wf(),
        ensures
            final(self).wf(),
            final(self).drive == old(self).drive,
            final(self).files == old(self).files,
            final(self).dirs == old(self).dirs,
            target_models(final(self).targets@) == target_models(old(self).targets@).push(
                TargetModel {
                    rel_root: text::keys_of(text::texts(components@)),
                    tree: NodeModel {
                        name: match file_name {
                            Some(n) => n@,
                            None => seq![old(self).drive] + ":"@,
                        },
                        is_dir: true,
                        meta,
                        children: Seq::empty(),
                    },
                },
            ),
            target_models(final(self).targets@) == target_models(old(self).targets@).push(
                root_target(
                    old(self).drive,
                    text::texts(components@),
                    match file_name {
                        Some(n) => Some(n@),
                        None => None,
                    },
                    meta,
                ),
            ),
    {
        let ghost before = self.targets@;
        let rel_root = text::lowercase_all(components);
        let tree = match file_name {
            Some(n) => Node::new_dir(n, meta),
            None => {
                let name = text::char_text(self.drive).concat(":");
                Node::new_dir(name.as_str(), meta)
            },
        };
        let ghost t = Target { rel_root, tree };
        self.targets.push(Target { rel_root, tree });
        assert(target_models(self.targets@) =~= target_models(before).push(t.model()));
        assert forall|i: int| 0 <= i < self.targets@.len() implies (
        #[trigger] self.targets@[i]).tree.wf() by {
            if i < before.len() {
                assert(self.targets@[i] == before[i]);
            }
        }
    }

    /// Progress before record `number` of `total`, which is reported once in
    /// 65 536 records.
    pub fn progress(&self, number: u64, total: u64) -> (r: Option<ScanProgress>)
        ensures
            number % PROGRESS_INTERVAL == 0 <==> r is Some,
            number % 65_536 == 0 <==> r is Some,
            r matches Some(p) ==> p == (ScanProgress::MftRecords {
                done: number,
                total,
                files: self.files,
                dirs: self.dirs,
            }),
    {
        if number % PROGRESS_INTERVAL == 0 {
            Some(
                ScanProgress::MftRecords {
                    done: number,
                    total,
                    files: self.files,
                    dirs: self.dirs,
                },
            )
        } else {
            None
        }
    }

    /// Takes in one used record: it goes into the tree of every root that it
    /// lies below, and is counted once even if nested roots both receive it.
    pub fn record(&mut self, rec: &MftRecord)
        requires
            old(self).wf(),
            old(self).files < u64::MAX,
            old(self).dirs < u64::MAX,
        ensures
            final(self).wf(),
            final(self).drive == old(self).drive,
            target_models(final(self).targets@) == with_record(
                target_models(old(self).targets@),
                rec.model(),
                text::keys_of(rec.model().path),
            ),
            final(self).files == old(self).files + (if !rec.is_directory && matched(
                target_models(old(self).targets@),
                rec.model(),
                text::keys_of(rec.model().path),
            ) {
                1int
            } else {
                0
            }),
            final(self).dirs == old(self).dirs + (if rec.is_directory && matched(
                target_models(old(self).targets@),
                rec.model(),
                text::keys_of(rec.model().path),
            ) {
                1int
            } else {
                0
            }),
    {
        let lower = text::lowercase_all(&rec.path);
        assert(text::texts(lower@).len() == text::texts(rec.path@).len());
        self.record_keyed(rec, &lower);
    }

    /// As `record`, given the names of the record's path in lower case.
    pub fn record_keyed(&mut self, rec: &MftRecord, lower: &Vec<String>)
        requires
            old(self).wf(),
            lower@.len() == rec.path@.len(),
            old(self).files < u64::MAX,
            old(self).dirs < u64::MAX,
        ensures
            final(self).wf(),
            final(self).drive == old(self).drive,
            target_models(final(self).targets@) == with_record(
                target_models(old(self).targets@),
                rec.model(),
                text::texts(lower@),
            ),
            final(self).files == old(self).files + (if !rec.is_directory && matched(
                target_models(old(self).targets@),
                rec.model(),
                text::texts(lower@),
            ) {
                1int
            } else {
                0
            }),
            final(self).dirs == old(self).dirs + (if rec.is_directory && matched(
                target_models(old(self).targets@),
                rec.model(),
                text::texts(lower@),
            ) {
                1int
            } else {
                0
            }),
    {
        let ghost before = target_models(self.targets@);
        let ghost keys = text::texts(lower@);
        let ghost r = rec.model();
        let ghost after = with_record(before, r, keys);
        if rec.name.as_str().is_empty() {
            assert(target_models(self.targets@) =~= after);
            return;
        }
        let meta = rec.meta();
        let names = walk::slices_from(&rec.path, 0);
        assert(r.path.skip(0) =~= r.path);
        let mut counted = false;
        let mut i: usize = 0;
        while i < self.targets.len()
            invariant
                i <= self.targets@.len(),
                self.wf(),
                self.drive == old(self).drive,
                before == target_models(old(self).targets@),
                keys == text::texts(lower@),
                r == rec.model(),
                r.name.len() > 0,
                after == with_record(before, r, keys),
                meta == r.meta(),
                lower@.len() == rec.path@.len(),
                model::names(names@) == r.path,
                names@.len() == rec.path@.len(),
                self.targets@.len() == before.len(),
                forall|k: int|
                    0 <= k < i ==> (#[trigger] self.targets@[k]).model() == after[k],
                forall|k: int|
                    i <= k < before.len() ==> (#[trigger] self.targets@[k]).model() == before[k],
                counted <==> exists|k: int|
                    0 <= k < i && (#[trigger] before[k]).takes(r, keys),
                old(self).files < u64::MAX,
                old(self).dirs < u64::MAX,
                self.files == old(self).files + (if counted && !rec.is_directory {
                    1int
                } else {
                    0
                }),
                self.dirs == old(self).dirs + (if counted && rec.is_directory {
                    1int
                } else {
                    0
                }),
            decreases self.targets@.len() - i,
        {
            let depth: usize = self.targets[i].rel_root.len();
            let ghost t = before[i as int];
            assert(self.targets@[i as int].model() == t);
            assert(t.rel_root.len() == depth);
            assert(t.rel_root.take(depth as int) =~= t.rel_root);
            if rec.path.len() > depth && same_texts(lower, &self.targets[i].rel_root, depth) {
                assert(t.takes(r, keys));
                if !counted {
                    if rec.is_directory {
                        self.dirs = self.dirs + 1;
                    } else {
                        self.files = self.files + 1;
                    }
                    counted = true;
                }
                let last = rec.path[rec.path.len() - 1].as_str();
                assert(last@ == r.path.skip(depth as int).last());
                let node = if rec.is_directory {
                    Node::new_dir(last, meta)
                } else {
                    Node::new_file(last, meta)
                };
                assert(node.model() == walk::leaf(r.path.skip(depth as int), r.is_directory, meta));
                self.targets[i].tree.insert_from(names.as_slice(), lower, depth, node);
                assert(self.targets@[i as int].model() == t.with(r, keys));
            } else {
                assert(!t.takes(r, keys));
            }
            i += 1;
        }
        assert(target_models(self.targets@) =~= after);
    }

    /// The trees of the roots, in the order in which the roots were added.
    pub fn finish(self) -> (r: Vec<Node>)
        ensures
            r@ == self.targets@.map_values(|t: Target| t.tree),
            r@.map_values(|n: Node| n.model()) == trees_of(target_models(self.targets@)),
    {
        let mut rest = self.targets;
        let mut out: Vec<Node> = Vec::new();
        let ghost all = rest@;
        while rest.len() > 0
            invariant
                out@.len() + rest@.len() == all.len(),
                rest@ == all.skip(out@.len() as int),
                forall|k: int| 0 <= k < out@.len() ==> #[trigger] out@[k] == all[k].tree,
            decreases rest@.len(),
        {
            let t = rest.remove(0);
            assert(t == all[out@.len() as int]);
            out.push(t.tree);
            assert(rest@ =~= all.skip(out@.len() as int));
        }
        assert(out@ =~= all.map_values(|t: Target| t.tree));
        assert(out@.map_values(|n: Node| n.model()) =~= trees_of(target_models(all)));
        out
    }
}

} // verus!
