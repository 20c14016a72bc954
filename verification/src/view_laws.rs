//! What the models tell of the values that they stand for: every field, as it
//! is.

use vstd::prelude::*;
use crate::compare::{Counts, DiffNode};
use crate::model::{Meta, Node};
use crate::scan::mft::{MftError, MftErrorModel, MftRecord, Target};
use crate::scan::walk::{EntryModel, WalkEntry};
use crate::scan::{ErrorModel, ScanError, ScanResult};
use crate::sync::{OpModel, SyncOp, SyncOutcome, TreePath};

verus! {

/// Counts are told number by number.
pub proof fn counts_are_told(c: Counts)
    ensures
        c.model().identical == c.identical,
        c.model().left_newer == c.left_newer,
        c.model().right_newer == c.right_newer,
        c.model().different == c.different,
        c.model().left_only == c.left_only,
        c.model().right_only == c.right_only,
{
}

/// A node of a diff is told with all that it shows and with its children in
/// their order.
pub proof fn diff_nodes_are_told(d: DiffNode)
    ensures
        d.model().name == d.name@,
        d.model().is_dir == d.is_dir,
        d.model().left == d.left,
        d.model().right == d.right,
        d.model().status == d.status,
        d.model().counts == d.counts.model(),
        d.model().children.len() == d.children@.len(),
        forall|i: int|
            0 <= i < d.children@.len() ==> #[trigger] d.model().children[i]
                == d.children@[i].model(),
{
}

/// A node of a tree is told with its children, each under its key.
pub proof fn nodes_are_told(n: Node)
    ensures
        n.model().name == n.name@,
        n.model().is_dir == n.is_dir,
        n.model().meta == n.meta,
        n.model().children.len() == n.children.entries@.len(),
        forall|i: int|
            0 <= i < n.children.entries@.len() ==> (#[trigger] n.model().children[i]).key
                == n.children.entries@[i].key@ && n.model().children[i].node
                == n.children.entries@[i].node.model(),
{
}

/// A path is told by its components, and an operation by its paths and its size.
pub proof fn operations_are_told(p: TreePath, src: TreePath, dst: TreePath, size: u64)
    ensures
        p@.len() == p.components@.len(),
        forall|i: int| 0 <= i < p.components@.len() ==> #[trigger] p@[i] == p.components@[i]@,
        (SyncOp::CreateDir { dst }).model() == (OpModel::CreateDir { dst: dst@ }),
        (SyncOp::Copy { src, dst, size }).model() == (OpModel::Copy { src: src@, dst: dst@, size }),
{
}

/// The books are told with every error in its order.
pub proof fn outcomes_are_told(o: SyncOutcome)
    ensures
        o.model().copied_files == o.copied_files,
        o.model().copied_bytes == o.copied_bytes,
        o.model().errors.len() == o.errors@.len(),
        forall|i: int|
            0 <= i < o.errors@.len() ==> #[trigger] o.model().errors[i] == (
                o.errors@[i].0@,
                o.errors@[i].1@,
            ),
{
}

/// The result of a scan and its errors are told with every field.
pub proof fn scan_results_are_told(r: ScanResult, t: String, m: MftError)
    ensures
        r.model().root_path == r.root_path@,
        r.model().root == r.root.model(),
        r.model().method == r.method,
        r.model().duration == r.duration,
        r.model().skipped == r.skipped,
        r.mft_fallback_reason is None <==> r.model().reason is None,
        r.mft_fallback_reason matches Some(x) ==> r.model().reason == Some(x@),
        ScanError::RootNotFound(t).model() == ErrorModel::RootNotFound(t@),
        ScanError::NotADirectory(t).model() == ErrorModel::NotADirectory(t@),
        ScanError::Io(t).model() == ErrorModel::Io(t@),
        MftError::NotLocalDrive.model() == MftErrorModel::NotLocalDrive,
        MftError::NotElevated.model() == MftErrorModel::NotElevated,
        MftError::Ntfs(t).model() == MftErrorModel::Ntfs(t@),
        MftError::Io(t).model() == MftErrorModel::Io(t@),
{
}

/// A record of the table and an entry of a traversal are told with every field.
pub proof fn records_and_entries_are_told(
    rec: MftRecord,
    target: Target,
    components: Vec<String>,
    is_dir: bool,
    meta: Meta,
)
    ensures
        rec.model().name == rec.name@,
        rec.model().path.len() == rec.path@.len(),
        forall|i: int|
            0 <= i < rec.path@.len() ==> #[trigger] rec.model().path[i] == rec.path@[i]@,
        rec.model().is_directory == rec.is_directory,
        rec.model().size == rec.size,
        rec.model().modified == rec.modified,
        rec.model().attrs == rec.attrs,
        target.model().tree == target.tree.model(),
        target.model().rel_root.len() == target.rel_root@.len(),
        forall|i: int|
            0 <= i < target.rel_root@.len() ==> #[trigger] target.model().rel_root[i]
                == target.rel_root@[i]@,
        WalkEntry::Unreadable.model() is Unreadable,
        (WalkEntry::Found { components, is_dir, meta }).model() matches EntryModel::Found {
            path,
            is_dir: d,
            meta: m,
        } && d == is_dir && m == meta && path.len() == components@.len() && (forall|i: int|
            0 <= i < path.len() ==> #[trigger] path[i] == components@[i]@),
{
}

} // verus!
