//! Which records of a volume get into which tree.

use vstd::prelude::*;
use crate::model;
use crate::model::Meta;
use crate::scan::mft;
use crate::scan::mft::{PathPrefix, RecordModel, TargetModel};
use crate::scan::walk;
use crate::scan_laws;
use crate::text;
use crate::tree_laws;

verus! {

/// The path leads to something below the directory `root`, names compared in
/// lower case.
pub open spec fn lies_below(path: Seq<Seq<char>>, root: Seq<Seq<char>>) -> bool {
    &&& path.len() > root.len()
    &&& forall|i: int|
        0 <= i < root.len() ==> text::lowercase(#[trigger] path[i]) == text::lowercase(root[i])
}

/// The target collects what lies below the directory `root`.
pub open spec fn collects(t: TargetModel, root: Seq<Seq<char>>) -> bool {
    &&& t.tree.wf()
    &&& t.rel_root.len() == root.len()
    &&& forall|i: int| 0 <= i < root.len() ==> #[trigger] t.rel_root[i] == text::lowercase(root[i])
}

/// The metadata is that of the record: a directory has no size. From 1970 on the
/// time is the last whole tick of 100 ns, counted from 1601, that is not after
/// the moment of modification; between 1601 and 1970 it is the first that is not
/// before it. It is 0 for an earlier moment, for one that has no tick in 64 bits,
/// and for one that is not known.
pub open spec fn tells_of(m: Meta, rec: RecordModel) -> bool {
    &&& m.size == (if rec.is_directory { 0 } else { rec.size })
    &&& m.attrs == rec.attrs
    &&& rec.modified is None ==> m.mtime == 0
    &&& rec.modified matches Some(t) ==> (0 <= t.nanos < 1_833_029_933_770_955_161_600 ==> {
        &&& m.mtime >= 116_444_736_000_000_000
        &&& 100 * (m.mtime - 116_444_736_000_000_000) <= t.nanos
        &&& t.nanos < 100 * (m.mtime - 116_444_736_000_000_000) + 100
    })
    &&& rec.modified matches Some(t) ==> (-11_644_473_600_000_000_000 <= t.nanos < 0 ==> {
        &&& t.nanos <= 100 * (m.mtime - 116_444_736_000_000_000)
        &&& 100 * (m.mtime - 116_444_736_000_000_000) < t.nanos + 100
    })
    &&& rec.modified matches Some(t) ==> (t.nanos < -11_644_473_600_000_000_000 || t.nanos
        >= 1_833_029_933_770_955_161_600 ==> m.mtime == 0)
}

proof fn takes_what_lies_below(t: TargetModel, rec: RecordModel, root: Seq<Seq<char>>)
    requires
        collects(t, root),
    ensures
        t.takes(rec, text::keys_of(rec.path)) <==> rec.name.len() > 0 && lies_below(
            rec.path,
            root,
        ),
{
    let keys = text::keys_of(rec.path);
    let n = root.len() as int;
    if rec.path.len() > n {
        if lies_below(rec.path, root) {
            assert(keys.take(n) =~= t.rel_root);
        }
        if keys.take(n) == t.rel_root {
            assert forall|i: int| 0 <= i < n implies text::lowercase(#[trigger] rec.path[i])
                == text::lowercase(root[i]) by {
                assert(keys.take(n)[i] == t.rel_root[i]);
            }
        }
    }
}

proof fn record_tells(rec: RecordModel)
    ensures
        tells_of(rec.meta(), rec),
{
}

/// A named record that lies below a root, at whatever depth, is found in the
/// tree of that root under the rest of its names, with its name, its kind and
/// its metadata.
pub proof fn records_below_a_root_get_into_its_tree(
    targets: Seq<TargetModel>,
    rec: RecordModel,
    i: int,
    root: Seq<Seq<char>>,
)
    requires
        0 <= i < targets.len(),
        collects(targets[i], root),
        rec.name.len() > 0,
        lies_below(rec.path, root),
    ensures
        ({
            let after = mft::with_record(targets, rec, text::keys_of(rec.path));
            let keys = text::keys_of(rec.path.skip(root.len() as int));
            &&& after.len() == targets.len()
            &&& collects(after[i], root)
            &&& tree_laws::node_at(after[i].tree, keys) matches Some(n) && {
                &&& n.name == rec.path.last()
                &&& n.is_dir == rec.is_directory
                &&& tells_of(n.meta, rec)
                &&& match tree_laws::node_at(targets[i].tree, keys) {
                    Some(e) => n.children == e.children,
                    None => n.children.len() == 0,
                }
            }
        }),
{
    let t = targets[i];
    let path = rec.path.skip(root.len() as int);
    takes_what_lies_below(t, rec, root);
    scan_laws::both_scanners_agree(t, rec);
    record_tells(rec);
    let new = walk::leaf(path, rec.is_directory, rec.meta());
    tree_laws::inserted_is_found(t.tree, path, new);
    model::insert_keeps_wf(t.tree, path, text::keys_of(path), new);
    assert(path.last() == rec.path.last());
}

/// A record leaves everything else in the trees as it was: what stood elsewhere
/// stays, and nothing appears but the record and the directories on the way.
pub proof fn records_change_nothing_else(
    targets: Seq<TargetModel>,
    rec: RecordModel,
    i: int,
    root: Seq<Seq<char>>,
    other: Seq<Seq<char>>,
)
    requires
        0 <= i < targets.len(),
        collects(targets[i], root),
        rec.name.len() > 0,
        lies_below(rec.path, root),
        other.len() > 0,
        other != text::keys_of(rec.path.skip(root.len() as int)),
    ensures
        ({
            let after = mft::with_record(targets, rec, text::keys_of(rec.path))[i].tree;
            let before = targets[i].tree;
            &&& tree_laws::node_at(before, other) matches Some(e) ==> scan_laws::says(
                after,
                other,
                e.name,
                e.is_dir,
                e.meta,
            )
            &&& tree_laws::node_at(before, other) is None && tree_laws::node_at(
                after,
                other,
            ) is Some ==> other.len() < rec.path.len() - root.len() && (forall|j: int|
                0 <= j < other.len() ==> #[trigger] other[j] == text::lowercase(
                    rec.path[root.len() + j],
                ))
        }),
{
    let t = targets[i];
    let path = rec.path.skip(root.len() as int);
    takes_what_lies_below(t, rec, root);
    scan_laws::both_scanners_agree(t, rec);
    let new = walk::leaf(path, rec.is_directory, rec.meta());
    let after = mft::with_record(targets, rec, text::keys_of(rec.path))[i].tree;
    if let Some(e) = tree_laws::node_at(t.tree, other) {
        scan_laws::insertions_elsewhere_keep(t.tree, path, new, other, e.name, e.is_dir, e.meta);
    } else if tree_laws::node_at(after, other) is Some {
        tree_laws::nothing_else_appears(t.tree, path, new, other);
        if other.len() == path.len() {
            assert(other =~= text::keys_of(path));
        }
        assert forall|j: int| 0 <= j < other.len() implies #[trigger] other[j]
            == text::lowercase(rec.path[root.len() + j]) by {
            assert(path[j] == rec.path[root.len() + j]);
        }
    }
}

/// A record that does not lie below a root, or that has no name, leaves the tree
/// of that root as it was.
pub proof fn records_elsewhere_are_left_out(
    targets: Seq<TargetModel>,
    rec: RecordModel,
    i: int,
    root: Seq<Seq<char>>,
)
    requires
        0 <= i < targets.len(),
        collects(targets[i], root),
        rec.name.len() == 0 || !lies_below(rec.path, root),
    ensures
        mft::with_record(targets, rec, text::keys_of(rec.path)).len() == targets.len(),
        mft::with_record(targets, rec, text::keys_of(rec.path))[i] == targets[i],
{
    takes_what_lies_below(targets[i], rec, root);
}

/// A record is counted exactly if it has a name and lies below one of the roots.
pub proof fn records_below_a_root_are_counted(
    targets: Seq<TargetModel>,
    rec: RecordModel,
    roots: Seq<Seq<Seq<char>>>,
)
    requires
        roots.len() == targets.len(),
        forall|i: int| 0 <= i < targets.len() ==> collects(#[trigger] targets[i], roots[i]),
    ensures
        mft::matched(targets, rec, text::keys_of(rec.path)) <==> rec.name.len() > 0 && (exists|
            i: int,
        | 0 <= i < roots.len() && lies_below(rec.path, #[trigger] roots[i])),
{
    let keys = text::keys_of(rec.path);
    if mft::matched(targets, rec, keys) {
        let i = choose|i: int|
            0 <= i < targets.len() && (#[trigger] targets[i]).takes(rec, keys);
        takes_what_lies_below(targets[i], rec, roots[i]);
    }
    if rec.name.len() > 0 && exists|i: int|
        0 <= i < roots.len() && lies_below(rec.path, #[trigger] roots[i]) {
        let i = choose|i: int| 0 <= i < roots.len() && lies_below(rec.path, #[trigger] roots[i]);
        assert(collects(targets[i], roots[i]));
        takes_what_lies_below(targets[i], rec, roots[i]);
    }
}

/// A whole pass loses nothing: a named record below a root that no later record
/// replaces is in the tree of that root in the end.
pub proof fn a_pass_loses_no_record(
    targets: Seq<TargetModel>,
    log: Seq<RecordModel>,
    i: int,
    root: Seq<Seq<char>>,
    k: int,
)
    requires
        0 <= i < targets.len(),
        collects(targets[i], root),
        0 <= k < log.len(),
        log[k].name.len() > 0,
        lies_below(log[k].path, root),
        forall|j: int|
            k < j < log.len() ==> text::keys_of((#[trigger] log[j]).path) != text::keys_of(
                log[k].path,
            ),
    ensures
        scan_laws::with_records(targets, log).len() == targets.len(),
        tree_laws::node_at(
            scan_laws::with_records(targets, log)[i].tree,
            text::keys_of(log[k].path.skip(root.len() as int)),
        ) matches Some(n) && n.name == log[k].path.last() && n.is_dir == log[k].is_directory
            && tells_of(n.meta, log[k]),
    decreases log.len(),
{
    let front = log.drop_last();
    let before = scan_laws::with_records(targets, front);
    let last = log.last();
    passes_collect(targets, front, i, root);
    if k == log.len() - 1 {
        records_below_a_root_get_into_its_tree(before, last, i, root);
    } else {
        assert(front[k] == log[k]);
        assert forall|j: int| k < j < front.len() implies text::keys_of((#[trigger] front[j]).path)
            != text::keys_of(front[k].path) by {
            assert(front[j] == log[j]);
        }
        a_pass_loses_no_record(targets, front, i, root, k);
        let keys = text::keys_of(log[k].path.skip(root.len() as int));
        if last.name.len() > 0 && lies_below(last.path, root) {
            assert(log[log.len() - 1] == last);
            same_below_same_path(last.path, log[k].path, root);
            records_change_nothing_else(before, last, i, root, keys);
        } else {
            records_elsewhere_are_left_out(before, last, i, root);
        }
    }
}

proof fn same_below_same_path(a: Seq<Seq<char>>, b: Seq<Seq<char>>, root: Seq<Seq<char>>)
    requires
        lies_below(a, root),
        lies_below(b, root),
    ensures
        text::keys_of(a.skip(root.len() as int)) == text::keys_of(b.skip(root.len() as int))
            ==> text::keys_of(a) == text::keys_of(b),
{
    let n = root.len() as int;
    let x = text::keys_of(a.skip(n));
    let y = text::keys_of(b.skip(n));
    if x == y {
        assert(x.len() == a.len() - n && y.len() == b.len() - n);
        assert forall|i: int| 0 <= i < a.len() implies text::keys_of(a)[i] == text::keys_of(
            b,
        )[i] by {
            if i < n {
                assert(text::lowercase(a[i]) == text::lowercase(root[i]));
                assert(text::lowercase(b[i]) == text::lowercase(root[i]));
            } else {
                assert(x[i - n] == text::lowercase(a[i]));
                assert(y[i - n] == text::lowercase(b[i]));
            }
        }
        assert(text::keys_of(a) =~= text::keys_of(b));
    }
}

proof fn passes_collect(
    targets: Seq<TargetModel>,
    log: Seq<RecordModel>,
    i: int,
    root: Seq<Seq<char>>,
)
    requires
        0 <= i < targets.len(),
        collects(targets[i], root),
    ensures
        scan_laws::with_records(targets, log).len() == targets.len(),
        collects(scan_laws::with_records(targets, log)[i], root),
    decreases log.len(),
{
    if log.len() > 0 {
        passes_collect(targets, log.drop_last(), i, root);
        let before = scan_laws::with_records(targets, log.drop_last());
        if log.last().name.len() > 0 && lies_below(log.last().path, root) {
            records_below_a_root_get_into_its_tree(before, log.last(), i, root);
        } else {
            records_elsewhere_are_left_out(before, log.last(), i, root);
        }
    }
}

/// A root starts with an empty tree of its own name and metadata, and collects
/// what lies below its components. A root without a name, which is that of a
/// drive, is named by the drive's letter and a colon.
pub proof fn roots_collect_what_lies_below_them(
    drive: char,
    components: Seq<Seq<char>>,
    name: Seq<char>,
    meta: Meta,
)
    ensures
        ({
            let named = mft::root_target(drive, components, Some(name), meta);
            let unnamed = mft::root_target(drive, components, None, meta);
            &&& collects(named, components)
            &&& collects(unnamed, components)
            &&& named.tree.name == name
            &&& unnamed.tree.name == seq![drive, ':']
            &&& named.tree.is_dir && unnamed.tree.is_dir
            &&& named.tree.meta == meta && unnamed.tree.meta == meta
            &&& named.tree.children.len() == 0 && unnamed.tree.children.len() == 0
        }),
{
    reveal_strlit(":");
    assert(seq![drive] + ":"@ =~= seq![drive, ':']);
}

/// Each root gets its own tree back, in the order in which the roots were added.
pub proof fn roots_get_their_own_trees(targets: Seq<TargetModel>)
    ensures
        mft::trees_of(targets).len() == targets.len(),
        forall|i: int|
            0 <= i < targets.len() ==> #[trigger] mft::trees_of(targets)[i] == targets[i].tree,
{
}

/// Only a plain local drive has a letter, which is the one that its path starts
/// with.
pub proof fn local_drives_have_letters(d: u8)
    ensures
        mft::drive_letter(PathPrefix::Disk(d)) == Some(d as char),
        mft::drive_letter(PathPrefix::VerbatimDisk(d)) == Some(d as char),
        mft::drive_letter(PathPrefix::Other) is None,
{
}

} // verus!
