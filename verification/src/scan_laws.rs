//! What holds of every scan, whichever way the tree was read.

use vstd::prelude::*;
use crate::model;
use crate::model::{Meta, NodeModel, UnixTime};
use crate::scan;
use crate::scan::mft;
use crate::scan::mft::{RecordModel, TargetModel};
use crate::scan::walk;
use crate::scan::walk::EntryModel;
use crate::scan::{AutoEventModel, AutoModel, PairEventModel, PairModel, ScanMethod};
use crate::text;
use crate::tree_laws;

verus! {

/// A scanned tree is well-formed, and every child is found by its name in
/// lower case.
pub open spec fn is_scanned(n: NodeModel) -> bool {
    n.wf() && tree_laws::keyed_by_name(n)
}

/// A root without children is a scanned tree.
pub proof fn roots_are_scanned(name: Seq<char>, is_dir: bool, meta: Meta)
    ensures
        is_scanned(NodeModel { name, is_dir, meta, children: Seq::empty() }),
{
}

pub(crate) proof fn leaf_inserted(n: NodeModel, path: Seq<Seq<char>>, is_dir: bool, meta: Meta)
    requires
        is_scanned(n),
    ensures
        is_scanned(model::insert_path(n, path, walk::leaf(path, is_dir, meta))),
{
    let new = walk::leaf(path, is_dir, meta);
    tree_laws::insert_keeps_keyed(n, path, new);
    model::insert_keeps_wf(n, path, text::keys_of(path), new);
}

/// Whatever a traversal finds, the tree built out of it is a scanned tree.
pub proof fn walked_trees_are_scanned(root: NodeModel, log: Seq<EntryModel>)
    requires
        is_scanned(root),
    ensures
        is_scanned(walk::with_entries(root, log)),
    decreases log.len(),
{
    if log.len() > 0 {
        walked_trees_are_scanned(root, log.drop_last());
        if let EntryModel::Found { path, is_dir, meta } = log.last() {
            leaf_inserted(walk::with_entries(root, log.drop_last()), path, is_dir, meta);
        }
    }
}

/// Inserting at a directory keeps everything that it holds.
pub proof fn descendants_are_kept(
    n: NodeModel,
    path: Seq<Seq<char>>,
    new: NodeModel,
    rest: Seq<Seq<char>>,
)
    requires
        n.wf(),
        rest.len() > 0,
        tree_laws::node_at(n, text::keys_of(path) + rest) is Some,
    ensures
        tree_laws::node_at(model::insert_path(n, path, new), text::keys_of(path) + rest)
            == tree_laws::node_at(n, text::keys_of(path) + rest),
    decreases path.len(),
{
    let keys = text::keys_of(path);
    let after = model::insert_path(n, path, new);
    let all = keys + rest;
    if path.len() == 0 {
        assert(all =~= rest);
        assert(after.children == n.children);
        assert(model::lookup(after.children, rest[0]) == model::lookup(n.children, rest[0]));
    } else {
        let key = text::lowercase(path[0]);
        text::keys_step(path);
        model::insert_step(n, path, new, key);
        assert(all[0] == key);
        let e = model::lookup(n.children, key)->0;
        let below = text::keys_of(path.drop_first());
        assert(all.drop_first() =~= below + rest);
        if path.len() == 1 {
            let child = model::under_first(n, path, new);
            assert(below =~= Seq::<Seq<char>>::empty());
            assert(all.drop_first() =~= rest);
            assert(tree_laws::node_at(after, all) == tree_laws::node_at(child, rest));
            assert(tree_laws::node_at(n, all) == tree_laws::node_at(e, rest));
            assert(model::lookup(child.children, rest[0]) == model::lookup(e.children, rest[0]));
        } else {
            assert(e.wf());
            descendants_are_kept(e, path.drop_first(), new, rest);
            assert(tree_laws::node_at(after, all) == tree_laws::node_at(
                model::under_first(n, path, new),
                below + rest,
            ));
        }
    }
}

/// The node under the keys is there, named, marked and dated so.
pub open spec fn says(
    n: NodeModel,
    keys: Seq<Seq<char>>,
    name: Seq<char>,
    is_dir: bool,
    meta: Meta,
) -> bool {
    tree_laws::node_at(n, keys) matches Some(m) && m.name == name && m.is_dir == is_dir && m.meta
        == meta
}

/// An insertion elsewhere changes nothing that a node says of itself.
pub proof fn insertions_elsewhere_keep(
    n: NodeModel,
    path: Seq<Seq<char>>,
    new: NodeModel,
    keys: Seq<Seq<char>>,
    name: Seq<char>,
    is_dir: bool,
    meta: Meta,
)
    requires
        n.wf(),
        says(n, keys, name, is_dir, meta),
        keys.len() > 0,
        text::keys_of(path) != keys,
    ensures
        says(model::insert_path(n, path, new), keys, name, is_dir, meta),
{
    let other = text::keys_of(path);
    let after = model::insert_path(n, path, new);
    if tree_laws::ways_part(other, keys) {
        tree_laws::others_are_kept(n, path, new, keys);
    } else if other.len() < keys.len() {
        let rest = keys.skip(other.len() as int);
        assert forall|i: int| 0 <= i < keys.len() implies keys[i] == (other + rest)[i] by {
            if i < other.len() {
                assert(other[i] == keys[i]);
            }
        }
        assert(keys =~= other + rest);
        descendants_are_kept(n, path, new, rest);
    } else {
        let i = keys.len() as int;
        assert forall|j: int| 0 <= j < i implies other[j] == keys[j] by {}
        if other.len() == keys.len() {
            assert(other =~= keys);
        }
        assert(other.take(i) =~= keys);
        tree_laws::ancestors_are_kept(n, path, new, i);
    }
}

/// A traversal loses nothing: an entry that was found, and was not found again
/// under the same name later on, is in the tree with its name and metadata.
pub proof fn found_entries_are_in_the_tree(root: NodeModel, log: Seq<EntryModel>, k: int)
    requires
        is_scanned(root),
        0 <= k < log.len(),
        log[k] is Found,
        log[k]->path.len() > 0,
        forall|j: int|
            k < j < log.len() && (#[trigger] log[j]) is Found ==> text::keys_of(log[j]->path)
                != text::keys_of(log[k]->path),
    ensures
        says(
            walk::with_entries(root, log),
            text::keys_of(log[k]->path),
            log[k]->path.last(),
            log[k]->is_dir,
            log[k]->meta,
        ),
    decreases log.len(),
{
    let before = walk::with_entries(root, log.drop_last());
    walked_trees_are_scanned(root, log.drop_last());
    let path = log[k]->path;
    if k == log.len() - 1 {
        tree_laws::inserted_is_found(
            before,
            path,
            walk::leaf(path, log[k]->is_dir, log[k]->meta),
        );
    } else {
        let shorter = log.drop_last();
        assert(shorter[k] == log[k]);
        assert forall|j: int| k < j < shorter.len() && (#[trigger] shorter[j]) is Found implies
            text::keys_of(shorter[j]->path) != text::keys_of(shorter[k]->path) by {
            assert(shorter[j] == log[j]);
        }
        found_entries_are_in_the_tree(root, shorter, k);
        let last = log[log.len() - 1];
        if let EntryModel::Found { path: p, is_dir, meta } = last {
            insertions_elsewhere_keep(
                before,
                p,
                walk::leaf(p, is_dir, meta),
                text::keys_of(path),
                path.last(),
                log[k]->is_dir,
                log[k]->meta,
            );
        }
    }
}

/// Taking in the entries of a traversal one after the other comes to the tree
/// and to the number of unreadable entries of them all.
pub proof fn recording_builds_the_tree(root: NodeModel, log: Seq<EntryModel>, n: int)
    requires
        0 <= n < log.len(),
    ensures
        walk::with_entry(walk::with_entries(root, log.take(n)), log[n]) == walk::with_entries(
            root,
            log.take(n + 1),
        ),
        walk::unreadable(log.take(n)) + (if log[n] is Unreadable {
            1nat
        } else {
            0nat
        }) == walk::unreadable(log.take(n + 1)),
{
    assert(log.take(n + 1).drop_last() =~= log.take(n));
}

/// A traversal adds nothing else: what is in the tree in the end was in the root
/// before, was found, or is a directory on the way to something found.
pub proof fn walked_trees_hold_what_was_found(
    root: NodeModel,
    log: Seq<EntryModel>,
    keys: Seq<Seq<char>>,
) -> (k: int)
    requires
        is_scanned(root),
        tree_laws::node_at(root, keys) is None,
        tree_laws::node_at(walk::with_entries(root, log), keys) is Some,
    ensures
        0 <= k < log.len(),
        log[k] is Found,
        log[k]->path.len() >= keys.len(),
        forall|i: int|
            0 <= i < keys.len() ==> #[trigger] keys[i] == text::lowercase(log[k]->path[i]),
    decreases log.len(),
{
    let front = log.drop_last();
    let before = walk::with_entries(root, front);
    if tree_laws::node_at(before, keys) is Some {
        let k = walked_trees_hold_what_was_found(root, front, keys);
        assert(front[k] == log[k]);
        k
    } else {
        walked_trees_are_scanned(root, front);
        if let EntryModel::Found { path, is_dir, meta } = log.last() {
            tree_laws::nothing_else_appears(
                before,
                path,
                walk::leaf(path, is_dir, meta),
                keys,
            );
        }
        log.len() - 1
    }
}

/// An entry that could not be read leaves the tree as it is and is counted as
/// such; nothing else is.
pub proof fn unreadable_entries_are_skipped(tree: NodeModel, log: Seq<EntryModel>, e: EntryModel)
    ensures
        walk::with_entries(tree, Seq::empty()) == tree,
        walk::unreadable(Seq::empty()) == 0,
        e is Unreadable ==> walk::with_entries(tree, log.push(e)) == walk::with_entries(tree, log)
            && walk::unreadable(log.push(e)) == walk::unreadable(log) + 1,
        e is Found ==> walk::unreadable(log.push(e)) == walk::unreadable(log),
{
    assert(log.push(e).drop_last() =~= log);
}

/// Two paths fit together in one directory: they go apart at some point, up to
/// which they are written alike, or one lies below the other.
pub open spec fn fit_together(p: Seq<Seq<char>>, q: Seq<Seq<char>>) -> bool {
    ||| p.len() < q.len() && q.take(p.len() as int) == p
    ||| q.len() < p.len() && p.take(q.len() as int) == q
    ||| exists|i: int|
        0 <= i < p.len() && i < q.len() && p.take(i) == q.take(i) && text::lowercase(
            #[trigger] p[i],
        ) != text::lowercase(q[i])
}

/// Two entries of one traversal: the same, or at paths below the root that fit
/// together; or one of them could not be read.
pub open spec fn agree(x: EntryModel, y: EntryModel) -> bool {
    match (x, y) {
        (EntryModel::Found { path: p, .. }, EntryModel::Found { path: q, .. }) => {
            ||| x == y
            ||| p.len() > 0 && q.len() > 0 && fit_together(p, q)
        },
        _ => true,
    }
}

proof fn swapped(t: NodeModel, x: EntryModel, y: EntryModel)
    requires
        t.wf(),
        agree(x, y),
    ensures
        walk::with_entry(walk::with_entry(t, x), y) == walk::with_entry(
            walk::with_entry(t, y),
            x,
        ),
{
    if x is Found && y is Found && x != y {
        let p = x->path;
        let q = y->path;
        let a = walk::leaf(p, x->is_dir, x->meta);
        let b = walk::leaf(q, y->is_dir, y->meta);
        if p.len() < q.len() && q.take(p.len() as int) == p {
            let rest = q.skip(p.len() as int);
            assert(q =~= p + rest);
            tree_laws::spelled_like_itself(t, p);
            tree_laws::placeholders_are_filled_in(t, p, p, rest, a, b);
        } else if q.len() < p.len() && p.take(q.len() as int) == q {
            let rest = p.skip(q.len() as int);
            assert(p =~= q + rest);
            tree_laws::spelled_like_itself(t, q);
            tree_laws::placeholders_are_filled_in(t, q, q, rest, b, a);
        } else {
            let i = choose|i: int|
                0 <= i < p.len() && i < q.len() && p.take(i) == q.take(i) && text::lowercase(
                    #[trigger] p[i],
                ) != text::lowercase(q[i]);
            tree_laws::insertions_commute(t, p, a, q, b, i);
        }
    }
}

/// All entries of a log agree with each other.
pub open spec fn all_agree(log: Seq<EntryModel>) -> bool {
    forall|x: EntryModel, y: EntryModel|
        #![trigger log.contains(x), log.contains(y)]
        log.contains(x) && log.contains(y) ==> agree(x, y)
}

proof fn moved_to_the_end(root: NodeModel, log: Seq<EntryModel>, k: int)
    requires
        is_scanned(root),
        all_agree(log),
        0 <= k < log.len(),
    ensures
        walk::with_entries(root, log) == walk::with_entries(root, log.remove(k).push(log[k])),
    decreases log.len(),
{
    let x = log[k];
    let rest = log.remove(k);
    assert(rest.push(x).drop_last() =~= rest);
    if k == log.len() - 1 {
        assert(rest.push(x) =~= log);
    } else {
        let front = log.drop_last();
        let z = log.last();
        let shorter = front.remove(k);
        assert(front[k] == x);
        assert forall|a: EntryModel, b: EntryModel|
            #![trigger front.contains(a), front.contains(b)]
            front.contains(a) && front.contains(b) implies agree(a, b) by {
            let i = front.index_of(a);
            let j = front.index_of(b);
            assert(log[i] == a && log[j] == b);
            assert(log.contains(a) && log.contains(b));
        }
        moved_to_the_end(root, front, k);
        assert(shorter.push(x).drop_last() =~= shorter);
        let w = walk::with_entries(root, shorter);
        walked_trees_are_scanned(root, shorter);
        assert(log.contains(x) && log.contains(z));
        swapped(w, x, z);
        assert(rest =~= shorter.push(z));
        assert(shorter.push(z).drop_last() =~= shorter);
        assert(walk::with_entries(root, rest) == walk::with_entry(w, z));
        assert(walk::with_entries(root, front) == walk::with_entry(w, x));
        assert(walk::with_entries(root, rest.push(x)) == walk::with_entry(
            walk::with_entries(root, rest),
            x,
        ));
    }
}

/// The order in which a directory is read does not matter: the same entries in
/// any order give the same tree.
pub proof fn order_of_entries_does_not_matter(
    root: NodeModel,
    a: Seq<EntryModel>,
    b: Seq<EntryModel>,
)
    requires
        is_scanned(root),
        all_agree(a),
        a.to_multiset() == b.to_multiset(),
    ensures
        walk::with_entries(root, a) == walk::with_entries(root, b),
    decreases a.len(),
{
    broadcast use vstd::seq_lib::group_to_multiset_ensures;

    if a.len() == 0 {
        assert(b.to_multiset().len() == 0);
        assert(b.len() == 0);
        assert(a =~= b);
    } else {
        let x = a.last();
        assert(a.to_multiset().count(x) > 0);
        let k = b.index_of(x);
        assert forall|u: EntryModel, v: EntryModel|
            #![trigger b.contains(u), b.contains(v)]
            b.contains(u) && b.contains(v) implies agree(u, v) by {
            assert(b.to_multiset().count(u) > 0 && b.to_multiset().count(v) > 0);
            assert(a.contains(u) && a.contains(v));
        }
        moved_to_the_end(root, b, k);
        let front = a.drop_last();
        let rest = b.remove(k);
        assert(front =~= a.remove(a.len() - 1));
        assert(rest.push(x).drop_last() =~= rest);
        assert(front.to_multiset() =~= rest.to_multiset());
        assert forall|u: EntryModel, v: EntryModel|
            #![trigger front.contains(u), front.contains(v)]
            front.contains(u) && front.contains(v) implies agree(u, v) by {
            let i = front.index_of(u);
            let j = front.index_of(v);
            assert(a[i] == u && a[j] == v);
            assert(a.contains(u) && a.contains(v));
        }
        order_of_entries_does_not_matter(root, front, rest);
    }
}

/// A record that lies in a root's subtree does to its tree what finding the
/// same entry in a traversal of that root does: both scanners build the same
/// tree.
pub proof fn both_scanners_agree(t: TargetModel, rec: RecordModel)
    requires
        t.takes(rec, text::keys_of(rec.path)),
    ensures
        t.with(rec, text::keys_of(rec.path)).tree == walk::with_entry(
            t.tree,
            EntryModel::Found {
                path: rec.path.skip(t.rel_root.len() as int),
                is_dir: rec.is_directory,
                meta: rec.meta(),
            },
        ),
{
    let depth = t.rel_root.len() as int;
    let path = rec.path.skip(depth);
    let keys = text::keys_of(rec.path).skip(depth);
    assert(keys =~= text::keys_of(path));
}

/// Both scanners date a file alike, as long as its moment has a file time.
pub proof fn both_scanners_date_alike(t: UnixTime)
    requires
        model::has_filetime(t),
    ensures
        mft::record_mtime(Some(t)) == model::filetime(t),
{
}

/// The targets after a whole pass over the record table.
pub open spec fn with_records(targets: Seq<TargetModel>, log: Seq<RecordModel>) -> Seq<TargetModel>
    decreases log.len(),
{
    if log.len() == 0 {
        targets
    } else {
        mft::with_record(
            with_records(targets, log.drop_last()),
            log.last(),
            text::keys_of(log.last().path),
        )
    }
}

/// Taking in the records one after the other comes to the targets after the
/// whole pass.
pub proof fn recording_builds_the_targets(
    targets: Seq<TargetModel>,
    log: Seq<RecordModel>,
    n: int,
)
    requires
        0 <= n < log.len(),
    ensures
        mft::with_record(
            with_records(targets, log.take(n)),
            log[n],
            text::keys_of(log[n].path),
        ) == with_records(targets, log.take(n + 1)),
{
    assert(log.take(n + 1).drop_last() =~= log.take(n));
}

/// One pass over the record table gives each root the tree that a pass for it
/// alone would have given it.
pub proof fn one_pass_serves_every_root(targets: Seq<TargetModel>, log: Seq<RecordModel>, i: int)
    requires
        0 <= i < targets.len(),
    ensures
        with_records(targets, log).len() == targets.len(),
        with_records(targets, log)[i] == with_records(seq![targets[i]], log)[0],
        with_records(seq![targets[i]], log).len() == 1,
    decreases log.len(),
{
    if log.len() > 0 {
        one_pass_serves_every_root(targets, log.drop_last(), i);
    }
}

/// Whatever the record table holds, the trees built out of it are scanned
/// trees.
pub proof fn mft_trees_are_scanned(targets: Seq<TargetModel>, log: Seq<RecordModel>, i: int)
    requires
        0 <= i < targets.len(),
        is_scanned(targets[i].tree),
    ensures
        with_records(targets, log).len() == targets.len(),
        with_records(targets, log)[i].rel_root == targets[i].rel_root,
        is_scanned(with_records(targets, log)[i].tree),
    decreases log.len(),
{
    if log.len() > 0 {
        mft_trees_are_scanned(targets, log.drop_last(), i);
        let t = with_records(targets, log.drop_last())[i];
        let rec = log.last();
        if t.takes(rec, text::keys_of(rec.path)) {
            both_scanners_agree(t, rec);
            leaf_inserted(
                t.tree,
                rec.path.skip(t.rel_root.len() as int),
                rec.is_directory,
                rec.meta(),
            );
        }
    }
}

/// The entries that a traversal of the target's root would have found for the
/// records of a volume.
pub open spec fn entries_for(t: TargetModel, log: Seq<RecordModel>) -> Seq<EntryModel>
    decreases log.len(),
{
    if log.len() == 0 {
        Seq::empty()
    } else {
        let before = entries_for(t, log.drop_last());
        let rec = log.last();
        if t.takes(rec, text::keys_of(rec.path)) {
            before.push(
                EntryModel::Found {
                    path: rec.path.skip(t.rel_root.len() as int),
                    is_dir: rec.is_directory,
                    meta: rec.meta(),
                },
            )
        } else {
            before
        }
    }
}

/// A pass over the record table builds the tree that a traversal of the root
/// would have built: what holds of the one holds of the other.
pub proof fn mft_pass_is_a_walk(targets: Seq<TargetModel>, log: Seq<RecordModel>, i: int)
    requires
        0 <= i < targets.len(),
    ensures
        with_records(targets, log).len() == targets.len(),
        with_records(targets, log)[i] == (TargetModel {
            tree: walk::with_entries(targets[i].tree, entries_for(targets[i], log)),
            ..targets[i]
        }),
    decreases log.len(),
{
    if log.len() > 0 {
        let t = targets[i];
        let rec = log.last();
        mft_pass_is_a_walk(targets, log.drop_last(), i);
        let now = with_records(targets, log.drop_last())[i];
        if t.takes(rec, text::keys_of(rec.path)) {
            both_scanners_agree(now, rec);
            let entries = entries_for(t, log);
            assert(entries.drop_last() =~= entries_for(t, log.drop_last()));
        }
    }
}

/// Whether the fast path was used or why it was not is known at any time: a
/// walk for which it was tried has a reason, and no other scan has one.
pub open spec fn explained(s: AutoModel, tries_mft: bool) -> bool {
    match s {
        AutoModel::Look => true,
        AutoModel::Mft => tries_mft,
        AutoModel::Walk { reason } => reason is Some <==> tries_mft,
        AutoModel::Done(r) => match r.method {
            ScanMethod::Mft => tries_mft && r.reason is None && r.skipped == 0,
            ScanMethod::Walk => r.reason is Some <==> tries_mft,
        },
        AutoModel::Failed(_) => true,
    }
}

/// A fallback is always explained, whatever the steps of a scan come to.
pub proof fn fallback_is_explained(
    s: AutoModel,
    e: AutoEventModel,
    path: Seq<char>,
    tries_mft: bool,
)
    requires
        explained(s, tries_mft),
    ensures
        explained(AutoModel::Look, tries_mft),
        explained(scan::auto_next(s, e, path, tries_mft), tries_mft),
{
}

/// How many steps a scan of one root has left at most.
pub open spec fn auto_steps(s: AutoModel) -> nat {
    match s {
        AutoModel::Look => 3,
        AutoModel::Mft => 2,
        AutoModel::Walk { .. } => 1,
        _ => 0,
    }
}

/// The event is of the kind that the scan waits for.
pub open spec fn auto_awaits(s: AutoModel, e: AutoEventModel) -> bool {
    match s {
        AutoModel::Look => e is Root,
        AutoModel::Mft => e is Mft,
        AutoModel::Walk { .. } => e is Walk,
        _ => false,
    }
}

/// A scan of one root comes to an end after three steps at most.
pub proof fn scan_ends(s: AutoModel, e: AutoEventModel, path: Seq<char>, tries_mft: bool)
    requires
        auto_awaits(s, e),
    ensures
        auto_steps(scan::auto_next(s, e, path, tries_mft)) < auto_steps(s),
{
}

/// How many steps a scan of two roots has left at most.
pub open spec fn pair_steps(s: PairModel) -> nat {
    match s {
        PairModel::Drives => 6,
        PairModel::LeftRoot => 5,
        PairModel::RightRoot => 4,
        PairModel::Shared => 3,
        PairModel::Left { .. } => 2,
        PairModel::Right { .. } => 1,
        _ => 0,
    }
}

/// The event is of the kind that the scan of two roots waits for.
pub open spec fn pair_awaits(s: PairModel, e: PairEventModel) -> bool {
    match s {
        PairModel::Drives => e is Drives,
        PairModel::LeftRoot | PairModel::RightRoot => e is Root,
        PairModel::Shared => e is Shared,
        PairModel::Left { .. } | PairModel::Right { .. } => e is Side,
        _ => false,
    }
}

/// A scan of two roots comes to an end after six steps at most.
pub proof fn pair_scan_ends(
    s: PairModel,
    e: PairEventModel,
    left: Seq<char>,
    right: Seq<char>,
    try_mft: bool,
)
    requires
        pair_awaits(s, e),
    ensures
        pair_steps(scan::pair_next(s, e, left, right, try_mft)) < pair_steps(s),
{
}

/// Once a shared read has failed, the MFT is not tried again.
pub open spec fn walks_after_failure(s: PairModel) -> bool {
    match s {
        PairModel::Left { try_mft, reason } => reason is Some ==> !try_mft,
        PairModel::Right { try_mft, reason, .. } => reason is Some ==> !try_mft,
        _ => true,
    }
}

/// After a failed shared read both sides are walked and the reason is noted on
/// both: the MFT of the volume is read at most once.
pub proof fn mft_is_read_once(
    s: PairModel,
    e: PairEventModel,
    left: Seq<char>,
    right: Seq<char>,
    try_mft: bool,
    has_mft: bool,
)
    requires
        walks_after_failure(s),
    ensures
        walks_after_failure(scan::pair_start(try_mft, has_mft)),
        walks_after_failure(scan::pair_next(s, e, left, right, try_mft)),
        s matches PairModel::Right { reason: Some(t), .. } ==> (scan::pair_next(
            s,
            e,
            left,
            right,
            try_mft,
        ) matches PairModel::Done(a, b) ==> a.reason == Some(t) && b.reason == Some(t)),
{
}

/// A traversal starts with an empty directory that has the root's name, or the
/// root as it is shown where it has no name, and the root's metadata.
pub proof fn walks_start_with_the_root(name: Seq<char>, shown: Seq<char>, meta: Meta)
    ensures
        ({
            let named = walk::walk_root(Some(name), shown, meta);
            let unnamed = walk::walk_root(None, shown, meta);
            &&& named.name == name && unnamed.name == shown
            &&& named.is_dir && unnamed.is_dir
            &&& named.meta == meta && unnamed.meta == meta
            &&& named.children.len() == 0 && unnamed.children.len() == 0
            &&& is_scanned(named) && is_scanned(unnamed)
        }),
{
}

} // verus!
