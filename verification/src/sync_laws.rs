//! What holds of every plan and of every run of one.

use vstd::prelude::*;
use crate::compare;
use crate::compare::DiffModel;
use crate::compare_laws;
use crate::count_laws;
use crate::match_laws;
use crate::model::NodeModel;
use crate::scan_laws;
use crate::sync;
use crate::sync::{Direction, OpModel};
use crate::text;

verus! {

/// `op` brings over something in the diff that is due, from and to its own
/// place.
pub open spec fn does_what_is_due(
    d: DiffModel,
    l: Seq<Seq<char>>,
    r: Seq<Seq<char>>,
    dir: Direction,
    op: OpModel,
) -> bool {
    exists|rel: Seq<Seq<char>>, f: DiffModel|
        #[trigger] match_laws::stands_at(d, rel, f) && dir.is_due(f) && op == sync::op_for(
            f,
            l + rel,
            r + rel,
            dir,
        )
}

/// Every operation of a plan creates a directory that is missing on the
/// destination side, or copies a file that is missing or older there; it goes
/// from the place below the source root to the same place below the
/// destination root.
pub proof fn operations_are_due(
    d: DiffModel,
    l: Seq<Seq<char>>,
    r: Seq<Seq<char>>,
    dir: Direction,
    k: int,
)
    requires
        0 <= k < sync::node_ops(d, l, r, dir).len(),
    ensures
        does_what_is_due(d, l, r, dir, sync::node_ops(d, l, r, dir)[k]),
    decreases d, 1nat, 0int,
{
    let ops = sync::node_ops(d, l, r, dir);
    let own = sync::own_ops(d, l, r, dir);
    if k < own.len() {
        let rel = Seq::<Seq<char>>::empty();
        assert(match_laws::stands_at(d, rel, d));
        assert(l + rel =~= l);
        assert(r + rel =~= r);
        assert(ops[k] == own[k]);
    } else {
        assert(ops[k] == sync::children_ops(d.children, l, r, dir)[k - own.len()]);
        assert(d.children.take(d.children.len() as int) =~= d.children);
        child_operations_are_due(d, l, r, dir, d.children.len() as int, k - own.len());
    }
}

proof fn child_operations_are_due(
    d: DiffModel,
    l: Seq<Seq<char>>,
    r: Seq<Seq<char>>,
    dir: Direction,
    n: int,
    k: int,
)
    requires
        d.is_dir,
        0 <= n <= d.children.len(),
        0 <= k < sync::children_ops(d.children.take(n), l, r, dir).len(),
    ensures
        does_what_is_due(d, l, r, dir, sync::children_ops(d.children.take(n), l, r, dir)[k]),
    decreases d, 0nat, n,
{
    let s = d.children.take(n);
    let a = sync::children_ops(d.children.take(n - 1), l, r, dir);
    assert(s.drop_last() =~= d.children.take(n - 1));
    let c = d.children[n - 1];
    let cl = l.push(c.name);
    let cr = r.push(c.name);
    let b = sync::node_ops(c, cl, cr, dir);
    let op = sync::children_ops(s, l, r, dir)[k];
    if k < a.len() {
        child_operations_are_due(d, l, r, dir, n - 1, k);
    } else {
        assert(op == b[k - a.len()]);
        operations_are_due(c, cl, cr, dir, k - a.len());
        let (rel, f): (Seq<Seq<char>>, DiffModel) = choose|rel: Seq<Seq<char>>, f: DiffModel|
            #[trigger] match_laws::stands_at(c, rel, f) && dir.is_due(f) && op == sync::op_for(
                f,
                cl + rel,
                cr + rel,
                dir,
            );
        match_laws::one_step_down(d, n - 1, rel, f);
        let down = seq![c.name] + rel;
        assert(cl + rel =~= l + down);
        assert(cr + rel =~= r + down);
        assert(match_laws::stands_at(d, down, f));
    }
}

/// A plan copies exactly as many files as the diff counts as missing or older
/// on the destination side, and those that a directory stands in the way of.
pub proof fn copies_match_counts(
    d: DiffModel,
    l: Seq<Seq<char>>,
    r: Seq<Seq<char>>,
    dir: Direction,
)
    requires
        compare_laws::aggregates(d),
    ensures
        sync::copied_files(sync::node_ops(d, l, r, dir)) == dir.due(d.counts) + count_laws::clashing_files(
            d,
            dir == Direction::LeftToRight,
        ),
    decreases d, 1nat, 0int,
{
    if dir.is_due(d) {
        sync::copies_of_one(sync::own_ops(d, l, r, dir)[0]);
    }
    if d.is_dir {
        let own = sync::own_ops(d, l, r, dir);
        assert(sync::copied_files(own) == 0);
        sync::copies_of_concat(own, sync::children_ops(d.children, l, r, dir));
        assert(d.children.take(d.children.len() as int) =~= d.children);
        child_copies_match_counts(d, l, r, dir, d.children.len() as int);
    }
}

proof fn child_copies_match_counts(
    d: DiffModel,
    l: Seq<Seq<char>>,
    r: Seq<Seq<char>>,
    dir: Direction,
    n: int,
)
    requires
        compare_laws::aggregates(d),
        0 <= n <= d.children.len(),
    ensures
        sync::copied_files(sync::children_ops(d.children.take(n), l, r, dir)) == dir.due(
            compare::sum_counts(d.children.take(n)),
        ) + count_laws::clashing_among(d.children.take(n), dir == Direction::LeftToRight),
    decreases d, 0nat, n,
{
    if n > 0 {
        let c = d.children[n - 1];
        assert(d.children.take(n).drop_last() =~= d.children.take(n - 1));
        child_copies_match_counts(d, l, r, dir, n - 1);
        copies_match_counts(c, l.push(c.name), r.push(c.name), dir);
        sync::copies_of_concat(
            sync::children_ops(d.children.take(n - 1), l, r, dir),
            sync::node_ops(c, l.push(c.name), r.push(c.name), dir),
        );
    }
}

proof fn child_ops_hold(
    s: Seq<DiffModel>,
    l: Seq<Seq<char>>,
    r: Seq<Seq<char>>,
    dir: Direction,
    i: int,
    op: OpModel,
)
    requires
        0 <= i < s.len(),
        sync::node_ops(s[i], l.push(s[i].name), r.push(s[i].name), dir).contains(op),
    ensures
        sync::children_ops(s, l, r, dir).contains(op),
    decreases s.len(),
{
    let a = sync::children_ops(s.drop_last(), l, r, dir);
    let b = sync::node_ops(s.last(), l.push(s.last().name), r.push(s.last().name), dir);
    if i < s.len() - 1 {
        assert(s.drop_last()[i] == s[i]);
        child_ops_hold(s.drop_last(), l, r, dir, i, op);
        let j = a.index_of(op);
        assert((a + b)[j] == op);
    } else {
        let j = b.index_of(op);
        assert((a + b)[a.len() + j] == op);
    }
}

/// Everything in the diff that is missing or older on the destination side is
/// brought over: every directory that only the source side has is created, an
/// empty one too, and every file that is missing or older is copied.
pub proof fn due_is_done(
    d: DiffModel,
    l: Seq<Seq<char>>,
    r: Seq<Seq<char>>,
    dir: Direction,
    rel: Seq<Seq<char>>,
    f: DiffModel,
)
    requires
        match_laws::stands_at(d, rel, f),
        dir.is_due(f),
    ensures
        sync::node_ops(d, l, r, dir).contains(sync::op_for(f, l + rel, r + rel, dir)),
    decreases rel.len(),
{
    let op = sync::op_for(f, l + rel, r + rel, dir);
    let own = sync::own_ops(d, l, r, dir);
    if rel.len() == 0 {
        assert(l + rel =~= l);
        assert(r + rel =~= r);
        assert(own[0] == op);
        assert(sync::node_ops(d, l, r, dir)[0] == op);
    } else {
        let i = match_laws::first_step(d, rel, f);
        let c = d.children[i];
        let cl = l.push(c.name);
        let cr = r.push(c.name);
        due_is_done(c, cl, cr, dir, rel.drop_first(), f);
        assert(cl + rel.drop_first() =~= l + rel);
        assert(cr + rel.drop_first() =~= r + rel);
        child_ops_hold(d.children, l, r, dir, i, op);
        let below = sync::children_ops(d.children, l, r, dir);
        let j = below.index_of(op);
        assert((own + below)[own.len() + j] == op);
    }
}

/// A file at these keys is wanted: the source tree has it, and the destination
/// tree lacks it or has it more than two seconds older.
pub open spec fn wanted(src: NodeModel, dst: NodeModel, keys: Seq<Seq<char>>) -> bool {
    match_laws::file_at(src, keys) matches Some(m) && (match_laws::file_at(dst, keys) matches Some(
        o,
    ) ==> m.mtime > o.mtime + 20_000_000)
}

/// `op` copies the source tree's file at these keys: the components below both
/// roots are the same and read the keys in lower case, and the size is that
/// of the source file.
pub open spec fn copies_file_at(
    op: OpModel,
    l: Seq<Seq<char>>,
    r: Seq<Seq<char>>,
    dir: Direction,
    src: NodeModel,
    keys: Seq<Seq<char>>,
) -> bool {
    exists|rel: Seq<Seq<char>>|
        {
            &&& #[trigger] text::keys_of(rel) == keys
            &&& match_laws::file_at(src, keys) matches Some(m) && op == (OpModel::Copy {
                src: dir.source(l, r) + rel,
                dst: dir.destination(l, r) + rel,
                size: m.size,
            })
        }
}

/// Syncing two trees copies every file that is missing or older on the
/// destination side.
pub proof fn sync_copies_what_is_wanted(
    left: NodeModel,
    right: NodeModel,
    l: Seq<Seq<char>>,
    r: Seq<Seq<char>>,
    dir: Direction,
    keys: Seq<Seq<char>>,
)
    requires
        scan_laws::is_scanned(left),
        scan_laws::is_scanned(right),
        wanted(dir.source(left, right), dir.destination(left, right), keys),
    ensures
        exists|k: int|
            0 <= k < sync::node_ops(compare::tree_diff(left, right), l, r, dir).len()
                && copies_file_at(
                #[trigger] sync::node_ops(compare::tree_diff(left, right), l, r, dir)[k],
                l,
                r,
                dir,
                dir.source(left, right),
                keys,
            ),
{
    let d = compare::tree_diff(left, right);
    match_laws::everything_shows(left, right, keys, false);
    let (rel, f): (Seq<Seq<char>>, DiffModel) = choose|rel: Seq<Seq<char>>, f: DiffModel|
        #[trigger] match_laws::stands_at(d, rel, f) && !f.is_dir && text::keys_of(rel)
            == keys;
    assert(keys.len() > 0);
    match_laws::diff_reflects_trees(left, right, rel, f);
    due_is_done(d, l, r, dir, rel, f);
    let ops = sync::node_ops(d, l, r, dir);
    let op = sync::op_for(f, l + rel, r + rel, dir);
    let k = ops.index_of(op);
    assert(copies_file_at(ops[k], l, r, dir, dir.source(left, right), keys));
}

/// Syncing two trees copies nothing else: each copy is of a file that the
/// source tree has and that the destination tree lacks or has more than two
/// seconds older. So a newer file is never overwritten.
pub proof fn sync_copies_only_what_is_wanted(
    left: NodeModel,
    right: NodeModel,
    l: Seq<Seq<char>>,
    r: Seq<Seq<char>>,
    dir: Direction,
    k: int,
)
    requires
        scan_laws::is_scanned(left),
        scan_laws::is_scanned(right),
        0 <= k < sync::node_ops(compare::tree_diff(left, right), l, r, dir).len(),
        sync::node_ops(compare::tree_diff(left, right), l, r, dir)[k] is Copy,
    ensures
        exists|keys: Seq<Seq<char>>|
            #[trigger] wanted(dir.source(left, right), dir.destination(left, right), keys)
                && copies_file_at(
                sync::node_ops(compare::tree_diff(left, right), l, r, dir)[k],
                l,
                r,
                dir,
                dir.source(left, right),
                keys,
            ),
{
    let d = compare::tree_diff(left, right);
    let op = sync::node_ops(d, l, r, dir)[k];
    operations_are_due(d, l, r, dir, k);
    let (rel, f): (Seq<Seq<char>>, DiffModel) = choose|rel: Seq<Seq<char>>, f: DiffModel|
        #[trigger] match_laws::stands_at(d, rel, f) && dir.is_due(f) && op == sync::op_for(
            f,
            l + rel,
            r + rel,
            dir,
        );
    assert(rel.len() > 0);
    match_laws::diff_reflects_trees(left, right, rel, f);
    let keys = text::keys_of(rel);
    assert(wanted(dir.source(left, right), dir.destination(left, right), keys));
    assert(copies_file_at(op, l, r, dir, dir.source(left, right), keys));
}

/// `op` creates the source tree's directory at these keys below the
/// destination root.
pub open spec fn creates_dir_at(
    op: OpModel,
    l: Seq<Seq<char>>,
    r: Seq<Seq<char>>,
    dir: Direction,
    keys: Seq<Seq<char>>,
) -> bool {
    exists|rel: Seq<Seq<char>>|
        #[trigger] text::keys_of(rel) == keys && op == (OpModel::CreateDir {
            dst: dir.destination(l, r) + rel,
        })
}

/// Syncing two trees creates every directory that the source tree has and the
/// destination tree lacks, whether or not there is a file in it.
pub proof fn sync_creates_missing_directories(
    left: NodeModel,
    right: NodeModel,
    l: Seq<Seq<char>>,
    r: Seq<Seq<char>>,
    dir: Direction,
    keys: Seq<Seq<char>>,
)
    requires
        scan_laws::is_scanned(left),
        scan_laws::is_scanned(right),
        match_laws::dir_at(dir.source(left, right), keys),
        !match_laws::dir_at(dir.destination(left, right), keys),
    ensures
        exists|k: int|
            0 <= k < sync::node_ops(compare::tree_diff(left, right), l, r, dir).len()
                && creates_dir_at(
                #[trigger] sync::node_ops(compare::tree_diff(left, right), l, r, dir)[k],
                l,
                r,
                dir,
                keys,
            ),
{
    let d = compare::tree_diff(left, right);
    match_laws::everything_shows(left, right, keys, true);
    let (rel, f): (Seq<Seq<char>>, DiffModel) = choose|rel: Seq<Seq<char>>, f: DiffModel|
        #[trigger] match_laws::stands_at(d, rel, f) && f.is_dir && text::keys_of(rel) == keys;
    assert(rel.len() > 0);
    match_laws::diff_reflects_trees(left, right, rel, f);
    due_is_done(d, l, r, dir, rel, f);
    let ops = sync::node_ops(d, l, r, dir);
    let op = sync::op_for(f, l + rel, r + rel, dir);
    let k = ops.index_of(op);
    assert(creates_dir_at(ops[k], l, r, dir, keys));
}

/// Syncing two trees creates no other directory: each is one that the source
/// tree has and the destination tree lacks.
pub proof fn sync_creates_only_missing_directories(
    left: NodeModel,
    right: NodeModel,
    l: Seq<Seq<char>>,
    r: Seq<Seq<char>>,
    dir: Direction,
    k: int,
)
    requires
        scan_laws::is_scanned(left),
        scan_laws::is_scanned(right),
        0 <= k < sync::node_ops(compare::tree_diff(left, right), l, r, dir).len(),
        sync::node_ops(compare::tree_diff(left, right), l, r, dir)[k] is CreateDir,
    ensures
        exists|keys: Seq<Seq<char>>|
            #[trigger] match_laws::dir_at(dir.source(left, right), keys) && !match_laws::dir_at(
                dir.destination(left, right),
                keys,
            ) && creates_dir_at(
                sync::node_ops(compare::tree_diff(left, right), l, r, dir)[k],
                l,
                r,
                dir,
                keys,
            ),
{
    let d = compare::tree_diff(left, right);
    let op = sync::node_ops(d, l, r, dir)[k];
    operations_are_due(d, l, r, dir, k);
    let (rel, f): (Seq<Seq<char>>, DiffModel) = choose|rel: Seq<Seq<char>>, f: DiffModel|
        #[trigger] match_laws::stands_at(d, rel, f) && dir.is_due(f) && op == sync::op_for(
            f,
            l + rel,
            r + rel,
            dir,
        );
    assert(rel.len() > 0);
    match_laws::diff_reflects_trees(left, right, rel, f);
    assert(dir.destination(l + rel, r + rel) == dir.destination(l, r) + rel);
    let keys = text::keys_of(rel);
    assert(match_laws::dir_at(dir.source(left, right), keys));
    assert(creates_dir_at(op, l, r, dir, keys));
}

/// The whole plan for two trees is counted right: it copies as many files as
/// the comparison found missing or older on the destination side, and those
/// that a directory stands in the way of.
pub proof fn sync_copies_what_was_counted(
    left: NodeModel,
    right: NodeModel,
    l: Seq<Seq<char>>,
    r: Seq<Seq<char>>,
    dir: Direction,
)
    requires
        left.wf(),
        right.wf(),
    ensures
        sync::copied_files(sync::node_ops(compare::tree_diff(left, right), l, r, dir)) == dir.due(
            compare::tree_diff(left, right).counts,
        ) + count_laws::clashing_files(
            compare::tree_diff(left, right),
            dir == Direction::LeftToRight,
        ),
{
    compare_laws::diff_aggregates(left, right);
    copies_match_counts(compare::tree_diff(left, right), l, r, dir);
}

/// Where no path is a file on one side and a directory on the other, the plan
/// copies exactly as many files as the comparison found missing or older on the
/// destination side.
pub proof fn sync_copies_exactly_what_was_counted(
    left: NodeModel,
    right: NodeModel,
    l: Seq<Seq<char>>,
    r: Seq<Seq<char>>,
    dir: Direction,
)
    requires
        scan_laws::is_scanned(left),
        scan_laws::is_scanned(right),
        match_laws::same_kinds(left, right),
    ensures
        sync::copied_files(sync::node_ops(compare::tree_diff(left, right), l, r, dir)) == dir.due(
            compare::tree_diff(left, right).counts,
        ),
{
    sync_copies_what_was_counted(left, right, l, r, dir);
    count_laws::same_kinds_never_clash(left, right, dir == Direction::LeftToRight);
}

/// `below` is `above` or lies below it.
pub open spec fn lies_below(above: Seq<Seq<char>>, below: Seq<Seq<char>>) -> bool {
    above.len() <= below.len() && below.take(above.len() as int) == above
}

/// The path that an operation writes to.
pub open spec fn target(op: OpModel) -> Seq<Seq<char>> {
    match op {
        OpModel::CreateDir { dst } => dst,
        OpModel::Copy { dst, .. } => dst,
    }
}

/// Every operation of a plan writes at or below the destination's place.
pub proof fn sync_writes_below_destination(
    d: DiffModel,
    l: Seq<Seq<char>>,
    r: Seq<Seq<char>>,
    dir: Direction,
    k: int,
)
    requires
        0 <= k < sync::node_ops(d, l, r, dir).len(),
    ensures
        lies_below(dir.destination(l, r), target(sync::node_ops(d, l, r, dir)[k])),
    decreases d, 1nat, 0int,
{
    let dst = dir.destination(l, r);
    let ops = sync::node_ops(d, l, r, dir);
    assert(dst.take(dst.len() as int) =~= dst);
    if d.is_dir {
        let own = sync::own_ops(d, l, r, dir);
        if k >= own.len() {
            assert(ops == own + sync::children_ops(d.children, l, r, dir));
            assert(ops[k] == sync::children_ops(d.children, l, r, dir)[k - own.len()]);
            assert(d.children.take(d.children.len() as int) =~= d.children);
            children_write_below(d, l, r, dir, d.children.len() as int, k - own.len());
        } else {
            assert(ops[k] == own[k]);
        }
    }
}

proof fn children_write_below(
    d: DiffModel,
    l: Seq<Seq<char>>,
    r: Seq<Seq<char>>,
    dir: Direction,
    n: int,
    k: int,
)
    requires
        0 <= n <= d.children.len(),
        0 <= k < sync::children_ops(d.children.take(n), l, r, dir).len(),
    ensures
        lies_below(
            dir.destination(l, r),
            target(sync::children_ops(d.children.take(n), l, r, dir)[k]),
        ),
    decreases d, 0nat, n,
{
    let s = d.children.take(n);
    let a = sync::children_ops(d.children.take(n - 1), l, r, dir);
    assert(s.drop_last() =~= d.children.take(n - 1));
    let c = d.children[n - 1];
    let b = sync::node_ops(c, l.push(c.name), r.push(c.name), dir);
    if k < a.len() {
        children_write_below(d, l, r, dir, n - 1, k);
    } else {
        sync_writes_below_destination(c, l.push(c.name), r.push(c.name), dir, k - a.len());
        let t = target(b[k - a.len()]);
        let dst = dir.destination(l, r);
        assert(t.take(dst.len() as int) =~= t.take((dst.len() + 1) as int).take(dst.len() as int));
        assert(dst.push(c.name).take(dst.len() as int) =~= dst);
    }
}

/// The operations for a directory that the destination lacks start with its
/// creation, and all of them write at or below it: it is there before anything
/// is copied into it.
pub proof fn directories_come_first(
    d: DiffModel,
    l: Seq<Seq<char>>,
    r: Seq<Seq<char>>,
    dir: Direction,
)
    requires
        d.is_dir,
        dir.is_missing(d),
    ensures
        sync::node_ops(d, l, r, dir).len() > 0,
        sync::node_ops(d, l, r, dir)[0] == (OpModel::CreateDir { dst: dir.destination(l, r) }),
        forall|k: int|
            0 <= k < sync::node_ops(d, l, r, dir).len() ==> lies_below(
                dir.destination(l, r),
                target(#[trigger] sync::node_ops(d, l, r, dir)[k]),
            ),
{
    assert forall|k: int| 0 <= k < sync::node_ops(d, l, r, dir).len() implies lies_below(
        dir.destination(l, r),
        target(#[trigger] sync::node_ops(d, l, r, dir)[k]),
    ) by {
        sync_writes_below_destination(d, l, r, dir, k);
    }
}

/// Where nothing in the diff is missing or older on the destination side,
/// nothing is done.
pub proof fn nothing_due_nothing_done(
    d: DiffModel,
    l: Seq<Seq<char>>,
    r: Seq<Seq<char>>,
    dir: Direction,
)
    requires
        forall|rel: Seq<Seq<char>>, f: DiffModel| #[trigger]
            match_laws::stands_at(d, rel, f) ==> !dir.is_due(f),
    ensures
        sync::node_ops(d, l, r, dir) == Seq::<OpModel>::empty(),
{
    if sync::node_ops(d, l, r, dir).len() > 0 {
        operations_are_due(d, l, r, dir, 0);
    }
}

/// The operations among those done that copy a file and failed.
pub open spec fn failed_copies(ops: Seq<OpModel>, failures: Seq<Option<Seq<char>>>) -> nat
    decreases ops.len(),
{
    if ops.len() == 0 {
        0
    } else {
        failed_copies(ops.drop_last(), failures.drop_last()) + (if ops.last() is Copy
            && failures.last() is Some {
            1nat
        } else {
            0nat
        })
    }
}

/// Every file of a plan is accounted for: it was copied, or it is one of the
/// errors.
pub proof fn every_copy_is_accounted_for(ops: Seq<OpModel>, failures: Seq<Option<Seq<char>>>)
    requires
        ops.len() == failures.len(),
    ensures
        sync::outcome_of(ops, failures).copied_files + failed_copies(ops, failures)
            == sync::copied_files(ops),
        failed_copies(ops, failures) <= sync::outcome_of(ops, failures).errors.len(),
    decreases ops.len(),
{
    if ops.len() > 0 {
        every_copy_is_accounted_for(ops.drop_last(), failures.drop_last());
    }
}

/// Where nothing failed, everything was copied and there is no error.
pub proof fn all_well_all_copied(ops: Seq<OpModel>, failures: Seq<Option<Seq<char>>>)
    requires
        ops.len() == failures.len(),
        forall|i: int| 0 <= i < failures.len() ==> #[trigger] failures[i] is None,
    ensures
        sync::outcome_of(ops, failures).copied_files == sync::copied_files(ops),
        sync::outcome_of(ops, failures).copied_bytes == sync::copied_bytes(ops),
        sync::outcome_of(ops, failures).errors.len() == 0,
    decreases ops.len(),
{
    if ops.len() > 0 {
        let before = failures.drop_last();
        assert forall|i: int| 0 <= i < before.len() implies #[trigger] before[i] is None by {
            assert(before[i] == failures[i]);
        }
        all_well_all_copied(ops.drop_last(), before);
    }
}

/// The books agree with the operations done: recording how each of them went,
/// one after the other, comes to the outcome of them all.
pub proof fn recording_builds_outcome(
    ops: Seq<OpModel>,
    failures: Seq<Option<Seq<char>>>,
    n: int,
)
    requires
        ops.len() == failures.len(),
        0 <= n < ops.len(),
    ensures
        sync::after_op(
            sync::outcome_of(ops.take(n), failures.take(n)),
            ops[n],
            failures[n],
        ) == sync::outcome_of(ops.take(n + 1), failures.take(n + 1)),
{
    assert(ops.take(n + 1).drop_last() =~= ops.take(n));
    assert(failures.take(n + 1).drop_last() =~= failures.take(n));
}

} // verus!
