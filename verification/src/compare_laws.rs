//! What holds of every comparison.

use vstd::prelude::*;
use crate::compare;
use crate::compare::{DiffModel, Status, Tally};
use crate::display_order;
use crate::model;
use crate::model::{ChildModel, Meta, NodeModel};

verus! {

/// The same numbers with the sides exchanged.
pub open spec fn mirrored(t: Tally) -> Tally {
    Tally {
        identical: t.identical,
        left_newer: t.right_newer,
        right_newer: t.left_newer,
        different: t.different,
        left_only: t.right_only,
        right_only: t.left_only,
    }
}

/// The same status with the sides exchanged.
pub open spec fn mirrored_status(s: Status) -> Status {
    match s {
        Status::Identical => Status::Identical,
        Status::LeftNewer => Status::RightNewer,
        Status::RightNewer => Status::LeftNewer,
        Status::Different => Status::Different,
        Status::LeftOnly => Status::RightOnly,
        Status::RightOnly => Status::LeftOnly,
    }
}

/// Exchanging two files exchanges the sides of their status.
pub proof fn file_status_mirrors(l: Meta, r: Meta)
    ensures
        compare::status_of_files(r, l) == mirrored_status(compare::status_of_files(l, r)),
{
}

/// Two files are identical exactly if they have the same size and were
/// modified no more than two seconds apart.
pub proof fn identical_files(l: Meta, r: Meta)
    ensures
        compare::status_of_files(l, r) == Status::Identical <==> {
            &&& l.size == r.size
            &&& l.mtime <= r.mtime + 20_000_000
            &&& r.mtime <= l.mtime + 20_000_000
        },
{
}

/// A side is called newer only if its file was modified more than two seconds
/// later.
pub proof fn newer_files(l: Meta, r: Meta)
    ensures
        compare::status_of_files(l, r) == Status::LeftNewer <==> l.mtime > r.mtime + 20_000_000,
        compare::status_of_files(l, r) == Status::RightNewer <==> r.mtime > l.mtime + 20_000_000,
{
}

/// Every directory in the diff counts what its entries count, every file its
/// own status.
pub open spec fn aggregates(d: DiffModel) -> bool
    decreases d,
{
    &&& d.counts == if d.is_dir {
        compare::sum_counts(d.children)
    } else {
        Tally::one(d.status)
    }
    &&& forall|i: int| 0 <= i < d.children.len() ==> aggregates(#[trigger] d.children[i])
}

/// All entries of a list satisfy `aggregates`.
pub open spec fn all_aggregate(s: Seq<DiffModel>) -> bool {
    forall|i: int| 0 <= i < s.len() ==> aggregates(#[trigger] s[i])
}

proof fn listed_with_aggregate(s: Seq<DiffModel>, x: DiffModel)
    requires
        all_aggregate(s),
        aggregates(x),
    ensures
        all_aggregate(display_order::listed_with(s, x)),
    decreases s.len(),
{
    if s.len() > 0 && !display_order::listed_by(s.last(), x) {
        assert(all_aggregate(s.drop_last())) by {
            assert forall|i: int| 0 <= i < s.drop_last().len() implies aggregates(
                #[trigger] s.drop_last()[i],
            ) by {
                assert(s.drop_last()[i] == s[i]);
            }
        }
        listed_with_aggregate(s.drop_last(), x);
    }
}

proof fn listing_aggregates(s: Seq<DiffModel>)
    requires
        all_aggregate(s),
    ensures
        all_aggregate(display_order::listing(s)),
    decreases s.len(),
{
    if s.len() > 0 {
        assert forall|i: int| 0 <= i < s.drop_last().len() implies aggregates(
            #[trigger] s.drop_last()[i],
        ) by {
            assert(s.drop_last()[i] == s[i]);
        }
        listing_aggregates(s.drop_last());
        listed_with_aggregate(display_order::listing(s.drop_last()), s.last());
    }
}

proof fn one_sided_aggregates(n: NodeModel, status: Status)
    ensures
        aggregates(compare::one_sided_diff(n, status)),
    decreases n, 0nat,
{
    one_sided_all_aggregate(n.children, status);
    listing_aggregates(compare::one_sided_diffs(n.children, status));
}

proof fn one_sided_all_aggregate(s: Seq<ChildModel>, status: Status)
    ensures
        all_aggregate(compare::one_sided_diffs(s, status)),
    decreases s, 1nat,
{
    if s.len() > 0 {
        one_sided_all_aggregate(s.drop_last(), status);
        one_sided_aggregates(s.last().node, status);
    }
}

proof fn clash_aggregates(n: NodeModel, side: Status)
    ensures
        aggregates(compare::clash_diff(n, side)),
{
    one_sided_aggregates(n, side);
    let d = compare::clash_diff(n, side);
    let alone = compare::one_sided_diff(n, side);
    assert forall|i: int| 0 <= i < d.children.len() implies aggregates(
        #[trigger] d.children[i],
    ) by {
        assert(d.children[i] == alone.children[i]);
    }
}

/// Directories aggregate the counts of their contents, all the way down.
pub proof fn diff_aggregates(l: NodeModel, r: NodeModel)
    ensures
        aggregates(compare::tree_diff(l, r)),
    decreases l, 0nat,
{
    let left = compare::left_diffs(l.children, r.children);
    let u = compare::unmatched(r.children, l.children);
    left_diffs_aggregate(l.children, r.children);
    one_sided_all_aggregate(u, Status::RightOnly);
    listing_aggregates(left + compare::one_sided_diffs(u, Status::RightOnly));
}

proof fn left_diffs_aggregate(ls: Seq<ChildModel>, rs: Seq<ChildModel>)
    ensures
        all_aggregate(compare::left_diffs(ls, rs)),
    decreases ls, 1nat,
{
    if ls.len() > 0 {
        let l = ls.last().node;
        left_diffs_aggregate(ls.drop_last(), rs);
        one_sided_aggregates(l, Status::LeftOnly);
        let there = model::lookup(rs, ls.last().key);
        let pair = compare::pair_diffs(l, there);
        if let Some(r) = there {
            if l.is_dir != r.is_dir {
                one_sided_aggregates(r, Status::RightOnly);
                clash_aggregates(l, Status::LeftOnly);
                clash_aggregates(r, Status::RightOnly);
            } else if l.is_dir {
                diff_aggregates(l, r);
            } else {
                assert(aggregates(compare::file_diff(l, r)));
            }
        }
        assert(all_aggregate(pair));
        let front = compare::left_diffs(ls.drop_last(), rs);
        assert forall|i: int| 0 <= i < (front + pair).len() implies aggregates(
            #[trigger] (front + pair)[i],
        ) by {
            if i < front.len() {
                assert((front + pair)[i] == front[i]);
            } else {
                assert((front + pair)[i] == pair[i - front.len()]);
            }
        }
    }
}

proof fn nothing_unmatched(rs: Seq<ChildModel>, all: Seq<ChildModel>)
    requires
        forall|i: int|
            0 <= i < rs.len() ==> model::lookup(all, (#[trigger] rs[i]).key) is Some,
    ensures
        compare::unmatched(rs, all).len() == 0,
    decreases rs.len(),
{
    if rs.len() > 0 {
        let front = rs.drop_last();
        assert forall|i: int| 0 <= i < front.len() implies model::lookup(
            all,
            (#[trigger] front[i]).key,
        ) is Some by {
            assert(front[i] == rs[i]);
        }
        assert(model::lookup(all, rs[rs.len() - 1].key) is Some);
        nothing_unmatched(front, all);
    }
}

/// A tree compared with itself is in sync, and all its files are identical.
pub proof fn tree_equals_itself(n: NodeModel)
    requires
        n.wf(),
    ensures
        compare::tree_diff(n, n).status == Status::Identical,
        compare::tree_diff(n, n).counts == Tally::many(
            Status::Identical,
            model::totals_of(n.children).files,
        ),
    decreases n, n.children.len() + 1,
{
    let s = n.children;
    assert forall|i: int| 0 <= i < s.len() implies model::lookup(
        s,
        (#[trigger] s[i]).key,
    ) is Some by {
        model::entry_is_found(s, i);
    }
    nothing_unmatched(s, s);
    compare::tree_counts(n, n);
    children_equal_themselves(n, s.len() as int);
    assert(s.take(s.len() as int) =~= s);
}

proof fn children_equal_themselves(n: NodeModel, m: int)
    requires
        n.wf(),
        0 <= m <= n.children.len(),
    ensures
        compare::sum_counts(compare::left_diffs(n.children.take(m), n.children)) == Tally::many(
            Status::Identical,
            model::totals_of(n.children.take(m)).files,
        ),
    decreases n, m,
{
    let s = n.children;
    if m > 0 {
        let c = s[m - 1];
        assert(s.take(m).drop_last() =~= s.take(m - 1));
        compare::totals_of_push(s.take(m - 1), c);
        assert(s.take(m - 1).push(c) =~= s.take(m));
        children_equal_themselves(n, m - 1);
        model::entry_is_found(s, m - 1);
        assert(c.node.wf());
        compare::sum_of_concat(
            compare::left_diffs(s.take(m - 1), s),
            compare::pair_diffs(c.node, Some(c.node)),
        );
        if c.node.is_dir {
            tree_equals_itself(c.node);
            compare::sum_of_one(compare::tree_diff(c.node, c.node));
        } else {
            compare::sum_of_one(compare::file_diff(c.node, c.node));
        }
    }
}

/// What one matched pair counts.
spec fn pair_counts(l: NodeModel, r: NodeModel) -> Tally {
    compare::sum_counts(compare::pair_diffs(l, Some(r)))
}

proof fn pair_mirrors(l: NodeModel, r: NodeModel)
    requires
        l.wf(),
        r.wf(),
    ensures
        pair_counts(l, r) == mirrored(pair_counts(r, l)),
    decreases l, 1nat,
{
    if l.is_dir != r.is_dir {
        let ll = compare::clash_diff(l, Status::LeftOnly);
        let lr = compare::clash_diff(l, Status::RightOnly);
        let rl = compare::clash_diff(r, Status::LeftOnly);
        let rr = compare::clash_diff(r, Status::RightOnly);
        compare::clash_counts(l, Status::LeftOnly);
        compare::clash_counts(l, Status::RightOnly);
        compare::clash_counts(r, Status::LeftOnly);
        compare::clash_counts(r, Status::RightOnly);
        compare::sum_of_two(ll, rr);
        compare::sum_of_two(rl, lr);
    } else if l.is_dir {
        exchanging_sides_mirrors_counts(l, r);
        compare::sum_of_one(compare::tree_diff(l, r));
        compare::sum_of_one(compare::tree_diff(r, l));
    } else {
        file_status_mirrors(l.meta, r.meta);
        compare::sum_of_one(compare::file_diff(l, r));
        compare::sum_of_one(compare::file_diff(r, l));
    }
}

/// The counts of two lists of children, before they are listed.
spec fn level_counts(ls: Seq<ChildModel>, rs: Seq<ChildModel>) -> Tally {
    compare::sum_counts(compare::left_diffs(ls, rs)).plus(
        Tally::many(
            Status::RightOnly,
            model::totals_of(compare::unmatched(rs, ls)).files,
        ),
    )
}

/// How the entries of `rs` change once the other side gains its last child: its
/// partner, if there is one, is no longer alone.
proof fn gains_a_partner(rs: Seq<ChildModel>, ls: Seq<ChildModel>)
    requires
        model::keys_ascend(ls),
        model::keys_ascend(rs),
        ls.len() > 0,
    ensures
        match model::lookup(rs, ls.last().key) {
            None => {
                &&& compare::sum_counts(compare::left_diffs(rs, ls)) == compare::sum_counts(
                    compare::left_diffs(rs, ls.drop_last()),
                )
                &&& compare::unmatched(rs, ls) == compare::unmatched(rs, ls.drop_last())
            },
            Some(r) => {
                &&& compare::sum_counts(compare::left_diffs(rs, ls)).plus(
                    Tally::many(Status::LeftOnly, model::totals_of_child(r).files),
                ) == compare::sum_counts(compare::left_diffs(rs, ls.drop_last())).plus(
                    pair_counts(r, ls.last().node),
                )
                &&& model::totals_of(compare::unmatched(rs, ls.drop_last())).files
                    == model::totals_of(compare::unmatched(rs, ls)).files
                    + model::totals_of_child(r).files
            },
        },
    decreases rs.len(),
{
    let k = ls.last().key;
    if rs.len() > 0 {
        let c = rs.last();
        let front = rs.drop_last();
        model::lookup_from_back(rs, k);
        model::lookup_from_back(ls, c.key);
        gains_a_partner(front, ls);
        let now = model::lookup(ls, c.key);
        let before = model::lookup(ls.drop_last(), c.key);
        compare::sum_of_concat(
            compare::left_diffs(front, ls),
            compare::pair_diffs(c.node, now),
        );
        compare::sum_of_concat(
            compare::left_diffs(front, ls.drop_last()),
            compare::pair_diffs(c.node, before),
        );
        compare::totals_of_push(compare::unmatched(front, ls), c);
        compare::totals_of_push(compare::unmatched(front, ls.drop_last()), c);
        if c.key == k {
            compare::sum_of_one(compare::one_sided_diff(c.node, Status::LeftOnly));
            compare::one_sided_counts(c.node, Status::LeftOnly);
        }
    }
}

proof fn level_mirrors(ls: Seq<ChildModel>, rs: Seq<ChildModel>)
    requires
        model::keys_ascend(ls),
        model::keys_ascend(rs),
        forall|i: int| 0 <= i < ls.len() ==> (#[trigger] ls[i]).node.wf(),
        forall|i: int| 0 <= i < rs.len() ==> (#[trigger] rs[i]).node.wf(),
    ensures
        level_counts(ls, rs) == mirrored(level_counts(rs, ls)),
    decreases ls, 2nat,
{
    if ls.len() == 0 {
        alone(rs, ls);
        compare::unmatched_by_none(rs, ls);
    } else {
        let c = ls.last();
        let front = ls.drop_last();
        model::lookup_from_back(ls, c.key);
        assert forall|i: int| 0 <= i < front.len() implies (#[trigger] front[i]).node.wf() by {
            assert(front[i] == ls[i]);
        }
        assert(ls[ls.len() - 1].node.wf());
        level_mirrors(front, rs);
        gains_a_partner(rs, ls);
        let there = model::lookup(rs, c.key);
        compare::sum_of_concat(
            compare::left_diffs(front, rs),
            compare::pair_diffs(c.node, there),
        );
        compare::totals_of_push(compare::unmatched(front, rs), c);
        match there {
            None => {
                compare::sum_of_one(compare::one_sided_diff(c.node, Status::LeftOnly));
                compare::one_sided_counts(c.node, Status::LeftOnly);
            },
            Some(r) => {
                assert(r.wf());
                pair_mirrors(c.node, r);
            },
        }
    }
}

/// Entries without anything on the other side.
proof fn alone(rs: Seq<ChildModel>, ls: Seq<ChildModel>)
    requires
        ls.len() == 0,
    ensures
        compare::sum_counts(compare::left_diffs(rs, ls)) == Tally::many(
            Status::LeftOnly,
            model::totals_of(rs).files,
        ),
    decreases rs.len(),
{
    if rs.len() > 0 {
        let c = rs.last();
        alone(rs.drop_last(), ls);
        compare::sum_of_concat(
            compare::left_diffs(rs.drop_last(), ls),
            compare::pair_diffs(c.node, None),
        );
        compare::sum_of_one(compare::one_sided_diff(c.node, Status::LeftOnly));
        compare::one_sided_counts(c.node, Status::LeftOnly);
    }
}

/// Comparing the right tree with the left exchanges the sides of all counts,
/// and leaves the status as it is.
pub proof fn exchanging_sides_mirrors_counts(l: NodeModel, r: NodeModel)
    requires
        l.wf(),
        r.wf(),
    ensures
        compare::tree_diff(l, r).counts == mirrored(compare::tree_diff(r, l).counts),
        compare::tree_diff(l, r).status == compare::tree_diff(r, l).status,
    decreases l, 0nat,
{
    compare::tree_counts(l, r);
    compare::tree_counts(r, l);
    level_mirrors(l.children, r.children);
}

proof fn left_diffs_hold(ls: Seq<ChildModel>, rs: Seq<ChildModel>, i: int, x: DiffModel)
    requires
        0 <= i < ls.len(),
        compare::pair_diffs(ls[i].node, model::lookup(rs, ls[i].key)).contains(x),
    ensures
        compare::left_diffs(ls, rs).contains(x),
        compare::sum_counts(compare::left_diffs(ls, rs)).differing() >= compare::sum_counts(
            compare::pair_diffs(ls[i].node, model::lookup(rs, ls[i].key)),
        ).differing(),
    decreases ls.len(),
{
    let front = ls.drop_last();
    let a = compare::left_diffs(front, rs);
    let b = compare::pair_diffs(ls.last().node, model::lookup(rs, ls.last().key));
    compare::sum_of_concat(a, b);
    if i < front.len() {
        assert(front[i] == ls[i]);
        left_diffs_hold(front, rs, i, x);
        let j = a.index_of(x);
        assert((a + b)[j] == x);
    } else {
        let j = b.index_of(x);
        assert((a + b)[a.len() + j] == x);
    }
}

/// Every left child shows in the diff as the entry, or the two entries, that
/// it makes with what the right side has under its key.
pub proof fn left_children_are_listed(l: NodeModel, r: NodeModel, i: int, x: DiffModel)
    requires
        0 <= i < l.children.len(),
        compare::pair_diffs(
            l.children[i].node,
            model::lookup(r.children, l.children[i].key),
        ).contains(x),
    ensures
        compare::tree_diff(l, r).children.contains(x),
{
    let a = compare::left_diffs(l.children, r.children);
    let b = compare::one_sided_diffs(
        compare::unmatched(r.children, l.children),
        Status::RightOnly,
    );
    left_diffs_hold(l.children, r.children, i, x);
    let j = a.index_of(x);
    assert((a + b)[j] == x);
    display_order::listing_holds(a + b, x);
}

proof fn unmatched_hold(rs: Seq<ChildModel>, ls: Seq<ChildModel>, j: int)
    requires
        0 <= j < rs.len(),
        model::lookup(ls, rs[j].key) is None,
    ensures
        compare::one_sided_diffs(compare::unmatched(rs, ls), Status::RightOnly).contains(
            compare::one_sided_diff(rs[j].node, Status::RightOnly),
        ),
    decreases rs.len(),
{
    let front = rs.drop_last();
    let u = compare::unmatched(front, ls);
    let x = compare::one_sided_diff(rs[j].node, Status::RightOnly);
    let a = compare::one_sided_diffs(u, Status::RightOnly);
    if j < front.len() {
        assert(front[j] == rs[j]);
        unmatched_hold(front, ls, j);
        if model::lookup(ls, rs.last().key) is None {
            assert(u.push(rs.last()).drop_last() =~= u);
            let k = a.index_of(x);
            assert(a.push(compare::one_sided_diff(rs.last().node, Status::RightOnly))[k] == x);
        }
    } else {
        assert(u.push(rs.last()).drop_last() =~= u);
        assert(a.push(x)[a.len() as int] == x);
    }
}

/// Every right child whose key the left side lacks shows as right-only.
pub proof fn right_children_are_listed(l: NodeModel, r: NodeModel, j: int)
    requires
        0 <= j < r.children.len(),
        model::lookup(l.children, r.children[j].key) is None,
    ensures
        compare::tree_diff(l, r).children.contains(
            compare::one_sided_diff(r.children[j].node, Status::RightOnly),
        ),
{
    let a = compare::left_diffs(l.children, r.children);
    let b = compare::one_sided_diffs(
        compare::unmatched(r.children, l.children),
        Status::RightOnly,
    );
    let x = compare::one_sided_diff(r.children[j].node, Status::RightOnly);
    unmatched_hold(r.children, l.children, j);
    let k = b.index_of(x);
    assert((a + b)[a.len() + k] == x);
    display_order::listing_holds(a + b, x);
}

/// A file on one side against a directory on the other: both show, each with
/// what its own side has, and both are different; so is the directory that
/// holds them.
pub proof fn type_mismatch_is_different(l: NodeModel, r: NodeModel, i: int, there: NodeModel)
    requires
        0 <= i < l.children.len(),
        model::lookup(r.children, l.children[i].key) == Some(there),
        l.children[i].node.is_dir != there.is_dir,
    ensures
        ({
            let n = l.children[i].node;
            let d = compare::tree_diff(l, r);
            let a = compare::clash_diff(n, Status::LeftOnly);
            let b = compare::clash_diff(there, Status::RightOnly);
            &&& d.status == Status::Different
            &&& d.children.contains(a) && d.children.contains(b)
            &&& a.status == Status::Different && b.status == Status::Different
            &&& a.name == n.name && a.is_dir == n.is_dir
            &&& b.name == there.name && b.is_dir == there.is_dir
            &&& a.left == Some(n.meta) && a.right is None
            &&& b.left is None && b.right == Some(there.meta)
        }),
{
    let n = l.children[i].node;
    let a = compare::clash_diff(n, Status::LeftOnly);
    let b = compare::clash_diff(there, Status::RightOnly);
    compare::clash_counts(n, Status::LeftOnly);
    compare::clash_counts(there, Status::RightOnly);
    compare::sum_of_two(a, b);
    assert(seq![a, b][0] == a);
    assert(seq![a, b][1] == b);
    left_diffs_hold(l.children, r.children, i, a);
    left_children_are_listed(l, r, i, a);
    left_children_are_listed(l, r, i, b);
    compare::tree_counts(l, r);
}

/// The files in a diff.
pub open spec fn files_in(d: DiffModel) -> nat
    decreases d, 0nat,
{
    if d.is_dir {
        files_among(d.children)
    } else {
        1
    }
}

/// The files among and below the entries.
pub open spec fn files_among(s: Seq<DiffModel>) -> nat
    decreases s, 1nat,
{
    if s.len() == 0 {
        0
    } else {
        files_among(s.drop_last()) + files_in(s.last())
    }
}

/// Every file that a diff shows is counted once, under one status.
pub proof fn files_are_counted_once(d: DiffModel)
    requires
        aggregates(d),
    ensures
        d.counts.total() == files_in(d),
    decreases d, 1nat, 0int,
{
    if d.is_dir {
        assert(d.children.take(d.children.len() as int) =~= d.children);
        entries_are_counted_once(d, d.children.len() as int);
    }
}

proof fn entries_are_counted_once(d: DiffModel, n: int)
    requires
        aggregates(d),
        0 <= n <= d.children.len(),
    ensures
        compare::sum_counts(d.children.take(n)).total() == files_among(d.children.take(n)),
    decreases d, 0nat, n,
{
    if n > 0 {
        assert(d.children.take(n).drop_last() =~= d.children.take(n - 1));
        entries_are_counted_once(d, n - 1);
        files_are_counted_once(d.children[n - 1]);
    }
}

/// Attributes play no part in how two files compare.
pub proof fn attributes_play_no_part(l: Meta, r: Meta, l2: Meta, r2: Meta)
    requires
        l2.size == l.size,
        l2.mtime == l.mtime,
        r2.size == r.size,
        r2.mtime == r.mtime,
    ensures
        compare::status_of_files(l2, r2) == compare::status_of_files(l, r),
{
}

/// What matters is how far apart two modification times are, not when: moving
/// both by as much leaves the status as it is.
pub proof fn moving_both_times_changes_nothing(l: Meta, r: Meta, l2: Meta, r2: Meta, k: int)
    requires
        l2.size == l.size,
        l2.mtime == l.mtime + k,
        r2.size == r.size,
        r2.mtime == r.mtime + k,
    ensures
        compare::status_of_files(l2, r2) == compare::status_of_files(l, r),
{
}

/// A file compared with itself is identical.
pub proof fn file_equals_itself(m: Meta)
    ensures
        compare::status_of_files(m, m) == Status::Identical,
{
}

} // verus!
