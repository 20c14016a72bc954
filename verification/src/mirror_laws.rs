//! Exchanging the sides of a comparison mirrors the diff, node by node.

use vstd::prelude::*;
use crate::compare;
use crate::compare::{DiffModel, Status};
use crate::compare_laws;
use crate::display_order;
use crate::match_laws;
use crate::model;
use crate::model::{ChildModel, NodeModel};
use crate::scan_laws;
use crate::text;

verus! {

/// `b` is `a` with the sides exchanged: the metadata, the status and the counts
/// of the two sides change places, and the entries stand in the same order,
/// under names that are equal in lower case.
pub open spec fn mirror_of(a: DiffModel, b: DiffModel) -> bool
    decreases a,
{
    &&& a.is_dir == b.is_dir
    &&& a.left == b.right
    &&& a.right == b.left
    &&& b.status == compare_laws::mirrored_status(a.status)
    &&& b.counts == compare_laws::mirrored(a.counts)
    &&& a.children.len() == b.children.len()
    &&& forall|i: int|
        0 <= i < a.children.len() ==> text::lowercase((#[trigger] a.children[i]).name)
            == text::lowercase(b.children[i].name) && mirror_of(a.children[i], b.children[i])
}

/// The children stand under their names in lower case.
spec fn under_names(s: Seq<ChildModel>) -> bool {
    forall|i: int| 0 <= i < s.len() ==> (#[trigger] s[i]).key == text::lowercase(s[i].node.name)
}

proof fn front_of(s: Seq<ChildModel>)
    requires
        model::keys_ascend(s),
        under_names(s),
        s.len() > 0,
    ensures
        model::keys_ascend(s.drop_last()),
        under_names(s.drop_last()),
{
    let front = s.drop_last();
    assert forall|i: int| 0 <= i < front.len() implies (#[trigger] front[i]).key
        == text::lowercase(front[i].node.name) by {
        assert(front[i] == s[i]);
    }
    assert forall|i: int, j: int| 0 <= i < j < front.len() implies text::strictly_precedes(
        #[trigger] front[i].key,
        #[trigger] front[j].key,
    ) by {
        assert(front[i] == s[i] && front[j] == s[j]);
    }
}

/// No two entries for children without a match rank with each other.
proof fn unmatched_ranks_differ(rs: Seq<ChildModel>, ls: Seq<ChildModel>, status: Status)
    requires
        model::keys_ascend(rs),
        under_names(rs),
    ensures
        display_order::ranks_differ(
            compare::one_sided_diffs(compare::unmatched(rs, ls), status),
        ),
    decreases rs.len(),
{
    if rs.len() > 0 {
        let front = rs.drop_last();
        front_of(rs);
        unmatched_ranks_differ(front, ls, status);
        if model::lookup(ls, rs.last().key) is None {
            let u = compare::unmatched(front, ls);
            let a = compare::one_sided_diffs(u, status);
            let last = compare::one_sided_diff(rs.last().node, status);
            assert(u.push(rs.last()).drop_last() =~= u);
            assert(compare::one_sided_diffs(u.push(rs.last()), status) == a.push(last));
            let all = a.push(last);
            assert forall|i: int, j: int| 0 <= i < j < all.len() implies
                !display_order::same_rank(#[trigger] all[i], #[trigger] all[j]) by {
                if j == a.len() {
                    assert(a.contains(a[i]));
                    let ui = match_laws::one_sided_origin(u, status, a[i]);
                    let p = match_laws::unmatched_origin(front, ls, ui);
                    assert(front[p] == rs[p]);
                    assert(rs[p].key == text::lowercase(rs[p].node.name));
                    assert(text::strictly_precedes(rs[p].key, rs[rs.len() - 1].key));
                } else {
                    assert(all[i] == a[i] && all[j] == a[j]);
                }
            }
        }
    }
}

/// The entries for a pair of children have names that read their key.
proof fn pair_reads_key(l: ChildModel, rs: Seq<ChildModel>, x: DiffModel)
    requires
        l.key == text::lowercase(l.node.name),
        under_names(rs),
        model::keys_ascend(rs),
        compare::pair_diffs(l.node, model::lookup(rs, l.key)).contains(x),
    ensures
        text::lowercase(x.name) == l.key,
{
    if model::lookup(rs, l.key) is Some {
        model::found_is_entry(rs, l.key);
        let p = model::place(rs, l.key);
        assert(rs[p].key == text::lowercase(rs[p].node.name));
    }
}

/// No two entries for left children rank with each other.
proof fn left_ranks_differ(ls: Seq<ChildModel>, rs: Seq<ChildModel>)
    requires
        model::keys_ascend(ls),
        model::keys_ascend(rs),
        under_names(ls),
        under_names(rs),
    ensures
        display_order::ranks_differ(compare::left_diffs(ls, rs)),
    decreases ls.len(),
{
    if ls.len() > 0 {
        let front = ls.drop_last();
        front_of(ls);
        left_ranks_differ(front, rs);
        let a = compare::left_diffs(front, rs);
        let last = ls[ls.len() - 1];
        let b = compare::pair_diffs(last.node, model::lookup(rs, last.key));
        let all = a + b;
        assert(all == compare::left_diffs(ls, rs));
        assert forall|i: int, j: int| 0 <= i < j < all.len() implies !display_order::same_rank(
            #[trigger] all[i],
            #[trigger] all[j],
        ) by {
            if j >= a.len() {
                let y = b[j - a.len()];
                assert(all[j] == y);
                if i < a.len() {
                    assert(all[i] == a[i]);
                    assert(a.contains(a[i]));
                    assert(b.contains(y));
                    let p = match_laws::left_entry_origin(front, rs, a[i]);
                    assert(front[p] == ls[p]);
                    pair_reads_key(ls[p], rs, a[i]);
                    pair_reads_key(last, rs, y);
                    assert(text::strictly_precedes(ls[p].key, ls[ls.len() - 1].key));
                } else {
                    assert(all[i] == b[i - a.len()]);
                }
            } else {
                assert(all[i] == a[i] && all[j] == a[j]);
            }
        }
    }
}

/// No two entries of a diff rank with each other.
pub(crate) proof fn diff_ranks_differ(l: NodeModel, r: NodeModel)
    requires
        scan_laws::is_scanned(l),
        scan_laws::is_scanned(r),
    ensures
        display_order::ranks_differ(compare::tree_diff(l, r).children),
        display_order::in_order(compare::tree_diff(l, r).children),
{
    let ls = l.children;
    let rs = r.children;
    let a = compare::left_diffs(ls, rs);
    let u = compare::unmatched(rs, ls);
    let b = compare::one_sided_diffs(u, Status::RightOnly);
    let all = a + b;
    left_ranks_differ(ls, rs);
    unmatched_ranks_differ(rs, ls, Status::RightOnly);
    assert forall|i: int, j: int| 0 <= i < j < all.len() implies !display_order::same_rank(
        #[trigger] all[i],
        #[trigger] all[j],
    ) by {
        if j < a.len() {
            assert(all[i] == a[i] && all[j] == a[j]);
        } else if i >= a.len() {
            assert(all[i] == b[i - a.len()] && all[j] == b[j - a.len()]);
        } else {
            let y = b[j - a.len()];
            assert(all[i] == a[i] && all[j] == y);
            assert(a.contains(a[i]) && b.contains(y));
            let p = match_laws::left_entry_origin(ls, rs, a[i]);
            pair_reads_key(ls[p], rs, a[i]);
            model::entry_is_found(ls, p);
            let ui = match_laws::one_sided_origin(u, Status::RightOnly, y);
            let q = match_laws::unmatched_origin(rs, ls, ui);
            assert(rs[q].key == text::lowercase(rs[q].node.name));
        }
    }
    display_order::ranks_differ_when_listed(all);
    display_order::listing_is_listing(all);
}

/// No two entries of a one-sided subtree rank with each other.
pub(crate) proof fn alone_ranks_differ(n: NodeModel, status: Status)
    requires
        scan_laws::is_scanned(n),
    ensures
        display_order::ranks_differ(compare::one_sided_diff(n, status).children),
        display_order::in_order(compare::one_sided_diff(n, status).children),
{
    let none = Seq::<ChildModel>::empty();
    let all = compare::one_sided_diffs(n.children, status);
    compare::unmatched_by_none(n.children, none);
    unmatched_ranks_differ(n.children, none, status);
    display_order::ranks_differ_when_listed(all);
    display_order::listing_is_listing(all);
}

/// The list has an entry that ranks with `x` and mirrors it.
spec fn has_mirror(t: Seq<DiffModel>, x: DiffModel) -> bool {
    exists|j: int|
        0 <= j < t.len() && display_order::same_rank(#[trigger] t[j], x) && mirror_of(x, t[j])
}

/// The entries mirror one another, one by one, and so do their counts.
proof fn lists_mirror(s: Seq<DiffModel>, t: Seq<DiffModel>)
    requires
        display_order::in_order(s),
        display_order::in_order(t),
        display_order::ranks_differ(s),
        display_order::ranks_differ(t),
        forall|i: int| 0 <= i < s.len() ==> #[trigger] has_mirror(t, s[i]),
        forall|i: int| 0 <= i < t.len() ==> #[trigger] display_order::has_rank(s, t[i]),
    ensures
        s.len() == t.len(),
        forall|i: int|
            0 <= i < s.len() ==> text::lowercase((#[trigger] s[i]).name) == text::lowercase(
                t[i].name,
            ) && mirror_of(s[i], t[i]),
        compare::sum_counts(t) == compare_laws::mirrored(compare::sum_counts(s)),
{
    assert forall|i: int| 0 <= i < s.len() implies #[trigger] display_order::has_rank(
        t,
        s[i],
    ) by {
        assert(has_mirror(t, s[i]));
    }
    display_order::listed_alike(s, t);
    assert forall|i: int| 0 <= i < s.len() implies text::lowercase((#[trigger] s[i]).name)
        == text::lowercase(t[i].name) && mirror_of(s[i], t[i]) by {
        assert(has_mirror(t, s[i]));
        let j = choose|j: int|
            0 <= j < t.len() && display_order::same_rank(#[trigger] t[j], s[i]) && mirror_of(
                s[i],
                t[j],
            );
        assert(display_order::same_rank(s[i], t[i]));
        if j < i {
            assert(display_order::same_rank(t[j], t[i]));
        } else if i < j {
            assert(display_order::same_rank(t[i], t[j]));
        }
    }
    sums_mirror(s, t);
}

proof fn sums_mirror(s: Seq<DiffModel>, t: Seq<DiffModel>)
    requires
        s.len() == t.len(),
        forall|i: int| 0 <= i < s.len() ==> mirror_of(#[trigger] s[i], t[i]),
    ensures
        compare::sum_counts(t) == compare_laws::mirrored(compare::sum_counts(s)),
    decreases s.len(),
{
    if s.len() > 0 {
        let a = s.drop_last();
        let b = t.drop_last();
        assert forall|i: int| 0 <= i < a.len() implies mirror_of(#[trigger] a[i], b[i]) by {
            assert(mirror_of(s[i], t[i]));
        }
        sums_mirror(a, b);
        assert(mirror_of(s[s.len() - 1], t[s.len() - 1]));
    }
}

/// What only the left side has mirrors the same on the right side only.
proof fn alone_mirrors(n: NodeModel, status: Status)
    requires
        scan_laws::is_scanned(n),
        status == Status::LeftOnly || status == Status::RightOnly,
    ensures
        mirror_of(
            compare::one_sided_diff(n, status),
            compare::one_sided_diff(n, compare_laws::mirrored_status(status)),
        ),
    decreases n,
{
    let other = compare_laws::mirrored_status(status);
    let s = compare::one_sided_diff(n, status).children;
    let t = compare::one_sided_diff(n, other).children;
    alone_ranks_differ(n, status);
    alone_ranks_differ(n, other);
    assert forall|i: int| 0 <= i < s.len() implies #[trigger] has_mirror(t, s[i]) by {
        let key = text::lowercase(s[i].name);
        assert(s.contains(s[i]));
        match_laws::alone_by_key(n, status, s[i]);
        match_laws::child_is_scanned(n, key);
        let c = model::lookup(n.children, key)->0;
        let y = compare::one_sided_diff(c, other);
        match_laws::alone_by_key(n, other, y);
        model::found_is_entry(n.children, key);
        alone_mirrors(c, status);
        let j = t.index_of(y);
        assert(t[j] == y);
    }
    assert forall|i: int| 0 <= i < t.len() implies #[trigger] display_order::has_rank(s, t[i]) by {
        let key = text::lowercase(t[i].name);
        assert(t.contains(t[i]));
        match_laws::alone_by_key(n, other, t[i]);
        match_laws::child_is_scanned(n, key);
        let c = model::lookup(n.children, key)->0;
        let x = compare::one_sided_diff(c, status);
        match_laws::alone_by_key(n, status, x);
        let j = s.index_of(x);
        assert(s[j] == x);
    }
    lists_mirror(s, t);
}

/// Each side of a type mismatch mirrors itself on the other side.
proof fn clash_mirrors(n: NodeModel, side: Status)
    requires
        scan_laws::is_scanned(n),
        side == Status::LeftOnly || side == Status::RightOnly,
    ensures
        mirror_of(
            compare::clash_diff(n, side),
            compare::clash_diff(n, compare_laws::mirrored_status(side)),
        ),
{
    alone_mirrors(n, side);
}

/// What the two sides have under a key gives entries that mirror one another.
proof fn entries_mirror(l: NodeModel, r: NodeModel, key: Seq<char>, x: DiffModel) -> (y:
    DiffModel)
    requires
        scan_laws::is_scanned(l),
        scan_laws::is_scanned(r),
        match_laws::entries_under(l, r, key).contains(x),
    ensures
        match_laws::entries_under(r, l, key).contains(y),
        display_order::same_rank(x, y),
        mirror_of(x, y),
    decreases l, 0nat,
{
    let lt = model::lookup(l.children, key);
    let rt = model::lookup(r.children, key);
    let es = match_laws::entries_under(r, l, key);
    if lt is Some {
        match_laws::child_is_scanned(l, key);
        model::found_is_entry(l.children, key);
    }
    if rt is Some {
        match_laws::child_is_scanned(r, key);
    }
    match (lt, rt) {
        (Some(ln), Some(rn)) => if ln.is_dir != rn.is_dir {
            if x == compare::clash_diff(ln, Status::LeftOnly) {
                clash_mirrors(ln, Status::LeftOnly);
                assert(es[1] == compare::clash_diff(ln, Status::RightOnly));
                es[1]
            } else {
                clash_mirrors(rn, Status::RightOnly);
                assert(es[0] == compare::clash_diff(rn, Status::LeftOnly));
                es[0]
            }
        } else if ln.is_dir {
            exchanging_sides_mirrors_the_diff(ln, rn);
            assert(es[0] == compare::tree_diff(rn, ln));
            es[0]
        } else {
            compare_laws::file_status_mirrors(ln.meta, rn.meta);
            assert(es[0] == compare::file_diff(rn, ln));
            es[0]
        },
        (Some(ln), None) => {
            alone_mirrors(ln, Status::LeftOnly);
            assert(es[0] == compare::one_sided_diff(ln, Status::RightOnly));
            es[0]
        },
        (_, _) => {
            let rn = rt->0;
            alone_mirrors(rn, Status::RightOnly);
            assert(es[0] == compare::one_sided_diff(rn, Status::LeftOnly));
            es[0]
        },
    }
}

/// Comparing two trees with the sides exchanged gives the mirror image of the
/// diff, node by node.
pub proof fn exchanging_sides_mirrors_the_diff(l: NodeModel, r: NodeModel)
    requires
        scan_laws::is_scanned(l),
        scan_laws::is_scanned(r),
    ensures
        mirror_of(compare::tree_diff(l, r), compare::tree_diff(r, l)),
    decreases l, 1nat,
{
    let s = compare::tree_diff(l, r).children;
    let t = compare::tree_diff(r, l).children;
    diff_ranks_differ(l, r);
    diff_ranks_differ(r, l);
    assert forall|i: int| 0 <= i < s.len() implies #[trigger] has_mirror(t, s[i]) by {
        let key = text::lowercase(s[i].name);
        assert(s.contains(s[i]));
        match_laws::entries_are_matched_by_key(l, r, s[i]);
        let y = entries_mirror(l, r, key, s[i]);
        match_laws::entries_are_matched_by_key(r, l, y);
        let j = t.index_of(y);
        assert(t[j] == y);
    }
    assert forall|i: int| 0 <= i < t.len() implies #[trigger] display_order::has_rank(s, t[i]) by {
        let key = text::lowercase(t[i].name);
        assert(t.contains(t[i]));
        match_laws::entries_are_matched_by_key(r, l, t[i]);
        let x = rank_of_partner(r, l, key, t[i]);
        match_laws::entries_are_matched_by_key(l, r, x);
        let j = s.index_of(x);
        assert(s[j] == x);
    }
    lists_mirror(s, t);
}

/// An entry of the exchanged comparison has a partner of its rank.
proof fn rank_of_partner(l: NodeModel, r: NodeModel, key: Seq<char>, x: DiffModel) -> (y:
    DiffModel)
    requires
        scan_laws::is_scanned(l),
        scan_laws::is_scanned(r),
        match_laws::entries_under(l, r, key).contains(x),
    ensures
        match_laws::entries_under(r, l, key).contains(y),
        display_order::same_rank(x, y),
{
    let es = match_laws::entries_under(r, l, key);
    let lt = model::lookup(l.children, key);
    let rt = model::lookup(r.children, key);
    if lt is Some {
        match_laws::child_is_scanned(l, key);
    }
    if rt is Some {
        match_laws::child_is_scanned(r, key);
    }
    if lt is Some && rt is Some && (lt->0).is_dir != (rt->0).is_dir && x.is_dir
        == (lt->0).is_dir {
        assert(es[1].is_dir == x.is_dir);
        es[1]
    } else {
        assert(es[0].is_dir == x.is_dir);
        es[0]
    }
}

} // verus!
