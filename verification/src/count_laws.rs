//! What the counts of a diff say of the files of each side.

use vstd::prelude::*;
use crate::compare;
use crate::compare::{DiffModel, Status, Tally};
use crate::compare_laws;
use crate::match_laws;
use crate::model;
use crate::model::NodeModel;
use crate::scan_laws;
use crate::text;

verus! {

/// A file of one side, the left or else the right, that faces a directory on the
/// other.
pub open spec fn clashes(d: DiffModel, left: bool) -> bool {
    !d.is_dir && d.status == Status::Different && compare::shows_side(d, left)
        && !compare::shows_side(d, !left)
}

/// The files of one side in a diff that face a directory on the other.
pub open spec fn clashing_files(d: DiffModel, left: bool) -> nat
    decreases d, 0nat,
{
    if d.is_dir {
        clashing_among(d.children, left)
    } else if clashes(d, left) {
        1
    } else {
        0
    }
}

/// The files of one side among and below the entries that face a directory on
/// the other.
pub open spec fn clashing_among(s: Seq<DiffModel>, left: bool) -> nat
    decreases s, 1nat,
{
    if s.len() == 0 {
        0
    } else {
        clashing_among(s.drop_last(), left) + clashing_files(s.last(), left)
    }
}

/// Without a file that faces a directory none is counted.
proof fn none_clash(d: DiffModel, left: bool)
    requires
        forall|rel: Seq<Seq<char>>, f: DiffModel| #[trigger]
            match_laws::stands_at(d, rel, f) ==> !clashes(f, left),
    ensures
        clashing_files(d, left) == 0,
    decreases d, 1nat, 0int,
{
    assert(match_laws::stands_at(d, Seq::empty(), d));
    if d.is_dir {
        none_clash_among(d, left, d.children.len() as int);
        assert(d.children.take(d.children.len() as int) =~= d.children);
    }
}

proof fn none_clash_among(d: DiffModel, left: bool, n: int)
    requires
        d.is_dir,
        0 <= n <= d.children.len(),
        forall|rel: Seq<Seq<char>>, f: DiffModel| #[trigger]
            match_laws::stands_at(d, rel, f) ==> !clashes(f, left),
    ensures
        clashing_among(d.children.take(n), left) == 0,
    decreases d, 0nat, n,
{
    if n > 0 {
        let c = d.children[n - 1];
        assert(d.children.take(n).drop_last() =~= d.children.take(n - 1));
        none_clash_among(d, left, n - 1);
        assert forall|rel: Seq<Seq<char>>, f: DiffModel| #[trigger]
            match_laws::stands_at(c, rel, f) implies !clashes(f, left) by {
            match_laws::one_step_down(d, n - 1, rel, f);
        }
        none_clash(c, left);
    }
}

/// Where no path is a file on one side and a directory on the other, no file
/// faces a directory.
pub proof fn same_kinds_never_clash(l: NodeModel, r: NodeModel, left: bool)
    requires
        scan_laws::is_scanned(l),
        scan_laws::is_scanned(r),
        match_laws::same_kinds(l, r),
    ensures
        clashing_files(compare::tree_diff(l, r), left) == 0,
{
    let d = compare::tree_diff(l, r);
    assert forall|rel: Seq<Seq<char>>, f: DiffModel| #[trigger]
        match_laws::stands_at(d, rel, f) implies !clashes(f, left) by {
        if clashes(f, left) {
            assert(rel.len() > 0);
            match_laws::diff_reflects_trees(l, r, rel, f);
            let keys = text::keys_of(rel);
            assert(match_laws::file_at(l, keys) is Some || match_laws::file_at(r, keys) is Some);
        }
    }
    none_clash(d, left);
}

/// The files that are counted as being on one side, alone or with the other.
pub open spec fn counted_on(t: Tally, left: bool) -> nat {
    t.identical + t.left_newer + t.right_newer + t.different + (if left {
        t.left_only
    } else {
        t.right_only
    })
}

/// The status of a file fits the sides that show it.
spec fn status_fits(f: DiffModel) -> bool {
    !f.is_dir ==> match f.status {
        Status::LeftOnly => f.left is Some && f.right is None,
        Status::RightOnly => f.left is None && f.right is Some,
        Status::Different => f.left is Some || f.right is Some,
        _ => f.left is Some && f.right is Some,
    }
}

proof fn counted_by_side(d: DiffModel, left: bool)
    requires
        compare_laws::aggregates(d),
        forall|rel: Seq<Seq<char>>, f: DiffModel| #[trigger]
            match_laws::stands_at(d, rel, f) ==> status_fits(f),
    ensures
        counted_on(d.counts, left) == compare::side_files(d, left) + clashing_files(d, !left),
    decreases d, 1nat, 0int,
{
    assert(match_laws::stands_at(d, Seq::empty(), d));
    if d.is_dir {
        counted_among(d, left, d.children.len() as int);
        assert(d.children.take(d.children.len() as int) =~= d.children);
    } else {
        assert(status_fits(d));
    }
}

proof fn counted_among(d: DiffModel, left: bool, n: int)
    requires
        d.is_dir,
        compare_laws::aggregates(d),
        0 <= n <= d.children.len(),
        forall|rel: Seq<Seq<char>>, f: DiffModel| #[trigger]
            match_laws::stands_at(d, rel, f) ==> status_fits(f),
    ensures
        counted_on(compare::sum_counts(d.children.take(n)), left) == compare::side_sum(
            d.children.take(n),
            left,
        ) + clashing_among(d.children.take(n), !left),
    decreases d, 0nat, n,
{
    if n > 0 {
        let c = d.children[n - 1];
        assert(d.children.take(n).drop_last() =~= d.children.take(n - 1));
        counted_among(d, left, n - 1);
        assert forall|rel: Seq<Seq<char>>, f: DiffModel| #[trigger]
            match_laws::stands_at(c, rel, f) implies status_fits(f) by {
            match_laws::one_step_down(d, n - 1, rel, f);
        }
        counted_by_side(c, left);
    }
}

/// The counts tell the files of each side: those that are counted as being on a
/// side are the files of its tree, and the files of the other side that face a
/// directory there, which count as different.
pub proof fn counts_tell_the_files_of_a_side(l: NodeModel, r: NodeModel)
    requires
        scan_laws::is_scanned(l),
        scan_laws::is_scanned(r),
    ensures
        ({
            let d = compare::tree_diff(l, r);
            &&& counted_on(d.counts, true) == model::totals_of(l.children).files + clashing_files(
                d,
                false,
            )
            &&& counted_on(d.counts, false) == model::totals_of(r.children).files
                + clashing_files(d, true)
        }),
{
    let d = compare::tree_diff(l, r);
    compare_laws::diff_aggregates(l, r);
    compare::left_files_are_counted(l, r);
    compare::right_files_are_counted(l, r);
    assert forall|rel: Seq<Seq<char>>, f: DiffModel| #[trigger]
        match_laws::stands_at(d, rel, f) implies status_fits(f) by {
        if !f.is_dir {
            assert(rel.len() > 0);
            match_laws::diff_reflects_trees(l, r, rel, f);
        }
    }
    counted_by_side(d, true);
    counted_by_side(d, false);
}

/// Where no path is a file on one side and a directory on the other, the files
/// counted as being on a side are exactly those of its tree.
pub proof fn every_file_counts_for_its_side(l: NodeModel, r: NodeModel)
    requires
        scan_laws::is_scanned(l),
        scan_laws::is_scanned(r),
        match_laws::same_kinds(l, r),
    ensures
        counted_on(compare::tree_diff(l, r).counts, true) == model::totals_of(l.children).files,
        counted_on(compare::tree_diff(l, r).counts, false) == model::totals_of(r.children).files,
{
    counts_tell_the_files_of_a_side(l, r);
    same_kinds_never_clash(l, r, true);
    same_kinds_never_clash(l, r, false);
}

} // verus!
