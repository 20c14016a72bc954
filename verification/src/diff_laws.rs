//! What every node of a diff shows, how the nodes are listed, and what is
//! counted.

use vstd::prelude::*;
use crate::compare;
use crate::compare::{DiffModel, Status, Tally};
use crate::compare_laws;
use crate::display_order;
use crate::match_laws;
use crate::mirror_laws;
use crate::model;
use crate::model::{Meta, NodeModel};
use crate::scan_laws;
use crate::text;
use crate::tree_laws;

verus! {

/// Two files that were modified no more than two seconds apart and differ in
/// size are different; no two files are on one side only.
pub proof fn different_files(l: Meta, r: Meta)
    ensures
        compare::status_of_files(l, r) == Status::Different <==> {
            &&& l.size != r.size
            &&& l.mtime <= r.mtime + 20_000_000
            &&& r.mtime <= l.mtime + 20_000_000
        },
        compare::status_of_files(l, r) != Status::LeftOnly,
        compare::status_of_files(l, r) != Status::RightOnly,
{
}

/// The root of a diff is a directory with the left root's name and the metadata
/// of both roots; it is identical exactly if nothing below it differs, and else
/// different.
pub proof fn roots_are_shown(l: NodeModel, r: NodeModel)
    ensures
        ({
            let d = compare::tree_diff(l, r);
            let c = d.counts;
            let same = c.left_newer == 0 && c.right_newer == 0 && c.different == 0 && c.left_only
                == 0 && c.right_only == 0;
            &&& d.is_dir
            &&& d.name == l.name
            &&& d.left == Some(l.meta)
            &&& d.right == Some(r.meta)
            &&& same ==> d.status == Status::Identical
            &&& !same ==> d.status == Status::Different
        }),
{
}

/// The node stands in the tree with that name, kind and metadata.
pub open spec fn is_node(
    n: Option<NodeModel>,
    name: Seq<char>,
    is_dir: bool,
    meta: Option<Meta>,
) -> bool {
    n matches Some(x) && x.name == name && x.is_dir == is_dir && Some(x.meta) == meta
}

proof fn alone_shows_its_node(
    n: NodeModel,
    status: Status,
    rel: Seq<Seq<char>>,
    f: DiffModel,
)
    requires
        scan_laws::is_scanned(n),
        status == Status::LeftOnly || status == Status::RightOnly,
        match_laws::stands_at(compare::one_sided_diff(n, status), rel, f),
    ensures
        is_node(
            tree_laws::node_at(n, text::keys_of(rel)),
            f.name,
            f.is_dir,
            if status == Status::LeftOnly {
                f.left
            } else {
                f.right
            },
        ),
        status == Status::LeftOnly ==> f.right is None,
        status == Status::RightOnly ==> f.left is None,
    decreases rel.len(),
{
    if rel.len() > 0 {
        let d = compare::one_sided_diff(n, status);
        let i = match_laws::first_step(d, rel, f);
        let x = d.children[i];
        let key = text::lowercase(x.name);
        match_laws::alone_by_key(n, status, x);
        match_laws::child_is_scanned(n, key);
        text::keys_step(rel);
        alone_shows_its_node(
            model::lookup(n.children, key)->0,
            status,
            rel.drop_first(),
            f,
        );
    }
}

proof fn clash_shows_its_node(n: NodeModel, side: Status, rel: Seq<Seq<char>>, f: DiffModel)
    requires
        scan_laws::is_scanned(n),
        side == Status::LeftOnly || side == Status::RightOnly,
        match_laws::stands_at(compare::clash_diff(n, side), rel, f),
    ensures
        is_node(
            tree_laws::node_at(n, text::keys_of(rel)),
            f.name,
            f.is_dir,
            if side == Status::LeftOnly {
                f.left
            } else {
                f.right
            },
        ),
        side == Status::LeftOnly ==> f.right is None,
        side == Status::RightOnly ==> f.left is None,
{
    if rel.len() > 0 {
        match_laws::below_a_clash(n, side, rel, f);
        alone_shows_its_node(n, side, rel, f);
    }
}

/// Every entry of a diff, file or directory, at whatever depth, shows a node of
/// the left tree, of the right tree or of both: their kind and their metadata,
/// each on its own side, and the name as the left side spells it where the left
/// side has it.
pub proof fn entries_show_their_nodes(l: NodeModel, r: NodeModel, rel: Seq<Seq<char>>, f: DiffModel)
    requires
        scan_laws::is_scanned(l),
        scan_laws::is_scanned(r),
        rel.len() > 0,
        match_laws::stands_at(compare::tree_diff(l, r), rel, f),
    ensures
        f.left is Some || f.right is Some,
        f.left is Some ==> is_node(
            tree_laws::node_at(l, text::keys_of(rel)),
            f.name,
            f.is_dir,
            f.left,
        ),
        f.right is Some && f.left is None ==> is_node(
            tree_laws::node_at(r, text::keys_of(rel)),
            f.name,
            f.is_dir,
            f.right,
        ),
        f.right is Some && f.left is Some ==> (tree_laws::node_at(r, text::keys_of(rel)) matches Some(
            n,
        ) && n.is_dir == f.is_dir && Some(n.meta) == f.right),
    decreases rel.len(),
{
    let d = compare::tree_diff(l, r);
    let i = match_laws::first_step(d, rel, f);
    let x = d.children[i];
    let key = text::lowercase(x.name);
    let rest = rel.drop_first();
    text::keys_step(rel);
    match_laws::entries_are_matched_by_key(l, r, x);
    let lt = model::lookup(l.children, key);
    let rt = model::lookup(r.children, key);
    if lt is Some {
        match_laws::child_is_scanned(l, key);
    }
    if rt is Some {
        match_laws::child_is_scanned(r, key);
    }
    assert(text::keys_of(rel).drop_first() == text::keys_of(rest));
    match (lt, rt) {
        (Some(ln), None) => {
            alone_shows_its_node(ln, Status::LeftOnly, rest, f);
        },
        (None, Some(rn)) => {
            alone_shows_its_node(rn, Status::RightOnly, rest, f);
        },
        (Some(ln), Some(rn)) => {
            if ln.is_dir != rn.is_dir {
                if x == compare::clash_diff(ln, Status::LeftOnly) {
                    clash_shows_its_node(ln, Status::LeftOnly, rest, f);
                } else {
                    clash_shows_its_node(rn, Status::RightOnly, rest, f);
                }
            } else if ln.is_dir && rest.len() > 0 {
                entries_show_their_nodes(ln, rn, rest, f);
            } else {
                assert(rest.len() == 0);
                assert(f == x);
                assert(text::keys_of(rest).len() == 0);
                assert(tree_laws::node_at(ln, text::keys_of(rest)) == Some(ln));
                assert(tree_laws::node_at(rn, text::keys_of(rest)) == Some(rn));
            }
        },
        (None, None) => {},
    }
}

/// The entries are listed in order, and no two of one kind and name.
spec fn well_listed(s: Seq<DiffModel>) -> bool {
    display_order::in_order(s) && display_order::ranks_differ(s)
}

proof fn alone_is_well_listed(n: NodeModel, status: Status, rel: Seq<Seq<char>>, f: DiffModel)
    requires
        scan_laws::is_scanned(n),
        match_laws::stands_at(compare::one_sided_diff(n, status), rel, f),
    ensures
        well_listed(f.children),
    decreases rel.len(),
{
    if rel.len() == 0 {
        mirror_laws::alone_ranks_differ(n, status);
    } else {
        let d = compare::one_sided_diff(n, status);
        let i = match_laws::first_step(d, rel, f);
        let key = text::lowercase(d.children[i].name);
        match_laws::alone_by_key(n, status, d.children[i]);
        match_laws::child_is_scanned(n, key);
        alone_is_well_listed(
            model::lookup(n.children, key)->0,
            status,
            rel.drop_first(),
            f,
        );
    }
}

proof fn clash_is_well_listed(n: NodeModel, side: Status, rel: Seq<Seq<char>>, f: DiffModel)
    requires
        scan_laws::is_scanned(n),
        match_laws::stands_at(compare::clash_diff(n, side), rel, f),
    ensures
        well_listed(f.children),
{
    if rel.len() == 0 {
        mirror_laws::alone_ranks_differ(n, side);
    } else {
        match_laws::below_a_clash(n, side, rel, f);
        alone_is_well_listed(n, side, rel, f);
    }
}

proof fn diff_is_well_listed(l: NodeModel, r: NodeModel, rel: Seq<Seq<char>>, f: DiffModel)
    requires
        scan_laws::is_scanned(l),
        scan_laws::is_scanned(r),
        match_laws::stands_at(compare::tree_diff(l, r), rel, f),
    ensures
        well_listed(f.children),
    decreases rel.len(),
{
    if rel.len() == 0 {
        mirror_laws::diff_ranks_differ(l, r);
    } else {
        let d = compare::tree_diff(l, r);
        let i = match_laws::first_step(d, rel, f);
        let x = d.children[i];
        let key = text::lowercase(x.name);
        let rest = rel.drop_first();
        match_laws::entries_are_matched_by_key(l, r, x);
        let lt = model::lookup(l.children, key);
        let rt = model::lookup(r.children, key);
        if lt is Some {
            match_laws::child_is_scanned(l, key);
        }
        if rt is Some {
            match_laws::child_is_scanned(r, key);
        }
        match (lt, rt) {
            (Some(ln), None) => {
                alone_is_well_listed(ln, Status::LeftOnly, rest, f);
            },
            (None, Some(rn)) => {
                alone_is_well_listed(rn, Status::RightOnly, rest, f);
            },
            (Some(ln), Some(rn)) => {
                if ln.is_dir != rn.is_dir {
                    if x == compare::clash_diff(ln, Status::LeftOnly) {
                        clash_is_well_listed(ln, Status::LeftOnly, rest, f);
                    } else {
                        clash_is_well_listed(rn, Status::RightOnly, rest, f);
                    }
                } else if ln.is_dir {
                    diff_is_well_listed(ln, rn, rest, f);
                } else {
                    assert(rest.len() == 0);
                }
            },
            (None, None) => {},
        }
    }
}

/// In every directory of a diff the directories are listed before the files, and
/// those of one kind by their names in lower case, no name twice.
pub proof fn directories_then_files_by_name(
    l: NodeModel,
    r: NodeModel,
    rel: Seq<Seq<char>>,
    f: DiffModel,
    i: int,
    j: int,
)
    requires
        scan_laws::is_scanned(l),
        scan_laws::is_scanned(r),
        match_laws::stands_at(compare::tree_diff(l, r), rel, f),
        0 <= i < j < f.children.len(),
    ensures
        ({
            let a = f.children[i];
            let b = f.children[j];
            &&& a.is_dir || !b.is_dir
            &&& a.is_dir == b.is_dir ==> text::lowercase(a.name) != text::lowercase(b.name)
                && text::precedes(text::lowercase(a.name), text::lowercase(b.name))
        }),
{
    diff_is_well_listed(l, r, rel, f);
    assert(display_order::listed_by(f.children[i], f.children[j]));
    assert(!display_order::same_rank(f.children[i], f.children[j]));
}

/// An entry may stand before another if it is a directory and the other is not,
/// or if they are of one kind and its name in lower case does not come later.
pub proof fn entries_are_ordered_by_kind_and_name(a: DiffModel, b: DiffModel)
    ensures
        display_order::listed_by(a, b) <==> (a.is_dir && !b.is_dir) || (a.is_dir == b.is_dir
            && text::precedes(text::lowercase(a.name), text::lowercase(b.name))),
        display_order::same_rank(a, b) <==> a.is_dir == b.is_dir && text::lowercase(a.name)
            == text::lowercase(b.name),
{
}

/// The files in a diff that have the given status.
pub open spec fn files_with(d: DiffModel, status: Status) -> nat
    decreases d, 0nat,
{
    if d.is_dir {
        files_with_among(d.children, status)
    } else if d.status == status {
        1
    } else {
        0
    }
}

/// The files among and below the entries that have the given status.
pub open spec fn files_with_among(s: Seq<DiffModel>, status: Status) -> nat
    decreases s, 1nat,
{
    if s.len() == 0 {
        0
    } else {
        files_with_among(s.drop_last(), status) + files_with(s.last(), status)
    }
}

/// Each number of the counts is that of the files with its status.
pub open spec fn counts_match(t: Tally, f: spec_fn(Status) -> nat) -> bool {
    &&& t.identical == f(Status::Identical)
    &&& t.left_newer == f(Status::LeftNewer)
    &&& t.right_newer == f(Status::RightNewer)
    &&& t.different == f(Status::Different)
    &&& t.left_only == f(Status::LeftOnly)
    &&& t.right_only == f(Status::RightOnly)
}

proof fn counted_by_status(d: DiffModel)
    requires
        compare_laws::aggregates(d),
    ensures
        counts_match(d.counts, |s: Status| files_with(d, s)),
    decreases d, 1nat, 0int,
{
    if d.is_dir {
        counted_by_status_among(d, d.children.len() as int);
        assert(d.children.take(d.children.len() as int) =~= d.children);
    }
}

proof fn counted_by_status_among(d: DiffModel, n: int)
    requires
        compare_laws::aggregates(d),
        0 <= n <= d.children.len(),
    ensures
        counts_match(
            compare::sum_counts(d.children.take(n)),
            |s: Status| files_with_among(d.children.take(n), s),
        ),
    decreases d, 0nat, n,
{
    if n > 0 {
        let c = d.children[n - 1];
        assert(d.children.take(n).drop_last() =~= d.children.take(n - 1));
        counted_by_status_among(d, n - 1);
        counted_by_status(c);
    }
}

/// The counts of a comparison, and of every directory and file in it, are the
/// numbers of files of each status that stand there.
pub proof fn counts_are_numbers_of_files(
    l: NodeModel,
    r: NodeModel,
    rel: Seq<Seq<char>>,
    f: DiffModel,
)
    requires
        match_laws::stands_at(compare::tree_diff(l, r), rel, f),
    ensures
        counts_match(f.counts, |s: Status| files_with(f, s)),
{
    compare_laws::diff_aggregates(l, r);
    aggregates_below(compare::tree_diff(l, r), rel, f);
    counted_by_status(f);
}

proof fn aggregates_below(d: DiffModel, rel: Seq<Seq<char>>, f: DiffModel)
    requires
        compare_laws::aggregates(d),
        match_laws::stands_at(d, rel, f),
    ensures
        compare_laws::aggregates(f),
    decreases rel.len(),
{
    if rel.len() > 0 {
        let i = match_laws::first_step(d, rel, f);
        aggregates_below(d.children[i], rel.drop_first(), f);
    }
}

/// A count is in sync if no file differs, and what differs is the sum of all but
/// the identical files.
pub proof fn what_differs_is_not_identical(t: Tally, u: Tally)
    ensures
        t.in_sync() <==> t.left_newer + t.right_newer + t.different + t.left_only + t.right_only
            == 0,
        t.differing() == t.left_newer + t.right_newer + t.different + t.left_only + t.right_only,
        t.plus(u).differing() == t.differing() + u.differing(),
        t.plus(u).identical == t.identical + u.identical,
        t.fits() <==> t.identical < 0x1_0000_0000_0000_0000 && t.left_newer
            < 0x1_0000_0000_0000_0000 && t.right_newer < 0x1_0000_0000_0000_0000 && t.different
            < 0x1_0000_0000_0000_0000 && t.left_only < 0x1_0000_0000_0000_0000 && t.right_only
            < 0x1_0000_0000_0000_0000,
{
}

/// One file counts once, under its own status.
pub proof fn one_file_counts_once(s: Status)
    ensures
        counts_match(
            Tally::one(s),
            |x: Status|
                if x == s {
                    1nat
                } else {
                    0nat
                },
        ),
{
}

} // verus!
