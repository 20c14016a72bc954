//! What holds of every listing, printed or shown.

use vstd::prelude::*;
use crate::compare;
use crate::compare::{DiffModel, Status};
use crate::compare_laws;
use crate::match_laws;
use crate::model;
use crate::model::NodeModel;
use crate::report;
use crate::scan_laws;
use crate::text;
use crate::window;

verus! {

proof fn sync_of_parts(s: Seq<DiffModel>, i: int)
    requires
        0 <= i < s.len(),
        compare::sum_counts(s).in_sync(),
    ensures
        s[i].counts.in_sync(),
    decreases s.len(),
{
    if i < s.len() - 1 {
        assert(s.drop_last()[i] == s[i]);
        sync_of_parts(s.drop_last(), i);
    }
}

/// A directory with nothing that differs prints no line by default.
pub proof fn in_sync_prints_nothing(d: DiffModel, indent: nat, max_depth: nat)
    requires
        d.is_dir,
        compare_laws::aggregates(d),
        d.counts.in_sync(),
    ensures
        report::lines_of_all(d.children, indent, max_depth, false) == Seq::<Seq<char>>::empty(),
{
    assert(d.children.take(d.children.len() as int) =~= d.children);
    prefix_prints_nothing(d, indent, max_depth, d.children.len() as int);
}

proof fn prefix_prints_nothing(d: DiffModel, indent: nat, max_depth: nat, n: int)
    requires
        d.is_dir,
        compare_laws::aggregates(d),
        d.counts.in_sync(),
        0 <= n <= d.children.len(),
    ensures
        report::lines_of_all(d.children.take(n), indent, max_depth, false) == Seq::<
            Seq<char>,
        >::empty(),
    decreases n,
{
    if n > 0 {
        let s = d.children.take(n);
        assert(s.drop_last() =~= d.children.take(n - 1));
        prefix_prints_nothing(d, indent, max_depth, n - 1);
        sync_of_parts(d.children, n - 1);
        assert(report::lines_of(s.last(), indent, max_depth, false) =~= Seq::<Seq<char>>::empty());
        assert(report::lines_of_all(s, indent, max_depth, false) =~= Seq::<Seq<char>>::empty());
    }
}

proof fn lines_hold(
    s: Seq<DiffModel>,
    indent: nat,
    max_depth: nat,
    all: bool,
    i: int,
    line: Seq<char>,
)
    requires
        0 <= i < s.len(),
        report::lines_of(s[i], indent, max_depth, all).contains(line),
    ensures
        report::lines_of_all(s, indent, max_depth, all).contains(line),
    decreases s.len(),
{
    let a = report::lines_of_all(s.drop_last(), indent, max_depth, all);
    let b = report::lines_of(s.last(), indent, max_depth, all);
    if i < s.len() - 1 {
        assert(s.drop_last()[i] == s[i]);
        lines_hold(s.drop_last(), indent, max_depth, all, i, line);
        let j = a.index_of(line);
        assert((a + b)[j] == line);
    } else {
        let j = b.index_of(line);
        assert((a + b)[a.len() + j] == line);
    }
}

/// Every file that differs is printed, as far down as the depth allows, with
/// its marker and its name; with `all`, every other file is too.
pub proof fn every_difference_has_a_line(
    d: DiffModel,
    rel: Seq<Seq<char>>,
    f: DiffModel,
    indent: nat,
    max_depth: nat,
    all: bool,
)
    requires
        compare_laws::aggregates(d),
        match_laws::stands_at(d, rel, f),
        rel.len() > 0,
        !f.is_dir,
        all || f.status != Status::Identical,
        indent + rel.len() <= max_depth,
    ensures
        report::lines_of_all(d.children, indent, max_depth, all).contains(
            report::file_line(f, (indent + rel.len() - 1) as nat),
        ),
    decreases rel.len(),
{
    let i = choose|i: int|
        0 <= i < d.children.len() && (#[trigger] d.children[i]).name == rel[0]
            && match_laws::stands_at(d.children[i], rel.drop_first(), f);
    let c = d.children[i];
    let rest = rel.drop_first();
    let line = report::file_line(f, (indent + rel.len() - 1) as nat);
    assert(compare_laws::aggregates(c));
    shown_if_differing(c, rest, f);
    let lines = report::lines_of(c, indent, max_depth, all);
    if rest.len() == 0 {
        assert(lines[0] == line);
    } else {
        every_difference_has_a_line(c, rest, f, indent + 1, max_depth, all);
        let below = report::lines_of_all(c.children, indent + 1, max_depth, all);
        let j = below.index_of(line);
        assert(lines == seq![report::dir_line(c, indent)] + below);
        assert(lines[1 + j] == line);
    }
    lines_hold(d.children, indent, max_depth, all, i, line);
}

/// What holds a file that differs is not in sync.
proof fn shown_if_differing(d: DiffModel, rel: Seq<Seq<char>>, f: DiffModel)
    requires
        compare_laws::aggregates(d),
        match_laws::stands_at(d, rel, f),
        !f.is_dir,
    ensures
        f.status != Status::Identical ==> !d.counts.in_sync(),
    decreases rel.len(),
{
    if rel.len() > 0 {
        let i = choose|i: int|
            0 <= i < d.children.len() && (#[trigger] d.children[i]).name == rel[0]
                && match_laws::stands_at(d.children[i], rel.drop_first(), f);
        let c = d.children[i];
        assert(compare_laws::aggregates(c));
        shown_if_differing(c, rel.drop_first(), f);
        if d.counts.in_sync() {
            sync_of_parts(d.children, i);
        }
    }
}

/// A pane lists exactly the entries of its kind that are shown, in their order.
pub proof fn rows_are_the_shown(s: Seq<DiffModel>, dirs: bool, show_identical: bool)
    ensures
        forall|i: int| #[trigger]
            window::rows(s, dirs, show_identical).contains(i) <==> 0 <= i < s.len()
                && s[i].is_dir == dirs && window::is_shown(s[i], show_identical),
        forall|j: int, k: int|
            0 <= j < k < window::rows(s, dirs, show_identical).len() ==> (#[trigger] window::rows(
                s,
                dirs,
                show_identical,
            )[j]) < (#[trigger] window::rows(s, dirs, show_identical)[k]),
        forall|j: int|
            0 <= j < window::rows(s, dirs, show_identical).len() ==> (#[trigger] window::rows(
                s,
                dirs,
                show_identical,
            )[j]) < s.len(),
    decreases s.len(),
{
    let all = window::rows(s, dirs, show_identical);
    if s.len() > 0 {
        let front = s.drop_last();
        let before = window::rows(front, dirs, show_identical);
        rows_are_the_shown(front, dirs, show_identical);
        assert forall|i: int| #[trigger] all.contains(i) <==> 0 <= i < s.len() && s[i].is_dir
            == dirs && window::is_shown(s[i], show_identical) by {
            if i < front.len() {
                assert(i >= 0 ==> front[i] == s[i]);
            }
            assert(before.contains(i) <==> 0 <= i < front.len() && front[i].is_dir == dirs
                && window::is_shown(front[i], show_identical));
            if all != before {
                assert(all == before.push(s.len() - 1));
                if before.contains(i) {
                    let j = before.index_of(i);
                    assert(all[j] == i);
                }
                if i == s.len() - 1 {
                    assert(all[before.len() as int] == i);
                }
                if all.contains(i) && i != s.len() - 1 {
                    let j = all.index_of(i);
                    assert(before[j] == i);
                }
            }
        }
    }
}

/// A file that differs is within reach: every directory on the way to it is
/// listed in the tree pane.
pub proof fn differences_are_within_reach(
    d: DiffModel,
    rel: Seq<Seq<char>>,
    f: DiffModel,
    show_identical: bool,
)
    requires
        compare_laws::aggregates(d),
        match_laws::stands_at(d, rel, f),
        rel.len() > 0,
        !f.is_dir,
        f.status != Status::Identical,
    ensures
        exists|i: int|
            0 <= i < d.children.len() && (#[trigger] d.children[i]).name == rel[0]
                && match_laws::stands_at(d.children[i], rel.drop_first(), f)
                && window::rows(d.children, rel.len() > 1, show_identical).contains(i),
{
    let i = choose|i: int|
        0 <= i < d.children.len() && (#[trigger] d.children[i]).name == rel[0]
            && match_laws::stands_at(d.children[i], rel.drop_first(), f);
    let c = d.children[i];
    assert(compare_laws::aggregates(c));
    shown_if_differing(c, rel.drop_first(), f);
    rows_are_the_shown(d.children, rel.len() > 1, show_identical);
    assert(window::rows(d.children, rel.len() > 1, show_identical).contains(i));
}

/// The first directory of a name is an entry, and there is one if any entry
/// is a directory of that name.
proof fn dir_from_finds(s: Seq<DiffModel>, name: Seq<char>, from: int, i: int)
    requires
        0 <= from <= i < s.len(),
        s[i].is_dir,
        s[i].name == name,
    ensures
        window::dir_from(s, name, from) matches Some(y) && s.contains(y) && y.is_dir && y.name
            == name,
    decreases i - from,
{
    if s[from].is_dir && s[from].name == name {
        assert(s.contains(s[from]));
    } else {
        dir_from_finds(s, name, from + 1, i);
    }
}

/// Of two directories with the same name among the entries of a diff there is
/// but one.
proof fn one_directory_of_a_name(l: NodeModel, r: NodeModel, x: DiffModel, y: DiffModel)
    requires
        scan_laws::is_scanned(l),
        scan_laws::is_scanned(r),
        compare::tree_diff(l, r).children.contains(x),
        compare::tree_diff(l, r).children.contains(y),
        x.is_dir,
        y.is_dir,
        x.name == y.name,
    ensures
        x == y,
{
    match_laws::entries_are_matched_by_key(l, r, x);
    match_laws::entries_are_matched_by_key(l, r, y);
}

proof fn selectable_alone(n: NodeModel, status: Status, rel: Seq<Seq<char>>, f: DiffModel)
    requires
        scan_laws::is_scanned(n),
        match_laws::stands_at(compare::one_sided_diff(n, status), rel, f),
        f.is_dir,
    ensures
        window::node_of(compare::one_sided_diff(n, status), rel) == Some(f),
    decreases rel.len(),
{
    if rel.len() > 0 {
        let d = compare::one_sided_diff(n, status);
        let i = match_laws::first_step(d, rel, f);
        let x = d.children[i];
        assert(x.is_dir);
        dir_from_finds(d.children, rel[0], 0, i);
        let y = window::dir_from(d.children, rel[0], 0)->0;
        match_laws::alone_by_key(n, status, x);
        match_laws::alone_by_key(n, status, y);
        let key = text::lowercase(x.name);
        match_laws::child_is_scanned(n, key);
        selectable_alone(model::lookup(n.children, key)->0, status, rel.drop_first(), f);
    }
}

/// A directory below one side of a type mismatch can be selected.
proof fn selectable_below_a_clash(
    n: NodeModel,
    side: Status,
    rel: Seq<Seq<char>>,
    f: DiffModel,
)
    requires
        scan_laws::is_scanned(n),
        match_laws::stands_at(compare::clash_diff(n, side), rel, f),
        f.is_dir,
    ensures
        window::node_of(compare::clash_diff(n, side), rel) == Some(f),
{
    if rel.len() > 0 {
        match_laws::below_a_clash(n, side, rel, f);
        selectable_alone(n, side, rel, f);
    }
}

/// Every directory of a diff can be selected: the names on the way to it lead
/// to it and to no other.
pub proof fn every_directory_can_be_selected(
    l: NodeModel,
    r: NodeModel,
    rel: Seq<Seq<char>>,
    f: DiffModel,
)
    requires
        scan_laws::is_scanned(l),
        scan_laws::is_scanned(r),
        match_laws::stands_at(compare::tree_diff(l, r), rel, f),
        f.is_dir,
    ensures
        window::node_of(compare::tree_diff(l, r), rel) == Some(f),
    decreases rel.len(),
{
    if rel.len() > 0 {
        let d = compare::tree_diff(l, r);
        let i = match_laws::first_step(d, rel, f);
        let x = d.children[i];
        let rest = rel.drop_first();
        let key = text::lowercase(x.name);
        assert(x.is_dir);
        dir_from_finds(d.children, rel[0], 0, i);
        let y = window::dir_from(d.children, rel[0], 0)->0;
        one_directory_of_a_name(l, r, x, y);
        match_laws::entries_are_matched_by_key(l, r, x);
        let lt = model::lookup(l.children, key);
        let rt = model::lookup(r.children, key);
        if lt is Some {
            match_laws::child_is_scanned(l, key);
        }
        if rt is Some {
            match_laws::child_is_scanned(r, key);
        }
        match (lt, rt) {
            (Some(ln), None) => selectable_alone(ln, Status::LeftOnly, rest, f),
            (Some(ln), Some(rn)) => if ln.is_dir && rn.is_dir {
                every_directory_can_be_selected(ln, rn, rest, f);
            } else if ln.is_dir {
                selectable_below_a_clash(ln, Status::LeftOnly, rest, f);
            } else {
                selectable_below_a_clash(rn, Status::RightOnly, rest, f);
            },
            (None, Some(rn)) => selectable_alone(rn, Status::RightOnly, rest, f),
            (None, None) => {},
        }
    }
}

} // verus!
