//! How a diff reflects the two trees: files are matched by their names without
//! regard to case.

use vstd::prelude::*;
use crate::compare;
use crate::compare::{DiffModel, Status};
use crate::compare_laws;
use crate::display_order;
use crate::model;
use crate::model::{ChildModel, Meta, NodeModel};
use crate::scan_laws;
use crate::text;

verus! {

/// `f` stands at the path `rel` below `d`, and everything above it is a
/// directory.
pub open spec fn stands_at(d: DiffModel, rel: Seq<Seq<char>>, f: DiffModel) -> bool
    decreases rel.len(),
{
    if rel.len() == 0 {
        d == f
    } else {
        d.is_dir && exists|i: int|
            0 <= i < d.children.len() && (#[trigger] d.children[i]).name == rel[0] && stands_at(
                d.children[i],
                rel.drop_first(),
                f,
            )
    }
}

pub(crate) proof fn one_step_down(d: DiffModel, i: int, rel: Seq<Seq<char>>, f: DiffModel)
    requires
        d.is_dir,
        0 <= i < d.children.len(),
        stands_at(d.children[i], rel, f),
    ensures
        stands_at(d, seq![d.children[i].name] + rel, f),
{
    let down = seq![d.children[i].name] + rel;
    assert(down.drop_first() =~= rel);
    assert(d.children[i].name == down[0]);
}

/// The metadata of the file that the keys lead to through directories.
pub open spec fn file_at(n: NodeModel, keys: Seq<Seq<char>>) -> Option<Meta>
    decreases keys.len(),
{
    if keys.len() == 0 {
        None
    } else {
        match model::lookup(n.children, keys[0]) {
            None => None,
            Some(c) => if keys.len() == 1 {
                if c.is_dir {
                    None
                } else {
                    Some(c.meta)
                }
            } else if c.is_dir {
                file_at(c, keys.drop_first())
            } else {
                None
            },
        }
    }
}

/// The keys lead through directories to a directory. No keys lead to the root,
/// which is taken for one.
pub open spec fn dir_at(n: NodeModel, keys: Seq<Seq<char>>) -> bool
    decreases keys.len(),
{
    keys.len() > 0 ==> (model::lookup(n.children, keys[0]) matches Some(c) && c.is_dir && dir_at(
        c,
        keys.drop_first(),
    ))
}

/// The keys lead to a directory, or else to a file.
pub open spec fn is_at(n: NodeModel, keys: Seq<Seq<char>>, is_dir: bool) -> bool {
    if is_dir {
        dir_at(n, keys)
    } else {
        file_at(n, keys) is Some
    }
}

/// Where one tree has a file the other has no directory.
pub open spec fn no_dir_for_file(a: NodeModel, b: NodeModel) -> bool {
    forall|keys: Seq<Seq<char>>| #[trigger]
        file_at(a, keys) is Some ==> !dir_at(b, keys)
}

/// No path is a file in one tree and a directory in the other.
pub open spec fn same_kinds(a: NodeModel, b: NodeModel) -> bool {
    no_dir_for_file(a, b) && no_dir_for_file(b, a)
}

/// What a left entry in the diff can come from.
pub(crate) proof fn left_entry_origin(
    ls: Seq<ChildModel>,
    rs: Seq<ChildModel>,
    x: DiffModel,
) -> (i: int)
    requires
        compare::left_diffs(ls, rs).contains(x),
    ensures
        0 <= i < ls.len(),
        compare::pair_diffs(ls[i].node, model::lookup(rs, ls[i].key)).contains(x),
    decreases ls.len(),
{
    let front = ls.drop_last();
    let a = compare::left_diffs(front, rs);
    let b = compare::pair_diffs(ls.last().node, model::lookup(rs, ls.last().key));
    let j = (a + b).index_of(x);
    if j < a.len() {
        assert(a[j] == x);
        let i = left_entry_origin(front, rs, x);
        assert(front[i] == ls[i]);
        i
    } else {
        assert(b[j - a.len()] == x);
        ls.len() - 1
    }
}

pub(crate) proof fn one_sided_origin(s: Seq<ChildModel>, status: Status, x: DiffModel) -> (i: int)
    requires
        compare::one_sided_diffs(s, status).contains(x),
    ensures
        0 <= i < s.len(),
        x == compare::one_sided_diff(s[i].node, status),
    decreases s.len(),
{
    let front = s.drop_last();
    let a = compare::one_sided_diffs(front, status);
    let j = compare::one_sided_diffs(s, status).index_of(x);
    if j < a.len() {
        assert(a[j] == x);
        let i = one_sided_origin(front, status, x);
        assert(front[i] == s[i]);
        i
    } else {
        s.len() - 1
    }
}

pub(crate) proof fn unmatched_origin(rs: Seq<ChildModel>, ls: Seq<ChildModel>, i: int) -> (j: int)
    requires
        0 <= i < compare::unmatched(rs, ls).len(),
    ensures
        0 <= j < rs.len(),
        rs[j] == compare::unmatched(rs, ls)[i],
        model::lookup(ls, rs[j].key) is None,
    decreases rs.len(),
{
    let front = rs.drop_last();
    if i < compare::unmatched(front, ls).len() {
        let j = unmatched_origin(front, ls, i);
        assert(front[j] == rs[j]);
        j
    } else {
        rs.len() - 1
    }
}

proof fn one_sided_holds(s: Seq<ChildModel>, status: Status, i: int)
    requires
        0 <= i < s.len(),
    ensures
        compare::one_sided_diffs(s, status).contains(compare::one_sided_diff(s[i].node, status)),
    decreases s.len(),
{
    let x = compare::one_sided_diff(s[i].node, status);
    let front = s.drop_last();
    let a = compare::one_sided_diffs(front, status);
    let all = compare::one_sided_diffs(s, status);
    if i < front.len() {
        assert(front[i] == s[i]);
        one_sided_holds(front, status, i);
        let j = a.index_of(x);
        assert(all[j] == x);
    } else {
        assert(all[a.len() as int] == x);
    }
}

/// The entries of a diff for what the two sides have under a key.
pub open spec fn entries_under(l: NodeModel, r: NodeModel, key: Seq<char>) -> Seq<DiffModel> {
    match (model::lookup(l.children, key), model::lookup(r.children, key)) {
        (Some(ln), there) => compare::pair_diffs(ln, there),
        (None, Some(rn)) => seq![compare::one_sided_diff(rn, Status::RightOnly)],
        (None, None) => Seq::empty(),
    }
}

/// What stands under a key of a scanned tree is a scanned tree of that name.
pub(crate) proof fn child_is_scanned(n: NodeModel, key: Seq<char>)
    requires
        scan_laws::is_scanned(n),
        model::lookup(n.children, key) is Some,
    ensures
        scan_laws::is_scanned(model::lookup(n.children, key)->0),
        text::lowercase((model::lookup(n.children, key)->0).name) == key,
{
    model::found_is_entry(n.children, key);
    let p = model::place(n.children, key);
    assert(n.children[p].key == text::lowercase(n.children[p].node.name));
    assert(n.children[p].node.wf());
}

/// The entries under a key have names that read the key in lower case.
pub(crate) proof fn entries_read_their_key(
    l: NodeModel,
    r: NodeModel,
    key: Seq<char>,
    x: DiffModel,
)
    requires
        scan_laws::is_scanned(l),
        scan_laws::is_scanned(r),
        entries_under(l, r, key).contains(x),
    ensures
        text::lowercase(x.name) == key,
{
    if model::lookup(l.children, key) is Some {
        child_is_scanned(l, key);
    }
    if model::lookup(r.children, key) is Some {
        child_is_scanned(r, key);
    }
}

/// A diff holds, for each key of either side, the entries for what the two
/// sides have under it, and no other entries.
pub proof fn entries_are_matched_by_key(l: NodeModel, r: NodeModel, x: DiffModel)
    requires
        scan_laws::is_scanned(l),
        scan_laws::is_scanned(r),
    ensures
        compare::tree_diff(l, r).children.contains(x) <==> entries_under(
            l,
            r,
            text::lowercase(x.name),
        ).contains(x),
{
    let ls = l.children;
    let rs = r.children;
    let key = text::lowercase(x.name);
    let a = compare::left_diffs(ls, rs);
    let u = compare::unmatched(rs, ls);
    let b = compare::one_sided_diffs(u, Status::RightOnly);
    display_order::listing_holds(a + b, x);
    if (a + b).contains(x) {
        let at = (a + b).index_of(x);
        if at < a.len() {
            assert(a[at] == x);
            let p = left_entry_origin(ls, rs, x);
            model::entry_is_found(ls, p);
            entries_read_their_key(l, r, ls[p].key, x);
        } else {
            assert(b[at - a.len()] == x);
            let ui = one_sided_origin(u, Status::RightOnly, x);
            let j = unmatched_origin(rs, ls, ui);
            model::entry_is_found(rs, j);
            assert(entries_under(l, r, rs[j].key)[0] == x);
            entries_read_their_key(l, r, rs[j].key, x);
        }
    }
    if entries_under(l, r, key).contains(x) {
        if model::lookup(ls, key) is Some {
            model::found_is_entry(ls, key);
            compare_laws::left_children_are_listed(l, r, model::place(ls, key), x);
        } else {
            model::found_is_entry(rs, key);
            compare_laws::right_children_are_listed(l, r, model::place(rs, key));
        }
    }
}

/// A one-sided subtree holds an entry for each key, and no other entries.
pub(crate) proof fn alone_by_key(n: NodeModel, status: Status, x: DiffModel)
    requires
        scan_laws::is_scanned(n),
    ensures
        compare::one_sided_diff(n, status).children.contains(x) <==> (model::lookup(
            n.children,
            text::lowercase(x.name),
        ) matches Some(c) && x == compare::one_sided_diff(c, status)),
{
    let key = text::lowercase(x.name);
    let all = compare::one_sided_diffs(n.children, status);
    display_order::listing_holds(all, x);
    if all.contains(x) {
        let p = one_sided_origin(n.children, status, x);
        model::entry_is_found(n.children, p);
        assert(n.children[p].key == text::lowercase(n.children[p].node.name));
    }
    if let Some(c) = model::lookup(n.children, key) {
        model::found_is_entry(n.children, key);
        one_sided_holds(n.children, status, model::place(n.children, key));
    }
}

/// What lies below one side of a type mismatch is what that side has there.
pub(crate) proof fn below_a_clash(
    n: NodeModel,
    side: Status,
    rel: Seq<Seq<char>>,
    f: DiffModel,
)
    requires
        rel.len() > 0,
    ensures
        stands_at(compare::clash_diff(n, side), rel, f) <==> stands_at(
            compare::one_sided_diff(n, side),
            rel,
            f,
        ),
{
    let d = compare::clash_diff(n, side);
    let e = compare::one_sided_diff(n, side);
    assert(d.children == e.children);
    if stands_at(d, rel, f) {
        let i = first_step(d, rel, f);
        assert(stands_at(e.children[i], rel.drop_first(), f));
    }
    if stands_at(e, rel, f) {
        let i = first_step(e, rel, f);
        assert(stands_at(d.children[i], rel.drop_first(), f));
    }
}

/// The entry that a path starts with.
pub(crate) proof fn first_step(d: DiffModel, rel: Seq<Seq<char>>, f: DiffModel) -> (i: int)
    requires
        rel.len() > 0,
        stands_at(d, rel, f),
    ensures
        d.is_dir,
        0 <= i < d.children.len(),
        d.children[i].name == rel[0],
        stands_at(d.children[i], rel.drop_first(), f),
        d.children.contains(d.children[i]),
{
    choose|i: int|
        0 <= i < d.children.len() && (#[trigger] d.children[i]).name == rel[0] && stands_at(
            d.children[i],
            rel.drop_first(),
            f,
        )
}

/// Everything below a one-sided subtree is what its side has there.
proof fn one_sided_reflects(n: NodeModel, status: Status, rel: Seq<Seq<char>>, f: DiffModel)
    requires
        scan_laws::is_scanned(n),
        status == Status::LeftOnly || status == Status::RightOnly,
        rel.len() > 0,
        stands_at(compare::one_sided_diff(n, status), rel, f),
    ensures
        n.is_dir,
        f.status == status,
        is_at(n, text::keys_of(rel), f.is_dir),
        ({
            let (own, other) = if status == Status::LeftOnly {
                (f.left, f.right)
            } else {
                (f.right, f.left)
            };
            &&& own is Some && other is None
            &&& !f.is_dir ==> own == file_at(n, text::keys_of(rel))
        }),
    decreases rel.len(),
{
    let d = compare::one_sided_diff(n, status);
    let i = first_step(d, rel, f);
    let x = d.children[i];
    alone_by_key(n, status, x);
    text::keys_step(rel);
    let c = model::lookup(n.children, text::lowercase(x.name))->0;
    child_is_scanned(n, text::lowercase(x.name));
    if rel.len() > 1 {
        one_sided_reflects(c, status, rel.drop_first(), f);
    } else {
        assert(dir_at(c, text::keys_of(rel.drop_first())));
    }
}

/// The status of what one side has and the other lacks: different, if the
/// other has something of the other kind there.
pub open spec fn alone_status(clashes: bool, side: Status) -> Status {
    if clashes {
        Status::Different
    } else {
        side
    }
}

/// A file or directory in the diff shows exactly what the two trees have under
/// its name: for a file the metadata of each side, and the status that follows
/// from them; for a directory the sides that have it. What one side lacks is
/// different if it has something of the other kind there, else it is on the
/// other side only.
pub proof fn diff_reflects_trees(l: NodeModel, r: NodeModel, rel: Seq<Seq<char>>, f: DiffModel)
    requires
        scan_laws::is_scanned(l),
        scan_laws::is_scanned(r),
        rel.len() > 0,
        stands_at(compare::tree_diff(l, r), rel, f),
    ensures
        ({
            let keys = text::keys_of(rel);
            &&& f.left is Some <==> is_at(l, keys, f.is_dir)
            &&& f.right is Some <==> is_at(r, keys, f.is_dir)
            &&& f.left is Some || f.right is Some
            &&& !f.is_dir ==> f.left == file_at(l, keys) && f.right == file_at(r, keys)
            &&& match (f.left, f.right) {
                (Some(a), Some(b)) => f.status == (if f.is_dir {
                    if f.counts.in_sync() {
                        Status::Identical
                    } else {
                        Status::Different
                    }
                } else {
                    compare::status_of_files(a, b)
                }),
                (Some(_), None) => f.status == alone_status(
                    is_at(r, keys, !f.is_dir),
                    Status::LeftOnly,
                ),
                (None, _) => f.status == alone_status(
                    is_at(l, keys, !f.is_dir),
                    Status::RightOnly,
                ),
            }
        }),
    decreases rel.len(),
{
    let d = compare::tree_diff(l, r);
    let keys = text::keys_of(rel);
    let rest = rel.drop_first();
    let i = first_step(d, rel, f);
    let x = d.children[i];
    let key = text::lowercase(x.name);
    text::keys_step(rel);
    entries_are_matched_by_key(l, r, x);
    let lt = model::lookup(l.children, key);
    let rt = model::lookup(r.children, key);
    if lt is Some {
        child_is_scanned(l, key);
    }
    if rt is Some {
        child_is_scanned(r, key);
    }
    if rel.len() == 1 {
        assert(text::keys_of(rest).len() == 0);
        assert(lt matches Some(ln) ==> dir_at(ln, text::keys_of(rest)));
        assert(rt matches Some(rn) ==> dir_at(rn, text::keys_of(rest)));
    }
    match (lt, rt) {
        (Some(ln), None) => {
            if rel.len() > 1 {
                one_sided_reflects(ln, Status::LeftOnly, rest, f);
            }
        },
        (None, Some(rn)) => {
            if rel.len() > 1 {
                one_sided_reflects(rn, Status::RightOnly, rest, f);
            }
        },
        (Some(ln), Some(rn)) => {
            if ln.is_dir != rn.is_dir {
                let a = compare::clash_diff(ln, Status::LeftOnly);
                if rel.len() > 1 {
                    if x == a {
                        below_a_clash(ln, Status::LeftOnly, rest, f);
                        one_sided_reflects(ln, Status::LeftOnly, rest, f);
                    } else {
                        below_a_clash(rn, Status::RightOnly, rest, f);
                        one_sided_reflects(rn, Status::RightOnly, rest, f);
                    }
                }
            } else if ln.is_dir && rel.len() > 1 {
                diff_reflects_trees(ln, rn, rest, f);
            }
        },
        (None, None) => {},
    }
}

/// A directory, or else a file, stands in the diff at a path with these keys.
pub open spec fn shows(d: DiffModel, keys: Seq<Seq<char>>, is_dir: bool) -> bool {
    exists|rel: Seq<Seq<char>>, f: DiffModel|
        #[trigger] stands_at(d, rel, f) && f.is_dir == is_dir && text::keys_of(rel) == keys
}

/// What an entry shows its directory shows too.
proof fn shown_below(d: DiffModel, x: DiffModel, keys: Seq<Seq<char>>, is_dir: bool)
    requires
        d.is_dir,
        d.children.contains(x),
        keys.len() > 0,
        text::lowercase(x.name) == keys[0],
        shows(x, keys.drop_first(), is_dir),
    ensures
        shows(d, keys, is_dir),
{
    let i = d.children.index_of(x);
    let (rel, f): (Seq<Seq<char>>, DiffModel) = choose|rel: Seq<Seq<char>>, f: DiffModel|
        #[trigger] stands_at(x, rel, f) && f.is_dir == is_dir && text::keys_of(rel)
            == keys.drop_first();
    one_step_down(d, i, rel, f);
    let down = seq![x.name] + rel;
    assert(down.drop_first() =~= rel);
    text::keys_step(down);
    let got = text::keys_of(down);
    assert(text::keys_of(rel).len() == rel.len());
    assert(down.len() == keys.len());
    assert forall|j: int| 0 <= j < keys.len() implies got[j] == keys[j] by {
        if j > 0 {
            assert(got[j] == got.drop_first()[j - 1]);
            assert(keys[j] == keys.drop_first()[j - 1]);
        }
    }
    assert(got =~= keys);
}

proof fn shows_itself(x: DiffModel, keys: Seq<Seq<char>>)
    requires
        keys.len() == 0,
    ensures
        shows(x, keys, x.is_dir),
{
    let rel = Seq::<Seq<char>>::empty();
    assert(stands_at(x, rel, x));
    assert(text::keys_of(rel) =~= keys);
}

proof fn one_sided_shows(n: NodeModel, status: Status, keys: Seq<Seq<char>>, is_dir: bool)
    requires
        scan_laws::is_scanned(n),
        n.is_dir || (keys.len() == 0 && !is_dir),
        keys.len() == 0 && n.is_dir == is_dir || keys.len() > 0 && is_at(n, keys, is_dir),
    ensures
        shows(compare::one_sided_diff(n, status), keys, is_dir),
        shows(compare::clash_diff(n, status), keys, is_dir),
    decreases keys.len(),
{
    let d = compare::one_sided_diff(n, status);
    let e = compare::clash_diff(n, status);
    if keys.len() == 0 {
        shows_itself(d, keys);
        shows_itself(e, keys);
    } else {
        let c = model::lookup(n.children, keys[0])->0;
        child_is_scanned(n, keys[0]);
        let x = compare::one_sided_diff(c, status);
        alone_by_key(n, status, x);
        if keys.len() == 1 {
            assert(keys.drop_first().len() == 0);
        }
        one_sided_shows(c, status, keys.drop_first(), is_dir);
        shown_below(d, x, keys, is_dir);
        shown_below(e, x, keys, is_dir);
    }
}

/// Every file and every directory of either tree shows in the diff under its
/// name.
pub proof fn everything_shows(l: NodeModel, r: NodeModel, keys: Seq<Seq<char>>, is_dir: bool)
    requires
        scan_laws::is_scanned(l),
        scan_laws::is_scanned(r),
        is_at(l, keys, is_dir) || is_at(r, keys, is_dir),
    ensures
        shows(compare::tree_diff(l, r), keys, is_dir),
    decreases keys.len(),
{
    let d = compare::tree_diff(l, r);
    if keys.len() == 0 {
        shows_itself(d, keys);
    } else {
        let k = keys[0];
        let rest = keys.drop_first();
        let lt = model::lookup(l.children, k);
        let rt = model::lookup(r.children, k);
        if lt is Some {
            child_is_scanned(l, k);
        }
        if rt is Some {
            child_is_scanned(r, k);
        }
        let pair = entries_under(l, r, k);
        let x = match (lt, rt) {
            (Some(ln), Some(rn)) => if ln.is_dir != rn.is_dir {
                if is_at(l, keys, is_dir) {
                    one_sided_shows(ln, Status::LeftOnly, rest, is_dir);
                    pair[0]
                } else {
                    one_sided_shows(rn, Status::RightOnly, rest, is_dir);
                    pair[1]
                }
            } else if ln.is_dir {
                everything_shows(ln, rn, rest, is_dir);
                pair[0]
            } else {
                shows_itself(pair[0], rest);
                pair[0]
            },
            (Some(ln), None) => {
                one_sided_shows(ln, Status::LeftOnly, rest, is_dir);
                pair[0]
            },
            (_, _) => {
                one_sided_shows(rt->0, Status::RightOnly, rest, is_dir);
                pair[0]
            },
        };
        assert(pair.contains(x));
        entries_read_their_key(l, r, k, x);
        entries_are_matched_by_key(l, r, x);
        shown_below(d, x, keys, is_dir);
    }
}

} // verus!
