//! What a plan holds, in which order, and what the books say of carrying it out.

use vstd::prelude::*;
use crate::compare;
use crate::compare::{DiffModel, Status, Tally};
use crate::match_laws;
use crate::model::NodeModel;
use crate::scan_laws;
use crate::sync;
use crate::sync::{Direction, OpModel, OutcomeModel, Progress};
use crate::text;

verus! {

/// A direction names its source and its destination, and what is due in it.
pub proof fn directions_name_their_sides<T>(l: T, r: T, t: Tally)
    ensures
        Direction::LeftToRight.source(l, r) == l,
        Direction::LeftToRight.destination(l, r) == r,
        Direction::RightToLeft.source(l, r) == r,
        Direction::RightToLeft.destination(l, r) == l,
        Direction::LeftToRight.due(t) == t.left_only + t.left_newer,
        Direction::RightToLeft.due(t) == t.right_only + t.right_newer,
{
}

/// A node is brought over from left to right, or from right to left, if only
/// that side has it, if it faces something of the other kind there, or if it is
/// a file that is newer there.
pub open spec fn goes_over(d: DiffModel, to_right: bool) -> bool {
    if to_right {
        ||| d.status == Status::LeftOnly
        ||| d.status == Status::Different && d.left is Some && d.right is None
        ||| d.status == Status::LeftNewer && !d.is_dir
    } else {
        ||| d.status == Status::RightOnly
        ||| d.status == Status::Different && d.right is Some && d.left is None
        ||| d.status == Status::RightNewer && !d.is_dir
    }
}

/// The nodes of a diff that are brought over.
pub open spec fn nodes_going_over(d: DiffModel, to_right: bool) -> nat
    decreases d, 0nat,
{
    (if goes_over(d, to_right) {
        1nat
    } else {
        0nat
    }) + (if d.is_dir {
        nodes_going_over_among(d.children, to_right)
    } else {
        0
    })
}

/// The nodes among and below the entries that are brought over.
pub open spec fn nodes_going_over_among(s: Seq<DiffModel>, to_right: bool) -> nat
    decreases s, 1nat,
{
    if s.len() == 0 {
        0
    } else {
        nodes_going_over_among(s.drop_last(), to_right) + nodes_going_over(s.last(), to_right)
    }
}

/// A plan holds one operation for each node that is brought over, and no more.
pub proof fn one_operation_for_each_node(
    d: DiffModel,
    l: Seq<Seq<char>>,
    r: Seq<Seq<char>>,
    dir: Direction,
)
    ensures
        sync::node_ops(d, l, r, dir).len() == nodes_going_over(d, dir == Direction::LeftToRight),
    decreases d, 1nat, 0int,
{
    if d.is_dir {
        one_operation_for_each_entry(d, l, r, dir, d.children.len() as int);
        assert(d.children.take(d.children.len() as int) =~= d.children);
    }
}

proof fn one_operation_for_each_entry(
    d: DiffModel,
    l: Seq<Seq<char>>,
    r: Seq<Seq<char>>,
    dir: Direction,
    n: int,
)
    requires
        0 <= n <= d.children.len(),
    ensures
        sync::children_ops(d.children.take(n), l, r, dir).len() == nodes_going_over_among(
            d.children.take(n),
            dir == Direction::LeftToRight,
        ),
    decreases d, 0nat, n,
{
    if n > 0 {
        let c = d.children[n - 1];
        assert(d.children.take(n).drop_last() =~= d.children.take(n - 1));
        one_operation_for_each_entry(d, l, r, dir, n - 1);
        one_operation_for_each_node(c, l.push(c.name), r.push(c.name), dir);
    }
}

/// One of the first `k` operations creates the directory at `dst`.
pub open spec fn created_before(ops: Seq<OpModel>, k: int, dst: Seq<Seq<char>>) -> bool {
    exists|j: int| 0 <= j < k && #[trigger] ops[j] == (OpModel::CreateDir { dst })
}

/// `f` stands at the names `rel` below `d`, and each directory on the way that is
/// missing on the destination side is created by one of the first `k`
/// operations.
pub open spec fn reached(
    ops: Seq<OpModel>,
    k: int,
    d: DiffModel,
    l: Seq<Seq<char>>,
    r: Seq<Seq<char>>,
    dir: Direction,
    rel: Seq<Seq<char>>,
    f: DiffModel,
) -> bool
    decreases rel.len(),
{
    if rel.len() == 0 {
        d == f
    } else {
        &&& d.is_dir
        &&& dir.is_missing(d) ==> created_before(ops, k, dir.destination(l, r))
        &&& exists|i: int|
            0 <= i < d.children.len() && (#[trigger] d.children[i]).name == rel[0] && reached(
                ops,
                k,
                d.children[i],
                l.push(rel[0]),
                r.push(rel[0]),
                dir,
                rel.drop_first(),
                f,
            )
    }
}

/// The way stays good among more operations.
proof fn reached_among_more(
    inner: Seq<OpModel>,
    m: int,
    ops: Seq<OpModel>,
    start: int,
    d: DiffModel,
    l: Seq<Seq<char>>,
    r: Seq<Seq<char>>,
    dir: Direction,
    rel: Seq<Seq<char>>,
    f: DiffModel,
)
    requires
        reached(inner, m, d, l, r, dir, rel, f),
        0 <= start,
        0 <= m < inner.len(),
        start + m < ops.len(),
        forall|j: int| 0 <= j <= m ==> ops[start + j] == #[trigger] inner[j],
    ensures
        reached(ops, start + m, d, l, r, dir, rel, f),
    decreases rel.len(),
{
    if rel.len() > 0 {
        if dir.is_missing(d) {
            let dst = dir.destination(l, r);
            let j = choose|j: int|
                0 <= j < m && #[trigger] inner[j] == (OpModel::CreateDir { dst });
            assert(ops[start + j] == inner[j]);
        }
        let i = choose|i: int|
            0 <= i < d.children.len() && (#[trigger] d.children[i]).name == rel[0] && reached(
                inner,
                m,
                d.children[i],
                l.push(rel[0]),
                r.push(rel[0]),
                dir,
                rel.drop_first(),
                f,
            );
        reached_among_more(
            inner,
            m,
            ops,
            start,
            d.children[i],
            l.push(rel[0]),
            r.push(rel[0]),
            dir,
            rel.drop_first(),
            f,
        );
    }
}

proof fn place_of(
    d: DiffModel,
    l: Seq<Seq<char>>,
    r: Seq<Seq<char>>,
    dir: Direction,
    k: int,
) -> (place: (Seq<Seq<char>>, DiffModel))
    requires
        0 <= k < sync::node_ops(d, l, r, dir).len(),
    ensures
        reached(sync::node_ops(d, l, r, dir), k, d, l, r, dir, place.0, place.1),
        dir.is_due(place.1),
        sync::node_ops(d, l, r, dir)[k] == sync::op_for(place.1, l + place.0, r + place.0, dir),
    decreases d,
{
    let ops = sync::node_ops(d, l, r, dir);
    let own = sync::own_ops(d, l, r, dir);
    if k < own.len() {
        let rel = Seq::<Seq<char>>::empty();
        assert(l + rel =~= l);
        assert(r + rel =~= r);
        assert(ops[k] == own[k]);
        (rel, d)
    } else {
        let below = sync::children_ops(d.children, l, r, dir);
        assert(d.children.take(d.children.len() as int) =~= d.children);
        let (n, m) = child_of(d, l, r, dir, d.children.len() as int, k - own.len());
        let c = d.children[n];
        let cl = l.push(c.name);
        let cr = r.push(c.name);
        let front = sync::children_ops(d.children.take(n), l, r, dir);
        let inner = sync::node_ops(c, cl, cr, dir);
        let (rel, f) = place_of(c, cl, cr, dir, m);
        let down = seq![c.name] + rel;
        let start = (own.len() + front.len()) as int;
        assert forall|j: int| 0 <= j <= m implies ops[start + j] == #[trigger] inner[j] by {
            assert(ops[start + j] == below[front.len() + j]);
        }
        assert(ops[start + m] == inner[m]);
        reached_among_more(inner, m, ops, start, c, cl, cr, dir, rel, f);
        assert(down.drop_first() =~= rel);
        assert(cl + rel =~= l + down);
        assert(cr + rel =~= r + down);
        if dir.is_missing(d) {
            assert(ops[0] == own[0]);
        }
        (down, f)
    }
}

/// The entry that an operation on the entries of a directory comes from, and
/// which of its operations it is.
proof fn child_of(
    d: DiffModel,
    l: Seq<Seq<char>>,
    r: Seq<Seq<char>>,
    dir: Direction,
    n: int,
    k: int,
) -> (found: (int, int))
    requires
        0 <= n <= d.children.len(),
        0 <= k < sync::children_ops(d.children.take(n), l, r, dir).len(),
    ensures
        0 <= found.0 < n,
        ({
            let c = d.children[found.0];
            let front = sync::children_ops(d.children.take(found.0), l, r, dir);
            let inner = sync::node_ops(c, l.push(c.name), r.push(c.name), dir);
            let all = sync::children_ops(d.children.take(n), l, r, dir);
            &&& 0 <= found.1 < inner.len()
            &&& k == front.len() + found.1
            &&& front.len() + inner.len() <= all.len()
            &&& forall|j: int|
                0 <= j < inner.len() ==> all[front.len() + j] == #[trigger] inner[j]
        }),
    decreases n,
{
    let s = d.children.take(n);
    let a = sync::children_ops(d.children.take(n - 1), l, r, dir);
    assert(s.drop_last() =~= d.children.take(n - 1));
    let all = sync::children_ops(s, l, r, dir);
    if k < a.len() {
        let found = child_of(d, l, r, dir, n - 1, k);
        let c = d.children[found.0];
        let front = sync::children_ops(d.children.take(found.0), l, r, dir);
        let inner = sync::node_ops(c, l.push(c.name), r.push(c.name), dir);
        assert forall|j: int| 0 <= j < inner.len() implies all[front.len() + j]
            == #[trigger] inner[j] by {
            assert(a[front.len() + j] == inner[j]);
        }
        found
    } else {
        (n - 1, k - a.len())
    }
}

/// A directory on the way to what an operation brings over.
proof fn on_the_way(
    ops: Seq<OpModel>,
    k: int,
    d: DiffModel,
    l: Seq<Seq<char>>,
    r: Seq<Seq<char>>,
    dir: Direction,
    rel: Seq<Seq<char>>,
    f: DiffModel,
    i: int,
) -> (g: DiffModel)
    requires
        reached(ops, k, d, l, r, dir, rel, f),
        0 <= i < rel.len(),
    ensures
        match_laws::stands_at(d, rel.take(i), g),
        g.is_dir,
        dir.is_missing(g) ==> created_before(ops, k, dir.destination(l, r) + rel.take(i)),
    decreases i,
{
    if i == 0 {
        assert(rel.take(0) =~= Seq::<Seq<char>>::empty());
        assert(dir.destination(l, r) + rel.take(0) =~= dir.destination(l, r));
        d
    } else {
        let n = choose|n: int|
            0 <= n < d.children.len() && (#[trigger] d.children[n]).name == rel[0] && reached(
                ops,
                k,
                d.children[n],
                l.push(rel[0]),
                r.push(rel[0]),
                dir,
                rel.drop_first(),
                f,
            );
        let rest = rel.drop_first();
        let g = on_the_way(
            ops,
            k,
            d.children[n],
            l.push(rel[0]),
            r.push(rel[0]),
            dir,
            rest,
            f,
            i - 1,
        );
        match_laws::one_step_down(d, n, rest.take(i - 1), g);
        assert(seq![rel[0]] + rest.take(i - 1) =~= rel.take(i));
        assert(dir.destination(l.push(rel[0]), r.push(rel[0])) + rest.take(i - 1)
            =~= dir.destination(l, r) + rel.take(i));
        g
    }
}

/// Operation `k` writes at `rel` below `root`, and each directory on the way that
/// the tree `there` lacks is created by an earlier operation.
pub open spec fn parents_come_first(
    ops: Seq<OpModel>,
    k: int,
    root: Seq<Seq<char>>,
    there: NodeModel,
    rel: Seq<Seq<char>>,
) -> bool {
    &&& rel.len() > 0
    &&& match ops[k] {
        OpModel::CreateDir { dst } => dst == root + rel,
        OpModel::Copy { dst, .. } => dst == root + rel,
    }
    &&& forall|i: int|
        0 < i < rel.len() && !match_laws::dir_at(there, text::keys_of(#[trigger] rel.take(i)))
            ==> created_before(ops, k, root + rel.take(i))
}

/// Every operation of a plan for two trees writes below the destination's root,
/// and each directory on the way that the destination tree lacks is created by
/// an earlier operation.
pub proof fn parents_are_created_first(
    left: NodeModel,
    right: NodeModel,
    l: Seq<Seq<char>>,
    r: Seq<Seq<char>>,
    dir: Direction,
    k: int,
)
    requires
        scan_laws::is_scanned(left),
        scan_laws::is_scanned(right),
        0 <= k < sync::node_ops(compare::tree_diff(left, right), l, r, dir).len(),
    ensures
        dir == Direction::LeftToRight ==> exists|rel: Seq<Seq<char>>| #[trigger]
            parents_come_first(
                sync::node_ops(compare::tree_diff(left, right), l, r, dir),
                k,
                r,
                right,
                rel,
            ),
        dir == Direction::RightToLeft ==> exists|rel: Seq<Seq<char>>| #[trigger]
            parents_come_first(
                sync::node_ops(compare::tree_diff(left, right), l, r, dir),
                k,
                l,
                left,
                rel,
            ),
{
    let d = compare::tree_diff(left, right);
    let ops = sync::node_ops(d, l, r, dir);
    let there = dir.destination(left, right);
    let root = dir.destination(l, r);
    let (rel, f) = place_of(d, l, r, dir, k);
    assert(rel.len() > 0);
    assert forall|i: int| 0 < i < rel.len() && !match_laws::dir_at(
        there,
        text::keys_of(#[trigger] rel.take(i)),
    ) implies created_before(ops, k, root + rel.take(i)) by {
        let g = on_the_way(ops, k, d, l, r, dir, rel, f, i);
        match_laws::diff_reflects_trees(left, right, rel.take(i), g);
        assert(dir.is_missing(g));
    }
    assert(parents_come_first(ops, k, root, there, rel));
}

/// What a plan copies adds up: a copy is one file with its bytes, the creation of
/// a directory is none.
pub proof fn copies_add_up(ops: Seq<OpModel>, op: OpModel)
    ensures
        sync::copied_files(Seq::empty()) == 0,
        sync::copied_bytes(Seq::empty()) == 0,
        op is CreateDir ==> sync::copied_files(ops.push(op)) == sync::copied_files(ops)
            && sync::copied_bytes(ops.push(op)) == sync::copied_bytes(ops),
        op matches OpModel::Copy { size, .. } ==> sync::copied_files(ops.push(op))
            == sync::copied_files(ops) + 1 && sync::copied_bytes(ops.push(op))
            == sync::copied_bytes(ops) + size,
{
    assert(ops.push(op).drop_last() =~= ops);
}

/// The books change by what was done: a copy that went well adds one file and its
/// bytes; whatever failed adds one error, with its message, under the path of
/// the source of a copy or of the directory; nothing else changes.
pub proof fn books_follow_what_was_done(
    o: OutcomeModel,
    dst: Seq<Seq<char>>,
    src: Seq<Seq<char>>,
    size: u64,
    e: Seq<char>,
)
    ensures
        ({
            let made = sync::after_op(o, OpModel::CreateDir { dst }, None);
            &&& made.copied_files == o.copied_files
            &&& made.copied_bytes == o.copied_bytes
            &&& made.errors == o.errors
        }),
        ({
            let failed = sync::after_op(o, OpModel::CreateDir { dst }, Some(e));
            &&& failed.copied_files == o.copied_files
            &&& failed.copied_bytes == o.copied_bytes
            &&& failed.errors == o.errors.push((dst, e))
        }),
        ({
            let copied = sync::after_op(o, OpModel::Copy { src, dst, size }, None);
            &&& copied.copied_files == o.copied_files + 1
            &&& copied.copied_bytes == o.copied_bytes + size
            &&& copied.errors == o.errors
        }),
        ({
            let failed = sync::after_op(o, OpModel::Copy { src, dst, size }, Some(e));
            &&& failed.copied_files == o.copied_files
            &&& failed.copied_bytes == o.copied_bytes
            &&& failed.errors == o.errors.push((src, e))
        }),
        sync::nothing_done().copied_files == 0,
        sync::nothing_done().copied_bytes == 0,
        sync::nothing_done().errors.len() == 0,
{
}

/// The operations follow the listing: those of a directory start with its own, if
/// it is brought over, and go on with those of its entries, each at the path of
/// the directory and its own name.
pub proof fn operations_follow_the_listing(
    s: Seq<DiffModel>,
    d: DiffModel,
    l: Seq<Seq<char>>,
    r: Seq<Seq<char>>,
    dir: Direction,
)
    ensures
        sync::children_ops(Seq::empty(), l, r, dir).len() == 0,
        sync::children_ops(s.push(d), l, r, dir) == sync::children_ops(s, l, r, dir)
            + sync::node_ops(d, l.push(d.name), r.push(d.name), dir),
        d.is_dir && goes_over(d, dir == Direction::LeftToRight) ==> sync::node_ops(d, l, r, dir)
            == seq![
            OpModel::CreateDir {
                dst: if dir == Direction::LeftToRight {
                    r
                } else {
                    l
                },
            },
        ] + sync::children_ops(d.children, l, r, dir),
        d.is_dir && !goes_over(d, dir == Direction::LeftToRight) ==> sync::node_ops(d, l, r, dir)
            == sync::children_ops(d.children, l, r, dir),
        !d.is_dir && !goes_over(d, dir == Direction::LeftToRight) ==> sync::node_ops(
            d,
            l,
            r,
            dir,
        ).len() == 0,
{
    assert(s.push(d).drop_last() =~= s);
    let below = sync::children_ops(d.children, l, r, dir);
    assert(Seq::<OpModel>::empty() + below =~= below);
}

/// A file that is brought over is copied from its path on one side to its path on
/// the other, with the size that it has where it comes from.
pub proof fn files_are_copied_to_the_other_side(
    d: DiffModel,
    l: Seq<Seq<char>>,
    r: Seq<Seq<char>>,
)
    requires
        !d.is_dir,
    ensures
        goes_over(d, true) ==> (d.left matches Some(m) ==> sync::node_ops(
            d,
            l,
            r,
            Direction::LeftToRight,
        ) == seq![OpModel::Copy { src: l, dst: r, size: m.size }]),
        goes_over(d, false) ==> (d.right matches Some(m) ==> sync::node_ops(
            d,
            l,
            r,
            Direction::RightToLeft,
        ) == seq![OpModel::Copy { src: r, dst: l, size: m.size }]),
{
}

/// Progress is reported after each file, whether it was copied or not, and never
/// after a directory: with what the books say by then, with the totals of the
/// plan, and with where the file was to go.
pub proof fn progress_tells_the_books(
    o: OutcomeModel,
    src: Seq<Seq<char>>,
    dst: Seq<Seq<char>>,
    size: u64,
    total_files: u64,
    total_bytes: u64,
    p: Option<Progress>,
)
    ensures
        sync::reported(o, OpModel::CreateDir { dst }, total_files, total_bytes, p) ==> p is None,
        sync::reported(o, OpModel::Copy { src, dst, size }, total_files, total_bytes, p) ==> {
            &&& p is Some
            &&& p->0.done_files == o.copied_files
            &&& p->0.done_bytes == o.copied_bytes
            &&& p->0.total_files == total_files
            &&& p->0.total_bytes == total_bytes
            &&& p->0.current@ == dst
        },
{
}

} // verus!
