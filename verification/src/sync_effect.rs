//! What a sync does to the destination tree when every operation succeeds:
//! afterwards the destination lacks nothing that the source has, unless
//! something of another kind stands in the way.

use vstd::prelude::*;
use crate::compare;
use crate::match_laws;
use crate::model;
use crate::model::{Meta, NodeModel};
use crate::scan::walk;
use crate::scan_laws;
use crate::sync;
use crate::sync::{Direction, OpModel};
use crate::sync_laws;
use crate::text;
use crate::tree_laws;

verus! {

/// Two trees, the paths of their roots, and the direction of a sync. `made`
/// gives the metadata that the system gives to a new directory at a path.
pub struct TreeSync {
    pub left: NodeModel,
    pub right: NodeModel,
    pub left_root: Seq<Seq<char>>,
    pub right_root: Seq<Seq<char>>,
    pub dir: Direction,
    pub made: spec_fn(Seq<Seq<char>>) -> Meta,
}

impl TreeSync {
    /// The trees are those of two scanned directories.
    pub open spec fn wf(self) -> bool {
        &&& scan_laws::is_scanned(self.left)
        &&& scan_laws::is_scanned(self.right)
        &&& self.left.is_dir
        &&& self.right.is_dir
    }

    pub open spec fn src(self) -> NodeModel {
        self.dir.source(self.left, self.right)
    }

    pub open spec fn dst(self) -> NodeModel {
        self.dir.destination(self.left, self.right)
    }

    /// The operations of the plan.
    pub open spec fn ops(self) -> Seq<OpModel> {
        sync::node_ops(
            compare::tree_diff(self.left, self.right),
            self.left_root,
            self.right_root,
            self.dir,
        )
    }

    /// A tree of the destination side after one operation: a directory is
    /// there, or a file with the size and modification time of its source.
    pub open spec fn after_one(self, t: NodeModel, op: OpModel) -> NodeModel {
        let src_len = self.dir.source(self.left_root, self.right_root).len() as int;
        let dst_len = self.dir.destination(self.left_root, self.right_root).len() as int;
        match op {
            OpModel::CreateDir { dst } => model::insert_path(
                t,
                dst.skip(dst_len),
                walk::leaf(dst.skip(dst_len), true, (self.made)(dst.skip(dst_len))),
            ),
            OpModel::Copy { src, dst, .. } => match match_laws::file_at(
                self.src(),
                text::keys_of(src.skip(src_len)),
            ) {
                Some(m) => model::insert_path(
                    t,
                    dst.skip(dst_len),
                    walk::leaf(dst.skip(dst_len), false, m),
                ),
                None => t,
            },
        }
    }

    /// The destination tree after the first `n` operations.
    pub open spec fn after(self, n: int) -> NodeModel
        decreases n,
    {
        if n <= 0 {
            self.dst()
        } else {
            self.after_one(self.after(n - 1), self.ops()[n - 1])
        }
    }

    /// The destination tree after all operations.
    pub open spec fn synced(self) -> NodeModel {
        self.after(self.ops().len() as int)
    }

    /// The same sync with the destination tree as it is after this one.
    pub open spec fn again(self) -> TreeSync {
        match self.dir {
            Direction::LeftToRight => TreeSync { right: self.synced(), ..self },
            Direction::RightToLeft => TreeSync { left: self.synced(), ..self },
        }
    }
}

/// The keys `a` lead to something above what the keys `b` lead to.
pub open spec fn lies_above(a: Seq<Seq<char>>, b: Seq<Seq<char>>) -> bool {
    a.len() < b.len() && b.take(a.len() as int) == a
}

proof fn above_below(a: Seq<Seq<char>>, b: Seq<Seq<char>>)
    requires
        a.len() > 0,
        b.len() > 0,
        a[0] == b[0],
    ensures
        lies_above(a, b) <==> lies_above(a.drop_first(), b.drop_first()),
        a == b <==> a.drop_first() == b.drop_first(),
{
    let x = a.drop_first();
    let y = b.drop_first();
    assert(a =~= seq![a[0]] + x);
    assert(b =~= seq![b[0]] + y);
    if a.len() < b.len() {
        assert(b.take(a.len() as int) =~= seq![a[0]] + y.take(x.len() as int));
        assert(y.take(x.len() as int) =~= b.take(a.len() as int).drop_first());
    }
}

/// A file stays where it is when something is inserted elsewhere, unless a
/// file is inserted above it.
proof fn file_kept(n: NodeModel, path: Seq<Seq<char>>, new: NodeModel, keys: Seq<Seq<char>>)
    requires
        n.wf(),
        path.len() > 0,
        match_laws::file_at(n, keys) is Some,
        text::keys_of(path) != keys,
        new.is_dir || !lies_above(text::keys_of(path), keys),
    ensures
        match_laws::file_at(model::insert_path(n, path, new), keys) == match_laws::file_at(
            n,
            keys,
        ),
    decreases path.len(),
{
    let key = text::lowercase(path[0]);
    model::insert_step(n, path, new, keys[0]);
    text::keys_step(path);
    if keys[0] == key {
        above_below(text::keys_of(path), keys);
        let c = model::lookup(n.children, key)->0;
        let rest = keys.drop_first();
        if path.len() == 1 {
            assert(text::keys_of(path.drop_first()).len() == 0);
            if keys.len() == 1 {
                assert(rest =~= text::keys_of(path.drop_first()));
            } else {
                assert(rest.take(0) =~= text::keys_of(path.drop_first()));
                assert(lies_above(text::keys_of(path.drop_first()), rest));
                let child = NodeModel { children: c.children, ..new };
                assert(match_laws::file_at(child, rest) == match_laws::file_at(c, rest));
            }
        } else if keys.len() > 1 {
            file_kept(c, path.drop_first(), new, rest);
        }
    }
}

/// A file that is inserted where the way is clear is found.
proof fn file_put(n: NodeModel, path: Seq<Seq<char>>, new: NodeModel)
    requires
        n.wf(),
        path.len() > 0,
        !new.is_dir,
        tree_laws::way_clear(n, text::keys_of(path)),
    ensures
        match_laws::file_at(model::insert_path(n, path, new), text::keys_of(path)) == Some(
            new.meta,
        ),
    decreases path.len(),
{
    let key = text::lowercase(path[0]);
    model::insert_step(n, path, new, key);
    text::keys_step(path);
    if path.len() > 1 {
        let below = model::below_first(n, path);
        let rest = text::keys_of(path.drop_first());
        assert(rest.len() == path.len() - 1);
        assert(tree_laws::way_clear(below, rest)) by {
            if model::lookup(n.children, key) is None && rest.len() > 1 {
                assert(model::lookup(below.children, rest[0]) is None);
            }
        }
        file_put(below, path.drop_first(), new);
    }
}

/// A clear way stays clear when something is inserted, unless a file is
/// inserted on it.
proof fn way_kept(n: NodeModel, path: Seq<Seq<char>>, new: NodeModel, keys: Seq<Seq<char>>)
    requires
        n.wf(),
        path.len() > 0,
        new.children.len() == 0,
        tree_laws::way_clear(n, keys),
        new.is_dir || !lies_above(text::keys_of(path), keys),
    ensures
        tree_laws::way_clear(model::insert_path(n, path, new), keys),
    decreases path.len(),
{
    if keys.len() > 1 {
        let key = text::lowercase(path[0]);
        model::insert_step(n, path, new, keys[0]);
        text::keys_step(path);
        if keys[0] == key {
            above_below(text::keys_of(path), keys);
            let rest = keys.drop_first();
            let there = model::lookup(n.children, key);
            if path.len() == 1 {
                assert(text::keys_of(path.drop_first()).len() == 0);
                assert(rest.take(0) =~= text::keys_of(path.drop_first()));
                assert(lies_above(text::keys_of(path.drop_first()), rest));
                match there {
                    Some(e) => {
                        let child = NodeModel { children: e.children, ..new };
                        assert(tree_laws::way_clear(child, rest) == tree_laws::way_clear(e, rest));
                    },
                    None => {
                        assert(model::lookup(new.children, rest[0]) is None);
                        assert(tree_laws::way_clear(new, rest));
                    },
                }
            } else {
                let below = model::below_first(n, path);
                assert(tree_laws::way_clear(below, rest)) by {
                    if there is None && rest.len() > 1 {
                        assert(model::lookup(below.children, rest[0]) is None);
                    }
                }
                way_kept(below, path.drop_first(), new, rest);
            }
        }
    }
}

/// No file lies above a file or a directory.
proof fn nothing_below_files(n: NodeModel, a: Seq<Seq<char>>, b: Seq<Seq<char>>, is_dir: bool)
    requires
        match_laws::file_at(n, a) is Some,
        match_laws::is_at(n, b, is_dir),
    ensures
        !lies_above(a, b),
    decreases a.len(),
{
    if lies_above(a, b) {
        assert(b[0] == b.take(a.len() as int)[0]);
        above_below(a, b);
        if a.len() > 1 {
            nothing_below_files(
                model::lookup(n.children, a[0])->0,
                a.drop_first(),
                b.drop_first(),
                is_dir,
            );
        }
    }
}

/// What is a file is no directory.
proof fn file_or_dir(n: NodeModel, keys: Seq<Seq<char>>)
    requires
        match_laws::file_at(n, keys) is Some,
    ensures
        !match_laws::dir_at(n, keys),
    decreases keys.len(),
{
    if keys.len() > 1 {
        file_or_dir(model::lookup(n.children, keys[0])->0, keys.drop_first());
    }
}

/// An operation of the plan writes below the destination's root: a directory
/// where the source has one, or the source's file of the same name.
pub open spec fn writes_as_source(s: TreeSync, op: OpModel, rel: Seq<Seq<char>>) -> bool {
    let keys = text::keys_of(rel);
    &&& rel.len() > 0
    &&& match op {
        OpModel::CreateDir { dst } => {
            &&& dst == s.dir.destination(s.left_root, s.right_root) + rel
            &&& match_laws::dir_at(s.src(), keys)
        },
        OpModel::Copy { src, dst, .. } => {
            &&& src == s.dir.source(s.left_root, s.right_root) + rel
            &&& dst == s.dir.destination(s.left_root, s.right_root) + rel
            &&& match_laws::file_at(s.src(), keys) is Some
        },
    }
}

proof fn op_writes_as_source(s: TreeSync, k: int) -> (rel: Seq<Seq<char>>)
    requires
        s.wf(),
        0 <= k < s.ops().len(),
    ensures
        writes_as_source(s, s.ops()[k], rel),
{
    let op = s.ops()[k];
    if op is Copy {
        sync_laws::sync_copies_only_what_is_wanted(
            s.left,
            s.right,
            s.left_root,
            s.right_root,
            s.dir,
            k,
        );
        let keys = choose|keys: Seq<Seq<char>>|
            #[trigger] sync_laws::wanted(s.src(), s.dst(), keys) && sync_laws::copies_file_at(
                op,
                s.left_root,
                s.right_root,
                s.dir,
                s.src(),
                keys,
            );
        let m = match_laws::file_at(s.src(), keys)->0;
        let rel = choose|rel: Seq<Seq<char>>|
            #[trigger] text::keys_of(rel) == keys && op == (OpModel::Copy {
                src: s.dir.source(s.left_root, s.right_root) + rel,
                dst: s.dir.destination(s.left_root, s.right_root) + rel,
                size: m.size,
            });
        rel
    } else {
        sync_laws::sync_creates_only_missing_directories(
            s.left,
            s.right,
            s.left_root,
            s.right_root,
            s.dir,
            k,
        );
        let keys = choose|keys: Seq<Seq<char>>|
            #[trigger] match_laws::dir_at(s.src(), keys) && !match_laws::dir_at(s.dst(), keys)
                && sync_laws::creates_dir_at(op, s.left_root, s.right_root, s.dir, keys);
        let rel = choose|rel: Seq<Seq<char>>|
            #[trigger] text::keys_of(rel) == keys && op == (OpModel::CreateDir {
                dst: s.dir.destination(s.left_root, s.right_root) + rel,
            });
        rel
    }
}

/// The node that an operation of the plan inserts.
spec fn written(s: TreeSync, op: OpModel, rel: Seq<Seq<char>>) -> NodeModel {
    match op {
        OpModel::CreateDir { .. } => walk::leaf(rel, true, (s.made)(rel)),
        OpModel::Copy { .. } => walk::leaf(
            rel,
            false,
            match_laws::file_at(s.src(), text::keys_of(rel))->0,
        ),
    }
}

proof fn effect_of_op(s: TreeSync, t: NodeModel, op: OpModel, rel: Seq<Seq<char>>)
    requires
        writes_as_source(s, op, rel),
    ensures
        s.after_one(t, op) == model::insert_path(t, rel, written(s, op, rel)),
{
    let src = s.dir.source(s.left_root, s.right_root);
    let dst = s.dir.destination(s.left_root, s.right_root);
    assert((src + rel).skip(src.len() as int) =~= rel);
    assert((dst + rel).skip(dst.len() as int) =~= rel);
}

/// The destination tree stays a scanned tree.
proof fn stays_scanned(s: TreeSync, n: int)
    requires
        s.wf(),
        0 <= n <= s.ops().len(),
    ensures
        scan_laws::is_scanned(s.after(n)),
        s.after(n).is_dir,
    decreases n,
{
    if n > 0 {
        stays_scanned(s, n - 1);
        let t = s.after(n - 1);
        let op = s.ops()[n - 1];
        let rel = op_writes_as_source(s, n - 1);
        effect_of_op(s, t, op, rel);
        let new = written(s, op, rel);
        scan_laws::leaf_inserted(t, rel, new.is_dir, new.meta);
        model::insert_step(t, rel, new, text::lowercase(rel[0]));
    }
}

/// The destination has a file at these keys that is not older than the
/// source's by more than two seconds.
pub open spec fn up_to_date(src: NodeModel, t: NodeModel, keys: Seq<Seq<char>>) -> bool {
    match_laws::file_at(src, keys) matches Some(m) && (match_laws::file_at(t, keys) matches Some(o)
        && m.mtime <= o.mtime + 20_000_000)
}

proof fn up_to_date_after(s: TreeSync, keys: Seq<Seq<char>>, n: int)
    requires
        s.wf(),
        0 <= n <= s.ops().len(),
        match_laws::file_at(s.src(), keys) is Some,
        tree_laws::way_clear(s.dst(), keys),
    ensures
        tree_laws::way_clear(s.after(n), keys),
        up_to_date(s.src(), s.dst(), keys) ==> up_to_date(s.src(), s.after(n), keys),
        forall|k: int|
            0 <= k < n && sync_laws::copies_file_at(
                #[trigger] s.ops()[k],
                s.left_root,
                s.right_root,
                s.dir,
                s.src(),
                keys,
            ) ==> up_to_date(s.src(), s.after(n), keys),
    decreases n,
{
    if n > 0 {
        up_to_date_after(s, keys, n - 1);
        stays_scanned(s, n - 1);
        let t = s.after(n - 1);
        let op = s.ops()[n - 1];
        let rel = op_writes_as_source(s, n - 1);
        effect_of_op(s, t, op, rel);
        let new = written(s, op, rel);
        let at = text::keys_of(rel);
        if op is Copy {
            nothing_below_files(s.src(), at, keys, false);
        } else {
            if at == keys {
                file_or_dir(s.src(), keys);
            }
        }
        way_kept(t, rel, new, keys);
        if at == keys {
            file_put(t, rel, new);
        } else {
            if match_laws::file_at(t, keys) is Some {
                file_kept(t, rel, new, keys);
            }
            same_op_same_keys(s, n - 1, rel, keys);
        }
    }
}

/// The keys of a copy are those of its path.
proof fn same_op_same_keys(s: TreeSync, k: int, rel: Seq<Seq<char>>, keys: Seq<Seq<char>>)
    requires
        writes_as_source(s, s.ops()[k], rel),
        sync_laws::copies_file_at(
            s.ops()[k],
            s.left_root,
            s.right_root,
            s.dir,
            s.src(),
            keys,
        ) || text::keys_of(rel) != keys,
    ensures
        text::keys_of(rel) != keys ==> !sync_laws::copies_file_at(
            s.ops()[k],
            s.left_root,
            s.right_root,
            s.dir,
            s.src(),
            keys,
        ),
{
    let op = s.ops()[k];
    if sync_laws::copies_file_at(op, s.left_root, s.right_root, s.dir, s.src(), keys) {
        let dst = s.dir.destination(s.left_root, s.right_root);
        let m = match_laws::file_at(s.src(), keys)->0;
        let other = choose|other: Seq<Seq<char>>|
            #[trigger] text::keys_of(other) == keys && op == (OpModel::Copy {
                src: s.dir.source(s.left_root, s.right_root) + other,
                dst: dst + other,
                size: m.size,
            });
        assert((dst + rel).skip(dst.len() as int) =~= rel);
        assert((dst + other).skip(dst.len() as int) =~= other);
    }
}

/// After a sync in which every operation succeeded the destination side lacks
/// nothing: it has every file of the source side, and none of them older by
/// more than two seconds. No file of the destination may stand where the
/// source has a directory on the way.
pub proof fn sync_leaves_nothing_wanted(s: TreeSync, keys: Seq<Seq<char>>)
    requires
        s.wf(),
        tree_laws::way_clear(s.dst(), keys),
    ensures
        !sync_laws::wanted(s.src(), s.synced(), keys),
{
    if match_laws::file_at(s.src(), keys) is Some {
        let n = s.ops().len() as int;
        up_to_date_after(s, keys, n);
        if sync_laws::wanted(s.src(), s.dst(), keys) {
            sync_laws::sync_copies_what_is_wanted(
                s.left,
                s.right,
                s.left_root,
                s.right_root,
                s.dir,
                keys,
            );
        }
    }
}

/// A sync never deletes, and it replaces no file but those that are wanted: a
/// file of the destination side stays as it is, unless the source side has
/// something of another kind in its place or above it.
pub proof fn sync_keeps_the_rest(s: TreeSync, keys: Seq<Seq<char>>)
    requires
        s.wf(),
        match_laws::file_at(s.dst(), keys) is Some,
        !sync_laws::wanted(s.src(), s.dst(), keys),
        !match_laws::dir_at(s.src(), keys),
        forall|above: Seq<Seq<char>>|
            lies_above(above, keys) ==> #[trigger] match_laws::file_at(s.src(), above) is None,
    ensures
        match_laws::file_at(s.synced(), keys) == match_laws::file_at(s.dst(), keys),
{
    kept_after(s, keys, s.ops().len() as int);
}

proof fn kept_after(s: TreeSync, keys: Seq<Seq<char>>, n: int)
    requires
        s.wf(),
        0 <= n <= s.ops().len(),
        match_laws::file_at(s.dst(), keys) is Some,
        !sync_laws::wanted(s.src(), s.dst(), keys),
        !match_laws::dir_at(s.src(), keys),
        forall|above: Seq<Seq<char>>|
            lies_above(above, keys) ==> #[trigger] match_laws::file_at(s.src(), above) is None,
    ensures
        match_laws::file_at(s.after(n), keys) == match_laws::file_at(s.dst(), keys),
    decreases n,
{
    if n > 0 {
        kept_after(s, keys, n - 1);
        stays_scanned(s, n - 1);
        let t = s.after(n - 1);
        let op = s.ops()[n - 1];
        let rel = op_writes_as_source(s, n - 1);
        effect_of_op(s, t, op, rel);
        let at = text::keys_of(rel);
        if op is Copy {
            copies_only_wanted(s, n - 1, rel);
        }
        file_kept(t, rel, written(s, op, rel), keys);
    }
}

/// A copy of the plan is of a file that is wanted.
proof fn copies_only_wanted(s: TreeSync, k: int, rel: Seq<Seq<char>>)
    requires
        s.wf(),
        0 <= k < s.ops().len(),
        s.ops()[k] is Copy,
        writes_as_source(s, s.ops()[k], rel),
    ensures
        sync_laws::wanted(s.src(), s.dst(), text::keys_of(rel)),
{
    sync_laws::sync_copies_only_what_is_wanted(
        s.left,
        s.right,
        s.left_root,
        s.right_root,
        s.dir,
        k,
    );
    let keys = choose|keys: Seq<Seq<char>>|
        #[trigger] sync_laws::wanted(s.src(), s.dst(), keys) && sync_laws::copies_file_at(
            s.ops()[k],
            s.left_root,
            s.right_root,
            s.dir,
            s.src(),
            keys,
        );
    same_op_same_keys(s, k, rel, keys);
}

/// A directory stays one when something is inserted, unless a file is inserted
/// in its place or above it.
proof fn dir_kept(n: NodeModel, path: Seq<Seq<char>>, new: NodeModel, keys: Seq<Seq<char>>)
    requires
        n.wf(),
        path.len() > 0,
        match_laws::dir_at(n, keys),
        new.is_dir || (text::keys_of(path) != keys && !lies_above(text::keys_of(path), keys)),
    ensures
        match_laws::dir_at(model::insert_path(n, path, new), keys),
    decreases path.len(),
{
    if keys.len() > 0 {
        let key = text::lowercase(path[0]);
        model::insert_step(n, path, new, keys[0]);
        text::keys_step(path);
        if keys[0] == key {
            above_below(text::keys_of(path), keys);
            let c = model::lookup(n.children, key)->0;
            let rest = keys.drop_first();
            if path.len() == 1 {
                assert(text::keys_of(path.drop_first()).len() == 0);
                if rest.len() == 0 {
                    assert(rest =~= text::keys_of(path.drop_first()));
                } else {
                    assert(rest.take(0) =~= text::keys_of(path.drop_first()));
                    assert(lies_above(text::keys_of(path.drop_first()), rest));
                }
                let child = NodeModel { children: c.children, ..new };
                assert(match_laws::dir_at(child, rest) == match_laws::dir_at(c, rest));
            } else {
                dir_kept(c, path.drop_first(), new, rest);
                model::insert_step(c, path.drop_first(), new, key);
            }
        }
    }
}

/// A directory that is inserted where the way is clear is found.
proof fn dir_put(n: NodeModel, path: Seq<Seq<char>>, new: NodeModel)
    requires
        n.wf(),
        path.len() > 0,
        new.is_dir,
        tree_laws::way_clear(n, text::keys_of(path)),
    ensures
        match_laws::dir_at(model::insert_path(n, path, new), text::keys_of(path)),
    decreases path.len(),
{
    let key = text::lowercase(path[0]);
    model::insert_step(n, path, new, key);
    text::keys_step(path);
    let rest = text::keys_of(path.drop_first());
    assert(rest.len() == path.len() - 1);
    if path.len() > 1 {
        let below = model::below_first(n, path);
        assert(tree_laws::way_clear(below, rest)) by {
            if model::lookup(n.children, key) is None && rest.len() > 1 {
                assert(model::lookup(below.children, rest[0]) is None);
            }
        }
        dir_put(below, path.drop_first(), new);
        model::insert_step(below, path.drop_first(), new, key);
    }
    assert(match_laws::dir_at(model::under_first(n, path, new), rest));
    assert(text::keys_of(path).drop_first() == rest);
}

/// Where kinds agree the way is clear to all that the other tree has.
proof fn same_kinds_clear_way(
    src: NodeModel,
    dst: NodeModel,
    keys: Seq<Seq<char>>,
    is_dir: bool,
)
    requires
        match_laws::no_dir_for_file(dst, src),
        match_laws::is_at(src, keys, is_dir),
    ensures
        tree_laws::way_clear(dst, keys),
    decreases keys.len(),
{
    if keys.len() > 1 && model::lookup(dst.children, keys[0]) is Some {
        let k = keys[0];
        let a = model::lookup(src.children, k)->0;
        let b = model::lookup(dst.children, k)->0;
        assert(a.is_dir);
        if !b.is_dir {
            let one = seq![k];
            assert(one.drop_first().len() == 0);
            assert(match_laws::dir_at(a, one.drop_first()));
            assert(match_laws::dir_at(src, one));
            assert(match_laws::file_at(dst, one) is Some);
        }
        assert forall|rest: Seq<Seq<char>>| #[trigger]
            match_laws::file_at(b, rest) is Some implies !match_laws::dir_at(a, rest) by {
            let down = seq![k] + rest;
            assert(down.drop_first() =~= rest);
            assert(match_laws::file_at(dst, down) == match_laws::file_at(b, rest));
            assert(match_laws::dir_at(src, down) == match_laws::dir_at(a, rest));
        }
        same_kinds_clear_way(a, b, keys.drop_first(), is_dir);
    }
}

proof fn dir_there_after(s: TreeSync, keys: Seq<Seq<char>>, n: int)
    requires
        s.wf(),
        0 <= n <= s.ops().len(),
        match_laws::dir_at(s.src(), keys),
        tree_laws::way_clear(s.dst(), keys),
    ensures
        tree_laws::way_clear(s.after(n), keys),
        match_laws::dir_at(s.dst(), keys) ==> match_laws::dir_at(s.after(n), keys),
        forall|k: int|
            0 <= k < n && sync_laws::creates_dir_at(
                #[trigger] s.ops()[k],
                s.left_root,
                s.right_root,
                s.dir,
                keys,
            ) ==> match_laws::dir_at(s.after(n), keys),
    decreases n,
{
    if n > 0 {
        dir_there_after(s, keys, n - 1);
        stays_scanned(s, n - 1);
        let t = s.after(n - 1);
        let op = s.ops()[n - 1];
        let rel = op_writes_as_source(s, n - 1);
        effect_of_op(s, t, op, rel);
        let new = written(s, op, rel);
        let at = text::keys_of(rel);
        if op is Copy {
            nothing_below_files(s.src(), at, keys, true);
            if at == keys {
                file_or_dir(s.src(), keys);
            }
        }
        way_kept(t, rel, new, keys);
        if match_laws::dir_at(t, keys) {
            dir_kept(t, rel, new, keys);
        }
        if sync_laws::creates_dir_at(op, s.left_root, s.right_root, s.dir, keys) {
            let dst = s.dir.destination(s.left_root, s.right_root);
            let other = choose|other: Seq<Seq<char>>|
                #[trigger] text::keys_of(other) == keys && op == (OpModel::CreateDir {
                    dst: dst + other,
                });
            assert((dst + rel).skip(dst.len() as int) =~= rel);
            assert((dst + other).skip(dst.len() as int) =~= other);
            dir_put(t, rel, new);
        }
    }
}

/// After a sync in which every operation succeeded the destination side has
/// every directory of the source side, unless a file of the destination stands
/// where the source has a directory on the way.
pub proof fn sync_leaves_no_directory_missing(s: TreeSync, keys: Seq<Seq<char>>)
    requires
        s.wf(),
        tree_laws::way_clear(s.dst(), keys),
        match_laws::dir_at(s.src(), keys),
    ensures
        match_laws::dir_at(s.synced(), keys),
{
    dir_there_after(s, keys, s.ops().len() as int);
    if !match_laws::dir_at(s.dst(), keys) {
        sync_laws::sync_creates_missing_directories(
            s.left,
            s.right,
            s.left_root,
            s.right_root,
            s.dir,
            keys,
        );
    }
}

/// After a sync in which every operation succeeded, there is nothing left for
/// the next one in the same direction: its plan is empty. No path may be a file
/// on one side and a directory on the other.
pub proof fn second_sync_does_nothing(s: TreeSync)
    requires
        s.wf(),
        match_laws::same_kinds(s.left, s.right),
    ensures
        s.again().ops() == Seq::<OpModel>::empty(),
{
    let next = s.again();
    stays_scanned(s, s.ops().len() as int);
    if next.ops().len() > 0 {
        if next.ops()[0] is Copy {
            sync_laws::sync_copies_only_what_is_wanted(
                next.left,
                next.right,
                next.left_root,
                next.right_root,
                next.dir,
                0,
            );
            let keys = choose|keys: Seq<Seq<char>>|
                #[trigger] sync_laws::wanted(next.src(), next.dst(), keys)
                    && sync_laws::copies_file_at(
                    next.ops()[0],
                    next.left_root,
                    next.right_root,
                    next.dir,
                    next.src(),
                    keys,
                );
            same_kinds_clear_way(s.src(), s.dst(), keys, false);
            sync_leaves_nothing_wanted(s, keys);
        } else {
            sync_laws::sync_creates_only_missing_directories(
                next.left,
                next.right,
                next.left_root,
                next.right_root,
                next.dir,
                0,
            );
            let keys = choose|keys: Seq<Seq<char>>|
                #[trigger] match_laws::dir_at(next.src(), keys) && !match_laws::dir_at(
                    next.dst(),
                    keys,
                ) && sync_laws::creates_dir_at(
                    next.ops()[0],
                    next.left_root,
                    next.right_root,
                    next.dir,
                    keys,
                );
            same_kinds_clear_way(s.src(), s.dst(), keys, true);
            sync_leaves_no_directory_missing(s, keys);
        }
    }
}

} // verus!
