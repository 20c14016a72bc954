//! What holds of every insertion into a tree.

use vstd::prelude::*;
use crate::model;
use crate::model::{ChildModel, NodeModel, Totals};
use crate::text;

verus! {

/// The node that the keys lead to.
pub open spec fn node_at(n: NodeModel, keys: Seq<Seq<char>>) -> Option<NodeModel>
    decreases keys.len(),
{
    if keys.len() == 0 {
        Some(n)
    } else {
        match model::lookup(n.children, keys[0]) {
            Some(c) => node_at(c, keys.drop_first()),
            None => None,
        }
    }
}

/// The two ways part: neither is the beginning of the other.
pub open spec fn ways_part(a: Seq<Seq<char>>, b: Seq<Seq<char>>) -> bool {
    exists|i: int| 0 <= i < a.len() && i < b.len() && #[trigger] a[i] != #[trigger] b[i]
}

/// What is inserted is found where it was inserted, with the children that
/// stood there before.
pub proof fn inserted_is_found(n: NodeModel, path: Seq<Seq<char>>, new: NodeModel)
    requires
        n.wf(),
        path.len() > 0,
    ensures
        node_at(model::insert_path(n, path, new), text::keys_of(path)) == Some(
            NodeModel {
                children: match node_at(n, text::keys_of(path)) {
                    Some(e) => e.children,
                    None => new.children,
                },
                ..new
            },
        ),
    decreases path.len(),
{
    let keys = text::keys_of(path);
    let key = text::lowercase(path[0]);
    text::keys_step(path);
    model::insert_step(n, path, new, key);
    if path.len() == 1 {
        reveal_with_fuel(node_at, 2);
    } else {
        let below = model::below_first(n, path);
        let rest = text::keys_of(path.drop_first());
        inserted_is_found(below, path.drop_first(), new);
        assert(rest.len() > 0);
        if model::lookup(n.children, key) is None {
            assert(node_at(below, rest) is None);
        }
    }
}

proof fn kept_apart(
    n: NodeModel,
    path: Seq<Seq<char>>,
    new: NodeModel,
    other: Seq<Seq<char>>,
    i: int,
)
    requires
        n.wf(),
        0 <= i < path.len(),
        i < other.len(),
        text::lowercase(path[i]) != other[i],
    ensures
        node_at(model::insert_path(n, path, new), other) == node_at(n, other),
    decreases path.len(),
{
    let key = text::lowercase(path[0]);
    model::insert_step(n, path, new, other[0]);
    if other[0] == key {
        let below = model::below_first(n, path);
        let rest = other.drop_first();
        kept_apart(below, path.drop_first(), new, rest, i - 1);
        if model::lookup(n.children, key) is None {
            assert(model::lookup(below.children, rest[0]) is None);
            assert(node_at(below, rest) is None);
        }
    }
}

/// Nodes that do not lie on the way stay as they were.
pub proof fn others_are_kept(
    n: NodeModel,
    path: Seq<Seq<char>>,
    new: NodeModel,
    other: Seq<Seq<char>>,
)
    requires
        n.wf(),
        ways_part(text::keys_of(path), other),
    ensures
        node_at(model::insert_path(n, path, new), other) == node_at(n, other),
{
    let keys = text::keys_of(path);
    let i = choose|i: int|
        0 <= i < keys.len() && i < other.len() && #[trigger] keys[i] != #[trigger] other[i];
    kept_apart(n, path, new, other, i);
}

/// Nodes on the way are directories that were there, unchanged but for their
/// children, or placeholders.
pub proof fn ancestors_are_kept(n: NodeModel, path: Seq<Seq<char>>, new: NodeModel, i: int)
    requires
        n.wf(),
        0 <= i < path.len(),
    ensures
        ({
            let before = match node_at(n, text::keys_of(path).take(i)) {
                Some(e) => e,
                None => model::placeholder(path[i - 1]),
            };
            node_at(model::insert_path(n, path, new), text::keys_of(path).take(i)) matches Some(m)
                && m.name == before.name && m.is_dir == before.is_dir && m.meta == before.meta
        }),
    decreases path.len(),
{
    let keys = text::keys_of(path);
    if i > 0 {
        text::keys_step(path);
        model::insert_step(n, path, new, keys[0]);
        let below = model::below_first(n, path);
        let rest = path.drop_first();
        ancestors_are_kept(below, rest, new, i - 1);
        assert(text::keys_of(rest).take(i - 1) =~= keys.take(i).drop_first());
        if model::lookup(n.children, keys[0]) is None && i > 1 {
            assert(node_at(below, text::keys_of(rest).take(i - 1)) is None);
        }
    }
}

/// An insertion of a single node adds nothing but that node and the directories
/// that were missing on the way to it.
pub proof fn nothing_else_appears(
    n: NodeModel,
    path: Seq<Seq<char>>,
    new: NodeModel,
    other: Seq<Seq<char>>,
)
    requires
        n.wf(),
        new.children.len() == 0,
        node_at(n, other) is None,
        node_at(model::insert_path(n, path, new), other) is Some,
    ensures
        other.len() <= path.len(),
        forall|i: int| 0 <= i < other.len() ==> #[trigger] other[i] == text::lowercase(path[i]),
    decreases path.len(),
{
    let after = model::insert_path(n, path, new);
    if path.len() == 0 {
        assert(after.children == n.children);
        assert(node_at(after, other) is Some <==> node_at(n, other) is Some);
    } else {
        let key = text::lowercase(path[0]);
        let rest = other.drop_first();
        model::insert_step(n, path, new, other[0]);
        text::keys_step(path);
        assert(other[0] == key);
        let child = model::under_first(n, path, new);
        assert(node_at(child, rest) is Some);
        if path.len() == 1 {
            if rest.len() > 0 {
                match model::lookup(n.children, key) {
                    Some(e) => {
                        assert(child.children == e.children);
                        assert(node_at(child, rest) is Some <==> node_at(e, rest) is Some);
                    },
                    None => {
                        assert(model::lookup(new.children, rest[0]) is None);
                    },
                }
            }
        } else {
            let below = model::below_first(n, path);
            if node_at(below, rest) is Some {
                assert(model::lookup(n.children, key) is None);
                if rest.len() > 0 {
                    assert(model::lookup(below.children, rest[0]) is None);
                }
            } else {
                nothing_else_appears(below, path.drop_first(), new, rest);
            }
        }
        assert forall|i: int| 0 <= i < other.len() implies #[trigger] other[i]
            == text::lowercase(path[i]) by {
            if i > 0 {
                assert(other[i] == rest[i - 1]);
                assert(path[i] == path.drop_first()[i - 1]);
            }
        }
    }
}

/// A directory that an insertion finds missing on the way is made with the name
/// that the path gives it, and with nothing known of it.
pub proof fn missing_directories_are_made(
    n: NodeModel,
    path: Seq<Seq<char>>,
    new: NodeModel,
    i: int,
)
    requires
        n.wf(),
        0 < i < path.len(),
        node_at(n, text::keys_of(path).take(i)) is None,
    ensures
        node_at(model::insert_path(n, path, new), text::keys_of(path).take(i)) matches Some(m)
            && m.name == path[i - 1] && m.is_dir && m.meta.size == 0 && m.meta.mtime == 0
            && m.meta.attrs == 0,
{
    ancestors_are_kept(n, path, new, i);
}

/// An insertion at the root itself marks and dates the root, and changes
/// nothing else.
pub proof fn insertion_at_the_root(n: NodeModel, new: NodeModel)
    ensures
        ({
            let after = model::insert_path(n, Seq::empty(), new);
            &&& after.name == n.name
            &&& after.is_dir == new.is_dir
            &&& after.meta == new.meta
            &&& after.children == n.children
        }),
{
}

/// Putting a second node under a key replaces the first.
pub proof fn put_twice(s: Seq<ChildModel>, key: Seq<char>, a: NodeModel, b: NodeModel)
    requires
        model::keys_ascend(s),
    ensures
        model::put(model::put(s, key, a), key, b) == model::put(s, key, b),
{
    let p = model::place(s, key);
    let t = model::put(s, key, a);
    model::put_then_lookup(s, key, a, key);
    model::place_bounds(s, key);
    model::entry_is_found(t, p);
    assert(model::put(t, key, b) =~= model::put(s, key, b));
}

/// Inserting the same node twice is inserting it once.
pub proof fn inserting_twice(n: NodeModel, path: Seq<Seq<char>>, new: NodeModel)
    requires
        n.wf(),
        new.wf(),
    ensures
        model::insert_path(model::insert_path(n, path, new), path, new) == model::insert_path(
            n,
            path,
            new,
        ),
    decreases path.len(),
{
    if path.len() > 0 {
        let key = text::lowercase(path[0]);
        let child = model::under_first(n, path, new);
        model::insert_step(n, path, new, key);
        model::insert_step(model::insert_path(n, path, new), path, new, key);
        if path.len() > 1 {
            inserting_twice(model::below_first(n, path), path.drop_first(), new);
        }
        put_twice(n.children, key, child, child);
    }
}

/// Each directory above the last component either is in the tree already, or is
/// spelled the same in both paths.
pub open spec fn spelled_alike_above(
    n: NodeModel,
    path: Seq<Seq<char>>,
    other: Seq<Seq<char>>,
) -> bool
    decreases path.len(),
{
    path.len() > 1 ==> (model::lookup(n.children, text::lowercase(path[0])) is Some || path[0]
        == other[0]) && spelled_alike_above(
        model::below_first(n, path),
        path.drop_first(),
        other.drop_first(),
    )
}

pub(crate) proof fn spelled_like_itself(n: NodeModel, path: Seq<Seq<char>>)
    ensures
        spelled_alike_above(n, path, path),
    decreases path.len(),
{
    if path.len() > 1 {
        spelled_like_itself(model::below_first(n, path), path.drop_first());
    }
}

/// A directory may come after what it holds: inserting it first, or filling in
/// its placeholder later, gives the same tree. The two paths need only agree in
/// lower case, and in the spelling of directories above that are new.
pub proof fn placeholders_are_filled_in(
    n: NodeModel,
    path: Seq<Seq<char>>,
    other: Seq<Seq<char>>,
    rest: Seq<Seq<char>>,
    dir: NodeModel,
    new: NodeModel,
)
    requires
        n.wf(),
        path.len() > 0,
        rest.len() > 0,
        text::keys_of(other) == text::keys_of(path),
        spelled_alike_above(n, path, other),
        dir.children == Seq::<ChildModel>::empty(),
    ensures
        model::insert_path(model::insert_path(n, path + rest, new), other, dir)
            == model::insert_path(model::insert_path(n, other, dir), path + rest, new),
    decreases path.len(),
{
    let key = text::lowercase(path[0]);
    let long = path + rest;
    same_keys_step(path, other);
    assert(long[0] == path[0]);
    assert(long.drop_first() =~= path.drop_first() + rest);
    let below = model::below_first(n, path);
    let deep = model::under_first(n, long, new);
    let shallow = model::under_first(n, other, dir);
    model::insert_step(n, long, new, key);
    model::insert_step(n, other, dir, key);
    model::insert_step(model::insert_path(n, long, new), other, dir, key);
    model::insert_step(model::insert_path(n, other, dir), long, new, key);
    let last = model::under_first(model::insert_path(n, other, dir), long, new);
    if path.len() == 1 {
        assert(long.drop_first() =~= rest);
        assert(shallow == NodeModel { children: below.children, ..dir });
        insert_below(below, shallow, rest, new);
    } else {
        assert(model::below_first(n, other) == below);
        placeholders_are_filled_in(
            below,
            path.drop_first(),
            other.drop_first(),
            rest,
            dir,
            new,
        );
    }
    assert(model::under_first(model::insert_path(n, long, new), other, dir) == last);
    put_twice(n.children, key, deep, last);
    put_twice(n.children, key, shallow, last);
}

/// Paths of the same keys start with the same key and go on with the same keys.
proof fn same_keys_step(path: Seq<Seq<char>>, other: Seq<Seq<char>>)
    requires
        path.len() > 0,
        text::keys_of(other) == text::keys_of(path),
    ensures
        other.len() == path.len(),
        text::lowercase(other[0]) == text::lowercase(path[0]),
        text::keys_of(other.drop_first()) == text::keys_of(path.drop_first()),
{
    assert(text::keys_of(path).len() == path.len());
    assert(text::keys_of(other).len() == other.len());
    text::keys_step(path);
    text::keys_step(other);
}

/// The same tree but for the spelling of names, which agree in lower case.
pub open spec fn same_but_spelling(a: NodeModel, b: NodeModel) -> bool
    decreases a,
{
    &&& text::lowercase(a.name) == text::lowercase(b.name)
    &&& a.is_dir == b.is_dir
    &&& a.meta == b.meta
    &&& a.children.len() == b.children.len()
    &&& forall|i: int|
        0 <= i < a.children.len() ==> (#[trigger] a.children[i]).key == b.children[i].key
            && same_but_spelling(a.children[i].node, b.children[i].node)
}

proof fn same_as_itself(n: NodeModel)
    ensures
        same_but_spelling(n, n),
    decreases n,
{
    assert forall|i: int| 0 <= i < n.children.len() implies same_but_spelling(
        (#[trigger] n.children[i]).node,
        n.children[i].node,
    ) by {
        same_as_itself(n.children[i].node);
    }
}

/// Trees that are the same below their roots.
proof fn same_below(a: NodeModel, b: NodeModel)
    requires
        text::lowercase(a.name) == text::lowercase(b.name),
        a.is_dir == b.is_dir,
        a.meta == b.meta,
        a.children == b.children,
    ensures
        same_but_spelling(a, b),
{
    assert forall|i: int| 0 <= i < a.children.len() implies same_but_spelling(
        (#[trigger] a.children[i]).node,
        b.children[i].node,
    ) by {
        same_as_itself(a.children[i].node);
    }
}

proof fn same_is_transitive(a: NodeModel, b: NodeModel, c: NodeModel)
    requires
        same_but_spelling(a, b),
        same_but_spelling(b, c),
    ensures
        same_but_spelling(a, c),
    decreases a,
{
    assert forall|i: int| 0 <= i < a.children.len() implies (#[trigger] a.children[i]).key
        == c.children[i].key && same_but_spelling(a.children[i].node, c.children[i].node) by {
        assert(a.children[i].key == b.children[i].key);
        assert(b.children[i].key == c.children[i].key);
        same_is_transitive(a.children[i].node, b.children[i].node, c.children[i].node);
    }
}

/// Putting nodes that are the same but for spelling under a key.
proof fn same_when_put(n: NodeModel, key: Seq<char>, x: NodeModel, y: NodeModel)
    requires
        n.wf(),
        same_but_spelling(x, y),
    ensures
        same_but_spelling(
            NodeModel { children: model::put(n.children, key, x), ..n },
            NodeModel { children: model::put(n.children, key, y), ..n },
        ),
{
    let s = model::put(n.children, key, x);
    let t = model::put(n.children, key, y);
    let p = model::place(n.children, key);
    model::place_bounds(n.children, key);
    assert forall|i: int| 0 <= i < s.len() implies (#[trigger] s[i]).key == t[i].key
        && same_but_spelling(s[i].node, t[i].node) by {
        if i != p {
            assert(s[i] == t[i]);
            same_as_itself(s[i].node);
        }
    }
}

/// However the path to a directory is spelled, it may come after what it holds:
/// inserting it first, or filling in its placeholder later, gives the same
/// directory with the same contents, and the same tree but for the spelling of
/// the directories above it.
pub proof fn spelling_may_differ(
    n: NodeModel,
    path: Seq<Seq<char>>,
    other: Seq<Seq<char>>,
    rest: Seq<Seq<char>>,
    dir: NodeModel,
    new: NodeModel,
)
    requires
        n.wf(),
        path.len() > 0,
        rest.len() > 0,
        text::keys_of(other) == text::keys_of(path),
        dir.children == Seq::<ChildModel>::empty(),
    ensures
        ({
            let later = model::insert_path(model::insert_path(n, path + rest, new), other, dir);
            let first = model::insert_path(model::insert_path(n, other, dir), path + rest, new);
            &&& same_but_spelling(later, first)
            &&& node_at(later, text::keys_of(path)) is Some
            &&& node_at(later, text::keys_of(path)) == node_at(first, text::keys_of(path))
        }),
    decreases path.len(),
{
    let key = text::lowercase(path[0]);
    let long = path + rest;
    let keys = text::keys_of(path);
    text::keys_step(path);
    same_keys_step(path, other);
    assert(long[0] == path[0]);
    assert(long.drop_first() =~= path.drop_first() + rest);
    let later = model::insert_path(model::insert_path(n, long, new), other, dir);
    let first = model::insert_path(model::insert_path(n, other, dir), long, new);
    if path.len() == 1 {
        placeholders_are_filled_in(n, path, other, rest, dir, new);
        same_as_itself(later);
        insert_keeps_root(n, long, new);
        model::insert_step(model::insert_path(n, long, new), other, dir, key);
        reveal_with_fuel(node_at, 2);
    } else {
        let below = model::below_first(n, path);
        let there = model::below_first(n, other);
        let p = path.drop_first();
        let o = other.drop_first();
        let deep = model::under_first(n, long, new);
        let shallow = model::under_first(n, other, dir);
        model::insert_step(n, long, new, key);
        model::insert_step(n, other, dir, key);
        model::insert_step(model::insert_path(n, long, new), other, dir, key);
        model::insert_step(model::insert_path(n, other, dir), long, new, key);
        let x = model::insert_path(model::insert_path(below, p + rest, new), o, dir);
        let z = model::insert_path(model::insert_path(below, o, dir), p + rest, new);
        let y = model::insert_path(model::insert_path(there, o, dir), p + rest, new);
        assert(model::lookup(later.children, key) == Some(x));
        assert(model::lookup(first.children, key) == Some(y));
        spelling_may_differ(below, p, o, rest, dir, new);
        insert_below(below, there, o, dir);
        insert_keeps_root(below, o, dir);
        insert_keeps_root(there, o, dir);
        insert_below(
            model::insert_path(below, o, dir),
            model::insert_path(there, o, dir),
            p + rest,
            new,
        );
        insert_keeps_root(model::insert_path(below, o, dir), p + rest, new);
        insert_keeps_root(model::insert_path(there, o, dir), p + rest, new);
        same_below(z, y);
        same_is_transitive(x, z, y);
        put_twice(n.children, key, deep, x);
        put_twice(n.children, key, shallow, y);
        same_when_put(n, key, x, y);
        assert(keys.drop_first() == text::keys_of(p));
        assert(text::keys_of(p).len() > 0);
        assert(node_at(z, text::keys_of(p)) == node_at(y, text::keys_of(p)));
    }
}

/// An insertion below a node keeps the node itself and its children in order.
proof fn insert_keeps_root(n: NodeModel, path: Seq<Seq<char>>, new: NodeModel)
    requires
        path.len() > 0,
        model::keys_ascend(n.children),
    ensures
        model::insert_path(n, path, new) == (NodeModel {
            children: model::insert_path(n, path, new).children,
            ..n
        }),
        model::keys_ascend(model::insert_path(n, path, new).children),
{
    model::insert_step(n, path, new, text::lowercase(path[0]));
}

/// An insertion below a node depends on nothing but its children.
proof fn insert_below(n: NodeModel, m: NodeModel, path: Seq<Seq<char>>, new: NodeModel)
    requires
        n.children == m.children,
        path.len() > 0,
        model::keys_ascend(n.children),
    ensures
        model::insert_path(n, path, new).children == model::insert_path(m, path, new).children,
        model::insert_path(m, path, new) == (NodeModel {
            children: model::insert_path(n, path, new).children,
            ..m
        }),
{
    let key = text::lowercase(path[0]);
    model::insert_step(n, path, new, key);
    model::insert_step(m, path, new, key);
}

/// Every child is keyed by its name in lower case, all the way down.
pub open spec fn keyed_by_name(n: NodeModel) -> bool
    decreases n,
{
    forall|i: int|
        0 <= i < n.children.len() ==> {
            &&& (#[trigger] n.children[i]).key == text::lowercase(n.children[i].node.name)
            &&& keyed_by_name(n.children[i].node)
        }
}

proof fn put_keeps_keyed(n: NodeModel, key: Seq<char>, child: NodeModel)
    requires
        n.wf(),
        keyed_by_name(n),
        keyed_by_name(child),
        key == text::lowercase(child.name),
    ensures
        keyed_by_name(NodeModel { children: model::put(n.children, key, child), ..n }),
{
    let t = model::put(n.children, key, child);
    let p = model::place(n.children, key);
    model::place_bounds(n.children, key);
    assert forall|i: int| 0 <= i < t.len() implies {
        &&& (#[trigger] t[i]).key == text::lowercase(t[i].node.name)
        &&& keyed_by_name(t[i].node)
    } by {
        if i != p {
            let j = if i < p || model::lookup(n.children, key) is Some {
                i
            } else {
                i - 1
            };
            assert(t[i] == n.children[j]);
        }
    }
}

/// Children stay keyed by their lower-cased names when a node is inserted
/// under the last name of its path.
pub proof fn insert_keeps_keyed(n: NodeModel, path: Seq<Seq<char>>, new: NodeModel)
    requires
        n.wf(),
        keyed_by_name(n),
        keyed_by_name(new),
        path.len() > 0 ==> text::lowercase(new.name) == text::lowercase(path.last()),
    ensures
        keyed_by_name(model::insert_path(n, path, new)),
    decreases path.len(),
{
    if path.len() == 0 {
        assert(model::insert_path(n, path, new).children == n.children);
    } else {
        let key = text::lowercase(path[0]);
        let child = model::under_first(n, path, new);
        model::insert_step(n, path, new, key);
        let below = model::below_first(n, path);
        assert(keyed_by_name(below));
        if path.len() > 1 {
            insert_keeps_keyed(below, path.drop_first(), new);
            assert(child.name == below.name);
        } else {
            assert(child.children == new.children || child.children == below.children);
        }
        assert(keyed_by_name(child));
        put_keeps_keyed(n, key, child);
    }
}

/// Children are a map: two lists of them under which every key leads to the
/// same node are the same.
pub proof fn same_nodes_same_children(s: Seq<ChildModel>, t: Seq<ChildModel>)
    requires
        model::keys_ascend(s),
        model::keys_ascend(t),
        forall|key: Seq<char>| #[trigger] model::lookup(s, key) == model::lookup(t, key),
    ensures
        s == t,
    decreases s.len(),
{
    if s.len() == 0 {
        if t.len() > 0 {
            model::entry_is_found(t, 0);
            assert(model::lookup(s, t[0].key) is None);
        }
        assert(s =~= t);
    } else {
        let a = s.last();
        model::entry_is_found(s, s.len() - 1);
        assert(model::lookup(t, a.key) == Some(a.node));
        model::found_is_entry(t, a.key);
        let b = t.last();
        model::entry_is_found(t, t.len() - 1);
        assert(model::lookup(s, b.key) == Some(b.node));
        model::found_is_entry(s, b.key);
        if a.key != b.key {
            let i = model::place(s, b.key);
            let j = model::place(t, a.key);
            assert(text::strictly_precedes(s[i].key, s[s.len() - 1].key));
            assert(text::strictly_precedes(t[j].key, t[t.len() - 1].key));
            text::precedes_antisymmetric(a.key, b.key);
        }
        let sf = s.drop_last();
        let tf = t.drop_last();
        model::lookup_from_back(s, a.key);
        model::lookup_from_back(t, a.key);
        assert forall|key: Seq<char>| #[trigger]
            model::lookup(sf, key) == model::lookup(tf, key) by {
            model::lookup_from_back(s, key);
            model::lookup_from_back(t, key);
            assert(model::lookup(s, key) == model::lookup(t, key));
        }
        same_nodes_same_children(sf, tf);
        assert(s =~= sf.push(a));
        assert(t =~= tf.push(b));
    }
}

proof fn puts_commute(
    s: Seq<ChildModel>,
    k: Seq<char>,
    a: NodeModel,
    l: Seq<char>,
    b: NodeModel,
)
    requires
        model::keys_ascend(s),
        k != l,
    ensures
        model::put(model::put(s, k, a), l, b) == model::put(model::put(s, l, b), k, a),
{
    let sk = model::put(s, k, a);
    let sl = model::put(s, l, b);
    model::put_then_lookup(s, k, a, k);
    model::put_then_lookup(s, l, b, l);
    model::put_then_lookup(sk, l, b, l);
    model::put_then_lookup(sl, k, a, k);
    assert forall|key: Seq<char>| #[trigger]
        model::lookup(model::put(sk, l, b), key) == model::lookup(model::put(sl, k, a), key) by {
        model::put_then_lookup(s, k, a, key);
        model::put_then_lookup(s, l, b, key);
        model::put_then_lookup(sk, l, b, key);
        model::put_then_lookup(sl, k, a, key);
    }
    same_nodes_same_children(model::put(sk, l, b), model::put(sl, k, a));
}

/// Entries may come in any order: two insertions at paths that go apart, and
/// that are written alike as far as they go together, give the same tree
/// either way round.
pub proof fn insertions_commute(
    n: NodeModel,
    p: Seq<Seq<char>>,
    x: NodeModel,
    q: Seq<Seq<char>>,
    y: NodeModel,
    i: int,
)
    requires
        n.wf(),
        0 <= i < p.len(),
        i < q.len(),
        p.take(i) == q.take(i),
        text::lowercase(p[i]) != text::lowercase(q[i]),
    ensures
        model::insert_path(model::insert_path(n, p, x), q, y) == model::insert_path(
            model::insert_path(n, q, y),
            p,
            x,
        ),
    decreases i,
{
    let k = text::lowercase(p[0]);
    let l = text::lowercase(q[0]);
    let np = model::insert_path(n, p, x);
    let nq = model::insert_path(n, q, y);
    let a = model::under_first(n, p, x);
    let b = model::under_first(n, q, y);
    model::insert_step(n, p, x, l);
    model::insert_step(n, q, y, k);
    model::insert_step(np, q, y, l);
    model::insert_step(nq, p, x, k);
    if i == 0 {
        assert(model::under_first(np, q, y) == b);
        assert(model::under_first(nq, p, x) == a);
        puts_commute(n.children, k, a, l, b);
    } else {
        assert(p[0] == p.take(i)[0]);
        assert(q[0] == q.take(i)[0]);
        let below = model::below_first(n, p);
        let pr = p.drop_first();
        let qr = q.drop_first();
        assert(pr.take(i - 1) =~= p.take(i).drop_first());
        assert(qr.take(i - 1) =~= q.take(i).drop_first());
        insertions_commute(below, pr, x, qr, y, i - 1);
        let last = model::insert_path(a, qr, y);
        put_twice(n.children, k, a, last);
        put_twice(n.children, k, b, last);
    }
}

/// Nothing but directories stands on the way to the last key.
pub open spec fn way_clear(n: NodeModel, keys: Seq<Seq<char>>) -> bool
    decreases keys.len(),
{
    keys.len() > 1 ==> (model::lookup(n.children, keys[0]) matches Some(c) ==> c.is_dir
        && way_clear(c, keys.drop_first()))
}

/// The directories above the last key that the tree lacks.
pub open spec fn missing_dirs(n: NodeModel, keys: Seq<Seq<char>>) -> nat
    decreases keys.len(),
{
    if keys.len() <= 1 {
        0
    } else {
        match model::lookup(n.children, keys[0]) {
            Some(c) => missing_dirs(c, keys.drop_first()),
            None => (keys.len() - 1) as nat,
        }
    }
}

proof fn totals_of_update(s: Seq<ChildModel>, i: int, c: ChildModel)
    requires
        0 <= i < s.len(),
    ensures
        model::totals_of(s.update(i, c)).plus(model::totals_of_child(s[i].node))
            == model::totals_of(s).plus(model::totals_of_child(c.node)),
    decreases s.len(),
{
    let t = s.update(i, c);
    if i == s.len() - 1 {
        assert(t.drop_last() =~= s.drop_last());
    } else {
        totals_of_update(s.drop_last(), i, c);
        assert(t.drop_last() =~= s.drop_last().update(i, c));
        assert(t.last() == s.last());
    }
}

proof fn totals_of_insert(s: Seq<ChildModel>, i: int, c: ChildModel)
    requires
        0 <= i <= s.len(),
    ensures
        model::totals_of(s.insert(i, c)) == model::totals_of(s).plus(
            model::totals_of_child(c.node),
        ),
    decreases s.len(),
{
    let t = s.insert(i, c);
    if i == s.len() {
        assert(t.drop_last() =~= s);
    } else {
        totals_of_insert(s.drop_last(), i, c);
        assert(t.drop_last() =~= s.drop_last().insert(i, c));
        assert(t.last() == s.last());
    }
}

/// What a node that may be missing counts.
pub open spec fn totals_there(n: Option<NodeModel>) -> Totals {
    match n {
        Some(c) => model::totals_of_child(c),
        None => Totals { files: 0, dirs: 0, bytes: 0 },
    }
}

proof fn totals_of_put(s: Seq<ChildModel>, key: Seq<char>, node: NodeModel)
    requires
        model::keys_ascend(s),
    ensures
        model::totals_of(model::put(s, key, node)).plus(totals_there(model::lookup(s, key)))
            == model::totals_of(s).plus(model::totals_of_child(node)),
{
    let c = ChildModel { key, node };
    let p = model::place(s, key);
    model::place_bounds(s, key);
    if model::lookup(s, key) is Some {
        model::found_is_entry(s, key);
        totals_of_update(s, p, c);
    } else {
        totals_of_insert(s, p, c);
    }
}

/// An insertion adds up: the totals afterwards are those before, less what stood
/// at the path, with what stands there now, and with one directory for each that
/// was missing on the way. Nothing but directories may stand on the way.
pub proof fn insertion_adds_up(n: NodeModel, path: Seq<Seq<char>>, new: NodeModel)
    requires
        n.wf(),
        path.len() > 0,
        way_clear(n, text::keys_of(path)),
    ensures
        ({
            let keys = text::keys_of(path);
            let after = model::insert_path(n, path, new);
            model::totals_of(after.children).plus(totals_there(node_at(n, keys)))
                == model::totals_of(n.children).plus(totals_there(node_at(after, keys))).plus(
                Totals { files: 0, dirs: missing_dirs(n, keys), bytes: 0 },
            )
        }),
    decreases path.len(),
{
    let key = text::lowercase(path[0]);
    let keys = text::keys_of(path);
    let rest = text::keys_of(path.drop_first());
    let after = model::insert_path(n, path, new);
    let child = model::under_first(n, path, new);
    text::keys_step(path);
    model::insert_step(n, path, new, key);
    totals_of_put(n.children, key, child);
    assert(keys.drop_first() == rest);
    if path.len() == 1 {
        assert(rest.len() == 0);
        reveal_with_fuel(node_at, 2);
    } else {
        let below = model::below_first(n, path);
        let there = model::lookup(n.children, key);
        assert(rest.len() == path.len() - 1);
        assert(way_clear(below, rest)) by {
            if there is None && rest.len() > 1 {
                assert(model::lookup(below.children, rest[0]) is None);
            }
        }
        insertion_adds_up(below, path.drop_first(), new);
        insert_keeps_root(below, path.drop_first(), new);
        if there is None {
            assert(node_at(below, rest) is None);
            assert(missing_dirs(below, rest) == rest.len() - 1) by {
                if rest.len() > 1 {
                    assert(model::lookup(below.children, rest[0]) is None);
                }
            }
            assert(model::totals_of(below.children).files == 0);
        }
    }
}

} // verus!
