//! What the statistics of a tree count, and what becomes of moments that are
//! stored as file times.

use vstd::prelude::*;
use crate::model;
use crate::model::{ChildModel, Meta, NodeModel, Totals, UnixTime};
use crate::text;
use crate::tree_laws;

verus! {

/// A directory whose only child is a file has one file, no directory, and the
/// bytes of that file.
pub proof fn a_file_counts_itself_and_its_bytes(key: Seq<char>, file: NodeModel)
    requires
        !file.is_dir,
    ensures
        ({
            let t = model::totals_of(seq![ChildModel { key, node: file }]);
            t.files == 1 && t.dirs == 0 && t.bytes == file.meta.size
        }),
{
    let none = Seq::<ChildModel>::empty();
    let c = ChildModel { key, node: file };
    assert(seq![c].drop_last() =~= none);
    assert(model::totals_of(none) == (Totals { files: 0, dirs: 0, bytes: 0 }));
    assert(model::totals_of(seq![c]) == model::totals_of(none).plus(model::totals_of_child(file)));
}

/// A directory whose only child is a directory has one directory more than that
/// child, and otherwise what is in it.
pub proof fn a_directory_counts_itself_and_its_contents(key: Seq<char>, dir: NodeModel)
    requires
        dir.is_dir,
    ensures
        ({
            let t = model::totals_of(seq![ChildModel { key, node: dir }]);
            let below = model::totals_of(dir.children);
            t.files == below.files && t.dirs == below.dirs + 1 && t.bytes == below.bytes
        }),
{
    let none = Seq::<ChildModel>::empty();
    let c = ChildModel { key, node: dir };
    assert(seq![c].drop_last() =~= none);
    assert(model::totals_of(none) == (Totals { files: 0, dirs: 0, bytes: 0 }));
    assert(model::totals_of(seq![c]) == model::totals_of(none).plus(model::totals_of_child(dir)));
    assert(model::totals_of_child(dir) == (Totals { files: 0, dirs: 1, bytes: 0 }).plus(
        model::totals_of(dir.children),
    ));
}

/// What is counted over two lists of children is the sum of what is counted over
/// each; over none of them it is nothing.
pub proof fn totals_add_up(a: Seq<ChildModel>, b: Seq<ChildModel>)
    ensures
        model::totals_of(Seq::empty()).files == 0,
        model::totals_of(Seq::empty()).dirs == 0,
        model::totals_of(Seq::empty()).bytes == 0,
        model::totals_of(a + b).files == model::totals_of(a).files + model::totals_of(b).files,
        model::totals_of(a + b).dirs == model::totals_of(a).dirs + model::totals_of(b).dirs,
        model::totals_of(a + b).bytes == model::totals_of(a).bytes + model::totals_of(b).bytes,
    decreases b.len(),
{
    if b.len() == 0 {
        assert(a + b =~= a);
    } else {
        totals_add_up(a, b.drop_last());
        assert((a + b).drop_last() =~= a + b.drop_last());
        assert((a + b).last() == b.last());
    }
}

/// A new file raises the number of files by one and the bytes by exactly its
/// size; a new directory raises the number of directories. Nothing but
/// directories may stand on the way.
pub proof fn a_new_entry_raises_the_totals(n: NodeModel, path: Seq<Seq<char>>, new: NodeModel)
    requires
        n.wf(),
        path.len() > 0,
        new.children.len() == 0,
        tree_laws::node_at(n, text::keys_of(path)) is None,
        tree_laws::way_clear(n, text::keys_of(path)),
    ensures
        ({
            let before = model::totals_of(n.children);
            let after = model::totals_of(model::insert_path(n, path, new).children);
            &&& !new.is_dir ==> after.files == before.files + 1 && after.bytes == before.bytes
                + new.meta.size && after.dirs >= before.dirs
            &&& new.is_dir ==> after.files == before.files && after.bytes == before.bytes
                && after.dirs > before.dirs
            &&& path.len() == 1 ==> after.dirs == before.dirs + (if new.is_dir {
                1nat
            } else {
                0nat
            })
        }),
{
    let keys = text::keys_of(path);
    let after = model::insert_path(n, path, new);
    tree_laws::insertion_adds_up(n, path, new);
    tree_laws::inserted_is_found(n, path, new);
    let made = tree_laws::node_at(after, keys)->0;
    assert(made == new);
    let c = ChildModel { key: keys[0], node: new };
    assert(seq![c].drop_last() =~= Seq::<ChildModel>::empty());
    assert(model::totals_of(new.children) == (Totals { files: 0, dirs: 0, bytes: 0 }));
}

/// A file that takes the place of another changes the bytes by the difference of
/// their sizes, and no other number.
pub proof fn a_replaced_file_changes_the_bytes(n: NodeModel, path: Seq<Seq<char>>, new: NodeModel)
    requires
        n.wf(),
        path.len() > 0,
        !new.is_dir,
        tree_laws::node_at(n, text::keys_of(path)) matches Some(e) && !e.is_dir,
        tree_laws::way_clear(n, text::keys_of(path)),
    ensures
        ({
            let before = model::totals_of(n.children);
            let after = model::totals_of(model::insert_path(n, path, new).children);
            let old_size = (tree_laws::node_at(n, text::keys_of(path))->0).meta.size;
            &&& after.files == before.files
            &&& after.dirs == before.dirs
            &&& after.bytes + old_size == before.bytes + new.meta.size
        }),
{
    let keys = text::keys_of(path);
    tree_laws::insertion_adds_up(n, path, new);
    tree_laws::inserted_is_found(n, path, new);
    present_misses_nothing(n, keys);
}

proof fn present_misses_nothing(n: NodeModel, keys: Seq<Seq<char>>)
    requires
        tree_laws::node_at(n, keys) is Some,
    ensures
        tree_laws::missing_dirs(n, keys) == 0,
    decreases keys.len(),
{
    if keys.len() > 1 {
        present_misses_nothing(model::lookup(n.children, keys[0])->0, keys.drop_first());
    }
}

/// Statistics are given as long as each number is below 2^64.
pub proof fn totals_fit_below_two_to_the_64(t: Totals)
    ensures
        t.fits() <==> t.files < 0x1_0000_0000_0000_0000 && t.dirs < 0x1_0000_0000_0000_0000
            && t.bytes < 0x1_0000_0000_0000_0000,
{
}

/// Nodes are counted one by one: a child counts itself and all below it, lists
/// add up, and there is nothing to count in none.
pub proof fn nodes_are_counted_one_by_one(a: Seq<ChildModel>, c: ChildModel)
    ensures
        model::node_count(Seq::empty()) == 0,
        model::node_count(a.push(c)) == model::node_count(a) + 1 + model::node_count(
            c.node.children,
        ),
{
    assert(a.push(c).drop_last() =~= a);
}

/// From 1970 on the file time of a moment is the last whole tick of 100 ns that
/// is not after it, counted from 1601.
pub proof fn filetimes_are_the_last_whole_tick(t: UnixTime)
    requires
        t.nanos >= 0,
    ensures
        100 * (model::filetime(t) - 116_444_736_000_000_000) <= t.nanos,
        t.nanos < 100 * (model::filetime(t) - 116_444_736_000_000_000) + 100,
{
}

/// Between 1601 and 1970 the file time is the first whole tick that is not
/// before the moment; earlier moments get the first tick of all.
pub proof fn early_filetimes_are_the_next_whole_tick(t: UnixTime)
    requires
        t.nanos < 0,
    ensures
        t.nanos >= -11_644_473_600_000_000_000 ==> {
            &&& t.nanos <= 100 * (model::filetime(t) - 116_444_736_000_000_000)
            &&& 100 * (model::filetime(t) - 116_444_736_000_000_000) < t.nanos + 100
        },
        t.nanos < -11_644_473_600_000_000_000 ==> model::filetime(t) == 0,
        model::filetime(t) >= 0,
{
}

/// File times never decrease as moments increase.
pub proof fn filetimes_keep_the_order(s: UnixTime, t: UnixTime)
    requires
        s.nanos <= t.nanos,
    ensures
        model::filetime(s) <= model::filetime(t),
{
}

/// Every moment before the tick 2^64 counted from 1601 has a file time, and no
/// later one has.
pub proof fn filetimes_have_64_bits(t: UnixTime)
    ensures
        model::has_filetime(t) <==> t.nanos < 1_833_029_933_770_955_161_600,
        model::has_filetime(t) ==> 0 <= model::filetime(t) < 0x1_0000_0000_0000_0000,
{
}

/// A modification time can be converted as long as it is before 1970 or no more
/// than 2^64 nanoseconds behind it.
pub proof fn moments_have_64_bits_of_nanoseconds(m: Meta)
    ensures
        m.mtime_representable() <==> m.mtime <= 116_444_736_000_000_000 + 184_467_440_737_095_516,
{
}

/// Two files are told apart by time exactly as far as their moments lie apart: a
/// difference of whole ticks is kept.
pub proof fn filetimes_keep_distances(s: UnixTime, t: UnixTime, ticks: int)
    requires
        s.nanos >= 0,
        ticks >= 0,
        t.nanos == s.nanos + 100 * ticks,
    ensures
        model::filetime(t) == model::filetime(s) + ticks,
{
}

/// What a file system reports is kept: the size of a file, the attributes, and
/// the modification time as a file time; a directory has no size, and a time
/// that is not known is 0.
pub proof fn reported_metadata_is_kept(
    modified: Option<UnixTime>,
    is_dir: bool,
    len: u64,
    attrs: u32,
)
    requires
        modified matches Some(t) ==> t.nanos < 1_833_029_933_770_955_161_600,
    ensures
        ({
            let m = model::fs_meta(modified, is_dir, len, attrs);
            &&& m.attrs == attrs
            &&& !is_dir ==> m.size == len
            &&& is_dir ==> m.size == 0
            &&& modified is None ==> m.mtime == 0
            &&& modified matches Some(t) ==> (t.nanos >= 0 ==> 100 * (m.mtime
                - 116_444_736_000_000_000) <= t.nanos && t.nanos < 100 * (m.mtime
                - 116_444_736_000_000_000) + 100)
            &&& modified matches Some(t) ==> (-11_644_473_600_000_000_000 <= t.nanos < 0
                ==> t.nanos <= 100 * (m.mtime - 116_444_736_000_000_000) && 100 * (m.mtime
                - 116_444_736_000_000_000) < t.nanos + 100)
            &&& modified matches Some(t) ==> (t.nanos < -11_644_473_600_000_000_000 ==> m.mtime
                == 0)
        }),
{
    if let Some(t) = modified {
        filetimes_have_64_bits(t);
    }
}

/// A modification time before 1970 has no moment; any other that can be
/// converted has the moment whose file time it is.
pub proof fn moments_give_back_the_file_time(m: Meta)
    requires
        m.mtime <= 116_444_736_000_000_000 + 184_467_440_737_095_516,
    ensures
        model::moment_of(m) is None <==> m.mtime < 116_444_736_000_000_000,
        model::moment_of(m) matches Some(t) ==> {
            &&& t.nanos == 100 * (m.mtime - 116_444_736_000_000_000)
            &&& model::has_filetime(t)
            &&& model::filetime(t) == m.mtime
        },
{
}

} // verus!
