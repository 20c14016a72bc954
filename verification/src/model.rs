//! Scanned trees: file metadata, nodes, and the children of a directory.

use vstd::prelude::*;
use crate::text;

verus! {

/// 100 ns ticks between the Windows epoch (1601-01-01) and the Unix epoch
/// (1970-01-01), which are 11 644 473 600 seconds apart.
pub const EPOCH_TICKS: u64 = 116_444_736_000_000_000;

/// A moment as signed nanoseconds since the Unix epoch.
#[derive(Debug, Clone, Copy, PartialEq, Eq, Structural)]
pub struct UnixTime {
    pub nanos: i128,
}

/// The whole ticks of 100 ns between a moment and the Unix epoch, to either
/// side of it.
pub open spec fn ticks_from_epoch(t: UnixTime) -> int {
    if t.nanos >= 0 {
        t.nanos as int / 100
    } else {
        (-(t.nanos as int)) / 100
    }
}

/// Whether a moment has a file time: those after the epoch may lie too far in
/// the future, those before it are clamped.
pub open spec fn has_filetime(t: UnixTime) -> bool {
    t.nanos >= 0 ==> ticks_from_epoch(t) <= u64::MAX - EPOCH_TICKS
}

/// The Windows file time of a moment.
pub open spec fn filetime(t: UnixTime) -> int {
    if t.nanos >= 0 {
        EPOCH_TICKS + ticks_from_epoch(t)
    } else if ticks_from_epoch(t) <= EPOCH_TICKS {
        EPOCH_TICKS - ticks_from_epoch(t)
    } else {
        0
    }
}

impl UnixTime {
    /// Whole ticks between this moment and the Unix epoch, to either side.
    fn ticks(&self) -> (r: u128)
        ensures
            r == ticks_from_epoch(*self),
    {
        let magnitude: u128 = if self.nanos >= 0 {
            self.nanos as u128
        } else {
            (-(self.nanos + 1)) as u128 + 1
        };
        magnitude / 100
    }

    /// Whether this moment can be written as a Windows file time.
    pub fn fits_filetime(&self) -> (r: bool)
        ensures
            r == has_filetime(*self),
    {
        self.nanos < 0 || self.ticks() <= (u64::MAX - EPOCH_TICKS) as u128
    }
}

/// The Windows file time of `t`. Moments before 1970 are clamped into the
/// 1601..1970 range.
pub fn filetime_from_systemtime(t: UnixTime) -> (r: u64)
    requires
        has_filetime(t),
    ensures
        r == filetime(t),
{
    let ticks: u128 = t.ticks();
    if t.nanos >= 0 {
        EPOCH_TICKS + ticks as u64
    } else if ticks <= EPOCH_TICKS as u128 {
        EPOCH_TICKS - ticks as u64
    } else {
        0
    }
}

/// File metadata relevant for comparison. Modified time is stored in Windows
/// FILETIME units (100 ns ticks since 1601-01-01 UTC), the native NTFS format,
/// so MFT records need no conversion.
#[derive(Debug, Clone, Copy, PartialEq, Eq, Structural)]
pub struct Meta {
    pub size: u64,
    pub mtime: u64,
    /// Windows FILE_ATTRIBUTE_* bits (0 where unavailable).
    pub attrs: u32,
}

/// The metadata of a directory that is known only by the paths through it.
pub open spec fn no_meta() -> Meta {
    Meta { size: 0, mtime: 0, attrs: 0 }
}

impl Default for Meta {
    fn default() -> (r: Self)
        ensures
            r == no_meta(),
    {
        Meta { size: 0, mtime: 0, attrs: 0 }
    }
}

/// The metadata for what a file system reports.
pub open spec fn fs_meta(modified: Option<UnixTime>, is_dir: bool, len: u64, attrs: u32) -> Meta {
    Meta {
        size: if is_dir {
            0
        } else {
            len
        },
        mtime: match modified {
            Some(t) => filetime(t) as u64,
            None => 0,
        },
        attrs,
    }
}

/// The moment that a modification time stands for; `None` before 1970.
pub open spec fn moment_of(m: Meta) -> Option<UnixTime> {
    if m.mtime < EPOCH_TICKS {
        None
    } else {
        Some(UnixTime { nanos: ((m.mtime - EPOCH_TICKS) * 100) as i128 })
    }
}

impl Meta {
    /// Metadata out of what a file system reports: an unknown modification
    /// time is stored as 0, and a directory has no size.
    pub fn from_fs(modified: Option<UnixTime>, is_dir: bool, len: u64, attrs: u32) -> (r: Self)
        requires
            modified matches Some(t) ==> has_filetime(t),
        ensures
            r.size == (if is_dir { 0 } else { len }),
            r.mtime == (match modified {
                Some(t) => filetime(t),
                None => 0,
            }),
            r.attrs == attrs,
            r == fs_meta(modified, is_dir, len, attrs),
    {
        let mtime: u64 = match modified {
            Some(t) => filetime_from_systemtime(t),
            None => 0,
        };
        Meta {
            size: if is_dir {
                0
            } else {
                len
            },
            mtime,
            attrs,
        }
    }

    /// Whether the modification time, where it is not before 1970, is near
    /// enough for its nanoseconds to fit in 64 bits (until the year 2554).
    pub open spec fn mtime_representable(self) -> bool {
        self.mtime >= EPOCH_TICKS ==> (self.mtime - EPOCH_TICKS) * 100 <= u64::MAX
    }

    /// Whether the modification time can be converted into a moment.
    pub fn fits_moment(&self) -> (r: bool)
        ensures
            r == self.mtime_representable(),
    {
        self.mtime < EPOCH_TICKS || self.mtime - EPOCH_TICKS <= u64::MAX / 100
    }

    /// The modification time as a moment; `None` before 1970.
    pub fn mtime_systemtime(&self) -> (r: Option<UnixTime>)
        requires
            self.mtime_representable(),
        ensures
            self.mtime < EPOCH_TICKS <==> r is None,
            r matches Some(t) ==> t.nanos == (self.mtime - EPOCH_TICKS) * 100,
            r == moment_of(*self),
    {
        if self.mtime < EPOCH_TICKS {
            None
        } else {
            let nanos: u64 = (self.mtime - EPOCH_TICKS) * 100;
            Some(UnixTime { nanos: nanos as i128 })
        }
    }
}

/// A file time that converts to a moment converts back to itself.
pub proof fn filetime_round_trip(m: Meta, t: UnixTime)
    requires
        m.mtime_representable(),
        m.mtime >= EPOCH_TICKS,
        t.nanos == (m.mtime - EPOCH_TICKS) * 100,
    ensures
        has_filetime(t),
        filetime(t) == m.mtime,
{
}

/// A moment before 1970 gets a file time in the 1601..1970 range; one before
/// 1601 gets that of the Windows epoch.
pub proof fn early_filetimes_are_clamped(t: UnixTime)
    requires
        t.nanos < 0,
    ensures
        has_filetime(t),
        0 <= filetime(t) <= EPOCH_TICKS,
        t.nanos <= -100 * EPOCH_TICKS ==> filetime(t) == 0,
{
}

/// A node in a scanned tree. Children are keyed by lower-cased name for
/// case-insensitive matching (Windows semantics); the name as it is written is
/// kept in `name`.
#[derive(Debug)]
pub struct Node {
    pub name: String,
    pub is_dir: bool,
    pub meta: Meta,
    pub children: Children,
}

/// One child of a directory with the key it is found by.
#[derive(Debug)]
pub struct Child {
    pub key: String,
    pub node: Node,
}

/// The children of a directory: a map from keys to nodes, held in ascending
/// order of the keys.
#[derive(Debug)]
pub struct Children {
    pub entries: Vec<Child>,
}

/// What a [`Node`] stands for.
#[verifier::ext_equal]
pub struct NodeModel {
    pub name: Seq<char>,
    pub is_dir: bool,
    pub meta: Meta,
    pub children: Seq<ChildModel>,
}

/// What a [`Child`] stands for.
#[verifier::ext_equal]
pub struct ChildModel {
    pub key: Seq<char>,
    pub node: NodeModel,
}

/// The keys ascend strictly, so none occurs twice.
pub open spec fn keys_ascend(s: Seq<ChildModel>) -> bool {
    forall|i: int, j: int|
        0 <= i < j < s.len() ==> text::strictly_precedes(#[trigger] s[i].key, #[trigger] s[j].key)
}

impl NodeModel {
    /// Keys ascend in this node and in every node below it.
    pub open spec fn wf(self) -> bool
        decreases self,
    {
        &&& keys_ascend(self.children)
        &&& forall|i: int|
            0 <= i < self.children.len() ==> (#[trigger] self.children[i]).node.wf()
    }
}

/// The number of leading entries whose keys come before `key`: where `key`
/// stands, or belongs.
pub open spec fn place(s: Seq<ChildModel>, key: Seq<char>) -> int
    decreases s.len(),
{
    if s.len() == 0 {
        0
    } else if text::strictly_precedes(s.last().key, key) {
        s.len() as int
    } else {
        place(s.drop_last(), key)
    }
}

/// The node under `key`.
pub open spec fn lookup(s: Seq<ChildModel>, key: Seq<char>) -> Option<NodeModel> {
    let p = place(s, key);
    if 0 <= p < s.len() && s[p].key == key {
        Some(s[p].node)
    } else {
        None
    }
}

/// The entries with `node` under `key`, in place of what stood there.
pub open spec fn put(s: Seq<ChildModel>, key: Seq<char>, node: NodeModel) -> Seq<ChildModel> {
    let p = place(s, key);
    if lookup(s, key) is Some {
        s.update(p, ChildModel { key, node })
    } else {
        s.insert(p, ChildModel { key, node })
    }
}

impl Node {
    pub open spec fn model(self) -> NodeModel
        decreases self,
    {
        NodeModel {
            name: self.name@,
            is_dir: self.is_dir,
            meta: self.meta,
            children: self.children.model(),
        }
    }

    pub open spec fn wf(self) -> bool {
        self.model().wf()
    }
}

impl Child {
    pub open spec fn model(self) -> ChildModel
        decreases self,
    {
        ChildModel { key: self.key@, node: self.node.model() }
    }
}

impl Children {
    pub open spec fn model(self) -> Seq<ChildModel>
        decreases self,
    {
        Seq::new(
            self.entries@.len(),
            |i: int|
                if 0 <= i < self.entries@.len() {
                    self.entries@[i].model()
                } else {
                    arbitrary()
                },
        )
    }

    /// Keys ascend here and in every node below.
    pub open spec fn wf(self) -> bool {
        &&& keys_ascend(self.model())
        &&& forall|i: int| 0 <= i < self.model().len() ==> (#[trigger] self.model()[i]).node.wf()
    }
}

pub(crate) proof fn place_bounds(s: Seq<ChildModel>, key: Seq<char>)
    ensures
        0 <= place(s, key) <= s.len(),
        forall|i: int| place(s, key) <= i < s.len() ==> !text::strictly_precedes(
            #[trigger] s[i].key,
            key,
        ),
        place(s, key) > 0 ==> text::strictly_precedes(s[place(s, key) - 1].key, key),
    decreases s.len(),
{
    if s.len() > 0 && !text::strictly_precedes(s.last().key, key) {
        place_bounds(s.drop_last(), key);
        assert forall|i: int| place(s, key) <= i < s.len() implies !text::strictly_precedes(
            #[trigger] s[i].key,
            key,
        ) by {
            if i < s.len() - 1 {
                assert(s.drop_last()[i] == s[i]);
            }
        }
    }
}

/// Entries before the place come strictly before the key, the others do not.
pub(crate) proof fn place_splits(s: Seq<ChildModel>, key: Seq<char>, i: int)
    requires
        keys_ascend(s),
        0 <= i < s.len(),
    ensures
        text::strictly_precedes(s[i].key, key) <==> i < place(s, key),
{
    place_bounds(s, key);
    if i < place(s, key) - 1 {
        let j = place(s, key) - 1;
        text::strict_then_precedes(s[i].key, s[j].key, key);
    }
}

/// A split of the entries around `key` is its place.
pub(crate) proof fn place_is(s: Seq<ChildModel>, key: Seq<char>, p: int)
    requires
        keys_ascend(s),
        0 <= p <= s.len(),
        p > 0 ==> text::strictly_precedes(s[p - 1].key, key),
        p < s.len() ==> !text::strictly_precedes(s[p].key, key),
    ensures
        place(s, key) == p,
{
    place_bounds(s, key);
    if p > 0 {
        place_splits(s, key, p - 1);
    }
    if p < s.len() {
        place_splits(s, key, p);
    }
}

/// An entry is found by its key.
pub proof fn entry_is_found(s: Seq<ChildModel>, i: int)
    requires
        keys_ascend(s),
        0 <= i < s.len(),
    ensures
        place(s, s[i].key) == i,
        lookup(s, s[i].key) == Some(s[i].node),
{
    if i > 0 {
        assert(text::strictly_precedes(s[i - 1].key, s[i].key));
    }
    place_is(s, s[i].key, i);
}

/// What is found under a key is an entry with that key.
pub proof fn found_is_entry(s: Seq<ChildModel>, key: Seq<char>)
    requires
        lookup(s, key) is Some,
    ensures
        0 <= place(s, key) < s.len(),
        s[place(s, key)].key == key,
        Some(s[place(s, key)].node) == lookup(s, key),
{
}

/// Looking a key up in a list is looking at its last entry, then at the rest.
pub(crate) proof fn lookup_from_back(s: Seq<ChildModel>, key: Seq<char>)
    requires
        keys_ascend(s),
        s.len() > 0,
    ensures
        keys_ascend(s.drop_last()),
        lookup(s, key) == if s.last().key == key {
            Some(s.last().node)
        } else {
            lookup(s.drop_last(), key)
        },
        lookup(s.drop_last(), s.last().key) is None,
{
    let front = s.drop_last();
    let n = s.len() - 1;
    assert forall|i: int, j: int| 0 <= i < j < front.len() implies text::strictly_precedes(
        #[trigger] front[i].key,
        #[trigger] front[j].key,
    ) by {
        assert(front[i] == s[i] && front[j] == s[j]);
    }
    entry_is_found(s, n);
    assert(forall|i: int| 0 <= i < n ==> s[i].key != s[n].key);
    place_bounds(front, s.last().key);
    place_bounds(front, key);
    place_bounds(s, key);
    if text::strictly_precedes(s.last().key, key) && n > 0 {
        assert(text::strictly_precedes(s[n - 1].key, s[n].key));
        text::strict_then_precedes(s[n - 1].key, s[n].key, key);
    }
}

/// Putting a node under a key keeps the keys ascending; the key then holds the
/// node, and every other key holds what it held.
pub proof fn put_then_lookup(s: Seq<ChildModel>, key: Seq<char>, node: NodeModel, other: Seq<char>)
    requires
        keys_ascend(s),
    ensures
        keys_ascend(put(s, key, node)),
        lookup(put(s, key, node), key) == Some(node),
        other != key ==> lookup(put(s, key, node), other) == lookup(s, other),
{
    let p = place(s, key);
    let t = put(s, key, node);
    place_bounds(s, key);
    if lookup(s, key) is Some {
        assert forall|i: int, j: int| 0 <= i < j < t.len() implies text::strictly_precedes(
            #[trigger] t[i].key,
            #[trigger] t[j].key,
        ) by {
            assert(t[i].key == s[i].key && t[j].key == s[j].key);
        }
        entry_is_found(t, p);
        if other != key {
            let q = place(s, other);
            place_bounds(s, other);
            assert(q > 0 ==> t[q - 1].key == s[q - 1].key);
            assert(q < s.len() ==> t[q].key == s[q].key);
            place_is(t, other, q);
        }
    } else {
        if p < s.len() {
            text::not_strictly_before(s[p].key, key);
        }
        assert forall|i: int, j: int| 0 <= i < j < t.len() implies text::strictly_precedes(
            #[trigger] t[i].key,
            #[trigger] t[j].key,
        ) by {
            if i < p && j == p {
                place_splits(s, key, i);
            } else if i == p {
                if j - 1 > p {
                    text::strict_then_precedes(key, s[p].key, s[j - 1].key);
                }
            } else {
                let si = if i < p { i } else { i - 1 };
                let sj = if j < p { j } else { j - 1 };
                assert(t[i] == s[si] && t[j] == s[sj]);
            }
        }
        entry_is_found(t, p);
        if other != key {
            let q = place(s, other);
            place_bounds(s, other);
            text::precedes_total(key, other);
            if text::strictly_precedes(key, other) {
                assert(p <= q) by {
                    if q < p {
                        place_splits(s, key, q);
                        text::strict_then_precedes(s[q].key, key, other);
                    }
                }
                place_is(t, other, q + 1);
            } else {
                assert(q <= p) by {
                    if p < q {
                        place_splits(s, other, p);
                        text::not_strictly_before(key, other);
                        text::strict_then_precedes(s[p].key, other, key);
                    }
                }
                place_is(t, other, q);
            }
        }
    }
}

impl Children {
    /// No children.
    pub fn new() -> (r: Self)
        ensures
            r.model() == Seq::<ChildModel>::empty(),
            r.wf(),
    {
        let r = Children { entries: Vec::new() };
        assert(r.model() =~= Seq::<ChildModel>::empty());
        r
    }

    /// The number of children.
    pub fn len(&self) -> (r: usize)
        ensures
            r == self.model().len(),
    {
        self.entries.len()
    }

    /// Where `key` stands, or belongs, by binary search.
    fn place_of(&self, key: &str) -> (r: usize)
        requires
            keys_ascend(self.model()),
        ensures
            r == place(self.model(), key@),
    {
        let mut lo: usize = 0;
        let mut hi: usize = self.entries.len();
        while lo < hi
            invariant
                keys_ascend(self.model()),
                0 <= lo <= hi <= self.entries@.len(),
                lo > 0 ==> text::strictly_precedes(self.model()[lo - 1].key, key@),
                hi < self.entries@.len() ==> !text::strictly_precedes(
                    self.model()[hi as int].key,
                    key@,
                ),
            decreases hi - lo,
        {
            let mid: usize = lo + (hi - lo) / 2;
            let here = self.entries[mid].key.as_str();
            assert(here@ == self.model()[mid as int].key);
            if text::text_precedes(key, here) {
                proof {
                    if text::strictly_precedes(here@, key@) {
                        text::precedes_antisymmetric(here@, key@);
                    }
                }
                hi = mid;
            } else {
                proof {
                    text::precedes_total(key@, here@);
                    text::precedes_reflexive(key@);
                }
                lo = mid + 1;
            }
        }
        proof {
            place_is(self.model(), key@, lo as int);
        }
        lo
    }

    /// The node under `key`.
    pub fn get(&self, key: &str) -> (r: Option<&Node>)
        requires
            keys_ascend(self.model()),
        ensures
            r is Some <==> lookup(self.model(), key@) is Some,
            r matches Some(n) ==> lookup(self.model(), key@) == Some(n.model()),
    {
        let p: usize = self.place_of(key);
        if p < self.entries.len() {
            assert(self.entries@[p as int].model() == self.model()[p as int]);
            let k: &str = self.entries[p].key.as_str();
            if text::text_equals(k, key) {
                return Some(&self.entries[p].node);
            }
        }
        None
    }

    /// Puts `node` under `key` and gives back the node that stood there.
    pub fn insert(&mut self, key: String, node: Node) -> (r: Option<Node>)
        requires
            keys_ascend(old(self).model()),
        ensures
            final(self).model() == put(old(self).model(), key@, node.model()),
            keys_ascend(final(self).model()),
            old(self).wf() && node.wf() ==> final(self).wf(),
            r is Some <==> lookup(old(self).model(), key@) is Some,
            r matches Some(n) ==> lookup(old(self).model(), key@) == Some(n.model()),
            lookup(final(self).model(), key@) == Some(node.model()),
            forall|other: Seq<char>|
                other != key@ ==> #[trigger] lookup(final(self).model(), other) == lookup(
                    old(self).model(),
                    other,
                ),
    {
        let ghost before = self.model();
        let ghost n = node.model();
        let p: usize = self.place_of(key.as_str());
        proof {
            put_then_lookup(before, key@, n, key@);
            place_bounds(before, key@);
            assert forall|other: Seq<char>| other != key@ implies #[trigger] lookup(
                put(before, key@, n),
                other,
            ) == lookup(before, other) by {
                put_then_lookup(before, key@, n, other);
            }
        }
        if p < self.entries.len() {
            assert(self.entries@[p as int].model() == before[p as int]);
            if text::text_equals(self.entries[p].key.as_str(), key.as_str()) {
                let mut swapped = node;
                std::mem::swap(&mut self.entries[p].node, &mut swapped);
                assert(self.model() =~= put(before, key@, n));
                return Some(swapped);
            }
        }
        self.entries.insert(p, Child { key, node });
        assert(self.model() =~= put(before, key@, n));
        None
    }
}

/// The names of a path.
pub open spec fn names(components: Seq<&str>) -> Seq<Seq<char>> {
    components.map_values(|c: &str| c@)
}

/// A directory known only by the paths through it.
pub open spec fn placeholder(name: Seq<char>) -> NodeModel {
    NodeModel { name, is_dir: true, meta: no_meta(), children: Seq::empty() }
}

/// The tree `n` with `new` at `path`, whose components have these keys.
/// Directories that are missing on the way are created as placeholders; a node
/// that is already there keeps its children and takes over what `new` says of
/// itself.
pub open spec fn insert_keyed(
    n: NodeModel,
    path: Seq<Seq<char>>,
    keys: Seq<Seq<char>>,
    new: NodeModel,
) -> NodeModel
    decreases path.len(),
{
    if path.len() == 0 {
        NodeModel { meta: new.meta, is_dir: new.is_dir, ..n }
    } else {
        let there = lookup(n.children, keys[0]);
        let child = if path.len() == 1 {
            match there {
                Some(e) => NodeModel { children: e.children, ..new },
                None => new,
            }
        } else {
            let below = match there {
                Some(e) => e,
                None => placeholder(path[0]),
            };
            insert_keyed(below, path.drop_first(), keys.drop_first(), new)
        };
        NodeModel { children: put(n.children, keys[0], child), ..n }
    }
}

/// The tree `n` with `new` at `path`: every component is found by its name in
/// lower case.
pub open spec fn insert_path(n: NodeModel, path: Seq<Seq<char>>, new: NodeModel) -> NodeModel {
    insert_keyed(n, path, text::keys_of(path), new)
}

/// What the insertion of `new` at a path starts from below its first key.
pub open spec fn below_first(n: NodeModel, path: Seq<Seq<char>>) -> NodeModel {
    match lookup(n.children, text::lowercase(path[0])) {
        Some(e) => e,
        None => placeholder(path[0]),
    }
}

/// What the insertion of `new` at a path puts under its first key.
pub open spec fn under_first(n: NodeModel, path: Seq<Seq<char>>, new: NodeModel) -> NodeModel {
    if path.len() > 1 {
        insert_path(below_first(n, path), path.drop_first(), new)
    } else {
        match lookup(n.children, text::lowercase(path[0])) {
            Some(e) => NodeModel { children: e.children, ..new },
            None => new,
        }
    }
}

/// An insertion changes what stands under the first key of its path, and
/// nothing else.
pub(crate) proof fn insert_step(
    n: NodeModel,
    path: Seq<Seq<char>>,
    new: NodeModel,
    other: Seq<char>,
)
    requires
        keys_ascend(n.children),
        path.len() > 0,
    ensures
        ({
            let key = text::lowercase(path[0]);
            let after = insert_path(n, path, new);
            &&& after == (NodeModel {
                children: put(n.children, key, under_first(n, path, new)),
                ..n
            })
            &&& keys_ascend(after.children)
            &&& lookup(after.children, key) == Some(under_first(n, path, new))
            &&& other != key ==> lookup(after.children, other) == lookup(n.children, other)
            &&& n.wf() ==> below_first(n, path).wf()
        }),
{
    let key = text::lowercase(path[0]);
    text::keys_step(path);
    put_then_lookup(n.children, key, under_first(n, path, new), key);
    put_then_lookup(n.children, key, under_first(n, path, new), other);
}

/// Putting a well-formed node under a key keeps a node well-formed.
pub(crate) proof fn put_keeps_wf(n: NodeModel, key: Seq<char>, child: NodeModel)
    requires
        n.wf(),
        child.wf(),
    ensures
        (NodeModel { children: put(n.children, key, child), ..n }).wf(),
{
    let t = put(n.children, key, child);
    let p = place(n.children, key);
    put_then_lookup(n.children, key, child, key);
    place_bounds(n.children, key);
    assert forall|i: int| 0 <= i < t.len() implies (#[trigger] t[i]).node.wf() by {
        if i != p {
            let j = if i < p || lookup(n.children, key) is Some {
                i
            } else {
                i - 1
            };
            assert(t[i] == n.children[j]);
        }
    }
}

/// Inserting a well-formed node keeps a tree well-formed: keys stay ascending,
/// and none occurs twice.
pub proof fn insert_keeps_wf(
    n: NodeModel,
    path: Seq<Seq<char>>,
    keys: Seq<Seq<char>>,
    new: NodeModel,
)
    requires
        n.wf(),
        new.wf(),
    ensures
        insert_keyed(n, path, keys, new).wf(),
    decreases path.len(),
{
    if path.len() == 0 {
        assert(insert_keyed(n, path, keys, new).children == n.children);
    } else {
        let key = keys[0];
        let there = lookup(n.children, key);
        if path.len() == 1 {
            match there {
                Some(e) => {
                    let child = NodeModel { children: e.children, ..new };
                    assert(e.wf());
                    assert(child.wf());
                    put_keeps_wf(n, key, child);
                },
                None => {
                    put_keeps_wf(n, key, new);
                },
            }
        } else {
            let below = match there {
                Some(e) => e,
                None => placeholder(path[0]),
            };
            assert(below.wf());
            insert_keeps_wf(below, path.drop_first(), keys.drop_first(), new);
            put_keeps_wf(
                n,
                key,
                insert_keyed(below, path.drop_first(), keys.drop_first(), new),
            );
        }
    }
}

impl Node {
    pub fn new_dir(name: &str, meta: Meta) -> (r: Self)
        ensures
            r.model() == (NodeModel { name: name@, is_dir: true, meta, children: Seq::empty() }),
            r.wf(),
    {
        Node { name: name.to_owned(), is_dir: true, meta, children: Children::new() }
    }

    pub fn new_file(name: &str, meta: Meta) -> (r: Self)
        ensures
            r.model() == (NodeModel { name: name@, is_dir: false, meta, children: Seq::empty() }),
            r.wf(),
    {
        Node { name: name.to_owned(), is_dir: false, meta, children: Children::new() }
    }

    /// Insert a node at the given path (components relative to `self`),
    /// creating placeholder directories as needed. If the node already exists
    /// as a placeholder, its metadata is updated in place.
    pub fn insert_at(&mut self, components: &[&str], node: Node)
        requires
            old(self).wf(),
            node.wf(),
        ensures
            final(self).model() == insert_path(
                old(self).model(),
                names(components@),
                node.model(),
            ),
            final(self).wf(),
    {
        let mut keys: Vec<String> = Vec::new();
        let mut i: usize = 0;
        while i < components.len()
            invariant
                i <= components@.len(),
                keys@.len() == i,
                forall|j: int|
                    0 <= j < i ==> (#[trigger] keys@[j])@ == text::lowercase(components@[j]@),
            decreases components@.len() - i,
        {
            keys.push(text::to_lowercase(components[i]));
            i += 1;
        }
        assert(text::texts(keys@) =~= text::keys_of(names(components@)));
        self.insert_under(components, &keys, node);
    }

    /// As `insert_at`, given the key of each component.
    pub fn insert_under(&mut self, components: &[&str], keys: &Vec<String>, node: Node)
        requires
            old(self).wf(),
            node.wf(),
            keys@.len() == components@.len(),
        ensures
            final(self).model() == insert_keyed(
                old(self).model(),
                names(components@),
                text::texts(keys@),
                node.model(),
            ),
            final(self).wf(),
    {
        self.insert_from(components, keys, 0, node);
        assert(names(components@).skip(0) =~= names(components@));
        assert(text::texts(keys@).skip(0) =~= text::texts(keys@));
    }

    /// Inserts at the path that starts at component `at`.
    pub(crate) fn insert_from(
        &mut self,
        components: &[&str],
        keys: &Vec<String>,
        at: usize,
        node: Node,
    )
        requires
            old(self).wf(),
            node.wf(),
            keys@.len() == components@.len(),
            at <= components@.len(),
        ensures
            final(self).model() == insert_keyed(
                old(self).model(),
                names(components@).skip(at as int),
                text::texts(keys@).skip(at as int),
                node.model(),
            ),
            final(self).wf(),
        decreases components@.len() - at,
    {
        let ghost before = self.model();
        let ghost path = names(components@).skip(at as int);
        let ghost under = text::texts(keys@).skip(at as int);
        let ghost new = node.model();
        proof {
            insert_keeps_wf(before, path, under, new);
        }
        if at == components.len() {
            self.meta = node.meta;
            self.is_dir = node.is_dir;
            return;
        }
        let key = keys[at].clone();
        let ghost key_text = key@;
        assert(key@ == under[0]);
        let p: usize = self.children.place_of(key.as_str());
        let found = p < self.children.entries.len() && text::text_equals(
            self.children.entries[p].key.as_str(),
            key.as_str(),
        );
        proof {
            place_bounds(before.children, key@);
            if p < self.children.entries@.len() {
                assert(self.children.entries@[p as int].model() == before.children[p as int]);
            }
        }
        if at == components.len() - 1 {
            if found {
                self.children.entries[p].node.meta = node.meta;
                self.children.entries[p].node.is_dir = node.is_dir;
                self.children.entries[p].node.name = node.name;
                let ghost child = NodeModel {
                    children: before.children[p as int].node.children,
                    ..new
                };
                assert(self.children.entries@[p as int].node.model() == child);
                assert(self.model().children =~= put(before.children, key@, child));
            } else {
                self.children.insert(key, node);
            }
        } else {
            if !found {
                let fresh = Node::new_dir(components[at], Meta::default());
                self.children.entries.insert(p, Child { key, node: fresh });
            }
            let ghost below = self.children.entries@[p as int].node.model();
            let ghost with_below = self.children.model();
            assert(path.drop_first() =~= names(components@).skip(at + 1));
            assert(under.drop_first() =~= text::texts(keys@).skip(at + 1));
            self.children.entries[p].node.insert_from(components, keys, at + 1, node);
            let ghost child = insert_keyed(below, path.drop_first(), under.drop_first(), new);
            assert(self.children.model() =~= with_below.update(
                p as int,
                ChildModel { key: key_text, node: child },
            ));
            assert(self.model().children =~= put(before.children, key_text, child));
        }
    }
}

/// Numbers of files, directories and bytes.
pub struct Totals {
    pub files: nat,
    pub dirs: nat,
    pub bytes: nat,
}

impl Totals {
    pub open spec fn plus(self, o: Totals) -> Totals {
        Totals {
            files: self.files + o.files,
            dirs: self.dirs + o.dirs,
            bytes: self.bytes + o.bytes,
        }
    }

    /// Each number fits in 64 bits.
    pub open spec fn fits(self) -> bool {
        self.files <= u64::MAX && self.dirs <= u64::MAX && self.bytes <= u64::MAX
    }
}

/// What one child adds: a file itself and its bytes, a directory itself and
/// everything below it.
pub open spec fn totals_of_child(n: NodeModel) -> Totals
    decreases n, 0nat,
{
    if n.is_dir {
        (Totals { files: 0, dirs: 1, bytes: 0 }).plus(totals_of(n.children))
    } else {
        Totals { files: 1, dirs: 0, bytes: n.meta.size as nat }
    }
}

/// Totals over all children.
pub open spec fn totals_of(s: Seq<ChildModel>) -> Totals
    decreases s, 1nat,
{
    if s.len() == 0 {
        Totals { files: 0, dirs: 0, bytes: 0 }
    } else {
        totals_of(s.drop_last()).plus(totals_of_child(s.last().node))
    }
}

/// All nodes among and below the given ones.
pub open spec fn node_count(s: Seq<ChildModel>) -> nat
    decreases s,
{
    if s.len() == 0 {
        0
    } else {
        node_count(s.drop_last()) + 1 + node_count(s.last().node.children)
    }
}

pub(crate) proof fn node_count_grows(s: Seq<ChildModel>, i: int)
    requires
        0 <= i < s.len(),
    ensures
        node_count(s.take(i + 1)) == node_count(s.take(i)) + 1 + node_count(s[i].node.children),
        node_count(s.take(i + 1)) <= node_count(s),
    decreases s.len() - i,
{
    assert(s.take(i + 1).drop_last() =~= s.take(i));
    if i + 1 < s.len() {
        node_count_grows(s, i + 1);
    } else {
        assert(s.take(i + 1) =~= s);
    }
}

/// There are no more files than nodes.
pub(crate) proof fn files_within_nodes(s: Seq<ChildModel>)
    ensures
        totals_of(s).files <= node_count(s),
    decreases s,
{
    if s.len() > 0 {
        files_within_nodes(s.drop_last());
        files_within_nodes(s.last().node.children);
        reveal_with_fuel(totals_of, 2);
    }
}

proof fn totals_grow(s: Seq<ChildModel>, i: int)
    requires
        0 <= i < s.len(),
    ensures
        totals_of(s.take(i + 1)) == totals_of(s.take(i)).plus(totals_of_child(s[i].node)),
        totals_of(s.take(i + 1)).files <= totals_of(s).files,
        totals_of(s.take(i + 1)).dirs <= totals_of(s).dirs,
        totals_of(s.take(i + 1)).bytes <= totals_of(s).bytes,
    decreases s.len() - i,
{
    assert(s.take(i + 1).drop_last() =~= s.take(i));
    if i + 1 < s.len() {
        totals_grow(s, i + 1);
    } else {
        assert(s.take(i + 1) =~= s);
    }
}

impl Node {
    /// Total number of files / directories / bytes in this subtree (excluding
    /// self).
    pub fn totals(&self) -> (r: (u64, u64, u64))
        requires
            totals_of(self.model().children).fits(),
        ensures
            r.0 == totals_of(self.model().children).files,
            r.1 == totals_of(self.model().children).dirs,
            r.2 == totals_of(self.model().children).bytes,
    {
        match self.checked_totals() {
            Some(t) => t,
            None => (0, 0, 0),
        }
    }

    /// As `totals`; `None` if a number does not fit in 64 bits.
    pub fn checked_totals(&self) -> (r: Option<(u64, u64, u64)>)
        ensures
            r is Some <==> totals_of(self.model().children).fits(),
            r matches Some(t) ==> {
                &&& t.0 == totals_of(self.model().children).files
                &&& t.1 == totals_of(self.model().children).dirs
                &&& t.2 == totals_of(self.model().children).bytes
            },
        decreases self,
    {
        let ghost all = self.model().children;
        let mut files: u64 = 0;
        let mut dirs: u64 = 0;
        let mut bytes: u64 = 0;
        let mut i: usize = 0;
        assert(all.take(0) =~= Seq::<ChildModel>::empty());
        while i < self.children.entries.len()
            invariant
                all == self.model().children,
                i <= self.children.entries@.len(),
                files == totals_of(all.take(i as int)).files,
                dirs == totals_of(all.take(i as int)).dirs,
                bytes == totals_of(all.take(i as int)).bytes,
            decreases self.children.entries@.len() - i,
        {
            let child = &self.children.entries[i].node;
            proof {
                assert(all[i as int].node == child.model());
                totals_grow(all, i as int);
            }
            let own: (u64, u64, u64) = if child.is_dir {
                match child.checked_totals() {
                    Some((f, d, b)) => match d.checked_add(1) {
                        Some(d1) => (f, d1, b),
                        None => {
                            return None;
                        },
                    },
                    None => {
                        return None;
                    },
                }
            } else {
                (1, 0, child.meta.size)
            };
            match (
                files.checked_add(own.0),
                dirs.checked_add(own.1),
                bytes.checked_add(own.2),
            ) {
                (Some(f), Some(d), Some(b)) => {
                    files = f;
                    dirs = d;
                    bytes = b;
                },
                _ => {
                    return None;
                },
            }
            i += 1;
        }
        assert(all.take(i as int) =~= all);
        Some((files, dirs, bytes))
    }
}

impl Node {
    /// The number of nodes below this one; `None` if it does not fit in 64
    /// bits.
    pub fn checked_node_count(&self) -> (r: Option<u64>)
        ensures
            r is Some <==> node_count(self.model().children) <= u64::MAX,
            r matches Some(n) ==> n == node_count(self.model().children),
        decreases self,
    {
        let ghost all = self.model().children;
        let mut count: u64 = 0;
        let mut i: usize = 0;
        assert(all.take(0) =~= Seq::<ChildModel>::empty());
        while i < self.children.entries.len()
            invariant
                all == self.model().children,
                i <= self.children.entries@.len(),
                count == node_count(all.take(i as int)),
            decreases self.children.entries@.len() - i,
        {
            let child = &self.children.entries[i].node;
            proof {
                assert(all[i as int].node == child.model());
                node_count_grows(all, i as int);
            }
            let below: u64 = match child.checked_node_count() {
                Some(n) => n,
                None => {
                    return None;
                },
            };
            count = match count.checked_add(below) {
                Some(n) => match n.checked_add(1) {
                    Some(m) => m,
                    None => {
                        return None;
                    },
                },
                None => {
                    return None;
                },
            };
            i += 1;
        }
        assert(all.take(i as int) =~= all);
        Some(count)
    }

    /// A copy of the tree.
    fn duplicate(&self) -> (r: Self)
        ensures
            r.model() == self.model(),
        decreases self,
    {
        let mut entries: Vec<Child> = Vec::new();
        let mut i: usize = 0;
        while i < self.children.entries.len()
            invariant
                i <= self.children.entries@.len(),
                entries@.len() == i,
                forall|j: int|
                    0 <= j < i ==> (#[trigger] entries@[j]).model() == self.model().children[j],
            decreases self.children.entries@.len() - i,
        {
            let child = &self.children.entries[i];
            entries.push(Child { key: child.key.clone(), node: child.node.duplicate() });
            i += 1;
        }
        let r = Node {
            name: self.name.clone(),
            is_dir: self.is_dir,
            meta: self.meta,
            children: Children { entries },
        };
        assert(r.model().children =~= self.model().children);
        r
    }
}

impl Clone for Node {
    fn clone(&self) -> (r: Self)
        ensures
            r.model() == self.model(),
    {
        self.duplicate()
    }
}

} // verus!
