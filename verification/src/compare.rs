//! Comparing two scanned trees.

use vstd::prelude::*;
use crate::display_order;
use crate::model;
use crate::model::{ChildModel, Meta, Node, NodeModel};

verus! {

/// Timestamp comparison tolerance: 2 s in FILETIME (100 ns) units, to absorb
/// FAT's 2-second mtime resolution and DST-related copy skew.
pub const MTIME_TOLERANCE: u64 = 2 * 10_000_000;

#[derive(Debug, Clone, Copy, PartialEq, Eq, Structural)]
pub enum Status {
    Identical,
    LeftNewer,
    RightNewer,
    /// Same mtime but different size, or a file/directory type mismatch. Of a
    /// directory that both sides have: something in it differs.
    Different,
    LeftOnly,
    RightOnly,
}

/// Numbers of files by status.
#[derive(Debug, Clone, Copy, PartialEq, Eq, Structural)]
pub struct Counts {
    pub identical: u64,
    pub left_newer: u64,
    pub right_newer: u64,
    pub different: u64,
    pub left_only: u64,
    pub right_only: u64,
}

/// What [`Counts`] stands for: numbers without a limit.
pub struct Tally {
    pub identical: nat,
    pub left_newer: nat,
    pub right_newer: nat,
    pub different: nat,
    pub left_only: nat,
    pub right_only: nat,
}

impl Tally {
    pub open spec fn zero() -> Tally {
        Tally {
            identical: 0,
            left_newer: 0,
            right_newer: 0,
            different: 0,
            left_only: 0,
            right_only: 0,
        }
    }

    /// One file of the given status.
    pub open spec fn one(s: Status) -> Tally {
        Tally::many(s, 1)
    }

    pub open spec fn plus(self, o: Tally) -> Tally {
        Tally {
            identical: self.identical + o.identical,
            left_newer: self.left_newer + o.left_newer,
            right_newer: self.right_newer + o.right_newer,
            different: self.different + o.different,
            left_only: self.left_only + o.left_only,
            right_only: self.right_only + o.right_only,
        }
    }

    /// `n` files of the given status.
    pub open spec fn many(s: Status, n: nat) -> Tally {
        let z = Tally::zero();
        match s {
            Status::Identical => Tally { identical: n, ..z },
            Status::LeftNewer => Tally { left_newer: n, ..z },
            Status::RightNewer => Tally { right_newer: n, ..z },
            Status::Different => Tally { different: n, ..z },
            Status::LeftOnly => Tally { left_only: n, ..z },
            Status::RightOnly => Tally { right_only: n, ..z },
        }
    }

    /// Each number fits in 64 bits.
    pub open spec fn fits(self) -> bool {
        &&& self.identical <= u64::MAX
        &&& self.left_newer <= u64::MAX
        &&& self.right_newer <= u64::MAX
        &&& self.different <= u64::MAX
        &&& self.left_only <= u64::MAX
        &&& self.right_only <= u64::MAX
    }

    /// Files of any status but identical.
    pub open spec fn differing(self) -> nat {
        self.left_newer + self.right_newer + self.different + self.left_only + self.right_only
    }

    /// Files of any status.
    pub open spec fn total(self) -> nat {
        self.identical + self.differing()
    }

    /// No file differs.
    pub open spec fn in_sync(self) -> bool {
        self.differing() == 0
    }
}

impl Default for Counts {
    fn default() -> (r: Self)
        ensures
            r.model() == Tally::zero(),
    {
        Counts {
            identical: 0,
            left_newer: 0,
            right_newer: 0,
            different: 0,
            left_only: 0,
            right_only: 0,
        }
    }
}

impl Counts {
    pub open spec fn model(self) -> Tally {
        Tally {
            identical: self.identical as nat,
            left_newer: self.left_newer as nat,
            right_newer: self.right_newer as nat,
            different: self.different as nat,
            left_only: self.left_only as nat,
            right_only: self.right_only as nat,
        }
    }

    /// One file of status `s`.
    pub fn from_status(s: Status) -> (r: Self)
        ensures
            r.model() == Tally::one(s),
    {
        let mut c = Counts::default();
        match s {
            Status::Identical => {
                c.identical = 1;
            },
            Status::LeftNewer => {
                c.left_newer = 1;
            },
            Status::RightNewer => {
                c.right_newer = 1;
            },
            Status::Different => {
                c.different = 1;
            },
            Status::LeftOnly => {
                c.left_only = 1;
            },
            Status::RightOnly => {
                c.right_only = 1;
            },
        }
        c
    }

    /// True if nothing in this subtree differs.
    pub fn in_sync(&self) -> (r: bool)
        ensures
            r == self.model().in_sync(),
    {
        self.left_newer == 0 && self.right_newer == 0 && self.different == 0 && self.left_only == 0
            && self.right_only == 0
    }

    /// The number of files that differ.
    pub fn differing(&self) -> (r: u64)
        requires
            self.model().differing() <= u64::MAX,
        ensures
            r == self.model().differing(),
    {
        self.left_newer + self.right_newer + self.different + self.left_only + self.right_only
    }

    /// Adds the numbers of `o` to these.
    pub fn add_assign(&mut self, o: Counts)
        requires
            old(self).identical + o.identical <= u64::MAX,
            old(self).left_newer + o.left_newer <= u64::MAX,
            old(self).right_newer + o.right_newer <= u64::MAX,
            old(self).different + o.different <= u64::MAX,
            old(self).left_only + o.left_only <= u64::MAX,
            old(self).right_only + o.right_only <= u64::MAX,
        ensures
            final(self).model() == old(self).model().plus(o.model()),
    {
        self.identical += o.identical;
        self.left_newer += o.left_newer;
        self.right_newer += o.right_newer;
        self.different += o.different;
        self.left_only += o.left_only;
        self.right_only += o.right_only;
    }
}

/// A node in the merged diff tree.
#[derive(Debug)]
pub struct DiffNode {
    pub name: String,
    pub is_dir: bool,
    pub left: Option<Meta>,
    pub right: Option<Meta>,
    pub status: Status,
    /// Aggregate file counts for this subtree (directories) or just this
    /// file's own status (files).
    pub counts: Counts,
    pub children: Vec<DiffNode>,
}

/// What a [`DiffNode`] stands for.
#[verifier::ext_equal]
pub struct DiffModel {
    pub name: Seq<char>,
    pub is_dir: bool,
    pub left: Option<Meta>,
    pub right: Option<Meta>,
    pub status: Status,
    pub counts: Tally,
    pub children: Seq<DiffModel>,
}

impl DiffNode {
    pub open spec fn model(self) -> DiffModel
        decreases self,
    {
        DiffModel {
            name: self.name@,
            is_dir: self.is_dir,
            left: self.left,
            right: self.right,
            status: self.status,
            counts: self.counts.model(),
            children: Seq::new(
                self.children@.len(),
                |i: int|
                    if 0 <= i < self.children@.len() {
                        self.children@[i].model()
                    } else {
                        arbitrary()
                    },
            ),
        }
    }
}

/// What a list of diff nodes stands for.
pub open spec fn models(s: Seq<DiffNode>) -> Seq<DiffModel> {
    s.map_values(|d: DiffNode| d.model())
}

/// How two files of one name compare.
pub open spec fn status_of_files(l: Meta, r: Meta) -> Status {
    let apart = if l.mtime >= r.mtime {
        l.mtime - r.mtime
    } else {
        r.mtime - l.mtime
    };
    if apart <= MTIME_TOLERANCE {
        if l.size == r.size {
            Status::Identical
        } else {
            Status::Different
        }
    } else if l.mtime > r.mtime {
        Status::LeftNewer
    } else {
        Status::RightNewer
    }
}

/// Counts over a list of entries.
pub open spec fn sum_counts(s: Seq<DiffModel>) -> Tally
    decreases s.len(),
{
    if s.len() == 0 {
        Tally::zero()
    } else {
        sum_counts(s.drop_last()).plus(s.last().counts)
    }
}

/// A subtree that only one side has.
pub open spec fn one_sided_diff(n: NodeModel, status: Status) -> DiffModel
    decreases n, 0nat,
{
    let children = display_order::listing(one_sided_diffs(n.children, status));
    DiffModel {
        name: n.name,
        is_dir: n.is_dir,
        left: if status == Status::LeftOnly {
            Some(n.meta)
        } else {
            None
        },
        right: if status == Status::RightOnly {
            Some(n.meta)
        } else {
            None
        },
        status,
        counts: if n.is_dir {
            sum_counts(children)
        } else {
            Tally::one(status)
        },
        children,
    }
}

/// Children that only one side has, by ascending key.
pub open spec fn one_sided_diffs(s: Seq<ChildModel>, status: Status) -> Seq<DiffModel>
    decreases s, 1nat,
{
    if s.len() == 0 {
        Seq::empty()
    } else {
        one_sided_diffs(s.drop_last(), status).push(one_sided_diff(s.last().node, status))
    }
}

/// Two files of one name.
pub open spec fn file_diff(l: NodeModel, r: NodeModel) -> DiffModel {
    let status = status_of_files(l.meta, r.meta);
    DiffModel {
        name: l.name,
        is_dir: false,
        left: Some(l.meta),
        right: Some(r.meta),
        status,
        counts: Tally::one(status),
        children: Seq::empty(),
    }
}

/// A node that faces one of the other kind under its key: a type mismatch. It
/// is different, and shows what its own side has; what lies below it is on that
/// side only.
pub open spec fn clash_diff(n: NodeModel, side: Status) -> DiffModel {
    let alone = one_sided_diff(n, side);
    DiffModel {
        status: Status::Different,
        counts: if n.is_dir {
            alone.counts
        } else {
            Tally::one(Status::Different)
        },
        ..alone
    }
}

/// The entries for a left child and what the right side has under its key. A
/// file against a directory shows as two entries, one for each side.
pub open spec fn pair_diffs(l: NodeModel, r: Option<NodeModel>) -> Seq<DiffModel>
    decreases l, 1nat,
{
    match r {
        None => seq![one_sided_diff(l, Status::LeftOnly)],
        Some(r) => if l.is_dir != r.is_dir {
            seq![clash_diff(l, Status::LeftOnly), clash_diff(r, Status::RightOnly)]
        } else if l.is_dir {
            seq![tree_diff(l, r)]
        } else {
            seq![file_diff(l, r)]
        },
    }
}

/// The entries for all left children, by ascending key.
pub open spec fn left_diffs(ls: Seq<ChildModel>, rs: Seq<ChildModel>) -> Seq<DiffModel>
    decreases ls, 2nat,
{
    if ls.len() == 0 {
        Seq::empty()
    } else {
        left_diffs(ls.drop_last(), rs) + pair_diffs(
            ls.last().node,
            model::lookup(rs, ls.last().key),
        )
    }
}

/// The right children whose keys the left side lacks.
pub open spec fn unmatched(rs: Seq<ChildModel>, ls: Seq<ChildModel>) -> Seq<ChildModel>
    decreases rs.len(),
{
    if rs.len() == 0 {
        Seq::empty()
    } else if model::lookup(ls, rs.last().key) is Some {
        unmatched(rs.drop_last(), ls)
    } else {
        unmatched(rs.drop_last(), ls).push(rs.last())
    }
}

/// The diff tree of two directories: their entries matched by key and listed
/// in order, with the counts of everything below.
pub open spec fn tree_diff(l: NodeModel, r: NodeModel) -> DiffModel
    decreases l, 0nat,
{
    let entries = left_diffs(l.children, r.children) + one_sided_diffs(
        unmatched(r.children, l.children),
        Status::RightOnly,
    );
    let children = display_order::listing(entries);
    let counts = sum_counts(children);
    DiffModel {
        name: l.name,
        is_dir: true,
        left: Some(l.meta),
        right: Some(r.meta),
        status: if counts.in_sync() {
            Status::Identical
        } else {
            Status::Different
        },
        counts,
        children,
    }
}

pub(crate) proof fn sum_of_concat(a: Seq<DiffModel>, b: Seq<DiffModel>)
    ensures
        sum_counts(a + b) == sum_counts(a).plus(sum_counts(b)),
    decreases b.len(),
{
    if b.len() == 0 {
        assert(a + b =~= a);
    } else {
        sum_of_concat(a, b.drop_last());
        assert((a + b).drop_last() =~= a + b.drop_last());
        assert((a + b).last() == b.last());
    }
}

pub(crate) proof fn sum_of_push(s: Seq<DiffModel>, x: DiffModel)
    ensures
        sum_counts(s.push(x)) == sum_counts(s).plus(x.counts),
{
    assert(s.push(x).drop_last() =~= s);
}

proof fn sum_of_listed_with(s: Seq<DiffModel>, x: DiffModel)
    ensures
        sum_counts(display_order::listed_with(s, x)) == sum_counts(s).plus(x.counts),
    decreases s.len(),
{
    sum_of_push(s, x);
    if s.len() > 0 {
        sum_of_listed_with(s.drop_last(), x);
        sum_of_push(display_order::listed_with(s.drop_last(), x), s.last());
    }
}

/// Listing entries in order does not change what they count.
pub proof fn sum_of_listing(s: Seq<DiffModel>)
    ensures
        sum_counts(display_order::listing(s)) == sum_counts(s),
    decreases s.len(),
{
    if s.len() > 0 {
        sum_of_listing(s.drop_last());
        sum_of_listed_with(display_order::listing(s.drop_last()), s.last());
    }
}

proof fn sum_grows(s: Seq<DiffModel>, i: int)
    requires
        0 <= i < s.len(),
        sum_counts(s).fits(),
    ensures
        sum_counts(s.take(i + 1)) == sum_counts(s.take(i)).plus(s[i].counts),
        sum_counts(s.take(i + 1)).fits(),
    decreases s.len() - i,
{
    assert(s.take(i + 1).drop_last() =~= s.take(i));
    if i + 1 < s.len() {
        sum_grows(s, i + 1);
    } else {
        assert(s.take(i + 1) =~= s);
    }
}

/// Every file of a one-sided subtree counts under its status.
pub proof fn one_sided_counts(n: NodeModel, status: Status)
    ensures
        one_sided_diff(n, status).counts == Tally::many(
            status,
            model::totals_of_child(n).files,
        ),
    decreases n, 0nat,
{
    one_sided_sums(n.children, status);
    sum_of_listing(one_sided_diffs(n.children, status));
}

pub(crate) proof fn one_sided_sums(s: Seq<ChildModel>, status: Status)
    ensures
        sum_counts(one_sided_diffs(s, status)) == Tally::many(status, model::totals_of(s).files),
    decreases s, 1nat,
{
    if s.len() > 0 {
        one_sided_sums(s.drop_last(), status);
        one_sided_counts(s.last().node, status);
        sum_of_push(
            one_sided_diffs(s.drop_last(), status),
            one_sided_diff(s.last().node, status),
        );
    }
}

/// How two files of one name compare: by size where they were modified no more
/// than the tolerance apart, else by which is newer.
pub fn file_status(l: &Meta, r: &Meta) -> (s: Status)
    ensures
        s == status_of_files(*l, *r),
{
    let dt: u64 = if l.mtime >= r.mtime {
        l.mtime - r.mtime
    } else {
        r.mtime - l.mtime
    };
    if l.size == r.size && dt <= MTIME_TOLERANCE {
        Status::Identical
    } else if dt <= MTIME_TOLERANCE {
        Status::Different
    } else if l.mtime > r.mtime {
        Status::LeftNewer
    } else {
        Status::RightNewer
    }
}

/// Counts over a list of entries.
fn sum_of(children: &Vec<DiffNode>) -> (r: Counts)
    requires
        sum_counts(models(children@)).fits(),
    ensures
        r.model() == sum_counts(models(children@)),
{
    let ghost all = models(children@);
    let mut counts = Counts::default();
    let mut i: usize = 0;
    assert(all.take(0) =~= Seq::<DiffModel>::empty());
    while i < children.len()
        invariant
            all == models(children@),
            sum_counts(all).fits(),
            i <= children@.len(),
            counts.model() == sum_counts(all.take(i as int)),
        decreases children@.len() - i,
    {
        proof {
            sum_grows(all, i as int);
        }
        counts.add_assign(children[i].counts);
        i += 1;
    }
    assert(all.take(i as int) =~= all);
    counts
}

fn one_sided(node: &Node, status: Status) -> (r: DiffNode)
    requires
        model::node_count(node.model().children) <= u64::MAX,
    ensures
        r.model() == one_sided_diff(node.model(), status),
    decreases node,
{
    let ghost all = node.model().children;
    let mut children: Vec<DiffNode> = Vec::new();
    let mut i: usize = 0;
    assert(models(children@) =~= one_sided_diffs(all.take(0), status));
    while i < node.children.entries.len()
        invariant
            all == node.model().children,
            model::node_count(all) <= u64::MAX,
            i <= node.children.entries@.len(),
            models(children@) == one_sided_diffs(all.take(i as int), status),
        decreases node.children.entries@.len() - i,
    {
        let child = &node.children.entries[i].node;
        proof {
            assert(all[i as int].node == child.model());
            model::node_count_grows(all, i as int);
            assert(all.take(i + 1).drop_last() =~= all.take(i as int));
        }
        let ghost before = children@;
        children.push(one_sided(child, status));
        assert(models(children@) =~= models(before).push(one_sided_diff(child.model(), status)));
        i += 1;
    }
    assert(all.take(i as int) =~= all);
    let children = display_order::sorted(children);
    proof {
        one_sided_sums(all, status);
        sum_of_listing(one_sided_diffs(all, status));
        model::files_within_nodes(all);
    }
    let counts = if node.is_dir {
        sum_of(&children)
    } else {
        Counts::from_status(status)
    };
    let meta = Some(node.meta);
    let r = DiffNode {
        name: node.name.clone(),
        is_dir: node.is_dir,
        left: if status == Status::LeftOnly {
            meta
        } else {
            None
        },
        right: if status == Status::RightOnly {
            meta
        } else {
            None
        },
        status,
        counts,
        children,
    };
    assert(r.model().children =~= models(children@));
    r
}

/// The entry for one side of a type mismatch.
fn clash(node: &Node, side: Status) -> (r: DiffNode)
    requires
        model::node_count(node.model().children) <= u64::MAX,
    ensures
        r.model() == clash_diff(node.model(), side),
{
    let mut r = one_sided(node, side);
    let ghost alone = r.model();
    r.status = Status::Different;
    if !node.is_dir {
        r.counts = Counts::from_status(Status::Different);
    }
    assert(r.model().children =~= alone.children);
    r
}

pub(crate) proof fn sum_of_one(d: DiffModel)
    ensures
        sum_counts(seq![d]) == d.counts,
{
    assert(seq![d].drop_last() =~= Seq::<DiffModel>::empty());
    reveal_with_fuel(sum_counts, 2);
}

pub(crate) proof fn sum_of_two(a: DiffModel, b: DiffModel)
    ensures
        sum_counts(seq![a, b]) == a.counts.plus(b.counts),
{
    assert(seq![a, b].drop_last() =~= seq![a]);
    sum_of_one(a);
}

/// The counts of a diff tree are those of its entries before they are listed.
pub(crate) proof fn tree_counts(l: NodeModel, r: NodeModel)
    ensures
        tree_diff(l, r).counts == sum_counts(left_diffs(l.children, r.children)).plus(
            Tally::many(
                Status::RightOnly,
                model::totals_of(unmatched(r.children, l.children)).files,
            ),
        ),
{
    let left = left_diffs(l.children, r.children);
    let right = one_sided_diffs(unmatched(r.children, l.children), Status::RightOnly);
    sum_of_listing(left + right);
    sum_of_concat(left, right);
    one_sided_sums(unmatched(r.children, l.children), Status::RightOnly);
}

/// What one side of a type mismatch counts: a directory its files, as files of
/// that side only; a file itself, as different.
pub(crate) proof fn clash_counts(n: NodeModel, side: Status)
    ensures
        clash_diff(n, side).counts == if n.is_dir {
            Tally::many(side, model::totals_of_child(n).files)
        } else {
            Tally::one(Status::Different)
        },
{
    one_sided_counts(n, side);
}

/// Whether an entry shows what the left side has, or else the right side.
pub open spec fn shows_side(d: DiffModel, left: bool) -> bool {
    if left {
        d.left is Some
    } else {
        d.right is Some
    }
}

/// The files in a diff that one side has.
pub open spec fn side_files(d: DiffModel, left: bool) -> nat
    decreases d, 0nat,
{
    if d.is_dir {
        side_sum(d.children, left)
    } else if shows_side(d, left) {
        1
    } else {
        0
    }
}

/// The files among and below the entries that one side has.
pub open spec fn side_sum(s: Seq<DiffModel>, left: bool) -> nat
    decreases s, 1nat,
{
    if s.len() == 0 {
        0
    } else {
        side_sum(s.drop_last(), left) + side_files(s.last(), left)
    }
}

proof fn side_of_concat(a: Seq<DiffModel>, b: Seq<DiffModel>, left: bool)
    ensures
        side_sum(a + b, left) == side_sum(a, left) + side_sum(b, left),
    decreases b.len(),
{
    if b.len() == 0 {
        assert(a + b =~= a);
    } else {
        side_of_concat(a, b.drop_last(), left);
        assert((a + b).drop_last() =~= a + b.drop_last());
        assert((a + b).last() == b.last());
    }
}

proof fn side_of_push(s: Seq<DiffModel>, x: DiffModel, left: bool)
    ensures
        side_sum(s.push(x), left) == side_sum(s, left) + side_files(x, left),
{
    assert(s.push(x).drop_last() =~= s);
}

proof fn side_of_pair(s: Seq<DiffModel>, left: bool)
    requires
        s.len() == 1 || s.len() == 2,
    ensures
        s.len() == 1 ==> side_sum(s, left) == side_files(s[0], left),
        s.len() == 2 ==> side_sum(s, left) == side_files(s[0], left) + side_files(s[1], left),
{
    let none = Seq::<DiffModel>::empty();
    side_of_push(none, s[0], left);
    if s.len() == 1 {
        assert(s =~= none.push(s[0]));
    } else {
        side_of_push(none.push(s[0]), s[1], left);
        assert(s =~= none.push(s[0]).push(s[1]));
    }
}

proof fn side_of_listed_with(s: Seq<DiffModel>, x: DiffModel, left: bool)
    ensures
        side_sum(display_order::listed_with(s, x), left) == side_sum(s, left) + side_files(x, left),
    decreases s.len(),
{
    side_of_push(s, x, left);
    if s.len() > 0 {
        side_of_listed_with(s.drop_last(), x, left);
        side_of_push(display_order::listed_with(s.drop_last(), x), s.last(), left);
    }
}

proof fn side_of_listing(s: Seq<DiffModel>, left: bool)
    ensures
        side_sum(display_order::listing(s), left) == side_sum(s, left),
    decreases s.len(),
{
    if s.len() > 0 {
        side_of_listing(s.drop_last(), left);
        side_of_listed_with(display_order::listing(s.drop_last()), s.last(), left);
    }
}

/// A one-sided subtree shows the files of its side, and none of the other.
proof fn one_sided_side(n: NodeModel, status: Status, left: bool)
    requires
        status == Status::LeftOnly || status == Status::RightOnly,
    ensures
        side_files(one_sided_diff(n, status), left) == if (status == Status::LeftOnly) == left {
            model::totals_of_child(n).files
        } else {
            0
        },
        side_files(clash_diff(n, status), left) == side_files(one_sided_diff(n, status), left),
    decreases n, 0nat,
{
    one_sided_sides(n.children, status, left);
    side_of_listing(one_sided_diffs(n.children, status), left);
}

proof fn one_sided_sides(s: Seq<ChildModel>, status: Status, left: bool)
    requires
        status == Status::LeftOnly || status == Status::RightOnly,
    ensures
        side_sum(one_sided_diffs(s, status), left) == if (status == Status::LeftOnly) == left {
            model::totals_of(s).files
        } else {
            0
        },
    decreases s, 1nat,
{
    if s.len() > 0 {
        one_sided_sides(s.drop_last(), status, left);
        one_sided_side(s.last().node, status, left);
        side_of_push(
            one_sided_diffs(s.drop_last(), status),
            one_sided_diff(s.last().node, status),
            left,
        );
    }
}

/// Every left file shows exactly once: the files that the diff shows for the
/// left side are as many as the left tree has.
pub proof fn left_files_are_counted(l: NodeModel, r: NodeModel)
    ensures
        side_files(tree_diff(l, r), true) == model::totals_of(l.children).files,
    decreases l, 0nat,
{
    let left = left_diffs(l.children, r.children);
    let u = unmatched(r.children, l.children);
    let right = one_sided_diffs(u, Status::RightOnly);
    side_of_listing(left + right, true);
    side_of_concat(left, right, true);
    one_sided_sides(u, Status::RightOnly, true);
    left_diffs_show_left(l.children, r.children);
}

proof fn left_diffs_show_left(ls: Seq<ChildModel>, rs: Seq<ChildModel>)
    ensures
        side_sum(left_diffs(ls, rs), true) == model::totals_of(ls).files,
    decreases ls, 1nat,
{
    if ls.len() > 0 {
        let l = ls.last().node;
        let there = model::lookup(rs, ls.last().key);
        left_diffs_show_left(ls.drop_last(), rs);
        side_of_concat(left_diffs(ls.drop_last(), rs), pair_diffs(l, there), true);
        side_of_pair(pair_diffs(l, there), true);
        one_sided_side(l, Status::LeftOnly, true);
        if let Some(r) = there {
            if l.is_dir != r.is_dir {
                one_sided_side(r, Status::RightOnly, true);
            } else if l.is_dir {
                left_files_are_counted(l, r);
            }
        }
    }
}

/// No number but that of right-only files exceeds the nodes of the left tree,
/// even all of them together.
pub(crate) proof fn counts_within_left(l: NodeModel, r: NodeModel)
    ensures
        ({
            let c = tree_diff(l, r).counts;
            c.identical + c.left_newer + c.right_newer + c.different + c.left_only
                <= model::node_count(l.children)
        }),
    decreases l, 0nat,
{
    tree_counts(l, r);
    left_diffs_within_left(l.children, r.children);
}

proof fn left_diffs_within_left(ls: Seq<ChildModel>, rs: Seq<ChildModel>)
    ensures
        ({
            let c = sum_counts(left_diffs(ls, rs));
            c.identical + c.left_newer + c.right_newer + c.different + c.left_only
                <= model::node_count(ls)
        }),
    decreases ls, 1nat,
{
    if ls.len() > 0 {
        let l = ls.last().node;
        let there = model::lookup(rs, ls.last().key);
        left_diffs_within_left(ls.drop_last(), rs);
        sum_of_concat(left_diffs(ls.drop_last(), rs), pair_diffs(l, there));
        model::files_within_nodes(l.children);
        match there {
            None => {
                one_sided_counts(l, Status::LeftOnly);
                sum_of_one(one_sided_diff(l, Status::LeftOnly));
            },
            Some(r) => {
                if l.is_dir != r.is_dir {
                    clash_counts(l, Status::LeftOnly);
                    clash_counts(r, Status::RightOnly);
                    sum_of_two(
                        clash_diff(l, Status::LeftOnly),
                        clash_diff(r, Status::RightOnly),
                    );
                } else if l.is_dir {
                    counts_within_left(l, r);
                    sum_of_one(tree_diff(l, r));
                } else {
                    sum_of_one(file_diff(l, r));
                }
            },
        }
    }
}

/// Files of what the right side has under a key.
spec fn files_there(there: Option<NodeModel>) -> nat {
    match there {
        Some(r) => model::totals_of_child(r).files,
        None => 0,
    }
}

/// Files of all that the right side has under the keys of the left.
spec fn matched_files(ls: Seq<ChildModel>, rs: Seq<ChildModel>) -> nat
    decreases ls.len(),
{
    if ls.len() == 0 {
        0
    } else {
        matched_files(ls.drop_last(), rs) + files_there(model::lookup(rs, ls.last().key))
    }
}

pub(crate) proof fn totals_of_push(s: Seq<ChildModel>, c: ChildModel)
    ensures
        model::totals_of(s.push(c)).files == model::totals_of(s).files
            + model::totals_of_child(c.node).files,
{
    assert(s.push(c).drop_last() =~= s);
}

proof fn matching_one_more(ls: Seq<ChildModel>, rs: Seq<ChildModel>)
    requires
        model::keys_ascend(ls),
        model::keys_ascend(rs),
        ls.len() > 0,
    ensures
        model::totals_of(unmatched(rs, ls.drop_last())).files == model::totals_of(
            unmatched(rs, ls),
        ).files + files_there(model::lookup(rs, ls.last().key)),
    decreases rs.len(),
{
    let k = ls.last().key;
    if rs.len() > 0 {
        let c = rs.last();
        let front = rs.drop_last();
        model::lookup_from_back(rs, k);
        model::lookup_from_back(ls, c.key);
        matching_one_more(ls, front);
        totals_of_push(unmatched(front, ls), c);
        totals_of_push(unmatched(front, ls.drop_last()), c);
    }
}

proof fn matching_is_complete(ls: Seq<ChildModel>, rs: Seq<ChildModel>)
    requires
        model::keys_ascend(ls),
        model::keys_ascend(rs),
    ensures
        matched_files(ls, rs) + model::totals_of(unmatched(rs, ls)).files == model::totals_of(
            rs,
        ).files,
    decreases ls.len(),
{
    if ls.len() == 0 {
        unmatched_by_none(rs, ls);
    } else {
        model::lookup_from_back(ls, ls.last().key);
        matching_is_complete(ls.drop_last(), rs);
        matching_one_more(ls, rs);
    }
}

pub(crate) proof fn unmatched_by_none(rs: Seq<ChildModel>, ls: Seq<ChildModel>)
    requires
        ls.len() == 0,
    ensures
        unmatched(rs, ls) == rs,
    decreases rs.len(),
{
    if rs.len() > 0 {
        unmatched_by_none(rs.drop_last(), ls);
        assert(rs.drop_last().push(rs.last()) =~= rs);
    } else {
        assert(unmatched(rs, ls) =~= rs);
    }
}

/// Every right file shows exactly once: the files that the diff shows for the
/// right side are as many as the right tree has, and right-only ones are among
/// them.
pub proof fn right_files_are_counted(l: NodeModel, r: NodeModel)
    requires
        l.wf(),
        r.wf(),
    ensures
        side_files(tree_diff(l, r), false) == model::totals_of(r.children).files,
        tree_diff(l, r).counts.right_only <= model::totals_of(r.children).files,
    decreases l, 0nat,
{
    let left = left_diffs(l.children, r.children);
    let u = unmatched(r.children, l.children);
    let right = one_sided_diffs(u, Status::RightOnly);
    side_of_listing(left + right, false);
    side_of_concat(left, right, false);
    one_sided_sides(u, Status::RightOnly, false);
    tree_counts(l, r);
    left_diffs_show_right(l.children, r.children);
    matching_is_complete(l.children, r.children);
}

proof fn left_diffs_show_right(ls: Seq<ChildModel>, rs: Seq<ChildModel>)
    requires
        forall|i: int| 0 <= i < ls.len() ==> (#[trigger] ls[i]).node.wf(),
        forall|i: int| 0 <= i < rs.len() ==> (#[trigger] rs[i]).node.wf(),
    ensures
        side_sum(left_diffs(ls, rs), false) == matched_files(ls, rs),
        sum_counts(left_diffs(ls, rs)).right_only <= matched_files(ls, rs),
    decreases ls, 1nat,
{
    if ls.len() > 0 {
        let l = ls.last().node;
        let there = model::lookup(rs, ls.last().key);
        assert forall|i: int| 0 <= i < ls.drop_last().len() implies (
        #[trigger] ls.drop_last()[i]).node.wf() by {
            assert(ls.drop_last()[i] == ls[i]);
        }
        left_diffs_show_right(ls.drop_last(), rs);
        side_of_concat(left_diffs(ls.drop_last(), rs), pair_diffs(l, there), false);
        side_of_pair(pair_diffs(l, there), false);
        sum_of_concat(left_diffs(ls.drop_last(), rs), pair_diffs(l, there));
        one_sided_side(l, Status::LeftOnly, false);
        match there {
            None => {
                one_sided_counts(l, Status::LeftOnly);
                sum_of_one(one_sided_diff(l, Status::LeftOnly));
            },
            Some(r) => {
                if l.is_dir != r.is_dir {
                    one_sided_side(r, Status::RightOnly, false);
                    clash_counts(l, Status::LeftOnly);
                    clash_counts(r, Status::RightOnly);
                    sum_of_two(
                        clash_diff(l, Status::LeftOnly),
                        clash_diff(r, Status::RightOnly),
                    );
                } else if l.is_dir {
                    assert(ls[ls.len() - 1].node.wf());
                    right_files_are_counted(l, r);
                    sum_of_one(tree_diff(l, r));
                } else {
                    sum_of_one(file_diff(l, r));
                }
            },
        }
    }
}

/// Merge two scanned trees into a diff tree. `left` and `right` must be the
/// two root directories; their own names may differ and are not compared.
pub fn compare(left: &Node, right: &Node) -> (r: DiffNode)
    requires
        left.wf(),
        right.wf(),
        model::node_count(left.model().children) <= u64::MAX,
        model::node_count(right.model().children) <= u64::MAX,
    ensures
        r.model() == tree_diff(left.model(), right.model()),
    decreases left,
{
    let ghost ls = left.model().children;
    let ghost rs = right.model().children;
    let mut children: Vec<DiffNode> = Vec::new();
    let mut i: usize = 0;
    assert(models(children@) =~= left_diffs(ls.take(0), rs));
    while i < left.children.entries.len()
        invariant
            ls == left.model().children,
            rs == right.model().children,
            left.wf(),
            right.wf(),
            model::node_count(ls) <= u64::MAX,
            model::node_count(rs) <= u64::MAX,
            i <= left.children.entries@.len(),
            models(children@) == left_diffs(ls.take(i as int), rs),
        decreases left.children.entries@.len() - i,
    {
        let entry = &left.children.entries[i];
        let lchild = &entry.node;
        let there = right.children.get(entry.key.as_str());
        let ghost before = children@;
        let ghost l = lchild.model();
        proof {
            assert(ls[i as int] == entry.model());
            assert(ls[i as int].node.wf());
            model::node_count_grows(ls, i as int);
            assert(ls.take(i + 1).drop_last() =~= ls.take(i as int));
            if let Some(rchild) = there {
                model::found_is_entry(rs, entry.key@);
                let p = model::place(rs, entry.key@);
                assert(rs[p].node.wf());
                model::node_count_grows(rs, p);
            }
        }
        match there {
            Some(rchild) => {
                if lchild.is_dir != rchild.is_dir {
                    children.push(clash(lchild, Status::LeftOnly));
                    children.push(clash(rchild, Status::RightOnly));
                } else if lchild.is_dir {
                    children.push(compare(lchild, rchild));
                } else {
                    let status = file_status(&lchild.meta, &rchild.meta);
                    let d = DiffNode {
                        name: lchild.name.clone(),
                        is_dir: false,
                        left: Some(lchild.meta),
                        right: Some(rchild.meta),
                        status,
                        counts: Counts::from_status(status),
                        children: Vec::new(),
                    };
                    assert(d.model().children =~= Seq::<DiffModel>::empty());
                    children.push(d);
                }
            },
            None => {
                children.push(one_sided(lchild, Status::LeftOnly));
            },
        }
        assert(models(children@) =~= models(before) + pair_diffs(
            l,
            model::lookup(rs, entry.key@),
        ));
        i += 1;
    }
    assert(ls.take(i as int) =~= ls);

    let ghost left_part = models(children@);
    let mut j: usize = 0;
    assert(models(children@) =~= left_part + one_sided_diffs(
        unmatched(rs.take(0), ls),
        Status::RightOnly,
    ));
    while j < right.children.entries.len()
        invariant
            ls == left.model().children,
            rs == right.model().children,
            left.wf(),
            right.wf(),
            model::node_count(rs) <= u64::MAX,
            j <= right.children.entries@.len(),
            models(children@) == left_part + one_sided_diffs(
                unmatched(rs.take(j as int), ls),
                Status::RightOnly,
            ),
        decreases right.children.entries@.len() - j,
    {
        let entry = &right.children.entries[j];
        let ghost before = children@;
        proof {
            assert(rs[j as int] == entry.model());
            model::node_count_grows(rs, j as int);
            assert(rs.take(j + 1).drop_last() =~= rs.take(j as int));
        }
        if left.children.get(entry.key.as_str()).is_none() {
            children.push(one_sided(&entry.node, Status::RightOnly));
            proof {
                let u = unmatched(rs.take(j as int), ls);
                assert(u.push(rs[j as int]).drop_last() =~= u);
                assert(models(children@) =~= models(before).push(
                    one_sided_diff(entry.node.model(), Status::RightOnly),
                ));
            }
        }
        assert(models(children@) =~= left_part + one_sided_diffs(
            unmatched(rs.take(j + 1), ls),
            Status::RightOnly,
        ));
        j += 1;
    }
    assert(rs.take(j as int) =~= rs);

    let children = display_order::sorted(children);
    proof {
        counts_within_left(left.model(), right.model());
        right_files_are_counted(left.model(), right.model());
        model::files_within_nodes(rs);
    }
    let counts = sum_of(&children);
    let status = if counts.in_sync() {
        Status::Identical
    } else {
        Status::Different
    };
    let r = DiffNode {
        name: left.name.clone(),
        is_dir: true,
        left: Some(left.meta),
        right: Some(right.meta),
        status,
        counts,
        children,
    };
    assert(r.model().children =~= models(children@));
    r
}

/// As `compare`; `None` if a tree has more nodes than 64 bits can count.
pub fn checked_compare(left: &Node, right: &Node) -> (r: Option<DiffNode>)
    requires
        left.wf(),
        right.wf(),
    ensures
        r is Some <==> model::node_count(left.model().children) <= u64::MAX && model::node_count(
            right.model().children,
        ) <= u64::MAX,
        r matches Some(d) ==> d.model() == tree_diff(left.model(), right.model()),
{
    match (left.checked_node_count(), right.checked_node_count()) {
        (Some(_), Some(_)) => Some(compare(left, right)),
        _ => None,
    }
}

impl DiffNode {
    /// A copy of the diff tree.
    fn duplicate(&self) -> (r: Self)
        ensures
            r.model() == self.model(),
        decreases self,
    {
        let mut children: Vec<DiffNode> = Vec::new();
        let mut i: usize = 0;
        while i < self.children.len()
            invariant
                i <= self.children@.len(),
                children@.len() == i,
                forall|j: int|
                    0 <= j < i ==> (#[trigger] children@[j]).model() == self.model().children[j],
            decreases self.children@.len() - i,
        {
            let c = &self.children[i];
            children.push(c.duplicate());
            i += 1;
        }
        let r = DiffNode {
            name: self.name.clone(),
            is_dir: self.is_dir,
            left: self.left,
            right: self.right,
            status: self.status,
            counts: self.counts,
            children,
        };
        assert(r.model().children =~= self.model().children);
        r
    }
}

impl Clone for DiffNode {
    fn clone(&self) -> (r: Self)
        ensures
            r.model() == self.model(),
    {
        self.duplicate()
    }
}

} // verus!
