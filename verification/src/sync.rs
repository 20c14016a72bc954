//! One-way sync: planning what to copy, and keeping the books while a plan is
//! carried out.

use vstd::prelude::*;
use crate::compare::{DiffModel, DiffNode, Status, Tally};

verus! {

#[derive(Debug, Clone, Copy, PartialEq, Eq, Structural)]
pub enum Direction {
    LeftToRight,
    RightToLeft,
}

impl Direction {
    /// The status of what only the source side has.
    pub open spec fn only_status(self) -> Status {
        match self {
            Direction::LeftToRight => Status::LeftOnly,
            Direction::RightToLeft => Status::RightOnly,
        }
    }

    /// The status of what is newer on the source side.
    pub open spec fn newer_status(self) -> Status {
        match self {
            Direction::LeftToRight => Status::LeftNewer,
            Direction::RightToLeft => Status::RightNewer,
        }
    }

    /// Of a left and a right value the source's.
    pub open spec fn source<T>(self, l: T, r: T) -> T {
        match self {
            Direction::LeftToRight => l,
            Direction::RightToLeft => r,
        }
    }

    /// Of a left and a right value the destination's.
    pub open spec fn destination<T>(self, l: T, r: T) -> T {
        match self {
            Direction::LeftToRight => r,
            Direction::RightToLeft => l,
        }
    }

    /// The files among those counted that are missing or older on the
    /// destination side.
    pub open spec fn due(self, t: Tally) -> nat {
        match self {
            Direction::LeftToRight => t.left_only + t.left_newer,
            Direction::RightToLeft => t.right_only + t.right_newer,
        }
    }

    /// The source side has this and the destination side lacks it, whether
    /// nothing stands in its place there or something of the other kind.
    pub open spec fn is_missing(self, d: DiffModel) -> bool {
        d.status == self.only_status() || (d.status == Status::Different && self.source(
            d.left,
            d.right,
        ) is Some && self.destination(d.left, d.right) is None)
    }

    /// This is missing on the destination side, or is a file that is older
    /// there.
    pub open spec fn is_due(self, d: DiffModel) -> bool {
        self.is_missing(d) || (!d.is_dir && d.status == self.newer_status())
    }
}

/// A path as the list of its components.
#[derive(Debug)]
pub struct TreePath {
    pub components: Vec<String>,
}

impl View for TreePath {
    type V = Seq<Seq<char>>;

    open spec fn view(&self) -> Seq<Seq<char>> {
        self.components@.map_values(|c: String| c@)
    }
}

impl TreePath {
    /// The path with no components.
    pub fn new() -> (r: Self)
        ensures
            r@ == Seq::<Seq<char>>::empty(),
    {
        let r = TreePath { components: Vec::new() };
        assert(r@ =~= Seq::<Seq<char>>::empty());
        r
    }

    /// This path with one more component.
    pub fn join(&self, name: &str) -> (r: Self)
        ensures
            r@ == self@.push(name@),
    {
        let mut r = self.clone();
        let ghost before = r@;
        r.components.push(name.to_owned());
        assert(r@ =~= before.push(name@));
        r
    }
}

impl Clone for TreePath {
    fn clone(&self) -> (r: Self)
        ensures
            r@ == self@,
    {
        let mut components: Vec<String> = Vec::new();
        let mut i: usize = 0;
        while i < self.components.len()
            invariant
                i <= self.components@.len(),
                components@.len() == i,
                forall|j: int| 0 <= j < i ==> (#[trigger] components@[j])@ == self.components@[j]@,
            decreases self.components@.len() - i,
        {
            components.push(self.components[i].clone());
            i += 1;
        }
        let r = TreePath { components };
        assert(r@ =~= self@);
        r
    }
}

#[derive(Debug)]
pub enum SyncOp {
    CreateDir { dst: TreePath },
    Copy { src: TreePath, dst: TreePath, size: u64 },
}

/// What a [`SyncOp`] stands for.
pub enum OpModel {
    CreateDir { dst: Seq<Seq<char>> },
    Copy { src: Seq<Seq<char>>, dst: Seq<Seq<char>>, size: u64 },
}

impl SyncOp {
    pub open spec fn model(self) -> OpModel {
        match self {
            SyncOp::CreateDir { dst } => OpModel::CreateDir { dst: dst@ },
            SyncOp::Copy { src, dst, size } => OpModel::Copy { src: src@, dst: dst@, size },
        }
    }
}

impl Clone for SyncOp {
    fn clone(&self) -> (r: Self)
        ensures
            r.model() == self.model(),
    {
        match self {
            SyncOp::CreateDir { dst } => SyncOp::CreateDir { dst: dst.clone() },
            SyncOp::Copy { src, dst, size } => SyncOp::Copy {
                src: src.clone(),
                dst: dst.clone(),
                size: *size,
            },
        }
    }
}

/// What a list of operations stands for.
pub open spec fn op_models(s: Seq<SyncOp>) -> Seq<OpModel> {
    s.map_values(|op: SyncOp| op.model())
}

#[derive(Debug)]
pub struct SyncPlan {
    pub ops: Vec<SyncOp>,
    pub total_bytes: u64,
    pub total_files: u64,
}

/// The number of files that the operations copy.
pub open spec fn copied_files(ops: Seq<OpModel>) -> nat
    decreases ops.len(),
{
    if ops.len() == 0 {
        0
    } else {
        copied_files(ops.drop_last()) + (if ops.last() is Copy {
            1nat
        } else {
            0nat
        })
    }
}

/// The number of bytes that the operations copy.
pub open spec fn copied_bytes(ops: Seq<OpModel>) -> nat
    decreases ops.len(),
{
    if ops.len() == 0 {
        0
    } else {
        copied_bytes(ops.drop_last()) + (match ops.last() {
            OpModel::Copy { size, .. } => size as nat,
            OpModel::CreateDir { .. } => 0nat,
        })
    }
}

impl Default for SyncPlan {
    fn default() -> (r: Self)
        ensures
            r.ops@.len() == 0,
            r.wf(),
    {
        SyncPlan { ops: Vec::new(), total_bytes: 0, total_files: 0 }
    }
}

impl SyncPlan {
    /// The totals are those of the operations.
    pub open spec fn wf(self) -> bool {
        &&& self.total_files == copied_files(op_models(self.ops@))
        &&& self.total_bytes == copied_bytes(op_models(self.ops@))
    }
}

/// The operation that brings a node at the paths `l` and `r` over to the
/// destination side.
pub open spec fn op_for(
    d: DiffModel,
    l: Seq<Seq<char>>,
    r: Seq<Seq<char>>,
    dir: Direction,
) -> OpModel {
    let dst = dir.destination(l, r);
    if d.is_dir {
        OpModel::CreateDir { dst }
    } else {
        let size = match dir.source(d.left, d.right) {
            Some(m) => m.size,
            None => 0,
        };
        OpModel::Copy { src: dir.source(l, r), dst, size }
    }
}

/// The operation for the node itself, if it is due.
pub open spec fn own_ops(
    d: DiffModel,
    l: Seq<Seq<char>>,
    r: Seq<Seq<char>>,
    dir: Direction,
) -> Seq<OpModel> {
    if dir.is_due(d) {
        seq![op_for(d, l, r, dir)]
    } else {
        Seq::empty()
    }
}

/// The operations for a node at the paths `l` and `r`. A directory that is
/// missing on the destination side is created, and every directory is entered.
/// A file that is missing or older there is copied.
pub open spec fn node_ops(
    d: DiffModel,
    l: Seq<Seq<char>>,
    r: Seq<Seq<char>>,
    dir: Direction,
) -> Seq<OpModel>
    decreases d, 0nat,
{
    if d.is_dir {
        own_ops(d, l, r, dir) + children_ops(d.children, l, r, dir)
    } else {
        own_ops(d, l, r, dir)
    }
}

/// The operations for the entries of a directory at the paths `l` and `r`.
pub open spec fn children_ops(
    s: Seq<DiffModel>,
    l: Seq<Seq<char>>,
    r: Seq<Seq<char>>,
    dir: Direction,
) -> Seq<OpModel>
    decreases s, 1nat,
{
    if s.len() == 0 {
        Seq::empty()
    } else {
        children_ops(s.drop_last(), l, r, dir) + node_ops(
            s.last(),
            l.push(s.last().name),
            r.push(s.last().name),
            dir,
        )
    }
}

pub(crate) proof fn copies_of_concat(a: Seq<OpModel>, b: Seq<OpModel>)
    ensures
        copied_files(a + b) == copied_files(a) + copied_files(b),
        copied_bytes(a + b) == copied_bytes(a) + copied_bytes(b),
    decreases b.len(),
{
    if b.len() == 0 {
        assert(a + b =~= a);
    } else {
        copies_of_concat(a, b.drop_last());
        assert((a + b).drop_last() =~= a + b.drop_last());
        assert((a + b).last() == b.last());
    }
}

pub(crate) proof fn copies_of_one(op: OpModel)
    ensures
        copied_files(seq![op]) == (if op is Copy {
            1nat
        } else {
            0nat
        }),
        copied_bytes(seq![op]) == (match op {
            OpModel::Copy { size, .. } => size as nat,
            OpModel::CreateDir { .. } => 0nat,
        }),
{
    reveal_with_fuel(copied_files, 2);
    reveal_with_fuel(copied_bytes, 2);
    assert(seq![op].drop_last() =~= Seq::<OpModel>::empty());
}

proof fn children_ops_grow(
    s: Seq<DiffModel>,
    l: Seq<Seq<char>>,
    r: Seq<Seq<char>>,
    dir: Direction,
    i: int,
)
    requires
        0 <= i < s.len(),
    ensures
        children_ops(s.take(i + 1), l, r, dir) == children_ops(s.take(i), l, r, dir) + node_ops(
            s[i],
            l.push(s[i].name),
            r.push(s[i].name),
            dir,
        ),
        copied_bytes(children_ops(s.take(i + 1), l, r, dir)) == copied_bytes(
            children_ops(s.take(i), l, r, dir),
        ) + copied_bytes(node_ops(s[i], l.push(s[i].name), r.push(s[i].name), dir)),
        copied_bytes(children_ops(s.take(i + 1), l, r, dir)) <= copied_bytes(
            children_ops(s, l, r, dir),
        ),
    decreases s.len() - i,
{
    assert(s.take(i + 1).drop_last() =~= s.take(i));
    copies_of_concat(
        children_ops(s.take(i), l, r, dir),
        node_ops(s[i], l.push(s[i].name), r.push(s[i].name), dir),
    );
    if i + 1 < s.len() {
        children_ops_grow(s, l, r, dir, i + 1);
    } else {
        assert(s.take(i + 1) =~= s);
    }
}

/// Build the list of operations to make the destination side contain
/// everything that is missing or older there. Copies source-only and
/// source-newer files; never deletes, never overwrites a strictly newer
/// destination file.
pub fn plan(
    diff: &DiffNode,
    left_root: &TreePath,
    right_root: &TreePath,
    direction: Direction,
) -> (r: SyncPlan)
    requires
        copied_bytes(node_ops(diff.model(), left_root@, right_root@, direction)) <= u64::MAX,
    ensures
        op_models(r.ops@) == node_ops(diff.model(), left_root@, right_root@, direction),
        r.wf(),
{
    match checked_plan(diff, left_root, right_root, direction) {
        Some(p) => p,
        None => SyncPlan::default(),
    }
}

/// As `plan`; `None` if the bytes to copy do not fit in 64 bits.
pub fn checked_plan(
    diff: &DiffNode,
    left_root: &TreePath,
    right_root: &TreePath,
    direction: Direction,
) -> (r: Option<SyncPlan>)
    ensures
        r is Some <==> copied_bytes(
            node_ops(diff.model(), left_root@, right_root@, direction),
        ) <= u64::MAX,
        r matches Some(p) ==> {
            &&& op_models(p.ops@) == node_ops(diff.model(), left_root@, right_root@, direction)
            &&& p.wf()
        },
{
    let mut p = SyncPlan::default();
    assert(op_models(p.ops@) =~= Seq::<OpModel>::empty());
    if walk(diff, left_root, right_root, direction, &mut p) {
        assert(op_models(p.ops@) =~= node_ops(
            diff.model(),
            left_root@,
            right_root@,
            direction,
        ));
        Some(p)
    } else {
        None
    }
}

/// Adds one operation to the plan.
fn add_op(p: &mut SyncPlan, op: SyncOp)
    requires
        old(p).wf(),
        copied_bytes(op_models(old(p).ops@)) + copied_bytes(seq![op.model()]) <= u64::MAX,
    ensures
        final(p).wf(),
        op_models(final(p).ops@) == op_models(old(p).ops@).push(op.model()),
{
    let ghost before = op_models(p.ops@);
    let ghost m = op.model();
    let size: Option<u64> = match &op {
        SyncOp::Copy { size, .. } => Some(*size),
        SyncOp::CreateDir { .. } => None,
    };
    p.ops.push(op);
    let n: usize = p.ops.len();
    proof {
        assert(op_models(p.ops@) =~= before.push(m));
        assert(before.push(m).drop_last() =~= before);
        copies_of_one(m);
        copies_within_ops(before);
    }
    if let Some(size) = size {
        p.total_bytes = p.total_bytes + size;
        p.total_files = p.total_files + 1;
    }
}

proof fn copies_within_ops(ops: Seq<OpModel>)
    ensures
        copied_files(ops) <= ops.len(),
    decreases ops.len(),
{
    if ops.len() > 0 {
        copies_within_ops(ops.drop_last());
    }
}

/// Adds the operations for `node`, which stands at the paths `l` and `r`.
/// False if the bytes to copy no longer fit in 64 bits.
fn walk(node: &DiffNode, l: &TreePath, r: &TreePath, dir: Direction, p: &mut SyncPlan) -> (fits:
    bool)
    requires
        old(p).wf(),
    ensures
        fits <==> old(p).total_bytes + copied_bytes(node_ops(node.model(), l@, r@, dir))
            <= u64::MAX,
        fits ==> {
            &&& final(p).wf()
            &&& op_models(final(p).ops@) == op_models(old(p).ops@) + node_ops(
                node.model(),
                l@,
                r@,
                dir,
            )
        },
    decreases node,
{
    let ghost before = op_models(p.ops@);
    let ghost all = node_ops(node.model(), l@, r@, dir);
    let ghost own = own_ops(node.model(), l@, r@, dir);
    let (only_here, newer_here) = match dir {
        Direction::LeftToRight => (Status::LeftOnly, Status::LeftNewer),
        Direction::RightToLeft => (Status::RightOnly, Status::RightNewer),
    };
    let one_sided = match dir {
        Direction::LeftToRight => node.left.is_some() && node.right.is_none(),
        Direction::RightToLeft => node.right.is_some() && node.left.is_none(),
    };
    let missing = node.status == only_here || (node.status == Status::Different && one_sided);
    assert(missing == dir.is_missing(node.model()));
    if node.is_dir {
        if missing {
            let dst = match dir {
                Direction::LeftToRight => r.clone(),
                Direction::RightToLeft => l.clone(),
            };
            proof {
                copies_of_one(OpModel::CreateDir { dst: dst@ });
            }
            add_op(p, SyncOp::CreateDir { dst });
        }
        assert(op_models(p.ops@) =~= before + own);
        proof {
            if missing {
                copies_of_one(own[0]);
            }
            assert(copied_bytes(own) == 0);
            copies_of_concat(before, own);
        }
        let ghost children = node.model().children;
        let ghost below = children_ops(children, l@, r@, dir);
        let ghost base = op_models(p.ops@);
        proof {
            copies_of_concat(own, below);
        }
        let mut i: usize = 0;
        assert(base =~= base + children_ops(children.take(0), l@, r@, dir));
        while i < node.children.len()
            invariant
                i <= node.children@.len(),
                children == node.model().children,
                below == children_ops(children, l@, r@, dir),
                p.wf(),
                old(p).total_bytes == copied_bytes(base),
                op_models(p.ops@) == base + children_ops(children.take(i as int), l@, r@, dir),
                all == own + below,
                copied_bytes(all) == copied_bytes(below),
                all == node_ops(node.model(), l@, r@, dir),
            decreases node.children@.len() - i,
        {
            let c = &node.children[i];
            assert(children[i as int] == c.model());
            let cl = l.join(c.name.as_str());
            let cr = r.join(c.name.as_str());
            let ghost so_far = op_models(p.ops@);
            let ghost done = children_ops(children.take(i as int), l@, r@, dir);
            let ghost more = node_ops(c.model(), cl@, cr@, dir);
            proof {
                children_ops_grow(children, l@, r@, dir, i as int);
                copies_of_concat(base, done);
                copies_of_concat(done, more);
            }
            if !walk(c, &cl, &cr, dir, p) {
                return false;
            }
            assert(so_far + more =~= base + (done + more));
            i += 1;
        }
        proof {
            assert(children.take(i as int) =~= children);
            assert((before + own) + below =~= before + all);
            copies_of_concat(base, below);
        }
        true
    } else if missing || node.status == newer_here {
        let size: u64 = match dir {
            Direction::LeftToRight => match node.left {
                Some(m) => m.size,
                None => 0,
            },
            Direction::RightToLeft => match node.right {
                Some(m) => m.size,
                None => 0,
            },
        };
        let (src, dst) = match dir {
            Direction::LeftToRight => (l.clone(), r.clone()),
            Direction::RightToLeft => (r.clone(), l.clone()),
        };
        let ghost op = OpModel::Copy { src: src@, dst: dst@, size };
        proof {
            copies_of_one(op);
            assert(all =~= seq![op]);
        }
        if size > u64::MAX - p.total_bytes {
            return false;
        }
        add_op(p, SyncOp::Copy { src, dst, size });
        assert(op_models(p.ops@) =~= before + all);
        true
    } else {
        assert(before + all =~= before);
        true
    }
}

#[derive(Debug)]
pub struct Progress {
    pub done_files: u64,
    pub done_bytes: u64,
    pub total_files: u64,
    pub total_bytes: u64,
    pub current: TreePath,
}

impl Clone for Progress {
    fn clone(&self) -> (r: Self)
        ensures
            r.done_files == self.done_files,
            r.done_bytes == self.done_bytes,
            r.total_files == self.total_files,
            r.total_bytes == self.total_bytes,
            r.current@ == self.current@,
    {
        Progress {
            done_files: self.done_files,
            done_bytes: self.done_bytes,
            total_files: self.total_files,
            total_bytes: self.total_bytes,
            current: self.current.clone(),
        }
    }
}

/// What came of a plan. Each error is the path it is about and its message.
#[derive(Debug)]
pub struct SyncOutcome {
    pub copied_files: u64,
    pub copied_bytes: u64,
    pub errors: Vec<(TreePath, String)>,
}

/// What a [`SyncOutcome`] stands for.
#[verifier::ext_equal]
pub struct OutcomeModel {
    pub copied_files: nat,
    pub copied_bytes: nat,
    pub errors: Seq<(Seq<Seq<char>>, Seq<char>)>,
}

impl SyncOutcome {
    pub open spec fn model(self) -> OutcomeModel {
        OutcomeModel {
            copied_files: self.copied_files as nat,
            copied_bytes: self.copied_bytes as nat,
            errors: self.errors@.map_values(|e: (TreePath, String)| (e.0@, e.1@)),
        }
    }
}

/// Nothing done yet.
pub open spec fn nothing_done() -> OutcomeModel {
    OutcomeModel { copied_files: 0, copied_bytes: 0, errors: Seq::empty() }
}

/// The outcome after one more operation, which went well (`None`) or failed
/// with a message. A failed copy is reported under its source.
pub open spec fn after_op(
    o: OutcomeModel,
    op: OpModel,
    failure: Option<Seq<char>>,
) -> OutcomeModel {
    match (op, failure) {
        (OpModel::CreateDir { .. }, None) => o,
        (OpModel::CreateDir { dst }, Some(e)) => OutcomeModel {
            errors: o.errors.push((dst, e)),
            ..o
        },
        (OpModel::Copy { size, .. }, None) => OutcomeModel {
            copied_files: o.copied_files + 1,
            copied_bytes: o.copied_bytes + size as nat,
            ..o
        },
        (OpModel::Copy { src, .. }, Some(e)) => OutcomeModel {
            errors: o.errors.push((src, e)),
            ..o
        },
    }
}

/// The outcome of a list of operations, given how each of them went.
pub open spec fn outcome_of(ops: Seq<OpModel>, failures: Seq<Option<Seq<char>>>) -> OutcomeModel
    decreases ops.len(),
{
    if ops.len() == 0 {
        nothing_done()
    } else {
        after_op(
            outcome_of(ops.drop_last(), failures.drop_last()),
            ops.last(),
            failures.last(),
        )
    }
}

/// What is reported once an operation is done: after each file the files and
/// bytes copied so far, all of them, and where the file went.
pub open spec fn reported(
    o: OutcomeModel,
    op: OpModel,
    total_files: u64,
    total_bytes: u64,
    p: Option<Progress>,
) -> bool {
    match op {
        OpModel::CreateDir { .. } => p is None,
        OpModel::Copy { dst, .. } => p matches Some(q) && q.done_files == o.copied_files
            && q.done_bytes == o.copied_bytes && q.total_files == total_files && q.total_bytes
            == total_bytes && q.current@ == dst,
    }
}

/// A plan being carried out: which operation is next, and what came of those
/// before it.
#[derive(Debug)]
pub struct SyncRun {
    pub next: usize,
    pub outcome: SyncOutcome,
}

impl SyncRun {
    /// The run has not gone past the end of the plan, nor copied more than the
    /// operations that it has done.
    pub open spec fn wf(self, plan: SyncPlan) -> bool {
        &&& plan.wf()
        &&& self.next <= plan.ops@.len()
        &&& self.outcome.copied_files <= copied_files(op_models(plan.ops@).take(self.next as int))
        &&& self.outcome.copied_bytes <= copied_bytes(op_models(plan.ops@).take(self.next as int))
    }

    /// A run that has done nothing yet.
    pub fn new() -> (r: Self)
        ensures
            r.next == 0,
            r.outcome.model() == nothing_done(),
            forall|plan: SyncPlan| plan.wf() ==> #[trigger] r.wf(plan),
    {
        let r = SyncRun {
            next: 0,
            outcome: SyncOutcome { copied_files: 0, copied_bytes: 0, errors: Vec::new() },
        };
        assert(r.outcome.model() =~= nothing_done());
        r
    }

    /// The operation to carry out next; `None` once the plan is done.
    pub fn next_op<'a>(&self, plan: &'a SyncPlan) -> (r: Option<&'a SyncOp>)
        ensures
            r is Some <==> self.next < plan.ops@.len(),
            r matches Some(op) ==> *op == plan.ops@[self.next as int],
    {
        if self.next < plan.ops.len() {
            Some(&plan.ops[self.next])
        } else {
            None
        }
    }

    /// Books how the next operation went: `failure` is the message if it
    /// failed. After each file there is progress to report.
    pub fn record(&mut self, plan: &SyncPlan, failure: Option<String>) -> (r: Option<Progress>)
        requires
            old(self).wf(*plan),
            old(self).next < plan.ops@.len(),
        ensures
            final(self).wf(*plan),
            final(self).next == old(self).next + 1,
            final(self).outcome.model() == after_op(
                old(self).outcome.model(),
                plan.ops@[old(self).next as int].model(),
                match failure {
                    Some(e) => Some(e@),
                    None => None,
                },
            ),
            match plan.ops@[old(self).next as int] {
                SyncOp::CreateDir { .. } => r is None,
                SyncOp::Copy { dst, .. } => r matches Some(p) && {
                    &&& p.done_files == final(self).outcome.copied_files
                    &&& p.done_bytes == final(self).outcome.copied_bytes
                    &&& p.total_files == plan.total_files
                    &&& p.total_bytes == plan.total_bytes
                    &&& p.done_files <= p.total_files
                    &&& p.done_bytes <= p.total_bytes
                    &&& p.current@ == dst@
                },
            },
            reported(
                final(self).outcome.model(),
                plan.ops@[old(self).next as int].model(),
                plan.total_files,
                plan.total_bytes,
                r,
            ),
    {
        let ghost ops = op_models(plan.ops@);
        let ghost errors = self.outcome.model().errors;
        let ghost n = self.next as int;
        proof {
            copies_of_prefix(ops, n + 1);
            copies_of_prefix(ops, n);
            assert(ops.take(n + 1).drop_last() =~= ops.take(n));
        }
        let count: usize = plan.ops.len();
        assert(n < count);
        match &plan.ops[self.next] {
            SyncOp::CreateDir { dst } => {
                if let Some(e) = failure {
                    self.outcome.errors.push((dst.clone(), e));
                    assert(self.outcome.model().errors =~= errors.push((dst@, e@)));
                }
                self.next += 1;
                None
            },
            SyncOp::Copy { src, dst, size } => {
                match failure {
                    None => {
                        self.outcome.copied_files += 1;
                        self.outcome.copied_bytes += *size;
                    },
                    Some(e) => {
                        self.outcome.errors.push((src.clone(), e));
                        assert(self.outcome.model().errors =~= errors.push((src@, e@)));
                    },
                }
                self.next += 1;
                Some(
                    Progress {
                        done_files: self.outcome.copied_files,
                        done_bytes: self.outcome.copied_bytes,
                        total_files: plan.total_files,
                        total_bytes: plan.total_bytes,
                        current: dst.clone(),
                    },
                )
            },
        }
    }
}

proof fn copies_of_prefix(ops: Seq<OpModel>, n: int)
    requires
        0 <= n <= ops.len(),
    ensures
        copied_files(ops.take(n)) <= copied_files(ops),
        copied_bytes(ops.take(n)) <= copied_bytes(ops),
{
    copies_of_concat(ops.take(n), ops.skip(n));
    assert(ops.take(n) + ops.skip(n) =~= ops);
}

} // verus!
