//! The order in which the entries of a directory are listed: directories
//! first, then by lower-cased name.

use vstd::prelude::*;
use crate::compare;
use crate::compare::{DiffModel, DiffNode};
use crate::text;

verus! {

/// `a` is listed before `b` or ranks with it.
pub open spec fn listed_by(a: DiffModel, b: DiffModel) -> bool {
    if a.is_dir != b.is_dir {
        a.is_dir
    } else {
        text::precedes(text::lowercase(a.name), text::lowercase(b.name))
    }
}

/// Neither is listed before the other.
pub open spec fn same_rank(a: DiffModel, b: DiffModel) -> bool {
    a.is_dir == b.is_dir && text::lowercase(a.name) == text::lowercase(b.name)
}

/// Every entry is listed before or ranks with all that follow it.
pub open spec fn in_order(s: Seq<DiffModel>) -> bool {
    forall|i: int, j: int|
        0 <= i <= j < s.len() ==> listed_by(#[trigger] s[i], #[trigger] s[j])
}

/// The entries that rank with `d`.
pub open spec fn ranked_with(s: Seq<DiffModel>, d: DiffModel) -> Seq<DiffModel>
    decreases s.len(),
{
    if s.len() == 0 {
        Seq::empty()
    } else if same_rank(s.last(), d) {
        ranked_with(s.drop_last(), d).push(s.last())
    } else {
        ranked_with(s.drop_last(), d)
    }
}

/// `out` lists the entries of `s` in order, and entries of one rank as `s` has
/// them.
pub open spec fn is_listing(out: Seq<DiffModel>, s: Seq<DiffModel>) -> bool {
    &&& in_order(out)
    &&& forall|d: DiffModel| #[trigger] ranked_with(out, d) == ranked_with(s, d)
}

/// The ordered list `s` with `x` after everything that is listed before it or
/// ranks with it.
pub open spec fn listed_with(s: Seq<DiffModel>, x: DiffModel) -> Seq<DiffModel>
    decreases s.len(),
{
    if s.len() == 0 || listed_by(s.last(), x) {
        s.push(x)
    } else {
        listed_with(s.drop_last(), x).push(s.last())
    }
}

/// The entries of `s` in order; entries of one rank stay as they were.
pub open spec fn listing(s: Seq<DiffModel>) -> Seq<DiffModel>
    decreases s.len(),
{
    if s.len() == 0 {
        s
    } else {
        listed_with(listing(s.drop_last()), s.last())
    }
}

proof fn listed_by_total(a: DiffModel, b: DiffModel)
    ensures
        listed_by(a, b) || listed_by(b, a),
        same_rank(a, b) ==> listed_by(a, b),
        listed_by(a, b) && listed_by(b, a) ==> same_rank(a, b),
{
    let x = text::lowercase(a.name);
    let y = text::lowercase(b.name);
    text::precedes_total(x, y);
    if text::precedes(x, y) && text::precedes(y, x) {
        text::precedes_antisymmetric(x, y);
    }
    text::precedes_reflexive(x);
}

proof fn listed_by_transitive(a: DiffModel, b: DiffModel, c: DiffModel)
    requires
        listed_by(a, b),
        listed_by(b, c),
    ensures
        listed_by(a, c),
{
    if a.is_dir == b.is_dir && b.is_dir == c.is_dir {
        text::precedes_transitive(
            text::lowercase(a.name),
            text::lowercase(b.name),
            text::lowercase(c.name),
        );
    }
}

/// Putting an ordered list's next element last keeps it ordered.
proof fn push_in_order(s: Seq<DiffModel>, x: DiffModel)
    requires
        in_order(s),
        s.len() > 0 ==> listed_by(s.last(), x),
    ensures
        in_order(s.push(x)),
{
    let t = s.push(x);
    listed_by_total(x, x);
    assert forall|i: int, j: int| 0 <= i <= j < t.len() implies listed_by(
        #[trigger] t[i],
        #[trigger] t[j],
    ) by {
        if i < s.len() && j == s.len() {
            listed_by_transitive(s[i], s.last(), x);
        }
    }
}

proof fn prefix_in_order(s: Seq<DiffModel>)
    requires
        in_order(s),
        s.len() > 0,
    ensures
        in_order(s.drop_last()),
{
    let t = s.drop_last();
    assert forall|i: int, j: int| 0 <= i <= j < t.len() implies listed_by(
        #[trigger] t[i],
        #[trigger] t[j],
    ) by {
        assert(t[i] == s[i] && t[j] == s[j]);
    }
}

proof fn ranked_push(s: Seq<DiffModel>, x: DiffModel, d: DiffModel)
    ensures
        ranked_with(s.push(x), d) == if same_rank(x, d) {
            ranked_with(s, d).push(x)
        } else {
            ranked_with(s, d)
        },
{
    assert(s.push(x).drop_last() =~= s);
}

proof fn listed_with_is_listing(s: Seq<DiffModel>, x: DiffModel)
    requires
        in_order(s),
    ensures
        in_order(listed_with(s, x)),
        listed_with(s, x).len() == s.len() + 1,
        listed_with(s, x).last() == x || (s.len() > 0 && listed_with(s, x).last() == s.last()
            && listed_by(x, s.last())),
        forall|d: DiffModel|
            #[trigger] ranked_with(listed_with(s, x), d) == ranked_with(s.push(x), d),
    decreases s.len(),
{
    if s.len() == 0 || listed_by(s.last(), x) {
        push_in_order(s, x);
    } else {
        let front = s.drop_last();
        let l = s.last();
        prefix_in_order(s);
        listed_with_is_listing(front, x);
        listed_by_total(l, x);
        if listed_with(front, x).last() != x {
            assert(listed_by(s[s.len() - 2], s[s.len() - 1]));
        }
        push_in_order(listed_with(front, x), l);
        assert forall|d: DiffModel| #[trigger]
            ranked_with(listed_with(s, x), d) == ranked_with(s.push(x), d) by {
            ranked_push(listed_with(front, x), l, d);
            ranked_push(front, x, d);
            ranked_push(s, x, d);
            if same_rank(l, d) && same_rank(x, d) {
                assert(same_rank(l, x));
                assert(false);
            }
        }
    }
}

/// `listing` orders the entries and keeps those of one rank as they were.
pub proof fn listing_is_listing(s: Seq<DiffModel>)
    ensures
        is_listing(listing(s), s),
        listing(s).len() == s.len(),
    decreases s.len(),
{
    if s.len() > 0 {
        let front = s.drop_last();
        listing_is_listing(front);
        listed_with_is_listing(listing(front), s.last());
        assert forall|d: DiffModel| #[trigger]
            ranked_with(listing(s), d) == ranked_with(s, d) by {
            ranked_push(listing(front), s.last(), d);
            ranked_push(front, s.last(), d);
            assert(front.push(s.last()) =~= s);
        }
    }
}

proof fn listed_with_keeps_entries(s: Seq<DiffModel>, x: DiffModel)
    ensures
        listed_with(s, x).to_multiset() == s.to_multiset().insert(x),
    decreases s.len(),
{
    broadcast use vstd::seq_lib::group_to_multiset_ensures;

    if s.len() > 0 && !listed_by(s.last(), x) {
        listed_with_keeps_entries(s.drop_last(), x);
        assert(s.drop_last().push(s.last()) =~= s);
        assert(listed_with(s, x).to_multiset() =~= s.to_multiset().insert(x));
    }
}

/// Listing entries neither adds nor drops any.
pub proof fn listing_keeps_entries(s: Seq<DiffModel>)
    ensures
        listing(s).to_multiset() == s.to_multiset(),
    decreases s.len(),
{
    broadcast use vstd::seq_lib::group_to_multiset_ensures;

    if s.len() > 0 {
        listing_keeps_entries(s.drop_last());
        listed_with_keeps_entries(listing(s.drop_last()), s.last());
        assert(s.drop_last().push(s.last()) =~= s);
    }
}

/// An entry is listed exactly if it was among the entries.
pub proof fn listing_holds(s: Seq<DiffModel>, x: DiffModel)
    ensures
        listing(s).contains(x) <==> s.contains(x),
{
    broadcast use vstd::seq_lib::group_to_multiset_ensures;

    listing_keeps_entries(s);
    assert(listing(s).contains(x) <==> listing(s).to_multiset().count(x) > 0);
}

proof fn ranked_bound(s: Seq<DiffModel>, d: DiffModel)
    requires
        in_order(s),
        ranked_with(s, d).len() > 0,
    ensures
        s.len() > 0,
        listed_by(d, s.last()),
    decreases s.len(),
{
    if same_rank(s.last(), d) {
        listed_by_total(d, s.last());
    } else {
        prefix_in_order(s);
        ranked_bound(s.drop_last(), d);
        assert(listed_by(s[s.len() - 2], s[s.len() - 1]));
        listed_by_transitive(d, s[s.len() - 2], s.last());
    }
}

/// There is only one listing of a list of entries.
pub proof fn listing_is_unique(a: Seq<DiffModel>, b: Seq<DiffModel>, s: Seq<DiffModel>)
    requires
        is_listing(a, s),
        is_listing(b, s),
    ensures
        a == b,
    decreases a.len(),
{
    if a.len() == 0 {
        if b.len() > 0 {
            let d = b.last();
            assert(ranked_with(b, d).len() > 0);
            assert(ranked_with(a, d) == ranked_with(s, d));
        }
    } else {
        let x = a.last();
        assert(ranked_with(a, x) == ranked_with(s, x));
        assert(ranked_with(b, x) == ranked_with(s, x));
        ranked_bound(b, x);
        let y = b.last();
        assert(ranked_with(a, y) == ranked_with(s, y));
        assert(ranked_with(b, y) == ranked_with(s, y));
        ranked_bound(a, y);
        listed_by_total(x, y);
        assert(ranked_with(a, x).last() == x);
        assert(ranked_with(b, x).last() == y);
        prefix_in_order(a);
        prefix_in_order(b);
        let rest = a.drop_last();
        assert forall|d: DiffModel| #[trigger]
            ranked_with(b.drop_last(), d) == ranked_with(rest, d) by {
            assert(ranked_with(a, d) == ranked_with(s, d));
            assert(ranked_with(b, d) == ranked_with(s, d));
            if same_rank(x, d) {
                assert(ranked_with(rest, d) =~= ranked_with(a, d).drop_last());
                assert(ranked_with(b.drop_last(), d) =~= ranked_with(b, d).drop_last());
            }
        }
        listing_is_unique(rest, b.drop_last(), rest);
        assert(a =~= rest.push(x));
        assert(b =~= b.drop_last().push(y));
    }
}

/// No two entries rank with each other.
pub open spec fn ranks_differ(s: Seq<DiffModel>) -> bool {
    forall|i: int, j: int| 0 <= i < j < s.len() ==> !same_rank(#[trigger] s[i], #[trigger] s[j])
}

proof fn ranked_index(s: Seq<DiffModel>, d: DiffModel) -> (i: int)
    requires
        ranked_with(s, d).len() > 0,
    ensures
        0 <= i < s.len(),
        same_rank(s[i], d),
    decreases s.len(),
{
    if same_rank(s.last(), d) {
        s.len() - 1
    } else {
        ranked_index(s.drop_last(), d)
    }
}

proof fn ranked_once(s: Seq<DiffModel>, d: DiffModel)
    requires
        ranks_differ(s),
    ensures
        ranked_with(s, d).len() <= 1,
    decreases s.len(),
{
    if s.len() > 0 {
        let front = s.drop_last();
        assert forall|i: int, j: int| 0 <= i < j < front.len() implies !same_rank(
            #[trigger] front[i],
            #[trigger] front[j],
        ) by {
            assert(front[i] == s[i] && front[j] == s[j]);
        }
        ranked_once(front, d);
        if same_rank(s.last(), d) && ranked_with(front, d).len() > 0 {
            let i = ranked_index(front, d);
            assert(same_rank(s[i], s[s.len() - 1]));
        }
    }
}

proof fn ranked_there(s: Seq<DiffModel>, i: int, d: DiffModel)
    requires
        0 <= i < s.len(),
        same_rank(s[i], d),
    ensures
        ranked_with(s, d).len() > 0,
    decreases s.len(),
{
    if i < s.len() - 1 {
        ranked_there(s.drop_last(), i, d);
    }
}

proof fn ranked_twice(s: Seq<DiffModel>, i: int, j: int)
    requires
        0 <= i < j < s.len(),
        same_rank(s[i], s[j]),
    ensures
        ranked_with(s, s[i]).len() > 1,
    decreases s.len(),
{
    if j < s.len() - 1 {
        ranked_twice(s.drop_last(), i, j);
    } else {
        ranked_there(s.drop_last(), i, s[i]);
    }
}

/// Where no two entries rank with each other, no two do in the listing.
pub(crate) proof fn ranks_differ_when_listed(s: Seq<DiffModel>)
    requires
        ranks_differ(s),
    ensures
        ranks_differ(listing(s)),
{
    listing_is_listing(s);
    let t = listing(s);
    assert forall|i: int, j: int| 0 <= i < j < t.len() implies !same_rank(
        #[trigger] t[i],
        #[trigger] t[j],
    ) by {
        if same_rank(t[i], t[j]) {
            ranked_twice(t, i, j);
            assert(ranked_with(t, t[i]) == ranked_with(s, t[i]));
            ranked_once(s, t[i]);
        }
    }
}

/// An entry of the list ranks with `d`.
pub open spec fn has_rank(s: Seq<DiffModel>, d: DiffModel) -> bool {
    exists|i: int| 0 <= i < s.len() && same_rank(#[trigger] s[i], d)
}

/// What a list without the last of its ranks still has.
proof fn rank_before_last(s: Seq<DiffModel>, d: DiffModel)
    requires
        s.len() > 0,
        has_rank(s, d),
        !same_rank(s.last(), d),
    ensures
        has_rank(s.drop_last(), d),
{
    let i = choose|i: int| 0 <= i < s.len() && same_rank(#[trigger] s[i], d);
    assert(s.drop_last()[i] == s[i]);
}

proof fn prefix_ranks_differ(s: Seq<DiffModel>)
    requires
        ranks_differ(s),
        s.len() > 0,
    ensures
        ranks_differ(s.drop_last()),
        forall|i: int| 0 <= i < s.len() - 1 ==> !same_rank(#[trigger] s[i], s.last()),
{
    let t = s.drop_last();
    assert forall|i: int, j: int| 0 <= i < j < t.len() implies !same_rank(
        #[trigger] t[i],
        #[trigger] t[j],
    ) by {
        assert(t[i] == s[i] && t[j] == s[j]);
    }
    assert forall|i: int| 0 <= i < s.len() - 1 implies !same_rank(#[trigger] s[i], s.last()) by {
        assert(!same_rank(s[i], s[s.len() - 1]));
    }
}

/// The last of an ordered list is listed after everything that has a rank in it.
proof fn last_is_last(s: Seq<DiffModel>, d: DiffModel)
    requires
        in_order(s),
        has_rank(s, d),
    ensures
        listed_by(d, s.last()),
{
    let i = choose|i: int| 0 <= i < s.len() && same_rank(#[trigger] s[i], d);
    assert(listed_by(s[i], s[s.len() - 1]));
}

/// Two ordered lists, each with one entry of every rank that the other has, list
/// the ranks alike.
pub(crate) proof fn listed_alike(s: Seq<DiffModel>, t: Seq<DiffModel>)
    requires
        in_order(s),
        in_order(t),
        ranks_differ(s),
        ranks_differ(t),
        forall|i: int| 0 <= i < s.len() ==> #[trigger] has_rank(t, s[i]),
        forall|i: int| 0 <= i < t.len() ==> #[trigger] has_rank(s, t[i]),
    ensures
        s.len() == t.len(),
        forall|i: int| 0 <= i < s.len() ==> #[trigger] same_rank(s[i], t[i]),
    decreases s.len(),
{
    if s.len() == 0 {
        if t.len() > 0 {
            assert(has_rank(s, t[0]));
        }
    } else {
        let m = s.len() - 1;
        let n = t.len() - 1;
        assert(has_rank(t, s[m]));
        assert(has_rank(s, t[n]));
        last_is_last(t, s[m]);
        last_is_last(s, t[n]);
        listed_by_total(s[m], t[n]);
        let a = s.drop_last();
        let b = t.drop_last();
        prefix_in_order(s);
        prefix_in_order(t);
        prefix_ranks_differ(s);
        prefix_ranks_differ(t);
        assert forall|i: int| 0 <= i < a.len() implies #[trigger] has_rank(b, a[i]) by {
            assert(!same_rank(s[i], s.last()));
            assert(has_rank(t, s[i]));
            rank_before_last(t, s[i]);
        }
        assert forall|i: int| 0 <= i < b.len() implies #[trigger] has_rank(a, b[i]) by {
            assert(!same_rank(t[i], t.last()));
            assert(has_rank(s, t[i]));
            rank_before_last(s, t[i]);
        }
        listed_alike(a, b);
        assert forall|i: int| 0 <= i < s.len() implies #[trigger] same_rank(s[i], t[i]) by {
            if i < m {
                assert(same_rank(a[i], b[i]));
            }
        }
    }
}

/// Two ordered lists in one; of entries of one rank those of `a` come first.
spec fn merged(a: Seq<DiffModel>, b: Seq<DiffModel>) -> Seq<DiffModel>
    decreases a.len() + b.len(),
{
    if a.len() == 0 {
        b
    } else if b.len() == 0 {
        a
    } else if listed_by(a.last(), b.last()) {
        merged(a, b.drop_last()).push(b.last())
    } else {
        merged(a.drop_last(), b).push(a.last())
    }
}

proof fn ranked_concat(a: Seq<DiffModel>, b: Seq<DiffModel>, d: DiffModel)
    ensures
        ranked_with(a + b, d) == ranked_with(a, d) + ranked_with(b, d),
    decreases b.len(),
{
    if b.len() == 0 {
        assert(a + b =~= a);
        assert(ranked_with(a, d) + ranked_with(b, d) =~= ranked_with(a, d));
    } else {
        ranked_concat(a, b.drop_last(), d);
        assert((a + b).drop_last() =~= a + b.drop_last());
        assert((a + b).last() == b.last());
        assert(ranked_with(a + b, d) =~= ranked_with(a, d) + ranked_with(b, d));
    }
}

proof fn merged_is_listing(a: Seq<DiffModel>, b: Seq<DiffModel>)
    requires
        in_order(a),
        in_order(b),
    ensures
        is_listing(merged(a, b), a + b),
        merged(a, b).len() == a.len() + b.len(),
        merged(a, b).len() > 0 ==> {
            ||| (a.len() > 0 && merged(a, b).last() == a.last())
            ||| (b.len() > 0 && merged(a, b).last() == b.last())
        },
    decreases a.len() + b.len(),
{
    let m = merged(a, b);
    if a.len() == 0 {
        assert(a + b =~= b);
    } else if b.len() == 0 {
        assert(a + b =~= a);
    } else if listed_by(a.last(), b.last()) {
        let front = b.drop_last();
        prefix_in_order(b);
        merged_is_listing(a, front);
        if b.len() >= 2 {
            assert(listed_by(b[b.len() - 2], b[b.len() - 1]));
        }
        push_in_order(merged(a, front), b.last());
        assert forall|d: DiffModel| #[trigger] ranked_with(m, d) == ranked_with(a + b, d) by {
            ranked_push(merged(a, front), b.last(), d);
            assert(ranked_with(merged(a, front), d) == ranked_with(a + front, d));
            assert(a + b =~= (a + front).push(b.last()));
            ranked_push(a + front, b.last(), d);
        }
    } else {
        let front = a.drop_last();
        let x = a.last();
        prefix_in_order(a);
        merged_is_listing(front, b);
        listed_by_total(x, b.last());
        if a.len() >= 2 {
            assert(listed_by(a[a.len() - 2], a[a.len() - 1]));
        }
        push_in_order(merged(front, b), x);
        assert forall|d: DiffModel| #[trigger] ranked_with(m, d) == ranked_with(a + b, d) by {
            ranked_push(merged(front, b), x, d);
            assert(ranked_with(merged(front, b), d) == ranked_with(front + b, d));
            ranked_concat(front, b, d);
            ranked_concat(a, b, d);
            if same_rank(x, d) {
                if ranked_with(b, d).len() > 0 {
                    ranked_bound(b, d);
                    listed_by_total(x, d);
                    listed_by_transitive(x, d, b.last());
                    assert(false);
                }
                assert(ranked_with(front, d) + ranked_with(b, d) =~= ranked_with(front, d));
                assert(ranked_with(a, d) + ranked_with(b, d) =~= ranked_with(a, d));
            }
        }
    }
}

/// Listing two parts and merging them lists the whole.
proof fn listing_by_halves(a: Seq<DiffModel>, b: Seq<DiffModel>)
    ensures
        merged(listing(a), listing(b)) == listing(a + b),
{
    let la = listing(a);
    let lb = listing(b);
    listing_is_listing(a);
    listing_is_listing(b);
    listing_is_listing(a + b);
    merged_is_listing(la, lb);
    assert forall|d: DiffModel| #[trigger]
        ranked_with(merged(la, lb), d) == ranked_with(a + b, d) by {
        assert(ranked_with(merged(la, lb), d) == ranked_with(la + lb, d));
        ranked_concat(la, lb, d);
        ranked_concat(a, b, d);
        assert(ranked_with(la, d) == ranked_with(a, d));
        assert(ranked_with(lb, d) == ranked_with(b, d));
    }
    listing_is_unique(merged(la, lb), listing(a + b), a + b);
}

/// Whether `a` is listed before `b` or ranks with it.
pub fn sort_dirs_first(a: &DiffNode, b: &DiffNode) -> (r: bool)
    ensures
        r == listed_by(a.model(), b.model()),
{
    let x = text::to_lowercase(a.name.as_str());
    let y = text::to_lowercase(b.name.as_str());
    ranks_before(a.is_dir, x.as_str(), b.is_dir, y.as_str())
}

/// Whether one entry is listed before another or ranks with it, given whether
/// each is a directory and its name in lower case.
pub fn ranks_before(a_is_dir: bool, a_lower: &str, b_is_dir: bool, b_lower: &str) -> (r: bool)
    ensures
        r == (if a_is_dir != b_is_dir {
            a_is_dir
        } else {
            text::precedes(a_lower@, b_lower@)
        }),
{
    if a_is_dir != b_is_dir {
        a_is_dir
    } else {
        text::text_precedes(a_lower, b_lower)
    }
}

fn reversed(v: Vec<DiffNode>) -> (r: Vec<DiffNode>)
    ensures
        r@ == v@.reverse(),
{
    let mut rest = v;
    let mut out: Vec<DiffNode> = Vec::new();
    while rest.len() > 0
        invariant
            out@ + rest@.reverse() == v@.reverse(),
        decreases rest@.len(),
    {
        let ghost before = rest@;
        if let Some(x) = rest.pop() {
            out.push(x);
            assert(before.reverse() =~= seq![x] + rest@.reverse());
            assert(out@ + rest@.reverse() =~= v@.reverse());
        }
    }
    assert(out@ + rest@.reverse() =~= out@);
    out
}

fn merge(a: Vec<DiffNode>, b: Vec<DiffNode>) -> (r: Vec<DiffNode>)
    ensures
        compare::models(r@) == merged(compare::models(a@), compare::models(b@)),
{
    let ghost all = merged(compare::models(a@), compare::models(b@));
    let mut left = a;
    let mut right = b;
    let mut back: Vec<DiffNode> = Vec::new();
    assert(all + compare::models(back@.reverse()) =~= all);
    while left.len() > 0 && right.len() > 0
        invariant
            all == merged(compare::models(left@), compare::models(right@)) + compare::models(
                back@.reverse(),
            ),
        decreases left@.len() + right@.len(),
    {
        let ghost l0 = compare::models(left@);
        let ghost r0 = compare::models(right@);
        let ghost b0 = back@;
        let from_right = sort_dirs_first(&left[left.len() - 1], &right[right.len() - 1]);
        let next = if from_right {
            right.pop()
        } else {
            left.pop()
        };
        if let Some(x) = next {
            back.push(x);
            assert(compare::models(back@.reverse()) =~= seq![x.model()] + compare::models(
                b0.reverse(),
            ));
            assert(compare::models(left@) =~= if from_right {
                l0
            } else {
                l0.drop_last()
            });
            assert(compare::models(right@) =~= if from_right {
                r0.drop_last()
            } else {
                r0
            });
            assert(all =~= merged(compare::models(left@), compare::models(right@))
                + compare::models(back@.reverse()));
        }
    }
    let mut front = if left.len() > 0 {
        left
    } else {
        right
    };
    let mut rest = reversed(back);
    let ghost f0 = front@;
    let ghost r0 = rest@;
    front.append(&mut rest);
    assert(compare::models(front@) =~= compare::models(f0) + compare::models(r0));
    front
}

/// The entries in the order in which they are listed.
pub fn sorted(v: Vec<DiffNode>) -> (r: Vec<DiffNode>)
    ensures
        compare::models(r@) == listing(compare::models(v@)),
    decreases v@.len(),
{
    if v.len() < 2 {
        proof {
            reveal_with_fuel(listing, 2);
            let m = compare::models(v@);
            if m.len() == 1 {
                assert(m.drop_last() =~= Seq::<DiffModel>::empty());
                assert(listing(m) =~= m);
            }
        }
        return v;
    }
    let ghost all = compare::models(v@);
    let half: usize = v.len() / 2;
    let mut front = v;
    let back = front.split_off(half);
    proof {
        assert(compare::models(front@) + compare::models(back@) =~= all);
        listing_by_halves(compare::models(front@), compare::models(back@));
    }
    let a = sorted(front);
    let b = sorted(back);
    merge(a, b)
}

} // verus!
