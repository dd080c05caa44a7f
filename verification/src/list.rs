//! The list of numbers that the calculator keeps, in the order they were added.

use crate::number::Number;
use vstd::prelude::*;

verus! {

/// Where a scan for the largest element ends: the first element is the first
/// candidate, and a later element replaces the candidate only when it is
/// above it. For an empty sequence the place is 0.
pub open spec fn max_place(s: Seq<Number>) -> int
    decreases s.len(),
{
    if s.len() <= 1 {
        0
    } else if s.last().above(s[max_place(s.drop_last())]) {
        s.len() - 1
    } else {
        max_place(s.drop_last())
    }
}

/// Where a scan for the smallest element ends, in the manner of [`max_place`].
pub open spec fn min_place(s: Seq<Number>) -> int
    decreases s.len(),
{
    if s.len() <= 1 {
        0
    } else if s.last().below(s[min_place(s.drop_last())]) {
        s.len() - 1
    } else {
        min_place(s.drop_last())
    }
}

/// The largest element as a scan finds it.
pub open spec fn scan_max(s: Seq<Number>) -> Number {
    s[max_place(s)]
}

/// The smallest element as a scan finds it.
pub open spec fn scan_min(s: Seq<Number>) -> Number {
    s[min_place(s)]
}

/// The scan for the largest element stays on a first element that is a NaN.
/// Otherwise it ends on a number that nothing in the sequence is above, and
/// on the first such: every number before it is below it.
pub proof fn lemma_max_place(s: Seq<Number>)
    requires
        s.len() > 0,
    ensures
        0 <= max_place(s) < s.len(),
        s[0].nan() ==> max_place(s) == 0,
        !s[0].nan() ==> {
            &&& !scan_max(s).nan()
            &&& forall|j: int| 0 <= j < s.len() ==> !(#[trigger] s[j]).above(scan_max(s))
            &&& forall|j: int|
                0 <= j < max_place(s) && !(#[trigger] s[j]).nan() ==> s[j].below(scan_max(s))
        },
    decreases s.len(),
{
    if s.len() > 1 {
        let rest = s.drop_last();
        lemma_max_place(rest);
        assert(forall|j: int| 0 <= j < rest.len() ==> rest[j] == s[j]);
    }
}

/// The scan for the smallest element stays on a first element that is a NaN.
/// Otherwise it ends on a number that nothing in the sequence is below, and
/// on the first such: every number before it is above it.
pub proof fn lemma_min_place(s: Seq<Number>)
    requires
        s.len() > 0,
    ensures
        0 <= min_place(s) < s.len(),
        s[0].nan() ==> min_place(s) == 0,
        !s[0].nan() ==> {
            &&& !scan_min(s).nan()
            &&& forall|j: int| 0 <= j < s.len() ==> !(#[trigger] s[j]).below(scan_min(s))
            &&& forall|j: int|
                0 <= j < min_place(s) && !(#[trigger] s[j]).nan() ==> s[j].above(scan_min(s))
        },
    decreases s.len(),
{
    if s.len() > 1 {
        let rest = s.drop_last();
        lemma_min_place(rest);
        assert(forall|j: int| 0 <= j < rest.len() ==> rest[j] == s[j]);
    }
}

/// Whether some element of `s` is a NaN.
pub open spec fn has_nan(s: Seq<Number>) -> bool {
    exists|i: int| 0 <= i < s.len() && (#[trigger] s[i]).nan()
}

/// What can be sorted: a sequence without NaN, or one too short to need a
/// comparison.
pub open spec fn sortable(s: Seq<Number>) -> bool {
    s.len() < 2 || !has_nan(s)
}

/// Ranks never fall from one element to a later one.
pub open spec fn ascending(s: Seq<Number>) -> bool {
    forall|i: int, j: int|
        #![trigger s[i], s[j]]
        0 <= i < j < s.len() ==> s[i].rank() <= s[j].rank()
}

/// Ranks never rise from one element to a later one.
pub open spec fn descending(s: Seq<Number>) -> bool {
    forall|i: int, j: int|
        #![trigger s[i], s[j]]
        0 <= i < j < s.len() ==> s[i].rank() >= s[j].rank()
}

/// The test for having rank `k`.
pub open spec fn rank_is(k: int) -> spec_fn(Number) -> bool {
    |x: Number| x.rank() == k
}

/// The elements of `s` that have rank `k`, in the order they have in `s`.
pub open spec fn of_rank(s: Seq<Number>, k: int) -> Seq<Number> {
    s.filter(rank_is(k))
}

/// `a` is a rearrangement of `b` that keeps elements of equal rank in the
/// order they have in `b`.
pub open spec fn same_groups(a: Seq<Number>, b: Seq<Number>) -> bool {
    forall|k: int| #[trigger] of_rank(a, k) == of_rank(b, k)
}

/// `s` in the order of one direction: falling ranks if `down`, else rising.
pub open spec fn in_order(s: Seq<Number>, down: bool) -> bool {
    if down {
        descending(s)
    } else {
        ascending(s)
    }
}

/// Whether `a` must come after `b` in the direction given.
pub open spec fn after(a: Number, b: Number, down: bool) -> bool {
    if down {
        a.rank() < b.rank()
    } else {
        a.rank() > b.rank()
    }
}

fn comes_after(a: Number, b: Number, down: bool) -> (r: bool)
    ensures
        r == after(a, b, down),
{
    if down {
        a.sort_key() < b.sort_key()
    } else {
        a.sort_key() > b.sort_key()
    }
}

/// Putting `x` into `o` at `p`, past which no element has the rank of `x`,
/// does to every rank group what appending `x` does.
proof fn lemma_insert_groups(o: Seq<Number>, p: int, x: Number, k: int)
    requires
        0 <= p <= o.len(),
        forall|j: int| p <= j < o.len() ==> (#[trigger] o[j]).rank() != x.rank(),
    ensures
        of_rank(o.insert(p, x), k) == of_rank(o.push(x), k),
{
    let pred = rank_is(k);
    let head = o.take(p);
    let tail = o.skip(p);
    let one = seq![x];
    assert(o.insert(p, x) =~= head + one + tail);
    assert(o.push(x) =~= head + tail + one);
    Seq::filter_distributes_over_add(head + one, tail, pred);
    Seq::filter_distributes_over_add(head, one, pred);
    Seq::filter_distributes_over_add(head + tail, one, pred);
    Seq::filter_distributes_over_add(head, tail, pred);
    if x.rank() == k {
        assert(tail.all(|y: Number| !pred(y)));
        tail.lemma_all_neg_filter_empty(pred);
        assert(tail.filter(pred) =~= Seq::<Number>::empty());
    } else {
        assert(one.all(|y: Number| !pred(y)));
        one.lemma_all_neg_filter_empty(pred);
        assert(one.filter(pred) =~= Seq::<Number>::empty());
    }
    assert(head.filter(pred) + one.filter(pred) + tail.filter(pred) =~= head.filter(pred)
        + tail.filter(pred) + one.filter(pred));
}

/// A rank group that is not empty has a member in the sequence.
proof fn lemma_group_member(s: Seq<Number>, k: int) -> (i: int)
    requires
        of_rank(s, k).len() > 0,
    ensures
        0 <= i < s.len(),
        s[i].rank() == k,
{
    let g = of_rank(s, k);
    s.lemma_filter_pred(rank_is(k), 0);
    assert(g.contains(g[0]));
    s.lemma_filter_contains_rev(rank_is(k), g[0]);
    choose|i: int| 0 <= i < s.len() && s[i] == g[0]
}

/// Every element is in the group of its rank.
proof fn lemma_member_group(s: Seq<Number>, i: int)
    requires
        0 <= i < s.len(),
    ensures
        of_rank(s, s[i].rank()).contains(s[i]),
        of_rank(s, s[i].rank()).len() > 0,
{
    s.lemma_filter_contains(rank_is(s[i].rank()), i);
}

/// A rising and a falling sequence with rank groups of the same sizes run
/// through the same ranks in opposite directions.
proof fn lemma_mirror(up: Seq<Number>, down: Seq<Number>)
    requires
        ascending(up),
        descending(down),
        forall|k: int| (#[trigger] of_rank(up, k)).len() == of_rank(down, k).len(),
    ensures
        up.len() == down.len(),
        forall|i: int|
            0 <= i < up.len() ==> (#[trigger] up[i]).rank() == down[down.len() - 1 - i].rank(),
    decreases up.len(),
{
    if up.len() == 0 {
        if down.len() > 0 {
            lemma_member_group(down, 0);
            assert(of_rank(up, down[0].rank()).len() == of_rank(down, down[0].rank()).len());
            up.lemma_filter_len(rank_is(down[0].rank()));
        }
    } else {
        let x = up.last();
        let top = x.rank();
        lemma_member_group(up, up.len() - 1);
        assert(of_rank(up, top).len() == of_rank(down, top).len());
        let m = lemma_group_member(down, top);
        let first = down.first();
        lemma_member_group(down, 0);
        assert(of_rank(up, first.rank()).len() == of_rank(down, first.rank()).len());
        let n = lemma_group_member(up, first.rank());
        assert(first.rank() == top) by {
            if m > 0 {
                assert(down[0].rank() >= down[m].rank());
            }
            if n < up.len() - 1 {
                assert(up[n].rank() <= up[up.len() - 1].rank());
            }
        }
        let up_rest = up.drop_last();
        let down_rest = down.drop_first();
        assert(up =~= up_rest.push(x));
        assert(down =~= seq![first] + down_rest);
        assert forall|k: int| (#[trigger] of_rank(up_rest, k)).len() == of_rank(
            down_rest,
            k,
        ).len() by {
            up_rest.lemma_filter_push(x, rank_is(k));
            down_rest.lemma_filter_prepend(first, rank_is(k));
            assert(of_rank(up, k).len() == of_rank(down, k).len());
        }
        assert(ascending(up_rest)) by {
            assert forall|i: int, j: int| 0 <= i < j < up_rest.len() implies (
            #[trigger] up_rest[i]).rank() <= (#[trigger] up_rest[j]).rank() by {
                assert(up[i].rank() <= up[j].rank());
            }
        }
        assert(descending(down_rest)) by {
            assert forall|i: int, j: int| 0 <= i < j < down_rest.len() implies (
            #[trigger] down_rest[i]).rank() >= (#[trigger] down_rest[j]).rank() by {
                assert(down[i + 1].rank() >= down[j + 1].rank());
            }
        }
        lemma_mirror(up_rest, down_rest);
        assert forall|i: int| 0 <= i < up.len() implies (#[trigger] up[i]).rank() == down[down.len()
            - 1 - i].rank() by {
            if i < up.len() - 1 {
                assert(up[i] == up_rest[i]);
                assert(down_rest[down_rest.len() - 1 - i] == down[down.len() - 1 - i]);
            }
        }
    }
}

/// Sorting one list by rising and by falling value gives two sequences that
/// are the reverse of each other as far as values go: the element at a place
/// in one and the element at the mirrored place in the other have the same
/// rank, so where neither is a NaN they compare equal.
pub proof fn lemma_descending_reverses_ascending(
    s: Seq<Number>,
    up: Seq<Number>,
    down: Seq<Number>,
)
    requires
        ascending(up),
        same_groups(up, s),
        descending(down),
        same_groups(down, s),
    ensures
        up.len() == down.len(),
        forall|i: int|
            0 <= i < up.len() ==> (#[trigger] up[i]).rank() == down[down.len() - 1 - i].rank(),
        !has_nan(s) ==> forall|i: int|
            0 <= i < up.len() ==> (#[trigger] up[i]).alike(down[down.len() - 1 - i]),
{
    assert forall|k: int| (#[trigger] of_rank(up, k)).len() == of_rank(down, k).len() by {
        assert(of_rank(up, k) == of_rank(s, k));
        assert(of_rank(down, k) == of_rank(s, k));
    }
    lemma_mirror(up, down);
    if !has_nan(s) {
        assert forall|i: int| 0 <= i < up.len() implies (#[trigger] up[i]).alike(
            down[down.len() - 1 - i],
        ) by {
            lemma_sorted_member(s, up, i);
            lemma_sorted_member(s, down, down.len() - 1 - i);
        }
    }
}

/// An element of a rearrangement that keeps the rank groups is an element of
/// the sequence that was rearranged.
proof fn lemma_sorted_member(s: Seq<Number>, r: Seq<Number>, i: int)
    requires
        same_groups(r, s),
        0 <= i < r.len(),
    ensures
        s.contains(r[i]),
{
    lemma_member_group(r, i);
    assert(of_rank(r, r[i].rank()) == of_rank(s, r[i].rank()));
    s.lemma_filter_contains_rev(rank_is(r[i].rank()), r[i]);
}

/// Where elements of equal rank are identical (the list does not hold both
/// zeros), the falling order is exactly the rising order reversed.
pub proof fn lemma_descending_is_reverse(s: Seq<Number>, up: Seq<Number>, down: Seq<Number>)
    requires
        ascending(up),
        same_groups(up, s),
        descending(down),
        same_groups(down, s),
        forall|i: int, j: int|
            0 <= i < s.len() && 0 <= j < s.len() && (#[trigger] s[i]).rank() == (
            #[trigger] s[j]).rank() ==> s[i] == s[j],
    ensures
        down == up.reverse(),
{
    lemma_descending_reverses_ascending(s, up, down);
    assert forall|i: int| 0 <= i < down.len() implies down[i] == up[up.len() - 1 - i] by {
        let j = up.len() - 1 - i;
        assert(up[j].rank() == down[down.len() - 1 - j].rank());
        lemma_sorted_member(s, up, j);
        lemma_sorted_member(s, down, i);
        let a = choose|a: int| 0 <= a < s.len() && s[a] == up[j];
        let b = choose|b: int| 0 <= b < s.len() && s[b] == down[i];
        assert(s[a].rank() == s[b].rank());
    }
    assert(down =~= up.reverse());
}

/// The two things said of a sorted result, its direction and that it keeps
/// the rank groups of the list, leave room for one sequence only.
pub proof fn lemma_sorted_unique(u: Seq<Number>, v: Seq<Number>, down: bool)
    requires
        in_order(u, down),
        in_order(v, down),
        same_groups(u, v),
    ensures
        u == v,
    decreases u.len(),
{
    if u.len() == 0 {
        if v.len() > 0 {
            lemma_member_group(v, 0);
            assert(of_rank(u, v[0].rank()) == of_rank(v, v[0].rank()));
            u.lemma_filter_len(rank_is(v[0].rank()));
        }
        assert(u =~= v);
    } else {
        let x = u.last();
        lemma_member_group(u, u.len() - 1);
        assert(of_rank(u, x.rank()) == of_rank(v, x.rank()));
        let m = lemma_group_member(v, x.rank());
        let y = v.last();
        lemma_member_group(v, v.len() - 1);
        assert(of_rank(u, y.rank()) == of_rank(v, y.rank()));
        let n = lemma_group_member(u, y.rank());
        assert(x.rank() == y.rank()) by {
            if m < v.len() - 1 {
                assert(!after(v[m], v[v.len() - 1], down));
            }
            if n < u.len() - 1 {
                assert(!after(u[n], u[u.len() - 1], down));
            }
        }
        let u_rest = u.drop_last();
        let v_rest = v.drop_last();
        assert(u =~= u_rest.push(x));
        assert(v =~= v_rest.push(y));
        assert forall|k: int| #[trigger] of_rank(u_rest, k) == of_rank(v_rest, k) by {
            u_rest.lemma_filter_push(x, rank_is(k));
            v_rest.lemma_filter_push(y, rank_is(k));
            assert(of_rank(u, k) == of_rank(v, k));
            if k == x.rank() {
                let a = of_rank(u_rest, k);
                let b = of_rank(v_rest, k);
                assert(a.push(x) == b.push(y));
                assert(a =~= a.push(x).drop_last());
                assert(b =~= b.push(y).drop_last());
            }
        }
        assert(x == y) by {
            let a = of_rank(u_rest, x.rank());
            let b = of_rank(v_rest, x.rank());
            u_rest.lemma_filter_push(x, rank_is(x.rank()));
            v_rest.lemma_filter_push(y, rank_is(x.rank()));
            assert(a.push(x) == b.push(y));
            assert(a.push(x).last() == x);
            assert(b.push(y).last() == y);
        }
        assert(in_order(u_rest, down)) by {
            assert forall|i: int, j: int| 0 <= i < j < u_rest.len() implies !after(
                #[trigger] u_rest[i],
                #[trigger] u_rest[j],
                down,
            ) by {
                assert(!after(u[i], u[j], down));
            }
        }
        assert(in_order(v_rest, down)) by {
            assert forall|i: int, j: int| 0 <= i < j < v_rest.len() implies !after(
                #[trigger] v_rest[i],
                #[trigger] v_rest[j],
                down,
            ) by {
                assert(!after(v[i], v[j], down));
            }
        }
        lemma_sorted_unique(u_rest, v_rest, down);
    }
}

/// Whether `i` is the first place in `s` whose element equals `value`.
pub open spec fn first_match(s: Seq<Number>, value: Number, i: int) -> bool {
    &&& 0 <= i < s.len()
    &&& s[i].alike(value)
    &&& forall|j: int| 0 <= j < i ==> !(#[trigger] s[j]).alike(value)
}

/// Whether some element of `s` equals `value`.
pub open spec fn has_match(s: Seq<Number>, value: Number) -> bool {
    exists|i: int| 0 <= i < s.len() && (#[trigger] s[i]).alike(value)
}

/// `s` without the element at `i`, whose place the last element has taken.
pub open spec fn swap_removed(s: Seq<Number>, i: int) -> Seq<Number> {
    s.update(i, s.last()).drop_last()
}

/// Taking an element out by moving the last one into its place takes one
/// occurrence of that element out of what the sequence holds, and nothing else.
pub proof fn lemma_swap_removed(s: Seq<Number>, i: int)
    requires
        0 <= i < s.len(),
    ensures
        swap_removed(s, i).len() == s.len() - 1,
        swap_removed(s, i).to_multiset() == s.to_multiset().remove(s[i]),
{
    broadcast use vstd::multiset::group_multiset_axioms;

    let t = s.update(i, s.last());
    assert(t.drop_last() =~= t.remove(t.len() - 1));
    vstd::seq_lib::to_multiset_update(s, i, s.last());
    vstd::seq_lib::to_multiset_remove(t, t.len() - 1);
    vstd::seq_lib::to_multiset_contains(s, s[i]);
    assert(s.contains(s[i]));
    assert(swap_removed(s, i).to_multiset() =~= s.to_multiset().remove(s[i]));
}

/// An ordered list of numbers. Duplicates are allowed.
pub struct NumberList {
    items: Vec<Number>,
}

impl View for NumberList {
    type V = Seq<Number>;

    closed spec fn view(&self) -> Seq<Number> {
        self.items@
    }
}

impl NumberList {
    /// A list without elements.
    pub fn new() -> (r: NumberList)
        ensures
            r@ == Seq::<Number>::empty(),
    {
        NumberList { items: Vec::new() }
    }

    /// The number of elements.
    pub fn len(&self) -> (r: usize)
        ensures
            r == self@.len(),
    {
        self.items.len()
    }

    /// Whether the list has no elements.
    pub fn is_empty(&self) -> (r: bool)
        ensures
            r == (self@.len() == 0),
    {
        self.items.len() == 0
    }

    /// The elements, in list order.
    pub fn values(&self) -> (r: &Vec<Number>)
        ensures
            r@ == self@,
    {
        &self.items
    }

    /// Adds `value` at the end.
    pub fn push(&mut self, value: Number)
        ensures
            final(self)@ == old(self)@.push(value),
    {
        self.items.push(value);
    }

    /// Adds all of `values` at the end, in their order.
    pub fn extend(&mut self, values: &Vec<Number>)
        ensures
            final(self)@ == old(self)@ + values@,
    {
        let mut i: usize = 0;
        while i < values.len()
            invariant
                i <= values.len(),
                self.items@ == old(self).items@ + values@.take(i as int),
            decreases values.len() - i,
        {
            self.items.push(values[i]);
            assert(values@.take(i + 1) == values@.take(i as int).push(values@[i as int]));
            i += 1;
        }
    }

    /// Empties the list.
    pub fn clear(&mut self)
        ensures
            final(self)@ == Seq::<Number>::empty(),
    {
        self.items.clear();
    }

    /// Whether the list holds a NaN.
    pub fn contains_nan(&self) -> (r: bool)
        ensures
            r == has_nan(self@),
    {
        let mut i: usize = 0;
        while i < self.items.len()
            invariant
                i <= self.items.len(),
                forall|j: int| 0 <= j < i ==> !(#[trigger] self.items@[j]).nan(),
            decreases self.items.len() - i,
        {
            if self.items[i].is_nan() {
                return true;
            }
            i += 1;
        }
        false
    }

    /// The largest element, found by a scan from the first element on: a
    /// later element is taken only when it is above the one held so far.
    pub fn max(&self) -> (r: Number)
        requires
            self@.len() > 0,
        ensures
            r == scan_max(self@),
            self@.contains(r),
            !self@[0].nan() ==> forall|j: int|
                0 <= j < self@.len() ==> !(#[trigger] self@[j]).above(r),
    {
        let mut at: usize = 0;
        let mut i: usize = 1;
        assert(self.items@.take(1).len() == 1);
        while i < self.items.len()
            invariant
                1 <= i <= self.items.len(),
                at < i,
                at == max_place(self.items@.take(i as int)),
            decreases self.items.len() - i,
        {
            assert(self.items@.take(i + 1).drop_last() == self.items@.take(i as int));
            if self.items[i].gt(self.items[at]) {
                at = i;
            }
            i += 1;
        }
        proof {
            assert(self.items@.take(i as int) == self.items@);
            lemma_max_place(self.items@);
        }
        self.items[at]
    }

    /// The smallest element, found by a scan from the first element on: a
    /// later element is taken only when it is below the one held so far.
    pub fn min(&self) -> (r: Number)
        requires
            self@.len() > 0,
        ensures
            r == scan_min(self@),
            self@.contains(r),
            !self@[0].nan() ==> forall|j: int|
                0 <= j < self@.len() ==> !(#[trigger] self@[j]).below(r),
    {
        let mut at: usize = 0;
        let mut i: usize = 1;
        assert(self.items@.take(1).len() == 1);
        while i < self.items.len()
            invariant
                1 <= i <= self.items.len(),
                at < i,
                at == min_place(self.items@.take(i as int)),
            decreases self.items.len() - i,
        {
            assert(self.items@.take(i + 1).drop_last() == self.items@.take(i as int));
            if self.items[i].lt(self.items[at]) {
                at = i;
            }
            i += 1;
        }
        proof {
            assert(self.items@.take(i as int) == self.items@);
            lemma_min_place(self.items@);
        }
        self.items[at]
    }

    /// The place of the first element that equals `value`, if there is one.
    pub fn position(&self, value: Number) -> (r: Option<usize>)
        ensures
            match r {
                Some(i) => first_match(self@, value, i as int),
                None => !has_match(self@, value),
            },
    {
        let mut i: usize = 0;
        while i < self.items.len()
            invariant
                i <= self.items.len(),
                forall|j: int| 0 <= j < i ==> !(#[trigger] self.items@[j]).alike(value),
            decreases self.items.len() - i,
        {
            if self.items[i].equals(value) {
                return Some(i);
            }
            i += 1;
        }
        None
    }

    /// Removes the first element that equals `value`, and says where it was.
    /// The last element takes its place, so the order of the rest changes.
    /// A list without such an element stays as it is.
    pub fn remove(&mut self, value: Number) -> (r: Option<usize>)
        ensures
            match r {
                Some(i) => {
                    &&& first_match(old(self)@, value, i as int)
                    &&& final(self)@ == swap_removed(old(self)@, i as int)
                    &&& final(self)@.len() == old(self)@.len() - 1
                    &&& final(self)@.to_multiset() == old(self)@.to_multiset().remove(
                        old(self)@[i as int],
                    )
                },
                None => !has_match(old(self)@, value) && final(self)@ == old(self)@,
            },
    {
        match self.position(value) {
            Some(i) => {
                proof {
                    lemma_swap_removed(self.items@, i as int);
                }
                self.items.swap_remove(i);
                Some(i)
            },
            None => None,
        }
    }

    /// The elements in the order of one direction, equal ranks kept in list order.
    fn sorted(&self, down: bool) -> (r: Vec<Number>)
        ensures
            in_order(r@, down),
            same_groups(r@, self@),
            r@.to_multiset() == self@.to_multiset(),
    {
        let mut out: Vec<Number> = Vec::new();
        let mut i: usize = 0;
        assert(self.items@.take(0) =~= Seq::<Number>::empty());
        while i < self.items.len()
            invariant
                i <= self.items.len(),
                in_order(out@, down),
                same_groups(out@, self.items@.take(i as int)),
                out@.to_multiset() == self.items@.take(i as int).to_multiset(),
            decreases self.items.len() - i,
        {
            let x = self.items[i];
            let mut p: usize = out.len();
            while p > 0 && comes_after(out[p - 1], x, down)
                invariant
                    p <= out.len(),
                    forall|j: int| p <= j < out.len() ==> after(#[trigger] out@[j], x, down),
                decreases p,
            {
                p -= 1;
            }
            let ghost before = out@;
            out.insert(p, x);
            proof {
                let prefix = self.items@.take(i as int);
                assert(self.items@.take(i + 1) =~= prefix.push(x));
                assert forall|a: int, b: int| 0 <= a < b < out@.len() implies !after(
                    #[trigger] out@[a],
                    #[trigger] out@[b],
                    down,
                ) by {
                    let ia = if a < p { a } else { a - 1 };
                    let ib = if b < p { b } else { b - 1 };
                    if b == p {
                        assert(!after(before[p - 1], x, down));
                        if a < p - 1 {
                            assert(!after(before[a], before[p - 1], down));
                        }
                    } else if a != p {
                        assert(!after(before[ia], before[ib], down));
                    }
                }
                assert forall|k: int| #[trigger] of_rank(out@, k) == of_rank(prefix.push(x), k) by {
                    lemma_insert_groups(before, p as int, x, k);
                    assert(of_rank(before, k) == of_rank(prefix, k));
                    before.lemma_filter_push(x, rank_is(k));
                    prefix.lemma_filter_push(x, rank_is(k));
                }
                vstd::seq_lib::to_multiset_insert(before, p as int, x);
                vstd::seq_lib::to_multiset_build(prefix, x);
            }
            i += 1;
        }
        assert(self.items@.take(i as int) =~= self.items@);
        out
    }

    /// The elements by rising value. Elements that compare equal keep the
    /// order they have in the list. The list itself is left as it is.
    pub fn sorted_ascending(&self) -> (r: Vec<Number>)
        requires
            sortable(self@),
        ensures
            ascending(r@),
            same_groups(r@, self@),
            r@.to_multiset() == self@.to_multiset(),
    {
        self.sorted(false)
    }

    /// The elements by falling value. Elements that compare equal keep the
    /// order they have in the list. The list itself is left as it is.
    pub fn sorted_descending(&self) -> (r: Vec<Number>)
        requires
            sortable(self@),
        ensures
            descending(r@),
            same_groups(r@, self@),
            r@.to_multiset() == self@.to_multiset(),
    {
        self.sorted(true)
    }
}

} // verus!
