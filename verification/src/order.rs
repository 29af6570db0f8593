//! Stable sorting of positions.

use vstd::prelude::*;

verus! {

/// Whether one position goes before another.
pub type Precedes = spec_fn(usize, usize) -> bool;

/// The two sequences merged, from `i` and `j` on, after `done`. An item of the second goes first only
/// where it precedes the next item of the first.
pub open spec fn merged(left: Seq<usize>, right: Seq<usize>, before: Precedes, i: nat, j: nat, done: Seq<usize>) -> Seq<usize>
    decreases
        (if i < left.len() {
            left.len() - i
        } else {
            0
        }) + (if j < right.len() {
            right.len() - j
        } else {
            0
        }),
{
    if i >= left.len() && j >= right.len() {
        done
    } else if i >= left.len() || (j < right.len() && before(right[j as int], left[i as int])) {
        merged(left, right, before, i, j + 1, done.push(right[j as int]))
    } else {
        merged(left, right, before, i + 1, j, done.push(left[i as int]))
    }
}

/// The positions from `from` up to `to`, sorted.
pub open spec fn sorted_range(from: usize, to: usize, before: Precedes) -> Seq<usize>
    decreases to - from,
{
    if from >= to {
        Seq::empty()
    } else if to - from == 1 {
        seq![from]
    } else {
        let middle = (from + (to - from) / 2) as usize;
        merged(sorted_range(from, middle, before), sorted_range(middle, to, before), before, 0, 0, Seq::empty())
    }
}

/// The first `count` positions, sorted.
pub open spec fn sorted(count: usize, before: Precedes) -> Seq<usize> {
    sorted_range(0, count, before)
}

/// Whether the exec comparison decides `before` below `count`.
pub open spec fn decides<C: Fn(usize, usize) -> bool>(precedes: C, count: usize, before: Precedes) -> bool {
    &&& forall|a: usize, b: usize| a < count && b < count ==> #[trigger] precedes.requires((a, b))
    &&& forall|a: usize, b: usize, result: bool|
        a < count && b < count && #[trigger] precedes.ensures((a, b), result) ==> result == before(a, b)
}

fn merge<C: Fn(usize, usize) -> bool>(
    left: &Vec<usize>,
    right: &Vec<usize>,
    precedes: &C,
    count: usize,
    Ghost(before): Ghost<Precedes>,
) -> (result: Vec<usize>)
    requires
        decides(*precedes, count, before),
        forall|i: int| 0 <= i < left@.len() ==> (#[trigger] left@[i]) < count,
        forall|i: int| 0 <= i < right@.len() ==> (#[trigger] right@[i]) < count,
        left@.len() + right@.len() <= count,
    ensures
        result@ == merged(left@, right@, before, 0, 0, Seq::empty()),
        result@.len() == left@.len() + right@.len(),
        forall|i: int| 0 <= i < result@.len() ==> (#[trigger] result@[i]) < count,
{
    let mut out: Vec<usize> = Vec::new();
    let mut i: usize = 0;
    let mut j: usize = 0;
    while i < left.len() || j < right.len()
        invariant
            decides(*precedes, count, before),
            forall|i: int| 0 <= i < left@.len() ==> (#[trigger] left@[i]) < count,
            forall|i: int| 0 <= i < right@.len() ==> (#[trigger] right@[i]) < count,
            left@.len() + right@.len() <= count,
            i <= left@.len(),
            j <= right@.len(),
            out@.len() == i + j,
            forall|k: int| 0 <= k < out@.len() ==> (#[trigger] out@[k]) < count,
            merged(left@, right@, before, i as nat, j as nat, out@) == merged(left@, right@, before, 0, 0, Seq::empty()),
        decreases left@.len() + right@.len() - i - j,
    {
        let second = if i >= left.len() {
            true
        } else if j >= right.len() {
            false
        } else {
            precedes(right[j], left[i])
        };
        if second {
            out.push(right[j]);
            j = j + 1;
        } else {
            out.push(left[i]);
            i = i + 1;
        }
    }
    out
}

fn sort_range<C: Fn(usize, usize) -> bool>(
    from: usize,
    to: usize,
    precedes: &C,
    count: usize,
    Ghost(before): Ghost<Precedes>,
) -> (result: Vec<usize>)
    requires
        decides(*precedes, count, before),
        from <= to <= count,
    ensures
        result@ == sorted_range(from, to, before),
        result@.len() == to - from,
        forall|i: int| 0 <= i < result@.len() ==> (#[trigger] result@[i]) < count,
    decreases to - from,
{
    if from >= to {
        return Vec::new();
    }
    if to - from == 1 {
        let mut one: Vec<usize> = Vec::new();
        one.push(from);
        assert(one@ =~= seq![from]);
        return one;
    }
    let middle: usize = from + (to - from) / 2;
    let left = sort_range(from, middle, precedes, count, Ghost(before));
    let right = sort_range(middle, to, precedes, count, Ghost(before));
    merge(&left, &right, precedes, count, Ghost(before))
}

/// The first `count` positions, sorted.
pub(crate) fn sort_positions<C: Fn(usize, usize) -> bool>(count: usize, precedes: &C, Ghost(before): Ghost<Precedes>) -> (result:
    Vec<usize>)
    requires
        decides(*precedes, count, before),
    ensures
        result@ == sorted(count, before),
        result@.len() == count,
        forall|i: int| 0 <= i < result@.len() ==> (#[trigger] result@[i]) < count,
{
    sort_range(0, count, precedes, count, Ghost(before))
}

proof fn lemma_merged_within(left: Seq<usize>, right: Seq<usize>, before: Precedes, i: nat, j: nat, done: Seq<usize>, count: usize)
    requires
        i <= left.len(),
        j <= right.len(),
        forall|k: int| 0 <= k < left.len() ==> (#[trigger] left[k]) < count,
        forall|k: int| 0 <= k < right.len() ==> (#[trigger] right[k]) < count,
        forall|k: int| 0 <= k < done.len() ==> (#[trigger] done[k]) < count,
    ensures
        merged(left, right, before, i, j, done).len() == left.len() - i + right.len() - j + done.len(),
        forall|k: int|
            0 <= k < merged(left, right, before, i, j, done).len() ==> (#[trigger] merged(left, right, before, i, j, done)[k])
                < count,
    decreases left.len() - i + right.len() - j,
{
    if i < left.len() && (j >= right.len() || !before(right[j as int], left[i as int])) {
        lemma_merged_within(left, right, before, i + 1, j, done.push(left[i as int]), count);
    } else if j < right.len() {
        lemma_merged_within(left, right, before, i, j + 1, done.push(right[j as int]), count);
    }
}

proof fn lemma_range_within(from: usize, to: usize, before: Precedes)
    requires
        from <= to,
    ensures
        sorted_range(from, to, before).len() == to - from,
        forall|k: int| 0 <= k < to - from ==> (#[trigger] sorted_range(from, to, before)[k]) < to,
    decreases to - from,
{
    if from < to && to - from > 1 {
        let middle = (from + (to - from) / 2) as usize;
        lemma_range_within(from, middle, before);
        lemma_range_within(middle, to, before);
        lemma_merged_within(
            sorted_range(from, middle, before),
            sorted_range(middle, to, before),
            before,
            0,
            0,
            Seq::empty(),
            to,
        );
    }
}

/// Sorting gives as many positions as there are, each below their number.
pub proof fn lemma_sorted_within(count: usize, before: Precedes)
    ensures
        sorted(count, before).len() == count,
        forall|k: int| 0 <= k < count ==> (#[trigger] sorted(count, before)[k]) < count,
{
    lemma_range_within(0, count, before);
}

/// Whether `before` is a strict weak order of the positions below `count`.
pub open spec fn weak_order(before: Precedes, count: usize) -> bool {
    &&& forall|a: usize| a < count ==> !#[trigger] before(a, a)
    &&& forall|a: usize, b: usize, c: usize|
        a < count && b < count && c < count && #[trigger] before(a, b) && #[trigger] before(b, c) ==> before(a, c)
    &&& forall|a: usize, b: usize, c: usize|
        a < count && b < count && c < count && !#[trigger] before(a, b) && !#[trigger] before(b, c) ==> !before(a, c)
}

/// Whether one position goes before another or, where neither does, is the smaller.
pub open spec fn leads(before: Precedes, a: usize, b: usize) -> bool {
    before(a, b) || (!before(b, a) && a < b)
}

/// Whether the positions are those from `from` up to `to`, each led by all before it.
pub open spec fn stably_sorted(order: Seq<usize>, from: int, to: int, before: Precedes) -> bool {
    &&& order.len() == to - from
    &&& forall|i: int| 0 <= i < order.len() ==> from <= (#[trigger] order[i]) < to
    &&& forall|i: int, j: int| 0 <= i < j < order.len() ==> leads(before, #[trigger] order[i], #[trigger] order[j])
}

proof fn lemma_leads(before: Precedes, count: usize, a: usize, b: usize, c: usize)
    requires
        weak_order(before, count),
        a < count,
        b < count,
        c < count,
        leads(before, a, b),
        leads(before, b, c),
    ensures
        leads(before, a, c),
{
    assert(!before(b, a)) by {
        if before(b, a) {
            assert(before(a, b) && before(b, a));
            assert(before(a, a));
        }
    }
    assert(!before(c, b)) by {
        if before(c, b) {
            assert(before(b, c) && before(c, b));
            assert(before(b, b));
        }
    }
    assert(!before(c, a));
    if !before(a, c) {
        if before(a, b) {
            assert(!before(a, c) && !before(c, b));
            assert(!before(a, b));
        } else if before(b, c) {
            assert(!before(b, a) && !before(a, c));
            assert(!before(b, c));
        }
    }
}

proof fn lemma_merged(
    left: Seq<usize>,
    right: Seq<usize>,
    before: Precedes,
    count: usize,
    from: int,
    middle: int,
    to: int,
    i: nat,
    j: nat,
    done: Seq<usize>,
)
    requires
        weak_order(before, count),
        0 <= from <= middle <= to <= count,
        stably_sorted(left, from, middle, before),
        stably_sorted(right, middle, to, before),
        i <= left.len(),
        j <= right.len(),
        done.len() == i + j,
        forall|k: int| 0 <= k < done.len() ==> from <= (#[trigger] done[k]) < to,
        forall|k: int, l: int| 0 <= k < l < done.len() ==> leads(before, #[trigger] done[k], #[trigger] done[l]),
        forall|k: int, l: int| 0 <= k < done.len() && i <= l < left.len() ==> leads(before, #[trigger] done[k], #[trigger] left[l]),
        forall|k: int, l: int|
            0 <= k < done.len() && j <= l < right.len() ==> leads(before, #[trigger] done[k], #[trigger] right[l]),
    ensures
        stably_sorted(merged(left, right, before, i, j, done), from, to, before),
    decreases left.len() - i + right.len() - j,
{
    if i >= left.len() && j >= right.len() {
    } else if i >= left.len() || (j < right.len() && before(right[j as int], left[i as int])) {
        let item = right[j as int];
        let next = done.push(item);
        assert forall|k: int, l: int| 0 <= k < next.len() && i <= l < left.len() implies leads(
            before,
            #[trigger] next[k],
            #[trigger] left[l],
        ) by {
            if k == done.len() {
                assert(leads(before, item, left[i as int]));
                if l > i {
                    assert(leads(before, left[i as int], left[l]));
                    lemma_leads(before, count, item, left[i as int], left[l]);
                }
            }
        }
        lemma_merged(left, right, before, count, from, middle, to, i, j + 1, next);
    } else {
        let item = left[i as int];
        let next = done.push(item);
        assert forall|k: int, l: int| 0 <= k < next.len() && j <= l < right.len() implies leads(
            before,
            #[trigger] next[k],
            #[trigger] right[l],
        ) by {
            if k == done.len() {
                assert(leads(before, item, right[j as int]));
                if l > j {
                    assert(leads(before, right[j as int], right[l]));
                    lemma_leads(before, count, item, right[j as int], right[l]);
                }
            }
        }
        lemma_merged(left, right, before, count, from, middle, to, i + 1, j, next);
    }
}

proof fn lemma_sorted_range(from: usize, to: usize, before: Precedes, count: usize)
    requires
        weak_order(before, count),
        from <= to <= count,
    ensures
        stably_sorted(sorted_range(from, to, before), from as int, to as int, before),
    decreases to - from,
{
    if to - from > 1 {
        let middle = (from + (to - from) / 2) as usize;
        lemma_sorted_range(from, middle, before, count);
        lemma_sorted_range(middle, to, before, count);
        lemma_merged(
            sorted_range(from, middle, before),
            sorted_range(middle, to, before),
            before,
            count,
            from as int,
            middle as int,
            to as int,
            0,
            0,
            Seq::empty(),
        );
    }
}

/// Sorting by a strict weak order gives every position once, none after one that it goes before,
/// and those that are equivalent in their first order.
pub proof fn law_sorted(count: usize, before: Precedes)
    requires
        weak_order(before, count),
    ensures
        stably_sorted(sorted(count, before), 0, count as int, before),
        sorted(count, before).no_duplicates(),
{
    lemma_sorted_range(0, count, before, count);
    let order = sorted(count, before);
    assert forall|i: int, j: int| 0 <= i < order.len() && 0 <= j < order.len() && i != j implies order[i] != order[j] by {
        if i < j {
            assert(leads(before, order[i], order[j]));
        } else {
            assert(leads(before, order[j], order[i]));
        }
    }
}

proof fn lemma_skip_one(items: Seq<usize>, from: nat)
    requires
        from < items.len(),
    ensures
        items.skip(from as int).to_multiset() == items.skip(from as int + 1).to_multiset().insert(items[from as int]),
{
    broadcast use vstd::multiset::group_multiset_axioms;

    let rest = items.skip(from as int);
    rest.to_multiset_ensures();
    assert(rest.remove(0) =~= items.skip(from as int + 1));
    assert(rest[0] == items[from as int]);
    assert(rest.contains(rest[0]));
    assert(rest.to_multiset() =~= rest.to_multiset().remove(rest[0]).insert(rest[0]));
}

/// Merging keeps what there is.
proof fn lemma_merged_keeps(left: Seq<usize>, right: Seq<usize>, before: Precedes, i: nat, j: nat, done: Seq<usize>)
    requires
        i <= left.len(),
        j <= right.len(),
    ensures
        merged(left, right, before, i, j, done).to_multiset() == done.to_multiset().add(
            left.skip(i as int).to_multiset(),
        ).add(right.skip(j as int).to_multiset()),
    decreases left.len() - i + right.len() - j,
{
    broadcast use vstd::multiset::group_multiset_axioms;

    done.to_multiset_ensures();
    let all = done.to_multiset().add(left.skip(i as int).to_multiset()).add(right.skip(j as int).to_multiset());
    if i >= left.len() && j >= right.len() {
        assert(left.skip(i as int) =~= Seq::empty());
        assert(right.skip(j as int) =~= Seq::empty());
        Seq::<usize>::empty().to_multiset_ensures();
        assert(Seq::<usize>::empty().to_multiset().len() == 0);
        assert(all =~= done.to_multiset());
    } else if i >= left.len() || (j < right.len() && before(right[j as int], left[i as int])) {
        lemma_merged_keeps(left, right, before, i, j + 1, done.push(right[j as int]));
        lemma_skip_one(right, j);
        assert(all =~= done.push(right[j as int]).to_multiset().add(left.skip(i as int).to_multiset()).add(
            right.skip(j as int + 1).to_multiset(),
        ));
    } else {
        lemma_merged_keeps(left, right, before, i + 1, j, done.push(left[i as int]));
        lemma_skip_one(left, i);
        assert(all =~= done.push(left[i as int]).to_multiset().add(left.skip(i as int + 1).to_multiset()).add(
            right.skip(j as int).to_multiset(),
        ));
    }
}

/// The positions from `from` up to `to`.
spec fn positions(from: usize, to: usize) -> Seq<usize> {
    Seq::new((to - from) as nat, |k: int| (from + k) as usize)
}

proof fn lemma_range_keeps(from: usize, to: usize, before: Precedes)
    requires
        from <= to,
    ensures
        sorted_range(from, to, before).to_multiset() == positions(from, to).to_multiset(),
    decreases to - from,
{
    broadcast use vstd::multiset::group_multiset_axioms;

    if from == to {
        assert(positions(from, to) =~= Seq::empty());
    } else if to - from == 1 {
        assert(positions(from, to) =~= seq![from]);
    } else {
        let middle = (from + (to - from) / 2) as usize;
        lemma_range_keeps(from, middle, before);
        lemma_range_keeps(middle, to, before);
        let left = sorted_range(from, middle, before);
        let right = sorted_range(middle, to, before);
        lemma_merged_keeps(left, right, before, 0, 0, Seq::empty());
        assert(left.skip(0) =~= left);
        assert(right.skip(0) =~= right);
        Seq::<usize>::empty().to_multiset_ensures();
        assert(Seq::<usize>::empty().to_multiset().len() == 0);
        assert(positions(from, to) =~= positions(from, middle) + positions(middle, to));
        vstd::seq_lib::lemma_multiset_commutative(positions(from, middle), positions(middle, to));
        assert(Seq::<usize>::empty().to_multiset().add(left.to_multiset()) =~= left.to_multiset());
    }
}

/// Sorting gives every position once, whatever the order.
pub proof fn lemma_sorted_each(count: usize, before: Precedes)
    ensures
        sorted(count, before).len() == count,
        sorted(count, before).no_duplicates(),
        forall|p: usize| p < count ==> sorted(count, before).contains(p),
        forall|k: int| 0 <= k < count ==> (#[trigger] sorted(count, before)[k]) < count,
{
    let order = sorted(count, before);
    let all = positions(0, count);
    lemma_sorted_within(count, before);
    lemma_range_keeps(0, count, before);
    all.lemma_multiset_has_no_duplicates();
    order.lemma_multiset_has_no_duplicates_conv();
    all.to_multiset_ensures();
    order.to_multiset_ensures();
    assert forall|p: usize| p < count implies order.contains(p) by {
        assert(all[p as int] == p);
        assert(all.contains(p));
        assert(all.to_multiset().count(p) > 0);
    }
}

} // verus!
