//! That `ORDER BY` sorts and `DISTINCT` leaves each row once.

use vstd::prelude::*;
use crate::ast::OrderView;
use crate::candidate::{
    candidate_order, deduplicated, distinct_from, holds_keys, item_rank, order_rank, ordered, CandidateView,
};
use crate::float::{not_a_number, Floats};
use crate::order::{law_sorted, leads, sorted, weak_order};
use crate::text::{lemma_text_order, lemma_text_rank_same, text_rank, Rank};
use crate::value::{keys_of, sort_rank, type_of, DataType, ValueView};

verus! {

/// Whether a value is `NULL` or a scalar of this type that is a number where the type is one of numbers.
pub open spec fn sortable(value: ValueView, data_type: DataType) -> bool {
    &&& value is Null || type_of(value) == Some(data_type)
    &&& !(value is Vector)
    &&& value matches ValueView::Float(bits) ==> !not_a_number(bits)
}

/// Whether the keys of the candidates are of these types.
pub open spec fn typed_keys(candidates: Seq<CandidateView>, types: Seq<DataType>) -> bool {
    forall|i: int, k: int|
        0 <= i < candidates.len() && 0 <= k < types.len() ==> sortable(#[trigger] candidates[i].order[k], types[k])
}

/// Whether a ranking of three values is one of an order.
spec fn consistent(ab: Rank, ba: Rank, bc: Rank, ac: Rank) -> bool {
    &&& ab == ba.reversed()
    &&& ab == Rank::Same ==> ac == bc
    &&& bc == Rank::Same ==> ac == ab
    &&& ab == Rank::Before && bc == Rank::Before ==> ac == Rank::Before
    &&& ab == Rank::After && bc == Rank::After ==> ac == Rank::After
}

proof fn lemma_texts_ranked(left: Seq<char>, right: Seq<char>)
    ensures
        text_rank(left, left) == Rank::Same,
        text_rank(left, right) == Rank::Same <==> left == right,
        text_rank(right, left) == Rank::Same <==> left == right,
        text_rank(left, right) == text_rank(right, left).reversed(),
{
    lemma_text_rank_same(left, right, 0);
    lemma_text_rank_same(right, left, 0);
    assert(left.skip(0) =~= left && right.skip(0) =~= right);
    lemma_text_order(left, left, right);
    lemma_text_order(right, right, left);
}

proof fn lemma_sort_rank(floats: Floats, data_type: DataType, a: ValueView, b: ValueView, c: ValueView)
    requires
        sortable(a, data_type),
        sortable(b, data_type),
        sortable(c, data_type),
        !(a is Null) && !(b is Null) && !(c is Null),
    ensures
        sort_rank(floats, a, a) == Rank::Same,
        consistent(
            sort_rank(floats, a, b),
            sort_rank(floats, b, a),
            sort_rank(floats, b, c),
            sort_rank(floats, a, c),
        ),
{
    if let (ValueView::Text(x), ValueView::Text(y), ValueView::Text(z)) = (a, b, c) {
        lemma_texts_ranked(x, y);
        lemma_texts_ranked(y, z);
        lemma_texts_ranked(x, z);
        lemma_text_order(x, y, z);
        lemma_text_order(z, y, x);
    }
}

proof fn lemma_item_rank(item: OrderView, floats: Floats, data_type: DataType, a: ValueView, b: ValueView, c: ValueView)
    requires
        sortable(a, data_type),
        sortable(b, data_type),
        sortable(c, data_type),
    ensures
        item_rank(item, a, a, floats) == Rank::Same,
        consistent(
            item_rank(item, a, b, floats),
            item_rank(item, b, a, floats),
            item_rank(item, b, c, floats),
            item_rank(item, a, c, floats),
        ),
{
    if !(a is Null) {
        lemma_sort_rank(floats, data_type, a, a, a);
    }
    if !(a is Null) && !(b is Null) {
        lemma_sort_rank(floats, data_type, a, b, a);
    }
    if !(a is Null) && !(b is Null) && !(c is Null) {
        lemma_sort_rank(floats, data_type, a, b, c);
    }
}

proof fn lemma_order_rank(
    items: Seq<OrderView>,
    types: Seq<DataType>,
    floats: Floats,
    a: Seq<ValueView>,
    b: Seq<ValueView>,
    c: Seq<ValueView>,
    from: nat,
)
    requires
        items.len() == types.len(),
        forall|k: int| 0 <= k < types.len() ==> sortable(#[trigger] a[k], types[k]),
        forall|k: int| 0 <= k < types.len() ==> sortable(#[trigger] b[k], types[k]),
        forall|k: int| 0 <= k < types.len() ==> sortable(#[trigger] c[k], types[k]),
    ensures
        order_rank(items, a, a, floats, from) == Rank::Same,
        consistent(
            order_rank(items, a, b, floats, from),
            order_rank(items, b, a, floats, from),
            order_rank(items, b, c, floats, from),
            order_rank(items, a, c, floats, from),
        ),
    decreases items.len() - from,
{
    if from < items.len() {
        let at = from as int;
        assert(sortable(a[at], types[at]) && sortable(b[at], types[at]) && sortable(c[at], types[at]));
        lemma_item_rank(items[at], floats, types[at], a[at], b[at], c[at]);
        lemma_order_rank(items, types, floats, a, b, c, from + 1);
    }
}

proof fn lemma_candidates_ordered(
    candidates: Seq<CandidateView>,
    items: Seq<OrderView>,
    types: Seq<DataType>,
    floats: Floats,
)
    requires
        candidates.len() <= usize::MAX,
        items.len() == types.len(),
        typed_keys(candidates, types),
    ensures
        weak_order(candidate_order(candidates, items, floats), candidates.len() as usize),
{
    let count = candidates.len() as usize;
    let before = candidate_order(candidates, items, floats);
    assert forall|a: usize, b: usize, c: usize| a < count && b < count && c < count implies {
        &&& !before(a, a)
        &&& #[trigger] before(a, b) && #[trigger] before(b, c) ==> before(a, c)
        &&& !before(a, b) && !before(b, c) ==> !before(a, c)
    } by {
        lemma_keys(candidates, types, a as int);
        lemma_keys(candidates, types, b as int);
        lemma_keys(candidates, types, c as int);
        lemma_order_rank(
            items,
            types,
            floats,
            candidates[a as int].order,
            candidates[b as int].order,
            candidates[c as int].order,
            0,
        );
    }
    assert forall|a: usize| a < count implies !#[trigger] before(a, a) by {
        assert(before(a, a) == before(a, a));
    }
}

proof fn lemma_keys(candidates: Seq<CandidateView>, types: Seq<DataType>, at: int)
    requires
        typed_keys(candidates, types),
        0 <= at < candidates.len(),
    ensures
        forall|k: int| 0 <= k < types.len() ==> sortable(#[trigger] candidates[at].order[k], types[k]),
{
}

/// `ORDER BY` sorts: of two rows that it returns, the later one does not belong before the earlier
/// one, by the first key in which they differ, and rows that it does not tell apart stay in the order
/// in which they were read. Each row that was read is returned once.
pub proof fn law_results_are_sorted(
    candidates: Seq<CandidateView>,
    items: Seq<OrderView>,
    types: Seq<DataType>,
    floats: Floats,
)
    requires
        candidates.len() <= usize::MAX,
        items.len() == types.len(),
        typed_keys(candidates, types),
    ensures
        ordered(candidates, items, floats).len() == candidates.len(),
        forall|i: int, j: int|
            0 <= i < j < candidates.len() ==> order_rank(
                items,
                (#[trigger] ordered(candidates, items, floats)[i]).order,
                (#[trigger] ordered(candidates, items, floats)[j]).order,
                floats,
                0,
            ) != Rank::After,
        ({
            let places = sorted(candidates.len() as usize, candidate_order(candidates, items, floats));
            &&& places.no_duplicates()
            &&& forall|i: int, j: int|
                0 <= i < j < candidates.len() ==> leads(
                    candidate_order(candidates, items, floats),
                    #[trigger] places[i],
                    #[trigger] places[j],
                )
        }),
{
    let before = candidate_order(candidates, items, floats);
    let count = candidates.len() as usize;
    lemma_candidates_ordered(candidates, items, types, floats);
    law_sorted(count, before);
    let places = sorted(count, before);
    let result = ordered(candidates, items, floats);
    assert forall|i: int, j: int| 0 <= i < j < candidates.len() implies order_rank(
        items,
        (#[trigger] result[i]).order,
        (#[trigger] result[j]).order,
        floats,
        0,
    ) != Rank::After by {
        let a = places[i];
        let b = places[j];
        assert(leads(before, a, b));
        lemma_keys(candidates, types, a as int);
        lemma_keys(candidates, types, b as int);
        lemma_order_rank(
            items,
            types,
            floats,
            candidates[a as int].order,
            candidates[b as int].order,
            candidates[a as int].order,
            0,
        );
    }
}

proof fn lemma_holds_keys(candidates: Seq<CandidateView>, keys: Seq<ValueView>, from: nat)
    ensures
        holds_keys(candidates, keys, from) <==> exists|i: int|
            from <= i < candidates.len() && keys_of((#[trigger] candidates[i]).values) == keys,
    decreases candidates.len() - from,
{
    if from < candidates.len() {
        lemma_holds_keys(candidates, keys, from + 1);
        if keys_of(candidates[from as int].values) == keys {
            assert(holds_keys(candidates, keys, from));
        }
    }
}

/// Whether no two candidates have values that count as the same.
pub open spec fn all_distinct(candidates: Seq<CandidateView>) -> bool {
    forall|i: int, j: int|
        0 <= i < j < candidates.len() ==> keys_of((#[trigger] candidates[i]).values) != keys_of(
            (#[trigger] candidates[j]).values,
        )
}

/// Whether some candidate has values that count as the same as these.
pub open spec fn stands_for(candidates: Seq<CandidateView>, values: Seq<ValueView>) -> bool {
    exists|i: int| 0 <= i < candidates.len() && keys_of((#[trigger] candidates[i]).values) == keys_of(values)
}

proof fn lemma_distinct(candidates: Seq<CandidateView>, from: nat, done: Seq<CandidateView>)
    requires
        all_distinct(done),
    ensures
        all_distinct(distinct_from(candidates, from, done)),
        done.len() <= distinct_from(candidates, from, done).len(),
        distinct_from(candidates, from, done).take(done.len() as int) == done,
        forall|k: int|
            from <= k < candidates.len() ==> stands_for(
                distinct_from(candidates, from, done),
                (#[trigger] candidates[k]).values,
            ),
    decreases candidates.len() - from,
{
    let result = distinct_from(candidates, from, done);
    if from < candidates.len() {
        let candidate = candidates[from as int];
        let keys = keys_of(candidate.values);
        lemma_holds_keys(done, keys, 0);
        if holds_keys(done, keys, 0) {
            lemma_distinct(candidates, from + 1, done);
            let i = choose|i: int| 0 <= i < done.len() && keys_of((#[trigger] done[i]).values) == keys;
            assert(result.take(done.len() as int)[i] == result[i]);
            assert(keys_of(result[i].values) == keys);
        } else {
            let next = done.push(candidate);
            assert forall|i: int, j: int| 0 <= i < j < next.len() implies keys_of((#[trigger] next[i]).values) != keys_of(
                (#[trigger] next[j]).values,
            ) by {
                assert(next[i] == done[i]);
                if j < done.len() {
                    assert(next[j] == done[j]);
                }
            }
            lemma_distinct(candidates, from + 1, next);
            assert(result.take(next.len() as int)[done.len() as int] == candidate);
            assert(keys_of(result[done.len() as int].values) == keys);
            assert(result.take(done.len() as int) =~= next.take(done.len() as int)) by {
                assert(result.take(done.len() as int) =~= result.take(next.len() as int).take(done.len() as int));
            }
            assert(next.take(done.len() as int) =~= done);
        }
        assert(stands_for(result, candidate.values));
    } else {
        assert(result.take(done.len() as int) =~= done);
    }
}

/// `DISTINCT` leaves no two rows that are the same, and leaves one for each row that there was.
pub proof fn law_distinct_rows_come_once(candidates: Seq<CandidateView>)
    ensures
        all_distinct(deduplicated(candidates, true)),
        forall|k: int|
            0 <= k < candidates.len() ==> stands_for(deduplicated(candidates, true), (#[trigger] candidates[k]).values),
{
    lemma_distinct(candidates, 0, Seq::empty());
}

} // verus!
