//! Result rows before they are ordered, made distinct and cut to the window asked for.

use vstd::prelude::*;
use crate::ast::{OrderItem, OrderView};
use crate::error::{invalid, plain, Error, ErrorView};
use crate::float::{computes, floats, FloatReply, FloatTask, Floats};
use crate::order::{sort_positions, sorted, Precedes};
use crate::text::{join2, lemma_views_push, same_text, views, Rank};
use crate::value::{
    compare_sort_values, copy_row, keys_of, lemma_row_views_push, row_keys, row_views, same_keys, sort_rank, UniqueKey, Value,
    ValueView,
};

verus! {

broadcast use {vstd::string::group_string_axioms, lemma_views_push, lemma_row_views_push};

/// A result row and the values that it is ordered by.
#[derive(Debug)]
pub struct Candidate {
    pub values: Vec<Value>,
    pub order: Vec<Value>,
}

#[verifier::ext_equal]
pub struct CandidateView {
    pub values: Seq<ValueView>,
    pub order: Seq<ValueView>,
}

impl View for Candidate {
    type V = CandidateView;

    open spec fn view(&self) -> CandidateView {
        CandidateView { values: views(self.values@), order: views(self.order@) }
    }
}

/// Whether each candidate has so many values to be ordered by.
pub open spec fn keyed(candidates: Seq<CandidateView>, count: nat) -> bool {
    forall|i: int| 0 <= i < candidates.len() ==> (#[trigger] candidates[i]).order.len() == count
}

/// The order in which one item of `ORDER BY` puts two values.
pub open spec fn item_rank(item: OrderView, left: ValueView, right: ValueView, floats: Floats) -> Rank {
    match (left, right) {
        (ValueView::Null, ValueView::Null) => Rank::Same,
        (ValueView::Null, _) => if item.nulls_lead() {
            Rank::Before
        } else {
            Rank::After
        },
        (_, ValueView::Null) => if item.nulls_lead() {
            Rank::After
        } else {
            Rank::Before
        },
        _ => if item.descending() {
            sort_rank(floats, left, right).reversed()
        } else {
            sort_rank(floats, left, right)
        },
    }
}

/// The order in which the items from `from` on put two candidates: that of the first item in which
/// they differ.
pub open spec fn order_rank(
    items: Seq<OrderView>,
    left: Seq<ValueView>,
    right: Seq<ValueView>,
    floats: Floats,
    from: nat,
) -> Rank
    decreases items.len() - from,
{
    if from >= items.len() {
        Rank::Same
    } else {
        match item_rank(items[from as int], left[from as int], right[from as int], floats) {
            Rank::Same => order_rank(items, left, right, floats, from + 1),
            rank => rank,
        }
    }
}

/// The order in which one item of `ORDER BY` puts two values.
pub fn compare_item<F: Fn(FloatTask) -> FloatReply>(f: &F, item: &OrderItem, left: &Value, right: &Value) -> (rank: Rank)
    requires
        computes(*f),
    ensures
        rank == item_rank(item@, left@, right@, floats(*f)),
{
    let descending = match item.ascending {
        Some(ascending) => !ascending,
        None => false,
    };
    let nulls_lead = match item.nulls_first {
        Some(first) => first,
        None => descending,
    };
    match (left, right) {
        (Value::Null, Value::Null) => Rank::Same,
        (Value::Null, _) => if nulls_lead {
            Rank::Before
        } else {
            Rank::After
        },
        (_, Value::Null) => if nulls_lead {
            Rank::After
        } else {
            Rank::Before
        },
        _ => {
            let rank = compare_sort_values(f, left, right);
            if descending {
                rank.reverse()
            } else {
                rank
            }
        },
    }
}

/// The order in which `ORDER BY` puts two rows of values.
pub fn compare_order<F: Fn(FloatTask) -> FloatReply>(f: &F, items: &Vec<OrderItem>, left: &Vec<Value>, right: &Vec<Value>) -> (rank:
    Rank)
    requires
        computes(*f),
        left@.len() == items@.len(),
        right@.len() == items@.len(),
    ensures
        rank == order_rank(views(items@), views(left@), views(right@), floats(*f), 0),
{
    let mut index: usize = 0;
    while index < items.len()
        invariant
            computes(*f),
            left@.len() == items@.len(),
            right@.len() == items@.len(),
            index <= items@.len(),
            order_rank(views(items@), views(left@), views(right@), floats(*f), index as nat) == order_rank(
                views(items@),
                views(left@),
                views(right@),
                floats(*f),
                0,
            ),
        decreases items@.len() - index,
    {
        assert(views(items@)[index as int] == items@[index as int]@);
        assert(views(left@)[index as int] == left@[index as int]@);
        assert(views(right@)[index as int] == right@[index as int]@);
        match compare_item(f, &items[index], &left[index], &right[index]) {
            Rank::Same => {},
            rank => return rank,
        }
        index = index + 1;
    }
    Rank::Same
}

/// Whether one candidate goes before another.
pub open spec fn candidate_order(candidates: Seq<CandidateView>, items: Seq<OrderView>, floats: Floats) -> Precedes {
    |a: usize, b: usize|
        order_rank(items, candidates[a as int].order, candidates[b as int].order, floats, 0) == Rank::Before
}

/// The candidates in the order of `ORDER BY`; those that it does not order stay as they are.
pub open spec fn ordered(candidates: Seq<CandidateView>, items: Seq<OrderView>, floats: Floats) -> Seq<CandidateView> {
    sorted(candidates.len() as usize, candidate_order(candidates, items, floats)).map_values(
        |at: usize| candidates[at as int],
    )
}

fn copy_candidate(candidate: &Candidate) -> (copy: Candidate)
    ensures
        copy@ == candidate@,
{
    Candidate { values: copy_row(&candidate.values), order: copy_row(&candidate.order) }
}

/// The candidates in the order of `ORDER BY`.
pub fn order_candidates<F: Fn(FloatTask) -> FloatReply>(f: &F, candidates: &Vec<Candidate>, items: &Vec<OrderItem>) -> (result: Vec<
    Candidate,
>)
    requires
        computes(*f),
        keyed(views(candidates@), items@.len()),
    ensures
        views(result@) == ordered(views(candidates@), views(items@), floats(*f)),
        result@.len() == candidates@.len(),
        keyed(views(result@), items@.len()),
{
    let ghost all = views(candidates@);
    let ghost before = candidate_order(all, views(items@), floats(*f));
    let precedes = |a: usize, b: usize| -> (result: bool)
        requires
            a < candidates@.len(),
            b < candidates@.len(),
        ensures
            result == before(a, b),
        {
            assert(views(candidates@)[a as int] == candidates@[a as int]@);
            assert(views(candidates@)[b as int] == candidates@[b as int]@);
            match compare_order(f, items, &candidates[a].order, &candidates[b].order) {
                Rank::Before => true,
                _ => false,
            }
        };
    let order = sort_positions(candidates.len(), &precedes, Ghost(before));
    let mut out: Vec<Candidate> = Vec::new();
    let mut index: usize = 0;
    while index < order.len()
        invariant
            index <= order@.len(),
            forall|i: int| 0 <= i < order@.len() ==> (#[trigger] order@[i]) < candidates@.len(),
            out@.len() == index,
            forall|i: int| 0 <= i < index ==> (#[trigger] out@[i])@ == candidates@[order@[i] as int]@,
        decreases order@.len() - index,
    {
        out.push(copy_candidate(&candidates[order[index]]));
        index = index + 1;
    }
    assert(views(out@) =~= ordered(all, views(items@), floats(*f)));
    assert forall|i: int| 0 <= i < views(out@).len() implies (#[trigger] views(out@)[i]).order.len() == items@.len() by {
        assert(views(out@)[i] == all[order@[i] as int]);
    }
    out
}

/// Whether a candidate, from `from` on, has values of these keys.
pub open spec fn holds_keys(candidates: Seq<CandidateView>, keys: Seq<ValueView>, from: nat) -> bool
    decreases candidates.len() - from,
{
    from < candidates.len() && (keys_of(candidates[from as int].values) == keys || holds_keys(candidates, keys, from + 1))
}

/// The candidates from `from` on whose values none before has, after `done`.
pub open spec fn distinct_from(candidates: Seq<CandidateView>, from: nat, done: Seq<CandidateView>) -> Seq<CandidateView>
    decreases candidates.len() - from,
{
    if from >= candidates.len() {
        done
    } else {
        let candidate = candidates[from as int];
        distinct_from(
            candidates,
            from + 1,
            if holds_keys(done, keys_of(candidate.values), 0) {
                done
            } else {
                done.push(candidate)
            },
        )
    }
}

/// The candidates, of equal ones only the first where `distinct`.
pub open spec fn deduplicated(candidates: Seq<CandidateView>, distinct: bool) -> Seq<CandidateView> {
    if distinct {
        distinct_from(candidates, 0, Seq::empty())
    } else {
        candidates
    }
}

/// Whether a candidate has these keys.
pub fn has_keys(candidates: &Vec<Candidate>, keys: &Vec<UniqueKey>) -> (result: bool)
    ensures
        result == holds_keys(views(candidates@), views(keys@), 0),
{
    let mut index: usize = 0;
    while index < candidates.len()
        invariant
            index <= candidates@.len(),
            holds_keys(views(candidates@), views(keys@), index as nat) == holds_keys(views(candidates@), views(keys@), 0),
        decreases candidates@.len() - index,
    {
        assert(views(candidates@)[index as int] == candidates@[index as int]@);
        let other = row_keys(&candidates[index].values);
        if same_keys(&other, keys) {
            return true;
        }
        index = index + 1;
    }
    false
}

/// The candidates, of equal ones only the first where `distinct`.
pub fn deduplicate(candidates: Vec<Candidate>, distinct: bool) -> (result: Vec<Candidate>)
    ensures
        views(result@) == deduplicated(views(candidates@), distinct),
        forall|count: nat| #[trigger] keyed(views(candidates@), count) ==> keyed(views(result@), count),
{
    if !distinct {
        return candidates;
    }
    let ghost all = views(candidates@);
    let mut out: Vec<Candidate> = Vec::new();
    assert(views(out@) =~= Seq::<CandidateView>::empty());
    let mut index: usize = 0;
    while index < candidates.len()
        invariant
            all == views(candidates@),
            index <= candidates@.len(),
            distinct_from(all, index as nat, views(out@)) == distinct_from(all, 0, Seq::empty()),
            forall|count: nat| #[trigger] keyed(all, count) ==> keyed(views(out@), count),
        decreases candidates@.len() - index,
    {
        let ghost before = views(out@);
        assert(all[index as int] == candidates@[index as int]@);
        let keys = row_keys(&candidates[index].values);
        if !has_keys(&out, &keys) {
            out.push(copy_candidate(&candidates[index]));
            assert forall|count: nat| #[trigger] keyed(all, count) implies keyed(views(out@), count) by {
                assert(keyed(before, count));
                assert forall|i: int| 0 <= i < views(out@).len() implies (#[trigger] views(out@)[i]).order.len() == count by {
                    if i < before.len() {
                        assert(views(out@)[i] == before[i]);
                    } else {
                        assert(views(out@)[i] == all[index as int]);
                    }
                }
            }
        }
        index = index + 1;
    }
    out
}

/// The kind of values that a value can be ordered among.
pub open spec fn sort_category(value: ValueView) -> Result<Option<Seq<char>>, ErrorView> {
    match value {
        ValueView::Null => Ok(None),
        ValueView::Integer(_) => Ok(Some("numeric"@)),
        ValueView::Float(_) => Ok(Some("numeric"@)),
        ValueView::Text(_) => Ok(Some("text"@)),
        ValueView::Boolean(_) => Ok(Some("boolean"@)),
        ValueView::Vector(_) => Err(
            ErrorView::TypeMismatch { expected: "sortable scalar value"@, found: "VECTOR"@ },
        ),
    }
}

/// Whether the candidates from `from` on have values of one kind to be ordered by at `at`.
pub open spec fn one_category(candidates: Seq<CandidateView>, at: nat, from: nat, expected: Option<Seq<char>>) -> Result<
    (),
    ErrorView,
>
    decreases candidates.len() - from,
{
    if from >= candidates.len() {
        Ok(())
    } else {
        match sort_category(candidates[from as int].order[at as int]) {
            Err(error) => Err(error),
            Ok(None) => one_category(candidates, at, from + 1, expected),
            Ok(Some(category)) => match expected {
                Some(wanted) => if wanted == category {
                    one_category(candidates, at, from + 1, expected)
                } else {
                    Err(ErrorView::TypeMismatch { expected: wanted + " ORDER BY expression"@, found: category })
                },
                None => one_category(candidates, at, from + 1, Some(category)),
            },
        }
    }
}

/// Whether all values that the candidates are ordered by, from `at` on, can be ordered.
pub open spec fn orderable(candidates: Seq<CandidateView>, count: nat, at: nat) -> Result<(), ErrorView>
    decreases count - at,
{
    if at >= count {
        Ok(())
    } else {
        match one_category(candidates, at, 0, None) {
            Err(error) => Err(error),
            Ok(_) => orderable(candidates, count, at + 1),
        }
    }
}

fn category_of(value: &Value) -> (result: Result<Option<&'static str>, Error>)
    ensures
        match result {
            Ok(Some(category)) => sort_category(value@) == Ok::<Option<Seq<char>>, ErrorView>(Some(category@)),
            Ok(None) => sort_category(value@) == Ok::<Option<Seq<char>>, ErrorView>(None),
            Err(error) => sort_category(value@) == Err::<Option<Seq<char>>, ErrorView>(error@),
        },
{
    match value {
        Value::Null => Ok(None),
        Value::Integer(_) => Ok(Some("numeric")),
        Value::Float(_) => Ok(Some("numeric")),
        Value::Text(_) => Ok(Some("text")),
        Value::Boolean(_) => Ok(Some("boolean")),
        Value::Vector(_) => Err(
            Error::TypeMismatch { expected: "sortable scalar value".to_owned(), found: "VECTOR".to_owned() },
        ),
    }
}

pub open spec fn category_view(expected: Option<&'static str>) -> Option<Seq<char>> {
    match expected {
        Some(text) => Some(text@),
        None => None,
    }
}

fn check_category(candidates: &Vec<Candidate>, at: usize) -> (result: Result<(), Error>)
    requires
        forall|i: int| 0 <= i < candidates@.len() ==> (#[trigger] candidates@[i]).order@.len() > at,
    ensures
        plain(result) == one_category(views(candidates@), at as nat, 0, None),
{
    let mut expected: Option<&'static str> = None;
    let mut index: usize = 0;
    while index < candidates.len()
        invariant
            forall|i: int| 0 <= i < candidates@.len() ==> (#[trigger] candidates@[i]).order@.len() > at,
            index <= candidates@.len(),
            one_category(views(candidates@), at as nat, index as nat, category_view(expected)) == one_category(
                views(candidates@),
                at as nat,
                0,
                None,
            ),
        decreases candidates@.len() - index,
    {
        assert(views(candidates@)[index as int] == candidates@[index as int]@);
        assert(views(candidates@[index as int].order@)[at as int] == candidates@[index as int].order@[at as int]@);
        if let Some(category) = category_of(&candidates[index].order[at])? {
            match expected {
                Some(wanted) => {
                    if !same_text(wanted, category) {
                        return Err(
                            Error::TypeMismatch {
                                expected: join2(wanted, " ORDER BY expression"),
                                found: category.to_owned(),
                            },
                        );
                    }
                },
                None => {
                    expected = Some(category);
                },
            }
        }
        index = index + 1;
    }
    Ok(())
}

/// Fails exactly when values that candidates are ordered by cannot be ordered.
pub fn validate_order_values(candidates: &Vec<Candidate>, count: usize) -> (result: Result<(), Error>)
    requires
        keyed(views(candidates@), count as nat),
    ensures
        plain(result) == orderable(views(candidates@), count as nat, 0),
{
    let mut at: usize = 0;
    while at < count
        invariant
            keyed(views(candidates@), count as nat),
            at <= count,
            orderable(views(candidates@), count as nat, at as nat) == orderable(views(candidates@), count as nat, 0),
        decreases count - at,
    {
        assert forall|i: int| 0 <= i < candidates@.len() implies (#[trigger] candidates@[i]).order@.len() > at by {
            assert(views(candidates@)[i] == candidates@[i]@);
        }
        check_category(candidates, at)?;
        at = at + 1;
    }
    Ok(())
}

/// At most `limit` items after the first `offset`.
pub open spec fn window<T>(items: Seq<T>, offset: nat, limit: Option<nat>) -> Seq<T> {
    let from = if offset <= items.len() {
        offset
    } else {
        items.len()
    };
    let to = match limit {
        Some(limit) => if limit <= items.len() - from {
            from + limit
        } else {
            items.len()
        },
        None => items.len(),
    };
    items.subrange(from as int, to as int)
}

pub open spec fn values_of(candidates: Seq<CandidateView>) -> Seq<Seq<ValueView>> {
    candidates.map_values(|candidate: CandidateView| candidate.values)
}

pub open spec fn optional_count(count: Option<usize>) -> Option<nat> {
    match count {
        Some(count) => Some(count as nat),
        None => None,
    }
}

/// The rows within the window.
pub fn take_window(candidates: &Vec<Candidate>, offset: usize, limit: Option<usize>) -> (result: Vec<Vec<Value>>)
    ensures
        row_views(result@) == values_of(window(views(candidates@), offset as nat, optional_count(limit))),
{
    let from: usize = if offset <= candidates.len() {
        offset
    } else {
        candidates.len()
    };
    let to: usize = match limit {
        Some(limit) => if limit <= candidates.len() - from {
            from + limit
        } else {
            candidates.len()
        },
        None => candidates.len(),
    };
    let mut out: Vec<Vec<Value>> = Vec::new();
    let mut index: usize = from;
    while index < to
        invariant
            from <= index <= to <= candidates@.len(),
            out@.len() == index - from,
            forall|i: int| 0 <= i < out@.len() ==> views((#[trigger] out@[i])@) == candidates@[from + i]@.values,
        decreases to - index,
    {
        out.push(copy_row(&candidates[index].values));
        index = index + 1;
    }
    assert(row_views(out@) =~= values_of(window(views(candidates@), offset as nat, optional_count(limit))));
    out
}

/// How many ordered rows a query retains, where `ORDER BY` and `LIMIT` are both given.
pub open spec fn retained(ordered: bool, offset: nat, limit: Option<nat>) -> Result<Option<nat>, ErrorView> {
    match limit {
        Some(limit) if ordered => if offset + limit <= usize::MAX {
            Ok(Some(offset + limit))
        } else {
            Err(ErrorView::InvalidQuery("OFFSET plus LIMIT is too large"@))
        },
        _ => Ok(None),
    }
}

/// How many ordered rows a query retains, where `ORDER BY` and `LIMIT` are both given.
pub fn retained_rows(ordered: bool, offset: usize, limit: Option<usize>) -> (result: Result<Option<usize>, Error>)
    ensures
        match result {
            Ok(count) => retained(ordered, offset as nat, optional_count(limit)) == Ok::<Option<nat>, ErrorView>(
                optional_count(count),
            ),
            Err(error) => retained(ordered, offset as nat, optional_count(limit)) == Err::<Option<nat>, ErrorView>(error@),
        },
{
    match limit {
        Some(limit) => if ordered {
            match offset.checked_add(limit) {
                Some(count) => Ok(Some(count)),
                None => Err(invalid("OFFSET plus LIMIT is too large")),
            }
        } else {
            Ok(None)
        },
        None => Ok(None),
    }
}

/// The rows of a query whose retained candidates are checked once they have been chosen.
pub open spec fn chosen_rows(
    candidates: Seq<CandidateView>,
    items: Seq<OrderView>,
    offset: nat,
    limit: Option<nat>,
    floats: Floats,
) -> Result<Seq<Seq<ValueView>>, ErrorView> {
    if items.len() == 0 {
        Ok(values_of(window(candidates, offset, limit)))
    } else {
        let all = ordered(candidates, items, floats);
        let kept = match limit {
            Some(limit) => window(all, 0, Some(offset + limit)),
            None => candidates,
        };
        match orderable(kept, items.len(), 0) {
            Err(error) => Err(error),
            Ok(_) => Ok(values_of(window(all, offset, limit))),
        }
    }
}

/// The rows of a query whose candidates are all checked.
pub open spec fn checked_rows(
    candidates: Seq<CandidateView>,
    items: Seq<OrderView>,
    offset: nat,
    limit: Option<nat>,
    floats: Floats,
) -> Result<Seq<Seq<ValueView>>, ErrorView> {
    if items.len() == 0 {
        Ok(values_of(window(candidates, offset, limit)))
    } else {
        match orderable(candidates, items.len(), 0) {
            Err(error) => Err(error),
            Ok(_) => match retained(true, offset, limit) {
                Err(error) => Err(error),
                Ok(_) => Ok(values_of(window(ordered(candidates, items, floats), offset, limit))),
            },
        }
    }
}

pub open spec fn rows_result(result: Result<Vec<Vec<Value>>, Error>) -> Result<Seq<Seq<ValueView>>, ErrorView> {
    match result {
        Ok(rows) => Ok(row_views(rows@)),
        Err(error) => Err(error@),
    }
}

/// The candidates up to `count`.
fn first_candidates(candidates: &Vec<Candidate>, count: usize) -> (result: Vec<Candidate>)
    ensures
        views(result@) == window(views(candidates@), 0, Some(count as nat)),
{
    let mut out: Vec<Candidate> = Vec::new();
    let mut index: usize = 0;
    while index < candidates.len() && index < count
        invariant
            index <= candidates@.len(),
            index <= count,
            out@.len() == index,
            forall|i: int| 0 <= i < index ==> (#[trigger] out@[i])@ == candidates@[i]@,
        decreases candidates@.len() - index,
    {
        out.push(copy_candidate(&candidates[index]));
        index = index + 1;
    }
    assert(views(out@) =~= window(views(candidates@), 0, Some(count as nat)));
    out
}

/// The rows of a query whose retained candidates are checked once they have been chosen.
pub fn choose_rows<F: Fn(FloatTask) -> FloatReply>(
    f: &F,
    candidates: &Vec<Candidate>,
    items: &Vec<OrderItem>,
    offset: usize,
    limit: Option<usize>,
) -> (result: Result<Vec<Vec<Value>>, Error>)
    requires
        computes(*f),
        keyed(views(candidates@), items@.len()),
        retained(items@.len() > 0, offset as nat, optional_count(limit)) is Ok,
    ensures
        rows_result(result) == chosen_rows(
            views(candidates@),
            views(items@),
            offset as nat,
            optional_count(limit),
            floats(*f),
        ),
{
    if items.len() == 0 {
        return Ok(take_window(candidates, offset, limit));
    }
    let all = order_candidates(f, candidates, items);
    match limit {
        Some(limit) => {
            let kept = first_candidates(&all, offset + limit);
            proof {
                assert forall|i: int| 0 <= i < views(kept@).len() implies (#[trigger] views(kept@)[i]).order.len()
                    == items@.len() by {
                    assert(views(kept@)[i] == views(all@)[i]);
                }
            }
            validate_order_values(&kept, items.len())?;
        },
        None => {
            validate_order_values(candidates, items.len())?;
        },
    }
    Ok(take_window(&all, offset, limit))
}

/// The rows of a query whose candidates are all checked.
pub fn check_rows<F: Fn(FloatTask) -> FloatReply>(
    f: &F,
    candidates: &Vec<Candidate>,
    items: &Vec<OrderItem>,
    offset: usize,
    limit: Option<usize>,
) -> (result: Result<Vec<Vec<Value>>, Error>)
    requires
        computes(*f),
        keyed(views(candidates@), items@.len()),
    ensures
        rows_result(result) == checked_rows(
            views(candidates@),
            views(items@),
            offset as nat,
            optional_count(limit),
            floats(*f),
        ),
{
    if items.len() == 0 {
        return Ok(take_window(candidates, offset, limit));
    }
    validate_order_values(candidates, items.len())?;
    retained_rows(true, offset, limit)?;
    let all = order_candidates(f, candidates, items);
    Ok(take_window(&all, offset, limit))
}

} // verus!
