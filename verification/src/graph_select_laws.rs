//! What a selection prefers: relevance keeps the order of the scores, and each choice is the best
//! one that there is room for.

use vstd::prelude::*;
use crate::arithmetic::{exceeds, maximum, same_number};
use crate::error::ErrorView;
use crate::float::{finite, magnitude, not_a_number, number, number_key, total_key, FloatTaskView, Floats};
use crate::graph_edge::EdgeView;
use crate::graph_rag::RetrievedView;
use crate::graph_select::{
    all_finite, chosen_state, compared, edges_between, finalized, has_room, largest, likeness, of_document, raw_relevance,
    relative, repeats, scanned, select_score, selecting, smallest, unselected, Chosen, GraphRagSelection, SelectState,
    SelectedView, SelectingView, SelectionView,
};
use crate::text::byte_count;

verus! {

broadcast use vstd::string::group_string_axioms;

/// The quotient of two numbers.
pub open spec fn ratio(floats: Floats, left: u64, right: u64) -> u64 {
    number(floats, FloatTaskView::Divide(left, right))
}

/// The difference of two numbers.
pub open spec fn difference(floats: Floats, left: u64, right: u64) -> u64 {
    number(floats, FloatTaskView::Subtract(left, right))
}

/// The product of two numbers.
pub open spec fn product(floats: Floats, left: u64, right: u64) -> u64 {
    number(floats, FloatTaskView::Multiply(left, right))
}

/// Whether a number is one of those from minus one to one.
pub open spec fn small(bits: u64) -> bool {
    magnitude(bits) <= 0x3ff0000000000000
}

/// Whether quotients by a positive number and differences keep the order of numbers, as those of
/// numbers do.
pub open spec fn keeps_order(floats: Floats) -> bool {
    &&& forall|a: u64, b: u64, c: u64|
        finite(a) && finite(b) && finite(c) && number_key(c) > 0 && number_key(a) <= number_key(b) ==> number_key(
            #[trigger] ratio(floats, a, c),
        ) <= number_key(#[trigger] ratio(floats, b, c)) && !not_a_number(ratio(floats, a, c)) && !not_a_number(ratio(floats, b, c))
    &&& forall|a: u64, c: u64|
        finite(a) && finite(c) && number_key(c) >= 0x3ff0000000000000 && magnitude(a) <= number_key(c) ==> small(
            #[trigger] ratio(floats, a, c),
        )
    &&& forall|a: u64, b: u64, c: u64|
        small(a) && small(b) && small(c) && number_key(a) <= number_key(b) ==> number_key(#[trigger] difference(floats, a, c))
            <= number_key(#[trigger] difference(floats, b, c)) && finite(difference(floats, a, c)) && finite(
            difference(floats, b, c),
        )
    &&& forall|a: u64, b: u64|
        small(a) && small(b) && number_key(a) > number_key(b) ==> number_key(#[trigger] difference(floats, a, b)) > 0
}

/// Whether a number less itself is zero, zero over a number is zero, and a number over itself is one.
pub open spec fn cancels(floats: Floats) -> bool {
    &&& forall|a: u64| finite(a) ==> #[trigger] difference(floats, a, a) == 0
    &&& forall|c: u64| finite(c) && number_key(c) > 0 ==> #[trigger] ratio(floats, 0, c) == 0
    &&& forall|c: u64| finite(c) && number_key(c) > 0 ==> #[trigger] ratio(floats, c, c) == 0x3ff0000000000000
}

proof fn lemma_smallest(numbers: Seq<u64>, from: nat, done: u64)
    requires
        all_finite(numbers),
        !not_a_number(done),
    ensures
        ({
            let low = smallest(numbers, from, done);
            &&& !not_a_number(low)
            &&& number_key(low) <= number_key(done)
            &&& forall|i: int| from <= i < numbers.len() ==> number_key(low) <= number_key(#[trigger] numbers[i])
            &&& low == done || exists|i: int| from <= i < numbers.len() && low == #[trigger] numbers[i]
        }),
    decreases numbers.len() - from,
{
    if from < numbers.len() {
        let next = crate::arithmetic::minimum(done, numbers[from as int]);
        assert(finite(numbers[from as int]));
        lemma_smallest(numbers, from + 1, next);
        let low = smallest(numbers, from, done);
        if low == next && next != done {
            assert(low == numbers[from as int]);
        }
    }
}

proof fn lemma_largest(numbers: Seq<u64>, from: nat, done: u64)
    requires
        all_finite(numbers),
        !not_a_number(done),
    ensures
        ({
            let high = largest(numbers, from, done);
            &&& !not_a_number(high)
            &&& number_key(high) >= number_key(done)
            &&& forall|i: int| from <= i < numbers.len() ==> number_key(high) >= number_key(#[trigger] numbers[i])
            &&& high == done || exists|i: int| from <= i < numbers.len() && high == #[trigger] numbers[i]
        }),
    decreases numbers.len() - from,
{
    if from < numbers.len() {
        let next = maximum(done, numbers[from as int]);
        assert(finite(numbers[from as int]));
        lemma_largest(numbers, from + 1, next);
        let high = largest(numbers, from, done);
        if high == next && next != done {
            assert(high == numbers[from as int]);
        }
    }
}

/// The scale of scores, with their smallest and their largest.
proof fn lemma_scale(numbers: Seq<u64>) -> (ends: (u64, u64, u64))
    requires
        all_finite(numbers),
        numbers.len() > 0,
    ensures
        ({
            let (low, high, scale) = ends;
            &&& low == smallest(numbers, 0, 0x7ff0000000000000)
            &&& high == largest(numbers, 0, 0xfff0000000000000)
            &&& scale == maximum(
                maximum(crate::arithmetic::absolute(low), crate::arithmetic::absolute(high)),
                0x3ff0000000000000,
            )
            &&& finite(low)
            &&& finite(high)
            &&& finite(scale)
            &&& number_key(scale) >= 0x3ff0000000000000
            &&& magnitude(low) <= number_key(scale)
            &&& magnitude(high) <= number_key(scale)
            &&& forall|i: int|
                0 <= i < numbers.len() ==> number_key(low) <= number_key(#[trigger] numbers[i]) <= number_key(high) && finite(
                    numbers[i],
                ) && magnitude(numbers[i]) <= number_key(scale)
            &&& exists|i: int| 0 <= i < numbers.len() && low == #[trigger] numbers[i]
            &&& exists|i: int| 0 <= i < numbers.len() && high == #[trigger] numbers[i]
        }),
{
    let low = smallest(numbers, 0, 0x7ff0000000000000);
    let high = largest(numbers, 0, 0xfff0000000000000);
    lemma_smallest(numbers, 0, 0x7ff0000000000000);
    lemma_largest(numbers, 0, 0xfff0000000000000);
    assert(finite(numbers[0]));
    assert(number_key(low) <= number_key(numbers[0]));
    assert(number_key(high) >= number_key(numbers[0]));
    let scale = maximum(maximum(crate::arithmetic::absolute(low), crate::arithmetic::absolute(high)), 0x3ff0000000000000);
    assert forall|i: int| 0 <= i < numbers.len() implies number_key(low) <= number_key(#[trigger] numbers[i]) <= number_key(high)
        && finite(numbers[i]) && magnitude(numbers[i]) <= number_key(scale) by {
        assert(finite(numbers[i]));
    }
    (low, high, scale)
}

/// The relevance of a candidate keeps the order of the scores: a greater score never has a smaller
/// relevance.
pub proof fn law_relevance_keeps_order(numbers: Seq<u64>, floats: Floats, i: int, j: int)
    requires
        all_finite(numbers),
        keeps_order(floats),
        0 <= i < numbers.len(),
        0 <= j < numbers.len(),
        number_key(numbers[i]) <= number_key(numbers[j]),
    ensures
        !not_a_number(relative(numbers, floats)[i]),
        !not_a_number(relative(numbers, floats)[j]),
        number_key(relative(numbers, floats)[i]) <= number_key(relative(numbers, floats)[j]),
{
    let (low, high, scale) = lemma_scale(numbers);
    let bottom = ratio(floats, low, scale);
    let top = ratio(floats, high, scale);
    assert(small(bottom));
    assert(small(top));
    let a = ratio(floats, numbers[i], scale);
    let b = ratio(floats, numbers[j], scale);
    assert(number_key(low) <= number_key(numbers[i]) <= number_key(high));
    assert(number_key(low) <= number_key(numbers[j]) <= number_key(high));
    assert(small(a) && small(b) && number_key(a) <= number_key(b));
    if exceeds(top, bottom) {
        let spread = difference(floats, top, bottom);
        assert(number_key(spread) > 0 && finite(spread));
        let c = difference(floats, a, bottom);
        let d = difference(floats, b, bottom);
        assert(number_key(c) <= number_key(d));
        assert(number_key(ratio(floats, c, spread)) <= number_key(ratio(floats, d, spread)));
    }
}

/// The largest score has the relevance one. The smallest has zero, unless their quotients by the
/// scale are one number: then every relevance is one.
pub proof fn law_relevance_ends(numbers: Seq<u64>, floats: Floats, low: int, high: int, scale: u64)
    requires
        all_finite(numbers),
        keeps_order(floats),
        cancels(floats),
        0 <= low < numbers.len(),
        0 <= high < numbers.len(),
        forall|i: int| 0 <= i < numbers.len() ==> number_key(numbers[low]) <= number_key(#[trigger] numbers[i]) <= number_key(numbers[high]),
        scale == maximum(maximum(magnitude(numbers[low]) as u64, magnitude(numbers[high]) as u64), 0x3ff0000000000000),
        forall|i: int| 0 <= i < numbers.len() ==> #[trigger] numbers[i] != 0x8000000000000000,
    ensures
        relative(numbers, floats)[high] == 0x3ff0000000000000,
        exceeds(ratio(floats, numbers[high], scale), ratio(floats, numbers[low], scale)) ==> relative(numbers, floats)[low] == 0,
        !exceeds(ratio(floats, numbers[high], scale), ratio(floats, numbers[low], scale)) ==> forall|i: int|
            0 <= i < numbers.len() ==> (#[trigger] relative(numbers, floats)[i]) == 0x3ff0000000000000,
{
    let (least, most, scaled) = lemma_scale(numbers);
    let i = choose|i: int| 0 <= i < numbers.len() && least == #[trigger] numbers[i];
    assert(number_key(numbers[low]) <= number_key(numbers[i]));
    assert(number_key(least) <= number_key(numbers[low]));
    assert(least == numbers[low]);
    let j = choose|j: int| 0 <= j < numbers.len() && most == #[trigger] numbers[j];
    assert(number_key(numbers[high]) >= number_key(numbers[j]));
    assert(number_key(most) >= number_key(numbers[high]));
    assert(most == numbers[high]);
    assert(scaled == scale);
    let bottom = ratio(floats, least, scale);
    let top = ratio(floats, most, scale);
    assert(small(bottom) && small(top));
    if exceeds(top, bottom) {
        let spread = difference(floats, top, bottom);
        assert(number_key(spread) > 0);
        assert(number_key(bottom) <= number_key(top));
        assert(finite(spread)) by {
            assert(number_key(difference(floats, bottom, bottom)) <= number_key(difference(floats, top, bottom)));
        }
        assert(difference(floats, bottom, bottom) == 0);
        assert(ratio(floats, spread, spread) == 0x3ff0000000000000);
        assert(ratio(floats, 0, spread) == 0);
    }
}

/// Whether a candidate was chosen.
pub open spec fn picked(selected: Seq<Chosen>, index: int) -> bool {
    exists|k: int| 0 <= k < selected.len() && (#[trigger] selected[k]).index == index
}

/// How many bytes the texts of the chosen have together.
pub open spec fn bytes_of(s: SelectingView, selected: Seq<Chosen>) -> nat
    decreases selected.len(),
{
    if selected.len() == 0 {
        0
    } else {
        bytes_of(s, selected.drop_last()) + byte_count(s.candidates[selected.last().index as int].hit.text)
    }
}

/// How many of the chosen are of a document.
pub open spec fn cited(s: SelectingView, selected: Seq<Chosen>, document: Seq<char>) -> nat
    decreases selected.len(),
{
    if selected.len() == 0 {
        0
    } else {
        cited(s, selected.drop_last(), document) + if s.candidates[selected.last().index as int].hit.document_id == document {
            1nat
        } else {
            0
        }
    }
}

/// Whether a candidate fits beside the chosen: in the budget of bytes, and in that of its document.
pub open spec fn fits(s: SelectingView, selected: Seq<Chosen>, index: int) -> bool {
    let hit = s.candidates[index].hit;
    &&& bytes_of(s, selected) + byte_count(hit.text) <= s.options.max_context_bytes
    &&& cited(s, selected, hit.document_id) + 1 <= s.options.max_per_document
}

/// Whether a candidate says what one of the chosen says, where that counts.
pub open spec fn echoed(s: SelectingView, floats: Floats, selected: Seq<Chosen>, index: int) -> bool {
    exceeds(s.options.diversity, 0) && exists|k: int|
        0 <= k < selected.len() && repeats(s.candidates[(#[trigger] selected[k]).index as int], s.candidates[index], floats)
}

/// Whether a candidate may be chosen after others.
pub open spec fn open_to(s: SelectingView, floats: Floats, selected: Seq<Chosen>, index: int) -> bool {
    &&& 0 <= index < s.candidates.len()
    &&& !picked(selected, index)
    &&& fits(s, selected, index)
    &&& !echoed(s, floats, selected, index)
}

/// Whether a number is how much a candidate is like the chosen one that it is most like; zero where
/// nothing is chosen or that does not count.
pub open spec fn most_alike(s: SelectingView, floats: Floats, selected: Seq<Chosen>, index: int, alike: u64) -> bool {
    &&& !not_a_number(alike)
    &&& !exceeds(s.options.diversity, 0) ==> alike == 0
    &&& alike == 0 || exists|k: int|
        0 <= k < selected.len() && likeness(s.candidates[(#[trigger] selected[k]).index as int], s.candidates[index], floats) == Ok::<
            u64,
            ErrorView,
        >(alike)
    &&& exceeds(s.options.diversity, 0) ==> forall|k: int|
        0 <= k < selected.len() ==> (likeness(
            s.candidates[(#[trigger] selected[k]).index as int],
            s.candidates[index],
            floats,
        ) matches Ok(one) ==> !exceeds(one, alike))
}

/// Whether a number is the score of a candidate after others: its relevance where it is the first,
/// else the share of its relevance less the share of how much it is like them.
pub open spec fn worth(s: SelectingView, floats: Floats, selected: Seq<Chosen>, index: int, score: u64) -> bool {
    if selected.len() == 0 {
        score == s.relevance[index]
    } else {
        exists|alike: u64| #[trigger]
            most_alike(s, floats, selected, index, alike) && score == difference(
                floats,
                product(floats, difference(floats, 0x3ff0000000000000, s.options.diversity), s.relevance[index]),
                product(floats, s.options.diversity, alike),
            )
    }
}

/// Whether one choice is the best that there was after others.
pub open spec fn best_choice(s: SelectingView, floats: Floats, selected: Seq<Chosen>, chosen: Chosen) -> bool {
    &&& open_to(s, floats, selected, chosen.index as int)
    &&& worth(s, floats, selected, chosen.index as int, chosen.score)
    &&& forall|index: int| #[trigger]
        open_to(s, floats, selected, index) ==> exists|score: u64| #[trigger]
            worth(s, floats, selected, index, score) && total_key(score) <= total_key(chosen.score)
}

/// Whether every choice was the best that there was after those before it.
pub open spec fn greedy(s: SelectingView, floats: Floats, selected: Seq<Chosen>) -> bool {
    forall|k: int| 0 <= k < selected.len() ==> best_choice(s, floats, selected.take(k), #[trigger] selected[k])
}

/// What a selection under way knows.
spec fn in_step(s: SelectingView, floats: Floats, state: SelectState) -> bool {
    &&& state.available.len() == s.candidates.len()
    &&& state.redundancy.len() == s.candidates.len()
    &&& s.candidates.len() <= usize::MAX
    &&& state.context_bytes == bytes_of(s, state.selected)
    &&& forall|index: int|
        0 <= index < s.candidates.len() && !#[trigger] state.available[index] ==> !open_to(s, floats, state.selected, index)
    &&& forall|index: int|
        0 <= index < s.candidates.len() && #[trigger] state.available[index] ==> !picked(state.selected, index) && !echoed(
            s,
            floats,
            state.selected,
            index,
        ) && most_alike(s, floats, state.selected, index, state.redundancy[index])
}

proof fn lemma_cited(s: SelectingView, selected: Seq<Chosen>, document: Seq<char>, count: nat)
    requires
        count <= selected.len(),
    ensures
        of_document(s.candidates, selected, document, count) == cited(s, selected.take(count as int), document),
    decreases count,
{
    if count > 0 {
        lemma_cited(s, selected, document, (count - 1) as nat);
        assert(selected.take(count as int).drop_last() =~= selected.take(count as int - 1));
        assert(selected.take(count as int).last() == selected[count - 1]);
    }
}

proof fn lemma_room(s: SelectingView, floats: Floats, state: SelectState, index: int)
    requires
        in_step(s, floats, state),
    ensures
        has_room(s, state, index) == fits(s, state.selected, index),
{
    lemma_cited(s, state.selected, s.candidates[index].hit.document_id, state.selected.len());
    assert(state.selected.take(state.selected.len() as int) =~= state.selected);
}

proof fn lemma_score(s: SelectingView, floats: Floats, state: SelectState, index: int)
    requires
        in_step(s, floats, state),
        0 <= index < s.candidates.len(),
        state.available[index],
    ensures
        worth(s, floats, state.selected, index, select_score(s, state, index, floats)),
{
    assert(most_alike(s, floats, state.selected, index, state.redundancy[index]));
}

/// What a look at the candidates from `from` on finds.
proof fn lemma_scan(s: SelectingView, floats: Floats, from: nat, state: SelectState, best: Option<Chosen>)
    requires
        s.candidates.len() <= usize::MAX,
        state.available.len() == s.candidates.len(),
        from <= s.candidates.len(),
    ensures
        ({
            let (seen, found) = scanned(s, floats, from, state, best);
            &&& seen.selected == state.selected
            &&& seen.context_bytes == state.context_bytes
            &&& seen.redundancy == state.redundancy
            &&& seen.available.len() == state.available.len()
            &&& forall|c: int|
                0 <= c < s.candidates.len() ==> (#[trigger] seen.available[c]) == (state.available[c] && (c < from || has_room(
                    s,
                    state,
                    c,
                )))
            &&& match found {
                None => best is None && forall|c: int| from <= c < s.candidates.len() ==> !#[trigger] seen.available[c],
                Some(chosen) => {
                    &&& best == Some(chosen) || (from <= chosen.index < s.candidates.len() && seen.available[chosen.index as int]
                        && chosen.score == select_score(s, state, chosen.index as int, floats))
                    &&& best matches Some(old) ==> total_key(old.score) <= total_key(chosen.score)
                    &&& forall|c: int|
                        from <= c < s.candidates.len() && #[trigger] seen.available[c] ==> total_key(
                            select_score(s, state, c, floats),
                        ) <= total_key(chosen.score)
                },
            }
        }),
    decreases s.candidates.len() - from,
{
    if from < s.candidates.len() {
        if !state.available[from as int] {
            lemma_scan(s, floats, from + 1, state, best);
        } else if !has_room(s, state, from as int) {
            let next = SelectState { available: state.available.update(from as int, false), truncated: true, ..state };
            lemma_scan(s, floats, from + 1, next, best);
            let (seen, found) = scanned(s, floats, from, state, best);
            assert forall|c: int| 0 <= c < s.candidates.len() implies (#[trigger] seen.available[c]) == (state.available[c] && (c < from
                || has_room(s, state, c))) by {
                assert(has_room(s, next, c) == has_room(s, state, c));
            }
            if let Some(chosen) = found {
                assert(select_score(s, next, chosen.index as int, floats) == select_score(s, state, chosen.index as int, floats));
                assert forall|c: int| from <= c < s.candidates.len() && #[trigger] seen.available[c] implies total_key(
                    select_score(s, state, c, floats),
                ) <= total_key(chosen.score) by {
                    assert(select_score(s, next, c, floats) == select_score(s, state, c, floats));
                    if c == from {
                        assert(!next.available[from as int]);
                    }
                }
            }
        } else {
            let score = select_score(s, state, from as int, floats);
            let next = if crate::graph_select::outranks(s, from as usize, score, best) {
                Some(Chosen { index: from as usize, score })
            } else {
                best
            };
            lemma_scan(s, floats, from + 1, state, next);
        }
    }
}

/// What holding the candidates from `from` on against a chosen one does.
proof fn lemma_compare(s: SelectingView, floats: Floats, chosen: usize, from: nat, state: SelectState)
    requires
        state.available.len() == s.candidates.len(),
        state.redundancy.len() == s.candidates.len(),
        from <= s.candidates.len(),
    ensures
        compared(s, floats, chosen, from, state) matches Ok(after) ==> {
            &&& after.selected == state.selected
            &&& after.context_bytes == state.context_bytes
            &&& after.available.len() == state.available.len()
            &&& after.redundancy.len() == state.redundancy.len()
            &&& forall|c: int|
                0 <= c < s.candidates.len() ==> (#[trigger] after.available[c]) == (state.available[c] && (c < from || !repeats(
                    s.candidates[chosen as int],
                    s.candidates[c],
                    floats,
                )))
            &&& forall|c: int|
                from <= c < s.candidates.len() && #[trigger] after.available[c] ==> (likeness(
                    s.candidates[chosen as int],
                    s.candidates[c],
                    floats,
                ) matches Ok(alike) && after.redundancy[c] == maximum(state.redundancy[c], alike))
            &&& forall|c: int| 0 <= c < from && c < s.candidates.len() ==> #[trigger] after.redundancy[c] == state.redundancy[c]
        },
    decreases s.candidates.len() - from,
{
    if from < s.candidates.len() {
        if !state.available[from as int] {
            lemma_compare(s, floats, chosen, from + 1, state);
        } else if repeats(s.candidates[chosen as int], s.candidates[from as int], floats) {
            lemma_compare(
                s,
                floats,
                chosen,
                from + 1,
                SelectState { available: state.available.update(from as int, false), truncated: true, ..state },
            );
        } else if let Ok(alike) = likeness(s.candidates[chosen as int], s.candidates[from as int], floats) {
            let next = SelectState {
                redundancy: state.redundancy.update(from as int, maximum(state.redundancy[from as int], alike)),
                ..state
            };
            lemma_compare(s, floats, chosen, from + 1, next);
            if let Ok(after) = compared(s, floats, chosen, from, state) {
                assert(after.redundancy[from as int] == next.redundancy[from as int]);
            }
        }
    }
}

proof fn lemma_picked_more(selected: Seq<Chosen>, chosen: Chosen, index: int)
    ensures
        picked(selected.push(chosen), index) == (picked(selected, index) || chosen.index == index),
{
    let more = selected.push(chosen);
    if picked(selected, index) {
        let k = choose|k: int| 0 <= k < selected.len() && (#[trigger] selected[k]).index == index;
        assert(more[k].index == index);
    }
    if chosen.index == index {
        assert(more[selected.len() as int].index == index);
    }
    if picked(more, index) {
        let k = choose|k: int| 0 <= k < more.len() && (#[trigger] more[k]).index == index;
        if k < selected.len() {
            assert(selected[k].index == index);
        }
    }
}

proof fn lemma_echoed_more(s: SelectingView, floats: Floats, selected: Seq<Chosen>, chosen: Chosen, index: int)
    ensures
        echoed(s, floats, selected.push(chosen), index) == (echoed(s, floats, selected, index) || (exceeds(s.options.diversity, 0)
            && repeats(s.candidates[chosen.index as int], s.candidates[index], floats))),
{
    let more = selected.push(chosen);
    if echoed(s, floats, selected, index) {
        let k = choose|k: int|
            0 <= k < selected.len() && repeats(s.candidates[(#[trigger] selected[k]).index as int], s.candidates[index], floats);
        assert(more[k] == selected[k]);
    }
    assert(more[selected.len() as int] == chosen);
    if echoed(s, floats, more, index) {
        let k = choose|k: int| 0 <= k < more.len() && repeats(s.candidates[(#[trigger] more[k]).index as int], s.candidates[index], floats);
        if k < selected.len() {
            assert(selected[k] == more[k]);
        }
    }
}

proof fn lemma_alike_more(s: SelectingView, floats: Floats, selected: Seq<Chosen>, chosen: Chosen, index: int, old: u64, alike: u64)
    requires
        exceeds(s.options.diversity, 0),
        most_alike(s, floats, selected, index, old),
        likeness(s.candidates[chosen.index as int], s.candidates[index], floats) == Ok::<u64, ErrorView>(alike),
    ensures
        most_alike(s, floats, selected.push(chosen), index, maximum(old, alike)),
{
    let more = selected.push(chosen);
    let most = maximum(old, alike);
    assert(more[selected.len() as int] == chosen);
    if most != 0 {
        if most == old {
            let k = choose|k: int|
                0 <= k < selected.len() && likeness(
                    s.candidates[(#[trigger] selected[k]).index as int],
                    s.candidates[index],
                    floats,
                ) == Ok::<u64, ErrorView>(old);
            assert(more[k] == selected[k]);
        } else {
            assert(likeness(s.candidates[more[selected.len() as int].index as int], s.candidates[index], floats) == Ok::<
                u64,
                ErrorView,
            >(most));
        }
    }
    assert forall|k: int| 0 <= k < more.len() implies (likeness(
        s.candidates[(#[trigger] more[k]).index as int],
        s.candidates[index],
        floats,
    ) matches Ok(one) ==> !exceeds(one, most)) by {
        if k < selected.len() {
            assert(more[k] == selected[k]);
        }
    }
}

proof fn lemma_fits_less(s: SelectingView, selected: Seq<Chosen>, chosen: Chosen, index: int)
    requires
        fits(s, selected.push(chosen), index),
    ensures
        fits(s, selected, index),
{
    assert(selected.push(chosen).drop_last() =~= selected);
}

proof fn lemma_next(s: SelectingView, floats: Floats, seen: SelectState, chosen: Chosen, after: SelectState)
    requires
        in_step(s, floats, seen),
        chosen.index < s.candidates.len(),
        ({
            let next = chosen_state(s, seen, chosen);
            &&& after.selected == next.selected
            &&& after.context_bytes == next.context_bytes
            &&& after.available.len() == next.available.len()
            &&& after.redundancy.len() == next.redundancy.len()
            &&& if exceeds(s.options.diversity, 0) {
                &&& forall|c: int|
                    0 <= c < s.candidates.len() ==> (#[trigger] after.available[c]) == (next.available[c] && !repeats(
                        s.candidates[chosen.index as int],
                        s.candidates[c],
                        floats,
                    ))
                &&& forall|c: int|
                    0 <= c < s.candidates.len() && #[trigger] after.available[c] ==> (likeness(
                        s.candidates[chosen.index as int],
                        s.candidates[c],
                        floats,
                    ) matches Ok(alike) && after.redundancy[c] == maximum(next.redundancy[c], alike))
            } else {
                after.available == next.available && after.redundancy == next.redundancy
            }
        }),
    ensures
        in_step(s, floats, after),
{
    let selected = seen.selected;
    let more = selected.push(chosen);
    let next = chosen_state(s, seen, chosen);
    assert(more.drop_last() =~= selected);
    assert forall|c: int| 0 <= c < s.candidates.len() && !#[trigger] after.available[c] implies !open_to(s, floats, more, c) by {
        lemma_picked_more(selected, chosen, c);
        lemma_echoed_more(s, floats, selected, chosen, c);
        if open_to(s, floats, more, c) {
            lemma_fits_less(s, selected, chosen, c);
            assert(open_to(s, floats, selected, c));
            assert(seen.available[c]);
            assert(next.available[c]);
        }
    }
    assert forall|c: int| 0 <= c < s.candidates.len() && #[trigger] after.available[c] implies !picked(more, c) && !echoed(
        s,
        floats,
        more,
        c,
    ) && most_alike(s, floats, more, c, after.redundancy[c]) by {
        lemma_picked_more(selected, chosen, c);
        lemma_echoed_more(s, floats, selected, chosen, c);
        assert(next.available[c]);
        assert(seen.available[c]);
        assert(c != chosen.index);
        if exceeds(s.options.diversity, 0) {
            let alike = likeness(s.candidates[chosen.index as int], s.candidates[c], floats)->Ok_0;
            lemma_alike_more(s, floats, selected, chosen, c, seen.redundancy[c], alike);
        } else {
            assert(seen.redundancy[c] == 0);
        }
    }
}

proof fn lemma_choice(s: SelectingView, floats: Floats, state: SelectState)
    requires
        in_step(s, floats, state),
    ensures
        ({
            let (seen, found) = scanned(s, floats, 0, state, None);
            &&& seen.selected == state.selected
            &&& in_step(s, floats, seen)
            &&& match found {
                None => forall|c: int| !#[trigger] open_to(s, floats, state.selected, c),
                Some(chosen) => best_choice(s, floats, state.selected, chosen),
            }
        }),
{
    lemma_scan(s, floats, 0, state, None);
    let (seen, found) = scanned(s, floats, 0, state, None);
    let selected = state.selected;
    assert forall|c: int| 0 <= c < s.candidates.len() implies (#[trigger] seen.available[c]) == open_to(s, floats, selected, c) by {
        lemma_room(s, floats, state, c);
        if state.available[c] {
        } else {
            assert(!open_to(s, floats, selected, c));
        }
    }
    assert forall|c: int| 0 <= c < s.candidates.len() && #[trigger] seen.available[c] implies !picked(selected, c) && !echoed(
        s,
        floats,
        selected,
        c,
    ) && most_alike(s, floats, selected, c, seen.redundancy[c]) by {
        assert(state.available[c]);
    }
    match found {
        None => {
            assert forall|c: int| !#[trigger] open_to(s, floats, selected, c) by {
                if open_to(s, floats, selected, c) {
                    assert(seen.available[c]);
                }
            }
        },
        Some(chosen) => {
            let at = chosen.index as int;
            assert(seen.available[at]);
            assert(state.available[at]);
            lemma_score(s, floats, state, at);
            assert forall|c: int| #[trigger] open_to(s, floats, selected, c) implies exists|score: u64| #[trigger]
                worth(s, floats, selected, c, score) && total_key(score) <= total_key(chosen.score) by {
                assert(seen.available[c]);
                assert(state.available[c]);
                lemma_score(s, floats, state, c);
                assert(total_key(select_score(s, state, c, floats)) <= total_key(chosen.score));
            }
        },
    }
}

/// What a finished selection is: every choice was the best that there was, and it ends where the
/// limit is reached or nothing is left that may be chosen.
pub open spec fn finished(s: SelectingView, floats: Floats, selected: Seq<Chosen>) -> bool {
    &&& greedy(s, floats, selected)
    &&& selected.len() >= s.options.limit || forall|index: int| !#[trigger] open_to(s, floats, selected, index)
}

proof fn lemma_selecting(s: SelectingView, floats: Floats, state: SelectState)
    requires
        in_step(s, floats, state),
        greedy(s, floats, state.selected),
    ensures
        selecting(s, floats, state) matches Ok(after) ==> finished(s, floats, after.selected),
    decreases s.options.limit - state.selected.len(),
{
    if state.selected.len() < s.options.limit {
        lemma_choice(s, floats, state);
        let (seen, best) = scanned(s, floats, 0, state, None);
        if let Some(chosen) = best {
            let start = SelectState { selected: state.selected, ..seen };
            let next = chosen_state(s, start, chosen);
            let more = state.selected.push(chosen);
            assert forall|k: int| 0 <= k < more.len() implies best_choice(s, floats, more.take(k), #[trigger] more[k]) by {
                assert(more.take(k) =~= state.selected.take(k));
                if k == state.selected.len() {
                    assert(state.selected.take(k) =~= state.selected);
                } else {
                    assert(more[k] == state.selected[k]);
                }
            }
            if exceeds(s.options.diversity, 0) {
                lemma_compare(s, floats, chosen.index, 0, next);
                if let Ok(compared) = compared(s, floats, chosen.index, 0, next) {
                    let after = SelectState { selected: next.selected, ..compared };
                    lemma_next(s, floats, start, chosen, after);
                    lemma_selecting(s, floats, after);
                }
            } else {
                lemma_next(s, floats, start, chosen, next);
                lemma_selecting(s, floats, next);
            }
        }
    }
}

/// The score that a candidate is ranked by: that of the reranker, or its own where there is none.
pub open spec fn score_of(retrieved: RetrievedView, reranked: Option<Seq<u64>>, index: int) -> u64 {
    match reranked {
        Some(scores) => scores[index],
        None => retrieved.candidates[index].fusion_score,
    }
}

/// What a selection works on.
pub open spec fn at_hand(retrieved: RetrievedView, options: GraphRagSelection, reranked: Option<Seq<u64>>, floats: Floats) -> SelectingView {
    SelectingView {
        candidates: retrieved.candidates,
        relevance: relative(Seq::new(retrieved.candidates.len(), |i: int| score_of(retrieved, reranked, i)), floats),
        options,
    }
}

/// Whether what is returned is what was chosen, with the relationships between the chunks chosen.
pub open spec fn tells(
    selection: SelectionView,
    retrieved: RetrievedView,
    reranked: Option<Seq<u64>>,
    s: SelectingView,
    selected: Seq<Chosen>,
) -> bool {
    &&& selection.collection == retrieved.collection
    &&& selection.revision == retrieved.revision
    &&& selection.candidate_count == retrieved.candidates.len()
    &&& selection.hits.len() == selected.len()
    &&& selection.hits.len() < retrieved.candidates.len() || retrieved.truncated ==> selection.truncated
    &&& selection.context_bytes == bytes_of(s, selected)
    &&& forall|k: int|
        0 <= k < selected.len() ==> {
            let hit = #[trigger] selection.hits[k];
            let index = selected[k].index as int;
            &&& index < retrieved.candidates.len()
            &&& hit.hit == retrieved.candidates[index].hit
            &&& hit.lexical_score == retrieved.candidates[index].lexical_score
            &&& hit.fusion_score == retrieved.candidates[index].fusion_score
            &&& hit.retrieval_path == retrieved.candidates[index].retrieval_path
            &&& hit.selection_score == selected[k].score
            &&& match reranked {
                Some(scores) => hit.rerank_score == Some(scores[index]),
                None => hit.rerank_score is None,
            }
        }
    &&& forall|edge: EdgeView| #[trigger]
        selection.edges.contains(edge) <==> retrieved.edges.contains(edge) && is_hit(selection.hits, edge.from_chunk) && is_hit(
            selection.hits,
            edge.to_chunk,
        )
}

/// Whether a chunk is among the hits.
pub open spec fn is_hit(hits: Seq<SelectedView>, id: Seq<char>) -> bool {
    exists|k: int| 0 <= k < hits.len() && (#[trigger] hits[k]).hit.chunk_id == id
}

proof fn lemma_edges_between(edges: Seq<EdgeView>, ids: Seq<Seq<char>>, from: nat, done: Seq<EdgeView>, edge: EdgeView)
    requires
        from <= edges.len(),
    ensures
        edges_between(edges, ids, from, done).contains(edge) <==> done.contains(edge) || (ids.contains(edge.from_chunk) && ids.contains(
            edge.to_chunk,
        ) && exists|i: int| from <= i < edges.len() && #[trigger] edges[i] == edge),
    decreases edges.len() - from,
{
    if from < edges.len() {
        let next = edges[from as int];
        if ids.contains(next.from_chunk) && ids.contains(next.to_chunk) {
            let more = done.push(next);
            lemma_edges_between(edges, ids, from + 1, more, edge);
            if done.contains(edge) {
                let i = choose|i: int| 0 <= i < done.len() && done[i] == edge;
                assert(more[i] == edge);
            }
            if next == edge {
                assert(more[done.len() as int] == edge);
            }
            if more.contains(edge) {
                let i = choose|i: int| 0 <= i < more.len() && more[i] == edge;
                if i < done.len() {
                    assert(done[i] == edge);
                } else {
                    assert(edges[from as int] == edge);
                }
            }
        } else {
            lemma_edges_between(edges, ids, from + 1, done, edge);
        }
    }
}

proof fn lemma_context_bytes(s: SelectingView, floats: Floats, state: SelectState)
    requires
        in_step(s, floats, state),
    ensures
        selecting(s, floats, state) matches Ok(after) ==> after.context_bytes == bytes_of(s, after.selected) && (state.truncated
            ==> after.truncated),
    decreases s.options.limit - state.selected.len(),
{
    if state.selected.len() < s.options.limit {
        lemma_choice(s, floats, state);
        lemma_truncated(s, floats, 0, state, None);
        let (seen, best) = scanned(s, floats, 0, state, None);
        if let Some(chosen) = best {
            let start = SelectState { selected: state.selected, ..seen };
            let next = chosen_state(s, start, chosen);
            if exceeds(s.options.diversity, 0) {
                lemma_compare(s, floats, chosen.index, 0, next);
                lemma_compared_truncated(s, floats, chosen.index, 0, next);
                if let Ok(compared) = compared(s, floats, chosen.index, 0, next) {
                    let after = SelectState { selected: next.selected, ..compared };
                    lemma_next(s, floats, start, chosen, after);
                    lemma_context_bytes(s, floats, after);
                }
            } else {
                lemma_next(s, floats, start, chosen, next);
                lemma_context_bytes(s, floats, next);
            }
        }
    }
}

proof fn lemma_truncated(s: SelectingView, floats: Floats, from: nat, state: SelectState, best: Option<Chosen>)
    ensures
        state.truncated ==> scanned(s, floats, from, state, best).0.truncated,
    decreases s.candidates.len() - from,
{
    if from >= s.candidates.len() {
    } else if !state.available[from as int] {
        lemma_truncated(s, floats, from + 1, state, best);
    } else if !has_room(s, state, from as int) {
        lemma_truncated(
            s,
            floats,
            from + 1,
            SelectState { available: state.available.update(from as int, false), truncated: true, ..state },
            best,
        );
    } else {
        let score = select_score(s, state, from as int, floats);
        lemma_truncated(
            s,
            floats,
            from + 1,
            state,
            if crate::graph_select::outranks(s, from as usize, score, best) {
                Some(Chosen { index: from as usize, score })
            } else {
                best
            },
        );
    }
}

proof fn lemma_compared_truncated(s: SelectingView, floats: Floats, chosen: usize, from: nat, state: SelectState)
    ensures
        compared(s, floats, chosen, from, state) matches Ok(after) ==> (state.truncated ==> after.truncated),
    decreases s.candidates.len() - from,
{
    if from >= s.candidates.len() {
    } else if !state.available[from as int] {
        lemma_compared_truncated(s, floats, chosen, from + 1, state);
    } else if repeats(s.candidates[chosen as int], s.candidates[from as int], floats) {
        lemma_compared_truncated(
            s,
            floats,
            chosen,
            from + 1,
            SelectState { available: state.available.update(from as int, false), truncated: true, ..state },
        );
    } else if let Ok(alike) = likeness(s.candidates[chosen as int], s.candidates[from as int], floats) {
        lemma_compared_truncated(
            s,
            floats,
            chosen,
            from + 1,
            SelectState {
                redundancy: state.redundancy.update(from as int, maximum(state.redundancy[from as int], alike)),
                ..state
            },
        );
    }
}

/// A selection takes, one after the other, the best candidate that fits its limits and says what none
/// of those chosen says, until the limit is reached or there is none. It returns these, and the
/// relationships between them.
pub proof fn law_selection(retrieved: RetrievedView, options: GraphRagSelection, reranked: Option<Seq<u64>>, floats: Floats)
    ensures
        finalized(retrieved, options, reranked, floats) matches Ok(selection) ==> exists|selected: Seq<Chosen>|
            finished(at_hand(retrieved, options, reranked, floats), floats, selected) && selected.len() <= options.limit && #[trigger] tells(
                selection,
                retrieved,
                reranked,
                at_hand(retrieved, options, reranked, floats),
                selected,
            ),
{
    if let Ok(selection) = finalized(retrieved, options, reranked, floats) {
        let s = at_hand(retrieved, options, reranked, floats);
        let raw = raw_relevance(retrieved.candidates, reranked);
        assert(raw =~= Seq::new(retrieved.candidates.len(), |i: int| score_of(retrieved, reranked, i)));
        let start = unselected(retrieved.candidates.len(), retrieved.truncated);
        lemma_selecting(s, floats, start);
        lemma_context_bytes(s, floats, start);
        crate::graph_select::law_selection_within_limits(s, floats, start);
        let state = selecting(s, floats, start)->Ok_0;
        let selected = state.selected;
        assert forall|k: int| 0 <= k < selected.len() implies (#[trigger] selected[k]).index < s.candidates.len() by {
            assert(best_choice(s, floats, selected.take(k), selected[k]));
        }
        let ids = crate::graph_select::selected_ids(s, selected);
        assert forall|edge: EdgeView| #[trigger]
            selection.edges.contains(edge) <==> retrieved.edges.contains(edge) && is_hit(selection.hits, edge.from_chunk) && is_hit(
                selection.hits,
                edge.to_chunk,
            ) by {
            lemma_edges_between(retrieved.edges, ids, 0, Seq::empty(), edge);
            lemma_ids(selection.hits, s, selected, reranked, edge.from_chunk);
            lemma_ids(selection.hits, s, selected, reranked, edge.to_chunk);
        }
        assert(tells(selection, retrieved, reranked, s, selected));
    }
}

proof fn lemma_ids(hits: Seq<SelectedView>, s: SelectingView, selected: Seq<Chosen>, reranked: Option<Seq<u64>>, id: Seq<char>)
    requires
        hits == selected.map_values(|chosen: Chosen| crate::graph_select::selected_hit(s, reranked, chosen)),
    ensures
        crate::graph_select::selected_ids(s, selected).contains(id) == is_hit(hits, id),
{
    let ids = crate::graph_select::selected_ids(s, selected);
    if ids.contains(id) {
        let k = choose|k: int| 0 <= k < ids.len() && ids[k] == id;
        assert(hits[k].hit.chunk_id == id);
    }
    if is_hit(hits, id) {
        let k = choose|k: int| 0 <= k < hits.len() && (#[trigger] hits[k]).hit.chunk_id == id;
        assert(ids[k] == id);
    }
}

/// Whether one and zero leave numbers as they are.
pub open spec fn leaves_numbers(floats: Floats) -> bool {
    &&& difference(floats, 0x3ff0000000000000, 0) == 0x3ff0000000000000
    &&& product(floats, 0, 0) == 0
    &&& forall|a: u64| !not_a_number(a) ==> #[trigger] product(floats, 0x3ff0000000000000, a) == a
    &&& forall|a: u64| !not_a_number(a) ==> #[trigger] difference(floats, a, 0) == a
}

proof fn lemma_prefix(s: SelectingView, floats: Floats, selected: Seq<Chosen>, k: int, l: int, index: int)
    requires
        0 <= k <= l <= selected.len(),
        open_to(s, floats, selected.take(l), index),
    ensures
        open_to(s, floats, selected.take(k), index),
    decreases l - k,
{
    if k < l {
        let less = selected.take(l - 1);
        let chosen = selected[l - 1];
        assert(selected.take(l) =~= less.push(chosen));
        lemma_picked_more(less, chosen, index);
        lemma_echoed_more(s, floats, less, chosen, index);
        lemma_fits_less(s, less, chosen, index);
        lemma_prefix(s, floats, selected, k, l - 1, index);
    }
}

proof fn lemma_worth_is_relevance(s: SelectingView, floats: Floats, selected: Seq<Chosen>, index: int, score: u64)
    requires
        s.options.diversity == 0,
        leaves_numbers(floats),
        !not_a_number(s.relevance[index]),
        worth(s, floats, selected, index, score),
    ensures
        score == s.relevance[index],
{
    if selected.len() > 0 {
        let alike = choose|alike: u64| #[trigger]
            most_alike(s, floats, selected, index, alike) && score == difference(
                floats,
                product(floats, difference(floats, 0x3ff0000000000000, s.options.diversity), s.relevance[index]),
                product(floats, s.options.diversity, alike),
            );
        assert(alike == 0);
        assert(product(floats, 0x3ff0000000000000, s.relevance[index]) == s.relevance[index]);
    }
}

/// Whether one score comes no later than another: it is no smaller, or their relevance is the same.
pub open spec fn no_later(score: u64, relevance: u64, other: u64, other_relevance: u64) -> bool {
    !exceeds(other, score) || same_number(relevance, other_relevance)
}

/// The score that a hit is ranked by.
pub open spec fn ranked_by(hit: SelectedView) -> u64 {
    match hit.rerank_score {
        Some(score) => score,
        None => hit.fusion_score,
    }
}

/// Without diversity, hits come in the order of their scores, the greatest first: those of the
/// reranker, or of the fusion where there is none. No candidate that fits the limits has a greater
/// score than the first hit. Scores whose relevance is one number count as the same.
pub proof fn law_hits_by_score(retrieved: RetrievedView, options: GraphRagSelection, reranked: Option<Seq<u64>>, floats: Floats)
    requires
        options.diversity == 0,
        keeps_order(floats),
        leaves_numbers(floats),
    ensures
        finalized(retrieved, options, reranked, floats) matches Ok(selection) ==> {
            let s = at_hand(retrieved, options, reranked, floats);
            &&& forall|k: int, l: int|
                0 <= k < l < selection.hits.len() ==> no_later(
                    ranked_by(#[trigger] selection.hits[k]),
                    selection.hits[k].selection_score,
                    ranked_by(#[trigger] selection.hits[l]),
                    selection.hits[l].selection_score,
                )
            &&& forall|index: int|
                0 <= index < retrieved.candidates.len() && byte_count(
                    (#[trigger] retrieved.candidates[index]).hit.text,
                ) <= options.max_context_bytes ==> selection.hits.len() > 0 && no_later(
                    ranked_by(selection.hits[0]),
                    selection.hits[0].selection_score,
                    score_of(retrieved, reranked, index),
                    s.relevance[index],
                )
        },
{
    law_selection(retrieved, options, reranked, floats);
    if let Ok(selection) = finalized(retrieved, options, reranked, floats) {
        let s = at_hand(retrieved, options, reranked, floats);
        let raw = Seq::new(retrieved.candidates.len(), |i: int| score_of(retrieved, reranked, i));
        assert(raw =~= raw_relevance(retrieved.candidates, reranked));
        assert(all_finite(raw));
        let selected = choose|selected: Seq<Chosen>|
            finished(s, floats, selected) && selected.len() <= options.limit && #[trigger] tells(selection, retrieved, reranked, s, selected);
        assert forall|k: int, index: int|
            0 <= k < selected.len() && #[trigger] open_to(s, floats, selected.take(k), index) implies no_later(
            raw[selected[k].index as int],
            selected[k].score,
            raw[index],
            s.relevance[index],
        ) && selected[k].score == s.relevance[selected[k].index as int] by {
            assert(best_choice(s, floats, selected.take(k), selected[k]));
            let at = selected[k].index as int;
            law_relevance_keeps_order(raw, floats, at, at);
            law_relevance_keeps_order(raw, floats, index, index);
            lemma_worth_is_relevance(s, floats, selected.take(k), at, selected[k].score);
            let score = choose|score: u64| #[trigger]
                worth(s, floats, selected.take(k), index, score) && total_key(score) <= total_key(selected[k].score);
            lemma_worth_is_relevance(s, floats, selected.take(k), index, score);
            if exceeds(raw[index], raw[at]) {
                law_relevance_keeps_order(raw, floats, at, index);
            }
        }
        assert forall|k: int, l: int| 0 <= k < l < selection.hits.len() implies no_later(
            ranked_by(#[trigger] selection.hits[k]),
            selection.hits[k].selection_score,
            ranked_by(#[trigger] selection.hits[l]),
            selection.hits[l].selection_score,
        ) by {
            assert(best_choice(s, floats, selected.take(k), selected[k]));
            assert(best_choice(s, floats, selected.take(l), selected[l]));
            lemma_prefix(s, floats, selected, k, l, selected[l].index as int);
            assert(open_to(s, floats, selected.take(l), selected[l].index as int));
        }
        assert forall|index: int|
            0 <= index < retrieved.candidates.len() && byte_count((#[trigger] retrieved.candidates[index]).hit.text)
                <= options.max_context_bytes implies selection.hits.len() > 0 && no_later(
            ranked_by(selection.hits[0]),
            selection.hits[0].selection_score,
            score_of(retrieved, reranked, index),
            s.relevance[index],
        ) by {
            assert(open_to(s, floats, Seq::empty(), index));
            if selected.len() == 0 {
                assert(selected =~= Seq::empty());
            }
            assert(selected.take(0) =~= Seq::empty());
            assert(selection.hits[0].hit == selection.hits[0].hit);
        }
    }
}

} // verus!
