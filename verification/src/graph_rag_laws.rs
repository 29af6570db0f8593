//! How a retrieval fuses its rankings: what a place is worth, and in what order candidates come.

use vstd::prelude::*;
use crate::arithmetic::{exceeds, plus, ZERO};
use crate::error::ErrorView;
use crate::float::{not_a_number, number, number_key, total_key, FloatTaskView, Floats};
use crate::graph::{text_in, CollectionView};
use crate::graph_link_laws::{is_found, law_nearest_chunks};
use crate::graph_links::{weighted_order, weighted_sorted, PolicyView, Weighted};
use crate::graph_near::{nearest, NearChunk};
use crate::graph_neighborhood::first_of;
use crate::graph_rag::{
    assembled, by_vector, candidate_of, candidates_from, candidates_order, candidates_sorted, labelled, plain_traversal,
    rank_share, ranking, retrieved_from, scored_list, unmeasured, unscored, vector_scored, words_count, words_scored,
    worded_traversal, CandidateView,
};
use crate::graph_traversal::{
    accepted, admission_at, direct_admission, direct_admissions, direct_places, expanded_from, expansion_start, filled, hopped,
    largest_score, lifted, merged, path_edges, proposed, seed_frontier, seeds_selected, seeds_spread, top, with_context,
    with_ranked, AdmissionView, CandidateScore, EvidenceView, ExpansionView, PathView, RagRequestView, TraversalView,
};
use crate::lexical::{
    all_scores, best_rows, gain, matched, posting_at, query_terms, rarity, scored_rows, scored_terms, LexicalIndexView, Occurrence,
    PostingView,
};
use crate::lexical_cache::{indexed, LexicalEntryView, LexicalKeyView};
use crate::order::{law_sorted, leads, lemma_sorted_each, sorted, weak_order};
use crate::table::TableView;
use crate::text::lemma_text_order;
use crate::value::ValueView;

verus! {

broadcast use vstd::string::group_string_axioms;

/// The largest place that a ranking is taken to have here.
pub const PLACES: usize = 1000;

/// A whole number.
pub open spec fn whole(floats: Floats, n: nat) -> u64 {
    number(floats, FloatTaskView::FromInteger(n as i64))
}

/// The quotient of a weight by a whole number.
pub open spec fn quotient(floats: Floats, weight: u64, n: nat) -> u64 {
    number(floats, FloatTaskView::Divide(weight, whole(floats, n)))
}

/// The sum of two numbers.
pub open spec fn sum(floats: Floats, left: u64, right: u64) -> u64 {
    number(floats, FloatTaskView::Add(left, right))
}

/// Whether whole numbers add up, and one and sixty are the whole numbers of that name.
pub open spec fn adds_whole(floats: Floats) -> bool {
    &&& whole(floats, 1) == 0x3ff0000000000000
    &&& whole(floats, 60) == 0x404e000000000000
    &&& forall|m: nat, n: nat|
        m + n <= PLACES + 100 ==> #[trigger] sum(floats, whole(floats, m), whole(floats, n)) == whole(floats, m + n)
}

/// Whether a weight divided by more is less.
pub open spec fn divides_down(floats: Floats, weight: u64) -> bool {
    forall|m: nat, n: nat|
        0 < m < n <= PLACES + 100 ==> exceeds(#[trigger] quotient(floats, weight, m), #[trigger] quotient(floats, weight, n))
}

/// Whether the sums of larger quotients of two weights are larger.
pub open spec fn adds_up(floats: Floats, one: u64, other: u64) -> bool {
    &&& forall|m: nat, n: nat|
        0 < m < n <= PLACES + 100 ==> exceeds(
            sum(floats, 0, #[trigger] quotient(floats, one, m)),
            sum(floats, 0, #[trigger] quotient(floats, one, n)),
        )
    &&& forall|m: nat, n: nat|
        0 < m < n <= PLACES + 100 ==> exceeds(
            sum(floats, 0, #[trigger] quotient(floats, other, m)),
            sum(floats, 0, #[trigger] quotient(floats, other, n)),
        )
    &&& forall|m: nat, n: nat, k: nat, l: nat|
        0 < m < n <= PLACES + 100 && 0 < k < l <= PLACES + 100 ==> exceeds(
            sum(floats, sum(floats, 0, #[trigger] quotient(floats, one, m)), #[trigger] quotient(floats, other, k)),
            sum(floats, sum(floats, 0, #[trigger] quotient(floats, one, n)), #[trigger] quotient(floats, other, l)),
        )
}

/// A place in a ranking is worth the weight of the ranking over the place, counted from sixty-one.
pub proof fn law_share_of_place(weight: u64, rank: nat, floats: Floats)
    requires
        adds_whole(floats),
        rank <= PLACES,
    ensures
        rank_share(weight, rank, floats) == quotient(floats, weight, 61 + rank),
{
    assert(sum(floats, whole(floats, 60), whole(floats, rank)) == whole(floats, 60 + rank));
    assert(sum(floats, whole(floats, 60 + rank), whole(floats, 1)) == whole(floats, 60 + rank + 1));
    assert(60 + rank + 1 == 61 + rank);
}

/// A place nearer to the front is worth more.
pub proof fn law_share_falls(weight: u64, near: nat, far: nat, floats: Floats)
    requires
        adds_whole(floats),
        divides_down(floats, weight),
        near < far <= PLACES,
    ensures
        exceeds(rank_share(weight, near, floats), rank_share(weight, far, floats)),
{
    law_share_of_place(weight, near, floats);
    law_share_of_place(weight, far, floats);
    assert(exceeds(quotient(floats, weight, 61 + near), quotient(floats, weight, 61 + far)));
}

/// The same place is worth more with a larger weight, where its quotients by whole numbers are
/// larger.
pub proof fn law_share_grows(large: u64, small: u64, rank: nat, floats: Floats)
    requires
        adds_whole(floats),
        rank <= PLACES,
        forall|n: nat|
            0 < n <= PLACES + 100 ==> exceeds(#[trigger] quotient(floats, large, n), quotient(floats, small, n)),
    ensures
        exceeds(rank_share(large, rank, floats), rank_share(small, rank, floats)),
{
    law_share_of_place(large, rank, floats);
    law_share_of_place(small, rank, floats);
    assert(exceeds(quotient(floats, large, 61 + rank), quotient(floats, small, 61 + rank)));
}

/// Whether a row is in a list.
pub open spec fn is_listed(list: Seq<Weighted>, row: int) -> bool {
    exists|i: int| 0 <= i < list.len() && (#[trigger] list[i]).row == row
}

/// Whether the score of a row is the sum of what its places are worth: the place among the nearest
/// chunks, and that among the best by words.
pub open spec fn fused(
    vectors: Seq<NearChunk>,
    words: Seq<Weighted>,
    request: RagRequestView,
    row: int,
    fusion: u64,
    floats: Floats,
) -> bool {
    &&& is_found(vectors, row) || is_listed(words, row)
    &&& forall|i: int, j: int|
        0 <= i < vectors.len() && 0 <= j < words.len() && (#[trigger] vectors[i]).row == row && (#[trigger] words[j]).row == row
            ==> fusion == sum(
            floats,
            sum(floats, 0, quotient(floats, request.vector_weight, 61 + i as nat)),
            quotient(floats, request.lexical_weight, 61 + j as nat),
        )
    &&& forall|i: int|
        0 <= i < vectors.len() && (#[trigger] vectors[i]).row == row && !is_listed(words, row) ==> fusion == sum(
            floats,
            0,
            quotient(floats, request.vector_weight, 61 + i as nat),
        )
    &&& forall|j: int|
        0 <= j < words.len() && (#[trigger] words[j]).row == row && !is_found(vectors, row) ==> fusion == sum(
            floats,
            0,
            quotient(floats, request.lexical_weight, 61 + j as nat),
        )
}

/// Whether the rows found are different and below a count.
pub open spec fn found_once(found: Seq<NearChunk>, count: nat) -> bool {
    &&& found.len() <= PLACES
    &&& forall|i: int| 0 <= i < found.len() ==> (#[trigger] found[i]).row < count
    &&& forall|i: int, j: int| 0 <= i < j < found.len() ==> (#[trigger] found[i]).row != (#[trigger] found[j]).row
}

/// Whether the rows of a list are different and below a count.
pub open spec fn listed_once(list: Seq<Weighted>, count: nat) -> bool {
    &&& list.len() <= PLACES
    &&& forall|i: int| 0 <= i < list.len() ==> (#[trigger] list[i]).row < count
    &&& forall|i: int, j: int| 0 <= i < j < list.len() ==> (#[trigger] list[i]).row != (#[trigger] list[j]).row
}

proof fn lemma_vector_scored(
    found: Seq<NearChunk>,
    weight: u64,
    floats: Floats,
    from: nat,
    scores: Seq<Option<CandidateScore>>,
    similarities: Seq<Option<u64>>,
)
    requires
        adds_whole(floats),
        found_once(found, scores.len()),
        from <= found.len(),
        forall|i: int|
            0 <= i < from ==> scores[(#[trigger] found[i]).row as int] == Some(
                CandidateScore { lexical: 0, fusion: sum(floats, 0, quotient(floats, weight, 61 + i as nat)) },
            ),
        forall|row: int|
            0 <= row < scores.len() && (#[trigger] scores[row]) is Some ==> exists|i: int|
                0 <= i < from && (#[trigger] found[i]).row == row,
    ensures
        vector_scored(found, weight, floats, from, scores, similarities) matches Ok((after, _)) ==> {
            &&& after.len() == scores.len()
            &&& forall|i: int|
                0 <= i < found.len() ==> after[(#[trigger] found[i]).row as int] == Some(
                    CandidateScore { lexical: 0, fusion: sum(floats, 0, quotient(floats, weight, 61 + i as nat)) },
                )
            &&& forall|row: int| 0 <= row < after.len() && (#[trigger] after[row]) is Some ==> is_found(found, row)
        },
    decreases found.len() - from,
{
    if from < found.len() {
        let near = found[from as int];
        let row = near.row as int;
        assert(scores[row] is None) by {
            if scores[row] is Some {
                let i = choose|i: int| 0 <= i < from && (#[trigger] found[i]).row == row;
                assert(found[i].row != found[from as int].row);
            }
        }
        law_share_of_place(weight, from, floats);
        let next = crate::graph_rag::shared(scores, near.row, rank_share(weight, from, floats), floats);
        assert forall|r: int| 0 <= r < next.len() && (#[trigger] next[r]) is Some implies exists|i: int|
            0 <= i < from + 1 && (#[trigger] found[i]).row == r by {
            if r == row {
                assert(found[from as int].row == r);
            } else {
                assert(scores[r] is Some);
                let i = choose|i: int| 0 <= i < from && (#[trigger] found[i]).row == r;
                assert(found[i].row == r);
            }
        }
        assert forall|i: int| 0 <= i < from + 1 implies next[(#[trigger] found[i]).row as int] == Some(
            CandidateScore { lexical: 0, fusion: sum(floats, 0, quotient(floats, weight, 61 + i as nat)) },
        ) by {
            if i < from {
                assert(found[i].row != found[from as int].row);
            }
        }
        if crate::float::finite(near.distance) {
            lemma_vector_scored(
                found,
                weight,
                floats,
                from + 1,
                next,
                similarities.update(row, Some(crate::graph_near::similarity(near.distance, floats))),
            );
        }
    }
}

proof fn lemma_words_scored(
    found: Seq<Weighted>,
    weight: u64,
    floats: Floats,
    from: nat,
    scores: Seq<Option<CandidateScore>>,
    first: Seq<Option<CandidateScore>>,
)
    requires
        adds_whole(floats),
        listed_once(found, scores.len()),
        from <= found.len(),
        first.len() == scores.len(),
        forall|i: int|
            0 <= i < from ==> scores[(#[trigger] found[i]).row as int] == worded(
                first[found[i].row as int],
                quotient(floats, weight, 61 + i as nat),
                floats,
            ),
        forall|row: int|
            0 <= row < scores.len() && !(exists|i: int| 0 <= i < from && (#[trigger] found[i]).row == row) ==> (
            #[trigger] scores[row]) == first[row],
    ensures
        ({
            let after = words_scored(found, weight, floats, from, scores);
            &&& after.len() == scores.len()
            &&& forall|i: int|
                0 <= i < found.len() ==> after[(#[trigger] found[i]).row as int] == worded(
                    first[found[i].row as int],
                    quotient(floats, weight, 61 + i as nat),
                    floats,
                )
            &&& forall|row: int| 0 <= row < after.len() && !is_listed(found, row) ==> (#[trigger] after[row]) == first[row]
        }),
    decreases found.len() - from,
{
    if from < found.len() {
        let row = found[from as int].row as int;
        law_share_of_place(weight, from, floats);
        assert(!(exists|i: int| 0 <= i < from && (#[trigger] found[i]).row == row)) by {
            if exists|i: int| 0 <= i < from && (#[trigger] found[i]).row == row {
                let i = choose|i: int| 0 <= i < from && (#[trigger] found[i]).row == row;
                assert(found[i].row != found[from as int].row);
            }
        }
        assert(scores[row] == first[row]);
        let next = crate::graph_rag::shared(scores, found[from as int].row, rank_share(weight, from, floats), floats);
        assert forall|i: int| 0 <= i < from + 1 implies next[(#[trigger] found[i]).row as int] == worded(
            first[found[i].row as int],
            quotient(floats, weight, 61 + i as nat),
            floats,
        ) by {
            if i < from {
                assert(found[i].row != found[from as int].row);
            }
        }
        assert forall|r: int|
            0 <= r < next.len() && !(exists|i: int| 0 <= i < from + 1 && (#[trigger] found[i]).row == r) implies (
        #[trigger] next[r]) == first[r] by {
            if r == row {
                assert(found[from as int].row == r);
            } else {
                if exists|i: int| 0 <= i < from && (#[trigger] found[i]).row == r {
                    let i = choose|i: int| 0 <= i < from && (#[trigger] found[i]).row == r;
                    assert(i < from + 1 && found[i].row == r);
                }
                assert(scores[r] == first[r]);
            }
        }
        lemma_words_scored(found, weight, floats, from + 1, next, first);
    } else {
        let after = scores;
        assert forall|row: int| 0 <= row < after.len() && !is_listed(found, row) implies (#[trigger] after[row]) == first[row] by {
            if exists|i: int| 0 <= i < from && (#[trigger] found[i]).row == row {
                let i = choose|i: int| 0 <= i < from && (#[trigger] found[i]).row == row;
                assert(found[i].row == row);
            }
        }
    }
}

/// A score with what a place is worth.
spec fn worded(score: Option<CandidateScore>, share: u64, floats: Floats) -> Option<CandidateScore> {
    match score {
        Some(score) => Some(CandidateScore { lexical: score.lexical, fusion: sum(floats, score.fusion, share) }),
        None => Some(CandidateScore { lexical: 0, fusion: sum(floats, 0, share) }),
    }
}

/// Whether every row begins with a text, its identifier.
pub open spec fn named(rows: Seq<Seq<ValueView>>) -> bool {
    forall|i: int| 0 <= i < rows.len() ==> (#[trigger] rows[i]).len() > 0 && rows[i][0] is Text
}

/// Whether numbers come from the largest to the smallest.
pub open spec fn falling(list: Seq<Weighted>) -> bool {
    forall|i: int, j: int|
        0 <= i < j < list.len() ==> total_key((#[trigger] list[i]).weight) >= total_key((#[trigger] list[j]).weight)
}

proof fn lemma_weighted_order(rows: Seq<Seq<ValueView>>, list: Seq<Weighted>, floats: Floats)
    requires
        named(rows),
        list.len() <= usize::MAX,
        forall|i: int| 0 <= i < list.len() ==> (#[trigger] list[i]).row < rows.len(),
    ensures
        weak_order(weighted_order(rows, list, floats), list.len() as usize),
{
    let before = weighted_order(rows, list, floats);
    let count = list.len() as usize;
    assert forall|a: usize| a < count implies !#[trigger] before(a, a) by {
        let first = rows[list[a as int].row as int][0]->Text_0;
        lemma_text_order(first, first, first);
    }
    assert forall|a: usize, b: usize, c: usize|
        a < count && b < count && c < count && #[trigger] before(a, b) && #[trigger] before(b, c) implies before(a, c) by {
        let first = rows[list[a as int].row as int][0]->Text_0;
        let middle = rows[list[b as int].row as int][0]->Text_0;
        let last = rows[list[c as int].row as int][0]->Text_0;
        lemma_text_order(first, middle, last);
    }
    assert forall|a: usize, b: usize, c: usize|
        a < count && b < count && c < count && !#[trigger] before(a, b) && !#[trigger] before(b, c) implies !before(a, c) by {
        let first = rows[list[a as int].row as int][0]->Text_0;
        let middle = rows[list[b as int].row as int][0]->Text_0;
        let last = rows[list[c as int].row as int][0]->Text_0;
        lemma_text_order(first, middle, last);
    }
}

/// Whether a list holds what another does, each once.
spec fn reordered(all: Seq<Weighted>, list: Seq<Weighted>) -> bool {
    &&& all.len() == list.len()
    &&& forall|i: int| 0 <= i < all.len() ==> list.contains(#[trigger] all[i])
    &&& forall|i: int| 0 <= i < list.len() ==> all.contains(#[trigger] list[i])
    &&& forall|i: int, j: int| 0 <= i < j < all.len() ==> (#[trigger] all[i]).row != (#[trigger] all[j]).row
}

proof fn lemma_weighted_sorted(rows: Seq<Seq<ValueView>>, list: Seq<Weighted>, floats: Floats)
    requires
        named(rows),
        list.len() <= usize::MAX,
        forall|i: int| 0 <= i < list.len() ==> (#[trigger] list[i]).row < rows.len(),
        forall|i: int, j: int| 0 <= i < j < list.len() ==> (#[trigger] list[i]).row != (#[trigger] list[j]).row,
    ensures
        reordered(weighted_sorted(rows, list, floats), list),
        falling(weighted_sorted(rows, list, floats)),
{
    let before = weighted_order(rows, list, floats);
    let count = list.len() as usize;
    let order = sorted(count, before);
    let all = weighted_sorted(rows, list, floats);
    lemma_weighted_order(rows, list, floats);
    lemma_sorted_each(count, before);
    law_sorted(count, before);
    assert forall|i: int| 0 <= i < all.len() implies list.contains(#[trigger] all[i]) by {
        assert(all[i] == list[order[i] as int]);
    }
    assert forall|i: int| 0 <= i < list.len() implies all.contains(#[trigger] list[i]) by {
        assert(order.contains(i as usize));
        let at = choose|at: int| 0 <= at < order.len() && order[at] == i as usize;
        assert(all[at] == list[i]);
    }
    assert forall|i: int, j: int| 0 <= i < j < all.len() implies (#[trigger] all[i]).row != (#[trigger] all[j]).row by {
        assert(order[i] != order[j]);
        let a = order[i] as int;
        let b = order[j] as int;
        assert(all[i] == list[a] && all[j] == list[b]);
        if a < b {
            assert(list[a].row != list[b].row);
        } else {
            assert(list[b].row != list[a].row);
        }
    }
    assert forall|i: int, j: int| 0 <= i < j < all.len() implies total_key((#[trigger] all[i]).weight) >= total_key(
        (#[trigger] all[j]).weight,
    ) by {
        assert(leads(before, order[i], order[j]));
        if before(order[j], order[i]) {
            assert(before(order[i], order[j]));
        }
    }
}

proof fn lemma_matched(scores: Seq<u64>, from: nat, done: Seq<Weighted>)
    requires
        scores.len() <= usize::MAX,
        from <= scores.len(),
        done.len() <= from,
        forall|i: int|
            0 <= i < done.len() ==> (#[trigger] done[i]).row < from && done[i].weight == scores[done[i].row as int] && exceeds(
                done[i].weight,
                0,
            ),
        forall|i: int, j: int| 0 <= i < j < done.len() ==> (#[trigger] done[i]).row < (#[trigger] done[j]).row,
        forall|row: int| 0 <= row < from && exceeds(#[trigger] scores[row], 0) ==> is_listed(done, row),
    ensures
        ({
            let all = matched(scores, from, done);
            &&& all.len() <= scores.len()
            &&& forall|i: int|
                0 <= i < all.len() ==> (#[trigger] all[i]).row < scores.len() && all[i].weight == scores[all[i].row as int]
                    && exceeds(all[i].weight, 0)
            &&& forall|i: int, j: int| 0 <= i < j < all.len() ==> (#[trigger] all[i]).row < (#[trigger] all[j]).row
            &&& forall|row: int| 0 <= row < scores.len() && exceeds(#[trigger] scores[row], 0) ==> is_listed(all, row)
        }),
    decreases scores.len() - from,
{
    if from < scores.len() {
        if exceeds(scores[from as int], 0) {
            let next = done.push(Weighted { row: from as usize, weight: scores[from as int] });
            assert forall|row: int| 0 <= row < from + 1 && exceeds(#[trigger] scores[row], 0) implies is_listed(next, row) by {
                if row < from {
                    let i = choose|i: int| 0 <= i < done.len() && (#[trigger] done[i]).row == row;
                    assert(next[i].row == row);
                } else {
                    assert(next[done.len() as int].row == row);
                }
            }
            lemma_matched(scores, from + 1, next);
        } else {
            lemma_matched(scores, from + 1, done);
        }
    }
}

proof fn lemma_scored_list(scores: Seq<Option<CandidateScore>>, from: nat, done: Seq<Weighted>)
    requires
        scores.len() <= usize::MAX,
        from <= scores.len(),
        done.len() <= from,
        forall|i: int|
            0 <= i < done.len() ==> (#[trigger] done[i]).row < from && scores[done[i].row as int] is Some && done[i].weight
                == scores[done[i].row as int]->Some_0.fusion,
        forall|i: int, j: int| 0 <= i < j < done.len() ==> (#[trigger] done[i]).row < (#[trigger] done[j]).row,
        forall|row: int| 0 <= row < from && (#[trigger] scores[row]) is Some ==> is_listed(done, row),
    ensures
        ({
            let all = scored_list(scores, from, done);
            &&& all.len() <= scores.len()
            &&& forall|i: int|
                0 <= i < all.len() ==> (#[trigger] all[i]).row < scores.len() && scores[all[i].row as int] is Some
                    && all[i].weight == scores[all[i].row as int]->Some_0.fusion
            &&& forall|i: int, j: int| 0 <= i < j < all.len() ==> (#[trigger] all[i]).row < (#[trigger] all[j]).row
            &&& forall|row: int| 0 <= row < scores.len() && (#[trigger] scores[row]) is Some ==> is_listed(all, row)
        }),
    decreases scores.len() - from,
{
    if from < scores.len() {
        match scores[from as int] {
            Some(score) => {
                let next = done.push(Weighted { row: from as usize, weight: score.fusion });
                assert forall|row: int| 0 <= row < from + 1 && (#[trigger] scores[row]) is Some implies is_listed(next, row) by {
                    if row < from {
                        let i = choose|i: int| 0 <= i < done.len() && (#[trigger] done[i]).row == row;
                        assert(next[i].row == row);
                    } else {
                        assert(next[done.len() as int].row == row);
                    }
                }
                lemma_scored_list(scores, from + 1, next);
            },
            None => lemma_scored_list(scores, from + 1, done),
        }
    }
}

/// Whether the best rows by words are those of the largest scores above zero, in that order.
pub open spec fn best_first(best: Seq<Weighted>, scores: Seq<u64>, limit: nat) -> bool {
    &&& best.len() <= limit
    &&& forall|i: int|
        0 <= i < best.len() ==> (#[trigger] best[i]).row < scores.len() && best[i].weight == scores[best[i].row as int]
            && exceeds(best[i].weight, 0)
    &&& forall|i: int, j: int| 0 <= i < j < best.len() ==> (#[trigger] best[i]).row != (#[trigger] best[j]).row
    &&& forall|i: int, j: int|
        0 <= i < j < best.len() ==> !exceeds((#[trigger] best[j]).weight, (#[trigger] best[i]).weight)
    &&& forall|row: int|
        0 <= row < scores.len() && exceeds(#[trigger] scores[row], 0) && !is_listed(best, row) ==> best.len() == limit
            && forall|i: int| 0 <= i < best.len() ==> !exceeds(scores[row], (#[trigger] best[i]).weight)
}

/// The best rows by words are the rows of the largest scores, none without a score, the largest
/// first.
pub proof fn law_best_rows(scores: Seq<u64>, chunks: Seq<Seq<ValueView>>, limit: nat, floats: Floats)
    requires
        scores.len() == chunks.len(),
        chunks.len() <= usize::MAX,
        named(chunks),
    ensures
        best_first(best_rows(scores, chunks, limit, floats), scores, limit),
{
    let list = matched(scores, 0, Seq::empty());
    lemma_matched(scores, 0, Seq::empty());
    assert forall|i: int, j: int| 0 <= i < j < list.len() implies (#[trigger] list[i]).row != (#[trigger] list[j]).row by {
        assert(list[i].row < list[j].row);
    }
    lemma_weighted_sorted(chunks, list, floats);
    let all = weighted_sorted(chunks, list, floats);
    let best = best_rows(scores, chunks, limit, floats);
    assert forall|i: int| 0 <= i < all.len() implies (#[trigger] all[i]).row < scores.len() && all[i].weight
        == scores[all[i].row as int] && exceeds(all[i].weight, 0) by {
        assert(list.contains(all[i]));
        let at = choose|at: int| 0 <= at < list.len() && list[at] == all[i];
        assert(list[at] == all[i]);
    }
    assert forall|i: int| 0 <= i < best.len() implies #[trigger] best[i] == all[i] by {
    }
    assert forall|row: int|
        0 <= row < scores.len() && exceeds(#[trigger] scores[row], 0) && !is_listed(best, row) implies best.len() == limit
        && forall|i: int| 0 <= i < best.len() ==> !exceeds(scores[row], (#[trigger] best[i]).weight) by {
        let k = choose|k: int| 0 <= k < list.len() && (#[trigger] list[k]).row == row;
        assert(all.contains(list[k]));
        let at = choose|at: int| 0 <= at < all.len() && all[at] == list[k];
        if at < best.len() {
            assert(best[at].row == row);
        }
        assert forall|i: int| 0 <= i < best.len() implies !exceeds(scores[row], (#[trigger] best[i]).weight) by {
            assert(best[i] == all[i]);
            assert(total_key(all[i].weight) >= total_key(all[at].weight));
        }
    }
}

proof fn lemma_filled(ranked: Seq<usize>, limit: nat, from: nat, taken: nat)
    requires
        ranked.no_duplicates(),
        from <= taken <= ranked.len(),
        taken <= limit,
    ensures
        filled(ranked, limit, from, ranked.take(taken as int)) == first_of(ranked, limit),
    decreases ranked.len() - from,
{
    let done = ranked.take(taken as int);
    if from >= ranked.len() || done.len() == limit {
        assert(done =~= first_of(ranked, limit));
    } else if from < taken {
        assert(done[from as int] == ranked[from as int]);
        lemma_filled(ranked, limit, from + 1, taken);
    } else {
        if done.contains(ranked[from as int]) {
            let i = choose|i: int| 0 <= i < done.len() && done[i] == ranked[from as int];
            assert(ranked[i] == ranked[from as int]);
        }
        assert(done.push(ranked[from as int]) =~= ranked.take(taken as int + 1));
        lemma_filled(ranked, limit, from + 1, taken + 1);
    }
}

proof fn lemma_admission_found(admitted: Seq<AdmissionView>, row: usize, from: nat, at: nat)
    requires
        from <= at < admitted.len(),
        admitted[at as int].row == row,
    ensures
        admission_at(admitted, row, from) is Some,
    decreases at - from,
{
    if admitted[from as int].row != row {
        lemma_admission_found(admitted, row, from + 1, at);
    }
}

proof fn lemma_with_ranked(t: TraversalView, ranked: Seq<usize>, from: nat, truncated: bool)
    requires
        t.request.candidate_limit >= 1,
    ensures
        ({
            let admitted = direct_admissions(t, first_of(ranked, t.request.candidate_limit));
            with_ranked(t, ranked, from, admitted, truncated).0 == admitted
        }),
    decreases ranked.len() - from,
{
    let admitted = direct_admissions(t, first_of(ranked, t.request.candidate_limit));
    if from < ranked.len() {
        if admission_at(admitted, ranked[from as int], 0) is None {
            if admitted.len() != t.request.candidate_limit {
                assert(admitted.len() == ranked.len());
                assert(admitted[from as int].row == ranked[from as int]);
                lemma_admission_found(admitted, ranked[from as int], 0, from);
            }
        }
        lemma_with_ranked(t, ranked, from + 1, truncated);
    }
}

proof fn lemma_unexpanded(t: TraversalView, floats: Floats, ranked: Seq<usize>)
    requires
        ranked.no_duplicates(),
        t.request.max_hops == 0,
        1 <= t.request.seed_limit <= t.request.candidate_limit,
        t.max_seeds_per_document is None,
    ensures
        expanded_from(t, floats, ranked) matches Ok((admitted, _)) && admitted == direct_admissions(
            t,
            first_of(ranked, t.request.candidate_limit),
        ),
{
    let seeds = first_of(ranked, t.request.seed_limit);
    let limit = t.request.candidate_limit;
    if t.request.seed_limit < ranked.len() {
        lemma_filled(ranked, limit, 0, t.request.seed_limit);
    } else {
        assert(ranked.take(ranked.len() as int) =~= ranked);
        lemma_filled(ranked, limit, 0, ranked.len());
    }
    let admitted = direct_admissions(t, first_of(ranked, limit));
    let none = Seq::<crate::graph_traversal::EvidenceView>::empty();
    lemma_sorted_each(0, crate::graph_traversal::evidence_order(t.chunks.rows, none, floats));
    let remaining = (limit - admitted.len()) as nat;
    assert(crate::graph_traversal::top(t.chunks.rows, none, remaining, floats).len() == 0);
    lemma_with_ranked(t, ranked, 0, false);
}

proof fn lemma_candidates_from(
    chunks: TableView,
    documents: TableView,
    query: Seq<u32>,
    admitted: Seq<AdmissionView>,
    floats: Floats,
    from: nat,
    done: Seq<CandidateView>,
)
    requires
        from <= admitted.len(),
        done.len() == from,
        forall|i: int|
            0 <= i < from ==> candidate_of(chunks, documents, query, admitted[i], floats) == Ok::<CandidateView, ErrorView>(
                #[trigger] done[i],
            ),
    ensures
        candidates_from(chunks, documents, query, admitted, floats, from, done) matches Ok(all) ==> all.len() == admitted.len()
            && forall|i: int|
            0 <= i < all.len() ==> candidate_of(chunks, documents, query, admitted[i], floats) == Ok::<
                CandidateView,
                ErrorView,
            >(#[trigger] all[i]),
    decreases admitted.len() - from,
{
    if from < admitted.len() {
        if let Ok(candidate) = candidate_of(chunks, documents, query, admitted[from as int], floats) {
            lemma_candidates_from(chunks, documents, query, admitted, floats, from + 1, done.push(candidate));
        }
    }
}

proof fn lemma_candidates_order(candidates: Seq<CandidateView>)
    requires
        candidates.len() <= usize::MAX,
    ensures
        weak_order(candidates_order(candidates), candidates.len() as usize),
{
    let before = candidates_order(candidates);
    let count = candidates.len() as usize;
    assert forall|a: usize| a < count implies !#[trigger] before(a, a) by {
        let first = candidates[a as int].hit.chunk_id;
        lemma_text_order(first, first, first);
    }
    assert forall|a: usize, b: usize, c: usize|
        a < count && b < count && c < count && #[trigger] before(a, b) && #[trigger] before(b, c) implies before(a, c) by {
        lemma_text_order(candidates[a as int].hit.chunk_id, candidates[b as int].hit.chunk_id, candidates[c as int].hit.chunk_id);
    }
    assert forall|a: usize, b: usize, c: usize|
        a < count && b < count && c < count && !#[trigger] before(a, b) && !#[trigger] before(b, c) implies !before(a, c) by {
        lemma_text_order(candidates[a as int].hit.chunk_id, candidates[b as int].hit.chunk_id, candidates[c as int].hit.chunk_id);
    }
}

/// Whether candidates come from the best score to the worst, those of one score by identifier.
pub open spec fn best_candidates_first(candidates: Seq<CandidateView>) -> bool {
    forall|i: int, j: int|
        0 <= i < j < candidates.len() ==> {
            &&& !exceeds((#[trigger] candidates[j]).fusion_score, (#[trigger] candidates[i]).fusion_score)
            &&& candidates[i].fusion_score == candidates[j].fusion_score ==> crate::text::text_rank(
                candidates[j].hit.chunk_id,
                candidates[i].hit.chunk_id,
            ) != crate::text::Rank::Before
        }
}

proof fn lemma_candidates_sorted(candidates: Seq<CandidateView>)
    requires
        candidates.len() <= usize::MAX,
    ensures
        best_candidates_first(candidates_sorted(candidates)),
{
    let before = candidates_order(candidates);
    let count = candidates.len() as usize;
    lemma_candidates_order(candidates);
    law_sorted(count, before);
    let order = sorted(count, before);
    let all = candidates_sorted(candidates);
    assert forall|i: int, j: int| 0 <= i < j < all.len() implies {
        &&& !exceeds((#[trigger] all[j]).fusion_score, (#[trigger] all[i]).fusion_score)
        &&& all[i].fusion_score == all[j].fusion_score ==> crate::text::text_rank(all[j].hit.chunk_id, all[i].hit.chunk_id)
            != crate::text::Rank::Before
    } by {
        assert(leads(before, order[i], order[j]));
        if before(order[j], order[i]) {
            assert(before(order[i], order[j]));
        }
    }
}

/// Whether candidates are chunks of the rankings, each with the score that its places are worth: the
/// best ones, from the best to the worst.
pub open spec fn fused_candidates(
    candidates: Seq<CandidateView>,
    chunks: Seq<Seq<ValueView>>,
    vectors: Seq<NearChunk>,
    words: Seq<Weighted>,
    request: RagRequestView,
    places: Seq<usize>,
    floats: Floats,
) -> bool {
    &&& candidates.len() == places.len()
    &&& candidates.len() <= request.candidate_limit
    &&& places.no_duplicates()
    &&& forall|i: int|
        0 <= i < candidates.len() ==> (#[trigger] places[i]) < chunks.len() && text_in(chunks[places[i] as int], 0) == Ok::<
            Seq<char>,
            ErrorView,
        >(candidates[i].hit.chunk_id) && candidates[i].hit.depth == 0 && fused(
            vectors,
            words,
            request,
            places[i] as int,
            candidates[i].fusion_score,
            floats,
        )
    &&& best_candidates_first(candidates)
    &&& forall|row: int, fusion: u64|
        0 <= row < chunks.len() && #[trigger] fused(vectors, words, request, row, fusion, floats) && !places.contains(row as usize)
            ==> candidates.len() == request.candidate_limit && forall|i: int|
            0 <= i < candidates.len() ==> !exceeds(fusion, (#[trigger] candidates[i]).fusion_score)
}

/// Whether the scores are what the places of the rows are worth.
spec fn scored_by(
    scores: Seq<Option<CandidateScore>>,
    vectors: Seq<NearChunk>,
    words: Seq<Weighted>,
    request: RagRequestView,
    floats: Floats,
) -> bool {
    &&& forall|row: int| 0 <= row < scores.len() && (#[trigger] scores[row]) is Some ==> is_found(vectors, row) || is_listed(words, row)
    &&& forall|row: int|
        0 <= row < scores.len() && (is_found(vectors, row) || is_listed(words, row)) ==> (#[trigger] scores[row]) is Some
            && fused(vectors, words, request, row, scores[row]->Some_0.fusion, floats)
}

proof fn lemma_fused_once(
    vectors: Seq<NearChunk>,
    words: Seq<Weighted>,
    request: RagRequestView,
    row: int,
    one: u64,
    other: u64,
    floats: Floats,
)
    requires
        fused(vectors, words, request, row, one, floats),
        fused(vectors, words, request, row, other, floats),
    ensures
        one == other,
{
    if is_found(vectors, row) {
        let i = choose|i: int| 0 <= i < vectors.len() && (#[trigger] vectors[i]).row == row;
        if is_listed(words, row) {
            let j = choose|j: int| 0 <= j < words.len() && (#[trigger] words[j]).row == row;
            assert(vectors[i].row == row && words[j].row == row);
        } else {
            assert(vectors[i].row == row);
        }
    } else {
        let j = choose|j: int| 0 <= j < words.len() && (#[trigger] words[j]).row == row;
        assert(words[j].row == row);
    }
}

/// Whether rows are all those with a score, each once, from the best to the worst.
spec fn ranked_rows(ranked: Seq<usize>, scores: Seq<Option<CandidateScore>>) -> bool {
    &&& ranked.no_duplicates()
    &&& forall|i: int| 0 <= i < ranked.len() ==> (#[trigger] ranked[i]) < scores.len() && scores[ranked[i] as int] is Some
    &&& forall|i: int, j: int|
        0 <= i < j < ranked.len() ==> total_key(scores[(#[trigger] ranked[i]) as int]->Some_0.fusion) >= total_key(
            scores[(#[trigger] ranked[j]) as int]->Some_0.fusion,
        )
    &&& forall|row: int| 0 <= row < scores.len() && (#[trigger] scores[row]) is Some ==> ranked.contains(row as usize)
}

proof fn lemma_ranking(rows: Seq<Seq<ValueView>>, scores: Seq<Option<CandidateScore>>, floats: Floats)
    requires
        named(rows),
        rows.len() <= usize::MAX,
        scores.len() == rows.len(),
    ensures
        ranked_rows(ranking(rows, scores, floats), scores),
{
    let list = scored_list(scores, 0, Seq::empty());
    lemma_scored_list(scores, 0, Seq::empty());
    assert forall|i: int, j: int| 0 <= i < j < list.len() implies (#[trigger] list[i]).row != (#[trigger] list[j]).row by {
        assert(list[i].row < list[j].row);
    }
    lemma_weighted_sorted(rows, list, floats);
    let all = weighted_sorted(rows, list, floats);
    let ranked = ranking(rows, scores, floats);
    assert forall|i: int| 0 <= i < all.len() implies (#[trigger] all[i]).row < rows.len() && scores[all[i].row as int] is Some
        && all[i].weight == scores[all[i].row as int]->Some_0.fusion by {
        assert(list.contains(all[i]));
        let at = choose|at: int| 0 <= at < list.len() && list[at] == all[i];
        assert(list[at] == all[i]);
    }
    assert forall|i: int, j: int| 0 <= i < ranked.len() && 0 <= j < ranked.len() && i != j implies ranked[i] != ranked[j] by {
        if i < j {
            assert(all[i].row != all[j].row);
        } else {
            assert(all[j].row != all[i].row);
        }
    }
    assert forall|i: int| 0 <= i < ranked.len() implies (#[trigger] ranked[i]) < scores.len() && scores[ranked[i] as int] is Some by {
        assert(ranked[i] == all[i].row);
    }
    assert forall|i: int, j: int| 0 <= i < j < ranked.len() implies total_key(
        scores[(#[trigger] ranked[i]) as int]->Some_0.fusion,
    ) >= total_key(scores[(#[trigger] ranked[j]) as int]->Some_0.fusion) by {
        assert(ranked[i] == all[i].row && ranked[j] == all[j].row);
        assert(total_key(all[i].weight) >= total_key(all[j].weight));
    }
    assert forall|row: int| 0 <= row < scores.len() && (#[trigger] scores[row]) is Some implies ranked.contains(row as usize) by {
        let k = choose|k: int| 0 <= k < list.len() && (#[trigger] list[k]).row == row;
        assert(all.contains(list[k]));
        let at = choose|at: int| 0 <= at < all.len() && all[at] == list[k];
        assert(ranked[at] == row as usize);
    }
}

/// Whether a candidate is the direct match in a row.
spec fn direct_match(candidate: CandidateView, rows: Seq<Seq<ValueView>>, scores: Seq<Option<CandidateScore>>, row: usize) -> bool {
    &&& text_in(rows[row as int], 0) == Ok::<Seq<char>, ErrorView>(candidate.hit.chunk_id)
    &&& candidate.hit.depth == 0
    &&& candidate.fusion_score == scores[row as int]->Some_0.fusion
    &&& candidate.lexical_score == scores[row as int]->Some_0.lexical
}

/// Whether candidates are the direct matches in rows that begin a list.
spec fn direct_matches(candidates: Seq<CandidateView>, t: TraversalView, firsts: Seq<usize>, order: Seq<usize>) -> bool {
    &&& candidates.len() == firsts.len() == order.len()
    &&& order.no_duplicates()
    &&& forall|i: int| 0 <= i < order.len() ==> (#[trigger] order[i]) < firsts.len()
    &&& forall|at: usize| at < firsts.len() ==> order.contains(at)
    &&& forall|i: int|
        0 <= i < candidates.len() ==> direct_match(#[trigger] candidates[i], t.chunks.rows, t.scores, firsts[order[i] as int])
}

proof fn lemma_direct_matches(
    info: CollectionView,
    revision: u64,
    documents: TableView,
    t: TraversalView,
    hit: bool,
    floats: Floats,
    ranked: Seq<usize>,
) -> (order: Seq<usize>)
    requires
        ranked == ranking(t.chunks.rows, t.scores, floats),
        ranked_rows(ranked, t.scores),
        t.request.max_hops == 0,
        1 <= t.request.seed_limit <= t.request.candidate_limit <= PLACES,
        t.max_seeds_per_document is None,
    ensures
        assembled(info, revision, documents, t, hit, floats) matches Ok(result) ==> direct_matches(
            result.candidates,
            t,
            first_of(ranked, t.request.candidate_limit),
            order,
        ) && best_candidates_first(result.candidates),
{
    lemma_unexpanded(t, floats, ranked);
    let firsts = first_of(ranked, t.request.candidate_limit);
    let admitted = direct_admissions(t, firsts);
    lemma_candidates_from(t.chunks, documents, t.request.query, admitted, floats, 0, Seq::empty());
    let found = candidates_from(t.chunks, documents, t.request.query, admitted, floats, 0, Seq::empty())->Ok_0;
    let before = candidates_order(found);
    let order = sorted(found.len() as usize, before);
    if let Ok(result) = assembled(info, revision, documents, t, hit, floats) {
        lemma_candidates_sorted(found);
        lemma_sorted_each(found.len() as usize, before);
        let candidates = result.candidates;
        assert(candidates == candidates_sorted(found));
        assert forall|i: int| 0 <= i < candidates.len() implies direct_match(
            #[trigger] candidates[i],
            t.chunks.rows,
            t.scores,
            firsts[order[i] as int],
        ) by {
            let at = order[i] as int;
            assert(candidates[i] == found[at]);
            assert(admitted[at] == direct_admission(t, firsts[at]));
            assert(candidate_of(t.chunks, documents, t.request.query, admitted[at], floats) == Ok::<CandidateView, ErrorView>(
                found[at],
            ));
        }
    }
    order
}

proof fn lemma_assembled(
    info: CollectionView,
    revision: u64,
    documents: TableView,
    t: TraversalView,
    hit: bool,
    floats: Floats,
    vectors: Seq<NearChunk>,
    words: Seq<Weighted>,
)
    requires
        named(t.chunks.rows),
        t.chunks.rows.len() <= usize::MAX,
        t.scores.len() == t.chunks.rows.len(),
        scored_by(t.scores, vectors, words, t.request, floats),
        t.request.max_hops == 0,
        1 <= t.request.seed_limit <= t.request.candidate_limit <= PLACES,
        t.max_seeds_per_document is None,
    ensures
        assembled(info, revision, documents, t, hit, floats) matches Ok(result) ==> exists|places: Seq<usize>| #[trigger]
            fused_candidates(result.candidates, t.chunks.rows, vectors, words, t.request, places, floats) && forall|i: int|
                0 <= i < places.len() ==> result.candidates[i].lexical_score == t.scores[#[trigger] places[i] as int]->Some_0.lexical,
{
    let rows = t.chunks.rows;
    let limit = t.request.candidate_limit;
    let ranked = ranking(rows, t.scores, floats);
    lemma_ranking(rows, t.scores, floats);
    let order = lemma_direct_matches(info, revision, documents, t, hit, floats, ranked);
    if let Ok(result) = assembled(info, revision, documents, t, hit, floats) {
        let candidates = result.candidates;
        let firsts = first_of(ranked, limit);
        let places = order.map_values(|at: usize| firsts[at as int]);
        assert forall|i: int| 0 <= i < firsts.len() implies #[trigger] firsts[i] == ranked[i] by {
        }
        lemma_places(candidates, t, firsts, order, vectors, words, floats);
        assert forall|row: int, fusion: u64|
            0 <= row < rows.len() && #[trigger] fused(vectors, words, t.request, row, fusion, floats) && !places.contains(
                row as usize,
            ) implies candidates.len() == limit && forall|i: int|
            0 <= i < candidates.len() ==> !exceeds(fusion, (#[trigger] candidates[i]).fusion_score) by {
            assert(t.scores[row] is Some);
            lemma_fused_once(vectors, words, t.request, row, fusion, t.scores[row]->Some_0.fusion, floats);
            assert(ranked.contains(row as usize));
            let at = choose|at: int| 0 <= at < ranked.len() && ranked[at] == row as usize;
            if at < firsts.len() {
                assert(order.contains(at as usize));
                let i = choose|i: int| 0 <= i < order.len() && order[i] == at as usize;
                assert(places[i] == row as usize);
            }
            assert forall|i: int| 0 <= i < candidates.len() implies !exceeds(fusion, (#[trigger] candidates[i]).fusion_score) by {
                let first = order[i] as int;
                assert(direct_match(candidates[i], rows, t.scores, firsts[first]));
                assert(firsts[first] == ranked[first]);
                assert(total_key(t.scores[ranked[first] as int]->Some_0.fusion) >= total_key(
                    t.scores[ranked[at] as int]->Some_0.fusion,
                ));
            }
        }
        assert(fused_candidates(candidates, rows, vectors, words, t.request, places, floats));
    }
}

proof fn lemma_places(
    candidates: Seq<CandidateView>,
    t: TraversalView,
    firsts: Seq<usize>,
    order: Seq<usize>,
    vectors: Seq<NearChunk>,
    words: Seq<Weighted>,
    floats: Floats,
)
    requires
        direct_matches(candidates, t, firsts, order),
        firsts.no_duplicates(),
        forall|i: int| 0 <= i < firsts.len() ==> (#[trigger] firsts[i]) < t.scores.len() && t.scores[firsts[i] as int] is Some,
        t.scores.len() == t.chunks.rows.len(),
        scored_by(t.scores, vectors, words, t.request, floats),
    ensures
        ({
            let places = order.map_values(|at: usize| firsts[at as int]);
            &&& places.no_duplicates()
            &&& forall|i: int|
                0 <= i < candidates.len() ==> (#[trigger] places[i]) < t.chunks.rows.len() && text_in(
                    t.chunks.rows[places[i] as int],
                    0,
                ) == Ok::<Seq<char>, ErrorView>(candidates[i].hit.chunk_id) && candidates[i].hit.depth == 0 && fused(
                    vectors,
                    words,
                    t.request,
                    places[i] as int,
                    candidates[i].fusion_score,
                    floats,
                ) && candidates[i].lexical_score == t.scores[places[i] as int]->Some_0.lexical
        }),
{
    let places = order.map_values(|at: usize| firsts[at as int]);
    assert forall|i: int| 0 <= i < candidates.len() implies (#[trigger] places[i]) < t.chunks.rows.len() && text_in(
        t.chunks.rows[places[i] as int],
        0,
    ) == Ok::<Seq<char>, ErrorView>(candidates[i].hit.chunk_id) && candidates[i].hit.depth == 0 && fused(
        vectors,
        words,
        t.request,
        places[i] as int,
        candidates[i].fusion_score,
        floats,
    ) && candidates[i].lexical_score == t.scores[places[i] as int]->Some_0.lexical by {
        assert(direct_match(candidates[i], t.chunks.rows, t.scores, firsts[order[i] as int]));
        assert(t.scores[places[i] as int] is Some);
    }
    assert forall|i: int, j: int| 0 <= i < places.len() && 0 <= j < places.len() && i != j implies places[i] != places[j] by {
        assert(order[i] != order[j]);
        assert(firsts[order[i] as int] != firsts[order[j] as int]);
    }
}

/// Whether the rankings of a retrieval are those it asks for: by vector and by words, each where it
/// has a weight.
pub open spec fn rankings(
    vectors: Seq<NearChunk>,
    words: Seq<Weighted>,
    lexical: Seq<u64>,
    chunks: Seq<Seq<ValueView>>,
    request: RagRequestView,
    floats: Floats,
) -> bool {
    &&& if exceeds(request.vector_weight, 0) {
        nearest(chunks, request.query, request.candidate_limit, floats) == Ok::<Seq<NearChunk>, ErrorView>(vectors)
    } else {
        vectors.len() == 0
    }
    &&& if exceeds(request.lexical_weight, 0) && query_terms(request.query_text).len() > 0 {
        lexical.len() == chunks.len() && best_first(words, lexical, request.candidate_limit)
    } else {
        words.len() == 0
    }
}

/// Where nothing is expanded, the candidates of a retrieval are the best chunks of its rankings. Each
/// has the score that its places are worth, and they come from the best to the worst.
pub proof fn law_candidates(
    entries: Seq<LexicalEntryView>,
    owners: Seq<u64>,
    key: LexicalKeyView,
    info: CollectionView,
    revision: u64,
    documents: TableView,
    chunks: TableView,
    edges: TableView,
    request: RagRequestView,
    policy: PolicyView,
    floats: Floats,
)
    requires
        adds_whole(floats),
        named(chunks.rows),
        chunks.rows.len() <= usize::MAX,
        request.max_hops == 0,
        1 <= request.seed_limit <= request.candidate_limit <= PLACES,
        indexed(entries, owners, key, chunks.rows, query_terms(request.query_text), floats).1 matches Ok((index, _))
            ==> index.valid() && index.length_factors.len() == chunks.rows.len(),
    ensures
        retrieved_from(entries, owners, key, info, revision, documents, chunks, edges, request, policy, floats).1 matches Ok(
            result,
        ) ==> exists|vectors: Seq<NearChunk>, words: Seq<Weighted>, lexical: Seq<u64>, places: Seq<usize>|
            rankings(vectors, words, lexical, chunks.rows, request, floats) && #[trigger] answers(
                result.candidates,
                chunks.rows,
                vectors,
                words,
                lexical,
                request,
                places,
                floats,
            ),
{
    let rows = chunks.rows;
    let count = rows.len();
    if let Ok(result) = retrieved_from(
        entries,
        owners,
        key,
        info,
        revision,
        documents,
        chunks,
        edges,
        request,
        policy,
        floats,
    ).1 {
        let vectors = if exceeds(request.vector_weight, 0) {
            nearest(rows, request.query, request.candidate_limit, floats)->Ok_0
        } else {
            Seq::empty()
        };
        law_nearest_chunks(rows, request.query, request.candidate_limit, floats);
        let (scores, similarities) = by_vector(chunks, request, floats)->Ok_0;
        if exceeds(request.vector_weight, 0) {
            lemma_vector_scored(vectors, request.vector_weight, floats, 0, unscored(count), unmeasured(count));
        }
        assert(scores.len() == count);
        assert forall|row: int| 0 <= row < count && is_found(vectors, row) implies (#[trigger] scores[row]) is Some by {
            let i = choose|i: int| 0 <= i < vectors.len() && (#[trigger] vectors[i]).row == row;
            assert(vectors[i].row == row);
        }
        let bare = plain_traversal(chunks, edges, request, policy, scores, similarities);
        if !words_count(request) {
            let words = Seq::<Weighted>::empty();
            lemma_scores_fused(scores, scores, vectors, words, request, floats);
            lemma_assembled(info, revision, documents, bare, false, floats, vectors, words);
            let places = choose|places: Seq<usize>| #[trigger]
                fused_candidates(result.candidates, rows, vectors, words, request, places, floats);
            assert(answers(result.candidates, rows, vectors, words, Seq::empty(), request, places, floats));
            assert(rankings(vectors, words, Seq::empty(), rows, request, floats));
        } else {
            let (index, hit) = indexed(entries, owners, key, rows, query_terms(request.query_text), floats).1->Ok_0;
            let lexical = all_scores(index, query_terms(request.query_text), floats);
            lemma_scored_terms(
                index,
                query_terms(request.query_text),
                floats,
                0,
                Seq::new(index.length_factors.len(), |i: int| 0),
            );
            let words = best_rows(lexical, rows, request.candidate_limit, floats);
            law_best_rows(lexical, rows, request.candidate_limit, floats);
            lemma_words_scored(words, request.lexical_weight, floats, 0, scores, scores);
            let after = words_scored(words, request.lexical_weight, floats, 0, scores);
            lemma_scores_fused(scores, after, vectors, words, request, floats);
            let t = worded_traversal(bare, index, floats);
            lemma_labelled(after, lexical, vectors, words, request, floats);
            lemma_assembled(info, revision, documents, t, hit, floats, vectors, words);
            let places = choose|places: Seq<usize>| #[trigger]
                fused_candidates(result.candidates, rows, vectors, words, request, places, floats) && forall|i: int|
                    0 <= i < places.len() ==> result.candidates[i].lexical_score == t.scores[#[trigger] places[i] as int]->Some_0.lexical;
            assert(answers(result.candidates, rows, vectors, words, lexical, request, places, floats));
            assert(rankings(vectors, words, lexical, rows, request, floats));
        }
    }
}

/// Whether candidates are the best chunks of the rankings, with their scores by words.
pub open spec fn answers(
    candidates: Seq<CandidateView>,
    chunks: Seq<Seq<ValueView>>,
    vectors: Seq<NearChunk>,
    words: Seq<Weighted>,
    lexical: Seq<u64>,
    request: RagRequestView,
    places: Seq<usize>,
    floats: Floats,
) -> bool {
    &&& fused_candidates(candidates, chunks, vectors, words, request, places, floats)
    &&& exceeds(request.lexical_weight, 0) && query_terms(request.query_text).len() > 0 ==> forall|i: int|
        0 <= i < places.len() ==> candidates[i].lexical_score == lexical[#[trigger] places[i] as int]
}

proof fn lemma_scored_rows(rows: Seq<Occurrence>, idf: u64, factors: Seq<u64>, floats: Floats, from: nat, scores: Seq<u64>)
    requires
        forall|i: int| 0 <= i < rows.len() ==> (#[trigger] rows[i]).row < scores.len(),
    ensures
        scored_rows(rows, idf, factors, floats, from, scores).len() == scores.len(),
    decreases rows.len() - from,
{
    if from < rows.len() {
        let at = rows[from as int].row as int;
        lemma_scored_rows(
            rows,
            idf,
            factors,
            floats,
            from + 1,
            scores.update(at, plus(floats, scores[at], gain(idf, rows[from as int].frequency, factors[at], floats))),
        );
    }
}

proof fn lemma_posting(postings: Seq<PostingView>, term: Seq<char>, from: nat)
    ensures
        posting_at(postings, term, from) matches Some(at) ==> from <= at < postings.len() && postings[at as int].term == term,
    decreases postings.len() - from,
{
    if from < postings.len() && postings[from as int].term != term {
        lemma_posting(postings, term, from + 1);
    }
}

proof fn lemma_scored_terms(index: LexicalIndexView, terms: Seq<Seq<char>>, floats: Floats, from: nat, scores: Seq<u64>)
    requires
        index.valid(),
        scores.len() == index.length_factors.len(),
    ensures
        scored_terms(index, terms, floats, from, scores).len() == scores.len(),
    decreases terms.len() - from,
{
    if from < terms.len() {
        lemma_posting(index.postings, terms[from as int], 0);
        match posting_at(index.postings, terms[from as int], 0) {
            None => lemma_scored_terms(index, terms, floats, from + 1, scores),
            Some(at) => {
                let rows = index.postings[at as int].rows;
                let idf = rarity(index.length_factors.len(), rows.len(), floats);
                lemma_scored_rows(rows, idf, index.length_factors, floats, 0, scores);
                lemma_scored_terms(
                    index,
                    terms,
                    floats,
                    from + 1,
                    scored_rows(rows, idf, index.length_factors, floats, 0, scores),
                );
            },
        }
    }
}

/// The scores of rows after those of words are what their places are worth.
proof fn lemma_scores_fused(
    first: Seq<Option<CandidateScore>>,
    after: Seq<Option<CandidateScore>>,
    vectors: Seq<NearChunk>,
    words: Seq<Weighted>,
    request: RagRequestView,
    floats: Floats,
)
    requires
        first.len() == after.len(),
        found_once(vectors, first.len()),
        listed_once(words, first.len()),
        forall|i: int|
            0 <= i < vectors.len() ==> first[(#[trigger] vectors[i]).row as int] == Some(
                CandidateScore { lexical: 0, fusion: sum(floats, 0, quotient(floats, request.vector_weight, 61 + i as nat)) },
            ),
        forall|row: int| 0 <= row < first.len() && (#[trigger] first[row]) is Some ==> is_found(vectors, row),
        forall|i: int|
            0 <= i < words.len() ==> after[(#[trigger] words[i]).row as int] == worded(
                first[words[i].row as int],
                quotient(floats, request.lexical_weight, 61 + i as nat),
                floats,
            ),
        forall|row: int| 0 <= row < after.len() && !is_listed(words, row) ==> (#[trigger] after[row]) == first[row],
    ensures
        scored_by(after, vectors, words, request, floats),
{
    assert forall|row: int| 0 <= row < after.len() && (#[trigger] after[row]) is Some implies is_found(vectors, row) || is_listed(
        words,
        row,
    ) by {
        if !is_listed(words, row) {
            assert(first[row] is Some);
        }
    }
    assert forall|row: int| 0 <= row < after.len() && (is_found(vectors, row) || is_listed(words, row)) implies (#[trigger] after[row]) is Some
        && fused(vectors, words, request, row, after[row]->Some_0.fusion, floats) by {
        if is_listed(words, row) {
            let j = choose|j: int| 0 <= j < words.len() && (#[trigger] words[j]).row == row;
            assert(after[words[j].row as int] == worded(
                first[row],
                quotient(floats, request.lexical_weight, 61 + j as nat),
                floats,
            ));
        } else {
            let i = choose|i: int| 0 <= i < vectors.len() && (#[trigger] vectors[i]).row == row;
            assert(first[vectors[i].row as int] is Some);
        }
        let fusion = after[row]->Some_0.fusion;
        assert forall|i: int, j: int|
            0 <= i < vectors.len() && 0 <= j < words.len() && (#[trigger] vectors[i]).row == row && (#[trigger] words[j]).row == row
                implies fusion == sum(
            floats,
            sum(floats, 0, quotient(floats, request.vector_weight, 61 + i as nat)),
            quotient(floats, request.lexical_weight, 61 + j as nat),
        ) by {
            assert(first[vectors[i].row as int] is Some);
            assert(after[words[j].row as int] is Some);
        }
        assert forall|j: int|
            0 <= j < words.len() && (#[trigger] words[j]).row == row && !is_found(vectors, row) implies fusion == sum(
            floats,
            0,
            quotient(floats, request.lexical_weight, 61 + j as nat),
        ) by {
            assert(first[row] is None);
        }
    }
}

proof fn lemma_labelled(
    scores: Seq<Option<CandidateScore>>,
    lexical: Seq<u64>,
    vectors: Seq<NearChunk>,
    words: Seq<Weighted>,
    request: RagRequestView,
    floats: Floats,
)
    requires
        scored_by(scores, vectors, words, request, floats),
    ensures
        scored_by(labelled(scores, lexical), vectors, words, request, floats),
        forall|row: int|
            0 <= row < scores.len() && scores[row] is Some ==> (#[trigger] labelled(scores, lexical)[row])->Some_0.lexical
                == lexical[row],
{
    let after = labelled(scores, lexical);
    assert forall|row: int| 0 <= row < after.len() implies (#[trigger] after[row]) is Some == scores[row] is Some && (
    scores[row] is Some ==> after[row]->Some_0.fusion == scores[row]->Some_0.fusion) by {
    }
}

/// Whether one row stands before another in every ranking, or neither is in it.
pub open spec fn ahead(vectors: Seq<NearChunk>, words: Seq<Weighted>, first: int, second: int) -> bool {
    &&& is_found(vectors, first) || is_listed(words, first)
    &&& (!is_found(vectors, first) && !is_found(vectors, second)) || exists|i: int, k: int|
        0 <= i < k < vectors.len() && (#[trigger] vectors[i]).row == first && (#[trigger] vectors[k]).row == second
    &&& (!is_listed(words, first) && !is_listed(words, second)) || exists|i: int, k: int|
        0 <= i < k < words.len() && (#[trigger] words[i]).row == first && (#[trigger] words[k]).row == second
}

/// A chunk that stands before another one in every ranking has the larger score, and comes before it
/// among the candidates.
pub proof fn law_ahead_in_rankings_is_ahead(
    candidates: Seq<CandidateView>,
    chunks: Seq<Seq<ValueView>>,
    vectors: Seq<NearChunk>,
    words: Seq<Weighted>,
    request: RagRequestView,
    places: Seq<usize>,
    floats: Floats,
    i: int,
    j: int,
)
    requires
        adds_up(floats, request.vector_weight, request.lexical_weight),
        vectors.len() <= PLACES,
        words.len() <= PLACES,
        fused_candidates(candidates, chunks, vectors, words, request, places, floats),
        0 <= i < candidates.len(),
        0 <= j < candidates.len(),
        ahead(vectors, words, places[i] as int, places[j] as int),
    ensures
        exceeds(candidates[i].fusion_score, candidates[j].fusion_score),
        i < j,
{
    let first = places[i] as int;
    let second = places[j] as int;
    let one = request.vector_weight;
    let other = request.lexical_weight;
    if is_found(vectors, first) {
        let (a, b) = choose|a: int, b: int|
            0 <= a < b < vectors.len() && (#[trigger] vectors[a]).row == first && (#[trigger] vectors[b]).row == second;
        assert(is_found(vectors, second));
        assert(exceeds(sum(floats, 0, quotient(floats, one, 61 + a as nat)), sum(floats, 0, quotient(floats, one, 61 + b as nat))));
        if is_listed(words, first) {
            let (c, d) = choose|c: int, d: int|
                0 <= c < d < words.len() && (#[trigger] words[c]).row == first && (#[trigger] words[d]).row == second;
            assert(is_listed(words, second));
            assert(exceeds(
                sum(floats, sum(floats, 0, quotient(floats, one, 61 + a as nat)), quotient(floats, other, 61 + c as nat)),
                sum(floats, sum(floats, 0, quotient(floats, one, 61 + b as nat)), quotient(floats, other, 61 + d as nat)),
            ));
        } else {
            assert(!is_listed(words, second)) by {
                if is_listed(words, second) {
                    let (c, d) = choose|c: int, d: int|
                        0 <= c < d < words.len() && (#[trigger] words[c]).row == first && (#[trigger] words[d]).row == second;
                    assert(words[c].row == first);
                }
            }
        }
    } else {
        assert(!is_found(vectors, second)) by {
            if is_found(vectors, second) {
                let (a, b) = choose|a: int, b: int|
                    0 <= a < b < vectors.len() && (#[trigger] vectors[a]).row == first && (#[trigger] vectors[b]).row == second;
                assert(vectors[a].row == first);
            }
        }
        let (c, d) = choose|c: int, d: int|
            0 <= c < d < words.len() && (#[trigger] words[c]).row == first && (#[trigger] words[d]).row == second;
        assert(exceeds(sum(floats, 0, quotient(floats, other, 61 + c as nat)), sum(floats, 0, quotient(floats, other, 61 + d as nat))));
    }
    if j <= i {
        if j < i {
            assert(!exceeds(candidates[i].fusion_score, candidates[j].fusion_score));
        }
    }
}

proof fn lemma_filled_bound(ranked: Seq<usize>, limit: nat, from: nat, done: Seq<usize>)
    requires
        done.len() <= limit,
    ensures
        filled(ranked, limit, from, done).len() <= limit,
    decreases ranked.len() - from,
{
    if from < ranked.len() && done.len() != limit {
        if done.contains(ranked[from as int]) {
            lemma_filled_bound(ranked, limit, from + 1, done);
        } else {
            lemma_filled_bound(ranked, limit, from + 1, done.push(ranked[from as int]));
        }
    }
}

proof fn lemma_admission_within(admitted: Seq<AdmissionView>, row: usize, from: nat)
    ensures
        admission_at(admitted, row, from) matches Some(at) ==> from <= at < admitted.len() && admitted[at as int].row == row,
    decreases admitted.len() - from,
{
    if from < admitted.len() && admitted[from as int].row != row {
        lemma_admission_within(admitted, row, from + 1);
    }
}

/// Whether a number is no smaller than another.
pub open spec fn no_less(left: u64, right: u64) -> bool {
    not_a_number(right) || (!not_a_number(left) && number_key(left) >= number_key(right))
}

/// Whether admissions are of one chunk, found in one way.
spec fn same_match(left: AdmissionView, right: AdmissionView) -> bool {
    &&& left.row == right.row
    &&& left.depth == right.depth
    &&& left.score.lexical == right.score.lexical
    &&& left.retrieval_path == right.retrieval_path
}

/// Whether admissions are others with scores that may be larger.
spec fn raised(admitted: Seq<AdmissionView>, first: Seq<AdmissionView>) -> bool {
    &&& admitted.len() == first.len()
    &&& forall|i: int|
        0 <= i < first.len() ==> same_match(#[trigger] admitted[i], first[i]) && no_less(
            admitted[i].score.fusion,
            first[i].score.fusion,
        )
}

proof fn lemma_accepted(t: TraversalView, floats: Floats, next: Seq<EvidenceView>, from: nat, state: ExpansionView)
    ensures
        raised(accepted(t, floats, next, from, state).admitted, state.admitted),
    decreases next.len() - from,
{
    if from < next.len() {
        let item = next[from as int];
        let best = state.best.update(item.row as int, item.strength);
        lemma_admission_within(state.admitted, item.row, 0);
        match admission_at(state.admitted, item.row, 0) {
            Some(at) => {
                let after = ExpansionView {
                    admitted: state.admitted.update(at as int, lifted(state.admitted[at as int], item.score.fusion)),
                    best,
                    ..state
                };
                lemma_accepted(t, floats, next, from + 1, after);
                let last = accepted(t, floats, next, from, state).admitted;
                assert forall|i: int| 0 <= i < state.admitted.len() implies same_match(
                    #[trigger] last[i],
                    state.admitted[i],
                ) && no_less(
                    last[i].score.fusion,
                    state.admitted[i].score.fusion,
                ) by {
                    assert(last[i].row == after.admitted[i].row);
                }
            },
            None => lemma_accepted(
                t,
                floats,
                next,
                from + 1,
                ExpansionView { context: merged(t, floats, state.context, item), best, ..state },
            ),
        }
    }
}

proof fn lemma_hopped(t: TraversalView, floats: Floats, largest: u64, hops: nat, frontier: Seq<EvidenceView>, state: ExpansionView)
    ensures
        hopped(t, floats, largest, hops, frontier, state) matches Ok(after) ==> raised(after.admitted, state.admitted),
    decreases hops,
{
    if hops > 0 {
        if let Ok((proposals, more)) = proposed(t, floats, largest, state.best, frontier, 0, Seq::empty(), state.truncated) {
            let next = top(t.chunks.rows, proposals, t.request.candidate_limit, floats);
            let start = ExpansionView { truncated: more || proposals.len() > t.request.candidate_limit, ..state };
            let after = accepted(t, floats, next, 0, start);
            lemma_accepted(t, floats, next, 0, start);
            if next.len() > 0 {
                lemma_hopped(t, floats, largest, (hops - 1) as nat, next, after);
                if let Ok(last) = hopped(t, floats, largest, (hops - 1) as nat, next, after) {
                    assert forall|i: int| 0 <= i < state.admitted.len() implies same_match(
                        #[trigger] last.admitted[i],
                        state.admitted[i],
                    ) && no_less(
                        last.admitted[i].score.fusion,
                        state.admitted[i].score.fusion,
                    ) by {
                        assert(last.admitted[i].row == after.admitted[i].row);
                        assert(after.admitted[i].row == start.admitted[i].row);
                    }
                }
            }
        }
    }
}

proof fn lemma_with_context(t: TraversalView, context: Seq<EvidenceView>, from: nat, admitted: Seq<AdmissionView>)
    requires
        from <= context.len(),
    ensures
        with_context(t, context, from, admitted) matches Ok(after) ==> {
            &&& after.len() == admitted.len() + context.len() - from
            &&& forall|i: int| 0 <= i < admitted.len() ==> #[trigger] after[i] == admitted[i]
            &&& forall|i: int| admitted.len() <= i < after.len() ==> (#[trigger] after[i]).retrieval_path is Some
        },
    decreases context.len() - from,
{
    if from < context.len() {
        let item = context[from as int];
        if let Ok(seed_chunk_id) = text_in(t.chunks.rows[item.seed as int], 0) {
            if let Ok(edges) = path_edges(t, item.trace, 0, Seq::empty()) {
                let next = admitted.push(
                    AdmissionView {
                        row: item.row,
                        depth: item.trace.len(),
                        score: item.score,
                        retrieval_path: Some(PathView { seed_chunk_id, edges }),
                    },
                );
                lemma_with_context(t, context, from + 1, next);
                if let Ok(after) = with_context(t, context, from, admitted) {
                    assert forall|i: int| 0 <= i < admitted.len() implies #[trigger] after[i] == admitted[i] by {
                        assert(after[i] == next[i]);
                    }
                    assert(after[admitted.len() as int] == next[admitted.len() as int]);
                }
            }
        }
    }
}

proof fn lemma_ranked_bound(t: TraversalView, ranked: Seq<usize>, from: nat, admitted: Seq<AdmissionView>, truncated: bool)
    requires
        admitted.len() <= t.request.candidate_limit,
    ensures
        with_ranked(t, ranked, from, admitted, truncated).0.len() <= t.request.candidate_limit,
        with_ranked(t, ranked, from, admitted, truncated).0.len() >= admitted.len(),
        forall|i: int| 0 <= i < admitted.len() ==> #[trigger] with_ranked(t, ranked, from, admitted, truncated).0[i] == admitted[i],
        forall|i: int|
            admitted.len() <= i < with_ranked(t, ranked, from, admitted, truncated).0.len() ==> is_direct(
                #[trigger] with_ranked(t, ranked, from, admitted, truncated).0[i],
                t,
            ),
    decreases ranked.len() - from,
{
    if from < ranked.len() {
        if admission_at(admitted, ranked[from as int], 0) is Some {
            lemma_ranked_bound(t, ranked, from + 1, admitted, truncated);
        } else if admitted.len() < t.request.candidate_limit {
            let next = admitted.push(direct_admission(t, ranked[from as int]));
            lemma_ranked_bound(t, ranked, from + 1, next, truncated);
            let after = with_ranked(t, ranked, from + 1, next, truncated).0;
            assert(with_ranked(t, ranked, from, admitted, truncated).0 == after);
            assert forall|i: int| 0 <= i < admitted.len() implies #[trigger] after[i] == admitted[i] by {
                assert(after[i] == next[i]);
            }
            assert(after[admitted.len() as int] == next[admitted.len() as int]);
        }
    }
}

/// Whether an admission is the direct match in its row.
spec fn is_direct(admission: AdmissionView, t: TraversalView) -> bool {
    admission == direct_admission(t, admission.row)
}

/// Whether an admission that no relationship led to has the scores of its row, or a larger one of
/// fusion.
pub open spec fn no_worse(admission: AdmissionView, t: TraversalView) -> bool {
    admission.retrieval_path is None ==> {
        &&& admission.depth == 0
        &&& admission.score.lexical == t.score(admission.row).lexical
        &&& no_less(admission.score.fusion, t.score(admission.row).fusion)
    }
}

proof fn lemma_spread_bound(t: TraversalView, ranked: Seq<usize>, most: nat, from: nat, done: Seq<usize>)
    requires
        done.len() < t.request.seed_limit,
    ensures
        seeds_spread(t, ranked, most, from, done) matches Ok(seeds) ==> seeds.len() <= t.request.seed_limit,
    decreases ranked.len() - from,
{
    if from < ranked.len() {
        if let Ok(document) = text_in(t.chunks.rows[ranked[from as int] as int], 1) {
            if crate::graph_traversal::seeds_of(t, done, document, done.len()) >= most {
                lemma_spread_bound(t, ranked, most, from + 1, done);
            } else if done.len() + 1 < t.request.seed_limit {
                lemma_spread_bound(t, ranked, most, from + 1, done.push(ranked[from as int]));
            }
        }
    }
}

proof fn lemma_expanded(t: TraversalView, floats: Floats, ranked: Seq<usize>)
    requires
        1 <= t.request.seed_limit <= t.request.candidate_limit,
    ensures
        expanded_from(t, floats, ranked) matches Ok((admitted, _)) ==> admitted.len() <= t.request.candidate_limit && forall|i: int|
            0 <= i < admitted.len() ==> no_worse(#[trigger] admitted[i], t),
{
    if let Ok(seeds) = seeds_selected(t, ranked) {
        if let Some(most) = t.max_seeds_per_document {
            lemma_spread_bound(t, ranked, most, 0, Seq::empty());
        }
        let start = expansion_start(t, seeds, ranked);
        lemma_filled_bound(ranked, direct_places(t.request, seeds.len()), 0, seeds);
        let large = largest_score(t.lexical_scores, 0, ZERO);
        lemma_hopped(t, floats, large, t.request.max_hops, seed_frontier(t, seeds), start);
        if let Ok(state) = hopped(t, floats, large, t.request.max_hops, seed_frontier(t, seeds), start) {
            let remaining = (t.request.candidate_limit - state.admitted.len()) as nat;
            let context = top(t.chunks.rows, state.context, remaining, floats);
            lemma_with_context(t, context, 0, state.admitted);
            if let Ok(admitted) = with_context(t, context, 0, state.admitted) {
                let cut = state.truncated || state.context.len() > remaining;
                lemma_ranked_bound(t, ranked, 0, admitted, cut);
                let last = with_ranked(t, ranked, 0, admitted, cut).0;
                assert forall|i: int| 0 <= i < last.len() implies no_worse(#[trigger] last[i], t) by {
                    if i < state.admitted.len() {
                        assert(last[i] == admitted[i]);
                        assert(admitted[i] == state.admitted[i]);
                        assert(same_match(state.admitted[i], start.admitted[i]));
                        assert(is_direct(start.admitted[i], t));
                    } else if i < admitted.len() {
                        assert(last[i] == admitted[i]);
                    } else {
                        assert(is_direct(last[i], t));
                    }
                }
            }
        }
    }
}

/// Expanding along relationships takes nothing from a direct match: it keeps its score by words, and
/// its score of fusion is no smaller than what its places are worth. There are no more candidates than
/// asked for.
pub proof fn law_expansion_only_raises(t: TraversalView, floats: Floats, ranked: Seq<usize>)
    requires
        1 <= t.request.seed_limit <= t.request.candidate_limit,
    ensures
        expanded_from(t, floats, ranked) matches Ok((admitted, _)) ==> admitted.len() <= t.request.candidate_limit && forall|i: int|
            0 <= i < admitted.len() ==> no_worse(#[trigger] admitted[i], t),
{
    lemma_expanded(t, floats, ranked);
}

/// However many steps are made along relationships, candidates are no more than asked for, and they
/// come from the best score to the worst, those of one score by identifier.
pub proof fn law_candidates_best_first(
    info: CollectionView,
    revision: u64,
    documents: TableView,
    t: TraversalView,
    hit: bool,
    floats: Floats,
)
    requires
        1 <= t.request.seed_limit <= t.request.candidate_limit <= PLACES,
    ensures
        assembled(info, revision, documents, t, hit, floats) matches Ok(result) ==> result.candidates.len()
            <= t.request.candidate_limit && best_candidates_first(result.candidates),
{
    let ranked = ranking(t.chunks.rows, t.scores, floats);
    lemma_expanded(t, floats, ranked);
    if let Ok((admitted, truncated)) = expanded_from(t, floats, ranked) {
        lemma_candidates_from(t.chunks, documents, t.request.query, admitted, floats, 0, Seq::empty());
        if let Ok(found) = candidates_from(t.chunks, documents, t.request.query, admitted, floats, 0, Seq::empty()) {
            lemma_candidates_sorted(found);
            lemma_sorted_each(found.len() as usize, candidates_order(found));
        }
    }
}

} // verus!
