//! Which chunks a filter on their documents leaves, and which evidence for a chunk is kept.

use vstd::prelude::*;
use crate::ast::ExprView;
use crate::error::ErrorView;
use crate::eval::{evaluated, ScopeView};
use crate::float::{total_key, Floats};
use crate::graph_filters::{allowed_from, eligible, marked_from, tried};
use crate::graph_traversal::{evidence_rank, preferred, EvidenceView, TraversalView};
use crate::scan::{index_candidates, law_index_candidates, lemma_candidates_valid};
use crate::table::TableView;
use crate::text::Rank;
use crate::value::ValueView;

verus! {

/// Whether a condition is true of the document of an identifier at a place.
pub open spec fn chosen_at(documents: TableView, condition: ExprView, id: Seq<char>, at: int, floats: Floats) -> bool {
    &&& 0 <= at < documents.rows.len()
    &&& documents.rows[at].len() > 0
    &&& documents.rows[at][0] == ValueView::Text(id)
    &&& evaluated(condition, ScopeView::plain(documents.columns, documents.rows[at]), floats) == Ok::<ValueView, ErrorView>(
        ValueView::Boolean(true),
    )
}

/// Whether a condition is true of a document of an identifier.
pub open spec fn chosen(documents: TableView, condition: ExprView, id: Seq<char>, floats: Floats) -> bool {
    exists|at: int| #[trigger] chosen_at(documents, condition, id, at, floats)
}

/// Whether a chunk is of a document of which a condition is true.
pub open spec fn of_chosen(documents: TableView, condition: ExprView, chunk: Seq<ValueView>, floats: Floats) -> bool {
    chunk.len() > 1 && (chunk[1] matches ValueView::Text(id) && chosen(documents, condition, id, floats))
}

proof fn lemma_allowed(
    documents: TableView,
    condition: ExprView,
    positions: Seq<usize>,
    floats: Floats,
    from: nat,
    done: Seq<Seq<char>>,
)
    requires
        from <= positions.len(),
        forall|i: int| 0 <= i < positions.len() ==> (#[trigger] positions[i]) < documents.rows.len(),
        forall|i: int| 0 <= i < done.len() ==> chosen(documents, condition, #[trigger] done[i], floats),
        forall|i: int, id: Seq<char>|
            0 <= i < from && #[trigger] chosen_at(documents, condition, id, positions[i] as int, floats) ==> done.contains(id),
    ensures
        allowed_from(documents, condition, positions, floats, from, done) matches Ok(allowed) ==> {
            &&& forall|i: int| 0 <= i < allowed.len() ==> chosen(documents, condition, #[trigger] allowed[i], floats)
            &&& forall|i: int, id: Seq<char>|
                0 <= i < positions.len() && #[trigger] chosen_at(documents, condition, id, positions[i] as int, floats)
                    ==> allowed.contains(id)
        },
    decreases positions.len() - from,
{
    if from < positions.len() {
        let at = positions[from as int] as int;
        let row = documents.rows[at];
        if let Ok(met) = crate::graph_filters::meets(documents, condition, row, floats) {
            if !met {
                lemma_allowed(documents, condition, positions, floats, from + 1, done);
            } else if let Ok(id) = crate::graph::text_in(row, 0) {
                let next = done.push(id);
                assert(chosen_at(documents, condition, id, at, floats));
                assert forall|i: int, other: Seq<char>|
                    0 <= i < from + 1 && #[trigger] chosen_at(documents, condition, other, positions[i] as int, floats) implies next.contains(
                    other,
                ) by {
                    if i < from {
                        let k = choose|k: int| 0 <= k < done.len() && done[k] == other;
                        assert(next[k] == other);
                    } else {
                        assert(next[done.len() as int] == other);
                    }
                }
                lemma_allowed(documents, condition, positions, floats, from + 1, next);
            }
        }
    }
}

proof fn lemma_marked(chunks: TableView, allowed: Seq<Seq<char>>, from: nat, done: Seq<bool>)
    requires
        from <= chunks.rows.len(),
        done.len() == from,
        forall|c: int|
            0 <= c < from ==> (#[trigger] done[c] <==> chunks.rows[c].len() > 1 && (chunks.rows[c][1] matches ValueView::Text(id)
                && allowed.contains(id))),
    ensures
        marked_from(chunks, allowed, from, done) matches Ok(marks) ==> marks.len() == chunks.rows.len() && forall|c: int|
            0 <= c < marks.len() ==> (#[trigger] marks[c] <==> chunks.rows[c].len() > 1 && (chunks.rows[c][1] matches ValueView::Text(id)
                && allowed.contains(id))),
    decreases chunks.rows.len() - from,
{
    if from < chunks.rows.len() {
        if let Ok(id) = crate::graph::text_in(chunks.rows[from as int], 1) {
            lemma_marked(chunks, allowed, from + 1, done.push(allowed.contains(id)));
        }
    }
}

/// A filter on documents leaves the chunks of those documents of which it is true, and no others.
/// Without a filter every chunk is left.
pub proof fn law_filtered_chunks(documents: TableView, chunks: TableView, condition: Option<ExprView>, floats: Floats)
    requires
        documents.valid(),
        documents.rows.len() <= usize::MAX,
    ensures
        eligible(documents, chunks, condition, floats) matches Ok(marks) ==> {
            &&& condition is None ==> marks is None
            &&& condition matches Some(filter) ==> {
                &&& marks is Some
                &&& marks->0.len() == chunks.rows.len()
                &&& forall|c: int|
                    0 <= c < chunks.rows.len() ==> (#[trigger] marks->0[c] <==> of_chosen(documents, filter, chunks.rows[c], floats))
            }
        },
{
    if let Some(filter) = condition {
        let positions = tried(documents, filter, floats);
        if index_candidates(documents, filter, floats) is Some {
            lemma_candidates_valid(documents, filter, floats);
        }
        lemma_allowed(documents, filter, positions, floats, 0, Seq::empty());
        if let Ok(allowed) = allowed_from(documents, filter, positions, floats, 0, Seq::empty()) {
            assert forall|id: Seq<char>| chosen(documents, filter, id, floats) implies #[trigger] allowed.contains(id) by {
                let at = choose|at: int| #[trigger] chosen_at(documents, filter, id, at, floats);
                if index_candidates(documents, filter, floats) is Some {
                    law_index_candidates(documents, filter, at as usize, floats);
                } else {
                    assert(positions[at] == at as usize);
                }
                let i = choose|i: int| 0 <= i < positions.len() && positions[i] == at as usize;
                assert(chosen_at(documents, filter, id, positions[i] as int, floats));
            }
            assert forall|id: Seq<char>| #[trigger] allowed.contains(id) implies chosen(documents, filter, id, floats) by {
                let i = choose|i: int| 0 <= i < allowed.len() && allowed[i] == id;
                assert(chosen(documents, filter, allowed[i], floats));
            }
            lemma_marked(chunks, allowed, 0, Seq::empty());
        }
    }
}

/// Of two ways to a chunk the stronger is kept, and of two that are as strong the shorter.
pub proof fn law_stronger_way_is_kept(t: TraversalView, floats: Floats, next: EvidenceView, previous: EvidenceView)
    ensures
        total_key(next.strength) > total_key(previous.strength) ==> preferred(t, floats, next, previous),
        total_key(next.strength) < total_key(previous.strength) ==> !preferred(t, floats, next, previous),
        next.strength == previous.strength && next.trace.len() < previous.trace.len() ==> preferred(t, floats, next, previous),
        next.strength == previous.strength && next.trace.len() > previous.trace.len() ==> !preferred(t, floats, next, previous),
{
}

/// Evidence of a better score comes first, and of two of one score that of the stronger way.
pub proof fn law_better_evidence_first(rows: Seq<Seq<ValueView>>, left: EvidenceView, right: EvidenceView, floats: Floats)
    ensures
        total_key(left.score.fusion) > total_key(right.score.fusion) ==> evidence_rank(rows, left, right, floats) == Rank::Before,
        total_key(left.score.fusion) < total_key(right.score.fusion) ==> evidence_rank(rows, left, right, floats) == Rank::After,
        left.score.fusion == right.score.fusion && total_key(left.strength) > total_key(right.strength) ==> evidence_rank(
            rows,
            left,
            right,
            floats,
        ) == Rank::Before,
        left.score.fusion == right.score.fusion && total_key(left.strength) < total_key(right.strength) ==> evidence_rank(
            rows,
            left,
            right,
            floats,
        ) == Rank::After,
{
}

} // verus!
