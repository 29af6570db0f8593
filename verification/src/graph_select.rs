//! Selecting from what was retrieved: relevant, diverse, and within a budget of context.

use vstd::prelude::*;
use crate::arithmetic::{
    absolute, absolute_of, between, clamp_number, clamped, compute_minus, compute_over, compute_times, count_number, exceeds,
    is_between, is_larger, maximum, maximum_of, minimum, minimum_of, minus, number_of_count, over, times, FOUR_FIFTHS,
    NEGATIVE_INFINITY, ONE, POSITIVE_INFINITY, ZERO,
};
use crate::error::{outcome, Error, ErrorView};
use crate::float::{
    at_least, computes, finite, floats, is_at_least, is_finite, rank_total, scored, total_key, FloatReply, FloatTask, Floats,
    Metric,
};
use crate::graph::{invalid, misuse};
use crate::graph_browse::has_id;
use crate::graph_edge::{EdgeView, GraphEdge};
use crate::graph_rag::{copy_hit, copy_path, CandidateView, GraphRagCandidate, GraphRagSnapshot, RetrievedView};
use crate::graph_search::{GraphHit, HitView};
use crate::graph_traversal::{path_view, GraphRagPath, PathView};
use crate::text::{
    byte_count, chars_of, count_bytes, int_rank, join_all, joined, lemma_views_push, rank_text, same_text, string_of, text_rank,
    views, Rank,
};
use crate::unicode::{is_whitespace, lowered, to_lowercase, unicode_space};

verus! {

broadcast use {vstd::string::group_string_axioms, lemma_views_push};

/// How to select. The diversity is a number as a bit pattern: at zero relevance alone decides.
#[derive(Debug)]
pub struct GraphRagSelection {
    pub limit: usize,
    pub diversity: u64,
    pub max_context_bytes: usize,
    pub max_per_document: usize,
}

/// A chunk that was selected. The scores are numbers as bit patterns.
pub struct GraphRagHit {
    pub hit: GraphHit,
    pub lexical_score: u64,
    pub fusion_score: u64,
    pub rerank_score: Option<u64>,
    pub selection_score: u64,
    pub retrieval_path: Option<GraphRagPath>,
}

pub struct SelectedView {
    pub hit: HitView,
    pub lexical_score: u64,
    pub fusion_score: u64,
    pub rerank_score: Option<u64>,
    pub selection_score: u64,
    pub retrieval_path: Option<PathView>,
}

impl View for GraphRagHit {
    type V = SelectedView;

    open spec fn view(&self) -> SelectedView {
        SelectedView {
            hit: self.hit@,
            lexical_score: self.lexical_score,
            fusion_score: self.fusion_score,
            rerank_score: self.rerank_score,
            selection_score: self.selection_score,
            retrieval_path: path_view(self.retrieval_path),
        }
    }
}

/// What was selected.
pub struct GraphRagResult {
    pub collection: String,
    pub revision: u64,
    pub hits: Vec<GraphRagHit>,
    pub edges: Vec<GraphEdge>,
    pub lexical_cache_hit: bool,
    pub truncated: bool,
    pub context_bytes: usize,
    pub candidate_count: usize,
}

pub struct SelectionView {
    pub collection: Seq<char>,
    pub revision: u64,
    pub hits: Seq<SelectedView>,
    pub edges: Seq<EdgeView>,
    pub lexical_cache_hit: bool,
    pub truncated: bool,
    pub context_bytes: nat,
    pub candidate_count: nat,
}

impl View for GraphRagResult {
    type V = SelectionView;

    open spec fn view(&self) -> SelectionView {
        SelectionView {
            collection: self.collection@,
            revision: self.revision,
            hits: views(self.hits@),
            edges: views(self.edges@),
            lexical_cache_hit: self.lexical_cache_hit,
            truncated: self.truncated,
            context_bytes: self.context_bytes as nat,
            candidate_count: self.candidate_count as nat,
        }
    }
}

/// Whether the limits of a selection are within those of every selection.
pub open spec fn selection_bounded(options: GraphRagSelection) -> bool {
    &&& 1 <= options.limit <= 100
    &&& finite(options.diversity)
    &&& between(options.diversity, ZERO, ONE)
    &&& 1 <= options.max_context_bytes <= 1048576
    &&& 1 <= options.max_per_document <= 100
}

/// Whether every number is finite.
pub open spec fn all_finite(numbers: Seq<u64>) -> bool {
    forall|i: int| 0 <= i < numbers.len() ==> finite(#[trigger] numbers[i])
}

fn are_finite(numbers: &Vec<u64>) -> (result: bool)
    ensures
        result == all_finite(numbers@),
{
    let mut at: usize = 0;
    while at < numbers.len()
        invariant
            at <= numbers@.len(),
            forall|i: int| 0 <= i < at ==> finite(#[trigger] numbers@[i]),
        decreases numbers@.len() - at,
    {
        if !is_finite(numbers[at]) {
            assert(!finite(numbers@[at as int]));
            return false;
        }
        at = at + 1;
    }
    true
}

/// The scores by which candidates are relevant: those of the reranker, where there is one.
pub open spec fn raw_relevance(candidates: Seq<CandidateView>, reranked: Option<Seq<u64>>) -> Seq<u64> {
    Seq::new(
        candidates.len(),
        |i: int|
            match reranked {
                Some(scores) => scores[i],
                None => candidates[i].fusion_score,
            },
    )
}

pub open spec fn smallest(numbers: Seq<u64>, from: nat, done: u64) -> u64
    decreases numbers.len() - from,
{
    if from >= numbers.len() {
        done
    } else {
        smallest(numbers, from + 1, minimum(done, numbers[from as int]))
    }
}

pub open spec fn largest(numbers: Seq<u64>, from: nat, done: u64) -> u64
    decreases numbers.len() - from,
{
    if from >= numbers.len() {
        done
    } else {
        largest(numbers, from + 1, maximum(done, numbers[from as int]))
    }
}

/// A number from 0 to 1 for each score, by where it lies between the smallest and the largest; 1
/// where they are one.
pub open spec fn relative(numbers: Seq<u64>, floats: Floats) -> Seq<u64> {
    let low = smallest(numbers, 0, POSITIVE_INFINITY);
    let high = largest(numbers, 0, NEGATIVE_INFINITY);
    let scale = maximum(maximum(absolute(low), absolute(high)), ONE);
    let bottom = over(floats, low, scale);
    let top = over(floats, high, scale);
    numbers.map_values(
        |number: u64|
            if exceeds(top, bottom) {
                over(
                    floats,
                    minus(floats, over(floats, number, scale), bottom),
                    minus(floats, top, bottom),
                )
            } else {
                ONE
            },
    )
}

fn normalize<F: Fn(FloatTask) -> FloatReply>(f: &F, numbers: &Vec<u64>) -> (result: Vec<u64>)
    requires
        computes(*f),
    ensures
        result@ == relative(numbers@, floats(*f)),
        result@.len() == numbers@.len(),
{
    let mut low: u64 = POSITIVE_INFINITY;
    let mut high: u64 = NEGATIVE_INFINITY;
    let mut at: usize = 0;
    while at < numbers.len()
        invariant
            at <= numbers@.len(),
            smallest(numbers@, at as nat, low) == smallest(numbers@, 0, POSITIVE_INFINITY),
            largest(numbers@, at as nat, high) == largest(numbers@, 0, NEGATIVE_INFINITY),
        decreases numbers@.len() - at,
    {
        low = minimum_of(low, numbers[at]);
        high = maximum_of(high, numbers[at]);
        at = at + 1;
    }
    let scale: u64 = maximum_of(maximum_of(absolute_of(low), absolute_of(high)), ONE);
    let bottom: u64 = compute_over(f, low, scale);
    let top: u64 = compute_over(f, high, scale);
    let spread = is_larger(top, bottom);
    let mut result: Vec<u64> = Vec::new();
    let ghost whole = relative(numbers@, floats(*f));
    while result.len() < numbers.len()
        invariant
            computes(*f),
            spread == exceeds(top, bottom),
            result@.len() <= numbers@.len(),
            whole.len() == numbers@.len(),
            forall|i: int|
                0 <= i < numbers@.len() ==> (#[trigger] whole[i]) == (if exceeds(top, bottom) {
                    over(
                        floats(*f),
                        minus(floats(*f), over(floats(*f), numbers@[i], scale), bottom),
                        minus(floats(*f), top, bottom),
                    )
                } else {
                    ONE
                }),
            forall|i: int| 0 <= i < result@.len() ==> (#[trigger] result@[i]) == whole[i],
        decreases numbers@.len() - result@.len(),
    {
        let index: usize = result.len();
        if spread {
            let place: u64 = compute_minus(f, compute_over(f, numbers[index], scale), bottom);
            result.push(compute_over(f, place, compute_minus(f, top, bottom)));
        } else {
            result.push(ONE);
        }
    }
    assert(result@ =~= whole);
    result
}

/// The runs of a text without white space, from `from` on, where the one that is open began at
/// `start`, after `done`.
pub open spec fn runs_from(text: Seq<char>, from: nat, start: nat, done: Seq<Seq<char>>) -> Seq<Seq<char>>
    decreases text.len() - from,
{
    if from < text.len() && !unicode_space(text[from as int]) {
        runs_from(text, from + 1, start, done)
    } else {
        let next = if start < from {
            done.push(text.subrange(start as int, from as int))
        } else {
            done
        };
        if from >= text.len() {
            next
        } else {
            runs_from(text, from + 1, from + 1, next)
        }
    }
}

/// A text in lower case with one space between its words, by which repeated texts are found.
pub open spec fn squeezed(text: Seq<char>) -> Seq<char> {
    lowered(joined(runs_from(text, 0, 0, Seq::empty()), " "@))
}

fn squeeze(text: &str) -> (result: String)
    ensures
        result@ == squeezed(text@),
{
    let chars = chars_of(text);
    let mut runs: Vec<String> = Vec::new();
    assert(views(runs@) =~= Seq::<Seq<char>>::empty());
    let mut start: usize = 0;
    let mut at: usize = 0;
    while at < chars.len()
        invariant
            chars@ == text@,
            start <= at <= chars@.len(),
            runs_from(text@, at as nat, start as nat, views(runs@)) == runs_from(text@, 0, 0, Seq::empty()),
        decreases chars@.len() - at,
    {
        if is_whitespace(chars[at]) {
            if start < at {
                runs.push(string_of(&chars, start, at));
            }
            start = at + 1;
        }
        at = at + 1;
    }
    if start < at {
        runs.push(string_of(&chars, start, at));
    }
    to_lowercase(join_all(&runs, " ").as_str())
}

pub open spec fn smaller(left: nat, right: nat) -> nat {
    if left < right {
        left
    } else {
        right
    }
}

pub open spec fn larger(left: nat, right: nat) -> nat {
    if left < right {
        right
    } else {
        left
    }
}

/// How far one number is above another; zero where it is not.
pub open spec fn above(left: nat, right: nat) -> nat {
    if left < right {
        0
    } else {
        (left - right) as nat
    }
}

/// The share of the shorter of two citations that the other covers.
pub open spec fn overlap_of(left: HitView, right: HitView, floats: Floats) -> u64 {
    let shared = above(smaller(left.end_byte, right.end_byte), larger(left.start_byte, right.start_byte));
    let shorter = smaller(above(left.end_byte, left.start_byte), above(right.end_byte, right.start_byte));
    if left.document_id != right.document_id || shorter == 0 {
        ZERO
    } else {
        over(floats, count_number(floats, shared), count_number(floats, shorter))
    }
}

pub fn source_overlap<F: Fn(FloatTask) -> FloatReply>(f: &F, left: &GraphHit, right: &GraphHit) -> (overlap: u64)
    requires
        computes(*f),
    ensures
        overlap == overlap_of(left@, right@, floats(*f)),
{
    if !same_text(left.document_id.as_str(), right.document_id.as_str()) {
        return ZERO;
    }
    let end: usize = if left.end_byte < right.end_byte {
        left.end_byte
    } else {
        right.end_byte
    };
    let start: usize = if left.start_byte < right.start_byte {
        right.start_byte
    } else {
        left.start_byte
    };
    let shared: usize = end.saturating_sub(start);
    let first: usize = left.end_byte.saturating_sub(left.start_byte);
    let second: usize = right.end_byte.saturating_sub(right.start_byte);
    let shorter: usize = if first < second {
        first
    } else {
        second
    };
    if shorter == 0 {
        return ZERO;
    }
    compute_over(f, number_of_count(f, shared), number_of_count(f, shorter))
}

/// A candidate, by its place, with the score by which it was chosen.
#[derive(Clone, Copy, Debug)]
pub struct Chosen {
    pub index: usize,
    pub score: u64,
}

/// What a selection works on.
pub struct SelectingView {
    pub candidates: Seq<CandidateView>,
    pub relevance: Seq<u64>,
    pub options: GraphRagSelection,
}

/// How far a selection has come.
pub struct SelectState {
    pub selected: Seq<Chosen>,
    pub available: Seq<bool>,
    pub redundancy: Seq<u64>,
    pub context_bytes: nat,
    pub truncated: bool,
}

/// How many of the first `count` selected are of a document.
pub open spec fn of_document(candidates: Seq<CandidateView>, selected: Seq<Chosen>, document: Seq<char>, count: nat) -> nat
    decreases count,
{
    if count == 0 {
        0
    } else {
        let before = of_document(candidates, selected, document, (count - 1) as nat);
        if candidates[selected[count - 1].index as int].hit.document_id == document {
            before + 1
        } else {
            before
        }
    }
}

/// Whether there is room for a candidate: in the budget of context, and for its document.
pub open spec fn has_room(s: SelectingView, state: SelectState, index: int) -> bool {
    let hit = s.candidates[index].hit;
    &&& state.context_bytes + byte_count(hit.text) <= s.options.max_context_bytes
    &&& of_document(s.candidates, state.selected, hit.document_id, state.selected.len()) < s.options.max_per_document
}

/// The score of a candidate: its relevance at first, then less for what is like it.
pub open spec fn select_score(s: SelectingView, state: SelectState, index: int, floats: Floats) -> u64 {
    if state.selected.len() == 0 {
        s.relevance[index]
    } else {
        minus(
            floats,
            times(floats, minus(floats, ONE, s.options.diversity), s.relevance[index]),
            times(floats, s.options.diversity, state.redundancy[index]),
        )
    }
}

/// Whether a candidate is better than the best so far: by its score, then by its identifier.
pub open spec fn outranks(s: SelectingView, index: usize, score: u64, best: Option<Chosen>) -> bool {
    match best {
        None => true,
        Some(best) => match int_rank(total_key(score), total_key(best.score)) {
            Rank::After => true,
            Rank::Before => false,
            Rank::Same => text_rank(
                s.candidates[index as int].hit.chunk_id,
                s.candidates[best.index as int].hit.chunk_id,
            ) == Rank::Before,
        },
    }
}

/// The best of the candidates from `from` on and `best`; those without room are no longer
/// available.
pub open spec fn scanned(s: SelectingView, floats: Floats, from: nat, state: SelectState, best: Option<Chosen>) -> (
    SelectState,
    Option<Chosen>,
)
    decreases s.candidates.len() - from,
{
    if from >= s.candidates.len() {
        (state, best)
    } else if !state.available[from as int] {
        scanned(s, floats, from + 1, state, best)
    } else if !has_room(s, state, from as int) {
        scanned(
            s,
            floats,
            from + 1,
            SelectState { available: state.available.update(from as int, false), truncated: true, ..state },
            best,
        )
    } else {
        let score = select_score(s, state, from as int, floats);
        scanned(
            s,
            floats,
            from + 1,
            state,
            if outranks(s, from as usize, score, best) {
                Some(Chosen { index: from as usize, score })
            } else {
                best
            },
        )
    }
}

/// How alike two candidates are, from 0 to 1.
pub open spec fn likeness(left: CandidateView, right: CandidateView, floats: Floats) -> Result<u64, ErrorView> {
    match scored(floats, Metric::Cosine, left.vector, right.vector) {
        Err(error) => Err(error),
        Ok(distance) => Ok(
            maximum(clamped(minus(floats, ONE, distance), ZERO, ONE), overlap_of(left.hit, right.hit, floats)),
        ),
    }
}

/// Whether two candidates say the same: their texts are one, or one citation covers the other.
pub open spec fn repeats(left: CandidateView, right: CandidateView, floats: Floats) -> bool {
    squeezed(left.hit.text) == squeezed(right.hit.text) || at_least(overlap_of(left.hit, right.hit, floats), FOUR_FIFTHS)
}

/// The selection after the candidates from `from` on were held against the chosen one.
pub open spec fn compared(s: SelectingView, floats: Floats, chosen: usize, from: nat, state: SelectState) -> Result<
    SelectState,
    ErrorView,
>
    decreases s.candidates.len() - from,
{
    if from >= s.candidates.len() {
        Ok(state)
    } else if !state.available[from as int] {
        compared(s, floats, chosen, from + 1, state)
    } else if repeats(s.candidates[chosen as int], s.candidates[from as int], floats) {
        compared(
            s,
            floats,
            chosen,
            from + 1,
            SelectState { available: state.available.update(from as int, false), truncated: true, ..state },
        )
    } else {
        match likeness(s.candidates[chosen as int], s.candidates[from as int], floats) {
            Err(error) => Err(error),
            Ok(alike) => compared(
                s,
                floats,
                chosen,
                from + 1,
                SelectState {
                    redundancy: state.redundancy.update(from as int, maximum(state.redundancy[from as int], alike)),
                    ..state
                },
            ),
        }
    }
}

/// The selection with a candidate.
pub open spec fn chosen_state(s: SelectingView, state: SelectState, chosen: Chosen) -> SelectState {
    SelectState {
        selected: state.selected.push(chosen),
        available: state.available.update(chosen.index as int, false),
        context_bytes: state.context_bytes + byte_count(s.candidates[chosen.index as int].hit.text),
        ..state
    }
}

/// The selection once it is full or no candidate is available.
pub open spec fn selecting(s: SelectingView, floats: Floats, state: SelectState) -> Result<SelectState, ErrorView>
    decreases s.options.limit - state.selected.len(),
{
    if state.selected.len() >= s.options.limit {
        Ok(state)
    } else {
        let (seen, best) = scanned(s, floats, 0, state, None);
        match best {
            None => Ok(seen),
            Some(chosen) => {
                let next = chosen_state(s, SelectState { selected: state.selected, ..seen }, chosen);
                if exceeds(s.options.diversity, ZERO) {
                    match compared(s, floats, chosen.index, 0, next) {
                        Err(error) => Err(error),
                        Ok(after) => selecting(s, floats, SelectState { selected: next.selected, ..after }),
                    }
                } else {
                    selecting(s, floats, next)
                }
            },
        }
    }
}

/// A selection before anything is chosen.
pub open spec fn unselected(count: nat, truncated: bool) -> SelectState {
    SelectState {
        selected: Seq::empty(),
        available: Seq::new(count, |i: int| true),
        redundancy: Seq::new(count, |i: int| ZERO),
        context_bytes: 0,
        truncated,
    }
}

/// What a selected candidate is returned as.
pub open spec fn selected_hit(s: SelectingView, reranked: Option<Seq<u64>>, chosen: Chosen) -> SelectedView {
    let candidate = s.candidates[chosen.index as int];
    SelectedView {
        hit: candidate.hit,
        lexical_score: candidate.lexical_score,
        fusion_score: candidate.fusion_score,
        rerank_score: match reranked {
            None => None,
            Some(scores) => Some(scores[chosen.index as int]),
        },
        selection_score: chosen.score,
        retrieval_path: candidate.retrieval_path,
    }
}

/// The identifiers of what was selected.
pub open spec fn selected_ids(s: SelectingView, selected: Seq<Chosen>) -> Seq<Seq<char>> {
    selected.map_values(|chosen: Chosen| s.candidates[chosen.index as int].hit.chunk_id)
}

/// The relationships from `from` on between chunks of these identifiers, after `done`.
pub open spec fn edges_between(edges: Seq<EdgeView>, ids: Seq<Seq<char>>, from: nat, done: Seq<EdgeView>) -> Seq<EdgeView>
    decreases edges.len() - from,
{
    if from >= edges.len() {
        done
    } else if ids.contains(edges[from as int].from_chunk) && ids.contains(edges[from as int].to_chunk) {
        edges_between(edges, ids, from + 1, done.push(edges[from as int]))
    } else {
        edges_between(edges, ids, from + 1, done)
    }
}

/// The error of a selection before anything is chosen.
pub open spec fn selection_checked(retrieved: RetrievedView, options: GraphRagSelection, reranked: Option<Seq<u64>>) -> Result<
    (),
    ErrorView,
> {
    if !selection_bounded(options) {
        Err(misuse("invalid RAG diversity, citation budget or result limits"@))
    } else if reranked matches Some(scores) && (scores.len() != retrieved.candidates.len() || !all_finite(scores)) {
        Err(misuse("reranker must return one finite score per candidate"@))
    } else if retrieved.candidates.len() > 100 {
        Err(misuse("RAG snapshots may contain at most 100 candidates"@))
    } else if !all_finite(raw_relevance(retrieved.candidates, reranked)) {
        Err(misuse("RAG candidate scores must be finite"@))
    } else {
        Ok(())
    }
}

/// What is selected from what was retrieved.
pub open spec fn finalized(
    retrieved: RetrievedView,
    options: GraphRagSelection,
    reranked: Option<Seq<u64>>,
    floats: Floats,
) -> Result<SelectionView, ErrorView> {
    match selection_checked(retrieved, options, reranked) {
        Err(error) => Err(error),
        Ok(_) => {
            let s = SelectingView {
                candidates: retrieved.candidates,
                relevance: relative(raw_relevance(retrieved.candidates, reranked), floats),
                options,
            };
            match selecting(s, floats, unselected(retrieved.candidates.len(), retrieved.truncated)) {
                Err(error) => Err(error),
                Ok(state) => Ok(
                    SelectionView {
                        collection: retrieved.collection,
                        revision: retrieved.revision,
                        hits: state.selected.map_values(|chosen: Chosen| selected_hit(s, reranked, chosen)),
                        edges: edges_between(retrieved.edges, selected_ids(s, state.selected), 0, Seq::empty()),
                        lexical_cache_hit: retrieved.lexical_cache_hit,
                        truncated: state.truncated || state.selected.len() < retrieved.candidates.len(),
                        context_bytes: state.context_bytes,
                        candidate_count: retrieved.candidates.len(),
                    },
                ),
            }
        },
    }
}

/// A selection under way.
struct Progress {
    selected: Vec<Chosen>,
    available: Vec<bool>,
    redundancy: Vec<u64>,
    context_bytes: usize,
    truncated: bool,
}

impl View for Progress {
    type V = SelectState;

    closed spec fn view(&self) -> SelectState {
        SelectState {
            selected: self.selected@,
            available: self.available@,
            redundancy: self.redundancy@,
            context_bytes: self.context_bytes as nat,
            truncated: self.truncated,
        }
    }
}

/// Whether a selection is one of these candidates and within its limits.
pub open spec fn within_limits(s: SelectingView, state: SelectState) -> bool {
    &&& state.available.len() == s.candidates.len()
    &&& state.redundancy.len() == s.candidates.len()
    &&& s.relevance.len() == s.candidates.len()
    &&& state.selected.len() <= s.options.limit
    &&& state.context_bytes <= s.options.max_context_bytes
    &&& forall|i: int| 0 <= i < state.selected.len() ==> (#[trigger] state.selected[i]).index < s.candidates.len()
}

fn count_document(candidates: &Vec<GraphRagCandidate>, selected: &Vec<Chosen>, document: &str) -> (count: usize)
    requires
        forall|i: int| 0 <= i < selected@.len() ==> (#[trigger] selected@[i]).index < candidates@.len(),
    ensures
        count == of_document(views(candidates@), selected@, document@, selected@.len()),
{
    let mut count: usize = 0;
    let mut at: usize = 0;
    while at < selected.len()
        invariant
            forall|i: int| 0 <= i < selected@.len() ==> (#[trigger] selected@[i]).index < candidates@.len(),
            at <= selected@.len(),
            count <= at,
            count == of_document(views(candidates@), selected@, document@, at as nat),
        decreases selected@.len() - at,
    {
        assert(selected@[at as int].index < candidates@.len());
        let candidate = &candidates[selected[at].index];
        assert(views(candidates@)[selected@[at as int].index as int] == candidate@);
        if same_text(candidate.hit.document_id.as_str(), document) {
            count = count + 1;
        }
        at = at + 1;
    }
    count
}

struct Selecting<'a> {
    candidates: &'a Vec<GraphRagCandidate>,
    relevance: &'a Vec<u64>,
    options: &'a GraphRagSelection,
}

impl<'a> View for Selecting<'a> {
    type V = SelectingView;

    closed spec fn view(&self) -> SelectingView {
        SelectingView { candidates: views(self.candidates@), relevance: self.relevance@, options: *self.options }
    }
}

impl<'a> Selecting<'a> {
    fn fits(&self, progress: &Progress, index: usize) -> (result: bool)
        requires
            within_limits(self@, progress@),
            index < self.candidates@.len(),
        ensures
            result == has_room(self@, progress@, index as int),
    {
        let hit = &self.candidates[index].hit;
        assert(self@.candidates[index as int] == self.candidates@[index as int]@);
        count_bytes(hit.text.as_str()) <= self.options.max_context_bytes - progress.context_bytes && count_document(
            self.candidates,
            &progress.selected,
            hit.document_id.as_str(),
        ) < self.options.max_per_document
    }

    fn score<F: Fn(FloatTask) -> FloatReply>(&self, f: &F, progress: &Progress, index: usize) -> (score: u64)
        requires
            computes(*f),
            within_limits(self@, progress@),
            index < self.candidates@.len(),
        ensures
            score == select_score(self@, progress@, index as int, floats(*f)),
    {
        if progress.selected.len() == 0 {
            self.relevance[index]
        } else {
            let kept: u64 = compute_times(f, compute_minus(f, ONE, self.options.diversity), self.relevance[index]);
            compute_minus(f, kept, compute_times(f, self.options.diversity, progress.redundancy[index]))
        }
    }

    fn is_better(&self, index: usize, score: u64, best: &Option<Chosen>) -> (result: bool)
        requires
            index < self.candidates@.len(),
            *best matches Some(best) ==> best.index < self.candidates@.len(),
        ensures
            result == outranks(self@, index, score, *best),
    {
        match best {
            None => true,
            Some(best) => match rank_total(score, best.score) {
                Rank::After => true,
                Rank::Before => false,
                Rank::Same => {
                    assert(self@.candidates[index as int] == self.candidates@[index as int]@);
                    assert(self@.candidates[best.index as int] == self.candidates@[best.index as int]@);
                    match rank_text(
                        self.candidates[index].hit.chunk_id.as_str(),
                        self.candidates[best.index].hit.chunk_id.as_str(),
                    ) {
                        Rank::Before => true,
                        _ => false,
                    }
                },
            },
        }
    }

    fn scan<F: Fn(FloatTask) -> FloatReply>(&self, f: &F, progress: &mut Progress) -> (best: Option<Chosen>)
        requires
            computes(*f),
            within_limits(self@, old(progress)@),
        ensures
            (final(progress)@, best) == scanned(self@, floats(*f), 0, old(progress)@, None),
            within_limits(self@, final(progress)@),
            final(progress)@.selected == old(progress)@.selected,
            best matches Some(chosen) ==> chosen.index < self.candidates@.len() && has_room(
                self@,
                final(progress)@,
                chosen.index as int,
            ),
    {
        let total: usize = self.candidates.len();
        let mut best: Option<Chosen> = None;
        let mut at: usize = 0;
        assert(self@.candidates.len() == total);
        while at < total
            invariant
                computes(*f),
                total == self.candidates@.len(),
                total == self@.candidates.len(),
                at <= total,
                within_limits(self@, progress@),
                progress@.selected == old(progress)@.selected,
                best matches Some(chosen) ==> chosen.index < total && has_room(self@, progress@, chosen.index as int),
                scanned(self@, floats(*f), at as nat, progress@, best) == scanned(
                    self@,
                    floats(*f),
                    0,
                    old(progress)@,
                    None,
                ),
            decreases total - at,
        {
            if progress.available[at] {
                if !self.fits(progress, at) {
                    progress.available.set(at, false);
                    progress.truncated = true;
                } else {
                    let score: u64 = self.score(f, progress, at);
                    if self.is_better(at, score, &best) {
                        best = Some(Chosen { index: at, score });
                    }
                }
            }
            at = at + 1;
        }
        best
    }

    fn contrast<F: Fn(FloatTask) -> FloatReply>(&self, f: &F, texts: &Vec<String>, chosen: usize, progress: &mut Progress) -> (result: Result<
        (),
        Error,
    >)
        requires
            computes(*f),
            within_limits(self@, old(progress)@),
            chosen < self.candidates@.len(),
            texts@.len() == self.candidates@.len(),
            forall|i: int| 0 <= i < texts@.len() ==> (#[trigger] texts@[i])@ == squeezed(self@.candidates[i].hit.text),
        ensures
            match result {
                Ok(_) => compared(self@, floats(*f), chosen, 0, old(progress)@) == Ok::<SelectState, ErrorView>(
                    final(progress)@,
                ) && within_limits(self@, final(progress)@) && final(progress)@.selected == old(progress)@.selected,
                Err(error) => compared(self@, floats(*f), chosen, 0, old(progress)@) == Err::<SelectState, ErrorView>(error@),
            },
    {
        let ghost start = progress@;
        let total: usize = self.candidates.len();
        let mut at: usize = 0;
        assert(self@.candidates.len() == total);
        while at < total
            invariant
                computes(*f),
                total == self.candidates@.len(),
                total == self@.candidates.len(),
                chosen < total,
                at <= total,
                start == old(progress)@,
                texts@.len() == total,
                forall|i: int| 0 <= i < texts@.len() ==> (#[trigger] texts@[i])@ == squeezed(self@.candidates[i].hit.text),
                within_limits(self@, progress@),
                progress@.selected == start.selected,
                compared(self@, floats(*f), chosen, at as nat, progress@) == compared(self@, floats(*f), chosen, 0, start),
            decreases total - at,
        {
            if progress.available[at] {
                let first = &self.candidates[chosen];
                let second = &self.candidates[at];
                assert(self@.candidates[chosen as int] == first@);
                assert(self@.candidates[at as int] == second@);
                let overlap: u64 = source_overlap(f, &first.hit, &second.hit);
                if same_text(texts[chosen].as_str(), texts[at].as_str()) || is_at_least(overlap, FOUR_FIFTHS) {
                    progress.available.set(at, false);
                    progress.truncated = true;
                } else {
                    let distance: u64 = Metric::Cosine.score(f, &first.vector, &second.vector)?;
                    let cosine: u64 = clamp_number(compute_minus(f, ONE, distance), ZERO, ONE);
                    let alike: u64 = maximum_of(progress.redundancy[at], maximum_of(cosine, overlap));
                    progress.redundancy.set(at, alike);
                }
            }
            at = at + 1;
        }
        Ok(())
    }

    fn choose_one(&self, progress: &mut Progress, chosen: Chosen)
        requires
            within_limits(self@, old(progress)@),
            old(progress)@.selected.len() < self.options.limit,
            chosen.index < self.candidates@.len(),
            has_room(self@, old(progress)@, chosen.index as int),
        ensures
            final(progress)@ == chosen_state(self@, old(progress)@, chosen),
            within_limits(self@, final(progress)@),
    {
        assert(self@.candidates[chosen.index as int] == self.candidates@[chosen.index as int]@);
        progress.available.set(chosen.index, false);
        let size: usize = count_bytes(self.candidates[chosen.index].hit.text.as_str());
        progress.selected.push(chosen);
        progress.context_bytes = progress.context_bytes + size;
    }

    fn squeeze_texts(&self) -> (texts: Vec<String>)
        ensures
            texts@.len() == self.candidates@.len(),
            forall|i: int| 0 <= i < texts@.len() ==> (#[trigger] texts@[i])@ == squeezed(self@.candidates[i].hit.text),
    {
        let mut texts: Vec<String> = Vec::new();
        while texts.len() < self.candidates.len()
            invariant
                texts@.len() <= self.candidates@.len(),
                forall|i: int| 0 <= i < texts@.len() ==> (#[trigger] texts@[i])@ == squeezed(self@.candidates[i].hit.text),
            decreases self.candidates@.len() - texts@.len(),
        {
            let at: usize = texts.len();
            assert(self@.candidates[at as int] == self.candidates@[at as int]@);
            texts.push(squeeze(self.candidates[at].hit.text.as_str()));
        }
        texts
    }

    #[verifier::rlimit(40)]
    fn select<F: Fn(FloatTask) -> FloatReply>(&self, f: &F, truncated: bool) -> (result: Result<Progress, Error>)
        requires
            computes(*f),
            self@.relevance.len() == self@.candidates.len(),
        ensures
            outcome(result) == selecting(self@, floats(*f), unselected(self@.candidates.len(), truncated)),
            result matches Ok(progress) ==> within_limits(self@, progress@),
    {
        let total: usize = self.candidates.len();
        let diverse = is_larger(self.options.diversity, ZERO);
        let texts = self.squeeze_texts();
        let mut available: Vec<bool> = Vec::new();
        let mut redundancy: Vec<u64> = Vec::new();
        while available.len() < total
            invariant
                available@.len() == redundancy@.len(),
                available@.len() <= total,
                forall|i: int| 0 <= i < available@.len() ==> (#[trigger] available@[i]) == true,
                forall|i: int| 0 <= i < redundancy@.len() ==> (#[trigger] redundancy@[i]) == ZERO,
            decreases total - available@.len(),
        {
            available.push(true);
            redundancy.push(ZERO);
        }
        let mut progress = Progress {
            selected: Vec::new(),
            available,
            redundancy,
            context_bytes: 0,
            truncated,
        };
        let ghost start = unselected(self@.candidates.len(), truncated);
        proof {
            assert(self@.candidates.len() == total);
            assert(progress@.selected =~= start.selected);
            assert(progress@.available =~= start.available);
            assert(progress@.redundancy =~= start.redundancy);
        }
        while progress.selected.len() < self.options.limit
            invariant
                computes(*f),
                start == unselected(self@.candidates.len(), truncated),
                diverse == exceeds(self@.options.diversity, ZERO),
                texts@.len() == self.candidates@.len(),
                forall|i: int| 0 <= i < texts@.len() ==> (#[trigger] texts@[i])@ == squeezed(self@.candidates[i].hit.text),
                within_limits(self@, progress@),
                selecting(self@, floats(*f), progress@) == selecting(self@, floats(*f), start),
            decreases self.options.limit - progress.selected@.len(),
        {
            let ghost before = progress@;
            let best = self.scan(f, &mut progress);
            match best {
                None => return Ok(progress),
                Some(chosen) => {
                    self.choose_one(&mut progress, chosen);
                    let ghost next = progress@;
                    if diverse {
                        self.contrast(f, &texts, chosen.index, &mut progress)?;
                    }
                },
            }
        }
        Ok(progress)
    }
}

impl GraphRagSnapshot {
    /// Selects from what was retrieved, by the scores of a reranker where there are some, whole
    /// chunks within the budget of context.
    #[verifier::rlimit(40)]
    pub fn finalize<F: Fn(FloatTask) -> FloatReply>(&self, f: &F, options: &GraphRagSelection, reranked: Option<&Vec<u64>>) -> (result: Result<
        GraphRagResult,
        Error,
    >)
        requires
            computes(*f),
        ensures
            outcome(result) == finalized(
                self@,
                *options,
                match reranked {
                    None => None,
                    Some(scores) => Some(scores@),
                },
                floats(*f),
            ),
    {
        let ghost given: Option<Seq<u64>> = match reranked {
            None => None,
            Some(scores) => Some(scores@),
        };
        let count: usize = self.candidates.len();
        assert(self@.candidates.len() == count);
        if options.limit < 1 || options.limit > 100 || !is_finite(options.diversity) || !is_between(
            options.diversity,
            ZERO,
            ONE,
        ) || options.max_context_bytes < 1 || options.max_context_bytes > 1048576 || options.max_per_document < 1
            || options.max_per_document > 100 {
            return Err(invalid("invalid RAG diversity, citation budget or result limits"));
        }
        if let Some(scores) = reranked {
            if scores.len() != count || !are_finite(scores) {
                return Err(invalid("reranker must return one finite score per candidate"));
            }
        }
        if count > 100 {
            return Err(invalid("RAG snapshots may contain at most 100 candidates"));
        }
        let mut raw: Vec<u64> = Vec::new();
        while raw.len() < count
            invariant
                count == self.candidates@.len(),
                given == (match reranked {
                    None => None::<Seq<u64>>,
                    Some(scores) => Some(scores@),
                }),
                reranked matches Some(scores) ==> scores@.len() == count,
                raw@.len() <= count,
                forall|i: int| 0 <= i < raw@.len() ==> (#[trigger] raw@[i]) == raw_relevance(self@.candidates, given)[i],
            decreases count - raw@.len(),
        {
            let at: usize = raw.len();
            assert(self@.candidates[at as int] == self.candidates@[at as int]@);
            match reranked {
                Some(scores) => raw.push(scores[at]),
                None => raw.push(self.candidates[at].fusion_score),
            }
        }
        assert(raw@ =~= raw_relevance(self@.candidates, given));
        if !are_finite(&raw) {
            return Err(invalid("RAG candidate scores must be finite"));
        }
        let relevance = normalize(f, &raw);
        let selecting = Selecting { candidates: &self.candidates, relevance: &relevance, options };
        let ghost s = selecting@;
        let progress = selecting.select(f, self.truncated)?;
        let mut hits: Vec<GraphRagHit> = Vec::new();
        let mut ids: Vec<String> = Vec::new();
        while hits.len() < progress.selected.len()
            invariant
                s == selecting@,
                selecting.candidates == &self.candidates,
                within_limits(s, progress@),
                given == (match reranked {
                    None => None::<Seq<u64>>,
                    Some(scores) => Some(scores@),
                }),
                reranked matches Some(scores) ==> scores@.len() == self.candidates@.len(),
                hits@.len() <= progress.selected@.len(),
                ids@.len() == hits@.len(),
                forall|i: int|
                    0 <= i < hits@.len() ==> (#[trigger] hits@[i])@ == selected_hit(s, given, progress@.selected[i]),
                forall|i: int|
                    0 <= i < ids@.len() ==> (#[trigger] ids@[i])@
                        == s.candidates[progress@.selected[i].index as int].hit.chunk_id,
            decreases progress.selected@.len() - hits@.len(),
        {
            let at: usize = hits.len();
            let chosen: Chosen = progress.selected[at];
            assert(progress@.selected[at as int].index < s.candidates.len());
            let candidate = &self.candidates[chosen.index];
            assert(s.candidates[chosen.index as int] == candidate@);
            let rerank_score = match reranked {
                None => None,
                Some(scores) => Some(scores[chosen.index]),
            };
            ids.push(candidate.hit.chunk_id.clone());
            hits.push(
                GraphRagHit {
                    hit: copy_hit(&candidate.hit),
                    lexical_score: candidate.lexical_score,
                    fusion_score: candidate.fusion_score,
                    rerank_score,
                    selection_score: chosen.score,
                    retrieval_path: copy_path(&candidate.retrieval_path),
                },
            );
        }
        proof {
            assert(views(hits@) =~= progress@.selected.map_values(|chosen: Chosen| selected_hit(s, given, chosen)));
            assert(views(ids@) =~= selected_ids(s, progress@.selected));
        }
        let edges = keep_between(&self.edges, &ids);
        Ok(
            GraphRagResult {
                collection: self.collection.clone(),
                revision: self.revision,
                hits,
                edges,
                lexical_cache_hit: self.lexical_cache_hit,
                truncated: progress.truncated || progress.selected.len() < count,
                context_bytes: progress.context_bytes,
                candidate_count: count,
            },
        )
    }
}

fn keep_between(edges: &Vec<GraphEdge>, ids: &Vec<String>) -> (kept: Vec<GraphEdge>)
    ensures
        views(kept@) == edges_between(views(edges@), views(ids@), 0, Seq::empty()),
{
    let mut kept: Vec<GraphEdge> = Vec::new();
    assert(views(kept@) =~= Seq::<EdgeView>::empty());
    let mut at: usize = 0;
    while at < edges.len()
        invariant
            at <= edges@.len(),
            edges_between(views(edges@), views(ids@), at as nat, views(kept@)) == edges_between(
                views(edges@),
                views(ids@),
                0,
                Seq::empty(),
            ),
        decreases edges@.len() - at,
    {
        assert(views(edges@)[at as int] == edges@[at as int]@);
        if has_id(ids, edges[at].from_chunk.as_str()) && has_id(ids, edges[at].to_chunk.as_str()) {
            kept.push(edges[at].copy());
        }
        at = at + 1;
    }
    kept
}

/// Whether a selection keeps to its limits: at most so many chunks of one document, and the bytes
/// counted are those of the chunks selected.
pub open spec fn sound_selection(s: SelectingView, state: SelectState) -> bool {
    &&& within_limits(s, state)
    &&& state.context_bytes == bytes_selected(s, state.selected, state.selected.len())
    &&& forall|document: Seq<char>|
        #[trigger] of_document(s.candidates, state.selected, document, state.selected.len()) <= s.options.max_per_document
}

/// How many bytes the texts of the first `count` selected have together.
pub open spec fn bytes_selected(s: SelectingView, selected: Seq<Chosen>, count: nat) -> nat
    decreases count,
{
    if count == 0 {
        0
    } else {
        bytes_selected(s, selected, (count - 1) as nat) + byte_count(
            s.candidates[selected[count - 1].index as int].hit.text,
        )
    }
}

proof fn lemma_pushed(s: SelectingView, selected: Seq<Chosen>, chosen: Chosen, count: nat)
    requires
        count <= selected.len(),
    ensures
        bytes_selected(s, selected.push(chosen), count) == bytes_selected(s, selected, count),
        forall|document: Seq<char>|
            #[trigger] of_document(s.candidates, selected.push(chosen), document, count) == of_document(
                s.candidates,
                selected,
                document,
                count,
            ),
    decreases count,
{
    if count > 0 {
        lemma_pushed(s, selected, chosen, (count - 1) as nat);
        assert(selected.push(chosen)[count - 1] == selected[count - 1]);
        assert forall|document: Seq<char>|
            #[trigger] of_document(s.candidates, selected.push(chosen), document, count) == of_document(
                s.candidates,
                selected,
                document,
                count,
            ) by {
            assert(of_document(s.candidates, selected.push(chosen), document, (count - 1) as nat) == of_document(
                s.candidates,
                selected,
                document,
                (count - 1) as nat,
            ));
        }
    }
}

proof fn lemma_scanned(s: SelectingView, floats: Floats, from: nat, state: SelectState, best: Option<Chosen>)
    requires
        within_limits(s, state),
        best matches Some(chosen) ==> chosen.index < s.candidates.len() && has_room(s, state, chosen.index as int),
        s.candidates.len() <= usize::MAX,
    ensures
        ({
            let (after, found) = scanned(s, floats, from, state, best);
            &&& within_limits(s, after)
            &&& after.selected == state.selected
            &&& after.context_bytes == state.context_bytes
            &&& found matches Some(chosen) ==> chosen.index < s.candidates.len() && has_room(s, after, chosen.index as int)
        }),
    decreases s.candidates.len() - from,
{
    if from >= s.candidates.len() {
    } else if !state.available[from as int] {
        lemma_scanned(s, floats, from + 1, state, best);
    } else if !has_room(s, state, from as int) {
        lemma_scanned(
            s,
            floats,
            from + 1,
            SelectState { available: state.available.update(from as int, false), truncated: true, ..state },
            best,
        );
    } else {
        let score = select_score(s, state, from as int, floats);
        lemma_scanned(
            s,
            floats,
            from + 1,
            state,
            if outranks(s, from as usize, score, best) {
                Some(Chosen { index: from as usize, score })
            } else {
                best
            },
        );
    }
}

proof fn lemma_compared(s: SelectingView, floats: Floats, chosen: usize, from: nat, state: SelectState)
    requires
        within_limits(s, state),
    ensures
        compared(s, floats, chosen, from, state) matches Ok(after) ==> within_limits(s, after) && after.selected
            == state.selected && after.context_bytes == state.context_bytes,
    decreases s.candidates.len() - from,
{
    if from >= s.candidates.len() {
    } else if !state.available[from as int] {
        lemma_compared(s, floats, chosen, from + 1, state);
    } else if repeats(s.candidates[chosen as int], s.candidates[from as int], floats) {
        lemma_compared(
            s,
            floats,
            chosen,
            from + 1,
            SelectState { available: state.available.update(from as int, false), truncated: true, ..state },
        );
    } else if let Ok(alike) = likeness(s.candidates[chosen as int], s.candidates[from as int], floats) {
        lemma_compared(
            s,
            floats,
            chosen,
            from + 1,
            SelectState {
                redundancy: state.redundancy.update(from as int, maximum(state.redundancy[from as int], alike)),
                ..state
            },
        );
    }
}

proof fn lemma_chosen(s: SelectingView, state: SelectState, chosen: Chosen)
    requires
        sound_selection(s, state),
        state.selected.len() < s.options.limit,
        chosen.index < s.candidates.len(),
        has_room(s, state, chosen.index as int),
    ensures
        sound_selection(s, chosen_state(s, state, chosen)),
{
    let next = chosen_state(s, state, chosen);
    let count = state.selected.len();
    lemma_pushed(s, state.selected, chosen, count);
    assert(next.selected[count as int] == chosen);
    assert forall|document: Seq<char>|
        #[trigger] of_document(s.candidates, next.selected, document, next.selected.len()) <= s.options.max_per_document by {
        assert(of_document(s.candidates, next.selected, document, count) == of_document(
            s.candidates,
            state.selected,
            document,
            count,
        ));
        assert(of_document(s.candidates, state.selected, document, count) <= s.options.max_per_document);
    }
}

/// A selection that keeps to its limits still does once it is finished.
pub proof fn law_selection_within_limits(s: SelectingView, floats: Floats, state: SelectState)
    requires
        sound_selection(s, state),
        s.candidates.len() <= usize::MAX,
    ensures
        selecting(s, floats, state) matches Ok(after) ==> sound_selection(s, after),
    decreases s.options.limit - state.selected.len(),
{
    if state.selected.len() < s.options.limit {
        lemma_scanned(s, floats, 0, state, None);
        let (seen, best) = scanned(s, floats, 0, state, None);
        assert(sound_selection(s, seen));
        if let Some(chosen) = best {
            lemma_chosen(s, seen, chosen);
            let next = chosen_state(s, seen, chosen);
            if exceeds(s.options.diversity, ZERO) {
                lemma_compared(s, floats, chosen.index, 0, next);
                if let Ok(after) = compared(s, floats, chosen.index, 0, next) {
                    assert(sound_selection(s, after));
                    law_selection_within_limits(s, floats, after);
                }
            } else {
                law_selection_within_limits(s, floats, next);
            }
        }
    }
}

} // verus!
