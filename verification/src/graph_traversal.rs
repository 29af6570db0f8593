//! Bounded expansion from the best matches of a query along stored relationships.

use vstd::prelude::*;
use crate::arithmetic::{
    clamp_number, clamped, compute_over, compute_plus, compute_times, exceeds, is_larger, is_same_number, maximum, maximum_of,
    over, plus, same_number, times, FIFTH, FOUR_FIFTHS, HALF, ONE, ZERO,
};
use crate::error::{plain, Error, ErrorView};
use crate::float::{
    at_least, computes, floats, is_at_least, rank_total, total_key, FloatReply, FloatTask, Floats,
};
use crate::graph::{invalid, text_at, text_in, GraphEmbeddingProfile, ProfileView};
use crate::graph_edge::{edge_in, find_row, linked_rows, read_edge, row_named, EdgeView, GraphEdge};
use crate::graph_links::{
    column_rank, has_row, id_rank, rank_column, rank_ids, GraphLinks, GraphNeighborhoodDirection, GraphRagTraversal,
    PolicyView,
};
use crate::graph_near::{measure_query, query_distance, similarity, similarity_of};
use crate::graph_neighborhood::{all_below, first_of};
use crate::graph_search::missing_chunk;
use crate::order::{sort_positions, sorted, Precedes};
use crate::table::{Table, TableView};
use crate::text::{int_rank, lemma_views_push, next_rank, same_text, views, Rank};
use crate::value::{Value, ValueView};
use crate::vector::Vector;

verus! {

broadcast use {vstd::string::group_string_axioms, lemma_views_push};

/// What to retrieve. The weights are numbers as bit patterns.
#[derive(Debug)]
pub struct GraphRagRequest {
    pub collection: String,
    pub expected_profile: GraphEmbeddingProfile,
    pub query: Vector,
    pub query_text: String,
    pub candidate_limit: usize,
    pub seed_limit: usize,
    pub max_hops: usize,
    pub neighbor_limit: usize,
    pub vector_weight: u64,
    pub lexical_weight: u64,
}

pub struct RagRequestView {
    pub collection: Seq<char>,
    pub expected_profile: ProfileView,
    pub query: Seq<u32>,
    pub query_text: Seq<char>,
    pub candidate_limit: nat,
    pub seed_limit: nat,
    pub max_hops: nat,
    pub neighbor_limit: nat,
    pub vector_weight: u64,
    pub lexical_weight: u64,
}

impl View for GraphRagRequest {
    type V = RagRequestView;

    open spec fn view(&self) -> RagRequestView {
        RagRequestView {
            collection: self.collection@,
            expected_profile: self.expected_profile@,
            query: self.query@,
            query_text: self.query_text@,
            candidate_limit: self.candidate_limit as nat,
            seed_limit: self.seed_limit as nat,
            max_hops: self.max_hops as nat,
            neighbor_limit: self.neighbor_limit as nat,
            vector_weight: self.vector_weight,
            lexical_weight: self.lexical_weight,
        }
    }
}

/// How well a chunk fits, by its words and in all. The scores are numbers as bit patterns.
#[derive(Clone, Copy, Debug)]
pub struct CandidateScore {
    pub lexical: u64,
    pub fusion: u64,
}

/// A way from a seed to a chunk, by the relationships along it.
#[derive(Debug)]
pub struct GraphRagPath {
    pub seed_chunk_id: String,
    pub edges: Vec<GraphEdge>,
}

pub struct PathView {
    pub seed_chunk_id: Seq<char>,
    pub edges: Seq<EdgeView>,
}

impl View for GraphRagPath {
    type V = PathView;

    open spec fn view(&self) -> PathView {
        PathView { seed_chunk_id: self.seed_chunk_id@, edges: views(self.edges@) }
    }
}

/// A chunk, by its row, that is among the candidates.
#[derive(Debug)]
pub struct Admission {
    pub row: usize,
    pub depth: usize,
    pub score: CandidateScore,
    pub retrieval_path: Option<GraphRagPath>,
}

pub struct AdmissionView {
    pub row: usize,
    pub depth: nat,
    pub score: CandidateScore,
    pub retrieval_path: Option<PathView>,
}

pub open spec fn path_view(path: Option<GraphRagPath>) -> Option<PathView> {
    match path {
        None => None,
        Some(path) => Some(path@),
    }
}

impl View for Admission {
    type V = AdmissionView;

    open spec fn view(&self) -> AdmissionView {
        AdmissionView {
            row: self.row,
            depth: self.depth as nat,
            score: self.score,
            retrieval_path: path_view(self.retrieval_path),
        }
    }
}

/// A chunk that relationships lead to, with the strength of the way and the way itself, as rows.
#[derive(Debug)]
pub struct Evidence {
    pub row: usize,
    pub score: CandidateScore,
    pub strength: u64,
    pub seed: usize,
    pub trace: Vec<usize>,
}

pub struct EvidenceView {
    pub row: usize,
    pub score: CandidateScore,
    pub strength: u64,
    pub seed: usize,
    pub trace: Seq<usize>,
}

impl View for Evidence {
    type V = EvidenceView;

    open spec fn view(&self) -> EvidenceView {
        EvidenceView {
            row: self.row,
            score: self.score,
            strength: self.strength,
            seed: self.seed,
            trace: self.trace@,
        }
    }
}

impl Evidence {
    fn copy(&self) -> (copy: Evidence)
        ensures
            copy@ == self@,
    {
        let trace = self.trace.clone();
        assert(trace@ =~= self.trace@);
        Evidence { row: self.row, score: self.score, strength: self.strength, seed: self.seed, trace }
    }
}

/// What an expansion reads.
pub struct GraphTraversal<'a> {
    pub links: GraphLinks<'a>,
    pub request: &'a GraphRagRequest,
    pub policy: &'a GraphRagTraversal,
    pub scores: &'a Vec<Option<CandidateScore>>,
    pub lexical_scores: &'a Vec<u64>,
    pub similarities: &'a Vec<Option<u64>>,
    pub eligible: Option<&'a Vec<bool>>,
    pub max_seeds_per_document: Option<usize>,
}

pub struct TraversalView {
    pub chunks: TableView,
    pub edges: TableView,
    pub request: RagRequestView,
    pub policy: PolicyView,
    pub scores: Seq<Option<CandidateScore>>,
    pub lexical_scores: Seq<u64>,
    pub similarities: Seq<Option<u64>>,
    pub eligible: Option<Seq<bool>>,
    pub max_seeds_per_document: Option<nat>,
}

impl<'a> View for GraphTraversal<'a> {
    type V = TraversalView;

    open spec fn view(&self) -> TraversalView {
        TraversalView {
            chunks: self.links.chunks@,
            edges: self.links.edges@,
            request: self.request@,
            policy: self.policy@,
            scores: self.scores@,
            lexical_scores: self.lexical_scores@,
            similarities: self.similarities@,
            eligible: match self.eligible {
                None => None,
                Some(rows) => Some(rows@),
            },
            max_seeds_per_document: match self.max_seeds_per_document {
                None => None,
                Some(most) => Some(most as nat),
            },
        }
    }
}

impl TraversalView {
    pub open spec fn valid(self) -> bool {
        &&& self.scores.len() == self.chunks.rows.len()
        &&& self.lexical_scores.len() == self.chunks.rows.len()
        &&& self.similarities.len() == self.chunks.rows.len()
        &&& (self.eligible matches Some(rows) ==> rows.len() == self.chunks.rows.len())
    }

    /// Whether every row has a score.
    pub open spec fn scored(self, ranked: Seq<usize>) -> bool {
        &&& all_below(ranked, self.chunks.rows.len())
        &&& forall|i: int| 0 <= i < ranked.len() ==> self.scores[#[trigger] ranked[i] as int] is Some
    }

    pub open spec fn score(self, row: usize) -> CandidateScore {
        self.scores[row as int]->Some_0
    }

    /// The score of a row before any relationship leads to it.
    pub open spec fn original(self, row: usize) -> CandidateScore {
        match self.scores[row as int] {
            Some(score) => score,
            None => CandidateScore { lexical: self.lexical_scores[row as int], fusion: ZERO },
        }
    }
}

/// How many of the first `count` seeds cite a document.
pub open spec fn seeds_of(t: TraversalView, seeds: Seq<usize>, document: Seq<char>, count: nat) -> nat
    decreases count,
{
    if count == 0 {
        0
    } else {
        let before = seeds_of(t, seeds, document, (count - 1) as nat);
        if text_in(t.chunks.rows[seeds[count - 1] as int], 1) == Ok::<Seq<char>, ErrorView>(document) {
            before + 1
        } else {
            before
        }
    }
}

/// The seeds after those of the ranked rows from `from` on, at most `most` of one document.
pub open spec fn seeds_spread(t: TraversalView, ranked: Seq<usize>, most: nat, from: nat, done: Seq<usize>) -> Result<
    Seq<usize>,
    ErrorView,
>
    decreases ranked.len() - from,
{
    if from >= ranked.len() {
        Ok(done)
    } else {
        match text_in(t.chunks.rows[ranked[from as int] as int], 1) {
            Err(error) => Err(error),
            Ok(document) => if seeds_of(t, done, document, done.len()) >= most {
                seeds_spread(t, ranked, most, from + 1, done)
            } else if done.len() + 1 == t.request.seed_limit {
                Ok(done.push(ranked[from as int]))
            } else {
                seeds_spread(t, ranked, most, from + 1, done.push(ranked[from as int]))
            },
        }
    }
}

/// The rows that expansion starts from.
pub open spec fn seeds_selected(t: TraversalView, ranked: Seq<usize>) -> Result<Seq<usize>, ErrorView> {
    match t.max_seeds_per_document {
        Some(most) => if t.request.max_hops > 0 {
            seeds_spread(t, ranked, most, 0, Seq::empty())
        } else {
            Ok(first_of(ranked, t.request.seed_limit))
        },
        None => Ok(first_of(ranked, t.request.seed_limit)),
    }
}

/// How many places direct matches have: all where nothing is expanded, else three in four, and
/// never fewer than there are seeds.
pub open spec fn direct_places(request: RagRequestView, seeds: nat) -> nat {
    if request.max_hops == 0 {
        request.candidate_limit
    } else {
        let quarter = request.candidate_limit / 4;
        let reserved = if quarter < 1 {
            1
        } else {
            quarter
        };
        let open = if request.candidate_limit < reserved {
            0
        } else {
            (request.candidate_limit - reserved) as nat
        };
        if seeds > open {
            seeds
        } else {
            open
        }
    }
}

/// The rows with the ranked ones from `from` on until there are `limit`.
pub open spec fn filled(ranked: Seq<usize>, limit: nat, from: nat, done: Seq<usize>) -> Seq<usize>
    decreases ranked.len() - from,
{
    if from >= ranked.len() || done.len() == limit {
        done
    } else if done.contains(ranked[from as int]) {
        filled(ranked, limit, from + 1, done)
    } else {
        filled(ranked, limit, from + 1, done.push(ranked[from as int]))
    }
}

/// A direct match.
pub open spec fn direct_admission(t: TraversalView, row: usize) -> AdmissionView {
    AdmissionView { row, depth: 0, score: t.score(row), retrieval_path: None }
}

pub open spec fn direct_admissions(t: TraversalView, rows: Seq<usize>) -> Seq<AdmissionView> {
    rows.map_values(|row: usize| direct_admission(t, row))
}

/// A seed, as the way of no steps to itself.
pub open spec fn seed_evidence(t: TraversalView, row: usize) -> EvidenceView {
    EvidenceView { row, score: t.score(row), strength: t.score(row).fusion, seed: row, trace: Seq::empty() }
}

pub open spec fn seed_frontier(t: TraversalView, rows: Seq<usize>) -> Seq<EvidenceView> {
    rows.map_values(|row: usize| seed_evidence(t, row))
}

/// The strongest way to each row, after the evidence from `from` on.
pub open spec fn strengths(list: Seq<EvidenceView>, from: nat, best: Seq<u64>) -> Seq<u64>
    decreases list.len() - from,
{
    if from >= list.len() {
        best
    } else {
        strengths(list, from + 1, best.update(list[from as int].row as int, list[from as int].strength))
    }
}

/// The largest of the scores from `from` on and `largest`.
pub open spec fn largest_score(scores: Seq<u64>, from: nat, largest: u64) -> u64
    decreases scores.len() - from,
{
    if from >= scores.len() {
        largest
    } else {
        largest_score(scores, from + 1, maximum(largest, scores[from as int]))
    }
}

/// The order of relationships, as rows, by their ends and kind.
pub open spec fn edge_order(left: Seq<ValueView>, right: Seq<ValueView>, floats: Floats) -> Rank {
    next_rank(
        column_rank(left, right, 1, floats),
        next_rank(column_rank(left, right, 2, floats), column_rank(left, right, 3, floats)),
    )
}

fn rank_edges<F: Fn(FloatTask) -> FloatReply>(f: &F, left: &Vec<Value>, right: &Vec<Value>) -> (rank: Rank)
    requires
        computes(*f),
    ensures
        rank == edge_order(views(left@), views(right@), floats(*f)),
{
    match rank_column(f, left, right, 1) {
        Rank::Same => match rank_column(f, left, right, 2) {
            Rank::Same => rank_column(f, left, right, 3),
            rank => rank,
        },
        rank => rank,
    }
}

/// A chunk that a relationship leads to, both as rows.
#[derive(Clone, Copy, Debug)]
pub struct Target {
    pub row: usize,
    pub weight: u64,
    pub edge: usize,
}

/// The first place, from `from` on, of a row.
pub open spec fn target_at(targets: Seq<Target>, row: usize, from: nat) -> Option<nat>
    decreases targets.len() - from,
{
    if from >= targets.len() {
        None
    } else if targets[from as int].row == row {
        Some(from)
    } else {
        target_at(targets, row, from + 1)
    }
}

/// The targets with one more: of two relationships to one chunk the heavier stays, of two as heavy
/// the first in order.
pub open spec fn targeted(edges: Seq<Seq<ValueView>>, targets: Seq<Target>, added: Target, floats: Floats) -> Seq<Target> {
    match target_at(targets, added.row, 0) {
        None => targets.push(added),
        Some(at) => {
            let old = targets[at as int];
            if exceeds(added.weight, old.weight) || (same_number(added.weight, old.weight) && edge_order(
                edges[added.edge as int],
                edges[old.edge as int],
                floats,
            ) == Rank::Before) {
                targets.update(at as int, added)
            } else {
                targets
            }
        },
    }
}

/// The targets of the relationships at the positions from `from` on, after `done`.
pub open spec fn targets_from(
    t: TraversalView,
    floats: Floats,
    positions: Seq<usize>,
    endpoint: nat,
    from: nat,
    done: Seq<Target>,
) -> Result<Seq<Target>, ErrorView>
    decreases positions.len() - from,
{
    if from >= positions.len() {
        Ok(done)
    } else {
        let row = t.edges.rows[positions[from as int] as int];
        match edge_in(row) {
            Err(error) => Err(error),
            Ok(edge) => if !t.policy.includes(edge) || same_number(edge.weight, ZERO) {
                targets_from(t, floats, positions, endpoint, from + 1, done)
            } else {
                match text_in(row, endpoint) {
                    Err(error) => Err(error),
                    Ok(id) => match row_named(t.chunks.rows, id, 0) {
                        None => Err(missing_chunk()),
                        Some(target) => if t.eligible matches Some(rows) && !rows[target as int] {
                            targets_from(t, floats, positions, endpoint, from + 1, done)
                        } else {
                            targets_from(
                                t,
                                floats,
                                positions,
                                endpoint,
                                from + 1,
                                targeted(
                                    t.edges.rows,
                                    done,
                                    Target { row: target as usize, weight: edge.weight, edge: positions[from as int] },
                                    floats,
                                ),
                            )
                        },
                    },
                }
            },
        }
    }
}

/// The targets around a chunk.
pub open spec fn targets_around(t: TraversalView, floats: Floats, id: Seq<char>) -> Result<Seq<Target>, ErrorView> {
    let leaving = linked_rows(t.edges, 1, id);
    let arriving = linked_rows(t.edges, 2, id);
    match t.policy.direction {
        GraphNeighborhoodDirection::Outgoing => targets_from(t, floats, leaving, 2, 0, Seq::empty()),
        GraphNeighborhoodDirection::Incoming => targets_from(t, floats, arriving, 1, 0, Seq::empty()),
        GraphNeighborhoodDirection::Both => match targets_from(t, floats, leaving, 2, 0, Seq::empty()) {
            Err(error) => Err(error),
            Ok(done) => targets_from(t, floats, arriving, 1, 0, done),
        },
    }
}

/// How well the vector of a row fits the query, from 0 to 1.
pub open spec fn vector_fit(t: TraversalView, floats: Floats, row: usize) -> Result<u64, ErrorView> {
    if !exceeds(t.request.vector_weight, ZERO) {
        Ok(ZERO)
    } else {
        match t.similarities[row as int] {
            Some(similarity) => Ok(maximum(similarity, ZERO)),
            None => match query_distance(t.chunks.rows[row as int], t.request.query, floats) {
                Err(error) => Err(error),
                Ok(distance) => Ok(maximum(similarity(distance, floats), ZERO)),
            },
        }
    }
}

/// How well the words of a row fit the query, from 0 to 1.
pub open spec fn lexical_fit(t: TraversalView, floats: Floats, largest: u64, row: usize) -> u64 {
    if exceeds(t.request.lexical_weight, ZERO) && exceeds(largest, ZERO) {
        clamped(over(floats, t.lexical_scores[row as int], largest), ZERO, ONE)
    } else {
        ZERO
    }
}

/// The strength of the way to a target.
pub open spec fn way_strength(t: TraversalView, floats: Floats, source: EvidenceView, target: Target) -> u64 {
    maximum(times(floats, times(floats, source.strength, HALF), target.weight), t.original(target.row).fusion)
}

/// The evidence for a target, of this strength and this fit.
pub open spec fn way_evidence(t: TraversalView, floats: Floats, source: EvidenceView, target: Target, fit: u64) -> EvidenceView {
    let strength = way_strength(t, floats, source, target);
    let original = t.original(target.row);
    EvidenceView {
        row: target.row,
        score: CandidateScore {
            lexical: original.lexical,
            fusion: maximum(
                original.fusion,
                times(floats, strength, plus(floats, FIFTH, times(floats, FOUR_FIFTHS, fit))),
            ),
        },
        strength,
        seed: source.seed,
        trace: source.trace.push(target.edge),
    }
}

/// The evidence for the targets from `from` on that is stronger than what there was, after `done`.
pub open spec fn assessed(
    t: TraversalView,
    floats: Floats,
    largest: u64,
    best: Seq<u64>,
    source: EvidenceView,
    targets: Seq<Target>,
    from: nat,
    done: Seq<EvidenceView>,
) -> Result<Seq<EvidenceView>, ErrorView>
    decreases targets.len() - from,
{
    if from >= targets.len() {
        Ok(done)
    } else {
        let target = targets[from as int];
        if at_least(best[target.row as int], way_strength(t, floats, source, target)) {
            assessed(t, floats, largest, best, source, targets, from + 1, done)
        } else {
            match vector_fit(t, floats, target.row) {
                Err(error) => Err(error),
                Ok(fit) => assessed(
                    t,
                    floats,
                    largest,
                    best,
                    source,
                    targets,
                    from + 1,
                    done.push(
                        way_evidence(t, floats, source, target, maximum(fit, lexical_fit(t, floats, largest, target.row))),
                    ),
                ),
            }
        }
    }
}

/// The order of evidence: the better score first, then the stronger way, then by identifier.
pub open spec fn evidence_rank(rows: Seq<Seq<ValueView>>, left: EvidenceView, right: EvidenceView, floats: Floats) -> Rank {
    next_rank(
        int_rank(total_key(right.score.fusion), total_key(left.score.fusion)),
        next_rank(
            int_rank(total_key(right.strength), total_key(left.strength)),
            id_rank(rows, left.row, right.row, floats),
        ),
    )
}

pub open spec fn evidence_order(rows: Seq<Seq<ValueView>>, list: Seq<EvidenceView>, floats: Floats) -> Precedes {
    |a: usize, b: usize| evidence_rank(rows, list[a as int], list[b as int], floats) == Rank::Before
}

/// The best `limit` of the evidence, best first.
pub open spec fn top(rows: Seq<Seq<ValueView>>, list: Seq<EvidenceView>, limit: nat, floats: Floats) -> Seq<EvidenceView> {
    first_of(
        sorted(list.len() as usize, evidence_order(rows, list, floats)).map_values(|at: usize| list[at as int]),
        limit,
    )
}

/// The order of two ways by their relationships from `from` on.
pub open spec fn trace_rank(t: TraversalView, floats: Floats, left: Seq<usize>, right: Seq<usize>, from: nat) -> Rank
    decreases left.len() - from,
{
    if from >= left.len() || from >= right.len() {
        Rank::Same
    } else {
        match edge_order(t.edges.rows[left[from as int] as int], t.edges.rows[right[from as int] as int], floats) {
            Rank::Same => trace_rank(t, floats, left, right, from + 1),
            rank => rank,
        }
    }
}

/// Whether evidence takes the place of earlier evidence for the same row: it is stronger, or as
/// strong and shorter, or its seed or its relationships come first.
pub open spec fn preferred(t: TraversalView, floats: Floats, next: EvidenceView, previous: EvidenceView) -> bool {
    next_rank(
        int_rank(total_key(next.strength), total_key(previous.strength)),
        next_rank(
            int_rank(previous.trace.len() as int, next.trace.len() as int),
            next_rank(
                id_rank(t.chunks.rows, previous.seed, next.seed, floats),
                trace_rank(t, floats, previous.trace, next.trace, 0),
            ),
        ),
    ) == Rank::After
}

/// The first place, from `from` on, of evidence for a row.
pub open spec fn evidence_at(list: Seq<EvidenceView>, row: usize, from: nat) -> Option<nat>
    decreases list.len() - from,
{
    if from >= list.len() {
        None
    } else if list[from as int].row == row {
        Some(from)
    } else {
        evidence_at(list, row, from + 1)
    }
}

/// The evidence with one more, of which one stays for each row.
pub open spec fn merged(t: TraversalView, floats: Floats, list: Seq<EvidenceView>, added: EvidenceView) -> Seq<EvidenceView> {
    match evidence_at(list, added.row, 0) {
        None => list.push(added),
        Some(at) => if preferred(t, floats, added, list[at as int]) {
            list.update(at as int, added)
        } else {
            list
        },
    }
}

pub open spec fn all_merged(t: TraversalView, floats: Floats, list: Seq<EvidenceView>, added: Seq<EvidenceView>, from: nat) -> Seq<
    EvidenceView,
>
    decreases added.len() - from,
{
    if from >= added.len() {
        list
    } else {
        all_merged(t, floats, merged(t, floats, list, added[from as int]), added, from + 1)
    }
}

/// What the frontier from `from` on leads to, after `done`.
pub open spec fn proposed(
    t: TraversalView,
    floats: Floats,
    largest: u64,
    best: Seq<u64>,
    frontier: Seq<EvidenceView>,
    from: nat,
    done: Seq<EvidenceView>,
    truncated: bool,
) -> Result<(Seq<EvidenceView>, bool), ErrorView>
    decreases frontier.len() - from,
{
    if from >= frontier.len() {
        Ok((done, truncated))
    } else {
        let source = frontier[from as int];
        match text_in(t.chunks.rows[source.row as int], 0) {
            Err(error) => Err(error),
            Ok(id) => match targets_around(t, floats, id) {
                Err(error) => Err(error),
                Ok(targets) => match assessed(t, floats, largest, best, source, targets, 0, Seq::empty()) {
                    Err(error) => Err(error),
                    Ok(found) => proposed(
                        t,
                        floats,
                        largest,
                        best,
                        frontier,
                        from + 1,
                        all_merged(t, floats, done, top(t.chunks.rows, found, t.request.neighbor_limit, floats), 0),
                        truncated || found.len() > t.request.neighbor_limit,
                    ),
                },
            },
        }
    }
}

/// How far an expansion has come.
pub struct ExpansionView {
    pub admitted: Seq<AdmissionView>,
    pub context: Seq<EvidenceView>,
    pub best: Seq<u64>,
    pub truncated: bool,
}

/// The first place, from `from` on, of a row among those admitted.
pub open spec fn admission_at(admitted: Seq<AdmissionView>, row: usize, from: nat) -> Option<nat>
    decreases admitted.len() - from,
{
    if from >= admitted.len() {
        None
    } else if admitted[from as int].row == row {
        Some(from)
    } else {
        admission_at(admitted, row, from + 1)
    }
}

/// An admission with a score that is at least this one.
pub open spec fn lifted(admission: AdmissionView, fusion: u64) -> AdmissionView {
    AdmissionView {
        score: CandidateScore { fusion: maximum(admission.score.fusion, fusion), ..admission.score },
        ..admission
    }
}

/// The expansion after the evidence from `from` on: it lifts the scores of direct matches, and is
/// context where there is none.
pub open spec fn accepted(t: TraversalView, floats: Floats, next: Seq<EvidenceView>, from: nat, state: ExpansionView) -> ExpansionView
    decreases next.len() - from,
{
    if from >= next.len() {
        state
    } else {
        let item = next[from as int];
        let best = state.best.update(item.row as int, item.strength);
        match admission_at(state.admitted, item.row, 0) {
            Some(at) => accepted(
                t,
                floats,
                next,
                from + 1,
                ExpansionView {
                    admitted: state.admitted.update(at as int, lifted(state.admitted[at as int], item.score.fusion)),
                    best,
                    ..state
                },
            ),
            None => accepted(
                t,
                floats,
                next,
                from + 1,
                ExpansionView { context: merged(t, floats, state.context, item), best, ..state },
            ),
        }
    }
}

/// The expansion after `hops` more steps from the frontier.
pub open spec fn hopped(t: TraversalView, floats: Floats, largest: u64, hops: nat, frontier: Seq<EvidenceView>, state: ExpansionView) -> Result<
    ExpansionView,
    ErrorView,
>
    decreases hops,
{
    if hops == 0 {
        Ok(state)
    } else {
        match proposed(t, floats, largest, state.best, frontier, 0, Seq::empty(), state.truncated) {
            Err(error) => Err(error),
            Ok((proposals, more)) => {
                let next = top(t.chunks.rows, proposals, t.request.candidate_limit, floats);
                let after = accepted(
                    t,
                    floats,
                    next,
                    0,
                    ExpansionView { truncated: more || proposals.len() > t.request.candidate_limit, ..state },
                );
                if next.len() == 0 {
                    Ok(after)
                } else {
                    hopped(t, floats, largest, (hops - 1) as nat, next, after)
                }
            },
        }
    }
}

/// The relationships of a way from `from` on, after `done`.
pub open spec fn path_edges(t: TraversalView, trace: Seq<usize>, from: nat, done: Seq<EdgeView>) -> Result<Seq<EdgeView>, ErrorView>
    decreases trace.len() - from,
{
    if from >= trace.len() {
        Ok(done)
    } else {
        match edge_in(t.edges.rows[trace[from as int] as int]) {
            Err(error) => Err(error),
            Ok(edge) => path_edges(t, trace, from + 1, done.push(edge)),
        }
    }
}

/// The admissions with the context from `from` on.
pub open spec fn with_context(t: TraversalView, context: Seq<EvidenceView>, from: nat, admitted: Seq<AdmissionView>) -> Result<
    Seq<AdmissionView>,
    ErrorView,
>
    decreases context.len() - from,
{
    if from >= context.len() {
        Ok(admitted)
    } else {
        let item = context[from as int];
        match text_in(t.chunks.rows[item.seed as int], 0) {
            Err(error) => Err(error),
            Ok(seed_chunk_id) => match path_edges(t, item.trace, 0, Seq::empty()) {
                Err(error) => Err(error),
                Ok(edges) => with_context(
                    t,
                    context,
                    from + 1,
                    admitted.push(
                        AdmissionView {
                            row: item.row,
                            depth: item.trace.len(),
                            score: item.score,
                            retrieval_path: Some(PathView { seed_chunk_id, edges }),
                        },
                    ),
                ),
            },
        }
    }
}

/// The admissions with the ranked rows from `from` on while there is room.
pub open spec fn with_ranked(t: TraversalView, ranked: Seq<usize>, from: nat, admitted: Seq<AdmissionView>, truncated: bool) -> (
    Seq<AdmissionView>,
    bool,
)
    decreases ranked.len() - from,
{
    if from >= ranked.len() {
        (admitted, truncated)
    } else if admission_at(admitted, ranked[from as int], 0) is Some {
        with_ranked(t, ranked, from + 1, admitted, truncated)
    } else if admitted.len() == t.request.candidate_limit {
        (admitted, true)
    } else {
        with_ranked(t, ranked, from + 1, admitted.push(direct_admission(t, ranked[from as int])), truncated)
    }
}

/// The expansion before its first step.
pub open spec fn expansion_start(t: TraversalView, seeds: Seq<usize>, ranked: Seq<usize>) -> ExpansionView {
    ExpansionView {
        admitted: direct_admissions(t, filled(ranked, direct_places(t.request, seeds.len()), 0, seeds)),
        context: Seq::empty(),
        best: strengths(seed_frontier(t, seeds), 0, Seq::new(t.chunks.rows.len(), |i: int| ZERO)),
        truncated: false,
    }
}

/// The candidates of an expansion from the ranked rows, and whether some were left out.
pub open spec fn expanded_from(t: TraversalView, floats: Floats, ranked: Seq<usize>) -> Result<
    (Seq<AdmissionView>, bool),
    ErrorView,
> {
    match seeds_selected(t, ranked) {
        Err(error) => Err(error),
        Ok(seeds) => match hopped(
            t,
            floats,
            largest_score(t.lexical_scores, 0, ZERO),
            t.request.max_hops,
            seed_frontier(t, seeds),
            expansion_start(t, seeds, ranked),
        ) {
            Err(error) => Err(error),
            Ok(state) => {
                let remaining = if t.request.candidate_limit < state.admitted.len() {
                    0
                } else {
                    (t.request.candidate_limit - state.admitted.len()) as nat
                };
                match with_context(t, top(t.chunks.rows, state.context, remaining, floats), 0, state.admitted) {
                    Err(error) => Err(error),
                    Ok(admitted) => Ok(
                        with_ranked(t, ranked, 0, admitted, state.truncated || state.context.len() > remaining),
                    ),
                }
            },
        },
    }
}

/// Whether the rows that evidence names are there.
pub open spec fn evidence_within(item: EvidenceView, t: TraversalView) -> bool {
    &&& item.row < t.chunks.rows.len()
    &&& item.seed < t.chunks.rows.len()
    &&& all_below(item.trace, t.edges.rows.len())
}

pub open spec fn all_within(list: Seq<EvidenceView>, t: TraversalView) -> bool {
    forall|i: int| 0 <= i < list.len() ==> evidence_within(#[trigger] list[i], t)
}

pub open spec fn targets_within(list: Seq<Target>, t: TraversalView) -> bool {
    forall|i: int|
        0 <= i < list.len() ==> (#[trigger] list[i]).row < t.chunks.rows.len() && list[i].edge < t.edges.rows.len()
}

/// Whether every admitted row is there.
pub open spec fn admitted_within(list: Seq<AdmissionView>, t: TraversalView) -> bool {
    forall|i: int| 0 <= i < list.len() ==> (#[trigger] list[i]).row < t.chunks.rows.len()
}

fn place_target<F: Fn(FloatTask) -> FloatReply>(
    f: &F,
    edges: &Table,
    targets: &mut Vec<Target>,
    added: Target,
    Ghost(t): Ghost<TraversalView>,
)
    requires
        computes(*f),
        t.edges == edges@,
        targets_within(old(targets)@, t),
        added.row < t.chunks.rows.len(),
        added.edge < t.edges.rows.len(),
    ensures
        final(targets)@ == targeted(t.edges.rows, old(targets)@, added, floats(*f)),
        targets_within(final(targets)@, t),
{
    let mut at: usize = 0;
    while at < targets.len()
        invariant
            computes(*f),
            t.edges == edges@,
            targets@ == old(targets)@,
            targets_within(targets@, t),
            added.row < t.chunks.rows.len(),
            added.edge < t.edges.rows.len(),
            at <= targets@.len(),
            target_at(targets@, added.row, at as nat) == target_at(targets@, added.row, 0),
        decreases targets@.len() - at,
    {
        if targets[at].row == added.row {
            let old_edge: usize = targets[at].edge;
            let old_weight: u64 = targets[at].weight;
            proof {
                assert(targets@[at as int].edge < t.edges.rows.len());
                assert(edges@.rows[added.edge as int] == views(edges.rows@[added.edge as int]@));
                assert(edges@.rows[old_edge as int] == views(edges.rows@[old_edge as int]@));
            }
            let first = match rank_edges(f, &edges.rows[added.edge], &edges.rows[old_edge]) {
                Rank::Before => true,
                _ => false,
            };
            if is_larger(added.weight, old_weight) || (is_same_number(added.weight, old_weight) && first) {
                targets.set(at, added);
            }
            return;
        }
        at = at + 1;
    }
    targets.push(added);
}

fn rank_traces<F: Fn(FloatTask) -> FloatReply>(f: &F, edges: &Table, left: &Vec<usize>, right: &Vec<usize>, Ghost(t): Ghost<TraversalView>) -> (rank:
    Rank)
    requires
        computes(*f),
        t.edges == edges@,
        all_below(left@, t.edges.rows.len()),
        all_below(right@, t.edges.rows.len()),
    ensures
        rank == trace_rank(t, floats(*f), left@, right@, 0),
{
    let mut at: usize = 0;
    while at < left.len() && at < right.len()
        invariant
            computes(*f),
            t.edges == edges@,
            all_below(left@, t.edges.rows.len()),
            all_below(right@, t.edges.rows.len()),
            at <= left@.len(),
            at <= right@.len(),
            trace_rank(t, floats(*f), left@, right@, at as nat) == trace_rank(t, floats(*f), left@, right@, 0),
        decreases left@.len() - at,
    {
        proof {
            assert(left@[at as int] < t.edges.rows.len() && right@[at as int] < t.edges.rows.len());
            assert(edges@.rows[left@[at as int] as int] == views(edges.rows@[left@[at as int] as int]@));
            assert(edges@.rows[right@[at as int] as int] == views(edges.rows@[right@[at as int] as int]@));
        }
        match rank_edges(f, &edges.rows[left[at]], &edges.rows[right[at]]) {
            Rank::Same => {
                at = at + 1;
            },
            rank => return rank,
        }
    }
    Rank::Same
}

fn rank_counts(left: usize, right: usize) -> (rank: Rank)
    ensures
        rank == int_rank(left as int, right as int),
{
    if left < right {
        Rank::Before
    } else if left == right {
        Rank::Same
    } else {
        Rank::After
    }
}

fn is_preferred<F: Fn(FloatTask) -> FloatReply>(f: &F, links: &GraphLinks, next: &Evidence, previous: &Evidence, Ghost(t): Ghost<
    TraversalView,
>) -> (result: bool)
    requires
        computes(*f),
        t.chunks == links.chunks@,
        t.edges == links.edges@,
        evidence_within(next@, t),
        evidence_within(previous@, t),
    ensures
        result == preferred(t, floats(*f), next@, previous@),
{
    let rank = match rank_total(next.strength, previous.strength) {
        Rank::Same => match rank_counts(previous.trace.len(), next.trace.len()) {
            Rank::Same => match rank_ids(f, &links.chunks.rows, previous.seed, next.seed) {
                Rank::Same => rank_traces(f, links.edges, &previous.trace, &next.trace, Ghost(t)),
                rank => rank,
            },
            rank => rank,
        },
        rank => rank,
    };
    match rank {
        Rank::After => true,
        _ => false,
    }
}

fn merge<F: Fn(FloatTask) -> FloatReply>(f: &F, links: &GraphLinks, list: &mut Vec<Evidence>, added: Evidence, Ghost(t): Ghost<
    TraversalView,
>)
    requires
        computes(*f),
        t.chunks == links.chunks@,
        t.edges == links.edges@,
        all_within(views(old(list)@), t),
        evidence_within(added@, t),
    ensures
        views(final(list)@) == merged(t, floats(*f), views(old(list)@), added@),
        all_within(views(final(list)@), t),
{
    let ghost start = views(list@);
    let mut at: usize = 0;
    while at < list.len()
        invariant
            computes(*f),
            t.chunks == links.chunks@,
            t.edges == links.edges@,
            list@ == old(list)@,
            start == views(old(list)@),
            all_within(start, t),
            evidence_within(added@, t),
            at <= list@.len(),
            evidence_at(start, added@.row, at as nat) == evidence_at(start, added@.row, 0),
        decreases list@.len() - at,
    {
        assert(start[at as int] == list@[at as int]@);
        if list[at].row == added.row {
            if is_preferred(f, links, &added, &list[at], Ghost(t)) {
                list.set(at, added);
                assert(views(list@) =~= start.update(at as int, added@));
            }
            return;
        }
        at = at + 1;
    }
    list.push(added);
}

fn top_evidence<F: Fn(FloatTask) -> FloatReply>(f: &F, chunks: &Table, list: &Vec<Evidence>, limit: usize, Ghost(t): Ghost<
    TraversalView,
>) -> (result: Vec<Evidence>)
    requires
        computes(*f),
        t.chunks == chunks@,
        all_within(views(list@), t),
    ensures
        views(result@) == top(t.chunks.rows, views(list@), limit as nat, floats(*f)),
        all_within(views(result@), t),
{
    let ghost results = floats(*f);
    let ghost all = views(list@);
    let ghost before = evidence_order(t.chunks.rows, all, results);
    assert forall|i: int| 0 <= i < list@.len() implies (#[trigger] list@[i]).row < chunks.rows@.len() by {
        assert(evidence_within(views(list@)[i], t));
    }
    let precedes = |a: usize, b: usize| -> (result: bool)
        requires
            a < list@.len(),
            b < list@.len(),
        ensures
            result == before(a, b),
        {
            assert(views(list@)[a as int] == list@[a as int]@);
            assert(views(list@)[b as int] == list@[b as int]@);
            let left = &list[a];
            let right = &list[b];
            match rank_total(right.score.fusion, left.score.fusion) {
                Rank::Before => true,
                Rank::After => false,
                Rank::Same => match rank_total(right.strength, left.strength) {
                    Rank::Before => true,
                    Rank::After => false,
                    Rank::Same => match rank_ids(f, &chunks.rows, left.row, right.row) {
                        Rank::Before => true,
                        _ => false,
                    },
                },
            }
        };
    let order = sort_positions(list.len(), &precedes, Ghost(before));
    let total: usize = if limit < order.len() {
        limit
    } else {
        order.len()
    };
    let mut result: Vec<Evidence> = Vec::new();
    while result.len() < total
        invariant
            total <= order@.len(),
            all == views(list@),
            result@.len() <= total,
            all_within(all, t),
            forall|i: int| 0 <= i < order@.len() ==> (#[trigger] order@[i]) < list@.len(),
            forall|i: int| 0 <= i < result@.len() ==> (#[trigger] result@[i])@ == all[order@[i] as int],
        decreases total - result@.len(),
    {
        let at: usize = result.len();
        assert(all[order@[at as int] as int] == list@[order@[at as int] as int]@);
        result.push(list[order[at]].copy());
    }
    proof {
        let found = views(result@);
        assert(found =~= top(t.chunks.rows, all, limit as nat, results));
        assert forall|i: int| 0 <= i < found.len() implies evidence_within(#[trigger] found[i], t) by {
            assert(found[i] == result@[i]@);
            assert(evidence_within(all[order@[i] as int], t));
        }
    }
    result
}

fn find_admission(admitted: &Vec<Admission>, row: usize) -> (result: Option<usize>)
    ensures
        match result {
            Some(at) => admission_at(views(admitted@), row, 0) == Some(at as nat) && at < admitted@.len(),
            None => admission_at(views(admitted@), row, 0) is None,
        },
{
    let mut at: usize = 0;
    while at < admitted.len()
        invariant
            at <= admitted@.len(),
            admission_at(views(admitted@), row, at as nat) == admission_at(views(admitted@), row, 0),
        decreases admitted@.len() - at,
    {
        assert(views(admitted@)[at as int] == admitted@[at as int]@);
        if admitted[at].row == row {
            return Some(at);
        }
        at = at + 1;
    }
    None
}

/// Lifts the score of an admission.
fn lift(admitted: &mut Vec<Admission>, at: usize, fusion: u64)
    requires
        at < old(admitted)@.len(),
    ensures
        views(final(admitted)@) == views(old(admitted)@).update(
            at as int,
            lifted(views(old(admitted)@)[at as int], fusion),
        ),
{
    let ghost start = views(admitted@);
    assert(start[at as int] == admitted@[at as int]@);
    let score = admitted[at].score;
    admitted[at].score = CandidateScore { lexical: score.lexical, fusion: maximum_of(score.fusion, fusion) };
    assert(views(admitted@) =~= start.update(at as int, lifted(start[at as int], fusion)));
}

impl<'a> GraphTraversal<'a> {
    pub open spec fn wf(self) -> bool {
        self.links.wf() && self@.valid()
    }

    fn count_seeds(&self, seeds: &Vec<usize>, document: &str) -> (count: usize)
        requires
            self.wf(),
            all_below(seeds@, self@.chunks.rows.len()),
        ensures
            count == seeds_of(self@, seeds@, document@, seeds@.len()),
    {
        let mut count: usize = 0;
        let mut at: usize = 0;
        while at < seeds.len()
            invariant
                self.wf(),
                all_below(seeds@, self@.chunks.rows.len()),
                at <= seeds@.len(),
                count <= at,
                count == seeds_of(self@, seeds@, document@, at as nat),
            decreases seeds@.len() - at,
        {
            assert(seeds@[at as int] < self@.chunks.rows.len());
            let row = &self.links.chunks.rows[seeds[at]];
            assert(self@.chunks.rows[seeds@[at as int] as int] == views(row@));
            if let Ok(text) = text_at(row, 1) {
                if same_text(text, document) {
                    count = count + 1;
                }
            }
            at = at + 1;
        }
        count
    }

    /// The rows that expansion starts from.
    fn select_seeds(&self, ranked: &Vec<usize>) -> (result: Result<Vec<usize>, Error>)
        requires
            self.wf(),
            self@.scored(ranked@),
        ensures
            match result {
                Ok(seeds) => seeds_selected(self@, ranked@) == Ok::<Seq<usize>, ErrorView>(seeds@) && self@.scored(seeds@),
                Err(error) => seeds_selected(self@, ranked@) == Err::<Seq<usize>, ErrorView>(error@),
            },
    {
        let mut seeds: Vec<usize> = Vec::new();
        let most: usize = match self.max_seeds_per_document {
            Some(most) if self.request.max_hops > 0 => most,
            _ => {
                let total: usize = if self.request.seed_limit < ranked.len() {
                    self.request.seed_limit
                } else {
                    ranked.len()
                };
                while seeds.len() < total
                    invariant
                        total <= ranked@.len(),
                        seeds@.len() <= total,
                        self@.scored(ranked@),
                        forall|i: int| 0 <= i < seeds@.len() ==> (#[trigger] seeds@[i]) == ranked@[i],
                    decreases total - seeds@.len(),
                {
                    let at: usize = seeds.len();
                    seeds.push(ranked[at]);
                }
                assert(seeds@ =~= first_of(ranked@, self@.request.seed_limit));
                return Ok(seeds);
            },
        };
        let mut at: usize = 0;
        while at < ranked.len()
            invariant
                self.wf(),
                self@.scored(ranked@),
                self@.scored(seeds@),
                at <= ranked@.len(),
                self@.max_seeds_per_document == Some(most as nat),
                self@.request.max_hops > 0,
                seeds_spread(self@, ranked@, most as nat, at as nat, seeds@) == seeds_spread(
                    self@,
                    ranked@,
                    most as nat,
                    0,
                    Seq::empty(),
                ),
            decreases ranked@.len() - at,
        {
            assert(ranked@[at as int] < self@.chunks.rows.len());
            let row = &self.links.chunks.rows[ranked[at]];
            assert(self@.chunks.rows[ranked@[at as int] as int] == views(row@));
            let document = text_at(row, 1)?;
            if self.count_seeds(&seeds, document) < most {
                seeds.push(ranked[at]);
                if seeds.len() == self.request.seed_limit {
                    return Ok(seeds);
                }
            }
            at = at + 1;
        }
        Ok(seeds)
    }

    fn gather_targets<F: Fn(FloatTask) -> FloatReply>(
        &self,
        f: &F,
        positions: &Vec<usize>,
        endpoint: usize,
        done: &mut Vec<Target>,
    ) -> (result: Result<(), Error>)
        requires
            computes(*f),
            self.wf(),
            targets_within(old(done)@, self@),
            forall|i: int| 0 <= i < positions@.len() ==> (#[trigger] positions@[i]) < self.links.edges.rows@.len(),
        ensures
            match result {
                Ok(_) => targets_from(self@, floats(*f), positions@, endpoint as nat, 0, old(done)@) == Ok::<
                    Seq<Target>,
                    ErrorView,
                >(final(done)@) && targets_within(final(done)@, self@),
                Err(error) => targets_from(self@, floats(*f), positions@, endpoint as nat, 0, old(done)@) == Err::<
                    Seq<Target>,
                    ErrorView,
                >(error@),
            },
    {
        let ghost start = done@;
        let mut at: usize = 0;
        while at < positions.len()
            invariant
                computes(*f),
                self.wf(),
                start == old(done)@,
                at <= positions@.len(),
                targets_within(done@, self@),
                forall|i: int| 0 <= i < positions@.len() ==> (#[trigger] positions@[i]) < self.links.edges.rows@.len(),
                targets_from(self@, floats(*f), positions@, endpoint as nat, at as nat, done@) == targets_from(
                    self@,
                    floats(*f),
                    positions@,
                    endpoint as nat,
                    0,
                    start,
                ),
            decreases positions@.len() - at,
        {
            let place: usize = positions[at];
            let row = &self.links.edges.rows[place];
            assert(self@.edges.rows[place as int] == views(row@));
            at = at + 1;
            let edge = read_edge(row)?;
            if !self.policy.includes(&edge) || is_same_number(edge.weight, ZERO) {
                continue;
            }
            let id = text_at(row, endpoint)?;
            let target: usize = match find_row(&self.links.chunks.rows, id) {
                None => return Err(invalid("graph edge references a missing chunk")),
                Some(target) => target,
            };
            if let Some(rows) = self.eligible {
                if !rows[target] {
                    continue;
                }
            }
            place_target(
                f,
                self.links.edges,
                done,
                Target { row: target, weight: edge.weight, edge: place },
                Ghost(self@),
            );
        }
        Ok(())
    }

    fn find_targets<F: Fn(FloatTask) -> FloatReply>(&self, f: &F, id: &str) -> (result: Result<Vec<Target>, Error>)
        requires
            computes(*f),
            self.wf(),
        ensures
            match result {
                Ok(targets) => targets_around(self@, floats(*f), id@) == Ok::<Seq<Target>, ErrorView>(targets@)
                    && targets_within(targets@, self@),
                Err(error) => targets_around(self@, floats(*f), id@) == Err::<Seq<Target>, ErrorView>(error@),
            },
    {
        let mut targets: Vec<Target> = Vec::new();
        match self.policy.direction {
            GraphNeighborhoodDirection::Outgoing => {
                let leaving = self.links.leaving(id);
                self.gather_targets(f, &leaving, 2, &mut targets)?;
            },
            GraphNeighborhoodDirection::Incoming => {
                let arriving = self.links.arriving(id);
                self.gather_targets(f, &arriving, 1, &mut targets)?;
            },
            GraphNeighborhoodDirection::Both => {
                let leaving = self.links.leaving(id);
                self.gather_targets(f, &leaving, 2, &mut targets)?;
                let arriving = self.links.arriving(id);
                self.gather_targets(f, &arriving, 1, &mut targets)?;
            },
        }
        Ok(targets)
    }

    fn fit_vector<F: Fn(FloatTask) -> FloatReply>(&self, f: &F, row: usize) -> (result: Result<u64, Error>)
        requires
            computes(*f),
            self.wf(),
            row < self@.chunks.rows.len(),
        ensures
            plain(result) == vector_fit(self@, floats(*f), row),
    {
        if !is_larger(self.request.vector_weight, ZERO) {
            return Ok(ZERO);
        }
        if let Some(similarity) = self.similarities[row] {
            return Ok(maximum_of(similarity, ZERO));
        }
        assert(self@.chunks.rows[row as int] == views(self.links.chunks.rows@[row as int]@));
        let distance: u64 = measure_query(f, &self.links.chunks.rows[row], &self.request.query)?;
        Ok(maximum_of(similarity_of(f, distance), ZERO))
    }

    fn fit_words<F: Fn(FloatTask) -> FloatReply>(&self, f: &F, largest: u64, row: usize) -> (fit: u64)
        requires
            computes(*f),
            self.wf(),
            row < self@.chunks.rows.len(),
        ensures
            fit == lexical_fit(self@, floats(*f), largest, row),
    {
        if is_larger(self.request.lexical_weight, ZERO) && is_larger(largest, ZERO) {
            clamp_number(compute_over(f, self.lexical_scores[row], largest), ZERO, ONE)
        } else {
            ZERO
        }
    }

    fn original_score(&self, row: usize) -> (score: CandidateScore)
        requires
            self.wf(),
            row < self@.chunks.rows.len(),
        ensures
            score == self@.original(row),
    {
        match self.scores[row] {
            Some(score) => score,
            None => CandidateScore { lexical: self.lexical_scores[row], fusion: ZERO },
        }
    }

    fn assess<F: Fn(FloatTask) -> FloatReply>(
        &self,
        f: &F,
        largest: u64,
        best: &Vec<u64>,
        source: &Evidence,
        targets: &Vec<Target>,
    ) -> (result: Result<Vec<Evidence>, Error>)
        requires
            computes(*f),
            self.wf(),
            best@.len() == self@.chunks.rows.len(),
            evidence_within(source@, self@),
            targets_within(targets@, self@),
        ensures
            match result {
                Ok(found) => assessed(
                    self@,
                    floats(*f),
                    largest,
                    best@,
                    source@,
                    targets@,
                    0,
                    Seq::empty(),
                ) == Ok::<Seq<EvidenceView>, ErrorView>(views(found@)) && all_within(views(found@), self@),
                Err(error) => assessed(
                    self@,
                    floats(*f),
                    largest,
                    best@,
                    source@,
                    targets@,
                    0,
                    Seq::empty(),
                ) == Err::<Seq<EvidenceView>, ErrorView>(error@),
            },
    {
        let mut found: Vec<Evidence> = Vec::new();
        assert(views(found@) =~= Seq::<EvidenceView>::empty());
        let mut at: usize = 0;
        while at < targets.len()
            invariant
                computes(*f),
                self.wf(),
                best@.len() == self@.chunks.rows.len(),
                evidence_within(source@, self@),
                targets_within(targets@, self@),
                at <= targets@.len(),
                all_within(views(found@), self@),
                assessed(
                    self@,
                    floats(*f),
                    largest,
                    best@,
                    source@,
                    targets@,
                    at as nat,
                    views(found@),
                ) == assessed(self@, floats(*f), largest, best@, source@, targets@, 0, Seq::empty()),
            decreases targets@.len() - at,
        {
            let target: Target = targets[at];
            assert(targets@[at as int].row < self@.chunks.rows.len() && targets@[at as int].edge < self@.edges.rows.len());
            at = at + 1;
            let original = self.original_score(target.row);
            let halved: u64 = compute_times(f, source.strength, HALF);
            let strength: u64 = maximum_of(compute_times(f, halved, target.weight), original.fusion);
            if is_at_least(best[target.row], strength) {
                continue;
            }
            let by_vector: u64 = self.fit_vector(f, target.row)?;
            let by_words: u64 = self.fit_words(f, largest, target.row);
            let fit: u64 = compute_plus(f, FIFTH, compute_times(f, FOUR_FIFTHS, maximum_of(by_vector, by_words)));
            let score = CandidateScore {
                lexical: original.lexical,
                fusion: maximum_of(original.fusion, compute_times(f, strength, fit)),
            };
            let mut trace = source.trace.clone();
            assert(trace@ =~= source.trace@);
            trace.push(target.edge);
            let ghost before = views(found@);
            found.push(Evidence { row: target.row, score, strength, seed: source.seed, trace });
            proof {
                let added = found@.last()@;
                assert(added.trace == source@.trace.push(target.edge));
                assert forall|i: int| 0 <= i < added.trace.len() implies (#[trigger] added.trace[i]) < self@.edges.rows.len() by {
                    if i < source@.trace.len() {
                        assert(source@.trace[i] < self@.edges.rows.len());
                    }
                }
                assert(views(found@) =~= before.push(added));
            }
        }
        Ok(found)
    }

    fn propose<F: Fn(FloatTask) -> FloatReply>(
        &self,
        f: &F,
        largest: u64,
        best: &Vec<u64>,
        frontier: &Vec<Evidence>,
        truncated: &mut bool,
    ) -> (result: Result<Vec<Evidence>, Error>)
        requires
            computes(*f),
            self.wf(),
            best@.len() == self@.chunks.rows.len(),
            all_within(views(frontier@), self@),
        ensures
            match result {
                Ok(proposals) => proposed(
                    self@,
                    floats(*f),
                    largest,
                    best@,
                    views(frontier@),
                    0,
                    Seq::empty(),
                    *old(truncated),
                ) == Ok::<(Seq<EvidenceView>, bool), ErrorView>((views(proposals@), *final(truncated))) && all_within(
                    views(proposals@),
                    self@,
                ),
                Err(error) => proposed(
                    self@,
                    floats(*f),
                    largest,
                    best@,
                    views(frontier@),
                    0,
                    Seq::empty(),
                    *old(truncated),
                ) == Err::<(Seq<EvidenceView>, bool), ErrorView>(error@),
            },
    {
        let ghost sources = views(frontier@);
        let mut proposals: Vec<Evidence> = Vec::new();
        assert(views(proposals@) =~= Seq::<EvidenceView>::empty());
        let mut at: usize = 0;
        while at < frontier.len()
            invariant
                computes(*f),
                self.wf(),
                best@.len() == self@.chunks.rows.len(),
                sources == views(frontier@),
                all_within(sources, self@),
                at <= frontier@.len(),
                all_within(views(proposals@), self@),
                proposed(
                    self@,
                    floats(*f),
                    largest,
                    best@,
                    sources,
                    at as nat,
                    views(proposals@),
                    *truncated,
                ) == proposed(self@, floats(*f), largest, best@, sources, 0, Seq::empty(), *old(truncated)),
            decreases frontier@.len() - at,
        {
            let source = &frontier[at];
            assert(sources[at as int] == source@);
            assert(evidence_within(sources[at as int], self@));
            let row = &self.links.chunks.rows[source.row];
            assert(self@.chunks.rows[source.row as int] == views(row@));
            let id = text_at(row, 0)?;
            let targets = self.find_targets(f, id)?;
            let found = self.assess(f, largest, best, source, &targets)?;
            assert(views(found@).len() == found@.len());
            if found.len() > self.request.neighbor_limit {
                *truncated = true;
            }
            let kept = top_evidence(f, self.links.chunks, &found, self.request.neighbor_limit, Ghost(self@));
            let ghost start = views(proposals@);
            let mut next: usize = 0;
            while next < kept.len()
                invariant
                    computes(*f),
                    self.wf(),
                    all_within(views(kept@), self@),
                    all_within(views(proposals@), self@),
                    next <= kept@.len(),
                    all_merged(self@, floats(*f), views(proposals@), views(kept@), next as nat) == all_merged(
                        self@,
                        floats(*f),
                        start,
                        views(kept@),
                        0,
                    ),
                decreases kept@.len() - next,
            {
                assert(views(kept@)[next as int] == kept@[next as int]@);
                assert(evidence_within(views(kept@)[next as int], self@));
                merge(f, &self.links, &mut proposals, kept[next].copy(), Ghost(self@));
                next = next + 1;
            }
            at = at + 1;
        }
        Ok(proposals)
    }

    fn accept<F: Fn(FloatTask) -> FloatReply>(
        &self,
        f: &F,
        next: &Vec<Evidence>,
        admitted: &mut Vec<Admission>,
        context: &mut Vec<Evidence>,
        best: &mut Vec<u64>,
        Ghost(truncated): Ghost<bool>,
    )
        requires
            computes(*f),
            self.wf(),
            all_within(views(next@), self@),
            all_within(views(old(context)@), self@),
            old(best)@.len() == self@.chunks.rows.len(),
            admitted_within(views(old(admitted)@), self@),
        ensures
            (ExpansionView {
                admitted: views(final(admitted)@),
                context: views(final(context)@),
                best: final(best)@,
                truncated,
            }) == accepted(
                self@,
                floats(*f),
                views(next@),
                0,
                (ExpansionView {
                    admitted: views(old(admitted)@),
                    context: views(old(context)@),
                    best: old(best)@,
                    truncated,
                }),
            ),
            all_within(views(final(context)@), self@),
            final(best)@.len() == self@.chunks.rows.len(),
            admitted_within(views(final(admitted)@), self@),
    {
        let ghost items = views(next@);
        let ghost start = ExpansionView {
            admitted: views(admitted@),
            context: views(context@),
            best: best@,
            truncated,
        };
        let mut at: usize = 0;
        while at < next.len()
            invariant
                computes(*f),
                self.wf(),
                items == views(next@),
                all_within(items, self@),
                all_within(views(context@), self@),
                best@.len() == self@.chunks.rows.len(),
                admitted_within(views(admitted@), self@),
                at <= next@.len(),
                accepted(
                    self@,
                    floats(*f),
                    items,
                    at as nat,
                    (ExpansionView { admitted: views(admitted@), context: views(context@), best: best@, truncated }),
                ) == accepted(self@, floats(*f), items, 0, start),
            decreases next@.len() - at,
        {
            let item = &next[at];
            assert(items[at as int] == item@);
            assert(evidence_within(items[at as int], self@));
            best.set(item.row, item.strength);
            match find_admission(admitted, item.row) {
                Some(place) => {
                    let ghost before = views(admitted@);
                    lift(admitted, place, item.score.fusion);
                    assert forall|i: int| 0 <= i < views(admitted@).len() implies (#[trigger] views(admitted@)[i]).row
                        < self@.chunks.rows.len() by {
                        assert(before[i].row < self@.chunks.rows.len());
                    }
                },
                None => {
                    merge(f, &self.links, context, item.copy(), Ghost(self@));
                },
            }
            at = at + 1;
        }
    }

    fn read_path(&self, item: &Evidence) -> (result: Result<GraphRagPath, Error>)
        requires
            self.wf(),
            evidence_within(item@, self@),
        ensures
            match result {
                Ok(path) => text_in(self@.chunks.rows[item@.seed as int], 0) == Ok::<Seq<char>, ErrorView>(
                    path@.seed_chunk_id,
                ) && path_edges(self@, item@.trace, 0, Seq::empty()) == Ok::<Seq<EdgeView>, ErrorView>(path@.edges),
                Err(error) => match text_in(self@.chunks.rows[item@.seed as int], 0) {
                    Err(cause) => cause == error@,
                    Ok(_) => path_edges(self@, item@.trace, 0, Seq::empty()) == Err::<Seq<EdgeView>, ErrorView>(error@),
                },
            },
    {
        let row = &self.links.chunks.rows[item.seed];
        assert(self@.chunks.rows[item.seed as int] == views(row@));
        let seed_chunk_id = text_at(row, 0)?.to_owned();
        let mut edges: Vec<GraphEdge> = Vec::new();
        assert(views(edges@) =~= Seq::<EdgeView>::empty());
        let mut at: usize = 0;
        while at < item.trace.len()
            invariant
                self.wf(),
                evidence_within(item@, self@),
                text_in(self@.chunks.rows[item@.seed as int], 0) == Ok::<Seq<char>, ErrorView>(seed_chunk_id@),
                at <= item.trace@.len(),
                path_edges(self@, item@.trace, at as nat, views(edges@)) == path_edges(self@, item@.trace, 0, Seq::empty()),
            decreases item.trace@.len() - at,
        {
            assert(item@.trace[at as int] < self@.edges.rows.len());
            let stored = &self.links.edges.rows[item.trace[at]];
            assert(self@.edges.rows[item.trace@[at as int] as int] == views(stored@));
            edges.push(read_edge(stored)?);
            at = at + 1;
        }
        Ok(GraphRagPath { seed_chunk_id, edges })
    }

    fn take_context(&self, context: &Vec<Evidence>, admitted: &mut Vec<Admission>) -> (result: Result<(), Error>)
        requires
            self.wf(),
            all_within(views(context@), self@),
            admitted_within(views(old(admitted)@), self@),
        ensures
            match result {
                Ok(_) => with_context(self@, views(context@), 0, views(old(admitted)@)) == Ok::<
                    Seq<AdmissionView>,
                    ErrorView,
                >(views(final(admitted)@)) && admitted_within(views(final(admitted)@), self@),
                Err(error) => with_context(self@, views(context@), 0, views(old(admitted)@)) == Err::<
                    Seq<AdmissionView>,
                    ErrorView,
                >(error@),
            },
    {
        let ghost items = views(context@);
        let ghost start = views(admitted@);
        let mut at: usize = 0;
        while at < context.len()
            invariant
                self.wf(),
                items == views(context@),
                start == views(old(admitted)@),
                all_within(items, self@),
                admitted_within(views(admitted@), self@),
                at <= context@.len(),
                with_context(self@, items, at as nat, views(admitted@)) == with_context(self@, items, 0, start),
            decreases context@.len() - at,
        {
            let item = &context[at];
            assert(items[at as int] == item@);
            assert(evidence_within(items[at as int], self@));
            let path = self.read_path(item)?;
            let ghost before = views(admitted@);
            admitted.push(
                Admission { row: item.row, depth: item.trace.len(), score: item.score, retrieval_path: Some(path) },
            );
            assert(views(admitted@) =~= before.push(admitted@.last()@));
            at = at + 1;
        }
        Ok(())
    }

    fn take_ranked(&self, ranked: &Vec<usize>, admitted: &mut Vec<Admission>, truncated: &mut bool)
        requires
            self.wf(),
            self@.scored(ranked@),
            admitted_within(views(old(admitted)@), self@),
        ensures
            (views(final(admitted)@), *final(truncated)) == with_ranked(
                self@,
                ranked@,
                0,
                views(old(admitted)@),
                *old(truncated),
            ),
            admitted_within(views(final(admitted)@), self@),
    {
        let mut at: usize = 0;
        while at < ranked.len()
            invariant
                self.wf(),
                self@.scored(ranked@),
                admitted_within(views(admitted@), self@),
                at <= ranked@.len(),
                with_ranked(self@, ranked@, at as nat, views(admitted@), *truncated) == with_ranked(
                    self@,
                    ranked@,
                    0,
                    views(old(admitted)@),
                    *old(truncated),
                ),
            decreases ranked@.len() - at,
        {
            let row: usize = ranked[at];
            at = at + 1;
            if find_admission(admitted, row).is_some() {
                continue;
            }
            assert(views(admitted@).len() == admitted@.len());
            if admitted.len() == self.request.candidate_limit {
                *truncated = true;
                return;
            }
            let ghost before = views(admitted@);
            admitted.push(self.direct(row));
            assert(views(admitted@) =~= before.push(direct_admission(self@, row)));
        }
    }

    fn direct(&self, row: usize) -> (admission: Admission)
        requires
            self.wf(),
            row < self@.chunks.rows.len(),
            self@.scores[row as int] is Some,
        ensures
            admission@ == direct_admission(self@, row),
    {
        Admission { row, depth: 0, score: self.original_score(row), retrieval_path: None }
    }

    fn start(&self, seeds: &Vec<usize>, ranked: &Vec<usize>) -> (result: (
        Vec<Admission>,
        Vec<Evidence>,
        Vec<u64>,
    ))
        requires
            self.wf(),
            self@.scored(ranked@),
            self@.scored(seeds@),
            self.request.candidate_limit <= 100,
        ensures
            views(result.0@) == expansion_start(self@, seeds@, ranked@).admitted,
            views(result.1@) == seed_frontier(self@, seeds@),
            result.2@ == expansion_start(self@, seeds@, ranked@).best,
            result.2@.len() == self@.chunks.rows.len(),
            all_within(views(result.1@), self@),
            admitted_within(views(result.0@), self@),
    {
        let base: usize = if self.request.max_hops == 0 {
            self.request.candidate_limit
        } else {
            let quarter: usize = self.request.candidate_limit / 4;
            let reserved: usize = if quarter < 1 {
                1
            } else {
                quarter
            };
            let open: usize = self.request.candidate_limit.saturating_sub(reserved);
            if seeds.len() > open {
                seeds.len()
            } else {
                open
            }
        };
        assert(base == direct_places(self@.request, seeds@.len()));
        let mut rows = seeds.clone();
        assert(rows@ =~= seeds@);
        let mut at: usize = 0;
        while at < ranked.len() && rows.len() != base
            invariant
                self@.scored(ranked@),
                self@.scored(rows@),
                at <= ranked@.len(),
                filled(ranked@, base as nat, at as nat, rows@) == filled(ranked@, base as nat, 0, seeds@),
            decreases ranked@.len() - at,
        {
            if !has_row(&rows, ranked[at]) {
                rows.push(ranked[at]);
            }
            at = at + 1;
        }
        let mut admitted: Vec<Admission> = Vec::new();
        while admitted.len() < rows.len()
            invariant
                self.wf(),
                self@.scored(rows@),
                admitted@.len() <= rows@.len(),
                forall|i: int| 0 <= i < admitted@.len() ==> (#[trigger] admitted@[i])@ == direct_admission(self@, rows@[i]),
            decreases rows@.len() - admitted@.len(),
        {
            let index: usize = admitted.len();
            assert(self@.scores[rows@[index as int] as int] is Some);
            admitted.push(self.direct(rows[index]));
        }
        assert(views(admitted@) =~= direct_admissions(self@, rows@));
        let mut frontier: Vec<Evidence> = Vec::new();
        while frontier.len() < seeds.len()
            invariant
                self.wf(),
                self@.scored(seeds@),
                frontier@.len() <= seeds@.len(),
                forall|i: int| 0 <= i < frontier@.len() ==> (#[trigger] frontier@[i])@ == seed_evidence(self@, seeds@[i]),
            decreases seeds@.len() - frontier@.len(),
        {
            let index: usize = frontier.len();
            let row: usize = seeds[index];
            assert(self@.scores[seeds@[index as int] as int] is Some);
            let score = self.original_score(row);
            let trace: Vec<usize> = Vec::new();
            assert(trace@ =~= Seq::<usize>::empty());
            frontier.push(Evidence { row, score, strength: score.fusion, seed: row, trace });
        }
        assert(views(frontier@) =~= seed_frontier(self@, seeds@));
        assert(all_within(views(frontier@), self@));
        let ghost none = Seq::new(self@.chunks.rows.len(), |i: int| ZERO);
        let total: usize = self.links.chunks.rows.len();
        let mut best: Vec<u64> = Vec::new();
        while best.len() < total
            invariant
                best@.len() <= total,
                forall|i: int| 0 <= i < best@.len() ==> (#[trigger] best@[i]) == ZERO,
            decreases total - best@.len(),
        {
            best.push(ZERO);
        }
        assert(best@ =~= none);
        let ghost sources = views(frontier@);
        let mut index: usize = 0;
        while index < frontier.len()
            invariant
                self.wf(),
                sources == views(frontier@),
                all_within(sources, self@),
                best@.len() == self@.chunks.rows.len(),
                index <= frontier@.len(),
                strengths(sources, index as nat, best@) == strengths(sources, 0, none),
            decreases frontier@.len() - index,
        {
            assert(sources[index as int] == frontier@[index as int]@);
            assert(evidence_within(sources[index as int], self@));
            best.set(frontier[index].row, frontier[index].strength);
            index = index + 1;
        }
        (admitted, frontier, best)
    }

    /// Expands the ranked rows along relationships: the candidates, and whether some were left out.
    #[verifier::rlimit(60)]
    pub fn expand<F: Fn(FloatTask) -> FloatReply>(&self, f: &F, ranked: &Vec<usize>) -> (result: Result<(Vec<Admission>, bool), Error>)
        requires
            computes(*f),
            self.wf(),
            self@.scored(ranked@),
            self.request.candidate_limit <= 100,
        ensures
            match result {
                Ok((admitted, truncated)) => expanded_from(self@, floats(*f), ranked@) == Ok::<
                    (Seq<AdmissionView>, bool),
                    ErrorView,
                >((views(admitted@), truncated)) && admitted_within(views(admitted@), self@),
                Err(error) => expanded_from(self@, floats(*f), ranked@) == Err::<(Seq<AdmissionView>, bool), ErrorView>(
                    error@,
                ),
            },
    {
        let seeds = self.select_seeds(ranked)?;
        let (mut admitted, mut frontier, mut best) = self.start(&seeds, ranked);
        let mut context: Vec<Evidence> = Vec::new();
        assert(views(context@) =~= Seq::<EvidenceView>::empty());
        let largest: u64 = self.find_largest();
        let mut truncated = false;
        let ghost whole = hopped(
            self@,
            floats(*f),
            largest,
            self@.request.max_hops,
            seed_frontier(self@, seeds@),
            expansion_start(self@, seeds@, ranked@),
        );
        let mut hops: usize = self.request.max_hops;
        let mut more = true;
        while more && hops > 0
            invariant
                computes(*f),
                self.wf(),
                self@.scored(ranked@),
                seeds_selected(self@, ranked@) == Ok::<Seq<usize>, ErrorView>(seeds@),
                largest == largest_score(self@.lexical_scores, 0, ZERO),
                whole == hopped(
                    self@,
                    floats(*f),
                    largest,
                    self@.request.max_hops,
                    seed_frontier(self@, seeds@),
                    expansion_start(self@, seeds@, ranked@),
                ),
                best@.len() == self@.chunks.rows.len(),
                all_within(views(frontier@), self@),
                all_within(views(context@), self@),
                admitted_within(views(admitted@), self@),
                more ==> hopped(
                    self@,
                    floats(*f),
                    largest,
                    hops as nat,
                    views(frontier@),
                    (ExpansionView { admitted: views(admitted@), context: views(context@), best: best@, truncated }),
                ) == whole,
                !more ==> whole == Ok::<ExpansionView, ErrorView>(
                    ExpansionView { admitted: views(admitted@), context: views(context@), best: best@, truncated },
                ),
            decreases hops,
        {
            let proposals = self.propose(f, largest, &best, &frontier, &mut truncated)?;
            assert(views(proposals@).len() == proposals@.len());
            if proposals.len() > self.request.candidate_limit {
                truncated = true;
            }
            let next = top_evidence(f, self.links.chunks, &proposals, self.request.candidate_limit, Ghost(self@));
            assert(views(next@).len() == next@.len());
            self.accept(f, &next, &mut admitted, &mut context, &mut best, Ghost(truncated));
            hops = hops - 1;
            if next.len() == 0 {
                more = false;
            }
            frontier = next;
        }
        assert(views(admitted@).len() == admitted@.len());
        assert(views(context@).len() == context@.len());
        let remaining: usize = self.request.candidate_limit.saturating_sub(admitted.len());
        if context.len() > remaining {
            truncated = true;
        }
        let kept = top_evidence(f, self.links.chunks, &context, remaining, Ghost(self@));
        self.take_context(&kept, &mut admitted)?;
        self.take_ranked(ranked, &mut admitted, &mut truncated);
        Ok((admitted, truncated))
    }

    fn find_largest(&self) -> (largest: u64)
        requires
            self.wf(),
        ensures
            largest == largest_score(self@.lexical_scores, 0, ZERO),
    {
        let mut largest: u64 = ZERO;
        let mut at: usize = 0;
        while at < self.lexical_scores.len()
            invariant
                at <= self.lexical_scores@.len(),
                largest_score(self@.lexical_scores, at as nat, largest) == largest_score(self@.lexical_scores, 0, ZERO),
            decreases self.lexical_scores@.len() - at,
        {
            largest = maximum_of(largest, self.lexical_scores[at]);
            at = at + 1;
        }
        largest
    }
}

} // verus!
