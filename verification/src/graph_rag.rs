//! Retrieval of candidates for a query: by vector, by words, and along relationships.

use vstd::prelude::*;
use crate::arithmetic::{
    between, compute_over, compute_plus, count_number, exceeds, is_between, is_larger, is_same_number, number_of_count, over,
    plus, same_number, ONE, SIXTY, TEN, ZERO,
};
use crate::catalog::{Catalog, CatalogView};
use crate::error::{outcome, Error, ErrorView};
use crate::float::{computes, finite, floats, is_finite, rank_total, total_key, FloatReply, FloatTask, Floats};
use crate::graph::{
    check_profile, collection_of, invalid, misuse, profile_checked, text_at, text_in, CollectionView, GraphCollection,
    DOCUMENT_BASE_COLUMNS,
};
use crate::graph_browse::{chosen_edges, induced_edges};
use crate::graph_document::{field_views, Metadata};
use crate::graph_edge::{EdgeView, GraphEdge};
use crate::graph_links::{
    rank_weighted, rows_below, weighted_order, weighted_sorted, GraphLinks, GraphNeighborhoodDirection,
    GraphRagTraversal, PolicyView, Weighted,
};
use crate::graph_near::{nearest, nearest_chunks, similarity, similarity_of, NearChunk};
use crate::graph_neighborhood::{all_below, rows_of};
use crate::graph_search::{hit, hit_of, GraphHit, HitView};
use crate::graph_store::open_collection;
use crate::graph_traversal::{
    expanded_from, path_view, Admission, AdmissionView, CandidateScore, GraphRagPath, GraphRagRequest, GraphTraversal,
    PathView, RagRequestView, TraversalView,
};
use crate::graph_write::places_of;
use crate::lexical::{all_scores, best_rows, query_checked, query_terms, read_terms, validate_query_text, LexicalIndex, LexicalIndexView};
use crate::lexical_cache::{indexed, lexical_index, LexicalCache, LexicalEntryView, LexicalKey, LexicalKeyView};
use crate::order::{lemma_sorted_within, sort_positions, sorted, Precedes};
use crate::scan::find_index_on;
use crate::table::{Table, TableView};
use crate::text::{int_rank, lemma_views_push, next_rank, rank_text, text_rank, views, Rank};
use crate::value::{Value, ValueView};
use crate::vector::{zero_vector, Vector};

verus! {

broadcast use {vstd::string::group_string_axioms, lemma_views_push};

/// A chunk that may answer a query, with what a reranker needs. The scores are numbers as bit
/// patterns.
pub struct GraphRagCandidate {
    pub hit: GraphHit,
    pub lexical_score: u64,
    pub fusion_score: u64,
    pub rerank_text: String,
    pub vector: Vector,
    pub retrieval_path: Option<GraphRagPath>,
}

pub struct CandidateView {
    pub hit: HitView,
    pub lexical_score: u64,
    pub fusion_score: u64,
    pub rerank_text: Seq<char>,
    pub vector: Seq<u32>,
    pub retrieval_path: Option<PathView>,
}

impl View for GraphRagCandidate {
    type V = CandidateView;

    open spec fn view(&self) -> CandidateView {
        CandidateView {
            hit: self.hit@,
            lexical_score: self.lexical_score,
            fusion_score: self.fusion_score,
            rerank_text: self.rerank_text@,
            vector: self.vector@,
            retrieval_path: path_view(self.retrieval_path),
        }
    }
}

/// What was retrieved, with all that selecting from it needs.
pub struct GraphRagSnapshot {
    pub collection: String,
    pub revision: u64,
    pub candidates: Vec<GraphRagCandidate>,
    pub edges: Vec<GraphEdge>,
    pub lexical_cache_hit: bool,
    pub truncated: bool,
}

pub struct RetrievedView {
    pub collection: Seq<char>,
    pub revision: u64,
    pub candidates: Seq<CandidateView>,
    pub edges: Seq<EdgeView>,
    pub lexical_cache_hit: bool,
    pub truncated: bool,
}

impl View for GraphRagSnapshot {
    type V = RetrievedView;

    open spec fn view(&self) -> RetrievedView {
        RetrievedView {
            collection: self.collection@,
            revision: self.revision,
            candidates: views(self.candidates@),
            edges: views(self.edges@),
            lexical_cache_hit: self.lexical_cache_hit,
            truncated: self.truncated,
        }
    }
}

fn copy_metadata(metadata: &Metadata) -> (copy: Metadata)
    ensures
        copy@ == metadata@,
{
    let mut fields: Vec<(String, Value)> = Vec::new();
    while fields.len() < metadata.fields.len()
        invariant
            fields@.len() <= metadata.fields@.len(),
            forall|i: int|
                0 <= i < fields@.len() ==> (#[trigger] fields@[i]).0@ == metadata.fields@[i].0@ && fields@[i].1@
                    == metadata.fields@[i].1@,
        decreases metadata.fields@.len() - fields@.len(),
    {
        let at: usize = fields.len();
        fields.push((metadata.fields[at].0.clone(), metadata.fields[at].1.clone()));
    }
    assert(field_views(fields@) =~= field_views(metadata.fields@));
    Metadata { object: metadata.object.share(), fields }
}

pub(crate) fn copy_hit(hit: &GraphHit) -> (copy: GraphHit)
    ensures
        copy@ == hit@,
{
    GraphHit {
        chunk_id: hit.chunk_id.clone(),
        document_id: hit.document_id.clone(),
        title: hit.title.clone(),
        source: hit.source.clone(),
        text: hit.text.clone(),
        metadata: copy_metadata(&hit.metadata),
        start_byte: hit.start_byte,
        end_byte: hit.end_byte,
        similarity: hit.similarity,
        depth: hit.depth,
        seed: hit.seed,
    }
}

pub(crate) fn copy_path(path: &Option<GraphRagPath>) -> (copy: Option<GraphRagPath>)
    ensures
        path_view(copy) == path_view(*path),
{
    match path {
        None => None,
        Some(path) => {
            let mut edges: Vec<GraphEdge> = Vec::new();
            while edges.len() < path.edges.len()
                invariant
                    edges@.len() <= path.edges@.len(),
                    forall|i: int| 0 <= i < edges@.len() ==> (#[trigger] edges@[i])@ == path.edges@[i]@,
                decreases path.edges@.len() - edges@.len(),
            {
                let at: usize = edges.len();
                edges.push(path.edges[at].copy());
            }
            assert(views(edges@) =~= views(path.edges@));
            Some(GraphRagPath { seed_chunk_id: path.seed_chunk_id.clone(), edges })
        },
    }
}

impl GraphRagCandidate {
    pub(crate) fn copy(&self) -> (copy: GraphRagCandidate)
        ensures
            copy@ == self@,
    {
        GraphRagCandidate {
            hit: copy_hit(&self.hit),
            lexical_score: self.lexical_score,
            fusion_score: self.fusion_score,
            rerank_text: self.rerank_text.clone(),
            vector: self.vector.share(),
            retrieval_path: copy_path(&self.retrieval_path),
        }
    }
}

/// Whether the limits and weights of a retrieval are within those of every retrieval.
pub open spec fn retrieval_bounded(request: RagRequestView, floats: Floats) -> bool {
    &&& 1 <= request.candidate_limit <= 100
    &&& 1 <= request.seed_limit <= 20
    &&& request.seed_limit <= request.candidate_limit
    &&& request.max_hops <= 3
    &&& 1 <= request.neighbor_limit <= 32
    &&& finite(request.vector_weight)
    &&& between(request.vector_weight, ZERO, TEN)
    &&& finite(request.lexical_weight)
    &&& between(request.lexical_weight, ZERO, TEN)
    &&& !same_number(plus(floats, request.vector_weight, request.lexical_weight), ZERO)
}

/// The error of a retrieval before anything is read.
pub open spec fn retrieval_checked(request: RagRequestView, policy: PolicyView, floats: Floats) -> Result<(), ErrorView> {
    match policy.checked() {
        Err(error) => Err(error),
        Ok(_) => if !retrieval_bounded(request, floats) {
            Err(misuse("invalid RAG candidate limits or retrieval weights"@))
        } else {
            query_checked(request.query_text)
        },
    }
}

pub fn validate_retrieval<F: Fn(FloatTask) -> FloatReply>(f: &F, request: &GraphRagRequest, policy: &GraphRagTraversal) -> (result:
    Result<(), Error>)
    requires
        computes(*f),
    ensures
        crate::error::plain(result) == retrieval_checked(request@, policy@, floats(*f)),
{
    policy.validate()?;
    if request.candidate_limit < 1 || request.candidate_limit > 100 || request.seed_limit < 1 || request.seed_limit > 20
        || request.seed_limit > request.candidate_limit || request.max_hops > 3 || request.neighbor_limit < 1
        || request.neighbor_limit > 32 || !is_finite(request.vector_weight) || !is_between(request.vector_weight, ZERO, TEN)
        || !is_finite(request.lexical_weight) || !is_between(request.lexical_weight, ZERO, TEN) || is_same_number(
        compute_plus(f, request.vector_weight, request.lexical_weight),
        ZERO,
    ) {
        return Err(invalid("invalid RAG candidate limits or retrieval weights"));
    }
    validate_query_text(request.query_text.as_str())
}

/// The share of a weight at a place in a ranking.
pub open spec fn rank_share(weight: u64, rank: nat, floats: Floats) -> u64 {
    over(floats, weight, plus(floats, plus(floats, SIXTY, count_number(floats, rank)), ONE))
}

/// The scores with a share for a row.
pub open spec fn shared(scores: Seq<Option<CandidateScore>>, row: usize, share: u64, floats: Floats) -> Seq<
    Option<CandidateScore>,
> {
    let old = match scores[row as int] {
        Some(score) => score,
        None => CandidateScore { lexical: ZERO, fusion: ZERO },
    };
    scores.update(
        row as int,
        Some(CandidateScore { lexical: old.lexical, fusion: plus(floats, old.fusion, share) }),
    )
}

fn add_share<F: Fn(FloatTask) -> FloatReply>(f: &F, scores: &mut Vec<Option<CandidateScore>>, row: usize, weight: u64, rank: usize)
    requires
        computes(*f),
        row < old(scores)@.len(),
    ensures
        final(scores)@ == shared(old(scores)@, row, rank_share(weight, rank as nat, floats(*f)), floats(*f)),
        final(scores)@.len() == old(scores)@.len(),
{
    let place: u64 = compute_plus(f, compute_plus(f, SIXTY, number_of_count(f, rank)), ONE);
    let share: u64 = compute_over(f, weight, place);
    let old_score = match scores[row] {
        Some(score) => score,
        None => CandidateScore { lexical: ZERO, fusion: ZERO },
    };
    let fusion: u64 = compute_plus(f, old_score.fusion, share);
    scores.set(row, Some(CandidateScore { lexical: old_score.lexical, fusion }));
}

/// The scores, and the similarities of rows, after the nearest chunks from `from` on.
pub open spec fn vector_scored(
    found: Seq<NearChunk>,
    weight: u64,
    floats: Floats,
    from: nat,
    scores: Seq<Option<CandidateScore>>,
    similarities: Seq<Option<u64>>,
) -> Result<(Seq<Option<CandidateScore>>, Seq<Option<u64>>), ErrorView>
    decreases found.len() - from,
{
    if from >= found.len() {
        Ok((scores, similarities))
    } else {
        let near = found[from as int];
        if !finite(near.distance) {
            Err(misuse("graph table contains an invalid finite score"@))
        } else {
            vector_scored(
                found,
                weight,
                floats,
                from + 1,
                shared(scores, near.row, rank_share(weight, from, floats), floats),
                similarities.update(near.row as int, Some(similarity(near.distance, floats))),
            )
        }
    }
}

/// The scores after the best rows by words from `from` on.
pub open spec fn words_scored(
    found: Seq<Weighted>,
    weight: u64,
    floats: Floats,
    from: nat,
    scores: Seq<Option<CandidateScore>>,
) -> Seq<Option<CandidateScore>>
    decreases found.len() - from,
{
    if from >= found.len() {
        scores
    } else {
        words_scored(
            found,
            weight,
            floats,
            from + 1,
            shared(scores, found[from as int].row, rank_share(weight, from, floats), floats),
        )
    }
}

/// The scores, each with the score of the row by its words.
pub open spec fn labelled(scores: Seq<Option<CandidateScore>>, lexical: Seq<u64>) -> Seq<Option<CandidateScore>> {
    Seq::new(
        scores.len(),
        |i: int|
            match scores[i] {
                None => None,
                Some(score) => Some(CandidateScore { lexical: lexical[i], fusion: score.fusion }),
            },
    )
}

/// The rows from `from` on that have a score, with it, after `done`.
pub open spec fn scored_list(scores: Seq<Option<CandidateScore>>, from: nat, done: Seq<Weighted>) -> Seq<Weighted>
    decreases scores.len() - from,
{
    if from >= scores.len() {
        done
    } else {
        match scores[from as int] {
            None => scored_list(scores, from + 1, done),
            Some(score) => scored_list(
                scores,
                from + 1,
                done.push(Weighted { row: from as usize, weight: score.fusion }),
            ),
        }
    }
}

/// The rows that have a score, the best first.
pub open spec fn ranking(rows: Seq<Seq<ValueView>>, scores: Seq<Option<CandidateScore>>, floats: Floats) -> Seq<usize> {
    rows_of(weighted_sorted(rows, scored_list(scores, 0, Seq::empty()), floats))
}

/// A candidate from what was admitted.
pub open spec fn candidate_of(chunks: TableView, documents: TableView, query: Seq<u32>, admission: AdmissionView, floats: Floats) -> Result<
    CandidateView,
    ErrorView,
> {
    let row = chunks.rows[admission.row as int];
    if row.len() <= 8 || !(row[8] is Vector) {
        Err(misuse("graph chunk embedding is missing"@))
    } else {
        match hit_of(row, documents, query, admission.depth, floats) {
            Err(error) => Err(error),
            Ok(hit) => match text_in(row, 6) {
                Err(error) => Err(error),
                Ok(rerank_text) => Ok(
                    CandidateView {
                        hit,
                        lexical_score: admission.score.lexical,
                        fusion_score: admission.score.fusion,
                        rerank_text,
                        vector: row[8]->Vector_0,
                        retrieval_path: admission.retrieval_path,
                    },
                ),
            },
        }
    }
}

/// The candidates of what was admitted from `from` on, after `done`.
pub open spec fn candidates_from(
    chunks: TableView,
    documents: TableView,
    query: Seq<u32>,
    admitted: Seq<AdmissionView>,
    floats: Floats,
    from: nat,
    done: Seq<CandidateView>,
) -> Result<Seq<CandidateView>, ErrorView>
    decreases admitted.len() - from,
{
    if from >= admitted.len() {
        Ok(done)
    } else {
        match candidate_of(chunks, documents, query, admitted[from as int], floats) {
            Err(error) => Err(error),
            Ok(candidate) => candidates_from(chunks, documents, query, admitted, floats, from + 1, done.push(candidate)),
        }
    }
}

/// The order of candidates: the better first, then by identifier.
pub open spec fn candidate_rank(left: CandidateView, right: CandidateView) -> Rank {
    next_rank(
        int_rank(total_key(right.fusion_score), total_key(left.fusion_score)),
        text_rank(left.hit.chunk_id, right.hit.chunk_id),
    )
}

pub open spec fn candidates_order(candidates: Seq<CandidateView>) -> Precedes {
    |a: usize, b: usize| candidate_rank(candidates[a as int], candidates[b as int]) == Rank::Before
}

pub open spec fn candidates_sorted(candidates: Seq<CandidateView>) -> Seq<CandidateView> {
    sorted(candidates.len() as usize, candidates_order(candidates)).map_values(|at: usize| candidates[at as int])
}

pub open spec fn candidate_ids(candidates: Seq<CandidateView>) -> Seq<Seq<char>> {
    candidates.map_values(|candidate: CandidateView| candidate.hit.chunk_id)
}

/// No score for any row.
pub open spec fn unscored(count: nat) -> Seq<Option<CandidateScore>> {
    Seq::new(count, |i: int| None)
}

/// No similarity for any row.
pub open spec fn unmeasured(count: nat) -> Seq<Option<u64>> {
    Seq::new(count, |i: int| None)
}

/// The scores of rows by their vectors.
pub open spec fn by_vector(chunks: TableView, request: RagRequestView, floats: Floats) -> Result<
    (Seq<Option<CandidateScore>>, Seq<Option<u64>>),
    ErrorView,
> {
    let count = chunks.rows.len();
    if !exceeds(request.vector_weight, ZERO) {
        Ok((unscored(count), unmeasured(count)))
    } else {
        match nearest(chunks.rows, request.query, request.candidate_limit, floats) {
            Err(error) => Err(error),
            Ok(found) => vector_scored(found, request.vector_weight, floats, 0, unscored(count), unmeasured(count)),
        }
    }
}

/// Whether words count in a retrieval.
pub open spec fn words_count(request: RagRequestView) -> bool {
    exceeds(request.lexical_weight, ZERO) && query_terms(request.query_text).len() > 0
}

/// What a retrieval gives once its scores are known.
pub open spec fn assembled(
    info: CollectionView,
    revision: u64,
    documents: TableView,
    t: TraversalView,
    hit: bool,
    floats: Floats,
) -> Result<RetrievedView, ErrorView> {
    match expanded_from(t, floats, ranking(t.chunks.rows, t.scores, floats)) {
        Err(error) => Err(error),
        Ok((admitted, truncated)) => match candidates_from(
            t.chunks,
            documents,
            t.request.query,
            admitted,
            floats,
            0,
            Seq::empty(),
        ) {
            Err(error) => Err(error),
            Ok(found) => {
                let candidates = candidates_sorted(found);
                match chosen_edges(
                    t.chunks,
                    t.edges,
                    candidate_ids(candidates),
                    t.request.candidate_limit * t.request.neighbor_limit,
                    Some(t.policy),
                ) {
                    Err(error) => Err(error),
                    Ok((edges, more)) => Ok(
                        RetrievedView {
                            collection: info.config.name,
                            revision,
                            candidates,
                            edges,
                            lexical_cache_hit: hit,
                            truncated: truncated || more,
                        },
                    ),
                }
            },
        },
    }
}

/// What a retrieval reads with no words counted.
pub open spec fn plain_traversal(
    chunks: TableView,
    edges: TableView,
    request: RagRequestView,
    policy: PolicyView,
    scores: Seq<Option<CandidateScore>>,
    similarities: Seq<Option<u64>>,
) -> TraversalView {
    TraversalView {
        chunks,
        edges,
        request,
        policy,
        scores,
        lexical_scores: Seq::new(chunks.rows.len(), |i: int| ZERO),
        similarities,
        eligible: None,
        max_seeds_per_document: None,
    }
}

/// What a retrieval reads with the words of an index counted.
pub open spec fn worded_traversal(plain: TraversalView, index: LexicalIndexView, floats: Floats) -> TraversalView {
    let lexical = all_scores(index, query_terms(plain.request.query_text), floats);
    let found = best_rows(lexical, plain.chunks.rows, plain.request.candidate_limit, floats);
    TraversalView {
        scores: labelled(words_scored(found, plain.request.lexical_weight, floats, 0, plain.scores), lexical),
        lexical_scores: lexical,
        ..plain
    }
}

/// The cache after a retrieval from these tables, and what it gives.
pub open spec fn retrieved_from(
    entries: Seq<LexicalEntryView>,
    owners: Seq<u64>,
    key: LexicalKeyView,
    info: CollectionView,
    revision: u64,
    documents: TableView,
    chunks: TableView,
    edges: TableView,
    request: RagRequestView,
    policy: PolicyView,
    floats: Floats,
) -> (Seq<LexicalEntryView>, Result<RetrievedView, ErrorView>) {
    match by_vector(chunks, request, floats) {
        Err(error) => (entries, Err(error)),
        Ok((scores, similarities)) => {
            let bare = plain_traversal(chunks, edges, request, policy, scores, similarities);
            if !words_count(request) {
                (entries, assembled(info, revision, documents, bare, false, floats))
            } else {
                let (next, found) = indexed(entries, owners, key, chunks.rows, query_terms(request.query_text), floats);
                match found {
                    Err(error) => (next, Err(error)),
                    Ok((index, hit)) => (
                        next,
                        assembled(info, revision, documents, worded_traversal(bare, index, floats), hit, floats),
                    ),
                }
            }
        },
    }
}

/// The key of a collection's words at a generation of its chunks.
pub open spec fn words_key(owner: u64, storage_id: u64, info: CollectionView, chunks: TableView) -> LexicalKeyView {
    LexicalKeyView { owner, collection: info.config.name, storage_id, row_count: chunks.rows.len() }
}

/// The cache after a retrieval, and what it gives.
pub open spec fn retrieved(
    entries: Seq<LexicalEntryView>,
    owners: Seq<u64>,
    owner: u64,
    storage_id: u64,
    catalog: CatalogView,
    request: RagRequestView,
    policy: PolicyView,
    floats: Floats,
) -> (Seq<LexicalEntryView>, Result<RetrievedView, ErrorView>) {
    match retrieval_checked(request, policy, floats) {
        Err(error) => (entries, Err(error)),
        Ok(_) => match collection_of(catalog, request.collection) {
            Err(error) => (entries, Err(error)),
            Ok(info) => match profile_checked(info.config.profile, request.expected_profile) {
                Err(error) => (entries, Err(error)),
                Ok(_) => if request.query.len() != info.config.profile.dimensions {
                    (
                        entries,
                        Err(
                            ErrorView::DimensionMismatch {
                                left: request.query.len(),
                                right: info.config.profile.dimensions,
                            },
                        ),
                    )
                } else if zero_vector(request.query) {
                    (entries, Err(ErrorView::ZeroNorm))
                } else {
                    let places = places_of(catalog, info);
                    let chunks = catalog.tables[places.chunks as int].table;
                    retrieved_from(
                        entries,
                        owners,
                        words_key(owner, storage_id, info, chunks),
                        info,
                        catalog.revision,
                        catalog.tables[places.documents as int].table,
                        chunks,
                        catalog.tables[places.edges as int].table,
                        request,
                        policy,
                        floats,
                    )
                },
            },
        },
    }
}

fn score_vectors<F: Fn(FloatTask) -> FloatReply>(f: &F, chunks: &Table, request: &GraphRagRequest) -> (result: Result<
    (Vec<Option<CandidateScore>>, Vec<Option<u64>>),
    Error,
>)
    requires
        computes(*f),
    ensures
        match result {
            Ok((scores, similarities)) => by_vector(chunks@, request@, floats(*f)) == Ok::<
                (Seq<Option<CandidateScore>>, Seq<Option<u64>>),
                ErrorView,
            >((scores@, similarities@)) && scores@.len() == chunks.rows@.len() && similarities@.len() == chunks.rows@.len(),
            Err(error) => by_vector(chunks@, request@, floats(*f)) == Err::<
                (Seq<Option<CandidateScore>>, Seq<Option<u64>>),
                ErrorView,
            >(error@),
        },
{
    let total: usize = chunks.rows.len();
    let mut scores: Vec<Option<CandidateScore>> = Vec::new();
    let mut similarities: Vec<Option<u64>> = Vec::new();
    while scores.len() < total
        invariant
            scores@.len() == similarities@.len(),
            scores@.len() <= total,
            forall|i: int| 0 <= i < scores@.len() ==> (#[trigger] scores@[i]) is None,
            forall|i: int| 0 <= i < similarities@.len() ==> (#[trigger] similarities@[i]) is None,
        decreases total - scores@.len(),
    {
        scores.push(None);
        similarities.push(None);
    }
    assert(scores@ =~= unscored(chunks@.rows.len()));
    assert(similarities@ =~= unmeasured(chunks@.rows.len()));
    if !is_larger(request.vector_weight, ZERO) {
        return Ok((scores, similarities));
    }
    let found = nearest_chunks(f, &chunks.rows, &request.query, request.candidate_limit)?;
    let ghost count = chunks@.rows.len();
    let mut at: usize = 0;
    while at < found.len()
        invariant
            computes(*f),
            count == chunks@.rows.len(),
            exceeds(request.vector_weight, ZERO),
            nearest(chunks@.rows, request@.query, request@.candidate_limit, floats(*f)) == Ok::<Seq<NearChunk>, ErrorView>(
                found@,
            ),
            forall|i: int| 0 <= i < found@.len() ==> (#[trigger] found@[i]).row < chunks.rows@.len(),
            scores@.len() == chunks.rows@.len(),
            similarities@.len() == chunks.rows@.len(),
            at <= found@.len(),
            vector_scored(found@, request.vector_weight, floats(*f), at as nat, scores@, similarities@) == vector_scored(
                found@,
                request.vector_weight,
                floats(*f),
                0,
                unscored(count),
                unmeasured(count),
            ),
        decreases found@.len() - at,
    {
        let near: NearChunk = found[at];
        assert(found@[at as int].row < chunks.rows@.len());
        if !is_finite(near.distance) {
            return Err(invalid("graph table contains an invalid finite score"));
        }
        similarities.set(near.row, Some(similarity_of(f, near.distance)));
        add_share(f, &mut scores, near.row, request.vector_weight, at);
        at = at + 1;
    }
    Ok((scores, similarities))
}

fn score_words<F: Fn(FloatTask) -> FloatReply>(
    f: &F,
    chunks: &Table,
    request: &GraphRagRequest,
    index: &LexicalIndex,
    terms: &Vec<String>,
    scores: &mut Vec<Option<CandidateScore>>,
) -> (lexical: Vec<u64>)
    requires
        computes(*f),
        index@.valid(),
        index@.length_factors.len() == chunks.rows@.len(),
        old(scores)@.len() == chunks.rows@.len(),
    ensures
        lexical@ == all_scores(index@, views(terms@), floats(*f)),
        lexical@.len() == chunks.rows@.len(),
        final(scores)@.len() == chunks.rows@.len(),
        final(scores)@ == labelled(
            words_scored(
                best_rows(lexical@, chunks@.rows, request@.candidate_limit, floats(*f)),
                request.lexical_weight,
                floats(*f),
                0,
                old(scores)@,
            ),
            lexical@,
        ),
{
    let (lexical, found) = index.score(f, terms, &chunks.rows, request.candidate_limit);
    let mut at: usize = 0;
    while at < found.len()
        invariant
            computes(*f),
            rows_below(found@, chunks.rows@.len()),
            scores@.len() == chunks.rows@.len(),
            at <= found@.len(),
            words_scored(found@, request.lexical_weight, floats(*f), at as nat, scores@) == words_scored(
                found@,
                request.lexical_weight,
                floats(*f),
                0,
                old(scores)@,
            ),
        decreases found@.len() - at,
    {
        assert(found@[at as int].row < chunks.rows@.len());
        add_share(f, scores, found[at].row, request.lexical_weight, at);
        at = at + 1;
    }
    let ghost shares = scores@;
    let mut row: usize = 0;
    while row < scores.len()
        invariant
            scores@.len() == chunks.rows@.len(),
            lexical@.len() == chunks.rows@.len(),
            shares.len() == scores@.len(),
            row <= scores@.len(),
            forall|i: int| 0 <= i < row ==> (#[trigger] scores@[i]) == labelled(shares, lexical@)[i],
            forall|i: int| row <= i < scores@.len() ==> (#[trigger] scores@[i]) == shares[i],
        decreases scores@.len() - row,
    {
        if let Some(score) = scores[row] {
            scores.set(row, Some(CandidateScore { lexical: lexical[row], fusion: score.fusion }));
        }
        row = row + 1;
    }
    assert(scores@ =~= labelled(shares, lexical@));
    lexical
}

fn rank_rows<F: Fn(FloatTask) -> FloatReply>(f: &F, chunks: &Table, scores: &Vec<Option<CandidateScore>>) -> (ranked: Vec<usize>)
    requires
        computes(*f),
        scores@.len() == chunks.rows@.len(),
    ensures
        ranked@ == ranking(chunks@.rows, scores@, floats(*f)),
        all_below(ranked@, chunks.rows@.len()),
        forall|i: int| 0 <= i < ranked@.len() ==> scores@[#[trigger] ranked@[i] as int] is Some,
{
    let mut list: Vec<Weighted> = Vec::new();
    let mut row: usize = 0;
    while row < scores.len()
        invariant
            scores@.len() == chunks.rows@.len(),
            row <= scores@.len(),
            rows_below(list@, chunks.rows@.len()),
            forall|i: int| 0 <= i < list@.len() ==> scores@[(#[trigger] list@[i]).row as int] is Some,
            scored_list(scores@, row as nat, list@) == scored_list(scores@, 0, Seq::empty()),
        decreases scores@.len() - row,
    {
        if let Some(score) = scores[row] {
            list.push(Weighted { row, weight: score.fusion });
        }
        row = row + 1;
    }
    let ordered = rank_weighted(f, &chunks.rows, &list);
    let mut ranked: Vec<usize> = Vec::new();
    while ranked.len() < ordered.len()
        invariant
            ranked@.len() <= ordered@.len(),
            rows_below(ordered@, chunks.rows@.len()),
            all_below(ranked@, chunks.rows@.len()),
            forall|i: int| 0 <= i < ranked@.len() ==> (#[trigger] ranked@[i]) == ordered@[i].row,
        decreases ordered@.len() - ranked@.len(),
    {
        let at: usize = ranked.len();
        ranked.push(ordered[at].row);
    }
    proof {
        assert(ranked@ =~= ranking(chunks@.rows, scores@, floats(*f)));
        assert forall|i: int| 0 <= i < ranked@.len() implies scores@[#[trigger] ranked@[i] as int] is Some by {
            let order = sorted(list@.len() as usize, weighted_order(chunks@.rows, list@, floats(*f)));
            lemma_sorted_within(list@.len() as usize, weighted_order(chunks@.rows, list@, floats(*f)));
            assert(ordered@[i] == list@[order[i] as int]);
            assert(scores@[list@[order[i] as int].row as int] is Some);
        }
    }
    ranked
}

fn make_candidate<F: Fn(FloatTask) -> FloatReply>(f: &F, chunks: &Table, documents: &Table, query: &Vector, admission: &Admission) -> (result:
    Result<GraphRagCandidate, Error>)
    requires
        computes(*f),
        documents@.columns.len() >= DOCUMENT_BASE_COLUMNS,
        admission.row < chunks.rows@.len(),
    ensures
        outcome(result) == candidate_of(chunks@, documents@, query@, admission@, floats(*f)),
{
    let row = &chunks.rows[admission.row];
    assert(chunks@.rows[admission.row as int] == views(row@));
    if row.len() > 8 {
        assert(views(row@)[8] == row@[8]@);
        if let Value::Vector(vector) = &row[8] {
            let hit = hit(f, row, documents, query, admission.depth)?;
            let rerank_text = text_at(row, 6)?.to_owned();
            return Ok(
                GraphRagCandidate {
                    hit,
                    lexical_score: admission.score.lexical,
                    fusion_score: admission.score.fusion,
                    rerank_text,
                    vector: vector.share(),
                    retrieval_path: copy_path(&admission.retrieval_path),
                },
            );
        }
    }
    Err(invalid("graph chunk embedding is missing"))
}

fn make_candidates<F: Fn(FloatTask) -> FloatReply>(f: &F, chunks: &Table, documents: &Table, query: &Vector, admitted: &Vec<Admission>) -> (result:
    Result<Vec<GraphRagCandidate>, Error>)
    requires
        computes(*f),
        documents@.columns.len() >= DOCUMENT_BASE_COLUMNS,
        forall|i: int| 0 <= i < admitted@.len() ==> (#[trigger] admitted@[i]).row < chunks.rows@.len(),
    ensures
        match result {
            Ok(found) => candidates_from(
                chunks@,
                documents@,
                query@,
                views(admitted@),
                floats(*f),
                0,
                Seq::empty(),
            ) == Ok::<Seq<CandidateView>, ErrorView>(views(found@)),
            Err(error) => candidates_from(
                chunks@,
                documents@,
                query@,
                views(admitted@),
                floats(*f),
                0,
                Seq::empty(),
            ) == Err::<Seq<CandidateView>, ErrorView>(error@),
        },
{
    let mut found: Vec<GraphRagCandidate> = Vec::new();
    assert(views(found@) =~= Seq::<CandidateView>::empty());
    let mut at: usize = 0;
    while at < admitted.len()
        invariant
            computes(*f),
            documents@.columns.len() >= DOCUMENT_BASE_COLUMNS,
            forall|i: int| 0 <= i < admitted@.len() ==> (#[trigger] admitted@[i]).row < chunks.rows@.len(),
            at <= admitted@.len(),
            candidates_from(
                chunks@,
                documents@,
                query@,
                views(admitted@),
                floats(*f),
                at as nat,
                views(found@),
            ) == candidates_from(chunks@, documents@, query@, views(admitted@), floats(*f), 0, Seq::empty()),
        decreases admitted@.len() - at,
    {
        assert(views(admitted@)[at as int] == admitted@[at as int]@);
        assert(admitted@[at as int].row < chunks.rows@.len());
        let candidate = make_candidate(f, chunks, documents, query, &admitted[at])?;
        found.push(candidate);
        at = at + 1;
    }
    Ok(found)
}

fn sort_candidates(found: &Vec<GraphRagCandidate>) -> (result: (Vec<GraphRagCandidate>, Vec<String>))
    ensures
        views(result.0@) == candidates_sorted(views(found@)),
        views(result.1@) == candidate_ids(views(result.0@)),
{
    let ghost before = candidates_order(views(found@));
    let precedes = |a: usize, b: usize| -> (result: bool)
        requires
            a < found@.len(),
            b < found@.len(),
        ensures
            result == before(a, b),
        {
            assert(views(found@)[a as int] == found@[a as int]@);
            assert(views(found@)[b as int] == found@[b as int]@);
            match rank_total(found[b].fusion_score, found[a].fusion_score) {
                Rank::Before => true,
                Rank::After => false,
                Rank::Same => match rank_text(found[a].hit.chunk_id.as_str(), found[b].hit.chunk_id.as_str()) {
                    Rank::Before => true,
                    _ => false,
                },
            }
        };
    let order = sort_positions(found.len(), &precedes, Ghost(before));
    let mut result: Vec<GraphRagCandidate> = Vec::new();
    let mut ids: Vec<String> = Vec::new();
    while result.len() < order.len()
        invariant
            result@.len() <= order@.len(),
            ids@.len() == result@.len(),
            forall|i: int| 0 <= i < order@.len() ==> (#[trigger] order@[i]) < found@.len(),
            forall|i: int| 0 <= i < result@.len() ==> (#[trigger] result@[i])@ == found@[order@[i] as int]@,
            forall|i: int| 0 <= i < ids@.len() ==> (#[trigger] ids@[i])@ == result@[i]@.hit.chunk_id,
        decreases order@.len() - result@.len(),
    {
        let at: usize = result.len();
        let candidate = found[order[at]].copy();
        ids.push(candidate.hit.chunk_id.clone());
        result.push(candidate);
    }
    assert(views(result@) =~= candidates_sorted(views(found@)));
    assert(views(ids@) =~= candidate_ids(views(result@)));
    (result, ids)
}

#[verifier::rlimit(60)]
fn assemble<F: Fn(FloatTask) -> FloatReply>(
    f: &F,
    info: GraphCollection,
    revision: u64,
    documents: &Table,
    traversal: &GraphTraversal,
    hit: bool,
) -> (result: Result<GraphRagSnapshot, Error>)
    requires
        computes(*f),
        traversal.wf(),
        documents@.columns.len() >= DOCUMENT_BASE_COLUMNS,
        traversal.request.candidate_limit <= 100,
        traversal.request.neighbor_limit <= 32,
    ensures
        outcome(result) == assembled(info@, revision, documents@, traversal@, hit, floats(*f)),
{
    let chunks = traversal.links.chunks;
    let ranked = rank_rows(f, chunks, traversal.scores);
    let (admitted, truncated) = traversal.expand(f, &ranked)?;
    assert forall|i: int| 0 <= i < admitted@.len() implies (#[trigger] admitted@[i]).row < chunks.rows@.len() by {
        assert(views(admitted@)[i] == admitted@[i]@);
        assert(views(admitted@)[i].row < traversal@.chunks.rows.len());
    }
    let found = make_candidates(f, chunks, documents, &traversal.request.query, &admitted)?;
    let (candidates, ids) = sort_candidates(&found);
    let candidate_limit: usize = traversal.request.candidate_limit;
    let neighbor_limit: usize = traversal.request.neighbor_limit;
    assert(candidate_limit * neighbor_limit <= 3200) by (nonlinear_arith)
        requires
            candidate_limit <= 100,
            neighbor_limit <= 32,
    ;
    let limit: usize = candidate_limit * neighbor_limit;
    let (edges, more) = induced_edges(
        chunks,
        traversal.links.edges,
        traversal.links.outgoing,
        &ids,
        limit,
        Some(traversal.policy),
    )?;
    Ok(
        GraphRagSnapshot {
            collection: info.config.name,
            revision,
            candidates,
            edges,
            lexical_cache_hit: hit,
            truncated: truncated || more,
        },
    )
}

/// Retrieves the candidates of a query by vector and by words, expanded along the relationships
/// that the policy lets through. The words are looked up in a cache; the owner and the storage
/// identifier say whose they are and at which generation.
#[verifier::rlimit(80)]
pub fn graph_rag_candidates_with_traversal<F: Fn(FloatTask) -> FloatReply>(
    f: &F,
    catalog: &Catalog,
    cache: &mut LexicalCache,
    owners: &Vec<u64>,
    owner: u64,
    storage_id: u64,
    request: &GraphRagRequest,
    policy: &GraphRagTraversal,
) -> (result: Result<GraphRagSnapshot, Error>)
    requires
        computes(*f),
        catalog.wf(),
        old(cache).wf(),
    ensures
        final(cache).wf(),
        (final(cache)@, outcome(result)) == retrieved(
            old(cache)@,
            owners@,
            owner,
            storage_id,
            catalog@,
            request@,
            policy@,
            floats(*f),
        ),
{
    validate_retrieval(f, request, policy)?;
    let terms = read_terms(request.query_text.as_str());
    let (info, places) = open_collection(catalog, request.collection.as_str())?;
    check_profile(&info.config.profile, &request.expected_profile)?;
    if request.query.dimensions() != info.config.profile.dimensions {
        return Err(
            Error::DimensionMismatch { left: request.query.dimensions(), right: info.config.profile.dimensions },
        );
    }
    if request.query.is_zero() {
        return Err(Error::ZeroNorm);
    }
    proof {
        assert(places == places_of(catalog@, info@));
        assert(catalog@.tables[places.documents as int] == catalog.tables@[places.documents as int]@);
        assert(catalog@.tables[places.chunks as int] == catalog.tables@[places.chunks as int]@);
        assert(catalog@.tables[places.edges as int] == catalog.tables@[places.edges as int]@);
    }
    let documents = &catalog.tables[places.documents].table;
    let chunks = &catalog.tables[places.chunks].table;
    let edges = &catalog.tables[places.edges].table;
    let outgoing: usize = match find_index_on(&edges.indexes, 1) {
        Some(index) => index,
        None => return Err(invalid("graph edge source index is missing")),
    };
    let incoming: usize = match find_index_on(&edges.indexes, 2) {
        Some(index) => index,
        None => return Err(invalid("graph edge target index is missing")),
    };
    let (mut scores, similarities) = score_vectors(f, chunks, request)?;
    let links = GraphLinks { chunks, edges, outgoing, incoming };
    assert(views(terms@).len() == terms@.len());
    if !is_larger(request.lexical_weight, ZERO) || terms.len() == 0 {
        let total: usize = chunks.rows.len();
        let mut lexical: Vec<u64> = Vec::new();
        while lexical.len() < total
            invariant
                lexical@.len() <= total,
                forall|i: int| 0 <= i < lexical@.len() ==> (#[trigger] lexical@[i]) == ZERO,
            decreases total - lexical@.len(),
        {
            lexical.push(ZERO);
        }
        assert(lexical@ =~= Seq::new(chunks@.rows.len(), |i: int| ZERO));
        let traversal = GraphTraversal {
            links,
            request,
            policy,
            scores: &scores,
            lexical_scores: &lexical,
            similarities: &similarities,
            eligible: None,
            max_seeds_per_document: None,
        };
        return assemble(f, info, catalog.revision, documents, &traversal, false);
    }
    let key = LexicalKey { owner, collection: info.config.name.clone(), storage_id, row_count: chunks.rows.len() };
    let (index, hit) = lexical_index(f, cache, owners, &key, &chunks.rows, &terms)?;
    let lexical = score_words(f, chunks, request, &index, &terms, &mut scores);
    let traversal = GraphTraversal {
        links,
        request,
        policy,
        scores: &scores,
        lexical_scores: &lexical,
        similarities: &similarities,
        eligible: None,
        max_seeds_per_document: None,
    };
    assemble(f, info, catalog.revision, documents, &traversal, hit)
}

/// Retrieves the candidates of a query, expanded along the relationships that leave a chunk.
pub fn graph_rag_candidates<F: Fn(FloatTask) -> FloatReply>(
    f: &F,
    catalog: &Catalog,
    cache: &mut LexicalCache,
    owners: &Vec<u64>,
    owner: u64,
    storage_id: u64,
    request: &GraphRagRequest,
) -> (result: Result<GraphRagSnapshot, Error>)
    requires
        computes(*f),
        catalog.wf(),
        old(cache).wf(),
    ensures
        final(cache).wf(),
        (final(cache)@, outcome(result)) == retrieved(
            old(cache)@,
            owners@,
            owner,
            storage_id,
            catalog@,
            request@,
            (PolicyView {
                direction: GraphNeighborhoodDirection::Outgoing,
                kind: None,
                min_weight: ZERO,
            }),
            floats(*f),
        ),
{
    let policy = GraphRagTraversal::default();
    graph_rag_candidates_with_traversal(f, catalog, cache, owners, owner, storage_id, request, &policy)
}

} // verus!
