//! What is accepted and what is refused.

use vstd::prelude::*;
use crate::float::{number_key, Floats};
use crate::graph::{config_checked, plain_name, profile_checked, text_bounded, ConfigView, ProfileView};
use crate::graph_document::{chunks_checked, embeddings_checked, field_value, ChunkInputView, ChunkPreviewView};
use crate::graph_edge::{edge_checked, EdgeView};
use crate::graph_rag::retrieval_bounded;
use crate::graph_select::{selection_bounded, GraphRagSelection};
use crate::graph_traversal::RagRequestView;
use crate::json::TreeView;
use crate::order::{law_sorted, leads, lemma_sorted_each, sorted, weak_order};
use crate::reranking::{
    documents_checked, input_checked, reply_taken, rerank_order, scores_taken, status_error, RerankResult, RerankingErrorView, MAX_CANDIDATES,
    MAX_PAIR_BUDGET, MAX_QUERY_BYTES, MAX_TOTAL_BUDGET, PROMPT_BUDGET,
};
use crate::slice::{blank, byte_slice};
use crate::text::byte_count;
use crate::value::{DataType, ValueView};

verus! {

/// Whether a text may stand where one is asked for: not too long, not blank unless it may be, and
/// without NUL.
pub open spec fn fitting(text: Seq<char>, max: nat, empty: bool) -> bool {
    &&& byte_count(text) <= max
    &&& empty || !blank(text)
    &&& !text.contains('\0')
}

/// A text is accepted exactly where it fits.
pub proof fn law_text_bounds(text: Seq<char>, max: nat, empty: bool, label: Seq<char>)
    ensures
        text_bounded(text, max, empty, label) is Ok <==> fitting(text, max, empty),
{
}

/// Where the chunk before one ends; the beginning where it is the first.
pub open spec fn end_before(chunks: Seq<ChunkPreviewView>, at: int) -> nat {
    if at <= 0 {
        0
    } else {
        chunks[at - 1].end_byte
    }
}

/// Whether a chunk is a slice of a text that follows the one before it, with only white space left out
/// between them.
pub open spec fn slice_follows(text: Seq<char>, chunks: Seq<ChunkPreviewView>, at: int) -> bool {
    let chunk = chunks[at];
    &&& chunk.start_byte < chunk.end_byte
    &&& byte_slice(text, chunk.start_byte, chunk.end_byte) == Some(chunk.text)
    &&& fitting(chunk.embedding_text, 32768, false)
    &&& end_before(chunks, at) < chunk.start_byte ==> (byte_slice(text, end_before(chunks, at), chunk.start_byte) matches Some(gap)
        && blank(gap))
    &&& at > 0 ==> chunks[at - 1].start_byte < chunk.start_byte && chunks[at - 1].end_byte < chunk.end_byte
}

/// Whether chunks are slices of a text in order, and leave out only white space.
pub open spec fn cover(text: Seq<char>, chunks: Seq<ChunkPreviewView>) -> bool {
    &&& forall|at: int| 0 <= at < chunks.len() ==> #[trigger] slice_follows(text, chunks, at)
    &&& byte_slice(text, end_before(chunks, chunks.len() as int), byte_count(text)) matches Some(rest) && blank(rest)
}

proof fn lemma_cover(text: Seq<char>, chunks: Seq<ChunkPreviewView>, from: nat, start: nat, covered: nat)
    requires
        from <= chunks.len(),
        covered == end_before(chunks, from as int),
        from > 0 ==> start == chunks[from - 1].start_byte,
        forall|at: int| 0 <= at < from ==> #[trigger] slice_follows(text, chunks, at),
    ensures
        chunks_checked(text, chunks, from, start, covered) is Ok <==> cover(text, chunks),
    decreases chunks.len() - from,
{
    if from < chunks.len() {
        let chunk = chunks[from as int];
        law_text_bounds(chunk.embedding_text, 32768, false, "embedding text"@);
        if slice_follows(text, chunks, from as int) {
            lemma_cover(text, chunks, from + 1, chunk.start_byte, chunk.end_byte);
        }
    }
}

/// The chunks of a document are accepted exactly where they are slices of its text in order that leave
/// out only white space.
pub proof fn law_chunks_cover_the_text(text: Seq<char>, chunks: Seq<ChunkPreviewView>)
    ensures
        chunks_checked(text, chunks, 0, 0, 0) is Ok <==> cover(text, chunks),
{
    lemma_cover(text, chunks, 0, 0, 0);
}

/// Embeddings are accepted exactly where each has the dimensions of the profile and one element that is
/// not zero.
pub proof fn law_embeddings_fit(chunks: Seq<ChunkInputView>, dimensions: nat, from: nat)
    requires
        from <= chunks.len(),
    ensures
        embeddings_checked(chunks, dimensions, from) is Ok <==> forall|i: int|
            from <= i < chunks.len() ==> (#[trigger] chunks[i]).embedding.len() == dimensions
                && crate::expression_laws::some_nonzero(chunks[i].embedding),
    decreases chunks.len() - from,
{
    if from < chunks.len() {
        let embedding = chunks[from as int].embedding;
        if crate::vector::zero_vector(embedding) {
            assert(!crate::expression_laws::some_nonzero(embedding)) by {
                if crate::expression_laws::some_nonzero(embedding) {
                    let i = choose|i: int|
                        0 <= i < embedding.len() && (#[trigger] embedding[i]) != 0 && embedding[i] != 0x8000_0000;
                    assert(crate::vector::element_magnitude(embedding[i]) != 0);
                }
            }
        } else {
            let i = choose|i: int| 0 <= i < embedding.len() && crate::vector::element_magnitude(#[trigger] embedding[i]) != 0;
            assert(embedding[i] != 0 && embedding[i] != 0x8000_0000);
        }
        law_embeddings_fit(chunks, dimensions, from + 1);
    }
}

/// A collection can be made exactly with named providers and models, some dimensions but not too many,
/// the first format, at most sixteen neighbors, and a threshold from zero to one.
pub proof fn law_collection_settings(config: ConfigView)
    ensures
        config_checked(config) is Ok <==> {
            &&& fitting(config.profile.provider, 64, false)
            &&& fitting(config.profile.model, 128, false)
            &&& 1 <= config.profile.dimensions <= crate::vector::MAX_VECTOR_DIMENSIONS
            &&& config.profile.context_format_version == 1
            &&& config.semantic_neighbors <= 16
            &&& 0 <= number_key(config.semantic_threshold) <= 0x3ff0000000000000
        },
{
}

/// What is asked of a collection is of its own profile, in every part.
pub proof fn law_profile_is_kept(actual: ProfileView, expected: ProfileView)
    ensures
        profile_checked(actual, expected) is Ok <==> actual.provider == expected.provider && actual.model == expected.model
            && actual.dimensions == expected.dimensions && actual.context_format_version == expected.context_format_version,
{
}

/// A relationship is accepted exactly where it is of a plain kind, has a weight from zero to one, and
/// leads from one chunk to another.
pub proof fn law_relationship_accepted(edge: EdgeView)
    ensures
        edge_checked(edge) is Ok <==> {
            &&& plain_name(edge.kind, 64)
            &&& 0 <= number_key(edge.weight) <= 0x3ff0000000000000
            &&& edge.from_chunk != edge.to_chunk
            &&& fitting(edge.from_chunk, 1024, false)
            &&& fitting(edge.to_chunk, 1024, false)
        },
        edge_checked(edge) matches Ok(kept) ==> kept == edge,
{
}

/// A selection is of one to a hundred hits, with a diversity from zero to one, within its budgets.
pub proof fn law_selection_settings(options: GraphRagSelection)
    ensures
        selection_bounded(options) <==> {
            &&& 1 <= options.limit <= 100
            &&& 0 <= number_key(options.diversity) <= 0x3ff0000000000000
            &&& 1 <= options.max_context_bytes <= 1048576
            &&& 1 <= options.max_per_document <= 100
        },
{
}

/// A retrieval is refused where both of its rankings have no weight.
pub proof fn law_some_ranking_counts(request: RagRequestView, floats: Floats)
    requires
        crate::float::number(floats, crate::float::FloatTaskView::Add(0, 0)) == 0,
        request.vector_weight == 0,
        request.lexical_weight == 0,
    ensures
        !retrieval_bounded(request, floats),
{
}

/// An entry of metadata becomes a value of its column's type, the same text, number or truth value, or
/// none at all.
pub proof fn law_metadata_value(data_type: DataType, input: TreeView, floats: Floats)
    ensures
        field_value(data_type, input, floats) matches Some(value) ==> crate::value::type_of(value) == Some(data_type),
        (data_type is Text && input is Text && !input->Text_0.contains('\0')) ==> field_value(data_type, input, floats) == Some(
            ValueView::Text(input->Text_0),
        ),
        (data_type is Boolean && input is Boolean) ==> field_value(data_type, input, floats) == Some(
            ValueView::Boolean(input->Boolean_0),
        ),
        (data_type is Text && !(input is Text)) ==> field_value(data_type, input, floats) is None,
        (data_type is Boolean && !(input is Boolean)) ==> field_value(data_type, input, floats) is None,
        (data_type is Integer && !(input is Number)) ==> field_value(data_type, input, floats) is None,
        (data_type is Float && !(input is Number)) ==> field_value(data_type, input, floats) is None,
{
}

proof fn lemma_rerank_order(data: Seq<RerankResult>)
    requires
        data.len() <= usize::MAX,
    ensures
        weak_order(rerank_order(data), data.len() as usize),
{
}

/// Whether scores come from the best to the worst.
pub open spec fn best_scores_first(scores: Seq<RerankResult>) -> bool {
    forall|i: int, j: int|
        0 <= i < j < scores.len() ==> number_key((#[trigger] scores[i]).relevance_score) >= number_key(
            (#[trigger] scores[j]).relevance_score,
        )
}

/// Whether scores are from zero to one.
pub open spec fn scores_in_range(scores: Seq<RerankResult>) -> bool {
    forall|i: int| 0 <= i < scores.len() ==> 0 <= number_key((#[trigger] scores[i]).relevance_score) <= 0x3ff0000000000000
}

/// Whether the score of a document is the one that was given for it.
pub open spec fn given_for(data: Seq<RerankResult>, score: RerankResult) -> bool {
    exists|k: int|
        0 <= k < data.len() && (#[trigger] data[k]).index == score.index && number_key(data[k].relevance_score) == number_key(
            score.relevance_score,
        )
}

proof fn lemma_scores_taken(data: Seq<RerankResult>, seen: Seq<bool>, from: nat, done: Seq<RerankResult>)
    requires
        from <= data.len(),
        done.len() == from,
        forall|i: int|
            0 <= i < done.len() ==> given_for(data, #[trigger] done[i]) && 0 <= number_key(done[i].relevance_score)
                <= 0x3ff0000000000000 && done[i].relevance_score != 0x8000000000000000,
    ensures
        scores_taken(data, seen, from, done) matches Some(scores) ==> scores.len() == data.len() && forall|i: int|
            0 <= i < scores.len() ==> given_for(data, #[trigger] scores[i]) && 0 <= number_key(scores[i].relevance_score)
                <= 0x3ff0000000000000 && scores[i].relevance_score != 0x8000000000000000,
    decreases data.len() - from,
{
    if from < data.len() {
        let item = data[from as int];
        if item.index < seen.len() && !seen[item.index as int] && crate::reranking::score_valid(item.relevance_score) {
            let score = RerankResult {
                index: item.index,
                relevance_score: if crate::arithmetic::same_number(item.relevance_score, 0) {
                    0
                } else {
                    item.relevance_score
                },
            };
            assert(given_for(data, score)) by {
                assert(data[from as int].index == score.index);
            }
            lemma_scores_taken(data, seen.update(item.index as int, true), from + 1, done.push(score));
        }
    }
}

/// The scores of a reranker that are taken are those that it gave, each from zero to one, and come from
/// the best to the worst.
pub proof fn law_scores_best_first(data: Seq<RerankResult>, echo: Option<Seq<char>>, count: nat, model: Seq<char>)
    requires
        data.len() <= usize::MAX,
    ensures
        reply_taken(data, echo, count, model) matches Some(scores) ==> {
            &&& scores.len() == count
            &&& echo matches Some(echo) ==> echo == model
            &&& best_scores_first(scores)
            &&& scores_in_range(scores)
            &&& forall|i: int| 0 <= i < scores.len() ==> given_for(data, #[trigger] scores[i])
        },
{
    if let Some(scores) = reply_taken(data, echo, count, model) {
        let seen = Seq::new(count, |i: int| false);
        lemma_scores_taken(data, seen, 0, Seq::empty());
        let all = scores_taken(data, seen, 0, Seq::empty())->Some_0;
        let before = rerank_order(all);
        let order = sorted(all.len() as usize, before);
        lemma_rerank_order(all);
        law_sorted(all.len() as usize, before);
        lemma_sorted_each(all.len() as usize, before);
        assert forall|i: int, j: int| 0 <= i < j < scores.len() implies number_key((#[trigger] scores[i]).relevance_score) >= number_key(
            (#[trigger] scores[j]).relevance_score,
        ) by {
            assert(leads(before, order[i], order[j]));
            assert(scores[i] == all[order[i] as int] && scores[j] == all[order[j] as int]);
            if before(order[j], order[i]) {
                assert(before(order[i], order[j]));
            }
        }
        assert forall|i: int| 0 <= i < scores.len() implies given_for(data, #[trigger] scores[i]) && 0 <= number_key(
            scores[i].relevance_score,
        ) <= 0x3ff0000000000000 by {
            assert(scores[i] == all[order[i] as int]);
        }
    }
}

/// How many bytes are sent to have documents ranked: for each of them its own, those of the query and
/// what is kept free.
pub open spec fn bytes_sent(query: Seq<char>, documents: Seq<Seq<char>>) -> nat
    decreases documents.len(),
{
    if documents.len() == 0 {
        0
    } else {
        bytes_sent(query, documents.drop_last()) + byte_count(query) + byte_count(documents.last()) + PROMPT_BUDGET as nat
    }
}

/// Whether a text has something in it and no NUL.
pub open spec fn sendable(text: Seq<char>) -> bool {
    !blank(text) && !text.contains('\0')
}

/// Whether a document can be sent with a query.
pub open spec fn pairs_with(query: Seq<char>, document: Seq<char>) -> bool {
    sendable(document) && byte_count(query) + byte_count(document) + PROMPT_BUDGET as nat <= MAX_PAIR_BUDGET
}

proof fn lemma_bytes_grow(query: Seq<char>, documents: Seq<Seq<char>>, from: nat)
    requires
        from <= documents.len(),
    ensures
        bytes_sent(query, documents.take(from as int)) <= bytes_sent(query, documents),
    decreases documents.len() - from,
{
    if from < documents.len() {
        assert(documents.take(from as int + 1).drop_last() =~= documents.take(from as int));
        lemma_bytes_grow(query, documents, from + 1);
    } else {
        assert(documents.take(from as int) =~= documents);
    }
}

proof fn lemma_documents(query: Seq<char>, documents: Seq<Seq<char>>, from: nat)
    requires
        from <= documents.len(),
        bytes_sent(query, documents.take(from as int)) <= MAX_TOTAL_BUDGET,
    ensures
        documents_checked(query, documents, from, bytes_sent(query, documents.take(from as int))) is Ok <==> (forall|i: int|
            from <= i < documents.len() ==> pairs_with(query, #[trigger] documents[i])) && bytes_sent(query, documents)
            <= MAX_TOTAL_BUDGET,
    decreases documents.len() - from,
{
    if from < documents.len() {
        assert(documents.take(from as int + 1).drop_last() =~= documents.take(from as int));
        let next = bytes_sent(query, documents.take(from as int + 1));
        lemma_bytes_grow(query, documents, from + 1);
        if pairs_with(query, documents[from as int]) && next <= MAX_TOTAL_BUDGET {
            lemma_documents(query, documents, from + 1);
        }
    } else {
        assert(documents.take(from as int) =~= documents);
    }
}

/// Documents are sent to be ranked if the query and each of them has text, without NUL, the query is
/// not too long, there are some documents and not too many, and neither a pair nor all of them have
/// too many bytes.
pub proof fn law_ranking_input(query: Seq<char>, documents: Seq<Seq<char>>)
    ensures
        input_checked(query, documents) is Ok <==> {
            &&& sendable(query)
            &&& byte_count(query) <= MAX_QUERY_BYTES
            &&& 1 <= documents.len() <= MAX_CANDIDATES
            &&& forall|i: int| 0 <= i < documents.len() ==> pairs_with(query, #[trigger] documents[i])
            &&& bytes_sent(query, documents) <= MAX_TOTAL_BUDGET
        },
{
    assert(documents.take(0) =~= Seq::<Seq<char>>::empty());
    lemma_documents(query, documents, 0);
}

/// A reply is taken if and only if its status is one of success. Whatever is the fault of the service,
/// which it says with a status from five hundred on, leaves it unavailable.
pub proof fn law_status(status: u16)
    ensures
        status_error(status) is None <==> status / 100 == 2,
        status / 100 == 5 ==> status_error(status) == Some(RerankingErrorView::Unavailable),
        status_error(status) == Some(RerankingErrorView::RateLimited) <==> status == 429,
        status_error(status) == Some(RerankingErrorView::Authentication) <==> status == 401 || status == 403,
{
}

} // verus!
