//! Which chunks are nearest to a vector, and which relationships a document brings.

use vstd::prelude::*;
use crate::arithmetic::exceeds;
use crate::error::ErrorView;
use crate::expression_laws::some_nonzero;
use crate::float::{not_a_number, number_key, FloatReplyView, FloatTaskView, Floats};
use crate::graph::{chunk_name, text_in, ConfigView};
use crate::graph_document::DocumentInputView;
use crate::graph_edge::EdgeView;
use crate::graph_ingest::{adjacent_links, all_semantic_links, document_links, semantic_links};
use crate::graph_near::{chunk_distance, distance_order, distances_from, nearest, similarity, NearChunk};
use crate::order::{law_sorted, lemma_sorted_each, leads, sorted, weak_order};
use crate::value::ValueView;

verus! {

broadcast use vstd::string::group_string_axioms;

proof fn lemma_distances(rows: Seq<Seq<ValueView>>, query: Seq<u32>, floats: Floats, from: nat, done: Seq<u64>)
    requires
        from <= rows.len(),
        done.len() == from,
        forall|i: int| 0 <= i < from ==> chunk_distance(rows[i], query, floats) == Ok::<u64, ErrorView>(#[trigger] done[i]),
    ensures
        distances_from(rows, query, floats, from, done) matches Ok(all) ==> all.len() == rows.len() && forall|i: int|
            0 <= i < rows.len() ==> chunk_distance(rows[i], query, floats) == Ok::<u64, ErrorView>(#[trigger] all[i]),
    decreases rows.len() - from,
{
    if from < rows.len() {
        if let Ok(distance) = chunk_distance(rows[from as int], query, floats) {
            lemma_distances(rows, query, floats, from + 1, done.push(distance));
        }
    }
}

/// The distance of the chunk in a row from a vector: the cosine distance of its embedding, which has
/// as many elements and is not zero, as the vector is not.
pub open spec fn lies_at(row: Seq<ValueView>, query: Seq<u32>, distance: u64, floats: Floats) -> bool {
    &&& row.len() > 8
    &&& row[8] matches ValueView::Vector(elements) && {
        &&& elements.len() == query.len()
        &&& some_nonzero(elements)
        &&& some_nonzero(query)
        &&& floats(FloatTaskView::CosineDistance(elements, query)) matches FloatReplyView::Number(bits) ==> distance == bits
    }
}

proof fn lemma_lies_at(row: Seq<ValueView>, query: Seq<u32>, distance: u64, floats: Floats)
    requires
        chunk_distance(row, query, floats) == Ok::<u64, ErrorView>(distance),
    ensures
        lies_at(row, query, distance, floats),
{
    let elements = row[8]->Vector_0;
    if crate::vector::zero_vector(elements) || crate::vector::zero_vector(query) {
    } else {
        let i = choose|i: int| 0 <= i < elements.len() && crate::vector::element_magnitude(#[trigger] elements[i]) != 0;
        assert(elements[i] != 0 && elements[i] != 0x8000_0000);
        let j = choose|j: int| 0 <= j < query.len() && crate::vector::element_magnitude(#[trigger] query[j]) != 0;
        assert(query[j] != 0 && query[j] != 0x8000_0000);
    }
}

/// Whether the chunk in a row is among those found.
pub open spec fn is_found(found: Seq<NearChunk>, row: int) -> bool {
    exists|i: int| 0 <= i < found.len() && (#[trigger] found[i]).row == row
}

/// Whether every chunk has a distance from a vector that is a number.
pub open spec fn all_measured(rows: Seq<Seq<ValueView>>, query: Seq<u32>, floats: Floats) -> bool {
    forall|i: int|
        0 <= i < rows.len() ==> (#[trigger] chunk_distance(rows[i], query, floats) matches Ok(distance) && !not_a_number(
            distance,
        ))
}

/// The chunks nearest to a vector are as many as asked for, or all, each of them once and with its
/// distance. The nearer ones come first, and no chunk that is left out is nearer than one of them.
pub proof fn law_nearest_chunks(rows: Seq<Seq<ValueView>>, query: Seq<u32>, limit: nat, floats: Floats)
    requires
        rows.len() <= usize::MAX,
    ensures
        nearest(rows, query, limit, floats) matches Ok(found) ==> {
            &&& found.len() == (if limit < rows.len() {
                limit
            } else {
                rows.len()
            })
            &&& forall|i: int|
                0 <= i < found.len() ==> (#[trigger] found[i]).row < rows.len() && lies_at(
                    rows[found[i].row as int],
                    query,
                    found[i].distance,
                    floats,
                )
            &&& forall|i: int, j: int| 0 <= i < j < found.len() ==> (#[trigger] found[i]).row != (#[trigger] found[j]).row
            &&& all_measured(rows, query, floats) ==> forall|i: int, j: int|
                0 <= i < j < found.len() ==> number_key((#[trigger] found[i]).distance) <= number_key(
                    (#[trigger] found[j]).distance,
                )
            &&& all_measured(rows, query, floats) ==> forall|row: int, i: int|
                0 <= row < rows.len() && !is_found(found, row) && 0 <= i < found.len() ==> number_key(
                    (#[trigger] found[i]).distance,
                ) <= number_key((#[trigger] chunk_distance(rows[row], query, floats))->Ok_0)
        },
{
    if let Ok(found) = nearest(rows, query, limit, floats) {
        lemma_distances(rows, query, floats, 0, Seq::empty());
        let distances = distances_from(rows, query, floats, 0, Seq::empty())->Ok_0;
        let before = distance_order(distances);
        let count = distances.len() as usize;
        let order = sorted(count, before);
        lemma_sorted_each(count, before);
        assert forall|i: int| 0 <= i < found.len() implies (#[trigger] found[i]).row < rows.len() && lies_at(
            rows[found[i].row as int],
            query,
            found[i].distance,
            floats,
        ) by {
            assert(found[i].row == order[i]);
            let row = order[i] as int;
            assert(chunk_distance(rows[row], query, floats) == Ok::<u64, ErrorView>(distances[row]));
            lemma_lies_at(rows[row], query, distances[row], floats);
        }
        assert forall|i: int, j: int| 0 <= i < j < found.len() implies (#[trigger] found[i]).row != (#[trigger] found[j]).row by {
            assert(order[i] != order[j]);
        }
        if all_measured(rows, query, floats) {
            assert forall|i: int| 0 <= i < count implies !not_a_number(#[trigger] distances[i]) by {
                assert(chunk_distance(rows[i], query, floats) == Ok::<u64, ErrorView>(distances[i]));
            }
            assert(weak_order(before, count));
            law_sorted(count, before);
            assert forall|i: int, j: int| 0 <= i < j < order.len() implies number_key(distances[(#[trigger] order[i]) as int])
                <= number_key(distances[(#[trigger] order[j]) as int]) by {
                assert(leads(before, order[i], order[j]));
                if before(order[j], order[i]) {
                    assert(before(order[i], order[j]));
                }
            }
            assert forall|row: int, i: int|
                0 <= row < rows.len() && !is_found(found, row) && 0 <= i < found.len() implies number_key(
                (#[trigger] found[i]).distance,
            ) <= number_key((#[trigger] chunk_distance(rows[row], query, floats))->Ok_0) by {
                assert(order.contains(row as usize));
                let at = choose|at: int| 0 <= at < order.len() && order[at] == row as usize;
                if at < found.len() {
                    assert(found[at].row == row);
                    assert(false);
                }
                assert(distances[row] == chunk_distance(rows[row], query, floats)->Ok_0);
                assert(number_key(distances[order[i] as int]) <= number_key(distances[order[at] as int]));
            }
        }
    }
}

/// How alike two vectors at a distance are: what is left of one, from minus one to one.
pub open spec fn alike_at(distance: u64, alike: u64, floats: Floats) -> bool {
    floats(FloatTaskView::Subtract(0x3ff0000000000000, distance)) matches FloatReplyView::Number(bits) ==> !not_a_number(
        bits,
    ) ==> if number_key(bits) < number_key(0xbff0000000000000) {
            alike == 0xbff0000000000000
        } else if number_key(bits) > number_key(0x3ff0000000000000) {
            alike == 0x3ff0000000000000
        } else {
            alike == bits
        }
}

/// Whether a chunk of a document and one that was there are linked, one way or the other, by how
/// alike they are.
pub open spec fn links(edge: EdgeView, rows: Seq<Seq<ValueView>>, name: Seq<char>, near: NearChunk, floats: Floats) -> bool {
    &&& near.row < rows.len()
    &&& text_in(rows[near.row as int], 0) matches Ok(other) && ((edge.from_chunk == name && edge.to_chunk == other) || (
    edge.from_chunk == other && edge.to_chunk == name))
    &&& alike_at(near.distance, edge.weight, floats)
}

/// Whether a relationship is one between the chunks of a document that follow each other.
pub open spec fn neighbors(edge: EdgeView, id: Seq<char>, count: nat) -> bool {
    &&& edge.kind == "adjacent"@
    &&& edge.weight == 0x3ff0000000000000
    &&& exists|k: nat|
        0 < k < count && ((edge.from_chunk == (#[trigger] chunk_name(id, k)) && edge.to_chunk == chunk_name(
            id,
            (k - 1) as nat,
        )) || (edge.to_chunk == chunk_name(id, k) && edge.from_chunk == chunk_name(id, (k - 1) as nat)))
}

/// Whether a relationship is to a chunk that is near to one of a document, and alike enough.
pub open spec fn semantic(
    edge: EdgeView,
    rows: Seq<Seq<ValueView>>,
    document: DocumentInputView,
    config: ConfigView,
    floats: Floats,
) -> bool {
    &&& edge.kind == "semantic"@
    &&& !exceeds(config.semantic_threshold, edge.weight)
    &&& exists|k: int, i: int| #[trigger]
        semantic_with(edge, rows, document, config, floats, k, i)
}

pub open spec fn semantic_with(
    edge: EdgeView,
    rows: Seq<Seq<ValueView>>,
    document: DocumentInputView,
    config: ConfigView,
    floats: Floats,
    k: int,
    i: int,
) -> bool {
    &&& 0 <= k < document.chunks.len()
    &&& nearest(rows, document.chunks[k].embedding, config.semantic_neighbors, floats) matches Ok(found) && 0 <= i < found.len()
        && links(edge, rows, chunk_name(document.id, k as nat), found[i], floats)
}

/// Whether relationships hold those of both ways between two chunks, with this weight.
pub open spec fn both_ways(edges: Seq<EdgeView>, first: Seq<char>, second: Seq<char>, kind: Seq<char>, weight: u64) -> bool {
    &&& edges.contains(EdgeView { from_chunk: first, to_chunk: second, kind, weight })
    &&& edges.contains(EdgeView { from_chunk: second, to_chunk: first, kind, weight })
}

proof fn lemma_adjacent(id: Seq<char>, count: nat, from: nat, done: Seq<EdgeView>)
    requires
        1 <= from,
        forall|e: int| 0 <= e < done.len() ==> neighbors(#[trigger] done[e], id, count),
        forall|k: nat|
            0 < k < from && k < count ==> both_ways(
                done,
                chunk_name(id, (k - 1) as nat),
                #[trigger] chunk_name(id, k),
                "adjacent"@,
                0x3ff0000000000000,
            ),
    ensures
        ({
            let edges = adjacent_links(id, count, from, done);
            &&& forall|e: int| 0 <= e < edges.len() ==> neighbors(#[trigger] edges[e], id, count)
            &&& forall|k: nat|
                0 < k < count ==> both_ways(
                    edges,
                    chunk_name(id, (k - 1) as nat),
                    #[trigger] chunk_name(id, k),
                    "adjacent"@,
                    0x3ff0000000000000,
                )
        }),
    decreases count - from,
{
    if from < count {
        let previous = chunk_name(id, (from - 1) as nat);
        let current = chunk_name(id, from);
        let one = EdgeView { from_chunk: previous, to_chunk: current, kind: "adjacent"@, weight: 0x3ff0000000000000 };
        let other = EdgeView { from_chunk: current, to_chunk: previous, kind: "adjacent"@, weight: 0x3ff0000000000000 };
        let more = done.push(one).push(other);
        assert forall|e: int| 0 <= e < more.len() implies neighbors(#[trigger] more[e], id, count) by {
            if e < done.len() {
                assert(more[e] == done[e]);
            } else {
                assert(chunk_name(id, from) == current);
            }
        }
        assert forall|k: nat| 0 < k < from + 1 && k < count implies both_ways(
            more,
            chunk_name(id, (k - 1) as nat),
            #[trigger] chunk_name(id, k),
            "adjacent"@,
            0x3ff0000000000000,
        ) by {
            if k < from {
                lemma_both_stay(done, one, other, chunk_name(id, (k - 1) as nat), chunk_name(id, k), "adjacent"@, 0x3ff0000000000000);
            } else {
                assert(more[done.len() as int] == one);
                assert(more[done.len() as int + 1] == other);
            }
        }
        lemma_adjacent(id, count, from + 1, more);
    }
}

proof fn lemma_both_stay(
    edges: Seq<EdgeView>,
    one: EdgeView,
    other: EdgeView,
    first: Seq<char>,
    second: Seq<char>,
    kind: Seq<char>,
    weight: u64,
)
    requires
        both_ways(edges, first, second, kind, weight),
    ensures
        both_ways(edges.push(one).push(other), first, second, kind, weight),
{
    let more = edges.push(one).push(other);
    let a = EdgeView { from_chunk: first, to_chunk: second, kind, weight };
    let b = EdgeView { from_chunk: second, to_chunk: first, kind, weight };
    let i = choose|i: int| 0 <= i < edges.len() && edges[i] == a;
    let j = choose|j: int| 0 <= j < edges.len() && edges[j] == b;
    assert(more[i] == a);
    assert(more[j] == b);
}

/// Whether relationships are a beginning of others.
spec fn begins(first: Seq<EdgeView>, all: Seq<EdgeView>) -> bool {
    first.len() <= all.len() && forall|e: int| 0 <= e < first.len() ==> #[trigger] all[e] == first[e]
}

proof fn lemma_both_longer(
    first: Seq<EdgeView>,
    all: Seq<EdgeView>,
    one: Seq<char>,
    other: Seq<char>,
    kind: Seq<char>,
    weight: u64,
)
    requires
        begins(first, all),
        both_ways(first, one, other, kind, weight),
    ensures
        both_ways(all, one, other, kind, weight),
{
    let a = EdgeView { from_chunk: one, to_chunk: other, kind, weight };
    let b = EdgeView { from_chunk: other, to_chunk: one, kind, weight };
    let i = choose|i: int| 0 <= i < first.len() && first[i] == a;
    let j = choose|j: int| 0 <= j < first.len() && first[j] == b;
    assert(all[i] == a);
    assert(all[j] == b);
}

proof fn lemma_semantic_links(
    rows: Seq<Seq<ValueView>>,
    document: DocumentInputView,
    config: ConfigView,
    floats: Floats,
    k: int,
    found: Seq<NearChunk>,
    from: nat,
    done: Seq<EdgeView>,
)
    requires
        0 <= k < document.chunks.len(),
        nearest(rows, document.chunks[k].embedding, config.semantic_neighbors, floats) == Ok::<Seq<NearChunk>, ErrorView>(found),
        forall|i: int| 0 <= i < found.len() ==> (#[trigger] found[i]).row < rows.len(),
        forall|e: int|
            0 <= e < done.len() ==> neighbors(#[trigger] done[e], document.id, document.chunks.len()) || semantic(
                done[e],
                rows,
                document,
                config,
                floats,
            ),
    ensures
        semantic_links(
            rows,
            chunk_name(document.id, k as nat),
            found,
            config.semantic_threshold,
            floats,
            from,
            done,
        ) matches Ok(edges) ==> {
            &&& begins(done, edges)
            &&& forall|e: int|
                0 <= e < edges.len() ==> neighbors(#[trigger] edges[e], document.id, document.chunks.len()) || semantic(
                    edges[e],
                    rows,
                    document,
                    config,
                    floats,
                )
            &&& forall|i: int|
                from <= i < found.len() ==> #[trigger] linked_to(edges, rows, document.id, config, floats, k as nat, found[i])
        },
    decreases found.len() - from,
{
    if from < found.len() {
        let near = found[from as int];
        let alike = similarity(near.distance, floats);
        let name = chunk_name(document.id, k as nat);
        lemma_alike(near.distance, floats);
        if crate::float::finite(near.distance) {
            if exceeds(config.semantic_threshold, alike) {
                lemma_semantic_links(rows, document, config, floats, k, found, from + 1, done);
            } else if let Ok(other) = text_in(rows[near.row as int], 0) {
                let one = EdgeView { from_chunk: name, to_chunk: other, kind: "semantic"@, weight: alike };
                let back = EdgeView { from_chunk: other, to_chunk: name, kind: "semantic"@, weight: alike };
                let more = done.push(one).push(back);
                assert(semantic_with(one, rows, document, config, floats, k, from as int));
                assert(semantic_with(back, rows, document, config, floats, k, from as int));
                assert forall|e: int| 0 <= e < more.len() implies neighbors(
                    #[trigger] more[e],
                    document.id,
                    document.chunks.len(),
                ) || semantic(more[e], rows, document, config, floats) by {
                    if e < done.len() {
                        assert(more[e] == done[e]);
                    } else if e == done.len() {
                        assert(more[e] == one);
                    } else {
                        assert(more[e] == back);
                    }
                }
                assert(more[done.len() as int] == one);
                assert(more[done.len() as int + 1] == back);
                assert(both_ways(more, name, other, "semantic"@, alike));
                lemma_semantic_links(rows, document, config, floats, k, found, from + 1, more);
                if let Ok(edges) = semantic_links(rows, name, found, config.semantic_threshold, floats, from + 1, more) {
                    lemma_both_longer(more, edges, name, other, "semantic"@, alike);
                    assert forall|e: int| 0 <= e < done.len() implies #[trigger] edges[e] == done[e] by {
                        assert(more[e] == done[e]);
                    }
                }
            }
        }
        if let Ok(edges) = semantic_links(rows, name, found, config.semantic_threshold, floats, from, done) {
            assert(linked_to(edges, rows, document.id, config, floats, k as nat, near));
        }
    }
}

proof fn lemma_alike(distance: u64, floats: Floats)
    ensures
        alike_at(distance, similarity(distance, floats), floats),
{
}

/// Whether a chunk of a document is linked both ways to one that is near, by how alike they are,
/// wherever that reaches the threshold.
pub open spec fn linked_to(
    edges: Seq<EdgeView>,
    rows: Seq<Seq<ValueView>>,
    id: Seq<char>,
    config: ConfigView,
    floats: Floats,
    k: nat,
    near: NearChunk,
) -> bool {
    exists|alike: u64| #[trigger]
        alike_at(near.distance, alike, floats) && (exceeds(config.semantic_threshold, alike) || (text_in(
            rows[near.row as int],
            0,
        ) matches Ok(other) && both_ways(edges, chunk_name(id, k), other, "semantic"@, alike)))
}

/// Whether the chunks nearest to a chunk of a document are linked to it.
pub open spec fn nearest_linked(
    edges: Seq<EdgeView>,
    rows: Seq<Seq<ValueView>>,
    document: DocumentInputView,
    config: ConfigView,
    floats: Floats,
    k: int,
) -> bool {
    nearest(rows, document.chunks[k].embedding, config.semantic_neighbors, floats) matches Ok(found) && forall|i: int|
        0 <= i < found.len() ==> #[trigger] linked_to(edges, rows, document.id, config, floats, k as nat, found[i])
}

proof fn lemma_linked_longer(
    first: Seq<EdgeView>,
    all: Seq<EdgeView>,
    rows: Seq<Seq<ValueView>>,
    document: DocumentInputView,
    config: ConfigView,
    floats: Floats,
    k: int,
)
    requires
        begins(first, all),
        nearest_linked(first, rows, document, config, floats, k),
    ensures
        nearest_linked(all, rows, document, config, floats, k),
{
    let found = nearest(rows, document.chunks[k].embedding, config.semantic_neighbors, floats)->Ok_0;
    assert forall|i: int| 0 <= i < found.len() implies #[trigger] linked_to(
        all,
        rows,
        document.id,
        config,
        floats,
        k as nat,
        found[i],
    ) by {
        let near = found[i];
        assert(linked_to(first, rows, document.id, config, floats, k as nat, found[i]));
        let alike = choose|alike: u64| #[trigger]
            alike_at(near.distance, alike, floats) && (exceeds(config.semantic_threshold, alike) || (text_in(
                rows[near.row as int],
                0,
            ) matches Ok(other) && both_ways(first, chunk_name(document.id, k as nat), other, "semantic"@, alike)));
        if !exceeds(config.semantic_threshold, alike) {
            let other = text_in(rows[near.row as int], 0)->Ok_0;
            lemma_both_longer(first, all, chunk_name(document.id, k as nat), other, "semantic"@, alike);
        }
    }
}

proof fn lemma_all_links(
    rows: Seq<Seq<ValueView>>,
    document: DocumentInputView,
    config: ConfigView,
    floats: Floats,
    from: nat,
    done: Seq<EdgeView>,
)
    requires
        rows.len() <= usize::MAX,
        from <= document.chunks.len(),
        forall|e: int|
            0 <= e < done.len() ==> neighbors(#[trigger] done[e], document.id, document.chunks.len()) || semantic(
                done[e],
                rows,
                document,
                config,
                floats,
            ),
        forall|k: int| 0 <= k < from ==> #[trigger] nearest_linked(done, rows, document, config, floats, k),
    ensures
        all_semantic_links(rows, document, config, floats, from, done) matches Ok(edges) ==> {
            &&& begins(done, edges)
            &&& forall|e: int|
                0 <= e < edges.len() ==> neighbors(#[trigger] edges[e], document.id, document.chunks.len()) || semantic(
                    edges[e],
                    rows,
                    document,
                    config,
                    floats,
                )
            &&& forall|k: int|
                0 <= k < document.chunks.len() ==> #[trigger] nearest_linked(edges, rows, document, config, floats, k)
        },
    decreases document.chunks.len() - from,
{
    if from < document.chunks.len() {
        let query = document.chunks[from as int].embedding;
        if let Ok(found) = nearest(rows, query, config.semantic_neighbors, floats) {
            law_nearest_chunks(rows, query, config.semantic_neighbors, floats);
            lemma_semantic_links(rows, document, config, floats, from as int, found, 0, done);
            if let Ok(more) = semantic_links(
                rows,
                chunk_name(document.id, from),
                found,
                config.semantic_threshold,
                floats,
                0,
                done,
            ) {
                assert forall|k: int| 0 <= k < from + 1 implies #[trigger] nearest_linked(
                    more,
                    rows,
                    document,
                    config,
                    floats,
                    k,
                ) by {
                    if k < from {
                        lemma_linked_longer(done, more, rows, document, config, floats, k);
                    }
                }
                lemma_all_links(rows, document, config, floats, from + 1, more);
            }
        }
    }
}

/// Whether relationships are those that a document brings: every one is between chunks of the
/// document that follow each other, or between one of them and a chunk near to it which is alike
/// enough. Of either kind there are all, each both ways.
#[verifier::opaque]
pub open spec fn brought(
    edges: Seq<EdgeView>,
    rows: Seq<Seq<ValueView>>,
    document: DocumentInputView,
    config: ConfigView,
    floats: Floats,
) -> bool {
    &&& forall|e: int|
        0 <= e < edges.len() ==> neighbors(#[trigger] edges[e], document.id, document.chunks.len()) || (
        config.semantic_neighbors > 0 && semantic(edges[e], rows, document, config, floats))
    &&& forall|k: nat|
        0 < k < document.chunks.len() ==> both_ways(
            edges,
            chunk_name(document.id, (k - 1) as nat),
            #[trigger] chunk_name(document.id, k),
            "adjacent"@,
            0x3ff0000000000000,
        )
    &&& config.semantic_neighbors > 0 ==> forall|k: int|
        0 <= k < document.chunks.len() ==> #[trigger] nearest_linked(edges, rows, document, config, floats, k)
}

/// A document brings relationships between chunks that follow each other, and between its chunks and
/// those nearest to them whose likeness is not below the threshold of the collection, with that
/// likeness as the weight: all of these, both ways, and no others.
pub proof fn law_document_links(rows: Seq<Seq<ValueView>>, document: DocumentInputView, config: ConfigView, floats: Floats)
    requires
        rows.len() <= usize::MAX,
    ensures
        document_links(rows, document, config, floats) matches Ok(edges) ==> brought(edges, rows, document, config, floats),
{
    reveal(brought);
    let adjacent = adjacent_links(document.id, document.chunks.len(), 1, Seq::empty());
    lemma_adjacent(document.id, document.chunks.len(), 1, Seq::empty());
    if config.semantic_neighbors > 0 {
        lemma_all_links(rows, document, config, floats, 0, adjacent);
        if let Ok(edges) = document_links(rows, document, config, floats) {
            assert forall|k: nat| 0 < k < document.chunks.len() implies both_ways(
                edges,
                chunk_name(document.id, (k - 1) as nat),
                #[trigger] chunk_name(document.id, k),
                "adjacent"@,
                0x3ff0000000000000,
            ) by {
                lemma_both_longer(
                    adjacent,
                    edges,
                    chunk_name(document.id, (k - 1) as nat),
                    chunk_name(document.id, k),
                    "adjacent"@,
                    0x3ff0000000000000,
                );
            }
        }
    }
}

} // verus!
