//! Which chunks a page shows, and which relationships are followed from a chunk.

use vstd::prelude::*;
use crate::error::ErrorView;
use crate::float::{not_a_number, number_key, Floats};
use crate::graph::{text_in, CollectionView};
use crate::graph_browse::{browsed_rows, page, page_nodes, reading_order, reading_sorted, BrowseRequestView};
use crate::graph_edge::{edge_in, linked_rows, row_named, EdgeView};
use crate::graph_links::{included, GraphNeighborhoodDirection};
use crate::graph_node::{node_of, NodeView};
use crate::graph_traversal::{target_at, targeted, targets_around, targets_from, Target, TraversalView};
use crate::order::{law_sorted, leads, lemma_sorted_each, sorted, weak_order};
use crate::table::TableView;
use crate::text::{lemma_text_order, text_rank, Rank};
use crate::value::ValueView;

verus! {

/// Whether a row is a chunk of a document, where one is asked for.
pub open spec fn asked_for(row: Seq<ValueView>, document: Option<Seq<char>>) -> bool {
    document matches Some(id) ==> text_in(row, 1) == Ok::<Seq<char>, ErrorView>(id)
}

proof fn lemma_browsed(rows: Seq<Seq<ValueView>>, document: Option<Seq<char>>, from: nat, done: Seq<usize>)
    requires
        rows.len() <= usize::MAX,
        from <= rows.len(),
        done.len() <= from,
        forall|i: int| 0 <= i < done.len() ==> (#[trigger] done[i]) < from && asked_for(rows[done[i] as int], document),
        forall|i: int, j: int| 0 <= i < j < done.len() ==> #[trigger] done[i] < #[trigger] done[j],
        forall|at: int| 0 <= at < from && asked_for(#[trigger] rows[at], document) ==> done.contains(at as usize),
    ensures
        ({
            let all = browsed_rows(rows, document, from, done);
            &&& all.len() <= rows.len()
            &&& forall|i: int| 0 <= i < all.len() ==> (#[trigger] all[i]) < rows.len() && asked_for(rows[all[i] as int], document)
            &&& forall|i: int, j: int| 0 <= i < j < all.len() ==> #[trigger] all[i] < #[trigger] all[j]
            &&& forall|at: int| 0 <= at < rows.len() && asked_for(#[trigger] rows[at], document) ==> all.contains(at as usize)
        }),
    decreases rows.len() - from,
{
    if from < rows.len() {
        if asked_for(rows[from as int], document) {
            let next = done.push(from as usize);
            assert forall|at: int| 0 <= at < from + 1 && asked_for(#[trigger] rows[at], document) implies next.contains(at as usize) by {
                if at < from {
                    let i = choose|i: int| 0 <= i < done.len() && done[i] == at as usize;
                    assert(next[i] == at as usize);
                } else {
                    assert(next[done.len() as int] == at as usize);
                }
            }
            lemma_browsed(rows, document, from + 1, next);
        } else {
            lemma_browsed(rows, document, from + 1, done);
        }
    }
}

proof fn lemma_page_nodes(chunks: TableView, documents: TableView, rows: Seq<usize>, first: nat, from: nat, end: nat, done: Seq<NodeView>)
    requires
        first <= from,
        done.len() == from - first,
        from <= end,
        from <= rows.len() || done.len() == 0,
        forall|i: int|
            0 <= i < done.len() ==> node_of(chunks.rows[rows[first + i] as int], documents, false) == Ok::<NodeView, ErrorView>(
                #[trigger] done[i],
            ),
    ensures
        page_nodes(chunks, documents, rows, from, end, done) matches Ok(nodes) ==> {
            &&& forall|i: int|
                0 <= i < nodes.len() ==> node_of(chunks.rows[rows[first + i] as int], documents, false) == Ok::<NodeView, ErrorView>(
                    #[trigger] nodes[i],
                )
            &&& nodes.len() == (if end <= rows.len() {
                end - first
            } else if first <= rows.len() {
                rows.len() - first
            } else {
                0
            })
        },
    decreases end - from,
{
    if from < end && from < rows.len() {
        if let Ok(node) = node_of(chunks.rows[rows[from as int] as int], documents, false) {
            lemma_page_nodes(chunks, documents, rows, first, from + 1, end, done.push(node));
        }
    }
}

/// Whether a row begins with its identifier, its document and its number in it.
pub open spec fn is_chunk_row(row: Seq<ValueView>) -> bool {
    row.len() > 2 && row[0] is Text && row[1] is Text && row[2] is Integer
}

/// Whether one chunk is read before another: in an earlier document, or earlier in the same.
pub open spec fn reads_before(left: Seq<ValueView>, right: Seq<ValueView>) -> bool {
    let first = left[1]->Text_0;
    let second = right[1]->Text_0;
    text_rank(first, second) == Rank::Before || (text_rank(first, second) == Rank::Same && (left[2]->Integer_0 < right[2]->Integer_0
        || (left[2]->Integer_0 == right[2]->Integer_0 && text_rank(left[0]->Text_0, right[0]->Text_0) == Rank::Before)))
}

/// Whether rows are those of the chunks asked for, each once, in the order in which they are read.
pub open spec fn reading_list(order: Seq<usize>, rows: Seq<Seq<ValueView>>, document: Option<Seq<char>>) -> bool {
    &&& order.no_duplicates()
    &&& forall|i: int| 0 <= i < order.len() ==> (#[trigger] order[i]) < rows.len() && asked_for(rows[order[i] as int], document)
    &&& forall|at: int| 0 <= at < rows.len() && asked_for(#[trigger] rows[at], document) ==> order.contains(at as usize)
    &&& (forall|at: int| 0 <= at < rows.len() ==> is_chunk_row(#[trigger] rows[at])) ==> forall|i: int, j: int|
        0 <= i < j < order.len() ==> !reads_before(rows[(#[trigger] order[j]) as int], rows[(#[trigger] order[i]) as int])
}

proof fn lemma_reading_order(rows: Seq<Seq<ValueView>>, found: Seq<usize>, floats: Floats)
    requires
        found.len() <= usize::MAX,
        forall|i: int| 0 <= i < found.len() ==> (#[trigger] found[i]) < rows.len(),
        forall|at: int| 0 <= at < rows.len() ==> is_chunk_row(#[trigger] rows[at]),
    ensures
        weak_order(reading_order(rows, found, floats), found.len() as usize),
        forall|a: usize, b: usize|
            a < found.len() && b < found.len() ==> #[trigger] reading_order(rows, found, floats)(a, b) == reads_before(
                rows[found[a as int] as int],
                rows[found[b as int] as int],
            ),
{
    let before = reading_order(rows, found, floats);
    let count = found.len() as usize;
    assert forall|a: usize, b: usize| a < count && b < count implies #[trigger] before(a, b) == reads_before(
        rows[found[a as int] as int],
        rows[found[b as int] as int],
    ) by {
        assert(is_chunk_row(rows[found[a as int] as int]));
        assert(is_chunk_row(rows[found[b as int] as int]));
    }
    assert forall|a: usize| a < count implies !#[trigger] before(a, a) by {
        let row = rows[found[a as int] as int];
        lemma_text_order(row[1]->Text_0, row[1]->Text_0, row[1]->Text_0);
        lemma_text_order(row[0]->Text_0, row[0]->Text_0, row[0]->Text_0);
        assert(before(a, a) == reads_before(row, row));
    }
    assert forall|a: usize, b: usize, c: usize|
        a < count && b < count && c < count && #[trigger] before(a, b) && #[trigger] before(b, c) implies before(a, c) by {
        lemma_read_thrice(rows[found[a as int] as int], rows[found[b as int] as int], rows[found[c as int] as int]);
        assert(before(a, c) == reads_before(rows[found[a as int] as int], rows[found[c as int] as int]));
    }
    assert forall|a: usize, b: usize, c: usize|
        a < count && b < count && c < count && !#[trigger] before(a, b) && !#[trigger] before(b, c) implies !before(a, c) by {
        lemma_read_thrice(rows[found[a as int] as int], rows[found[b as int] as int], rows[found[c as int] as int]);
        assert(before(a, c) == reads_before(rows[found[a as int] as int], rows[found[c as int] as int]));
    }
}

proof fn lemma_text_thrice(a: Seq<char>, b: Seq<char>, c: Seq<char>)
    ensures
        text_rank(a, b) == Rank::Same ==> text_rank(a, c) == text_rank(b, c),
        text_rank(b, c) == Rank::Same ==> text_rank(a, c) == text_rank(a, b),
        text_rank(a, b) == Rank::Before && text_rank(b, c) == Rank::Before ==> text_rank(a, c) == Rank::Before,
        text_rank(a, b) == Rank::After && text_rank(b, c) == Rank::After ==> text_rank(a, c) == Rank::After,
        text_rank(a, b) == Rank::After && text_rank(b, c) == Rank::Same ==> text_rank(a, c) == Rank::After,
{
    lemma_text_order(a, b, c);
    lemma_text_order(c, b, a);
    lemma_text_order(a, c, b);
    lemma_text_order(b, a, c);
    lemma_text_order(b, c, a);
    lemma_text_order(c, a, b);
}

proof fn lemma_read_thrice(a: Seq<ValueView>, b: Seq<ValueView>, c: Seq<ValueView>)
    ensures
        reads_before(a, b) && reads_before(b, c) ==> reads_before(a, c),
        !reads_before(a, b) && !reads_before(b, c) ==> !reads_before(a, c),
{
    lemma_text_thrice(a[1]->Text_0, b[1]->Text_0, c[1]->Text_0);
    lemma_text_thrice(a[0]->Text_0, b[0]->Text_0, c[0]->Text_0);
}

/// A page shows the chunks asked for from its offset on, in the order in which they are read, as many
/// as its limit or as there are. The order is the same for every page, so pages that follow each other
/// show each chunk once.
pub proof fn law_pages(
    info: CollectionView,
    revision: u64,
    documents: TableView,
    chunks: TableView,
    edges: TableView,
    request: BrowseRequestView,
    floats: Floats,
)
    requires
        chunks.rows.len() <= usize::MAX,
    ensures
        ({
            let order = reading_sorted(chunks.rows, browsed_rows(chunks.rows, request.document_id, 0, Seq::empty()), floats);
            &&& reading_list(order, chunks.rows, request.document_id)
            &&& page(info, revision, documents, chunks, edges, request, floats) matches Ok(shown) ==> {
                &&& shown.total_nodes == order.len()
                &&& shown.offset == request.offset
                &&& shown.limit == request.limit
                &&& shown.collection == info.config.name
                &&& shown.revision == revision
                &&& request.offset + request.limit < order.len() ==> shown.truncated
                &&& shown.nodes.len() == (if request.offset + request.limit <= order.len() {
                    request.limit as int
                } else if request.offset <= order.len() {
                    order.len() - request.offset
                } else {
                    0
                })
                &&& forall|i: int|
                    0 <= i < shown.nodes.len() ==> node_of(chunks.rows[order[request.offset + i] as int], documents, false) == Ok::<
                        NodeView,
                        ErrorView,
                    >(#[trigger] shown.nodes[i])
            }
        }),
{
    let rows = chunks.rows;
    let found = browsed_rows(rows, request.document_id, 0, Seq::empty());
    let before = reading_order(rows, found, floats);
    let count = found.len() as usize;
    let places = sorted(count, before);
    let order = reading_sorted(rows, found, floats);
    lemma_browsed(rows, request.document_id, 0, Seq::empty());
    lemma_sorted_each(count, before);
    assert forall|i: int, j: int| 0 <= i < order.len() && 0 <= j < order.len() && i != j implies order[i] != order[j] by {
        assert(places[i] != places[j]);
        let a = places[i] as int;
        let b = places[j] as int;
        if a < b {
            assert(found[a] < found[b]);
        } else {
            assert(found[b] < found[a]);
        }
    }
    assert forall|at: int| 0 <= at < rows.len() && asked_for(#[trigger] rows[at], request.document_id) implies order.contains(at as usize) by {
        let k = choose|k: int| 0 <= k < found.len() && found[k] == at as usize;
        assert(places.contains(k as usize));
        let i = choose|i: int| 0 <= i < places.len() && places[i] == k as usize;
        assert(order[i] == at as usize);
    }
    assert forall|i: int| 0 <= i < order.len() implies (#[trigger] order[i]) < rows.len() && asked_for(
        rows[order[i] as int],
        request.document_id,
    ) by {
        assert(order[i] == found[places[i] as int]);
    }
    if forall|at: int| 0 <= at < rows.len() ==> is_chunk_row(#[trigger] rows[at]) {
        lemma_reading_order(rows, found, floats);
        law_sorted(count, before);
        assert forall|i: int, j: int| 0 <= i < j < order.len() implies !reads_before(
            rows[(#[trigger] order[j]) as int],
            rows[(#[trigger] order[i]) as int],
        ) by {
            assert(leads(before, places[i], places[j]));
            assert(order[i] == found[places[i] as int] && order[j] == found[places[j] as int]);
            if before(places[j], places[i]) {
                assert(before(places[i], places[j]));
                assert(before(places[j], places[j]));
            }
        }
    }
    lemma_page_nodes(
        chunks,
        documents,
        order,
        request.offset as nat,
        request.offset as nat,
        (request.offset + request.limit) as nat,
        Seq::empty(),
    );
}

/// A relationship is followed where it is of the kind asked for, if one is, and not lighter than
/// asked.
pub proof fn law_relationships_followed(kind: Option<Seq<char>>, min_weight: u64, edge: EdgeView)
    requires
        !not_a_number(min_weight),
        !not_a_number(edge.weight),
    ensures
        included(kind, min_weight, edge) <==> (kind is None || kind == Some(edge.kind)) && number_key(edge.weight) >= number_key(
            min_weight,
        ),
{
}

/// Whether the relationship in a row is followed in a retrieval, and names in a column the chunk in a
/// row.
pub open spec fn points_to(t: TraversalView, position: usize, endpoint: nat, row: usize, weight: u64) -> bool {
    let stored = t.edges.rows[position as int];
    &&& edge_in(stored) matches Ok(edge) && included(t.policy.kind, t.policy.min_weight, edge) && number_key(edge.weight) != 0
        && edge.weight == weight
    &&& text_in(stored, endpoint) matches Ok(id) && row_named(t.chunks.rows, id, 0) == Some(row as nat)
    &&& t.eligible matches Some(rows) ==> rows[row as int]
}

/// Whether every target is one that a relationship points to.
spec fn all_pointed(t: TraversalView, targets: Seq<Target>, id: Seq<char>) -> bool {
    forall|i: int| 0 <= i < targets.len() ==> around(t, id, #[trigger] targets[i])
}

/// Whether a target is one that a relationship of a chunk leads to in the direction asked for.
pub open spec fn around(t: TraversalView, id: Seq<char>, target: Target) -> bool {
    let leaving = linked_rows(t.edges, 1, id).contains(target.edge) && points_to(t, target.edge, 2, target.row, target.weight);
    let arriving = linked_rows(t.edges, 2, id).contains(target.edge) && points_to(t, target.edge, 1, target.row, target.weight);
    match t.policy.direction {
        GraphNeighborhoodDirection::Outgoing => leaving,
        GraphNeighborhoodDirection::Incoming => arriving,
        GraphNeighborhoodDirection::Both => leaving || arriving,
    }
}

/// Whether targets hold a chunk, at no less than a weight.
pub open spec fn reaches(targets: Seq<Target>, row: usize, weight: u64) -> bool {
    exists|i: int| 0 <= i < targets.len() && (#[trigger] targets[i]).row == row && number_key(targets[i].weight) >= number_key(weight)
}

proof fn lemma_target_at(targets: Seq<Target>, row: usize, from: nat)
    ensures
        match target_at(targets, row, from) {
            Some(at) => from <= at < targets.len() && targets[at as int].row == row,
            None => forall|i: int| from <= i < targets.len() ==> (#[trigger] targets[i]).row != row,
        },
    decreases targets.len() - from,
{
    if from < targets.len() && targets[from as int].row != row {
        lemma_target_at(targets, row, from + 1);
    }
}

proof fn lemma_targeted(t: TraversalView, targets: Seq<Target>, added: Target, id: Seq<char>, floats: Floats)
    requires
        all_pointed(t, targets, id),
        around(t, id, added),
        !not_a_number(added.weight),
        forall|i: int| 0 <= i < targets.len() ==> !not_a_number((#[trigger] targets[i]).weight),
        forall|i: int, j: int| 0 <= i < j < targets.len() ==> (#[trigger] targets[i]).row != (#[trigger] targets[j]).row,
    ensures
        ({
            let after = targeted(t.edges.rows, targets, added, floats);
            &&& all_pointed(t, after, id)
            &&& forall|i: int| 0 <= i < after.len() ==> !not_a_number((#[trigger] after[i]).weight)
            &&& forall|i: int, j: int| 0 <= i < j < after.len() ==> (#[trigger] after[i]).row != (#[trigger] after[j]).row
            &&& reaches(after, added.row, added.weight)
            &&& forall|row: usize, weight: u64| #[trigger] reaches(targets, row, weight) ==> reaches(after, row, weight)
        }),
{
    lemma_target_at(targets, added.row, 0);
    let after = targeted(t.edges.rows, targets, added, floats);
    match target_at(targets, added.row, 0) {
        None => {
            assert(after[targets.len() as int] == added);
            assert forall|row: usize, weight: u64| #[trigger] reaches(targets, row, weight) implies reaches(after, row, weight) by {
                let i = choose|i: int|
                    0 <= i < targets.len() && (#[trigger] targets[i]).row == row && number_key(targets[i].weight) >= number_key(weight);
                assert(after[i] == targets[i]);
            }
        },
        Some(at) => {
            assert(after[at as int].row == added.row);
            assert(number_key(after[at as int].weight) >= number_key(added.weight));
            assert forall|row: usize, weight: u64| #[trigger] reaches(targets, row, weight) implies reaches(after, row, weight) by {
                let i = choose|i: int|
                    0 <= i < targets.len() && (#[trigger] targets[i]).row == row && number_key(targets[i].weight) >= number_key(weight);
                assert(after[i].row == row);
                assert(number_key(after[i].weight) >= number_key(targets[i].weight));
            }
            assert forall|i: int, j: int| 0 <= i < j < after.len() implies (#[trigger] after[i]).row != (#[trigger] after[j]).row by {
                assert(after[i].row == targets[i].row && after[j].row == targets[j].row);
            }
        },
    }
}

/// Whether targets are different chunks, each led to by a relationship of a chunk.
spec fn gathered(t: TraversalView, targets: Seq<Target>, id: Seq<char>) -> bool {
    &&& all_pointed(t, targets, id)
    &&& forall|i: int| 0 <= i < targets.len() ==> !not_a_number((#[trigger] targets[i]).weight)
    &&& forall|i: int, j: int| 0 <= i < j < targets.len() ==> (#[trigger] targets[i]).row != (#[trigger] targets[j]).row
}

proof fn lemma_targets(t: TraversalView, floats: Floats, positions: Seq<usize>, endpoint: nat, from: nat, done: Seq<Target>, id: Seq<char>)
    requires
        from <= positions.len(),
        gathered(t, done, id),
        t.chunks.rows.len() <= usize::MAX,
        forall|position: usize, row: usize, weight: u64|
            positions.contains(position) && #[trigger] points_to(t, position, endpoint, row, weight) ==> around(
                t,
                id,
                Target { row, weight, edge: position },
            ),
    ensures
        targets_from(t, floats, positions, endpoint, from, done) matches Ok(targets) ==> {
            &&& gathered(t, targets, id)
            &&& forall|row: usize, weight: u64| #[trigger] reaches(done, row, weight) ==> reaches(targets, row, weight)
            &&& forall|k: int, row: usize, weight: u64|
                from <= k < positions.len() && #[trigger] points_to(t, positions[k], endpoint, row, weight) ==> reaches(
                    targets,
                    row,
                    weight,
                )
        },
    decreases positions.len() - from,
{
    if from < positions.len() {
        let position = positions[from as int];
        let stored = t.edges.rows[position as int];
        if let Ok(edge) = edge_in(stored) {
            assert(!not_a_number(edge.weight)) by {
                lemma_edge_weight(stored);
            }
            let followed = included(t.policy.kind, t.policy.min_weight, edge) && number_key(edge.weight) != 0;
            if !followed {
                lemma_targets(t, floats, positions, endpoint, from + 1, done, id);
            } else if let Ok(name) = text_in(stored, endpoint) {
                if let Some(at) = row_named(t.chunks.rows, name, 0) {
                    lemma_row_named(t.chunks.rows, name, 0);
                    let added = Target { row: at as usize, weight: edge.weight, edge: position };
                    if t.eligible matches Some(rows) && !rows[at as int] {
                        lemma_targets(t, floats, positions, endpoint, from + 1, done, id);
                    } else {
                        assert(positions.contains(position));
                        assert(points_to(t, position, endpoint, at as usize, edge.weight));
                        lemma_targeted(t, done, added, id, floats);
                        let next = targeted(t.edges.rows, done, added, floats);
                        lemma_targets(t, floats, positions, endpoint, from + 1, next, id);
                        if let Ok(targets) = targets_from(t, floats, positions, endpoint, from, done) {
                            assert(reaches(next, at as usize, edge.weight));
                        }
                    }
                }
            }
        }
    }
}

proof fn lemma_edge_weight(stored: Seq<ValueView>)
    ensures
        edge_in(stored) matches Ok(edge) ==> !not_a_number(edge.weight),
{
}

proof fn lemma_row_named(rows: Seq<Seq<ValueView>>, id: Seq<char>, from: nat)
    ensures
        row_named(rows, id, from) matches Some(at) ==> from <= at < rows.len(),
    decreases rows.len() - from,
{
    if from < rows.len() {
        lemma_row_named(rows, id, from + 1);
    }
}

/// From a chunk, a retrieval goes along its relationships in the direction asked for: to different
/// chunks, each by a relationship that is followed and has a weight, and to every chunk that one leads
/// to, by none lighter than that.
pub proof fn law_targets(t: TraversalView, floats: Floats, id: Seq<char>)
    requires
        t.chunks.rows.len() <= usize::MAX,
    ensures
        targets_around(t, floats, id) matches Ok(targets) ==> {
            &&& forall|i: int| 0 <= i < targets.len() ==> around(t, id, #[trigger] targets[i])
            &&& forall|i: int, j: int| 0 <= i < j < targets.len() ==> (#[trigger] targets[i]).row != (#[trigger] targets[j]).row
            &&& forall|target: Target| #[trigger] around(t, id, target) ==> reaches(targets, target.row, target.weight)
        },
{
    let leaving = linked_rows(t.edges, 1, id);
    let arriving = linked_rows(t.edges, 2, id);
    if let Ok(targets) = targets_around(t, floats, id) {
        match t.policy.direction {
            GraphNeighborhoodDirection::Outgoing => lemma_targets(t, floats, leaving, 2, 0, Seq::empty(), id),
            GraphNeighborhoodDirection::Incoming => lemma_targets(t, floats, arriving, 1, 0, Seq::empty(), id),
            GraphNeighborhoodDirection::Both => {
                lemma_targets(t, floats, leaving, 2, 0, Seq::empty(), id);
                let done = targets_from(t, floats, leaving, 2, 0, Seq::empty())->Ok_0;
                lemma_targets(t, floats, arriving, 1, 0, done, id);
            },
        }
        assert forall|target: Target| #[trigger] around(t, id, target) implies reaches(targets, target.row, target.weight) by {
            if leaving.contains(target.edge) && points_to(t, target.edge, 2, target.row, target.weight) && !(t.policy.direction
                is Incoming) {
                let k = choose|k: int| 0 <= k < leaving.len() && leaving[k] == target.edge;
                assert(points_to(t, leaving[k], 2, target.row, target.weight));
            } else {
                let k = choose|k: int| 0 <= k < arriving.len() && arriving[k] == target.edge;
                assert(points_to(t, arriving[k], 1, target.row, target.weight));
            }
        }
    }
}

} // verus!
