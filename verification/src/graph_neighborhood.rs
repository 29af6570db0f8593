//! Exploring the stored, directed relationships around one chunk.

use vstd::prelude::*;
use crate::arithmetic::{between, is_between, ONE, ZERO};
use crate::catalog::{Catalog, CatalogView};
use crate::error::{outcome, plain, Error, ErrorView};
use crate::float::{
    at_least, computes, finite, floats, is_at_least, is_finite, rank_total, total_key, FloatReply, FloatTask, Floats,
};
use crate::graph::{
    bounded_text, collection_of, invalid, misuse, text_at, text_bounded, text_in, CollectionView, DOCUMENT_BASE_COLUMNS,
};
use crate::graph_edge::{edge_in, find_row, linked_rows, read_edge, row_named, EdgeView, GraphEdge};
use crate::graph_links::{
    check_kind, coalesce, coalesced, has_row, included, is_included, kind_checked, optional_text, rank_weighted, rows_below,
    weighted_sorted, GraphLinks, GraphNeighborhoodDirection, Weighted,
};
use crate::graph_node::{node, node_of, GraphNode, NodeView};
use crate::graph_search::{is_same_link, missing_chunk, same_link};
use crate::graph_store::open_collection;
use crate::graph_write::places_of;
use crate::scan::find_index_on;
use crate::table::{Table, TableView};
use crate::text::{int_rank, lemma_views_push, next_rank, rank_text, text_rank, views, Rank};

verus! {

broadcast use {vstd::string::group_string_axioms, lemma_views_push};

/// What to explore, and how far. The least weight is a number as a bit pattern.
#[derive(Debug)]
pub struct GraphNeighborhoodRequest {
    pub collection: String,
    pub chunk_id: String,
    pub max_hops: usize,
    pub neighbor_limit: usize,
    pub max_nodes: usize,
    pub max_edges: usize,
    pub direction: GraphNeighborhoodDirection,
    pub kind: Option<String>,
    pub min_weight: u64,
}

pub struct NeighborhoodRequestView {
    pub collection: Seq<char>,
    pub chunk_id: Seq<char>,
    pub max_hops: nat,
    pub neighbor_limit: nat,
    pub max_nodes: nat,
    pub max_edges: nat,
    pub direction: GraphNeighborhoodDirection,
    pub kind: Option<Seq<char>>,
    pub min_weight: u64,
}

impl View for GraphNeighborhoodRequest {
    type V = NeighborhoodRequestView;

    open spec fn view(&self) -> NeighborhoodRequestView {
        NeighborhoodRequestView {
            collection: self.collection@,
            chunk_id: self.chunk_id@,
            max_hops: self.max_hops as nat,
            neighbor_limit: self.neighbor_limit as nat,
            max_nodes: self.max_nodes as nat,
            max_edges: self.max_edges as nat,
            direction: self.direction,
            kind: optional_text(self.kind),
            min_weight: self.min_weight,
        }
    }
}

/// A chunk with the length of the shortest way by which it was found.
pub struct GraphNeighborhoodNode {
    pub node: GraphNode,
    pub depth: usize,
}

pub struct NeighborView {
    pub node: NodeView,
    pub depth: nat,
}

impl View for GraphNeighborhoodNode {
    type V = NeighborView;

    open spec fn view(&self) -> NeighborView {
        NeighborView { node: self.node@, depth: self.depth as nat }
    }
}

/// What exploring found.
pub struct GraphNeighborhoodResult {
    pub collection: String,
    pub revision: u64,
    pub root_chunk: String,
    pub nodes: Vec<GraphNeighborhoodNode>,
    pub edges: Vec<GraphEdge>,
    pub truncated: bool,
}

pub struct NeighborhoodView {
    pub collection: Seq<char>,
    pub revision: u64,
    pub root_chunk: Seq<char>,
    pub nodes: Seq<NeighborView>,
    pub edges: Seq<EdgeView>,
    pub truncated: bool,
}

impl View for GraphNeighborhoodResult {
    type V = NeighborhoodView;

    open spec fn view(&self) -> NeighborhoodView {
        NeighborhoodView {
            collection: self.collection@,
            revision: self.revision,
            root_chunk: self.root_chunk@,
            nodes: views(self.nodes@),
            edges: views(self.edges@),
            truncated: self.truncated,
        }
    }
}

impl NeighborhoodRequestView {
    /// Whether the bounds are within those of every exploration.
    pub open spec fn bounded(self) -> bool {
        &&& self.max_hops <= 3
        &&& 1 <= self.neighbor_limit <= 32
        &&& 1 <= self.max_nodes <= 200
        &&& self.max_edges <= 2000
        &&& finite(self.min_weight)
        &&& between(self.min_weight, ZERO, ONE)
    }

    pub open spec fn checked(self) -> Result<(), ErrorView> {
        if !self.bounded() {
            Err(
                misuse(
                    "graph neighborhood requires hops 0..3, neighbors 1..32, nodes 1..200, edges 0..2000, and finite minimum weight 0..1"@,
                ),
            )
        } else {
            match text_bounded(self.chunk_id, 1024, false, "root chunk id"@) {
                Err(error) => Err(error),
                Ok(_) => kind_checked(self.kind),
            }
        }
    }

    /// Whether exploring follows a relationship.
    pub open spec fn includes(self, edge: EdgeView) -> bool {
        included(self.kind, self.min_weight, edge)
    }
}

impl GraphNeighborhoodRequest {
    pub fn validate(&self) -> (result: Result<(), Error>)
        ensures
            plain(result) == self@.checked(),
    {
        if self.max_hops > 3 || self.neighbor_limit < 1 || self.neighbor_limit > 32 || self.max_nodes < 1 || self.max_nodes > 200
            || self.max_edges > 2000 || !is_finite(self.min_weight) || !is_between(self.min_weight, ZERO, ONE) {
            return Err(
                invalid(
                    "graph neighborhood requires hops 0..3, neighbors 1..32, nodes 1..200, edges 0..2000, and finite minimum weight 0..1",
                ),
            );
        }
        bounded_text(self.chunk_id.as_str(), 1024, false, "root chunk id")?;
        check_kind(&self.kind)
    }

    pub fn includes(&self, edge: &GraphEdge) -> (result: bool)
        ensures
            result == self@.includes(edge@),
    {
        is_included(&self.kind, self.min_weight, edge)
    }
}

/// The chunks that the relationships at the positions from `from` on lead to and that were not yet
/// seen, each at its largest weight, after `done`.
pub open spec fn near_links(
    chunks: TableView,
    edges: TableView,
    request: NeighborhoodRequestView,
    seen: Seq<usize>,
    positions: Seq<usize>,
    endpoint: nat,
    from: nat,
    done: Seq<Weighted>,
) -> Result<Seq<Weighted>, ErrorView>
    decreases positions.len() - from,
{
    if from >= positions.len() {
        Ok(done)
    } else {
        let row = edges.rows[positions[from as int] as int];
        match edge_in(row) {
            Err(error) => Err(error),
            Ok(edge) => if !request.includes(edge) {
                near_links(chunks, edges, request, seen, positions, endpoint, from + 1, done)
            } else {
                match text_in(row, endpoint) {
                    Err(error) => Err(error),
                    Ok(id) => match row_named(chunks.rows, id, 0) {
                        None => Err(missing_chunk()),
                        Some(at) => near_links(
                            chunks,
                            edges,
                            request,
                            seen,
                            positions,
                            endpoint,
                            from + 1,
                            if seen.contains(at as usize) {
                                done
                            } else {
                                coalesced(done, at as usize, edge.weight)
                            },
                        ),
                    },
                }
            },
        }
    }
}

/// The chunks around one, each at its largest weight.
pub open spec fn near_chunks(
    chunks: TableView,
    edges: TableView,
    request: NeighborhoodRequestView,
    seen: Seq<usize>,
    id: Seq<char>,
) -> Result<Seq<Weighted>, ErrorView> {
    let leaving = linked_rows(edges, 1, id);
    let arriving = linked_rows(edges, 2, id);
    match request.direction {
        GraphNeighborhoodDirection::Outgoing => near_links(chunks, edges, request, seen, leaving, 2, 0, Seq::empty()),
        GraphNeighborhoodDirection::Incoming => near_links(chunks, edges, request, seen, arriving, 1, 0, Seq::empty()),
        GraphNeighborhoodDirection::Both => match near_links(chunks, edges, request, seen, leaving, 2, 0, Seq::empty()) {
            Err(error) => Err(error),
            Ok(done) => near_links(chunks, edges, request, seen, arriving, 1, 0, done),
        },
    }
}

fn gather_links(
    links: &GraphLinks,
    request: &GraphNeighborhoodRequest,
    seen: &Vec<usize>,
    positions: &Vec<usize>,
    endpoint: usize,
    done: &mut Vec<Weighted>,
) -> (result: Result<(), Error>)
    requires
        links.wf(),
        rows_below(old(done)@, links.chunks.rows@.len()),
        forall|i: int| 0 <= i < positions@.len() ==> (#[trigger] positions@[i]) < links.edges.rows@.len(),
    ensures
        match result {
            Ok(_) => near_links(
                links.chunks@,
                links.edges@,
                request@,
                seen@,
                positions@,
                endpoint as nat,
                0,
                old(done)@,
            ) == Ok::<Seq<Weighted>, ErrorView>(final(done)@) && rows_below(final(done)@, links.chunks.rows@.len()),
            Err(error) => near_links(
                links.chunks@,
                links.edges@,
                request@,
                seen@,
                positions@,
                endpoint as nat,
                0,
                old(done)@,
            ) == Err::<Seq<Weighted>, ErrorView>(error@),
        },
{
    let ghost start = done@;
    let mut at: usize = 0;
    while at < positions.len()
        invariant
            links.wf(),
            start == old(done)@,
            at <= positions@.len(),
            rows_below(done@, links.chunks.rows@.len()),
            forall|i: int| 0 <= i < positions@.len() ==> (#[trigger] positions@[i]) < links.edges.rows@.len(),
            near_links(links.chunks@, links.edges@, request@, seen@, positions@, endpoint as nat, at as nat, done@)
                == near_links(links.chunks@, links.edges@, request@, seen@, positions@, endpoint as nat, 0, start),
        decreases positions@.len() - at,
    {
        let row = &links.edges.rows[positions[at]];
        assert(links.edges@.rows[positions@[at as int] as int] == views(row@));
        at = at + 1;
        let edge = read_edge(row)?;
        if !request.includes(&edge) {
            continue;
        }
        let id = text_at(row, endpoint)?;
        match find_row(&links.chunks.rows, id) {
            None => return Err(invalid("graph edge references a missing chunk")),
            Some(target) => {
                if !has_row(seen, target) {
                    coalesce(done, target, edge.weight, Ghost(links.chunks.rows@.len()));
                }
            },
        }
    }
    Ok(())
}

fn gather_chunks(links: &GraphLinks, request: &GraphNeighborhoodRequest, seen: &Vec<usize>, id: &str) -> (result: Result<
    Vec<Weighted>,
    Error,
>)
    requires
        links.wf(),
    ensures
        match result {
            Ok(found) => near_chunks(links.chunks@, links.edges@, request@, seen@, id@) == Ok::<Seq<Weighted>, ErrorView>(
                found@,
            ) && rows_below(found@, links.chunks.rows@.len()),
            Err(error) => near_chunks(links.chunks@, links.edges@, request@, seen@, id@) == Err::<
                Seq<Weighted>,
                ErrorView,
            >(error@),
        },
{
    let mut found: Vec<Weighted> = Vec::new();
    match request.direction {
        GraphNeighborhoodDirection::Outgoing => {
            let leaving = links.leaving(id);
            gather_links(links, request, seen, &leaving, 2, &mut found)?;
        },
        GraphNeighborhoodDirection::Incoming => {
            let arriving = links.arriving(id);
            gather_links(links, request, seen, &arriving, 1, &mut found)?;
        },
        GraphNeighborhoodDirection::Both => {
            let leaving = links.leaving(id);
            gather_links(links, request, seen, &leaving, 2, &mut found)?;
            let arriving = links.arriving(id);
            gather_links(links, request, seen, &arriving, 1, &mut found)?;
        },
    }
    Ok(found)
}

/// The first `limit` of a list.
pub open spec fn first_of<T>(list: Seq<T>, limit: nat) -> Seq<T> {
    if limit < list.len() {
        list.take(limit as int)
    } else {
        list
    }
}

/// The list with those of another from `from` on.
pub open spec fn all_coalesced(list: Seq<Weighted>, more: Seq<Weighted>, from: nat) -> Seq<Weighted>
    decreases more.len() - from,
{
    if from >= more.len() {
        list
    } else {
        all_coalesced(coalesced(list, more[from as int].row, more[from as int].weight), more, from + 1)
    }
}

/// One layer: the chunks around those of the frontier from `from` on, after `next`.
pub open spec fn spread(
    chunks: TableView,
    edges: TableView,
    request: NeighborhoodRequestView,
    floats: Floats,
    seen: Seq<usize>,
    frontier: Seq<usize>,
    from: nat,
    next: Seq<Weighted>,
    truncated: bool,
) -> Result<(Seq<Weighted>, bool), ErrorView>
    decreases frontier.len() - from,
{
    if from >= frontier.len() {
        Ok((next, truncated))
    } else {
        match text_in(chunks.rows[frontier[from as int] as int], 0) {
            Err(error) => Err(error),
            Ok(id) => match near_chunks(chunks, edges, request, seen, id) {
                Err(error) => Err(error),
                Ok(found) => spread(
                    chunks,
                    edges,
                    request,
                    floats,
                    seen,
                    frontier,
                    from + 1,
                    all_coalesced(
                        next,
                        first_of(weighted_sorted(chunks.rows, found, floats), request.neighbor_limit),
                        0,
                    ),
                    truncated || found.len() > request.neighbor_limit,
                ),
            },
        }
    }
}

fn coalesce_first(list: &mut Vec<Weighted>, more: &Vec<Weighted>, limit: usize, Ghost(count): Ghost<nat>)
    requires
        rows_below(old(list)@, count),
        rows_below(more@, count),
    ensures
        final(list)@ == all_coalesced(old(list)@, first_of(more@, limit as nat), 0),
        rows_below(final(list)@, count),
{
    let ghost kept = first_of(more@, limit as nat);
    let total: usize = if limit < more.len() {
        limit
    } else {
        more.len()
    };
    let mut at: usize = 0;
    while at < total
        invariant
            total == kept.len(),
            kept == first_of(more@, limit as nat),
            total <= more@.len(),
            at <= total,
            rows_below(list@, count),
            rows_below(more@, count),
            all_coalesced(list@, kept, at as nat) == all_coalesced(old(list)@, kept, 0),
        decreases total - at,
    {
        assert(kept[at as int] == more@[at as int]);
        coalesce(list, more[at].row, more[at].weight, Ghost(count));
        at = at + 1;
    }
}

/// Whether every row is below `count`.
pub open spec fn all_below(rows: Seq<usize>, count: nat) -> bool {
    forall|i: int| 0 <= i < rows.len() ==> (#[trigger] rows[i]) < count
}

fn spread_layer<F: Fn(FloatTask) -> FloatReply>(
    f: &F,
    links: &GraphLinks,
    request: &GraphNeighborhoodRequest,
    seen: &Vec<usize>,
    frontier: &Vec<usize>,
    truncated: &mut bool,
) -> (result: Result<Vec<Weighted>, Error>)
    requires
        computes(*f),
        links.wf(),
        all_below(frontier@, links.chunks.rows@.len()),
    ensures
        match result {
            Ok(next) => spread(
                links.chunks@,
                links.edges@,
                request@,
                floats(*f),
                seen@,
                frontier@,
                0,
                Seq::empty(),
                *old(truncated),
            ) == Ok::<(Seq<Weighted>, bool), ErrorView>((next@, *final(truncated))) && rows_below(
                next@,
                links.chunks.rows@.len(),
            ),
            Err(error) => spread(
                links.chunks@,
                links.edges@,
                request@,
                floats(*f),
                seen@,
                frontier@,
                0,
                Seq::empty(),
                *old(truncated),
            ) == Err::<(Seq<Weighted>, bool), ErrorView>(error@),
        },
{
    let mut next: Vec<Weighted> = Vec::new();
    let mut at: usize = 0;
    while at < frontier.len()
        invariant
            computes(*f),
            links.wf(),
            all_below(frontier@, links.chunks.rows@.len()),
            at <= frontier@.len(),
            rows_below(next@, links.chunks.rows@.len()),
            spread(
                links.chunks@,
                links.edges@,
                request@,
                floats(*f),
                seen@,
                frontier@,
                at as nat,
                next@,
                *truncated,
            ) == spread(
                links.chunks@,
                links.edges@,
                request@,
                floats(*f),
                seen@,
                frontier@,
                0,
                Seq::empty(),
                *old(truncated),
            ),
        decreases frontier@.len() - at,
    {
        let row = &links.chunks.rows[frontier[at]];
        assert(links.chunks@.rows[frontier@[at as int] as int] == views(row@));
        let id = text_at(row, 0)?;
        let found = gather_chunks(links, request, seen, id)?;
        let ranked = rank_weighted(f, &links.chunks.rows, &found);
        if ranked.len() > request.neighbor_limit {
            *truncated = true;
        }
        coalesce_first(&mut next, &ranked, request.neighbor_limit, Ghost(links.chunks.rows@.len()));
        at = at + 1;
    }
    Ok(next)
}

/// A chunk, by its row, with the number of steps to it.
pub struct Found {
    pub row: usize,
    pub depth: usize,
}

pub open spec fn rows_of(list: Seq<Weighted>) -> Seq<usize> {
    list.map_values(|item: Weighted| item.row)
}

/// The chunks found with each of the rows at this depth.
pub open spec fn found_at(found: Seq<Found>, rows: Seq<usize>, depth: nat) -> Seq<Found> {
    found + rows.map_values(|row: usize| Found { row, depth: depth as usize })
}

pub open spec fn found_rows(found: Seq<Found>) -> Seq<usize> {
    found.map_values(|item: Found| item.row)
}

/// The chunks found after the layers from `depth` on.
pub open spec fn layered(
    chunks: TableView,
    edges: TableView,
    request: NeighborhoodRequestView,
    floats: Floats,
    depth: nat,
    frontier: Seq<usize>,
    found: Seq<Found>,
    truncated: bool,
) -> Result<(Seq<Found>, bool), ErrorView>
    decreases request.max_hops + 1 - depth,
{
    if depth > request.max_hops {
        Ok((found, truncated))
    } else {
        match spread(chunks, edges, request, floats, found_rows(found), frontier, 0, Seq::empty(), truncated) {
            Err(error) => Err(error),
            Ok((next, more)) => if depth == request.max_hops {
                Ok((found, more || next.len() > 0))
            } else {
                let capacity = (request.max_nodes - found.len()) as nat;
                let rows = rows_of(first_of(weighted_sorted(chunks.rows, next, floats), capacity));
                if rows.len() == 0 {
                    Ok((found, more || next.len() > capacity))
                } else {
                    layered(
                        chunks,
                        edges,
                        request,
                        floats,
                        depth + 1,
                        rows,
                        found_at(found, rows, depth + 1),
                        more || next.len() > capacity,
                    )
                }
            },
        }
    }
}

/// Whether every chunk found has a row below `count`.
pub open spec fn found_below(found: Seq<Found>, count: nat) -> bool {
    forall|i: int| 0 <= i < found.len() ==> (#[trigger] found[i]).row < count
}

fn first_rows(list: &Vec<Weighted>, limit: usize, Ghost(count): Ghost<nat>) -> (rows: Vec<usize>)
    requires
        rows_below(list@, count),
    ensures
        rows@ == rows_of(first_of(list@, limit as nat)),
        all_below(rows@, count),
        rows@.len() <= limit,
{
    let total: usize = if limit < list.len() {
        limit
    } else {
        list.len()
    };
    let mut rows: Vec<usize> = Vec::new();
    while rows.len() < total
        invariant
            total <= list@.len(),
            rows@.len() <= total,
            rows_below(list@, count),
            all_below(rows@, count),
            forall|i: int| 0 <= i < rows@.len() ==> (#[trigger] rows@[i]) == list@[i].row,
        decreases total - rows@.len(),
    {
        let at: usize = rows.len();
        rows.push(list[at].row);
    }
    assert(rows@ =~= rows_of(first_of(list@, limit as nat)));
    rows
}

fn append_found(found: &mut Vec<Found>, seen: &mut Vec<usize>, rows: &Vec<usize>, depth: usize, Ghost(count): Ghost<nat>)
    requires
        old(seen)@ == found_rows(old(found)@),
        found_below(old(found)@, count),
        all_below(rows@, count),
    ensures
        final(found)@ == found_at(old(found)@, rows@, depth as nat),
        final(seen)@ == found_rows(final(found)@),
        found_below(final(found)@, count),
{
    let ghost start = found@;
    let mut at: usize = 0;
    assert(found@ =~= found_at(start, rows@.take(0), depth as nat));
    while at < rows.len()
        invariant
            at <= rows@.len(),
            seen@ == found_rows(found@),
            found_below(found@, count),
            all_below(rows@, count),
            found@ == found_at(start, rows@.take(at as int), depth as nat),
        decreases rows@.len() - at,
    {
        let ghost before = found@;
        found.push(Found { row: rows[at], depth });
        seen.push(rows[at]);
        proof {
            assert(seen@ =~= found_rows(found@));
            assert(rows@.take(at as int + 1) =~= rows@.take(at as int).push(rows@[at as int]));
            assert(found@ =~= found_at(start, rows@.take(at as int + 1), depth as nat));
        }
        at = at + 1;
    }
    assert(rows@.take(at as int) =~= rows@);
}

#[verifier::rlimit(40)]
fn explore_layers<F: Fn(FloatTask) -> FloatReply>(
    f: &F,
    links: &GraphLinks,
    request: &GraphNeighborhoodRequest,
    root: usize,
    truncated: &mut bool,
) -> (result: Result<Vec<Found>, Error>)
    requires
        computes(*f),
        links.wf(),
        root < links.chunks.rows@.len(),
        request@.bounded(),
        !*old(truncated),
    ensures
        match result {
            Ok(found) => layered(
                links.chunks@,
                links.edges@,
                request@,
                floats(*f),
                0,
                seq![root],
                seq![(Found { row: root, depth: 0 })],
                false,
            ) == Ok::<(Seq<Found>, bool), ErrorView>((found@, *final(truncated))) && found_below(
                found@,
                links.chunks.rows@.len(),
            ),
            Err(error) => layered(
                links.chunks@,
                links.edges@,
                request@,
                floats(*f),
                0,
                seq![root],
                seq![(Found { row: root, depth: 0 })],
                false,
            ) == Err::<(Seq<Found>, bool), ErrorView>(error@),
        },
{
    let ghost count = links.chunks.rows@.len();
    let ghost whole = layered(
        links.chunks@,
        links.edges@,
        request@,
        floats(*f),
        0,
        seq![root],
        seq![Found { row: root, depth: 0 }],
        false,
    );
    let mut found: Vec<Found> = Vec::new();
    found.push(Found { row: root, depth: 0 });
    let mut seen: Vec<usize> = Vec::new();
    seen.push(root);
    let mut frontier: Vec<usize> = Vec::new();
    frontier.push(root);
    proof {
        assert(found@ =~= seq![Found { row: root, depth: 0 }]);
        assert(frontier@ =~= seq![root]);
        assert(seen@ =~= found_rows(found@));
    }
    let mut depth: usize = 0;
    while depth <= request.max_hops
        invariant
            computes(*f),
            links.wf(),
            request@.bounded(),
            count == links.chunks.rows@.len(),
            depth <= request.max_hops + 1,
            found@.len() <= request.max_nodes,
            seen@ == found_rows(found@),
            found_below(found@, count),
            all_below(frontier@, count),
            whole == layered(
                links.chunks@,
                links.edges@,
                request@,
                floats(*f),
                0,
                seq![root],
                seq![(Found { row: root, depth: 0 })],
                false,
            ),
            layered(
                links.chunks@,
                links.edges@,
                request@,
                floats(*f),
                depth as nat,
                frontier@,
                found@,
                *truncated,
            ) == whole,
        decreases request.max_hops + 1 - depth,
    {
        let next = spread_layer(f, links, request, &seen, &frontier, truncated)?;
        if depth == request.max_hops {
            if next.len() > 0 {
                *truncated = true;
            }
            return Ok(found);
        }
        let ranked = rank_weighted(f, &links.chunks.rows, &next);
        let capacity: usize = request.max_nodes - found.len();
        if ranked.len() > capacity {
            *truncated = true;
        }
        let rows = first_rows(&ranked, capacity, Ghost(count));
        if rows.len() == 0 {
            return Ok(found);
        }
        depth = depth + 1;
        append_found(&mut found, &mut seen, &rows, depth, Ghost(count));
        frontier = rows;
    }
    Ok(found)
}

/// The order of returned relationships: the heavier first, then by their ends and kind.
pub open spec fn strongest_rank(left: EdgeView, right: EdgeView) -> Rank {
    next_rank(
        int_rank(total_key(right.weight), total_key(left.weight)),
        next_rank(
            text_rank(left.from_chunk, right.from_chunk),
            next_rank(text_rank(left.to_chunk, right.to_chunk), text_rank(left.kind, right.kind)),
        ),
    )
}

fn rank_strongest(left: &GraphEdge, right: &GraphEdge) -> (rank: Rank)
    ensures
        rank == strongest_rank(left@, right@),
{
    match rank_total(right.weight, left.weight) {
        Rank::Same => match rank_text(left.from_chunk.as_str(), right.from_chunk.as_str()) {
            Rank::Same => match rank_text(left.to_chunk.as_str(), right.to_chunk.as_str()) {
                Rank::Same => rank_text(left.kind.as_str(), right.kind.as_str()),
                rank => rank,
            },
            rank => rank,
        },
        rank => rank,
    }
}

/// The first place, from `from` on, of a relationship between the same chunks and of the same kind.
pub open spec fn link_at(edges: Seq<EdgeView>, edge: EdgeView, from: nat) -> Option<nat>
    decreases edges.len() - from,
{
    if from >= edges.len() {
        None
    } else if same_link(edges[from as int], edge) {
        Some(from)
    } else {
        link_at(edges, edge, from + 1)
    }
}

/// The place of a relationship in order, from `from` on.
pub open spec fn strongest_place(edges: Seq<EdgeView>, edge: EdgeView, from: nat) -> nat
    decreases edges.len() - from,
{
    if from < edges.len() && strongest_rank(edges[from as int], edge) == Rank::Before {
        strongest_place(edges, edge, from + 1)
    } else {
        from
    }
}

/// The strongest relationships, at most `limit`, with whether one has been left out.
#[derive(Debug)]
pub struct BoundedEdges {
    pub limit: usize,
    pub ordered: Vec<GraphEdge>,
    pub truncated: bool,
}

pub struct BoundedView {
    pub limit: nat,
    pub ordered: Seq<EdgeView>,
    pub truncated: bool,
}

impl View for BoundedEdges {
    type V = BoundedView;

    open spec fn view(&self) -> BoundedView {
        BoundedView { limit: self.limit as nat, ordered: views(self.ordered@), truncated: self.truncated }
    }
}

impl BoundedView {
    /// With a relationship at its place, and without the weakest where there are then too many.
    pub open spec fn placed(self, edge: EdgeView) -> BoundedView {
        let ordered = self.ordered.insert(strongest_place(self.ordered, edge, 0) as int, edge);
        if ordered.len() > self.limit {
            BoundedView { ordered: ordered.drop_last(), truncated: true, ..self }
        } else {
            BoundedView { ordered, ..self }
        }
    }

    /// With a relationship; of two between the same chunks and of the same kind the heavier stays.
    pub open spec fn with_edge(self, edge: EdgeView) -> BoundedView {
        match link_at(self.ordered, edge, 0) {
            None => self.placed(edge),
            Some(at) => if at_least(self.ordered[at as int].weight, edge.weight) {
                self
            } else {
                BoundedView { ordered: self.ordered.remove(at as int), ..self }.placed(edge)
            },
        }
    }
}

impl BoundedEdges {
    pub fn new(limit: usize) -> (edges: BoundedEdges)
        ensures
            edges@ == (BoundedView { limit: limit as nat, ordered: Seq::empty(), truncated: false }),
    {
        let ordered: Vec<GraphEdge> = Vec::new();
        assert(views(ordered@) =~= Seq::<EdgeView>::empty());
        BoundedEdges { limit, ordered, truncated: false }
    }

    fn place(&mut self, edge: GraphEdge)
        requires
            old(self).ordered@.len() < usize::MAX,
        ensures
            final(self)@ == old(self)@.placed(edge@),
            final(self).ordered@.len() <= old(self).ordered@.len() + 1,
            old(self).ordered@.len() <= old(self).limit ==> final(self).ordered@.len() <= old(self).limit,
    {
        let mut at: usize = 0;
        let mut before = true;
        while before
            invariant
                *self == *old(self),
                at <= self.ordered@.len(),
                before ==> strongest_place(self@.ordered, edge@, at as nat) == strongest_place(self@.ordered, edge@, 0),
                !before ==> at == strongest_place(self@.ordered, edge@, 0),
            decreases self.ordered@.len() - at, (if before { 1int } else { 0int }),
        {
            if at < self.ordered.len() {
                assert(self@.ordered[at as int] == self.ordered@[at as int]@);
                match rank_strongest(&self.ordered[at], &edge) {
                    Rank::Before => {
                        at = at + 1;
                    },
                    _ => {
                        before = false;
                    },
                }
            } else {
                before = false;
            }
        }
        let ghost start = self@;
        self.ordered.insert(at, edge);
        assert(self@.ordered =~= start.ordered.insert(at as int, edge@));
        if self.ordered.len() > self.limit {
            let ghost grown = self@;
            let dropped = self.ordered.pop();
            assert(self@.ordered =~= grown.ordered.drop_last());
            self.truncated = true;
        }
    }

    pub fn insert(&mut self, edge: GraphEdge)
        requires
            old(self).ordered@.len() < usize::MAX,
        ensures
            final(self)@ == old(self)@.with_edge(edge@),
            final(self).limit == old(self).limit,
            old(self).ordered@.len() <= old(self).limit ==> final(self).ordered@.len() <= old(self).limit,
    {
        let mut at: usize = 0;
        while at < self.ordered.len()
            invariant
                *self == *old(self),
                old(self).ordered@.len() < usize::MAX,
                at <= self.ordered@.len(),
                link_at(self@.ordered, edge@, at as nat) == link_at(self@.ordered, edge@, 0),
            decreases self.ordered@.len() - at,
        {
            assert(self@.ordered[at as int] == self.ordered@[at as int]@);
            if is_same_link(&self.ordered[at], &edge) {
                if is_at_least(self.ordered[at].weight, edge.weight) {
                    return;
                }
                let ghost start = self@;
                let removed = self.ordered.remove(at);
                assert(self@.ordered =~= start.ordered.remove(at as int));
                self.place(edge);
                return;
            }
            at = at + 1;
        }
        self.place(edge);
    }
}

/// The strongest relationships after those of the rows at the positions from `from` on.
pub open spec fn bounded_links(
    chunks: TableView,
    edges: TableView,
    request: NeighborhoodRequestView,
    seen: Seq<usize>,
    positions: Seq<usize>,
    from: nat,
    done: BoundedView,
) -> Result<BoundedView, ErrorView>
    decreases positions.len() - from,
{
    if from >= positions.len() {
        Ok(done)
    } else {
        match edge_in(edges.rows[positions[from as int] as int]) {
            Err(error) => Err(error),
            Ok(edge) => if !request.includes(edge) {
                bounded_links(chunks, edges, request, seen, positions, from + 1, done)
            } else {
                match row_named(chunks.rows, edge.to_chunk, 0) {
                    None => Err(missing_chunk()),
                    Some(target) => bounded_links(
                        chunks,
                        edges,
                        request,
                        seen,
                        positions,
                        from + 1,
                        if seen.contains(target as usize) {
                            done.with_edge(edge)
                        } else {
                            done
                        },
                    ),
                }
            },
        }
    }
}

/// The relationships among the chunks found, from the chunk `from` on.
pub open spec fn among(
    chunks: TableView,
    edges: TableView,
    request: NeighborhoodRequestView,
    seen: Seq<usize>,
    from: nat,
    done: BoundedView,
) -> Result<BoundedView, ErrorView>
    decreases seen.len() - from,
{
    if from >= seen.len() {
        Ok(done)
    } else {
        match text_in(chunks.rows[seen[from as int] as int], 0) {
            Err(error) => Err(error),
            Ok(id) => match bounded_links(chunks, edges, request, seen, linked_rows(edges, 1, id), 0, done) {
                Err(error) => Err(error),
                Ok(next) => among(chunks, edges, request, seen, from + 1, next),
            },
        }
    }
}

fn bound_links(
    links: &GraphLinks,
    request: &GraphNeighborhoodRequest,
    seen: &Vec<usize>,
    positions: &Vec<usize>,
    done: &mut BoundedEdges,
) -> (result: Result<(), Error>)
    requires
        links.wf(),
        old(done).ordered@.len() <= old(done).limit < usize::MAX,
        forall|i: int| 0 <= i < positions@.len() ==> (#[trigger] positions@[i]) < links.edges.rows@.len(),
    ensures
        final(done).limit == old(done).limit,
        final(done).ordered@.len() <= final(done).limit,
        match result {
            Ok(_) => bounded_links(links.chunks@, links.edges@, request@, seen@, positions@, 0, old(done)@) == Ok::<
                BoundedView,
                ErrorView,
            >(final(done)@),
            Err(error) => bounded_links(links.chunks@, links.edges@, request@, seen@, positions@, 0, old(done)@)
                == Err::<BoundedView, ErrorView>(error@),
        },
{
    let ghost start = done@;
    let mut at: usize = 0;
    while at < positions.len()
        invariant
            links.wf(),
            start == old(done)@,
            at <= positions@.len(),
            done.limit == old(done).limit,
            done.ordered@.len() <= done.limit < usize::MAX,
            forall|i: int| 0 <= i < positions@.len() ==> (#[trigger] positions@[i]) < links.edges.rows@.len(),
            bounded_links(links.chunks@, links.edges@, request@, seen@, positions@, at as nat, done@) == bounded_links(
                links.chunks@,
                links.edges@,
                request@,
                seen@,
                positions@,
                0,
                start,
            ),
        decreases positions@.len() - at,
    {
        let row = &links.edges.rows[positions[at]];
        assert(links.edges@.rows[positions@[at as int] as int] == views(row@));
        at = at + 1;
        let edge = read_edge(row)?;
        if !request.includes(&edge) {
            continue;
        }
        match find_row(&links.chunks.rows, edge.to_chunk.as_str()) {
            None => return Err(invalid("graph edge references a missing chunk")),
            Some(target) => {
                if has_row(seen, target) {
                    done.insert(edge);
                }
            },
        }
    }
    Ok(())
}

fn link_among(links: &GraphLinks, request: &GraphNeighborhoodRequest, seen: &Vec<usize>) -> (result: Result<BoundedEdges, Error>)
    requires
        links.wf(),
        request.max_edges <= 2000,
        all_below(seen@, links.chunks.rows@.len()),
    ensures
        outcome(result) == among(
            links.chunks@,
            links.edges@,
            request@,
            seen@,
            0,
            (BoundedView { limit: request.max_edges as nat, ordered: Seq::empty(), truncated: false }),
        ),
        result matches Ok(edges) ==> edges.ordered@.len() <= request.max_edges,
{
    let mut done = BoundedEdges::new(request.max_edges);
    let ghost start = done@;
    assert(done.ordered@.len() == done@.ordered.len());
    let mut at: usize = 0;
    while at < seen.len()
        invariant
            links.wf(),
            request.max_edges <= 2000,
            all_below(seen@, links.chunks.rows@.len()),
            at <= seen@.len(),
            start == (BoundedView { limit: request.max_edges as nat, ordered: Seq::empty(), truncated: false }),
            done.limit == request.max_edges,
            done.ordered@.len() <= done.limit,
            among(links.chunks@, links.edges@, request@, seen@, at as nat, done@) == among(
                links.chunks@,
                links.edges@,
                request@,
                seen@,
                0,
                start,
            ),
        decreases seen@.len() - at,
    {
        let row = &links.chunks.rows[seen[at]];
        assert(links.chunks@.rows[seen@[at as int] as int] == views(row@));
        let id = text_at(row, 0)?;
        let positions = links.leaving(id);
        bound_links(links, request, seen, &positions, &mut done)?;
        at = at + 1;
    }
    Ok(done)
}

/// The nodes of the chunks found from `from` on, after `done`.
pub open spec fn nodes_found(
    chunks: TableView,
    documents: TableView,
    found: Seq<Found>,
    from: nat,
    done: Seq<NeighborView>,
) -> Result<Seq<NeighborView>, ErrorView>
    decreases found.len() - from,
{
    if from >= found.len() {
        Ok(done)
    } else {
        match node_of(chunks.rows[found[from as int].row as int], documents, true) {
            Err(error) => Err(error),
            Ok(node) => nodes_found(
                chunks,
                documents,
                found,
                from + 1,
                done.push(NeighborView { node, depth: found[from as int].depth as nat }),
            ),
        }
    }
}

fn read_nodes(chunks: &Table, documents: &Table, found: &Vec<Found>) -> (result: Result<Vec<GraphNeighborhoodNode>, Error>)
    requires
        found_below(found@, chunks.rows@.len()),
        documents.columns@.len() >= DOCUMENT_BASE_COLUMNS,
    ensures
        match result {
            Ok(nodes) => nodes_found(chunks@, documents@, found@, 0, Seq::empty()) == Ok::<Seq<NeighborView>, ErrorView>(
                views(nodes@),
            ),
            Err(error) => nodes_found(chunks@, documents@, found@, 0, Seq::empty()) == Err::<
                Seq<NeighborView>,
                ErrorView,
            >(error@),
        },
{
    let mut nodes: Vec<GraphNeighborhoodNode> = Vec::new();
    assert(views(nodes@) =~= Seq::<NeighborView>::empty());
    let mut at: usize = 0;
    while at < found.len()
        invariant
            found_below(found@, chunks.rows@.len()),
            documents.columns@.len() >= DOCUMENT_BASE_COLUMNS,
            at <= found@.len(),
            nodes_found(chunks@, documents@, found@, at as nat, views(nodes@)) == nodes_found(
                chunks@,
                documents@,
                found@,
                0,
                Seq::empty(),
            ),
        decreases found@.len() - at,
    {
        let row = &chunks.rows[found[at].row];
        assert(chunks@.rows[found@[at as int].row as int] == views(row@));
        let node = node(row, documents, true)?;
        nodes.push(GraphNeighborhoodNode { node, depth: found[at].depth });
        at = at + 1;
    }
    Ok(nodes)
}

/// What exploring these tables around a chunk, by its row, finds.
pub open spec fn explored(
    info: CollectionView,
    revision: u64,
    documents: TableView,
    chunks: TableView,
    edges: TableView,
    request: NeighborhoodRequestView,
    root: usize,
    floats: Floats,
) -> Result<NeighborhoodView, ErrorView> {
    match layered(
        chunks,
        edges,
        request,
        floats,
        0,
        seq![root],
        seq![Found { row: root, depth: 0 }],
        false,
    ) {
        Err(error) => Err(error),
        Ok((found, truncated)) => match nodes_found(chunks, documents, found, 0, Seq::empty()) {
            Err(error) => Err(error),
            Ok(nodes) => match among(
                chunks,
                edges,
                request,
                found_rows(found),
                0,
                BoundedView { limit: request.max_edges, ordered: Seq::empty(), truncated: false },
            ) {
                Err(error) => Err(error),
                Ok(bounded) => Ok(
                    NeighborhoodView {
                        collection: info.config.name,
                        revision,
                        root_chunk: request.chunk_id,
                        nodes,
                        edges: bounded.ordered,
                        truncated: truncated || bounded.truncated,
                    },
                ),
            },
        },
    }
}

/// What exploring a catalog finds.
pub open spec fn neighborhood_of(catalog: CatalogView, request: NeighborhoodRequestView, floats: Floats) -> Result<
    NeighborhoodView,
    ErrorView,
> {
    match request.checked() {
        Err(error) => Err(error),
        Ok(_) => match collection_of(catalog, request.collection) {
            Err(error) => Err(error),
            Ok(info) => {
                let places = places_of(catalog, info);
                let chunks = catalog.tables[places.chunks as int].table;
                match row_named(chunks.rows, request.chunk_id, 0) {
                    None => Err(misuse("graph neighborhood root chunk does not exist"@)),
                    Some(root) => explored(
                        info,
                        catalog.revision,
                        catalog.tables[places.documents as int].table,
                        chunks,
                        catalog.tables[places.edges as int].table,
                        request,
                        root as usize,
                        floats,
                    ),
                }
            },
        },
    }
}

/// Explores the stored relationships around a chunk.
#[verifier::rlimit(40)]
pub fn graph_neighborhood<F: Fn(FloatTask) -> FloatReply>(f: &F, catalog: &Catalog, request: &GraphNeighborhoodRequest) -> (result:
    Result<GraphNeighborhoodResult, Error>)
    requires
        computes(*f),
        catalog.wf(),
    ensures
        outcome(result) == neighborhood_of(catalog@, request@, floats(*f)),
{
    request.validate()?;
    let (info, places) = open_collection(catalog, request.collection.as_str())?;
    proof {
        assert(places == places_of(catalog@, info@));
        assert(catalog@.tables[places.documents as int] == catalog.tables@[places.documents as int]@);
        assert(catalog@.tables[places.chunks as int] == catalog.tables@[places.chunks as int]@);
        assert(catalog@.tables[places.edges as int] == catalog.tables@[places.edges as int]@);
    }
    let documents = &catalog.tables[places.documents].table;
    let chunks = &catalog.tables[places.chunks].table;
    let edges = &catalog.tables[places.edges].table;
    let root: usize = match find_row(&chunks.rows, request.chunk_id.as_str()) {
        Some(root) => root,
        None => return Err(invalid("graph neighborhood root chunk does not exist")),
    };
    let outgoing: usize = match find_index_on(&edges.indexes, 1) {
        Some(index) => index,
        None => return Err(invalid("graph edge source index is missing")),
    };
    let incoming: usize = match find_index_on(&edges.indexes, 2) {
        Some(index) => index,
        None => return Err(invalid("graph edge target index is missing")),
    };
    let links = GraphLinks { chunks, edges, outgoing, incoming };
    let mut truncated = false;
    let found = explore_layers(f, &links, request, root, &mut truncated)?;
    let nodes = read_nodes(chunks, documents, &found)?;
    let mut seen: Vec<usize> = Vec::new();
    while seen.len() < found.len()
        invariant
            seen@.len() <= found@.len(),
            found_below(found@, chunks.rows@.len()),
            all_below(seen@, chunks.rows@.len()),
            forall|i: int| 0 <= i < seen@.len() ==> (#[trigger] seen@[i]) == found@[i].row,
        decreases found@.len() - seen@.len(),
    {
        let at: usize = seen.len();
        seen.push(found[at].row);
    }
    assert(seen@ =~= found_rows(found@));
    let bounded = link_among(&links, request, &seen)?;
    Ok(
        GraphNeighborhoodResult {
            collection: info.config.name,
            revision: catalog.revision,
            root_chunk: request.chunk_id.clone(),
            nodes,
            edges: bounded.ordered,
            truncated: truncated || bounded.truncated,
        },
    )
}

} // verus!
