//! Browsing a collection page by page, and the relationships among chosen chunks.

use vstd::prelude::*;
use crate::arithmetic::{maximum, maximum_of};
use crate::catalog::{Catalog, CatalogView};
use crate::error::{outcome, Error, ErrorView};
use crate::float::{computes, floats, FloatReply, FloatTask, Floats};
use crate::graph::{collection_of, invalid, misuse, text_at, text_in, CollectionView, DOCUMENT_BASE_COLUMNS};
use crate::graph_edge::{edge_in, find_row, linked_rows, read_edge, row_named, rows_linked, EdgeView, GraphEdge};
use crate::graph_links::{column_rank, optional_text, rank_column, GraphRagTraversal, PolicyView};
use crate::graph_neighborhood::link_at;
use crate::graph_node::{node, node_of, GraphNode, NodeView};
use crate::graph_search::{is_same_link, missing_chunk};
use crate::graph_store::open_collection;
use crate::graph_write::{places_of, sort_texts, texts_sorted};
use crate::order::{sort_positions, sorted, Precedes};
use crate::scan::find_index_on;
use crate::table::{Table, TableView};
use crate::text::{lemma_views_push, next_rank, rank_text, same_text, text_rank, views, Rank};
use crate::value::{row_views, Value, ValueView};

verus! {

broadcast use {vstd::string::group_string_axioms, lemma_views_push};

/// The order of relationships by their ends and kind.
pub open spec fn link_rank(left: EdgeView, right: EdgeView) -> Rank {
    next_rank(
        text_rank(left.from_chunk, right.from_chunk),
        next_rank(text_rank(left.to_chunk, right.to_chunk), text_rank(left.kind, right.kind)),
    )
}

fn rank_links(left: &GraphEdge, right: &GraphEdge) -> (rank: Rank)
    ensures
        rank == link_rank(left@, right@),
{
    match rank_text(left.from_chunk.as_str(), right.from_chunk.as_str()) {
        Rank::Same => match rank_text(left.to_chunk.as_str(), right.to_chunk.as_str()) {
            Rank::Same => rank_text(left.kind.as_str(), right.kind.as_str()),
            rank => rank,
        },
        rank => rank,
    }
}

/// The place of a relationship in order, from `from` on.
pub open spec fn link_place(edges: Seq<EdgeView>, edge: EdgeView, from: nat) -> nat
    decreases edges.len() - from,
{
    if from < edges.len() && link_rank(edges[from as int], edge) == Rank::Before {
        link_place(edges, edge, from + 1)
    } else {
        from
    }
}

/// The relationships with one more: at the larger of two weights where it is there already, else at
/// its place.
pub open spec fn link_added(edges: Seq<EdgeView>, edge: EdgeView) -> Seq<EdgeView> {
    match link_at(edges, edge, 0) {
        Some(at) => edges.update(
            at as int,
            EdgeView { weight: maximum(edges[at as int].weight, edge.weight), ..edges[at as int] },
        ),
        None => edges.insert(link_place(edges, edge, 0) as int, edge),
    }
}

fn add_link(edges: &mut Vec<GraphEdge>, edge: GraphEdge)
    requires
        old(edges)@.len() < usize::MAX,
    ensures
        views(final(edges)@) == link_added(views(old(edges)@), edge@),
        final(edges)@.len() <= old(edges)@.len() + 1,
{
    let ghost start = views(edges@);
    let mut at: usize = 0;
    while at < edges.len()
        invariant
            edges@ == old(edges)@,
            start == views(old(edges)@),
            at <= edges@.len(),
            link_at(start, edge@, at as nat) == link_at(start, edge@, 0),
        decreases edges@.len() - at,
    {
        assert(views(edges@)[at as int] == edges@[at as int]@);
        if is_same_link(&edges[at], &edge) {
            let mut stored = edges[at].copy();
            stored.weight = maximum_of(stored.weight, edge.weight);
            edges.set(at, stored);
            assert(views(edges@) =~= link_added(start, edge@));
            return;
        }
        at = at + 1;
    }
    let mut place: usize = 0;
    let mut before = true;
    while before
        invariant
            edges@ == old(edges)@,
            start == views(old(edges)@),
            place <= edges@.len(),
            before ==> link_place(start, edge@, place as nat) == link_place(start, edge@, 0),
            !before ==> place == link_place(start, edge@, 0),
        decreases edges@.len() - place, (if before { 1int } else { 0int }),
    {
        if place < edges.len() {
            assert(views(edges@)[place as int] == edges@[place as int]@);
            match rank_links(&edges[place], &edge) {
                Rank::Before => {
                    place = place + 1;
                },
                _ => {
                    before = false;
                },
            }
        } else {
            before = false;
        }
    }
    edges.insert(place, edge);
    assert(views(edges@) =~= start.insert(place as int, edge@));
}

/// Whether a policy, where there is one, lets a relationship through.
pub open spec fn permitted(policy: Option<PolicyView>, edge: EdgeView) -> bool {
    policy matches Some(policy) ==> policy.includes(edge)
}

pub open spec fn policy_view(policy: Option<&GraphRagTraversal>) -> Option<PolicyView> {
    match policy {
        None => None,
        Some(policy) => Some(policy@),
    }
}

/// The relationships among chosen chunks, after those at the positions from `from` on.
pub open spec fn chosen_links(
    chunks: TableView,
    edges: TableView,
    ids: Seq<Seq<char>>,
    limit: nat,
    policy: Option<PolicyView>,
    positions: Seq<usize>,
    from: nat,
    done: Seq<EdgeView>,
    truncated: bool,
) -> Result<(Seq<EdgeView>, bool), ErrorView>
    decreases positions.len() - from,
{
    if from >= positions.len() {
        Ok((done, truncated))
    } else {
        match edge_in(edges.rows[positions[from as int] as int]) {
            Err(error) => Err(error),
            Ok(edge) => if !permitted(policy, edge) {
                chosen_links(chunks, edges, ids, limit, policy, positions, from + 1, done, truncated)
            } else if row_named(chunks.rows, edge.to_chunk, 0) is None {
                Err(missing_chunk())
            } else if !ids.contains(edge.to_chunk) {
                chosen_links(chunks, edges, ids, limit, policy, positions, from + 1, done, truncated)
            } else if link_added(done, edge).len() > limit {
                chosen_links(
                    chunks,
                    edges,
                    ids,
                    limit,
                    policy,
                    positions,
                    from + 1,
                    link_added(done, edge).drop_last(),
                    true,
                )
            } else {
                chosen_links(
                    chunks,
                    edges,
                    ids,
                    limit,
                    policy,
                    positions,
                    from + 1,
                    link_added(done, edge),
                    truncated,
                )
            },
        }
    }
}

/// The relationships among chosen chunks, after those that start at the chunks from `from` on.
pub open spec fn links_from(
    chunks: TableView,
    edges: TableView,
    ids: Seq<Seq<char>>,
    limit: nat,
    policy: Option<PolicyView>,
    sources: Seq<Seq<char>>,
    from: nat,
    done: Seq<EdgeView>,
    truncated: bool,
) -> Result<(Seq<EdgeView>, bool), ErrorView>
    decreases sources.len() - from,
{
    if from >= sources.len() {
        Ok((done, truncated))
    } else {
        match chosen_links(
            chunks,
            edges,
            ids,
            limit,
            policy,
            linked_rows(edges, 1, sources[from as int]),
            0,
            done,
            truncated,
        ) {
            Err(error) => Err(error),
            Ok((next, more)) => links_from(chunks, edges, ids, limit, policy, sources, from + 1, next, more),
        }
    }
}

/// The relationships among chosen chunks, at most `limit`, ordered by their ends and kind.
pub open spec fn chosen_edges(
    chunks: TableView,
    edges: TableView,
    ids: Seq<Seq<char>>,
    limit: nat,
    policy: Option<PolicyView>,
) -> Result<(Seq<EdgeView>, bool), ErrorView> {
    links_from(chunks, edges, ids, limit, policy, texts_sorted(ids), 0, Seq::empty(), false)
}

pub fn has_id(ids: &Vec<String>, id: &str) -> (result: bool)
    ensures
        result == views(ids@).contains(id@),
{
    let mut index: usize = 0;
    while index < ids.len()
        invariant
            index <= ids@.len(),
            forall|i: int| 0 <= i < index ==> (#[trigger] views(ids@)[i]) != id@,
        decreases ids@.len() - index,
    {
        assert(views(ids@)[index as int] == ids@[index as int]@);
        if same_text(ids[index].as_str(), id) {
            return true;
        }
        index = index + 1;
    }
    false
}

fn choose_links(
    chunks: &Table,
    edges: &Table,
    ids: &Vec<String>,
    limit: usize,
    policy: Option<&GraphRagTraversal>,
    positions: &Vec<usize>,
    done: &mut Vec<GraphEdge>,
    truncated: &mut bool,
) -> (result: Result<(), Error>)
    requires
        old(done)@.len() <= limit < usize::MAX,
        forall|i: int| 0 <= i < positions@.len() ==> (#[trigger] positions@[i]) < edges.rows@.len(),
    ensures
        final(done)@.len() <= limit,
        match result {
            Ok(_) => chosen_links(
                chunks@,
                edges@,
                views(ids@),
                limit as nat,
                policy_view(policy),
                positions@,
                0,
                views(old(done)@),
                *old(truncated),
            ) == Ok::<(Seq<EdgeView>, bool), ErrorView>((views(final(done)@), *final(truncated))),
            Err(error) => chosen_links(
                chunks@,
                edges@,
                views(ids@),
                limit as nat,
                policy_view(policy),
                positions@,
                0,
                views(old(done)@),
                *old(truncated),
            ) == Err::<(Seq<EdgeView>, bool), ErrorView>(error@),
        },
{
    let ghost start = views(done@);
    let mut at: usize = 0;
    while at < positions.len()
        invariant
            start == views(old(done)@),
            at <= positions@.len(),
            done@.len() <= limit < usize::MAX,
            forall|i: int| 0 <= i < positions@.len() ==> (#[trigger] positions@[i]) < edges.rows@.len(),
            chosen_links(
                chunks@,
                edges@,
                views(ids@),
                limit as nat,
                policy_view(policy),
                positions@,
                at as nat,
                views(done@),
                *truncated,
            ) == chosen_links(
                chunks@,
                edges@,
                views(ids@),
                limit as nat,
                policy_view(policy),
                positions@,
                0,
                start,
                *old(truncated),
            ),
        decreases positions@.len() - at,
    {
        let row = &edges.rows[positions[at]];
        assert(edges@.rows[positions@[at as int] as int] == views(row@));
        at = at + 1;
        let edge = read_edge(row)?;
        let allowed = match policy {
            None => true,
            Some(policy) => policy.includes(&edge),
        };
        if !allowed {
            continue;
        }
        if find_row(&chunks.rows, edge.to_chunk.as_str()).is_none() {
            return Err(invalid("graph edge references a missing chunk"));
        }
        if !has_id(ids, edge.to_chunk.as_str()) {
            continue;
        }
        add_link(done, edge);
        assert(views(done@).len() == done@.len());
        if done.len() > limit {
            let ghost grown = views(done@);
            let dropped = done.pop();
            assert(views(done@) =~= grown.drop_last());
            *truncated = true;
        }
    }
    Ok(())
}

/// The relationships among chosen chunks, and whether some were left out.
pub fn induced_edges(
    chunks: &Table,
    edges: &Table,
    index: usize,
    ids: &Vec<String>,
    limit: usize,
    policy: Option<&GraphRagTraversal>,
) -> (result: Result<(Vec<GraphEdge>, bool), Error>)
    requires
        edges.wf(),
        index < edges.indexes@.len(),
        edges.indexes@[index as int].index.column == 1,
        limit < usize::MAX,
    ensures
        match result {
            Ok((found, truncated)) => chosen_edges(
                chunks@,
                edges@,
                views(ids@),
                limit as nat,
                policy_view(policy),
            ) == Ok::<(Seq<EdgeView>, bool), ErrorView>((views(found@), truncated)) && found@.len() <= limit,
            Err(error) => chosen_edges(chunks@, edges@, views(ids@), limit as nat, policy_view(policy)) == Err::<
                (Seq<EdgeView>, bool),
                ErrorView,
            >(error@),
        },
{
    let sources = sort_texts(ids);
    let ghost ordered = views(sources@);
    let mut done: Vec<GraphEdge> = Vec::new();
    assert(views(done@) =~= Seq::<EdgeView>::empty());
    let mut truncated = false;
    let mut at: usize = 0;
    while at < sources.len()
        invariant
            edges.wf(),
            index < edges.indexes@.len(),
            edges.indexes@[index as int].index.column == 1,
            limit < usize::MAX,
            ordered == views(sources@),
            ordered == texts_sorted(views(ids@)),
            at <= sources@.len(),
            done@.len() <= limit,
            links_from(
                chunks@,
                edges@,
                views(ids@),
                limit as nat,
                policy_view(policy),
                ordered,
                at as nat,
                views(done@),
                truncated,
            ) == links_from(
                chunks@,
                edges@,
                views(ids@),
                limit as nat,
                policy_view(policy),
                ordered,
                0,
                Seq::empty(),
                false,
            ),
        decreases sources@.len() - at,
    {
        assert(ordered[at as int] == sources@[at as int]@);
        let positions = rows_linked(edges, index, 1, sources[at].as_str());
        choose_links(chunks, edges, ids, limit, policy, &positions, &mut done, &mut truncated)?;
        at = at + 1;
    }
    Ok((done, truncated))
}

/// A page of a collection.
#[derive(Debug)]
pub struct GraphBrowseRequest {
    pub collection: String,
    pub document_id: Option<String>,
    pub offset: usize,
    pub limit: usize,
    pub max_edges: usize,
}

pub struct BrowseRequestView {
    pub collection: Seq<char>,
    pub document_id: Option<Seq<char>>,
    pub offset: nat,
    pub limit: nat,
    pub max_edges: nat,
}

impl View for GraphBrowseRequest {
    type V = BrowseRequestView;

    open spec fn view(&self) -> BrowseRequestView {
        BrowseRequestView {
            collection: self.collection@,
            document_id: optional_text(self.document_id),
            offset: self.offset as nat,
            limit: self.limit as nat,
            max_edges: self.max_edges as nat,
        }
    }
}

/// What a page holds.
pub struct GraphBrowseResult {
    pub collection: String,
    pub revision: u64,
    pub nodes: Vec<GraphNode>,
    pub edges: Vec<GraphEdge>,
    pub total_nodes: usize,
    pub total_edges: usize,
    pub offset: usize,
    pub limit: usize,
    pub truncated: bool,
}

pub struct BrowseView {
    pub collection: Seq<char>,
    pub revision: u64,
    pub nodes: Seq<NodeView>,
    pub edges: Seq<EdgeView>,
    pub total_nodes: nat,
    pub total_edges: nat,
    pub offset: nat,
    pub limit: nat,
    pub truncated: bool,
}

impl View for GraphBrowseResult {
    type V = BrowseView;

    open spec fn view(&self) -> BrowseView {
        BrowseView {
            collection: self.collection@,
            revision: self.revision,
            nodes: views(self.nodes@),
            edges: views(self.edges@),
            total_nodes: self.total_nodes as nat,
            total_edges: self.total_edges as nat,
            offset: self.offset as nat,
            limit: self.limit as nat,
            truncated: self.truncated,
        }
    }
}

/// The rows from `from` on of the chunks of a document, or of all documents, after `done`.
pub open spec fn browsed_rows(rows: Seq<Seq<ValueView>>, document: Option<Seq<char>>, from: nat, done: Seq<usize>) -> Seq<usize>
    decreases rows.len() - from,
{
    if from >= rows.len() {
        done
    } else if document matches Some(id) ==> text_in(rows[from as int], 1) == Ok::<Seq<char>, ErrorView>(id) {
        browsed_rows(rows, document, from + 1, done.push(from as usize))
    } else {
        browsed_rows(rows, document, from + 1, done)
    }
}

/// The order of chunks: by document, then by their number in it, then by identifier.
pub open spec fn reading_rank(left: Seq<ValueView>, right: Seq<ValueView>, floats: Floats) -> Rank {
    next_rank(
        column_rank(left, right, 1, floats),
        next_rank(column_rank(left, right, 2, floats), column_rank(left, right, 0, floats)),
    )
}

pub open spec fn reading_order(rows: Seq<Seq<ValueView>>, found: Seq<usize>, floats: Floats) -> Precedes {
    |a: usize, b: usize|
        reading_rank(rows[found[a as int] as int], rows[found[b as int] as int], floats) == Rank::Before
}

/// The rows in the order in which they are read.
pub open spec fn reading_sorted(rows: Seq<Seq<ValueView>>, found: Seq<usize>, floats: Floats) -> Seq<usize> {
    sorted(found.len() as usize, reading_order(rows, found, floats)).map_values(|at: usize| found[at as int])
}

fn select_rows(rows: &Vec<Vec<Value>>, document: &Option<String>) -> (found: Vec<usize>)
    ensures
        found@ == browsed_rows(row_views(rows@), optional_text(*document), 0, Seq::empty()),
        forall|i: int| 0 <= i < found@.len() ==> (#[trigger] found@[i]) < rows@.len(),
{
    let ghost wanted = optional_text(*document);
    let mut found: Vec<usize> = Vec::new();
    let mut at: usize = 0;
    while at < rows.len()
        invariant
            wanted == optional_text(*document),
            at <= rows@.len(),
            forall|i: int| 0 <= i < found@.len() ==> (#[trigger] found@[i]) < rows@.len(),
            browsed_rows(row_views(rows@), wanted, at as nat, found@) == browsed_rows(
                row_views(rows@),
                wanted,
                0,
                Seq::empty(),
            ),
        decreases rows@.len() - at,
    {
        assert(row_views(rows@)[at as int] == views(rows@[at as int]@));
        let chosen = match document {
            None => true,
            Some(id) => match text_at(&rows[at], 1) {
                Ok(text) => same_text(text, id.as_str()),
                Err(_) => false,
            },
        };
        if chosen {
            found.push(at);
        }
        at = at + 1;
    }
    found
}

fn sort_reading<F: Fn(FloatTask) -> FloatReply>(f: &F, rows: &Vec<Vec<Value>>, found: &Vec<usize>) -> (result: Vec<usize>)
    requires
        computes(*f),
        forall|i: int| 0 <= i < found@.len() ==> (#[trigger] found@[i]) < rows@.len(),
    ensures
        result@ == reading_sorted(row_views(rows@), found@, floats(*f)),
        result@.len() == found@.len(),
        forall|i: int| 0 <= i < result@.len() ==> (#[trigger] result@[i]) < rows@.len(),
{
    let ghost results = floats(*f);
    let ghost before = reading_order(row_views(rows@), found@, results);
    let precedes = |a: usize, b: usize| -> (result: bool)
        requires
            a < found@.len(),
            b < found@.len(),
        ensures
            result == before(a, b),
        {
            proof {
                assert(found@[a as int] < rows@.len() && found@[b as int] < rows@.len());
                assert(row_views(rows@)[found@[a as int] as int] == views(rows@[found@[a as int] as int]@));
                assert(row_views(rows@)[found@[b as int] as int] == views(rows@[found@[b as int] as int]@));
            }
            let left = &rows[found[a]];
            let right = &rows[found[b]];
            match rank_column(f, left, right, 1) {
                Rank::Before => true,
                Rank::After => false,
                Rank::Same => match rank_column(f, left, right, 2) {
                    Rank::Before => true,
                    Rank::After => false,
                    Rank::Same => match rank_column(f, left, right, 0) {
                        Rank::Before => true,
                        _ => false,
                    },
                },
            }
        };
    let order = sort_positions(found.len(), &precedes, Ghost(before));
    let mut result: Vec<usize> = Vec::new();
    let mut index: usize = 0;
    while index < order.len()
        invariant
            index <= order@.len(),
            forall|i: int| 0 <= i < found@.len() ==> (#[trigger] found@[i]) < rows@.len(),
            forall|i: int| 0 <= i < order@.len() ==> (#[trigger] order@[i]) < found@.len(),
            forall|i: int| 0 <= i < result@.len() ==> (#[trigger] result@[i]) < rows@.len(),
            result@.len() == index,
            forall|i: int| 0 <= i < index ==> (#[trigger] result@[i]) == found@[order@[i] as int],
        decreases order@.len() - index,
    {
        result.push(found[order[index]]);
        index = index + 1;
    }
    assert(result@ =~= reading_sorted(row_views(rows@), found@, results));
    result
}

/// The nodes of the rows from `from` up to `end`, after `done`.
pub open spec fn page_nodes(
    chunks: TableView,
    documents: TableView,
    rows: Seq<usize>,
    from: nat,
    end: nat,
    done: Seq<NodeView>,
) -> Result<Seq<NodeView>, ErrorView>
    decreases end - from,
{
    if from >= end || from >= rows.len() {
        Ok(done)
    } else {
        match node_of(chunks.rows[rows[from as int] as int], documents, false) {
            Err(error) => Err(error),
            Ok(node) => page_nodes(chunks, documents, rows, from + 1, end, done.push(node)),
        }
    }
}

/// The identifiers of nodes.
pub open spec fn node_ids(nodes: Seq<NodeView>) -> Seq<Seq<char>> {
    nodes.map_values(|node: NodeView| node.chunk_id)
}

/// What a page of these tables holds.
pub open spec fn page(
    info: CollectionView,
    revision: u64,
    documents: TableView,
    chunks: TableView,
    edges: TableView,
    request: BrowseRequestView,
    floats: Floats,
) -> Result<BrowseView, ErrorView> {
    let rows = reading_sorted(
        chunks.rows,
        browsed_rows(chunks.rows, request.document_id, 0, Seq::empty()),
        floats,
    );
    let end = request.offset + request.limit;
    match page_nodes(chunks, documents, rows, request.offset, end, Seq::empty()) {
        Err(error) => Err(error),
        Ok(nodes) => match chosen_edges(chunks, edges, node_ids(nodes), request.max_edges, None) {
            Err(error) => Err(error),
            Ok((found, more)) => Ok(
                BrowseView {
                    collection: info.config.name,
                    revision,
                    nodes,
                    edges: found,
                    total_nodes: rows.len(),
                    total_edges: info.edge_count,
                    offset: request.offset,
                    limit: request.limit,
                    truncated: end < rows.len() || more,
                },
            ),
        },
    }
}

/// What a page of a catalog's collection holds.
pub open spec fn browsed(catalog: CatalogView, request: BrowseRequestView, floats: Floats) -> Result<BrowseView, ErrorView> {
    if request.limit < 1 || request.limit > 200 || request.max_edges > 2000 {
        Err(misuse("graph browse requires limit 1..200 and max_edges 0..2000"@))
    } else {
        match collection_of(catalog, request.collection) {
            Err(error) => Err(error),
            Ok(info) => {
                let places = places_of(catalog, info);
                page(
                    info,
                    catalog.revision,
                    catalog.tables[places.documents as int].table,
                    catalog.tables[places.chunks as int].table,
                    catalog.tables[places.edges as int].table,
                    request,
                    floats,
                )
            },
        }
    }
}

fn read_page(chunks: &Table, documents: &Table, rows: &Vec<usize>, offset: usize, end: usize) -> (result: Result<
    (Vec<GraphNode>, Vec<String>),
    Error,
>)
    requires
        documents.columns@.len() >= DOCUMENT_BASE_COLUMNS,
        forall|i: int| 0 <= i < rows@.len() ==> (#[trigger] rows@[i]) < chunks.rows@.len(),
    ensures
        match result {
            Ok((nodes, ids)) => page_nodes(chunks@, documents@, rows@, offset as nat, end as nat, Seq::empty()) == Ok::<
                Seq<NodeView>,
                ErrorView,
            >(views(nodes@)) && views(ids@) == node_ids(views(nodes@)),
            Err(error) => page_nodes(chunks@, documents@, rows@, offset as nat, end as nat, Seq::empty()) == Err::<
                Seq<NodeView>,
                ErrorView,
            >(error@),
        },
{
    let mut nodes: Vec<GraphNode> = Vec::new();
    let mut ids: Vec<String> = Vec::new();
    assert(views(nodes@) =~= Seq::<NodeView>::empty());
    assert(views(ids@) =~= node_ids(views(nodes@)));
    let mut at: usize = offset;
    while at < end && at < rows.len()
        invariant
            documents.columns@.len() >= DOCUMENT_BASE_COLUMNS,
            forall|i: int| 0 <= i < rows@.len() ==> (#[trigger] rows@[i]) < chunks.rows@.len(),
            views(ids@) == node_ids(views(nodes@)),
            page_nodes(chunks@, documents@, rows@, at as nat, end as nat, views(nodes@)) == page_nodes(
                chunks@,
                documents@,
                rows@,
                offset as nat,
                end as nat,
                Seq::empty(),
            ),
        decreases end - at,
    {
        let row = &chunks.rows[rows[at]];
        assert(chunks@.rows[rows@[at as int] as int] == views(row@));
        let node = node(row, documents, false)?;
        let ghost before = views(nodes@);
        ids.push(node.chunk_id.clone());
        nodes.push(node);
        assert(views(ids@) =~= node_ids(views(nodes@)));
        at = at + 1;
    }
    Ok((nodes, ids))
}

proof fn lemma_page_end(chunks: TableView, documents: TableView, rows: Seq<usize>, from: nat, end: nat, other: nat, done: Seq<NodeView>)
    requires
        end >= rows.len() && other >= rows.len() || end == other,
    ensures
        page_nodes(chunks, documents, rows, from, end, done) == page_nodes(chunks, documents, rows, from, other, done),
    decreases rows.len() - from,
{
    if from < rows.len() && from < end {
        match node_of(chunks.rows[rows[from as int] as int], documents, false) {
            Err(_) => {},
            Ok(node) => {
                lemma_page_end(chunks, documents, rows, from + 1, end, other, done.push(node));
            },
        }
    }
}

/// Reads a page of a collection, with citations.
#[verifier::rlimit(40)]
pub fn graph_browse<F: Fn(FloatTask) -> FloatReply>(f: &F, catalog: &Catalog, request: &GraphBrowseRequest) -> (result: Result<
    GraphBrowseResult,
    Error,
>)
    requires
        computes(*f),
        catalog.wf(),
    ensures
        outcome(result) == browsed(catalog@, request@, floats(*f)),
{
    if request.limit < 1 || request.limit > 200 || request.max_edges > 2000 {
        return Err(invalid("graph browse requires limit 1..200 and max_edges 0..2000"));
    }
    let (info, places) = open_collection(catalog, request.collection.as_str())?;
    proof {
        assert(places == places_of(catalog@, info@));
        assert(catalog@.tables[places.documents as int] == catalog.tables@[places.documents as int]@);
        assert(catalog@.tables[places.chunks as int] == catalog.tables@[places.chunks as int]@);
        assert(catalog@.tables[places.edges as int] == catalog.tables@[places.edges as int]@);
    }
    let documents = &catalog.tables[places.documents].table;
    let chunks = &catalog.tables[places.chunks].table;
    let edges = &catalog.tables[places.edges].table;
    let index: usize = match find_index_on(&edges.indexes, 1) {
        Some(index) => index,
        None => return Err(invalid("graph edge source index is missing")),
    };
    let found = select_rows(&chunks.rows, &request.document_id);
    let rows = sort_reading(f, &chunks.rows, &found);
    let total: usize = rows.len();
    let end: usize = request.offset.saturating_add(request.limit);
    proof {
        if request.offset + request.limit > usize::MAX {
            lemma_page_end(
                chunks@,
                documents@,
                rows@,
                request.offset as nat,
                end as nat,
                (request.offset + request.limit) as nat,
                Seq::empty(),
            );
        }
    }
    let (nodes, ids) = read_page(chunks, documents, &rows, request.offset, end)?;
    let (linked, more) = induced_edges(chunks, edges, index, &ids, request.max_edges, None)?;
    Ok(
        GraphBrowseResult {
            collection: info.config.name,
            revision: catalog.revision,
            nodes,
            edges: linked,
            total_nodes: total,
            total_edges: info.edge_count,
            offset: request.offset,
            limit: request.limit,
            truncated: end < total || more,
        },
    )
}

} // verus!
