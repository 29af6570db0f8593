//! An embeddable SQL engine with first-class vector values.

pub mod admission_laws;
pub mod aggregate;
pub mod aggregate_laws;
pub mod arithmetic;
pub mod ast;
pub mod cache;
pub mod candidate;
pub mod catalog;
pub mod change_laws;
pub mod codec;
pub mod conflict_laws;
pub mod database;
pub mod durable_laws;
pub mod error;
pub mod eval;
pub mod execute;
pub mod explain;
pub mod expression_laws;
pub mod float;
pub mod gpu;
pub mod gpu_batch;
pub mod gpu_batch_laws;
pub mod gpu_scan;
pub mod gpu_transfer_laws;
pub mod graph;
pub mod graph_browse;
pub mod graph_capacity;
pub mod graph_capacity_laws;
pub mod graph_database;
pub mod graph_document;
pub mod graph_edge;
pub mod graph_filter_laws;
pub mod graph_filters;
pub mod graph_explore_laws;
pub mod graph_found_laws;
pub mod graph_ingest;
pub mod graph_laws;
pub mod graph_link_laws;
pub mod graph_links;
pub mod graph_near;
pub mod graph_neighborhood;
pub mod graph_node;
pub mod graph_page_laws;
pub mod graph_rag;
pub mod graph_rag_laws;
pub mod graph_score_laws;
pub mod graph_search;
pub mod graph_search_laws;
pub mod graph_seek_laws;
pub mod graph_select;
pub mod graph_select_laws;
pub mod graph_store;
pub mod graph_text_laws;
pub mod graph_traversal;
pub mod graph_write;
pub mod graph_write_laws;
pub mod group_laws;
pub mod index;
pub mod index_laws;
pub mod insert_laws;
pub mod install;
pub mod intent;
pub mod intent_laws;
pub mod join;
pub mod join_laws;
pub mod join_query;
pub mod join_query_laws;
pub mod json;
pub mod lexical;
pub mod lexical_cache;
pub mod lexical_index_laws;
pub mod lexical_laws;
pub mod nearest;
pub mod nearest_laws;
pub mod notation;
pub mod operators;
pub mod order;
pub mod order_laws;
pub mod parameters;
pub mod parseable;
pub mod projection;
pub mod query;
pub mod read;
pub mod read_laws;
pub mod reranking;
pub mod restore;
pub mod revision_laws;
pub mod scan;
pub mod schema;
pub mod select;
pub mod select_laws;
pub mod shell;
pub mod shell_run;
pub mod slice;
pub mod snapshot;
pub mod snapshot_laws;
pub mod sql;
pub mod statements;
pub mod storable_laws;
pub mod syntax;
pub mod table;
pub mod text;
pub mod tokens;
pub mod types;
pub mod typing_laws;
pub mod unicode;
pub mod update_cli;
pub mod value;
pub mod vector;
pub mod write;

pub use catalog::{ExecutionResult, InsertConflict, QueryResult};
pub use database::Database;
pub use error::{Error, ErrorView};
pub use float::{FloatReply, FloatTask};
pub use graph::{GraphCollection, GraphCollectionConfig, GraphEmbeddingProfile, GraphTables};
pub use graph_browse::{GraphBrowseRequest, GraphBrowseResult};
pub use graph_document::{GraphChunkInput, GraphChunkPreview, GraphDocument, GraphDocumentInput, GraphDocumentPreview};
pub use graph_edge::GraphEdge;
pub use graph_ingest::GraphIngestRequest;
pub use graph_links::{GraphNeighborhoodDirection, GraphRagTraversal};
pub use graph_neighborhood::{GraphNeighborhoodNode, GraphNeighborhoodRequest, GraphNeighborhoodResult};
pub use graph_node::GraphNode;
pub use graph_rag::{GraphRagCandidate, GraphRagSnapshot};
pub use graph_search::{GraphHit, GraphSearchRequest, GraphSearchResult};
pub use graph_select::{GraphRagHit, GraphRagResult, GraphRagSelection};
pub use graph_traversal::{GraphRagPath, GraphRagRequest};
pub use graph_write::{GraphDeleteResult, GraphIngestResult, GraphRelationshipDeleteRequest, GraphRelationshipDeleteResult, GraphRelationshipRequest, GraphRelationshipResult};
pub use intent::{QueryColumnRole, QueryIntent, QueryIntentColumn, VectorQueryIntent};
pub use parameters::bind_parameters;
pub use schema::{IndexInfo, TableInfo};
pub use value::{Column, DataType, Value};
pub use vector::{MAX_VECTOR_DIMENSIONS, Vector};
