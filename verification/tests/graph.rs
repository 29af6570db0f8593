use vectors::ast::{BinaryOperator, Expr, Ident, Literal};
use vectors::graph::{chunk_id, collection_name, index_name, literal, quote};
use vectors::graph_filters::{eligible_chunks, predicate, DocumentFilter};
use vectors::json::Json;
use vectors::lexical::{index_tokens, token_words, tokens, validate_query_text};
use vectors::lexical_cache::LexicalCache;
use vectors::{
    Column, DataType, Database, Error, ExecutionResult, FloatReply, FloatTask, GraphBrowseRequest, GraphChunkInput, GraphCollectionConfig,
    GraphDocumentInput, GraphEmbeddingProfile, GraphIngestRequest, GraphNeighborhoodDirection, GraphNeighborhoodRequest,
    GraphRagRequest, GraphRagSelection, GraphRagTraversal, GraphRelationshipDeleteRequest, GraphRelationshipRequest,
    GraphSearchRequest, Value, Vector,
};

fn lanes(vector: &Vector) -> Vec<f32> {
    vector.as_slice().iter().map(|bits| f32::from_bits(*bits)).collect()
}

fn norm(values: &[f32]) -> f64 {
    values.iter().map(|value| f64::from(*value) * f64::from(*value)).sum::<f64>().sqrt()
}

fn squared(left: &[f32], right: &[f32]) -> f32 {
    left.iter().zip(right).map(|(a, b)| (a - b) * (a - b)).sum()
}

fn number(value: f64) -> FloatReply {
    FloatReply::Number(value.to_bits())
}

fn evaluate(task: FloatTask) -> FloatReply {
    let real = f64::from_bits;
    match task {
        FloatTask::Add(a, b) => number(real(a) + real(b)),
        FloatTask::Subtract(a, b) => number(real(a) - real(b)),
        FloatTask::Multiply(a, b) => number(real(a) * real(b)),
        FloatTask::Divide(a, b) => number(real(a) / real(b)),
        FloatTask::Remainder(a, b) => number(real(a) % real(b)),
        FloatTask::Logarithm(a) => number(real(a).ln()),
        FloatTask::FromInteger(a) => number(a as f64),
        FloatTask::FromCount(a) => number(a as f64),
        FloatTask::Parse(text) => match text.parse::<f64>() {
            Ok(value) => number(value),
            Err(_) => FloatReply::Nothing,
        },
        FloatTask::Narrow(a) => FloatReply::Element((real(a) as f32).to_bits()),
        FloatTask::Text(a) => FloatReply::Text(format!("{}", real(a))),
        FloatTask::SourceText(a) => FloatReply::Text(format!("{:?}", real(a))),
        FloatTask::Thousandths(a) => FloatReply::Text(format!("{:.3}", real(a))),
        FloatTask::ElementText(a) => FloatReply::Text(format!("{}", f32::from_bits(a))),
        FloatTask::ElementSourceText(a) => FloatReply::Text(format!("{:?}", f32::from_bits(a))),
        FloatTask::Norm(a) => number(norm(&lanes(&a))),
        FloatTask::Normalize(a) => {
            let values = lanes(&a);
            let length = norm(&values);
            FloatReply::Elements(values.iter().map(|value| ((f64::from(*value) / length) as f32).to_bits()).collect())
        }
        FloatTask::SquaredDistance(a, b) => number(f64::from(squared(&lanes(&a), &lanes(&b)))),
        FloatTask::Distance(a, b) => number(f64::from(squared(&lanes(&a), &lanes(&b)).sqrt())),
        FloatTask::DotProduct(a, b) => {
            let sum: f32 = lanes(&a).iter().zip(lanes(&b)).map(|(x, y)| x * y).sum();
            number(f64::from(sum))
        }
        FloatTask::CosineDistance(a, b) => {
            let (left, right) = (lanes(&a), lanes(&b));
            let dot: f64 = left.iter().zip(&right).map(|(x, y)| f64::from(*x) * f64::from(*y)).sum();
            number(f64::from((1.0 - dot / (norm(&left) * norm(&right))) as f32))
        }
    }
}

fn take<T>(result: Result<T, Error>) -> T {
    match result {
        Ok(value) => value,
        Err(error) => panic!("{}", error.message()),
    }
}

fn vector(values: &[f32]) -> Vector {
    take(Vector::new(values.iter().map(|value| value.to_bits()).collect()))
}

fn object(text: &str) -> Json {
    match Json::parse(text) {
        Some(json) => json,
        None => panic!("not JSON: {text}"),
    }
}

fn profile() -> GraphEmbeddingProfile {
    GraphEmbeddingProfile { provider: "local".into(), model: "tiny".into(), dimensions: 2, context_format_version: 1 }
}

fn config(name: &str) -> GraphCollectionConfig {
    GraphCollectionConfig { name: name.into(), profile: profile(), semantic_neighbors: 4, semantic_threshold: 0.5_f64.to_bits() }
}

fn document(id: &str, chunks: &[(&str, [f32; 2])], metadata: &str) -> GraphDocumentInput {
    let mut text = String::new();
    let mut parts = Vec::new();
    for (part, lanes) in chunks {
        let start_byte = text.len();
        text.push_str(part);
        parts.push(GraphChunkInput {
            start_byte,
            end_byte: text.len(),
            text: part.to_string(),
            embedding_text: part.to_string(),
            embedding: vector(lanes),
        });
    }
    GraphDocumentInput {
        id: id.into(),
        title: format!("Title {id}"),
        source: "test".into(),
        text,
        metadata: object(metadata),
        chunking: object("{}"),
        chunks: parts,
    }
}

fn ingest(database: &mut Database, document: GraphDocumentInput) -> usize {
    let request = GraphIngestRequest {
        collection: "docs".into(),
        expected_revision: database.revision(),
        expected_profile: profile(),
        document,
    };
    let result = take(database.graph_ingest_document(&evaluate, &request));
    assert_eq!(result.revision, database.revision());
    result.edges_created
}

fn library() -> Database {
    let mut database = Database::new();
    take(database.graph_create_collection(&evaluate, &config("docs")));
    ingest(&mut database, document("a", &[("apple pie ", [1.0, 0.0]), ("banana", [0.8, 0.6])], "{\"kind\":\"food\"}"));
    ingest(&mut database, document("b", &[("apple tree", [0.9, 0.1])], "{\"kind\":\"plant\"}"));
    database
}

fn rag() -> GraphRagRequest {
    GraphRagRequest {
        collection: "docs".into(),
        expected_profile: profile(),
        query: vector(&[1.0, 0.0]),
        query_text: "apple".into(),
        candidate_limit: 10,
        seed_limit: 2,
        max_hops: 1,
        neighbor_limit: 4,
        vector_weight: 1.0_f64.to_bits(),
        lexical_weight: 1.0_f64.to_bits(),
    }
}

#[test]
fn documents_come_back_as_they_were_given() {
    let database = library();
    let found = take(database.graph_document("docs", "a"));
    match found {
        Some(found) => {
            assert_eq!(found.text, "apple pie banana");
            assert_eq!(found.title, "Title a");
            assert_eq!(found.chunk_count, 2);
            assert!(found.chunks_intact);
            assert_eq!(found.metadata.object.to_text(), "{\"kind\":\"food\"}");
        }
        None => panic!("missing document"),
    }
    assert!(take(database.graph_document("docs", "z")).is_none());
    let info = take(database.graph_collection("DOCS"));
    assert_eq!(info.document_count, 2);
    assert_eq!(info.chunk_count, 3);
    assert_eq!(info.tables.chunks, "graph_docs_chunks");
    assert_eq!(take(database.graph_collections()).len(), 1);
}

#[test]
fn a_stale_revision_changes_nothing() {
    let mut database = library();
    let before = database.revision();
    let request = GraphIngestRequest {
        collection: "docs".into(),
        expected_revision: before - 1,
        expected_profile: profile(),
        document: document("c", &[("cherry", [0.0, 1.0])], "{}"),
    };
    match database.graph_ingest_document(&evaluate, &request) {
        Err(Error::RevisionConflict { expected, actual }) => {
            assert_eq!(expected, before - 1);
            assert_eq!(actual, before);
        }
        _ => panic!("expected a conflict"),
    }
    assert_eq!(database.revision(), before);
    assert!(matches!(database.graph_delete_document("docs", "a", before - 1), Err(Error::RevisionConflict { .. })));
    assert_eq!(take(database.graph_collection("docs")).document_count, 2);
}

#[test]
fn replacing_a_document_replaces_its_chunks_and_edges() {
    let mut database = library();
    let before = take(database.graph_collection("docs"));
    ingest(&mut database, document("a", &[("apricot", [1.0, 0.0])], "{}"));
    let after = take(database.graph_collection("docs"));
    assert_eq!(after.document_count, before.document_count);
    assert_eq!(after.chunk_count, 2);
    let removed = take(database.graph_delete_document("docs", "b", database.revision()));
    assert_eq!(removed.chunks_removed, 1);
    let last = take(database.graph_collection("docs"));
    assert_eq!(last.document_count, 1);
    assert_eq!(last.edge_count, 0);
}

#[test]
fn documents_that_do_not_fit_are_refused() {
    let mut database = library();
    let revision = database.revision();
    let mut wrong = document("c", &[("cherry", [0.0, 1.0])], "{}");
    wrong.chunks[0].end_byte = 3;
    let request = GraphIngestRequest {
        collection: "docs".into(),
        expected_revision: revision,
        expected_profile: profile(),
        document: wrong,
    };
    assert!(matches!(database.graph_ingest_document(&evaluate, &request), Err(Error::InvalidQuery(_))));
    let request = GraphIngestRequest {
        document: document("c", &[("cherry", [0.0, 0.0])], "{}"),
        collection: "docs".into(),
        expected_revision: revision,
        expected_profile: profile(),
    };
    assert!(matches!(database.graph_ingest_document(&evaluate, &request), Err(Error::ZeroNorm)));
    let request = GraphIngestRequest {
        document: document("c", &[("cherry", [0.0, 1.0])], "[]"),
        collection: "docs".into(),
        expected_revision: revision,
        expected_profile: profile(),
    };
    assert!(database.graph_ingest_document(&evaluate, &request).is_err());
    assert_eq!(database.revision(), revision);
    let fitting = document("c", &[("cherry", [0.0, 1.0])], "{}");
    assert_eq!(take(database.graph_check_ingest_capacity(&evaluate, "docs", &fitting.preview())), revision);
    let words: Vec<String> = (0..257).map(|at| format!("w{at} ")).collect();
    let parts: Vec<(&str, [f32; 2])> = words.iter().map(|word| (word.as_str(), [1.0, 0.0])).collect();
    let crowded = document("c", &parts, "{}");
    match database.graph_check_ingest_capacity(&evaluate, "docs", &crowded.preview()) {
        Err(Error::InvalidQuery(text)) => assert_eq!(text, "document must contain 1..256 chunks"),
        _ => panic!("expected a refusal"),
    }
    let full = document("c", &parts[..256], "{}");
    assert_eq!(take(database.graph_check_ingest_capacity(&evaluate, "docs", &full.preview())), revision);
    assert_eq!(ingest(&mut database, full), 255 * 2 + 256 * 3 * 2);
    assert_eq!(take(database.graph_collection("docs")).chunk_count, 259);
}

#[test]
fn metadata_is_updated_in_place() {
    let mut database = library();
    let revision = database.revision();
    let result = take(database.graph_update_document_metadata(&evaluate, "docs", "a", &object("{\"kind\":\"meal\"}"), revision));
    assert!(result.replaced);
    assert!(result.revision > revision);
    match take(database.graph_document("docs", "a")) {
        Some(found) => assert_eq!(found.metadata.object.to_text(), "{\"kind\":\"meal\"}"),
        None => panic!("missing document"),
    }
}

#[test]
fn searches_return_near_chunks_and_their_neighbors() {
    let database = library();
    let request = GraphSearchRequest {
        collection: "docs".into(),
        expected_profile: profile(),
        query: vector(&[1.0, 0.0]),
        seed_limit: 1,
        max_hops: 1,
        neighbor_limit: 4,
        max_results: 10,
    };
    let result = take(database.graph_search(&evaluate, &request));
    assert_eq!(result.hits[0].chunk_id, chunk_id("a", 0));
    assert!(result.hits[0].seed);
    assert_eq!(f64::from_bits(result.hits[0].similarity), 1.0);
    assert_eq!(result.hits[0].text, "apple pie ");
    assert!(result.hits.len() > 1);
    assert!(result.hits.len() <= 10);
    assert!(result.hits.windows(2).all(|pair| pair[0].depth <= pair[1].depth));
    for hit in &result.hits {
        match take(database.graph_document("docs", &hit.document_id)) {
            Some(document) => assert_eq!(&document.text[hit.start_byte..hit.end_byte], hit.text),
            None => panic!("missing document"),
        }
    }
    let refused = GraphSearchRequest { max_results: 0, query: vector(&[1.0, 0.0]), collection: "docs".into(), expected_profile: profile(), seed_limit: 1, max_hops: 1, neighbor_limit: 4 };
    assert!(database.graph_search(&evaluate, &refused).is_err());
}

#[test]
fn neighborhoods_are_bounded() {
    let database = library();
    let request = GraphNeighborhoodRequest {
        collection: "docs".into(),
        chunk_id: chunk_id("a", 0),
        max_hops: 2,
        neighbor_limit: 4,
        max_nodes: 2,
        max_edges: 1,
        direction: GraphNeighborhoodDirection::Both,
        kind: None,
        min_weight: 0.0_f64.to_bits(),
    };
    let result = take(database.graph_neighborhood(&evaluate, &request));
    assert_eq!(result.root_chunk, chunk_id("a", 0));
    assert_eq!(result.nodes[0].depth, 0);
    assert!(result.nodes.len() <= 2);
    assert!(result.edges.len() <= 1);
    assert!(result.truncated);
    assert!(database.graph_neighborhood(&evaluate, &GraphNeighborhoodRequest { max_hops: 4, ..request }).is_err());
}

#[test]
fn pages_of_chunks_are_browsed() {
    let database = library();
    let request = GraphBrowseRequest { collection: "docs".into(), document_id: None, offset: 1, limit: 1, max_edges: 10 };
    let result = take(database.graph_browse(&evaluate, &request));
    assert_eq!(result.total_nodes, 3);
    assert_eq!(result.nodes.len(), 1);
    assert_eq!(result.nodes[0].chunk_id, chunk_id("a", 1));
    let request = GraphBrowseRequest { collection: "docs".into(), document_id: Some("b".into()), offset: 0, limit: 5, max_edges: 10 };
    assert_eq!(take(database.graph_browse(&evaluate, &request)).total_nodes, 1);
}

#[test]
fn relationships_are_made_changed_and_removed() {
    let mut database = library();
    let request = |database: &Database, weight: f64| GraphRelationshipRequest {
        collection: "docs".into(),
        expected_revision: database.revision(),
        from_chunk: chunk_id("a", 1),
        to_chunk: chunk_id("b", 0),
        kind: "mentions".into(),
        weight: weight.to_bits(),
    };
    let first = request(&database, 0.5);
    let made = take(database.graph_upsert_relationship(&evaluate, &first));
    assert!(made.created);
    let again = request(&database, 0.75);
    let changed = take(database.graph_upsert_relationship(&evaluate, &again));
    assert!(!changed.created);
    assert_eq!(f64::from_bits(changed.edge.weight), 0.75);
    let removal = GraphRelationshipDeleteRequest {
        collection: "docs".into(),
        expected_revision: database.revision(),
        from_chunk: chunk_id("a", 1),
        to_chunk: chunk_id("b", 0),
        kind: "mentions".into(),
    };
    assert_eq!(take(database.graph_delete_relationship(&removal)).edges_removed, 1);
    let bad = request(&database, 1.5);
    assert!(database.graph_upsert_relationship(&evaluate, &bad).is_err());
}

#[test]
fn retrieval_ranks_fuses_and_selects() {
    let database = library();
    let mut cache = LexicalCache::new();
    let owners = vec![1];
    let snapshot = take(database.graph_rag_candidates(&evaluate, &mut cache, &owners, 1, 9, &rag()));
    assert!(!snapshot.lexical_cache_hit);
    assert!(snapshot.candidates.len() <= 10);
    assert!(f64::from_bits(snapshot.candidates[0].lexical_score) > 0.0);
    let again = take(database.graph_rag_candidates(&evaluate, &mut cache, &owners, 1, 9, &rag()));
    assert!(again.lexical_cache_hit);
    assert_eq!(again.candidates.len(), snapshot.candidates.len());
    assert_eq!(again.candidates[0].fusion_score, snapshot.candidates[0].fusion_score);
    assert_eq!(cache.entries.len(), 1);
    let options = GraphRagSelection { limit: 2, diversity: 0.2_f64.to_bits(), max_context_bytes: 1_000, max_per_document: 1 };
    let result = take(snapshot.finalize(&evaluate, &options, None));
    assert_eq!(result.hits.len(), 2);
    assert_ne!(result.hits[0].hit.document_id, result.hits[1].hit.document_id);
    assert!(result.context_bytes <= 1_000);
    let scores: Vec<u64> = snapshot.candidates.iter().map(|_| 0.5_f64.to_bits()).collect();
    let reranked = take(snapshot.finalize(&evaluate, &options, Some(&scores)));
    assert_eq!(reranked.hits[0].rerank_score, Some(0.5_f64.to_bits()));
    assert!(snapshot.finalize(&evaluate, &options, Some(&Vec::new())).is_err());
}

#[test]
fn traversal_follows_its_policy() {
    let database = library();
    let mut cache = LexicalCache::new();
    let policy = GraphRagTraversal { direction: GraphNeighborhoodDirection::Outgoing, kind: Some("next".into()), min_weight: 0.0_f64.to_bits() };
    let result = database.graph_rag_candidates_with_traversal(&evaluate, &mut cache, &vec![1], 1, 9, &rag(), &policy);
    assert!(take(result).edges.iter().all(|edge| edge.kind == "next"));
    let policy = GraphRagTraversal { min_weight: 2.0_f64.to_bits(), ..GraphRagTraversal::default() };
    let result = database.graph_rag_candidates_with_traversal(&evaluate, &mut cache, &vec![1], 1, 9, &rag(), &policy);
    assert!(result.is_err());
}

#[test]
fn the_lexical_cache_keeps_few_entries() {
    let database = library();
    let mut cache = LexicalCache::new();
    for storage in 0..8 {
        take(database.graph_rag_candidates(&evaluate, &mut cache, &vec![1], 1, storage, &rag()));
    }
    assert!(cache.entries.len() <= 3);
    take(database.graph_rag_candidates(&evaluate, &mut cache, &vec![2], 2, 0, &rag()));
    assert!(cache.entries.iter().all(|entry| entry.key.owner == 2));
}

#[test]
fn columns_of_documents_hold_their_metadata() {
    let mut database = Database::new();
    let fields = vec![Column { name: "pages".into(), data_type: DataType::Integer, nullable: false, unique: false }];
    take(database.graph_create_collection_with_columns(&evaluate, &config("docs"), &fields));
    ingest(&mut database, document("a", &[("apple", [1.0, 0.0])], "{\"pages\":3,\"x\":1}"));
    match take(database.graph_document("docs", "a")) {
        Some(found) => {
            assert_eq!(found.metadata.fields.len(), 1);
            assert_eq!(found.metadata.fields[0].0, "pages");
            assert!(matches!(found.metadata.fields[0].1, Value::Integer(3)));
            assert_eq!(found.metadata.object.to_text(), "{\"x\":1}");
        }
        None => panic!("missing document"),
    }
    let request = GraphIngestRequest {
        collection: "docs".into(),
        expected_revision: database.revision(),
        expected_profile: profile(),
        document: document("b", &[("pear", [1.0, 0.0])], "{}"),
    };
    assert!(database.graph_ingest_document(&evaluate, &request).is_err());
}

#[test]
fn filters_are_checked_before_they_are_used() {
    let database = library();
    assert!(database.graph_validate_document_filters("docs", Vec::new()).is_ok());
    let vector_filter = DocumentFilter { value: Value::Vector(vector(&[1.0])), condition: Err(Error::ZeroNorm) };
    assert!(database.graph_validate_document_filters("docs", vec![vector_filter]).is_err());
    assert!(database.graph_validate_document_filters("none", Vec::new()).is_err());
}

#[test]
fn settings_of_collections_are_checked() {
    let mut database = Database::new();
    let wrong = GraphCollectionConfig { semantic_threshold: 2.0_f64.to_bits(), ..config("docs") };
    assert!(database.graph_create_collection(&evaluate, &wrong).is_err());
    let wrong = GraphCollectionConfig { name: "no spaces".into(), ..config("docs") };
    assert!(database.graph_create_collection(&evaluate, &wrong).is_err());
    take(database.graph_create_collection(&evaluate, &config("docs")));
    assert!(database.graph_create_collection(&evaluate, &config("docs")).is_err());
}

#[test]
fn words_are_split_and_weighted_terms_bounded() {
    assert_eq!(token_words("Foo-bar, BAZ2!"), vec!["Foo", "bar", "BAZ2"]);
    assert_eq!(tokens("Foo \u{c9}t\u{e9}-bar"), vec!["foo", "\u{e9}t\u{e9}", "bar"]);
    assert_eq!(index_tokens("Foo \u{c9}t\u{e9}-bar"), vec!["foo", "\u{e9}t\u{e9}", "bar"]);
    assert_eq!(tokens("The apple and the apples"), tokens("the APPLE and the apples"));
    assert!(!index_tokens("apple").is_empty());
    for text in ["plain words", "Mixed CASE 7x", "\u{c9}T\u{c9} stra\u{df}e", ""] {
        assert_eq!(index_tokens(text), tokens(text));
    }
    assert!(validate_query_text("apple").is_ok());
    assert!(validate_query_text("  ").is_err());
    assert!(GraphRagRequest::validate_query_text("").is_err());
}

#[test]
fn names_and_literals_are_quoted() {
    assert_eq!(quote("a\"b"), "\"a\"\"b\"");
    assert_eq!(literal("it's"), "'it''s'");
    assert_eq!(chunk_id("doc", 4), "3:doc:4");
    assert_eq!(take(collection_name("Docs")), "docs");
    assert!(collection_name("1docs").is_err());
    assert!(index_name("graph_docs_chunks", "document_id").contains("document_id"));
}

fn told(database: &mut Database, sql: &str) -> Vec<String> {
    match take(database.execute(&evaluate, sql)).pop() {
        Some(ExecutionResult::Query(result)) => {
            result.rows.iter().map(|row| row[0].to_text(&evaluate)).collect()
        }
        _ => panic!("expected a query"),
    }
}

#[test]
fn a_deleted_document_leaves_nothing_behind() {
    let mut database = library();
    take(database.graph_delete_document("docs", "a", database.revision()));
    assert!(take(database.graph_document("docs", "a")).is_none());
    match take(database.graph_document("docs", "b")) {
        Some(kept) => {
            assert_eq!(kept.text, "apple tree");
            assert!(kept.chunks_intact);
        }
        None => panic!("missing document"),
    }
    assert_eq!(told(&mut database, "SELECT document_id FROM graph_docs_chunks"), vec!["b".to_string()]);
    assert_eq!(told(&mut database, "SELECT COUNT(*) FROM graph_docs_edges"), vec!["0".to_string()]);
}

#[test]
fn a_changed_relationship_has_one_row() {
    let mut database = library();
    for weight in [0.5f64, 0.25] {
        let request = GraphRelationshipRequest {
            collection: "docs".into(),
            expected_revision: database.revision(),
            from_chunk: chunk_id("a", 1),
            to_chunk: chunk_id("b", 0),
            kind: "mentions".into(),
            weight: weight.to_bits(),
        };
        take(database.graph_upsert_relationship(&evaluate, &request));
    }
    let sql = "SELECT weight FROM graph_docs_edges WHERE kind = 'mentions'";
    assert_eq!(told(&mut database, sql), vec!["0.25".to_string()]);
    let removal = GraphRelationshipDeleteRequest {
        collection: "docs".into(),
        expected_revision: database.revision(),
        from_chunk: chunk_id("a", 1),
        to_chunk: chunk_id("b", 0),
        kind: "mentions".into(),
    };
    let others = told(&mut database, "SELECT COUNT(*) FROM graph_docs_edges WHERE kind <> 'mentions'");
    take(database.graph_delete_relationship(&removal));
    assert_eq!(told(&mut database, "SELECT COUNT(*) FROM graph_docs_edges"), others);
}

#[test]
fn a_condition_leaves_the_chunks_of_its_documents() {
    let database = library();
    let table = |name: &str| match database.catalog.tables.iter().find(|entry| entry.name == name) {
        Some(entry) => &entry.table,
        None => panic!("missing {name}"),
    };
    let (documents, chunks) = (table("graph_docs_documents"), table("graph_docs_chunks"));
    let all = take(eligible_chunks(&evaluate, documents, chunks, &take(predicate(Vec::new()))));
    assert!(all.is_none());
    let condition = Expr::BinaryOp(
        Box::new(Expr::Identifier(Ident { value: "document_id".into(), quoted: false }, "document_id".into())),
        BinaryOperator::Eq,
        Box::new(Expr::Value(Literal::Text { form: "SingleQuotedString".into(), text: "b".into() })),
    );
    let filter = DocumentFilter { value: Value::Text("b".into()), condition: Ok(condition) };
    let condition = take(predicate(vec![filter]));
    assert_eq!(take(eligible_chunks(&evaluate, documents, chunks, &condition)), Some(vec![false, false, true]));
}

#[test]
fn chunks_of_different_documents_have_different_names() {
    assert_eq!(chunk_id("a", 0), "1:a:0");
    assert_eq!(chunk_id("a:0", 1), "3:a:0:1");
    assert_ne!(chunk_id("a:0", 1), chunk_id("a", 1));
    assert_ne!(chunk_id("1:a", 0), chunk_id("a", 0));
    assert_eq!(chunk_id("\u{e9}", 2), "2:\u{e9}:2");
}

#[test]
fn a_search_returns_chunks_and_relationships_once() {
    let database = library();
    let request = GraphSearchRequest {
        collection: "docs".into(),
        expected_profile: profile(),
        query: vector(&[1.0, 0.0]),
        seed_limit: 2,
        max_hops: 2,
        neighbor_limit: 1,
        max_results: 3,
    };
    let result = take(database.graph_search(&evaluate, &request));
    let ids: Vec<&str> = result.hits.iter().map(|hit| hit.chunk_id.as_str()).collect();
    for (at, id) in ids.iter().enumerate() {
        assert!(!ids[..at].contains(id));
        assert!(result.edges.iter().filter(|edge| edge.from_chunk == *id).count() <= 1);
    }
    for (at, edge) in result.edges.iter().enumerate() {
        assert!(ids.contains(&edge.from_chunk.as_str()) && ids.contains(&edge.to_chunk.as_str()));
        assert!(result.edges[..at].iter().all(|other| (&other.from_chunk, &other.to_chunk, &other.kind) != (&edge.from_chunk, &edge.to_chunk, &edge.kind)));
    }
}

#[test]
fn a_retrieval_finds_the_same_with_and_without_a_cache() {
    let database = library();
    let mut cache = LexicalCache::new();
    let first = take(database.graph_rag_candidates(&evaluate, &mut cache, &vec![1], 1, 7, &rag()));
    let second = take(database.graph_rag_candidates(&evaluate, &mut cache, &vec![1], 1, 7, &rag()));
    assert!(!first.lexical_cache_hit && second.lexical_cache_hit);
    let told = |snapshot: &vectors::GraphRagSnapshot| {
        snapshot.candidates.iter().map(|one| (one.hit.chunk_id.clone(), one.fusion_score, one.lexical_score)).collect::<Vec<_>>()
    };
    assert_eq!(told(&first), told(&second));
}

#[test]
fn exploring_without_a_cut_finds_everything_that_can_be_reached() {
    let mut database = Database::new();
    take(database.graph_create_collection(&evaluate, &GraphCollectionConfig { semantic_neighbors: 0, ..config("docs") }));
    let parts = [("one ", [1.0, 0.0]), ("two ", [0.0, 1.0]), ("three ", [1.0, 1.0]), ("four", [1.0, -1.0])];
    ingest(&mut database, document("a", &parts, "{}"));
    let request = GraphNeighborhoodRequest {
        collection: "docs".into(),
        chunk_id: chunk_id("a", 0),
        direction: GraphNeighborhoodDirection::Both,
        kind: None,
        min_weight: 0.0_f64.to_bits(),
        max_hops: 3,
        neighbor_limit: 8,
        max_nodes: 10,
        max_edges: 50,
    };
    let result = take(database.graph_neighborhood(&evaluate, &request));
    assert!(!result.truncated);
    let found: Vec<(String, usize)> = result.nodes.iter().map(|node| (node.node.chunk_id.clone(), node.depth)).collect();
    assert_eq!(found, (0..4).map(|at| (chunk_id("a", at), at)).collect::<Vec<_>>());
    let cut = take(database.graph_neighborhood(&evaluate, &GraphNeighborhoodRequest { max_hops: 2, ..request }));
    assert!(cut.truncated);
    assert_eq!(cut.nodes.len(), 3);
}
