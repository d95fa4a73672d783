//! Store-level behaviour: the port types, the adapter, statistics,
//! path search, N-Quads lines and the indexer.

use std::collections::HashMap;

use memexia::edge::{Edge, EdgeFilter, RelationType};
use memexia::graph::{EdgeDirection, GraphStats, QueryResult};
use memexia::indexer::{IndexResult, IndexSummary, Indexer};
use memexia::node::{Node, NodeType};
use memexia::nquads::{escape_string, export_nquads, parse_nquads_line};
use memexia::storage::Storage;
use memexia::store::TripleStore;
use memexia::watch_config::{matches_pattern, WatchConfig};
use memexia::events::FileEvent;

#[test]
fn test_query_result_new() {
    let result = QueryResult::new();
    assert!(result.is_empty());
    assert_eq!(result.len(), 0);
}

#[test]
fn test_query_result_add_binding() {
    let mut result = QueryResult::new();
    let binding: HashMap<String, String> =
        [("x".to_string(), "value".to_string())].into_iter().collect();
    result.add_binding(binding.clone());
    assert_eq!(result.len(), 1);
    assert!(!result.is_empty());
    assert_eq!(result.bindings[0], binding);
}

#[test]
fn test_query_result_multiple_bindings() {
    let mut result = QueryResult::new();
    for i in 0..5 {
        let binding: HashMap<String, String> =
            [("id".to_string(), format!("{}", i))].into_iter().collect();
        result.add_binding(binding);
    }
    assert_eq!(result.len(), 5);
    assert!(!result.is_empty());
}

#[test]
fn test_edge_direction_default() {
    let direction = EdgeDirection::default();
    assert_eq!(direction, EdgeDirection::Outgoing);
}

#[test]
fn test_edge_direction_variants() {
    assert_eq!(EdgeDirection::Outgoing as u8, 0);
    assert_eq!(EdgeDirection::Incoming as u8, 1);
    assert_eq!(EdgeDirection::Both as u8, 2);
}

#[test]
fn test_edge_direction_clone() {
    let original = EdgeDirection::Incoming;
    let cloned = original.clone();
    assert_eq!(cloned, original);
}

#[test]
fn test_edge_direction_copy() {
    let direction = EdgeDirection::Both;
    let copy = direction;
    assert_eq!(copy, direction);
}

#[test]
fn test_graph_stats_new() {
    let stats = GraphStats::new();
    assert_eq!(stats.node_count, 0);
    assert_eq!(stats.edge_count, 0);
    assert!(stats.node_type_counts.is_empty());
    assert!(stats.relation_counts.is_empty());
}

#[test]
fn test_graph_stats_clone() {
    let stats = GraphStats::new();
    let cloned = stats.clone();
    assert_eq!(cloned.node_count, 0);
    assert_eq!(cloned.edge_count, 0);
}

#[test]
fn test_graph_stats_default() {
    let stats = GraphStats::default();
    assert_eq!(stats.node_count, 0);
    assert_eq!(stats.edge_count, 0);
}

#[test]
fn test_escape_string() {
    assert_eq!(escape_string("hello"), "\"hello\"");
    assert_eq!(escape_string("hello world"), "\"hello world\"");
    assert_eq!(escape_string("hello\"world"), "\"hello\\\"world\"");
    assert_eq!(escape_string("hello\\world"), "\"hello\\\\world\"");
}

#[test]
fn test_parse_nquads_line() {
    let line = "<http://example.org/s> <http://example.org/p> <http://example.org/o> .";
    let (s, p, o) = parse_nquads_line(line).unwrap();
    assert_eq!(s, "http://example.org/s");
    assert_eq!(p, "http://example.org/p");
    assert_eq!(o, "http://example.org/o");
}

#[test]
fn test_parse_nquads_line_with_literal() {
    let line = r#"<http://example.org/s> <http://example.org/p> "hello world" ."#;
    let (s, p, o) = parse_nquads_line(line).unwrap();
    assert_eq!(s, "http://example.org/s");
    assert_eq!(p, "http://example.org/p");
    assert_eq!(o, "hello world");
}

#[test]
fn test_is_allowed_default_config() {
    let config = WatchConfig::new();
    assert!(config.is_allowed("notes/test.md"));
    assert!(config.is_allowed("notes/philosophy/free_will.md"));
    assert!(!config.is_allowed(".git/config"));
    assert!(!config.is_allowed("notes/.gitkeep"));
    assert!(!config.is_allowed("notes/tmp.md.tmp"));
}

#[test]
fn test_is_allowed_with_whitelist() {
    let mut config = WatchConfig::new();
    config.clear_whitelist();
    config.add_whitelist("notes/*.md");
    config.add_whitelist("docs/**/*.md");
    assert!(config.is_allowed("notes/test.md"));
    assert!(config.is_allowed("docs/guide.md"));
    assert!(!config.is_allowed("other.txt"));
}

#[test]
fn test_is_allowed_with_blacklist() {
    let mut config = WatchConfig::new();
    config.clear_blacklist();
    config.add_blacklist("drafts/**/*");
    config.add_blacklist("*.bak");
    assert!(config.is_allowed("notes/test.md"));
    assert!(!config.is_allowed("drafts/idea.md"));
    assert!(!config.is_allowed("notes/backup.md.bak"));
}

#[test]
fn test_empty_whitelist_allows_all() {
    let mut config = WatchConfig::new();
    config.clear_whitelist();
    assert!(config.is_allowed("notes/test.md"));
    assert!(config.is_allowed("docs/guide.txt"));
}

#[test]
fn test_matches_pattern() {
    assert!(matches_pattern("*.md", "test.md"));
    assert!(matches_pattern("*.md", "document.md"));
    assert!(!matches_pattern("*.md", "test.txt"));
    assert!(matches_pattern("notes/*.md", "notes/test.md"));
    assert!(!matches_pattern("notes/*.md", "docs/test.md"));
}

#[test]
fn test_file_event_path() {
    let event = FileEvent::Created("/path/to/file.md".to_string());
    assert_eq!(event.path(), "/path/to/file.md");

    let event = FileEvent::Renamed("old.md".to_string(), "new.md".to_string());
    assert_eq!(event.path(), "new.md");
}

#[test]
fn test_index_summary() {
    let mut summary = IndexSummary::default();
    summary.add(IndexResult::Indexed {
        path: "a.md".to_string(),
        node_count: 1,
        edge_count: 2,
    });
    summary.add(IndexResult::Indexed {
        path: "b.md".to_string(),
        node_count: 1,
        edge_count: 0,
    });
    summary.add(IndexResult::Skipped);
    assert_eq!(summary.files_indexed, 2);
    assert_eq!(summary.nodes_created, 2);
    assert_eq!(summary.edges_created, 2);
    assert_eq!(summary.files_skipped, 1);
}

#[test]
fn test_indexer_creation() {
    let storage = Storage::new("root");
    let indexer = Indexer::new(storage);
    assert_eq!(indexer.config().whitelist.len(), 1);
}

#[test]
fn test_index_file_basics() {
    // one note with frontmatter, a link and a hashtag
    let storage = Storage::new("root");
    let mut indexer = Indexer::new(storage);
    let content = "---\ntitle: Alpha\ntype: Concept\ntags: [x, y]\n---\n# Alpha\nSee [[Beta|Supports:0.8:because]].\n#tag1\n";
    let result = indexer.index_file("notes/a.md", content);
    match result {
        IndexResult::Indexed { path, node_count, edge_count } => {
            assert_eq!(path, "notes/a.md");
            assert_eq!(node_count, 1);
            assert_eq!(edge_count, 1);
        }
        _ => panic!("expected an indexed result"),
    }
    let nodes = indexer.storage.graph().list_nodes();
    assert_eq!(nodes.len(), 2);
    let a = indexer
        .storage
        .graph()
        .get_node("urn:memexia:file:notes/a.md")
        .unwrap();
    assert_eq!(a.title, "Alpha");
    assert_eq!(a.node_type, NodeType::Concept);
    assert_eq!(a.tags, vec!["x", "y", "tag1"]);
    let beta = indexer.storage.graph().get_node("urn:memexia:file:Beta").unwrap();
    assert_eq!(beta.title, "Beta");
    assert_eq!(beta.node_type, NodeType::Concept);
    let edges = indexer.storage.graph().list_edges();
    assert_eq!(edges.len(), 1);
    assert_eq!(edges[0].relation, RelationType::Supports);
    assert_eq!(edges[0].strength, 800);
    assert_eq!(edges[0].description, Some("because".to_string()));
}

#[test]
fn test_index_file_blacklisted() {
    let storage = Storage::new("root");
    let mut config = WatchConfig::new();
    config.clear_whitelist();
    config.add_whitelist("*.txt");
    let mut indexer = Indexer::with_config(storage, config);
    let result = indexer.index_file("test.md", "# 测试");
    assert_eq!(result, IndexResult::Skipped);
}

#[test]
fn test_index_idempotent() {
    // indexing the same note twice leaves the graph with the same sets
    let storage = Storage::new("root");
    let mut indexer = Indexer::new(storage);
    let content = "# A\n[[B]] and [[C|Supports:0.5]]\n";
    indexer.index_file("a.md", content);
    let nodes1: Vec<String> = indexer.storage.graph().list_nodes().iter().map(|n| n.id.clone()).collect();
    let edges1: Vec<String> = indexer.storage.graph().list_edges().iter().map(|e| e.id.clone()).collect();
    indexer.index_file("a.md", content);
    let nodes2: Vec<String> = indexer.storage.graph().list_nodes().iter().map(|n| n.id.clone()).collect();
    let edges2: Vec<String> = indexer.storage.graph().list_edges().iter().map(|e| e.id.clone()).collect();
    assert_eq!(nodes1, nodes2);
    assert_eq!(edges1, edges2);
}

#[test]
fn test_store_add_edge_clamps() {
    let mut store = TripleStore::new();
    store.add_node(&Node::new("a", NodeType::Concept, "A"));
    let mut edge = Edge::new("urn:memexia:edge:a-b", "a", "b", RelationType::Supports);
    edge.strength = 5000;
    edge.confidence = 2000;
    store.add_edge(&edge).unwrap();
    let edges = store.list_edges();
    assert_eq!(edges[0].strength, 1000);
    assert_eq!(edges[0].confidence, 1000);
}

#[test]
fn test_store_add_edge_missing_from() {
    let mut store = TripleStore::new();
    let edge = Edge::new("urn:memexia:edge:a-b", "a", "b", RelationType::Supports);
    assert!(store.add_edge(&edge).is_err());
}

#[test]
fn test_store_delete_node_drops_outgoing() {
    let mut store = TripleStore::new();
    store.add_node(&Node::new("a", NodeType::Concept, "A"));
    store.add_node(&Node::new("b", NodeType::Concept, "B"));
    store
        .add_edge(&Edge::new("urn:memexia:edge:a-b", "a", "b", RelationType::LeadsTo))
        .unwrap();
    store.delete_node("a");
    assert!(!store.node_exists("a"));
    assert!(store.node_exists("b"));
    assert_eq!(store.list_edges().len(), 0);
}

#[test]
fn test_store_stats() {
    let mut store = TripleStore::new();
    store.add_node(&Node::new("a", NodeType::Concept, "A"));
    store.add_node(&Node::new("b", NodeType::Question, "B"));
    store
        .add_edge(&Edge::new("urn:memexia:edge:a-b", "a", "b", RelationType::Supports))
        .unwrap();
    let stats = store.get_stats();
    assert_eq!(stats.node_count, 2);
    assert_eq!(stats.edge_count, 1);
    assert_eq!(stats.node_type_counts, vec![(NodeType::Concept, 1), (NodeType::Question, 1)]);
    assert_eq!(stats.relation_counts, vec![(RelationType::Supports, 1)]);
}

#[test]
fn test_find_path_self() {
    let mut store = TripleStore::new();
    store.add_node(&Node::new("x", NodeType::Concept, "X"));
    let path = store.find_path("x", "x").unwrap();
    assert_eq!(path, vec!["x".to_string()]);
}

#[test]
fn test_find_path_chain() {
    let mut store = TripleStore::new();
    store.add_node(&Node::new("a", NodeType::Concept, "A"));
    store.add_node(&Node::new("b", NodeType::Concept, "B"));
    store.add_node(&Node::new("c", NodeType::Concept, "C"));
    store
        .add_edge(&Edge::new("urn:memexia:edge:a-b", "a", "b", RelationType::LeadsTo))
        .unwrap();
    store
        .add_edge(&Edge::new("urn:memexia:edge:b-c", "b", "c", RelationType::LeadsTo))
        .unwrap();
    let path = store.find_path("a", "c").unwrap();
    assert_eq!(path, vec!["a".to_string(), "b".to_string(), "c".to_string()]);
    assert!(store.find_path("c", "a").is_none());
}

#[test]
fn test_query_edges_filter() {
    let mut store = TripleStore::new();
    store.add_node(&Node::new("a", NodeType::Concept, "A"));
    store
        .add_edge(&Edge::new("urn:memexia:edge:a-b", "a", "b", RelationType::Supports))
        .unwrap();
    store
        .add_edge(&Edge::new("urn:memexia:edge:a-c", "a", "c", RelationType::Contradicts))
        .unwrap();
    let mut filter = EdgeFilter::default();
    filter.relation = Some(RelationType::Supports);
    let found = store.query_edges(&filter);
    assert_eq!(found.len(), 1);
    assert_eq!(found[0].to, "b");
}

#[test]
fn test_export_nquads_lines() {
    let mut store = TripleStore::new();
    let node = Node::new_at("urn:memexia:file:a.md", NodeType::Concept, "Node A", 0);
    store.add_node(&node);
    let nq = export_nquads(&store);
    assert!(nq.contains("<urn:memexia:file:a.md> <rdf:type> \"memexia:Concept\" ."));
    assert!(nq.contains("<urn:memexia:file:a.md> <memexia:title> \"Node A\" ."));
    assert!(nq.contains("1970-01-01T00:00:00+00:00"));
}

#[test]
fn test_export_edge_shim() {
    let mut store = TripleStore::new();
    store.add_node(&Node::new_at("a", NodeType::Concept, "A", 0));
    let mut edge = Edge::new_at("urn:memexia:edge:a-b", "a", "b", RelationType::Supports, 0);
    edge.update_strength(800);
    edge.update_description("because");
    store.add_edge(&edge).unwrap();
    let nq = export_nquads(&store);
    assert!(nq.contains("<a> <memexia:supports> \"b|supports:0.8:because\" ."));
}

#[test]
fn test_sparql_select() {
    let mut store = TripleStore::new();
    store.add_node(&Node::new("urn:memexia:file:doc1.md", NodeType::Concept, "Document 1"));
    store.add_node(&Node::new("urn:memexia:file:doc2.md", NodeType::Concept, "Document 2"));
    let result = store.query("SELECT ?s ?title WHERE { ?s <memexia:title> ?title }").unwrap();
    assert_eq!(result.bindings.len(), 2);
    for binding in &result.bindings {
        assert!(binding.contains_key("?s"));
        assert!(binding.contains_key("?title"));
    }
    let result2 = store.query("SELECT ?s WHERE { ?s <rdf:type> <memexia:Concept> }").unwrap();
    assert_eq!(result2.bindings.len(), 2);
    assert!(store.query("ASK { ?s ?p ?o }").unwrap().is_empty());
    assert!(store.query("CONSTRUCT { ?s ?p ?o } WHERE { ?s ?p ?o }").is_err());
}

#[test]
fn test_handle_event_created() {
    let storage = Storage::new("root");
    let mut indexer = Indexer::new(storage);
    let event = FileEvent::Created("event_test.md".to_string());
    let content = "# 事件测试".to_string();
    let result = indexer.handle_event(&event, Some(&content)).unwrap();
    assert!(matches!(result, IndexResult::Indexed { .. }));
}

#[test]
fn test_handle_event_deleted() {
    let storage = Storage::new("root");
    let mut indexer = Indexer::new(storage);
    indexer.index_file("a.md", "# A");
    assert!(indexer.storage.graph().node_exists("urn:memexia:file:a.md"));
    let event = FileEvent::Deleted("a.md".to_string());
    let result = indexer.handle_event(&event, None).unwrap();
    assert_eq!(result, IndexResult::Deleted("urn:memexia:file:a.md".to_string()));
    assert!(!indexer.storage.graph().node_exists("urn:memexia:file:a.md"));
}

#[test]
fn test_reindex_all_repairs() {
    // a deleted file's node and edge go away on a full reindex
    let storage = Storage::new("root");
    let mut indexer = Indexer::new(storage);
    indexer.index_file("p1.md", "see [[p2]]");
    assert!(indexer.storage.graph().node_exists("urn:memexia:file:p1.md"));
    let summary = indexer.reindex_all(&vec![]);
    assert_eq!(summary.files_indexed, 0);
    assert!(!indexer.storage.graph().node_exists("urn:memexia:file:p1.md"));
    assert_eq!(indexer.storage.graph().list_edges().len(), 0);
}

#[test]
fn test_parse_nquads_line_unicode_escape() {
    // a \uXXXX escape inside a literal decodes to its scalar value
    let line = r#"<s> <p> "A\u0042C" ."#;
    let (_, _, o) = parse_nquads_line(line).unwrap();
    assert_eq!(o, "ABC");
}

#[test]
fn test_object_store_roundtrip() {
    let mut storage = Storage::new("root");
    let h = storage.put_object(b"hello");
    // the SHA-256 of "hello", in lowercase hex
    assert_eq!(h, "2cf24dba5fb0a30e26e83b2ac5b9e29e1b161e5c1fa7425e73043362938b9824");
    let h2 = storage.put_object(b"hello");
    assert_eq!(h, h2);
    assert!(storage.get_object(&h).is_some());
    assert!(storage.get_object("unknown").is_none());
}
