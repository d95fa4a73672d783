//! Behaviour pinned by the stronger contracts: object storage, queries,
//! the commit protocol, event dispatch and the N-Quads reader.

use memexia::errors::RepoError;
use memexia::events::FileEvent;
use memexia::indexer::{IndexResult, Indexer};
use memexia::nquads::NQuadsDecoder;
use memexia::repository::Repository;
use memexia::storage::Storage;

#[test]
fn test_put_object_is_idempotent() {
    let mut storage = Storage::new("r");
    let h1 = storage.put_object(b"hello");
    let h2 = storage.put_object(b"hello");
    assert_eq!(h1, h2);
    assert_eq!(storage.objects.len(), 1);
    let h3 = storage.put_object(b"world");
    assert_ne!(h1, h3);
    assert_eq!(storage.objects.len(), 2);
}

#[test]
fn test_get_object_returns_the_bytes() {
    let mut storage = Storage::new("r");
    let h = storage.put_object(b"payload");
    let got = storage.get_object(&h).expect("stored object");
    assert_eq!(got.as_slice(), b"payload");
    assert!(storage.get_object("no-such-hash").is_none());
}

#[test]
fn test_status_lists_each_staged_path() {
    let mut repo = Repository::init("r", false).unwrap();
    assert_eq!(repo.status(), "No changes staged.");
    repo.add(&vec!["a.md".to_string(), "b.md".to_string()]);
    assert_eq!(repo.status(), "Staged files:\na.md\nb.md\n");
}

#[test]
fn test_commit_refused_without_staged_files() {
    let mut repo = Repository::init("r", false).unwrap();
    let before_commits = repo.vcs.commits.len();
    let r = repo.commit("msg", &Vec::new());
    assert!(matches!(r, Err(RepoError::NothingToCommit)));
    assert_eq!(repo.vcs.commits.len(), before_commits);
}

#[test]
fn test_commit_indexes_staged_notes() {
    let mut repo = Repository::init("r", false).unwrap();
    repo.add(&vec!["note.md".to_string()]);
    let files = vec![("note.md".to_string(), "# Note\nplain text".to_string())];
    let oid = repo.commit("first", &files).unwrap();
    assert!(!oid.is_empty());
    assert!(repo.index.is_empty());
    assert_eq!(repo.vcs.commits.len(), 1);
    let head = repo.last_commit().unwrap();
    assert_eq!(head.message, "first");
    assert!(head.graph_hash.is_some());
    // the staged note's bytes are stored content-addressed
    assert_eq!(repo.storage.objects.len(), 1);
    // and its node is in the live graph
    let id = memexia::iri::node_id_for_path("note.md");
    assert!(repo.storage.graph().node_exists(&id));
}

#[test]
fn test_amend_never_reproduces_the_replaced_commit() {
    let mut repo = Repository::init("r", false).unwrap();
    repo.add(&vec!["note.md".to_string()]);
    let files = vec![("note.md".to_string(), "body".to_string())];
    let first = repo.commit("first", &files).unwrap();
    repo.amend("first").unwrap();
    assert_eq!(repo.vcs.commits.len(), 1);
    let head = repo.last_commit().unwrap();
    assert_eq!(head.message, "first");
    assert_ne!(head.oid, first);
}

#[test]
fn test_query_rows_classification() {
    let repo = Repository::init("r", false).unwrap();
    let store = repo.storage.graph();
    assert_eq!(store.sparql_query("ASK { ?s ?p ?o }").unwrap().len(), 0);
    assert!(matches!(
        store.sparql_query("CONSTRUCT { ?s ?p ?o } WHERE { ?s ?p ?o }"),
        Err(RepoError::StoreFailure(_))
    ));
    assert!(matches!(
        store.sparql_query("DESCRIBE <x>"),
        Err(RepoError::StoreFailure(_))
    ));
    assert!(matches!(
        store.sparql_query("nonsense"),
        Err(RepoError::StoreFailure(_))
    ));
    assert!(matches!(
        store.sparql_query("SELECT ?s WHERE no braces"),
        Err(RepoError::StoreFailure(_))
    ));
}

#[test]
fn test_select_binds_matching_triples() {
    let mut repo = Repository::init("r", false).unwrap();
    repo.add(&vec!["note.md".to_string()]);
    let files = vec![("note.md".to_string(), "body".to_string())];
    repo.commit("first", &files).unwrap();
    let id = memexia::iri::node_id_for_path("note.md");
    let rows = repo
        .query_graph(&format!("SELECT ?p ?o WHERE {{ <{}> ?p ?o . }}", id))
        .unwrap();
    assert!(!rows.is_empty());
    assert!(rows.iter().any(|r| r.contains("rdf:type")));
    // a variable binds under its own name
    assert!(rows.iter().all(|r| r.starts_with("?p = ")));
}

#[test]
fn test_handle_event_deleted_removes_the_node() {
    let storage = Storage::new("r");
    let mut indexer = Indexer::new(storage);
    let r = indexer.index_file("note.md", "body");
    assert!(matches!(r, IndexResult::Indexed { .. }));
    let id = memexia::iri::node_id_for_path("note.md");
    assert!(indexer.storage.graph().node_exists(&id));
    let ev = FileEvent::Deleted("note.md".to_string());
    let out = indexer.handle_event(&ev, None).unwrap();
    assert!(matches!(out, IndexResult::Deleted(did) if did == id));
    assert!(!indexer.storage.graph().node_exists(&id));
}

#[test]
fn test_handle_event_without_content_is_an_io_error() {
    let storage = Storage::new("r");
    let mut indexer = Indexer::new(storage);
    let ev = FileEvent::Created("note.md".to_string());
    assert!(matches!(
        indexer.handle_event(&ev, None),
        Err(RepoError::IoFailure(_))
    ));
}

#[test]
fn test_read_triple_skips_blank_and_comment_lines() {
    let mut dec = NQuadsDecoder::new("# header\n\n<urn:a> <rdf:type> <memexia:Note> .\n");
    let t = dec.read_triple().unwrap().expect("one triple");
    assert_eq!(t.0, "urn:a");
    assert_eq!(t.1, "rdf:type");
    assert_eq!(t.2, "memexia:Note");
    assert!(dec.read_triple().unwrap().is_none());
}

#[test]
fn test_read_triple_reports_the_bad_line() {
    let mut dec = NQuadsDecoder::new("<urn:a> <rdf:type>\n");
    assert!(matches!(
        dec.read_triple(),
        Err(RepoError::ParseFailure(line)) if line == "<urn:a> <rdf:type>"
    ));
}

#[test]
fn test_import_succeeds_only_when_every_line_parses() {
    let mut store = memexia::store::TripleStore::new();
    let good = "# c\n<urn:a> <rdf:type> <memexia:Note> .\n";
    assert!(memexia::nquads::import_nquads(&mut store, good).is_ok());
    assert!(store.node_exists("urn:a"));
    let bad = "<urn:a> <rdf:type>\n";
    assert!(matches!(
        memexia::nquads::import_nquads(&mut store, bad),
        Err(RepoError::ParseFailure(_))
    ));
}

#[test]
fn test_import_rebuilds_nodes_and_edges() {
    let mut src = memexia::store::TripleStore::new();
    let n1 = memexia::node::Node::new("urn:a", memexia::node::NodeType::Concept, "A");
    let n2 = memexia::node::Node::new("urn:b", memexia::node::NodeType::Concept, "B");
    src.add_node(&n1);
    src.add_node(&n2);
    let e = memexia::edge::Edge::new(
        "urn:memexia:edge:urn:a-urn:b",
        "urn:a",
        "urn:b",
        memexia::edge::RelationType::RelatedTo,
    );
    src.add_edge(&e).unwrap();
    let text = memexia::nquads::export_nquads(&src);
    let mut dst = memexia::store::TripleStore::new();
    memexia::nquads::import_nquads(&mut dst, &text).unwrap();
    // the node set and its types and titles come back
    let a = dst.get_node("urn:a").expect("node a");
    assert_eq!(a.node_type, memexia::node::NodeType::Concept);
    assert_eq!(a.title, "A");
    let b = dst.get_node("urn:b").expect("node b");
    assert_eq!(b.node_type, memexia::node::NodeType::Concept);
    assert_eq!(b.title, "B");
    // the edge comes back as its (from, relation, to) triple
    let edges = dst.list_edges();
    assert_eq!(edges.len(), 1);
    assert_eq!(edges[0].from, "urn:a");
    assert_eq!(edges[0].to, "urn:b");
    assert_eq!(edges[0].relation, memexia::edge::RelationType::RelatedTo);
}

#[test]
fn test_find_path_none_means_unreachable() {
    let mut store = memexia::store::TripleStore::new();
    let a = memexia::node::Node::new("a", memexia::node::NodeType::Concept, "a");
    let b = memexia::node::Node::new("b", memexia::node::NodeType::Concept, "b");
    let c = memexia::node::Node::new("c", memexia::node::NodeType::Concept, "c");
    store.add_node(&a);
    store.add_node(&b);
    store.add_node(&c);
    store
        .add_edge(&memexia::edge::Edge::new(
            "e1",
            "a",
            "b",
            memexia::edge::RelationType::RelatedTo,
        ))
        .unwrap();
    // b -> c missing: c is unreachable from a
    assert!(store.find_path("a", "c").is_none());
    assert!(store.find_path("a", "b").is_some());
}

#[test]
fn test_init_succeeds_when_fresh() {
    assert!(Repository::init("fresh", false).is_ok());
    assert!(matches!(
        Repository::init("fresh", true),
        Err(RepoError::AlreadyExists)
    ));
}

#[test]
fn test_add_tag_refreshes_and_deduplicates() {
    let mut n = memexia::node::Node::new("id", memexia::node::NodeType::Concept, "t");
    n.add_tag("x");
    n.add_tag("x");
    n.add_tag("y");
    assert_eq!(n.tags, vec!["x".to_string(), "y".to_string()]);
    n.remove_tag("x");
    assert_eq!(n.tags, vec!["y".to_string()]);
}
