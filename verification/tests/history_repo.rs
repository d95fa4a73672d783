//! History, rollback, version-log and repository behaviour.

use memexia::history::GraphHistory;
use memexia::repository::Repository;
use memexia::rollback::{RollbackManager, RollbackResult};
use memexia::store::TripleStore;
use memexia::vcs::{CommitInfo, Vcs};
use memexia::storage::Storage;
use memexia::errors::RepoError;

#[test]
fn test_commit_info_short() {
    let info = CommitInfo {
        oid: "abc123456789".to_string(),
        message: "Test commit".to_string(),
        graph_hash: Some("hash123".to_string()),
        author: "Test <test@example.com>".to_string(),
        timestamp: "2024-01-01T00:00:00Z".to_string(),
    };
    let short = info.to_short();
    assert_eq!(short, "abc1234 - Test commit");
}

#[test]
fn test_commit_info_short_long_oid() {
    let info = CommitInfo {
        oid: "1234567890abcdef".to_string(),
        message: "Another commit".to_string(),
        graph_hash: None,
        author: "User <user@test.com>".to_string(),
        timestamp: "2024-01-01T00:00:00Z".to_string(),
    };
    let short = info.to_short();
    assert_eq!(short, "1234567 - Another commit");
}

#[test]
fn test_rollback_result_has_changes() {
    let result = RollbackResult {
        node_id: "test".to_string(),
        from_content: Some("old".to_string()),
        to_content: "new".to_string(),
        commit_hash: "abc".to_string(),
    };
    assert!(result.has_changes());

    let no_change = RollbackResult {
        node_id: "test".to_string(),
        from_content: Some("same".to_string()),
        to_content: "same".to_string(),
        commit_hash: "abc".to_string(),
    };
    assert!(!no_change.has_changes());
}

#[test]
fn test_rollback_result_no_from_content() {
    let result = RollbackResult {
        node_id: "test".to_string(),
        from_content: None,
        to_content: "new content".to_string(),
        commit_hash: "abc".to_string(),
    };
    assert!(result.has_changes());
}

#[test]
fn test_rollback_result_empty_to_content() {
    let result = RollbackResult {
        node_id: "test".to_string(),
        from_content: Some("old content".to_string()),
        to_content: "".to_string(),
        commit_hash: "abc".to_string(),
    };
    assert!(result.has_changes());
}

#[test]
fn test_snapshot() {
    let store = TripleStore::new();
    let mut history = GraphHistory::new();
    let hash = history.snapshot(&store);
    assert!(!hash.is_empty());
    // the SHA-256 of the empty serialisation
    assert_eq!(hash, "e3b0c44298fc1c149afbf4c8996fb92427ae41e4649b934ca495991b7852b855");
    let snapshot = history.get_snapshot(&hash).unwrap();
    assert_eq!(snapshot.hash, hash);
    assert_eq!(snapshot.nquads, "");
}

#[test]
fn test_commit_link() {
    let mut history = GraphHistory::new();
    history.record("abc123", "def456");
    let graph_hash = history.get_commit_graph_hash("abc123");
    assert_eq!(graph_hash, Some("def456".to_string()));
    assert_eq!(history.get_commit_graph_hash("missing"), None);
}

#[test]
fn test_commit_link_last_wins() {
    let mut history = GraphHistory::new();
    history.record("c1", "g1");
    history.record("c1", "g2");
    assert_eq!(history.get_commit_graph_hash("c1"), Some("g2".to_string()));
}

#[test]
fn test_node_snapshot() {
    let mut history = GraphHistory::new();
    let node_id = "urn:memexia:node:test";
    let content = r#"{"id":"urn:memexia:node:test","title":"Test Node","content":"Hello"}"#;
    let hash = history.snapshot_node(node_id, content, "abc123");
    assert!(!hash.is_empty());
    let node_history = history.get_node_history(node_id);
    assert_eq!(node_history.len(), 1);
    assert_eq!(node_history[0].hash, hash);
    assert_eq!(node_history[0].commit_hash, "abc123");
}

#[test]
fn test_node_multiple_snapshots() {
    let mut history = GraphHistory::new();
    let node_id = "urn:memexia:node:test";
    let content1 = r#"{"id":"urn:memexia:node:test","title":"Test","v":1}"#;
    let content2 = r#"{"id":"urn:memexia:node:test","title":"Test","v":2}"#;
    let hash1 = history.snapshot_node(node_id, content1, "commit1");
    let hash2 = history.snapshot_node(node_id, content2, "commit2");
    assert_ne!(hash1, hash2);
    let node_history = history.get_node_history(node_id);
    assert_eq!(node_history.len(), 2);
    assert_eq!(node_history[0].commit_hash, "commit1");
    assert_eq!(node_history[1].commit_hash, "commit2");
    let latest = history.get_latest_node_snapshot(node_id);
    assert!(latest.is_some());
    assert_eq!(latest.unwrap().hash, hash2);
}

#[test]
fn test_get_node_snapshot() {
    let mut history = GraphHistory::new();
    let node_id = "urn:memexia:node:test";
    let content = r#"{"id":"urn:memexia:node:test","title":"Test"}"#;
    let hash = history.snapshot_node(node_id, content, "commit1");
    let retrieved = history.get_node_snapshot(node_id, &hash);
    assert!(retrieved.is_some());
    assert_eq!(retrieved.unwrap(), content);
    let not_found = history.get_node_snapshot(node_id, "nonexistent");
    assert!(not_found.is_none());
}

#[test]
fn test_derivation_record() {
    let mut history = GraphHistory::new();
    history.record_derivation("child_id", "parent_id", "commit123");
    let derivations = history.get_derivations("child_id");
    assert_eq!(derivations.len(), 1);
    assert_eq!(derivations[0].parent_id, "parent_id");
    assert_eq!(derivations[0].commit_hash, "commit123");
}

#[test]
fn test_get_derived_nodes() {
    let mut history = GraphHistory::new();
    history.record_derivation("child1", "parent", "commit1");
    history.record_derivation("child2", "parent", "commit2");
    let derived = history.get_derived_nodes("parent");
    assert_eq!(derived.len(), 2);
    let child_ids: Vec<_> = derived.iter().map(|d| d.child_id.clone()).collect();
    assert!(child_ids.contains(&"child1".to_string()));
    assert!(child_ids.contains(&"child2".to_string()));
}

#[test]
fn test_derivation_chain() {
    let mut history = GraphHistory::new();
    history.record_derivation("child1", "root", "c1");
    history.record_derivation("child2", "child1", "c2");
    history.record_derivation("child3", "child2", "c3");
    let chain = history.build_derivation_chain("child3");
    assert_eq!(chain.len(), 3);
    assert_eq!(chain[0].parent_id, "child2");
    assert_eq!(chain[1].parent_id, "child1");
    assert_eq!(chain[2].parent_id, "root");
}

#[test]
fn test_reverse_derivation_chain() {
    let mut history = GraphHistory::new();
    history.record_derivation("child1", "root", "c1");
    history.record_derivation("child2", "child1", "c2");
    history.record_derivation("child3", "child2", "c3");
    let chain = history.build_reverse_derivation_chain("root", 5);
    assert_eq!(chain.len(), 3);
    assert_eq!(chain[0].child_id, "child1");
    assert_eq!(chain[1].child_id, "child2");
    assert_eq!(chain[2].child_id, "child3");
}

#[test]
fn test_derivation_chain_no_cycle() {
    let mut history = GraphHistory::new();
    history.record_derivation("node2", "node1", "c1");
    history.record_derivation("node1", "node2", "c2");
    let chain = history.build_derivation_chain("node2");
    assert!(chain.len() <= 2);
}

#[test]
fn test_get_latest_node_snapshot() {
    let mut history = GraphHistory::new();
    let node_id = "urn:memexia:node:latest";
    let content1 = r#"{"id":"urn:memexia:node:latest","version":1}"#;
    let content2 = r#"{"id":"urn:memexia:node:latest","version":2}"#;
    let content3 = r#"{"id":"urn:memexia:node:latest","version":3}"#;
    let _hash1 = history.snapshot_node(node_id, content1, "c1");
    let _hash2 = history.snapshot_node(node_id, content2, "c2");
    let hash3 = history.snapshot_node(node_id, content3, "c3");
    let latest = history.get_latest_node_snapshot(node_id).unwrap();
    assert_eq!(latest.hash, hash3);
    assert_eq!(latest.content, content3);
    assert_eq!(latest.commit_hash, "c3");
}

#[test]
fn test_get_latest_node_snapshot_not_exists() {
    let history = GraphHistory::new();
    let latest = history.get_latest_node_snapshot("not_exists");
    assert!(latest.is_none());
}

#[test]
fn test_empty_derivation_chain() {
    let history = GraphHistory::new();
    let chain = history.build_derivation_chain("orphan");
    assert!(chain.is_empty());
}

#[test]
fn test_reverse_derivation_chain_limit() {
    let mut history = GraphHistory::new();
    history.record_derivation("n1", "root", "c1");
    history.record_derivation("n2", "n1", "c2");
    history.record_derivation("n3", "n2", "c3");
    history.record_derivation("n4", "n3", "c4");
    history.record_derivation("n5", "n4", "c5");
    let chain = history.build_reverse_derivation_chain("root", 2);
    assert_eq!(chain.len(), 2);
    assert_eq!(chain[0].child_id, "n1");
    assert_eq!(chain[1].child_id, "n2");
}

#[test]
fn test_multiple_derivations_same_parent() {
    let mut history = GraphHistory::new();
    history.record_derivation("child1", "parent", "c1");
    history.record_derivation("child2", "parent", "c2");
    history.record_derivation("child3", "parent", "c3");
    let derived = history.get_derived_nodes("parent");
    assert_eq!(derived.len(), 3);
    for child in &["child1", "child2", "child3"] {
        let derivations = history.get_derivations(child);
        assert_eq!(derivations.len(), 1);
        assert_eq!(derivations[0].parent_id, "parent");
    }
}

#[test]
fn test_node_history_empty() {
    let history = GraphHistory::new();
    let entries = history.get_node_history("not_exists");
    assert!(entries.is_empty());
}

#[test]
fn test_node_snapshot_not_found() {
    let mut history = GraphHistory::new();
    let node_id = "urn:memexia:node:exists";
    history.snapshot_node(node_id, r#"{"id":"urn:memexia:node:exists"}"#, "c1");
    let snapshot = history.get_node_snapshot(node_id, "fake_hash");
    assert!(snapshot.is_none());
}

#[test]
fn test_derivation_empty_derived_nodes() {
    let history = GraphHistory::new();
    let derived = history.get_derived_nodes("orphan");
    assert!(derived.is_empty());
}

#[test]
fn test_derivation_empty_derivations() {
    let history = GraphHistory::new();
    let derivations = history.get_derivations("root_node");
    assert!(derivations.is_empty());
}

#[test]
fn test_long_derivation_chain() {
    let mut history = GraphHistory::new();
    let mut previous = "root".to_string();
    for i in 1..=10 {
        history.record_derivation(&format!("node{}", i), &previous, &format!("c{}", i));
        previous = format!("node{}", i);
    }
    let chain = history.build_derivation_chain("node10");
    assert_eq!(chain.len(), 10);
    assert_eq!(chain[0].parent_id, "node9");
    assert_eq!(chain[9].parent_id, "root");
}

#[test]
fn test_complex_derivation_graph() {
    let mut history = GraphHistory::new();
    history.record_derivation("n1", "root", "c1");
    history.record_derivation("n2", "root", "c2");
    history.record_derivation("n3", "n1", "c3");
    history.record_derivation("n4", "n2", "c4");
    history.record_derivation("n5", "n3", "c5");
    history.record_derivation("n5", "n4", "c6");
    let chain = history.build_derivation_chain("n5");
    assert!(!chain.is_empty());
    assert_eq!(chain.last().unwrap().parent_id, "root");
}

#[test]
fn test_graph_diff_empty() {
    let store = TripleStore::new();
    let mut history = GraphHistory::new();
    let hash1 = history.snapshot(&store);
    let hash2 = history.snapshot(&store);
    let diff = history.diff(&hash1, &hash2).unwrap();
    assert!(diff.is_empty());
}

#[test]
fn test_history_entry() {
    let mut history = GraphHistory::new();
    history.record("commit1", "graph1");
    history.record("commit2", "graph2");
    let entries = history.get_history(10);
    assert_eq!(entries.len(), 2);
    assert_eq!(entries[0].commit_hash, "commit2");
    assert_eq!(entries[1].commit_hash, "commit1");
}

#[test]
fn test_history_limit() {
    let mut history = GraphHistory::new();
    for i in 1..=10 {
        history.record(&format!("commit{}", i), &format!("graph{}", i));
    }
    let entries = history.get_history(5);
    assert_eq!(entries.len(), 5);
}

#[test]
fn test_rollback_node() {
    let mut history = GraphHistory::new();
    let node_id = "urn:memexia:node:test";
    let content1 = r#"{"id":"urn:memexia:node:test","title":"Version 1"}"#;
    let content2 = r#"{"id":"urn:memexia:node:test","title":"Version 2"}"#;
    let hash1 = history.snapshot_node(node_id, content1, "commit1");
    let _hash2 = history.snapshot_node(node_id, content2, "commit2");
    let rollback = RollbackManager::new("root", history);
    let result = rollback.rollback_node(node_id, &hash1).unwrap();
    assert_eq!(result, content1);
}

#[test]
fn test_rollback_node_not_found() {
    let rollback = RollbackManager::new("root", GraphHistory::new());
    let result = rollback.rollback_node("not_exists", "fake_hash");
    assert!(result.is_err());
}

#[test]
fn test_rollback_node_to_history() {
    let mut history = GraphHistory::new();
    let node_id = "urn:memexia:node:test";
    let content1 = r#"{"id":"urn:memexia:node:test","v":1}"#;
    let content2 = r#"{"id":"urn:memexia:node:test","v":2}"#;
    history.snapshot_node(node_id, content1, "commit1");
    history.snapshot_node(node_id, content2, "commit2");
    let rollback = RollbackManager::new("root", history);
    let result = rollback.rollback_node_to_history(node_id, "commit1");
    assert!(result.is_some());
    assert_eq!(result.unwrap(), content1);
}

#[test]
fn test_rollback_node_to_history_not_found() {
    let mut history = GraphHistory::new();
    let node_id = "urn:memexia:node:test";
    history.snapshot_node(node_id, r#"{"id":"urn:memexia:node:test"}"#, "commit1");
    let rollback = RollbackManager::new("root", history);
    let result = rollback.rollback_node_to_history(node_id, "not_exists");
    assert!(result.is_none());
}

#[test]
fn test_rollback_node_to_latest() {
    let mut history = GraphHistory::new();
    let node_id = "urn:memexia:node:latest";
    history.snapshot_node(node_id, r#"{"v":1}"#, "c1");
    history.snapshot_node(node_id, r#"{"v":2}"#, "c2");
    let rollback = RollbackManager::new("root", history);
    let latest = rollback.rollback_node_to_latest(node_id).unwrap();
    assert_eq!(latest.content, r#"{"v":2}"#);
}

#[test]
fn test_rollback_node_to_latest_not_exists() {
    let rollback = RollbackManager::new("root", GraphHistory::new());
    let latest = rollback.rollback_node_to_latest("not_exists");
    assert!(latest.is_none());
}

#[test]
fn test_preview_node_rollback() {
    let mut history = GraphHistory::new();
    history.record_derivation("child1", "root", "c1");
    history.record_derivation("child2", "child1", "c2");
    let rollback = RollbackManager::new("root", history);
    let affected = rollback.preview_node_rollback("root");
    assert_eq!(affected.len(), 2);
    assert!(affected.contains(&"child1".to_string()));
    assert!(affected.contains(&"child2".to_string()));
}

#[test]
fn test_preview_node_rollback_empty() {
    let rollback = RollbackManager::new("root", GraphHistory::new());
    let affected = rollback.preview_node_rollback("orphan");
    assert!(affected.is_empty());
}

#[test]
fn test_preview_node_rollback_deep_chain() {
    let mut history = GraphHistory::new();
    let mut parent = "root".to_string();
    for i in 1..=5 {
        history.record_derivation(&format!("n{}", i), &parent, &format!("c{}", i));
        parent = format!("n{}", i);
    }
    let rollback = RollbackManager::new("root", history);
    let affected = rollback.preview_node_rollback("root");
    assert_eq!(affected.len(), 5);
}

#[test]
fn test_rollback_derivation_chain() {
    let mut history = GraphHistory::new();
    history.record_derivation("child1", "root", "c1");
    history.record_derivation("child2", "child1", "c2");
    history.snapshot_node("root", r#"{"id":"root"}"#, "c1");
    history.snapshot_node("child1", r#"{"id":"child1"}"#, "c1");
    history.snapshot_node("child2", r#"{"id":"child2"}"#, "c2");
    let rollback = RollbackManager::new("root", history);
    let results = rollback.rollback_derivation_chain("child2");
    assert!(!results.is_empty());
}

#[test]
fn test_rollback_derivation_chain_empty() {
    let rollback = RollbackManager::new("root", GraphHistory::new());
    let results = rollback.rollback_derivation_chain("orphan");
    assert!(results.is_empty() || results.len() == 1);
}

#[test]
fn test_rollback_derivation_chain_with_snapshots() {
    let mut history = GraphHistory::new();
    history.record_derivation("B", "A", "c1");
    history.record_derivation("C", "B", "c2");
    history.snapshot_node("A", r#"{"id":"A"}"#, "c1");
    history.snapshot_node("B", r#"{"id":"B"}"#, "c1");
    history.snapshot_node("C", r#"{"id":"C"}"#, "c2");
    let rollback = RollbackManager::new("root", history);
    let results = rollback.rollback_derivation_chain("C");
    let node_ids: Vec<_> = results.iter().map(|r| r.node_id.clone()).collect();
    assert!(node_ids.contains(&"A".to_string()));
    assert!(node_ids.contains(&"B".to_string()));
    // each restored node carries the snapshot recorded at its commit
    for r in &results {
        if r.node_id == "A" {
            assert_eq!(r.to_content, r#"{"id":"A"}"#);
        }
        if r.node_id == "B" {
            assert_eq!(r.to_content, r#"{"id":"B"}"#);
        }
    }
}

#[test]
fn test_get_node_history() {
    let mut history = GraphHistory::new();
    let node_id = "urn:memexia:node:history";
    history.snapshot_node(node_id, "v1", "c1");
    history.snapshot_node(node_id, "v2", "c2");
    history.snapshot_node(node_id, "v3", "c3");
    let rollback = RollbackManager::new("root", history);
    let entries = rollback.get_node_history(node_id);
    assert_eq!(entries.len(), 3);
    assert_eq!(entries[0].commit_hash, "c1");
    assert_eq!(entries[2].commit_hash, "c3");
}

#[test]
fn test_get_derivation_chain() {
    let mut history = GraphHistory::new();
    history.record_derivation("child1", "root", "c1");
    history.record_derivation("child2", "child1", "c2");
    history.record_derivation("child3", "child2", "c3");
    let rollback = RollbackManager::new("root", history);
    let chain = rollback.get_derivation_chain("child3");
    assert_eq!(chain.len(), 3);
}

#[test]
fn test_node_exists() {
    let mut history = GraphHistory::new();
    history.snapshot_node("exists", r#"{"id":"exists"}"#, "c1");
    let rollback = RollbackManager::new("root", history);
    assert!(!rollback.node_exists("not_exists"));
    assert!(rollback.node_exists("exists"));
}

#[test]
fn test_vcs_init_multiple_times() {
    let _vcs1 = Vcs::init("root");
    let _vcs2 = Vcs::init("root");
}

#[test]
fn test_vcs_commit_and_log() {
    let mut vcs = Vcs::init("root");
    let storage = Storage::new("root");
    let oid = vcs
        .commit("Test commit", &vec!["test.txt".to_string()], &storage)
        .unwrap();
    assert!(!oid.is_empty());
    let logs = vcs.log(10);
    assert_eq!(logs.len(), 1);
    assert_eq!(logs[0].message, "Test commit");
    assert_eq!(logs[0].oid, oid);
}

#[test]
fn test_vcs_head_and_amend() {
    let mut vcs = Vcs::init("root");
    let storage = Storage::new("root");
    assert!(vcs.head_info().is_none());
    vcs.commit("Original message", &vec![], &storage).unwrap();
    assert!(vcs.head_info().is_some());
    vcs.amend("Amended message", &storage).unwrap();
    let logs = vcs.log(1);
    assert_eq!(logs[0].message, "Amended message");
    assert_eq!(vcs.log(10).len(), 1);
}

#[test]
fn test_vcs_amend_without_commit() {
    // an amend on an empty log creates the first commit
    let mut vcs = Vcs::init("root");
    let storage = Storage::new("root");
    vcs.amend("First by amend", &storage).unwrap();
    let logs = vcs.log(10);
    assert_eq!(logs.len(), 1);
    assert_eq!(logs[0].message, "First by amend");
}

#[test]
fn test_repository_init_already_exists() {
    assert!(Repository::init("r", false).is_ok());
    let result = Repository::init("r", true);
    assert!(matches!(result, Err(RepoError::AlreadyExists)));
}

#[test]
fn test_repository_open_walks_up() {
    let markers = vec!["a".to_string()];
    let repo = Repository::open("a/b/c", &markers).unwrap();
    assert_eq!(repo.path(), "a");
    let direct = Repository::open("a", &markers).unwrap();
    assert_eq!(direct.path(), "a");
    assert!(Repository::open("x/y", &markers).is_err());
}

#[test]
fn test_repository_commit_no_staged() {
    let mut repo = Repository::init("r", false).unwrap();
    let result = repo.commit("No files", &vec![]);
    assert!(matches!(result, Err(RepoError::NothingToCommit)));
}

#[test]
fn test_repository_commit_roundtrip() {
    let mut repo = Repository::init("r", false).unwrap();
    repo.add(&vec!["notes/a.md".to_string()]);
    let status = repo.status();
    assert!(status.contains("Staged files:"));
    assert!(status.contains("notes/a.md"));
    let files = vec![(
        "notes/a.md".to_string(),
        "---\ntitle: Alpha\ntype: Concept\ntags: [x, y]\n---\n# Alpha\nSee [[Beta|Supports:0.8:because]].\n#tag1\n"
            .to_string(),
    )];
    let oid = repo.commit("c1", &files).unwrap();
    assert!(!oid.is_empty());
    let logs = repo.log(10);
    assert_eq!(logs.len(), 1);
    assert_eq!(logs[0].message, "c1");
    let h = logs[0].graph_hash.clone().unwrap();
    // the recorded hash resolves to the exact serialisation of the graph
    let snap = repo.vcs().graph_history.get_snapshot(&h).unwrap();
    assert_eq!(snap.nquads, repo.export_nquads());
    assert_eq!(repo.status(), "No changes staged.");
}

#[test]
fn test_repository_amend_first_commit() {
    let mut repo = Repository::init("r", false).unwrap();
    repo.amend("first").unwrap();
    let last = repo.last_commit().unwrap();
    assert_eq!(last.message, "first");
}

#[test]
fn test_repository_add_dedup() {
    let mut repo = Repository::init("r", false).unwrap();
    repo.add(&vec!["a.md".to_string(), "b.md".to_string()]);
    repo.add(&vec!["a.md".to_string()]);
    assert_eq!(repo.index, vec!["a.md".to_string(), "b.md".to_string()]);
}

#[test]
fn test_repository_query_graph() {
    let repo = Repository::init("r", false).unwrap();
    let result = repo.query_graph("SELECT ?s ?p WHERE { ?s ?p ?o }").unwrap();
    assert!(result.is_empty());
    assert!(repo.query_graph("DESCRIBE <x>").is_err());
}
