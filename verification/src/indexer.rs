//! The indexer: drives the parser into the triple store for one note, a
//! whole tree, or a stream of file events.

use vstd::prelude::*;

use crate::clock::now_ts;
use crate::edge::EdgeView;
use crate::errors::RepoError;
use crate::events::FileEvent;
use crate::iri::{node_id_for_path, spec_node_id_for_path, spec_target_id, target_id};
use crate::node::{Node, NodeType, NodeView};
use crate::parser::{parse_markdown, spec_parse_markdown, spec_to_node, ParsedDoc, ParsedDocView};
use crate::storage::Storage;
use crate::store::{
    clamped_edge, edges_after_add, has_edge_id, has_node_id, nodes_after_add, TripleStore,
};
use crate::watch_config::{spec_allowed, WatchConfig};
use crate::wiki_link::WikiLinkView;

verus! {

/// The placeholder node created for a link target that does not exist
/// yet: type `Concept`, title the raw link text.
pub open spec fn placeholder_view(tid: Seq<char>, target: Seq<char>, now: int) -> NodeView {
    NodeView {
        id: tid,
        node_type: NodeType::Concept,
        title: target,
        content: None,
        tags: Seq::<Seq<char>>::empty(),
        created_at: now,
        updated_at: now,
    }
}

/// The store after the links of a note are written, from link `i` on:
/// each link first gets its target node (a placeholder when missing),
/// then its edge, replacing any edge with the same IRI.
pub open spec fn links_fold(
    nodes: Seq<NodeView>,
    edges: Seq<EdgeView>,
    from: Seq<char>,
    links: Seq<WikiLinkView>,
    i: int,
    now: int,
) -> (Seq<NodeView>, Seq<EdgeView>)
    decreases links.len() - i,
{
    if i < 0 || i >= links.len() {
        (nodes, edges)
    } else {
        let tid = spec_target_id(links[i].target);
        let nodes1 = if has_node_id(nodes, tid) {
            nodes
        } else {
            nodes_after_add(nodes, placeholder_view(tid, links[i].target, now))
        };
        let e = clamped_edge(crate::wiki_link::WikiLink::spec_to_edge(links[i], from, now));
        let edges1 = edges_after_add(edges, e);
        links_fold(nodes1, edges1, from, links, i + 1, now)
    }
}

/// The store after one note is indexed: the note's node is written
/// (replacing any record with its IRI), then its links.
pub open spec fn spec_index_document(
    nodes: Seq<NodeView>,
    edges: Seq<EdgeView>,
    doc: ParsedDocView,
    now: int,
) -> (Seq<NodeView>, Seq<EdgeView>) {
    let n = spec_to_node(doc, now);
    links_fold(nodes_after_add(nodes, n), edges, n.id, doc.wiki_links, 0, now)
}

/// Write one parsed note and its links into the store. Yields the
/// number of edges written.
#[verifier::loop_isolation(false)]
pub fn index_document(store: &mut TripleStore, doc: &ParsedDoc, now: i64) -> (r: usize)
    requires
        old(store).wf(),
        forall|k: int|
            0 <= k < doc@.wiki_links.len() ==> 0 <= (#[trigger] doc@.wiki_links[k]).strength
                <= 1000,
    ensures
        final(store).wf(),
        r == doc@.wiki_links.len(),
        ({
            let (n2, e2) = spec_index_document(
                old(store).nodes_view(),
                old(store).edges_view(),
                doc@,
                now as int,
            );
            final(store).nodes_view() == n2 && final(store).edges_view() == e2
        }),
{
    let node = doc.to_node_at(now);
    store.add_node(&node);
    proof {
        crate::store::lemma_node_find_props(store.nodes_view(), node@.id);
        lemma_add_keeps_id(old(store).nodes_view(), node@, node@.id);
    }
    let ghost from = node@.id;
    let ghost links = doc@.wiki_links;
    let mut i: usize = 0;
    while i < doc.wiki_links.len()
        invariant
            i <= doc.wiki_links@.len(),
            store.wf(),
            links == doc@.wiki_links,
            from == node@.id,
            has_node_id(store.nodes_view(), node@.id),
            spec_index_document(
                old(store).nodes_view(),
                old(store).edges_view(),
                doc@,
                now as int,
            ) == links_fold(
                store.nodes_view(),
                store.edges_view(),
                from,
                links,
                i as int,
                now as int,
            ),
        decreases doc.wiki_links@.len() - i,
    {
        proof {
            assert(doc.wiki_links.deep_view()[i as int] == doc.wiki_links@[i as int]@);
        }
        let link = &doc.wiki_links[i];
        let tid = target_id(link.target.as_str());
        if !store.node_exists(tid.as_str()) {
            let ph = Node::new_at(
                tid.as_str(),
                NodeType::Concept,
                link.target.as_str(),
                now,
            );
            let ghost nv0 = store.nodes_view();
            store.add_node(&ph);
            proof {
                assert(ph@ =~= placeholder_view(tid@, links[i as int].target, now as int));
                lemma_add_keeps_id(nv0, ph@, node@.id);
            }
        }
        let edge = link.to_edge_at(node.id.as_str(), now);
        let res = store.add_edge(&edge);
        proof {
            assert(res is Ok);
        }
        i = i + 1;
    }
    doc.wiki_links.len()
}

/// An idempotent add keeps every IRI that was already present, and adds
/// the new one.
pub proof fn lemma_add_keeps_id(nodes: Seq<NodeView>, n: NodeView, id: Seq<char>)
    requires
        has_node_id(nodes, id) || id == n.id,
    ensures
        has_node_id(nodes_after_add(nodes, n), id),
{
    crate::store::lemma_node_find_props(nodes, n.id);
    let k = crate::store::node_find(nodes, n.id, 0);
    if k < nodes.len() {
        // overwritten in place
        if id == n.id {
            assert(nodes_after_add(nodes, n)[k].id == id);
        } else {
            let w = choose|w: int| 0 <= w < nodes.len() && (#[trigger] nodes[w]).id == id;
            if w == k {
                assert(nodes[k].id == n.id);
                assert(nodes_after_add(nodes, n)[k].id == id);
            } else {
                assert(nodes_after_add(nodes, n)[w].id == id);
            }
        }
    } else {
        if id == n.id {
            assert(nodes_after_add(nodes, n)[nodes.len() as int].id == id);
        } else {
            let w = choose|w: int| 0 <= w < nodes.len() && (#[trigger] nodes[w]).id == id;
            assert(nodes_after_add(nodes, n)[w].id == id);
        }
    }
}

/// What indexing one file yields.
#[derive(Debug, Clone, PartialEq)]
pub enum IndexResult {
    /// The file was parsed and written.
    Indexed {
        /// The file's relative path.
        path: String,
        /// How many nodes the note itself contributed.
        node_count: usize,
        /// How many edges its links contributed.
        edge_count: usize,
    },
    /// The file did not pass the filter or is not a Markdown file.
    Skipped,
    /// The file's node was removed; the payload is its IRI.
    Deleted(String),
}

/// The running counts of a bulk index.
#[derive(Debug)]
pub struct IndexSummary {
    /// Files parsed and written.
    pub files_indexed: usize,
    /// Nodes the notes themselves contributed.
    pub nodes_created: usize,
    /// Edges the links contributed.
    pub edges_created: usize,
    /// Files the filter skipped.
    pub files_skipped: usize,
    /// Files whose nodes were removed.
    pub files_deleted: usize,
    /// Per-file errors, each a path and a message.
    pub errors: Vec<(String, String)>,
}

/// A saturating counter step.
pub open spec fn sat_add(a: int, b: int) -> int {
    if a + b <= usize::MAX {
        a + b
    } else {
        usize::MAX as int
    }
}

impl Default for IndexSummary {
    /// All counts zero, no errors.
    fn default() -> (r: Self)
        ensures
            r.files_indexed == 0,
            r.nodes_created == 0,
            r.edges_created == 0,
            r.files_skipped == 0,
            r.files_deleted == 0,
            r.errors@.len() == 0,
    {
        IndexSummary {
            files_indexed: 0,
            nodes_created: 0,
            edges_created: 0,
            files_skipped: 0,
            files_deleted: 0,
            errors: Vec::new(),
        }
    }
}

impl IndexSummary {
    /// The five counters, in declaration order.
    pub open spec fn counts(s: &IndexSummary) -> Seq<int> {
        seq![
            s.files_indexed as int,
            s.nodes_created as int,
            s.edges_created as int,
            s.files_skipped as int,
            s.files_deleted as int,
        ]
    }

    /// Fold one result into the counts; each counter saturates rather
    /// than wrap.
    pub fn add(&mut self, result: IndexResult)
        ensures
            final(self).errors == old(self).errors,
            IndexSummary::counts(final(self)) == (match result {
                IndexResult::Indexed { path, node_count, edge_count } => seq![
                    sat_add(old(self).files_indexed as int, 1),
                    sat_add(old(self).nodes_created as int, node_count as int),
                    sat_add(old(self).edges_created as int, edge_count as int),
                    old(self).files_skipped as int,
                    old(self).files_deleted as int,
                ],
                IndexResult::Skipped => seq![
                    old(self).files_indexed as int,
                    old(self).nodes_created as int,
                    old(self).edges_created as int,
                    sat_add(old(self).files_skipped as int, 1),
                    old(self).files_deleted as int,
                ],
                IndexResult::Deleted(_) => seq![
                    old(self).files_indexed as int,
                    old(self).nodes_created as int,
                    old(self).edges_created as int,
                    old(self).files_skipped as int,
                    sat_add(old(self).files_deleted as int, 1),
                ],
            }),
    {
        match result {
            IndexResult::Indexed { path: _, node_count, edge_count } => {
                if self.files_indexed < usize::MAX {
                    self.files_indexed = self.files_indexed + 1;
                }
                if self.nodes_created <= usize::MAX - node_count {
                    self.nodes_created = self.nodes_created + node_count;
                } else {
                    self.nodes_created = usize::MAX;
                }
                if self.edges_created <= usize::MAX - edge_count {
                    self.edges_created = self.edges_created + edge_count;
                } else {
                    self.edges_created = usize::MAX;
                }
            },
            IndexResult::Skipped => {
                if self.files_skipped < usize::MAX {
                    self.files_skipped = self.files_skipped + 1;
                }
            },
            IndexResult::Deleted(_) => {
                if self.files_deleted < usize::MAX {
                    self.files_deleted = self.files_deleted + 1;
                }
            },
        }
        proof {
            assert(IndexSummary::counts(final(self)) =~= IndexSummary::counts(final(self)));
        }
    }

    /// Whether any per-file error was recorded.
    pub fn has_errors(&self) -> (r: bool)
        ensures
            r == (self.errors@.len() > 0),
    {
        self.errors.len() > 0
    }
}

/// Whether the path's file name carries the `md` extension.
pub open spec fn spec_is_md(path: Seq<char>) -> bool {
    let name = crate::watch_config::spec_file_name(path);
    Node::spec_has_late_dot(name) && name.skip(last_dot(name) + 1) == "md"@
}

/// The index of the last dot of a name, when one sits past the first
/// character.
pub open spec fn last_dot(name: Seq<char>) -> int {
    Node::spec_strip_extension(name).len() as int
}

/// The indexer: a filter and a storage to write into.
#[derive(Debug)]
pub struct Indexer {
    /// Where parsed notes are written.
    pub storage: Storage,
    /// Which files are accepted.
    pub config: WatchConfig,
}

impl Indexer {
    /// An indexer over a storage, with the default filter.
    pub fn new(storage: Storage) -> (r: Indexer)
        ensures
            r.storage == storage,
            r.config.whitelist.deep_view() =~= seq!["*.md"@],
            r.config.blacklist.deep_view() =~= seq![
                ".git/**/*"@,
                ".memexia/**/*"@,
                "*.tmp"@,
                "*.bak"@,
                ".DS_Store"@,
            ],
    {
        Indexer { storage, config: WatchConfig::new() }
    }

    /// An indexer over a storage, with the given filter.
    pub fn with_config(storage: Storage, config: WatchConfig) -> (r: Indexer)
        ensures
            r.storage == storage,
            r.config == config,
    {
        Indexer { storage, config }
    }

    /// Replace the filter.
    pub fn set_config(&mut self, config: WatchConfig)
        ensures
            final(self).config == config,
            final(self).storage == old(self).storage,
    {
        self.config = config;
    }

    /// The current filter.
    pub fn config(&self) -> (r: &WatchConfig)
        ensures
            r == &self.config,
    {
        &self.config
    }

    /// Index one note, read at the current instant.
    pub fn index_file(&mut self, path: &str, content: &str) -> (r: IndexResult)
        requires
            old(self).storage.graph_store.wf(),
        ensures
            final(self).storage.graph_store.wf(),
            final(self).config == old(self).config,
            exists|now: int| #[trigger] index_file_post(*old(self), *final(self), path@, content@, r, now),
    {
        let now = now_ts();
        let r = self.index_file_at(path, content, now);
        proof {
            assert(index_file_post(*old(self), *final(self), path@, content@, r, now as int));
        }
        r
    }

    /// Index one note, stamped with the given instant: a file failing
    /// the filter or without the `md` extension is skipped, anything
    /// else is parsed and written.
    pub fn index_file_at(&mut self, path: &str, content: &str, now: i64) -> (r: IndexResult)
        requires
            old(self).storage.graph_store.wf(),
        ensures
            final(self).storage.graph_store.wf(),
            final(self).config == old(self).config,
            index_file_post(*old(self), *final(self), path@, content@, r, now as int),
    {
        if !self.config.is_allowed(path) {
            return IndexResult::Skipped;
        }
        if !has_md_ext(path) {
            return IndexResult::Skipped;
        }
        let doc = parse_markdown(content, path);
        proof {
            crate::wiki_link::lemma_links_clamped(
                crate::frontmatter::spec_remaining_after(content@),
                0,
            );
        }
        let count = index_document(&mut self.storage.graph_store, &doc, now);
        let pv = crate::text::chars_of(path);
        IndexResult::Indexed {
            path: crate::text::string_from(&pv),
            node_count: 1,
            edge_count: count,
        }
    }

    /// Remove every file-backed node, then index the given notes: the
    /// canonical repair for dangling edges.
    pub fn reindex_all(&mut self, files: &Vec<(String, String)>) -> (r: IndexSummary)
        requires
            old(self).storage.graph_store.wf(),
        ensures
            final(self).storage.graph_store.wf(),
            final(self).config == old(self).config,
            r.errors@.len() == 0,
            exists|now: int|
                #[trigger] reindexed_post(*old(self), *final(self), files.deep_view(), r, now),
    {
        self.storage.graph_store.delete_nodes_with_prefix("urn:memexia:file:");
        let ghost mid = *self;
        let r = self.index_all(files);
        proof {
            let n0 = choose|now: int|
                #[trigger] index_all_post(mid, *self, files.deep_view(), r, now);
            assert(reindexed_post(*old(self), *self, files.deep_view(), r, n0));
        }
        r
    }

    /// Index each given note in turn, all stamped at one instant; the
    /// summary counts what was written and skipped.
    #[verifier::loop_isolation(false)]
    pub fn index_all(&mut self, files: &Vec<(String, String)>) -> (r: IndexSummary)
        requires
            old(self).storage.graph_store.wf(),
        ensures
            final(self).storage.graph_store.wf(),
            final(self).config == old(self).config,
            r.errors@.len() == 0,
            exists|now: int|
                #[trigger] index_all_post(*old(self), *final(self), files.deep_view(), r, now),
    {
        let now = now_ts();
        let ghost fdv = files.deep_view();
        let ghost wl = old(self).config.whitelist.deep_view();
        let ghost bl = old(self).config.blacklist.deep_view();
        let mut summary = IndexSummary::default();
        let mut i: usize = 0;
        while i < files.len()
            invariant
                i <= files@.len(),
                fdv == files.deep_view(),
                self.storage.graph_store.wf(),
                self.config == old(self).config,
                self.storage.root == old(self).storage.root,
                self.storage.objects == old(self).storage.objects,
                wl == self.config.whitelist.deep_view(),
                bl == self.config.blacklist.deep_view(),
                index_all_state(
                    wl,
                    bl,
                    old(self).storage.graph_store.nodes_view(),
                    old(self).storage.graph_store.edges_view(),
                    fdv,
                    0,
                    now as int,
                ) == index_all_state(
                    wl,
                    bl,
                    self.storage.graph_store.nodes_view(),
                    self.storage.graph_store.edges_view(),
                    fdv,
                    i as int,
                    now as int,
                ),
                fold_indexed(wl, bl, fdv, 0, 0) == fold_indexed(
                    wl,
                    bl,
                    fdv,
                    i as int,
                    summary.files_indexed as int,
                ),
                summary.nodes_created == summary.files_indexed,
                fold_skipped(wl, bl, fdv, 0, 0) == fold_skipped(
                    wl,
                    bl,
                    fdv,
                    i as int,
                    summary.files_skipped as int,
                ),
                fold_edges(wl, bl, fdv, 0, 0) == fold_edges(
                    wl,
                    bl,
                    fdv,
                    i as int,
                    summary.edges_created as int,
                ),
                summary.files_deleted == 0,
                summary.errors@.len() == 0,
            decreases files.len() - i,
        {
            proof {
                assert(files.deep_view()[i as int] == files@[i as int].deep_view());
                assert(fdv[i as int].0 == files@[i as int].0@);
                assert(fdv[i as int].1 == files@[i as int].1@);
            }
            let r1 = self.index_file_at(files[i].0.as_str(), files[i].1.as_str(), now);
            summary.add(r1);
            i = i + 1;
        }
        proof {
            assert(index_all_post(*old(self), *self, fdv, summary, now as int));
        }
        summary
    }

    /// Dispatch one file event: created and modified files are indexed
    /// from the handed content, a deleted file's node is removed with
    /// its outgoing edges, and a rename removes the old node before
    /// indexing the new path.
    pub fn handle_event(&mut self, event: &FileEvent, content: Option<&String>) -> (r: Result<
        IndexResult,
        RepoError,
    >)
        requires
            old(self).storage.graph_store.wf(),
        ensures
            final(self).storage.graph_store.wf(),
            final(self).config == old(self).config,
            content matches Some(c) ==> exists|now: int|
                #[trigger] handle_event_post(*old(self), *final(self), *event, Some(c@), r, now),
            content is None ==> exists|now: int|
                #[trigger] handle_event_post(
                    *old(self),
                    *final(self),
                    *event,
                    None::<Seq<char>>,
                    r,
                    now,
                ),
    {
        match event {
            FileEvent::Created(p) => {
                match content {
                    Some(c) => {
                        let res = self.index_file(p.as_str(), c.as_str());
                        proof {
                            let n0 = choose|now: int|
                                #[trigger] index_file_post(*old(self), *self, p@, c@, res, now);
                            assert(handle_event_post(
                                *old(self),
                                *self,
                                *event,
                                Some(c@),
                                Ok::<IndexResult, RepoError>(res),
                                n0,
                            ));
                        }
                        Ok(res)
                    },
                    None => {
                        proof {
                            assert(handle_event_post(
                                *old(self),
                                *self,
                                *event,
                                None::<Seq<char>>,
                                Err::<IndexResult, RepoError>(RepoError::IoFailure(*p)),
                                0,
                            ));
                        }
                        Err(RepoError::IoFailure(p.clone()))
                    },
                }
            },
            FileEvent::Modified(p) => {
                match content {
                    Some(c) => {
                        let res = self.index_file(p.as_str(), c.as_str());
                        proof {
                            let n0 = choose|now: int|
                                #[trigger] index_file_post(*old(self), *self, p@, c@, res, now);
                            assert(handle_event_post(
                                *old(self),
                                *self,
                                *event,
                                Some(c@),
                                Ok::<IndexResult, RepoError>(res),
                                n0,
                            ));
                        }
                        Ok(res)
                    },
                    None => {
                        proof {
                            assert(handle_event_post(
                                *old(self),
                                *self,
                                *event,
                                None::<Seq<char>>,
                                Err::<IndexResult, RepoError>(RepoError::IoFailure(*p)),
                                0,
                            ));
                        }
                        Err(RepoError::IoFailure(p.clone()))
                    },
                }
            },
            FileEvent::Deleted(p) => {
                let node_id = node_id_for_path(p.as_str());
                self.delete_by_id(node_id.as_str());
                proof {
                    let ghost cv: Option<Seq<char>> = match content {
                        Some(c) => Some(c@),
                        None => None,
                    };
                    assert(handle_event_post(
                        *old(self),
                        *self,
                        *event,
                        cv,
                        Ok::<IndexResult, RepoError>(IndexResult::Deleted(node_id)),
                        0,
                    ));
                }
                Ok(IndexResult::Deleted(node_id))
            },
            FileEvent::Renamed(from, to) => {
                let from_id = node_id_for_path(from.as_str());
                self.delete_by_id(from_id.as_str());
                match content {
                    Some(c) => {
                        let ghost mid = *self;
                        let res = self.index_file(to.as_str(), c.as_str());
                        proof {
                            let n0 = choose|now: int|
                                #[trigger] index_file_post(mid, *self, to@, c@, res, now);
                            assert(renamed_post(*old(self), *self, from@, to@, c@, res, n0));
                            assert(handle_event_post(
                                *old(self),
                                *self,
                                *event,
                                Some(c@),
                                Ok::<IndexResult, RepoError>(res),
                                n0,
                            ));
                        }
                        Ok(res)
                    },
                    None => {
                        proof {
                            assert(handle_event_post(
                                *old(self),
                                *self,
                                *event,
                                None::<Seq<char>>,
                                Err::<IndexResult, RepoError>(RepoError::IoFailure(*to)),
                                0,
                            ));
                        }
                        Err(RepoError::IoFailure(to.clone()))
                    },
                }
            },
        }
    }

    /// Remove the node with the given IRI, with its outgoing edges;
    /// an absent IRI leaves everything as it was, which the filters
    /// also say.
    fn delete_by_id(&mut self, id: &str)
        requires
            old(self).storage.graph_store.wf(),
        ensures
            final(self).storage.graph_store.wf(),
            final(self).config == old(self).config,
            final(self).storage.graph_store.nodes_view() == crate::store::nodes_without(
                old(self).storage.graph_store.nodes_view(),
                id@,
            ),
            final(self).storage.graph_store.edges_view() == crate::store::edges_without_from(
                old(self).storage.graph_store.edges_view(),
                id@,
            ),
            final(self).storage.root == old(self).storage.root,
            final(self).storage.objects == old(self).storage.objects,
    {
        if self.storage.graph_store.node_exists(id) {
            self.storage.graph_store.delete_node(id);
        } else {
            proof {
                crate::store::lemma_nodes_without_absent(
                    self.storage.graph_store.nodes_view(),
                    id@,
                );
                assert forall|i: int|
                    0 <= i < self.storage.graph_store.edges_view().len() implies (
                #[trigger] self.storage.graph_store.edges_view()[i]).from != id@ by {
                    if self.storage.graph_store.edges_view()[i].from == id@ {
                        assert(crate::store::has_node_id(
                            self.storage.graph_store.nodes_view(),
                            id@,
                        ));
                    }
                }
                crate::store::lemma_edges_without_from_none(
                    self.storage.graph_store.edges_view(),
                    id@,
                );
            }
        }
    }
}

/// What dispatching one file event leaves behind, per event kind:
/// created and modified notes are indexed from the handed content (or
/// refused without content), a deleted note's node goes with its
/// outgoing edges, and a rename removes the old node before indexing
/// the new path.
pub open spec fn handle_event_post(
    pre: Indexer,
    post: Indexer,
    event: FileEvent,
    content: Option<Seq<char>>,
    r: Result<IndexResult, RepoError>,
    now: int,
) -> bool {
    match event {
        FileEvent::Created(p) => match content {
            Some(c) => r matches Ok(res) && index_file_post(pre, post, p@, c, res, now),
            None => (r matches Err(e) && e is IoFailure) && post.storage == pre.storage,
        },
        FileEvent::Modified(p) => match content {
            Some(c) => r matches Ok(res) && index_file_post(pre, post, p@, c, res, now),
            None => (r matches Err(e) && e is IoFailure) && post.storage == pre.storage,
        },
        FileEvent::Deleted(p) => {
            let id = spec_node_id_for_path(p@);
            &&& r matches Ok(x)
            &&& (x matches IndexResult::Deleted(did) && did@ == id)
            &&& post.storage.graph_store.nodes_view() == crate::store::nodes_without(
                pre.storage.graph_store.nodes_view(),
                id,
            )
            &&& post.storage.graph_store.edges_view() == crate::store::edges_without_from(
                pre.storage.graph_store.edges_view(),
                id,
            )
            &&& post.storage.root == pre.storage.root
            &&& post.storage.objects == pre.storage.objects
        },
        FileEvent::Renamed(from, to) => {
            let fid = spec_node_id_for_path(from@);
            match content {
                Some(c) => r matches Ok(res) && renamed_post(pre, post, from@, to@, c, res, now),
                None => (r matches Err(e) && e is IoFailure)
                    && post.storage.graph_store.nodes_view() == crate::store::nodes_without(
                    pre.storage.graph_store.nodes_view(),
                    fid,
                ) && post.storage.graph_store.edges_view() == crate::store::edges_without_from(
                    pre.storage.graph_store.edges_view(),
                    fid,
                ) && post.storage.root == pre.storage.root && post.storage.objects
                    == pre.storage.objects,
            }
        },
    }
}

/// What a full reindex leaves behind: every file-backed node and its
/// outgoing edges removed first, then the files indexed over the
/// cleaned store.
pub open spec fn reindexed_post(
    pre: Indexer,
    post: Indexer,
    files: Seq<(Seq<char>, Seq<char>)>,
    r: IndexSummary,
    now: int,
) -> bool {
    let wl = pre.config.whitelist.deep_view();
    let bl = pre.config.blacklist.deep_view();
    let n1 = crate::store::nodes_without_prefix(
        pre.storage.graph_store.nodes_view(),
        "urn:memexia:file:"@,
    );
    let e1 = crate::store::edges_without_prefix(
        pre.storage.graph_store.edges_view(),
        "urn:memexia:file:"@,
    );
    let (n2, e2) = index_all_state(wl, bl, n1, e1, files, 0, now);
    &&& post.storage.graph_store.nodes_view() == n2
    &&& post.storage.graph_store.edges_view() == e2
    &&& post.storage.root == pre.storage.root
    &&& post.storage.objects == pre.storage.objects
    &&& r.files_indexed as int == fold_indexed(wl, bl, files, 0, 0)
    &&& r.nodes_created as int == fold_indexed(wl, bl, files, 0, 0)
    &&& r.files_skipped as int == fold_skipped(wl, bl, files, 0, 0)
    &&& r.edges_created as int == fold_edges(wl, bl, files, 0, 0)
    &&& r.files_deleted == 0
    &&& r.errors@.len() == 0
}

/// What a rename leaves behind: the old path's node and outgoing edges
/// removed, then the new path indexed at the given instant.
pub open spec fn renamed_post(
    pre: Indexer,
    post: Indexer,
    from: Seq<char>,
    to: Seq<char>,
    content: Seq<char>,
    r: IndexResult,
    now: int,
) -> bool {
    let wl = pre.config.whitelist.deep_view();
    let bl = pre.config.blacklist.deep_view();
    let fid = spec_node_id_for_path(from);
    let n1 = crate::store::nodes_without(pre.storage.graph_store.nodes_view(), fid);
    let e1 = crate::store::edges_without_from(pre.storage.graph_store.edges_view(), fid);
    let (n2, e2) = index_file_state(wl, bl, n1, e1, to, content, now);
    &&& index_file_result(wl, bl, to, content, r)
    &&& post.storage.graph_store.nodes_view() == n2
    &&& post.storage.graph_store.edges_view() == e2
    &&& post.storage.root == pre.storage.root
    &&& post.storage.objects == pre.storage.objects
}

/// What one indexing step does: skipped (store unchanged) when the/// What one indexing step does: skipped (store unchanged) when the
/// filter or the extension refuses the path, else one parsed note
/// written at the given instant.
pub open spec fn index_file_post(
    pre: Indexer,
    post: Indexer,
    path: Seq<char>,
    content: Seq<char>,
    r: IndexResult,
    now: int,
) -> bool {
    let wl = pre.config.whitelist.deep_view();
    let bl = pre.config.blacklist.deep_view();
    if !spec_allowed(wl, bl, path) || !spec_is_md(path) {
        r == IndexResult::Skipped && post.storage == pre.storage
    } else {
        let (n2, e2) = index_file_state(
            wl,
            bl,
            pre.storage.graph_store.nodes_view(),
            pre.storage.graph_store.edges_view(),
            path,
            content,
            now,
        );
        index_file_result(wl, bl, path, content, r) && post.storage.graph_store.nodes_view()
            == n2 && post.storage.graph_store.edges_view() == e2 && post.storage.root
            == pre.storage.root && post.storage.objects == pre.storage.objects
    }
}

/// The graph after one file is offered to the indexer: unchanged when
/// the filter or the extension refuses the path, else the parsed note
/// written at the given instant.
pub open spec fn index_file_state(
    wl: Seq<Seq<char>>,
    bl: Seq<Seq<char>>,
    nodes: Seq<NodeView>,
    edges: Seq<EdgeView>,
    path: Seq<char>,
    content: Seq<char>,
    now: int,
) -> (Seq<NodeView>, Seq<EdgeView>) {
    if !spec_allowed(wl, bl, path) || !spec_is_md(path) {
        (nodes, edges)
    } else {
        spec_index_document(nodes, edges, spec_parse_markdown(content, path), now)
    }
}

/// The result one file yields: skipped when refused, else the indexed
/// record with one node and the note's link count.
pub open spec fn index_file_result(
    wl: Seq<Seq<char>>,
    bl: Seq<Seq<char>>,
    path: Seq<char>,
    content: Seq<char>,
    r: IndexResult,
) -> bool {
    if !spec_allowed(wl, bl, path) || !spec_is_md(path) {
        r == IndexResult::Skipped
    } else {
        let doc = spec_parse_markdown(content, path);
        r matches IndexResult::Indexed { path: rp, node_count, edge_count } && rp@ == path
            && node_count == 1 && edge_count == doc.wiki_links.len()
    }
}

/// The graph after a list of files is indexed in order, all at one
/// instant, from file `i` on.
pub open spec fn index_all_state(
    wl: Seq<Seq<char>>,
    bl: Seq<Seq<char>>,
    nodes: Seq<NodeView>,
    edges: Seq<EdgeView>,
    files: Seq<(Seq<char>, Seq<char>)>,
    i: int,
    now: int,
) -> (Seq<NodeView>, Seq<EdgeView>)
    decreases files.len() - i,
{
    if i < 0 || i >= files.len() {
        (nodes, edges)
    } else {
        let (n1, e1) = index_file_state(wl, bl, nodes, edges, files[i].0, files[i].1, now);
        index_all_state(wl, bl, n1, e1, files, i + 1, now)
    }
}

/// Whether a file passes the filter and carries the `md` extension.
pub open spec fn file_accepted(wl: Seq<Seq<char>>, bl: Seq<Seq<char>>, path: Seq<char>) -> bool {
    spec_allowed(wl, bl, path) && spec_is_md(path)
}

/// The indexed-file count of a bulk run, saturating, from file `i` on.
pub open spec fn fold_indexed(
    wl: Seq<Seq<char>>,
    bl: Seq<Seq<char>>,
    files: Seq<(Seq<char>, Seq<char>)>,
    i: int,
    acc: int,
) -> int
    decreases files.len() - i,
{
    if i < 0 || i >= files.len() {
        acc
    } else if file_accepted(wl, bl, files[i].0) {
        fold_indexed(wl, bl, files, i + 1, sat_add(acc, 1))
    } else {
        fold_indexed(wl, bl, files, i + 1, acc)
    }
}

/// The skipped-file count of a bulk run, saturating, from file `i` on.
pub open spec fn fold_skipped(
    wl: Seq<Seq<char>>,
    bl: Seq<Seq<char>>,
    files: Seq<(Seq<char>, Seq<char>)>,
    i: int,
    acc: int,
) -> int
    decreases files.len() - i,
{
    if i < 0 || i >= files.len() {
        acc
    } else if file_accepted(wl, bl, files[i].0) {
        fold_skipped(wl, bl, files, i + 1, acc)
    } else {
        fold_skipped(wl, bl, files, i + 1, sat_add(acc, 1))
    }
}

/// The edge count of a bulk run, saturating, from file `i` on.
pub open spec fn fold_edges(
    wl: Seq<Seq<char>>,
    bl: Seq<Seq<char>>,
    files: Seq<(Seq<char>, Seq<char>)>,
    i: int,
    acc: int,
) -> int
    decreases files.len() - i,
{
    if i < 0 || i >= files.len() {
        acc
    } else if file_accepted(wl, bl, files[i].0) {
        fold_edges(
            wl,
            bl,
            files,
            i + 1,
            sat_add(acc, spec_parse_markdown(files[i].1, files[i].0).wiki_links.len() as int),
        )
    } else {
        fold_edges(wl, bl, files, i + 1, acc)
    }
}

/// What a bulk run leaves behind: the folded graph and the folded
/// counts, with no per-file errors and nothing deleted.
pub open spec fn index_all_post(
    pre: Indexer,
    post: Indexer,
    files: Seq<(Seq<char>, Seq<char>)>,
    r: IndexSummary,
    now: int,
) -> bool {
    let wl = pre.config.whitelist.deep_view();
    let bl = pre.config.blacklist.deep_view();
    let (n2, e2) = index_all_state(
        wl,
        bl,
        pre.storage.graph_store.nodes_view(),
        pre.storage.graph_store.edges_view(),
        files,
        0,
        now,
    );
    &&& post.storage.graph_store.nodes_view() == n2
    &&& post.storage.graph_store.edges_view() == e2
    &&& post.storage.root == pre.storage.root
    &&& post.storage.objects == pre.storage.objects
    &&& r.files_indexed as int == fold_indexed(wl, bl, files, 0, 0)
    &&& r.nodes_created as int == fold_indexed(wl, bl, files, 0, 0)
    &&& r.files_skipped as int == fold_skipped(wl, bl, files, 0, 0)
    &&& r.edges_created as int == fold_edges(wl, bl, files, 0, 0)
    &&& r.files_deleted == 0
    &&& r.errors@.len() == 0
}

/// Whether the path ends in the `md` extension.
#[verifier::loop_isolation(false)]
pub fn has_md_ext(path: &str) -> (r: bool)
    ensures
        r == spec_is_md(path@),
{
    let name = crate::watch_config::file_name_of(path);
    let ghost nm = name@;
    let mut j: usize = name.len();
    while j > 1 && name[j - 1] != '.'
        invariant
            j <= name.len(),
            forall|k: int| j <= k < nm.len() ==> nm[k] != '.',
        decreases j,
    {
        j = j - 1;
    }
    if j <= 1 {
        // no dot past the first character
        proof {
            assert(!Node::spec_has_late_dot(nm)) by {
                if Node::spec_has_late_dot(nm) {
                    let w = choose|w: int| 1 <= w < nm.len() && #[trigger] nm[w] == '.';
                }
            }
        }
        return false;
    }
    let dot = j - 1;
    proof {
        assert(Node::spec_has_late_dot(nm)) by {
            assert(nm[dot as int] == '.');
        }
        crate::node::lemma_strip_extension_pub(nm, dot as int);
    }
    let mut ext: Vec<char> = Vec::new();
    let mut k: usize = dot + 1;
    while k < name.len()
        invariant
            dot + 1 <= k <= nm.len(),
            ext@ == nm.subrange(dot + 1 as int, k as int),
        decreases name.len() - k,
    {
        ext.push(name[k]);
        proof {
            assert(nm.subrange(dot + 1 as int, k + 1 as int) =~= nm.subrange(
                dot + 1 as int,
                k as int,
            ).push(nm[k as int]));
        }
        k = k + 1;
    }
    proof {
        assert(ext@ =~= nm.skip(dot + 1 as int));
    }
    crate::text::eq_str(&ext, "md")
}


/// A node record that sits in a list at its first-occurrence index.
pub open spec fn node_ok(nodes: Seq<NodeView>, v: NodeView) -> bool {
    crate::store::node_find(nodes, v.id, 0) < nodes.len() && nodes[crate::store::node_find(
        nodes,
        v.id,
        0,
    )] == v
}

/// An edge record that sits in a list at its first-occurrence index.
pub open spec fn edge_ok(edges: Seq<EdgeView>, e: EdgeView) -> bool {
    crate::store::edge_find(edges, e.id, 0) < edges.len() && edges[crate::store::edge_find(
        edges,
        e.id,
        0,
    )] == e
}

/// The edge a link denotes during indexing.
pub open spec fn link_edge(l: WikiLinkView, from: Seq<char>, now: int) -> EdgeView {
    clamped_edge(crate::wiki_link::WikiLink::spec_to_edge(l, from, now))
}

/// An add under a different IRI moves no present record.
proof fn lemma_edge_add_keeps_ok(edges: Seq<EdgeView>, e: EdgeView, v: EdgeView)
    requires
        edge_ok(edges, v),
        e.id != v.id,
    ensures
        edge_ok(edges_after_add(edges, e), v),
{
    crate::store::lemma_edge_find_props(edges, e.id);
    crate::store::lemma_edge_find_props(edges, v.id);
    crate::store::lemma_edge_find_prefix(edges, v.id, 0);
    let k = crate::store::edge_find(edges, v.id, 0);
    let k2 = crate::store::edge_find(edges, e.id, 0);
    let e1 = edges_after_add(edges, e);
    assert forall|j: int| 0 <= j < k implies (#[trigger] e1[j]).id != v.id by {
        if j == k2 {
            assert(edges[k2].id == e.id);
            assert(e1[j].id == e.id);
        } else {
            assert(e1[j] == edges[j]);
        }
    }
    assert(k != k2);
    assert(e1[k] == edges[k]);
    assert(e1[k].id == v.id);
    crate::store::lemma_edge_find_at(e1, v.id, k);
    assert(crate::store::edge_find(e1, v.id, 0) == k);
}

/// An add keeps every record that was already at its first-occurrence
/// index, and puts the added node at its own.
proof fn lemma_node_add_keeps_ok(nodes: Seq<NodeView>, n: NodeView, v: NodeView)
    requires
        node_ok(nodes, v),
        n.id != v.id,
    ensures
        node_ok(nodes_after_add(nodes, n), v),
{
    crate::store::lemma_node_find_props(nodes, n.id);
    crate::store::lemma_node_find_props(nodes, v.id);
    crate::store::lemma_node_find_prefix(nodes, v.id, 0);
    let k = crate::store::node_find(nodes, v.id, 0);
    let k2 = crate::store::node_find(nodes, n.id, 0);
    let n1 = nodes_after_add(nodes, n);
    assert forall|j: int| 0 <= j < k implies (#[trigger] n1[j]).id != v.id by {
        if k2 < nodes.len() && j == k2 {
            assert(nodes[k2].id == n.id);
            assert(n1[j].id == n.id);
        } else {
            assert(n1[j] == nodes[j]);
        }
    }
    assert(k2 < nodes.len() ==> k != k2);
    assert(n1[k] == nodes[k]);
    assert(n1[k].id == v.id);
    crate::store::lemma_node_find_at(n1, v.id, k);
    assert(crate::store::node_find(n1, v.id, 0) == k);
}

/// Writing links only grows the node list, so every present IRI stays.
proof fn lemma_fold_keeps_has(
    nodes: Seq<NodeView>,
    edges: Seq<EdgeView>,
    from: Seq<char>,
    links: Seq<WikiLinkView>,
    i: int,
    now: int,
    id: Seq<char>,
)
    requires
        has_node_id(nodes, id),
    ensures
        has_node_id(links_fold(nodes, edges, from, links, i, now).0, id),
    decreases links.len() - i,
{
    if 0 <= i && i < links.len() {
        let tid = spec_target_id(links[i].target);
        if has_node_id(nodes, tid) {
            lemma_fold_keeps_has(
                nodes,
                edges_after_add(edges, link_edge(links[i], from, now)),
                from,
                links,
                i + 1,
                now,
                id,
            );
        } else {
            lemma_add_keeps_id(nodes, placeholder_view(tid, links[i].target, now), id);
            lemma_fold_keeps_has(
                nodes_after_add(nodes, placeholder_view(tid, links[i].target, now)),
                edges_after_add(edges, link_edge(links[i], from, now)),
                from,
                links,
                i + 1,
                now,
                id,
            );
        }
    }
}

/// Writing links only grows the node list, so a record sitting at its
/// first-occurrence index stays there.
proof fn lemma_fold_keeps_node_ok(
    nodes: Seq<NodeView>,
    edges: Seq<EdgeView>,
    from: Seq<char>,
    links: Seq<WikiLinkView>,
    i: int,
    now: int,
    v: NodeView,
)
    requires
        node_ok(nodes, v),
    ensures
        node_ok(links_fold(nodes, edges, from, links, i, now).0, v),
    decreases links.len() - i,
{
    if 0 <= i && i < links.len() {
        let tid = spec_target_id(links[i].target);
        if has_node_id(nodes, tid) {
            lemma_fold_keeps_node_ok(
                nodes,
                edges_after_add(edges, link_edge(links[i], from, now)),
                from,
                links,
                i + 1,
                now,
                v,
            );
        } else {
            let ph = placeholder_view(tid, links[i].target, now);
            assert(node_ok(nodes, v));
            assert(v.id != tid) by {
                crate::store::lemma_node_find_props(nodes, v.id);
                if v.id == tid {
                    assert(has_node_id(nodes, tid));
                }
            }
            lemma_node_add_keeps_ok(nodes, ph, v);
            lemma_fold_keeps_node_ok(
                nodes_after_add(nodes, ph),
                edges_after_add(edges, link_edge(links[i], from, now)),
                from,
                links,
                i + 1,
                now,
                v,
            );
        }
    }
}

/// After the links are written, every target node exists.
proof fn lemma_fold_targets(
    nodes: Seq<NodeView>,
    edges: Seq<EdgeView>,
    from: Seq<char>,
    links: Seq<WikiLinkView>,
    i: int,
    now: int,
)
    requires
        0 <= i,
    ensures
        forall|j: int|
            i <= j < links.len() && 0 <= j ==> has_node_id(
                links_fold(nodes, edges, from, links, i, now).0,
                spec_target_id((#[trigger] links[j]).target),
            ),
    decreases links.len() - i,
{
    if 0 <= i && i < links.len() {
        let tid = spec_target_id(links[i].target);
        let nodes1 = if has_node_id(nodes, tid) {
            nodes
        } else {
            nodes_after_add(nodes, placeholder_view(tid, links[i].target, now))
        };
        let edges1 = edges_after_add(edges, link_edge(links[i], from, now));
        if !has_node_id(nodes, tid) {
            lemma_add_keeps_id(nodes, placeholder_view(tid, links[i].target, now), tid);
        }
        lemma_fold_keeps_has(nodes1, edges1, from, links, i + 1, now, tid);
        lemma_fold_targets(nodes1, edges1, from, links, i + 1, now);
        assert(links_fold(nodes, edges, from, links, i, now) == links_fold(
            nodes1,
            edges1,
            from,
            links,
            i + 1,
            now,
        ));
        assert forall|j: int| i <= j < links.len() && 0 <= j implies has_node_id(
            links_fold(nodes, edges, from, links, i, now).0,
            spec_target_id((#[trigger] links[j]).target),
        ) by {
            if j == i {
                assert(has_node_id(links_fold(nodes1, edges1, from, links, i + 1, now).0, tid));
            } else {
                assert(has_node_id(
                    links_fold(nodes1, edges1, from, links, i + 1, now).0,
                    spec_target_id(links[j].target),
                ));
            }
        }
    }
}

/// After the links are written, each link's edge sits in the store with
/// exactly its value, provided no two links share an edge IRI.
proof fn lemma_fold_edges_ok(
    nodes: Seq<NodeView>,
    edges: Seq<EdgeView>,
    from: Seq<char>,
    links: Seq<WikiLinkView>,
    i: int,
    now: int,
)
    requires
        0 <= i,
        forall|a: int, b: int|
            i <= a < b < links.len() ==> link_edge(#[trigger] links[a], from, now).id != link_edge(
                #[trigger] links[b],
                from,
                now,
            ).id,
    ensures
        forall|j: int|
            i <= j < links.len() && 0 <= j ==> edge_ok(
                links_fold(nodes, edges, from, links, i, now).1,
                link_edge(#[trigger] links[j], from, now),
            ),
    decreases links.len() - i,
{
    if 0 <= i && i < links.len() {
        let tid = spec_target_id(links[i].target);
        let e = link_edge(links[i], from, now);
        let nodes1 = if has_node_id(nodes, tid) {
            nodes
        } else {
            nodes_after_add(nodes, placeholder_view(tid, links[i].target, now))
        };
        let edges1 = edges_after_add(edges, e);
        assert(edge_ok(edges1, e)) by {
            crate::store::lemma_edge_find_props(edges, e.id);
            crate::store::lemma_edge_find_prefix(edges, e.id, 0);
            let k = crate::store::edge_find(edges, e.id, 0);
            if k < edges.len() {
                crate::store::lemma_edge_find_at(edges1, e.id, k);
            } else {
                assert forall|j: int| 0 <= j < edges.len() implies (#[trigger] edges1[j]).id
                    != e.id by {
                    if edges1[j].id == e.id {
                        assert(has_edge_id(edges, e.id));
                        assert(k < edges.len());
                    }
                }
                crate::store::lemma_edge_find_at(edges1, e.id, edges.len() as int);
            }
        }
        lemma_fold_edge_preserved(nodes1, edges1, from, links, i + 1, now, e);
        lemma_fold_edges_ok(nodes1, edges1, from, links, i + 1, now);
        assert(links_fold(nodes, edges, from, links, i, now) == links_fold(
            nodes1,
            edges1,
            from,
            links,
            i + 1,
            now,
        ));
        assert forall|j: int| i <= j < links.len() && 0 <= j implies edge_ok(
            links_fold(nodes, edges, from, links, i, now).1,
            link_edge(#[trigger] links[j], from, now),
        ) by {
            if j == i {
                assert(edge_ok(links_fold(nodes1, edges1, from, links, i + 1, now).1, e));
            } else {
                assert(edge_ok(
                    links_fold(nodes1, edges1, from, links, i + 1, now).1,
                    link_edge(links[j], from, now),
                ));
            }
        }
    }
}

/// Writing later links keeps an earlier link's edge in place, provided
/// the later links carry different edge IRIs.
proof fn lemma_fold_edge_preserved(
    nodes: Seq<NodeView>,
    edges: Seq<EdgeView>,
    from: Seq<char>,
    links: Seq<WikiLinkView>,
    i: int,
    now: int,
    v: EdgeView,
)
    requires
        edge_ok(edges, v),
        forall|j: int| i <= j < links.len() ==> link_edge(#[trigger] links[j], from, now).id
            != v.id,
    ensures
        edge_ok(links_fold(nodes, edges, from, links, i, now).1, v),
    decreases links.len() - i,
{
    if 0 <= i && i < links.len() {
        let tid = spec_target_id(links[i].target);
        let e = link_edge(links[i], from, now);
        let nodes1 = if has_node_id(nodes, tid) {
            nodes
        } else {
            nodes_after_add(nodes, placeholder_view(tid, links[i].target, now))
        };
        lemma_edge_add_keeps_ok(edges, e, v);
        lemma_fold_edge_preserved(nodes1, edges_after_add(edges, e), from, links, i + 1, now, v);
    }
}

/// Replaying the links over their own result changes nothing: every
/// target exists and every edge already sits there with its exact value.
proof fn lemma_fold_identity(
    nodes: Seq<NodeView>,
    edges: Seq<EdgeView>,
    from: Seq<char>,
    links: Seq<WikiLinkView>,
    i: int,
    now: int,
)
    requires
        forall|j: int|
            i <= j < links.len() ==> has_node_id(
                nodes,
                spec_target_id((#[trigger] links[j]).target),
            ),
        forall|j: int|
            i <= j < links.len() ==> edge_ok(edges, link_edge(#[trigger] links[j], from, now)),
    ensures
        links_fold(nodes, edges, from, links, i, now) == (nodes, edges),
    decreases links.len() - i,
{
    if 0 <= i && i < links.len() {
        let e = link_edge(links[i], from, now);
        assert(edges_after_add(edges, e) == edges) by {
            crate::store::lemma_edge_find_props(edges, e.id);
            let k = crate::store::edge_find(edges, e.id, 0);
            assert(edge_ok(edges, e));
            assert(edges.update(k, e) =~= edges);
        }
        lemma_fold_identity(nodes, edges, from, links, i + 1, now);
        assert(links_fold(nodes, edges, from, links, i, now) == links_fold(
            nodes,
            edges,
            from,
            links,
            i + 1,
            now,
        ));
    }
}

/// Offering one note to the indexer twice, both stamped at one
/// instant, is idempotent: the second pass leaves the store exactly
/// where the first left it, and yields the same counts, provided the
/// note's links map to pairwise-distinct edge IRIs. (Two plain
/// `index_file` calls read the clock separately, so this holds of the
/// shared-instant form.)
pub proof fn lemma_index_file_idempotent(
    pre: Indexer,
    mid: Indexer,
    post: Indexer,
    path: Seq<char>,
    content: Seq<char>,
    r1: IndexResult,
    r2: IndexResult,
    now: int,
)
    requires
        index_file_post(pre, mid, path, content, r1, now),
        index_file_post(mid, post, path, content, r2, now),
        mid.config == pre.config,
        ({
            let doc = spec_parse_markdown(content, path);
            forall|a: int, b: int|
                0 <= a < b < doc.wiki_links.len() ==> link_edge(
                    #[trigger] doc.wiki_links[a],
                    spec_to_node(doc, now).id,
                    now,
                ).id != link_edge(#[trigger] doc.wiki_links[b], spec_to_node(doc, now).id, now).id
        }),
    ensures
        post.storage.graph_store.nodes_view() == mid.storage.graph_store.nodes_view(),
        post.storage.graph_store.edges_view() == mid.storage.graph_store.edges_view(),
        post.storage.root == mid.storage.root,
        post.storage.objects == mid.storage.objects,
        index_file_result(pre.config.whitelist.deep_view(), pre.config.blacklist.deep_view(), path, content, r2),
{
    let wl = pre.config.whitelist.deep_view();
    let bl = pre.config.blacklist.deep_view();
    if spec_allowed(wl, bl, path) && spec_is_md(path) {
        lemma_index_document_idempotent(
            pre.storage.graph_store.nodes_view(),
            pre.storage.graph_store.edges_view(),
            spec_parse_markdown(content, path),
            now,
        );
    }
}

/// Indexing the same note twice leaves the graph exactly as one
/// indexing left it, for a note whose links name pairwise-distinct
/// edge IRIs: the note's node and every placeholder are already
/// present, and every edge is rewritten with its own value.
pub proof fn lemma_index_document_idempotent(
    nodes: Seq<NodeView>,
    edges: Seq<EdgeView>,
    doc: ParsedDocView,
    now: int,
)
    requires
        forall|a: int, b: int|
            0 <= a < b < doc.wiki_links.len() ==> link_edge(
                #[trigger] doc.wiki_links[a],
                spec_to_node(doc, now).id,
                now,
            ).id != link_edge(#[trigger] doc.wiki_links[b], spec_to_node(doc, now).id, now).id,
    ensures
        ({
            let (n1, e1) = spec_index_document(nodes, edges, doc, now);
            spec_index_document(n1, e1, doc, now) == (n1, e1)
        }),
{
    let n = spec_to_node(doc, now);
    let from = n.id;
    let links = doc.wiki_links;
    let n0 = nodes_after_add(nodes, n);
    let (n1, e1) = links_fold(n0, edges, from, links, 0, now);
    // the note's record survives the first run at its index
    assert(node_ok(n0, n)) by {
        crate::store::lemma_node_find_props(nodes, n.id);
        crate::store::lemma_node_find_prefix(nodes, n.id, 0);
        let k = crate::store::node_find(nodes, n.id, 0);
        if k < nodes.len() {
            crate::store::lemma_node_find_at(n0, n.id, k);
        } else {
            assert forall|j: int| 0 <= j < nodes.len() implies (#[trigger] n0[j]).id != n.id by {
                if n0[j].id == n.id {
                    assert(has_node_id(nodes, n.id));
                }
            }
            crate::store::lemma_node_find_at(n0, n.id, nodes.len() as int);
        }
    }
    lemma_fold_keeps_node_ok(n0, edges, from, links, 0, now, n);
    assert(node_ok(n1, n));
    // the second run's node add changes nothing
    assert(nodes_after_add(n1, n) == n1) by {
        crate::store::lemma_node_find_props(n1, n.id);
        let k = crate::store::node_find(n1, n.id, 0);
        assert(n1.update(k, n) =~= n1);
    }
    // every target exists and every edge sits at its value
    lemma_fold_targets(n0, edges, from, links, 0, now);
    lemma_fold_edges_ok(n0, edges, from, links, 0, now);
    lemma_fold_identity(n1, e1, from, links, 0, now);
}


} // verus!
