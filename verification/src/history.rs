//! The graph-history store: whole-graph snapshots, commit links,
//! per-node snapshots, and derivation records.
//!
//! Snapshots are content-addressed and immutable; commit links, node
//! histories and derivation records are append-only.

use vstd::prelude::*;

use crate::errors::RepoError;
use crate::store::TripleStore;
use crate::text::{chars_of, eq_str, string_from};

verus! {

/// What `text_sha256_hex` returns: the digest depends on the characters
/// alone.
pub uninterp spec fn sha256_hex_of_text(s: Seq<char>) -> Seq<char>;

/// Relies on sha2's `Sha256` and hex's `encode`: the lowercase hex
/// SHA-256 of the string's UTF-8 bytes, a function of its characters
/// alone.
#[verifier::external_body]
pub fn text_sha256_hex(s: &str) -> (r: String)
    ensures
        r@ == sha256_hex_of_text(s@),
        r@.len() == 64,
{
    let digest = <sha2::Sha256 as sha2::Digest>::digest(s.as_bytes());
    hex::encode(digest)
}

/// One whole-graph snapshot: the N-Quads blob under its hash.
#[derive(Debug)]
pub struct GraphSnapshot {
    /// The lowercase hex SHA-256 of the blob.
    pub hash: String,
    /// The N-Quads serialisation.
    pub nquads: String,
    /// When the snapshot was taken.
    pub timestamp: i64,
}

/// One `commit -> graph` pairing.
#[derive(Debug)]
pub struct CommitLink {
    /// The file-commit identifier.
    pub commit_hash: String,
    /// The graph-snapshot hash recorded for it.
    pub graph_hash: String,
}

/// One step of a node's history.
#[derive(Debug)]
pub struct NodeHistoryEntry {
    /// The content hash of the snapshot.
    pub hash: String,
    /// When the snapshot was taken.
    pub timestamp: i64,
    /// The commit it belongs to.
    pub commit_hash: String,
}

/// The mathematical model of a history entry.
#[verifier::ext_equal]
pub struct HistEntryView {
    /// The content hash of the snapshot.
    pub hash: Seq<char>,
    /// When the snapshot was taken.
    pub timestamp: int,
    /// The commit it belongs to.
    pub commit_hash: Seq<char>,
}

impl View for NodeHistoryEntry {
    type V = HistEntryView;

    open spec fn view(&self) -> HistEntryView {
        HistEntryView {
            hash: self.hash@,
            timestamp: self.timestamp as int,
            commit_hash: self.commit_hash@,
        }
    }
}

impl DeepView for NodeHistoryEntry {
    type V = HistEntryView;

    open spec fn deep_view(&self) -> HistEntryView {
        self.view()
    }
}

impl Clone for NodeHistoryEntry {
    /// A clone carries the same model.
    fn clone(&self) -> (r: Self)
        ensures
            r@ == self@,
    {
        NodeHistoryEntry {
            hash: self.hash.clone(),
            timestamp: self.timestamp,
            commit_hash: self.commit_hash.clone(),
        }
    }
}

/// A node snapshot handed back to callers.
#[derive(Debug)]
pub struct NodeSnapshot {
    /// The node IRI.
    pub node_id: String,
    /// The content hash.
    pub hash: String,
    /// The stored content.
    pub content: String,
    /// When the snapshot was taken.
    pub timestamp: i64,
    /// The commit it belongs to.
    pub commit_hash: String,
}

/// One recorded derivation: the child was produced from the parent.
#[derive(Debug)]
pub struct DerivationEntry {
    /// The derived node.
    pub child_id: String,
    /// The node it was derived from.
    pub parent_id: String,
    /// When the derivation was recorded.
    pub timestamp: i64,
    /// The commit it belongs to.
    pub commit_hash: String,
}

/// The mathematical model of a derivation record.
#[verifier::ext_equal]
pub struct DerivationView {
    /// The derived node.
    pub child_id: Seq<char>,
    /// The node it was derived from.
    pub parent_id: Seq<char>,
    /// When the derivation was recorded.
    pub timestamp: int,
    /// The commit it belongs to.
    pub commit_hash: Seq<char>,
}

impl View for DerivationEntry {
    type V = DerivationView;

    open spec fn view(&self) -> DerivationView {
        DerivationView {
            child_id: self.child_id@,
            parent_id: self.parent_id@,
            timestamp: self.timestamp as int,
            commit_hash: self.commit_hash@,
        }
    }
}

impl DeepView for DerivationEntry {
    type V = DerivationView;

    open spec fn deep_view(&self) -> DerivationView {
        self.view()
    }
}

impl Clone for DerivationEntry {
    /// A clone carries the same model.
    fn clone(&self) -> (r: Self)
        ensures
            r@ == self@,
    {
        DerivationEntry {
            child_id: self.child_id.clone(),
            parent_id: self.parent_id.clone(),
            timestamp: self.timestamp,
            commit_hash: self.commit_hash.clone(),
        }
    }
}

/// The per-node history: stored blobs and the appended entries.
#[derive(Debug)]
pub struct NodeHist {
    /// The node IRI.
    pub node_id: String,
    /// The stored blobs, hash and content.
    pub snaps: Vec<(String, String)>,
    /// The appended history entries.
    pub entries: Vec<NodeHistoryEntry>,
}

/// One answer of `get_history`.
#[derive(Debug)]
pub struct HistoryEntry {
    /// The file-commit identifier.
    pub commit_hash: String,
    /// The recorded graph hash.
    pub graph_hash: String,
    /// The resolved snapshot, when it is still stored.
    pub snapshot: Option<GraphSnapshot>,
}

/// The line-set difference of two snapshots.
#[derive(Debug)]
pub struct GraphDelta {
    /// Lines of the new snapshot missing from the old one.
    pub added_lines: Vec<String>,
    /// Lines of the old snapshot missing from the new one.
    pub removed_lines: Vec<String>,
}

impl GraphDelta {
    /// Whether the two snapshots hold the same lines.
    pub fn is_empty(&self) -> (r: bool)
        ensures
            r == (self.added_lines@.len() == 0 && self.removed_lines@.len() == 0),
    {
        self.added_lines.len() == 0 && self.removed_lines.len() == 0
    }

    /// How many lines were added and removed.
    pub fn stats(&self) -> (r: (usize, usize))
        ensures
            r.0 == self.added_lines@.len(),
            r.1 == self.removed_lines@.len(),
    {
        (self.added_lines.len(), self.removed_lines.len())
    }
}

/// The content stored under a hash, if any.
pub open spec fn snapshot_content(snaps: Seq<GraphSnapshot>, hash: Seq<char>, i: int) -> Option<
    Seq<char>,
>
    decreases snaps.len() - i,
{
    if i < 0 || i >= snaps.len() {
        None
    } else if snaps[i].hash@ == hash {
        Some(snaps[i].nquads@)
    } else {
        snapshot_content(snaps, hash, i + 1)
    }
}

/// The graph hash of the last pairing recorded for a commit, if any.
pub open spec fn last_link(links: Seq<CommitLink>, commit: Seq<char>) -> Option<Seq<char>>
    decreases links.len(),
{
    if links.len() == 0 {
        None
    } else if links.last().commit_hash@ == commit {
        Some(links.last().graph_hash@)
    } else {
        last_link(links.drop_last(), commit)
    }
}

/// The first derivation record whose child is the given node, if any.
pub open spec fn first_parent(ds: Seq<DerivationView>, child: Seq<char>, i: int) -> Option<
    DerivationView,
>
    decreases ds.len() - i,
{
    if i < 0 || i >= ds.len() {
        None
    } else if ds[i].child_id == child {
        Some(ds[i])
    } else {
        first_parent(ds, child, i + 1)
    }
}

/// The first derivation record whose parent is the given node, if any.
pub open spec fn first_child(ds: Seq<DerivationView>, parent: Seq<char>, i: int) -> Option<
    DerivationView,
>
    decreases ds.len() - i,
{
    if i < 0 || i >= ds.len() {
        None
    } else if ds[i].parent_id == parent {
        Some(ds[i])
    } else {
        first_child(ds, parent, i + 1)
    }
}

/// The index of the first per-node history with the given IRI at or
/// after `i`, or the length.
pub open spec fn hist_find(hists: Seq<NodeHist>, id: Seq<char>, i: int) -> int
    decreases hists.len() - i,
{
    if i < 0 || i >= hists.len() {
        hists.len() as int
    } else if hists[i].node_id@ == id {
        i
    } else {
        hist_find(hists, id, i + 1)
    }
}

/// The content stored in a blob list under a hash, first match.
pub open spec fn snap_lookup(snaps: Seq<(String, String)>, hash: Seq<char>, i: int) -> Option<
    Seq<char>,
>
    decreases snaps.len() - i,
{
    if i < 0 || i >= snaps.len() {
        None
    } else if snaps[i].0@ == hash {
        Some(snaps[i].1@)
    } else {
        snap_lookup(snaps, hash, i + 1)
    }
}

/// The history entries recorded for a node, oldest first.
pub open spec fn spec_node_entries(hists: Seq<NodeHist>, id: Seq<char>) -> Seq<HistEntryView> {
    let k = hist_find(hists, id, 0);
    if k < hists.len() {
        hists[k].entries.deep_view()
    } else {
        Seq::<HistEntryView>::empty()
    }
}

/// The content a node's snapshot stores under a hash, if any.
pub open spec fn spec_node_snapshot(hists: Seq<NodeHist>, id: Seq<char>, hash: Seq<char>) -> Option<
    Seq<char>,
> {
    let k = hist_find(hists, id, 0);
    if k < hists.len() {
        snap_lookup(hists[k].snaps@, hash, 0)
    } else {
        None
    }
}

/// A node's most recent snapshot: the last history entry together with
/// its stored content, when both exist.
pub open spec fn spec_latest(hists: Seq<NodeHist>, id: Seq<char>) -> Option<
    (HistEntryView, Seq<char>),
> {
    let es = spec_node_entries(hists, id);
    if es.len() == 0 {
        None
    } else {
        match spec_node_snapshot(hists, id, es.last().hash) {
            Some(c) => Some((es.last(), c)),
            None => None,
        }
    }
}

/// The content of the last history entry recorded for a commit, if any.
pub open spec fn spec_at_commit(hists: Seq<NodeHist>, id: Seq<char>, commit: Seq<char>) -> Option<
    Seq<char>,
> {
    match last_entry_for(spec_node_entries(hists, id), commit) {
        Some(h) => spec_node_snapshot(hists, id, h),
        None => None,
    }
}

/// The hash of the last entry belonging to a commit, if any.
pub open spec fn last_entry_for(es: Seq<HistEntryView>, commit: Seq<char>) -> Option<Seq<char>>
    decreases es.len(),
{
    if es.len() == 0 {
        None
    } else if es.last().commit_hash == commit {
        Some(es.last().hash)
    } else {
        last_entry_for(es.drop_last(), commit)
    }
}

/// The parent-ward walk: step to the first recorded parent of the
/// current node while fuel remains and the node is new.
pub open spec fn chain_walk(
    ds: Seq<DerivationView>,
    current: Seq<char>,
    visited: Seq<Seq<char>>,
    fuel: nat,
) -> Seq<DerivationView>
    decreases fuel,
{
    if fuel == 0 {
        Seq::<DerivationView>::empty()
    } else if visited.contains(current) {
        Seq::<DerivationView>::empty()
    } else {
        match first_parent(ds, current, 0) {
            Some(d) => seq![d] + chain_walk(ds, d.parent_id, visited.push(current), (fuel
                - 1) as nat),
            None => Seq::<DerivationView>::empty(),
        }
    }
}

/// The child-ward walk: step to the first recorded child of the current
/// node while fuel remains and the node is new.
pub open spec fn rev_chain_walk(
    ds: Seq<DerivationView>,
    current: Seq<char>,
    visited: Seq<Seq<char>>,
    fuel: nat,
) -> Seq<DerivationView>
    decreases fuel,
{
    if fuel == 0 {
        Seq::<DerivationView>::empty()
    } else if visited.contains(current) {
        Seq::<DerivationView>::empty()
    } else {
        match first_child(ds, current, 0) {
            Some(d) => seq![d] + rev_chain_walk(ds, d.child_id, visited.push(current), (fuel
                - 1) as nat),
            None => Seq::<DerivationView>::empty(),
        }
    }
}

/// A forward scan that stopped at `a` computes `hist_find`.
proof fn lemma_hist_find_at(hists: Seq<NodeHist>, id: Seq<char>, a: int)
    requires
        0 <= a <= hists.len(),
        forall|k: int| 0 <= k < a ==> (#[trigger] hists[k]).node_id@ != id,
        a < hists.len() ==> hists[a].node_id@ == id,
    ensures
        hist_find(hists, id, 0) == if a < hists.len() {
            a
        } else {
            hists.len() as int
        },
{
    lemma_hist_find_step(hists, id, 0, a);
}

proof fn lemma_hist_find_step(hists: Seq<NodeHist>, id: Seq<char>, lo: int, a: int)
    requires
        0 <= lo <= a <= hists.len(),
        forall|k: int| lo <= k < a ==> (#[trigger] hists[k]).node_id@ != id,
        a < hists.len() ==> hists[a].node_id@ == id,
    ensures
        hist_find(hists, id, lo) == if a < hists.len() {
            a
        } else {
            hists.len() as int
        },
    decreases a - lo,
{
    if lo < a {
        lemma_hist_find_step(hists, id, lo + 1, a);
    }
}

/// Nothing before the found index carries the IRI.
proof fn lemma_hist_find_prefix(hists: Seq<NodeHist>, id: Seq<char>, lo: int)
    requires
        0 <= lo <= hists.len(),
    ensures
        forall|j: int|
            lo <= j < hist_find(hists, id, lo) && j < hists.len() ==> (#[trigger] hists[j]).node_id@
                != id,
    decreases hists.len() - lo,
{
    if lo < hists.len() && hists[lo].node_id@ != id {
        lemma_hist_find_prefix(hists, id, lo + 1);
    }
}

/// A forward scan that stopped at `a` computes `snap_lookup`.
proof fn lemma_snap_lookup_at(snaps: Seq<(String, String)>, hash: Seq<char>, a: int)
    requires
        0 <= a <= snaps.len(),
        forall|k: int| 0 <= k < a ==> (#[trigger] snaps[k]).0@ != hash,
        a < snaps.len() ==> snaps[a].0@ == hash,
    ensures
        snap_lookup(snaps, hash, 0) == if a < snaps.len() {
            Some(snaps[a].1@)
        } else {
            None::<Seq<char>>
        },
{
    lemma_snap_lookup_step(snaps, hash, 0, a);
}

proof fn lemma_snap_lookup_step(snaps: Seq<(String, String)>, hash: Seq<char>, lo: int, a: int)
    requires
        0 <= lo <= a <= snaps.len(),
        forall|k: int| lo <= k < a ==> (#[trigger] snaps[k]).0@ != hash,
        a < snaps.len() ==> snaps[a].0@ == hash,
    ensures
        snap_lookup(snaps, hash, lo) == if a < snaps.len() {
            Some(snaps[a].1@)
        } else {
            None::<Seq<char>>
        },
    decreases a - lo,
{
    if lo < a {
        lemma_snap_lookup_step(snaps, hash, lo + 1, a);
    }
}

/// The graph-history store of one repository.
#[derive(Debug)]
pub struct GraphHistory {
    /// The whole-graph snapshots, content addressed.
    pub snapshots: Vec<GraphSnapshot>,
    /// The `commit -> graph` pairings, append-only.
    pub commit_links: Vec<CommitLink>,
    /// The per-node histories.
    pub node_hists: Vec<NodeHist>,
    /// The derivation records, append-only.
    pub derivations: Vec<DerivationEntry>,
}

impl GraphHistory {
    /// An empty history.
    pub fn new() -> (r: GraphHistory)
        ensures
            r.snapshots@.len() == 0,
            r.commit_links@.len() == 0,
            r.node_hists@.len() == 0,
            r.derivations@.len() == 0,
    {
        GraphHistory {
            snapshots: Vec::new(),
            commit_links: Vec::new(),
            node_hists: Vec::new(),
            derivations: Vec::new(),
        }
    }

    /// Serialise the live graph, hash it, and store the snapshot under
    /// its hash. The hash is the SHA-256 of the N-Quads bytes; reading
    /// it back yields exactly the serialised text.
    #[verifier::loop_isolation(false)]
    pub fn snapshot(&mut self, store: &TripleStore) -> (r: String)
        requires
            store.wf(),
        ensures
            r@ == sha256_hex_of_text(
                crate::nquads::spec_export_nquads(store.nodes_view(), store.edges_view()),
            ),
            snapshot_content(final(self).snapshots@, r@, 0) == Some(
                crate::nquads::spec_export_nquads(store.nodes_view(), store.edges_view()),
            ),
            final(self).commit_links == old(self).commit_links,
            final(self).node_hists == old(self).node_hists,
            final(self).derivations == old(self).derivations,
    {
        let nq = crate::nquads::export_nquads(store);
        let hash = self.store_snapshot(nq.as_str());
        hash
    }

    /// Store an N-Quads text under its content hash, replacing any
    /// earlier blob with the same hash.
    #[verifier::loop_isolation(false)]
    pub fn store_snapshot(&mut self, nquads: &str) -> (r: String)
        ensures
            r@ == sha256_hex_of_text(nquads@),
            snapshot_content(final(self).snapshots@, r@, 0) == Some(nquads@),
            final(self).commit_links == old(self).commit_links,
            final(self).node_hists == old(self).node_hists,
            final(self).derivations == old(self).derivations,
    {
        let now = crate::clock::now_ts();
        let hash = text_sha256_hex(nquads);
        let hv = chars_of(hash.as_str());
        let nv = chars_of(nquads);
        let mut i: usize = 0;
        while i < self.snapshots.len()
            invariant
                i <= self.snapshots@.len(),
                hv@ == hash@,
                nv@ == nquads@,
                self == old(self),
                forall|k: int| 0 <= k < i ==> (#[trigger] self.snapshots@[k]).hash@ != hash@,
            decreases self.snapshots@.len() - i,
        {
            if eq_str(&hv, self.snapshots[i].hash.as_str()) {
                let snap = GraphSnapshot {
                    hash: hash.clone(),
                    nquads: string_from(&nv),
                    timestamp: now,
                };
                self.snapshots.set(i, snap);
                proof {
                    lemma_snapshot_content_at(self.snapshots@, hash@, i as int);
                }
                return hash;
            }
            i = i + 1;
        }
        let snap = GraphSnapshot { hash: hash.clone(), nquads: string_from(&nv), timestamp: now };
        self.snapshots.push(snap);
        proof {
            lemma_snapshot_content_at(self.snapshots@, hash@, self.snapshots@.len() - 1);
        }
        hash
    }

    /// Read a snapshot back by hash; an unknown hash is an error.
    #[verifier::loop_isolation(false)]
    pub fn get_snapshot(&self, hash: &str) -> (r: Result<GraphSnapshot, RepoError>)
        ensures
            match r {
                Ok(s) => snapshot_content(self.snapshots@, hash@, 0) == Some(s.nquads@) && s.hash@
                    == hash@,
                Err(e) => e is StoreFailure && snapshot_content(self.snapshots@, hash@, 0)
                    is None,
            },
    {
        let hv = chars_of(hash);
        let mut i: usize = 0;
        while i < self.snapshots.len()
            invariant
                i <= self.snapshots@.len(),
                hv@ == hash@,
                forall|k: int| 0 <= k < i ==> (#[trigger] self.snapshots@[k]).hash@ != hash@,
            decreases self.snapshots@.len() - i,
        {
            if eq_str(&hv, self.snapshots[i].hash.as_str()) {
                let s = &self.snapshots[i];
                let hv2 = chars_of(s.hash.as_str());
                let nv2 = chars_of(s.nquads.as_str());
                proof {
                    lemma_snapshot_content_skip(self.snapshots@, hash@, i as int);
                }
                return Ok(
                    GraphSnapshot {
                        hash: string_from(&hv2),
                        nquads: string_from(&nv2),
                        timestamp: s.timestamp,
                    },
                );
            }
            i = i + 1;
        }
        proof {
            lemma_snapshot_content_none(self.snapshots@, hash@, 0);
        }
        Err(RepoError::StoreFailure(string_from(&chars_of("snapshot not found"))))
    }

    /// Append one `commit -> graph` pairing; earlier pairings are never
    /// touched.
    pub fn record(&mut self, commit_hash: &str, graph_hash: &str)
        ensures
            final(self).commit_links@.len() == old(self).commit_links@.len() + 1,
            final(self).commit_links@.last().commit_hash@ == commit_hash@,
            final(self).commit_links@.last().graph_hash@ == graph_hash@,
            forall|k: int|
                0 <= k < old(self).commit_links@.len() ==> final(self).commit_links@[k] == old(self).commit_links@[k],
            final(self).snapshots == old(self).snapshots,
            final(self).node_hists == old(self).node_hists,
            final(self).derivations == old(self).derivations,
    {
        let cv = chars_of(commit_hash);
        let gv = chars_of(graph_hash);
        self.commit_links.push(
            CommitLink { commit_hash: string_from(&cv), graph_hash: string_from(&gv) },
        );
    }

    /// The graph hash recorded for a commit: the last pairing wins.
    #[verifier::loop_isolation(false)]
    pub fn get_commit_graph_hash(&self, commit_hash: &str) -> (r: Option<String>)
        ensures
            match r {
                Some(g) => last_link(self.commit_links@, commit_hash@) == Some(g@),
                None => last_link(self.commit_links@, commit_hash@) is None,
            },
    {
        let cv = chars_of(commit_hash);
        let mut i: usize = self.commit_links.len();
        proof {
            assert(self.commit_links@.take(self.commit_links@.len() as int) =~= self
                .commit_links@);
        }
        while i > 0
            invariant
                i <= self.commit_links@.len(),
                cv@ == commit_hash@,
                last_link(self.commit_links@, commit_hash@) == last_link(
                    self.commit_links@.take(i as int),
                    commit_hash@,
                ),
            decreases i,
        {
            proof {
                assert(self.commit_links@.take(i as int).last() == self.commit_links@[i - 1]);
                assert(self.commit_links@.take(i as int).drop_last() =~= self.commit_links@.take(
                    i - 1 as int,
                ));
            }
            if eq_str(&cv, self.commit_links[i - 1].commit_hash.as_str()) {
                let gv = chars_of(self.commit_links[i - 1].graph_hash.as_str());
                return Some(string_from(&gv));
            }
            i = i - 1;
        }
        None
    }

    /// The most recent pairings, newest first, each with its snapshot
    /// when the snapshot is still stored.
    #[verifier::loop_isolation(false)]
    pub fn get_history(&self, limit: usize) -> (r: Vec<HistoryEntry>)
        ensures
            r@.len() == (if limit <= self.commit_links@.len() {
                limit as int
            } else {
                self.commit_links@.len() as int
            }),
            forall|k: int|
                0 <= k < r@.len() ==> (#[trigger] r@[k]).commit_hash@ == self.commit_links@[
                    self.commit_links@.len() - 1 - k].commit_hash@ && r@[k].graph_hash@ == self
                    .commit_links@[self.commit_links@.len() - 1 - k].graph_hash@,
            forall|k: int|
                0 <= k < r@.len() ==> (match snapshot_content(
                    self.snapshots@,
                    (#[trigger] r@[k]).graph_hash@,
                    0,
                ) {
                    Some(nq) => r@[k].snapshot matches Some(s) && s.nquads@ == nq && s.hash@
                        == r@[k].graph_hash@,
                    None => r@[k].snapshot is None,
                }),
    {
        let mut out: Vec<HistoryEntry> = Vec::new();
        let mut i: usize = self.commit_links.len();
        while i > 0 && out.len() < limit
            invariant
                i <= self.commit_links@.len(),
                out@.len() == self.commit_links@.len() - i,
                out@.len() <= limit,
                forall|k: int|
                    0 <= k < out@.len() ==> (#[trigger] out@[k]).commit_hash@ == self
                        .commit_links@[self.commit_links@.len() - 1 - k].commit_hash@ && out@[
                        k].graph_hash@ == self.commit_links@[self.commit_links@.len() - 1
                        - k].graph_hash@,
                forall|k: int|
                    0 <= k < out@.len() ==> (match snapshot_content(
                        self.snapshots@,
                        (#[trigger] out@[k]).graph_hash@,
                        0,
                    ) {
                        Some(nq) => out@[k].snapshot matches Some(s) && s.nquads@ == nq && s.hash@
                            == out@[k].graph_hash@,
                        None => out@[k].snapshot is None,
                    }),
            decreases i,
        {
            let link = &self.commit_links[i - 1];
            let cv = chars_of(link.commit_hash.as_str());
            let gv = chars_of(link.graph_hash.as_str());
            let snapshot = match self.get_snapshot(link.graph_hash.as_str()) {
                Ok(s) => Some(s),
                Err(_) => None,
            };
            out.push(
                HistoryEntry {
                    commit_hash: string_from(&cv),
                    graph_hash: string_from(&gv),
                    snapshot,
                },
            );
            i = i - 1;
        }
        out
    }

    /// The lines of the new snapshot missing from the old one, and the
    /// other way round — the line-set difference; an unknown hash is an
    /// error. In particular a snapshot differs from itself in nothing.
    pub fn diff(&self, old_hash: &str, new_hash: &str) -> (r: Result<GraphDelta, RepoError>)
        ensures
            r matches Err(e) ==> e is StoreFailure,
            r is Err <==> (snapshot_content(self.snapshots@, old_hash@, 0) is None
                || snapshot_content(self.snapshots@, new_hash@, 0) is None),
            r matches Ok(delta) ==> (snapshot_content(self.snapshots@, old_hash@, 0) matches Some(
                o,
            ) && snapshot_content(self.snapshots@, new_hash@, 0) matches Some(n)
                && delta.added_lines.deep_view() == missing_fold(
                spec_lines(n, 0),
                spec_lines(o, 0),
                0,
                Seq::<Seq<char>>::empty(),
            ) && delta.removed_lines.deep_view() == missing_fold(
                spec_lines(o, 0),
                spec_lines(n, 0),
                0,
                Seq::<Seq<char>>::empty(),
            )),
    {
        let old_snap = match self.get_snapshot(old_hash) {
            Ok(s) => s,
            Err(e) => {
                return Err(e);
            },
        };
        let new_snap = match self.get_snapshot(new_hash) {
            Ok(s) => s,
            Err(e) => {
                return Err(e);
            },
        };
        let old_lines = split_lines(old_snap.nquads.as_str());
        let new_lines = split_lines(new_snap.nquads.as_str());
        let added = lines_missing(&new_lines, &old_lines);
        let removed = lines_missing(&old_lines, &new_lines);
        Ok(GraphDelta { added_lines: added, removed_lines: removed })
    }

    /// The index of a node's history, or the count.
    #[verifier::loop_isolation(false)]
    fn hist_index(&self, node_id: &str) -> (r: usize)
        ensures
            r as int == hist_find(self.node_hists@, node_id@, 0),
            r <= self.node_hists@.len(),
            r < self.node_hists@.len() ==> self.node_hists@[r as int].node_id@ == node_id@,
    {
        let idv = chars_of(node_id);
        let mut i: usize = 0;
        while i < self.node_hists.len()
            invariant
                i <= self.node_hists@.len(),
                idv@ == node_id@,
                forall|k: int| 0 <= k < i ==> (#[trigger] self.node_hists@[k]).node_id@ != node_id@,
            decreases self.node_hists@.len() - i,
        {
            if eq_str(&idv, self.node_hists[i].node_id.as_str()) {
                proof {
                    lemma_hist_find_at(self.node_hists@, node_id@, i as int);
                }
                return i;
            }
            i = i + 1;
        }
        proof {
            lemma_hist_find_at(self.node_hists@, node_id@, self.node_hists@.len() as int);
        }
        self.node_hists.len()
    }

    /// Store one node snapshot under its content hash (replacing any
    /// blob with the same hash) and append its history entry; earlier
    /// entries and other nodes' histories are never touched.
    #[verifier::loop_isolation(false)]
    pub fn snapshot_node(&mut self, node_id: &str, content: &str, commit_hash: &str) -> (r: String)
        ensures
            r@ == sha256_hex_of_text(content@),
            final(self).snapshots == old(self).snapshots,
            final(self).commit_links == old(self).commit_links,
            final(self).derivations == old(self).derivations,
            spec_node_snapshot(final(self).node_hists@, node_id@, r@) == Some(content@),
            ({
                let es0 = spec_node_entries(old(self).node_hists@, node_id@);
                let es1 = spec_node_entries(final(self).node_hists@, node_id@);
                es1.len() == es0.len() + 1 && es1.last().hash == r@ && es1.last().commit_hash
                    == commit_hash@ && (forall|j: int| 0 <= j < es0.len() ==> es1[j] == es0[j])
            }),
            ({
                let k = hist_find(old(self).node_hists@, node_id@, 0);
                if k < old(self).node_hists@.len() {
                    final(self).node_hists@.len() == old(self).node_hists@.len() && (forall|
                        j: int,
                    |
                        0 <= j < old(self).node_hists@.len() && j != k ==> final(self).node_hists@[j] == old(self).node_hists@[j])
                } else {
                    final(self).node_hists@.len() == old(self).node_hists@.len() + 1 && (forall|
                        j: int,
                    |
                        0 <= j < old(self).node_hists@.len() ==> final(self).node_hists@[j] == old(self).node_hists@[j])
                }
            }),
    {
        let now = crate::clock::now_ts();
        let hash = text_sha256_hex(content);
        let ghost hists0 = self.node_hists@;
        let ghost k0 = hist_find(hists0, node_id@, 0);
        let k = self.hist_index(node_id);
        if k == self.node_hists.len() {
            let idv = chars_of(node_id);
            self.node_hists.push(
                NodeHist { node_id: string_from(&idv), snaps: Vec::new(), entries: Vec::new() },
            );
            proof {
                lemma_hist_find_prefix(hists0, node_id@, 0);
                assert forall|j: int| 0 <= j < k implies (#[trigger] self.node_hists@[
                    j]).node_id@ != node_id@ by {
                    assert(self.node_hists@[j] == hists0[j]);
                }
                assert(self.node_hists@[k as int].node_id@ == node_id@);
                lemma_hist_find_at(self.node_hists@, node_id@, k as int);
            }
        }
        let k2 = self.hist_index(node_id);
        let cv = chars_of(content);
        let chv = chars_of(commit_hash);
        let hv = chars_of(hash.as_str());
        let mut hist = self.node_hists.remove(k2);
        let ghost snaps0 = hist.snaps@;
        let ghost entries0 = hist.entries@;
        // replace any blob already stored under this hash
        let mut si: usize = 0;
        while si < hist.snaps.len() && !eq_str(&hv, hist.snaps[si].0.as_str())
            invariant
                si <= hist.snaps@.len(),
                hist.snaps@ == snaps0,
                forall|w: int| 0 <= w < si ==> (#[trigger] snaps0[w]).0@ != hash@,
            decreases hist.snaps@.len() - si,
        {
            si = si + 1;
        }
        if si < hist.snaps.len() {
            hist.snaps.set(si, (string_from(&hv), string_from(&cv)));
        } else {
            hist.snaps.push((string_from(&hv), string_from(&cv)));
        }
        let ghost snaps1 = hist.snaps@;
        proof {
            assert(si < snaps1.len());
            assert(snaps1[si as int].0@ == hash@);
            assert(snaps1[si as int].1@ == content@);
            assert forall|w: int| 0 <= w < si implies (#[trigger] snaps1[w]).0@ != hash@ by {
                assert(snaps1[w] == snaps0[w]);
            }
            lemma_snap_lookup_at(snaps1, hash@, si as int);
        }
        hist.entries.push(
            NodeHistoryEntry {
                hash: string_from(&hv),
                timestamp: now,
                commit_hash: string_from(&chv),
            },
        );
        let ghost entry = hist.entries@.last();
        let ghost mid = self.node_hists@;
        self.node_hists.insert(k2, hist);
        proof {
            let hf = final(self).node_hists@;
            // the element sits back at its index; nothing else moved
            if k0 < hists0.len() {
                assert(hf.len() == hists0.len());
                assert forall|j: int| 0 <= j < hists0.len() && j != k0 implies hf[j] == hists0[
                    j] by {
                    if j < k0 {
                        assert(hf[j] == mid[j]);
                        assert(mid[j] == hists0[j]);
                    } else {
                        assert(hf[j] == mid[j - 1]);
                        assert(mid[j - 1] == hists0[j]);
                    }
                }
            } else {
                assert(hf.len() == hists0.len() + 1);
                assert forall|j: int| 0 <= j < hists0.len() implies hf[j] == hists0[j] by {
                    assert(hf[j] == mid[j]);
                }
            }
            // the find lands on the re-inserted element
            lemma_hist_find_prefix(hists0, node_id@, 0);
            assert forall|j: int| 0 <= j < k2 implies (#[trigger] hf[j]).node_id@ != node_id@ by {
                assert(hf[j] == hists0[j]);
            }
            assert(hf[k2 as int].node_id@ == node_id@);
            lemma_hist_find_at(hf, node_id@, k2 as int);
            // the entry list grew by one, everything before it kept
            assert(hf[k2 as int].entries@ =~= entries0.push(entry));
            let es1 = spec_node_entries(hf, node_id@);
            let es0 = spec_node_entries(hists0, node_id@);
            if k0 < hists0.len() {
                assert(entries0 == hists0[k0 as int].entries@);
            } else {
                assert(entries0 =~= Seq::<NodeHistoryEntry>::empty());
                assert(es0 =~= Seq::<HistEntryView>::empty());
            }
            assert(es1.len() == entries0.len() + 1);
            assert(es1.last() == hf[k2 as int].entries@[entries0.len() as int]@);
            assert(es1.last() == entry@);
            assert forall|j: int| 0 <= j < es0.len() implies es1[j] == es0[j] by {
                assert(es1[j] == hf[k2 as int].entries@[j]@);
                assert(hf[k2 as int].entries@[j] == entries0[j]);
                assert(es0[j] == hists0[k0 as int].entries@[j]@);
            }
            // the stored blob reads back
            assert(hf[k2 as int].snaps@ == snaps1);
        }
        hash
    }

    /// The history entries of a node, oldest first.
    pub fn get_node_history(&self, node_id: &str) -> (r: Vec<NodeHistoryEntry>)
        ensures
            r.deep_view() == spec_node_entries(self.node_hists@, node_id@),
    {
        let k = self.hist_index(node_id);
        if k < self.node_hists.len() {
            clone_entries(&self.node_hists[k].entries)
        } else {
            let r: Vec<NodeHistoryEntry> = Vec::new();
            proof {
                assert(r.deep_view() =~= Seq::<HistEntryView>::empty());
            }
            r
        }
    }

    /// The stored content of one node snapshot, by hash.
    #[verifier::loop_isolation(false)]
    pub fn get_node_snapshot(&self, node_id: &str, hash: &str) -> (r: Option<String>)
        ensures
            match r {
                Some(c) => spec_node_snapshot(self.node_hists@, node_id@, hash@) == Some(c@),
                None => spec_node_snapshot(self.node_hists@, node_id@, hash@) is None,
            },
    {
        let k = self.hist_index(node_id);
        if k >= self.node_hists.len() {
            return None;
        }
        let hv = chars_of(hash);
        let snaps = &self.node_hists[k].snaps;
        let mut i: usize = 0;
        while i < snaps.len()
            invariant
                i <= snaps@.len(),
                hv@ == hash@,
                forall|w: int| 0 <= w < i ==> (#[trigger] snaps@[w]).0@ != hash@,
            decreases snaps@.len() - i,
        {
            if eq_str(&hv, snaps[i].0.as_str()) {
                proof {
                    lemma_snap_lookup_at(snaps@, hash@, i as int);
                }
                let cv = chars_of(snaps[i].1.as_str());
                return Some(string_from(&cv));
            }
            i = i + 1;
        }
        proof {
            lemma_snap_lookup_at(snaps@, hash@, snaps@.len() as int);
        }
        None
    }

    /// The most recent snapshot of a node, when it has one: the last
    /// history entry together with its stored content.
    pub fn get_latest_node_snapshot(&self, node_id: &str) -> (r: Option<NodeSnapshot>)
        ensures
            match r {
                Some(s) => spec_latest(self.node_hists@, node_id@) == Some(
                    (
                        HistEntryView {
                            hash: s.hash@,
                            timestamp: s.timestamp as int,
                            commit_hash: s.commit_hash@,
                        },
                        s.content@,
                    ),
                ) && s.node_id@ == node_id@,
                None => spec_latest(self.node_hists@, node_id@) is None,
            },
    {
        let k = self.hist_index(node_id);
        if k >= self.node_hists.len() {
            proof {
                assert(spec_node_entries(self.node_hists@, node_id@) =~= Seq::<
                    HistEntryView,
                >::empty());
            }
            return None;
        }
        let n = self.node_hists[k].entries.len();
        if n == 0 {
            proof {
                assert(spec_node_entries(self.node_hists@, node_id@) =~= self.node_hists@[
                    k as int].entries.deep_view());
            }
            return None;
        }
        let last = &self.node_hists[k].entries[n - 1];
        proof {
            let dv = self.node_hists@[k as int].entries.deep_view();
            assert(dv[dv.len() - 1] == self.node_hists@[k as int].entries@[dv.len() - 1]@);
        }
        match self.get_node_snapshot(node_id, last.hash.as_str()) {
            Some(content) => {
                let idv = chars_of(node_id);
                Some(
                    NodeSnapshot {
                        node_id: string_from(&idv),
                        hash: last.hash.clone(),
                        content,
                        timestamp: last.timestamp,
                        commit_hash: last.commit_hash.clone(),
                    },
                )
            },
            None => None,
        }
    }

    /// Append one derivation record; earlier records are never touched.
    pub fn record_derivation(&mut self, child_id: &str, parent_id: &str, commit_hash: &str)
        ensures
            final(self).derivations@.len() == old(self).derivations@.len() + 1,
            final(self).derivations@.last()@.child_id == child_id@,
            final(self).derivations@.last()@.parent_id == parent_id@,
            final(self).derivations@.last()@.commit_hash == commit_hash@,
            forall|k: int|
                0 <= k < old(self).derivations@.len() ==> final(self).derivations@[k] == old(self).derivations@[k],
            final(self).snapshots == old(self).snapshots,
            final(self).commit_links == old(self).commit_links,
            final(self).node_hists == old(self).node_hists,
    {
        let now = crate::clock::now_ts();
        let cv = chars_of(child_id);
        let pv = chars_of(parent_id);
        let hv = chars_of(commit_hash);
        self.derivations.push(
            DerivationEntry {
                child_id: string_from(&cv),
                parent_id: string_from(&pv),
                timestamp: now,
                commit_hash: string_from(&hv),
            },
        );
    }

    /// Every derivation whose child is the given node, in record order.
    #[verifier::loop_isolation(false)]
    pub fn get_derivations(&self, node_id: &str) -> (r: Vec<DerivationEntry>)
        ensures
            r.deep_view() == self.derivations.deep_view().filter(
                |d: DerivationView| d.child_id == node_id@,
            ),
    {
        let ghost dv = self.derivations.deep_view();
        let idv = chars_of(node_id);
        let mut out: Vec<DerivationEntry> = Vec::new();
        let mut i: usize = 0;
        while i < self.derivations.len()
            invariant
                i <= self.derivations@.len(),
                dv == self.derivations.deep_view(),
                idv@ == node_id@,
                out.deep_view() == dv.take(i as int).filter(
                    |d: DerivationView| d.child_id == node_id@,
                ),
            decreases self.derivations@.len() - i,
        {
            let ghost kpre = out.deep_view();
            let ghost kvpre = out@;
            let hit = eq_str(&idv, self.derivations[i].child_id.as_str());
            proof {
                assert(self.derivations.deep_view()[i as int] == self.derivations@[i as int]@);
                assert(dv.take(i + 1 as int).drop_last() =~= dv.take(i as int));
                assert(dv.take(i + 1 as int).last() == dv[i as int]);
            }
            if hit {
                out.push(self.derivations[i].clone());
                proof {
                    assert forall|q: int| 0 <= q < out@.len() implies #[trigger] out.deep_view()[q]
                        == kpre.push(dv[i as int])[q] by {
                        assert(out.deep_view()[q] == out@[q]@);
                        if q < kvpre.len() {
                            assert(out@[q] == kvpre[q]);
                            assert(kpre[q] == kvpre[q]@);
                        }
                    }
                    reveal(Seq::filter);
                    assert(out.deep_view() =~= kpre.push(dv[i as int]));
                    assert(out.deep_view() =~= dv.take(i + 1 as int).filter(
                        |d: DerivationView| d.child_id == node_id@,
                    ));
                }
            } else {
                proof {
                    reveal(Seq::filter);
                    assert(out.deep_view() =~= dv.take(i + 1 as int).filter(
                        |d: DerivationView| d.child_id == node_id@,
                    ));
                }
            }
            i = i + 1;
        }
        proof {
            assert(dv.take(dv.len() as int) =~= dv);
        }
        out
    }

    /// Every derivation whose parent is the given node, in record order.
    #[verifier::loop_isolation(false)]
    pub fn get_derived_nodes(&self, node_id: &str) -> (r: Vec<DerivationEntry>)
        ensures
            r.deep_view() == self.derivations.deep_view().filter(
                |d: DerivationView| d.parent_id == node_id@,
            ),
    {
        let ghost dv = self.derivations.deep_view();
        let idv = chars_of(node_id);
        let mut out: Vec<DerivationEntry> = Vec::new();
        let mut i: usize = 0;
        while i < self.derivations.len()
            invariant
                i <= self.derivations@.len(),
                dv == self.derivations.deep_view(),
                idv@ == node_id@,
                out.deep_view() == dv.take(i as int).filter(
                    |d: DerivationView| d.parent_id == node_id@,
                ),
            decreases self.derivations@.len() - i,
        {
            let ghost kpre = out.deep_view();
            let ghost kvpre = out@;
            let hit = eq_str(&idv, self.derivations[i].parent_id.as_str());
            proof {
                assert(self.derivations.deep_view()[i as int] == self.derivations@[i as int]@);
                assert(dv.take(i + 1 as int).drop_last() =~= dv.take(i as int));
                assert(dv.take(i + 1 as int).last() == dv[i as int]);
            }
            if hit {
                out.push(self.derivations[i].clone());
                proof {
                    assert forall|q: int| 0 <= q < out@.len() implies #[trigger] out.deep_view()[q]
                        == kpre.push(dv[i as int])[q] by {
                        assert(out.deep_view()[q] == out@[q]@);
                        if q < kvpre.len() {
                            assert(out@[q] == kvpre[q]);
                            assert(kpre[q] == kvpre[q]@);
                        }
                    }
                    reveal(Seq::filter);
                    assert(out.deep_view() =~= kpre.push(dv[i as int]));
                    assert(out.deep_view() =~= dv.take(i + 1 as int).filter(
                        |d: DerivationView| d.parent_id == node_id@,
                    ));
                }
            } else {
                proof {
                    reveal(Seq::filter);
                    assert(out.deep_view() =~= dv.take(i + 1 as int).filter(
                        |d: DerivationView| d.parent_id == node_id@,
                    ));
                }
            }
            i = i + 1;
        }
        proof {
            assert(dv.take(dv.len() as int) =~= dv);
        }
        out
    }

    /// Walk parent-ward from a node, taking the first recorded parent
    /// at each step, until no parent remains or a node repeats. The
    /// chain never holds more entries than there are derivation
    /// records, whatever cycles the records form.
    #[verifier::loop_isolation(false)]
    pub fn build_derivation_chain(&self, node_id: &str) -> (r: Vec<DerivationEntry>)
        ensures
            r.deep_view() == chain_walk(
                self.derivations.deep_view(),
                node_id@,
                Seq::<Seq<char>>::empty(),
                self.derivations@.len() as nat,
            ),
            r@.len() <= self.derivations@.len(),
            forall|k: int|
                0 <= k < r@.len() ==> first_parent(
                    self.derivations.deep_view(),
                    (#[trigger] r.deep_view()[k]).child_id,
                    0,
                ) == Some(r.deep_view()[k]),
            r@.len() > 0 ==> r.deep_view()[0].child_id == node_id@,
            forall|k: int|
                0 < k < r@.len() ==> (#[trigger] r.deep_view()[k]).child_id == r.deep_view()[k
                    - 1].parent_id,
    {
        let ghost dv = self.derivations.deep_view();
        let ghost fuel0 = self.derivations@.len() as nat;
        let mut chain: Vec<DerivationEntry> = Vec::new();
        let mut visited: Vec<String> = Vec::new();
        let idv = chars_of(node_id);
        let mut current: String = string_from(&idv);
        let mut fuel: usize = self.derivations.len();
        proof {
            assert(chain.deep_view() =~= Seq::<DerivationView>::empty());
            assert(visited.deep_view() =~= Seq::<Seq<char>>::empty());
        }
        while fuel > 0
            invariant
                dv == self.derivations.deep_view(),
                chain@.len() + fuel <= self.derivations@.len() || (chain@.len() == 0 && fuel
                    <= self.derivations@.len()),
                chain@.len() <= self.derivations@.len(),
                chain_walk(dv, node_id@, Seq::<Seq<char>>::empty(), fuel0) == chain.deep_view()
                    + chain_walk(dv, current@, visited.deep_view(), fuel as nat),
                forall|k: int|
                    0 <= k < chain@.len() ==> first_parent(
                        dv,
                        (#[trigger] chain.deep_view()[k]).child_id,
                        0,
                    ) == Some(chain.deep_view()[k]),
                chain@.len() > 0 ==> chain.deep_view()[0].child_id == node_id@,
                forall|k: int|
                    0 < k < chain@.len() ==> (#[trigger] chain.deep_view()[k]).child_id == chain
                        .deep_view()[k - 1].parent_id,
                chain@.len() > 0 ==> current@ == chain.deep_view()[chain@.len() - 1].parent_id,
                chain@.len() == 0 ==> current@ == node_id@,
            decreases fuel,
        {
            let ghost fh = fuel as nat;
            let ghost vdv = visited.deep_view();
            fuel = fuel - 1;
            // stop on a repeated node
            let mut seen = false;
            let cv = chars_of(current.as_str());
            let mut w: usize = 0;
            while w < visited.len()
                invariant
                    w <= visited@.len(),
                    cv@ == current@,
                    vdv == visited.deep_view(),
                    seen == exists|x: int| 0 <= x < w && #[trigger] vdv[x] == cv@,
                decreases visited@.len() - w,
            {
                let hit = eq_str(&cv, visited[w].as_str());
                proof {
                    assert(visited.deep_view()[w as int] == visited@[w as int]@);
                }
                if hit {
                    seen = true;
                }
                w = w + 1;
            }
            proof {
                if seen {
                    assert(vdv.contains(cv@));
                } else {
                    assert(!vdv.contains(cv@)) by {
                        if vdv.contains(cv@) {
                            let x = choose|x: int| 0 <= x < vdv.len() && vdv[x] == cv@;
                            assert(vdv[x] == cv@);
                        }
                    }
                }
            }
            if seen {
                proof {
                    assert(chain_walk(dv, current@, vdv, fh) =~= Seq::<DerivationView>::empty());
                }
                return chain;
            }
            let ghost vvecpre = visited@;
            visited.push(current.clone());
            proof {
                assert forall|x: int| 0 <= x < visited@.len() implies #[trigger] visited
                    .deep_view()[x] == vdv.push(cv@)[x] by {
                    assert(visited.deep_view()[x] == visited@[x]@);
                    if x < vvecpre.len() {
                        assert(visited@[x] == vvecpre[x]);
                        assert(vdv[x] == vvecpre[x]@);
                    }
                }
                assert(visited.deep_view() =~= vdv.push(cv@));
            }
            // the first derivation whose child is the current node
            let mut found: Option<DerivationEntry> = None;
            let mut i: usize = 0;
            while i < self.derivations.len()
                invariant
                    i <= self.derivations@.len(),
                    dv == self.derivations.deep_view(),
                    cv@ == current@,
                    match found {
                        Some(d) => first_parent(dv, current@, 0) == Some(d@),
                        None => first_parent(dv, current@, i as int) == first_parent(
                            dv,
                            current@,
                            0,
                        ),
                    },
                decreases self.derivations@.len() - i,
            {
                match &found {
                    Some(_) => {},
                    None => {
                        let hit = eq_str(&cv, self.derivations[i].child_id.as_str());
                        proof {
                            assert(self.derivations.deep_view()[i as int] == self.derivations@[
                                i as int]@);
                        }
                        if hit {
                            found = Some(self.derivations[i].clone());
                        }
                    },
                }
                i = i + 1;
            }
            match found {
                Some(d) => {
                    let ghost dview = d@;
                    let ghost cpre = chain.deep_view();
                    let ghost cvecpre = chain@;
                    let next = d.parent_id.clone();
                    chain.push(d);
                    proof {
                        lemma_first_parent_child(dv, cv@, 0);
                        assert forall|q: int| 0 <= q < chain@.len() implies #[trigger] chain
                            .deep_view()[q] == cpre.push(dview)[q] by {
                            assert(chain.deep_view()[q] == chain@[q]@);
                            if q < cvecpre.len() {
                                assert(chain@[q] == cvecpre[q]);
                                assert(cpre[q] == cvecpre[q]@);
                            }
                        }
                        assert(chain.deep_view() =~= cpre.push(dview));
                        assert(dview.child_id == cv@);
                        assert(chain_walk(dv, cv@, vdv, fh) == seq![dview] + chain_walk(
                            dv,
                            dview.parent_id,
                            vdv.push(cv@),
                            (fh - 1) as nat,
                        ));
                        assert(chain.deep_view() + chain_walk(
                            dv,
                            dview.parent_id,
                            vdv.push(cv@),
                            (fh - 1) as nat,
                        ) =~= cpre + chain_walk(dv, cv@, vdv, fh));
                    }
                    current = next;
                },
                None => {
                    proof {
                        assert(chain_walk(dv, current@, vdv, fh) =~= Seq::<
                            DerivationView,
                        >::empty());
                    }
                    return chain;
                },
            }
        }
        proof {
            assert(chain_walk(dv, current@, visited.deep_view(), fuel as nat) =~= Seq::<
                DerivationView,
            >::empty());
        }
        chain
    }

    /// Walk child-ward from a node, taking the first recorded child at
    /// each step, for at most `limit` steps; a repeated node ends the
    /// walk.
    #[verifier::loop_isolation(false)]
    pub fn build_reverse_derivation_chain(&self, root_id: &str, limit: usize) -> (r: Vec<
        DerivationEntry,
    >)
        ensures
            r.deep_view() == rev_chain_walk(
                self.derivations.deep_view(),
                root_id@,
                Seq::<Seq<char>>::empty(),
                limit as nat,
            ),
            r@.len() <= limit,
            forall|k: int|
                0 <= k < r@.len() ==> first_child(
                    self.derivations.deep_view(),
                    (#[trigger] r.deep_view()[k]).parent_id,
                    0,
                ) == Some(r.deep_view()[k]),
            r@.len() > 0 ==> r.deep_view()[0].parent_id == root_id@,
            forall|k: int|
                0 < k < r@.len() ==> (#[trigger] r.deep_view()[k]).parent_id == r.deep_view()[k
                    - 1].child_id,
    {
        let ghost dv = self.derivations.deep_view();
        let mut chain: Vec<DerivationEntry> = Vec::new();
        let mut visited: Vec<String> = Vec::new();
        let idv = chars_of(root_id);
        let mut current: String = string_from(&idv);
        let mut fuel: usize = limit;
        proof {
            assert(chain.deep_view() =~= Seq::<DerivationView>::empty());
            assert(visited.deep_view() =~= Seq::<Seq<char>>::empty());
        }
        while fuel > 0
            invariant
                dv == self.derivations.deep_view(),
                chain@.len() + fuel <= limit || (chain@.len() == 0 && fuel <= limit),
                chain@.len() <= limit,
                rev_chain_walk(dv, root_id@, Seq::<Seq<char>>::empty(), limit as nat) == chain
                    .deep_view() + rev_chain_walk(dv, current@, visited.deep_view(), fuel as nat),
                forall|k: int|
                    0 <= k < chain@.len() ==> first_child(
                        dv,
                        (#[trigger] chain.deep_view()[k]).parent_id,
                        0,
                    ) == Some(chain.deep_view()[k]),
                chain@.len() > 0 ==> chain.deep_view()[0].parent_id == root_id@,
                forall|k: int|
                    0 < k < chain@.len() ==> (#[trigger] chain.deep_view()[k]).parent_id == chain
                        .deep_view()[k - 1].child_id,
                chain@.len() > 0 ==> current@ == chain.deep_view()[chain@.len() - 1].child_id,
                chain@.len() == 0 ==> current@ == root_id@,
            decreases fuel,
        {
            let ghost fh = fuel as nat;
            let ghost vdv = visited.deep_view();
            fuel = fuel - 1;
            let mut seen = false;
            let cv = chars_of(current.as_str());
            let mut w: usize = 0;
            while w < visited.len()
                invariant
                    w <= visited@.len(),
                    cv@ == current@,
                    vdv == visited.deep_view(),
                    seen == exists|x: int| 0 <= x < w && #[trigger] vdv[x] == cv@,
                decreases visited@.len() - w,
            {
                let hit = eq_str(&cv, visited[w].as_str());
                proof {
                    assert(visited.deep_view()[w as int] == visited@[w as int]@);
                }
                if hit {
                    seen = true;
                }
                w = w + 1;
            }
            proof {
                if seen {
                    assert(vdv.contains(cv@));
                } else {
                    assert(!vdv.contains(cv@)) by {
                        if vdv.contains(cv@) {
                            let x = choose|x: int| 0 <= x < vdv.len() && vdv[x] == cv@;
                            assert(vdv[x] == cv@);
                        }
                    }
                }
            }
            if seen {
                proof {
                    assert(rev_chain_walk(dv, current@, vdv, fh) =~= Seq::<
                        DerivationView,
                    >::empty());
                }
                return chain;
            }
            let ghost vvecpre = visited@;
            visited.push(current.clone());
            proof {
                assert forall|x: int| 0 <= x < visited@.len() implies #[trigger] visited
                    .deep_view()[x] == vdv.push(cv@)[x] by {
                    assert(visited.deep_view()[x] == visited@[x]@);
                    if x < vvecpre.len() {
                        assert(visited@[x] == vvecpre[x]);
                        assert(vdv[x] == vvecpre[x]@);
                    }
                }
                assert(visited.deep_view() =~= vdv.push(cv@));
            }
            let mut found: Option<DerivationEntry> = None;
            let mut i: usize = 0;
            while i < self.derivations.len()
                invariant
                    i <= self.derivations@.len(),
                    dv == self.derivations.deep_view(),
                    cv@ == current@,
                    match found {
                        Some(d) => first_child(dv, current@, 0) == Some(d@),
                        None => first_child(dv, current@, i as int) == first_child(
                            dv,
                            current@,
                            0,
                        ),
                    },
                decreases self.derivations@.len() - i,
            {
                match &found {
                    Some(_) => {},
                    None => {
                        let hit = eq_str(&cv, self.derivations[i].parent_id.as_str());
                        proof {
                            assert(self.derivations.deep_view()[i as int] == self.derivations@[
                                i as int]@);
                        }
                        if hit {
                            found = Some(self.derivations[i].clone());
                        }
                    },
                }
                i = i + 1;
            }
            match found {
                Some(d) => {
                    let ghost dview = d@;
                    let ghost cpre = chain.deep_view();
                    let ghost cvecpre = chain@;
                    let next = d.child_id.clone();
                    chain.push(d);
                    proof {
                        lemma_first_child_parent(dv, cv@, 0);
                        assert forall|q: int| 0 <= q < chain@.len() implies #[trigger] chain
                            .deep_view()[q] == cpre.push(dview)[q] by {
                            assert(chain.deep_view()[q] == chain@[q]@);
                            if q < cvecpre.len() {
                                assert(chain@[q] == cvecpre[q]);
                                assert(cpre[q] == cvecpre[q]@);
                            }
                        }
                        assert(chain.deep_view() =~= cpre.push(dview));
                        assert(dview.parent_id == cv@);
                        assert(rev_chain_walk(dv, cv@, vdv, fh) == seq![dview] + rev_chain_walk(
                            dv,
                            dview.child_id,
                            vdv.push(cv@),
                            (fh - 1) as nat,
                        ));
                        assert(chain.deep_view() + rev_chain_walk(
                            dv,
                            dview.child_id,
                            vdv.push(cv@),
                            (fh - 1) as nat,
                        ) =~= cpre + rev_chain_walk(dv, cv@, vdv, fh));
                    }
                    current = next;
                },
                None => {
                    proof {
                        assert(rev_chain_walk(dv, current@, vdv, fh) =~= Seq::<
                            DerivationView,
                        >::empty());
                    }
                    return chain;
                },
            }
        }
        proof {
            assert(rev_chain_walk(dv, current@, visited.deep_view(), fuel as nat) =~= Seq::<
                DerivationView,
            >::empty());
        }
        chain
    }
}


proof fn lemma_first_parent_child(ds: Seq<DerivationView>, c: Seq<char>, i: int)
    ensures
        first_parent(ds, c, i) matches Some(x) ==> x.child_id == c,
    decreases ds.len() - i,
{
    if 0 <= i && i < ds.len() && ds[i].child_id != c {
        lemma_first_parent_child(ds, c, i + 1);
    }
}

proof fn lemma_first_child_parent(ds: Seq<DerivationView>, p: Seq<char>, i: int)
    ensures
        first_child(ds, p, i) matches Some(x) ==> x.parent_id == p,
    decreases ds.len() - i,
{
    if 0 <= i && i < ds.len() && ds[i].parent_id != p {
        lemma_first_child_parent(ds, p, i + 1);
    }
}

proof fn lemma_snapshot_content_at(snaps: Seq<GraphSnapshot>, hash: Seq<char>, i: int)
    requires
        0 <= i < snaps.len(),
        snaps[i].hash@ == hash,
        forall|k: int| 0 <= k < i ==> (#[trigger] snaps[k]).hash@ != hash,
    ensures
        snapshot_content(snaps, hash, 0) == Some(snaps[i].nquads@),
{
    lemma_snapshot_content_step(snaps, hash, 0, i);
}

proof fn lemma_snapshot_content_step(snaps: Seq<GraphSnapshot>, hash: Seq<char>, lo: int, i: int)
    requires
        0 <= lo <= i < snaps.len(),
        snaps[i].hash@ == hash,
        forall|k: int| lo <= k < i ==> (#[trigger] snaps[k]).hash@ != hash,
    ensures
        snapshot_content(snaps, hash, lo) == Some(snaps[i].nquads@),
    decreases i - lo,
{
    if lo < i {
        lemma_snapshot_content_step(snaps, hash, lo + 1, i);
    }
}

proof fn lemma_snapshot_content_skip(snaps: Seq<GraphSnapshot>, hash: Seq<char>, i: int)
    requires
        0 <= i < snaps.len(),
        snaps[i].hash@ == hash,
        forall|k: int| 0 <= k < i ==> (#[trigger] snaps[k]).hash@ != hash,
    ensures
        snapshot_content(snaps, hash, 0) == Some(snaps[i].nquads@),
{
    lemma_snapshot_content_step(snaps, hash, 0, i);
}

proof fn lemma_snapshot_content_none(snaps: Seq<GraphSnapshot>, hash: Seq<char>, lo: int)
    requires
        0 <= lo <= snaps.len(),
        forall|k: int| lo <= k < snaps.len() ==> (#[trigger] snaps[k]).hash@ != hash,
    ensures
        snapshot_content(snaps, hash, lo) is None,
    decreases snaps.len() - lo,
{
    if lo < snaps.len() {
        lemma_snapshot_content_none(snaps, hash, lo + 1);
    }
}

/// Clone a history-entry list, model for model.
fn clone_entries(v: &Vec<NodeHistoryEntry>) -> (r: Vec<NodeHistoryEntry>)
    ensures
        r.deep_view() == v.deep_view(),
{
    let mut out: Vec<NodeHistoryEntry> = Vec::new();
    let mut i: usize = 0;
    while i < v.len()
        invariant
            i <= v@.len(),
            out@.len() == i,
            out.deep_view() == v.deep_view().take(i as int),
        decreases v@.len() - i,
    {
        out.push(v[i].clone());
        proof {
            assert forall|j: int| 0 <= j < i + 1 implies #[trigger] out.deep_view()[j] == v
                .deep_view().take(i + 1 as int)[j] by {
                assert(out.deep_view()[j] == out@[j]@);
                assert(v.deep_view()[j] == v@[j]@);
                if j < i as int {
                    assert(out@[j]@ == out.deep_view().take(i as int)[j]);
                }
            }
            assert(out.deep_view() =~= v.deep_view().take(i + 1 as int));
        }
        i = i + 1;
    }
    proof {
        assert(v.deep_view().take(v@.len() as int) =~= v.deep_view());
    }
    out
}

/// The lines a text splits into at newlines, from position `p` on; a
/// trailing newline adds no empty line.
pub open spec fn spec_lines(s: Seq<char>, p: int) -> Seq<Seq<char>>
    decreases s.len() - p,
{
    if p < 0 || p >= s.len() {
        Seq::<Seq<char>>::empty()
    } else {
        let nl = crate::strength::find_from(s, '\n', p);
        if p <= nl && nl < s.len() {
            seq![s.subrange(p, nl)] + spec_lines(s, nl + 1)
        } else if nl >= s.len() {
            seq![s.subrange(p, s.len() as int)]
        } else {
            Seq::<Seq<char>>::empty()
        }
    }
}

/// The members of `a` from `i` on that occur neither in `b` nor in the
/// collected ones, appended to `acc`.
pub open spec fn missing_fold(
    av: Seq<Seq<char>>,
    bv: Seq<Seq<char>>,
    i: int,
    acc: Seq<Seq<char>>,
) -> Seq<Seq<char>>
    decreases av.len() - i,
{
    if i < 0 || i >= av.len() {
        acc
    } else if bv.contains(av[i]) || acc.contains(av[i]) {
        missing_fold(av, bv, i + 1, acc)
    } else {
        missing_fold(av, bv, i + 1, acc.push(av[i]))
    }
}

/// The difference of a text with itself is empty.
pub proof fn lemma_missing_self(l: Seq<Seq<char>>, i: int)
    requires
        0 <= i,
    ensures
        missing_fold(l, l, i, Seq::<Seq<char>>::empty()) == Seq::<Seq<char>>::empty(),
    decreases l.len() - i,
{
    if i < l.len() {
        assert(l.contains(l[i]));
        lemma_missing_self(l, i + 1);
    }
}

/// The lines of a text, split on newlines.
#[verifier::loop_isolation(false)]
pub fn split_lines(s: &str) -> (r: Vec<String>)
    ensures
        r.deep_view() == spec_lines(s@, 0),
{
    let v = chars_of(s);
    let ghost sv = v@;
    let mut out: Vec<String> = Vec::new();
    proof {
        assert(out.deep_view() =~= Seq::<Seq<char>>::empty());
    }
    let mut p: usize = 0;
    while p < v.len()
        invariant
            p <= v@.len(),
            sv == v@,
            spec_lines(sv, 0) == out.deep_view() + spec_lines(sv, p as int),
        decreases v@.len() - p,
    {
        let mut nl: usize = p;
        while nl < v.len() && v[nl] != '\n'
            invariant
                p <= nl <= v@.len(),
                forall|k: int| p <= k < nl ==> sv[k] != '\n',
            decreases v@.len() - nl,
        {
            nl = nl + 1;
        }
        proof {
            crate::strength::lemma_find_from_range(sv, '\n', p as int, nl as int);
        }
        let mut line: Vec<char> = Vec::new();
        let mut i: usize = p;
        while i < nl
            invariant
                p <= i <= nl <= v@.len(),
                sv == v@,
                line@ == sv.subrange(p as int, i as int),
            decreases nl - i,
        {
            line.push(v[i]);
            proof {
                assert(sv.subrange(p as int, i + 1 as int) =~= sv.subrange(p as int, i as int)
                    .push(sv[i as int]));
            }
            i = i + 1;
        }
        let ghost out_pre = out.deep_view();
        let ghost out_vec_pre = out@;
        out.push(string_from(&line));
        proof {
            assert forall|w: int| 0 <= w < out@.len() implies #[trigger] out.deep_view()[w]
                == out_pre.push(line@)[w] by {
                assert(out.deep_view()[w] == out@[w]@);
                if w < out_vec_pre.len() {
                    assert(out@[w] == out_vec_pre[w]);
                    assert(out_pre[w] == out_vec_pre[w]@);
                }
            }
            assert(out.deep_view() =~= out_pre.push(line@));
            if (nl as int) < sv.len() {
                assert(line@ == sv.subrange(p as int, nl as int));
                assert(out.deep_view() + spec_lines(sv, nl + 1 as int) =~= out_pre + (seq![line@]
                    + spec_lines(sv, nl + 1 as int)));
            } else {
                assert(line@ == sv.subrange(p as int, sv.len() as int));
                assert(out.deep_view() =~= out_pre + seq![line@]);
            }
        }
        if nl < v.len() {
            p = nl + 1;
        } else {
            p = v.len();
            proof {
                assert(spec_lines(sv, p as int) =~= Seq::<Seq<char>>::empty());
            }
        }
    }
    out
}

/// The members of `a` that occur in neither `b` nor the earlier picks:
/// the line-set difference, first occurrences, in `a`'s order.
#[verifier::loop_isolation(false)]
pub fn lines_missing(a: &Vec<String>, b: &Vec<String>) -> (r: Vec<String>)
    ensures
        r.deep_view() == missing_fold(
            a.deep_view(),
            b.deep_view(),
            0,
            Seq::<Seq<char>>::empty(),
        ),
{
    let ghost adv = a.deep_view();
    let ghost bdv = b.deep_view();
    let mut out: Vec<String> = Vec::new();
    proof {
        assert(out.deep_view() =~= Seq::<Seq<char>>::empty());
    }
    let mut i: usize = 0;
    while i < a.len()
        invariant
            i <= a@.len(),
            adv == a.deep_view(),
            bdv == b.deep_view(),
            missing_fold(adv, bdv, 0, Seq::<Seq<char>>::empty()) == missing_fold(
                adv,
                bdv,
                i as int,
                out.deep_view(),
            ),
        decreases a@.len() - i,
    {
        let av = chars_of(a[i].as_str());
        proof {
            assert(a.deep_view()[i as int] == a@[i as int]@);
        }
        let mut in_b = false;
        let mut j: usize = 0;
        while j < b.len()
            invariant
                j <= b@.len(),
                av@ == adv[i as int],
                bdv == b.deep_view(),
                in_b == exists|w: int| 0 <= w < j && #[trigger] bdv[w] == av@,
            decreases b@.len() - j,
        {
            let hit = eq_str(&av, b[j].as_str());
            proof {
                assert(b.deep_view()[j as int] == b@[j as int]@);
            }
            if hit {
                in_b = true;
            }
            j = j + 1;
        }
        let mut in_out = false;
        let mut k: usize = 0;
        while k < out.len()
            invariant
                k <= out@.len(),
                av@ == adv[i as int],
                in_out == exists|w: int| 0 <= w < k && #[trigger] out.deep_view()[w] == av@,
            decreases out@.len() - k,
        {
            let hit = eq_str(&av, out[k].as_str());
            proof {
                assert(out.deep_view()[k as int] == out@[k as int]@);
            }
            if hit {
                in_out = true;
            }
            k = k + 1;
        }
        proof {
            if in_b {
                assert(bdv.contains(av@));
            } else {
                assert(!bdv.contains(av@)) by {
                    if bdv.contains(av@) {
                        let w = choose|w: int| 0 <= w < bdv.len() && bdv[w] == av@;
                        assert(bdv[w] == av@);
                    }
                }
            }
            if in_out {
                assert(out.deep_view().contains(av@));
            } else {
                assert(!out.deep_view().contains(av@)) by {
                    if out.deep_view().contains(av@) {
                        let w = choose|w: int|
                            0 <= w < out.deep_view().len() && out.deep_view()[w] == av@;
                        assert(out.deep_view()[w] == av@);
                    }
                }
            }
        }
        if !in_b && !in_out {
            let ghost out_pre = out.deep_view();
            let ghost out_vec_pre = out@;
            out.push(string_from(&av));
            proof {
                assert forall|w: int| 0 <= w < out@.len() implies #[trigger] out.deep_view()[w]
                    == out_pre.push(av@)[w] by {
                    assert(out.deep_view()[w] == out@[w]@);
                    if w < out_vec_pre.len() {
                        assert(out@[w] == out_vec_pre[w]);
                        assert(out_pre[w] == out_vec_pre[w]@);
                    }
                }
                assert(out.deep_view() =~= out_pre.push(av@));
            }
        }
        i = i + 1;
    }
    out
}

} // verus!
