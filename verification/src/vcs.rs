//! The file-version engine port: a linear commit log paired with the
//! graph history.
//!
//! Each commit's identifier is the content hash of its parent, message,
//! author and graph-snapshot hash. An amend replaces the head commit
//! in place, keeping its parents; on an empty log it creates the first
//! commit. Every operation is safe on a log with no commits.

use vstd::prelude::*;

use crate::clock::{format_rfc3339, now_ts, rfc3339_of};
use crate::errors::RepoError;
use crate::history::{sha256_hex_of_text, text_sha256_hex, GraphHistory};
use crate::storage::Storage;
use crate::text::{chars_of, string_from};

verus! {

/// One commit of the log.
#[derive(Debug)]
pub struct CommitInfo {
    /// The commit identifier.
    pub oid: String,
    /// The commit message.
    pub message: String,
    /// The graph-snapshot hash recorded with the commit, when one was.
    pub graph_hash: Option<String>,
    /// The author, `Name <email>`.
    pub author: String,
    /// The commit instant, rendered.
    pub timestamp: String,
}

/// The mathematical model of a commit.
#[verifier::ext_equal]
pub struct CommitView {
    /// The commit identifier.
    pub oid: Seq<char>,
    /// The commit message.
    pub message: Seq<char>,
    /// The recorded graph hash, when one was.
    pub graph_hash: Option<Seq<char>>,
    /// The author.
    pub author: Seq<char>,
    /// The rendered commit instant.
    pub timestamp: Seq<char>,
}

impl View for CommitInfo {
    type V = CommitView;

    open spec fn view(&self) -> CommitView {
        CommitView {
            oid: self.oid@,
            message: self.message@,
            graph_hash: self.graph_hash.deep_view(),
            author: self.author@,
            timestamp: self.timestamp@,
        }
    }
}

impl DeepView for CommitInfo {
    type V = CommitView;

    open spec fn deep_view(&self) -> CommitView {
        self.view()
    }
}

impl Clone for CommitInfo {
    /// A clone carries the same model.
    fn clone(&self) -> (r: Self)
        ensures
            r@ == self@,
    {
        let graph_hash: Option<String> = match &self.graph_hash {
            Some(h) => Some(h.clone()),
            None => None,
        };
        let r = CommitInfo {
            oid: self.oid.clone(),
            message: self.message.clone(),
            graph_hash,
            author: self.author.clone(),
            timestamp: self.timestamp.clone(),
        };
        proof {
            assert(r@ =~= self@);
        }
        r
    }
}

/// What `to_short` renders: the first seven characters of the
/// identifier (all of it when shorter), a dash, and the message.
pub open spec fn spec_to_short(oid: Seq<char>, message: Seq<char>) -> Seq<char> {
    (if oid.len() >= 7 {
        oid.take(7)
    } else {
        oid
    }) + " - "@ + message
}

impl CommitInfo {
    /// The one-line rendering of the commit.
    #[verifier::loop_isolation(false)]
    pub fn to_short(&self) -> (r: String)
        ensures
            r@ == spec_to_short(self.oid@, self.message@),
    {
        let ov = chars_of(self.oid.as_str());
        let mut out: Vec<char> = Vec::new();
        let n: usize = if ov.len() >= 7 {
            7
        } else {
            ov.len()
        };
        let mut i: usize = 0;
        while i < n
            invariant
                i <= n <= ov@.len(),
                out@ == ov@.take(n as int).take(i as int),
            decreases n - i,
        {
            out.push(ov[i]);
            proof {
                assert(ov@.take(n as int).take(i + 1 as int) =~= ov@.take(n as int).take(
                    i as int,
                ).push(ov@[i as int]));
            }
            i = i + 1;
        }
        proof {
            if ov@.len() >= 7 {
                assert(out@ =~= ov@.take(7));
            } else {
                assert(out@ =~= ov@);
            }
        }
        crate::frontmatter::append_str(&mut out, " - ");
        crate::frontmatter::append_str(&mut out, self.message.as_str());
        string_from(&out)
    }
}

/// The text a commit identifier hashes: parent, message, author and
/// graph hash, newline separated.
pub open spec fn commit_preimage(
    parent: Seq<char>,
    message: Seq<char>,
    author: Seq<char>,
    graph_hash: Seq<char>,
) -> Seq<char> {
    parent + "\n"@ + message + "\n"@ + author + "\n"@ + graph_hash
}

/// The text an amended identifier hashes: the replaced head's own
/// identifier comes first, so an amend always makes a fresh commit, as
/// the underlying engine's amend does.
pub open spec fn amend_preimage(
    replaced: Seq<char>,
    parent: Seq<char>,
    message: Seq<char>,
    author: Seq<char>,
    graph_hash: Seq<char>,
) -> Seq<char> {
    replaced + "\n"@ + commit_preimage(parent, message, author, graph_hash)
}

/// The hash the graph serialises to under a storage's live graph.
pub open spec fn storage_export_hash(storage: &Storage) -> Seq<char> {
    sha256_hex_of_text(
        crate::nquads::spec_export_nquads(
            storage.graph_store.nodes_view(),
            storage.graph_store.edges_view(),
        ),
    )
}

/// The version-control manager: the commit log and the graph history.
#[derive(Debug)]
pub struct Vcs {
    /// The commits, oldest first; each commit's parent is the one
    /// before it.
    pub commits: Vec<CommitInfo>,
    /// The graph-history store.
    pub graph_history: GraphHistory,
    /// The author written into commits.
    pub author: String,
}

impl Vcs {
    /// A fresh manager: no commits, an empty history, the default
    /// author.
    pub fn init(_root: &str) -> (r: Vcs)
        ensures
            r.commits@.len() == 0,
            r.author@ == "Memexia User <user@memexia.local>"@,
    {
        let av = chars_of("Memexia User <user@memexia.local>");
        Vcs { commits: Vec::new(), graph_history: GraphHistory::new(), author: string_from(&av) }
    }

    /// Open a manager with no commits loaded yet (the caller fills the
    /// log from persisted state).
    pub fn open(root: &str) -> (r: Vcs)
        ensures
            r.commits@.len() == 0,
            r.author@ == "Memexia User <user@memexia.local>"@,
    {
        Vcs::init(root)
    }

    /// Snapshot the graph, append one commit whose identifier hashes
    /// its parent, message, author and graph hash, and record the
    /// pairing.
    pub fn commit(&mut self, message: &str, files: &Vec<String>, storage: &Storage) -> (r: Result<
        String,
        RepoError,
    >)
        requires
            old(self).storage_ok(storage),
        ensures
            r matches Ok(oid) ==> ({
                &&& final(self).commits@.len() == old(self).commits@.len() + 1
                &&& final(self).commits@.last()@.message == message@
                &&& final(self).commits@.last()@.oid == oid@
                &&& final(self).commits@.last()@.author == old(self).author@
                &&& final(self).commits@.last()@.graph_hash == Some(storage_export_hash(storage))
                &&& oid@ == sha256_hex_of_text(
                    commit_preimage(
                        if old(self).commits@.len() > 0 {
                            old(self).commits@.last()@.oid
                        } else {
                            Seq::<char>::empty()
                        },
                        message@,
                        old(self).author@,
                        storage_export_hash(storage),
                    ),
                )
                &&& forall|k: int|
                    0 <= k < old(self).commits@.len() ==> final(self).commits@[k] == old(self).commits@[k]
                &&& final(self).graph_history.commit_links@.len() == old(self).graph_history.commit_links@.len() + 1
                &&& final(self).graph_history.commit_links@.last().commit_hash@ == oid@
                &&& final(self).graph_history.commit_links@.last().graph_hash@
                    == storage_export_hash(storage)
                &&& forall|k: int|
                    0 <= k < old(self).graph_history.commit_links@.len() ==> final(self).graph_history.commit_links@[k] == old(self).graph_history.commit_links@[k]
                &&& crate::history::snapshot_content(
                    final(self).graph_history.snapshots@,
                    storage_export_hash(storage),
                    0,
                ) == Some(
                    crate::nquads::spec_export_nquads(
                        storage.graph_store.nodes_view(),
                        storage.graph_store.edges_view(),
                    ),
                )
                &&& final(self).graph_history.node_hists == old(self).graph_history.node_hists
                &&& final(self).graph_history.derivations == old(self).graph_history.derivations
            }),
            r is Ok,
            final(self).author == old(self).author,
    {
        let _ = files;
        let graph_hash = self.graph_history.snapshot(storage.get_graph());
        let parent: String = if self.commits.len() > 0 {
            self.commits[self.commits.len() - 1].oid.clone()
        } else {
            String::new()
        };
        let oid = self.make_oid(parent.as_str(), message, graph_hash.as_str());
        let ts = format_rfc3339(now_ts());
        let mv = chars_of(message);
        self.commits.push(
            CommitInfo {
                oid: oid.clone(),
                message: string_from(&mv),
                graph_hash: Some(graph_hash.clone()),
                author: self.author.clone(),
                timestamp: ts,
            },
        );
        self.graph_history.record(oid.as_str(), graph_hash.as_str());
        Ok(oid)
    }

    /// Whether a storage can be committed: its graph holds the store
    /// invariant.
    pub open spec fn storage_ok(self, storage: &Storage) -> bool {
        storage.graph_store.wf()
    }

    /// Hash a commit's preimage into its identifier.
    fn make_oid(&self, parent: &str, message: &str, graph_hash: &str) -> (r: String)
        ensures
            r@ == sha256_hex_of_text(commit_preimage(parent@, message@, self.author@, graph_hash@)),
    {
        let mut pre: Vec<char> = chars_of(parent);
        crate::frontmatter::append_str(&mut pre, "\n");
        crate::frontmatter::append_str(&mut pre, message);
        crate::frontmatter::append_str(&mut pre, "\n");
        crate::frontmatter::append_str(&mut pre, self.author.as_str());
        crate::frontmatter::append_str(&mut pre, "\n");
        crate::frontmatter::append_str(&mut pre, graph_hash);
        let pre_s = string_from(&pre);
        proof {
            assert(pre_s@ =~= commit_preimage(parent@, message@, self.author@, graph_hash@));
        }
        text_sha256_hex(pre_s.as_str())
    }

    /// Snapshot the graph again and replace the head commit in place,
    /// keeping its parents; on an empty log this creates the first
    /// commit. The new identifier hashes the replaced head's identifier
    /// too, so an amend never reproduces the commit it replaces, and
    /// the new pairing joins the commit links.
    pub fn amend(&mut self, message: &str, storage: &Storage) -> (r: Result<(), RepoError>)
        requires
            old(self).storage_ok(storage),
        ensures
            r is Ok,
            old(self).commits@.len() == 0 ==> final(self).commits@.len() == 1,
            old(self).commits@.len() > 0 ==> final(self).commits@.len() == old(self).commits@.len(),
            final(self).commits@.len() > 0,
            final(self).commits@.last()@.message == message@,
            final(self).commits@.last()@.author == old(self).author@,
            final(self).commits@.last()@.graph_hash == Some(storage_export_hash(storage)),
            final(self).commits@.last()@.oid == (if old(self).commits@.len() == 0 {
                sha256_hex_of_text(
                    commit_preimage(
                        Seq::<char>::empty(),
                        message@,
                        old(self).author@,
                        storage_export_hash(storage),
                    ),
                )
            } else {
                sha256_hex_of_text(
                    amend_preimage(
                        old(self).commits@.last()@.oid,
                        if old(self).commits@.len() >= 2 {
                            old(self).commits@[old(self).commits@.len() - 2]@.oid
                        } else {
                            Seq::<char>::empty()
                        },
                        message@,
                        old(self).author@,
                        storage_export_hash(storage),
                    ),
                )
            }),
            forall|k: int|
                0 <= k < final(self).commits@.len() - 1 ==> final(self).commits@[k] == old(self).commits@[k],
            final(self).graph_history.commit_links@.len() == old(self).graph_history.commit_links@.len() + 1,
            final(self).graph_history.commit_links@.last().commit_hash@ == final(self).commits@.last()@.oid,
            final(self).graph_history.commit_links@.last().graph_hash@ == storage_export_hash(
                storage,
            ),
            forall|k: int|
                0 <= k < old(self).graph_history.commit_links@.len() ==> final(self).graph_history.commit_links@[k] == old(self).graph_history.commit_links@[k],
            crate::history::snapshot_content(
                final(self).graph_history.snapshots@,
                storage_export_hash(storage),
                0,
            ) == Some(
                crate::nquads::spec_export_nquads(
                    storage.graph_store.nodes_view(),
                    storage.graph_store.edges_view(),
                ),
            ),
            final(self).graph_history.node_hists == old(self).graph_history.node_hists,
            final(self).graph_history.derivations == old(self).graph_history.derivations,
            final(self).author == old(self).author,
    {
        let graph_hash = self.graph_history.snapshot(storage.get_graph());
        if self.commits.len() == 0 {
            let parent = String::new();
            let oid = self.make_oid(parent.as_str(), message, graph_hash.as_str());
            let ts = format_rfc3339(now_ts());
            let mv = chars_of(message);
            self.commits.push(
                CommitInfo {
                    oid: oid.clone(),
                    message: string_from(&mv),
                    graph_hash: Some(graph_hash.clone()),
                    author: self.author.clone(),
                    timestamp: ts,
                },
            );
            self.graph_history.record(oid.as_str(), graph_hash.as_str());
            return Ok(());
        }
        let n = self.commits.len();
        let replaced = self.commits[n - 1].oid.clone();
        let parent: String = if n >= 2 {
            self.commits[n - 2].oid.clone()
        } else {
            String::new()
        };
        let oid = self.make_amend_oid(
            replaced.as_str(),
            parent.as_str(),
            message,
            graph_hash.as_str(),
        );
        let ts = format_rfc3339(now_ts());
        let mv = chars_of(message);
        self.commits.set(
            n - 1,
            CommitInfo {
                oid: oid.clone(),
                message: string_from(&mv),
                graph_hash: Some(graph_hash.clone()),
                author: self.author.clone(),
                timestamp: ts,
            },
        );
        self.graph_history.record(oid.as_str(), graph_hash.as_str());
        Ok(())
    }

    /// Hash an amend's preimage into its identifier.
    fn make_amend_oid(&self, replaced: &str, parent: &str, message: &str, graph_hash: &str) -> (r:
        String)
        ensures
            r@ == sha256_hex_of_text(
                amend_preimage(replaced@, parent@, message@, self.author@, graph_hash@),
            ),
    {
        let mut pre: Vec<char> = chars_of(replaced);
        crate::frontmatter::append_str(&mut pre, "\n");
        crate::frontmatter::append_str(&mut pre, parent);
        crate::frontmatter::append_str(&mut pre, "\n");
        crate::frontmatter::append_str(&mut pre, message);
        crate::frontmatter::append_str(&mut pre, "\n");
        crate::frontmatter::append_str(&mut pre, self.author.as_str());
        crate::frontmatter::append_str(&mut pre, "\n");
        crate::frontmatter::append_str(&mut pre, graph_hash);
        let pre_s = string_from(&pre);
        proof {
            assert(pre_s@ =~= amend_preimage(
                replaced@,
                parent@,
                message@,
                self.author@,
                graph_hash@,
            ));
        }
        text_sha256_hex(pre_s.as_str())
    }

    /// Append one commit read back from persisted state: the caller
    /// rebuilds a log, oldest first.
    pub fn restore_commit(&mut self, commit: CommitInfo)
        ensures
            final(self).commits@ == old(self).commits@.push(commit),
            final(self).graph_history == old(self).graph_history,
            final(self).author == old(self).author,
    {
        self.commits.push(commit);
    }

    /// The most recent commits, newest first.
    #[verifier::loop_isolation(false)]
    pub fn log(&self, limit: usize) -> (r: Vec<CommitInfo>)
        ensures
            r@.len() == (if limit <= self.commits@.len() {
                limit as int
            } else {
                self.commits@.len() as int
            }),
            forall|k: int|
                0 <= k < r@.len() ==> #[trigger] r.deep_view()[k] == self.commits@[
                    self.commits@.len() - 1 - k]@,
    {
        let mut out: Vec<CommitInfo> = Vec::new();
        let mut i: usize = self.commits.len();
        while i > 0 && out.len() < limit
            invariant
                i <= self.commits@.len(),
                out@.len() == self.commits@.len() - i,
                out@.len() <= limit,
                forall|k: int|
                    0 <= k < out@.len() ==> #[trigger] out.deep_view()[k] == self.commits@[
                        self.commits@.len() - 1 - k]@,
            decreases i,
        {
            let ghost opre = out@;
            let ghost dpre = out.deep_view();
            out.push(self.commits[i - 1].clone());
            proof {
                assert forall|k: int| 0 <= k < out@.len() implies #[trigger] out.deep_view()[k]
                    == self.commits@[self.commits@.len() - 1 - k]@ by {
                    assert(out.deep_view()[k] == out@[k]@);
                    if k < opre.len() {
                        assert(out@[k] == opre[k]);
                        assert(dpre[k] == opre[k]@);
                    }
                }
            }
            i = i - 1;
        }
        out
    }

    /// The head commit, when the log holds one.
    pub fn head_info(&self) -> (r: Option<CommitInfo>)
        ensures
            match r {
                Some(c) => self.commits@.len() > 0 && c@ == self.commits@.last()@,
                None => self.commits@.len() == 0,
            },
    {
        if self.commits.len() == 0 {
            None
        } else {
            Some(self.commits[self.commits.len() - 1].clone())
        }
    }
}

} // verus!
