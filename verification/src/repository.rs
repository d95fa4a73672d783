//! The repository: the commit protocol over storage, indexing and the
//! version log.

use vstd::prelude::*;

use crate::clock::now_ts;
use crate::crypto::{hex_of, sha256_of};
use crate::edge::EdgeView;
use crate::errors::RepoError;
use crate::history::{sha256_hex_of_text, snapshot_content, HistoryEntry};
use crate::indexer::{index_document, spec_index_document};
use crate::node::NodeView;
use crate::parser::{add_unique, parse_markdown, spec_parse_markdown};
use crate::storage::{has_object, ObjectRec, Storage};
use crate::text::{chars_of, eq_str, string_from};
use crate::vcs::{commit_preimage, storage_export_hash, CommitInfo, Vcs};

verus! {

/// Whether any of the given strings equals `s`.
pub open spec fn contains_str(items: Seq<Seq<char>>, s: Seq<char>) -> bool {
    exists|i: int| 0 <= i < items.len() && items[i] == s
}

/// The length of the parent prefix of a path: everything before the
/// last separator, or nothing when the path has none.
pub open spec fn parent_len(s: Seq<char>) -> int
    decreases s.len(),
{
    if s.len() == 0 {
        -1
    } else if s.last() == '/' || s.last() == '\\' {
        s.len() - 1
    } else {
        parent_len(s.drop_last())
    }
}

/// The repository root a path resolves to: the path itself when marked,
/// else its nearest marked ancestor.
pub open spec fn spec_resolve_root(path: Seq<char>, markers: Seq<Seq<char>>) -> Option<Seq<char>>
    decreases path.len(),
{
    if contains_str(markers, path) {
        Some(path)
    } else if parent_len(path) >= 0 && parent_len(path) < path.len() {
        spec_resolve_root(path.take(parent_len(path)), markers)
    } else {
        None
    }
}

/// Opening from any descendant of a marked directory succeeds: when a
/// marked ancestor exists, the walk upward finds a marked root.
pub proof fn lemma_open_from_descendant(
    path: Seq<char>,
    anc: Seq<char>,
    markers: Seq<Seq<char>>,
)
    requires
        is_ancestor(path, anc),
        contains_str(markers, anc),
    ensures
        spec_resolve_root(path, markers) is Some,
    decreases path.len(),
{
    if path == anc {
    } else {
        if contains_str(markers, path) {
        } else {
            lemma_open_from_descendant(path.take(parent_len(path)), anc, markers);
        }
    }
}

/// Whether `anc` is the path itself or an iterated parent of it.
pub open spec fn is_ancestor(path: Seq<char>, anc: Seq<char>) -> bool
    decreases path.len(),
{
    path == anc || (parent_len(path) >= 0 && parent_len(path) < path.len() && is_ancestor(
        path.take(parent_len(path)),
        anc,
    ))
}

/// The staged paths rendered one per line, from entry `i` on.
pub open spec fn status_lines(index: Seq<Seq<char>>, i: int) -> Seq<char>
    decreases index.len() - i,
{
    if i < 0 || i >= index.len() {
        Seq::empty()
    } else {
        index[i] + "\n"@ + status_lines(index, i + 1)
    }
}

/// The staged content handed for a path: that of the first pair
/// carrying the path, scanning from `i`.
pub open spec fn file_lookup(
    files: Seq<(Seq<char>, Seq<char>)>,
    path: Seq<char>,
    i: int,
) -> Option<Seq<char>>
    decreases files.len() - i,
{
    if i < 0 || i >= files.len() {
        None
    } else if files[i].0 == path {
        Some(files[i].1)
    } else {
        file_lookup(files, path, i + 1)
    }
}

/// A scan that matched nothing before `i` finds from the start what it
/// finds from `i`.
proof fn lemma_file_lookup_skip(files: Seq<(Seq<char>, Seq<char>)>, path: Seq<char>, i: int)
    requires
        0 <= i <= files.len(),
        forall|j: int| 0 <= j < i ==> (#[trigger] files[j]).0 != path,
    ensures
        file_lookup(files, path, 0) == file_lookup(files, path, i),
    decreases i,
{
    if i > 0 {
        lemma_file_lookup_skip(files, path, i - 1);
    }
}

/// The blobs as plain pairs of hash and bytes.
pub open spec fn objv(objects: Seq<ObjectRec>) -> Seq<(Seq<char>, Seq<u8>)> {
    Seq::new(objects.len(), |i: int| (objects[i].hash@, objects[i].bytes@))
}

/// Whether some pair carries the hash.
pub open spec fn has_objv(ov: Seq<(Seq<char>, Seq<u8>)>, hash: Seq<char>) -> bool {
    exists|i: int| 0 <= i < ov.len() && (#[trigger] ov[i]).0 == hash
}

/// The pairs say of a hash exactly what the blobs do.
proof fn lemma_has_objv(objects: Seq<ObjectRec>, hash: Seq<char>)
    ensures
        has_objv(objv(objects), hash) == has_object(objects, hash),
{
    if has_object(objects, hash) {
        let w = choose|i: int| 0 <= i < objects.len() && (#[trigger] objects[i]).hash@ == hash;
        assert(objv(objects)[w].0 == hash);
    }
    if has_objv(objv(objects), hash) {
        let w = choose|i: int|
            0 <= i < objv(objects).len() && (#[trigger] objv(objects)[i]).0 == hash;
        assert(objects[w].hash@ == hash);
    }
}

/// The blobs after bytes are stored under their hash: unchanged when
/// the hash is already present, else the pair appended.
pub open spec fn objv_after_put(
    ov: Seq<(Seq<char>, Seq<u8>)>,
    content: Seq<u8>,
) -> Seq<(Seq<char>, Seq<u8>)> {
    let h = hex_of(sha256_of(content));
    if has_objv(ov, h) {
        ov
    } else {
        ov.push((h, content))
    }
}

/// The storage after the staged paths from `i` on are committed: a
/// path with handed content has its bytes stored and its note indexed
/// into the graph; one without is skipped.
pub open spec fn commit_fold(
    nodes: Seq<NodeView>,
    edges: Seq<EdgeView>,
    ov: Seq<(Seq<char>, Seq<u8>)>,
    index: Seq<Seq<char>>,
    files: Seq<(Seq<char>, Seq<char>)>,
    i: int,
    now: int,
) -> (Seq<NodeView>, Seq<EdgeView>, Seq<(Seq<char>, Seq<u8>)>)
    decreases index.len() - i,
{
    if i < 0 || i >= index.len() {
        (nodes, edges, ov)
    } else {
        match file_lookup(files, index[i], 0) {
            Some(content) => {
                let ov1 = objv_after_put(ov, spec_str_bytes(content));
                let doc = spec_parse_markdown(content, index[i]);
                let (n2, e2) = spec_index_document(nodes, edges, doc, now);
                commit_fold(n2, e2, ov1, index, files, i + 1, now)
            },
            None => commit_fold(nodes, edges, ov, index, files, i + 1, now),
        }
    }
}

/// What a successful commit leaves behind, all staged notes stamped at
/// one instant: the storage is the fold of staging, the head commit
/// carries the message, the new identifier and the graph hash of the
/// folded graph, the pairing joins the commit links, and the index is
/// cleared.
pub open spec fn commit_post(
    pre: Repository,
    post: Repository,
    files: Seq<(Seq<char>, Seq<char>)>,
    message: Seq<char>,
    oid: Seq<char>,
    now: int,
) -> bool {
    let (n2, e2, ov2) = commit_fold(
        pre.storage.graph_store.nodes_view(),
        pre.storage.graph_store.edges_view(),
        objv(pre.storage.objects@),
        pre.index.deep_view(),
        files,
        0,
        now,
    );
    let ghash = sha256_hex_of_text(crate::nquads::spec_export_nquads(n2, e2));
    let parent = if pre.vcs.commits@.len() > 0 {
        pre.vcs.commits@.last()@.oid
    } else {
        Seq::<char>::empty()
    };
    &&& post.index@.len() == 0
    &&& post.storage.graph_store.nodes_view() == n2
    &&& post.storage.graph_store.edges_view() == e2
    &&& objv(post.storage.objects@) == ov2
    &&& post.storage.root == pre.storage.root
    &&& post.root == pre.root
    &&& post.vcs.commits@.len() == pre.vcs.commits@.len() + 1
    &&& (forall|k: int|
        0 <= k < pre.vcs.commits@.len() ==> post.vcs.commits@[k] == pre.vcs.commits@[k])
    &&& post.vcs.commits@.last()@.message == message
    &&& post.vcs.commits@.last()@.oid == oid
    &&& post.vcs.commits@.last()@.author == pre.vcs.author@
    &&& post.vcs.commits@.last()@.graph_hash == Some(ghash)
    &&& oid == sha256_hex_of_text(commit_preimage(parent, message, pre.vcs.author@, ghash))
    &&& post.vcs.graph_history.commit_links@.len() == pre.vcs.graph_history.commit_links@.len()
        + 1
    &&& post.vcs.graph_history.commit_links@.last().commit_hash@ == oid
    &&& post.vcs.graph_history.commit_links@.last().graph_hash@ == ghash
    &&& (forall|k: int|
        0 <= k < pre.vcs.graph_history.commit_links@.len()
            ==> post.vcs.graph_history.commit_links@[k]
            == pre.vcs.graph_history.commit_links@[k])
    &&& snapshot_content(post.vcs.graph_history.snapshots@, ghash, 0) == Some(
        crate::nquads::spec_export_nquads(n2, e2),
    )
    &&& post.vcs.graph_history.node_hists == pre.vcs.graph_history.node_hists
    &&& post.vcs.graph_history.derivations == pre.vcs.graph_history.derivations
    &&& post.vcs.author == pre.vcs.author
}

/// The repository: root, storage, staging index and version log.
#[derive(Debug)]
pub struct Repository {
    /// The resolved repository root.
    pub root: String,
    /// The storage under the root.
    pub storage: Storage,
    /// The staged relative paths, in order, without duplicates.
    pub index: Vec<String>,
    /// The version log and graph history.
    pub vcs: Vcs,
}

impl Repository {
    /// The repository invariant: the live graph holds the store
    /// invariant.
    pub open spec fn wf(self) -> bool {
        self.storage.graph_store.wf()
    }

    /// Create a repository at a path; refused when the hidden directory
    /// already exists there.
    pub fn init(path: &str, already_exists: bool) -> (r: Result<Repository, RepoError>)
        ensures
            already_exists <==> (r matches Err(e) && e is AlreadyExists),
            r is Ok <==> !already_exists,
            r matches Ok(repo) ==> repo.wf() && repo.root@ == path@ && repo.index@.len() == 0
                && repo.vcs.commits@.len() == 0
                && repo.storage.graph_store.nodes_view() == Seq::<NodeView>::empty()
                && repo.storage.graph_store.edges_view() == Seq::<EdgeView>::empty()
                && repo.storage.objects@.len() == 0,
    {
        if already_exists {
            return Err(RepoError::AlreadyExists);
        }
        let storage = Storage::new(path);
        let pv = chars_of(path);
        Ok(
            Repository {
                root: string_from(&pv),
                storage,
                index: Vec::new(),
                vcs: Vcs::init(path),
            },
        )
    }

    /// Open the repository that `path` lies in: the nearest marked
    /// ancestor (the caller lists the directories holding the hidden
    /// marker). A path under no marked directory is not a repository.
    pub fn open(path: &str, marked_dirs: &Vec<String>) -> (r: Result<Repository, RepoError>)
        ensures
            match r {
                Ok(repo) => spec_resolve_root(path@, marked_dirs.deep_view()) == Some(repo.root@)
                    && repo.wf() && repo.index@.len() == 0,
                Err(e) => e is NotARepository && spec_resolve_root(
                    path@,
                    marked_dirs.deep_view(),
                ) is None,
            },
    {
        match resolve_root(path, marked_dirs) {
            Some(root) => {
                let storage = Storage::new(root.as_str());
                let vcs = Vcs::open(root.as_str());
                Ok(Repository { root, storage, index: Vec::new(), vcs })
            },
            None => Err(RepoError::NotARepository),
        }
    }

    /// The repository root.
    pub fn path(&self) -> (r: &String)
        ensures
            r@ == self.root@,
    {
        &self.root
    }

    /// The storage under the root.
    pub fn storage(&self) -> (r: &Storage)
        ensures
            r == &self.storage,
    {
        &self.storage
    }

    /// The version log.
    pub fn vcs(&self) -> (r: &Vcs)
        ensures
            r == &self.vcs,
    {
        &self.vcs
    }

    /// Stage paths: each handed path joins the index unless already
    /// staged.
    pub fn add(&mut self, paths: &Vec<String>)
        ensures
            final(self).index.deep_view() == add_unique(
                old(self).index.deep_view(),
                paths.deep_view(),
                0,
            ),
            final(self).root == old(self).root,
            final(self).storage == old(self).storage,
            final(self).vcs == old(self).vcs,
    {
        push_unique_paths(&mut self.index, paths);
    }

    /// The staged paths, one per line, or a note that nothing is
    /// staged.
    #[verifier::loop_isolation(false)]
    pub fn status(&self) -> (r: String)
        ensures
            self.index@.len() == 0 ==> r@ == "No changes staged."@,
            self.index@.len() > 0 ==> r@ == "Staged files:\n"@ + status_lines(
                self.index.deep_view(),
                0,
            ),
    {
        if self.index.len() == 0 {
            let v = chars_of("No changes staged.");
            return string_from(&v);
        }
        let mut out: Vec<char> = chars_of("Staged files:\n");
        let ghost base = out@;
        let ghost idxv = self.index.deep_view();
        let mut i: usize = 0;
        while i < self.index.len()
            invariant
                i <= self.index@.len(),
                idxv == self.index.deep_view(),
                base + status_lines(idxv, 0) == out@ + status_lines(idxv, i as int),
            decreases self.index@.len() - i,
        {
            proof {
                assert(self.index.deep_view()[i as int] == self.index@[i as int]@);
            }
            let ghost pre = out@;
            crate::frontmatter::append_str(&mut out, self.index[i].as_str());
            crate::frontmatter::append_str(&mut out, "\n");
            proof {
                assert(out@ =~= pre + (idxv[i as int] + "\n"@));
                assert(pre + status_lines(idxv, i as int) =~= pre + (idxv[i as int] + "\n"@)
                    + status_lines(idxv, i + 1));
            }
            i = i + 1;
        }
        proof {
            assert(status_lines(idxv, idxv.len() as int) =~= Seq::<char>::empty());
            assert(out@ + status_lines(idxv, idxv.len() as int) =~= out@);
        }
        string_from(&out)
    }

    /// Commit the staged files: refuse when nothing is staged; else
    /// store each staged file's content, index its note into the graph,
    /// snapshot the graph, commit, record the pairing, and clear the
    /// index. The caller hands the staged files' contents; a staged
    /// path without one is skipped, as a vanished file would be.
    #[verifier::loop_isolation(false)]
    pub fn commit(&mut self, message: &str, files: &Vec<(String, String)>) -> (r: Result<
        String,
        RepoError,
    >)
        requires
            old(self).wf(),
        ensures
            final(self).wf(),
            (old(self).index@.len() == 0) <==> (r matches Err(e) && e is NothingToCommit),
            r is Ok <==> old(self).index@.len() > 0,
            r is Err ==> *final(self) == *old(self),
            r matches Ok(oid) ==> ({
                &&& final(self).index@.len() == 0
                &&& final(self).vcs.commits@.len() == old(self).vcs.commits@.len() + 1
                &&& final(self).vcs.commits@.last()@.message == message@
                &&& final(self).vcs.commits@.last()@.oid == oid@
                &&& final(self).vcs.commits@.last()@.graph_hash is Some
                &&& exists|now: int|
                    #[trigger] commit_post(
                        *old(self),
                        *final(self),
                        files.deep_view(),
                        message@,
                        oid@,
                        now,
                    )
            }),
            final(self).root == old(self).root,
    {
        if self.index.len() == 0 {
            return Err(RepoError::NothingToCommit);
        }
        let now = now_ts();
        let ghost idxv = self.index.deep_view();
        let ghost fdv = files.deep_view();
        let mut i: usize = 0;
        while i < self.index.len()
            invariant
                i <= self.index@.len(),
                self.storage.graph_store.wf(),
                self.index == old(self).index,
                idxv == self.index.deep_view(),
                fdv == files.deep_view(),
                self.root == old(self).root,
                self.vcs == old(self).vcs,
                self.storage.root == old(self).storage.root,
                commit_fold(
                    old(self).storage.graph_store.nodes_view(),
                    old(self).storage.graph_store.edges_view(),
                    objv(old(self).storage.objects@),
                    idxv,
                    fdv,
                    0,
                    now as int,
                ) == commit_fold(
                    self.storage.graph_store.nodes_view(),
                    self.storage.graph_store.edges_view(),
                    objv(self.storage.objects@),
                    idxv,
                    fdv,
                    i as int,
                    now as int,
                ),
            decreases self.index@.len() - i,
        {
            proof {
                assert(self.index.deep_view()[i as int] == self.index@[i as int]@);
            }
            let path = &self.index[i];
            match lookup_file(files, path.as_str()) {
                Some(content) => {
                    let ghost opre = self.storage.objects@;
                    let bytes = str_bytes(content.as_str());
                    let hash = self.storage.put_object(bytes.as_slice());
                    proof {
                        lemma_has_objv(opre, hex_of(sha256_of(bytes@)));
                        if has_object(opre, hex_of(sha256_of(bytes@))) {
                            assert(objv(self.storage.objects@) == objv_after_put(
                                objv(opre),
                                bytes@,
                            ));
                        } else {
                            assert forall|j: int|
                                0 <= j < opre.len() implies self.storage.objects@[j] == opre[j] by {
                                assert(self.storage.objects@.take(opre.len() as int)[j]
                                    == self.storage.objects@[j]);
                            }
                            assert(objv(self.storage.objects@) =~= objv(opre).push(
                                (hash@, bytes@),
                            ));
                        }
                    }
                    let doc = parse_markdown(content.as_str(), path.as_str());
                    proof {
                        crate::wiki_link::lemma_links_clamped(
                            crate::frontmatter::spec_remaining_after(content@),
                            0,
                        );
                    }
                    let _ = index_document(&mut self.storage.graph_store, &doc, now);
                },
                None => {},
            }
            i = i + 1;
        }
        proof {
            assert(commit_fold(
                self.storage.graph_store.nodes_view(),
                self.storage.graph_store.edges_view(),
                objv(self.storage.objects@),
                idxv,
                fdv,
                idxv.len() as int,
                now as int,
            ) == (
                self.storage.graph_store.nodes_view(),
                self.storage.graph_store.edges_view(),
                objv(self.storage.objects@),
            ));
        }
        let oid = match self.vcs.commit(message, &self.index, &self.storage) {
            Ok(oid) => oid,
            Err(e) => {
                return Err(e);
            },
        };
        self.index = Vec::new();
        proof {
            assert(commit_post(*old(self), *self, fdv, message@, oid@, now as int));
        }
        Ok(oid)
    }

    /// Re-snapshot the graph and amend the head commit; with no prior
    /// commit this creates the first one.
    pub fn amend(&mut self, message: &str) -> (r: Result<(), RepoError>)
        requires
            old(self).wf(),
        ensures
            final(self).wf(),
            r is Ok,
            old(self).vcs.commits@.len() == 0 ==> final(self).vcs.commits@.len() == 1,
            old(self).vcs.commits@.len() > 0 ==> final(self).vcs.commits@.len() == old(self).vcs.commits@.len(),
            final(self).vcs.commits@.len() > 0,
            final(self).vcs.commits@.last()@.message == message@,
            final(self).vcs.commits@.last()@.author == old(self).vcs.author@,
            final(self).vcs.commits@.last()@.graph_hash == Some(
                storage_export_hash(&old(self).storage),
            ),
            final(self).vcs.commits@.last()@.oid == (if old(self).vcs.commits@.len() == 0 {
                sha256_hex_of_text(
                    commit_preimage(
                        Seq::<char>::empty(),
                        message@,
                        old(self).vcs.author@,
                        storage_export_hash(&old(self).storage),
                    ),
                )
            } else {
                sha256_hex_of_text(
                    crate::vcs::amend_preimage(
                        old(self).vcs.commits@.last()@.oid,
                        if old(self).vcs.commits@.len() >= 2 {
                            old(self).vcs.commits@[old(self).vcs.commits@.len() - 2]@.oid
                        } else {
                            Seq::<char>::empty()
                        },
                        message@,
                        old(self).vcs.author@,
                        storage_export_hash(&old(self).storage),
                    ),
                )
            }),
            forall|k: int|
                0 <= k < final(self).vcs.commits@.len() - 1 ==> final(self).vcs.commits@[k]
                    == old(self).vcs.commits@[k],
            final(self).vcs.graph_history.commit_links@.len() == old(self).vcs.graph_history.commit_links@.len() + 1,
            final(self).vcs.graph_history.commit_links@.last().commit_hash@ == final(self).vcs.commits@.last()@.oid,
            final(self).vcs.graph_history.commit_links@.last().graph_hash@
                == storage_export_hash(&old(self).storage),
            forall|k: int|
                0 <= k < old(self).vcs.graph_history.commit_links@.len() ==> final(self).vcs.graph_history.commit_links@[k] == old(self).vcs.graph_history.commit_links@[k],
            snapshot_content(
                final(self).vcs.graph_history.snapshots@,
                storage_export_hash(&old(self).storage),
                0,
            ) == Some(
                crate::nquads::spec_export_nquads(
                    old(self).storage.graph_store.nodes_view(),
                    old(self).storage.graph_store.edges_view(),
                ),
            ),
            final(self).vcs.graph_history.node_hists == old(self).vcs.graph_history.node_hists,
            final(self).vcs.graph_history.derivations == old(self).vcs.graph_history.derivations,
            final(self).vcs.author == old(self).vcs.author,
            final(self).storage == old(self).storage,
            final(self).index == old(self).index,
            final(self).root == old(self).root,
    {
        let mut vcs = Vcs::init("");
        core_swap(&mut vcs, &mut self.vcs);
        let r = vcs.amend(message, &self.storage);
        core_swap(&mut vcs, &mut self.vcs);
        match r {
            Ok(_) => Ok(()),
            Err(e) => Err(e),
        }
    }

    /// The most recent commits, newest first, each carrying its graph
    /// hash.
    pub fn log(&self, limit: usize) -> (r: Vec<CommitInfo>)
        ensures
            r@.len() == (if limit <= self.vcs.commits@.len() {
                limit as int
            } else {
                self.vcs.commits@.len() as int
            }),
            forall|k: int|
                0 <= k < r@.len() ==> #[trigger] r.deep_view()[k] == self.vcs.commits@[
                    self.vcs.commits@.len() - 1 - k]@,
    {
        self.vcs.log(limit)
    }

    /// The head commit, when there is one.
    pub fn last_commit(&self) -> (r: Option<CommitInfo>)
        ensures
            r is Some <==> self.vcs.commits@.len() > 0,
    {
        self.vcs.head_info()
    }

    /// The live graph serialised as N-Quads.
    pub fn export_nquads(&self) -> (r: String)
        requires
            self.wf(),
        ensures
            r@ == crate::nquads::spec_export_nquads(
                self.storage.graph_store.nodes_view(),
                self.storage.graph_store.edges_view(),
            ),
    {
        crate::nquads::export_nquads(self.storage.get_graph())
    }

    /// The most recent commit/graph pairings, newest first.
    pub fn graph_history(&self, limit: usize) -> (r: Vec<HistoryEntry>)
        ensures
            r@.len() == (if limit <= self.vcs.graph_history.commit_links@.len() {
                limit as int
            } else {
                self.vcs.graph_history.commit_links@.len() as int
            }),
            forall|k: int|
                0 <= k < r@.len() ==> (#[trigger] r@[k]).commit_hash@ == self
                    .vcs.graph_history.commit_links@[self.vcs.graph_history.commit_links@.len() - 1
                    - k].commit_hash@ && r@[k].graph_hash@ == self.vcs.graph_history.commit_links@[
                    self.vcs.graph_history.commit_links@.len() - 1 - k].graph_hash@,
            forall|k: int|
                0 <= k < r@.len() ==> (match snapshot_content(
                    self.vcs.graph_history.snapshots@,
                    (#[trigger] r@[k]).graph_hash@,
                    0,
                ) {
                    Some(nq) => r@[k].snapshot matches Some(s) && s.nquads@ == nq && s.hash@
                        == r@[k].graph_hash@,
                    None => r@[k].snapshot is None,
                }),
    {
        self.vcs.graph_history.get_history(limit)
    }

    /// Run a query over the live graph, each solution formatted as
    /// `var = value` pairs joined with `, `.
    pub fn query_graph(&self, query: &str) -> (r: Result<Vec<String>, RepoError>)
        requires
            self.wf(),
        ensures
            match crate::store::spec_query_rows(
                self.storage.graph_store.nodes_view(),
                self.storage.graph_store.edges_view(),
                query@,
            ) {
                Some(rows) => r matches Ok(v) && v.deep_view() == crate::store::spec_row_lines(
                    rows,
                    0,
                ),
                None => r matches Err(e) && e is StoreFailure,
            },
    {
        self.storage.get_graph().sparql_query(query)
    }
}

/// Swap two version logs.
fn core_swap(a: &mut Vcs, b: &mut Vcs)
    ensures
        *final(a) == *old(b),
        *final(b) == *old(a),
{
    core::mem::swap(a, b)
}

/// The UTF-8 bytes of a string.
#[verifier::external_body]
fn str_bytes(s: &str) -> (r: Vec<u8>)
    ensures
        r@ == spec_str_bytes(s@),
{
    s.as_bytes().to_vec()
}

/// What `str_bytes` returns: the UTF-8 encoding depends on the
/// characters alone.
pub uninterp spec fn spec_str_bytes(s: Seq<char>) -> Seq<u8>;

/// The content staged under a path, when the caller handed one.
#[verifier::loop_isolation(false)]
fn lookup_file<'a>(files: &'a Vec<(String, String)>, path: &str) -> (r: Option<&'a String>)
    ensures
        match r {
            Some(c) => file_lookup(files.deep_view(), path@, 0) == Some(c@),
            None => file_lookup(files.deep_view(), path@, 0) is None,
        },
{
    let pv = chars_of(path);
    let ghost fdv = files.deep_view();
    let mut i: usize = 0;
    while i < files.len()
        invariant
            i <= files@.len(),
            pv@ == path@,
            fdv == files.deep_view(),
            forall|j: int| 0 <= j < i ==> (#[trigger] fdv[j]).0 != path@,
        decreases files@.len() - i,
    {
        proof {
            assert(files.deep_view()[i as int] == files@[i as int].deep_view());
        }
        if eq_str(&pv, files[i].0.as_str()) {
            proof {
                lemma_file_lookup_skip(fdv, path@, i as int);
            }
            return Some(&files[i].1);
        }
        i = i + 1;
    }
    proof {
        lemma_file_lookup_skip(fdv, path@, fdv.len() as int);
    }
    None
}

/// Append the paths that the index does not yet hold, in order.
#[verifier::loop_isolation(false)]
fn push_unique_paths(dst: &mut Vec<String>, src: &Vec<String>)
    ensures
        final(dst).deep_view() == add_unique(old(dst).deep_view(), src.deep_view(), 0),
{
    let ghost sv = src.deep_view();
    let mut i: usize = 0;
    while i < src.len()
        invariant
            i <= src.len(),
            sv == src.deep_view(),
            add_unique(old(dst).deep_view(), sv, 0) == add_unique(dst.deep_view(), sv, i as int),
        decreases src.len() - i,
    {
        let mut present = false;
        let mut q: usize = 0;
        while q < dst.len()
            invariant
                q <= dst.len(),
                present == exists|w: int|
                    0 <= w < q && #[trigger] dst.deep_view()[w] == sv[i as int],
            decreases dst.len() - q,
        {
            let item_v = chars_of(src[i].as_str());
            let hit = eq_str(&item_v, dst[q].as_str());
            proof {
                assert(dst.deep_view()[q as int] == dst@[q as int]@);
                assert(sv[i as int] == src@[i as int]@);
            }
            if hit {
                present = true;
            }
            q = q + 1;
        }
        proof {
            if present {
                assert(dst.deep_view().contains(sv[i as int]));
            } else {
                assert(!dst.deep_view().contains(sv[i as int])) by {
                    if dst.deep_view().contains(sv[i as int]) {
                        let w = choose|w: int|
                            0 <= w < dst.deep_view().len() && dst.deep_view()[w] == sv[i as int];
                        assert(dst.deep_view()[w] == sv[i as int]);
                    }
                }
            }
        }
        if !present {
            let ghost d_pre = dst.deep_view();
            let ghost d_vec_pre = dst@;
            dst.push(src[i].clone());
            proof {
                assert(dst@.len() == d_vec_pre.len() + 1);
                assert forall|w: int| 0 <= w < dst@.len() implies #[trigger] dst.deep_view()[w]
                    == d_pre.push(sv[i as int])[w] by {
                    assert(dst.deep_view()[w] == dst@[w]@);
                    if w < d_vec_pre.len() {
                        assert(dst@[w] == d_vec_pre[w]);
                        assert(d_pre[w] == d_vec_pre[w]@);
                    } else {
                        assert(dst@[w] == src@[i as int]);
                        assert(sv[i as int] == src@[i as int]@);
                    }
                }
                assert(dst.deep_view() =~= d_pre.push(sv[i as int]));
            }
        }
        i = i + 1;
    }
}

/// Resolve the nearest marked ancestor of a path.
#[verifier::loop_isolation(false)]
fn resolve_root(path: &str, marked_dirs: &Vec<String>) -> (r: Option<String>)
    ensures
        match r {
            Some(root) => spec_resolve_root(path@, marked_dirs.deep_view()) == Some(root@),
            None => spec_resolve_root(path@, marked_dirs.deep_view()) is None,
        },
    decreases path@.len(),
{
    let pv = chars_of(path);
    let mut present = false;
    let mut q: usize = 0;
    while q < marked_dirs.len()
        invariant
            q <= marked_dirs.len(),
            pv@ == path@,
            present == exists|w: int|
                0 <= w < q && #[trigger] marked_dirs.deep_view()[w] == path@,
        decreases marked_dirs.len() - q,
    {
        let hit = eq_str(&pv, marked_dirs[q].as_str());
        proof {
            assert(marked_dirs.deep_view()[q as int] == marked_dirs@[q as int]@);
        }
        if hit {
            present = true;
        }
        q = q + 1;
    }
    proof {
        if present {
            assert(contains_str(marked_dirs.deep_view(), path@));
        } else {
            assert(!contains_str(marked_dirs.deep_view(), path@)) by {
                if contains_str(marked_dirs.deep_view(), path@) {
                    let w = choose|w: int|
                        0 <= w < marked_dirs.deep_view().len() && marked_dirs.deep_view()[w]
                            == path@;
                    assert(marked_dirs.deep_view()[w] == path@);
                }
            }
        }
    }
    if present {
        return Some(string_from(&pv));
    }
    // find the parent prefix
    let mut j: usize = pv.len();
    while j > 0 && pv[j - 1] != '/' && pv[j - 1] != '\\'
        invariant
            j <= pv@.len(),
            forall|k: int| j <= k < pv@.len() ==> pv@[k] != '/' && pv@[k] != '\\',
        decreases j,
    {
        j = j - 1;
    }
    if j == 0 {
        proof {
            lemma_parent_len_none(path@);
        }
        return None;
    }
    proof {
        lemma_parent_len_at(path@, j - 1 as int);
    }
    let mut parent: Vec<char> = Vec::new();
    let mut k: usize = 0;
    while k < j - 1
        invariant
            k <= j - 1,
            j <= pv@.len(),
            parent@ == pv@.take(j - 1 as int).take(k as int),
        decreases j - 1 - k,
    {
        parent.push(pv[k]);
        proof {
            assert(pv@.take(j - 1 as int).take(k + 1 as int) =~= pv@.take(j - 1 as int).take(
                k as int,
            ).push(pv@[k as int]));
        }
        k = k + 1;
    }
    proof {
        assert(parent@ =~= path@.take(j - 1 as int));
    }
    let parent_s = string_from(&parent);
    resolve_root(parent_s.as_str(), marked_dirs)
}

proof fn lemma_parent_len_none(s: Seq<char>)
    requires
        forall|k: int| 0 <= k < s.len() ==> s[k] != '/' && s[k] != '\\',
    ensures
        parent_len(s) == -1,
    decreases s.len(),
{
    if s.len() > 0 {
        assert(forall|k: int|
            0 <= k < s.drop_last().len() ==> s.drop_last()[k] == s[k] && s[k] != '/' && s[k]
                != '\\');
        lemma_parent_len_none(s.drop_last());
    }
}

proof fn lemma_parent_len_at(s: Seq<char>, w: int)
    requires
        0 <= w < s.len(),
        s[w] == '/' || s[w] == '\\',
        forall|k: int| w < k < s.len() ==> s[k] != '/' && s[k] != '\\',
    ensures
        parent_len(s) == w,
    decreases s.len(),
{
    if w == s.len() - 1 {
    } else {
        assert(forall|k: int| 0 <= k < s.drop_last().len() ==> s.drop_last()[k] == s[k]);
        lemma_parent_len_at(s.drop_last(), w);
    }
}

} // verus!
