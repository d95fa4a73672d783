//! The rollback manager: read-only restoration plans over the graph
//! history. The manager never writes; callers apply the plans.

use vstd::prelude::*;

use crate::errors::RepoError;
use crate::history::{
    chain_walk, spec_latest, spec_node_entries, spec_node_snapshot, DerivationEntry,
    DerivationView, GraphHistory, HistEntryView, NodeHistoryEntry, NodeSnapshot,
};
use crate::text::{chars_of, eq_str, string_from};

verus! {

/// One step of a restoration plan.
#[derive(Debug)]
pub struct RollbackResult {
    /// The node to restore.
    pub node_id: String,
    /// Its content before the rollback, when known.
    pub from_content: Option<String>,
    /// The content to restore.
    pub to_content: String,
    /// The commit the restored content belongs to.
    pub commit_hash: String,
}

impl RollbackResult {
    /// Whether applying the step would change anything: the contents
    /// differ, or there is no old content and the new one is not empty.
    pub fn has_changes(&self) -> (r: bool)
        ensures
            r == (match self.from_content.deep_view() {
                Some(f) => f != self.to_content@,
                None => self.to_content@.len() != 0,
            }),
    {
        match &self.from_content {
            Some(f) => {
                let fv = chars_of(f.as_str());
                !eq_str(&fv, self.to_content.as_str())
            },
            None => !self.to_content.as_str().is_empty(),
        }
    }
}

/// A summary of what a rollback would touch.
#[derive(Debug)]
pub struct RollbackPreview {
    /// How many nodes the plan covers.
    pub node_count: usize,
    /// The nodes the plan covers.
    pub affected_nodes: Vec<String>,
    /// The earliest commit a step restores to, when known.
    pub earliest_commit: Option<String>,
    /// The latest commit a step restores to, when known.
    pub latest_commit: Option<String>,
}


/// The hash of the first entry belonging to a commit, at or after `i`,
/// if any.
pub open spec fn first_entry_for(es: Seq<HistEntryView>, commit: Seq<char>, i: int) -> Option<
    Seq<char>,
>
    decreases es.len() - i,
{
    if i < 0 || i >= es.len() {
        None
    } else if es[i].commit_hash == commit {
        Some(es[i].hash)
    } else {
        first_entry_for(es, commit, i + 1)
    }
}

/// The content of the first history entry recorded for a commit, if
/// any: the snapshot a derivation step restores to.
pub open spec fn spec_first_at_commit(
    hists: Seq<crate::history::NodeHist>,
    id: Seq<char>,
    commit: Seq<char>,
) -> Option<Seq<char>> {
    match first_entry_for(crate::history::spec_node_entries(hists, id), commit, 0) {
        Some(h) => crate::history::spec_node_snapshot(hists, id, h),
        None => None,
    }
}

proof fn lemma_first_entry_at(es: Seq<HistEntryView>, commit: Seq<char>, a: int)
    requires
        0 <= a <= es.len(),
        forall|k: int| 0 <= k < a ==> (#[trigger] es[k]).commit_hash != commit,
        a < es.len() ==> es[a].commit_hash == commit,
    ensures
        first_entry_for(es, commit, 0) == if a < es.len() {
            Some(es[a].hash)
        } else {
            None::<Seq<char>>
        },
{
    lemma_first_entry_step(es, commit, 0, a);
}

proof fn lemma_first_entry_step(es: Seq<HistEntryView>, commit: Seq<char>, lo: int, a: int)
    requires
        0 <= lo <= a <= es.len(),
        forall|k: int| lo <= k < a ==> (#[trigger] es[k]).commit_hash != commit,
        a < es.len() ==> es[a].commit_hash == commit,
    ensures
        first_entry_for(es, commit, lo) == if a < es.len() {
            Some(es[a].hash)
        } else {
            None::<Seq<char>>
        },
    decreases a - lo,
{
    if lo < a {
        lemma_first_entry_step(es, commit, lo + 1, a);
    }
}

/// Whether some derivation record names the node as its child.
pub open spec fn is_recorded_child(ds: Seq<DerivationView>, id: Seq<char>) -> bool {
    exists|e: int| 0 <= e < ds.len() && (#[trigger] ds[e]).child_id == id
}

/// Whether a chain of at most `fuel` recorded derivations leads from
/// `root` down to `id`.
pub open spec fn is_descendant(
    ds: Seq<DerivationView>,
    root: Seq<char>,
    id: Seq<char>,
    fuel: nat,
) -> bool
    decreases fuel,
{
    fuel > 0 && exists|e: int|
        0 <= e < ds.len() && (#[trigger] ds[e]).child_id == id && (ds[e].parent_id == root
            || is_descendant(ds, root, ds[e].parent_id, (fuel - 1) as nat))
}

/// Whether `id` is a transitive derivation-descendant of `root`.
pub open spec fn reaches(ds: Seq<DerivationView>, root: Seq<char>, id: Seq<char>) -> bool {
    exists|fuel: nat| is_descendant(ds, root, id, fuel)
}

/// A set of ids closed under recorded derivation steps from `root`
/// holds every transitive descendant.
proof fn lemma_reaches_closed(
    ds: Seq<DerivationView>,
    root: Seq<char>,
    id: Seq<char>,
    fuel: nat,
    aff: Seq<Seq<char>>,
)
    requires
        is_descendant(ds, root, id, fuel),
        forall|e: int|
            0 <= e < ds.len() && ((#[trigger] ds[e]).parent_id == root || aff.contains(
                ds[e].parent_id,
            )) ==> aff.contains(ds[e].child_id),
    ensures
        aff.contains(id),
    decreases fuel,
{
    let e = choose|e: int|
        0 <= e < ds.len() && (#[trigger] ds[e]).child_id == id && (ds[e].parent_id == root
            || is_descendant(ds, root, ds[e].parent_id, (fuel - 1) as nat));
    if ds[e].parent_id != root {
        lemma_reaches_closed(ds, root, ds[e].parent_id, (fuel - 1) as nat, aff);
    }
}

/// A member of the derived-children filter is one of the records, with
/// the filtered parent.
proof fn lemma_filter_member_full(ds: Seq<DerivationView>, pid: Seq<char>, i: int)
    requires
        0 <= i < ds.filter(|d: DerivationView| d.parent_id == pid).len(),
    ensures
        ({
            let fl = ds.filter(|d: DerivationView| d.parent_id == pid);
            &&& exists|e: int| 0 <= e < ds.len() && #[trigger] ds[e] == fl[i]
            &&& fl[i].parent_id == pid
        }),
    decreases ds.len(),
{
    reveal(Seq::filter);
    let pred = |d: DerivationView| d.parent_id == pid;
    let fl = ds.filter(pred);
    if ds.len() > 0 {
        if i < ds.drop_last().filter(pred).len() {
            lemma_filter_member_full(ds.drop_last(), pid, i);
            let e = choose|e: int|
                0 <= e < ds.drop_last().len() && #[trigger] ds.drop_last()[e] == ds.drop_last()
                    .filter(pred)[i];
            assert(ds[e] == fl[i]);
        } else {
            assert(fl[i] == ds.last());
            assert(ds[ds.len() - 1] == fl[i]);
        }
    }
}

/// Every record with the filtered parent appears in the filter.
proof fn lemma_filter_complete(ds: Seq<DerivationView>, pid: Seq<char>, e: int)
    requires
        0 <= e < ds.len(),
        ds[e].parent_id == pid,
    ensures
        ds.filter(|d: DerivationView| d.parent_id == pid).contains(ds[e]),
    decreases ds.len(),
{
    reveal(Seq::filter);
    let pred = |d: DerivationView| d.parent_id == pid;
    let fl = ds.filter(pred);
    if e == ds.len() - 1 {
        assert(fl.last() == ds[e]);
        assert(fl[fl.len() - 1] == ds[e]);
    } else {
        lemma_filter_complete(ds.drop_last(), pid, e);
        let w = choose|w: int|
            0 <= w < ds.drop_last().filter(pred).len() && #[trigger] ds.drop_last().filter(
                pred,
            )[w] == ds.drop_last()[e];
        assert(ds.drop_last()[e] == ds[e]);
        assert(fl[w] == ds[e]);
    }
}

/// Distinct ids that are all recorded children are no more numerous
/// than the records.
proof fn lemma_affected_bound(aff: Seq<Seq<char>>, ds: Seq<DerivationView>)
    requires
        forall|a: int, b: int| 0 <= a < b < aff.len() ==> aff[a] != aff[b],
        forall|a: int| 0 <= a < aff.len() ==> is_recorded_child(ds, #[trigger] aff[a]),
    ensures
        aff.len() <= ds.len(),
{
    broadcast use vstd::seq_lib::seq_to_set_is_finite;

    let kids = ds.map_values(|d: DerivationView| d.child_id);
    assert(aff.no_duplicates());
    aff.unique_seq_to_set();
    kids.lemma_cardinality_of_set();
    assert forall|x: Seq<char>| aff.to_set().contains(x) implies kids.to_set().contains(
        x,
    ) by {
        let a = choose|a: int| 0 <= a < aff.len() && aff[a] == x;
        let e = choose|e: int| 0 <= e < ds.len() && (#[trigger] ds[e]).child_id == x;
        assert(kids[e] == x);
        assert(kids.contains(x));
    }
    vstd::set_lib::lemma_len_subset(aff.to_set(), kids.to_set());
}

/// A member of the derived-children filter is a record of the list.
proof fn lemma_derived_member(ds: Seq<DerivationView>, pid: Seq<char>, i: int)
    requires
        0 <= i < ds.filter(|d: DerivationView| d.parent_id == pid).len(),
    ensures
        exists|e: int|
            0 <= e < ds.len() && (#[trigger] ds[e]).child_id == ds.filter(
                |d: DerivationView| d.parent_id == pid,
            )[i].child_id,
    decreases ds.len(),
{
    reveal(Seq::filter);
    let pred = |d: DerivationView| d.parent_id == pid;
    if ds.len() > 0 {
        if i < ds.drop_last().filter(pred).len() {
            lemma_derived_member(ds.drop_last(), pid, i);
            let e0 = choose|e: int|
                0 <= e < ds.drop_last().len() && (#[trigger] ds.drop_last()[e]).child_id == ds
                    .drop_last().filter(pred)[i].child_id;
            assert(ds[e0].child_id == ds.filter(pred)[i].child_id);
        } else {
            assert(ds.filter(pred)[i] == ds.last());
            assert(ds[ds.len() - 1].child_id == ds.filter(pred)[i].child_id);
        }
    }
}

/// The rollback manager: plans restorations from the graph history.
#[derive(Debug)]
pub struct RollbackManager {
    /// The repository root path.
    pub root: String,
    /// The history the plans are read from.
    pub history: GraphHistory,
}

impl RollbackManager {
    /// A manager over a history.
    pub fn new(root: &str, history: GraphHistory) -> (r: RollbackManager)
        ensures
            r.root@ == root@,
            r.history == history,
    {
        let rv = chars_of(root);
        RollbackManager { root: string_from(&rv), history }
    }

    /// The content of one named node snapshot; an unknown snapshot is an
    /// error.
    pub fn rollback_node(&self, node_id: &str, target_hash: &str) -> (r: Result<
        String,
        RepoError,
    >)
        ensures
            match r {
                Ok(c) => spec_node_snapshot(self.history.node_hists@, node_id@, target_hash@)
                    == Some(c@),
                Err(e) => e is StoreFailure && spec_node_snapshot(
                    self.history.node_hists@,
                    node_id@,
                    target_hash@,
                ) is None,
            },
    {
        match self.history.get_node_snapshot(node_id, target_hash) {
            Some(content) => Ok(content),
            None => Err(RepoError::StoreFailure(string_from(&chars_of("snapshot not found")))),
        }
    }

    /// The node's most recent snapshot, when it has one.
    pub fn rollback_node_to_latest(&self, node_id: &str) -> (r: Option<NodeSnapshot>)
        ensures
            match r {
                Some(s) => spec_latest(self.history.node_hists@, node_id@) == Some(
                    (
                        HistEntryView {
                            hash: s.hash@,
                            timestamp: s.timestamp as int,
                            commit_hash: s.commit_hash@,
                        },
                        s.content@,
                    ),
                ) && s.node_id@ == node_id@,
                None => spec_latest(self.history.node_hists@, node_id@) is None,
            },
    {
        self.history.get_latest_node_snapshot(node_id)
    }

    /// The content the node held at the given commit: the last history
    /// entry recorded for that commit wins.
    #[verifier::loop_isolation(false)]
    pub fn rollback_node_to_history(&self, node_id: &str, commit_hash: &str) -> (r: Option<
        String,
    >)
        ensures
            match r {
                Some(c) => crate::history::spec_at_commit(
                    self.history.node_hists@,
                    node_id@,
                    commit_hash@,
                ) == Some(c@),
                None => crate::history::spec_at_commit(
                    self.history.node_hists@,
                    node_id@,
                    commit_hash@,
                ) is None,
            },
    {
        let entries = self.history.get_node_history(node_id);
        let ghost es = entries.deep_view();
        let cv = chars_of(commit_hash);
        let mut i: usize = entries.len();
        proof {
            assert(es.take(es.len() as int) =~= es);
        }
        while i > 0
            invariant
                i <= entries@.len(),
                cv@ == commit_hash@,
                es == entries.deep_view(),
                crate::history::last_entry_for(es, commit_hash@)
                    == crate::history::last_entry_for(es.take(i as int), commit_hash@),
            decreases i,
        {
            proof {
                assert(entries.deep_view()[i - 1 as int] == entries@[i - 1 as int]@);
                assert(es.take(i as int).last() == es[i - 1 as int]);
                assert(es.take(i as int).drop_last() =~= es.take(i - 1 as int));
            }
            if eq_str(&cv, entries[i - 1].commit_hash.as_str()) {
                return self.history.get_node_snapshot(node_id, entries[i - 1].hash.as_str());
            }
            i = i - 1;
        }
        proof {
            assert(es.take(0) =~= Seq::<HistEntryView>::empty());
        }
        None
    }

    /// The recursive derivation descendants of a node, exactly: every
    /// listed id is reached from the node over recorded derivations,
    /// every id so reached is listed, each once; the walk is cut at
    /// repeats, so it always ends.
    #[verifier::loop_isolation(false)]
    #[verifier::rlimit(100)]
    pub fn preview_node_rollback(&self, node_id: &str) -> (r: Vec<String>)
        ensures
            forall|a: int, b: int|
                0 <= a < b < r@.len() ==> (#[trigger] r.deep_view()[a]) != (
                #[trigger] r.deep_view()[b]),
            forall|a: int|
                0 <= a < r@.len() ==> reaches(
                    self.history.derivations.deep_view(),
                    node_id@,
                    #[trigger] r.deep_view()[a],
                ),
            forall|id: Seq<char>|
                #[trigger] reaches(self.history.derivations.deep_view(), node_id@, id)
                    ==> r.deep_view().contains(id),
    {
        let ghost ds = self.history.derivations.deep_view();
        let mut affected: Vec<String> = Vec::new();
        let mut queue: Vec<String> = Vec::new();
        let idv = chars_of(node_id);
        queue.push(string_from(&idv));
        proof {
            assert(queue.deep_view() =~= seq![node_id@] + affected.deep_view());
        }
        let mut qh: usize = 0;
        while qh < queue.len()
            invariant
                qh <= queue@.len(),
                ds == self.history.derivations.deep_view(),
                queue.deep_view() == seq![node_id@] + affected.deep_view(),
                affected@.len() <= ds.len(),
                forall|a: int, b: int|
                    0 <= a < b < affected@.len() ==> (#[trigger] affected.deep_view()[a]) != (
                    #[trigger] affected.deep_view()[b]),
                forall|a: int|
                    0 <= a < affected@.len() ==> is_recorded_child(
                        ds,
                        #[trigger] affected.deep_view()[a],
                    ),
                forall|a: int|
                    0 <= a < affected@.len() ==> reaches(
                        ds,
                        node_id@,
                        #[trigger] affected.deep_view()[a],
                    ),
                forall|i: int, e: int|
                    #![trigger ds[e].parent_id, queue.deep_view()[i]]
                    0 <= i < qh && 0 <= e < ds.len() && ds[e].parent_id == queue.deep_view()[i]
                        ==> affected.deep_view().contains(ds[e].child_id),
            decreases ds.len() - affected@.len(), queue@.len() - qh,
        {
            let ghost qh0 = qh as int;
            let cur = queue[qh].clone();
            proof {
                assert(cur@ == queue.deep_view()[qh0]);
            }
            qh = qh + 1;
            let children = self.history.get_derived_nodes(cur.as_str());
            let ghost alen0 = affected@.len() as int;
            let mut j: usize = 0;
            while j < children.len()
                invariant
                    j <= children@.len(),
                    alen0 <= affected@.len(),
                    qh == qh0 + 1,
                    qh <= queue@.len(),
                    ds == self.history.derivations.deep_view(),
                    cur@ == queue.deep_view()[qh0],
                    queue.deep_view() == seq![node_id@] + affected.deep_view(),
                    affected@.len() <= ds.len(),
                    children.deep_view() == ds.filter(
                        |d: DerivationView| d.parent_id == cur@,
                    ),
                    forall|a: int, b: int|
                        0 <= a < b < affected@.len() ==> (#[trigger] affected.deep_view()[a]) != (
                        #[trigger] affected.deep_view()[b]),
                    forall|a: int|
                        0 <= a < affected@.len() ==> is_recorded_child(
                            ds,
                            #[trigger] affected.deep_view()[a],
                        ),
                    forall|a: int|
                        0 <= a < affected@.len() ==> reaches(
                            ds,
                            node_id@,
                            #[trigger] affected.deep_view()[a],
                        ),
                    forall|i: int, e: int|
                        #![trigger ds[e].parent_id, queue.deep_view()[i]]
                        0 <= i < qh0 && 0 <= e < ds.len() && ds[e].parent_id == queue.deep_view()[
                            i] ==> affected.deep_view().contains(ds[e].child_id),
                    forall|jj: int|
                        0 <= jj < j ==> affected.deep_view().contains(
                            (#[trigger] children.deep_view()[jj]).child_id,
                        ),
                decreases children@.len() - j,
            {
                let child = &children[j].child_id;
                let chv = chars_of(child.as_str());
                proof {
                    assert(children.deep_view()[j as int] == children@[j as int]@);
                    lemma_filter_member_full(ds, cur@, j as int);
                }
                let mut present = false;
                let mut w: usize = 0;
                while w < affected.len()
                    invariant
                        w <= affected@.len(),
                        present == exists|k: int|
                            0 <= k < w && #[trigger] affected.deep_view()[k] == chv@,
                    decreases affected@.len() - w,
                {
                    let hit = eq_str(&chv, affected[w].as_str());
                    proof {
                        assert(affected.deep_view()[w as int] == affected@[w as int]@);
                    }
                    if hit {
                        present = true;
                    }
                    w = w + 1;
                }
                proof {
                    if present {
                        let k = choose|k: int|
                            0 <= k < affected.deep_view().len() && #[trigger] affected.deep_view()[
                                k] == chv@;
                        assert(affected.deep_view().contains(chv@));
                    }
                }
                if !present {
                    let ghost apre = affected.deep_view();
                    let ghost avecpre = affected@;
                    let ghost qpre = queue.deep_view();
                    let ghost qvecpre = queue@;
                    affected.push(child.clone());
                    queue.push(child.clone());
                    proof {
                        lemma_derived_member(ds, cur@, j as int);
                        assert forall|u: int| 0 <= u < affected@.len() implies #[trigger] affected
                            .deep_view()[u] == (if u < avecpre.len() {
                            apre[u]
                        } else {
                            chv@
                        }) by {
                            assert(affected.deep_view()[u] == affected@[u]@);
                            if u < avecpre.len() {
                                assert(affected@[u] == avecpre[u]);
                                assert(apre[u] == avecpre[u]@);
                            }
                        }
                        assert(affected.deep_view() =~= apre.push(chv@));
                        assert forall|u: int| 0 <= u < queue@.len() implies #[trigger] queue
                            .deep_view()[u] == (if u < qvecpre.len() {
                            qpre[u]
                        } else {
                            chv@
                        }) by {
                            assert(queue.deep_view()[u] == queue@[u]@);
                            if u < qvecpre.len() {
                                assert(queue@[u] == qvecpre[u]);
                                assert(qpre[u] == qvecpre[u]@);
                            }
                        }
                        assert(queue.deep_view() =~= seq![node_id@] + affected.deep_view());
                        // the new id is reached from the root
                        let ew = choose|e: int|
                            0 <= e < ds.len() && #[trigger] ds[e] == ds.filter(
                                |d: DerivationView| d.parent_id == cur@,
                            )[j as int];
                        assert(ds[ew].parent_id == cur@ && ds[ew].child_id == chv@);
                        if qh0 == 0 {
                            assert(cur@ == node_id@);
                            assert(is_descendant(ds, node_id@, chv@, 1));
                            assert(reaches(ds, node_id@, chv@));
                        } else {
                            assert(cur@ == apre[qh0 - 1]);
                            assert(reaches(ds, node_id@, cur@));
                            let fu = choose|fu: nat| is_descendant(ds, node_id@, cur@, fu);
                            assert(is_descendant(ds, node_id@, chv@, fu + 1));
                            assert(reaches(ds, node_id@, chv@));
                        }
                        // distinctness
                        assert forall|a: int, b: int|
                            0 <= a < b < affected@.len() implies (
                        #[trigger] affected.deep_view()[a]) != (
                        #[trigger] affected.deep_view()[b]) by {
                            if b < apre.len() {
                            } else {
                                if a < apre.len() {
                                    assert(!(exists|k: int|
                                        0 <= k < avecpre.len() && #[trigger] apre[k] == chv@));
                                    assert(apre[a] != chv@);
                                }
                            }
                        }
                        // each id stays a recorded child
                        assert forall|a: int| 0 <= a < affected@.len() implies is_recorded_child(
                            ds,
                            #[trigger] affected.deep_view()[a],
                        ) by {
                            if a >= apre.len() {
                                assert(ds[ew].child_id == affected.deep_view()[a]);
                            }
                        }
                        lemma_affected_bound(affected.deep_view(), ds);
                        // old closure entries survive the push
                        assert forall|i: int, e: int|
                            #![trigger ds[e].parent_id, queue.deep_view()[i]]
                            0 <= i < qh0 && 0 <= e < ds.len() && ds[e].parent_id == queue
                                .deep_view()[i] implies affected.deep_view().contains(
                            ds[e].child_id,
                        ) by {
                            assert(queue.deep_view()[i] == qpre[i]);
                            assert(apre.contains(ds[e].child_id));
                            let k = choose|k: int|
                                0 <= k < apre.len() && #[trigger] apre[k] == ds[e].child_id;
                            assert(affected.deep_view()[k] == ds[e].child_id);
                        }
                        assert(affected.deep_view().contains(chv@)) by {
                            assert(affected.deep_view()[apre.len() as int] == chv@);
                        }
                        // children already handled stay handled
                        assert forall|jj: int| 0 <= jj < j + 1 implies affected
                            .deep_view().contains(
                            (#[trigger] children.deep_view()[jj]).child_id,
                        ) by {
                            if jj < j {
                                assert(apre.contains(children.deep_view()[jj].child_id));
                                let k = choose|k: int|
                                    0 <= k < apre.len() && #[trigger] apre[k] == children
                                        .deep_view()[jj].child_id;
                                assert(affected.deep_view()[k] == children.deep_view()[
                                    jj].child_id);
                            }
                        }
                    }
                }
                j = j + 1;
            }
            proof {
                // the dequeued id's children are now all recorded, closing it
                assert forall|i: int, e: int|
                    #![trigger ds[e].parent_id, queue.deep_view()[i]]
                    0 <= i < qh && 0 <= e < ds.len() && ds[e].parent_id == queue.deep_view()[i]
                        implies affected.deep_view().contains(ds[e].child_id) by {
                    if i == qh0 {
                        lemma_filter_complete(ds, cur@, e);
                        let fl = ds.filter(|d: DerivationView| d.parent_id == cur@);
                        let jj = choose|jj: int| 0 <= jj < fl.len() && #[trigger] fl[jj] == ds[e];
                        assert(children.deep_view()[jj].child_id == ds[e].child_id);
                    }
                }
            }
        }
        proof {
            assert(qh == queue@.len());
            // every reached id is held: the result is closed under steps
            assert forall|id: Seq<char>| #[trigger] reaches(ds, node_id@, id) implies affected
                .deep_view().contains(id) by {
                assert forall|e: int|
                    0 <= e < ds.len() && ((#[trigger] ds[e]).parent_id == node_id@ || affected
                        .deep_view().contains(ds[e].parent_id)) implies affected
                    .deep_view().contains(ds[e].child_id) by {
                    if ds[e].parent_id == node_id@ {
                        assert(queue.deep_view()[0] == node_id@);
                    } else {
                        let k = choose|k: int|
                            0 <= k < affected.deep_view().len() && #[trigger] affected.deep_view()[
                                k] == ds[e].parent_id;
                        assert(queue.deep_view()[k + 1] == ds[e].parent_id);
                    }
                }
                let fu = choose|fu: nat| is_descendant(ds, node_id@, id, fu);
                lemma_reaches_closed(ds, node_id@, id, fu, affected.deep_view());
            }
        }
        affected
    }

    /// A plan restoring the whole derivation chain of a leaf: the chain
    /// root at its latest snapshot, then each derived node at the first
    /// snapshot its derivation's commit recorded. An unknown root yields
    /// an empty plan.
    #[verifier::loop_isolation(false)]
    pub fn rollback_derivation_chain(&self, leaf_node_id: &str) -> (r: Vec<RollbackResult>)
        ensures
            r@.len() <= self.history.derivations@.len() + 1,
            ({
                let ds = self.history.derivations.deep_view();
                let hists = self.history.node_hists@;
                let chain = chain_walk(
                    ds,
                    leaf_node_id@,
                    Seq::<Seq<char>>::empty(),
                    self.history.derivations@.len() as nat,
                );
                let root = if chain.len() > 0 {
                    chain.last().parent_id
                } else {
                    leaf_node_id@
                };
                match spec_latest(hists, root) {
                    None => r@.len() == 0,
                    Some(latest) => {
                        &&& r@.len() == chain.len() + 1
                        &&& r@[0].node_id@ == root
                        &&& r@[0].from_content is None
                        &&& r@[0].to_content@ == latest.1
                        &&& r@[0].commit_hash@ == latest.0.commit_hash
                        &&& forall|i: int|
                            0 <= i < chain.len() ==> (#[trigger] r@[i + 1]).node_id@ == chain[
                                i].child_id && r@[i + 1].commit_hash@ == chain[i].commit_hash
                                && (match spec_first_at_commit(
                                hists,
                                chain[i].child_id,
                                chain[i].commit_hash,
                            ) {
                                Some(c) => r@[i + 1].from_content.deep_view() == Some(c) && r@[i
                                    + 1].to_content@ == c,
                                None => r@[i + 1].from_content is None && r@[i
                                    + 1].to_content@.len() == 0,
                            })
                    },
                }
            }),
    {
        let ghost ds = self.history.derivations.deep_view();
        let ghost hists = self.history.node_hists@;
        let chain = self.history.build_derivation_chain(leaf_node_id);
        let ghost cw = chain.deep_view();
        let root_id: String = if chain.len() > 0 {
            proof {
                assert(chain.deep_view()[chain@.len() - 1] == chain@[chain@.len() - 1]@);
            }
            chain[chain.len() - 1].parent_id.clone()
        } else {
            let lv = chars_of(leaf_node_id);
            string_from(&lv)
        };
        let mut results: Vec<RollbackResult> = Vec::new();
        match self.history.get_latest_node_snapshot(root_id.as_str()) {
            Some(root_snap) => {
                results.push(
                    RollbackResult {
                        node_id: root_id,
                        from_content: None,
                        to_content: root_snap.content,
                        commit_hash: root_snap.commit_hash,
                    },
                );
                let mut i: usize = 0;
                while i < chain.len()
                    invariant
                        i <= chain@.len(),
                        cw == chain.deep_view(),
                        ds == self.history.derivations.deep_view(),
                        hists == self.history.node_hists@,
                        chain@.len() <= self.history.derivations@.len(),
                        results@.len() == i + 1,
                        results@[0].node_id@ == (if cw.len() > 0 {
                            cw.last().parent_id
                        } else {
                            leaf_node_id@
                        }),
                        results@[0].from_content is None,
                        spec_latest(
                            hists,
                            if cw.len() > 0 {
                                cw.last().parent_id
                            } else {
                                leaf_node_id@
                            },
                        ) matches Some(latest) && results@[0].to_content@ == latest.1
                            && results@[0].commit_hash@ == latest.0.commit_hash,
                        forall|k: int|
                            0 <= k < i ==> (#[trigger] results@[k + 1]).node_id@ == cw[k].child_id
                                && results@[k + 1].commit_hash@ == cw[k].commit_hash && (match
                            spec_first_at_commit(hists, cw[k].child_id, cw[k].commit_hash) {
                                Some(c) => results@[k + 1].from_content.deep_view() == Some(c)
                                    && results@[k + 1].to_content@ == c,
                                None => results@[k + 1].from_content is None && results@[k
                                    + 1].to_content@.len() == 0,
                            }),
                    decreases chain@.len() - i,
                {
                    proof {
                        assert(chain.deep_view()[i as int] == chain@[i as int]@);
                    }
                    let entry = &chain[i];
                    let historical = self.lookup_at_commit(
                        entry.child_id.as_str(),
                        entry.commit_hash.as_str(),
                    );
                    let to_content = match &historical {
                        Some(c) => {
                            let cv = chars_of(c.as_str());
                            string_from(&cv)
                        },
                        None => String::new(),
                    };
                    results.push(
                        RollbackResult {
                            node_id: entry.child_id.clone(),
                            from_content: historical,
                            to_content,
                            commit_hash: entry.commit_hash.clone(),
                        },
                    );
                    i = i + 1;
                }
            },
            None => {},
        }
        results
    }

    /// The content a node's history recorded at the given commit, first
    /// match in record order.
    #[verifier::loop_isolation(false)]
    fn lookup_at_commit(&self, node_id: &str, commit_hash: &str) -> (r: Option<String>)
        ensures
            match r {
                Some(c) => spec_first_at_commit(self.history.node_hists@, node_id@, commit_hash@)
                    == Some(c@),
                None => spec_first_at_commit(
                    self.history.node_hists@,
                    node_id@,
                    commit_hash@,
                ) is None,
            },
    {
        let entries = self.history.get_node_history(node_id);
        let ghost es = entries.deep_view();
        let cv = chars_of(commit_hash);
        let mut i: usize = 0;
        while i < entries.len()
            invariant
                i <= entries@.len(),
                cv@ == commit_hash@,
                es == entries.deep_view(),
                forall|k: int| 0 <= k < i ==> (#[trigger] es[k]).commit_hash != commit_hash@,
            decreases entries@.len() - i,
        {
            let hit = eq_str(&cv, entries[i].commit_hash.as_str());
            proof {
                assert(entries.deep_view()[i as int] == entries@[i as int]@);
            }
            if hit {
                proof {
                    lemma_first_entry_at(es, commit_hash@, i as int);
                }
                return self.history.get_node_snapshot(node_id, entries[i].hash.as_str());
            }
            i = i + 1;
        }
        proof {
            lemma_first_entry_at(es, commit_hash@, es.len() as int);
        }
        None
    }

    /// The full history of a node.
    pub fn get_node_history(&self, node_id: &str) -> (r: Vec<NodeHistoryEntry>)
        ensures
            r.deep_view() == spec_node_entries(self.history.node_hists@, node_id@),
    {
        self.history.get_node_history(node_id)
    }

    /// The derivation chain of a node, parent-ward.
    pub fn get_derivation_chain(&self, node_id: &str) -> (r: Vec<DerivationEntry>)
        ensures
            r.deep_view() == chain_walk(
                self.history.derivations.deep_view(),
                node_id@,
                Seq::<Seq<char>>::empty(),
                self.history.derivations@.len() as nat,
            ),
            r@.len() <= self.history.derivations@.len(),
    {
        self.history.build_derivation_chain(node_id)
    }

    /// Whether the node has any snapshot at all.
    pub fn node_exists(&self, node_id: &str) -> (r: bool)
        ensures
            r == (spec_latest(self.history.node_hists@, node_id@) is Some),
    {
        match self.history.get_latest_node_snapshot(node_id) {
            Some(_) => true,
            None => false,
        }
    }
}

} // verus!
