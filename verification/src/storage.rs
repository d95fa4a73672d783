//! The storage root: the live triple store and the content-addressed
//! object store of one repository.

use vstd::prelude::*;

use crate::crypto::{hash_content, hex_of, sha256_of};
use crate::store::TripleStore;
use crate::text::{chars_of, eq_str, string_from};

verus! {

/// One stored blob: its hash and its bytes.
#[derive(Debug)]
pub struct ObjectRec {
    /// The lowercase hex SHA-256 of the bytes.
    pub hash: String,
    /// The bytes themselves.
    pub bytes: Vec<u8>,
}

/// The storage of one repository: the graph store and the blobs.
#[derive(Debug)]
pub struct Storage {
    /// The repository root path.
    pub root: String,
    /// The live graph.
    pub graph_store: TripleStore,
    /// The content-addressed blobs, in insertion order.
    pub objects: Vec<ObjectRec>,
}

/// Whether some blob carries the hash.
pub open spec fn has_object(objects: Seq<ObjectRec>, hash: Seq<char>) -> bool {
    exists|i: int| 0 <= i < objects.len() && (#[trigger] objects[i]).hash@ == hash
}

/// The index of the first blob carrying the hash, scanning from `i`;
/// the length when none does.
pub open spec fn obj_find(objects: Seq<ObjectRec>, hash: Seq<char>, i: int) -> int
    decreases objects.len() - i,
{
    if i < 0 || i >= objects.len() {
        objects.len() as int
    } else if objects[i].hash@ == hash {
        i
    } else {
        obj_find(objects, hash, i + 1)
    }
}

/// The bytes stored under the hash: those of the first blob carrying
/// it, or nothing.
pub open spec fn object_content(objects: Seq<ObjectRec>, hash: Seq<char>) -> Option<Seq<u8>> {
    let k = obj_find(objects, hash, 0);
    if k < objects.len() {
        Some(objects[k].bytes@)
    } else {
        None
    }
}

/// A scan that matched nothing before `i` finds from the start what it
/// finds from `i`.
pub proof fn lemma_obj_find_skip(objects: Seq<ObjectRec>, hash: Seq<char>, i: int)
    requires
        0 <= i <= objects.len(),
        forall|j: int| 0 <= j < i ==> (#[trigger] objects[j]).hash@ != hash,
    ensures
        obj_find(objects, hash, 0) == obj_find(objects, hash, i),
    decreases i,
{
    if i > 0 {
        lemma_obj_find_skip(objects, hash, i - 1);
    }
}

impl Storage {
    /// Fresh storage rooted at a path: an empty graph, no blobs.
    pub fn new(root: &str) -> (r: Storage)
        ensures
            r.root@ == root@,
            r.graph_store.wf(),
            r.graph_store.nodes_view() =~= Seq::<crate::node::NodeView>::empty(),
            r.graph_store.edges_view() =~= Seq::<crate::edge::EdgeView>::empty(),
            r.objects@.len() == 0,
    {
        let rv = chars_of(root);
        Storage { root: string_from(&rv), graph_store: TripleStore::new(), objects: Vec::new() }
    }

    /// The repository root path.
    pub fn root(&self) -> (r: &String)
        ensures
            r@ == self.root@,
    {
        &self.root
    }

    /// The live graph.
    pub fn get_graph(&self) -> (r: &TripleStore)
        ensures
            r == &self.graph_store,
    {
        &self.graph_store
    }

    /// The live graph (an alias of `get_graph`).
    pub fn graph(&self) -> (r: &TripleStore)
        ensures
            r == &self.graph_store,
    {
        &self.graph_store
    }

    /// Store a blob under its content hash; writing the same content
    /// twice keeps one copy. Yields the hash.
    #[verifier::loop_isolation(false)]
    pub fn put_object(&mut self, content: &[u8]) -> (r: String)
        ensures
            r@ == hex_of(sha256_of(content@)),
            has_object(final(self).objects@, r@),
            final(self).root == old(self).root,
            final(self).graph_store == old(self).graph_store,
            has_object(old(self).objects@, hex_of(sha256_of(content@))) ==> *final(self) == *old(self),
            !has_object(old(self).objects@, hex_of(sha256_of(content@))) ==> ({
                &&& final(self).objects@.len() == old(self).objects@.len() + 1
                &&& final(self).objects@.take(old(self).objects@.len() as int) == old(self).objects@
                &&& final(self).objects@.last().hash@ == r@
                &&& final(self).objects@.last().bytes@ == content@
                &&& object_content(final(self).objects@, r@) == Some(content@)
            }),
    {
        let hash = hash_content(content);
        let hv = chars_of(hash.as_str());
        let mut i: usize = 0;
        while i < self.objects.len()
            invariant
                i <= self.objects@.len(),
                hv@ == hash@,
                self == old(self),
                forall|j: int| 0 <= j < i ==> (#[trigger] self.objects@[j]).hash@ != hash@,
            decreases self.objects@.len() - i,
        {
            if eq_str(&hv, self.objects[i].hash.as_str()) {
                proof {
                    assert(self.objects@[i as int].hash@ == hash@);
                }
                return hash;
            }
            i = i + 1;
        }
        let mut bytes: Vec<u8> = Vec::new();
        let mut k: usize = 0;
        while k < content.len()
            invariant
                k <= content@.len(),
                bytes@ == content@.take(k as int),
                self == old(self),
            decreases content.len() - k,
        {
            bytes.push(content[k]);
            proof {
                assert(content@.take(k + 1 as int) =~= content@.take(k as int).push(
                    content@[k as int],
                ));
            }
            k = k + 1;
        }
        let ghost pre = self.objects@;
        self.objects.push(ObjectRec { hash: hash.clone(), bytes });
        proof {
            assert(final(self).objects@[final(self).objects@.len() - 1].hash@ == hash@);
            assert(self.objects@.take(pre.len() as int) =~= pre);
            assert forall|j: int|
                0 <= j < pre.len() implies (#[trigger] self.objects@[j]).hash@ != hash@ by {
                assert(self.objects@[j] == pre[j]);
            }
            lemma_obj_find_skip(self.objects@, hash@, pre.len() as int);
            assert(obj_find(self.objects@, hash@, pre.len() as int) == pre.len());
        }
        hash
    }

    /// Read a blob back by hash.
    pub fn get_object(&self, hash: &str) -> (r: Option<&Vec<u8>>)
        ensures
            r is Some <==> has_object(self.objects@, hash@),
            match r {
                Some(b) => object_content(self.objects@, hash@) == Some(b@),
                None => object_content(self.objects@, hash@) is None,
            },
    {
        let hv = chars_of(hash);
        let mut i: usize = 0;
        while i < self.objects.len()
            invariant
                i <= self.objects@.len(),
                hv@ == hash@,
                forall|k: int| 0 <= k < i ==> (#[trigger] self.objects@[k]).hash@ != hash@,
            decreases self.objects@.len() - i,
        {
            if eq_str(&hv, self.objects[i].hash.as_str()) {
                proof {
                    assert(self.objects@[i as int].hash@ == hash@);
                    lemma_obj_find_skip(self.objects@, hash@, i as int);
                    assert(obj_find(self.objects@, hash@, i as int) == i);
                }
                return Some(&self.objects[i].bytes);
            }
            i = i + 1;
        }
        proof {
            if has_object(self.objects@, hash@) {
                let w = choose|w: int|
                    0 <= w < self.objects@.len() && (#[trigger] self.objects@[w]).hash@ == hash@;
            }
            lemma_obj_find_skip(self.objects@, hash@, self.objects@.len() as int);
        }
        None
    }
}

} // verus!
