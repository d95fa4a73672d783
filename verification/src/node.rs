//! Nodes of the knowledge graph.

use vstd::prelude::*;

use crate::clock::now_ts;
use crate::iri::node_id_for_path;
use crate::text::{ascii_lower, chars_of, eq_str, lower_seq, string_from};

verus! {

/// The fixed node vocabulary.
#[derive(Debug, Clone, Copy, PartialEq, Eq, Hash, Structural)]
pub enum NodeType {
    /// A core idea, theory or definition.
    Concept,
    /// An open question.
    Question,
    /// Data, citations, experimental evidence.
    Evidence,
    /// A book, article or link.
    Resource,
    /// A thinker, author or collaborator.
    Person,
    /// A historical or personal event.
    Event,
    /// A reflection on the notes themselves.
    Meta,
}

impl Default for NodeType {
    /// The default node type is `Concept`.
    fn default() -> (r: Self)
        ensures
            r == NodeType::Concept,
    {
        NodeType::Concept
    }
}

impl NodeType {
    /// The canonical name of the type.
    pub open spec fn spec_name(self) -> Seq<char> {
        match self {
            NodeType::Concept => "Concept"@,
            NodeType::Question => "Question"@,
            NodeType::Evidence => "Evidence"@,
            NodeType::Resource => "Resource"@,
            NodeType::Person => "Person"@,
            NodeType::Event => "Event"@,
            NodeType::Meta => "Meta"@,
        }
    }

    /// The canonical name of the type, as it appears in frontmatter and in
    /// the RDF mapping.
    pub fn name(&self) -> (r: &'static str)
        ensures
            r@ == self.spec_name(),
    {
        match self {
            NodeType::Concept => "Concept",
            NodeType::Question => "Question",
            NodeType::Evidence => "Evidence",
            NodeType::Resource => "Resource",
            NodeType::Person => "Person",
            NodeType::Event => "Event",
            NodeType::Meta => "Meta",
        }
    }
}

/// What `parse_node_type` yields: the case-insensitive match against the
/// seven type names; anything unknown falls back to `Concept`.
pub open spec fn spec_parse_node_type(s: Seq<char>) -> NodeType {
    let l = lower_seq(s);
    if l == "concept"@ {
        NodeType::Concept
    } else if l == "question"@ {
        NodeType::Question
    } else if l == "evidence"@ {
        NodeType::Evidence
    } else if l == "resource"@ {
        NodeType::Resource
    } else if l == "person"@ {
        NodeType::Person
    } else if l == "event"@ {
        NodeType::Event
    } else if l == "meta"@ {
        NodeType::Meta
    } else {
        NodeType::Concept
    }
}

/// Resolve a node type name, case-insensitively; unknown names yield
/// `Concept`.
pub fn parse_node_type(s: &str) -> (r: NodeType)
    ensures
        r == spec_parse_node_type(s@),
{
    let v = chars_of(s);
    let l = ascii_lower(&v);
    if eq_str(&l, "concept") {
        NodeType::Concept
    } else if eq_str(&l, "question") {
        NodeType::Question
    } else if eq_str(&l, "evidence") {
        NodeType::Evidence
    } else if eq_str(&l, "resource") {
        NodeType::Resource
    } else if eq_str(&l, "person") {
        NodeType::Person
    } else if eq_str(&l, "event") {
        NodeType::Event
    } else if eq_str(&l, "meta") {
        NodeType::Meta
    } else {
        NodeType::Concept
    }
}

/// The mathematical model of a node.
#[verifier::ext_equal]
pub struct NodeView {
    /// The node IRI.
    pub id: Seq<char>,
    /// The node type.
    pub node_type: NodeType,
    /// The display title.
    pub title: Seq<char>,
    /// Optional body text.
    pub content: Option<Seq<char>>,
    /// Tags, in insertion order, without duplicates.
    pub tags: Seq<Seq<char>>,
    /// Creation instant, seconds since the Unix epoch.
    pub created_at: int,
    /// Last-update instant, seconds since the Unix epoch.
    pub updated_at: int,
}

impl NodeView {
    /// Tags hold no duplicates.
    pub open spec fn tags_unique(self) -> bool {
        forall|i: int, j: int| 0 <= i < j < self.tags.len() ==> self.tags[i] != self.tags[j]
    }
}

/// A vertex in the knowledge graph: a typed, titled note with tags and
/// timestamps, addressed by its IRI.
#[derive(Debug)]
pub struct Node {
    /// Unique IRI, `urn:memexia:file:<path>` or `urn:memexia:generated:<uuid>`.
    pub id: String,
    /// The node type.
    pub node_type: NodeType,
    /// The display title.
    pub title: String,
    /// Optional body text.
    pub content: Option<String>,
    /// Tags, in insertion order, without duplicates.
    pub tags: Vec<String>,
    /// Creation instant, seconds since the Unix epoch.
    pub created_at: i64,
    /// Last-update instant, seconds since the Unix epoch.
    pub updated_at: i64,
}

impl View for Node {
    type V = NodeView;

    open spec fn view(&self) -> NodeView {
        NodeView {
            id: self.id@,
            node_type: self.node_type,
            title: self.title@,
            content: self.content.deep_view(),
            tags: self.tags.deep_view(),
            created_at: self.created_at as int,
            updated_at: self.updated_at as int,
        }
    }
}

impl DeepView for Node {
    type V = NodeView;

    open spec fn deep_view(&self) -> NodeView {
        self.view()
    }
}

impl Clone for Node {
    /// A clone carries the same model.
    fn clone(&self) -> (r: Self)
        ensures
            r@ == self@,
    {
        let content: Option<String> = match &self.content {
            Some(c) => Some(c.clone()),
            None => None,
        };
        let mut tags: Vec<String> = Vec::new();
        let mut i: usize = 0;
        while i < self.tags.len()
            invariant
                i <= self.tags.len(),
                tags@.len() == i,
                tags.deep_view() == self.tags.deep_view().take(i as int),
            decreases self.tags.len() - i,
        {
            tags.push(self.tags[i].clone());
            proof {
                assert forall|j: int| 0 <= j < i + 1 implies #[trigger] tags.deep_view()[j]
                    == self.tags.deep_view().take(i + 1 as int)[j] by {
                    assert(tags.deep_view()[j] == tags@[j]@);
                    assert(self.tags.deep_view()[j] == self.tags@[j]@);
                    if j < i as int {
                        assert(tags@[j]@ == tags.deep_view().take(i as int)[j]);
                    }
                }
                assert(tags.deep_view() =~= self.tags.deep_view().take(i + 1 as int));
            }
            i = i + 1;
        }
        proof {
            assert(self.tags.deep_view().take(self.tags@.len() as int) =~= self.tags.deep_view());
        }
        let r = Node {
            id: self.id.clone(),
            node_type: self.node_type,
            title: self.title.clone(),
            content,
            tags,
            created_at: self.created_at,
            updated_at: self.updated_at,
        };
        proof {
            assert(r@ == self@) by {
                assert(r@.content == self@.content);
                assert(r@.tags == self@.tags);
            }
        }
        r
    }
}

impl Node {
    /// A new node with the given identity, read at the current instant:
    /// no content, no tags, creation and update instants equal.
    pub fn new(id: &str, node_type: NodeType, title: &str) -> (r: Node)
        ensures
            r@.id == id@,
            r@.node_type == node_type,
            r@.title == title@,
            r@.content is None,
            r@.tags =~= Seq::<Seq<char>>::empty(),
            r@.created_at == r@.updated_at,
    {
        let now = now_ts();
        Node::new_at(id, node_type, title, now)
    }

    /// A new node stamped with the given instant.
    pub fn new_at(id: &str, node_type: NodeType, title: &str, now: i64) -> (r: Node)
        ensures
            r@ == (NodeView {
                id: id@,
                node_type,
                title: title@,
                content: None,
                tags: Seq::<Seq<char>>::empty(),
                created_at: now as int,
                updated_at: now as int,
            }),
    {
        let v = chars_of(id);
        let t = chars_of(title);
        let r = Node {
            id: string_from(&v),
            node_type,
            title: string_from(&t),
            content: None,
            tags: Vec::new(),
            created_at: now,
            updated_at: now,
        };
        proof {
            assert(r@.tags =~= Seq::<Seq<char>>::empty());
            assert(r@ =~= (NodeView {
                id: id@,
                node_type,
                title: title@,
                content: None,
                tags: Seq::<Seq<char>>::empty(),
                created_at: now as int,
                updated_at: now as int,
            }));
        }
        r
    }

    /// The file stem of a relative path: the final component with its
    /// extension removed (a leading dot alone marks no extension).
    pub open spec fn spec_file_stem(path: Seq<char>) -> Seq<char> {
        let name = Node::spec_last_component(path);
        Node::spec_strip_extension(name)
    }

    /// The final path component, after the last slash of either kind.
    pub open spec fn spec_last_component(path: Seq<char>) -> Seq<char>
        decreases path.len(),
    {
        if path.len() == 0 {
            path
        } else if path[path.len() - 1] == '/' || path[path.len() - 1] == '\\' {
            Seq::<char>::empty()
        } else {
            Node::spec_last_component(path.take(path.len() - 1)).push(path[path.len() - 1])
        }
    }

    /// The name with everything from its last dot on removed, unless the
    /// dot is the first character.
    pub open spec fn spec_strip_extension(name: Seq<char>) -> Seq<char>
        decreases name.len(),
    {
        if name.len() <= 1 {
            name
        } else if name[name.len() - 1] == '.' {
            name.take(name.len() - 1)
        } else if Node::spec_has_late_dot(name.take(name.len() - 1)) {
            Node::spec_strip_extension(name.take(name.len() - 1))
        } else {
            name
        }
    }

    /// Whether the name holds a dot after its first character.
    pub open spec fn spec_has_late_dot(name: Seq<char>) -> bool {
        exists|i: int| 1 <= i < name.len() && name[i] == '.'
    }

    /// A node for a file path: the IRI is derived from the path, the title
    /// is the file stem (or "Untitled" when the stem is empty), the type is
    /// `Concept`.
    pub fn from_file_path(path: &str) -> (r: Node)
        ensures
            r@.id == crate::iri::spec_node_id_for_path(path@),
            r@.node_type == NodeType::Concept,
            r@.title == (if Node::spec_file_stem(path@).len() == 0 {
                "Untitled"@
            } else {
                Node::spec_file_stem(path@)
            }),
            r@.content is None,
            r@.tags =~= Seq::<Seq<char>>::empty(),
            r@.created_at == r@.updated_at,
    {
        let id = node_id_for_path(path);
        let stem = file_stem(path);
        let title = if stem.len() == 0 {
            chars_of("Untitled")
        } else {
            stem
        };
        let title_s = string_from(&title);
        Node::new(id.as_str(), NodeType::Concept, title_s.as_str())
    }

    /// Replace the body text and stamp the update instant.
    pub fn update_content(&mut self, content: &str)
        ensures
            exists|now: int|
                #[trigger] content_updated(old(self)@, final(self)@, content@, now),
    {
        let now = now_ts();
        self.update_content_at(content, now);
    }

    /// Replace the body text, stamped with the given instant.
    pub fn update_content_at(&mut self, content: &str, now: i64)
        ensures
            content_updated(old(self)@, final(self)@, content@, now as int),
    {
        let v = chars_of(content);
        self.content = Some(string_from(&v));
        self.updated_at = now;
    }

    /// Add a tag unless it is already present, and stamp the update instant.
    pub fn add_tag(&mut self, tag: &str)
        ensures
            exists|now: int| #[trigger] tag_added(old(self)@, final(self)@, tag@, now),
            old(self)@.tags_unique() ==> final(self)@.tags_unique(),
    {
        let now = now_ts();
        self.add_tag_at(tag, now);
    }

    /// Add a tag unless it is already present, stamped with the given
    /// instant.
    pub fn add_tag_at(&mut self, tag: &str, now: i64)
        ensures
            tag_added(old(self)@, final(self)@, tag@, now as int),
            old(self)@.tags_unique() ==> final(self)@.tags_unique(),
    {
        let mut present = false;
        let mut i: usize = 0;
        while i < self.tags.len()
            invariant
                i <= self.tags.len(),
                present == exists|j: int|
                    0 <= j < i && #[trigger] self.tags.deep_view()[j] == tag@,
            decreases self.tags.len() - i,
        {
            let tv = chars_of(tag);
            let hit = eq_str(&tv, self.tags[i].as_str());
            proof {
                assert(self.tags.deep_view()[i as int] == self.tags@[i as int]@);
            }
            if hit {
                present = true;
            }
            i = i + 1;
        }
        if !present {
            let tv = chars_of(tag);
            self.tags.push(string_from(&tv));
        }
        self.updated_at = now;
        proof {
            if old(self)@.tags.contains(tag@) {
                assert(present);
            } else {
                assert(!present);
                assert(self.tags.deep_view() =~= old(self)@.tags.push(tag@));
            }
            if old(self)@.tags_unique() {
                assert(final(self)@.tags_unique());
            }
        }
    }

    /// The tags with every occurrence of `tag` removed, order kept.
    pub open spec fn spec_without_tag(tags: Seq<Seq<char>>, tag: Seq<char>) -> Seq<Seq<char>> {
        tags.filter(|t: Seq<char>| t != tag)
    }

    /// Remove every occurrence of a tag, keeping the order of the rest, and
    /// stamp the update instant.
    pub fn remove_tag(&mut self, tag: &str)
        ensures
            exists|now: int| #[trigger] tag_removed(old(self)@, final(self)@, tag@, now),
    {
        let now = now_ts();
        self.remove_tag_at(tag, now);
    }

    /// Remove every occurrence of a tag, keeping the order of the rest,
    /// stamped with the given instant.
    pub fn remove_tag_at(&mut self, tag: &str, now: i64)
        ensures
            tag_removed(old(self)@, final(self)@, tag@, now as int),
    {
        let ghost s = self.tags.deep_view();
        let mut kept: Vec<String> = Vec::new();
        let mut i: usize = 0;
        while i < self.tags.len()
            invariant
                i <= self.tags.len(),
                s == self.tags.deep_view(),
                kept.deep_view() == Node::spec_without_tag(s.take(i as int), tag@),
            decreases self.tags.len() - i,
        {
            let tv = chars_of(tag);
            let hit = eq_str(&tv, self.tags[i].as_str());
            proof {
                assert(self.tags.deep_view()[i as int] == self.tags@[i as int]@);
                assert(s.take(i + 1 as int).drop_last() =~= s.take(i as int));
                assert(s.take(i + 1 as int).last() == s[i as int]);
                reveal(Seq::filter);
            }
            if !hit {
                kept.push(self.tags[i].clone());
                proof {
                    assert(kept.deep_view() =~= Node::spec_without_tag(
                        s.take(i + 1 as int),
                        tag@,
                    )) by {
                        assert(kept.deep_view().drop_last() =~= Node::spec_without_tag(
                            s.take(i as int),
                            tag@,
                        ));
                        assert(kept.deep_view().last() == s[i as int]);
                    }
                }
            }
            i = i + 1;
        }
        proof {
            assert(s.take(self.tags@.len() as int) =~= s);
        }
        self.tags = kept;
        self.updated_at = now;
    }
}

/// What replacing the body text leaves: the new content, the update
/// instant stamped, everything else kept.
pub open spec fn content_updated(
    pre: NodeView,
    post: NodeView,
    content: Seq<char>,
    now: int,
) -> bool {
    &&& post.content == Some(content)
    &&& post.id == pre.id
    &&& post.node_type == pre.node_type
    &&& post.title == pre.title
    &&& post.tags == pre.tags
    &&& post.created_at == pre.created_at
    &&& post.updated_at == now
}

/// What adding a tag leaves: the tag appended unless already present,
/// the update instant stamped, everything else kept.
pub open spec fn tag_added(pre: NodeView, post: NodeView, tag: Seq<char>, now: int) -> bool {
    &&& post.tags == (if pre.tags.contains(tag) {
        pre.tags
    } else {
        pre.tags.push(tag)
    })
    &&& post.id == pre.id
    &&& post.node_type == pre.node_type
    &&& post.title == pre.title
    &&& post.content == pre.content
    &&& post.created_at == pre.created_at
    &&& post.updated_at == now
}

/// What removing a tag leaves: every occurrence gone, the order of the
/// rest kept, the update instant stamped, everything else kept.
pub open spec fn tag_removed(pre: NodeView, post: NodeView, tag: Seq<char>, now: int) -> bool {
    &&& post.tags == Node::spec_without_tag(pre.tags, tag)
    &&& post.id == pre.id
    &&& post.node_type == pre.node_type
    &&& post.title == pre.title
    &&& post.content == pre.content
    &&& post.created_at == pre.created_at
    &&& post.updated_at == now
}

/// The file stem of a path, as characters.
pub fn file_stem(path: &str) -> (r: Vec<char>)
    ensures
        r@ == Node::spec_file_stem(path@),
{
    let v = chars_of(path);
    let mut start: usize = v.len();
    while start > 0 && v[start - 1] != '/' && v[start - 1] != '\\'
        invariant
            start <= v.len(),
            v@ == path@,
            forall|j: int| start <= j < v@.len() ==> v@[j] != '/' && v@[j] != '\\',
        decreases start,
    {
        start = start - 1;
    }
    let mut name: Vec<char> = Vec::new();
    let mut i: usize = start;
    while i < v.len()
        invariant
            start <= i <= v.len(),
            v@ == path@,
            name@ == v@.subrange(start as int, i as int),
        decreases v.len() - i,
    {
        name.push(v[i]);
        proof {
            assert(v@.subrange(start as int, i + 1 as int) =~= v@.subrange(
                start as int,
                i as int,
            ).push(v@[i as int]));
        }
        i = i + 1;
    }
    proof {
        lemma_last_component(path@, start as int);
    }
    // strip the extension: drop from the last dot on, unless it would
    // leave nothing (a leading dot marks no extension)
    let mut j: usize = name.len();
    while j > 1 && name[j - 1] != '.'
        invariant
            j <= name.len(),
            forall|k: int| j <= k < name@.len() ==> name@[k] != '.',
        decreases j,
    {
        j = j - 1;
    }
    let dot: usize = if j > 1 {
        j - 1
    } else {
        name.len()
    };
    let mut stem: Vec<char> = Vec::new();
    let mut k: usize = 0;
    while k < dot
        invariant
            k <= dot <= name.len(),
            stem@ == name@.take(k as int),
        decreases dot - k,
    {
        stem.push(name[k]);
        proof {
            assert(name@.take(k + 1 as int) =~= name@.take(k as int).push(name@[k as int]));
        }
        k = k + 1;
    }
    proof {
        lemma_strip_extension(name@, dot as int);
        assert(stem@ =~= name@.take(dot as int));
    }
    stem
}

/// A scan that stopped at `start` has found the final path component.
pub proof fn lemma_last_component_pub(path: Seq<char>, start: int)
    requires
        0 <= start <= path.len(),
        forall|j: int| start <= j < path.len() ==> path[j] != '/' && path[j] != '\\',
        start > 0 ==> path[start - 1] == '/' || path[start - 1] == '\\',
    ensures
        Node::spec_last_component(path) == path.subrange(start, path.len() as int),
{
    lemma_last_component(path, start);
}

proof fn lemma_last_component(path: Seq<char>, start: int)
    requires
        0 <= start <= path.len(),
        forall|j: int| start <= j < path.len() ==> path[j] != '/' && path[j] != '\\',
        start > 0 ==> path[start - 1] == '/' || path[start - 1] == '\\',
    ensures
        Node::spec_last_component(path) == path.subrange(start, path.len() as int),
    decreases path.len() - start,
{
    if start == path.len() {
        if path.len() == 0 {
            assert(Node::spec_last_component(path) =~= path.subrange(start, path.len() as int));
        } else {
            assert(path[path.len() - 1] == '/' || path[path.len() - 1] == '\\');
            assert(Node::spec_last_component(path) =~= path.subrange(start, path.len() as int));
        }
    } else {
        let shorter = path.take(path.len() - 1);
        lemma_last_component(shorter, start);
        assert(Node::spec_last_component(path) == Node::spec_last_component(shorter).push(
            path[path.len() - 1],
        ));
        assert(Node::spec_last_component(path) =~= path.subrange(start, path.len() as int));
    }
}

/// A scan that stopped at the last late dot has found the stem.
pub proof fn lemma_strip_extension_pub(name: Seq<char>, dot: int)
    requires
        dot == name.len() || (1 <= dot < name.len() && name[dot] == '.'),
        dot == name.len() ==> !Node::spec_has_late_dot(name),
        dot < name.len() ==> forall|k: int| dot < k < name.len() ==> name[k] != '.',
    ensures
        Node::spec_strip_extension(name) == name.take(dot),
{
    lemma_strip_extension(name, dot);
}

proof fn lemma_strip_extension(name: Seq<char>, dot: int)
    requires
        dot == name.len() || (1 <= dot < name.len() && name[dot] == '.'),
        dot == name.len() ==> !Node::spec_has_late_dot(name),
        dot < name.len() ==> forall|k: int| dot < k < name.len() ==> name[k] != '.',
    ensures
        Node::spec_strip_extension(name) == name.take(dot),
    decreases name.len(),
{
    if name.len() <= 1 {
        assert(Node::spec_strip_extension(name) =~= name.take(dot));
    } else if dot == name.len() {
        // no late dot anywhere: the last character is not '.', and the
        // prefix has no late dot either
        assert(name[name.len() - 1] != '.');
        assert(!Node::spec_has_late_dot(name.take(name.len() - 1))) by {
            if Node::spec_has_late_dot(name.take(name.len() - 1)) {
                let i = choose|i: int|
                    1 <= i < name.take(name.len() - 1).len() && #[trigger] name.take(
                        name.len() - 1,
                    )[i] == '.';
                assert(name[i] == '.');
            }
        }
        assert(Node::spec_strip_extension(name) =~= name.take(dot));
    } else if dot == name.len() - 1 {
        assert(Node::spec_strip_extension(name) =~= name.take(dot));
    } else {
        let shorter = name.take(name.len() - 1);
        assert(name[name.len() - 1] != '.');
        assert(Node::spec_has_late_dot(shorter)) by {
            assert(shorter[dot] == '.');
        }
        lemma_strip_extension(shorter, dot);
        assert(shorter.take(dot) =~= name.take(dot));
    }
}

} // verus!
