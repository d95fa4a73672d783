//! N-Quads serialisation of the live graph.
//!
//! Every node attribute becomes one triple under the `memexia:`
//! namespace; every edge becomes one triple whose predicate is the
//! lowercase relation name. An edge with a non-unit strength or a
//! description carries them in its object, `<to>|<rel>:<strength>:<desc>`,
//! pending full reification.

use vstd::prelude::*;

use crate::clock::{format_rfc3339, rfc3339_of};
use crate::crypto::hex_digit;
use crate::edge::EdgeView;
use crate::frontmatter::append_str;
use crate::iri::concat_strs;
use crate::node::{NodeType, NodeView};
use crate::store::TripleStore;
use crate::strength::{clamp_milli, find_from, spec_parse_strength, spec_strength_str, strength_to_string};
use crate::text::{chars_of, string_from};

verus! {

/// The mathematical model of one triple.
#[verifier::ext_equal]
pub struct TripleView {
    /// The subject IRI.
    pub subject: Seq<char>,
    /// The predicate IRI.
    pub predicate: Seq<char>,
    /// The object: an IRI or a literal value.
    pub object: Seq<char>,
}

/// One triple of the RDF mapping.
#[derive(Debug)]
pub struct Triple {
    /// The subject IRI.
    pub subject: String,
    /// The predicate IRI.
    pub predicate: String,
    /// The object: an IRI or a literal value.
    pub object: String,
}

impl View for Triple {
    type V = TripleView;

    open spec fn view(&self) -> TripleView {
        TripleView { subject: self.subject@, predicate: self.predicate@, object: self.object@ }
    }
}

impl DeepView for Triple {
    type V = TripleView;

    open spec fn deep_view(&self) -> TripleView {
        self.view()
    }
}

/// The type triple's object for a node.
pub open spec fn type_object(t: NodeType) -> Seq<char> {
    "memexia:"@ + t.spec_name()
}

/// The tag triples of a node, from tag `i` on.
pub open spec fn tag_triples(id: Seq<char>, tags: Seq<Seq<char>>, i: int) -> Seq<TripleView>
    decreases tags.len() - i,
{
    if i < 0 || i >= tags.len() {
        Seq::<TripleView>::empty()
    } else {
        seq![TripleView { subject: id, predicate: "memexia:tag"@, object: tags[i] }]
            + tag_triples(id, tags, i + 1)
    }
}

/// The triples of one node: type, title, optional content, tags, and the
/// two instants.
pub open spec fn node_triples(n: NodeView) -> Seq<TripleView> {
    seq![
        TripleView { subject: n.id, predicate: "rdf:type"@, object: type_object(n.node_type) },
        TripleView { subject: n.id, predicate: "memexia:title"@, object: n.title },
    ] + (match n.content {
        Some(c) => seq![TripleView { subject: n.id, predicate: "memexia:content"@, object: c }],
        None => Seq::<TripleView>::empty(),
    }) + tag_triples(n.id, n.tags, 0) + seq![
        TripleView {
            subject: n.id,
            predicate: "memexia:createdAt"@,
            object: rfc3339_of(n.created_at),
        },
        TripleView {
            subject: n.id,
            predicate: "memexia:updatedAt"@,
            object: rfc3339_of(n.updated_at),
        },
    ]
}

/// The object of an edge triple: the target IRI, carrying the strength
/// and description when either is off its default.
pub open spec fn edge_object(e: EdgeView) -> Seq<char> {
    if e.strength != 1000 || e.description is Some {
        e.to + "|"@ + e.relation.spec_lower_name() + ":"@ + spec_strength_str(e.strength) + ":"@
            + (match e.description {
            Some(d) => d,
            None => Seq::<char>::empty(),
        })
    } else {
        e.to
    }
}

/// The one triple of an edge.
pub open spec fn edge_triple(e: EdgeView) -> TripleView {
    TripleView {
        subject: e.from,
        predicate: "memexia:"@ + e.relation.spec_lower_name(),
        object: edge_object(e),
    }
}

/// The node triples of the graph, from node `i` on.
pub open spec fn nodes_triples_from(nodes: Seq<NodeView>, i: int) -> Seq<TripleView>
    decreases nodes.len() - i,
{
    if i < 0 || i >= nodes.len() {
        Seq::<TripleView>::empty()
    } else {
        node_triples(nodes[i]) + nodes_triples_from(nodes, i + 1)
    }
}

/// The edge triples of the graph, from edge `i` on.
pub open spec fn edges_triples_from(edges: Seq<EdgeView>, i: int) -> Seq<TripleView>
    decreases edges.len() - i,
{
    if i < 0 || i >= edges.len() {
        Seq::<TripleView>::empty()
    } else {
        seq![edge_triple(edges[i])] + edges_triples_from(edges, i + 1)
    }
}

/// Every triple of the graph: all node triples, then all edge triples.
pub open spec fn spec_triples(nodes: Seq<NodeView>, edges: Seq<EdgeView>) -> Seq<TripleView> {
    nodes_triples_from(nodes, 0) + edges_triples_from(edges, 0)
}

/// Materialise the RDF mapping of the whole store.
#[verifier::loop_isolation(false)]
pub fn triples_of_store(store: &TripleStore) -> (r: Vec<Triple>)
    requires
        store.wf(),
    ensures
        r.deep_view() == spec_triples(store.nodes_view(), store.edges_view()),
{
    let ghost nv = store.nodes_view();
    let ghost ev = store.edges_view();
    let mut out: Vec<Triple> = Vec::new();
    proof {
        assert(out.deep_view() =~= Seq::<TripleView>::empty());
    }
    let mut i: usize = 0;
    while i < store.nodes.len()
        invariant
            i <= store.nodes.len(),
            nv == store.nodes_view(),
            ev == store.edges_view(),
            nodes_triples_from(nv, 0) == out.deep_view() + nodes_triples_from(nv, i as int),
        decreases store.nodes.len() - i,
    {
        proof {
            assert(store.nodes.deep_view()[i as int] == store.nodes@[i as int]@);
        }
        let n = &store.nodes[i];
        let ghost base = out.deep_view();
        push_triple(&mut out, n.id.as_str(), "rdf:type", concat_strs(
            "memexia:",
            n.node_type.name(),
        ).as_str());
        push_triple(&mut out, n.id.as_str(), "memexia:title", n.title.as_str());
        match &n.content {
            Some(c) => {
                push_triple(&mut out, n.id.as_str(), "memexia:content", c.as_str());
            },
            None => {},
        }
        let ghost tag_base = out.deep_view();
        let mut t: usize = 0;
        while t < n.tags.len()
            invariant
                t <= n.tags.len(),
                tag_base + tag_triples(n@.id, n@.tags, 0) == out.deep_view() + tag_triples(
                    n@.id,
                    n@.tags,
                    t as int,
                ),
            decreases n.tags.len() - t,
        {
            proof {
                assert(n.tags.deep_view()[t as int] == n.tags@[t as int]@);
            }
            push_triple(&mut out, n.id.as_str(), "memexia:tag", n.tags[t].as_str());
            t = t + 1;
        }
        let created = format_rfc3339(n.created_at);
        let updated = format_rfc3339(n.updated_at);
        push_triple(&mut out, n.id.as_str(), "memexia:createdAt", created.as_str());
        push_triple(&mut out, n.id.as_str(), "memexia:updatedAt", updated.as_str());
        proof {
            assert(out.deep_view() =~= base + node_triples(nv[i as int]));
            assert(out.deep_view() + nodes_triples_from(nv, i + 1 as int) =~= base + (
            node_triples(nv[i as int]) + nodes_triples_from(nv, i + 1 as int)));
        }
        i = i + 1;
    }
    let mut j: usize = 0;
    while j < store.edges.len()
        invariant
            j <= store.edges.len(),
            nv == store.nodes_view(),
            ev == store.edges_view(),
            nodes_triples_from(nv, 0) + edges_triples_from(ev, 0) == out.deep_view()
                + edges_triples_from(ev, j as int),
        decreases store.edges.len() - j,
    {
        proof {
            assert(store.edges.deep_view()[j as int] == store.edges@[j as int]@);
        }
        let e = &store.edges[j];
        let ghost base = out.deep_view();
        let pred = concat_strs("memexia:", e.relation.lower_name());
        let obj = render_edge_object(e);
        push_triple(&mut out, e.from.as_str(), pred.as_str(), obj.as_str());
        proof {
            assert(out.deep_view() =~= base + seq![edge_triple(ev[j as int])]);
            assert(out.deep_view() + edges_triples_from(ev, j + 1 as int) =~= base + (seq![
                edge_triple(ev[j as int]),
            ] + edges_triples_from(ev, j + 1 as int)));
        }
        j = j + 1;
    }
    out
}

/// Render the object of an edge triple.
#[verifier::loop_isolation(false)]
fn render_edge_object(e: &crate::edge::Edge) -> (r: String)
    requires
        e@.in_range(),
    ensures
        r@ == edge_object(e@),
{
    let has_desc = match &e.description {
        Some(_) => true,
        None => false,
    };
    if e.strength != 1000 || has_desc {
        let mut out: Vec<char> = chars_of(e.to.as_str());
        out.push('|');
        append_str(&mut out, e.relation.lower_name());
        out.push(':');
        let ss = strength_to_string(e.strength);
        let mut k: usize = 0;
        let ghost pre = out@;
        while k < ss.len()
            invariant
                k <= ss@.len(),
                out@ == pre + ss@.take(k as int),
            decreases ss.len() - k,
        {
            out.push(ss[k]);
            proof {
                assert(pre + ss@.take(k + 1 as int) =~= (pre + ss@.take(k as int)).push(
                    ss@[k as int],
                ));
            }
            k = k + 1;
        }
        proof {
            assert(ss@.take(ss@.len() as int) =~= ss@);
        }
        out.push(':');
        match &e.description {
            Some(d) => {
                append_str(&mut out, d.as_str());
            },
            None => {},
        }
        proof {
            reveal_strlit("|");
            reveal_strlit(":");
            assert("|"@ =~= seq!['|']);
            assert(":"@ =~= seq![':']);
            assert(out@ =~= edge_object(e@));
        }
        string_from(&out)
    } else {
        let v = chars_of(e.to.as_str());
        string_from(&v)
    }
}

/// Append one triple built from string slices.
fn push_triple(out: &mut Vec<Triple>, s: &str, p: &str, o: &str)
    ensures
        final(out).deep_view() == old(out).deep_view().push(
            TripleView { subject: s@, predicate: p@, object: o@ },
        ),
{
    let sv = chars_of(s);
    let pv = chars_of(p);
    let ov = chars_of(o);
    let ghost pre = out.deep_view();
    let ghost prevec = out@;
    out.push(
        Triple {
            subject: string_from(&sv),
            predicate: string_from(&pv),
            object: string_from(&ov),
        },
    );
    proof {
        assert forall|q: int| 0 <= q < out@.len() implies #[trigger] out.deep_view()[q] == pre
            .push(TripleView { subject: s@, predicate: p@, object: o@ })[q] by {
            assert(out.deep_view()[q] == out@[q]@);
            if q < prevec.len() {
                assert(out@[q] == prevec[q]);
                assert(pre[q] == prevec[q]@);
            }
        }
        assert(final(out).deep_view() =~= pre.push(
            TripleView { subject: s@, predicate: p@, object: o@ },
        ));
    }
}

/// Whether an object value is written as an IRI rather than a literal.
pub open spec fn object_is_iri(o: Seq<char>) -> bool {
    "http://"@.is_prefix_of(o) || "https://"@.is_prefix_of(o) || "urn:"@.is_prefix_of(o)
}

/// The N-Quads escape of one literal character.
pub open spec fn nq_escape_char(c: char) -> Seq<char> {
    if c == '"' {
        seq!['\\', '"']
    } else if c == '\\' {
        seq!['\\', '\\']
    } else if c == '\n' {
        seq!['\\', 'n']
    } else if c == '\r' {
        seq!['\\', 'r']
    } else if c == '\t' {
        seq!['\\', 't']
    } else if is_control(c) {
        seq!['\\', 'u', hex_digit(((c as u32) / 4096 % 16) as u8), hex_digit(
            ((c as u32) / 256 % 16) as u8,
        ), hex_digit(((c as u32) / 16 % 16) as u8), hex_digit(((c as u32) % 16) as u8)]
    } else {
        seq![c]
    }
}

/// A control character, escaped as `\uXXXX`.
pub open spec fn is_control(c: char) -> bool {
    (c as u32) < 32 || (127 <= (c as u32) && (c as u32) <= 159)
}

/// The escaped form of a literal, from position `i` on.
pub open spec fn nq_escape_from(s: Seq<char>, i: int) -> Seq<char>
    decreases s.len() - i,
{
    if i < 0 || i >= s.len() {
        Seq::<char>::empty()
    } else {
        nq_escape_char(s[i]) + nq_escape_from(s, i + 1)
    }
}

/// A literal in N-Quads form: double-quoted, with its specials escaped.
pub open spec fn spec_escape_string(s: Seq<char>) -> Seq<char> {
    seq!['"'] + nq_escape_from(s, 0) + seq!['"']
}

/// Quote and escape a literal for an N-Quads line.
#[verifier::loop_isolation(false)]
pub fn escape_string(s: &str) -> (r: String)
    ensures
        r@ == spec_escape_string(s@),
{
    let v = chars_of(s);
    let mut out: Vec<char> = Vec::new();
    out.push('"');
    let mut i: usize = 0;
    while i < v.len()
        invariant
            i <= v.len(),
            v@ == s@,
            seq!['"'] + nq_escape_from(s@, 0) == out@ + nq_escape_from(s@, i as int),
        decreases v.len() - i,
    {
        let ghost pre = out@;
        let c = v[i];
        if c == '"' {
            out.push('\\');
            out.push('"');
        } else if c == '\\' {
            out.push('\\');
            out.push('\\');
        } else if c == '\n' {
            out.push('\\');
            out.push('n');
        } else if c == '\r' {
            out.push('\\');
            out.push('r');
        } else if c == '\t' {
            out.push('\\');
            out.push('t');
        } else if (c as u32) < 32 || (127 <= (c as u32) && (c as u32) <= 159) {
            let u = c as u32;
            out.push('\\');
            out.push('u');
            out.push(hex_lower(((u / 4096) % 16) as u8));
            out.push(hex_lower(((u / 256) % 16) as u8));
            out.push(hex_lower(((u / 16) % 16) as u8));
            out.push(hex_lower((u % 16) as u8));
        } else {
            out.push(c);
        }
        proof {
            assert(out@ =~= pre + nq_escape_char(s@[i as int]));
            assert(out@ + nq_escape_from(s@, i + 1 as int) =~= pre + (nq_escape_char(s@[i as int])
                + nq_escape_from(s@, i + 1 as int)));
        }
        i = i + 1;
    }
    out.push('"');
    proof {
        assert(out@ =~= spec_escape_string(s@));
    }
    string_from(&out)
}

/// The lowercase hex digit of a value below 16.
fn hex_lower(v: u8) -> (r: char)
    requires
        v < 16,
    ensures
        r == hex_digit(v),
{
    if v < 10 {
        (('0' as u8) + v) as char
    } else {
        (('a' as u8) + (v - 10)) as char
    }
}

/// One rendered N-Quads line: IRIs in angle brackets, literals quoted,
/// a closing dot, and a newline.
pub open spec fn line_of(t: TripleView) -> Seq<char> {
    "<"@ + t.subject + "> <"@ + t.predicate + "> "@ + (if object_is_iri(t.object) {
        "<"@ + t.object + ">"@
    } else {
        spec_escape_string(t.object)
    }) + " .\n"@
}

/// The rendered lines of the triples from `i` on.
pub open spec fn lines_of(ts: Seq<TripleView>, i: int) -> Seq<char>
    decreases ts.len() - i,
{
    if i < 0 || i >= ts.len() {
        Seq::<char>::empty()
    } else {
        line_of(ts[i]) + lines_of(ts, i + 1)
    }
}

/// What the whole graph serialises to.
pub open spec fn spec_export_nquads(nodes: Seq<NodeView>, edges: Seq<EdgeView>) -> Seq<char> {
    lines_of(spec_triples(nodes, edges), 0)
}

/// A growing N-Quads document.
#[derive(Debug)]
pub struct NQuadsEncoder {
    /// The lines written so far.
    pub out: Vec<char>,
}

impl NQuadsEncoder {
    /// An empty document.
    pub fn new() -> (r: NQuadsEncoder)
        ensures
            r.out@ =~= Seq::<char>::empty(),
    {
        NQuadsEncoder { out: Vec::new() }
    }

    /// Append one triple as a line: IRI objects (`http://`, `https://`,
    /// `urn:` prefixes) in angle brackets, anything else as an escaped
    /// literal.
    pub fn write_triple(&mut self, subject: &str, predicate: &str, object: &str)
        ensures
            final(self).out@ == old(self).out@ + line_of(
                TripleView { subject: subject@, predicate: predicate@, object: object@ },
            ),
    {
        let ghost pre = self.out@;
        append_str(&mut self.out, "<");
        append_str(&mut self.out, subject);
        append_str(&mut self.out, "> <");
        append_str(&mut self.out, predicate);
        append_str(&mut self.out, "> ");
        let ov = chars_of(object);
        if crate::text::has_prefix(&ov, "http://") || crate::text::has_prefix(&ov, "https://")
            || crate::text::has_prefix(&ov, "urn:") {
            append_str(&mut self.out, "<");
            append_str(&mut self.out, object);
            append_str(&mut self.out, ">");
        } else {
            let esc = escape_string(object);
            append_str(&mut self.out, esc.as_str());
        }
        append_str(&mut self.out, " .\n");
        proof {
            assert(final(self).out@ =~= pre + line_of(
                TripleView { subject: subject@, predicate: predicate@, object: object@ },
            ));
        }
    }

    /// The document written so far.
    pub fn contents(&self) -> (r: String)
        ensures
            r@ == self.out@,
    {
        string_from(&self.out)
    }
}

/// Serialise the whole store as N-Quads, one triple per line.
#[verifier::loop_isolation(false)]
pub fn export_nquads(store: &TripleStore) -> (r: String)
    requires
        store.wf(),
    ensures
        r@ == spec_export_nquads(store.nodes_view(), store.edges_view()),
{
    let ts = triples_of_store(store);
    let ghost tv = ts.deep_view();
    let mut enc = NQuadsEncoder::new();
    let mut i: usize = 0;
    while i < ts.len()
        invariant
            i <= ts.len(),
            tv == ts.deep_view(),
            lines_of(tv, 0) == enc.out@ + lines_of(tv, i as int),
        decreases ts.len() - i,
    {
        let ghost pre = enc.out@;
        proof {
            assert(ts.deep_view()[i as int] == ts@[i as int]@);
        }
        enc.write_triple(
            ts[i].subject.as_str(),
            ts[i].predicate.as_str(),
            ts[i].object.as_str(),
        );
        proof {
            assert(enc.out@ + lines_of(tv, i + 1 as int) =~= pre + (line_of(tv[i as int])
                + lines_of(tv, i + 1 as int)));
        }
        i = i + 1;
    }
    enc.contents()
}


/// The characters with every trailing `.` removed.
pub open spec fn drop_trailing_dots(s: Seq<char>) -> Seq<char>
    decreases s.len(),
{
    if s.len() > 0 && s[s.len() - 1] == '.' {
        drop_trailing_dots(s.drop_last())
    } else {
        s
    }
}

/// The value of a hex digit, or 16 when the character is none.
pub open spec fn hex_val(c: char) -> int {
    if '0' <= c && c <= '9' {
        c as int - '0' as int
    } else if 'a' <= c && c <= 'f' {
        c as int - 'a' as int + 10
    } else if 'A' <= c && c <= 'F' {
        c as int - 'A' as int + 10
    } else {
        16
    }
}

/// A Unicode scalar value: what a `\uXXXX` escape may denote.
pub open spec fn is_scalar(v: int) -> bool {
    (0 <= v < 0xD800) || (0xE000 <= v <= 0x10FFFF)
}

/// The unescaped form of a literal body, from position `i` on: the
/// short escapes are decoded, a four-digit `\uXXXX` escape becomes its
/// scalar value (or nothing when invalid), and a lone backslash at the
/// end is dropped.
pub open spec fn nq_unescape_from(s: Seq<char>, i: int) -> Seq<char>
    decreases s.len() - i,
{
    if i < 0 || i >= s.len() {
        Seq::<char>::empty()
    } else if s[i] == '\\' {
        if i + 1 >= s.len() {
            Seq::<char>::empty()
        } else if s[i + 1] == 'u' {
            if i + 6 <= s.len() {
                let v = hex_val(s[i + 2]) * 4096 + hex_val(s[i + 3]) * 256 + hex_val(s[i + 4])
                    * 16 + hex_val(s[i + 5]);
                if hex_val(s[i + 2]) < 16 && hex_val(s[i + 3]) < 16 && hex_val(s[i + 4]) < 16
                    && hex_val(s[i + 5]) < 16 && is_scalar(v) {
                    seq![v as char] + nq_unescape_from(s, i + 6)
                } else {
                    nq_unescape_from(s, i + 6)
                }
            } else {
                Seq::<char>::empty()
            }
        } else {
            seq![
                if s[i + 1] == 'n' {
                    '\n'
                } else if s[i + 1] == 'r' {
                    '\r'
                } else if s[i + 1] == 't' {
                    '\t'
                } else {
                    s[i + 1]
                },
            ] + nq_unescape_from(s, i + 2)
        }
    } else {
        seq![s[i]] + nq_unescape_from(s, i + 1)
    }
}

/// Undo the escapes of a quoted literal body.
#[verifier::loop_isolation(false)]
pub fn unescape_nq(v: &Vec<char>) -> (r: Vec<char>)
    ensures
        r@ == nq_unescape_from(v@, 0),
{
    let ghost s = v@;
    let mut out: Vec<char> = Vec::new();
    let mut i: usize = 0;
    while i < v.len()
        invariant
            i <= v.len(),
            s == v@,
            nq_unescape_from(s, 0) == out@ + nq_unescape_from(s, i as int),
        decreases v.len() - i,
    {
        let ghost pre = out@;
        let c = v[i];
        if c == '\\' {
            if v.len() - i <= 1 {
                proof {
                    assert(nq_unescape_from(s, i as int) =~= Seq::<char>::empty());
                }
                i = v.len();
            } else if v[i + 1] == 'u' {
                if v.len() - i >= 6 {
                    let h1 = hex_value(v[i + 2]);
                    let h2 = hex_value(v[i + 3]);
                    let h3 = hex_value(v[i + 4]);
                    let h4 = hex_value(v[i + 5]);
                    if h1 < 16 && h2 < 16 && h3 < 16 && h4 < 16 {
                        let cp: u32 = (h1 as u32) * 4096 + (h2 as u32) * 256 + (h3 as u32) * 16
                            + (h4 as u32);
                        match char_from_u32(cp) {
                            Some(ch) => {
                                out.push(ch);
                                proof {
                                    assert(out@ + nq_unescape_from(s, i + 6 as int) =~= pre + (
                                    seq![ch] + nq_unescape_from(s, i + 6 as int)));
                                }
                            },
                            None => {},
                        }
                    }
                    i = i + 6;
                } else {
                    proof {
                        assert(nq_unescape_from(s, i as int) =~= Seq::<char>::empty());
                    }
                    i = v.len();
                }
            } else {
                let d = v[i + 1];
                if d == 'n' {
                    out.push('\n');
                } else if d == 'r' {
                    out.push('\r');
                } else if d == 't' {
                    out.push('\t');
                } else {
                    out.push(d);
                }
                proof {
                    assert(out@ + nq_unescape_from(s, i + 2 as int) =~= pre + (nq_unescape_from(
                        s,
                        i as int,
                    ).take(1) + nq_unescape_from(s, i + 2 as int)));
                }
                i = i + 2;
            }
        } else {
            out.push(c);
            proof {
                assert(out@ + nq_unescape_from(s, i + 1 as int) =~= pre + (seq![s[i as int]]
                    + nq_unescape_from(s, i + 1 as int)));
            }
            i = i + 1;
        }
    }
    out
}

/// The value of a hex digit, or 16.
fn hex_value(c: char) -> (r: u8)
    ensures
        r as int == hex_val(c),
{
    if '0' <= c && c <= '9' {
        (c as u8) - ('0' as u8)
    } else if 'a' <= c && c <= 'f' {
        (c as u8) - ('a' as u8) + 10
    } else if 'A' <= c && c <= 'F' {
        (c as u8) - ('A' as u8) + 10
    } else {
        16
    }
}

/// Relies on char::from_u32: the scalar value with the given code, and
/// nothing for a surrogate or out-of-range value.
#[verifier::external_body]
fn char_from_u32(v: u32) -> (r: Option<char>)
    ensures
        match r {
            Some(c) => is_scalar(v as int) && c == (v as int) as char,
            None => !is_scalar(v as int),
        },
{
    char::from_u32(v)
}

/// One parsed term and where the scan continues.
pub open spec fn term_at(s: Seq<char>, i: int) -> (Seq<char>, int) {
    if i < 0 || i >= s.len() {
        (Seq::<char>::empty(), s.len() as int)
    } else if s[i] == '<' {
        let j = crate::strength::find_from(s, '>', i + 1);
        (s.subrange(if i + 1 <= j { i + 1 } else { j }, j), j + 1)
    } else if s[i] == '"' {
        let j = quote_end(s, i + 1);
        (nq_unescape_from(s.subrange(if i + 1 <= j { i + 1 } else { j }, j), 0), j + 1)
    } else {
        let j = crate::strength::find_from(s, ' ', i);
        (s.subrange(if i <= j { i } else { j }, j), j)
    }
}

/// The index of the closing quote: the first unescaped `"` at or after
/// `i`, or the length.
pub open spec fn quote_end(s: Seq<char>, i: int) -> int
    decreases s.len() - i,
{
    if i < 0 || i >= s.len() {
        s.len() as int
    } else if s[i] == '"' {
        i
    } else if s[i] == '\\' && i + 1 < s.len() {
        quote_end(s, i + 2)
    } else {
        quote_end(s, i + 1)
    }
}

/// The terms of a line from position `i` on, at most `n` of them.
pub open spec fn terms_from(s: Seq<char>, i: int, n: int) -> Seq<Seq<char>>
    decreases n, s.len() - i,
{
    if i < 0 || i >= s.len() || n <= 0 {
        Seq::<Seq<char>>::empty()
    } else if s[i] == ' ' {
        terms_from(s, i + 1, n)
    } else {
        let (t, j) = term_at(s, i);
        let j2 = if j > s.len() {
            s.len() as int
        } else {
            j
        };
        if j2 <= i {
            Seq::<Seq<char>>::empty()
        } else {
            seq![t] + terms_from(s, j2, n - 1)
        }
    }
}

/// What `parse_nquads_line` yields: the first three terms of the line,
/// after trailing dots and surrounding whitespace are dropped — angle
/// brackets stripped from IRIs, quoted literals unescaped — or nothing
/// when fewer than three terms are present.
pub open spec fn spec_parse_line(s: Seq<char>) -> Option<(Seq<char>, Seq<char>, Seq<char>)> {
    let core = crate::text::trim_seq(drop_trailing_dots(crate::text::trim_seq(s)));
    let ts = terms_from(core, 0, 3);
    if ts.len() >= 3 {
        Some((ts[0], ts[1], ts[2]))
    } else {
        None
    }
}

/// Parse one N-Quads line into its subject, predicate and object.
#[verifier::loop_isolation(false)]
#[verifier::rlimit(40)]
pub fn parse_nquads_line(line: &str) -> (r: Option<(String, String, String)>)
    ensures
        match spec_parse_line(line@) {
            Some(t) => r matches Some(x) && x.0@ == t.0 && x.1@ == t.1 && x.2@ == t.2,
            None => r is None,
        },
{
    let lv = chars_of(line);
    let t0 = crate::text::trim_chars(&lv);
    let mut end: usize = t0.len();
    proof {
        assert(t0@.take(t0@.len() as int) =~= t0@);
    }
    while end > 0 && t0[end - 1] == '.'
        invariant
            end <= t0@.len(),
            drop_trailing_dots(t0@) == drop_trailing_dots(t0@.take(end as int)),
        decreases end,
    {
        proof {
            assert(t0@.take(end as int).drop_last() =~= t0@.take(end - 1 as int));
        }
        end = end - 1;
    }
    let mut core0: Vec<char> = Vec::new();
    let mut q: usize = 0;
    while q < end
        invariant
            q <= end <= t0@.len(),
            core0@ == t0@.take(end as int).take(q as int),
        decreases end - q,
    {
        core0.push(t0[q]);
        proof {
            assert(t0@.take(end as int).take(q + 1 as int) =~= t0@.take(end as int).take(
                q as int,
            ).push(t0@[q as int]));
        }
        q = q + 1;
    }
    proof {
        assert(core0@ =~= t0@.take(end as int));
        assert(drop_trailing_dots(t0@) == core0@) by {
            if (end as int) < t0@.len() {
            }
        }
    }
    let core = crate::text::trim_chars(&core0);
    let ghost s = core@;
    let mut terms: Vec<String> = Vec::new();
    let mut i: usize = 0;
    while i < core.len() && terms.len() < 3
        invariant
            i <= core.len(),
            s == core@,
            terms@.len() <= 3,
            terms_from(s, 0, 3) == terms.deep_view() + terms_from(s, i as int, 3 - terms@.len()),
        decreases core.len() - i,
    {
        if core[i] == ' ' {
            i = i + 1;
        } else {
            let ghost tpre = terms.deep_view();
            let ghost tvecpre = terms@;
            let (value, next): (Vec<char>, usize) = read_term(&core, i);
            terms.push(string_from(&value));
            proof {
                assert forall|w: int| 0 <= w < terms@.len() implies #[trigger] terms.deep_view()[w]
                    == tpre.push(value@)[w] by {
                    assert(terms.deep_view()[w] == terms@[w]@);
                    if w < tvecpre.len() {
                        assert(terms@[w] == tvecpre[w]);
                        assert(tpre[w] == tvecpre[w]@);
                    }
                }
                assert(terms.deep_view() =~= tpre.push(value@));
                assert(terms.deep_view() + terms_from(s, next as int, 3 - terms@.len()) =~= tpre
                    + (seq![value@] + terms_from(s, next as int, 3 - terms@.len())));
            }
            i = next;
        }
    }
    proof {
        if terms@.len() < 3 {
            assert(terms_from(s, i as int, 3 - terms@.len()) =~= Seq::<Seq<char>>::empty());
        }
    }
    if terms.len() < 3 {
        return None;
    }
    proof {
        assert(terms.deep_view()[0] == terms@[0]@);
        assert(terms.deep_view()[1] == terms@[1]@);
        assert(terms.deep_view()[2] == terms@[2]@);
    }
    let a = terms[0].clone();
    let b = terms[1].clone();
    let c = terms[2].clone();
    Some((a, b, c))
}

/// Read the term starting at `i` (not a space); yields the value and the
/// position after the term.
#[verifier::loop_isolation(false)]
fn read_term(core: &Vec<char>, i: usize) -> (r: (Vec<char>, usize))
    requires
        i < core@.len(),
        core@[i as int] != ' ',
    ensures
        r.0@ == term_at(core@, i as int).0,
        r.1 as int == (if term_at(core@, i as int).1 > core@.len() {
            core@.len() as int
        } else {
            term_at(core@, i as int).1
        }),
        i < r.1 <= core@.len(),
{
    let ghost s = core@;
    let clen = core.len();
    let c = core[i];
    if c == '<' {
        let mut j: usize = i + 1;
        while j < core.len() && core[j] != '>'
            invariant
                i + 1 <= j <= s.len(),
                forall|k: int| i + 1 <= k < j ==> s[k] != '>',
            decreases core.len() - j,
        {
            j = j + 1;
        }
        proof {
            crate::strength::lemma_find_from_range(s, '>', i + 1 as int, j as int);
        }
        let mut value: Vec<char> = Vec::new();
        let mut k: usize = i + 1;
        while k < j
            invariant
                i + 1 <= k <= j <= s.len(),
                value@ == s.subrange(i + 1 as int, k as int),
            decreases j - k,
        {
            value.push(core[k]);
            proof {
                assert(s.subrange(i + 1 as int, k + 1 as int) =~= s.subrange(
                    i + 1 as int,
                    k as int,
                ).push(s[k as int]));
            }
            k = k + 1;
        }
        proof {
            assert(value@ =~= term_at(s, i as int).0);
        }
        (value, if j < core.len() {
            j + 1
        } else {
            core.len()
        })
    } else if c == '"' {
        let mut j: usize = i + 1;
        while j < core.len() && core[j] != '"'
            invariant
                i + 1 <= j <= s.len(),
                quote_end(s, i + 1 as int) == quote_end(s, j as int),
            decreases core.len() - j,
        {
            if core[j] == '\\' && core.len() - j >= 2 {
                j = j + 2;
            } else {
                j = j + 1;
            }
        }
        proof {
            assert(quote_end(s, j as int) == j || quote_end(s, j as int) == s.len());
        }
        let mut inner: Vec<char> = Vec::new();
        let mut k: usize = i + 1;
        while k < j
            invariant
                i + 1 <= k <= j <= s.len(),
                inner@ == s.subrange(i + 1 as int, k as int),
            decreases j - k,
        {
            inner.push(core[k]);
            proof {
                assert(s.subrange(i + 1 as int, k + 1 as int) =~= s.subrange(
                    i + 1 as int,
                    k as int,
                ).push(s[k as int]));
            }
            k = k + 1;
        }
        let value = unescape_nq(&inner);
        proof {
            assert(inner@ =~= s.subrange(i + 1 as int, quote_end(s, i + 1 as int)));
        }
        (value, if j < core.len() {
            j + 1
        } else {
            core.len()
        })
    } else {
        let mut j: usize = i;
        while j < core.len() && core[j] != ' '
            invariant
                i <= j <= s.len(),
                forall|k: int| i <= k < j ==> s[k] != ' ',
            decreases core.len() - j,
        {
            j = j + 1;
        }
        proof {
            crate::strength::lemma_find_from_range(s, ' ', i as int, j as int);
        }
        let mut value: Vec<char> = Vec::new();
        let mut k: usize = i;
        while k < j
            invariant
                i <= k <= j <= s.len(),
                value@ == s.subrange(i as int, k as int),
            decreases j - k,
        {
            value.push(core[k]);
            proof {
                assert(s.subrange(i as int, k + 1 as int) =~= s.subrange(i as int, k as int).push(
                    s[k as int],
                ));
            }
            k = k + 1;
        }
        proof {
            assert(value@ =~= term_at(s, i as int).0);
        }
        (value, j)
    }
}



/// A scan from `i` finds a match no earlier than `i`.
pub proof fn lemma_find_from_lb(s: Seq<char>, c: char, i: int)
    requires
        0 <= i <= s.len(),
    ensures
        crate::strength::find_from(s, c, i) >= i,
    decreases s.len() - i,
{
    if i < s.len() && s[i] != c {
        lemma_find_from_lb(s, c, i + 1);
    }
}

/// What reading the next triple from position `p` yields, and the
/// position after it: blank lines and `#` comments are skipped, the
/// first line that parses yields its triple, a line that does not
/// parse is an error carrying that line, and the end of the document
/// yields nothing.
pub open spec fn spec_read_triple(s: Seq<char>, p: int) -> (Result<
    Option<(Seq<char>, Seq<char>, Seq<char>)>,
    Seq<char>,
>, int)
    decreases s.len() - p,
    via spec_read_triple_dec
{
    if p < 0 || p >= s.len() {
        (Ok(None), s.len() as int)
    } else {
        let (line, next) = line_at(s, p);
        let trimmed = crate::text::trim_seq(line);
        if trimmed.len() == 0 || trimmed[0] == '#' {
            spec_read_triple(s, next)
        } else {
            match spec_parse_line(line) {
                Some(t) => (Ok(Some(t)), next),
                None => (Err(line), next),
            }
        }
    }
}

#[via_fn]
proof fn spec_read_triple_dec(s: Seq<char>, p: int) {
    if 0 <= p < s.len() {
        lemma_find_from_lb(s, '\n', p);
    }
}

/// A line-by-line N-Quads reader.
#[derive(Debug)]
pub struct NQuadsDecoder {
    /// The characters of the document.
    pub text: Vec<char>,
    /// The read position.
    pub pos: usize,
}

impl NQuadsDecoder {
    /// A reader over a document.
    pub fn new(text: &str) -> (r: NQuadsDecoder)
        ensures
            r.text@ == text@,
            r.pos == 0,
    {
        NQuadsDecoder { text: chars_of(text), pos: 0 }
    }

    /// Read the next triple: blank lines and `#` comments are skipped,
    /// the first line that parses yields its triple, a line that does
    /// not parse is an error, and the end of the document yields nothing.
    #[verifier::loop_isolation(false)]
    pub fn read_triple(&mut self) -> (r: Result<
        Option<(String, String, String)>,
        crate::errors::RepoError,
    >)
        requires
            old(self).pos <= old(self).text@.len(),
        ensures
            final(self).text@ == old(self).text@,
            old(self).pos <= final(self).pos <= final(self).text@.len(),
            r matches Err(e) ==> e is ParseFailure,
            r matches Ok(None) ==> final(self).pos == final(self).text@.len(),
            ({
                let (res, np) = spec_read_triple(old(self).text@, old(self).pos as int);
                &&& final(self).pos == np
                &&& match res {
                    Ok(Some(t)) => r matches Ok(Some(v)) && v.0@ == t.0 && v.1@ == t.1 && v.2@
                        == t.2,
                    Ok(None) => r matches Ok(None),
                    Err(line) => r matches Err(e) && (e matches
                        crate::errors::RepoError::ParseFailure(m) && m@ == line),
                }
            }),
    {
        let ghost s = self.text@;
        while self.pos < self.text.len()
            invariant
                old(self).pos <= self.pos <= self.text@.len(),
                self.text@ == s,
                spec_read_triple(s, old(self).pos as int) == spec_read_triple(
                    s,
                    self.pos as int,
                ),
            decreases self.text@.len() - self.pos,
        {
            let start = self.pos;
            let mut nl: usize = start;
            while nl < self.text.len() && self.text[nl] != '\n'
                invariant
                    start <= nl <= self.text@.len(),
                    self.text@ == s,
                    forall|j: int| start <= j < nl ==> s[j] != '\n',
                decreases self.text@.len() - nl,
            {
                nl = nl + 1;
            }
            proof {
                crate::strength::lemma_find_from_range(s, '\n', start as int, nl as int);
            }
            let mut line: Vec<char> = Vec::new();
            let mut i: usize = start;
            while i < nl
                invariant
                    start <= i <= nl <= self.text@.len(),
                    self.text@ == s,
                    line@ == s.subrange(start as int, i as int),
                decreases nl - i,
            {
                line.push(self.text[i]);
                proof {
                    assert(s.subrange(start as int, i + 1 as int) =~= s.subrange(
                        start as int,
                        i as int,
                    ).push(s[i as int]));
                }
                i = i + 1;
            }
            proof {
                assert(line@ =~= line_at(s, start as int).0);
            }
            if nl < self.text.len() {
                self.pos = nl + 1;
            } else {
                self.pos = self.text.len();
            }
            proof {
                assert(self.pos == line_at(s, start as int).1);
            }
            let trimmed = crate::text::trim_chars(&line);
            if trimmed.len() == 0 || trimmed[0] == '#' {
                continue ;
            }
            let line_s = string_from(&line);
            match parse_nquads_line(line_s.as_str()) {
                Some(t) => {
                    return Ok(Some(t));
                },
                None => {
                    return Err(crate::errors::RepoError::ParseFailure(line_s));
                },
            }
        }
        Ok(None)
    }
}

/// The line starting at `p` and the position after its newline.
pub open spec fn line_at(s: Seq<char>, p: int) -> (Seq<char>, int) {
    let nl = crate::strength::find_from(s, '\n', p);
    (
        s.subrange(
            if 0 <= p <= nl {
                p
            } else {
                nl
            },
            nl,
        ),
        if nl < s.len() {
            nl + 1
        } else {
            s.len() as int
        },
    )
}

/// A scan finds a match no later than the length.
pub proof fn lemma_find_from_ub(s: Seq<char>, c: char, i: int)
    requires
        0 <= i <= s.len(),
    ensures
        crate::strength::find_from(s, c, i) <= s.len(),
    decreases s.len() - i,
{
    if i < s.len() && s[i] != c {
        lemma_find_from_ub(s, c, i + 1);
    }
}

/// Reading a triple never moves backwards, and never past the end.
pub proof fn lemma_read_triple_pos(s: Seq<char>, p: int)
    requires
        0 <= p <= s.len(),
    ensures
        p <= spec_read_triple(s, p).1 <= s.len(),
    decreases s.len() - p,
{
    if p < s.len() {
        lemma_find_from_lb(s, '\n', p);
        lemma_find_from_ub(s, '\n', p);
        let (line, next) = line_at(s, p);
        let trimmed = crate::text::trim_seq(line);
        if trimmed.len() == 0 || trimmed[0] == '#' {
            lemma_read_triple_pos(s, next);
        }
    }
}

/// Whether a whole document reads to its end without a line that
/// fails to parse.
pub open spec fn spec_import_ok(s: Seq<char>, p: int) -> bool
    decreases s.len() - p,
    via spec_import_ok_dec
{
    match spec_read_triple(s, p) {
        (Ok(None), _) => true,
        (Ok(Some(_)), np) => if np == p {
            true
        } else {
            spec_import_ok(s, np)
        },
        (Err(_), _) => false,
    }
}

#[via_fn]
proof fn spec_import_ok_dec(s: Seq<char>, p: int) {
    if 0 <= p <= s.len() {
        lemma_read_triple_pos(s, p);
    }
}

/// The position after the last colon of an IRI: the whole length when
/// it ends with one, zero when it has none.
pub open spec fn after_last_colon(s: Seq<char>) -> int
    decreases s.len(),
{
    if s.len() == 0 {
        0
    } else if s.last() == ':' {
        s.len() as int
    } else {
        after_last_colon(s.drop_last())
    }
}

/// A backward scan that stopped at `a` computes `after_last_colon`:
/// nothing at or after `a` is a colon, and the character before `a` is
/// one unless `a` is the start.
pub proof fn lemma_after_last_colon(s: Seq<char>, a: int)
    requires
        0 <= a <= s.len(),
        forall|j: int| a <= j < s.len() ==> s[j] != ':',
        a > 0 ==> s[a - 1] == ':',
    ensures
        after_last_colon(s) == a,
    decreases s.len(),
{
    if s.len() > 0 && s.last() != ':' {
        lemma_after_last_colon(s.drop_last(), a);
    }
}

/// The node record one attribute triple leaves for its subject: the
/// stored record, or a fresh `Concept` titled by the IRI's last
/// segment; `rdf:type` with a `memexia:` object sets the type, and
/// `memexia:title` sets the title.
pub open spec fn spec_attr_node(
    nodes: Seq<NodeView>,
    subject: Seq<char>,
    predicate: Seq<char>,
    object: Seq<char>,
    now: int,
) -> NodeView {
    let base = if crate::store::has_node_id(nodes, subject) {
        nodes[crate::store::node_find(nodes, subject, 0)]
    } else {
        NodeView {
            id: subject,
            node_type: NodeType::Concept,
            title: subject.skip(after_last_colon(subject)),
            content: None,
            tags: Seq::<Seq<char>>::empty(),
            created_at: now,
            updated_at: now,
        }
    };
    if predicate == "rdf:type"@ {
        if "memexia:"@.is_prefix_of(object) {
            NodeView { node_type: crate::node::spec_parse_node_type(object.skip(8)), ..base }
        } else {
            base
        }
    } else if predicate == "memexia:title"@ {
        NodeView { title: object, ..base }
    } else {
        base
    }
}

/// The nodes after one attribute triple is folded in.
pub open spec fn spec_apply_node_attr(
    nodes: Seq<NodeView>,
    subject: Seq<char>,
    predicate: Seq<char>,
    object: Seq<char>,
    now: int,
) -> Seq<NodeView> {
    crate::store::nodes_after_add(nodes, spec_attr_node(nodes, subject, predicate, object, now))
}

/// Whether a triple's predicate denotes an edge: a `memexia:` prefix
/// whose remainder names a relation.
pub open spec fn is_edge_predicate(predicate: Seq<char>) -> bool {
    "memexia:"@.is_prefix_of(predicate) && crate::edge::spec_relation_of(
        predicate.skip(8),
    ) is Some
}

/// The strength and description an edge object carries after its `|`:
/// the text after the first colon holds the strength, and a second
/// colon introduces the description.
pub open spec fn spec_edge_opts(object: Seq<char>, p: int) -> (int, Option<Seq<char>>) {
    if p >= object.len() {
        (1000, None)
    } else {
        let rest = object.skip(p + 1);
        let c1 = find_from(rest, ':', 0);
        if c1 >= rest.len() {
            (1000, None)
        } else {
            let after = rest.skip(c1 + 1);
            let c2 = find_from(after, ':', 0);
            if c2 < after.len() {
                let strength = match spec_parse_strength(after.take(c2)) {
                    Some(v) => clamp_milli(v),
                    None => 1000,
                };
                let dv = after.skip(c2 + 1);
                (strength, if dv.len() > 0 {
                    Some(dv)
                } else {
                    None
                })
            } else {
                (
                    match spec_parse_strength(after) {
                        Some(v) => clamp_milli(v),
                        None => 1000,
                    },
                    None,
                )
            }
        }
    }
}

/// The store and the seen edge IRIs after one edge triple is folded
/// in: the first occurrence of an edge IRI wins, a missing subject
/// gets a placeholder node, and the object's options ride along.
pub open spec fn spec_import_edge(
    nodes: Seq<NodeView>,
    edges: Seq<EdgeView>,
    processed: Seq<Seq<char>>,
    subject: Seq<char>,
    predicate: Seq<char>,
    object: Seq<char>,
    now: int,
) -> (Seq<NodeView>, Seq<EdgeView>, Seq<Seq<char>>) {
    let p = find_from(object, '|', 0);
    let target = object.take(p);
    let (strength, description) = spec_edge_opts(object, p);
    let edge_id = "urn:memexia:edge:"@ + subject + "-"@ + target;
    if processed.contains(edge_id) {
        (nodes, edges, processed)
    } else {
        let nodes1 = if crate::store::has_node_id(nodes, subject) {
            nodes
        } else {
            crate::store::nodes_after_add(
                nodes,
                NodeView {
                    id: subject,
                    node_type: NodeType::Concept,
                    title: subject,
                    content: None,
                    tags: Seq::<Seq<char>>::empty(),
                    created_at: now,
                    updated_at: now,
                },
            )
        };
        let e = EdgeView {
            id: edge_id,
            from: subject,
            to: target,
            relation: crate::wiki_link::rel_or_default(predicate.skip(8)),
            strength: strength,
            confidence: 1000,
            description: description,
            source: crate::edge::EdgeSource::Explicit,
            created_at: now,
        };
        (
            nodes1,
            crate::store::edges_after_add(edges, crate::store::clamped_edge(e)),
            processed.push(edge_id),
        )
    }
}

/// The store and the seen edge IRIs after one parsed triple is folded
/// in.
pub open spec fn spec_import_step(
    nodes: Seq<NodeView>,
    edges: Seq<EdgeView>,
    processed: Seq<Seq<char>>,
    t: (Seq<char>, Seq<char>, Seq<char>),
    now: int,
) -> (Seq<NodeView>, Seq<EdgeView>, Seq<Seq<char>>) {
    if is_edge_predicate(t.1) {
        spec_import_edge(nodes, edges, processed, t.0, t.1, t.2, now)
    } else {
        (spec_apply_node_attr(nodes, t.0, t.1, t.2, now), edges, processed)
    }
}

/// The store and the seen edge IRIs after the document is read from
/// position `p`: each parsed triple folded in turn, stopping at the
/// end, at a line that fails to parse, or when reading stops moving.
pub open spec fn spec_import_fold(
    s: Seq<char>,
    p: int,
    nodes: Seq<NodeView>,
    edges: Seq<EdgeView>,
    processed: Seq<Seq<char>>,
    now: int,
) -> (Seq<NodeView>, Seq<EdgeView>, Seq<Seq<char>>)
    decreases s.len() - p,
    via spec_import_fold_dec
{
    match spec_read_triple(s, p) {
        (Ok(None), _) => (nodes, edges, processed),
        (Ok(Some(t)), np) => if np == p {
            (nodes, edges, processed)
        } else {
            let (n1, e1, pr1) = spec_import_step(nodes, edges, processed, t, now);
            spec_import_fold(s, np, n1, e1, pr1, now)
        },
        (Err(_), _) => (nodes, edges, processed),
    }
}

#[via_fn]
proof fn spec_import_fold_dec(
    s: Seq<char>,
    p: int,
    nodes: Seq<NodeView>,
    edges: Seq<EdgeView>,
    processed: Seq<Seq<char>>,
    now: int,
) {
    if 0 <= p <= s.len() {
        lemma_read_triple_pos(s, p);
    }
}

/// What a whole import leaves behind: the store is the fold of the
/// document's parsed triples over the starting store, all stamped at
/// one instant; strengths are re-clamped, confidences and node
/// timestamps take their defaults.
pub open spec fn imported_post(
    pre: TripleStore,
    post: TripleStore,
    text: Seq<char>,
    now: int,
) -> bool {
    let (n2, e2, pr) = spec_import_fold(
        text,
        0,
        pre.nodes_view(),
        pre.edges_view(),
        Seq::<Seq<char>>::empty(),
        now,
    );
    post.nodes_view() == n2 && post.edges_view() == e2
}

/// Rebuild graph records from an N-Quads document. Each node-attribute
/// triple ensures its subject node exists and carries the last seen
/// type and title; each relation triple becomes one edge, first
/// occurrence of an edge IRI winning, with a placeholder node for an
/// unknown source. A line that does not parse is an error. The store
/// invariant is kept throughout.
#[verifier::loop_isolation(false)]
#[verifier::rlimit(100)]
pub fn import_nquads(store: &mut TripleStore, text: &str) -> (r: Result<
    (),
    crate::errors::RepoError,
>)
    requires
        old(store).wf(),
    ensures
        final(store).wf(),
        r matches Err(e) ==> e is ParseFailure,
        r is Ok <==> spec_import_ok(text@, 0),
        exists|now: int| #[trigger] imported_post(*old(store), *final(store), text@, now),
{
    let now = crate::clock::now_ts();
    let mut dec = NQuadsDecoder::new(text);
    let mut processed: Vec<String> = Vec::new();
    proof {
        assert(processed.deep_view() =~= Seq::<Seq<char>>::empty());
    }
    loop
        invariant
            store.wf(),
            dec.pos <= dec.text@.len(),
            dec.text@ == text@,
            spec_import_ok(text@, 0) == spec_import_ok(text@, dec.pos as int),
            spec_import_fold(
                text@,
                0,
                old(store).nodes_view(),
                old(store).edges_view(),
                Seq::<Seq<char>>::empty(),
                now as int,
            ) == spec_import_fold(
                text@,
                dec.pos as int,
                store.nodes_view(),
                store.edges_view(),
                processed.deep_view(),
                now as int,
            ),
        decreases dec.text@.len() - dec.pos + 1,
    {
        let pos0 = dec.pos;
        let t = match dec.read_triple() {
            Ok(Some(t)) => t,
            Ok(None) => {
                proof {
                    assert(imported_post(*old(store), *store, text@, now as int));
                }
                return Ok(());
            },
            Err(e) => {
                proof {
                    assert(imported_post(*old(store), *store, text@, now as int));
                }
                return Err(e);
            },
        };
        if dec.pos == pos0 {
            // no progress: stop rather than loop forever
            proof {
                assert(imported_post(*old(store), *store, text@, now as int));
            }
            return Ok(());
        }
        let (subject, predicate, object) = t;
        let ghost tv = (subject@, predicate@, object@);
        let ghost pre_nodes = store.nodes_view();
        let ghost pre_edges = store.edges_view();
        let ghost pre_proc = processed.deep_view();
        let pv = chars_of(predicate.as_str());
        let is_edge = if crate::text::has_prefix(&pv, "memexia:") {
            proof {
                reveal_strlit("memexia:");
            }
            let mut rel_v: Vec<char> = Vec::new();
            let mut k: usize = 8;
            while k < pv.len()
                invariant
                    8 <= k <= pv@.len(),
                    rel_v@ == pv@.subrange(8, k as int),
                decreases pv.len() - k,
            {
                rel_v.push(pv[k]);
                proof {
                    assert(pv@.subrange(8, k + 1 as int) =~= pv@.subrange(8, k as int).push(
                        pv@[k as int],
                    ));
                }
                k = k + 1;
            }
            proof {
                assert(rel_v@ =~= predicate@.skip(8));
            }
            let rel_s = string_from(&rel_v);
            match crate::edge::parse_relation_opt(rel_s.as_str()) {
                Some(_) => true,
                None => false,
            }
        } else {
            false
        };
        proof {
            assert(is_edge == is_edge_predicate(predicate@));
        }
        if !is_edge {
            apply_node_attr(store, subject.as_str(), predicate.as_str(), object.as_str(), now);
            proof {
                assert(spec_import_step(pre_nodes, pre_edges, pre_proc, tv, now as int) == (
                    store.nodes_view(),
                    store.edges_view(),
                    processed.deep_view(),
                ));
            }
        } else {
            proof {
                reveal_strlit("memexia:");
            }
            let mut rel_v: Vec<char> = Vec::new();
            let mut k: usize = 8;
            while k < pv.len()
                invariant
                    8 <= k <= pv@.len(),
                    rel_v@ == pv@.subrange(8, k as int),
                decreases pv.len() - k,
            {
                rel_v.push(pv[k]);
                proof {
                    assert(pv@.subrange(8, k + 1 as int) =~= pv@.subrange(8, k as int).push(
                        pv@[k as int],
                    ));
                }
                k = k + 1;
            }
            proof {
                assert(rel_v@ =~= predicate@.skip(8));
            }
            let rel_s = string_from(&rel_v);
            let relation = crate::wiki_link::parse_relation(rel_s.as_str());
            let ov = chars_of(object.as_str());
            // split the object into target, strength and description
            let mut p: usize = 0;
            while p < ov.len() && ov[p] != '|'
                invariant
                    p <= ov@.len(),
                    forall|j: int| 0 <= j < p ==> ov@[j] != '|',
                decreases ov.len() - p,
            {
                p = p + 1;
            }
            proof {
                crate::strength::lemma_find_from_is(ov@, '|', p as int);
            }
            let mut target_v: Vec<char> = Vec::new();
            let mut q: usize = 0;
            while q < p
                invariant
                    q <= p <= ov@.len(),
                    target_v@ == ov@.subrange(0, q as int),
                decreases p - q,
            {
                target_v.push(ov[q]);
                proof {
                    assert(ov@.subrange(0, q + 1 as int) =~= ov@.subrange(0, q as int).push(
                        ov@[q as int],
                    ));
                }
                q = q + 1;
            }
            proof {
                assert(target_v@ =~= object@.take(find_from(object@, '|', 0)));
            }
            let target = string_from(&target_v);
            let mut strength: u32 = crate::strength::STRENGTH_UNIT;
            let mut description: Option<String> = None;
            if p < ov.len() {
                let mut rest_v: Vec<char> = Vec::new();
                let mut q2: usize = p + 1;
                while q2 < ov.len()
                    invariant
                        p + 1 <= q2 <= ov@.len(),
                        rest_v@ == ov@.subrange(p + 1, q2 as int),
                    decreases ov.len() - q2,
                {
                    rest_v.push(ov[q2]);
                    proof {
                        assert(ov@.subrange(p + 1, q2 + 1 as int) =~= ov@.subrange(
                            p + 1,
                            q2 as int,
                        ).push(ov@[q2 as int]));
                    }
                    q2 = q2 + 1;
                }
                proof {
                    assert(rest_v@ =~= object@.skip(p + 1));
                }
                // read strength and description from the rel:strength:desc form
                let mut c1: usize = 0;
                while c1 < rest_v.len() && rest_v[c1] != ':'
                    invariant
                        c1 <= rest_v@.len(),
                        forall|j: int| 0 <= j < c1 ==> rest_v@[j] != ':',
                    decreases rest_v.len() - c1,
                {
                    c1 = c1 + 1;
                }
                proof {
                    crate::strength::lemma_find_from_is(rest_v@, ':', c1 as int);
                }
                if c1 < rest_v.len() {
                    let mut after: Vec<char> = Vec::new();
                    let mut q3: usize = c1 + 1;
                    while q3 < rest_v.len()
                        invariant
                            c1 + 1 <= q3 <= rest_v@.len(),
                            after@ == rest_v@.subrange(c1 + 1, q3 as int),
                        decreases rest_v.len() - q3,
                    {
                        after.push(rest_v[q3]);
                        proof {
                            assert(rest_v@.subrange(c1 + 1, q3 + 1 as int) =~= rest_v@.subrange(
                                c1 + 1,
                                q3 as int,
                            ).push(rest_v@[q3 as int]));
                        }
                        q3 = q3 + 1;
                    }
                    proof {
                        assert(after@ =~= rest_v@.skip(c1 + 1));
                    }
                    let mut c2: usize = 0;
                    while c2 < after.len() && after[c2] != ':'
                        invariant
                            c2 <= after@.len(),
                            forall|j: int| 0 <= j < c2 ==> after@[j] != ':',
                        decreases after.len() - c2,
                    {
                        c2 = c2 + 1;
                    }
                    proof {
                        crate::strength::lemma_find_from_is(after@, ':', c2 as int);
                    }
                    if c2 < after.len() {
                        let mut sv: Vec<char> = Vec::new();
                        let mut q4: usize = 0;
                        while q4 < c2
                            invariant
                                q4 <= c2 <= after@.len(),
                                sv@ == after@.subrange(0, q4 as int),
                            decreases c2 - q4,
                        {
                            sv.push(after[q4]);
                            proof {
                                assert(after@.subrange(0, q4 + 1 as int) =~= after@.subrange(
                                    0,
                                    q4 as int,
                                ).push(after@[q4 as int]));
                            }
                            q4 = q4 + 1;
                        }
                        proof {
                            assert(sv@ =~= after@.take(c2 as int));
                        }
                        match crate::strength::parse_strength_milli(&sv) {
                            Some(m) => {
                                strength = m;
                            },
                            None => {},
                        }
                        let mut dv: Vec<char> = Vec::new();
                        let mut q5: usize = c2 + 1;
                        while q5 < after.len()
                            invariant
                                c2 + 1 <= q5 <= after@.len(),
                                dv@ == after@.subrange(c2 + 1, q5 as int),
                            decreases after.len() - q5,
                        {
                            dv.push(after[q5]);
                            proof {
                                assert(after@.subrange(c2 + 1, q5 + 1 as int) =~= after@.subrange(
                                    c2 + 1,
                                    q5 as int,
                                ).push(after@[q5 as int]));
                            }
                            q5 = q5 + 1;
                        }
                        proof {
                            assert(dv@ =~= after@.skip(c2 + 1));
                        }
                        if dv.len() > 0 {
                            description = Some(string_from(&dv));
                        }
                    } else {
                        match crate::strength::parse_strength_milli(&after) {
                            Some(m) => {
                                strength = m;
                            },
                            None => {},
                        }
                    }
                }
            }
            proof {
                let (ss, sd) = spec_edge_opts(object@, find_from(object@, '|', 0));
                assert(strength as int == ss);
                assert((match description {
                    Some(d) => Some(d@),
                    None => None,
                }) == sd);
            }
            let a = concat_strs("urn:memexia:edge:", subject.as_str());
            let b = concat_strs(a.as_str(), "-");
            let edge_id = concat_strs(b.as_str(), target.as_str());
            proof {
                assert(edge_id@ =~= "urn:memexia:edge:"@ + subject@ + "-"@ + target@);
            }
            // first occurrence of an edge IRI wins
            let mut done = false;
            let mut w: usize = 0;
            let eidv = chars_of(edge_id.as_str());
            while w < processed.len()
                invariant
                    w <= processed@.len(),
                    eidv@ == edge_id@,
                    pre_proc == processed.deep_view(),
                    done == exists|u: int|
                        0 <= u < w && #[trigger] processed.deep_view()[u] == edge_id@,
                decreases processed.len() - w,
            {
                proof {
                    assert(processed.deep_view()[w as int] == processed@[w as int]@);
                }
                if crate::text::eq_str(&eidv, processed[w].as_str()) {
                    done = true;
                }
                w = w + 1;
            }
            proof {
                if done {
                    let u = choose|u: int|
                        0 <= u < processed.deep_view().len() && #[trigger] processed.deep_view()[u]
                            == edge_id@;
                    assert(pre_proc.contains(edge_id@));
                } else {
                    if pre_proc.contains(edge_id@) {
                        let u = choose|u: int|
                            0 <= u < pre_proc.len() && pre_proc[u] == edge_id@;
                        assert(processed.deep_view()[u] == edge_id@);
                    }
                }
                assert(done == pre_proc.contains(edge_id@));
            }
            if !done {
                let ghost procd = processed.deep_view();
                let ghost procpre = processed@;
                processed.push(edge_id.clone());
                proof {
                    assert forall|u: int| 0 <= u < processed@.len() implies #[trigger] processed
                        .deep_view()[u] == (if u < procpre.len() {
                        procd[u]
                    } else {
                        edge_id@
                    }) by {
                        assert(processed.deep_view()[u] == processed@[u]@);
                        if u < procpre.len() {
                            assert(processed@[u] == procpre[u]);
                            assert(procd[u] == procpre[u]@);
                        }
                    }
                    assert(processed.deep_view() =~= procd.push(edge_id@));
                }
                if !store.node_exists(subject.as_str()) {
                    let ph = crate::node::Node::new_at(
                        subject.as_str(),
                        crate::node::NodeType::Concept,
                        subject.as_str(),
                        now,
                    );
                    store.add_node(&ph);
                }
                let mut edge = crate::edge::Edge::new_at(
                    edge_id.as_str(),
                    subject.as_str(),
                    target.as_str(),
                    relation,
                    now,
                );
                edge.update_strength(strength);
                match &description {
                    Some(d) => {
                        edge.update_description(d.as_str());
                    },
                    None => {},
                }
                proof {
                    let (ss, sd) = spec_edge_opts(object@, find_from(object@, '|', 0));
                    assert(edge@ =~= (EdgeView {
                        id: edge_id@,
                        from: subject@,
                        to: target@,
                        relation: crate::wiki_link::rel_or_default(predicate@.skip(8)),
                        strength: ss,
                        confidence: 1000,
                        description: sd,
                        source: crate::edge::EdgeSource::Explicit,
                        created_at: now as int,
                    }));
                }
                let added = store.add_edge(&edge);
                proof {
                    assert(added is Ok);
                }
                match added {
                    Ok(_) => {},
                    Err(_) => {},
                }
            }
            proof {
                assert(spec_import_step(pre_nodes, pre_edges, pre_proc, tv, now as int) == (
                    store.nodes_view(),
                    store.edges_view(),
                    processed.deep_view(),
                ));
            }
        }
    }
}

/// Fold one node-attribute triple into the store: the subject node is
/// created when missing (type `Concept`, title the text after the last
/// colon of the IRI), and `rdf:type` and `memexia:title` update it.
#[verifier::loop_isolation(false)]
#[verifier::loop_isolation(false)]
fn apply_node_attr(store: &mut TripleStore, subject: &str, predicate: &str, object: &str, now: i64)
    requires
        old(store).wf(),
    ensures
        final(store).wf(),
        final(store).nodes_view() == spec_apply_node_attr(
            old(store).nodes_view(),
            subject@,
            predicate@,
            object@,
            now as int,
        ),
        final(store).edges_view() == old(store).edges_view(),
{
    let ghost nv = store.nodes_view();
    let base: crate::node::Node = match store.get_node(subject) {
        Some(n) => n,
        None => {
            let sv = chars_of(subject);
            let mut start: usize = sv.len();
            while start > 0 && sv[start - 1] != ':'
                invariant
                    start <= sv@.len(),
                    sv@ == subject@,
                    forall|j: int| start <= j < sv@.len() ==> sv@[j] != ':',
                decreases start,
            {
                start = start - 1;
            }
            proof {
                lemma_after_last_colon(sv@, start as int);
            }
            let mut title_v: Vec<char> = Vec::new();
            let mut k: usize = start;
            while k < sv.len()
                invariant
                    start <= k <= sv@.len(),
                    sv@ == subject@,
                    title_v@ == sv@.subrange(start as int, k as int),
                decreases sv.len() - k,
            {
                title_v.push(sv[k]);
                proof {
                    assert(sv@.subrange(start as int, k + 1 as int) =~= sv@.subrange(
                        start as int,
                        k as int,
                    ).push(sv@[k as int]));
                }
                k = k + 1;
            }
            proof {
                assert(title_v@ =~= subject@.skip(after_last_colon(subject@)));
            }
            let title = string_from(&title_v);
            crate::node::Node::new_at(
                subject,
                crate::node::NodeType::Concept,
                title.as_str(),
                now,
            )
        },
    };
    let pvv = chars_of(predicate);
    let mut node = base;
    if crate::text::eq_str(&pvv, "rdf:type") {
        let ov = chars_of(object);
        if crate::text::has_prefix(&ov, "memexia:") {
            proof {
                reveal_strlit("memexia:");
            }
            let mut tv: Vec<char> = Vec::new();
            let mut k: usize = 8;
            while k < ov.len()
                invariant
                    8 <= k <= ov@.len(),
                    ov@ == object@,
                    tv@ == ov@.subrange(8, k as int),
                decreases ov.len() - k,
            {
                tv.push(ov[k]);
                proof {
                    assert(ov@.subrange(8, k + 1 as int) =~= ov@.subrange(8, k as int).push(
                        ov@[k as int],
                    ));
                }
                k = k + 1;
            }
            proof {
                assert(tv@ =~= object@.skip(8));
            }
            let ts = string_from(&tv);
            node.node_type = crate::node::parse_node_type(ts.as_str());
        }
    } else if crate::text::eq_str(&pvv, "memexia:title") {
        let ov = chars_of(object);
        node.title = string_from(&ov);
    }
    proof {
        assert(node@ =~= spec_attr_node(nv, subject@, predicate@, object@, now as int));
    }
    store.add_node(&node);
}


} // verus!
