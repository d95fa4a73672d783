//! Wiki links: `[[target|relation:strength:description]]`, with the
//! trailing parts optional.
//!
//! Links are read left to right by a non-greedy match of `[[ ... ]]`
//! whose inside holds no `]` and at most one `|`. An empty target drops
//! the link; an unknown relation falls back to `RelatedTo`; a strength
//! outside [0, 1] is clamped.

use vstd::prelude::*;

use crate::clock::now_ts;
use crate::edge::{parse_relation_opt, spec_relation_of, Edge, EdgeView, RelationType};
use crate::iri::{concat_strs, encode_iri_component, encode_seq, spec_edge_id};
use crate::strength::{clamp_milli, parse_strength_milli, spec_parse_strength, STRENGTH_UNIT};
use crate::text::{chars_of, string_from, trim_chars, trim_seq};

verus! {

/// The mathematical model of a parsed wiki link.
#[verifier::ext_equal]
pub struct WikiLinkView {
    /// The trimmed link target.
    pub target: Seq<char>,
    /// The resolved relation.
    pub relation: RelationType,
    /// Strength in thousandths, clamped into [0, 1000].
    pub strength: int,
    /// The description, verbatim.
    pub description: Seq<char>,
}

/// A parsed wiki link.
#[derive(Debug)]
pub struct WikiLink {
    /// The trimmed link target.
    pub target: String,
    /// The resolved relation.
    pub relation: RelationType,
    /// Strength in thousandths of the unit (0 ..= 1000).
    pub strength: u32,
    /// The description, verbatim.
    pub description: String,
}

impl View for WikiLink {
    type V = WikiLinkView;

    open spec fn view(&self) -> WikiLinkView {
        WikiLinkView {
            target: self.target@,
            relation: self.relation,
            strength: self.strength as int,
            description: self.description@,
        }
    }
}

impl DeepView for WikiLink {
    type V = WikiLinkView;

    open spec fn deep_view(&self) -> WikiLinkView {
        self.view()
    }
}

impl Clone for WikiLink {
    /// A clone carries the same model.
    fn clone(&self) -> (r: Self)
        ensures
            r@ == self@,
    {
        WikiLink {
            target: self.target.clone(),
            relation: self.relation,
            strength: self.strength,
            description: self.description.clone(),
        }
    }
}

impl Default for WikiLink {
    /// An empty link: no target, `RelatedTo`, full strength, no text.
    fn default() -> (r: Self)
        ensures
            r@.target == Seq::<char>::empty(),
            r@.relation == RelationType::RelatedTo,
            r@.strength == 1000,
            r@.description == Seq::<char>::empty(),
    {
        WikiLink {
            target: String::new(),
            relation: RelationType::RelatedTo,
            strength: STRENGTH_UNIT,
            description: String::new(),
        }
    }
}

impl WikiLink {
    /// A link from its parts; the strength is clamped into [0, 1].
    pub fn new(target: String, relation: RelationType, strength: u32, description: String) -> (r:
        WikiLink)
        ensures
            r@.target == target@,
            r@.relation == relation,
            r@.strength == clamp_milli(strength as int),
            r@.description == description@,
    {
        let s = if strength > STRENGTH_UNIT {
            STRENGTH_UNIT
        } else {
            strength
        };
        WikiLink { target, relation, strength: s, description }
    }

    /// The edge this link denotes, leaving `from`: the target is
    /// percent-encoded under the file scheme, the strength and description
    /// are carried over, and the edge IRI is derived from the two node
    /// IRIs.
    pub fn to_edge(&self, from: &str) -> (r: Edge)
        requires
            self@.strength <= 1000,
        ensures
            r@ == Self::spec_to_edge(self@, from@, r@.created_at),
            r@.in_range(),
    {
        let now = now_ts();
        self.to_edge_at(from, now)
    }

    /// What `to_edge` builds, given the stamping instant.
    pub open spec fn spec_to_edge(l: WikiLinkView, from: Seq<char>, now: int) -> EdgeView {
        let to = "urn:memexia:file:"@ + encode_seq(l.target);
        EdgeView {
            id: spec_edge_id(from, to),
            from: from,
            to: to,
            relation: l.relation,
            strength: l.strength,
            confidence: 1000,
            description: if l.description.len() == 0 {
                None
            } else {
                Some(l.description)
            },
            source: crate::edge::EdgeSource::Explicit,
            created_at: now,
        }
    }

    /// The edge this link denotes, stamped with the given instant.
    pub fn to_edge_at(&self, from: &str, now: i64) -> (r: Edge)
        requires
            self@.strength <= 1000,
        ensures
            r@ == Self::spec_to_edge(self@, from@, now as int),
            r@.in_range(),
    {
        let encoded = encode_iri_component(self.target.as_str());
        let to = concat_strs("urn:memexia:file:", encoded.as_str());
        let id = crate::iri::edge_id(from, to.as_str());
        let mut edge = Edge::new_at(id.as_str(), from, to.as_str(), self.relation, now);
        edge.update_strength(self.strength);
        if !self.description.as_str().is_empty() {
            edge.update_description(self.description.as_str());
        }
        proof {
            assert(edge@ =~= Self::spec_to_edge(self@, from@, now as int));
        }
        edge
    }
}

/// The first index at or after `i` that stops an inner segment: a `]` or
/// `|`, or the length.
pub open spec fn seg_end(s: Seq<char>, i: int) -> int
    decreases s.len() - i,
{
    if i < 0 || i >= s.len() {
        s.len() as int
    } else if s[i] == ']' || s[i] == '|' {
        i
    } else {
        seg_end(s, i + 1)
    }
}

/// Where a wiki link starting at `i` ends (one past its closing `]]`),
/// if one starts there: `[[`, a non-empty segment, at most one `|` and a
/// second non-empty segment, then `]]`.
pub open spec fn link_end(s: Seq<char>, i: int) -> Option<int> {
    if 0 <= i && i + 1 < s.len() && s[i] == '[' && s[i + 1] == '[' {
        let a = seg_end(s, i + 2);
        if a == i + 2 {
            None
        } else if a + 1 < s.len() && s[a] == ']' && s[a + 1] == ']' {
            Some(a + 2)
        } else if a < s.len() && s[a] == '|' {
            let b = seg_end(s, a + 1);
            if b == a + 1 {
                None
            } else if b + 1 < s.len() && s[b] == ']' && s[b + 1] == ']' {
                Some(b + 2)
            } else {
                None
            }
        } else {
            None
        }
    } else {
        None
    }
}

/// The parsed links of `s` from position `i` on, in document order.
pub open spec fn links_from(s: Seq<char>, i: int) -> Seq<WikiLinkView>
    decreases s.len() - i,
{
    if i < 0 || i >= s.len() {
        Seq::<WikiLinkView>::empty()
    } else {
        match link_end(s, i) {
            Some(e) => {
                if e <= i {
                    Seq::<WikiLinkView>::empty()  // cannot happen: a match is at least four wide
                } else {
                    match spec_parse_link(s.subrange(i + 2, e - 2)) {
                        Some(l) => seq![l] + links_from(s, e),
                        None => links_from(s, e),
                    }
                }
            },
            None => links_from(s, i + 1),
        }
    }
}

/// What a link's inner text denotes: `target`, or `target|relation`, or
/// `target|relation:strength[:description]`. A blank target yields no
/// link; an unknown relation is `RelatedTo`; an unparsable strength keeps
/// the default; a parsed strength is clamped.
pub open spec fn spec_parse_link(t: Seq<char>) -> Option<WikiLinkView> {
    let p = crate::strength::find_from(t, '|', 0);
    let target = trim_seq(t.take(p));
    if target.len() == 0 {
        None
    } else if p >= t.len() || t.skip(p + 1).len() == 0 {
        Some(
            WikiLinkView {
                target,
                relation: RelationType::RelatedTo,
                strength: 1000,
                description: Seq::<char>::empty(),
            },
        )
    } else {
        let rest = t.skip(p + 1);
        Some(spec_parse_rel_part(target, rest))
    }
}

/// The relation, strength and description denoted by the text after the
/// pipe.
pub open spec fn spec_parse_rel_part(target: Seq<char>, rest: Seq<char>) -> WikiLinkView {
    let c1 = crate::strength::find_from(rest, ':', 0);
    if c1 >= rest.len() {
        WikiLinkView {
            target,
            relation: rel_or_default(rest),
            strength: 1000,
            description: Seq::<char>::empty(),
        }
    } else {
        let rel = rel_or_default(rest.take(c1));
        let after = rest.skip(c1 + 1);
        let c2 = crate::strength::find_from(after, ':', 0);
        if c2 >= after.len() {
            WikiLinkView {
                target,
                relation: rel,
                strength: strength_or_default(after),
                description: Seq::<char>::empty(),
            }
        } else {
            WikiLinkView {
                target,
                relation: rel,
                strength: strength_or_default(after.take(c2)),
                description: after.skip(c2 + 1),
            }
        }
    }
}

/// The relation a name denotes, or `RelatedTo` when unknown.
pub open spec fn rel_or_default(s: Seq<char>) -> RelationType {
    match spec_relation_of(s) {
        Some(r) => r,
        None => RelationType::RelatedTo,
    }
}

/// The clamped strength a string denotes, or the unit when it is not a
/// decimal number.
pub open spec fn strength_or_default(s: Seq<char>) -> int {
    match spec_parse_strength(s) {
        Some(v) => clamp_milli(v),
        None => 1000,
    }
}

/// Resolve a relation name, falling back to `RelatedTo`.
pub fn parse_relation(s: &str) -> (r: RelationType)
    ensures
        r == rel_or_default(s@),
{
    match parse_relation_opt(s) {
        Some(r) => r,
        None => RelationType::RelatedTo,
    }
}

/// Parse one link's inner text.
#[verifier::loop_isolation(false)]
pub fn parse_link_str(t: &Vec<char>) -> (r: Option<WikiLink>)
    ensures
        match spec_parse_link(t@) {
            Some(l) => r matches Some(x) && x@ == l && l.strength <= 1000,
            None => r is None,
        },
{
    let ghost s = t@;
    // split at the first pipe
    let mut p: usize = 0;
    while p < t.len() && t[p] != '|'
        invariant
            p <= t.len(),
            forall|k: int| 0 <= k < p ==> s[k] != '|',
        decreases t.len() - p,
    {
        p = p + 1;
    }
    proof {
        crate::strength::lemma_find_from_is(s, '|', p as int);
    }
    let mut head: Vec<char> = Vec::new();
    let mut i: usize = 0;
    while i < p
        invariant
            i <= p <= t.len(),
            head@ == s.take(p as int).take(i as int),
        decreases p - i,
    {
        head.push(t[i]);
        proof {
            assert(s.take(p as int).take(i + 1 as int) =~= s.take(p as int).take(i as int).push(
                s[i as int],
            ));
        }
        i = i + 1;
    }
    proof {
        assert(head@ =~= s.take(p as int));
    }
    let target = trim_chars(&head);
    if target.len() == 0 {
        return None;
    }
    if p >= t.len() || t.len() - p == 1 {
        proof {
            if (p as int) < s.len() {
                assert(s.skip(p + 1 as int).len() == 0);
            }
        }
        return Some(
            WikiLink {
                target: string_from(&target),
                relation: RelationType::RelatedTo,
                strength: STRENGTH_UNIT,
                description: String::new(),
            },
        );
    }
    // everything after the pipe
    let mut rest: Vec<char> = Vec::new();
    let mut j: usize = p + 1;
    while j < t.len()
        invariant
            p + 1 <= j <= t.len(),
            rest@ == s.subrange(p + 1 as int, j as int),
        decreases t.len() - j,
    {
        rest.push(t[j]);
        proof {
            assert(s.subrange(p + 1 as int, j + 1 as int) =~= s.subrange(
                p + 1 as int,
                j as int,
            ).push(s[j as int]));
        }
        j = j + 1;
    }
    proof {
        assert(rest@ =~= s.skip(p + 1 as int));
    }
    let link = parse_rel_part(&target, &rest);
    Some(link)
}

/// Parse the text after the pipe into relation, strength and description.
#[verifier::loop_isolation(false)]
fn parse_rel_part(target: &Vec<char>, rest: &Vec<char>) -> (r: WikiLink)
    requires
        rest@.len() > 0,
    ensures
        r@ == spec_parse_rel_part(target@, rest@),
        r@.strength <= 1000,
{
    let ghost s = rest@;
    let mut c1: usize = 0;
    while c1 < rest.len() && rest[c1] != ':'
        invariant
            c1 <= rest.len(),
            forall|k: int| 0 <= k < c1 ==> s[k] != ':',
        decreases rest.len() - c1,
    {
        c1 = c1 + 1;
    }
    proof {
        crate::strength::lemma_find_from_is(s, ':', c1 as int);
    }
    if c1 >= rest.len() {
        let rel_s = string_from(rest);
        return WikiLink {
            target: string_from(target),
            relation: parse_relation(rel_s.as_str()),
            strength: STRENGTH_UNIT,
            description: String::new(),
        };
    }
    let mut rel_v: Vec<char> = Vec::new();
    let mut i: usize = 0;
    while i < c1
        invariant
            i <= c1 <= rest.len(),
            rel_v@ == s.take(c1 as int).take(i as int),
        decreases c1 - i,
    {
        rel_v.push(rest[i]);
        proof {
            assert(s.take(c1 as int).take(i + 1 as int) =~= s.take(c1 as int).take(i as int).push(
                s[i as int],
            ));
        }
        i = i + 1;
    }
    proof {
        assert(rel_v@ =~= s.take(c1 as int));
    }
    let rel_s = string_from(&rel_v);
    let relation = parse_relation(rel_s.as_str());
    // after the first colon
    let mut after: Vec<char> = Vec::new();
    let mut j: usize = c1 + 1;
    while j < rest.len()
        invariant
            c1 + 1 <= j <= rest.len(),
            after@ == s.subrange(c1 + 1 as int, j as int),
        decreases rest.len() - j,
    {
        after.push(rest[j]);
        proof {
            assert(s.subrange(c1 + 1 as int, j + 1 as int) =~= s.subrange(
                c1 + 1 as int,
                j as int,
            ).push(s[j as int]));
        }
        j = j + 1;
    }
    proof {
        assert(after@ =~= s.skip(c1 + 1 as int));
    }
    let ghost a = after@;
    let mut c2: usize = 0;
    while c2 < after.len() && after[c2] != ':'
        invariant
            c2 <= after.len(),
            forall|k: int| 0 <= k < c2 ==> a[k] != ':',
        decreases after.len() - c2,
    {
        c2 = c2 + 1;
    }
    proof {
        crate::strength::lemma_find_from_is(a, ':', c2 as int);
    }
    if c2 >= after.len() {
        let strength = match parse_strength_milli(&after) {
            Some(m) => m,
            None => STRENGTH_UNIT,
        };
        return WikiLink {
            target: string_from(target),
            relation,
            strength,
            description: String::new(),
        };
    }
    let mut sv: Vec<char> = Vec::new();
    let mut k: usize = 0;
    while k < c2
        invariant
            k <= c2 <= after.len(),
            sv@ == a.take(c2 as int).take(k as int),
        decreases c2 - k,
    {
        sv.push(after[k]);
        proof {
            assert(a.take(c2 as int).take(k + 1 as int) =~= a.take(c2 as int).take(k as int).push(
                a[k as int],
            ));
        }
        k = k + 1;
    }
    proof {
        assert(sv@ =~= a.take(c2 as int));
    }
    let strength = match parse_strength_milli(&sv) {
        Some(m) => m,
        None => STRENGTH_UNIT,
    };
    let mut dv: Vec<char> = Vec::new();
    let mut m: usize = c2 + 1;
    while m < after.len()
        invariant
            c2 + 1 <= m <= after.len(),
            dv@ == a.subrange(c2 + 1 as int, m as int),
        decreases after.len() - m,
    {
        dv.push(after[m]);
        proof {
            assert(a.subrange(c2 + 1 as int, m + 1 as int) =~= a.subrange(
                c2 + 1 as int,
                m as int,
            ).push(a[m as int]));
        }
        m = m + 1;
    }
    proof {
        assert(dv@ =~= a.skip(c2 + 1 as int));
    }
    WikiLink {
        target: string_from(target),
        relation,
        strength,
        description: string_from(&dv),
    }
}

/// Where a link starting at `i` ends, as execution code.
#[verifier::loop_isolation(false)]
fn link_end_at(v: &Vec<char>, i: usize) -> (r: Option<usize>)
    requires
        i < v@.len(),
    ensures
        match link_end(v@, i as int) {
            Some(e) => r == Some(e as usize) && i + 4 <= e <= v@.len(),
            None => r is None,
        },
{
    let ghost s = v@;
    if v.len() - i < 2 || !(v[i] == '[' && v[i + 1] == '[') {
        return None;
    }
    let mut a: usize = i + 2;
    while a < v.len() && v[a] != ']' && v[a] != '|'
        invariant
            i + 2 <= a <= v.len(),
            forall|k: int| i + 2 <= k < a ==> s[k] != ']' && s[k] != '|',
        decreases v.len() - a,
    {
        a = a + 1;
    }
    proof {
        lemma_seg_end_is(s, i + 2 as int, a as int);
    }
    if a == i + 2 {
        return None;
    }
    if v.len() - a > 1 && v[a] == ']' && v[a + 1] == ']' {
        return Some(a + 2);
    }
    if a < v.len() && v[a] == '|' {
        let mut b: usize = a + 1;
        while b < v.len() && v[b] != ']' && v[b] != '|'
            invariant
                a + 1 <= b <= v.len(),
                forall|k: int| a + 1 <= k < b ==> s[k] != ']' && s[k] != '|',
            decreases v.len() - b,
        {
            b = b + 1;
        }
        proof {
            lemma_seg_end_is(s, a + 1 as int, b as int);
        }
        if b == a + 1 {
            return None;
        }
        if v.len() - b > 1 && v[b] == ']' && v[b + 1] == ']' {
            return Some(b + 2);
        }
        return None;
    }
    None
}

proof fn lemma_seg_end_is(s: Seq<char>, lo: int, a: int)
    requires
        0 <= lo <= a <= s.len(),
        forall|k: int| lo <= k < a ==> s[k] != ']' && s[k] != '|',
        a < s.len() ==> (s[a] == ']' || s[a] == '|'),
    ensures
        seg_end(s, lo) == a,
    decreases a - lo,
{
    if lo < a {
        lemma_seg_end_is(s, lo + 1, a);
    }
}

/// Parse every wiki link of a document, in document order; links whose
/// target is blank are dropped.
#[verifier::loop_isolation(false)]
pub fn parse_wiki_links(content: &str) -> (r: Vec<WikiLink>)
    ensures
        r.deep_view() == links_from(content@, 0),
        forall|k: int| 0 <= k < r@.len() ==> (#[trigger] r.deep_view()[k]).strength <= 1000,
{
    let v = chars_of(content);
    let ghost s = v@;
    let mut out: Vec<WikiLink> = Vec::new();
    let mut i: usize = 0;
    while i < v.len()
        invariant
            i <= v.len(),
            links_from(s, 0) == out.deep_view() + links_from(s, i as int),
            forall|k: int| 0 <= k < out@.len() ==> (#[trigger] out.deep_view()[k]).strength
                <= 1000,
        decreases v.len() - i,
    {
        let ghost out_pre = out.deep_view();
        let ghost out_vec_pre = out@;
        match link_end_at(&v, i) {
            Some(e) => {
                // copy the inner text
                let mut inner: Vec<char> = Vec::new();
                let mut k: usize = i + 2;
                while k < e - 2
                    invariant
                        i + 2 <= k <= e - 2,
                        e <= v.len(),
                        inner@ == s.subrange(i + 2 as int, k as int),
                    decreases e - 2 - k,
                {
                    inner.push(v[k]);
                    proof {
                        assert(s.subrange(i + 2 as int, k + 1 as int) =~= s.subrange(
                            i + 2 as int,
                            k as int,
                        ).push(s[k as int]));
                    }
                    k = k + 1;
                }
                proof {
                    assert(inner@ =~= s.subrange(i + 2 as int, e - 2 as int));
                }
                match parse_link_str(&inner) {
                    Some(l) => {
                        let ghost lv = l@;
                        out.push(l);
                        proof {
                            assert(out@.len() == out_vec_pre.len() + 1);
                            assert forall|q: int| 0 <= q < out@.len() implies #[trigger] out
                                .deep_view()[q] == (out_pre + seq![lv])[q] by {
                                assert(out.deep_view()[q] == out@[q].deep_view());
                                if q < out_vec_pre.len() {
                                    assert(out@[q] == out_vec_pre[q]);
                                    assert(out_pre[q] == out_vec_pre[q].deep_view());
                                }
                            }
                            assert(out.deep_view() =~= out_pre + seq![lv]);
                            assert(out.deep_view() + links_from(s, e as int) =~= out_pre + (seq![
                                lv,
                            ] + links_from(s, e as int)));
                        }
                    },
                    None => {},
                }
                i = e;
            },
            None => {
                i = i + 1;
            },
        }
    }
    out
}

/// The characters of `s` from `i` on with every `[[ ... ]]` stretch (no
/// `]` inside) removed.
pub open spec fn stripped_from(s: Seq<char>, i: int) -> Seq<char>
    decreases s.len() - i,
{
    if i < 0 || i >= s.len() {
        Seq::<char>::empty()
    } else {
        match strip_end(s, i) {
            Some(e) => {
                if e <= i {
                    Seq::<char>::empty()  // cannot happen: a match is at least five wide
                } else {
                    stripped_from(s, e)
                }
            },
            None => seq![s[i]] + stripped_from(s, i + 1),
        }
    }
}

/// Where a `[[ ... ]]` stretch starting at `i` ends: `[[`, one or more
/// characters other than `]`, then `]]`.
pub open spec fn strip_end(s: Seq<char>, i: int) -> Option<int> {
    if 0 <= i && i + 1 < s.len() && s[i] == '[' && s[i + 1] == '[' {
        let a = bracket_end(s, i + 2);
        if a == i + 2 {
            None
        } else if a + 1 < s.len() && s[a] == ']' && s[a + 1] == ']' {
            Some(a + 2)
        } else {
            None
        }
    } else {
        None
    }
}

/// The first index at or after `i` holding `]`, or the length.
pub open spec fn bracket_end(s: Seq<char>, i: int) -> int
    decreases s.len() - i,
{
    if i < 0 || i >= s.len() {
        s.len() as int
    } else if s[i] == ']' {
        i
    } else {
        bracket_end(s, i + 1)
    }
}

/// Remove every wiki-link stretch from the content, so that downstream
/// text is link-free.
#[verifier::loop_isolation(false)]
pub fn remove_wiki_links(content: &str) -> (r: String)
    ensures
        r@ == stripped_from(content@, 0),
{
    let v = chars_of(content);
    let ghost s = v@;
    let mut out: Vec<char> = Vec::new();
    let mut i: usize = 0;
    while i < v.len()
        invariant
            i <= v.len(),
            stripped_from(s, 0) == out@ + stripped_from(s, i as int),
        decreases v.len() - i,
    {
        match strip_end_at(&v, i) {
            Some(e) => {
                i = e;
            },
            None => {
                out.push(v[i]);
                proof {
                    assert(out@ + stripped_from(s, i + 1 as int) =~= out@.drop_last() + (seq![
                        s[i as int],
                    ] + stripped_from(s, i + 1 as int)));
                }
                i = i + 1;
            },
        }
    }
    string_from(&out)
}

/// Where a removable stretch starting at `i` ends, as execution code.
#[verifier::loop_isolation(false)]
fn strip_end_at(v: &Vec<char>, i: usize) -> (r: Option<usize>)
    requires
        i < v@.len(),
    ensures
        match strip_end(v@, i as int) {
            Some(e) => r == Some(e as usize) && i < e <= v@.len(),
            None => r is None,
        },
{
    let ghost s = v@;
    if v.len() - i < 2 || !(v[i] == '[' && v[i + 1] == '[') {
        return None;
    }
    let mut a: usize = i + 2;
    while a < v.len() && v[a] != ']'
        invariant
            i + 2 <= a <= v.len(),
            forall|k: int| i + 2 <= k < a ==> s[k] != ']',
        decreases v.len() - a,
    {
        a = a + 1;
    }
    proof {
        lemma_bracket_end_is(s, i + 2 as int, a as int);
    }
    if a == i + 2 {
        return None;
    }
    if v.len() - a > 1 && v[a] == ']' && v[a + 1] == ']' {
        return Some(a + 2);
    }
    None
}

proof fn lemma_bracket_end_is(s: Seq<char>, lo: int, a: int)
    requires
        0 <= lo <= a <= s.len(),
        forall|k: int| lo <= k < a ==> s[k] != ']',
        a < s.len() ==> s[a] == ']',
    ensures
        bracket_end(s, lo) == a,
    decreases a - lo,
{
    if lo < a {
        lemma_bracket_end_is(s, lo + 1, a);
    }
}

/// The characters of `s` from `i` on with every two-part link replaced by
/// its display text; one-part stretches are kept for the removal pass.
pub open spec fn replaced_from(s: Seq<char>, i: int) -> Seq<char>
    decreases s.len() - i,
{
    if i < 0 || i >= s.len() {
        Seq::<char>::empty()
    } else {
        match link_end(s, i) {
            Some(e) => {
                if e <= i {
                    Seq::<char>::empty()  // cannot happen: a match is at least four wide
                } else {
                    let p = seg_end(s, i + 2);
                    if p < e - 2 {
                        // a two-part link: keep the display text
                        s.subrange(p + 1, e - 2) + replaced_from(s, e)
                    } else {
                        // a one-part link: keep the stretch for the removal pass
                        s.subrange(i, e) + replaced_from(s, e)
                    }
                }
            },
            None => seq![s[i]] + replaced_from(s, i + 1),
        }
    }
}

/// Replace every `[[target|text]]` with `text`, then remove the remaining
/// `[[ ... ]]` stretches.
#[verifier::loop_isolation(false)]
pub fn replace_wiki_links_with_text(content: &str) -> (r: String)
    ensures
        r@ == stripped_from(replaced_from(content@, 0), 0),
{
    let v = chars_of(content);
    let ghost s = v@;
    let mut mid: Vec<char> = Vec::new();
    let mut i: usize = 0;
    while i < v.len()
        invariant
            i <= v.len(),
            replaced_from(s, 0) == mid@ + replaced_from(s, i as int),
        decreases v.len() - i,
    {
        let ghost mid_pre = mid@;
        match link_end_at(&v, i) {
            Some(e) => {
                // find the pipe, if the link has two parts
                let mut p: usize = i + 2;
                while p < v.len() && v[p] != ']' && v[p] != '|'
                    invariant
                        i + 2 <= p <= v.len(),
                        forall|k: int| i + 2 <= k < p ==> s[k] != ']' && s[k] != '|',
                    decreases v.len() - p,
                {
                    p = p + 1;
                }
                proof {
                    lemma_seg_end_is(s, i + 2 as int, p as int);
                }
                let (lo, hi): (usize, usize) = if p < e - 2 {
                    (p + 1, e - 2)
                } else {
                    (i, e)
                };
                let mut k: usize = lo;
                while k < hi
                    invariant
                        lo <= k <= hi <= v.len(),
                        mid@ == mid_pre + s.subrange(lo as int, k as int),
                    decreases hi - k,
                {
                    mid.push(v[k]);
                    proof {
                        assert(s.subrange(lo as int, k + 1 as int) =~= s.subrange(
                            lo as int,
                            k as int,
                        ).push(s[k as int]));
                        assert(mid@ =~= mid_pre + s.subrange(lo as int, k + 1 as int));
                    }
                    k = k + 1;
                }
                proof {
                    assert(mid@ + replaced_from(s, e as int) =~= mid_pre + (s.subrange(
                        lo as int,
                        hi as int,
                    ) + replaced_from(s, e as int)));
                }
                i = e;
            },
            None => {
                mid.push(v[i]);
                proof {
                    assert(mid@ + replaced_from(s, i + 1 as int) =~= mid_pre + (seq![s[i as int]]
                        + replaced_from(s, i + 1 as int)));
                }
                i = i + 1;
            },
        }
    }
    let mid_s = string_from(&mid);
    remove_wiki_links(mid_s.as_str())
}


/// Every parsed link's strength lies in [0, 1].
pub proof fn lemma_links_clamped(s: Seq<char>, i: int)
    ensures
        forall|k: int|
            0 <= k < links_from(s, i).len() ==> 0 <= (#[trigger] links_from(s, i)[k]).strength
                <= 1000,
    decreases s.len() - i,
{
    if 0 <= i && i < s.len() {
        match link_end(s, i) {
            Some(e) => {
                if e <= i {
                } else {
                    lemma_links_clamped(s, e);
                    match spec_parse_link(s.subrange(i + 2, e - 2)) {
                        Some(l) => {
                            assert(0 <= l.strength <= 1000) by {
                                lemma_parse_link_clamped(s.subrange(i + 2, e - 2));
                            }
                            assert forall|k: int| 0 <= k < links_from(s, i).len() implies 0 <= (
                            #[trigger] links_from(s, i)[k]).strength <= 1000 by {
                                if k == 0 {
                                } else {
                                    assert(links_from(s, i)[k] == links_from(s, e)[k - 1]);
                                }
                            }
                        },
                        None => {},
                    }
                }
            },
            None => {
                lemma_links_clamped(s, i + 1);
            },
        }
    }
}

/// A parsed link's strength is clamped.
proof fn lemma_parse_link_clamped(t: Seq<char>)
    requires
        spec_parse_link(t) is Some,
    ensures
        ({
            let l = spec_parse_link(t)->Some_0;
            0 <= l.strength <= 1000
        }),
{
}



/// A stored link edge carries the link's clamped strength: the edge a
/// link denotes takes the strength as parsed (already clamped into
/// [0, 1]), and the store's own clamp then changes nothing.
pub proof fn lemma_stored_link_strength(l: WikiLinkView, from: Seq<char>, now: int)
    requires
        0 <= l.strength <= 1000,
    ensures
        crate::store::clamped_edge(WikiLink::spec_to_edge(l, from, now)).strength == l.strength,
{
}


} // verus!
