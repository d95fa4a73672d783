//! The note parser: a pure function from a note's text and file name to
//! its frontmatter, wiki links, hashtags, stripped body and title.

use vstd::prelude::*;

use crate::clock::now_ts;
use crate::frontmatter::{
    extract_frontmatter, parse_frontmatter, spec_parse_frontmatter, spec_remaining_after,
    Frontmatter, FrontmatterView,
};
use crate::iri::{node_id_for_path, spec_node_id_for_path};
use crate::node::{Node, NodeType, NodeView};
use crate::text::{chars_of, eq_str, is_ws, string_from, trim_chars, trim_seq};
use crate::wiki_link::{links_from, parse_wiki_links, remove_wiki_links, stripped_from, WikiLink,
    WikiLinkView};

verus! {

/// The mathematical model of a parsed note.
#[verifier::ext_equal]
pub struct ParsedDocView {
    /// The frontmatter block, when the note has one.
    pub frontmatter: Option<FrontmatterView>,
    /// The wiki links of the body, in document order.
    pub wiki_links: Seq<WikiLinkView>,
    /// The hashtags of the body, first occurrence order, without
    /// duplicates.
    pub tags: Seq<Seq<char>>,
    /// The body with every wiki link removed.
    pub content: Seq<char>,
    /// The resolved title.
    pub title: Seq<char>,
    /// The note's file name, as handed in.
    pub file_name: Seq<char>,
}

/// A parsed note: frontmatter, links, hashtags, stripped body and title.
#[derive(Debug)]
pub struct ParsedDoc {
    /// The frontmatter block, when the note has one.
    pub frontmatter: Option<Frontmatter>,
    /// The wiki links of the body, in document order.
    pub wiki_links: Vec<WikiLink>,
    /// The hashtags of the body, first occurrence order, without
    /// duplicates.
    pub tags: Vec<String>,
    /// The body with every wiki link removed.
    pub content: String,
    /// The resolved title.
    pub title: String,
    /// The note's file name, as handed in.
    pub file_name: String,
}

impl View for ParsedDoc {
    type V = ParsedDocView;

    open spec fn view(&self) -> ParsedDocView {
        ParsedDocView {
            frontmatter: match self.frontmatter {
                Some(ref f) => Some(f@),
                None => None,
            },
            wiki_links: self.wiki_links.deep_view(),
            tags: self.tags.deep_view(),
            content: self.content@,
            title: self.title@,
            file_name: self.file_name@,
        }
    }
}

/// A hashtag's first character.
pub open spec fn is_tag_first(c: char) -> bool {
    ('A' <= c && c <= 'Z') || ('a' <= c && c <= 'z') || ('0' <= c && c <= '9') || c == '_'
}

/// A hashtag's later characters.
pub open spec fn is_tag_rest(c: char) -> bool {
    is_tag_first(c) || c == '-'
}

/// Whether a hashtag starts at `i`: a `#` at the start of the text or
/// after whitespace, followed by a tag character.
pub open spec fn tag_starts(s: Seq<char>, i: int) -> bool {
    0 <= i && i + 1 < s.len() && s[i] == '#' && (i == 0 || is_ws(s[i - 1])) && is_tag_first(
        s[i + 1],
    )
}

/// The first index at or after `i` that cannot continue a hashtag.
pub open spec fn tag_end(s: Seq<char>, i: int) -> int
    decreases s.len() - i,
{
    if i < 0 || i >= s.len() {
        s.len() as int
    } else if !is_tag_rest(s[i]) {
        i
    } else {
        tag_end(s, i + 1)
    }
}

/// The hashtags of `s` from position `i` on, appended to `acc` unless
/// already present.
pub open spec fn hashtags_from(s: Seq<char>, i: int, acc: Seq<Seq<char>>) -> Seq<Seq<char>>
    decreases s.len() - i,
{
    if i < 0 || i >= s.len() {
        acc
    } else if tag_starts(s, i) {
        let e = tag_end(s, i + 1);
        if e <= i + 1 || e > s.len() {
            acc  // cannot happen: the first tag character extends the run
        } else {
            let name = s.subrange(i + 1, e);
            if acc.contains(name) {
                hashtags_from(s, e, acc)
            } else {
                hashtags_from(s, e, acc.push(name))
            }
        }
    } else {
        hashtags_from(s, i + 1, acc)
    }
}

/// Collect the hashtags of a text, in first-occurrence order, without
/// duplicates.
#[verifier::loop_isolation(false)]
pub fn collect_hashtags(content: &str) -> (r: Vec<String>)
    ensures
        r.deep_view() == hashtags_from(content@, 0, Seq::<Seq<char>>::empty()),
{
    let v = chars_of(content);
    let ghost s = v@;
    let mut out: Vec<String> = Vec::new();
    proof {
        assert(out.deep_view() =~= Seq::<Seq<char>>::empty());
    }
    let mut i: usize = 0;
    while i < v.len()
        invariant
            i <= v.len(),
            s == v@,
            hashtags_from(s, 0, Seq::<Seq<char>>::empty()) == hashtags_from(
                s,
                i as int,
                out.deep_view(),
            ),
        decreases v.len() - i,
    {
        let starts = i + 1 < v.len() && v[i] == '#' && (i == 0 || {
            let p = v[i - 1];
            p == ' ' || p == '\t' || p == '\n' || p == '\r'
        }) && {
            let c = v[i + 1];
            ('A' <= c && c <= 'Z') || ('a' <= c && c <= 'z') || ('0' <= c && c <= '9') || c == '_'
        };
        if starts {
            let mut e: usize = i + 1;
            while e < v.len() && (('A' <= v[e] && v[e] <= 'Z') || ('a' <= v[e] && v[e] <= 'z') || (
            '0' <= v[e] && v[e] <= '9') || v[e] == '_' || v[e] == '-')
                invariant
                    i + 1 <= e <= v.len(),
                    forall|k: int| i + 1 <= k < e ==> is_tag_rest(#[trigger] s[k]),
                decreases v.len() - e,
            {
                e = e + 1;
            }
            proof {
                lemma_tag_end_is(s, i + 1 as int, e as int);
            }
            let mut name_v: Vec<char> = Vec::new();
            let mut k: usize = i + 1;
            while k < e
                invariant
                    i + 1 <= k <= e <= v.len(),
                    s == v@,
                    name_v@ == s.subrange(i + 1 as int, k as int),
                decreases e - k,
            {
                name_v.push(v[k]);
                proof {
                    assert(s.subrange(i + 1 as int, k + 1 as int) =~= s.subrange(
                        i + 1 as int,
                        k as int,
                    ).push(s[k as int]));
                }
                k = k + 1;
            }
            // is the tag already collected?
            let mut present = false;
            let mut q: usize = 0;
            while q < out.len()
                invariant
                    q <= out.len(),
                    present == exists|w: int|
                        0 <= w < q && #[trigger] out.deep_view()[w] == name_v@,
                decreases out.len() - q,
            {
                let hit = eq_str(&name_v, out[q].as_str());
                proof {
                    assert(out.deep_view()[q as int] == out@[q as int]@);
                }
                if hit {
                    present = true;
                }
                q = q + 1;
            }
            proof {
                if present {
                    assert(out.deep_view().contains(name_v@));
                } else {
                    assert(!out.deep_view().contains(name_v@)) by {
                        if out.deep_view().contains(name_v@) {
                            let w = choose|w: int|
                                0 <= w < out.deep_view().len() && out.deep_view()[w] == name_v@;
                            assert(out.deep_view()[w] == name_v@);
                        }
                    }
                }
            }
            if !present {
                let ghost out_pre = out.deep_view();
                let ghost out_vec_pre = out@;
                out.push(string_from(&name_v));
                proof {
                    assert(out@.len() == out_vec_pre.len() + 1);
                    assert forall|w: int| 0 <= w < out@.len() implies #[trigger] out.deep_view()[w]
                        == out_pre.push(name_v@)[w] by {
                        assert(out.deep_view()[w] == out@[w]@);
                        if w < out_vec_pre.len() {
                            assert(out@[w] == out_vec_pre[w]);
                            assert(out_pre[w] == out_vec_pre[w]@);
                        }
                    }
                    assert(out.deep_view() =~= out_pre.push(name_v@));
                }
            }
            i = e;
        } else {
            i = i + 1;
        }
    }
    out
}

proof fn lemma_tag_end_is(s: Seq<char>, lo: int, a: int)
    requires
        0 <= lo <= a <= s.len(),
        forall|k: int| lo <= k < a ==> is_tag_rest(#[trigger] s[k]),
        a < s.len() ==> !is_tag_rest(s[a]),
    ensures
        tag_end(s, lo) == a,
    decreases a - lo,
{
    if lo < a {
        lemma_tag_end_is(s, lo + 1, a);
    }
}

/// The first heading title of the text from position `p` on: the trimmed
/// rest of the first line that opens with `#` and a blank, when that rest
/// is not empty.
pub open spec fn heading_from(s: Seq<char>, p: int) -> Option<Seq<char>>
    decreases s.len() - p,
{
    if p < 0 || p >= s.len() {
        None
    } else {
        let nl = crate::strength::find_from(s, '\n', p);
        if p <= nl <= s.len() {
            let line = s.subrange(p, nl);
            let t = heading_of_line(line);
            if t is Some {
                t
            } else if nl < s.len() {
                heading_from(s, nl + 1)
            } else {
                None
            }
        } else {
            None  // cannot happen: the newline search never moves backwards
        }
    }
}

/// The heading title of one line, if the line is a heading.
pub open spec fn heading_of_line(line: Seq<char>) -> Option<Seq<char>> {
    if line.len() >= 2 && line[0] == '#' && (line[1] == ' ' || line[1] == '\t') && trim_seq(
        line.skip(1),
    ).len() > 0 {
        Some(trim_seq(line.skip(1)))
    } else {
        None
    }
}

/// Find the first heading title of a text.
#[verifier::loop_isolation(false)]
pub fn find_heading(content: &str) -> (r: Option<String>)
    ensures
        match heading_from(content@, 0) {
            Some(t) => r matches Some(x) && x@ == t,
            None => r is None,
        },
{
    let v = chars_of(content);
    let ghost s = v@;
    let mut p: usize = 0;
    while p < v.len()
        invariant
            0 <= p <= v.len(),
            s == v@,
            heading_from(s, 0) == heading_from(s, p as int),
        decreases v.len() - p,
    {
        let mut nl: usize = p;
        while nl < v.len() && v[nl] != '\n'
            invariant
                p <= nl <= v.len(),
                forall|k: int| p <= k < nl ==> s[k] != '\n',
            decreases v.len() - nl,
        {
            nl = nl + 1;
        }
        proof {
            crate::strength::lemma_find_from_range(s, '\n', p as int, nl as int);
        }
        let mut line: Vec<char> = Vec::new();
        let mut i: usize = p;
        while i < nl
            invariant
                p <= i <= nl <= v.len(),
                s == v@,
                line@ == s.subrange(p as int, i as int),
            decreases nl - i,
        {
            line.push(v[i]);
            proof {
                assert(s.subrange(p as int, i + 1 as int) =~= s.subrange(p as int, i as int).push(
                    s[i as int],
                ));
            }
            i = i + 1;
        }
        if line.len() >= 2 && line[0] == '#' && (line[1] == ' ' || line[1] == '\t') {
            let mut rest: Vec<char> = Vec::new();
            let mut k: usize = 1;
            while k < line.len()
                invariant
                    1 <= k <= line@.len(),
                    rest@ == line@.subrange(1, k as int),
                decreases line.len() - k,
            {
                rest.push(line[k]);
                proof {
                    assert(line@.subrange(1, k + 1 as int) =~= line@.subrange(1, k as int).push(
                        line@[k as int],
                    ));
                }
                k = k + 1;
            }
            proof {
                assert(rest@ =~= line@.skip(1));
            }
            let t = trim_chars(&rest);
            if t.len() > 0 {
                proof {
                    if (nl as int) < s.len() {
                        assert(s.subrange(p as int, nl as int) == line@);
                    } else {
                        assert(s.subrange(p as int, s.len() as int) == line@);
                    }
                }
                return Some(string_from(&t));
            }
        }
        proof {
            if (nl as int) < s.len() {
                assert(s.subrange(p as int, nl as int) == line@);
            } else {
                assert(s.subrange(p as int, s.len() as int) == line@);
            }
        }
        if nl < v.len() {
            p = nl + 1;
        } else {
            p = v.len();
        }
    }
    None
}

/// What `parse_markdown` yields: the frontmatter, and the links, tags,
/// stripped text and title of the body after it.
pub open spec fn spec_parse_markdown(content: Seq<char>, file_name: Seq<char>) -> ParsedDocView {
    let fm = spec_parse_frontmatter(content);
    let body = spec_remaining_after(content);
    ParsedDocView {
        frontmatter: fm,
        wiki_links: links_from(body, 0),
        tags: hashtags_from(body, 0, Seq::<Seq<char>>::empty()),
        content: stripped_from(body, 0),
        title: spec_title(fm, body, file_name),
        file_name: file_name,
    }
}

/// Title resolution: the frontmatter title, else the first heading of the
/// body, else the file stem, else "Untitled".
pub open spec fn spec_title(
    fm: Option<FrontmatterView>,
    body: Seq<char>,
    file_name: Seq<char>,
) -> Seq<char> {
    match fm {
        Some(f) => match f.title {
            Some(t) => t,
            None => spec_fallback_title(body, file_name),
        },
        None => spec_fallback_title(body, file_name),
    }
}

/// The title when the frontmatter gives none: the body's first heading,
/// else the file stem, else "Untitled".
pub open spec fn spec_fallback_title(body: Seq<char>, file_name: Seq<char>) -> Seq<char> {
    match heading_from(body, 0) {
        Some(t) => t,
        None => {
            if Node::spec_file_stem(file_name).len() > 0 {
                Node::spec_file_stem(file_name)
            } else {
                "Untitled"@
            }
        },
    }
}

/// Parse a note: split off the frontmatter, then read the body's links,
/// hashtags and heading, and strip the link syntax from the text.
pub fn parse_markdown(content: &str, file_name: &str) -> (r: ParsedDoc)
    ensures
        r@ == spec_parse_markdown(content@, file_name@),
{
    let fm = parse_frontmatter(content);
    let (_, body) = extract_frontmatter(content);
    let wiki_links = parse_wiki_links(body.as_str());
    let tags = collect_hashtags(body.as_str());
    let stripped = remove_wiki_links(body.as_str());
    let title: String = match &fm {
        Some(f) => {
            match &f.title {
                Some(t) => t.clone(),
                None => fallback_title(body.as_str(), file_name),
            }
        },
        None => fallback_title(body.as_str(), file_name),
    };
    let fv = chars_of(file_name);
    let r = ParsedDoc {
        frontmatter: fm,
        wiki_links,
        tags,
        content: stripped,
        title,
        file_name: string_from(&fv),
    };
    proof {
        assert(r@ =~= spec_parse_markdown(content@, file_name@)) by {
            assert(r@.frontmatter == spec_parse_markdown(content@, file_name@).frontmatter);
        }
    }
    r
}

/// The first heading of the body, else the file stem, else "Untitled".
fn fallback_title(body: &str, file_name: &str) -> (r: String)
    ensures
        r@ == spec_fallback_title(body@, file_name@),
{
    match find_heading(body) {
        Some(t) => t,
        None => {
            let stem = crate::node::file_stem(file_name);
            if stem.len() > 0 {
                string_from(&stem)
            } else {
                let u = chars_of("Untitled");
                string_from(&u)
            }
        },
    }
}

/// Items of `more` appended to `acc` unless already present, from
/// position `i` on.
pub open spec fn add_unique(acc: Seq<Seq<char>>, more: Seq<Seq<char>>, i: int) -> Seq<Seq<char>>
    decreases more.len() - i,
{
    if i < 0 || i >= more.len() {
        acc
    } else if acc.contains(more[i]) {
        add_unique(acc, more, i + 1)
    } else {
        add_unique(acc.push(more[i]), more, i + 1)
    }
}

/// What `to_node` builds, given the stamping instant.
pub open spec fn spec_to_node(d: ParsedDocView, now: int) -> NodeView {
    NodeView {
        id: spec_node_id_for_path(d.file_name),
        node_type: match d.frontmatter {
            Some(f) => f.node_type,
            None => NodeType::Concept,
        },
        title: d.title,
        content: Some(d.content),
        tags: add_unique(
            add_unique(
                Seq::<Seq<char>>::empty(),
                match d.frontmatter {
                    Some(f) => f.tags,
                    None => Seq::<Seq<char>>::empty(),
                },
                0,
            ),
            d.tags,
            0,
        ),
        created_at: now,
        updated_at: now,
    }
}

impl ParsedDoc {
    /// The node this note denotes, stamped at the current instant: the
    /// IRI is derived from the file name, the type and tags come from the
    /// frontmatter merged with the hashtags, and the body is the stripped
    /// content.
    pub fn to_node(&self) -> (r: Node)
        ensures
            r@ == spec_to_node(self@, r@.created_at),
    {
        let now = now_ts();
        self.to_node_at(now)
    }

    /// The node this note denotes, stamped with the given instant.
    #[verifier::loop_isolation(false)]
    pub fn to_node_at(&self, now: i64) -> (r: Node)
        ensures
            r@ == spec_to_node(self@, now as int),
    {
        let id = node_id_for_path(self.file_name.as_str());
        let node_type = match &self.frontmatter {
            Some(f) => f.node_type,
            None => NodeType::Concept,
        };
        let mut tags: Vec<String> = Vec::new();
        proof {
            assert(tags.deep_view() =~= Seq::<Seq<char>>::empty());
        }
        match &self.frontmatter {
            Some(f) => {
                push_unique(&mut tags, &f.tags);
            },
            None => {},
        }
        proof {
            if self@.frontmatter is None {
                assert(tags.deep_view() =~= add_unique(
                    Seq::<Seq<char>>::empty(),
                    Seq::<Seq<char>>::empty(),
                    0,
                ));
            }
        }
        push_unique(&mut tags, &self.tags);
        let title_v = chars_of(self.title.as_str());
        let content_v = chars_of(self.content.as_str());
        let r = Node {
            id,
            node_type,
            title: string_from(&title_v),
            content: Some(string_from(&content_v)),
            tags,
            created_at: now,
            updated_at: now,
        };
        proof {
            assert(r@ =~= spec_to_node(self@, now as int));
        }
        r
    }
}

/// Append the items of `src` that `dst` does not yet hold, in order.
#[verifier::loop_isolation(false)]
fn push_unique(dst: &mut Vec<String>, src: &Vec<String>)
    ensures
        final(dst).deep_view() == add_unique(old(dst).deep_view(), src.deep_view(), 0),
{
    let ghost sv = src.deep_view();
    let mut i: usize = 0;
    while i < src.len()
        invariant
            i <= src.len(),
            sv == src.deep_view(),
            add_unique(old(dst).deep_view(), sv, 0) == add_unique(dst.deep_view(), sv, i as int),
        decreases src.len() - i,
    {
        let mut present = false;
        let mut q: usize = 0;
        while q < dst.len()
            invariant
                q <= dst.len(),
                present == exists|w: int|
                    0 <= w < q && #[trigger] dst.deep_view()[w] == sv[i as int],
            decreases dst.len() - q,
        {
            let item_v = chars_of(src[i].as_str());
            let hit = eq_str(&item_v, dst[q].as_str());
            proof {
                assert(dst.deep_view()[q as int] == dst@[q as int]@);
                assert(sv[i as int] == src@[i as int]@);
            }
            if hit {
                present = true;
            }
            q = q + 1;
        }
        proof {
            if present {
                assert(dst.deep_view().contains(sv[i as int]));
            } else {
                assert(!dst.deep_view().contains(sv[i as int])) by {
                    if dst.deep_view().contains(sv[i as int]) {
                        let w = choose|w: int|
                            0 <= w < dst.deep_view().len() && dst.deep_view()[w] == sv[i as int];
                        assert(dst.deep_view()[w] == sv[i as int]);
                    }
                }
            }
        }
        if !present {
            let ghost d_pre = dst.deep_view();
            let ghost d_vec_pre = dst@;
            dst.push(src[i].clone());
            proof {
                assert(dst@.len() == d_vec_pre.len() + 1);
                assert forall|w: int| 0 <= w < dst@.len() implies #[trigger] dst.deep_view()[w]
                    == d_pre.push(sv[i as int])[w] by {
                    assert(dst.deep_view()[w] == dst@[w]@);
                    if w < d_vec_pre.len() {
                        assert(dst@[w] == d_vec_pre[w]);
                        assert(d_pre[w] == d_vec_pre[w]@);
                    } else {
                        assert(dst@[w] == src@[i as int]);
                        assert(sv[i as int] == src@[i as int]@);
                    }
                }
                assert(dst.deep_view() =~= d_pre.push(sv[i as int]));
            }
        }
        i = i + 1;
    }
}

} // verus!
