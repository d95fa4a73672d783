//! YAML frontmatter: the metadata block between `---` markers at the top
//! of a note.
//!
//! The recognised keys are `title`, `type`, `tags` and `summary`; unknown
//! keys are ignored. The parser reads the plain `key: value` subset the
//! engine itself writes: scalars, optionally double-quoted with
//! backslash escapes, and flow sequences `[a, b]`.

use vstd::prelude::*;

use crate::node::{parse_node_type, spec_parse_node_type, Node, NodeType};
use crate::strength::find_from;
use crate::text::{
    chars_of, eq_str, first_non_ws, string_from, trim_chars, trim_seq,
};

verus! {

/// The mathematical model of a frontmatter block.
#[verifier::ext_equal]
pub struct FrontmatterView {
    /// The note title, when given.
    pub title: Option<Seq<char>>,
    /// The node type; `Concept` when absent or unknown.
    pub node_type: NodeType,
    /// The tags, in order.
    pub tags: Seq<Seq<char>>,
    /// A short summary, when given.
    pub summary: Option<Seq<char>>,
}

/// Parsed YAML metadata of a note.
#[derive(Debug)]
pub struct Frontmatter {
    /// The note title, when given.
    pub title: Option<String>,
    /// The node type; `Concept` when absent or unknown.
    pub node_type: NodeType,
    /// The tags, in order.
    pub tags: Vec<String>,
    /// A short summary, when given.
    pub summary: Option<String>,
}

impl View for Frontmatter {
    type V = FrontmatterView;

    open spec fn view(&self) -> FrontmatterView {
        FrontmatterView {
            title: self.title.deep_view(),
            node_type: self.node_type,
            tags: self.tags.deep_view(),
            summary: self.summary.deep_view(),
        }
    }
}

impl Clone for Frontmatter {
    /// A clone carries the same model.
    fn clone(&self) -> (r: Self)
        ensures
            r@ == self@,
    {
        let title: Option<String> = match &self.title {
            Some(t) => Some(t.clone()),
            None => None,
        };
        let summary: Option<String> = match &self.summary {
            Some(t) => Some(t.clone()),
            None => None,
        };
        let mut tags: Vec<String> = Vec::new();
        let mut i: usize = 0;
        while i < self.tags.len()
            invariant
                i <= self.tags.len(),
                tags@.len() == i,
                tags.deep_view() == self.tags.deep_view().take(i as int),
            decreases self.tags.len() - i,
        {
            tags.push(self.tags[i].clone());
            proof {
                assert forall|j: int| 0 <= j < i + 1 implies #[trigger] tags.deep_view()[j]
                    == self.tags.deep_view().take(i + 1 as int)[j] by {
                    assert(tags.deep_view()[j] == tags@[j]@);
                    assert(self.tags.deep_view()[j] == self.tags@[j]@);
                    if j < i as int {
                        assert(tags@[j]@ == tags.deep_view().take(i as int)[j]);
                    }
                }
                assert(tags.deep_view() =~= self.tags.deep_view().take(i + 1 as int));
            }
            i = i + 1;
        }
        proof {
            assert(self.tags.deep_view().take(self.tags@.len() as int) =~= self.tags.deep_view());
        }
        let r = Frontmatter { title, node_type: self.node_type, tags, summary };
        proof {
            assert(r@ == self@) by {
                assert(r@.title == self@.title);
                assert(r@.tags == self@.tags);
                assert(r@.summary == self@.summary);
            }
        }
        r
    }
}

impl Default for Frontmatter {
    /// No title, `Concept`, no tags, no summary.
    fn default() -> (r: Self)
        ensures
            r@.title is None,
            r@.node_type == NodeType::Concept,
            r@.tags =~= Seq::<Seq<char>>::empty(),
            r@.summary is None,
    {
        Frontmatter { title: None, node_type: NodeType::Concept, tags: Vec::new(), summary: None }
    }
}

impl Frontmatter {
    /// The default frontmatter: no title, `Concept`, no tags, no summary.
    pub fn new() -> (r: Frontmatter)
        ensures
            r@.title is None,
            r@.node_type == NodeType::Concept,
            r@.tags =~= Seq::<Seq<char>>::empty(),
            r@.summary is None,
    {
        Frontmatter { title: None, node_type: NodeType::Concept, tags: Vec::new(), summary: None }
    }

    /// The frontmatter a node denotes: its title, type and tags, with the
    /// node body as summary.
    pub fn from_node(node: &Node) -> (r: Frontmatter)
        ensures
            r@.title == Some(node@.title),
            r@.node_type == node@.node_type,
            r@.tags == node@.tags,
            r@.summary == node@.content,
    {
        let title = chars_of(node.title.as_str());
        let mut tags: Vec<String> = Vec::new();
        let mut i: usize = 0;
        while i < node.tags.len()
            invariant
                i <= node.tags.len(),
                tags@.len() == i,
                tags.deep_view() == node.tags.deep_view().take(i as int),
            decreases node.tags.len() - i,
        {
            tags.push(node.tags[i].clone());
            proof {
                assert forall|j: int| 0 <= j < i + 1 implies #[trigger] tags.deep_view()[j]
                    == node.tags.deep_view().take(i + 1 as int)[j] by {
                    assert(tags.deep_view()[j] == tags@[j]@);
                    assert(node.tags.deep_view()[j] == node.tags@[j]@);
                    if j < i as int {
                        assert(tags@[j]@ == tags.deep_view().take(i as int)[j]);
                    }
                }
                assert(tags.deep_view() =~= node.tags.deep_view().take(i + 1 as int));
            }
            i = i + 1;
        }
        proof {
            assert(node.tags.deep_view().take(node.tags@.len() as int) =~= node.tags.deep_view());
        }
        let summary: Option<String> = match &node.content {
            Some(c) => Some(c.clone()),
            None => None,
        };
        Frontmatter { title: Some(string_from(&title)), node_type: node.node_type, tags, summary }
    }
}

/// The escape of one character inside a double-quoted YAML scalar.
pub open spec fn yaml_escape_char(c: char) -> Seq<char> {
    if c == '"' {
        seq!['\\', '"']
    } else if c == '\\' {
        seq!['\\', '\\']
    } else if c == '\n' {
        seq!['\\', 'n']
    } else if c == '\r' {
        seq!['\\', 'r']
    } else if c == '\t' {
        seq!['\\', 't']
    } else {
        seq![c]
    }
}

/// The escaped form of a scalar, from position `i` on.
pub open spec fn yaml_escape_from(s: Seq<char>, i: int) -> Seq<char>
    decreases s.len() - i,
{
    if i < 0 || i >= s.len() {
        Seq::<char>::empty()
    } else {
        yaml_escape_char(s[i]) + yaml_escape_from(s, i + 1)
    }
}

/// Escape the YAML special characters of a scalar.
#[verifier::loop_isolation(false)]
pub fn escape_yaml_string(s: &str) -> (r: String)
    ensures
        r@ == yaml_escape_from(s@, 0),
{
    let v = chars_of(s);
    let mut out: Vec<char> = Vec::new();
    let mut i: usize = 0;
    while i < v.len()
        invariant
            i <= v.len(),
            v@ == s@,
            yaml_escape_from(s@, 0) == out@ + yaml_escape_from(s@, i as int),
        decreases v.len() - i,
    {
        let ghost pre = out@;
        let c = v[i];
        if c == '"' {
            out.push('\\');
            out.push('"');
        } else if c == '\\' {
            out.push('\\');
            out.push('\\');
        } else if c == '\n' {
            out.push('\\');
            out.push('n');
        } else if c == '\r' {
            out.push('\\');
            out.push('r');
        } else if c == '\t' {
            out.push('\\');
            out.push('t');
        } else {
            out.push(c);
        }
        proof {
            assert(out@ =~= pre + yaml_escape_char(s@[i as int]));
            assert(out@ + yaml_escape_from(s@, i + 1 as int) =~= pre + (yaml_escape_char(
                s@[i as int],
            ) + yaml_escape_from(s@, i + 1 as int)));
        }
        i = i + 1;
    }
    string_from(&out)
}

/// The character a backslash escape denotes.
pub open spec fn yaml_unescape_char(c: char) -> char {
    if c == 'n' {
        '\n'
    } else if c == 'r' {
        '\r'
    } else if c == 't' {
        '\t'
    } else {
        c
    }
}

/// The unescaped form of a quoted scalar's inside, from position `i` on.
pub open spec fn yaml_unescape_from(s: Seq<char>, i: int) -> Seq<char>
    decreases s.len() - i,
{
    if i < 0 || i >= s.len() {
        Seq::<char>::empty()
    } else if s[i] == '\\' && i + 1 < s.len() {
        seq![yaml_unescape_char(s[i + 1])] + yaml_unescape_from(s, i + 2)
    } else {
        seq![s[i]] + yaml_unescape_from(s, i + 1)
    }
}

/// Undo the backslash escapes of a quoted scalar's inside.
#[verifier::loop_isolation(false)]
pub fn unescape_yaml(v: &Vec<char>) -> (r: Vec<char>)
    ensures
        r@ == yaml_unescape_from(v@, 0),
{
    let ghost s = v@;
    let mut out: Vec<char> = Vec::new();
    let mut i: usize = 0;
    while i < v.len()
        invariant
            i <= v.len(),
            yaml_unescape_from(s, 0) == out@ + yaml_unescape_from(s, i as int),
        decreases v.len() - i,
    {
        let ghost pre = out@;
        let c = v[i];
        if c == '\\' && v.len() - i > 1 {
            let d = v[i + 1];
            if d == 'n' {
                out.push('\n');
            } else if d == 'r' {
                out.push('\r');
            } else if d == 't' {
                out.push('\t');
            } else {
                out.push(d);
            }
            proof {
                assert(out@ =~= pre + seq![yaml_unescape_char(s[i + 1])]);
                assert(out@ + yaml_unescape_from(s, i + 2 as int) =~= pre + (seq![
                    yaml_unescape_char(s[i + 1]),
                ] + yaml_unescape_from(s, i + 2 as int)));
            }
            i = i + 2;
        } else {
            out.push(c);
            proof {
                assert(out@ + yaml_unescape_from(s, i + 1 as int) =~= pre + (seq![s[i as int]]
                    + yaml_unescape_from(s, i + 1 as int)));
            }
            i = i + 1;
        }
    }
    out
}

/// The scalar a value text denotes: trimmed, and unescaped when it is
/// double-quoted.
pub open spec fn spec_scalar(s: Seq<char>) -> Seq<char> {
    let t = trim_seq(s);
    if t.len() >= 2 && t[0] == '"' && t[t.len() - 1] == '"' {
        yaml_unescape_from(t.subrange(1, t.len() - 1), 0)
    } else {
        t
    }
}

/// Read a scalar value.
pub fn read_scalar(v: &Vec<char>) -> (r: Vec<char>)
    ensures
        r@ == spec_scalar(v@),
{
    let t = trim_chars(v);
    if t.len() >= 2 && t[0] == '"' && t[t.len() - 1] == '"' {
        let mut inner: Vec<char> = Vec::new();
        let mut i: usize = 1;
        while i < t.len() - 1
            invariant
                1 <= i <= t@.len() - 1,
                t@.len() >= 2,
                inner@ == t@.subrange(1, i as int),
            decreases t.len() - i,
        {
            inner.push(t[i]);
            proof {
                assert(t@.subrange(1, i + 1 as int) =~= t@.subrange(1, i as int).push(
                    t@[i as int],
                ));
            }
            i = i + 1;
        }
        proof {
            assert(inner@ =~= t@.subrange(1, t@.len() - 1));
        }
        unescape_yaml(&inner)
    } else {
        t
    }
}

/// The items of a flow sequence body, split on commas, each read as a
/// scalar, blanks dropped; from position `i` on, `start` marking the
/// current item's beginning.
pub open spec fn spec_flow_items(s: Seq<char>, start: int, i: int) -> Seq<Seq<char>>
    decreases s.len() - i,
{
    if i < 0 || start < 0 || start > i {
        Seq::<Seq<char>>::empty()
    } else if i >= s.len() {
        let item = spec_scalar(s.subrange(start, s.len() as int));
        if item.len() == 0 {
            Seq::<Seq<char>>::empty()
        } else {
            seq![item]
        }
    } else if s[i] == ',' {
        let item = spec_scalar(s.subrange(start, i));
        if item.len() == 0 {
            spec_flow_items(s, i + 1, i + 1)
        } else {
            seq![item] + spec_flow_items(s, i + 1, i + 1)
        }
    } else {
        spec_flow_items(s, start, i + 1)
    }
}

/// The tags a value text denotes: the scalars of a `[ ... ]` flow
/// sequence; anything else yields no tags.
pub open spec fn spec_tags_value(s: Seq<char>) -> Seq<Seq<char>> {
    let t = trim_seq(s);
    if t.len() >= 2 && t[0] == '[' && t[t.len() - 1] == ']' {
        spec_flow_items(t.subrange(1, t.len() - 1), 0, 0)
    } else {
        Seq::<Seq<char>>::empty()
    }
}

/// Read a `tags` value.
#[verifier::loop_isolation(false)]
pub fn read_tags(v: &Vec<char>) -> (r: Vec<String>)
    ensures
        r.deep_view() == spec_tags_value(v@),
{
    let t = trim_chars(v);
    if !(t.len() >= 2 && t[0] == '[' && t[t.len() - 1] == ']') {
        let out: Vec<String> = Vec::new();
        proof {
            assert(out.deep_view() =~= spec_tags_value(v@));
        }
        return out;
    }
    let mut body: Vec<char> = Vec::new();
    let mut i: usize = 1;
    while i < t.len() - 1
        invariant
            1 <= i <= t@.len() - 1,
            t@.len() >= 2,
            body@ == t@.subrange(1, i as int),
        decreases t.len() - i,
    {
        body.push(t[i]);
        proof {
            assert(t@.subrange(1, i + 1 as int) =~= t@.subrange(1, i as int).push(t@[i as int]));
        }
        i = i + 1;
    }
    proof {
        assert(body@ =~= t@.subrange(1, t@.len() - 1));
    }
    let ghost s = body@;
    let mut out: Vec<String> = Vec::new();
    let mut start: usize = 0;
    let mut j: usize = 0;
    while j < body.len()
        invariant
            0 <= start <= j <= body.len(),
            s == body@,
            out@.len() >= 0,
            spec_flow_items(s, 0, 0) == out.deep_view() + spec_flow_items(
                s,
                start as int,
                j as int,
            ),
        decreases body.len() - j,
    {
        if body[j] == ',' {
            let ghost out_pre = out.deep_view();
            let ghost out_vec_pre = out@;
            let mut item_v: Vec<char> = Vec::new();
            let mut k: usize = start;
            while k < j
                invariant
                    start <= k <= j <= body.len(),
                    s == body@,
                    item_v@ == s.subrange(start as int, k as int),
                decreases j - k,
            {
                item_v.push(body[k]);
                proof {
                    assert(s.subrange(start as int, k + 1 as int) =~= s.subrange(
                        start as int,
                        k as int,
                    ).push(s[k as int]));
                }
                k = k + 1;
            }
            let item = read_scalar(&item_v);
            if item.len() > 0 {
                out.push(string_from(&item));
                proof {
                    assert(out@.len() == out_vec_pre.len() + 1);
                    assert forall|q: int| 0 <= q < out@.len() implies #[trigger] out.deep_view()[q]
                        == (out_pre + seq![item@])[q] by {
                        assert(out.deep_view()[q] == out@[q]@);
                        if q < out_vec_pre.len() {
                            assert(out@[q] == out_vec_pre[q]);
                            assert(out_pre[q] == out_vec_pre[q]@);
                        }
                    }
                    assert(out.deep_view() =~= out_pre + seq![item@]);
                    assert(out.deep_view() + spec_flow_items(s, j + 1 as int, j + 1 as int)
                        =~= out_pre + (seq![item@] + spec_flow_items(
                        s,
                        j + 1 as int,
                        j + 1 as int,
                    )));
                }
            }
            start = j + 1;
            j = j + 1;
        } else {
            j = j + 1;
        }
    }
    // the final item
    let ghost out_pre = out.deep_view();
    let ghost out_vec_pre = out@;
    let mut item_v: Vec<char> = Vec::new();
    let mut k: usize = start;
    while k < body.len()
        invariant
            start <= k <= body.len(),
            s == body@,
            item_v@ == s.subrange(start as int, k as int),
        decreases body.len() - k,
    {
        item_v.push(body[k]);
        proof {
            assert(s.subrange(start as int, k + 1 as int) =~= s.subrange(
                start as int,
                k as int,
            ).push(s[k as int]));
        }
        k = k + 1;
    }
    let item = read_scalar(&item_v);
    if item.len() > 0 {
        out.push(string_from(&item));
        proof {
            assert(out@.len() == out_vec_pre.len() + 1);
            assert forall|q: int| 0 <= q < out@.len() implies #[trigger] out.deep_view()[q] == (
            out_pre + seq![item@])[q] by {
                assert(out.deep_view()[q] == out@[q]@);
                if q < out_vec_pre.len() {
                    assert(out@[q] == out_vec_pre[q]);
                    assert(out_pre[q] == out_vec_pre[q]@);
                }
            }
            assert(out.deep_view() =~= out_pre + seq![item@]);
        }
    } else {
        proof {
            assert(out.deep_view() =~= out_pre + Seq::<Seq<char>>::empty());
        }
    }
    out
}

/// Whether the note opens, after leading whitespace, with the `---`
/// marker.
pub open spec fn spec_has_frontmatter(s: Seq<char>) -> bool {
    let t = s.skip(first_non_ws(s, 0));
    t.len() >= 3 && t[0] == '-' && t[1] == '-' && t[2] == '-'
}

/// One `key: value` line folded into the frontmatter under construction.
pub open spec fn fm_apply(acc: FrontmatterView, line: Seq<char>) -> FrontmatterView {
    let c = find_from(line, ':', 0);
    if c >= line.len() {
        acc
    } else {
        let key = trim_seq(line.take(c));
        let value = line.skip(c + 1);
        if key == "title"@ {
            FrontmatterView { title: Some(spec_scalar(value)), ..acc }
        } else if key == "type"@ {
            FrontmatterView { node_type: spec_parse_node_type(spec_scalar(value)), ..acc }
        } else if key == "tags"@ {
            FrontmatterView { tags: spec_tags_value(value), ..acc }
        } else if key == "summary"@ {
            FrontmatterView { summary: Some(spec_scalar(value)), ..acc }
        } else {
            acc
        }
    }
}

/// The recognised keys folded over the lines of the YAML text, from
/// position `p` on.
pub open spec fn fm_scan(s: Seq<char>, p: int, acc: FrontmatterView) -> FrontmatterView
    decreases s.len() - p,
{
    if p < 0 || p >= s.len() {
        acc
    } else {
        let nl = find_from(s, '\n', p);
        if p <= nl && nl < s.len() {
            fm_scan(s, nl + 1, fm_apply(acc, s.subrange(p, nl)))
        } else if nl >= s.len() {
            fm_apply(acc, s.subrange(p, s.len() as int))
        } else {
            acc  // cannot happen: the newline search never moves backwards
        }
    }
}

/// Whether any line from position `p` on holds a `key: value` pair.
pub open spec fn scan_kv(s: Seq<char>, p: int) -> bool
    decreases s.len() - p,
{
    if p < 0 || p >= s.len() {
        false
    } else {
        let nl = find_from(s, '\n', p);
        if p <= nl && nl < s.len() {
            find_from(s.subrange(p, nl), ':', 0) < nl - p || scan_kv(s, nl + 1)
        } else if nl >= s.len() {
            find_from(s.subrange(p, s.len() as int), ':', 0) < s.len() - p
        } else {
            false  // cannot happen: the newline search never moves backwards
        }
    }
}

/// The default frontmatter model.
pub open spec fn fm_default() -> FrontmatterView {
    FrontmatterView {
        title: None,
        node_type: NodeType::Concept,
        tags: Seq::<Seq<char>>::empty(),
        summary: None,
    }
}

/// What `parse_frontmatter` yields on a whole note: the folded keys of
/// the delimited block, or nothing when there is no block or no line of
/// it holds a pair.
pub open spec fn spec_parse_frontmatter(content: Seq<char>) -> Option<FrontmatterView> {
    match spec_extract_frontmatter(content) {
        Some(yaml) => {
            if scan_kv(yaml, 0) {
                Some(fm_scan(yaml, 0, fm_default()))
            } else {
                None
            }
        },
        None => None,
    }
}

/// The first index at or after `i` where `---` begins, or the length.
pub open spec fn find_marker(s: Seq<char>, i: int) -> int
    decreases s.len() - i,
{
    if i < 0 || i + 3 > s.len() {
        s.len() as int
    } else if s[i] == '-' && s[i + 1] == '-' && s[i + 2] == '-' {
        i
    } else {
        find_marker(s, i + 1)
    }
}

/// The YAML text between the `---` markers, when the note carries one:
/// leading whitespace is skipped, the opening `---` and the character
/// after it are dropped, and the text runs to the next `---`.
pub open spec fn spec_extract_frontmatter(content: Seq<char>) -> Option<Seq<char>> {
    let t = content.skip(first_non_ws(content, 0));
    if t.len() >= 3 && t[0] == '-' && t[1] == '-' && t[2] == '-' {
        let m = find_marker(t, 4);
        if 4 <= m && m < t.len() {
            Some(t.subrange(4, m))
        } else {
            None
        }
    } else {
        None
    }
}

/// What follows the closing marker (and the character after it), or the
/// whole note when there is no frontmatter block.
pub open spec fn spec_remaining_after(content: Seq<char>) -> Seq<char> {
    let t = content.skip(first_non_ws(content, 0));
    match spec_extract_frontmatter(content) {
        Some(_) => {
            let m = find_marker(t, 4);
            if m + 4 <= t.len() {
                t.skip(m + 4)
            } else {
                Seq::<char>::empty()
            }
        },
        None => content,
    }
}

/// Whether the note opens with a frontmatter marker.
#[verifier::loop_isolation(false)]
pub fn has_frontmatter(content: &str) -> (r: bool)
    ensures
        r == spec_has_frontmatter(content@),
{
    let v = chars_of(content);
    let ghost s = v@;
    let mut a: usize = 0;
    while a < v.len() && (v[a] == ' ' || v[a] == '\t' || v[a] == '\n' || v[a] == '\r')
        invariant
            a <= v.len(),
            forall|k: int| 0 <= k < a ==> crate::text::is_ws(s[k]),
        decreases v.len() - a,
    {
        a = a + 1;
    }
    proof {
        crate::text::lemma_first_non_ws_range(s, a as int);
    }
    v.len() - a >= 3 && v[a] == '-' && v[a + 1] == '-' && v[a + 2] == '-'
}

/// Split a note into its frontmatter YAML text, when a delimited block
/// opens it, and the rest of the note.
#[verifier::loop_isolation(false)]
pub fn extract_frontmatter(content: &str) -> (r: (Option<String>, String))
    ensures
        match spec_extract_frontmatter(content@) {
            Some(yaml) => r.0 matches Some(y) && y@ == yaml,
            None => r.0 is None,
        },
        r.1@ == spec_remaining_after(content@),
{
    let v = chars_of(content);
    let ghost s = v@;
    let mut a: usize = 0;
    while a < v.len() && (v[a] == ' ' || v[a] == '\t' || v[a] == '\n' || v[a] == '\r')
        invariant
            a <= v.len(),
            forall|k: int| 0 <= k < a ==> crate::text::is_ws(s[k]),
        decreases v.len() - a,
    {
        a = a + 1;
    }
    proof {
        crate::text::lemma_first_non_ws_range(s, a as int);
    }
    let ghost t = s.skip(a as int);
    if !(v.len() - a >= 3 && v[a] == '-' && v[a + 1] == '-' && v[a + 2] == '-') {
        let whole = string_from(&v);
        return (None, whole);
    }
    if v.len() - a < 7 {
        // no room for a closing marker
        let whole = string_from(&v);
        proof {
            lemma_find_marker_at(t, 4, 4);
        }
        return (None, whole);
    }
    // find the closing marker, starting one character past the opener
    let mut m: usize = a + 4;
    while m < v.len() && v.len() - m >= 3 && !(v[m] == '-' && v[m + 1] == '-' && v[m + 2] == '-')
        invariant
            a + 4 <= m <= v.len(),
            forall|k: int|
                4 <= k < m - a && k + 3 <= t.len() ==> !(#[trigger] t[k] == '-' && t[k + 1] == '-'
                    && t[k + 2] == '-'),
        decreases v.len() - m,
    {
        m = m + 1;
    }
    proof {
        lemma_find_marker_at(t, 4, m - a as int);
    }
    if v.len() - m < 3 {
        // no closing marker
        let whole = string_from(&v);
        proof {
            assert(find_marker(t, 4) == t.len());
        }
        return (None, whole);
    }
    // the yaml text: characters a + 4 .. m
    let mut yaml: Vec<char> = Vec::new();
    let mut i: usize = a + 4;
    while i < m
        invariant
            a + 4 <= i <= m,
            m <= v.len(),
            yaml@ == s.subrange(a + 4 as int, i as int),
        decreases m - i,
    {
        yaml.push(v[i]);
        proof {
            assert(s.subrange(a + 4 as int, i + 1 as int) =~= s.subrange(
                a + 4 as int,
                i as int,
            ).push(s[i as int]));
        }
        i = i + 1;
    }
    proof {
        assert(yaml@ =~= t.subrange(4, m - a as int));
    }
    // what follows the closing marker and the character after it
    let mut rest: Vec<char> = Vec::new();
    let mut j: usize = if v.len() - m >= 4 {
        m + 4
    } else {
        v.len()
    };
    let ghost j0 = j as int;
    while j < v.len()
        invariant
            j0 <= j <= v.len(),
            rest@ == s.subrange(j0, j as int),
        decreases v.len() - j,
    {
        rest.push(v[j]);
        proof {
            assert(s.subrange(j0, j + 1 as int) =~= s.subrange(j0, j as int).push(s[j as int]));
        }
        j = j + 1;
    }
    proof {
        let mm = find_marker(t, 4);
        assert(mm == m - a);
        if mm + 4 <= t.len() {
            assert(rest@ =~= t.skip(mm + 4));
        } else {
            assert(rest@ =~= Seq::<char>::empty());
        }
    }
    (Some(string_from(&yaml)), string_from(&rest))
}

proof fn lemma_find_marker_at(s: Seq<char>, lo: int, a: int)
    requires
        4 <= lo <= a,
        forall|k: int|
            lo <= k < a && k + 3 <= s.len() ==> !(#[trigger] s[k] == '-' && s[k + 1] == '-' && s[k
                + 2] == '-'),
        a + 3 <= s.len() ==> (s[a] == '-' && s[a + 1] == '-' && s[a + 2] == '-'),
    ensures
        find_marker(s, lo) == if a + 3 <= s.len() {
            a
        } else {
            s.len() as int
        },
    decreases a - lo,
{
    if lo < a {
        lemma_find_marker_at(s, lo + 1, a);
    }
}

/// Parse the frontmatter block of a note, when it has one with at least
/// one `key: value` line.
#[verifier::loop_isolation(false)]
pub fn parse_frontmatter(content: &str) -> (r: Option<Frontmatter>)
    ensures
        match spec_parse_frontmatter(content@) {
            Some(fm) => r matches Some(x) && x@ == fm,
            None => r is None,
        },
{
    let (yaml_opt, _rest) = extract_frontmatter(content);
    let yaml = match yaml_opt {
        Some(y) => y,
        None => {
            return None;
        },
    };
    let v = chars_of(yaml.as_str());
    let ghost s = v@;
    let mut acc = Frontmatter::new();
    let mut found = false;
    let mut p: usize = 0;
    while p < v.len()
        invariant
            0 <= p <= v.len(),
            s == v@,
            fm_scan(s, 0, fm_default()) == fm_scan(s, p as int, acc@),
            scan_kv(s, 0) == (found || scan_kv(s, p as int)),
        decreases v.len() - p,
    {
        // the end of the current line
        let mut nl: usize = p;
        while nl < v.len() && v[nl] != '\n'
            invariant
                p <= nl <= v.len(),
                forall|k: int| p <= k < nl ==> s[k] != '\n',
            decreases v.len() - nl,
        {
            nl = nl + 1;
        }
        proof {
            crate::strength::lemma_find_from_range(s, '\n', p as int, nl as int);
        }
        // the line itself
        let mut line: Vec<char> = Vec::new();
        let mut i: usize = p;
        while i < nl
            invariant
                p <= i <= nl <= v.len(),
                s == v@,
                line@ == s.subrange(p as int, i as int),
            decreases nl - i,
        {
            line.push(v[i]);
            proof {
                assert(s.subrange(p as int, i + 1 as int) =~= s.subrange(p as int, i as int).push(
                    s[i as int],
                ));
            }
            i = i + 1;
        }
        let had = apply_line(&mut acc, &line);
        if had {
            found = true;
        }
        proof {
            if (nl as int) < s.len() {
                assert(s.subrange(p as int, nl as int) == line@);
            } else {
                assert(s.subrange(p as int, s.len() as int) == line@);
            }
        }
        if nl < v.len() {
            p = nl + 1;
        } else {
            p = v.len();
            proof {
                assert(fm_scan(s, p as int, acc@) == acc@);
                assert(!scan_kv(s, p as int));
            }
        }
    }
    if found {
        Some(acc)
    } else {
        None
    }
}

/// Fold one line into the frontmatter; the result says whether the line
/// held a `key: value` pair.
#[verifier::loop_isolation(false)]
fn apply_line(acc: &mut Frontmatter, line: &Vec<char>) -> (had: bool)
    ensures
        final(acc)@ == fm_apply(old(acc)@, line@),
        had == (find_from(line@, ':', 0) < line@.len()),
{
    let ghost s = line@;
    let mut c: usize = 0;
    while c < line.len() && line[c] != ':'
        invariant
            c <= line.len(),
            forall|k: int| 0 <= k < c ==> s[k] != ':',
        decreases line.len() - c,
    {
        c = c + 1;
    }
    proof {
        crate::strength::lemma_find_from_is(s, ':', c as int);
    }
    if c >= line.len() {
        return false;
    }
    let mut key_v: Vec<char> = Vec::new();
    let mut i: usize = 0;
    while i < c
        invariant
            i <= c <= line.len(),
            key_v@ == s.take(c as int).take(i as int),
        decreases c - i,
    {
        key_v.push(line[i]);
        proof {
            assert(s.take(c as int).take(i + 1 as int) =~= s.take(c as int).take(i as int).push(
                s[i as int],
            ));
        }
        i = i + 1;
    }
    proof {
        assert(key_v@ =~= s.take(c as int));
    }
    let key = trim_chars(&key_v);
    let mut value: Vec<char> = Vec::new();
    let mut j: usize = c + 1;
    while j < line.len()
        invariant
            c + 1 <= j <= line.len(),
            value@ == s.subrange(c + 1 as int, j as int),
        decreases line.len() - j,
    {
        value.push(line[j]);
        proof {
            assert(s.subrange(c + 1 as int, j + 1 as int) =~= s.subrange(
                c + 1 as int,
                j as int,
            ).push(s[j as int]));
        }
        j = j + 1;
    }
    proof {
        assert(value@ =~= s.skip(c + 1 as int));
    }
    if eq_str(&key, "title") {
        let sc = read_scalar(&value);
        acc.title = Some(string_from(&sc));
    } else if eq_str(&key, "type") {
        let sc = read_scalar(&value);
        let sc_s = string_from(&sc);
        acc.node_type = parse_node_type(sc_s.as_str());
    } else if eq_str(&key, "tags") {
        acc.tags = read_tags(&value);
    } else if eq_str(&key, "summary") {
        let sc = read_scalar(&value);
        acc.summary = Some(string_from(&sc));
    }
    true
}

/// The `, `-joined escaped tags, from position `i` on.
pub open spec fn tags_joined(tags: Seq<Seq<char>>, i: int) -> Seq<char>
    decreases tags.len() - i,
{
    if i < 0 || i >= tags.len() {
        Seq::<char>::empty()
    } else {
        (if i > 0 {
            ", "@
        } else {
            Seq::<char>::empty()
        }) + yaml_escape_from(tags[i], 0) + tags_joined(tags, i + 1)
    }
}

/// What `to_yaml` renders: one line for each present field, with quoted,
/// escaped scalars and a flow sequence of tags.
pub open spec fn spec_to_yaml(fm: FrontmatterView) -> Seq<char> {
    (match fm.title {
        Some(t) => "title: \""@ + yaml_escape_from(t, 0) + "\"\n"@,
        None => Seq::<char>::empty(),
    }) + "type: "@ + fm.node_type.spec_name() + "\n"@ + (if fm.tags.len() > 0 {
        "tags: ["@ + tags_joined(fm.tags, 0) + "]\n"@
    } else {
        Seq::<char>::empty()
    }) + (match fm.summary {
        Some(x) => "summary: \""@ + yaml_escape_from(x, 0) + "\"\n"@,
        None => Seq::<char>::empty(),
    })
}

impl Frontmatter {
    /// Render the frontmatter as YAML lines.
    #[verifier::loop_isolation(false)]
    pub fn to_yaml(&self) -> (r: String)
        ensures
            r@ == spec_to_yaml(self@),
    {
        let mut out: Vec<char> = Vec::new();
        match &self.title {
            Some(t) => {
                append_str(&mut out, "title: \"");
                let e = escape_yaml_string(t.as_str());
                append_str(&mut out, e.as_str());
                append_str(&mut out, "\"\n");
            },
            None => {},
        }
        append_str(&mut out, "type: ");
        append_str(&mut out, self.node_type.name());
        append_str(&mut out, "\n");
        if self.tags.len() > 0 {
            append_str(&mut out, "tags: [");
            let ghost base = out@;
            let mut i: usize = 0;
            while i < self.tags.len()
                invariant
                    i <= self.tags.len(),
                    self.tags@.len() > 0,
                    base + tags_joined(self@.tags, 0) == out@ + tags_joined(
                        self@.tags,
                        i as int,
                    ),
                decreases self.tags.len() - i,
            {
                let ghost pre = out@;
                if i > 0 {
                    append_str(&mut out, ", ");
                }
                let e = escape_yaml_string(self.tags[i].as_str());
                append_str(&mut out, e.as_str());
                proof {
                    assert(self@.tags[i as int] == self.tags@[i as int]@);
                    assert(out@ =~= pre + (if i > 0 {
                        ", "@
                    } else {
                        Seq::<char>::empty()
                    }) + yaml_escape_from(self@.tags[i as int], 0));
                    assert(out@ + tags_joined(self@.tags, i + 1 as int) =~= pre + tags_joined(
                        self@.tags,
                        i as int,
                    ));
                }
                i = i + 1;
            }
            append_str(&mut out, "]\n");
        }
        match &self.summary {
            Some(x) => {
                append_str(&mut out, "summary: \"");
                let e = escape_yaml_string(x.as_str());
                append_str(&mut out, e.as_str());
                append_str(&mut out, "\"\n");
            },
            None => {},
        }
        proof {
            assert(out@ =~= spec_to_yaml(self@));
        }
        string_from(&out)
    }
}

/// Append the characters of a string slice to a character vector.
pub fn append_str(out: &mut Vec<char>, s: &str)
    ensures
        final(out)@ == old(out)@ + s@,
{
    let v = chars_of(s);
    let mut i: usize = 0;
    while i < v.len()
        invariant
            i <= v.len(),
            v@ == s@,
            out@ == old(out)@ + s@.take(i as int),
        decreases v.len() - i,
    {
        out.push(v[i]);
        proof {
            assert(old(out)@ + s@.take(i + 1 as int) =~= (old(out)@ + s@.take(i as int)).push(
                s@[i as int],
            ));
        }
        i = i + 1;
    }
    proof {
        assert(s@.take(s@.len() as int) =~= s@);
    }
}

impl Node {
    /// The note text this node denotes: its frontmatter between `---`
    /// markers.
    pub fn to_frontmatter(&self) -> (r: String)
        ensures
            r@ == "---\n"@ + spec_to_yaml(
                FrontmatterView {
                    title: Some(self@.title),
                    node_type: self@.node_type,
                    tags: self@.tags,
                    summary: self@.content,
                },
            ) + "---\n"@,
    {
        let fm = Frontmatter::from_node(self);
        let yaml = fm.to_yaml();
        let mut out: Vec<char> = Vec::new();
        append_str(&mut out, "---\n");
        append_str(&mut out, yaml.as_str());
        append_str(&mut out, "---\n");
        proof {
            assert(fm@ =~= (FrontmatterView {
                title: Some(self@.title),
                node_type: self@.node_type,
                tags: self@.tags,
                summary: self@.content,
            }));
        }
        string_from(&out)
    }
}


/// Unescaping from a position reads the same text as unescaping the
/// suffix from its start.
proof fn lemma_unescape_shift(t: Seq<char>, k: int)
    requires
        0 <= k <= t.len(),
    ensures
        yaml_unescape_from(t, k) == yaml_unescape_from(t.skip(k), 0),
    decreases t.len() - k,
{
    if k == t.len() {
        assert(t.skip(k).len() == 0);
    } else {
        let u = t.skip(k);
        assert(u[0] == t[k]);
        if t[k] == '\\' && k + 1 < t.len() {
            assert(u[1] == t[k + 1]);
            lemma_unescape_shift(t, k + 2);
            lemma_unescape_shift(t.skip(k), 2);
            assert(u.skip(2) =~= t.skip(k + 2));
        } else {
            lemma_unescape_shift(t, k + 1);
            lemma_unescape_shift(t.skip(k), 1);
            assert(u.skip(1) =~= t.skip(k + 1));
        }
    }
}

/// Escaping a scalar and unescaping the result yields the scalar back:
/// the quoted form a frontmatter writer emits reads back exactly.
pub proof fn lemma_escape_unescape_roundtrip(s: Seq<char>, i: int)
    requires
        0 <= i <= s.len(),
    ensures
        yaml_unescape_from(yaml_escape_from(s, i), 0) == s.skip(i),
    decreases s.len() - i,
{
    if i == s.len() {
        assert(yaml_escape_from(s, i).len() == 0);
        assert(s.skip(i) =~= Seq::<char>::empty());
    } else {
        let c = s[i];
        let t = yaml_escape_from(s, i);
        let rest = yaml_escape_from(s, i + 1);
        lemma_escape_unescape_roundtrip(s, i + 1);
        assert(t == yaml_escape_char(c) + rest);
        if c == '"' || c == '\\' || c == '\n' || c == '\r' || c == '\t' {
            // a two-character escape
            assert(t[0] == '\\');
            assert(t.len() >= 2);
            assert(yaml_unescape_char(t[1]) == c);
            lemma_unescape_shift(t, 2);
            assert(t.skip(2) =~= rest);
            assert(yaml_unescape_from(t, 0) =~= seq![c] + s.skip(i + 1));
            assert(seq![c] + s.skip(i + 1) =~= s.skip(i));
        } else {
            assert(t[0] == c);
            lemma_unescape_shift(t, 1);
            assert(t.skip(1) =~= rest);
            assert(yaml_unescape_from(t, 0) =~= seq![c] + s.skip(i + 1));
            assert(seq![c] + s.skip(i + 1) =~= s.skip(i));
        }
    }
}



/// Reading back a written title line: folding `title: "<escaped>"` into
/// any frontmatter sets the title to exactly the escaped scalar.
pub proof fn lemma_title_line_roundtrip(acc: FrontmatterView, t: Seq<char>)
    ensures
        ({
            let line = "title: \""@ + yaml_escape_from(t, 0) + "\""@;
            fm_apply(acc, line) == (FrontmatterView { title: Some(t), ..acc })
        }),
{
    let esc = yaml_escape_from(t, 0);
    let line = "title: \""@ + esc + "\""@;
    reveal_strlit("title: \"");
    reveal_strlit("\"");
    reveal_strlit("title");
    lemma_escape_no_specials(t, 0);
    // the key's colon is the first colon of the line
    assert(line[5] == ':');
    assert forall|k: int| 0 <= k < 5 implies line[k] != ':' by {
        assert(line[k] == "title: \""@[k]);
    }
    crate::strength::lemma_find_from_is(line, ':', 5);
    // the key reads back as `title`
    assert(line.take(5) =~= "title"@);
    assert(trim_seq("title"@) == "title"@) by {
        crate::text::lemma_first_non_ws_range("title"@, 0);
        lemma_end_non_ws_at("title"@);
        assert("title"@.subrange(0, 5) =~= "title"@);
    }
    // the value reads back as the unescaped scalar
    let value = line.skip(6);
    assert(value.len() == esc.len() + 3);
    assert(value[0] == ' ');
    assert(value[1] == '\"');
    assert(value[value.len() - 1] == '\"');
    let q = value.subrange(1, value.len() as int);
    assert(trim_seq(value) == q) by {
        assert(crate::text::is_ws(value[0]));
        assert(!crate::text::is_ws(value[1]));
        crate::text::lemma_first_non_ws_range(value, 1);
        lemma_end_non_ws_at(value);
    }
    assert(q[0] == '\"');
    assert(q[q.len() - 1] == '\"');
    assert(q.len() >= 2);
    assert(q.subrange(1, q.len() - 1) =~= esc);
    lemma_escape_unescape_roundtrip(t, 0);
    assert(t.skip(0) =~= t);
    assert(spec_scalar(value) == t);
    assert(fm_apply(acc, line) =~= (FrontmatterView { title: Some(t), ..acc }));
}

/// An escaped scalar holds no raw newline and no raw quote at its ends'
/// reach: every emitted character group is either a plain character or
/// a backslash pair, so the escaped text holds no `\n` and no ws at a
/// position the original did not put a plain character.
proof fn lemma_escape_no_specials(s: Seq<char>, i: int)
    ensures
        forall|j: int|
            0 <= j < yaml_escape_from(s, i).len() ==> #[trigger] yaml_escape_from(s, i)[j]
                != '\n',
    decreases s.len() - i,
{
    if 0 <= i && i < s.len() {
        lemma_escape_no_specials(s, i + 1);
        assert forall|j: int| 0 <= j < yaml_escape_from(s, i).len() implies
            #[trigger] yaml_escape_from(s, i)[j] != '\n' by {
            let head = yaml_escape_char(s[i]);
            if j < head.len() {
                assert(yaml_escape_from(s, i)[j] == head[j]);
            } else {
                assert(yaml_escape_from(s, i)[j] == yaml_escape_from(s, i + 1)[j - head.len()]);
            }
        }
    }
}

/// A text whose last character is not whitespace trims to nothing at
/// its end.
proof fn lemma_end_non_ws_at(s: Seq<char>)
    requires
        s.len() > 0,
        !crate::text::is_ws(s[s.len() - 1]),
    ensures
        crate::text::end_non_ws(s, s.len() as int) == s.len(),
{
}



/// Reading back a written summary line: folding `summary: "<escaped>"`
/// into any frontmatter sets the summary to exactly the escaped scalar.
pub proof fn lemma_summary_line_roundtrip(acc: FrontmatterView, t: Seq<char>)
    ensures
        ({
            let line = "summary: \""@ + yaml_escape_from(t, 0) + "\""@;
            fm_apply(acc, line) == (FrontmatterView { summary: Some(t), ..acc })
        }),
{
    let esc = yaml_escape_from(t, 0);
    let line = "summary: \""@ + esc + "\""@;
    reveal_strlit("summary: \"");
    reveal_strlit("\"");
    reveal_strlit("summary");
    reveal_strlit("title");
    reveal_strlit("type");
    reveal_strlit("tags");
    assert(line[7] == ':');
    assert forall|k: int| 0 <= k < 7 implies line[k] != ':' by {
        assert(line[k] == "summary: \""@[k]);
    }
    crate::strength::lemma_find_from_is(line, ':', 7);
    assert(line.take(7) =~= "summary"@);
    assert(trim_seq("summary"@) == "summary"@) by {
        crate::text::lemma_first_non_ws_range("summary"@, 0);
        lemma_end_non_ws_at("summary"@);
        assert("summary"@.subrange(0, 7) =~= "summary"@);
    }
    assert("summary"@ != "title"@) by {
        assert("summary"@.len() != "title"@.len());
    }
    assert("summary"@ != "type"@) by {
        assert("summary"@.len() != "type"@.len());
    }
    assert("summary"@ != "tags"@) by {
        assert("summary"@.len() != "tags"@.len());
    }
    let value = line.skip(8);
    assert(value.len() == esc.len() + 3);
    assert(value[0] == ' ');
    assert(value[1] == '\"');
    assert(value[value.len() - 1] == '\"');
    let q = value.subrange(1, value.len() as int);
    assert(trim_seq(value) == q) by {
        assert(crate::text::is_ws(value[0]));
        assert(!crate::text::is_ws(value[1]));
        crate::text::lemma_first_non_ws_range(value, 1);
        lemma_end_non_ws_at(value);
    }
    assert(q.len() >= 2);
    assert(q.subrange(1, q.len() - 1) =~= esc);
    lemma_escape_unescape_roundtrip(t, 0);
    assert(t.skip(0) =~= t);
    assert(spec_scalar(value) == t);
    assert(fm_apply(acc, line) =~= (FrontmatterView { summary: Some(t), ..acc }));
}

/// Reading back a written type line: folding `type: <Name>` into any
/// frontmatter sets the node type back, for each of the seven names.
pub proof fn lemma_type_line_roundtrip(acc: FrontmatterView, t: crate::node::NodeType)
    ensures
        ({
            let line = "type: "@ + t.spec_name();
            fm_apply(acc, line) == (FrontmatterView { node_type: t, ..acc })
        }),
{
    let name = t.spec_name();
    let line = "type: "@ + name;
    reveal_strlit("type: ");
    reveal_strlit("type");
    reveal_strlit("title");
    reveal_strlit("Concept");
    reveal_strlit("Question");
    reveal_strlit("Evidence");
    reveal_strlit("Resource");
    reveal_strlit("Person");
    reveal_strlit("Event");
    reveal_strlit("Meta");
    reveal_strlit("concept");
    reveal_strlit("question");
    reveal_strlit("evidence");
    reveal_strlit("resource");
    reveal_strlit("person");
    reveal_strlit("event");
    reveal_strlit("meta");
    assert(line[4] == ':');
    assert forall|k: int| 0 <= k < 4 implies line[k] != ':' by {
        assert(line[k] == "type: "@[k]);
    }
    crate::strength::lemma_find_from_is(line, ':', 4);
    assert(line.take(4) =~= "type"@);
    assert(trim_seq("type"@) == "type"@) by {
        crate::text::lemma_first_non_ws_range("type"@, 0);
        lemma_end_non_ws_at("type"@);
        assert("type"@.subrange(0, 4) =~= "type"@);
    }
    assert("type"@ != "title"@) by {
        assert("type"@.len() != "title"@.len());
    }
    let value = line.skip(5);
    assert(value[0] == ' ');
    assert(value.len() == name.len() + 1);
    assert forall|k: int| 1 <= k < value.len() implies #[trigger] value[k] == name[k - 1] by {}
    // the scalar is the bare name
    assert(!crate::text::is_ws(value[1])) by {
        assert(value[1] == name[0]);
    }
    assert(!crate::text::is_ws(value[value.len() - 1]));
    crate::text::lemma_first_non_ws_range(value, 1);
    lemma_end_non_ws_at(value);
    let sc = value.subrange(1, value.len() as int);
    assert(sc =~= name);
    assert(sc[0] != '\"');
    assert(trim_seq(value) == name);
    assert(spec_scalar(value) == name);
    // the name resolves back to the type, case-insensitively
    assert(crate::node::spec_parse_node_type(name) == t) by {
        match t {
            crate::node::NodeType::Concept => {
                assert(crate::text::lower_seq(name) =~= "concept"@);
            },
            crate::node::NodeType::Question => {
                assert(crate::text::lower_seq(name) =~= "question"@);
            },
            crate::node::NodeType::Evidence => {
                assert(crate::text::lower_seq(name) =~= "evidence"@);
                assert("evidence"@ != "question"@) by {
                    assert("evidence"@[0] != "question"@[0]);
                }
            },
            crate::node::NodeType::Resource => {
                assert(crate::text::lower_seq(name) =~= "resource"@);
                assert("resource"@ != "question"@) by {
                    assert("resource"@[0] != "question"@[0]);
                }
                assert("resource"@ != "evidence"@) by {
                    assert("resource"@[0] != "evidence"@[0]);
                }
            },
            crate::node::NodeType::Person => {
                assert(crate::text::lower_seq(name) =~= "person"@);
                assert(crate::text::lower_seq(name) != "concept"@);
                assert(crate::text::lower_seq(name) != "question"@);
                assert(crate::text::lower_seq(name) != "evidence"@);
                assert(crate::text::lower_seq(name) != "resource"@);
            },
            crate::node::NodeType::Event => {
                assert(crate::text::lower_seq(name) =~= "event"@);
            },
            crate::node::NodeType::Meta => {
                assert(crate::text::lower_seq(name) =~= "meta"@);
            },
        }
    }
    assert(fm_apply(acc, line) =~= (FrontmatterView { node_type: t, ..acc }));
}

/// A comma-free run parses as one flow item: its scalar, when that is
/// not blank.
proof fn lemma_flow_single(s: Seq<char>, start: int, i: int)
    requires
        0 <= start <= i <= s.len(),
        forall|k: int| i <= k < s.len() ==> s[k] != ',',
    ensures
        spec_flow_items(s, start, i) == (if spec_scalar(s.subrange(start, s.len() as int)).len()
            == 0 {
            Seq::<Seq<char>>::empty()
        } else {
            seq![spec_scalar(s.subrange(start, s.len() as int))]
        }),
    decreases s.len() - i,
{
    if i < s.len() {
        lemma_flow_single(s, start, i + 1);
    }
}

/// Reading back a written tags line holding one plain tag: folding
/// `tags: [<tag>]` into any frontmatter sets the tags to exactly that
/// tag, for a non-blank tag without commas, quotes, escapes or
/// whitespace.
pub proof fn lemma_tags_line_roundtrip_single(acc: FrontmatterView, tag: Seq<char>)
    requires
        tag.len() > 0,
        forall|k: int|
            0 <= k < tag.len() ==> !crate::text::is_ws(#[trigger] tag[k]) && tag[k] != ','
                && tag[k] != '\"' && tag[k] != '[' && tag[k] != ']',
    ensures
        ({
            let line = "tags: ["@ + tag + "]"@;
            fm_apply(acc, line) == (FrontmatterView { tags: seq![tag], ..acc })
        }),
{
    let line = "tags: ["@ + tag + "]"@;
    reveal_strlit("tags: [");
    reveal_strlit("]");
    reveal_strlit("tags");
    reveal_strlit("title");
    reveal_strlit("type");
    assert(line[4] == ':');
    assert forall|k: int| 0 <= k < 4 implies line[k] != ':' by {
        assert(line[k] == "tags: ["@[k]);
    }
    crate::strength::lemma_find_from_is(line, ':', 4);
    assert(line.take(4) =~= "tags"@);
    assert(trim_seq("tags"@) == "tags"@) by {
        crate::text::lemma_first_non_ws_range("tags"@, 0);
        lemma_end_non_ws_at("tags"@);
        assert("tags"@.subrange(0, 4) =~= "tags"@);
    }
    assert("tags"@ != "title"@) by {
        assert("tags"@.len() != "title"@.len());
    }
    assert("tags"@ != "type"@) by {
        assert("tags"@[1] != "type"@[1]);
    }
    let value = line.skip(5);
    assert(value.len() == tag.len() + 3);
    assert(value[0] == ' ');
    assert(value[1] == '[');
    assert(value[value.len() - 1] == ']');
    let q = value.subrange(1, value.len() as int);
    assert(trim_seq(value) == q) by {
        assert(crate::text::is_ws(value[0]));
        assert(!crate::text::is_ws(value[1]));
        crate::text::lemma_first_non_ws_range(value, 1);
        lemma_end_non_ws_at(value);
    }
    assert(q[0] == '[');
    assert(q[q.len() - 1] == ']');
    assert(q.len() >= 2);
    let inner = q.subrange(1, q.len() - 1);
    assert(inner =~= tag);
    // the one item reads back as the tag itself
    assert(spec_scalar(tag) == tag) by {
        assert(!crate::text::is_ws(tag[0]));
        assert(!crate::text::is_ws(tag[tag.len() - 1]));
        crate::text::lemma_first_non_ws_range(tag, 0);
        lemma_end_non_ws_at(tag);
        assert(tag.subrange(0, tag.len() as int) =~= tag);
        assert(tag[0] != '\"');
    }
    assert forall|k: int| 0 <= k < tag.len() implies tag[k] != ',' by {}
    lemma_flow_single(tag, 0, 0);
    assert(tag.subrange(0, tag.len() as int) =~= tag);
    assert(spec_tags_value(value) =~= seq![tag]);
    assert(fm_apply(acc, line) =~= (FrontmatterView { tags: seq![tag], ..acc }));
}



/// Escaping text without special characters changes nothing.
proof fn lemma_escape_plain(s: Seq<char>, i: int)
    requires
        0 <= i <= s.len(),
        forall|k: int|
            0 <= k < s.len() ==> #[trigger] s[k] != '\"' && s[k] != '\\' && s[k] != '\n' && s[k]
                != '\r' && s[k] != '\t',
    ensures
        yaml_escape_from(s, i) == s.skip(i),
    decreases s.len() - i,
{
    if i < s.len() {
        lemma_escape_plain(s, i + 1);
        assert(yaml_escape_char(s[i]) == seq![s[i]]);
        assert(seq![s[i]] + s.skip(i + 1) =~= s.skip(i));
    } else {
        assert(s.skip(i) =~= Seq::<char>::empty());
    }
}

/// A three-part concatenation with newline-free parts is newline-free.
proof fn lemma_no_newline_3(a: Seq<char>, b: Seq<char>, c: Seq<char>)
    requires
        forall|k: int| 0 <= k < a.len() ==> #[trigger] a[k] != '\n',
        forall|k: int| 0 <= k < b.len() ==> #[trigger] b[k] != '\n',
        forall|k: int| 0 <= k < c.len() ==> #[trigger] c[k] != '\n',
    ensures
        forall|k: int| 0 <= k < (a + b + c).len() ==> #[trigger] (a + b + c)[k] != '\n',
{
    assert forall|k: int| 0 <= k < (a + b + c).len() implies #[trigger] (a + b + c)[k]
        != '\n' by {
        if k < a.len() {
            assert((a + b + c)[k] == a[k]);
        } else if k < a.len() + b.len() {
            assert((a + b + c)[k] == b[k - a.len()]);
        } else {
            assert((a + b + c)[k] == c[k - a.len() - b.len()]);
        }
    }
}

/// One folding step of the line scanner: when the text opens with a
/// newline-free line, a newline, and a rest, the scanner folds the line
/// and goes on behind the newline.
proof fn lemma_fm_scan_step(y: Seq<char>, p: int, line: Seq<char>, acc: FrontmatterView)
    requires
        0 <= p,
        p + line.len() < y.len(),
        y.subrange(p, p + line.len()) == line,
        y[p + line.len()] == '\n',
        forall|k: int| 0 <= k < line.len() ==> #[trigger] line[k] != '\n',
    ensures
        fm_scan(y, p, acc) == fm_scan(y, p + line.len() + 1, fm_apply(acc, line)),
{
    assert forall|k: int| p <= k < p + line.len() implies y[k] != '\n' by {
        assert(y[k] == line[k - p]);
    }
    crate::strength::lemma_find_from_range(y, '\n', p, p + line.len());
}

/// Rendering a frontmatter and scanning the lines back yields the same
/// frontmatter, for one with a title, a summary, and one plain tag:
/// quoting and escaping round-trip the scalars, the type name resolves
/// back, and the flow sequence reads back its tag.
pub proof fn lemma_to_yaml_roundtrip(fm: FrontmatterView)
    requires
        fm.title is Some,
        fm.summary is Some,
        fm.tags.len() == 1,
        forall|k: int|
            0 <= k < fm.tags[0].len() ==> !crate::text::is_ws(#[trigger] fm.tags[0][k])
                && fm.tags[0][k] != ',' && fm.tags[0][k] != '\"' && fm.tags[0][k] != '['
                && fm.tags[0][k] != ']' && fm.tags[0][k] != '\\' && fm.tags[0][k] != '\t',
        fm.tags[0].len() > 0,
    ensures
        fm_scan(spec_to_yaml(fm), 0, fm_default()) == fm,
        scan_kv(spec_to_yaml(fm), 0),
{
    reveal_strlit("title: \"");
    reveal_strlit("\"\n");
    reveal_strlit("type: ");
    reveal_strlit("\n");
    reveal_strlit("tags: [");
    reveal_strlit("]\n");
    reveal_strlit("summary: \"");
    reveal_strlit("\"");
    reveal_strlit("]");
    reveal_strlit("title");
    let t = fm.title->0;
    let s = fm.summary->0;
    let tag = fm.tags[0];
    let name = fm.node_type.spec_name();
    let e_t = yaml_escape_from(t, 0);
    let e_s = yaml_escape_from(s, 0);
    let y = spec_to_yaml(fm);
    // the joined tags are the one tag itself
    assert(tags_joined(fm.tags, 1) =~= Seq::<char>::empty());
    assert(tags_joined(fm.tags, 0) =~= yaml_escape_from(tag, 0));
    lemma_escape_plain(tag, 0);
    assert(yaml_escape_from(tag, 0) == tag.skip(0));
    assert(tag.skip(0) =~= tag);
    // the four lines and their lengths
    let line1 = "title: \""@ + e_t + "\""@;
    let line2 = "type: "@ + name;
    let line3 = "tags: ["@ + tag + "]"@;
    let line4 = "summary: \""@ + e_s + "\""@;
    assert(y =~= line1 + "\n"@ + (line2 + "\n"@) + (line3 + "\n"@) + (line4 + "\n"@));
    let o1 = line1.len() as int + 1;
    let o2 = o1 + line2.len() as int + 1;
    let o3 = o2 + line3.len() as int + 1;
    let o4 = o3 + line4.len() as int + 1;
    assert(y.len() == o4);
    // none of the lines holds a newline
    lemma_escape_no_specials(t, 0);
    lemma_escape_no_specials(s, 0);
    assert(forall|k: int| 0 <= k < "title: \""@.len() ==> #[trigger] "title: \""@[k] != '\n');
    assert(forall|k: int| 0 <= k < "\""@.len() ==> #[trigger] "\""@[k] != '\n');
    lemma_no_newline_3("title: \""@, e_t, "\""@);
    assert(forall|k: int| 0 <= k < "type: "@.len() ==> #[trigger] "type: "@[k] != '\n');
    assert(forall|k: int| 0 <= k < name.len() ==> #[trigger] name[k] != '\n') by {
        match fm.node_type {
            crate::node::NodeType::Concept => {
                reveal_strlit("Concept");
            },
            crate::node::NodeType::Question => {
                reveal_strlit("Question");
            },
            crate::node::NodeType::Evidence => {
                reveal_strlit("Evidence");
            },
            crate::node::NodeType::Resource => {
                reveal_strlit("Resource");
            },
            crate::node::NodeType::Person => {
                reveal_strlit("Person");
            },
            crate::node::NodeType::Event => {
                reveal_strlit("Event");
            },
            crate::node::NodeType::Meta => {
                reveal_strlit("Meta");
            },
        }
    }
    lemma_no_newline_3("type: "@, name, Seq::<char>::empty());
    assert(forall|k: int| 0 <= k < line2.len() ==> #[trigger] line2[k] != '\n') by {
        assert(line2 =~= "type: "@ + name + Seq::<char>::empty());
    }
    assert(forall|k: int| 0 <= k < "tags: ["@.len() ==> #[trigger] "tags: ["@[k] != '\n');
    assert(forall|k: int| 0 <= k < "]"@.len() ==> #[trigger] "]"@[k] != '\n');
    assert(forall|k: int| 0 <= k < tag.len() ==> #[trigger] tag[k] != '\n') by {
        assert(forall|k: int|
            0 <= k < tag.len() ==> !crate::text::is_ws(#[trigger] tag[k]));
    }
    lemma_no_newline_3("tags: ["@, tag, "]"@);
    assert(forall|k: int|
        0 <= k < "summary: \""@.len() ==> #[trigger] "summary: \""@[k] != '\n');
    lemma_no_newline_3("summary: \""@, e_s, "\""@);
    // fold the four lines in turn
    let acc0 = fm_default();
    let acc1 = fm_apply(acc0, line1);
    let acc2 = fm_apply(acc1, line2);
    let acc3 = fm_apply(acc2, line3);
    let acc4 = fm_apply(acc3, line4);
    assert(y.subrange(0, line1.len() as int) =~= line1);
    assert(y[line1.len() as int] == '\n');
    lemma_fm_scan_step(y, 0, line1, acc0);
    assert(y.subrange(o1 as int, o1 + line2.len()) =~= line2);
    assert(y[o1 + line2.len()] == '\n');
    lemma_fm_scan_step(y, o1 as int, line2, acc1);
    assert(y.subrange(o2 as int, o2 + line3.len()) =~= line3);
    assert(y[o2 + line3.len()] == '\n');
    lemma_fm_scan_step(y, o2 as int, line3, acc2);
    assert(y.subrange(o3 as int, o3 + line4.len()) =~= line4);
    assert(y[o3 + line4.len()] == '\n');
    lemma_fm_scan_step(y, o3 as int, line4, acc3);
    assert(fm_scan(y, o4 as int, acc4) == acc4);
    // each line reads its field back
    lemma_title_line_roundtrip(acc0, t);
    lemma_type_line_roundtrip(acc1, fm.node_type);
    lemma_tags_line_roundtrip_single(acc2, tag);
    lemma_summary_line_roundtrip(acc3, s);
    assert(acc4 =~= fm);
    // the first line holds a pair, so the block parses at all
    assert(scan_kv(y, 0)) by {
        assert forall|k: int| 0 <= k < line1.len() implies y[k] != '\n' by {
            assert(y[k] == line1[k - 0]);
        }
        crate::strength::lemma_find_from_range(y, '\n', 0, line1.len() as int);
        assert(line1[5] == ':');
        assert forall|k: int| 0 <= k < 5 implies line1[k] != ':' by {
            assert(line1[k] == "title: \""@[k]);
        }
        crate::strength::lemma_find_from_is(line1, ':', 5);
        assert(y.subrange(0, line1.len() as int) == line1);
    }
}



/// A three-part concatenation with dash-free parts is dash-free.
proof fn lemma_no_dash_3(a: Seq<char>, b: Seq<char>, c: Seq<char>)
    requires
        forall|k: int| 0 <= k < a.len() ==> #[trigger] a[k] != '-',
        forall|k: int| 0 <= k < b.len() ==> #[trigger] b[k] != '-',
        forall|k: int| 0 <= k < c.len() ==> #[trigger] c[k] != '-',
    ensures
        forall|k: int| 0 <= k < (a + b + c).len() ==> #[trigger] (a + b + c)[k] != '-',
{
    assert forall|k: int| 0 <= k < (a + b + c).len() implies #[trigger] (a + b + c)[k] != '-' by {
        if k < a.len() {
            assert((a + b + c)[k] == a[k]);
        } else if k < a.len() + b.len() {
            assert((a + b + c)[k] == b[k - a.len()]);
        } else {
            assert((a + b + c)[k] == c[k - a.len() - b.len()]);
        }
    }
}

/// Escaping dash-free text yields dash-free text.
proof fn lemma_escape_no_dash(s: Seq<char>, i: int)
    requires
        forall|k: int| 0 <= k < s.len() ==> #[trigger] s[k] != '-',
    ensures
        forall|j: int|
            0 <= j < yaml_escape_from(s, i).len() ==> #[trigger] yaml_escape_from(s, i)[j] != '-',
    decreases s.len() - i,
{
    if 0 <= i && i < s.len() {
        lemma_escape_no_dash(s, i + 1);
        assert forall|j: int| 0 <= j < yaml_escape_from(s, i).len() implies
            #[trigger] yaml_escape_from(s, i)[j] != '-' by {
            let head = yaml_escape_char(s[i]);
            if j < head.len() {
                assert(yaml_escape_from(s, i)[j] == head[j]);
            } else {
                assert(yaml_escape_from(s, i)[j] == yaml_escape_from(s, i + 1)[j - head.len()]);
            }
        }
    }
}

/// Rendering a node's frontmatter and parsing the block back yields the
/// node's title, type, tags and summary, for the non-empty cases: a
/// title and a summary present without dashes, and one plain, dash-free
/// tag.
pub proof fn lemma_frontmatter_roundtrip(fm: FrontmatterView)
    requires
        fm.title is Some,
        fm.summary is Some,
        fm.tags.len() == 1,
        fm.tags[0].len() > 0,
        forall|k: int|
            0 <= k < fm.tags[0].len() ==> !crate::text::is_ws(#[trigger] fm.tags[0][k])
                && fm.tags[0][k] != ',' && fm.tags[0][k] != '\"' && fm.tags[0][k] != '['
                && fm.tags[0][k] != ']' && fm.tags[0][k] != '\\' && fm.tags[0][k] != '\t'
                && fm.tags[0][k] != '-',
        forall|k: int| 0 <= k < fm.title->0.len() ==> #[trigger] fm.title->0[k] != '-',
        forall|k: int| 0 <= k < fm.summary->0.len() ==> #[trigger] fm.summary->0[k] != '-',
    ensures
        spec_parse_frontmatter("---\n"@ + spec_to_yaml(fm) + "---\n"@) == Some(fm),
{
    reveal_strlit("---\n");
    reveal_strlit("title: \"");
    reveal_strlit("\"\n");
    reveal_strlit("type: ");
    reveal_strlit("\n");
    reveal_strlit("tags: [");
    reveal_strlit("]\n");
    reveal_strlit("summary: \"");
    let t = fm.title->0;
    let s = fm.summary->0;
    let tag = fm.tags[0];
    let name = fm.node_type.spec_name();
    let e_t = yaml_escape_from(t, 0);
    let e_s = yaml_escape_from(s, 0);
    let y = spec_to_yaml(fm);
    let text = "---\n"@ + y + "---\n"@;
    // the whole yaml block is dash-free
    lemma_escape_no_dash(t, 0);
    lemma_escape_no_dash(s, 0);
    assert(tags_joined(fm.tags, 1) =~= Seq::<char>::empty());
    lemma_escape_plain(tag, 0);
    assert(tag.skip(0) =~= tag);
    assert(tags_joined(fm.tags, 0) =~= tag);
    assert(forall|k: int| 0 <= k < name.len() ==> #[trigger] name[k] != '-') by {
        match fm.node_type {
            crate::node::NodeType::Concept => {
                reveal_strlit("Concept");
            },
            crate::node::NodeType::Question => {
                reveal_strlit("Question");
            },
            crate::node::NodeType::Evidence => {
                reveal_strlit("Evidence");
            },
            crate::node::NodeType::Resource => {
                reveal_strlit("Resource");
            },
            crate::node::NodeType::Person => {
                reveal_strlit("Person");
            },
            crate::node::NodeType::Event => {
                reveal_strlit("Event");
            },
            crate::node::NodeType::Meta => {
                reveal_strlit("Meta");
            },
        }
    }
    let seg1 = "title: \""@ + e_t + "\"\n"@;
    let seg2 = "type: "@ + name + "\n"@;
    let seg3 = "tags: ["@ + tag + "]\n"@;
    let seg4 = "summary: \""@ + e_s + "\"\n"@;
    lemma_no_dash_3("title: \""@, e_t, "\"\n"@);
    lemma_no_dash_3("type: "@, name, "\n"@);
    lemma_no_dash_3("tags: ["@, tag, "]\n"@);
    lemma_no_dash_3("summary: \""@, e_s, "\"\n"@);
    assert(y =~= seg1 + seg2 + (seg3 + seg4));
    lemma_no_dash_3(seg1, seg2, seg3 + seg4);
    assert forall|k: int| 0 <= k < (seg3 + seg4).len() implies #[trigger] (seg3 + seg4)[k]
        != '-' by {
        if k < seg3.len() {
            assert((seg3 + seg4)[k] == seg3[k]);
        } else {
            assert((seg3 + seg4)[k] == seg4[k - seg3.len()]);
        }
    }
    assert(forall|k: int| 0 <= k < y.len() ==> #[trigger] y[k] != '-');
    // the text opens at its first character with the marker
    assert(text[0] == '-');
    assert(!crate::text::is_ws(text[0]));
    crate::text::lemma_first_non_ws_range(text, 0);
    assert(crate::text::first_non_ws(text, 0) == 0);
    assert(text.skip(0) =~= text);
    assert(text[0] == '-' && text[1] == '-' && text[2] == '-');
    // the closing marker is the first one past the opener
    assert forall|k: int| 4 <= k < 4 + y.len() && k + 3 <= text.len() implies !(
    #[trigger] text[k] == '-' && text[k + 1] == '-' && text[k + 2] == '-') by {
        assert(text[k] == y[k - 4]);
    }
    let m = 4 + y.len() as int;
    assert(text[m] == '-' && text[m + 1] == '-' && text[m + 2] == '-');
    lemma_find_marker_at(text, 4, m);
    assert(find_marker(text, 4) == m);
    assert(text.subrange(4, 4 + y.len() as int) =~= y);
    // scanning the block folds the fields back
    lemma_to_yaml_roundtrip(fm);
    assert(spec_extract_frontmatter(text) == Some(y));
}



/// The node-level round trip: parsing the text `to_frontmatter` renders
/// for a node gives back the node's title, type, tags and summary, for
/// the non-empty cases the block-level round trip covers.
pub proof fn lemma_node_frontmatter_roundtrip(n: crate::node::NodeView, file_name: Seq<char>)
    requires
        n.content is Some,
        n.tags.len() == 1,
        n.tags[0].len() > 0,
        forall|k: int|
            0 <= k < n.tags[0].len() ==> !crate::text::is_ws(#[trigger] n.tags[0][k])
                && n.tags[0][k] != ',' && n.tags[0][k] != '\"' && n.tags[0][k] != '['
                && n.tags[0][k] != ']' && n.tags[0][k] != '\\' && n.tags[0][k] != '\t'
                && n.tags[0][k] != '-',
        forall|k: int| 0 <= k < n.title.len() ==> #[trigger] n.title[k] != '-',
        forall|k: int| 0 <= k < n.content->0.len() ==> #[trigger] n.content->0[k] != '-',
    ensures
        ({
            let fm = FrontmatterView {
                title: Some(n.title),
                node_type: n.node_type,
                tags: n.tags,
                summary: n.content,
            };
            crate::parser::spec_parse_markdown(
                "---\n"@ + spec_to_yaml(fm) + "---\n"@,
                file_name,
            ).frontmatter == Some(fm)
        }),
{
    let fm = FrontmatterView {
        title: Some(n.title),
        node_type: n.node_type,
        tags: n.tags,
        summary: n.content,
    };
    lemma_frontmatter_roundtrip(fm);
}


} // verus!
