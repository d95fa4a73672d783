//! The IRI scheme of the knowledge graph.
//!
//! File-backed nodes are named `urn:memexia:file:<percent-encoded-path>`;
//! edges are named `urn:memexia:edge:<from>-<to>`. Path components are
//! percent-encoded so that any filesystem-legal path yields a
//! syntactically valid IRI.

use vstd::prelude::*;

use crate::text::{chars_of, has_prefix, replace_char, replace_char_seq, string_from};

verus! {

/// Characters that stay unencoded in an IRI path component.
pub open spec fn is_iri_safe(c: char) -> bool {
    ('a' <= c && c <= 'z') || ('A' <= c && c <= 'Z') || ('0' <= c && c <= '9') || c == '-'
        || c == '_' || c == '.' || c == '~' || c == '!' || c == '$' || c == '&' || c == '\''
        || c == '(' || c == ')' || c == '*' || c == '+' || c == ',' || c == ';' || c == '='
        || c == ':' || c == '@' || c == '/'
}

/// Exec test for `is_iri_safe`.
pub fn iri_safe(c: char) -> (r: bool)
    ensures
        r == is_iri_safe(c),
{
    ('a' <= c && c <= 'z') || ('A' <= c && c <= 'Z') || ('0' <= c && c <= '9') || c == '-'
        || c == '_' || c == '.' || c == '~' || c == '!' || c == '$' || c == '&' || c == '\''
        || c == '(' || c == ')' || c == '*' || c == '+' || c == ',' || c == ';' || c == '='
        || c == ':' || c == '@' || c == '/'
}

/// The UTF-8 bytes of one character.
pub open spec fn utf8_of(c: char) -> Seq<u8> {
    let v = c as u32;
    if v < 0x80 {
        seq![v as u8]
    } else if v < 0x800 {
        seq![(192 + v / 64) as u8, (128 + v % 64) as u8]
    } else if v < 0x10000 {
        seq![(224 + v / 4096) as u8, (128 + (v / 64) % 64) as u8, (128 + v % 64) as u8]
    } else {
        seq![
            (240 + v / 262144) as u8,
            (128 + (v / 4096) % 64) as u8,
            (128 + (v / 64) % 64) as u8,
            (128 + v % 64) as u8,
        ]
    }
}

/// The UTF-8 encoding of one character, as execution code.
pub fn utf8_bytes(c: char) -> (r: Vec<u8>)
    ensures
        r@ == utf8_of(c),
{
    let v = c as u32;
    let mut out: Vec<u8> = Vec::new();
    if v < 0x80 {
        out.push(v as u8);
    } else if v < 0x800 {
        out.push((192 + v / 64) as u8);
        out.push((128 + v % 64) as u8);
    } else if v < 0x10000 {
        out.push((224 + v / 4096) as u8);
        out.push((128 + (v / 64) % 64) as u8);
        out.push((128 + v % 64) as u8);
    } else {
        out.push((240 + v / 262144) as u8);
        out.push((128 + (v / 4096) % 64) as u8);
        out.push((128 + (v / 64) % 64) as u8);
        out.push((128 + v % 64) as u8);
    }
    proof {
        assert(out@ =~= utf8_of(c));
    }
    out
}

/// The uppercase hex digit for a value below 16.
pub open spec fn hex_digit_upper(v: u8) -> char
    recommends
        v < 16,
{
    if v < 10 {
        (('0' as u8) + v) as char
    } else {
        (('A' as u8) + (v - 10)) as char
    }
}

/// Exec uppercase hex digit.
pub fn hex_upper(v: u8) -> (r: char)
    requires
        v < 16,
    ensures
        r == hex_digit_upper(v),
{
    if v < 10 {
        (('0' as u8) + v) as char
    } else {
        (('A' as u8) + (v - 10)) as char
    }
}

/// `%XX` escapes for the bytes from position `k` on, two uppercase hex
/// digits per byte.
pub open spec fn percent_from(bs: Seq<u8>, k: int) -> Seq<char>
    decreases bs.len() - k,
{
    if k < 0 || k >= bs.len() {
        Seq::<char>::empty()
    } else {
        seq!['%', hex_digit_upper(bs[k] / 16), hex_digit_upper(bs[k] % 16)] + percent_from(
            bs,
            k + 1,
        )
    }
}

/// The encoding of a single character: itself when safe, percent-escaped
/// UTF-8 bytes otherwise.
pub open spec fn encode_char(c: char) -> Seq<char> {
    if is_iri_safe(c) {
        seq![c]
    } else {
        percent_from(utf8_of(c), 0)
    }
}

/// The encoding of the characters of `s` from position `i` on.
pub open spec fn encode_from(s: Seq<char>, i: int) -> Seq<char>
    decreases s.len() - i,
{
    if i < 0 || i >= s.len() {
        Seq::<char>::empty()
    } else {
        encode_char(s[i]) + encode_from(s, i + 1)
    }
}

/// The percent-encoding of a whole character sequence.
pub open spec fn encode_seq(s: Seq<char>) -> Seq<char> {
    encode_from(s, 0)
}

/// Percent-encode an IRI path component: safe characters stay, every other
/// character becomes the `%XX` escapes of its UTF-8 bytes.
pub fn encode_iri_component(s: &str) -> (r: String)
    ensures
        r@ == encode_seq(s@),
{
    let v = chars_of(s);
    let mut out: Vec<char> = Vec::new();
    let mut i: usize = 0;
    while i < v.len()
        invariant
            i <= v.len(),
            v@ == s@,
            encode_from(s@, 0) == out@ + encode_from(s@, i as int),
        decreases v.len() - i,
    {
        let c = v[i];
        if iri_safe(c) {
            out.push(c);
            proof {
                assert(out@ =~= out@.drop_last() + encode_char(c));
                assert(out@.drop_last() + encode_from(s@, i as int) =~= (out@.drop_last()
                    + encode_char(c)) + encode_from(s@, i + 1 as int));
            }
        } else {
            let bs = utf8_bytes(c);
            let ghost base = out@;
            let mut k: usize = 0;
            while k < bs.len()
                invariant
                    k <= bs.len(),
                    bs@ == utf8_of(c),
                    out@ + percent_from(bs@, k as int) == base + percent_from(bs@, 0),
                decreases bs.len() - k,
            {
                let b = bs[k];
                out.push('%');
                out.push(hex_upper(b / 16));
                out.push(hex_upper(b % 16));
                proof {
                    assert(out@ + percent_from(bs@, k + 1 as int) =~= base + percent_from(
                        bs@,
                        0,
                    ));
                }
                k = k + 1;
            }
            proof {
                assert(!is_iri_safe(c));
                assert(out@ =~= base + encode_char(c));
                assert(base + encode_from(s@, i as int) =~= (base + encode_char(c))
                    + encode_from(s@, i + 1 as int));
            }
        }
        i = i + 1;
    }
    proof {
        assert(encode_from(s@, 0) =~= out@);
    }
    string_from(&out)
}

/// An output character of the encoder: a safe character or a percent sign
/// (hex digits are themselves safe characters).
pub open spec fn is_iri_output_char(c: char) -> bool {
    is_iri_safe(c) || c == '%'
}

proof fn lemma_hex_digit_safe(v: u8)
    requires
        v < 16,
    ensures
        is_iri_safe(hex_digit_upper(v)),
{
    if v < 10 {
        let c = (('0' as u8) + v) as char;
        assert('0' <= c && c <= '9');
    } else {
        let c = (('A' as u8) + (v - 10)) as char;
        assert('A' <= c && c <= 'Z');
    }
}

proof fn lemma_percent_chars(bs: Seq<u8>, k: int)
    ensures
        forall|j: int|
            0 <= j < percent_from(bs, k).len() ==> #[trigger] is_iri_output_char(
                percent_from(bs, k)[j],
            ),
    decreases bs.len() - k,
{
    if 0 <= k && k < bs.len() {
        lemma_percent_chars(bs, k + 1);
        lemma_hex_digit_safe(bs[k] / 16);
        lemma_hex_digit_safe(bs[k] % 16);
        assert forall|j: int| 0 <= j < percent_from(bs, k).len() implies is_iri_output_char(
            percent_from(bs, k)[j],
        ) by {
            if j == 0 {
                assert(percent_from(bs, k)[j] == '%');
            } else if j == 1 {
                assert(percent_from(bs, k)[j] == hex_digit_upper(bs[k] / 16));
            } else if j == 2 {
                assert(percent_from(bs, k)[j] == hex_digit_upper(bs[k] % 16));
            } else {
                assert(percent_from(bs, k)[j] == percent_from(bs, k + 1)[j - 3]);
            }
        }
    }
}

/// Every character of an encoded component is a safe character or part of a
/// percent escape; every character outside the safe set is encoded away, and
/// the whole output is ASCII.
pub proof fn lemma_encode_output_safe(s: Seq<char>, i: int)
    ensures
        forall|j: int|
            0 <= j < encode_from(s, i).len() ==> #[trigger] is_iri_output_char(
                encode_from(s, i)[j],
            ),
    decreases s.len() - i,
{
    if 0 <= i && i < s.len() {
        lemma_encode_output_safe(s, i + 1);
        if !is_iri_safe(s[i]) {
            lemma_percent_chars(utf8_of(s[i]), 0);
        }
        assert forall|j: int| 0 <= j < encode_from(s, i).len() implies is_iri_output_char(
            encode_from(s, i)[j],
        ) by {
            let head = encode_char(s[i]);
            if j < head.len() {
                assert(encode_from(s, i)[j] == head[j]);
            } else {
                assert(encode_from(s, i)[j] == encode_from(s, i + 1)[j - head.len()]);
            }
        }
    }
}

/// Concatenate two string slices.
pub fn concat_strs(a: &str, b: &str) -> (r: String)
    ensures
        r@ == a@ + b@,
{
    let mut out: Vec<char> = chars_of(a);
    let bv = chars_of(b);
    let mut i: usize = 0;
    while i < bv.len()
        invariant
            i <= bv.len(),
            bv@ == b@,
            out@ == a@ + b@.take(i as int),
        decreases bv.len() - i,
    {
        out.push(bv[i]);
        proof {
            assert(out@ =~= a@ + b@.take(i + 1 as int));
        }
        i = i + 1;
    }
    proof {
        assert(b@.take(b@.len() as int) =~= b@);
    }
    string_from(&out)
}

/// The node IRI for a relative file path: backslashes are normalised to
/// slashes, then the path is percent-encoded under the file scheme.
pub open spec fn spec_node_id_for_path(path: Seq<char>) -> Seq<char> {
    "urn:memexia:file:"@ + encode_seq(replace_char_seq(path, '\\', '/'))
}

/// Build the node IRI for a relative file path.
pub fn node_id_for_path(path: &str) -> (r: String)
    ensures
        r@ == spec_node_id_for_path(path@),
{
    let v = chars_of(path);
    let normal = replace_char(&v, '\\', '/');
    let norm_str = string_from(&normal);
    let encoded = encode_iri_component(norm_str.as_str());
    concat_strs("urn:memexia:file:", encoded.as_str())
}

/// The IRI of a link target: a full `urn:memexia:` IRI is kept as it is;
/// anything else is treated as a file path and encoded under the file scheme.
pub open spec fn spec_target_id(target: Seq<char>) -> Seq<char> {
    if "urn:memexia:"@.is_prefix_of(target) {
        target
    } else {
        "urn:memexia:file:"@ + encode_seq(target)
    }
}

/// Build the node IRI for a wiki-link target.
pub fn target_id(target: &str) -> (r: String)
    ensures
        r@ == spec_target_id(target@),
{
    let v = chars_of(target);
    if has_prefix(&v, "urn:memexia:") {
        return string_from(&v);
    }
    let encoded = encode_iri_component(target);
    concat_strs("urn:memexia:file:", encoded.as_str())
}

/// The stable edge IRI for a pair of node IRIs.
pub open spec fn spec_edge_id(from: Seq<char>, to: Seq<char>) -> Seq<char> {
    "urn:memexia:edge:"@ + from + "-"@ + to
}

/// Build the edge IRI for a pair of node IRIs.
pub fn edge_id(from: &str, to: &str) -> (r: String)
    ensures
        r@ == spec_edge_id(from@, to@),
{
    let a = concat_strs("urn:memexia:edge:", from);
    let b = concat_strs(a.as_str(), "-");
    concat_strs(b.as_str(), to)
}

} // verus!
