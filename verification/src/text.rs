//! Character-level text utilities.
//!
//! Parsing and rendering work on `Vec<char>`, whose view is the same
//! `Seq<char>` as a string's; the two wrappers below cross the boundary.

use vstd::prelude::*;

verus! {

/// Relies on str::chars and collect: yields exactly the characters of the
/// string, in order.
#[verifier::external_body]
pub fn chars_of(s: &str) -> (r: Vec<char>)
    ensures
        r@ == s@,
{
    s.chars().collect()
}

/// Relies on String's FromIterator over char: the string holds exactly the
/// given characters, in order.
#[verifier::external_body]
pub fn string_from(v: &Vec<char>) -> (r: String)
    ensures
        r@ == v@,
{
    v.iter().collect()
}

/// Character-by-character equality of two vectors.
pub fn eq_chars(a: &Vec<char>, b: &Vec<char>) -> (r: bool)
    ensures
        r == (a@ == b@),
{
    if a.len() != b.len() {
        return false;
    }
    let mut i: usize = 0;
    while i < a.len()
        invariant
            i <= a.len(),
            a.len() == b.len(),
            forall|j: int| 0 <= j < i ==> a@[j] == b@[j],
        decreases a.len() - i,
    {
        if a[i] != b[i] {
            return false;
        }
        i = i + 1;
    }
    proof {
        assert(a@ =~= b@);
    }
    true
}

/// Equality of a character vector and a string.
pub fn eq_str(a: &Vec<char>, s: &str) -> (r: bool)
    ensures
        r == (a@ == s@),
{
    let b = chars_of(s);
    eq_chars(a, &b)
}

/// ASCII lowercase of one character; anything outside 'A'..'Z' is kept.
pub open spec fn lower_char(c: char) -> char {
    if 'A' <= c && c <= 'Z' {
        ((c as u8) + 32) as char
    } else {
        c
    }
}

/// ASCII lowercase of a sequence, character by character.
pub open spec fn lower_seq(s: Seq<char>) -> Seq<char> {
    s.map_values(|c: char| lower_char(c))
}

/// ASCII lowercase of a vector, character by character.
pub fn ascii_lower(v: &Vec<char>) -> (r: Vec<char>)
    ensures
        r@ == lower_seq(v@),
{
    let mut out: Vec<char> = Vec::new();
    let mut i: usize = 0;
    while i < v.len()
        invariant
            i <= v.len(),
            out@ == lower_seq(v@.take(i as int)),
        decreases v.len() - i,
    {
        let c = v[i];
        if 'A' <= c && c <= 'Z' {
            out.push(((c as u8) + 32) as char);
        } else {
            out.push(c);
        }
        proof {
            assert(v@.take(i + 1 as int).drop_last() =~= v@.take(i as int));
            assert(out@ =~= lower_seq(v@.take(i + 1 as int)));
        }
        i = i + 1;
    }
    proof {
        assert(v@.take(v@.len() as int) =~= v@);
    }
    out
}

/// The characters of `s` with every occurrence of `from` replaced by `to`.
pub open spec fn replace_char_seq(s: Seq<char>, from: char, to: char) -> Seq<char> {
    s.map_values(|c: char| if c == from { to } else { c })
}

/// Replace every occurrence of one character by another.
pub fn replace_char(v: &Vec<char>, from: char, to: char) -> (r: Vec<char>)
    ensures
        r@ == replace_char_seq(v@, from, to),
{
    let mut out: Vec<char> = Vec::new();
    let mut i: usize = 0;
    while i < v.len()
        invariant
            i <= v.len(),
            out@ == replace_char_seq(v@.take(i as int), from, to),
        decreases v.len() - i,
    {
        let c = v[i];
        if c == from {
            out.push(to);
        } else {
            out.push(c);
        }
        proof {
            assert(v@.take(i + 1 as int).drop_last() =~= v@.take(i as int));
            assert(out@ =~= replace_char_seq(v@.take(i + 1 as int), from, to));
        }
        i = i + 1;
    }
    proof {
        assert(v@.take(v@.len() as int) =~= v@);
    }
    out
}

/// Whether the vector begins with the characters of `p`.
pub fn has_prefix(v: &Vec<char>, p: &str) -> (r: bool)
    ensures
        r == p@.is_prefix_of(v@),
{
    let pc = chars_of(p);
    if v.len() < pc.len() {
        return false;
    }
    let mut i: usize = 0;
    while i < pc.len()
        invariant
            i <= pc.len(),
            pc.len() <= v.len(),
            pc@ == p@,
            forall|j: int| 0 <= j < i ==> v@[j] == pc@[j],
        decreases pc.len() - i,
    {
        if v[i] != pc[i] {
            proof {
                assert(!p@.is_prefix_of(v@)) by {
                    assert(v@[i as int] != p@[i as int]);
                }
            }
            return false;
        }
        i = i + 1;
    }
    proof {
        assert(p@.is_prefix_of(v@)) by {
            assert(v@.subrange(0, p@.len() as int) =~= p@);
        }
    }
    true
}

/// The characters of `s` with every occurrence of `x` removed.
pub open spec fn seq_without_char(s: Seq<char>, x: char) -> Seq<char> {
    s.filter(|c: char| c != x)
}

/// Remove every occurrence of one character.
pub fn strip_char(v: &Vec<char>, x: char) -> (r: Vec<char>)
    ensures
        r@ == seq_without_char(v@, x),
{
    let mut out: Vec<char> = Vec::new();
    let mut i: usize = 0;
    while i < v.len()
        invariant
            i <= v.len(),
            out@ == seq_without_char(v@.take(i as int), x),
        decreases v.len() - i,
    {
        let c = v[i];
        proof {
            assert(v@.take(i + 1 as int).drop_last() =~= v@.take(i as int));
            assert(v@.take(i + 1 as int).last() == v@[i as int]);
            reveal(Seq::filter);
        }
        if c != x {
            out.push(c);
        }
        i = i + 1;
    }
    proof {
        assert(v@.take(v@.len() as int) =~= v@);
    }
    out
}

/// ASCII whitespace, as trimmed from link targets and titles.
pub open spec fn is_ws(c: char) -> bool {
    c == ' ' || c == '\t' || c == '\n' || c == '\r'
}

/// The first index at or after `i` holding a non-whitespace character, or
/// the length.
pub open spec fn first_non_ws(s: Seq<char>, i: int) -> int
    decreases s.len() - i,
{
    if i < 0 || i >= s.len() {
        s.len() as int
    } else if !is_ws(s[i]) {
        i
    } else {
        first_non_ws(s, i + 1)
    }
}

/// One past the last non-whitespace character strictly before `j`, or zero.
pub open spec fn end_non_ws(s: Seq<char>, j: int) -> int
    decreases j,
{
    if j <= 0 || j > s.len() {
        0
    } else if !is_ws(s[j - 1]) {
        j
    } else {
        end_non_ws(s, j - 1)
    }
}

/// The characters with leading and trailing ASCII whitespace removed.
pub open spec fn trim_seq(s: Seq<char>) -> Seq<char> {
    let a = first_non_ws(s, 0);
    let b = end_non_ws(s, s.len() as int);
    if a >= b {
        Seq::<char>::empty()
    } else {
        s.subrange(a, b)
    }
}

pub proof fn lemma_first_non_ws_range(s: Seq<char>, a: int)
    requires
        0 <= a <= s.len(),
        forall|k: int| 0 <= k < a ==> is_ws(s[k]),
        a < s.len() ==> !is_ws(s[a]),
    ensures
        first_non_ws(s, 0) == if a < s.len() {
            a
        } else {
            s.len() as int
        },
{
    lemma_first_non_ws_step(s, 0, a);
}

proof fn lemma_first_non_ws_step(s: Seq<char>, lo: int, a: int)
    requires
        0 <= lo <= a <= s.len(),
        forall|k: int| lo <= k < a ==> is_ws(s[k]),
        a < s.len() ==> !is_ws(s[a]),
    ensures
        first_non_ws(s, lo) == if a < s.len() {
            a
        } else {
            s.len() as int
        },
    decreases a - lo,
{
    if lo < a {
        lemma_first_non_ws_step(s, lo + 1, a);
    }
}

proof fn lemma_end_non_ws_range(s: Seq<char>, b: int)
    requires
        0 <= b <= s.len(),
        forall|k: int| b <= k < s.len() ==> is_ws(s[k]),
        b > 0 ==> !is_ws(s[b - 1]),
    ensures
        end_non_ws(s, s.len() as int) == b,
{
    lemma_end_non_ws_step(s, s.len() as int, b);
}

proof fn lemma_end_non_ws_step(s: Seq<char>, hi: int, b: int)
    requires
        0 <= b <= hi <= s.len(),
        forall|k: int| b <= k < hi ==> is_ws(s[k]),
        b > 0 ==> !is_ws(s[b - 1]),
    ensures
        end_non_ws(s, hi) == b,
    decreases hi - b,
{
    if b < hi {
        lemma_end_non_ws_step(s, hi - 1, b);
    }
}

/// Remove leading and trailing ASCII whitespace.
#[verifier::loop_isolation(false)]
pub fn trim_chars(v: &Vec<char>) -> (r: Vec<char>)
    ensures
        r@ == trim_seq(v@),
{
    let ghost s = v@;
    let mut a: usize = 0;
    while a < v.len() && (v[a] == ' ' || v[a] == '\t' || v[a] == '\n' || v[a] == '\r')
        invariant
            a <= v.len(),
            forall|k: int| 0 <= k < a ==> is_ws(s[k]),
        decreases v.len() - a,
    {
        a = a + 1;
    }
    let mut b: usize = v.len();
    while b > a && (v[b - 1] == ' ' || v[b - 1] == '\t' || v[b - 1] == '\n' || v[b - 1] == '\r')
        invariant
            a <= b <= v.len(),
            forall|k: int| b <= k < v@.len() ==> is_ws(s[k]),
        decreases b,
    {
        b = b - 1;
    }
    let mut out: Vec<char> = Vec::new();
    let mut i: usize = a;
    while i < b
        invariant
            a <= i <= b <= v.len(),
            out@ == s.subrange(a as int, i as int),
        decreases b - i,
    {
        out.push(v[i]);
        proof {
            assert(s.subrange(a as int, i + 1 as int) =~= s.subrange(a as int, i as int).push(
                s[i as int],
            ));
        }
        i = i + 1;
    }
    proof {
        if a == b {
            // either everything is whitespace, or the trimmed range is empty
            if (a as int) < s.len() && !is_ws(s[a as int]) {
                lemma_first_non_ws_range(s, a as int);
                lemma_end_non_ws_range(s, b as int);
                assert(out@ =~= trim_seq(s));
            } else {
                assert(forall|k: int| 0 <= k < s.len() ==> is_ws(s[k]));
                lemma_first_non_ws_range(s, s.len() as int);
                lemma_end_non_ws_range(s, 0);
                assert(out@ =~= trim_seq(s));
            }
        } else {
            assert(!is_ws(s[a as int]));
            assert(!is_ws(s[b - 1]));
            lemma_first_non_ws_range(s, a as int);
            lemma_end_non_ws_range(s, b as int);
            assert(out@ =~= trim_seq(s));
        }
    }
    out
}

/// True when `c` occurs in `s`.
pub open spec fn seq_contains_char(s: Seq<char>, c: char) -> bool {
    exists|i: int| 0 <= i < s.len() && s[i] == c
}

/// Whether the vector holds the character anywhere.
pub fn contains_char(v: &Vec<char>, c: char) -> (r: bool)
    ensures
        r == seq_contains_char(v@, c),
{
    let mut i: usize = 0;
    while i < v.len()
        invariant
            i <= v.len(),
            forall|j: int| 0 <= j < i ==> v@[j] != c,
        decreases v.len() - i,
    {
        if v[i] == c {
            return true;
        }
        i = i + 1;
    }
    false
}

} // verus!
