//! Edge strengths and confidences.
//!
//! A strength is a real in [0, 1]; the library carries it in thousandths
//! (0 ..= 1000), truncating any digits past the third decimal place.
//! Values parsed from text are clamped into the range, never rejected.

use vstd::prelude::*;

verus! {

/// One whole unit of strength, in thousandths.
pub const STRENGTH_UNIT: u32 = 1000;

/// A decimal digit.
pub open spec fn is_digit(c: char) -> bool {
    '0' <= c && c <= '9'
}

/// The value of a decimal digit.
pub open spec fn digit_val(c: char) -> int {
    c as int - '0' as int
}

/// Every character is a decimal digit.
pub open spec fn all_digits(s: Seq<char>) -> bool {
    forall|i: int| 0 <= i < s.len() ==> is_digit(s[i])
}

/// The integer a run of decimal digits denotes.
pub open spec fn int_value(s: Seq<char>) -> int
    decreases s.len(),
{
    if s.len() == 0 {
        0
    } else {
        int_value(s.drop_last()) * 10 + digit_val(s.last())
    }
}

/// The value of a fraction-digit run, in thousandths: digits past the
/// third are truncated, missing places count as zero.
pub open spec fn frac_milli(s: Seq<char>) -> int {
    (if s.len() > 0 {
        digit_val(s[0]) * 100
    } else {
        0
    }) + (if s.len() > 1 {
        digit_val(s[1]) * 10
    } else {
        0
    }) + (if s.len() > 2 {
        digit_val(s[2])
    } else {
        0
    })
}

/// The index of the first occurrence of `c` at or after `i`, or the length.
pub open spec fn find_from(s: Seq<char>, c: char, i: int) -> int
    decreases s.len() - i,
{
    if i < 0 || i >= s.len() {
        s.len() as int
    } else if s[i] == c {
        i
    } else {
        find_from(s, c, i + 1)
    }
}

/// The signed value, in thousandths, that a decimal string denotes:
/// an optional sign, integer digits, and an optional fraction, with at
/// least one digit in all. Anything else does not parse.
pub open spec fn spec_parse_strength(s: Seq<char>) -> Option<int> {
    if s.len() > 0 && (s[0] == '-' || s[0] == '+') {
        match spec_parse_unsigned(s.skip(1)) {
            Some(v) => Some(if s[0] == '-' { -v } else { v }),
            None => None,
        }
    } else {
        spec_parse_unsigned(s)
    }
}

/// The unsigned part of the grammar: `digits [ '.' digits ]`, with at
/// least one digit overall.
pub open spec fn spec_parse_unsigned(s: Seq<char>) -> Option<int> {
    let d = find_from(s, '.', 0);
    let ip = s.take(d);
    let fp = if d < s.len() {
        s.skip(d + 1)
    } else {
        Seq::<char>::empty()
    };
    if all_digits(ip) && all_digits(fp) && ip.len() + fp.len() >= 1 {
        Some(int_value(ip) * 1000 + frac_milli(fp))
    } else {
        None
    }
}

/// Clamp a thousandths value into [0, 1000].
pub open spec fn clamp_milli(v: int) -> int {
    if v < 0 {
        0
    } else if v > 1000 {
        1000
    } else {
        v
    }
}

proof fn lemma_all_digits_drop_last(s: Seq<char>)
    requires
        all_digits(s),
        s.len() > 0,
    ensures
        all_digits(s.drop_last()),
{
    assert(forall|i: int|
        0 <= i < s.drop_last().len() ==> s.drop_last()[i] == s[i] && is_digit(s[i]));
}

proof fn lemma_int_value_nonneg(s: Seq<char>)
    requires
        all_digits(s),
    ensures
        int_value(s) >= 0,
    decreases s.len(),
{
    if s.len() > 0 {
        lemma_all_digits_drop_last(s);
        lemma_int_value_nonneg(s.drop_last());
    }
}

proof fn lemma_int_value_nonzero(s: Seq<char>, w: int)
    requires
        all_digits(s),
        0 <= w < s.len(),
        s[w] != '0',
    ensures
        int_value(s) >= 1,
    decreases s.len(),
{
    lemma_all_digits_drop_last(s);
    lemma_int_value_nonneg(s.drop_last());
    if w == s.len() - 1 {
        assert(digit_val(s.last()) >= 1);
    } else {
        lemma_int_value_nonzero(s.drop_last(), w);
    }
}

proof fn lemma_int_value_zero(s: Seq<char>)
    requires
        forall|i: int| 0 <= i < s.len() ==> s[i] == '0',
    ensures
        int_value(s) == 0,
    decreases s.len(),
{
    if s.len() > 0 {
        assert(forall|i: int| 0 <= i < s.drop_last().len() ==> s.drop_last()[i] == s[i]);
        lemma_int_value_zero(s.drop_last());
    }
}

pub proof fn lemma_find_from_range(s: Seq<char>, c: char, lo: int, hi: int)
    requires
        0 <= lo <= hi <= s.len(),
        forall|k: int| lo <= k < hi ==> s[k] != c,
        hi < s.len() ==> s[hi] == c,
    ensures
        find_from(s, c, lo) == if hi < s.len() {
            hi
        } else {
            s.len() as int
        },
    decreases hi - lo,
{
    if lo < hi {
        lemma_find_from_range(s, c, lo + 1, hi);
    }
}

/// A forward scan that stopped at `a` computes `find_from`: nothing
/// before `a` matches, and `a` is a match unless it is the length.
pub proof fn lemma_find_from_is(s: Seq<char>, c: char, a: int)
    requires
        0 <= a <= s.len(),
        forall|k: int| 0 <= k < a ==> s[k] != c,
        a < s.len() ==> s[a] == c,
    ensures
        find_from(s, c, 0) == a,
{
    lemma_find_from_range(s, c, 0, a);
}

/// Parse a decimal strength string into clamped thousandths. `None` means
/// the text is not a plain decimal number.
#[verifier::loop_isolation(false)]
pub fn parse_strength_milli(v: &Vec<char>) -> (r: Option<u32>)
    ensures
        r matches Some(m) ==> m <= 1000,
        match spec_parse_strength(v@) {
            Some(val) => r == Some(clamp_milli(val) as u32),
            None => r is None,
        },
{
    let ghost s = v@;
    let mut i: usize = 0;
    let mut neg = false;
    if v.len() > 0 && (v[0] == '-' || v[0] == '+') {
        neg = v[0] == '-';
        i = 1;
    }
    // integer part: digits up to the first dot
    let mut j: usize = i;
    let mut ip_nonzero = false;
    while j < v.len() && v[j] != '.'
        invariant
            i <= j <= v@.len(),
            s == v@,
            forall|k: int| i <= k < j ==> s[k] != '.',
            forall|k: int| i <= k < j ==> is_digit(#[trigger] s[k]),
            ip_nonzero == exists|k: int| i <= k < j && #[trigger] s[k] != '0',
        decreases v.len() - j,
    {
        let c = v[j];
        if !('0' <= c && c <= '9') {
            proof {
                lemma_parse_fails(s, i as int, j as int);
            }
            return None;
        }
        if c != '0' {
            ip_nonzero = true;
        }
        j = j + 1;
    }
    // fraction part, when a dot follows: validate, then read up to three
    // digits
    let mut frac: u32 = 0;
    if j < v.len() {
        let mut k: usize = j + 1;
        while k < v.len()
            invariant
                j + 1 <= k <= v@.len(),
                s == v@,
                j < v@.len(),
                s[j as int] == '.',
                i <= j,
                i == 0 || i == 1,
                forall|t: int| i <= t < j ==> s[t] != '.',
                forall|t: int| i <= t < j ==> is_digit(#[trigger] s[t]),
                forall|t: int| j + 1 <= t < k ==> is_digit(#[trigger] s[t]),
            decreases v.len() - k,
        {
            let c = v[k];
            if !('0' <= c && c <= '9') {
                proof {
                    lemma_parse_frac_fails(s, i as int, j as int, k as int);
                }
                return None;
            }
            k = k + 1;
        }
        if j == i && j + 1 >= v.len() {
            proof {
                lemma_parse_empty(s, i as int, j as int);
            }
            return None;
        }
        if v.len() - j > 1 {
            proof {
                assert(is_digit(s[j + 1]));
            }
            frac = frac + ((v[j + 1] as u32) - ('0' as u32)) * 100;
        }
        if v.len() - j > 2 {
            proof {
                assert(is_digit(s[j + 2]));
            }
            frac = frac + ((v[j + 2] as u32) - ('0' as u32)) * 10;
        }
        if v.len() - j > 3 {
            proof {
                assert(is_digit(s[j + 3]));
            }
            frac = frac + ((v[j + 3] as u32) - ('0' as u32));
        }
        proof {
            lemma_parse_succeeds(s, i as int, j as int, frac as int);
        }
        finish_parse(Ghost(s), i, j, neg, ip_nonzero, frac)
    } else {
        if j == i {
            proof {
                lemma_parse_empty(s, i as int, j as int);
            }
            return None;
        }
        proof {
            lemma_parse_succeeds(s, i as int, j as int, 0);
        }
        finish_parse(Ghost(s), i, j, neg, ip_nonzero, 0)
    }
}

/// Turn the scanned shape into the clamped result.
fn finish_parse(
    Ghost(s): Ghost<Seq<char>>,
    i: usize,
    j: usize,
    neg: bool,
    ip_nonzero: bool,
    frac: u32,
) -> (r: Option<u32>)
    requires
        i <= j <= s.len(),
        0 <= frac <= 999,
        forall|k: int| i <= k < j ==> is_digit(#[trigger] s[k]),
        ip_nonzero == exists|k: int| i as int <= k < j && #[trigger] s[k] != '0',
        neg ==> spec_parse_strength(s) == Some(
            -(int_value(s.skip(i as int).take(j - i)) * 1000 + frac),
        ),
        !neg ==> spec_parse_strength(s) == Some(
            int_value(s.skip(i as int).take(j - i)) * 1000 + frac,
        ),
    ensures
        r matches Some(m) ==> m <= 1000,
        match spec_parse_strength(s) {
            Some(val) => r == Some(clamp_milli(val) as u32),
            None => r is None,
        },
{
    let ghost ip = s.skip(i as int).take(j - i);
    proof {
        assert(forall|t: int| 0 <= t < ip.len() ==> #[trigger] ip[t] == s[t + i]);
        assert(all_digits(ip));
    }
    if neg {
        proof {
            lemma_int_value_nonneg(ip);
        }
        Some(0)
    } else if ip_nonzero {
        proof {
            let w = choose|k: int| i as int <= k < j && #[trigger] s[k] != '0';
            assert(ip[w - i] == s[w]);
            lemma_int_value_nonzero(ip, w - i);
        }
        Some(1000)
    } else {
        proof {
            assert(forall|t: int| 0 <= t < ip.len() ==> #[trigger] ip[t] == '0') by {
                assert(forall|k: int| i as int <= k < j ==> #[trigger] s[k] == '0');
            }
            lemma_int_value_zero(ip);
        }
        Some(frac)
    }
}

/// The scanned prefix shape, shared by the proof helpers below.
spec fn scan_shape(s: Seq<char>, i: int, j: int) -> bool {
    (i == 0 || i == 1) && (i == 1 ==> s.len() > 0 && (s[0] == '-' || s[0] == '+')) && (i == 0
        ==> (s.len() == 0 || (s[0] != '-' && s[0] != '+'))) && i <= j <= s.len() && (forall|k: int|
        i <= k < j ==> s[k] != '.') && (forall|k: int| i <= k < j ==> is_digit(#[trigger] s[k]))
}

proof fn lemma_find_from_geq(s: Seq<char>, c: char, lo: int, m: int)
    requires
        0 <= lo <= m <= s.len(),
        forall|k: int| lo <= k < m ==> s[k] != c,
    ensures
        find_from(s, c, lo) >= m,
    decreases m - lo,
{
    if lo < m {
        lemma_find_from_geq(s, c, lo + 1, m);
    } else {
        lemma_find_from_le_len(s, c, lo);
    }
}

proof fn lemma_find_from_le_len(s: Seq<char>, c: char, lo: int)
    requires
        0 <= lo <= s.len(),
    ensures
        lo <= find_from(s, c, lo) <= s.len(),
    decreases s.len() - lo,
{
    if lo < s.len() && s[lo] != c {
        lemma_find_from_le_len(s, c, lo + 1);
    }
}

proof fn lemma_strength_body(s: Seq<char>, i: int)
    requires
        i == 0 || i == 1,
        i == 1 ==> s.len() > 0 && (s[0] == '-' || s[0] == '+'),
        i == 0 ==> (s.len() == 0 || (s[0] != '-' && s[0] != '+')),
    ensures
        spec_parse_strength(s) == (match spec_parse_unsigned(s.skip(i)) {
            Some(v) => Some(if i == 1 && s[0] == '-' { -v } else { v }),
            None => None::<int>,
        }),
{
    if i == 0 {
        assert(s.skip(0) =~= s);
    }
}

proof fn lemma_scan_dot(s: Seq<char>, i: int, j: int)
    requires
        scan_shape(s, i, j),
        j < s.len() ==> s[j] == '.',
    ensures
        find_from(s.skip(i), '.', 0) == j - i,
        s.skip(i).take(j - i).len() == j - i,
        all_digits(s.skip(i).take(j - i)),
{
    let body = s.skip(i);
    assert(forall|k: int| 0 <= k < body.len() ==> body[k] == s[k + i]);
    if j < s.len() {
        lemma_find_from_range(body, '.', 0, j - i);
    } else {
        lemma_find_from_range(body, '.', 0, j - i);
    }
    assert(forall|t: int|
        0 <= t < body.take(j - i).len() ==> #[trigger] body.take(j - i)[t] == s[t + i]);
}

proof fn lemma_parse_fails(s: Seq<char>, i: int, j: int)
    requires
        scan_shape(s, i, j),
        j < s.len(),
        s[j] != '.',
        !is_digit(s[j]),
    ensures
        spec_parse_strength(s) is None,
{
    let body = s.skip(i);
    lemma_strength_body(s, i);
    let d = find_from(body, '.', 0);
    assert(forall|k: int| 0 <= k < body.len() ==> body[k] == s[k + i]);
    // the first dot, if any, lies strictly after the non-digit at j - i
    lemma_find_from_geq(body, '.', 0, j - i + 1);
    lemma_find_from_le_len(body, '.', 0);
    assert(body.take(d)[j - i] == s[j]);
    assert(!all_digits(body.take(d)));
}

proof fn lemma_parse_frac_fails(s: Seq<char>, i: int, j: int, k: int)
    requires
        scan_shape(s, i, j),
        j < s.len(),
        s[j] == '.',
        j + 1 <= k < s.len(),
        forall|t: int| j + 1 <= t < k ==> is_digit(#[trigger] s[t]),
        !is_digit(s[k]),
    ensures
        spec_parse_strength(s) is None,
{
    let body = s.skip(i);
    lemma_strength_body(s, i);
    lemma_scan_dot(s, i, j);
    let d = find_from(body, '.', 0);
    let fp = body.skip(d + 1);
    assert(fp[k - j - 1] == body[k - i]);
    assert(body[k - i] == s[k]);
    assert(!all_digits(fp));
}

proof fn lemma_parse_empty(s: Seq<char>, i: int, j: int)
    requires
        scan_shape(s, i, j),
        j < s.len() ==> s[j] == '.',
        j == i,
        j >= s.len() || j + 1 >= s.len(),
    ensures
        spec_parse_strength(s) is None,
{
    let body = s.skip(i);
    lemma_strength_body(s, i);
    lemma_scan_dot(s, i, j);
    let d = find_from(body, '.', 0);
    if j < s.len() {
        assert(body.skip(d + 1).len() == 0);
    }
}

proof fn lemma_parse_succeeds(s: Seq<char>, i: int, j: int, frac: int)
    requires
        scan_shape(s, i, j),
        j < s.len() ==> s[j] == '.',
        forall|t: int| j + 1 <= t < s.len() ==> is_digit(#[trigger] s[t]),
        j > i || (j < s.len() && j + 1 < s.len()),
        frac == (if j + 1 < s.len() {
            digit_val(s[j + 1]) * 100
        } else {
            0
        }) + (if j + 2 < s.len() {
            digit_val(s[j + 2]) * 10
        } else {
            0
        }) + (if j + 3 < s.len() {
            digit_val(s[j + 3])
        } else {
            0
        }),
    ensures
        (i == 1 && s[0] == '-') ==> spec_parse_strength(s) == Some(
            -(int_value(s.skip(i).take(j - i)) * 1000 + frac),
        ),
        !(i == 1 && s[0] == '-') ==> spec_parse_strength(s) == Some(
            int_value(s.skip(i).take(j - i)) * 1000 + frac,
        ),
        0 <= frac <= 999,
{
    let body = s.skip(i);
    lemma_strength_body(s, i);
    lemma_scan_dot(s, i, j);
    let d = find_from(body, '.', 0);
    assert(d == j - i);
    let fp = if d < body.len() {
        body.skip(d + 1)
    } else {
        Seq::<char>::empty()
    };
    if j < s.len() {
        assert(forall|t: int| 0 <= t < fp.len() ==> #[trigger] fp[t] == s[t + j + 1]);
        assert(all_digits(fp));
        assert(frac == frac_milli(fp));
    } else {
        assert(frac == frac_milli(fp));
    }
    let u = int_value(body.take(d)) * 1000 + frac_milli(fp);
    assert(spec_parse_unsigned(body) == Some(u));
    if i == 1 && s[0] == '-' {
        assert(spec_parse_strength(s) == Some(-u));
    } else {
        assert(spec_parse_strength(s) == Some(u));
    }
}

/// The decimal rendering of a clamped strength: "1" for the unit, "0" for
/// zero, otherwise "0." followed by up to three digits without trailing
/// zeros.
pub open spec fn spec_strength_str(m: int) -> Seq<char>
    recommends
        0 <= m <= 1000,
{
    if m == 1000 {
        "1"@
    } else if m == 0 {
        "0"@
    } else if m % 10 != 0 {
        seq!['0', '.', digit_char(m / 100), digit_char((m / 10) % 10), digit_char(m % 10)]
    } else if m % 100 != 0 {
        seq!['0', '.', digit_char(m / 100), digit_char((m / 10) % 10)]
    } else {
        seq!['0', '.', digit_char(m / 100)]
    }
}

/// The character for a digit value.
pub open spec fn digit_char(d: int) -> char
    recommends
        0 <= d <= 9,
{
    (('0' as u8) + d as u8) as char
}

/// Render a clamped strength as a decimal string.
pub fn strength_to_string(m: u32) -> (r: Vec<char>)
    requires
        m <= 1000,
    ensures
        r@ == spec_strength_str(m as int),
{
    let mut out: Vec<char> = Vec::new();
    if m == 1000 {
        out.push('1');
        proof {
            reveal_strlit("1");
            assert(out@ =~= "1"@);
        }
    } else if m == 0 {
        out.push('0');
        proof {
            reveal_strlit("0");
            assert(out@ =~= "0"@);
        }
    } else {
        out.push('0');
        out.push('.');
        out.push((('0' as u8) + (m / 100) as u8) as char);
        if m % 100 != 0 {
            out.push((('0' as u8) + ((m / 10) % 10) as u8) as char);
        }
        if m % 10 != 0 {
            out.push((('0' as u8) + (m % 10) as u8) as char);
        }
        proof {
            assert(out@ =~= spec_strength_str(m as int));
        }
    }
    out
}

} // verus!
