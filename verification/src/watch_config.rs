//! The allow/deny filter over watched paths.
//!
//! A blacklist pattern holding a path separator is matched against the
//! full path; a separator-free pattern is matched against the final
//! file-name component only. When the whitelist is empty every
//! non-blacklisted file is accepted; otherwise a file must match a
//! whitelist pattern. In a pattern, `*` matches a run of non-separator
//! characters, `**` matches any run, `**/` matches whole leading
//! directories (or nothing), `?` matches one character, and everything
//! else matches itself.

use vstd::prelude::*;

use crate::text::{chars_of, seq_contains_char, string_from};

verus! {

/// Whether the pattern from `pi` matches the text from `ti`.
pub open spec fn glob_from(p: Seq<char>, t: Seq<char>, pi: int, ti: int) -> bool
    decreases p.len() - pi, t.len() - ti, 1int,
{
    if pi < 0 || ti < 0 || pi > p.len() || ti > t.len() {
        false
    } else if pi == p.len() {
        ti == t.len()
    } else if p[pi] == '*' && pi + 2 < p.len() && p[pi + 1] == '*' && p[pi + 2] == '/' {
        glob_from(p, t, pi + 3, ti) || (ti < t.len() && glob_seek_slash(p, t, pi, ti))
    } else if p[pi] == '*' && pi + 1 < p.len() && p[pi + 1] == '*' {
        glob_from(p, t, pi + 2, ti) || (ti < t.len() && glob_from(p, t, pi, ti + 1))
    } else if p[pi] == '*' {
        glob_from(p, t, pi + 1, ti) || (ti < t.len() && t[ti] != '/' && glob_from(
            p,
            t,
            pi,
            ti + 1,
        ))
    } else if p[pi] == '?' {
        ti < t.len() && glob_from(p, t, pi + 1, ti + 1)
    } else {
        ti < t.len() && t[ti] == p[pi] && glob_from(p, t, pi + 1, ti + 1)
    }
}

/// Scan the text for the next separator, behind which the `**/` pattern
/// may go on.
pub open spec fn glob_seek_slash(p: Seq<char>, t: Seq<char>, pi: int, ti: int) -> bool
    decreases p.len() - pi, t.len() - ti, 0int,
{
    if pi < 0 || ti < 0 || ti >= t.len() || pi > p.len() {
        false
    } else if t[ti] == '/' {
        glob_from(p, t, pi, ti + 1)
    } else if ti + 1 < t.len() {
        glob_seek_slash(p, t, pi, ti + 1)
    } else {
        false
    }
}

/// Whether a glob pattern matches a whole text.
pub open spec fn spec_matches_pattern(p: Seq<char>, t: Seq<char>) -> bool {
    glob_from(p, t, 0, 0)
}

/// Match a glob pattern against a whole text.
pub fn matches_pattern(pattern: &str, text: &str) -> (r: bool)
    ensures
        r == spec_matches_pattern(pattern@, text@),
{
    let p = chars_of(pattern);
    let t = chars_of(text);
    glob_at(&p, &t, 0, 0)
}

/// Exec mirror of `glob_from`.
fn glob_at(p: &Vec<char>, t: &Vec<char>, pi: usize, ti: usize) -> (r: bool)
    requires
        pi <= p@.len(),
        ti <= t@.len(),
    ensures
        r == glob_from(p@, t@, pi as int, ti as int),
    decreases p@.len() - pi, t@.len() - ti, 1int,
{
    if pi == p.len() {
        return ti == t.len();
    }
    let c = p[pi];
    if c == '*' && p.len() - pi > 2 && p[pi + 1] == '*' && p[pi + 2] == '/' {
        if glob_at(p, t, pi + 3, ti) {
            return true;
        }
        if ti < t.len() {
            return seek_slash_at(p, t, pi, ti);
        }
        false
    } else if c == '*' && p.len() - pi > 1 && p[pi + 1] == '*' {
        if glob_at(p, t, pi + 2, ti) {
            return true;
        }
        if ti < t.len() {
            return glob_at(p, t, pi, ti + 1);
        }
        false
    } else if c == '*' {
        if glob_at(p, t, pi + 1, ti) {
            return true;
        }
        if ti < t.len() && t[ti] != '/' {
            return glob_at(p, t, pi, ti + 1);
        }
        false
    } else if c == '?' {
        ti < t.len() && glob_at(p, t, pi + 1, ti + 1)
    } else {
        ti < t.len() && t[ti] == c && glob_at(p, t, pi + 1, ti + 1)
    }
}

/// Exec mirror of `glob_seek_slash`.
fn seek_slash_at(p: &Vec<char>, t: &Vec<char>, pi: usize, ti: usize) -> (r: bool)
    requires
        pi <= p@.len(),
        ti < t@.len(),
    ensures
        r == glob_seek_slash(p@, t@, pi as int, ti as int),
    decreases p@.len() - pi, t@.len() - ti, 0int,
{
    let n = t.len();
    if t[ti] == '/' {
        glob_at(p, t, pi, ti + 1)
    } else if n - ti > 1 {
        seek_slash_at(p, t, pi, ti + 1)
    } else {
        false
    }
}

/// The final file-name component of a path: everything after its last
/// separator of either kind.
pub open spec fn spec_file_name(path: Seq<char>) -> Seq<char> {
    crate::node::Node::spec_last_component(path)
}

/// Which files the watcher and indexer accept.
#[derive(Debug)]
pub struct WatchConfig {
    /// Accept only files matching one of these, unless empty.
    pub whitelist: Vec<String>,
    /// Never accept files matching one of these.
    pub blacklist: Vec<String>,
}

/// Whether a blacklist pattern rejects a path: a pattern with a
/// separator is held against the whole path, one without against the
/// file name alone.
pub open spec fn spec_blacklisted(blacklist: Seq<Seq<char>>, path: Seq<char>) -> bool {
    exists|i: int|
        0 <= i < blacklist.len() && (if seq_contains_char(#[trigger] blacklist[i], '/')
            || seq_contains_char(blacklist[i], '\\') {
            spec_matches_pattern(blacklist[i], path)
        } else {
            spec_matches_pattern(blacklist[i], spec_file_name(path))
        })
}

/// Whether a whitelist pattern accepts a path: against the whole path
/// or the file name alone.
pub open spec fn spec_whitelisted(whitelist: Seq<Seq<char>>, path: Seq<char>) -> bool {
    exists|i: int|
        0 <= i < whitelist.len() && (spec_matches_pattern(#[trigger] whitelist[i], path)
            || spec_matches_pattern(whitelist[i], spec_file_name(path)))
}

/// Whether a path is accepted: never when blacklisted; otherwise always
/// when the whitelist is empty, else only when whitelisted. The
/// blacklist always wins.
pub open spec fn spec_allowed(
    whitelist: Seq<Seq<char>>,
    blacklist: Seq<Seq<char>>,
    path: Seq<char>,
) -> bool {
    !spec_blacklisted(blacklist, path) && (whitelist.len() == 0 || spec_whitelisted(
        whitelist,
        path,
    ))
}

/// The blacklist always wins: a blacklisted path is never allowed, no
/// matter the whitelist.
pub proof fn lemma_blacklist_dominates(
    whitelist: Seq<Seq<char>>,
    blacklist: Seq<Seq<char>>,
    path: Seq<char>,
)
    requires
        spec_blacklisted(blacklist, path),
    ensures
        !spec_allowed(whitelist, blacklist, path),
{
}

impl WatchConfig {
    /// The default configuration: Markdown files only, with the version
    /// directories and scratch files excluded.
    pub fn new() -> (r: WatchConfig)
        ensures
            r.whitelist.deep_view() =~= seq!["*.md"@],
            r.blacklist.deep_view() =~= seq![
                ".git/**/*"@,
                ".memexia/**/*"@,
                "*.tmp"@,
                "*.bak"@,
                ".DS_Store"@,
            ],
    {
        let mut whitelist: Vec<String> = Vec::new();
        push_str_item(&mut whitelist, "*.md");
        let mut blacklist: Vec<String> = Vec::new();
        push_str_item(&mut blacklist, ".git/**/*");
        push_str_item(&mut blacklist, ".memexia/**/*");
        push_str_item(&mut blacklist, "*.tmp");
        push_str_item(&mut blacklist, "*.bak");
        push_str_item(&mut blacklist, ".DS_Store");
        WatchConfig { whitelist, blacklist }
    }

    /// Whether a path is accepted: the blacklist wins, then an empty
    /// whitelist accepts everything, else the whitelist must match.
    pub fn is_allowed(&self, path: &str) -> (r: bool)
        ensures
            r == spec_allowed(self.whitelist.deep_view(), self.blacklist.deep_view(), path@),
    {
        if self.is_blacklisted(path) {
            return false;
        }
        if self.whitelist.len() == 0 {
            return true;
        }
        self.is_whitelisted(path)
    }

    /// Whether some whitelist pattern matches the path or its file name.
    #[verifier::loop_isolation(false)]
    pub fn is_whitelisted(&self, path: &str) -> (r: bool)
        ensures
            r == spec_whitelisted(self.whitelist.deep_view(), path@),
    {
        let ghost wl = self.whitelist.deep_view();
        let name_v = file_name_of(path);
        let name = string_from(&name_v);
        let mut i: usize = 0;
        while i < self.whitelist.len()
            invariant
                i <= self.whitelist@.len(),
                wl == self.whitelist.deep_view(),
                name_v@ == spec_file_name(path@),
                name@ == spec_file_name(path@),
                forall|k: int|
                    0 <= k < i ==> !(spec_matches_pattern(#[trigger] wl[k], path@)
                        || spec_matches_pattern(wl[k], spec_file_name(path@))),
            decreases self.whitelist@.len() - i,
        {
            proof {
                assert(self.whitelist.deep_view()[i as int] == self.whitelist@[i as int]@);
            }
            if matches_pattern(self.whitelist[i].as_str(), path) || matches_pattern(
                self.whitelist[i].as_str(),
                name.as_str(),
            ) {
                return true;
            }
            i = i + 1;
        }
        false
    }

    /// Whether some blacklist pattern rejects the path.
    #[verifier::loop_isolation(false)]
    pub fn is_blacklisted(&self, path: &str) -> (r: bool)
        ensures
            r == spec_blacklisted(self.blacklist.deep_view(), path@),
    {
        let ghost bl = self.blacklist.deep_view();
        let name_v = file_name_of(path);
        let name = string_from(&name_v);
        let mut i: usize = 0;
        while i < self.blacklist.len()
            invariant
                i <= self.blacklist@.len(),
                bl == self.blacklist.deep_view(),
                name_v@ == spec_file_name(path@),
                name@ == spec_file_name(path@),
                forall|k: int|
                    0 <= k < i ==> !(if seq_contains_char(#[trigger] bl[k], '/')
                        || seq_contains_char(bl[k], '\\') {
                        spec_matches_pattern(bl[k], path@)
                    } else {
                        spec_matches_pattern(bl[k], spec_file_name(path@))
                    }),
            decreases self.blacklist@.len() - i,
        {
            proof {
                assert(self.blacklist.deep_view()[i as int] == self.blacklist@[i as int]@);
            }
            let pv = chars_of(self.blacklist[i].as_str());
            let full = crate::text::contains_char(&pv, '/') || crate::text::contains_char(
                &pv,
                '\\',
            );
            let hit = if full {
                matches_pattern(self.blacklist[i].as_str(), path)
            } else {
                matches_pattern(self.blacklist[i].as_str(), name.as_str())
            };
            if hit {
                return true;
            }
            i = i + 1;
        }
        false
    }

    /// Append a whitelist pattern.
    pub fn add_whitelist(&mut self, pattern: &str)
        ensures
            final(self).whitelist.deep_view() == old(self).whitelist.deep_view().push(pattern@),
            final(self).blacklist == old(self).blacklist,
    {
        push_str_item(&mut self.whitelist, pattern);
    }

    /// Append a blacklist pattern.
    pub fn add_blacklist(&mut self, pattern: &str)
        ensures
            final(self).blacklist.deep_view() == old(self).blacklist.deep_view().push(pattern@),
            final(self).whitelist == old(self).whitelist,
    {
        push_str_item(&mut self.blacklist, pattern);
    }

    /// Drop every whitelist pattern: all non-blacklisted files pass.
    pub fn clear_whitelist(&mut self)
        ensures
            final(self).whitelist@.len() == 0,
            final(self).blacklist == old(self).blacklist,
    {
        self.whitelist = Vec::new();
    }

    /// Drop every blacklist pattern.
    pub fn clear_blacklist(&mut self)
        ensures
            final(self).blacklist@.len() == 0,
            final(self).whitelist == old(self).whitelist,
    {
        self.blacklist = Vec::new();
    }
}

impl Clone for WatchConfig {
    /// A clone carries the same patterns.
    fn clone(&self) -> (r: Self)
        ensures
            r.whitelist.deep_view() == self.whitelist.deep_view(),
            r.blacklist.deep_view() == self.blacklist.deep_view(),
    {
        WatchConfig {
            whitelist: clone_strings(&self.whitelist),
            blacklist: clone_strings(&self.blacklist),
        }
    }
}

impl Default for WatchConfig {
    /// No patterns at all: everything is allowed.
    fn default() -> (r: Self)
        ensures
            r.whitelist@.len() == 0,
            r.blacklist@.len() == 0,
    {
        WatchConfig { whitelist: Vec::new(), blacklist: Vec::new() }
    }
}

/// Clone a list of strings, model for model.
pub fn clone_strings(v: &Vec<String>) -> (r: Vec<String>)
    ensures
        r.deep_view() == v.deep_view(),
{
    let mut out: Vec<String> = Vec::new();
    let mut i: usize = 0;
    while i < v.len()
        invariant
            i <= v.len(),
            out@.len() == i,
            out.deep_view() == v.deep_view().take(i as int),
        decreases v.len() - i,
    {
        out.push(v[i].clone());
        proof {
            assert forall|j: int| 0 <= j < i + 1 implies #[trigger] out.deep_view()[j] == v
                .deep_view().take(i + 1 as int)[j] by {
                assert(out.deep_view()[j] == out@[j]@);
                assert(v.deep_view()[j] == v@[j]@);
                if j < i as int {
                    assert(out@[j]@ == out.deep_view().take(i as int)[j]);
                }
            }
            assert(out.deep_view() =~= v.deep_view().take(i + 1 as int));
        }
        i = i + 1;
    }
    proof {
        assert(v.deep_view().take(v@.len() as int) =~= v.deep_view());
    }
    out
}

/// Push one literal pattern.
fn push_str_item(v: &mut Vec<String>, s: &str)
    ensures
        final(v).deep_view() == old(v).deep_view().push(s@),
{
    let ghost pre = v.deep_view();
    let ghost prevec = v@;
    let sv = chars_of(s);
    v.push(string_from(&sv));
    proof {
        assert forall|j: int| 0 <= j < v@.len() implies #[trigger] v.deep_view()[j] == pre.push(
            s@,
        )[j] by {
            assert(v.deep_view()[j] == v@[j]@);
            if j < prevec.len() {
                assert(v@[j] == prevec[j]);
                assert(pre[j] == prevec[j]@);
            }
        }
        assert(final(v).deep_view() =~= pre.push(s@));
    }
}

/// The final file-name component of a path.
#[verifier::loop_isolation(false)]
pub fn file_name_of(path: &str) -> (r: Vec<char>)
    ensures
        r@ == spec_file_name(path@),
{
    let v = chars_of(path);
    let mut start: usize = v.len();
    while start > 0 && v[start - 1] != '/' && v[start - 1] != '\\'
        invariant
            start <= v.len(),
            v@ == path@,
            forall|j: int| start <= j < v@.len() ==> v@[j] != '/' && v@[j] != '\\',
        decreases start,
    {
        start = start - 1;
    }
    let mut name: Vec<char> = Vec::new();
    let mut i: usize = start;
    while i < v.len()
        invariant
            start <= i <= v.len(),
            v@ == path@,
            name@ == v@.subrange(start as int, i as int),
        decreases v.len() - i,
    {
        name.push(v[i]);
        proof {
            assert(v@.subrange(start as int, i + 1 as int) =~= v@.subrange(
                start as int,
                i as int,
            ).push(v@[i as int]));
        }
        i = i + 1;
    }
    proof {
        crate::node::lemma_last_component_pub(path@, start as int);
    }
    name
}

} // verus!
