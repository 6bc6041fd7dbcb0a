//! Per-file and per-line memoization of pattern tests, as flat arrays
//! indexed by the dense pattern ids the compiler assigned.  Many rules share
//! identical patterns, so each distinct pattern is evaluated at most once
//! per file (globs) or per line (regexes).

use crate::ruleset::compile::{wf_glob, wf_regex, wf_regex_cond};
use crate::ruleset::{
    glob_cond_hit, glob_hit, glob_key, lemma_glob_key_injective, regex_cond_hit, regex_matches,
    Glob, GlobCondition, Regex, RegexCondition,
};
use crate::text::{seq_contains, str_contains};
use vstd::pervasive::VecAdditionalExecFns;
use vstd::prelude::*;

verus! {

/// The literal that marks a line as exempt from reporting.
pub open spec fn spec_ignore_marker() -> Seq<char> {
    "omnilinter: ignore"@
}

/// A line holds the ignore marker somewhere.
pub open spec fn has_ignore_marker(line: Seq<char>) -> bool {
    seq_contains(line, spec_ignore_marker())
}

pub fn ignore_marker() -> (r: &'static str)
    ensures
        r@ == spec_ignore_marker(),
{
    "omnilinter: ignore"
}

/// Each decided glob entry agrees with the glob test of the pattern the
/// table assigns to that id.
pub open spec fn glob_cache_ok(
    entries: Seq<Option<bool>>,
    keys: Seq<Seq<char>>,
    path: Seq<char>,
) -> bool {
    entries.len() == keys.len() && forall|i: int, t: Seq<char>, s: crate::ruleset::GlobScope|
        #![trigger entries[i], glob_key(t, s)]
        0 <= i < entries.len() && entries[i] is Some && keys[i] == glob_key(t, s)
            ==> entries[i]->Some_0 == glob_hit(t, s, path)
}

/// Memoizes, for one file path, the result of every glob test.
pub struct GlobMatchingCache<'a> {
    path: &'a str,
    cached_matches: Vec<Option<bool>>,
    keys: Ghost<Seq<Seq<char>>>,
}

impl<'a> GlobMatchingCache<'a> {
    pub closed spec fn spec_path(&self) -> Seq<char> {
        self.path@
    }

    pub closed spec fn spec_keys(&self) -> Seq<Seq<char>> {
        self.keys@
    }

    pub closed spec fn wf(&self) -> bool {
        glob_cache_ok(self.cached_matches@, self.keys@, self.path@)
    }

    pub fn new(path: &'a str, size: usize, Ghost(keys): Ghost<Seq<Seq<char>>>) -> (r: Self)
        requires
            keys.len() == size,
        ensures
            r.wf(),
            r.spec_path() == path@,
            r.spec_keys() == keys,
    {
        let mut cached_matches: Vec<Option<bool>> = Vec::new();
        let mut i: usize = 0;
        while i < size
            invariant
                i <= size,
                cached_matches@.len() == i,
                forall|j: int| 0 <= j < i ==> cached_matches@[j] is None,
            decreases size - i,
        {
            cached_matches.push(None);
            i = i + 1;
        }
        GlobMatchingCache { path, cached_matches, keys: Ghost(keys) }
    }

    /// The memoized glob test of one pattern against this file's path.
    pub fn check_pattern_match(&mut self, glob: &Glob) -> (r: bool)
        requires
            old(self).wf(),
            wf_glob(*glob, old(self).spec_keys()),
        ensures
            final(self).wf(),
            final(self).spec_path() == old(self).spec_path(),
            final(self).spec_keys() == old(self).spec_keys(),
            r == glob_hit(glob.spec_text(), glob.spec_scope(), old(self).spec_path()),
    {
        let n = self.cached_matches.len();
        proof {
            assert(glob.spec_id() < n);
        }
        let id = glob.get_unique_id();
        let cached = self.cached_matches[id];
        match cached {
            Some(b) => {
                proof {
                    assert(self.keys@[id as int] == glob_key(glob.spec_text(), glob.spec_scope()));
                }
                b
            },
            None => {
                let computed = glob.matches_path_with(self.path);
                self.cached_matches.set(id, Some(computed));
                proof {
                    assert forall|i: int, t: Seq<char>, s: crate::ruleset::GlobScope|
                        #![trigger self.cached_matches@[i], glob_key(t, s)]
                        0 <= i < self.cached_matches@.len() && self.cached_matches@[i] is Some
                            && self.keys@[i] == glob_key(t, s) implies self.cached_matches@[i]->Some_0
                        == glob_hit(t, s, self.path@) by {
                        if i == id {
                            lemma_glob_key_injective(t, s, glob.spec_text(), glob.spec_scope());
                        } else {
                            assert(old(self).cached_matches@[i] is Some);
                        }
                    }
                }
                computed
            },
        }
    }

    /// Whether the whole condition accepts this file: some include glob
    /// matches it and no exclude glob does.
    pub fn check_condition_match(&mut self, condition: &GlobCondition) -> (r: bool)
        requires
            old(self).wf(),
            crate::ruleset::compile::wf_globs(condition.patterns@, old(self).spec_keys()),
            crate::ruleset::compile::wf_globs(condition.excludes@, old(self).spec_keys()),
        ensures
            final(self).wf(),
            final(self).spec_path() == old(self).spec_path(),
            final(self).spec_keys() == old(self).spec_keys(),
            r == glob_cond_hit(*condition, old(self).spec_path()),
    {
        let mut any_include: bool = false;
        let mut i: usize = 0;
        let n = condition.patterns.len();
        while i < n
            invariant
                self.wf(),
                self.spec_path() == old(self).spec_path(),
                self.spec_keys() == old(self).spec_keys(),
                crate::ruleset::compile::wf_globs(condition.patterns@, self.spec_keys()),
                n == condition.patterns@.len(),
                i <= n,
                any_include == exists|jj: int|
                    0 <= jj < i && glob_hit(
                        (#[trigger] condition.patterns@[jj]).spec_text(),
                        condition.patterns@[jj].spec_scope(),
                        self.spec_path(),
                    ),
            decreases n - i,
        {
            let hit = self.check_pattern_match(&condition.patterns[i]);
            if hit {
                any_include = true;
            }
            i = i + 1;
        }
        if !any_include {
            return false;
        }
        let mut j: usize = 0;
        let m = condition.excludes.len();
        while j < m
            invariant
                self.wf(),
                self.spec_path() == old(self).spec_path(),
                self.spec_keys() == old(self).spec_keys(),
                crate::ruleset::compile::wf_globs(condition.excludes@, self.spec_keys()),
                m == condition.excludes@.len(),
                j <= m,
                forall|jj: int|
                    0 <= jj < j ==> !glob_hit(
                        (#[trigger] condition.excludes@[jj]).spec_text(),
                        condition.excludes@[jj].spec_scope(),
                        self.spec_path(),
                    ),
            decreases m - j,
        {
            let hit = self.check_pattern_match(&condition.excludes[j]);
            if hit {
                return false;
            }
            j = j + 1;
        }
        true
    }
}

/// Each decided regex entry agrees with the regex test of the text the
/// table assigns to that id; the extra first slot memoizes the ignore
/// marker test.
pub open spec fn regex_cache_ok(
    entries: Seq<Option<bool>>,
    keys: Seq<Seq<char>>,
    line: Seq<char>,
) -> bool {
    entries.len() == keys.len() && forall|i: int|
        #![trigger entries[i]]
        0 <= i < keys.len() && entries[i] is Some ==> entries[i]->Some_0 == regex_matches(
            keys[i],
            line,
        )
}

/// Memoizes, for one line of text, the result of every regex test and of
/// the ignore-marker test.
pub struct RegexMatchingCache<'a> {
    line: &'a str,
    cached_matches: Vec<Option<bool>>,
    marker_cached: Option<bool>,
    keys: Ghost<Seq<Seq<char>>>,
}

impl<'a> RegexMatchingCache<'a> {
    pub closed spec fn spec_line(&self) -> Seq<char> {
        self.line@
    }

    pub closed spec fn spec_keys(&self) -> Seq<Seq<char>> {
        self.keys@
    }

    pub closed spec fn wf(&self) -> bool {
        regex_cache_ok(self.cached_matches@, self.keys@, self.line@) && (self.marker_cached
            matches Some(b) ==> b == has_ignore_marker(self.line@))
    }

    pub fn new(line: &'a str, size: usize, Ghost(keys): Ghost<Seq<Seq<char>>>) -> (r: Self)
        requires
            keys.len() == size,
        ensures
            r.wf(),
            r.spec_line() == line@,
            r.spec_keys() == keys,
    {
        let mut cached_matches: Vec<Option<bool>> = Vec::new();
        let mut i: usize = 0;
        while i < size
            invariant
                i <= size,
                cached_matches@.len() == i,
                forall|j: int| 0 <= j < i ==> cached_matches@[j] is None,
            decreases size - i,
        {
            cached_matches.push(None);
            i = i + 1;
        }
        RegexMatchingCache { line, cached_matches, marker_cached: None, keys: Ghost(keys) }
    }

    /// The memoized regex test of one pattern against this line.
    pub fn check_pattern_match(&mut self, regex: &Regex) -> (r: bool)
        requires
            old(self).wf(),
            wf_regex(*regex, old(self).spec_keys()),
        ensures
            final(self).wf(),
            final(self).spec_line() == old(self).spec_line(),
            final(self).spec_keys() == old(self).spec_keys(),
            r == regex_matches(regex.spec_text(), old(self).spec_line()),
    {
        let n = self.cached_matches.len();
        proof {
            assert(regex.spec_id() < n);
        }
        let id = regex.get_unique_id();
        let cached = self.cached_matches[id];
        match cached {
            Some(b) => b,
            None => {
                let computed = regex.is_match(self.line);
                self.cached_matches.set(id, Some(computed));
                proof {
                    assert forall|i: int|
                        #![trigger self.cached_matches@[i]]
                        0 <= i < self.keys@.len() && self.cached_matches@[i]
                            is Some implies self.cached_matches@[i]->Some_0 == regex_matches(
                        self.keys@[i],
                        self.line@,
                    ) by {
                        if i != id {
                            assert(old(self).cached_matches@[i] is Some);
                        }
                    }
                }
                computed
            },
        }
    }

    /// The memoized test for the ignore marker on this line.
    pub fn check_ignore_marker_match(&mut self) -> (r: bool)
        requires
            old(self).wf(),
        ensures
            final(self).wf(),
            final(self).spec_line() == old(self).spec_line(),
            final(self).spec_keys() == old(self).spec_keys(),
            r == has_ignore_marker(old(self).spec_line()),
    {
        match self.marker_cached {
            Some(b) => b,
            None => {
                let computed = str_contains(self.line, ignore_marker());
                self.marker_cached = Some(computed);
                computed
            },
        }
    }

    /// Whether the regexes alone accept this line: some include regex
    /// matches it and no exclude regex does.  The ignore marker plays no
    /// part here; `nomatch` disqualification uses this test.
    pub fn check_condition_plain_match(&mut self, condition: &RegexCondition) -> (r: bool)
        requires
            old(self).wf(),
            wf_regex_cond(*condition, old(self).spec_keys()),
        ensures
            final(self).wf(),
            final(self).spec_line() == old(self).spec_line(),
            final(self).spec_keys() == old(self).spec_keys(),
            r == regex_cond_hit(*condition, old(self).spec_line()),
    {
        let mut any_include: bool = false;
        let mut i: usize = 0;
        let n = condition.patterns.len();
        while i < n
            invariant
                self.wf(),
                self.spec_line() == old(self).spec_line(),
                self.spec_keys() == old(self).spec_keys(),
                wf_regex_cond(*condition, self.spec_keys()),
                n == condition.patterns@.len(),
                i <= n,
                any_include == exists|jj: int|
                    0 <= jj < i && regex_matches(
                        (#[trigger] condition.patterns@[jj]).spec_text(),
                        self.spec_line(),
                    ),
            decreases n - i,
        {
            let hit = self.check_pattern_match(&condition.patterns[i]);
            if hit {
                any_include = true;
            }
            i = i + 1;
        }
        if !any_include {
            return false;
        }
        let mut j: usize = 0;
        let m = condition.excludes.len();
        while j < m
            invariant
                self.wf(),
                self.spec_line() == old(self).spec_line(),
                self.spec_keys() == old(self).spec_keys(),
                wf_regex_cond(*condition, self.spec_keys()),
                m == condition.excludes@.len(),
                j <= m,
                forall|jj: int|
                    0 <= jj < j ==> !regex_matches(
                        (#[trigger] condition.excludes@[jj]).spec_text(),
                        self.spec_line(),
                    ),
            decreases m - j,
        {
            let hit = self.check_pattern_match(&condition.excludes[j]);
            if hit {
                return false;
            }
            j = j + 1;
        }
        true
    }

    /// Whether the condition accepts this line for `match` purposes: the
    /// regexes accept it and the line does not carry the ignore marker.
    pub fn check_condition_match(&mut self, condition: &RegexCondition) -> (r: bool)
        requires
            old(self).wf(),
            wf_regex_cond(*condition, old(self).spec_keys()),
        ensures
            final(self).wf(),
            final(self).spec_line() == old(self).spec_line(),
            final(self).spec_keys() == old(self).spec_keys(),
            r == (regex_cond_hit(*condition, old(self).spec_line()) && !has_ignore_marker(
                old(self).spec_line(),
            )),
    {
        let plain = self.check_condition_plain_match(condition);
        if !plain {
            return false;
        }
        let marker = self.check_ignore_marker_match();
        !marker
    }
}

} // verus!
