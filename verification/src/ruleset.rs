//! Rule data model: glob and regex patterns, path and content conditions,
//! rules and rulesets, together with the spec-level meaning of each pattern
//! and condition test.

pub mod compile;
pub mod enumerator;

use crate::ruleset::enumerator::Enumerator;
use crate::text::{
    after_last_slash, final_component, seq_has_char, trim_leading_slashes,
};
use regex::Regex as CompiledRegex;
use vstd::prelude::*;
use vstd::string::StrSliceExecFns;

verus! {

/// What a glob pattern's text compiles to and matches.
///
/// Names the result of `glob::Pattern::matches_with` (with
/// `require_literal_separator` set) for the pattern compiled from `pattern`:
/// whether it matches `candidate`.  The result depends on the two texts
/// alone.
pub uninterp spec fn glob_matches(pattern: Seq<char>, candidate: Seq<char>) -> bool;

/// Names the result of `regex::Regex::is_match` for the regex compiled from
/// `pattern`: whether it matches somewhere in `line`.  The result depends on
/// the two texts alone.
pub uninterp spec fn regex_matches(pattern: Seq<char>, line: Seq<char>) -> bool;

/// Names whether `glob::Pattern::new` accepts a pattern text: its parser
/// succeeds or fails on the text alone.
pub uninterp spec fn glob_compiles(pattern: Seq<char>) -> bool;

/// Names whether `regex::Regex::new` accepts a pattern text: its parser
/// (with the crate's default limits) succeeds or fails on the text alone.
pub uninterp spec fn regex_compiles(pattern: Seq<char>) -> bool;

#[verifier::external_type_specification]
#[verifier::external_body]
pub struct ExGlobPattern(glob::Pattern);

#[verifier::external_type_specification]
#[verifier::external_body]
pub struct ExCompiledRegex(CompiledRegex);

/// Relies on the derived `Clone` of `glob::Pattern`: a clone is the same
/// pattern.
pub assume_specification[ <glob::Pattern as Clone>::clone ](p: &glob::Pattern) -> (r:
    glob::Pattern)
    ensures
        r == *p,
;

/// Relies on `Clone` of the compiled regex type: a clone is the same regex.
pub assume_specification[ <CompiledRegex as Clone>::clone ](p: &CompiledRegex) -> (r:
    CompiledRegex)
    ensures
        r == *p,
;

/// An invalid glob pattern, with the position the compiler reported.
#[derive(Debug)]
pub struct PatternSyntaxError {
    pub pos: usize,
    pub msg: String,
}

/// An invalid regular expression.
#[derive(Debug)]
pub struct RegexSyntaxError {
    pub msg: String,
}

/// Whether a glob is held against the whole relative path or only against
/// the final path component.
#[derive(Debug, Clone, Copy, PartialEq, Eq, Structural)]
pub enum GlobScope {
    Filenames,
    Paths,
}

/// The scope a pattern text implies: full-path when it holds a separator.
pub open spec fn scope_of_pattern(pattern: Seq<char>) -> GlobScope {
    if seq_has_char(pattern, '/') {
        GlobScope::Paths
    } else {
        GlobScope::Filenames
    }
}

/// What a single glob decides for a relative path, honouring its scope.
pub open spec fn glob_hit(text: Seq<char>, scope: GlobScope, path: Seq<char>) -> bool {
    match scope {
        GlobScope::Paths => glob_matches(text, path),
        GlobScope::Filenames => glob_matches(text, after_last_slash(path)),
    }
}

/// A filesystem glob with its scope and, after compilation of the ruleset,
/// a dense id used for cache indexing.
pub struct Glob {
    pattern: glob::Pattern,
    text: String,
    scope: GlobScope,
    unique_id: usize,
}

/// The enumerator key of a glob: its text with one letter for the scope, so
/// that equal keys mean equal (text, scope) pairs.
pub open spec fn glob_key(text: Seq<char>, scope: GlobScope) -> Seq<char> {
    text + if scope == GlobScope::Filenames {
        "f"@
    } else {
        "p"@
    }
}

pub proof fn lemma_glob_key_injective(t1: Seq<char>, s1: GlobScope, t2: Seq<char>, s2: GlobScope)
    requires
        glob_key(t1, s1) == glob_key(t2, s2),
    ensures
        t1 == t2 && s1 == s2,
{
    reveal_strlit("f");
    reveal_strlit("p");
    let k1 = glob_key(t1, s1);
    let k2 = glob_key(t2, s2);
    assert(k1.len() == t1.len() + 1);
    assert(k2.len() == t2.len() + 1);
    assert(k1.last() == if s1 == GlobScope::Filenames { 'f' } else { 'p' });
    assert(k2.last() == if s2 == GlobScope::Filenames { 'f' } else { 'p' });
    assert(s1 == s2);
    assert(t1 =~= k1.subrange(0, k1.len() - 1));
    assert(t2 =~= k2.subrange(0, k2.len() - 1));
}

impl Glob {
    pub closed spec fn spec_text(&self) -> Seq<char> {
        self.text@
    }

    pub closed spec fn spec_scope(&self) -> GlobScope {
        self.scope
    }

    pub closed spec fn spec_id(&self) -> usize {
        self.unique_id
    }

    /// Relies on `glob::Pattern::new`: compiles the pattern text, `Err`
    /// exactly on invalid glob syntax, at the reported position.
    #[verifier::external_body]
    fn compile_pattern(text: &str) -> (r: Result<glob::Pattern, PatternSyntaxError>)
        ensures
            r is Ok <==> glob_compiles(text@),
    {
        glob::Pattern::new(text).map_err(
            |e| PatternSyntaxError { pos: e.pos, msg: e.msg.to_string() },
        )
    }

    /// Relies on `glob::Pattern::matches_with` with
    /// `require_literal_separator` set: the result is a function of the
    /// pattern's source text and the candidate text alone.
    #[verifier::external_body]
    fn match_part(&self, part: &str) -> (r: bool)
        ensures
            r == glob_matches(self.spec_text(), part@),
    {
        let mut options = glob::MatchOptions::new();
        options.require_literal_separator = true;
        self.pattern.matches_with(part, options)
    }

    /// Builds a glob: the scope comes from the raw text, the compiled
    /// pattern from the text with leading separators removed.
    pub fn new(pattern: &str) -> (r: Result<Glob, PatternSyntaxError>)
        ensures
            r is Ok <==> glob_compiles(trim_leading_slashes(pattern@)),
            r is Ok ==> r->Ok_0.spec_text() == trim_leading_slashes(pattern@)
                && r->Ok_0.spec_scope() == scope_of_pattern(pattern@) && r->Ok_0.spec_id()
                == usize::MAX,
    {
        let n: usize = pattern.unicode_len();
        let mut k: usize = 0;
        while k < n && pattern.get_char(k) == '/'
            invariant
                n == pattern@.len(),
                k <= n,
                forall|i: int| 0 <= i < k ==> pattern@[i] == '/',
            decreases n - k,
        {
            k = k + 1;
        }
        proof {
            crate::text::lemma_trim_prefix(pattern@, k as int);
        }
        let trimmed = pattern.substring_char(k, n);
        let mut has_sep: bool = false;
        let mut i: usize = 0;
        while i < n
            invariant
                n == pattern@.len(),
                i <= n,
                has_sep == exists|j: int| 0 <= j < i && pattern@[j] == '/',
            decreases n - i,
        {
            if pattern.get_char(i) == '/' {
                has_sep = true;
            }
            i = i + 1;
        }
        let scope = if has_sep {
            GlobScope::Paths
        } else {
            GlobScope::Filenames
        };
        match Self::compile_pattern(trimmed) {
            Ok(p) => Ok(
                Glob { pattern: p, text: trimmed.to_owned(), scope, unique_id: usize::MAX },
            ),
            Err(e) => Err(e),
        }
    }

    /// Whether this glob accepts the relative path, honouring its scope.
    pub fn matches_path_with(&self, path: &str) -> (r: bool)
        ensures
            r == glob_hit(self.spec_text(), self.spec_scope(), path@),
    {
        match self.scope {
            GlobScope::Paths => self.match_part(path),
            GlobScope::Filenames => {
                let name = final_component(path);
                self.match_part(name)
            },
        }
    }

    pub fn as_str(&self) -> (r: &str)
        ensures
            r@ == self.spec_text(),
    {
        self.text.as_str()
    }

    /// Registers this glob with the enumerator, taking the dense id of its
    /// (text, scope) pair.
    pub fn enumerate_with(&mut self, enumerator: &mut Enumerator)
        ensures
            final(self).spec_text() == old(self).spec_text(),
            final(self).spec_scope() == old(self).spec_scope(),
            final(self).spec_id() < final(enumerator)@.len(),
            final(enumerator)@[final(self).spec_id() as int] == glob_key(
                old(self).spec_text(),
                old(self).spec_scope(),
            ),
            enumerator::table_prefix_of(old(enumerator)@, final(enumerator)@),
            final(enumerator)@.len() <= old(enumerator)@.len() + 1,
            enumerator::table_distinct(old(enumerator)@) ==> enumerator::table_distinct(
                final(enumerator)@,
            ),
    {
        let suffix: &str = match self.scope {
            GlobScope::Filenames => "f",
            GlobScope::Paths => "p",
        };
        let key = self.text.clone().concat(suffix);
        proof {
            reveal_strlit("f");
            reveal_strlit("p");
            assert(key@ == glob_key(self.text@, self.scope));
        }
        self.unique_id = enumerator.get_id(key.as_str());
    }

    pub fn get_unique_id(&self) -> (r: usize)
        requires
            self.spec_id() != usize::MAX,
        ensures
            r == self.spec_id(),
    {
        self.unique_id
    }
}

impl Clone for Glob {
    fn clone(&self) -> (r: Self)
        ensures
            r == *self,
    {
        Glob {
            pattern: self.pattern.clone(),
            text: self.text.clone(),
            scope: self.scope,
            unique_id: self.unique_id,
        }
    }
}

/// A line regex with, after compilation of the ruleset, a dense id used for
/// cache indexing.
pub struct Regex {
    regex: CompiledRegex,
    text: String,
    unique_id: usize,
}

impl Regex {
    pub closed spec fn spec_text(&self) -> Seq<char> {
        self.text@
    }

    pub closed spec fn spec_id(&self) -> usize {
        self.unique_id
    }

    /// Relies on `regex::Regex::new`: compiles the regex text, `Err`
    /// exactly on invalid regex syntax.
    #[verifier::external_body]
    fn compile_regex(text: &str) -> (r: Result<CompiledRegex, RegexSyntaxError>)
        ensures
            r is Ok <==> regex_compiles(text@),
    {
        CompiledRegex::new(text).map_err(|e| RegexSyntaxError { msg: e.to_string() })
    }

    pub fn new(re: &str) -> (r: Result<Regex, RegexSyntaxError>)
        ensures
            r is Ok <==> regex_compiles(re@),
            r is Ok ==> r->Ok_0.spec_text() == re@ && r->Ok_0.spec_id() == usize::MAX,
    {
        match Self::compile_regex(re) {
            Ok(compiled) => Ok(Regex { regex: compiled, text: re.to_owned(), unique_id: usize::MAX }),
            Err(e) => Err(e),
        }
    }

    /// Relies on `regex::Regex::is_match`: the result is a function of the
    /// regex's source text and the haystack alone.
    #[verifier::external_body]
    pub fn is_match(&self, haystack: &str) -> (r: bool)
        ensures
            r == regex_matches(self.spec_text(), haystack@),
    {
        self.regex.is_match(haystack)
    }

    pub fn as_str(&self) -> (r: &str)
        ensures
            r@ == self.spec_text(),
    {
        self.text.as_str()
    }

    /// Registers this regex with the enumerator, taking the dense id of its
    /// text.
    pub fn enumerate_with(&mut self, enumerator: &mut Enumerator)
        ensures
            final(self).spec_text() == old(self).spec_text(),
            final(self).spec_id() < final(enumerator)@.len(),
            final(enumerator)@[final(self).spec_id() as int] == old(self).spec_text(),
            enumerator::table_prefix_of(old(enumerator)@, final(enumerator)@),
            final(enumerator)@.len() <= old(enumerator)@.len() + 1,
            enumerator::table_distinct(old(enumerator)@) ==> enumerator::table_distinct(
                final(enumerator)@,
            ),
    {
        let id = enumerator.get_id(self.text.as_str());
        self.unique_id = id;
    }

    pub fn get_unique_id(&self) -> (r: usize)
        requires
            self.spec_id() != usize::MAX,
        ensures
            r == self.spec_id(),
    {
        self.unique_id
    }
}

impl Clone for Regex {
    fn clone(&self) -> (r: Self)
        ensures
            r == *self,
    {
        Regex { regex: self.regex.clone(), text: self.text.clone(), unique_id: self.unique_id }
    }
}

/// Whether a path condition demands matching files (`files`) or forbids
/// them (`nofiles`).
#[derive(Debug, Clone, Copy, PartialEq, Eq, Structural)]
pub enum ConditionLogic {
    Positive,
    Negative,
}

/// A comparison operator of a `size` or `lines` condition.
#[derive(Debug, Clone, Copy, PartialEq, Eq, Structural)]
pub enum SizeOperator {
    Greater,
    GreaterEqual,
    Less,
    LessEqual,
    Equal,
    NotEqual,
}

/// What a size/lines comparison decides for a value.
pub open spec fn size_check(op: SizeOperator, bound: u64, v: u64) -> bool {
    match op {
        SizeOperator::GreaterEqual => v >= bound,
        SizeOperator::Greater => v > bound,
        SizeOperator::LessEqual => v <= bound,
        SizeOperator::Less => v < bound,
        SizeOperator::Equal => v == bound,
        SizeOperator::NotEqual => v != bound,
    }
}

/// Whether a line counter at `v` already settles the comparison for every
/// later, larger value.
pub open spec fn size_check_above(op: SizeOperator, bound: u64, v: u64) -> bool {
    match op {
        SizeOperator::GreaterEqual => v >= bound,
        SizeOperator::Greater => v > bound,
        SizeOperator::NotEqual => v > bound,
        _ => false,
    }
}

/// A threshold on a file's byte size or line count.
#[derive(Debug, Clone, Copy, PartialEq, Eq, Structural)]
pub struct SizeCondition {
    pub operator: SizeOperator,
    pub value: u64,
}

impl SizeCondition {
    pub fn check(&self, value: u64) -> (r: bool)
        ensures
            r == size_check(self.operator, self.value, value),
    {
        match self.operator {
            SizeOperator::GreaterEqual => value >= self.value,
            SizeOperator::Greater => value > self.value,
            SizeOperator::LessEqual => value <= self.value,
            SizeOperator::Less => value < self.value,
            SizeOperator::Equal => value == self.value,
            SizeOperator::NotEqual => value != self.value,
        }
    }

    /// A check that is sound for any running counter that only grows: once
    /// true at `value`, the full check holds for every final count beyond
    /// it.
    pub fn check_for_this_and_above(&self, value: u64) -> (r: bool)
        ensures
            r == size_check_above(self.operator, self.value, value),
    {
        match self.operator {
            SizeOperator::GreaterEqual => value >= self.value,
            SizeOperator::Greater => value > self.value,
            SizeOperator::LessEqual => false,
            SizeOperator::Less => false,
            SizeOperator::Equal => false,
            SizeOperator::NotEqual => value > self.value,
        }
    }
}

pub proof fn lemma_check_above_settles(op: SizeOperator, bound: u64, v: u64, total: u64)
    requires
        size_check_above(op, bound, v),
        v < total,
    ensures
        size_check(op, bound, total),
{
}

/// A set of include and exclude line regexes.
pub struct RegexCondition {
    pub patterns: Vec<Regex>,
    pub excludes: Vec<Regex>,
}

/// What a regex condition decides for one line of text, before any ignore
/// marker is considered: some include matches and no exclude does.
pub open spec fn regex_cond_hit(rc: RegexCondition, line: Seq<char>) -> bool {
    (exists|i: int|
        0 <= i < rc.patterns.len() && regex_matches(rc.patterns[i].spec_text(), line)) && !(exists|
        i: int,
    |
        0 <= i < rc.excludes.len() && regex_matches(rc.excludes[i].spec_text(), line))
}

impl RegexCondition {
    pub fn new() -> (r: RegexCondition)
        ensures
            r.patterns@ =~= Seq::<Regex>::empty(),
            r.excludes@ =~= Seq::<Regex>::empty(),
    {
        RegexCondition { patterns: Vec::new(), excludes: Vec::new() }
    }
}

impl Clone for RegexCondition {
    fn clone(&self) -> (r: Self)
        ensures
            r.patterns@ =~= self.patterns@,
            r.excludes@ =~= self.excludes@,
    {
        RegexCondition {
            patterns: clone_regexes(&self.patterns),
            excludes: clone_regexes(&self.excludes),
        }
    }
}

fn clone_regexes(v: &Vec<Regex>) -> (r: Vec<Regex>)
    ensures
        r@ =~= v@,
{
    let mut r: Vec<Regex> = Vec::new();
    let mut i: usize = 0;
    while i < v.len()
        invariant
            i <= v@.len(),
            r@ =~= v@.subrange(0, i as int),
        decreases v@.len() - i,
    {
        r.push(v[i].clone());
        proof {
            assert(r@ =~= v@.subrange(0, i + 1));
        }
        i = i + 1;
    }
    proof {
        assert(v@.subrange(0, v@.len() as int) =~= v@);
    }
    r
}

fn clone_globs(v: &Vec<Glob>) -> (r: Vec<Glob>)
    ensures
        r@ =~= v@,
{
    let mut r: Vec<Glob> = Vec::new();
    let mut i: usize = 0;
    while i < v.len()
        invariant
            i <= v@.len(),
            r@ =~= v@.subrange(0, i as int),
        decreases v@.len() - i,
    {
        r.push(v[i].clone());
        proof {
            assert(r@ =~= v@.subrange(0, i + 1));
        }
        i = i + 1;
    }
    proof {
        assert(v@.subrange(0, v@.len() as int) =~= v@);
    }
    r
}

/// One content directive: a line-regex demand or refusal, or a threshold on
/// file size or line count.
pub enum ContentCondition {
    Match(RegexCondition),
    NoMatch(RegexCondition),
    Size(SizeCondition),
    Lines(SizeCondition),
}

/// Whether this content condition requires file lines to be processed.
///
/// Matching and counting lines does; checking file metadata does not.
pub open spec fn is_linewise(c: ContentCondition) -> bool {
    !(c is Size)
}

impl Clone for ContentCondition {
    fn clone(&self) -> (r: Self)
        ensures
            content_condition_like(*self, r),
    {
        match self {
            ContentCondition::Match(rc) => ContentCondition::Match(rc.clone()),
            ContentCondition::NoMatch(rc) => ContentCondition::NoMatch(rc.clone()),
            ContentCondition::Size(sc) => ContentCondition::Size(*sc),
            ContentCondition::Lines(sc) => ContentCondition::Lines(*sc),
        }
    }
}

/// A clone of a content condition carries the same variant and payload.
pub open spec fn content_condition_like(a: ContentCondition, b: ContentCondition) -> bool {
    match (a, b) {
        (ContentCondition::Match(x), ContentCondition::Match(y)) => x.patterns@ == y.patterns@
            && x.excludes@ == y.excludes@,
        (ContentCondition::NoMatch(x), ContentCondition::NoMatch(y)) => x.patterns@ == y.patterns@
            && x.excludes@ == y.excludes@,
        (ContentCondition::Size(x), ContentCondition::Size(y)) => x == y,
        (ContentCondition::Lines(x), ContentCondition::Lines(y)) => x == y,
        _ => false,
    }
}

/// A content directive with its compile-time number and reporting flag.
pub struct ContentConditionNode {
    pub number: usize,
    pub is_reporting_target: bool,
    pub condition: ContentCondition,
}

impl ContentConditionNode {
    pub fn new(condition: ContentCondition) -> (r: ContentConditionNode)
        ensures
            r.number == 0,
            r.is_reporting_target == false,
            r.condition == condition,
    {
        ContentConditionNode { number: 0, is_reporting_target: false, condition }
    }
}

impl Clone for ContentConditionNode {
    fn clone(&self) -> (r: Self)
        ensures
            r.number == self.number,
            r.is_reporting_target == self.is_reporting_target,
            content_condition_like(self.condition, r.condition),
    {
        ContentConditionNode {
            number: self.number,
            is_reporting_target: self.is_reporting_target,
            condition: self.condition.clone(),
        }
    }
}

/// A `files` / `nofiles` directive: a set of include/exclude globs, with
/// the content directives that were declared under it.
pub struct GlobCondition {
    pub number: usize,
    pub logic: ConditionLogic,
    pub patterns: Vec<Glob>,
    pub excludes: Vec<Glob>,
    pub content_conditions: Vec<ContentConditionNode>,
    pub linewise_content_conditions_count: usize,
    pub is_reporting_target: bool,
    pub has_reporting_target: bool,
}

/// What a path condition decides for one relative path: some include glob
/// matches it and no exclude glob does.
pub open spec fn glob_cond_hit(c: GlobCondition, path: Seq<char>) -> bool {
    (exists|i: int|
        0 <= i < c.patterns.len() && glob_hit(
            c.patterns[i].spec_text(),
            c.patterns[i].spec_scope(),
            path,
        )) && !(exists|i: int|
        0 <= i < c.excludes.len() && glob_hit(
            c.excludes[i].spec_text(),
            c.excludes[i].spec_scope(),
            path,
        ))
}

impl GlobCondition {
    pub fn new(logic: ConditionLogic) -> (r: GlobCondition)
        ensures
            r.number == 0,
            r.logic == logic,
            r.patterns@ =~= Seq::<Glob>::empty(),
            r.excludes@ =~= Seq::<Glob>::empty(),
            r.content_conditions@ =~= Seq::<ContentConditionNode>::empty(),
            r.linewise_content_conditions_count == 0,
            r.is_reporting_target == false,
            r.has_reporting_target == false,
    {
        GlobCondition {
            number: 0,
            logic,
            patterns: Vec::new(),
            excludes: Vec::new(),
            content_conditions: Vec::new(),
            linewise_content_conditions_count: 0,
            is_reporting_target: false,
            has_reporting_target: false,
        }
    }

    /// Whether every `match` directive of this condition is marked
    /// satisfied in the given satisfaction vector.
    pub fn are_all_positive_conditions_satisfied(&self, mask: &Vec<bool>) -> (r: bool)
        requires
            forall|j: int|
                0 <= j < self.content_conditions@.len()
                    ==> (#[trigger] self.content_conditions@[j]).number < mask@.len(),
        ensures
            r == all_matches_satisfied(*self, mask@),
    {
        let n = self.content_conditions.len();
        let mut j: usize = 0;
        while j < n
            invariant
                n == self.content_conditions@.len(),
                j <= n,
                forall|jj: int|
                    0 <= jj < self.content_conditions@.len()
                        ==> (#[trigger] self.content_conditions@[jj]).number < mask@.len(),
                forall|jj: int|
                    0 <= jj < j ==> ((#[trigger] self.content_conditions@[jj]).condition is Match
                        ==> mask@[self.content_conditions@[jj].number as int]),
            decreases n - j,
        {
            let node = &self.content_conditions[j];
            match node.condition {
                ContentCondition::Match(_) => {
                    if !mask[node.number] {
                        return false;
                    }
                },
                _ => {},
            }
            j = j + 1;
        }
        true
    }
}

/// Every `match` node of the condition is marked true in the vector.
pub open spec fn all_matches_satisfied(c: GlobCondition, mask: Seq<bool>) -> bool {
    forall|j: int|
        0 <= j < c.content_conditions@.len() ==> ((#[trigger] c.content_conditions@[j]).condition
            is Match ==> mask[c.content_conditions@[j].number as int])
}

impl Clone for GlobCondition {
    fn clone(&self) -> (r: Self)
        ensures
            glob_condition_like(*self, r),
    {
        GlobCondition {
            number: self.number,
            logic: self.logic,
            patterns: clone_globs(&self.patterns),
            excludes: clone_globs(&self.excludes),
            content_conditions: clone_content_nodes(&self.content_conditions),
            linewise_content_conditions_count: self.linewise_content_conditions_count,
            is_reporting_target: self.is_reporting_target,
            has_reporting_target: self.has_reporting_target,
        }
    }
}

/// A clone of a path condition carries the same fields; content nodes are
/// clones in the sense of `content_condition_like`.
pub open spec fn glob_condition_like(a: GlobCondition, b: GlobCondition) -> bool {
    &&& b.number == a.number
    &&& b.logic == a.logic
    &&& b.patterns@ == a.patterns@
    &&& b.excludes@ == a.excludes@
    &&& b.content_conditions@.len() == a.content_conditions@.len()
    &&& forall|j: int|
        0 <= j < a.content_conditions@.len() ==> (#[trigger] b.content_conditions@[j]).number
            == a.content_conditions@[j].number && b.content_conditions@[j].is_reporting_target
            == a.content_conditions@[j].is_reporting_target && content_condition_like(
            a.content_conditions@[j].condition,
            b.content_conditions@[j].condition,
        )
    &&& b.linewise_content_conditions_count == a.linewise_content_conditions_count
    &&& b.is_reporting_target == a.is_reporting_target
    &&& b.has_reporting_target == a.has_reporting_target
}

fn clone_content_nodes(v: &Vec<ContentConditionNode>) -> (r: Vec<ContentConditionNode>)
    ensures
        r@.len() == v@.len(),
        forall|j: int|
            0 <= j < v@.len() ==> (#[trigger] r@[j]).number == v@[j].number
                && r@[j].is_reporting_target == v@[j].is_reporting_target && content_condition_like(
                v@[j].condition,
                r@[j].condition,
            ),
{
    let mut r: Vec<ContentConditionNode> = Vec::new();
    let mut i: usize = 0;
    while i < v.len()
        invariant
            i <= v@.len(),
            r@.len() == i,
            forall|j: int|
                0 <= j < i ==> (#[trigger] r@[j]).number == v@[j].number
                    && r@[j].is_reporting_target == v@[j].is_reporting_target
                    && content_condition_like(v@[j].condition, r@[j].condition),
        decreases v@.len() - i,
    {
        r.push(v[i].clone());
        i = i + 1;
    }
    r
}

/// One lint rule: a title, its tags, and an ordered chain of path
/// conditions.
pub struct Rule {
    pub number: usize,
    pub title: String,
    pub tags: Vec<String>,
    pub path_conditions: Vec<GlobCondition>,
    pub is_reporting_target: bool,
}

impl Rule {
    pub fn new() -> (r: Rule)
        ensures
            r.number == 0,
            r.title@ =~= Seq::<char>::empty(),
            r.tags@ =~= Seq::<String>::empty(),
            r.path_conditions@ =~= Seq::<GlobCondition>::empty(),
            r.is_reporting_target == false,
    {
        Rule {
            number: 0,
            title: String::new(),
            tags: Vec::new(),
            path_conditions: Vec::new(),
            is_reporting_target: false,
        }
    }

    /// Takes over a template: its tags are added (without duplicates) and
    /// its path conditions are prepended, so they are tested first.
    pub fn apply_template(&mut self, template: &Rule)
        ensures
            final(self).number == old(self).number,
            final(self).title == old(self).title,
            final(self).is_reporting_target == old(self).is_reporting_target,
            final(self).tags@ == add_missing_tags(old(self).tags@, template.tags@),
            final(self).path_conditions@.len() == template.path_conditions@.len() + old(
                self,
            ).path_conditions@.len(),
            forall|k: int|
                0 <= k < template.path_conditions@.len() ==> glob_condition_like(
                    template.path_conditions@[k],
                    #[trigger] final(self).path_conditions@[k],
                ),
            forall|k: int|
                template.path_conditions@.len() <= k < final(self).path_conditions@.len()
                    ==> final(self).path_conditions@[k] == old(self).path_conditions@[k
                    - template.path_conditions@.len()],
    {
        let n = template.tags.len();
        let mut i: usize = 0;
        proof {
            assert(template.tags@.subrange(0, n as int) =~= template.tags@);
        }
        while i < n
            invariant
                n == template.tags@.len(),
                i <= n,
                self.number == old(self).number,
                self.title == old(self).title,
                self.is_reporting_target == old(self).is_reporting_target,
                self.path_conditions@ == old(self).path_conditions@,
                add_missing_tags(old(self).tags@, template.tags@) == add_missing_tags(
                    self.tags@,
                    template.tags@.subrange(i as int, n as int),
                ),
            decreases n - i,
        {
            let tag = &template.tags[i];
            let mut present = false;
            let m = self.tags.len();
            let mut j: usize = 0;
            while j < m
                invariant
                    m == self.tags@.len(),
                    j <= m,
                    present == exists|x: int| 0 <= x < j && (#[trigger] self.tags@[x])@ == tag@,
                decreases m - j,
            {
                if self.tags[j] == *tag {
                    present = true;
                }
                j = j + 1;
            }
            proof {
                assert(present == has_tag(self.tags@, tag@));
                assert(template.tags@.subrange(i as int, n as int).first()
                    == template.tags@[i as int]);
                assert(template.tags@.subrange(i as int, n as int).drop_first()
                    =~= template.tags@.subrange(i + 1, n as int));
            }
            if !present {
                self.tags.push(tag.clone());
            }
            i = i + 1;
        }
        proof {
            assert(template.tags@.subrange(n as int, n as int) =~= Seq::<String>::empty());
        }
        let cloned = clone_conditions(&template.path_conditions);
        prepend_to_vec(&mut self.path_conditions, cloned);
    }

    /// Whether every positive path condition of this rule is marked
    /// satisfied in the given satisfaction vector.
    pub fn are_all_positive_conditions_satisfied(&self, mask: &Vec<bool>) -> (r: bool)
        requires
            forall|k: int|
                0 <= k < self.path_conditions@.len()
                    ==> (#[trigger] self.path_conditions@[k]).number < mask@.len(),
        ensures
            r == all_positive_satisfied(*self, mask@),
    {
        let n = self.path_conditions.len();
        let mut k: usize = 0;
        while k < n
            invariant
                n == self.path_conditions@.len(),
                k <= n,
                forall|kk: int|
                    0 <= kk < self.path_conditions@.len()
                        ==> (#[trigger] self.path_conditions@[kk]).number < mask@.len(),
                forall|kk: int|
                    0 <= kk < k ==> ((#[trigger] self.path_conditions@[kk]).logic
                        == ConditionLogic::Positive ==> mask@[self.path_conditions@[kk].number as int]),
            decreases n - k,
        {
            let cond = &self.path_conditions[k];
            if matches!(cond.logic, ConditionLogic::Positive) && !mask[cond.number] {
                return false;
            }
            k = k + 1;
        }
        true
    }
}

/// Every positive path condition of the rule is marked true in the vector.
pub open spec fn all_positive_satisfied(r: Rule, mask: Seq<bool>) -> bool {
    forall|k: int|
        0 <= k < r.path_conditions@.len() ==> ((#[trigger] r.path_conditions@[k]).logic
            == ConditionLogic::Positive ==> mask[r.path_conditions@[k].number as int])
}

/// Some tag of `b` reads the same as `t`.
pub open spec fn has_tag(b: Seq<String>, t: Seq<char>) -> bool {
    exists|i: int| 0 <= i < b.len() && (#[trigger] b[i])@ == t
}

/// `base` with those tags of `add` appended that it does not yet hold.
pub open spec fn add_missing_tags(base: Seq<String>, add: Seq<String>) -> Seq<String>
    decreases add.len(),
{
    if add.len() == 0 {
        base
    } else {
        add_missing_tags(
            if has_tag(base, add.first()@) {
                base
            } else {
                base.push(add.first())
            },
            add.drop_first(),
        )
    }
}

fn clone_conditions(v: &Vec<GlobCondition>) -> (r: Vec<GlobCondition>)
    ensures
        r@.len() == v@.len(),
        forall|k: int|
            0 <= k < v@.len() ==> glob_condition_like(v@[k], #[trigger] r@[k]),
{
    let mut r: Vec<GlobCondition> = Vec::new();
    let mut i: usize = 0;
    while i < v.len()
        invariant
            i <= v@.len(),
            r@.len() == i,
            forall|k: int| 0 <= k < i ==> glob_condition_like(v@[k], #[trigger] r@[k]),
        decreases v@.len() - i,
    {
        r.push(v[i].clone());
        i = i + 1;
    }
    r
}

/// Moves `source` in front of the present contents of `target`.
pub fn prepend_to_vec(target: &mut Vec<GlobCondition>, source: Vec<GlobCondition>)
    ensures
        final(target)@ == source@ + old(target)@,
{
    let mut tmp = source;
    tmp.append(target);
    *target = tmp;
}

/// A collection of rules as parsed, before compilation.
pub struct Ruleset {
    pub rules: Vec<Rule>,
}

/// No tag of `a` equals a tag of `b`.
pub open spec fn tags_disjoint(a: Seq<String>, b: Seq<String>) -> bool {
    forall|i: int, j: int| 0 <= i < a.len() && 0 <= j < b.len() ==> a[i]@ != b[j]@
}

/// Whether a rule survives tag filtering: none of its tags is ignored, and
/// when tags are required, it carries at least one of them.
pub open spec fn rule_passes_tags(r: Rule, required: Seq<String>, ignored: Seq<String>) -> bool {
    tags_disjoint(r.tags@, ignored) && (required.len() == 0 || !tags_disjoint(r.tags@, required))
}

fn vecs_share_string(a: &Vec<String>, b: &Vec<String>) -> (r: bool)
    ensures
        r == !tags_disjoint(a@, b@),
{
    let mut i: usize = 0;
    while i < a.len()
        invariant
            i <= a@.len(),
            forall|ii: int, j: int| 0 <= ii < i && 0 <= j < b@.len() ==> a@[ii]@ != b@[j]@,
        decreases a@.len() - i,
    {
        let mut j: usize = 0;
        while j < b.len()
            invariant
                i < a@.len(),
                j <= b@.len(),
                forall|jj: int| 0 <= jj < j ==> a@[i as int]@ != b@[jj]@,
            decreases b@.len() - j,
        {
            if a[i] == b[j] {
                return true;
            }
            j = j + 1;
        }
        i = i + 1;
    }
    false
}

impl Ruleset {
    pub fn new() -> (r: Ruleset)
        ensures
            r.rules@ =~= Seq::<Rule>::empty(),
    {
        Ruleset { rules: Vec::new() }
    }

    /// Keeps only the rules that pass the tag filter, in order.
    pub fn filter_by_tags(&mut self, required_tags: &Vec<String>, ignored_tags: &Vec<String>)
        ensures
            final(self).rules@ == spec_filter_rules(
                old(self).rules@,
                required_tags@,
                ignored_tags@,
            ),
    {
        let ghost all = self.rules@;
        let mut kept: Vec<Rule> = Vec::new();
        proof {
            assert(all.subrange(0, 0) =~= Seq::<Rule>::empty());
        }
        while self.rules.len() > 0
            invariant
                all == old(self).rules@,
                self.rules@.len() <= all.len(),
                kept@ == spec_filter_rules(
                    all.subrange(0, all.len() - self.rules@.len()),
                    required_tags@,
                    ignored_tags@,
                ),
                self.rules@ == all.subrange(all.len() - self.rules@.len(), all.len() as int),
            decreases self.rules@.len(),
        {
            let ghost done = all.len() - self.rules@.len();
            let rule = self.rules.remove(0);
            proof {
                assert(rule == all[done]);
                assert(self.rules@ =~= all.subrange(done + 1, all.len() as int));
                assert(all.subrange(0, done + 1).drop_last() =~= all.subrange(0, done));
                assert(all.subrange(0, done + 1).last() == all[done]);
            }
            let keep_ignored = !vecs_share_string(&rule.tags, ignored_tags);
            let keep_required = required_tags.len() == 0 || vecs_share_string(
                &rule.tags,
                required_tags,
            );
            if keep_ignored && keep_required {
                kept.push(rule);
            }
        }
        proof {
            assert(all.subrange(0, all.len() as int) =~= all);
        }
        self.rules = kept;
    }
}

/// The rules of `rules` that pass the tag filter, in their order.
pub open spec fn spec_filter_rules(
    rules: Seq<Rule>,
    required: Seq<String>,
    ignored: Seq<String>,
) -> Seq<Rule>
    decreases rules.len(),
{
    if rules.len() == 0 {
        rules
    } else {
        let rest = spec_filter_rules(rules.drop_last(), required, ignored);
        if rule_passes_tags(rules.last(), required, ignored) {
            rest.push(rules.last())
        } else {
            rest
        }
    }
}

} // verus!
