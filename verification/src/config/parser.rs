//! The configuration text format: one directive per line.
//!
//! A rule starts with a `[title]` line (`]]` stands for a literal `]`; a
//! `#` comment may follow the closing bracket).  Inside a rule, `tags`
//! names its tags (separated by spaces or commas, lowercased), `files` and
//! `nofiles` open path conditions over shell-quoted glob words (`!`
//! prefixes an exclude), and `match` / `nomatch` / `size` / `lines` attach
//! content conditions to the `files` condition directly above them.
//! `root` and `include` lines name directory patterns, expanded against
//! the filesystem.  Blank lines and lines starting with `#` are skipped.

use crate::config::Config;
use crate::ruleset::{
    ConditionLogic, ContentCondition, ContentConditionNode, Glob, GlobCondition, Regex,
    RegexCondition, Rule, SizeCondition, SizeOperator,
};
use crate::text::{chars_string, str_chars};
use vstd::prelude::*;

verus! {

broadcast use vstd::string::group_string_axioms;

/// Names the result of `str::to_lowercase`: the lowercased text, a
/// function of the characters alone.
pub uninterp spec fn lower_of(s: Seq<char>) -> Seq<char>;

/// A parse failure, with the 1-based line it was found on.
#[derive(Debug)]
pub struct ParseError {
    pub line: usize,
    pub message: String,
}

/// The model of a parsed regex list: pattern texts and exclude texts.
pub struct SpecRegexes {
    pub pats: Seq<Seq<char>>,
    pub excls: Seq<Seq<char>>,
}

/// The model of one content directive.
pub enum SpecContent {
    SMatch { rc: SpecRegexes },
    SNoMatch { rc: SpecRegexes },
    SSize { op: SizeOperator, value: u64 },
    SLines { op: SizeOperator, value: u64 },
}

/// The model of one path condition: glob texts after quote processing.
pub struct SpecCond {
    pub negative: bool,
    pub pats: Seq<Seq<char>>,
    pub excls: Seq<Seq<char>>,
    pub content: Seq<SpecContent>,
}

/// The model of one rule; `title` is `None` when the brackets were empty
/// and an automatic title is generated.
pub struct SpecRule {
    pub title: Option<Seq<char>>,
    pub tags: Seq<Seq<char>>,
    pub conds: Seq<SpecCond>,
}

/// The model of a whole configuration text; roots and includes hold the
/// raw patterns before any filesystem expansion.
pub struct SpecConfig {
    pub roots: Seq<Seq<char>>,
    pub includes: Seq<Seq<char>>,
    pub rules: Seq<SpecRule>,
}

/// The running state of the line machine: whether a rule is open, and
/// whether a `files` condition is open for content directives.
pub struct ParseState {
    pub cfg: SpecConfig,
    pub open_attach: bool,
}

pub open spec fn is_ws(c: char) -> bool {
    c == ' ' || c == '\t'
}

pub open spec fn is_kw_char(c: char) -> bool {
    'a' <= c && c <= 'z'
}

/// The index of the first non-blank character at or after `i`.
pub open spec fn skip_ws(t: Seq<char>, i: int) -> int
    decreases t.len() - i,
{
    if i < 0 {
        i
    } else if i < t.len() && is_ws(t[i]) {
        skip_ws(t, i + 1)
    } else {
        i
    }
}

pub proof fn lemma_skip_ws(t: Seq<char>, i: int)
    requires
        0 <= i <= t.len(),
    ensures
        i <= skip_ws(t, i) <= t.len(),
        skip_ws(t, i) < t.len() ==> !is_ws(t[skip_ws(t, i)]),
        forall|j: int| i <= j < skip_ws(t, i) ==> is_ws(t[j]),
    decreases t.len() - i,
{
    if i < t.len() && is_ws(t[i]) {
        lemma_skip_ws(t, i + 1);
    }
}

/// The index right after the keyword starting at `i`.
pub open spec fn kw_end(t: Seq<char>, i: int) -> int
    decreases t.len() - i,
{
    if i < 0 {
        i
    } else if i < t.len() && is_kw_char(t[i]) {
        kw_end(t, i + 1)
    } else {
        i
    }
}

pub proof fn lemma_kw_end(t: Seq<char>, i: int)
    requires
        0 <= i <= t.len(),
    ensures
        i <= kw_end(t, i) <= t.len(),
        kw_end(t, i) < t.len() ==> !is_kw_char(t[kw_end(t, i)]),
        forall|j: int| i <= j < kw_end(t, i) ==> is_kw_char(t[j]),
    decreases t.len() - i,
{
    if i < t.len() && is_kw_char(t[i]) {
        lemma_kw_end(t, i + 1);
    }
}

/// Parses a rule title after the opening `[`: the characters up to an
/// unescaped `]`, with `]]` standing for `]`; after the close, only
/// blanks and an optional `#` comment may follow.  Returns the title.
pub open spec fn title_scan(t: Seq<char>, i: int, acc: Seq<char>) -> Option<(Seq<char>, int)>
    decreases t.len() - i,
{
    if i < 0 || i >= t.len() {
        None
    } else if t[i] == ']' {
        if i + 1 < t.len() && t[i + 1] == ']' {
            title_scan(t, i + 2, acc.push(']'))
        } else {
            Some((acc, i + 1))
        }
    } else {
        title_scan(t, i + 1, acc.push(t[i]))
    }
}

/// Whether only blanks and an optional comment stand from `i` on.
pub open spec fn rest_is_comment(t: Seq<char>, i: int) -> bool {
    skip_ws(t, i) == t.len() || t[skip_ws(t, i)] == '#'
}

/// Quote processing of one glob word, as a shell would read it: outside
/// quotes a backslash escapes the next character and quoted runs are
/// glob-escaped so they match literally.  `qmode`: 0 none, 1 single, 2
/// double.  Returns the processed pattern text.
pub open spec fn glob_word(t: Seq<char>, i: int, qmode: int, quoted: Seq<char>, acc: Seq<char>) -> Option<
    Seq<char>,
>
    decreases t.len() - i,
{
    if i < 0 {
        None
    } else if i >= t.len() {
        if qmode == 0 {
            Some(acc)
        } else {
            None
        }
    } else {
        let c = t[i];
        if qmode == 1 {
            if c == '\'' {
                glob_word(t, i + 1, 0, Seq::empty(), acc + glob_escape(quoted))
            } else {
                glob_word(t, i + 1, 1, quoted.push(c), acc)
            }
        } else if qmode == 2 {
            if c == '\\' {
                if i + 1 < t.len() {
                    glob_word(t, i + 2, 2, quoted.push(t[i + 1]), acc)
                } else {
                    None
                }
            } else if c == '"' {
                glob_word(t, i + 1, 0, Seq::empty(), acc + glob_escape(quoted))
            } else {
                glob_word(t, i + 1, 2, quoted.push(c), acc)
            }
        } else {
            if c == '\\' {
                if i + 1 < t.len() {
                    glob_word(t, i + 2, 0, Seq::empty(), acc + glob_escape(seq![t[i + 1]]))
                } else {
                    None
                }
            } else if c == '\'' {
                glob_word(t, i + 1, 1, Seq::empty(), acc)
            } else if c == '"' {
                glob_word(t, i + 1, 2, Seq::empty(), acc)
            } else {
                glob_word(t, i + 1, 0, Seq::empty(), acc.push(c))
            }
        }
    }
}

/// Escaping a text so a glob matches it literally: each metacharacter is
/// wrapped in brackets.
pub open spec fn glob_escape(s: Seq<char>) -> Seq<char>
    decreases s.len(),
{
    if s.len() == 0 {
        s
    } else {
        glob_escape(s.drop_last()) + glob_escape_char(s.last())
    }
}

pub open spec fn glob_escape_char(c: char) -> Seq<char> {
    if c == '?' || c == '*' || c == '[' || c == ']' {
        seq!['['].push(c).push(']')
    } else {
        seq![c]
    }
}

/// Splits the blank-separated words of a directive's arguments, honouring
/// quotes and escapes: a word extends to the next unquoted, unescaped
/// blank.
pub open spec fn word_end(t: Seq<char>, i: int, qmode: int) -> Option<int>
    decreases t.len() - i,
{
    if i < 0 {
        None
    } else if i >= t.len() {
        if qmode == 0 {
            Some(i)
        } else {
            None
        }
    } else {
        let c = t[i];
        if qmode == 0 && is_ws(c) {
            Some(i)
        } else if qmode == 0 && c == '\'' {
            word_end(t, i + 1, 1)
        } else if qmode == 0 && c == '"' {
            word_end(t, i + 1, 2)
        } else if qmode == 1 && c == '\'' {
            word_end(t, i + 1, 0)
        } else if qmode == 2 && c == '"' {
            word_end(t, i + 1, 0)
        } else if (qmode == 0 || qmode == 2) && c == '\\' {
            if i + 1 < t.len() {
                word_end(t, i + 2, qmode)
            } else {
                None
            }
        } else {
            word_end(t, i + 1, qmode)
        }
    }
}

pub proof fn lemma_word_end(t: Seq<char>, i: int, qmode: int)
    requires
        0 <= i <= t.len(),
    ensures
        word_end(t, i, qmode) matches Some(e) ==> i <= e <= t.len(),
    decreases t.len() - i,
{
    if i < t.len() {
        if word_end(t, i, qmode) != Some(i as int) {
            if (qmode == 0 || qmode == 2) && t[i] == '\\' && i + 1 < t.len() {
                lemma_word_end(t, i + 2, qmode);
            } else {
                lemma_word_end(t, i + 1, 0);
                lemma_word_end(t, i + 1, 1);
                lemma_word_end(t, i + 1, 2);
                lemma_word_end(t, i + 1, qmode);
            }
        }
    }
}

pub proof fn lemma_regex_scan(t: Seq<char>, i: int, d: char, acc: Seq<char>)
    requires
        0 <= i <= t.len(),
    ensures
        regex_scan(t, i, d, acc) matches Some(p) ==> i <= p.1 <= t.len(),
    decreases t.len() - i,
{
    if i < t.len() && t[i] != d {
        if t[i] == '\\' {
            if i + 1 < t.len() {
                lemma_regex_scan(t, i + 2, d, acc.push('\\').push(t[i + 1]));
            }
        } else {
            lemma_regex_scan(t, i + 1, d, acc.push(t[i]));
        }
    }
}

/// The glob words of a `files` / `nofiles` argument list from `i` on,
/// processed: `!`-prefixed words become excludes.
pub open spec fn glob_words(t: Seq<char>, i: int) -> Option<(Seq<Seq<char>>, Seq<Seq<char>>)>
    decreases t.len() - i,
    via glob_words_decreases
{
    if i < 0 {
        None
    } else {
        let j = skip_ws(t, i);
        if j >= t.len() {
            Some((Seq::empty(), Seq::empty()))
        } else {
            let exclude = t[j] == '!';
            let s = if exclude {
                j + 1
            } else {
                j
            };
            match word_end(t, s, 0) {
                None => None,
                Some(e) => if e <= s {
                    None
                } else {
                    match glob_word(t.subrange(s, e), 0, 0, Seq::empty(), Seq::empty()) {
                        None => None,
                        Some(w) => match glob_words(t, e) {
                            None => None,
                            Some((ps, es)) => if exclude {
                                Some((ps, seq![w] + es))
                            } else {
                                Some((seq![w] + ps, es))
                            },
                        },
                    }
                },
            }
        }
    }
}

#[via_fn]
proof fn glob_words_decreases(t: Seq<char>, i: int) {
    if 0 <= i <= t.len() {
        lemma_skip_ws(t, i);
        let j = skip_ws(t, i);
        if j < t.len() {
            let su = if t[j] == '!' {
                j + 1
            } else {
                j
            };
            lemma_word_end(t, su, 0);
        }
    }
}

/// One regex word: a framing character, the raw pattern text up to the
/// next unescaped framing character (escapes are kept as written), which
/// must be followed by a blank or the end of the line.
pub open spec fn regex_scan(t: Seq<char>, i: int, d: char, acc: Seq<char>) -> Option<
    (Seq<char>, int),
>
    decreases t.len() - i,
{
    if i < 0 || i >= t.len() {
        None
    } else if t[i] == d {
        Some((acc, i + 1))
    } else if t[i] == '\\' {
        if i + 1 < t.len() {
            regex_scan(t, i + 2, d, acc.push('\\').push(t[i + 1]))
        } else {
            None
        }
    } else {
        regex_scan(t, i + 1, d, acc.push(t[i]))
    }
}

/// The regex words of a `match` / `nomatch` argument list from `i` on.
pub open spec fn regex_words(t: Seq<char>, i: int) -> Option<(Seq<Seq<char>>, Seq<Seq<char>>)>
    decreases t.len() - i,
    via regex_words_decreases
{
    if i < 0 {
        None
    } else {
        let j = skip_ws(t, i);
        if j >= t.len() {
            Some((Seq::empty(), Seq::empty()))
        } else {
            let exclude = t[j] == '!';
            let s = if exclude {
                j + 1
            } else {
                j
            };
            if s >= t.len() {
                None
            } else {
                let d = t[s];
                match regex_scan(t, s + 1, d, Seq::empty()) {
                    None => None,
                    Some((w, e)) => if e < t.len() && !is_ws(t[e]) {
                        None
                    } else if e <= s + 1 {
                        None
                    } else {
                        match regex_words(t, e) {
                            None => None,
                            Some((ps, es)) => if exclude {
                                Some((ps, seq![w] + es))
                            } else {
                                Some((seq![w] + ps, es))
                            },
                        }
                    },
                }
            }
        }
    }
}

#[via_fn]
proof fn regex_words_decreases(t: Seq<char>, i: int) {
    if 0 <= i <= t.len() {
        lemma_skip_ws(t, i);
        let j = skip_ws(t, i);
        if j < t.len() {
            let su = if t[j] == '!' {
                j + 1
            } else {
                j
            };
            if su < t.len() {
                lemma_regex_scan(t, su + 1, t[su], Seq::empty());
            }
        }
    }
}

/// The tag words of a `tags` argument list: runs separated by blanks or
/// commas, lowercased.
pub open spec fn tag_words(t: Seq<char>, i: int) -> Seq<Seq<char>>
    decreases t.len() - i,
    via tag_words_decreases
{
    if i < 0 || i >= t.len() {
        Seq::empty()
    } else if is_ws(t[i]) || t[i] == ',' {
        tag_words(t, i + 1)
    } else {
        let e = tag_end(t, i);
        seq![lower_of(t.subrange(i, e))] + tag_words(t, e)
    }
}

#[via_fn]
proof fn tag_words_decreases(t: Seq<char>, i: int) {
    if 0 <= i < t.len() && !is_ws(t[i]) && t[i] != ',' {
        lemma_tag_end(t, i);
    }
}

pub open spec fn tag_end(t: Seq<char>, i: int) -> int
    decreases t.len() - i,
{
    if i < 0 {
        i
    } else if i < t.len() && !is_ws(t[i]) && t[i] != ',' {
        tag_end(t, i + 1)
    } else {
        i
    }
}

pub proof fn lemma_tag_end(t: Seq<char>, i: int)
    requires
        0 <= i <= t.len(),
    ensures
        i <= tag_end(t, i) <= t.len(),
        i < t.len() && !is_ws(t[i]) && t[i] != ',' ==> tag_end(t, i) > i,
    decreases t.len() - i,
{
    if i < t.len() && !is_ws(t[i]) && t[i] != ',' {
        lemma_tag_end(t, i + 1);
    }
}

/// A `size` / `lines` comparison: an operator, blanks allowed around it,
/// and a decimal value that fits in 64 bits.
pub open spec fn size_args(t: Seq<char>, i: int) -> Option<(SizeOperator, u64)> {
    let j = skip_ws(t, i);
    match op_scan(t, j) {
        None => None,
        Some((op, e)) => {
            let d = skip_ws(t, e);
            let de = digits_end(t, d);
            if de <= d || skip_ws(t, de) != t.len() {
                None
            } else {
                match digits_value(t.subrange(d, de)) {
                    None => None,
                    Some(v) => Some((op, v)),
                }
            }
        },
    }
}

/// The comparison operators the format accepts.
pub open spec fn op_scan(t: Seq<char>, i: int) -> Option<(SizeOperator, int)> {
    if i + 2 <= t.len() && t.subrange(i, i + 2) == seq!['>', '='] {
        Some((SizeOperator::GreaterEqual, i + 2))
    } else if i + 2 <= t.len() && t.subrange(i, i + 2) == seq!['<', '='] {
        Some((SizeOperator::LessEqual, i + 2))
    } else if i + 2 <= t.len() && t.subrange(i, i + 2) == seq!['=', '='] {
        Some((SizeOperator::Equal, i + 2))
    } else if i + 2 <= t.len() && t.subrange(i, i + 2) == seq!['!', '='] {
        Some((SizeOperator::NotEqual, i + 2))
    } else if i + 2 <= t.len() && t.subrange(i, i + 2) == seq!['<', '>'] {
        Some((SizeOperator::NotEqual, i + 2))
    } else if i + 1 <= t.len() && t.subrange(i, i + 1) == seq!['>'] {
        Some((SizeOperator::Greater, i + 1))
    } else if i + 1 <= t.len() && t.subrange(i, i + 1) == seq!['<'] {
        Some((SizeOperator::Less, i + 1))
    } else if i + 1 <= t.len() && t.subrange(i, i + 1) == seq!['='] {
        Some((SizeOperator::Equal, i + 1))
    } else {
        None
    }
}

pub open spec fn is_digit(c: char) -> bool {
    '0' <= c && c <= '9'
}

pub open spec fn digits_end(t: Seq<char>, i: int) -> int
    decreases t.len() - i,
{
    if i < 0 {
        i
    } else if i < t.len() && is_digit(t[i]) {
        digits_end(t, i + 1)
    } else {
        i
    }
}

pub proof fn lemma_digits_end(t: Seq<char>, i: int)
    requires
        0 <= i <= t.len(),
    ensures
        i <= digits_end(t, i) <= t.len(),
        forall|j: int| i <= j < digits_end(t, i) ==> is_digit(t[j]),
        digits_end(t, i) < t.len() ==> !is_digit(t[digits_end(t, i)]),
    decreases t.len() - i,
{
    if i < t.len() && is_digit(t[i]) {
        lemma_digits_end(t, i + 1);
    }
}

/// The value of a run of decimal digits, when it fits in 64 bits.
pub open spec fn digits_value(d: Seq<char>) -> Option<u64>
    decreases d.len(),
{
    if d.len() == 0 {
        None
    } else if d.len() == 1 {
        Some((d[0] as u64 - '0' as u64) as u64)
    } else {
        match digits_value(d.drop_last()) {
            None => None,
            Some(hi) => {
                let lo = d.last() as u64 - '0' as u64;
                if hi <= (u64::MAX - lo) / 10 {
                    Some((hi * 10 + lo) as u64)
                } else {
                    None
                }
            },
        }
    }
}

/// One trimmed line of the machine: how it advances the state, or `None`
/// on a grammar error.
pub open spec fn line_step(st: ParseState, t: Seq<char>) -> Option<ParseState> {
    if t.len() == 0 || t[0] == '#' {
        Some(st)
    } else if t[0] == '[' {
        match title_scan(t, 1, Seq::empty()) {
            None => None,
            Some((title, e)) => if rest_is_comment(t, e) {
                Some(
                    ParseState {
                        cfg: SpecConfig {
                            roots: st.cfg.roots,
                            includes: st.cfg.includes,
                            rules: st.cfg.rules.push(
                                SpecRule {
                                    title: if title.len() == 0 {
                                        None
                                    } else {
                                        Some(title)
                                    },
                                    tags: Seq::empty(),
                                    conds: Seq::empty(),
                                },
                            ),
                        },
                        open_attach: false,
                    },
                )
            } else {
                None
            },
        }
    } else {
        let e = kw_end(t, 0);
        let kw = t.subrange(0, e);
        let rest_at = skip_ws(t, e);
        if kw == "root"@ {
            if rest_at < t.len() && e < t.len() && is_ws(t[e]) {
                Some(
                    ParseState {
                        cfg: SpecConfig {
                            roots: st.cfg.roots.push(t.subrange(rest_at, t.len() as int)),
                            includes: st.cfg.includes,
                            rules: st.cfg.rules,
                        },
                        open_attach: st.open_attach,
                    },
                )
            } else {
                None
            }
        } else if kw == "include"@ {
            if rest_at < t.len() && e < t.len() && is_ws(t[e]) {
                Some(
                    ParseState {
                        cfg: SpecConfig {
                            roots: st.cfg.roots,
                            includes: st.cfg.includes.push(t.subrange(rest_at, t.len() as int)),
                            rules: st.cfg.rules,
                        },
                        open_attach: st.open_attach,
                    },
                )
            } else {
                None
            }
        } else if kw == "tags"@ {
            if st.cfg.rules.len() > 0 && (e == t.len() || is_ws(t[e])) {
                let rl = st.cfg.rules.last();
                Some(
                    ParseState {
                        cfg: SpecConfig {
                            roots: st.cfg.roots,
                            includes: st.cfg.includes,
                            rules: st.cfg.rules.drop_last().push(
                                SpecRule {
                                    title: rl.title,
                                    tags: tag_words(t, e),
                                    conds: rl.conds,
                                },
                            ),
                        },
                        open_attach: false,
                    },
                )
            } else {
                None
            }
        } else if kw == "files"@ || kw == "nofiles"@ {
            if st.cfg.rules.len() > 0 && e < t.len() && is_ws(t[e]) {
                match glob_words(t, e) {
                    None => None,
                    Some((ps, es)) => if ps.len() + es.len() == 0 {
                        None
                    } else {
                        let rl = st.cfg.rules.last();
                        let neg = kw == "nofiles"@;
                        Some(
                            ParseState {
                                cfg: SpecConfig {
                                    roots: st.cfg.roots,
                                    includes: st.cfg.includes,
                                    rules: st.cfg.rules.drop_last().push(
                                        SpecRule {
                                            title: rl.title,
                                            tags: rl.tags,
                                            conds: rl.conds.push(
                                                SpecCond {
                                                    negative: neg,
                                                    pats: ps,
                                                    excls: es,
                                                    content: Seq::empty(),
                                                },
                                            ),
                                        },
                                    ),
                                },
                                open_attach: !neg,
                            },
                        )
                    },
                }
            } else {
                None
            }
        } else if kw == "match"@ || kw == "nomatch"@ {
            if st.cfg.rules.len() > 0 && st.open_attach && e < t.len() && is_ws(t[e]) {
                match regex_words(t, e) {
                    None => None,
                    Some((ps, es)) => if ps.len() + es.len() == 0 {
                        None
                    } else {
                        let content = if kw == "match"@ {
                            SpecContent::SMatch { rc: SpecRegexes { pats: ps, excls: es } }
                        } else {
                            SpecContent::SNoMatch { rc: SpecRegexes { pats: ps, excls: es } }
                        };
                        Some(push_content(st, content))
                    },
                }
            } else {
                None
            }
        } else if kw == "size"@ || kw == "lines"@ {
            if st.cfg.rules.len() > 0 && st.open_attach {
                match size_args(t, e) {
                    None => None,
                    Some((op, v)) => {
                        let content = if kw == "size"@ {
                            SpecContent::SSize { op, value: v }
                        } else {
                            SpecContent::SLines { op, value: v }
                        };
                        Some(push_content(st, content))
                    },
                }
            } else {
                None
            }
        } else {
            None
        }
    }
}

/// Appends one content directive to the open condition of the last rule.
pub open spec fn push_content(st: ParseState, content: SpecContent) -> ParseState
    recommends
        st.cfg.rules.len() > 0,
        st.cfg.rules.last().conds.len() > 0,
{
    let rl = st.cfg.rules.last();
    let cd = rl.conds.last();
    ParseState {
        cfg: SpecConfig {
            roots: st.cfg.roots,
            includes: st.cfg.includes,
            rules: st.cfg.rules.drop_last().push(
                SpecRule {
                    title: rl.title,
                    tags: rl.tags,
                    conds: rl.conds.drop_last().push(
                        SpecCond {
                            negative: cd.negative,
                            pats: cd.pats,
                            excls: cd.excls,
                            content: cd.content.push(content),
                        },
                    ),
                },
            ),
        },
        open_attach: st.open_attach,
    }
}

/// Leading and trailing blanks of a line play no part.
pub open spec fn trimmed(t: Seq<char>) -> Seq<char> {
    let a = skip_ws(t, 0);
    let b = trim_back(t, t.len() as int);
    if a <= b {
        t.subrange(a, b)
    } else {
        Seq::empty()
    }
}

pub open spec fn trim_back(t: Seq<char>, i: int) -> int
    decreases i,
{
    if i <= 0 {
        0
    } else if is_ws(t[i - 1]) {
        trim_back(t, i - 1)
    } else {
        i
    }
}

pub proof fn lemma_trim_back(t: Seq<char>, i: int)
    requires
        0 <= i <= t.len(),
    ensures
        0 <= trim_back(t, i) <= i,
        forall|j: int| trim_back(t, i) <= j < i ==> is_ws(t[j]),
        trim_back(t, i) > 0 ==> !is_ws(t[trim_back(t, i) - 1]),
    decreases i,
{
    if i > 0 && is_ws(t[i - 1]) {
        lemma_trim_back(t, i - 1);
    }
}

/// The whole machine: every line, in order.  `None` means the text does
/// not parse.
pub open spec fn run_machine(lines: Seq<Seq<char>>, i: int, st: ParseState) -> Option<ParseState>
    decreases lines.len() - i,
{
    if i < 0 || i >= lines.len() {
        Some(st)
    } else {
        match line_step(st, trimmed(lines[i])) {
            None => None,
            Some(st2) => run_machine(lines, i + 1, st2),
        }
    }
}

pub open spec fn empty_state() -> ParseState {
    ParseState {
        cfg: SpecConfig { roots: Seq::empty(), includes: Seq::empty(), rules: Seq::empty() },
        open_attach: false,
    }
}

/// What the text means: the final machine state over its lines.
pub open spec fn spec_parse(lines: Seq<Seq<char>>) -> Option<ParseState> {
    run_machine(lines, 0, empty_state())
}

/// The index of the first newline at or after `i`, or the end.
pub open spec fn first_nl(s: Seq<char>, i: int) -> int
    decreases s.len() - i,
{
    if i < 0 {
        i
    } else if i < s.len() && s[i] != '\n' {
        first_nl(s, i + 1)
    } else {
        i
    }
}

pub proof fn lemma_first_nl(s: Seq<char>, i: int)
    requires
        0 <= i <= s.len(),
    ensures
        i <= first_nl(s, i) <= s.len(),
        first_nl(s, i) < s.len() ==> s[first_nl(s, i)] == '\n',
        forall|j: int| i <= j < first_nl(s, i) ==> s[j] != '\n',
    decreases s.len() - i,
{
    if i < s.len() && s[i] != '\n' {
        lemma_first_nl(s, i + 1);
    }
}

/// The lines of a text, split at newlines.
pub open spec fn split_lines(s: Seq<char>) -> Seq<Seq<char>>
    decreases s.len(),
    via split_lines_decreases
{
    let i = first_nl(s, 0);
    if i >= s.len() {
        seq![s]
    } else {
        seq![s.subrange(0, i)] + split_lines(s.subrange(i + 1, s.len() as int))
    }
}

#[via_fn]
proof fn split_lines_decreases(s: Seq<char>) {
    lemma_first_nl(s, 0);
}

/// How a configuration built by the parser corresponds to the machine's
/// model: same rules, conditions and pattern texts; titles equal where
/// the text gave one; tags lowercased; every flag still clear.
pub open spec fn matches_regexes(rc: RegexCondition, m: SpecRegexes) -> bool {
    &&& rc.patterns@.len() == m.pats.len()
    &&& forall|x: int|
        0 <= x < m.pats.len() ==> (#[trigger] rc.patterns@[x]).spec_text() == m.pats[x]
    &&& rc.excludes@.len() == m.excls.len()
    &&& forall|x: int|
        0 <= x < m.excls.len() ==> (#[trigger] rc.excludes@[x]).spec_text() == m.excls[x]
}

pub open spec fn matches_content(node: ContentConditionNode, m: SpecContent) -> bool {
    &&& !node.is_reporting_target
    &&& match m {
        SpecContent::SMatch { rc } => node.condition matches ContentCondition::Match(x)
            && matches_regexes(x, rc),
        SpecContent::SNoMatch { rc } => node.condition matches ContentCondition::NoMatch(x)
            && matches_regexes(x, rc),
        SpecContent::SSize { op, value } => node.condition matches ContentCondition::Size(sc)
            && sc.operator == op && sc.value == value,
        SpecContent::SLines { op, value } => node.condition matches ContentCondition::Lines(sc)
            && sc.operator == op && sc.value == value,
    }
}

pub open spec fn matches_cond(c: GlobCondition, m: SpecCond) -> bool {
    &&& c.logic == if m.negative {
        ConditionLogic::Negative
    } else {
        ConditionLogic::Positive
    }
    &&& !c.is_reporting_target
    &&& !c.has_reporting_target
    &&& c.patterns@.len() == m.pats.len()
    &&& forall|x: int|
        0 <= x < m.pats.len() ==> (#[trigger] c.patterns@[x]).spec_text()
            == crate::text::trim_leading_slashes(m.pats[x]) && c.patterns@[x].spec_scope()
            == crate::ruleset::scope_of_pattern(m.pats[x])
    &&& c.excludes@.len() == m.excls.len()
    &&& forall|x: int|
        0 <= x < m.excls.len() ==> (#[trigger] c.excludes@[x]).spec_text()
            == crate::text::trim_leading_slashes(m.excls[x]) && c.excludes@[x].spec_scope()
            == crate::ruleset::scope_of_pattern(m.excls[x])
    &&& c.content_conditions@.len() == m.content.len()
    &&& forall|j: int|
        0 <= j < m.content.len() ==> matches_content(
            #[trigger] c.content_conditions@[j],
            m.content[j],
        )
}

pub open spec fn matches_rule(r: Rule, m: SpecRule) -> bool {
    &&& (m.title matches Some(tt) ==> r.title@ == tt)
    &&& !r.is_reporting_target
    &&& r.tags@.len() == m.tags.len()
    &&& forall|x: int| 0 <= x < m.tags.len() ==> (#[trigger] r.tags@[x])@ == m.tags[x]
    &&& r.path_conditions@.len() == m.conds.len()
    &&& forall|k: int|
        0 <= k < m.conds.len() ==> matches_cond(#[trigger] r.path_conditions@[k], m.conds[k])
}

/// Every glob word of the list compiles (after the leading-separator
/// trimming its constructor applies).
pub open spec fn glob_texts_compile(ws: Seq<Seq<char>>) -> bool {
    forall|x: int|
        0 <= x < ws.len() ==> crate::ruleset::glob_compiles(
            crate::text::trim_leading_slashes(#[trigger] ws[x]),
        )
}

pub open spec fn glob_words_compile(m: (Seq<Seq<char>>, Seq<Seq<char>>)) -> bool {
    glob_texts_compile(m.0) && glob_texts_compile(m.1)
}

/// Every regex word of the list compiles.
pub open spec fn regex_texts_compile(ws: Seq<Seq<char>>) -> bool {
    forall|x: int| 0 <= x < ws.len() ==> crate::ruleset::regex_compiles(#[trigger] ws[x])
}

pub open spec fn regex_words_compile(m: (Seq<Seq<char>>, Seq<Seq<char>>)) -> bool {
    regex_texts_compile(m.0) && regex_texts_compile(m.1)
}

/// A line on which the parser owes success once the grammar accepts it:
/// it asks for no filesystem expansion (`root` / `include` always depend
/// on the outside world) and every pattern it declares compiles.
pub open spec fn line_compiles(t: Seq<char>) -> bool {
    if t.len() == 0 || t[0] == '#' || t[0] == '[' {
        true
    } else {
        let e = kw_end(t, 0);
        let kw = t.subrange(0, e);
        if kw == "root"@ || kw == "include"@ {
            false
        } else if kw == "files"@ || kw == "nofiles"@ {
            glob_words(t, e) matches Some(m) ==> glob_words_compile(m)
        } else if kw == "match"@ || kw == "nomatch"@ {
            regex_words(t, e) matches Some(m) ==> regex_words_compile(m)
        } else {
            true
        }
    }
}

/// Every line of the text owes success: no `root` / `include`, and every
/// declared pattern compiles.
pub open spec fn lines_compile(lines: Seq<Seq<char>>) -> bool {
    forall|li: int| 0 <= li < lines.len() ==> line_compiles(trimmed(#[trigger] lines[li]))
}

pub open spec fn matches_config(c: Config, m: SpecConfig) -> bool {
    c.ruleset.rules@.len() == m.rules.len() && forall|i: int|
        0 <= i < m.rules.len() ==> matches_rule(#[trigger] c.ruleset.rules@[i], m.rules[i])
}

/// Relies on `str::to_lowercase`: lowercases the text; the result depends
/// on the characters alone.
#[verifier::external_body]
fn to_lowercase(s: &str) -> (r: String)
    ensures
        r@ == lower_of(s@),
{
    s.to_lowercase()
}

/// Relies on `glob::glob`: expands a filesystem glob pattern and returns
/// the matching paths, in the alphabetical order the crate documents; the
/// result depends on what is on disk.  Paths that are not valid text and
/// per-entry read failures are reported as an error, as is an invalid
/// pattern.
#[verifier::external_body]
fn expand_fs_glob(pattern: &str) -> Result<Vec<String>, String> {
    let paths = glob::glob(pattern).map_err(|e| e.msg.to_string())?;
    paths.map(
        |entry|
            entry.map_err(|e| e.to_string()).and_then(
                |p|
                    p.to_str().map(|s| s.to_string()).ok_or_else(
                        || String::from("path is not valid unicode"),
                    ),
            ),
    ).collect()
}

/// Relies on `directories::BaseDirs`: the home directory of the user
/// running the process, if one is known; the result depends on the
/// environment.
#[verifier::external_body]
fn home_dir() -> Option<String> {
    directories::BaseDirs::new().and_then(|d| d.home_dir().to_str().map(|s| s.to_string()))
}


/// Copies a window of a line into its own vector.
fn copy_range(t: &Vec<char>, from: usize, to: usize) -> (r: Vec<char>)
    requires
        from <= to <= t@.len(),
    ensures
        r@ == t@.subrange(from as int, to as int),
{
    let mut r: Vec<char> = Vec::new();
    let mut i: usize = from;
    proof {
        assert(r@ =~= t@.subrange(from as int, from as int));
    }
    while i < to
        invariant
            from <= i <= to <= t@.len(),
            r@ == t@.subrange(from as int, i as int),
        decreases to - i,
    {
        r.push(t[i]);
        proof {
            assert(r@ =~= t@.subrange(from as int, i + 1));
        }
        i = i + 1;
    }
    r
}

fn exec_skip_ws(t: &Vec<char>, i: usize) -> (r: usize)
    requires
        i <= t@.len(),
    ensures
        r == skip_ws(t@, i as int),
        i <= r <= t@.len(),
{
    proof {
        lemma_skip_ws(t@, i as int);
    }
    let n = t.len();
    let mut j = i;
    while j < n && (t[j] == ' ' || t[j] == '\t')
        invariant
            i <= j <= n,
            n == t@.len(),
            skip_ws(t@, i as int) == skip_ws(t@, j as int),
        decreases n - j,
    {
        j = j + 1;
    }
    j
}

fn exec_kw_end(t: &Vec<char>, i: usize) -> (r: usize)
    requires
        i <= t@.len(),
    ensures
        r == kw_end(t@, i as int),
        i <= r <= t@.len(),
{
    proof {
        lemma_kw_end(t@, i as int);
    }
    let n = t.len();
    let mut j = i;
    while j < n && 'a' <= t[j] && t[j] <= 'z'
        invariant
            i <= j <= n,
            n == t@.len(),
            kw_end(t@, i as int) == kw_end(t@, j as int),
        decreases n - j,
    {
        j = j + 1;
    }
    j
}

fn exec_trim_back(t: &Vec<char>) -> (r: usize)
    ensures
        r == trim_back(t@, t@.len() as int),
        r <= t@.len(),
{
    proof {
        lemma_trim_back(t@, t@.len() as int);
    }
    let mut j = t.len();
    while j > 0 && (t[j - 1] == ' ' || t[j - 1] == '\t')
        invariant
            j <= t@.len(),
            trim_back(t@, t@.len() as int) == trim_back(t@, j as int),
        decreases j,
    {
        j = j - 1;
    }
    j
}

/// Whether a keyword window equals a short ascii literal.
fn kw_is(t: &Vec<char>, e: usize, kw: &str) -> (r: bool)
    requires
        e <= t@.len(),
    ensures
        r == (t@.subrange(0, e as int) == kw@),
{
    let k = str_chars(kw);
    if e != k.len() {
        proof {
            assert(t@.subrange(0, e as int).len() == e);
        }
        return false;
    }
    let mut i: usize = 0;
    while i < e
        invariant
            e <= t@.len(),
            e == k@.len(),
            k@ == kw@,
            i <= e,
            forall|j: int| 0 <= j < i ==> t@[j] == kw@[j],
        decreases e - i,
    {
        if t[i] != k[i] {
            proof {
                assert(t@.subrange(0, e as int)[i as int] == t@[i as int]);
            }
            return false;
        }
        i = i + 1;
    }
    proof {
        assert(t@.subrange(0, e as int) =~= kw@);
    }
    true
}

/// The title of a rule line: the text between the brackets, unescaped.
fn exec_title(t: &Vec<char>) -> (r: Option<Vec<char>>)
    requires
        t@.len() > 0,
        t@[0] == '[',
    ensures
        match r {
            Some(w) => title_scan(t@, 1, Seq::empty()) matches Some(p) && p.0 == w@
                && rest_is_comment(t@, p.1),
            None => !(title_scan(t@, 1, Seq::empty()) matches Some(p) && rest_is_comment(
                t@,
                p.1,
            )),
        },
{
    let n = t.len();
    let mut i: usize = 1;
    let mut acc: Vec<char> = Vec::new();
    let mut close: usize = 0;
    let mut found: bool = false;
    while i < n && !found
        invariant
            1 <= i <= n,
            n == t@.len(),
            title_scan(t@, 1, Seq::empty()) == title_scan(t@, i as int, acc@),
            found ==> title_scan(t@, i as int, acc@) == Some((acc@, close as int)),
            found ==> close <= n,
        decreases n - i + if found {
            0int
        } else {
            1int
        },
    {
        if t[i] == ']' {
            if i + 1 < n && t[i + 1] == ']' {
                acc.push(']');
                i = i + 2;
            } else {
                close = i + 1;
                found = true;
            }
        } else {
            acc.push(t[i]);
            i = i + 1;
        }
    }
    if !found {
        proof {
            assert(title_scan(t@, i as int, acc@) is None);
        }
        return None;
    }
    let rest = exec_skip_ws(t, close);
    if rest == n || t[rest] == '#' {
        Some(acc)
    } else {
        None
    }
}

/// The end of a glob word: the next unquoted, unescaped blank.
fn exec_word_end(t: &Vec<char>, i: usize) -> (r: Option<usize>)
    requires
        i <= t@.len(),
    ensures
        match r {
            Some(e) => word_end(t@, i as int, 0) == Some(e as int) && i <= e <= t@.len(),
            None => word_end(t@, i as int, 0) is None,
        },
{
    proof {
        lemma_word_end(t@, i as int, 0);
    }
    let n = t.len();
    let mut j = i;
    let mut q: u8 = 0;
    loop
        invariant
            i <= j <= n,
            n == t@.len(),
            q == 0 || q == 1 || q == 2,
            word_end(t@, i as int, 0) == word_end(t@, j as int, q as int),
        decreases n - j + 2,
    {
        if j >= n {
            if q == 0 {
                return Some(j);
            } else {
                return None;
            }
        }
        let c = t[j];
        if q == 0 && (c == ' ' || c == '\t') {
            return Some(j);
        } else if q == 0 && c == '\'' {
            q = 1;
            j = j + 1;
        } else if q == 0 && c == '"' {
            q = 2;
            j = j + 1;
        } else if q == 1 && c == '\'' {
            q = 0;
            j = j + 1;
        } else if q == 2 && c == '"' {
            q = 0;
            j = j + 1;
        } else if (q == 0 || q == 2) && c == '\\' {
            if j + 1 < n {
                j = j + 2;
            } else {
                return None;
            }
        } else {
            j = j + 1;
        }
    }
}

fn exec_glob_escape_into(quoted: &Vec<char>, acc: &mut Vec<char>)
    ensures
        final(acc)@ == old(acc)@ + glob_escape(quoted@),
{
    let ghost base = acc@;
    let n = quoted.len();
    let mut i: usize = 0;
    proof {
        assert(acc@ =~= base + glob_escape(quoted@.subrange(0, 0)));
    }
    while i < n
        invariant
            i <= n,
            n == quoted@.len(),
            acc@ == base + glob_escape(quoted@.subrange(0, i as int)),
        decreases n - i,
    {
        let c = quoted[i];
        if c == '?' || c == '*' || c == '[' || c == ']' {
            acc.push('[');
            acc.push(c);
            acc.push(']');
        } else {
            acc.push(c);
        }
        proof {
            assert(quoted@.subrange(0, i + 1).drop_last() =~= quoted@.subrange(0, i as int));
            assert(quoted@.subrange(0, i + 1).last() == quoted@[i as int]);
        }
        i = i + 1;
    }
    proof {
        assert(quoted@.subrange(0, n as int) =~= quoted@);
    }
}

/// Quote-processes one glob word.
fn exec_glob_word(w: &Vec<char>) -> (r: Option<Vec<char>>)
    ensures
        match r {
            Some(v) => glob_word(w@, 0, 0, Seq::empty(), Seq::empty()) == Some(v@),
            None => glob_word(w@, 0, 0, Seq::empty(), Seq::empty()) is None,
        },
{
    let n = w.len();
    let mut i: usize = 0;
    let mut q: u8 = 0;
    let mut quoted: Vec<char> = Vec::new();
    let mut acc: Vec<char> = Vec::new();
    proof {
        assert(quoted@ =~= Seq::<char>::empty());
        assert(acc@ =~= Seq::<char>::empty());
    }
    loop
        invariant
            i <= n,
            n == w@.len(),
            q == 0 || q == 1 || q == 2,
            q == 0 ==> quoted@ == Seq::<char>::empty(),
            glob_word(w@, 0, 0, Seq::empty(), Seq::empty()) == glob_word(
                w@,
                i as int,
                q as int,
                quoted@,
                acc@,
            ),
        decreases n - i + 1,
    {
        if i >= n {
            if q == 0 {
                return Some(acc);
            } else {
                return None;
            }
        }
        let c = w[i];
        if q == 1 {
            if c == '\'' {
                exec_glob_escape_into(&quoted, &mut acc);
                quoted = Vec::new();
                q = 0;
                proof {
                    assert(quoted@ =~= Seq::<char>::empty());
                }
            } else {
                quoted.push(c);
            }
            i = i + 1;
        } else if q == 2 {
            if c == '\\' {
                if i + 1 < n {
                    quoted.push(w[i + 1]);
                    i = i + 2;
                } else {
                    return None;
                }
            } else if c == '"' {
                exec_glob_escape_into(&quoted, &mut acc);
                quoted = Vec::new();
                q = 0;
                proof {
                    assert(quoted@ =~= Seq::<char>::empty());
                }
                i = i + 1;
            } else {
                quoted.push(c);
                i = i + 1;
            }
        } else {
            if c == '\\' {
                if i + 1 < n {
                    let mut single: Vec<char> = Vec::new();
                    single.push(w[i + 1]);
                    proof {
                        assert(single@ =~= seq![w@[i + 1]]);
                    }
                    exec_glob_escape_into(&single, &mut acc);
                    i = i + 2;
                } else {
                    return None;
                }
            } else if c == '\'' {
                q = 1;
                quoted = Vec::new();
                proof {
                    assert(quoted@ =~= Seq::<char>::empty());
                }
                i = i + 1;
            } else if c == '"' {
                q = 2;
                quoted = Vec::new();
                proof {
                    assert(quoted@ =~= Seq::<char>::empty());
                }
                i = i + 1;
            } else {
                acc.push(c);
                i = i + 1;
            }
        }
    }
}


/// The views of a list of line buffers.
pub open spec fn lines_views(vv: Seq<Vec<char>>) -> Seq<Seq<char>> {
    vv.map_values(|v: Vec<char>| v@)
}

pub proof fn lemma_first_nl_shift(s: Seq<char>, pos: int, i: int)
    requires
        0 <= pos <= pos + i <= s.len(),
    ensures
        first_nl(s.subrange(pos, s.len() as int), i) == first_nl(s, pos + i) - pos,
    decreases s.len() - pos - i,
{
    let sub = s.subrange(pos, s.len() as int);
    if pos + i < s.len() && s[pos + i] != '\n' {
        lemma_first_nl_shift(s, pos, i + 1);
    }
}

fn exec_split_lines(chars: &Vec<char>) -> (r: Vec<Vec<char>>)
    ensures
        lines_views(r@) == split_lines(chars@),
{
    let n = chars.len();
    let mut acc: Vec<Vec<char>> = Vec::new();
    let mut pos: usize = 0;
    let mut done: bool = false;
    proof {
        assert(chars@.subrange(0, n as int) =~= chars@);
        assert(lines_views(acc@) =~= Seq::<Seq<char>>::empty());
    }
    while !done
        invariant
            n == chars@.len(),
            pos <= n,
            !done ==> split_lines(chars@) == lines_views(acc@) + split_lines(
                chars@.subrange(pos as int, n as int),
            ),
            done ==> lines_views(acc@) == split_lines(chars@),
        decreases n - pos + if done {
            0int
        } else {
            1int
        },
    {
        let mut j = pos;
        proof {
            lemma_first_nl(chars@, pos as int);
        }
        while j < n && chars[j] != '\n'
            invariant
                pos <= j <= n,
                n == chars@.len(),
                first_nl(chars@, pos as int) == first_nl(chars@, j as int),
            decreases n - j,
        {
            j = j + 1;
        }
        let seg = copy_range(chars, pos, j);
        acc.push(seg);
        proof {
            let sub = chars@.subrange(pos as int, n as int);
            lemma_first_nl_shift(chars@, pos as int, 0);
            assert(first_nl(sub, 0) == j - pos);
            assert(sub.subrange(0, j - pos) =~= chars@.subrange(pos as int, j as int));
            if j < n {
                assert(sub.subrange(j - pos + 1, sub.len() as int) =~= chars@.subrange(
                    j + 1,
                    n as int,
                ));
            }
            assert(lines_views(acc@) =~= lines_views(acc@.drop_last()) + seq![
                chars@.subrange(pos as int, j as int),
            ]);
        }
        if j < n {
            pos = j + 1;
        } else {
            done = true;
            proof {
                assert(split_lines(chars@.subrange(pos as int, n as int)) == seq![
                    chars@.subrange(pos as int, j as int),
                ]);
                assert(lines_views(acc@) =~= split_lines(chars@));
            }
        }
    }
    acc
}

/// The built globs carry the processed texts of the model, trimmed and
/// scoped as `Glob::new` does.
pub open spec fn globs_match(gs: Seq<Glob>, ms: Seq<Seq<char>>) -> bool {
    gs.len() == ms.len() && forall|x: int|
        0 <= x < ms.len() ==> (#[trigger] gs[x]).spec_text() == crate::text::trim_leading_slashes(
            ms[x],
        ) && gs[x].spec_scope() == crate::ruleset::scope_of_pattern(ms[x])
}

pub open spec fn regexes_match(gs: Seq<Regex>, ms: Seq<Seq<char>>) -> bool {
    gs.len() == ms.len() && forall|x: int|
        0 <= x < ms.len() ==> (#[trigger] gs[x]).spec_text() == ms[x]
}

/// Reads the glob words of a `files` / `nofiles` line and compiles them.
fn exec_glob_words(t: &Vec<char>, i: usize, line_no: usize) -> (r: Result<
    (Vec<Glob>, Vec<Glob>),
    ParseError,
>)
    requires
        i <= t@.len(),
    ensures
        r matches Ok(p) ==> (glob_words(t@, i as int) matches Some(m) && globs_match(p.0@, m.0)
            && globs_match(p.1@, m.1)),
        glob_words(t@, i as int) is None ==> r is Err,
        (glob_words(t@, i as int) matches Some(m) && glob_words_compile(m)) ==> r is Ok,
{
    let n = t.len();
    let mut ps: Vec<Glob> = Vec::new();
    let mut es: Vec<Glob> = Vec::new();
    let ghost mp: Seq<Seq<char>> = Seq::empty();
    let ghost me: Seq<Seq<char>> = Seq::empty();
    let mut mp = Ghost(mp);
    let mut me = Ghost(me);
    let mut cur = i;
    loop
        invariant
            i <= cur <= n,
            n == t@.len(),
            globs_match(ps@, mp@),
            globs_match(es@, me@),
            glob_words(t@, cur as int) matches Some(m2) ==> glob_words(t@, i as int) == Some(
                (mp@ + m2.0, me@ + m2.1),
            ),
            glob_words(t@, cur as int) is None ==> glob_words(t@, i as int) is None,
        decreases n - cur,
    {
        let j = exec_skip_ws(t, cur);
        if j >= n {
            proof {
                assert(glob_words(t@, cur as int) == Some(
                    (Seq::<Seq<char>>::empty(), Seq::<Seq<char>>::empty()),
                ));
                assert(mp@ + Seq::<Seq<char>>::empty() =~= mp@);
                assert(me@ + Seq::<Seq<char>>::empty() =~= me@);
            }
            return Ok((ps, es));
        }
        let exclude = t[j] == '!';
        let start = if exclude {
            j + 1
        } else {
            j
        };
        let e_opt = exec_word_end(t, start);
        let e = match e_opt {
            None => {
                proof {
                    assert(glob_words(t@, cur as int) is None);
                }
                return Err(
                    ParseError { line: line_no, message: "unterminated quoting".to_owned() },
                );
            },
            Some(e) => e,
        };
        if e <= start {
            proof {
                assert(glob_words(t@, cur as int) is None);
            }
            return Err(ParseError { line: line_no, message: "empty glob pattern".to_owned() });
        }
        let word = copy_range(t, start, e);
        let processed = match exec_glob_word(&word) {
            None => {
                proof {
                    assert(glob_word(t@.subrange(start as int, e as int), 0, 0, Seq::empty(),
                        Seq::empty()) is None);
                    assert(glob_words(t@, cur as int) is None);
                }
                return Err(ParseError { line: line_no, message: "bad quoting".to_owned() });
            },
            Some(v) => v,
        };
        let text = chars_string(&processed);
        let g = match Glob::new(text.as_str()) {
            Err(_) => {
                proof {
                    assert(!crate::ruleset::glob_compiles(crate::text::trim_leading_slashes(
                        processed@,
                    )));
                    assert(t@.subrange(start as int, e as int) == word@);
                    assert(processed@ == word_model(t@, start as int, e as int));
                    if glob_words(t@, e as int) is Some {
                        let m2 = glob_words(t@, e as int)->Some_0;
                        let w = word_model(t@, start as int, e as int);
                        if exclude {
                            assert(glob_words(t@, cur as int) == Some((m2.0, seq![w] + m2.1)));
                            assert(glob_words(t@, i as int) == Some(
                                (mp@ + m2.0, me@ + (seq![w] + m2.1)),
                            ));
                            assert((me@ + (seq![w] + m2.1))[me@.len() as int] == w);
                            assert(!glob_texts_compile(me@ + (seq![w] + m2.1)));
                        } else {
                            assert(glob_words(t@, cur as int) == Some((seq![w] + m2.0, m2.1)));
                            assert(glob_words(t@, i as int) == Some(
                                (mp@ + (seq![w] + m2.0), me@ + m2.1),
                            ));
                            assert((mp@ + (seq![w] + m2.0))[mp@.len() as int] == w);
                            assert(!glob_texts_compile(mp@ + (seq![w] + m2.0)));
                        }
                    } else {
                        assert(glob_words(t@, cur as int) is None);
                    }
                }
                return Err(
                    ParseError { line: line_no, message: "invalid glob pattern".to_owned() },
                );
            },
            Ok(g) => g,
        };
        proof {
            assert(t@.subrange(start as int, e as int) == word@);
        }
        if exclude {
            es.push(g);
            proof {
                me@ = me@.push(processed@);
            }
        } else {
            ps.push(g);
            proof {
                mp@ = mp@.push(processed@);
            }
        }
        proof {
            assert(globs_match(ps@, mp@));
            assert(globs_match(es@, me@));
            if glob_words(t@, e as int) is Some {
                let m2 = glob_words(t@, e as int)->Some_0;
                if exclude {
                    assert(glob_words(t@, cur as int) == Some(
                        (m2.0, seq![word_model(t@, start as int, e as int)] + m2.1),
                    ));
                    assert(me@.drop_last() + (seq![word_model(t@, start as int, e as int)] + m2.1)
                        =~= me@ + m2.1);
                } else {
                    assert(glob_words(t@, cur as int) == Some(
                        (seq![word_model(t@, start as int, e as int)] + m2.0, m2.1),
                    ));
                    assert(mp@.drop_last() + (seq![word_model(t@, start as int, e as int)] + m2.0)
                        =~= mp@ + m2.0);
                }
                assert(glob_words(t@, i as int) == Some((mp@ + m2.0, me@ + m2.1)));
            } else {
                assert(glob_words(t@, cur as int) is None);
            }
        }
        cur = e;
    }
}

/// The processed text of the word in `[s, e)`.
pub open spec fn word_model(t: Seq<char>, s: int, e: int) -> Seq<char>
    recommends
        glob_word(t.subrange(s, e), 0, 0, Seq::empty(), Seq::empty()) is Some,
{
    glob_word(t.subrange(s, e), 0, 0, Seq::empty(), Seq::empty())->Some_0
}

/// Reads the regex words of a `match` / `nomatch` line and compiles them.
fn exec_regex_words(t: &Vec<char>, i: usize, line_no: usize) -> (r: Result<
    (Vec<Regex>, Vec<Regex>),
    ParseError,
>)
    requires
        i <= t@.len(),
    ensures
        r matches Ok(p) ==> (regex_words(t@, i as int) matches Some(m) && regexes_match(p.0@, m.0)
            && regexes_match(p.1@, m.1)),
        regex_words(t@, i as int) is None ==> r is Err,
        (regex_words(t@, i as int) matches Some(m) && regex_words_compile(m)) ==> r is Ok,
{
    let n = t.len();
    let mut ps: Vec<Regex> = Vec::new();
    let mut es: Vec<Regex> = Vec::new();
    let ghost mp0: Seq<Seq<char>> = Seq::empty();
    let ghost me0: Seq<Seq<char>> = Seq::empty();
    let mut mp = Ghost(mp0);
    let mut me = Ghost(me0);
    let mut cur = i;
    loop
        invariant
            i <= cur <= n,
            n == t@.len(),
            regexes_match(ps@, mp@),
            regexes_match(es@, me@),
            regex_words(t@, cur as int) matches Some(m2) ==> regex_words(t@, i as int) == Some(
                (mp@ + m2.0, me@ + m2.1),
            ),
            regex_words(t@, cur as int) is None ==> regex_words(t@, i as int) is None,
        decreases n - cur,
    {
        let j = exec_skip_ws(t, cur);
        if j >= n {
            proof {
                assert(regex_words(t@, cur as int) == Some(
                    (Seq::<Seq<char>>::empty(), Seq::<Seq<char>>::empty()),
                ));
                assert(mp@ + Seq::<Seq<char>>::empty() =~= mp@);
                assert(me@ + Seq::<Seq<char>>::empty() =~= me@);
            }
            return Ok((ps, es));
        }
        let exclude = t[j] == '!';
        let start = if exclude {
            j + 1
        } else {
            j
        };
        if start >= n {
            proof {
                assert(regex_words(t@, cur as int) is None);
            }
            return Err(ParseError { line: line_no, message: "missing regex".to_owned() });
        }
        let d = t[start];
        // scan the framed pattern, keeping escapes as written
        let mut k = start + 1;
        let mut acc: Vec<char> = Vec::new();
        let mut close: usize = 0;
        let mut found = false;
        proof {
            assert(acc@ =~= Seq::<char>::empty());
        }
        while k < n && !found
            invariant
                start + 1 <= k <= n,
                n == t@.len(),
                i <= cur <= n,
                j as int == skip_ws(t@, cur as int),
                j < n,
                exclude == (t@[j as int] == '!'),
                start as int == if exclude {
                    j as int + 1
                } else {
                    j as int
                },
                start < n,
                d == t@[start as int],
                regex_words(t@, cur as int) is None ==> regex_words(t@, i as int) is None,
                regex_scan(t@, start + 1, d, Seq::empty()) == regex_scan(t@, k as int, d, acc@),
                found ==> regex_scan(t@, k as int, d, acc@) == Some((acc@, close as int))
                    && close <= n,
            decreases n - k + if found {
                0int
            } else {
                1int
            },
        {
            let c = t[k];
            if c == d {
                close = k + 1;
                found = true;
            } else if c == '\\' {
                if k + 1 < n {
                    acc.push('\\');
                    acc.push(t[k + 1]);
                    k = k + 2;
                } else {
                    proof {
                        assert(regex_scan(t@, k as int, d, acc@) is None);
                        assert(regex_words(t@, cur as int) is None);
                    }
                    return Err(
                        ParseError { line: line_no, message: "unterminated regex".to_owned() },
                    );
                }
            } else {
                acc.push(c);
                k = k + 1;
            }
        }
        if !found {
            proof {
                assert(regex_scan(t@, k as int, d, acc@) is None);
                assert(regex_words(t@, cur as int) is None);
            }
            return Err(ParseError { line: line_no, message: "unterminated regex".to_owned() });
        }
        if close < n && !(t[close] == ' ' || t[close] == '\t') {
            proof {
                assert(regex_words(t@, cur as int) is None);
            }
            return Err(
                ParseError {
                    line: line_no,
                    message: "text after regex delimiter".to_owned(),
                },
            );
        }
        if close <= start + 1 {
            proof {
                assert(regex_words(t@, cur as int) is None);
            }
            return Err(ParseError { line: line_no, message: "empty regex framing".to_owned() });
        }
        let text = chars_string(&acc);
        let rx = match Regex::new(text.as_str()) {
            Err(_) => {
                proof {
                    assert(!crate::ruleset::regex_compiles(acc@));
                    if regex_words(t@, close as int) is Some {
                        let m2 = regex_words(t@, close as int)->Some_0;
                        if exclude {
                            assert(regex_words(t@, cur as int) == Some((m2.0, seq![acc@] + m2.1)));
                            assert(regex_words(t@, i as int) == Some(
                                (mp@ + m2.0, me@ + (seq![acc@] + m2.1)),
                            ));
                            assert((me@ + (seq![acc@] + m2.1))[me@.len() as int] == acc@);
                            assert(!regex_texts_compile(me@ + (seq![acc@] + m2.1)));
                        } else {
                            assert(regex_words(t@, cur as int) == Some((seq![acc@] + m2.0, m2.1)));
                            assert(regex_words(t@, i as int) == Some(
                                (mp@ + (seq![acc@] + m2.0), me@ + m2.1),
                            ));
                            assert((mp@ + (seq![acc@] + m2.0))[mp@.len() as int] == acc@);
                            assert(!regex_texts_compile(mp@ + (seq![acc@] + m2.0)));
                        }
                    } else {
                        assert(regex_words(t@, cur as int) is None);
                    }
                }
                return Err(ParseError { line: line_no, message: "invalid regex".to_owned() });
            },
            Ok(x) => x,
        };
        if exclude {
            es.push(rx);
            proof {
                me@ = me@.push(acc@);
            }
        } else {
            ps.push(rx);
            proof {
                mp@ = mp@.push(acc@);
            }
        }
        proof {
            assert(regexes_match(ps@, mp@));
            assert(regexes_match(es@, me@));
            if regex_words(t@, close as int) is Some {
                let m2 = regex_words(t@, close as int)->Some_0;
                if exclude {
                    assert(regex_words(t@, cur as int) == Some((m2.0, seq![acc@] + m2.1)));
                    assert(me@.drop_last() + (seq![acc@] + m2.1) =~= me@ + m2.1);
                } else {
                    assert(regex_words(t@, cur as int) == Some((seq![acc@] + m2.0, m2.1)));
                    assert(mp@.drop_last() + (seq![acc@] + m2.0) =~= mp@ + m2.0);
                }
                assert(regex_words(t@, i as int) == Some((mp@ + m2.0, me@ + m2.1)));
            } else {
                assert(regex_words(t@, cur as int) is None);
            }
        }
        cur = close;
    }
}


/// Reads the tag words of a `tags` line, lowercased.
fn exec_tags(t: &Vec<char>, i: usize) -> (r: Vec<String>)
    requires
        i <= t@.len(),
    ensures
        r@.len() == tag_words(t@, i as int).len(),
        forall|x: int|
            0 <= x < r@.len() ==> (#[trigger] r@[x])@ == tag_words(t@, i as int)[x],
{
    let n = t.len();
    let mut out: Vec<String> = Vec::new();
    let ghost model: Seq<Seq<char>> = Seq::empty();
    let mut model = Ghost(model);
    let mut cur = i;
    loop
        invariant
            i <= cur <= n,
            n == t@.len(),
            out@.len() == model@.len(),
            forall|x: int| 0 <= x < model@.len() ==> (#[trigger] out@[x])@ == model@[x],
            tag_words(t@, i as int) == model@ + tag_words(t@, cur as int),
        decreases n - cur,
    {
        if cur >= n {
            proof {
                assert(tag_words(t@, cur as int) =~= Seq::<Seq<char>>::empty());
                assert(model@ + tag_words(t@, cur as int) =~= model@);
            }
            return out;
        }
        let c = t[cur];
        if c == ' ' || c == '\t' || c == ',' {
            cur = cur + 1;
        } else {
            proof {
                lemma_tag_end(t@, cur as int);
            }
            let mut e = cur;
            while e < n && !(t[e] == ' ' || t[e] == '\t' || t[e] == ',')
                invariant
                    cur <= e <= n,
                    n == t@.len(),
                    tag_end(t@, cur as int) == tag_end(t@, e as int),
                decreases n - e,
            {
                e = e + 1;
            }
            let word = copy_range(t, cur, e);
            let raw = chars_string(&word);
            let lowered = to_lowercase(raw.as_str());
            out.push(lowered);
            proof {
                model@ = model@.push(lower_of(t@.subrange(cur as int, e as int)));
                assert(model@.drop_last() + (seq![lower_of(t@.subrange(cur as int, e as int))]
                    + tag_words(t@, e as int)) =~= model@ + tag_words(t@, e as int));
            }
            cur = e;
        }
    }
}

/// Reads the operator and value of a `size` / `lines` line.
fn exec_size_args(t: &Vec<char>, i: usize, line_no: usize) -> (r: Result<
    (SizeOperator, u64),
    ParseError,
>)
    requires
        i <= t@.len(),
    ensures
        r matches Ok(p) ==> size_args(t@, i as int) == Some((p.0, p.1)),
        size_args(t@, i as int) is None ==> r is Err,
        size_args(t@, i as int) is Some ==> r is Ok,
{
    let n = t.len();
    let j = exec_skip_ws(t, i);
    let mut op: SizeOperator = SizeOperator::Equal;
    let mut oe: usize = 0;
    let mut have_op: bool = false;
    if j < n && j + 1 < n {
        let a = t[j];
        let b = t[j + 1];
        proof {
            assert(t@.subrange(j as int, j + 2) =~= seq![t@[j as int], t@[j + 1]]);
        }
        if a == '>' && b == '=' {
            op = SizeOperator::GreaterEqual;
            oe = j + 2;
            have_op = true;
            proof {
                assert(t@.subrange(j as int, j + 2) =~= seq!['>', '=']);
            }
        } else if a == '<' && b == '=' {
            op = SizeOperator::LessEqual;
            oe = j + 2;
            have_op = true;
            proof {
                assert(t@.subrange(j as int, j + 2) =~= seq!['<', '=']);
            }
        } else if a == '=' && b == '=' {
            op = SizeOperator::Equal;
            oe = j + 2;
            have_op = true;
            proof {
                assert(t@.subrange(j as int, j + 2) =~= seq!['=', '=']);
            }
        } else if a == '!' && b == '=' {
            op = SizeOperator::NotEqual;
            oe = j + 2;
            have_op = true;
            proof {
                assert(t@.subrange(j as int, j + 2) =~= seq!['!', '=']);
            }
        } else if a == '<' && b == '>' {
            op = SizeOperator::NotEqual;
            oe = j + 2;
            have_op = true;
            proof {
                assert(t@.subrange(j as int, j + 2) =~= seq!['<', '>']);
            }
        }
    }
    if !have_op && j < n {
        let a = t[j];
        proof {
            assert(t@.subrange(j as int, j + 1) =~= seq![t@[j as int]]);
            if j + 1 < n {
                assert(t@.subrange(j as int, j + 2) =~= seq![t@[j as int], t@[j + 1]]);
            }
        }
        if a == '>' {
            op = SizeOperator::Greater;
            oe = j + 1;
            have_op = true;
            proof {
                assert(t@.subrange(j as int, j + 1) =~= seq!['>']);
            }
        } else if a == '<' {
            op = SizeOperator::Less;
            oe = j + 1;
            have_op = true;
            proof {
                assert(t@.subrange(j as int, j + 1) =~= seq!['<']);
            }
        } else if a == '=' {
            op = SizeOperator::Equal;
            oe = j + 1;
            have_op = true;
            proof {
                assert(t@.subrange(j as int, j + 1) =~= seq!['=']);
            }
        }
    }
    proof {
        if j + 1 < n {
            assert(t@.subrange(j as int, j + 2) =~= seq![t@[j as int], t@[j + 1]]);
            assert(seq![t@[j as int], t@[j + 1]][0] == t@[j as int]);
            assert(seq![t@[j as int], t@[j + 1]][1] == t@[j + 1]);
        }
        if j < n {
            assert(t@.subrange(j as int, j + 1) =~= seq![t@[j as int]]);
            assert(seq![t@[j as int]][0] == t@[j as int]);
        }
        assert(seq!['>', '='][0] == '>' && seq!['>', '='][1] == '=');
        assert(seq!['<', '='][0] == '<' && seq!['<', '='][1] == '=');
        assert(seq!['=', '='][0] == '=' && seq!['=', '='][1] == '=');
        assert(seq!['!', '='][0] == '!' && seq!['!', '='][1] == '=');
        assert(seq!['<', '>'][0] == '<' && seq!['<', '>'][1] == '>');
        assert(seq!['>'][0] == '>');
        assert(seq!['<'][0] == '<');
        assert(seq!['='][0] == '=');
        assert(seq!['>', '='].len() == 2 && seq!['<', '='].len() == 2 && seq!['=', '='].len() == 2
            && seq!['!', '='].len() == 2 && seq!['<', '>'].len() == 2);
        assert(seq!['>'].len() == 1 && seq!['<'].len() == 1 && seq!['='].len() == 1);
    }
    if !have_op {
        proof {
            assert(op_scan(t@, j as int) is None);
        }
        return Err(ParseError { line: line_no, message: "expected comparison".to_owned() });
    }
    proof {
        assert(op_scan(t@, j as int) == Some((op, oe as int)));
    }
    let d = exec_skip_ws(t, oe);
    proof {
        lemma_digits_end(t@, d as int);
    }
    let mut de = d;
    while de < n && '0' <= t[de] && t[de] <= '9'
        invariant
            d <= de <= n,
            n == t@.len(),
            digits_end(t@, d as int) == digits_end(t@, de as int),
        decreases n - de,
    {
        de = de + 1;
    }
    if de == d {
        proof {
            assert(digits_end(t@, d as int) == de as int);
            assert(size_args(t@, i as int) is None);
        }
        return Err(ParseError { line: line_no, message: "expected a number".to_owned() });
    }
    let tail = exec_skip_ws(t, de);
    if tail != n {
        proof {
            assert(digits_end(t@, d as int) == de as int);
            assert(size_args(t@, i as int) is None);
        }
        return Err(ParseError { line: line_no, message: "text after the number".to_owned() });
    }
    // accumulate the decimal value, refusing overflow
    let mut acc: u64 = 0;
    let mut x = d;
    proof {
        assert(t@.subrange(d as int, d + 1).len() == 1);
        assert(digits_end(t@, d as int) == de as int);
    }
    while x < de
        invariant
            d <= x <= de <= n,
            n == t@.len(),
            i <= n,
            forall|y: int| d <= y < de ==> is_digit(t@[y]),
            x == d ==> acc == 0,
            x > d ==> digits_value(t@.subrange(d as int, x as int)) == Some(acc),
            op_scan(t@, skip_ws(t@, i as int)) == Some((op, oe as int)),
            d as int == skip_ws(t@, oe as int),
            digits_end(t@, d as int) == de as int,
            de > d,
            skip_ws(t@, de as int) == n as int,
        decreases de - x,
    {
        let c = t[x];
        let digit: u64 = (c as u64) - ('0' as u64);
        proof {
            assert(is_digit(t@[x as int]));
        }
        if x == d {
            acc = digit;
            proof {
                assert(t@.subrange(d as int, d + 1) =~= seq![t@[d as int]]);
            }
        } else {
            if acc > (u64::MAX - digit) / 10 {
                proof {
                    assert(t@.subrange(d as int, x + 1).drop_last() =~= t@.subrange(
                        d as int,
                        x as int,
                    ));
                    assert(t@.subrange(d as int, x + 1).last() == t@[x as int]);
                    assert(digits_value(t@.subrange(d as int, x + 1)) is None);
                    lemma_digits_none(t@, d as int, x as int, de as int);
                    assert(size_args(t@, i as int) is None);
                }
                return Err(
                    ParseError { line: line_no, message: "number out of range".to_owned() },
                );
            }
            acc = acc * 10 + digit;
            proof {
                assert(t@.subrange(d as int, x + 1).drop_last() =~= t@.subrange(
                    d as int,
                    x as int,
                ));
                assert(t@.subrange(d as int, x + 1).last() == t@[x as int]);
            }
        }
        proof {
            assert(t@.subrange(d as int, x + 1).drop_last() =~= t@.subrange(d as int, x as int));
            assert(t@.subrange(d as int, x + 1).last() == t@[x as int]);
        }
        x = x + 1;
    }
    proof {
        assert(t@.subrange(d as int, de as int) =~= t@.subrange(d as int, de as int));
        assert(size_args(t@, i as int) == Some((op, acc)));
    }
    Ok((op, acc))
}

/// A prefix that does not fit keeps the whole number from fitting.
pub proof fn lemma_digits_none(t: Seq<char>, d: int, x: int, de: int)
    requires
        0 <= d <= x < de <= t.len(),
        digits_value(t.subrange(d, x + 1)) is None,
    ensures
        digits_value(t.subrange(d, de)) is None,
    decreases de - x,
{
    if x + 1 == de {
    } else {
        assert(t.subrange(d, x + 2).drop_last() =~= t.subrange(d, x + 1));
        lemma_digits_none(t, d, x + 1, de);
    }
}


/// The structural invariant the machine keeps: while content directives
/// may attach, the last rule exists and its last condition is positive.
pub open spec fn state_inv(st: ParseState) -> bool {
    st.open_attach ==> st.cfg.rules.len() > 0 && st.cfg.rules.last().conds.len() > 0
        && !st.cfg.rules.last().conds.last().negative
}

/// The decimal digits of a number, for generated titles.
fn usize_to_dec(x: usize) -> (r: String) {
    let mut digits: Vec<char> = Vec::new();
    let mut v = x;
    loop
        invariant_except_break
            true,
        decreases v,
    {
        let d = (v % 10) as u8;
        let c: char = (d + 48) as char;
        digits.push(c);
        v = v / 10;
        if v == 0 {
            break;
        }
    }
    let mut out: Vec<char> = Vec::new();
    let mut i = digits.len();
    while i > 0
        invariant
            i <= digits@.len(),
        decreases i,
    {
        i = i - 1;
        out.push(digits[i]);
    }
    chars_string(&out)
}

/// Expands a `root` / `include` pattern against the filesystem: `~` means
/// the home directory, and relative patterns are taken from the
/// configuration file's directory.
fn expand_pattern(pattern: &String, source_desc: &str, line_no: usize) -> Result<
    Vec<String>,
    ParseError,
> {
    let chars = str_chars(pattern.as_str());
    let full: String = if chars.len() > 0 && chars[0] == '~' {
        match home_dir() {
            None => {
                return Err(
                    ParseError {
                        line: line_no,
                        message: "cannot expand tilde without a home directory".to_owned(),
                    },
                );
            },
            Some(h) => {
                let rest = copy_range(&chars, 1, chars.len());
                h.concat(chars_string(&rest).as_str())
            },
        }
    } else if chars.len() > 0 && chars[0] == '/' {
        pattern.clone()
    } else {
        let dchars = str_chars(source_desc);
        let mut last_sep: usize = 0;
        let mut has_sep = false;
        let mut i: usize = 0;
        while i < dchars.len()
            invariant
                i <= dchars@.len(),
                has_sep ==> last_sep < dchars@.len(),
            decreases dchars@.len() - i,
        {
            if dchars[i] == '/' {
                last_sep = i;
                has_sep = true;
            }
            i = i + 1;
        }
        if has_sep {
            let head = copy_range(&dchars, 0, last_sep + 1);
            chars_string(&head).concat(pattern.as_str())
        } else {
            pattern.clone()
        }
    };
    match expand_fs_glob(full.as_str()) {
        Err(m) => Err(ParseError { line: line_no, message: m }),
        Ok(v) => Ok(v),
    }
}

/// Applies one trimmed line to the configuration being built.
#[verifier::rlimit(100)]
fn apply_line(
    cfg: &mut Config,
    open_attach: &mut bool,
    t: &Vec<char>,
    line_no: usize,
    source_desc: &str,
    Ghost(st): Ghost<ParseState>,
) -> (r: Result<(), ParseError>)
    requires
        matches_config(*old(cfg), st.cfg),
        *old(open_attach) == st.open_attach,
        state_inv(st),
    ensures
        r is Ok ==> (line_step(st, t@) matches Some(st2) && matches_config(*final(cfg), st2.cfg)
            && *final(open_attach) == st2.open_attach && state_inv(st2)),
        line_step(st, t@) is None ==> r is Err,
        (line_step(st, t@) is Some && line_compiles(t@)) ==> r is Ok,
{
    proof {
        reveal_strlit("root");
        reveal_strlit("include");
        reveal_strlit("tags");
        reveal_strlit("files");
        reveal_strlit("nofiles");
        reveal_strlit("match");
        reveal_strlit("nomatch");
        reveal_strlit("size");
        reveal_strlit("lines");
        assert("root"@.len() == 4 && "include"@.len() == 7 && "tags"@.len() == 4 && "files"@.len()
            == 5 && "nofiles"@.len() == 7 && "match"@.len() == 5 && "nomatch"@.len() == 7
            && "size"@.len() == 4 && "lines"@.len() == 5);
        assert("files"@[0] == 'f' && "match"@[0] == 'm' && "lines"@[0] == 'l' && "size"@[0] == 's'
            && "root"@[0] == 'r' && "tags"@[0] == 't' && "include"@[0] == 'i' && "nofiles"@[0]
            == 'n' && "nomatch"@[0] == 'n');
        assert("nofiles"@[2] == 'f' && "nomatch"@[2] == 'm' && "include"@[2] == 'c');
    }
    let n = t.len();
    if n == 0 {
        return Ok(());
    }
    if t[0] == '#' {
        return Ok(());
    }
    if t[0] == '[' {
        let title_chars = match exec_title(t) {
            None => {
                return Err(ParseError { line: line_no, message: "bad rule title".to_owned() });
            },
            Some(w) => w,
        };
        let title: String = if title_chars.len() == 0 {
            let base = "rule from ".to_owned();
            let mut b = base.concat(source_desc);
            b.append(":");
            let b2 = b.concat(usize_to_dec(line_no).as_str());
            let mut b3 = b2.concat(" (#");
            let nrules = cfg.ruleset.rules.len();
            let next_no = if nrules < usize::MAX {
                nrules + 1
            } else {
                nrules
            };
            let b4 = b3.concat(usize_to_dec(next_no).as_str());
            b4.concat(")")
        } else {
            chars_string(&title_chars)
        };
        let rule = Rule {
            number: 0,
            title,
            tags: Vec::new(),
            path_conditions: Vec::new(),
            is_reporting_target: false,
        };
        cfg.ruleset.rules.push(rule);
        *open_attach = false;
        proof {
            let st2 = line_step(st, t@)->Some_0;
            assert forall|i: int| 0 <= i < st2.cfg.rules.len() implies matches_rule(
                #[trigger] cfg.ruleset.rules@[i],
                st2.cfg.rules[i],
            ) by {
                if i < st.cfg.rules.len() {
                    assert(cfg.ruleset.rules@[i] == old(cfg).ruleset.rules@[i]);
                    assert(matches_rule(old(cfg).ruleset.rules@[i], st.cfg.rules[i]));
                }
            }
        }
        return Ok(());
    }
    let e = exec_kw_end(t, 0);
    let rest_at = exec_skip_ws(t, e);
    if kw_is(t, e, "root") || kw_is(t, e, "include") {
        let is_root = kw_is(t, e, "root");
        if !(rest_at < n && e < n && (t[e] == ' ' || t[e] == '\t')) {
            return Err(ParseError { line: line_no, message: "missing pattern".to_owned() });
        }
        let raw = chars_string(&copy_range(t, rest_at, n));
        let expanded = match expand_pattern(&raw, source_desc, line_no) {
            Err(pe) => {
                return Err(pe);
            },
            Ok(v) => v,
        };
        let mut v = expanded;
        if is_root {
            cfg.roots.append(&mut v);
        } else {
            cfg.includes.append(&mut v);
        }
        return Ok(());
    }
    if kw_is(t, e, "tags") {
        let has_rule = cfg.ruleset.rules.len() > 0;
        if !(has_rule && (e == n || t[e] == ' ' || t[e] == '\t')) {
            return Err(
                ParseError { line: line_no, message: "tags outside a rule".to_owned() },
            );
        }
        let tags = exec_tags(t, e);
        let mut rule = match cfg.ruleset.rules.pop() {
            None => {
                proof {
                    assert(false);
                }
                return Err(ParseError { line: line_no, message: String::new() });
            },
            Some(x) => x,
        };
        rule.tags = tags;
        cfg.ruleset.rules.push(rule);
        *open_attach = false;
        proof {
            let st2 = line_step(st, t@)->Some_0;
            assert forall|i: int| 0 <= i < st2.cfg.rules.len() implies matches_rule(
                #[trigger] cfg.ruleset.rules@[i],
                st2.cfg.rules[i],
            ) by {
                if i < st.cfg.rules.len() - 1 {
                    assert(cfg.ruleset.rules@[i] == old(cfg).ruleset.rules@[i]);
                    assert(matches_rule(old(cfg).ruleset.rules@[i], st.cfg.rules[i]));
                    assert(st2.cfg.rules[i] == st.cfg.rules[i]);
                } else {
                    assert(matches_rule(old(cfg).ruleset.rules@.last(), st.cfg.rules.last()));
                }
            }
        }
        return Ok(());
    }
    if kw_is(t, e, "files") || kw_is(t, e, "nofiles") {
        let is_nofiles = kw_is(t, e, "nofiles");
        let has_rule = cfg.ruleset.rules.len() > 0;
        if !(has_rule && e < n && (t[e] == ' ' || t[e] == '\t')) {
            return Err(
                ParseError { line: line_no, message: "files outside a rule".to_owned() },
            );
        }
        let (pats, excls) = match exec_glob_words(t, e, line_no) {
            Err(pe) => {
                return Err(pe);
            },
            Ok(p) => p,
        };
        if pats.len() == 0 && excls.len() == 0 {
            return Err(ParseError { line: line_no, message: "no glob patterns".to_owned() });
        }
        let cond = GlobCondition {
            number: 0,
            logic: if is_nofiles {
                ConditionLogic::Negative
            } else {
                ConditionLogic::Positive
            },
            patterns: pats,
            excludes: excls,
            content_conditions: Vec::new(),
            linewise_content_conditions_count: 0,
            is_reporting_target: false,
            has_reporting_target: false,
        };
        let mut rule = match cfg.ruleset.rules.pop() {
            None => {
                proof {
                    assert(false);
                }
                return Err(ParseError { line: line_no, message: String::new() });
            },
            Some(x) => x,
        };
        rule.path_conditions.push(cond);
        cfg.ruleset.rules.push(rule);
        *open_attach = !is_nofiles;
        proof {
            let st2 = line_step(st, t@)->Some_0;
            assert forall|i: int| 0 <= i < st2.cfg.rules.len() implies matches_rule(
                #[trigger] cfg.ruleset.rules@[i],
                st2.cfg.rules[i],
            ) by {
                if i < st.cfg.rules.len() - 1 {
                    assert(cfg.ruleset.rules@[i] == old(cfg).ruleset.rules@[i]);
                    assert(matches_rule(old(cfg).ruleset.rules@[i], st.cfg.rules[i]));
                    assert(st2.cfg.rules[i] == st.cfg.rules[i]);
                } else {
                    let orule = old(cfg).ruleset.rules@.last();
                    let om = st.cfg.rules.last();
                    assert(matches_rule(orule, om));
                    let nrule = cfg.ruleset.rules@.last();
                    let nm = st2.cfg.rules.last();
                    let m = glob_words(t@, e as int)->Some_0;
                    assert(nm.conds.last().pats == m.0);
                    assert(nm.conds.last().excls == m.1);
                    assert(globs_match(nrule.path_conditions@.last().patterns@, m.0));
                    assert(globs_match(nrule.path_conditions@.last().excludes@, m.1));
                    assert forall|k: int| 0 <= k < nm.conds.len() implies matches_cond(
                        #[trigger] nrule.path_conditions@[k],
                        nm.conds[k],
                    ) by {
                        if k < om.conds.len() {
                            assert(nrule.path_conditions@[k] == orule.path_conditions@[k]);
                            assert(matches_cond(orule.path_conditions@[k], om.conds[k]));
                            assert(nm.conds[k] == om.conds[k]);
                        } else {
                            assert(nrule.path_conditions@[k] == nrule.path_conditions@.last());
                            assert(nm.conds[k] == nm.conds.last());
                        }
                    }
                }
            }
        }
        return Ok(());
    }
    if kw_is(t, e, "match") || kw_is(t, e, "nomatch") {
        let is_nomatch = kw_is(t, e, "nomatch");
        let has_rule = cfg.ruleset.rules.len() > 0;
        if !(has_rule && *open_attach && e < n && (t[e] == ' ' || t[e] == '\t')) {
            return Err(
                ParseError {
                    line: line_no,
                    message: "match outside a files condition".to_owned(),
                },
            );
        }
        let (pats, excls) = match exec_regex_words(t, e, line_no) {
            Err(pe) => {
                return Err(pe);
            },
            Ok(p) => p,
        };
        if pats.len() == 0 && excls.len() == 0 {
            return Err(ParseError { line: line_no, message: "no regex patterns".to_owned() });
        }
        let rc = RegexCondition { patterns: pats, excludes: excls };
        let node = ContentConditionNode {
            number: 0,
            is_reporting_target: false,
            condition: if is_nomatch {
                ContentCondition::NoMatch(rc)
            } else {
                ContentCondition::Match(rc)
            },
        };
        proof {
            let m2 = regex_words(t@, e as int)->Some_0;
            let rc0 = if is_nomatch {
                node.condition->NoMatch_0
            } else {
                node.condition->Match_0
            };
            assert(Seq::new(rc0.patterns@.len(), |x: int| rc0.patterns@[x].spec_text())
                =~= m2.0);
            assert(Seq::new(rc0.excludes@.len(), |x: int| rc0.excludes@[x].spec_text())
                =~= m2.1);
            assert(node_model(node) == (if is_nomatch {
                SpecContent::SNoMatch { rc: SpecRegexes { pats: m2.0, excls: m2.1 } }
            } else {
                SpecContent::SMatch { rc: SpecRegexes { pats: m2.0, excls: m2.1 } }
            }));
        }
        push_node(cfg, node, Ghost(st), Ghost(t@));
        return Ok(());
    }
    if kw_is(t, e, "size") || kw_is(t, e, "lines") {
        let is_lines = kw_is(t, e, "lines");
        let has_rule = cfg.ruleset.rules.len() > 0;
        if !(has_rule && *open_attach) {
            return Err(
                ParseError {
                    line: line_no,
                    message: "size outside a files condition".to_owned(),
                },
            );
        }
        let (op, value) = match exec_size_args(t, e, line_no) {
            Err(pe) => {
                return Err(pe);
            },
            Ok(p) => p,
        };
        let sc = SizeCondition { operator: op, value };
        let node = ContentConditionNode {
            number: 0,
            is_reporting_target: false,
            condition: if is_lines {
                ContentCondition::Lines(sc)
            } else {
                ContentCondition::Size(sc)
            },
        };
        proof {
            assert(node_model(node) == (if is_lines {
                SpecContent::SLines { op, value }
            } else {
                SpecContent::SSize { op, value }
            }));
        }
        push_node(cfg, node, Ghost(st), Ghost(t@));
        return Ok(());
    }
    Err(ParseError { line: line_no, message: "unknown directive".to_owned() })
}

/// Appends a content condition node to the open condition of the last
/// rule.
fn push_node(cfg: &mut Config, node: ContentConditionNode, Ghost(st): Ghost<ParseState>, Ghost(t): Ghost<Seq<char>>)
    requires
        matches_config(*old(cfg), st.cfg),
        state_inv(st),
        st.open_attach,
        st.cfg.rules.len() > 0,
        line_step(st, t) matches Some(st2) && st2.cfg.rules == push_content_model(st, node_model(node)).cfg.rules && st2.open_attach == st.open_attach,
        matches_content(node, node_model(node)),
        !node.is_reporting_target,
    ensures
        matches_config(*final(cfg), line_step(st, t)->Some_0.cfg),
        state_inv(line_step(st, t)->Some_0),
{
    let mut rule = match cfg.ruleset.rules.pop() {
        None => {
            proof {
                assert(false);
            }
            return ;
        },
        Some(x) => x,
    };
    let mut cond = match rule.path_conditions.pop() {
        None => {
            proof {
                assert(matches_rule(old(cfg).ruleset.rules@.last(), st.cfg.rules.last()));
                assert(false);
            }
            return ;
        },
        Some(x) => x,
    };
    cond.content_conditions.push(node);
    rule.path_conditions.push(cond);
    cfg.ruleset.rules.push(rule);
    proof {
        let st2 = line_step(st, t)->Some_0;
        assert(matches_rule(old(cfg).ruleset.rules@.last(), st.cfg.rules.last()));
        assert forall|i: int| 0 <= i < st2.cfg.rules.len() implies matches_rule(
            #[trigger] cfg.ruleset.rules@[i],
            st2.cfg.rules[i],
        ) by {
            if i < st.cfg.rules.len() - 1 {
                assert(cfg.ruleset.rules@[i] == old(cfg).ruleset.rules@[i]);
                assert(matches_rule(old(cfg).ruleset.rules@[i], st.cfg.rules[i]));
                assert(st2.cfg.rules[i] == st.cfg.rules[i]);
            } else {
                let orule = old(cfg).ruleset.rules@.last();
                let om = st.cfg.rules.last();
                let nrule = cfg.ruleset.rules@.last();
                let nm = st2.cfg.rules.last();
                assert forall|k: int| 0 <= k < nm.conds.len() implies matches_cond(
                    #[trigger] nrule.path_conditions@[k],
                    nm.conds[k],
                ) by {
                    if k < om.conds.len() - 1 {
                        assert(nrule.path_conditions@[k] == orule.path_conditions@[k]);
                        assert(matches_cond(orule.path_conditions@[k], om.conds[k]));
                        assert(nm.conds[k] == om.conds[k]);
                    } else {
                        let ocond = orule.path_conditions@.last();
                        let ocm = om.conds.last();
                        assert(matches_cond(ocond, ocm));
                        let ncond = nrule.path_conditions@.last();
                        let ncm = nm.conds.last();
                        assert forall|x: int| 0 <= x < ncm.content.len() implies matches_content(
                            #[trigger] ncond.content_conditions@[x],
                            ncm.content[x],
                        ) by {
                            if x < ocm.content.len() {
                                assert(ncond.content_conditions@[x]
                                    == ocond.content_conditions@[x]);
                                assert(matches_content(ocond.content_conditions@[x],
                                    ocm.content[x]));
                            }
                        }
                    }
                }
            }
        }
    }
}

/// The model of one built content node.
pub open spec fn node_model(node: ContentConditionNode) -> SpecContent {
    match node.condition {
        ContentCondition::Match(rc) => SpecContent::SMatch {
            rc: SpecRegexes {
                pats: Seq::new(rc.patterns@.len(), |x: int| rc.patterns@[x].spec_text()),
                excls: Seq::new(rc.excludes@.len(), |x: int| rc.excludes@[x].spec_text()),
            },
        },
        ContentCondition::NoMatch(rc) => SpecContent::SNoMatch {
            rc: SpecRegexes {
                pats: Seq::new(rc.patterns@.len(), |x: int| rc.patterns@[x].spec_text()),
                excls: Seq::new(rc.excludes@.len(), |x: int| rc.excludes@[x].spec_text()),
            },
        },
        ContentCondition::Size(sc) => SpecContent::SSize { op: sc.operator, value: sc.value },
        ContentCondition::Lines(sc) => SpecContent::SLines { op: sc.operator, value: sc.value },
    }
}

/// `push_content` as a whole-state step.
pub open spec fn push_content_model(st: ParseState, content: SpecContent) -> ParseState {
    push_content(st, content)
}


/// Parses a whole configuration text, line by line.  On success the built
/// configuration corresponds to the machine's model of the text; when the
/// text does not parse, an error names the offending line.  Success is
/// owed whenever the grammar accepts the text and no outside call can
/// refuse it: no `root` / `include` line (their filesystem expansion may
/// fail) and every declared pattern compiles.
pub fn parse_file(s: &str, source_desc: &str) -> (r: Result<Config, ParseError>)
    ensures
        r matches Ok(c) ==> (spec_parse(split_lines(s@)) matches Some(st) && matches_config(
            c,
            st.cfg,
        )),
        spec_parse(split_lines(s@)) is None ==> r is Err,
        (spec_parse(split_lines(s@)) is Some && lines_compile(split_lines(s@))) ==> r is Ok,
{
    let chars = str_chars(s);
    let lines = exec_split_lines(&chars);
    let ghost lv = lines_views(lines@);
    let mut cfg = Config::new();
    let mut open_attach = false;
    let ghost st0 = empty_state();
    let mut gst = Ghost(st0);
    let nl = lines.len();
    let mut li: usize = 0;
    proof {
        assert(matches_config(cfg, empty_state().cfg));
    }
    while li < nl
        invariant
            nl == lines@.len(),
            lv == lines_views(lines@),
            lv == split_lines(s@),
            li <= nl,
            matches_config(cfg, gst@.cfg),
            open_attach == gst@.open_attach,
            state_inv(gst@),
            run_machine(lv, 0, empty_state()) == run_machine(lv, li as int, gst@),
        decreases nl - li,
    {
        let line = &lines[li];
        let a = exec_skip_ws(line, 0);
        let b = exec_trim_back(line);
        let t = if a < b {
            copy_range(line, a, b)
        } else {
            Vec::new()
        };
        proof {
            assert(lv[li as int] == line@);
            if a < b {
                assert(t@ == trimmed(line@));
            } else {
                assert(t@ =~= Seq::<char>::empty());
                if skip_ws(line@, 0) <= trim_back(line@, line@.len() as int) {
                    assert(line@.subrange(
                        skip_ws(line@, 0),
                        trim_back(line@, line@.len() as int),
                    ) =~= Seq::<char>::empty());
                }
                assert(t@ == trimmed(line@));
            }
        }
        let line_no = li + 1;
        match apply_line(&mut cfg, &mut open_attach, &t, line_no, source_desc, Ghost(gst@)) {
            Err(pe) => {
                proof {
                    if line_step(gst@, t@) is Some {
                        assert(!line_compiles(trimmed(lv[li as int])));
                        assert(!lines_compile(lv));
                    } else {
                        assert(run_machine(lv, li as int, gst@) is None);
                    }
                }
                return Err(pe);
            },
            Ok(()) => {
                proof {
                    let st2 = line_step(gst@, t@)->Some_0;
                    assert(run_machine(lv, li as int, gst@) == run_machine(lv, li + 1, st2));
                    gst@ = st2;
                }
            },
        }
        li = li + 1;
    }
    proof {
        assert(run_machine(lv, nl as int, gst@) == Some(gst@));
        assert(spec_parse(split_lines(s@)) == Some(gst@));
    }
    Ok(cfg)
}

impl Config {
    /// Parses a configuration text; rules keep their declaration order,
    /// pattern texts and tags, with every compile-time field still clear.
    /// Success is owed whenever the grammar accepts the text, it names no
    /// `root` / `include` (their expansion reads the filesystem), and
    /// every declared pattern compiles.
    pub fn from_str(s: &str) -> (r: Result<Config, ParseError>)
        ensures
            r matches Ok(c) ==> (spec_parse(split_lines(s@)) matches Some(st) && matches_config(
                c,
                st.cfg,
            )),
            spec_parse(split_lines(s@)) is None ==> r is Err,
            (spec_parse(split_lines(s@)) is Some && lines_compile(split_lines(s@))) ==> r is Ok,
    {
        parse_file(s, "???")
    }
}

} // verus!
