//! The matching engine: evaluates every rule of a compiled ruleset against
//! a listing of one root's file tree, in two passes.  The path pass walks
//! the listing once and decides every path condition; the content pass
//! opens each file that still matters at most once and decides its content
//! conditions line by line.
//!
//! The functions here are pure over an in-memory listing; walking a real
//! tree and reading real files is the caller's part, driven through
//! [`FileScan`].

pub mod matching_caches;

use crate::applier::matching_caches::{
    has_ignore_marker, GlobMatchingCache, RegexMatchingCache,
};
use crate::match_result::{Match, MatchResult};
use crate::ruleset::compile::CompiledRuleset;
use crate::ruleset::{
    glob_cond_hit, regex_cond_hit, size_check, ConditionLogic, ContentCondition,
    ContentConditionNode, GlobCondition, RegexCondition, Rule,
};
use vstd::pervasive::VecAdditionalExecFns;
use vstd::prelude::*;

verus! {

/// One file of a listing: its path relative to the root, its size in
/// bytes, and its text lines.
pub struct FileContent {
    pub path: String,
    pub size: u64,
    pub lines: Vec<String>,
}

/// The text lines of a file as sequences of characters.
pub open spec fn lines_view(lines: Seq<String>) -> Seq<Seq<char>> {
    lines.map_values(|s: String| s@)
}

/// What one line means for a `match` directive: the regexes accept it and
/// it does not carry the ignore marker.
pub open spec fn line_matches(rc: RegexCondition, line: Seq<char>) -> bool {
    regex_cond_hit(rc, line) && !has_ignore_marker(line)
}

/// What one line means for a `nomatch` directive: the regexes accept it.
/// The ignore marker does not shield a line from `nomatch`
/// disqualification; it only suppresses reports.
pub open spec fn nomatch_hits(rc: RegexCondition, line: Seq<char>) -> bool {
    regex_cond_hit(rc, line)
}

/// Whether one content condition holds of a file with the given size and
/// lines.
pub open spec fn node_ok(node: ContentConditionNode, size: u64, lines: Seq<Seq<char>>) -> bool {
    match node.condition {
        ContentCondition::Match(rc) => exists|l: int|
            0 <= l < lines.len() && line_matches(rc, #[trigger] lines[l]),
        ContentCondition::NoMatch(rc) => !exists|l: int|
            0 <= l < lines.len() && nomatch_hits(rc, #[trigger] lines[l]),
        ContentCondition::Size(sc) => size_check(sc.operator, sc.value, size),
        ContentCondition::Lines(sc) => size_check(sc.operator, sc.value, lines.len() as u64),
    }
}

/// Whether every content condition of a path condition holds of a file.
pub open spec fn content_ok(c: GlobCondition, size: u64, lines: Seq<Seq<char>>) -> bool {
    forall|j: int|
        0 <= j < c.content_conditions@.len() ==> node_ok(
            #[trigger] c.content_conditions@[j],
            size,
            lines,
        )
}

/// Whether a file of the listing satisfies a path condition in full: its
/// path is accepted and, when the condition carries content conditions,
/// they all hold of the file.
pub open spec fn cond_accepts_file(c: GlobCondition, f: FileContent) -> bool {
    glob_cond_hit(c, f.path@) && content_ok(c, f.size, lines_view(f.lines@))
}

/// A positive condition is satisfied when some file of the tree satisfies
/// it.
pub open spec fn cond_satisfied(c: GlobCondition, files: Seq<FileContent>) -> bool {
    exists|i: int| 0 <= i < files.len() && cond_accepts_file(c, #[trigger] files[i])
}

/// A rule is eliminated when any file matches one of its negative
/// conditions, wherever that condition stands in the rule.
pub open spec fn rule_eliminated(r: Rule, files: Seq<FileContent>) -> bool {
    exists|k: int, i: int|
        0 <= k < r.path_conditions@.len() && 0 <= i < files.len()
            && (#[trigger] r.path_conditions@[k]).logic is Negative && glob_cond_hit(
            r.path_conditions@[k],
            (#[trigger] files[i]).path@,
        )
}

/// A rule fires when it is not eliminated and every positive condition is
/// satisfied somewhere in the tree.
pub open spec fn rule_fires(r: Rule, files: Seq<FileContent>) -> bool {
    !rule_eliminated(r, files) && forall|k: int|
        0 <= k < r.path_conditions@.len() ==> ((#[trigger] r.path_conditions@[k]).logic
            is Positive ==> cond_satisfied(r.path_conditions@[k], files))
}

/// The shape every report of the engine reduces to: rule number, rule
/// title, root, and an optional (path, optional 0-based line) location.
pub type ReportView = (int, Seq<char>, Seq<char>, Option<(Seq<char>, Option<u64>)>);

impl View for Match {
    type V = ReportView;

    open spec fn view(&self) -> ReportView {
        (
            self.rule_number as int,
            self.title@,
            self.root@,
            match self.file {
                Some(f) => Some((f.path@, f.line)),
                None => None,
            },
        )
    }
}

/// The 0-based indices, ascending, of the lines a `match` directive
/// reports in a file.
pub open spec fn matching_line_numbers(rc: RegexCondition, lines: Seq<Seq<char>>) -> Seq<u64>
    decreases lines.len(),
{
    if lines.len() == 0 {
        Seq::empty()
    } else if line_matches(rc, lines.last()) {
        matching_line_numbers(rc, lines.drop_last()).push((lines.len() - 1) as u64)
    } else {
        matching_line_numbers(rc, lines.drop_last())
    }
}

/// The file-level reports of a rule whose target is a path condition:
/// one report per satisfying file, in listing order.
pub open spec fn file_level_reports(
    r: Rule,
    tc: GlobCondition,
    files: Seq<FileContent>,
    root: Seq<char>,
) -> Seq<ReportView>
    decreases files.len(),
{
    if files.len() == 0 {
        Seq::empty()
    } else {
        file_level_reports(r, tc, files.drop_last(), root) + if cond_accepts_file(
            tc,
            files.last(),
        ) {
            seq![
                (
                    r.number as int,
                    r.title@,
                    root,
                    Some((files.last().path@, None::<u64>)),
                ),
            ]
        } else {
            Seq::empty()
        }
    }
}

/// The line-level reports of one file: one report per line the target
/// `match` directive accepts, ascending.
pub open spec fn line_reports_of_file(
    r: Rule,
    rc: RegexCondition,
    f: FileContent,
    root: Seq<char>,
) -> Seq<ReportView> {
    matching_line_numbers(rc, lines_view(f.lines@)).map_values(
        |l: u64| (r.number as int, r.title@, root, Some((f.path@, Some(l)))),
    )
}

/// The line-level reports of a rule whose target is a `match` content
/// condition under path condition `tc`: for each satisfying file in
/// listing order, one report per line the target accepts.
pub open spec fn line_level_reports(
    r: Rule,
    tc: GlobCondition,
    rc: RegexCondition,
    files: Seq<FileContent>,
    root: Seq<char>,
) -> Seq<ReportView>
    decreases files.len(),
{
    if files.len() == 0 {
        Seq::empty()
    } else {
        line_level_reports(r, tc, rc, files.drop_last(), root) + if cond_accepts_file(
            tc,
            files.last(),
        ) {
            line_reports_of_file(r, rc, files.last(), root)
        } else {
            Seq::empty()
        }
    }
}

/// The target `match` regexes of a rule whose last condition carries the
/// reporting target.
pub open spec fn target_regexes(tc: GlobCondition) -> RegexCondition
    recommends
        tc.content_conditions@.len() > 0,
{
    match tc.content_conditions@.last().condition {
        ContentCondition::Match(rc) => rc,
        _ => vstd::pervasive::arbitrary(),
    }
}

/// Every report a firing rule produces, at its reporting target's
/// granularity, in canonical order.
pub open spec fn reports_of_rule(r: Rule, files: Seq<FileContent>, root: Seq<char>) -> Seq<
    ReportView,
> {
    if !rule_fires(r, files) {
        Seq::empty()
    } else if r.is_reporting_target {
        seq![(r.number as int, r.title@, root, None::<(Seq<char>, Option<u64>)>)]
    } else if r.path_conditions@.len() > 0 {
        let tc = r.path_conditions@.last();
        if tc.is_reporting_target {
            file_level_reports(r, tc, files, root)
        } else if tc.has_reporting_target {
            line_level_reports(r, tc, target_regexes(tc), files, root)
        } else {
            Seq::empty()
        }
    } else {
        Seq::empty()
    }
}

/// The reports of the rules of `rules`, in rule order; `conditionless`
/// selects the rules without path conditions (reported before the tree
/// walk) or those with them.
pub open spec fn reports_of_rules(
    rules: Seq<Rule>,
    files: Seq<FileContent>,
    root: Seq<char>,
    conditionless: bool,
) -> Seq<ReportView>
    decreases rules.len(),
{
    if rules.len() == 0 {
        Seq::empty()
    } else {
        reports_of_rules(rules.drop_last(), files, root, conditionless) + if (rules.last(
        ).path_conditions@.len() == 0) == conditionless {
            reports_of_rule(rules.last(), files, root)
        } else {
            Seq::empty()
        }
    }
}

/// Every report of a run over one root: first the rules with no path
/// conditions (always root-level), then every other rule's reports, in
/// rule order.
pub open spec fn expected_reports(
    rs: CompiledRuleset,
    files: Seq<FileContent>,
    root: Seq<char>,
) -> Seq<ReportView> {
    reports_of_rules(rs.rules@, files, root, true) + reports_of_rules(rs.rules@, files, root, false)
}

/// The path condition a worklist pair refers to.
pub open spec fn pair_cond(rs: CompiledRuleset, p: (usize, usize)) -> GlobCondition {
    rs.rules@[p.0 as int].path_conditions@[p.1 as int]
}

/// The pair's indices are in range.
pub open spec fn pair_valid(rs: CompiledRuleset, p: (usize, usize)) -> bool {
    p.0 < rs.rules@.len() && p.1 < rs.rules@[p.0 as int].path_conditions@.len()
}

/// Some `nomatch` directive of the condition accepts some fed line: the
/// pair is permanently disqualified for this file.
pub open spec fn spec_disq(c: GlobCondition, fed: Seq<Seq<char>>) -> bool {
    exists|j: int, l: int|
        0 <= j < c.content_conditions@.len() && 0 <= l < fed.len()
            && (#[trigger] c.content_conditions@[j]).condition is NoMatch && nomatch_hits(
            c.content_conditions@[j].condition->NoMatch_0,
            #[trigger] fed[l],
        )
}

/// Whether one content condition is already settled affirmatively by the
/// fed prefix: a non-target `match` seen somewhere, a line threshold that
/// can only keep holding, a `size` check (not linewise).  A `nomatch` or a
/// reporting-target `match` never counts: pairs with one keep scanning.
pub open spec fn node_now(node: ContentConditionNode, fed: Seq<Seq<char>>) -> bool {
    match node.condition {
        ContentCondition::Match(rc) => !node.is_reporting_target && exists|l: int|
            0 <= l < fed.len() && line_matches(rc, #[trigger] fed[l]),
        ContentCondition::NoMatch(_) => false,
        ContentCondition::Lines(sc) => fed.len() > 0 && crate::ruleset::size_check_above(
            sc.operator,
            sc.value,
            (fed.len() - 1) as u64,
        ),
        ContentCondition::Size(_) => true,
    }
}

/// Every content condition of the pair is settled: no more per-line work.
pub open spec fn spec_done(c: GlobCondition, fed: Seq<Seq<char>>) -> bool {
    fed.len() > 0 && forall|j: int|
        0 <= j < c.content_conditions@.len() ==> node_now(#[trigger] c.content_conditions@[j], fed)
}

/// What the line scan decides for a pair, size checks aside.
pub open spec fn node_lines_ok(node: ContentConditionNode, lines: Seq<Seq<char>>) -> bool {
    match node.condition {
        ContentCondition::Size(_) => true,
        _ => node_ok(node, 0u64, lines),
    }
}

pub open spec fn content_lines_ok(c: GlobCondition, lines: Seq<Seq<char>>) -> bool {
    forall|j: int|
        0 <= j < c.content_conditions@.len() ==> node_lines_ok(
            #[trigger] c.content_conditions@[j],
            lines,
        )
}

/// Every `size` directive of the condition passes for the given file
/// size.
pub open spec fn content_size_ok(c: GlobCondition, size: u64) -> bool {
    forall|j: int|
        0 <= j < c.content_conditions@.len()
            ==> ((#[trigger] c.content_conditions@[j]).condition is Size ==> size_check(
            c.content_conditions@[j].condition->Size_0.operator,
            c.content_conditions@[j].condition->Size_0.value,
            size,
        ))
}

pub proof fn lemma_content_ok_split(c: GlobCondition, size: u64, lines: Seq<Seq<char>>)
    ensures
        content_ok(c, size, lines) == (content_size_ok(c, size) && content_lines_ok(c, lines)),
{
    if content_size_ok(c, size) && content_lines_ok(c, lines) {
        assert forall|j: int| 0 <= j < c.content_conditions@.len() implies node_ok(
            #[trigger] c.content_conditions@[j],
            size,
            lines,
        ) by {
            assert(node_lines_ok(c.content_conditions@[j], lines));
        }
    }
    if content_ok(c, size, lines) {
        assert forall|j: int| 0 <= j < c.content_conditions@.len() implies node_lines_ok(
            #[trigger] c.content_conditions@[j],
            lines,
        ) by {
            assert(node_ok(c.content_conditions@[j], size, lines));
        }
    }
}

/// Two distinct conditions of a well-formed ruleset carry distinct
/// numbers.
pub proof fn lemma_cond_numbers_unique(
    rs: CompiledRuleset,
    r1: int,
    k1: int,
    r2: int,
    k2: int,
)
    requires
        rs.wf(),
        0 <= r1 < rs.rules@.len(),
        0 <= k1 < rs.rules@[r1].path_conditions@.len(),
        0 <= r2 < rs.rules@.len(),
        0 <= k2 < rs.rules@[r2].path_conditions@.len(),
        (r1, k1) != (r2, k2),
    ensures
        rs.rules@[r1].path_conditions@[k1].number != rs.rules@[r2].path_conditions@[k2].number,
{
    let c1 = rs.rules@[r1].path_conditions@[k1];
    let c2 = rs.rules@[r2].path_conditions@[k2];
    let n = c1.number as int;
    if c1.number == c2.number {
        assert(crate::ruleset::compile::cond_has_number(c1, n));
        assert(crate::ruleset::compile::cond_has_number(c2, n));
        assert(crate::ruleset::compile::rule_has_number(rs.rules@[r1], n));
        assert(crate::ruleset::compile::rule_has_number(rs.rules@[r2], n));
        if r1 != r2 {
            assert(false);
        } else {
            assert(crate::ruleset::compile::rule_numbers_distinct(rs.rules@[r1]));
            assert(false);
        }
    }
}

/// A content condition's number differs from every other condition number
/// of a well-formed ruleset.
pub proof fn lemma_content_number_unique(
    rs: CompiledRuleset,
    r1: int,
    k1: int,
    j1: int,
    r2: int,
    k2: int,
    j2: int,
)
    requires
        rs.wf(),
        0 <= r1 < rs.rules@.len(),
        0 <= k1 < rs.rules@[r1].path_conditions@.len(),
        0 <= j1 < rs.rules@[r1].path_conditions@[k1].content_conditions@.len(),
        0 <= r2 < rs.rules@.len(),
        0 <= k2 < rs.rules@[r2].path_conditions@.len(),
        0 <= j2 < rs.rules@[r2].path_conditions@[k2].content_conditions@.len(),
        (r1, k1, j1) != (r2, k2, j2),
    ensures
        rs.rules@[r1].path_conditions@[k1].content_conditions@[j1].number
            != rs.rules@[r2].path_conditions@[k2].content_conditions@[j2].number,
{
    let c1 = rs.rules@[r1].path_conditions@[k1];
    let c2 = rs.rules@[r2].path_conditions@[k2];
    let n = c1.content_conditions@[j1].number as int;
    if c1.content_conditions@[j1].number == c2.content_conditions@[j2].number {
        assert(crate::ruleset::compile::cond_has_number(c1, n));
        assert(crate::ruleset::compile::cond_has_number(c2, n));
        assert(crate::ruleset::compile::rule_has_number(rs.rules@[r1], n));
        assert(crate::ruleset::compile::rule_has_number(rs.rules@[r2], n));
        if r1 != r2 {
            assert(false);
        } else if k1 != k2 {
            assert(crate::ruleset::compile::rule_numbers_distinct(rs.rules@[r1]));
            assert(false);
        } else {
            assert(crate::ruleset::compile::cond_numbers_distinct(c1));
            assert(false);
        }
    }
}

/// A settled content condition stays settled as lines keep coming.
pub proof fn lemma_node_now_monotone(node: ContentConditionNode, fed: Seq<Seq<char>>, line: Seq<char>)
    requires
        node_now(node, fed),
        fed.len() < u64::MAX,
    ensures
        node_now(node, fed.push(line)),
{
    match node.condition {
        ContentCondition::Match(rc) => {
            let l = choose|l: int| 0 <= l < fed.len() && line_matches(rc, #[trigger] fed[l]);
            assert(fed.push(line)[l] == fed[l]);
        },
        _ => {},
    }
}

/// The per-pair state the scan keeps for one worklist pair, as a function
/// of the lines fed so far.
pub open spec fn pair_state_ok(
    rs: CompiledRuleset,
    p: (usize, usize),
    alive: bool,
    disq: bool,
    done: bool,
    local: Seq<bool>,
    row: Seq<u64>,
    fed: Seq<Seq<char>>,
) -> bool {
    let c = pair_cond(rs, p);
    alive ==> {
        &&& disq == spec_disq(c, fed)
        &&& !disq ==> done == spec_done(c, fed)
        &&& !disq ==> forall|j: int|
            0 <= j < c.content_conditions@.len()
                ==> ((#[trigger] c.content_conditions@[j]).condition is Match
                ==> local[c.content_conditions@[j].number as int] == exists|l: int|
                0 <= l < fed.len() && line_matches(
                    c.content_conditions@[j].condition->Match_0,
                    #[trigger] fed[l],
                ))
        &&& (!disq && c.has_reporting_target && c.content_conditions@.len() > 0) ==> row
            == matching_line_numbers(target_regexes(c), fed)
    }
}

/// Scans one file's lines against the worklist pairs that path matching
/// queued for it, with early removal of decided pairs.  The caller feeds
/// lines while [`FileScan::wants_more`] holds, then takes the outcome.
pub struct FileScan<'a> {
    rs: &'a CompiledRuleset,
    pairs: Vec<(usize, usize)>,
    alive: Vec<bool>,
    disq: Vec<bool>,
    done: Vec<bool>,
    local_status: Vec<bool>,
    matched_lines: Vec<Vec<u64>>,
    lines_seen: u64,
    fed: Ghost<Seq<Seq<char>>>,
}

impl<'a> FileScan<'a> {
    pub closed spec fn spec_rs(&self) -> CompiledRuleset {
        *self.rs
    }

    pub closed spec fn spec_pairs(&self) -> Seq<(usize, usize)> {
        self.pairs@
    }

    pub closed spec fn spec_alive(&self) -> Seq<bool> {
        self.alive@
    }

    pub closed spec fn spec_fed(&self) -> Seq<Seq<char>> {
        self.fed@
    }

    /// All pairs are in range, refer to distinct conditions, and the state
    /// vectors reflect exactly the lines fed so far.
    pub closed spec fn wf(&self) -> bool {
        &&& self.rs.wf()
        &&& self.pairs@.len() == self.alive@.len()
        &&& self.pairs@.len() == self.disq@.len()
        &&& self.pairs@.len() == self.done@.len()
        &&& self.local_status@.len() == self.rs.conditions_count
        &&& self.matched_lines@.len() == self.rs.rules@.len()
        &&& self.lines_seen == self.fed@.len()
        &&& forall|pi: int| 0 <= pi < self.pairs@.len() ==> pair_valid(*self.rs, #[trigger] self.pairs@[pi])
        &&& forall|p1: int, p2: int|
            0 <= p1 < p2 < self.pairs@.len() ==> self.pairs@[p1] != self.pairs@[p2]
        &&& forall|pi: int|
            0 <= pi < self.pairs@.len() ==> pair_state_ok(
                *self.rs,
                #[trigger] self.pairs@[pi],
                self.alive@[pi],
                self.disq@[pi],
                self.done@[pi],
                self.local_status@,
                self.matched_lines@[self.pairs@[pi].0 as int]@,
                self.fed@,
            )
    }

    /// Starts a scan over the given worklist pairs; `alive` marks the
    /// pairs whose `size` conditions passed (the others are never
    /// reported).
    pub fn new(rs: &'a CompiledRuleset, pairs: Vec<(usize, usize)>, alive: Vec<bool>) -> (r: Self)
        requires
            rs.wf(),
            alive@.len() == pairs@.len(),
            forall|pi: int| 0 <= pi < pairs@.len() ==> pair_valid(*rs, #[trigger] pairs@[pi]),
            forall|p1: int, p2: int| 0 <= p1 < p2 < pairs@.len() ==> pairs@[p1] != pairs@[p2],
        ensures
            r.wf(),
            r.spec_rs() == *rs,
            r.spec_pairs() == pairs@,
            r.spec_alive() == alive@,
            r.spec_fed() =~= Seq::<Seq<char>>::empty(),
    {
        let n = pairs.len();
        let mut disq: Vec<bool> = Vec::new();
        let mut done: Vec<bool> = Vec::new();
        let mut i: usize = 0;
        while i < n
            invariant
                i <= n,
                disq@.len() == i,
                done@.len() == i,
                forall|j: int| 0 <= j < i ==> !(#[trigger] disq@[j]),
                forall|j: int| 0 <= j < i ==> !(#[trigger] done@[j]),
            decreases n - i,
        {
            disq.push(false);
            done.push(false);
            i = i + 1;
        }
        let cc = rs.conditions_count;
        let mut local_status: Vec<bool> = Vec::new();
        let mut i2: usize = 0;
        while i2 < cc
            invariant
                i2 <= cc,
                local_status@.len() == i2,
                forall|j: int| 0 <= j < i2 ==> !(#[trigger] local_status@[j]),
            decreases cc - i2,
        {
            local_status.push(false);
            i2 = i2 + 1;
        }
        let nr = rs.rules.len();
        let mut matched_lines: Vec<Vec<u64>> = Vec::new();
        let mut i3: usize = 0;
        while i3 < nr
            invariant
                i3 <= nr,
                matched_lines@.len() == i3,
                forall|j: int| 0 <= j < i3 ==> (#[trigger] matched_lines@[j])@.len() == 0,
            decreases nr - i3,
        {
            matched_lines.push(Vec::new());
            i3 = i3 + 1;
        }
        let r = FileScan {
            rs,
            pairs,
            alive,
            disq,
            done,
            local_status,
            matched_lines,
            lines_seen: 0,
            fed: Ghost(Seq::empty()),
        };
        proof {
            assert forall|pi: int| 0 <= pi < r.pairs@.len() implies pair_state_ok(
                *r.rs,
                #[trigger] r.pairs@[pi],
                r.alive@[pi],
                r.disq@[pi],
                r.done@[pi],
                r.local_status@,
                r.matched_lines@[r.pairs@[pi].0 as int]@,
                r.fed@,
            ) by {
                let c = pair_cond(*r.rs, r.pairs@[pi]);
                assert(!spec_disq(c, r.fed@));
                assert(!spec_done(c, r.fed@));
                assert(r.matched_lines@[r.pairs@[pi].0 as int]@ =~= Seq::<u64>::empty());
                assert(matching_line_numbers(target_regexes(c), r.fed@) =~= Seq::<u64>::empty());
            }
        }
        r
    }

    /// Whether any pair still needs lines: while this holds the caller
    /// should feed the next line; once it fails, nothing later in the file
    /// can change the outcome.
    pub fn wants_more(&self) -> (r: bool)
        requires
            self.wf(),
        ensures
            r == exists|pi: int|
                #![trigger self.spec_alive()[pi]]
                0 <= pi < self.spec_pairs().len() && self.spec_alive()[pi]
                    && !self.spec_disq_at(pi) && !self.spec_done_at(pi),
    {
        let n = self.pairs.len();
        let mut i: usize = 0;
        while i < n
            invariant
                self.wf(),
                n == self.pairs@.len(),
                i <= n,
                forall|pi: int|
                    #![trigger self.spec_alive()[pi]]
                    0 <= pi < i ==> !(self.spec_alive()[pi] && !self.spec_disq_at(pi)
                        && !self.spec_done_at(pi)),
            decreases n - i,
        {
            if self.alive[i] && !self.disq[i] && !self.done[i] {
                proof {
                    assert(self.spec_alive()[i as int] && !self.spec_disq_at(i as int)
                        && !self.spec_done_at(i as int));
                }
                return true;
            }
            i = i + 1;
        }
        false
    }

    pub closed spec fn spec_disq_at(&self, pi: int) -> bool {
        self.disq@[pi]
    }

    pub closed spec fn spec_done_at(&self, pi: int) -> bool {
        self.done@[pi]
    }

    /// Feeds the next line of the file: every pair still pending is
    /// evaluated against it, in declaration order, with early removal of
    /// pairs that are decided.
    pub fn feed_line(&mut self, line: &str)
        requires
            old(self).wf(),
            old(self).spec_fed().len() < u64::MAX,
        ensures
            final(self).wf(),
            final(self).spec_rs() == old(self).spec_rs(),
            final(self).spec_pairs() == old(self).spec_pairs(),
            final(self).spec_alive() == old(self).spec_alive(),
            final(self).spec_fed() == old(self).spec_fed().push(line@),
    {
        let ghost fed0 = self.fed@;
        let ghost fed1 = self.fed@.push(line@);
        let rs = self.rs;
        let mut cache = RegexMatchingCache::new(line, rs.regexes_count, Ghost(rs.regex_keys@));
        let idx: u64 = self.lines_seen;
        let n = self.pairs.len();
        let mut pi: usize = 0;
        while pi < n
            invariant
                rs.wf(),
                rs == self.rs,
                self.rs == old(self).rs,
                self.pairs@ == old(self).pairs@,
                self.alive@ == old(self).alive@,
                self.fed@ == fed0,
                fed1 == fed0.push(line@),
                fed0.len() < u64::MAX,
                self.lines_seen == fed0.len(),
                idx == fed0.len(),
                cache.wf(),
                cache.spec_line() == line@,
                cache.spec_keys() == rs.regex_keys@,
                n == self.pairs@.len(),
                pi <= n,
                self.pairs@.len() == self.alive@.len(),
                self.pairs@.len() == self.disq@.len(),
                self.pairs@.len() == self.done@.len(),
                self.local_status@.len() == rs.conditions_count,
                self.matched_lines@.len() == rs.rules@.len(),
                forall|q: int|
                    0 <= q < self.pairs@.len() ==> pair_valid(*rs, #[trigger] self.pairs@[q]),
                forall|p1: int, p2: int|
                    0 <= p1 < p2 < self.pairs@.len() ==> self.pairs@[p1] != self.pairs@[p2],
                forall|q: int|
                    0 <= q < pi ==> pair_state_ok(
                        *rs,
                        #[trigger] self.pairs@[q],
                        self.alive@[q],
                        self.disq@[q],
                        self.done@[q],
                        self.local_status@,
                        self.matched_lines@[self.pairs@[q].0 as int]@,
                        fed1,
                    ),
                forall|q: int|
                    pi <= q < n ==> pair_state_ok(
                        *rs,
                        #[trigger] self.pairs@[q],
                        self.alive@[q],
                        self.disq@[q],
                        self.done@[q],
                        self.local_status@,
                        self.matched_lines@[self.pairs@[q].0 as int]@,
                        fed0,
                    ),
            decreases n - pi,
        {
            let is_active = self.alive[pi] && !self.disq[pi] && !self.done[pi];
            if !is_active {
                proof {
                    let p = self.pairs@[pi as int];
                    let c = pair_cond(*rs, p);
                    if self.alive@[pi as int] {
                        if self.disq@[pi as int] {
                            let (j, l) = choose|j: int, l: int|
                                0 <= j < c.content_conditions@.len() && 0 <= l < fed0.len() && (
                                #[trigger] c.content_conditions@[j]).condition is NoMatch
                                    && nomatch_hits(
                                    c.content_conditions@[j].condition->NoMatch_0,
                                    #[trigger] fed0[l],
                                );
                            assert(fed1[l] == fed0[l]);
                            assert(spec_disq(c, fed1));
                        } else {
                            assert(!spec_disq(c, fed0));
                            assert forall|j: int, l: int|
                                !(0 <= j < c.content_conditions@.len() && 0 <= l < fed1.len() && (
                                #[trigger] c.content_conditions@[j]).condition is NoMatch
                                    && nomatch_hits(
                                    c.content_conditions@[j].condition->NoMatch_0,
                                    #[trigger] fed1[l],
                                )) by {
                                if 0 <= j < c.content_conditions@.len() && c.content_conditions@[j].condition
                                    is NoMatch {
                                    assert(self.done@[pi as int]);
                                    assert(spec_done(c, fed0));
                                    assert(node_now(c.content_conditions@[j], fed0));
                                    assert(false);
                                }
                            }
                            assert(!spec_disq(c, fed1));
                            assert(self.done@[pi as int]);
                            assert(spec_done(c, fed0));
                            assert forall|j: int|
                                0 <= j < c.content_conditions@.len() implies node_now(
                                #[trigger] c.content_conditions@[j],
                                fed1,
                            ) by {
                                lemma_node_now_monotone(c.content_conditions@[j], fed0, line@);
                            }
                            assert(spec_done(c, fed1));
                            assert forall|j: int|
                                0 <= j < c.content_conditions@.len() && (
                                #[trigger] c.content_conditions@[j]).condition
                                    is Match implies self.local_status@[c.content_conditions@[j].number as int]
                                == exists|l: int|
                                0 <= l < fed1.len() && line_matches(
                                c.content_conditions@[j].condition->Match_0,
                                #[trigger] fed1[l],
                            ) by {
                                let node = c.content_conditions@[j];
                                assert(node_now(node, fed0));
                                assert(!node.is_reporting_target);
                                let l = choose|l: int|
                                    0 <= l < fed0.len() && line_matches(
                                        node.condition->Match_0,
                                        #[trigger] fed0[l],
                                    );
                                assert(fed1[l] == fed0[l]);
                                assert(self.local_status@[node.number as int]);
                            }
                            if c.has_reporting_target && c.content_conditions@.len() > 0 {
                                lemma_rule_flags_target_facts(*rs, p);
                                assert(node_now(
                                    c.content_conditions@[c.content_conditions@.len() - 1],
                                    fed0,
                                ));
                                assert(false);
                            }
                        }
                    }
                }
            } else {
                let p = self.pairs[pi];
                let r_idx = p.0;
                let k_idx = p.1;
                let ghost c = pair_cond(*rs, p);
                let cond = &rs.rules[r_idx].path_conditions[k_idx];
                proof {
                    assert(*cond == c);
                    lemma_rule_flags_target_facts(*rs, p);
                    assert(crate::ruleset::compile::rule_numbers_in(
                        rs.rules@[r_idx as int],
                        0,
                        rs.conditions_count as int,
                    ));
                    assert(crate::ruleset::compile::cond_numbers_in(
                        c,
                        0,
                        rs.conditions_count as int,
                    ));
                    assert(crate::ruleset::compile::rule_numbers_distinct(
                        rs.rules@[r_idx as int],
                    ));
                    assert(crate::ruleset::compile::cond_numbers_distinct(c));
                }
                let ghost ls0 = self.local_status@;
                let ghost ml0 = self.matched_lines@;
                let ghost dq0 = self.disq@;
                let ghost dn0 = self.done@;
                let m = cond.content_conditions.len();
                let mut j: usize = 0;
                let mut satisfied: usize = 0;
                let mut disqualified: bool = false;
                while j < m && !disqualified
                    invariant
                        rs.wf(),
                        rs == self.rs,
                        self.pairs@ == old(self).pairs@,
                        self.alive@ == old(self).alive@,
                        self.disq@ == dq0,
                        self.done@ == dn0,
                        dq0.len() == self.pairs@.len(),
                        dn0.len() == self.pairs@.len(),
                        self.fed@ == fed0,
                        self.lines_seen == fed0.len(),
                        pi < self.pairs@.len(),
                        p == self.pairs@[pi as int],
                        *cond == c,
                        cache.wf(),
                        cache.spec_line() == line@,
                        cache.spec_keys() == rs.regex_keys@,
                        fed1 == fed0.push(line@),
                        fed0.len() < u64::MAX,
                        idx == fed0.len(),
                        pair_valid(*rs, p),
                        c == pair_cond(*rs, p),
                        r_idx == p.0,
                        m == c.content_conditions@.len(),
                        j <= m,
                        satisfied <= j,
                        rule_flags_target_facts(*rs, p),
                        crate::ruleset::compile::cond_numbers_in(
                            c,
                            0,
                            rs.conditions_count as int,
                        ),
                        crate::ruleset::compile::cond_numbers_distinct(c),
                        self.local_status@.len() == ls0.len(),
                        ls0.len() == rs.conditions_count,
                        self.matched_lines@.len() == ml0.len(),
                        ml0.len() == rs.rules@.len(),
                        // frame: only this condition's numbers and this rule's row change
                        forall|x: int|
                            0 <= x < ls0.len() && (forall|jj: int|
                                0 <= jj < m ==> (#[trigger] c.content_conditions@[jj]).number != x)
                                ==> self.local_status@[x] == ls0[x],
                        forall|rr: int|
                            0 <= rr < ml0.len() && rr != r_idx ==> self.matched_lines@[rr]
                                == ml0[rr],
                        // the old pair-state facts this pair started from
                        !spec_disq(c, fed0),
                        !spec_done(c, fed0),
                        forall|jj: int|
                            0 <= jj < m ==> ((#[trigger] c.content_conditions@[jj]).condition
                                is Match ==> ls0[c.content_conditions@[jj].number as int]
                                == exists|l: int|
                                0 <= l < fed0.len() && line_matches(
                                c.content_conditions@[jj].condition->Match_0,
                                #[trigger] fed0[l],
                            )),
                        (c.has_reporting_target && m > 0) ==> ml0[r_idx as int]@
                            == matching_line_numbers(target_regexes(c), fed0),
                        // progress facts about the processed nodes
                        disqualified ==> spec_disq(c, fed1),
                        !disqualified ==> forall|jj: int|
                            0 <= jj < j ==> ((#[trigger] c.content_conditions@[jj]).condition
                                is NoMatch ==> !nomatch_hits(
                                c.content_conditions@[jj].condition->NoMatch_0,
                                line@,
                            )),
                        !disqualified ==> forall|jj: int|
                            0 <= jj < j ==> ((#[trigger] c.content_conditions@[jj]).condition
                                is Match
                                ==> self.local_status@[c.content_conditions@[jj].number as int]
                                == exists|l: int|
                                0 <= l < fed1.len() && line_matches(
                                c.content_conditions@[jj].condition->Match_0,
                                #[trigger] fed1[l],
                            )),
                        !disqualified ==> forall|jj: int|
                            j <= jj < m ==> ((#[trigger] c.content_conditions@[jj]).condition
                                is Match
                                ==> self.local_status@[c.content_conditions@[jj].number as int]
                                == exists|l: int|
                                0 <= l < fed0.len() && line_matches(
                                c.content_conditions@[jj].condition->Match_0,
                                #[trigger] fed0[l],
                            )),
                        !disqualified ==> (satisfied == j <==> forall|jj: int|
                            0 <= jj < j ==> node_now(#[trigger] c.content_conditions@[jj], fed1)),
                        !disqualified ==> ((c.has_reporting_target && m > 0)
                            ==> self.matched_lines@[r_idx as int]@ == matching_line_numbers(
                            target_regexes(c),
                            if j == m {
                                fed1
                            } else {
                                fed0
                            },
                        )),
                        !c.has_reporting_target ==> self.matched_lines@[r_idx as int]
                            == ml0[r_idx as int],
                    decreases m - j,
                {
                    let node = &cond.content_conditions[j];
                    proof {
                        assert(*node == c.content_conditions@[j as int]);
                        assert(c.content_conditions@[j as int].number < rs.conditions_count);
                    }
                    match &node.condition {
                        ContentCondition::NoMatch(rc) => {
                            let hit = cache.check_condition_plain_match(rc);
                            if hit {
                                disqualified = true;
                                proof {
                                    assert(fed1[fed0.len() as int] == line@);
                                    assert(spec_disq(c, fed1));
                                }
                            }
                        },
                        ContentCondition::Match(rc) => {
                            let number = node.number;
                            if node.is_reporting_target {
                                let hit = cache.check_condition_match(rc);
                                proof {
                                    // the target is the last node of a line-target condition
                                    assert(c.has_reporting_target && j == m - 1);
                                    assert(target_regexes(c) == *rc);
                                }
                                if hit {
                                    self.local_status.set(number, true);
                                    let row = &mut self.matched_lines[r_idx];
                                    row.push(idx);
                                    proof {
                                        assert(fed1.drop_last() =~= fed0);
                                        assert(line_matches(*rc, fed1.last()));
                                        assert(self.matched_lines@[r_idx as int]@
                                            == matching_line_numbers(target_regexes(c), fed1));
                                        assert(fed1[fed0.len() as int] == line@);
                                    }
                                } else {
                                    proof {
                                        assert(fed1.drop_last() =~= fed0);
                                        assert(!line_matches(*rc, fed1.last()));
                                        assert(self.matched_lines@[r_idx as int]@
                                            == matching_line_numbers(target_regexes(c), fed1));
                                        assert forall|l: int|
                                            0 <= l < fed1.len() && line_matches(
                                                *rc,
                                                #[trigger] fed1[l],
                                            ) implies 0 <= l < fed0.len() && line_matches(
                                            *rc,
                                            fed1[l],
                                        ) by {
                                            if l == fed0.len() {
                                                assert(fed1[l] == line@);
                                            } else {
                                                assert(fed1[l] == fed0[l]);
                                            }
                                        }
                                    }
                                }
                            } else {
                                if !self.local_status[number] {
                                    let hit = cache.check_condition_match(rc);
                                    if hit {
                                        self.local_status.set(number, true);
                                        proof {
                                            assert(fed1[fed0.len() as int] == line@);
                                        }
                                    } else {
                                        proof {
                                            assert forall|l: int|
                                                0 <= l < fed1.len() && line_matches(
                                                    *rc,
                                                    #[trigger] fed1[l],
                                                ) implies false by {
                                                if l == fed0.len() {
                                                    assert(fed1[l] == line@);
                                                } else {
                                                    assert(fed1[l] == fed0[l]);
                                                    assert(ls0[number as int] == false);
                                                }
                                            }
                                        }
                                    }
                                } else {
                                    proof {
                                        let l = choose|l: int|
                                            0 <= l < fed0.len() && line_matches(
                                                *rc,
                                                #[trigger] fed0[l],
                                            );
                                        assert(fed1[l] == fed0[l]);
                                    }
                                }
                                if self.local_status[number] {
                                    satisfied = satisfied + 1;
                                }
                            }
                        },
                        ContentCondition::Lines(sc) => {
                            if sc.check_for_this_and_above(idx) {
                                satisfied = satisfied + 1;
                            }
                            proof {
                                assert((fed1.len() - 1) as u64 == idx);
                            }
                        },
                        ContentCondition::Size(_) => {
                            satisfied = satisfied + 1;
                        },
                    }
                    j = j + 1;
                }
                proof {
                    if !disqualified {
                        assert(j == m);
                        assert(!spec_disq(c, fed1)) by {
                            if spec_disq(c, fed1) {
                                let (jj, l) = choose|jj: int, l: int|
                                    0 <= jj < c.content_conditions@.len() && 0 <= l < fed1.len()
                                        && (#[trigger] c.content_conditions@[jj]).condition
                                        is NoMatch && nomatch_hits(
                                        c.content_conditions@[jj].condition->NoMatch_0,
                                        #[trigger] fed1[l],
                                    );
                                if l < fed0.len() {
                                    assert(fed0[l] == fed1[l]);
                                    assert(spec_disq(c, fed0));
                                } else {
                                    assert(fed1[l] == line@);
                                }
                            }
                        }
                    }
                }
                if disqualified {
                    self.disq.set(pi, true);
                } else if satisfied == m {
                    self.done.set(pi, true);
                    proof {
                        assert(fed1.len() > 0);
                        assert(spec_done(c, fed1));
                    }
                } else {
                    proof {
                        assert(!spec_done(c, fed1)) by {
                            if spec_done(c, fed1) {
                                assert(satisfied == j);
                            }
                        }
                    }
                }
                proof {
                    let ls1 = self.local_status@;
                    let ml1 = self.matched_lines@;
                    assert(pair_state_ok(
                        *rs,
                        self.pairs@[pi as int],
                        self.alive@[pi as int],
                        self.disq@[pi as int],
                        self.done@[pi as int],
                        ls1,
                        ml1[self.pairs@[pi as int].0 as int]@,
                        fed1,
                    ));
                    assert forall|q: int| 0 <= q < n && q != pi as int implies pair_state_ok(
                        *rs,
                        #[trigger] self.pairs@[q],
                        self.alive@[q],
                        self.disq@[q],
                        self.done@[q],
                        ls1,
                        ml1[self.pairs@[q].0 as int]@,
                        if q < pi as int {
                            fed1
                        } else {
                            fed0
                        },
                    ) by {
                        let pq = self.pairs@[q];
                        let cq = pair_cond(*rs, pq);
                        let fedx = if q < pi as int {
                            fed1
                        } else {
                            fed0
                        };
                        assert(pair_state_ok(*rs, pq, self.alive@[q], self.disq@[q],
                            self.done@[q], ls0, ml0[pq.0 as int]@, fedx));
                        assert forall|jj: int| 0 <= jj < cq.content_conditions@.len() implies ls1[(
                        #[trigger] cq.content_conditions@[jj]).number as int]
                            == ls0[cq.content_conditions@[jj].number as int] by {
                            assert forall|j2: int|
                                0 <= j2 < c.content_conditions@.len() implies (
                            #[trigger] c.content_conditions@[j2]).number
                                != cq.content_conditions@[jj].number by {
                                lemma_content_number_unique(*rs, pq.0 as int, pq.1 as int, jj,
                                    p.0 as int, p.1 as int, j2);
                            }
                            assert(crate::ruleset::compile::cond_numbers_in(
                                cq,
                                0,
                                rs.conditions_count as int,
                            ));
                        }
                        if pq.0 != p.0 {
                            assert(ml1[pq.0 as int] == ml0[pq.0 as int]);
                        } else {
                            if self.alive@[q] && !self.disq@[q] && cq.has_reporting_target
                                && cq.content_conditions@.len() > 0 {
                                if c.has_reporting_target {
                                    lemma_rule_flags_target_facts(*rs, p);
                                    lemma_rule_flags_target_facts(*rs, pq);
                                    assert(p.1 == pq.1);
                                    assert(false);
                                }
                                assert(ml1[pq.0 as int] == ml0[pq.0 as int]);
                            }
                        }
                    }
                }
            }
            pi = pi + 1;
        }
        self.lines_seen = idx + 1;
        proof {
            self.fed@ = fed1;
        }
    }
}

/// What one file's content pass decided: for each worklist pair, whether
/// the file satisfies all its content conditions, and for the reporting
/// target, which lines matched.
pub struct ScanOutcome {
    pub pairs: Vec<(usize, usize)>,
    pub qualified: Vec<bool>,
    pub matched_lines: Vec<Vec<u64>>,
}

impl<'a> FileScan<'a> {
    /// Ends the scan at end of file (or once nothing is pending): resolves
    /// deferred line-count thresholds against the final count and reports
    /// which pairs qualified.
    pub fn finish(self) -> (r: ScanOutcome)
        requires
            self.wf(),
        ensures
            r.pairs@ == self.spec_pairs(),
            r.qualified@.len() == r.pairs@.len(),
            r.matched_lines@.len() == self.spec_rs().rules@.len(),
            forall|pi: int|
                0 <= pi < r.pairs@.len() ==> r.qualified@[pi] == (self.spec_alive()[pi]
                    && content_lines_ok(
                    pair_cond(self.spec_rs(), #[trigger] r.pairs@[pi]),
                    self.spec_fed(),
                )),
            forall|pi: int|
                0 <= pi < r.pairs@.len() && r.qualified@[pi] && (pair_cond(
                    self.spec_rs(),
                    #[trigger] r.pairs@[pi],
                )).has_reporting_target && pair_cond(
                    self.spec_rs(),
                    r.pairs@[pi],
                ).content_conditions@.len() > 0 ==> r.matched_lines@[r.pairs@[pi].0 as int]@
                    == matching_line_numbers(
                    target_regexes(pair_cond(self.spec_rs(), r.pairs@[pi])),
                    self.spec_fed(),
                ),
    {
        let ghost s0 = self;
        let FileScan { rs, pairs, alive, disq, done, local_status, matched_lines, lines_seen, fed }
            = self;
        let n = pairs.len();
        let mut qualified: Vec<bool> = Vec::new();
        let mut pi: usize = 0;
        while pi < n
            invariant
                rs.wf(),
                rs == s0.rs,
                pairs@ == s0.pairs@,
                alive@ == s0.alive@,
                disq@ == s0.disq@,
                done@ == s0.done@,
                local_status@ == s0.local_status@,
                matched_lines@ == s0.matched_lines@,
                lines_seen == s0.lines_seen,
                fed@ == s0.fed@,
                s0.wf(),
                n == pairs@.len(),
                pi <= n,
                qualified@.len() == pi,
                forall|q: int|
                    0 <= q < pi ==> qualified@[q] == (alive@[q] && content_lines_ok(
                        pair_cond(*rs, #[trigger] pairs@[q]),
                        fed@,
                    )),
            decreases n - pi,
        {
            let p = pairs[pi];
            let ghost c = pair_cond(*rs, p);
            proof {
                assert(pair_valid(*rs, p));
                assert(pair_state_ok(*rs, p, s0.alive@[pi as int], s0.disq@[pi as int],
                    s0.done@[pi as int], s0.local_status@, s0.matched_lines@[p.0 as int]@,
                    s0.fed@));
            }
            let cond = &rs.rules[p.0].path_conditions[p.1];
            proof {
                assert(*cond == c);
            }
            let mut ok = alive[pi] && !disq[pi];
            if ok {
                let m = cond.content_conditions.len();
                let mut j: usize = 0;
                while j < m
                    invariant
                        rs.wf(),
                        rs == s0.rs,
                        *cond == c,
                        alive@ == s0.alive@,
                        disq@ == s0.disq@,
                        done@ == s0.done@,
                        local_status@ == s0.local_status@,
                        fed@ == s0.fed@,
                        lines_seen == s0.lines_seen,
                        pair_valid(*rs, p),
                        c == pair_cond(*rs, p),
                        pi < pairs@.len(),
                        pairs@ == s0.pairs@,
                        p == pairs@[pi as int],
                        s0.wf(),
                        alive@[pi as int],
                        !disq@[pi as int],
                        m == c.content_conditions@.len(),
                        j <= m,
                        ok == forall|jj: int|
                            0 <= jj < j ==> node_lines_ok(
                                #[trigger] c.content_conditions@[jj],
                                fed@,
                            ),
                    decreases m - j,
                {
                    let node = &cond.content_conditions[j];
                    proof {
                        assert(*node == c.content_conditions@[j as int]);
                        assert(s0.pairs@[pi as int] == p);
                        assert(pair_state_ok(*rs, s0.pairs@[pi as int], s0.alive@[pi as int],
                            s0.disq@[pi as int], s0.done@[pi as int], s0.local_status@,
                            s0.matched_lines@[s0.pairs@[pi as int].0 as int]@, s0.fed@));
                        assert(!spec_disq(c, fed@));
                    }
                    match &node.condition {
                        ContentCondition::Match(_) => {
                            let number = node.number;
                            proof {
                                assert(crate::ruleset::compile::rule_numbers_in(
                                    rs.rules@[p.0 as int],
                                    0,
                                    rs.conditions_count as int,
                                ));
                                assert(crate::ruleset::compile::cond_numbers_in(
                                    c,
                                    0,
                                    rs.conditions_count as int,
                                ));
                            }
                            if !local_status[number] {
                                ok = false;
                            }
                        },
                        ContentCondition::NoMatch(rc) => {
                            proof {
                                assert forall|l: int|
                                    0 <= l < fed@.len() implies !nomatch_hits(
                                    c.content_conditions@[j as int].condition->NoMatch_0,
                                    #[trigger] fed@[l],
                                ) by {
                                    if nomatch_hits(
                                        c.content_conditions@[j as int].condition->NoMatch_0,
                                        fed@[l],
                                    ) {
                                        assert(spec_disq(c, fed@));
                                    }
                                }
                            }
                        },
                        ContentCondition::Lines(sc) => {
                            if done[pi] {
                                proof {
                                    assert(spec_done(c, fed@));
                                    assert(node_now(c.content_conditions@[j as int], fed@));
                                    crate::ruleset::lemma_check_above_settles(
                                        sc.operator,
                                        sc.value,
                                        (fed@.len() - 1) as u64,
                                        lines_seen,
                                    );
                                }
                            } else {
                                if !sc.check(lines_seen) {
                                    ok = false;
                                }
                            }
                        },
                        ContentCondition::Size(_) => {},
                    }
                    j = j + 1;
                }
                proof {
                    if ok {
                        assert(content_lines_ok(c, fed@));
                    }
                }
            } else {
                proof {
                    if alive@[pi as int] {
                        assert(disq@[pi as int]);
                        assert(spec_disq(c, fed@));
                        let (jx, lx) = choose|jx: int, lx: int|
                            0 <= jx < c.content_conditions@.len() && 0 <= lx < fed@.len() && (
                            #[trigger] c.content_conditions@[jx]).condition is NoMatch
                                && nomatch_hits(
                                c.content_conditions@[jx].condition->NoMatch_0,
                                #[trigger] fed@[lx],
                            );
                        assert(!node_lines_ok(c.content_conditions@[jx], fed@));
                        assert(!content_lines_ok(c, fed@));
                    }
                }
            }
            qualified.push(ok);
            pi = pi + 1;
        }
        proof {
            assert forall|q: int|
                0 <= q < pairs@.len() && qualified@[q] && (pair_cond(
                    *rs,
                    #[trigger] pairs@[q],
                )).has_reporting_target && pair_cond(*rs, pairs@[q]).content_conditions@.len()
                > 0 implies matched_lines@[pairs@[q].0 as int]@ == matching_line_numbers(
                target_regexes(pair_cond(*rs, pairs@[q])),
                fed@,
            ) by {
                assert(pair_state_ok(*rs, pairs@[q], s0.alive@[q], s0.disq@[q], s0.done@[q],
                    s0.local_status@, s0.matched_lines@[pairs@[q].0 as int]@, s0.fed@));
                assert(!content_lines_ok(pair_cond(*rs, pairs@[q]), fed@) || !spec_disq(
                    pair_cond(*rs, pairs@[q]),
                    fed@,
                )) by {
                    let c = pair_cond(*rs, pairs@[q]);
                    if spec_disq(c, fed@) {
                        let (jx, lx) = choose|jx: int, lx: int|
                            0 <= jx < c.content_conditions@.len() && 0 <= lx < fed@.len() && (
                            #[trigger] c.content_conditions@[jx]).condition is NoMatch
                                && nomatch_hits(
                                c.content_conditions@[jx].condition->NoMatch_0,
                                #[trigger] fed@[lx],
                            );
                        assert(!node_lines_ok(c.content_conditions@[jx], fed@));
                    }
                }
            }
        }
        ScanOutcome { pairs, qualified, matched_lines }
    }
}

/// Which worklist pairs pass their `size` conditions for a file of the
/// given size, from metadata alone: a file whose every pair fails here is
/// never opened.
pub fn metadata_pass(rs: &CompiledRuleset, pairs: &Vec<(usize, usize)>, size: u64) -> (alive: Vec<
    bool,
>)
    requires
        rs.wf(),
        forall|pi: int| 0 <= pi < pairs@.len() ==> pair_valid(*rs, #[trigger] pairs@[pi]),
    ensures
        alive@.len() == pairs@.len(),
        forall|pi: int|
            0 <= pi < pairs@.len() ==> alive@[pi] == content_size_ok(
                pair_cond(*rs, #[trigger] pairs@[pi]),
                size,
            ),
{
    let n = pairs.len();
    let mut alive: Vec<bool> = Vec::new();
    let mut pi: usize = 0;
    while pi < n
        invariant
            rs.wf(),
            n == pairs@.len(),
            pi <= n,
            alive@.len() == pi,
            forall|q: int| 0 <= q < n ==> pair_valid(*rs, #[trigger] pairs@[q]),
            forall|q: int|
                0 <= q < pi ==> alive@[q] == content_size_ok(
                    pair_cond(*rs, #[trigger] pairs@[q]),
                    size,
                ),
        decreases n - pi,
    {
        let p = pairs[pi];
        let ghost c = pair_cond(*rs, p);
        let cond = &rs.rules[p.0].path_conditions[p.1];
        proof {
            assert(*cond == c);
        }
        let m = cond.content_conditions.len();
        let mut ok = true;
        let mut j: usize = 0;
        while j < m
            invariant
                *cond == c,
                m == c.content_conditions@.len(),
                j <= m,
                ok == forall|jj: int|
                    0 <= jj < j ==> ((#[trigger] c.content_conditions@[jj]).condition is Size
                        ==> size_check(
                        c.content_conditions@[jj].condition->Size_0.operator,
                        c.content_conditions@[jj].condition->Size_0.value,
                        size,
                    )),
            decreases m - j,
        {
            let node = &cond.content_conditions[j];
            proof {
                assert(*node == c.content_conditions@[j as int]);
            }
            match &node.condition {
                ContentCondition::Size(sc) => {
                    if !sc.check(size) {
                        ok = false;
                    }
                },
                _ => {},
            }
            j = j + 1;
        }
        alive.push(ok);
        pi = pi + 1;
    }
    alive
}

/// Runs the whole content pass for one file of an in-memory listing:
/// metadata first, then the line scan.
pub fn scan_file(rs: &CompiledRuleset, pairs: Vec<(usize, usize)>, file: &FileContent) -> (r:
    ScanOutcome)
    requires
        rs.wf(),
        forall|pi: int| 0 <= pi < pairs@.len() ==> pair_valid(*rs, #[trigger] pairs@[pi]),
        forall|p1: int, p2: int| 0 <= p1 < p2 < pairs@.len() ==> pairs@[p1] != pairs@[p2],
    ensures
        r.pairs@ == pairs@,
        r.qualified@.len() == pairs@.len(),
        r.matched_lines@.len() == rs.rules@.len(),
        forall|pi: int|
            0 <= pi < pairs@.len() ==> r.qualified@[pi] == content_ok(
                pair_cond(*rs, #[trigger] pairs@[pi]),
                file.size,
                lines_view(file.lines@),
            ),
        forall|pi: int|
            0 <= pi < pairs@.len() && r.qualified@[pi] && (pair_cond(
                *rs,
                #[trigger] pairs@[pi],
            )).has_reporting_target && pair_cond(*rs, pairs@[pi]).content_conditions@.len() > 0
                ==> r.matched_lines@[pairs@[pi].0 as int]@ == matching_line_numbers(
                target_regexes(pair_cond(*rs, pairs@[pi])),
                lines_view(file.lines@),
            ),
{
    let alive = metadata_pass(rs, &pairs, file.size);
    let ghost pairs0 = pairs@;
    let ghost alive0 = alive@;
    let mut scan = FileScan::new(rs, pairs, alive);
    let nl = file.lines.len();
    let mut li: usize = 0;
    proof {
        assert(scan.spec_fed() =~= lines_view(file.lines@.subrange(0, 0)));
    }
    while li < nl
        invariant
            rs.wf(),
            scan.wf(),
            scan.spec_rs() == *rs,
            scan.spec_pairs() == pairs0,
            scan.spec_alive() == alive0,
            nl == file.lines@.len(),
            li <= nl,
            scan.spec_fed() == lines_view(file.lines@.subrange(0, li as int)),
        decreases nl - li,
    {
        proof {
            assert(scan.spec_fed().len() == li < u64::MAX);
        }
        scan.feed_line(&file.lines[li]);
        proof {
            assert(lines_view(file.lines@.subrange(0, li + 1)) =~= lines_view(
                file.lines@.subrange(0, li as int),
            ).push(file.lines@[li as int]@));
        }
        li = li + 1;
    }
    proof {
        assert(file.lines@.subrange(0, file.lines@.len() as int) =~= file.lines@);
    }
    let r = scan.finish();
    proof {
        assert forall|pi: int| 0 <= pi < pairs0.len() implies r.qualified@[pi] == content_ok(
            pair_cond(*rs, #[trigger] pairs0[pi]),
            file.size,
            lines_view(file.lines@),
        ) by {
            lemma_content_ok_split(
                pair_cond(*rs, pairs0[pi]),
                file.size,
                lines_view(file.lines@),
            );
        }
    }
    r
}

/// The ascending indices of the files whose path a condition accepts.
pub open spec fn cond_path_hits(c: GlobCondition, files: Seq<FileContent>) -> Seq<usize>
    decreases files.len(),
{
    if files.len() == 0 {
        Seq::empty()
    } else if glob_cond_hit(c, files.last().path@) {
        cond_path_hits(c, files.drop_last()).push((files.len() - 1) as usize)
    } else {
        cond_path_hits(c, files.drop_last())
    }
}

/// The ascending indices of the files a condition accepts in full, path
/// and content.
pub open spec fn cond_full_hits(c: GlobCondition, files: Seq<FileContent>) -> Seq<usize>
    decreases files.len(),
{
    if files.len() == 0 {
        Seq::empty()
    } else if cond_accepts_file(c, files.last()) {
        cond_full_hits(c, files.drop_last()).push((files.len() - 1) as usize)
    } else {
        cond_full_hits(c, files.drop_last())
    }
}

/// The (file index, line) locations a line-target rule reports, in
/// canonical order.
pub open spec fn line_locs(
    tc: GlobCondition,
    rc: RegexCondition,
    files: Seq<FileContent>,
) -> Seq<(usize, u64)>
    decreases files.len(),
{
    if files.len() == 0 {
        Seq::empty()
    } else {
        line_locs(tc, rc, files.drop_last()) + if cond_accepts_file(tc, files.last()) {
            matching_line_numbers(rc, lines_view(files.last().lines@)).map_values(
                |l: u64| (((files.len() - 1) as usize, l)),
            )
        } else {
            Seq::empty()
        }
    }
}

/// The worklist pairs one file generates from the first `upto` rules: for
/// each rule in order, its positive content-bearing conditions whose
/// globs accept the file.
pub open spec fn bucket_of_rules(rules: Seq<Rule>, upto: int, f: FileContent) -> Seq<
    (usize, usize),
>
    decreases upto,
{
    if upto <= 0 {
        Seq::empty()
    } else {
        bucket_of_rules(rules, upto - 1, f) + conds_bucket(
            rules[upto - 1].path_conditions@,
            upto - 1,
            f,
        )
    }
}

/// The worklist pairs of one rule for one file, in condition order.
pub open spec fn conds_bucket(pc: Seq<GlobCondition>, r: int, f: FileContent) -> Seq<
    (usize, usize),
>
    decreases pc.len(),
{
    if pc.len() == 0 {
        Seq::empty()
    } else {
        conds_bucket(pc.drop_last(), r, f) + if pc.last().logic is Positive && pc.last(
        ).content_conditions@.len() > 0 && glob_cond_hit(pc.last(), f.path@) {
            seq![((r as usize, (pc.len() - 1) as usize))]
        } else {
            Seq::empty()
        }
    }
}

/// Every pair of a file's bucket is a valid, positive, content-bearing
/// condition that accepts the file's path, with pairs strictly ascending.
pub proof fn lemma_conds_bucket_props(pc: Seq<GlobCondition>, r: int, f: FileContent)
    requires
        0 <= r <= usize::MAX,
        pc.len() <= usize::MAX,
    ensures
        forall|x: int|
            0 <= x < conds_bucket(pc, r, f).len() ==> {
                let p = #[trigger] conds_bucket(pc, r, f)[x];
                p.0 == r && p.1 < pc.len() && pc[p.1 as int].logic is Positive
                    && pc[p.1 as int].content_conditions@.len() > 0 && glob_cond_hit(
                    pc[p.1 as int],
                    f.path@,
                )
            },
        forall|x1: int, x2: int|
            0 <= x1 < x2 < conds_bucket(pc, r, f).len() ==> conds_bucket(pc, r, f)[x1].1
                < conds_bucket(pc, r, f)[x2].1,
        forall|k: int|
            0 <= k < pc.len() && (#[trigger] pc[k]).logic is Positive
                && pc[k].content_conditions@.len() > 0 && glob_cond_hit(pc[k], f.path@)
                ==> exists|x: int|
                0 <= x < conds_bucket(pc, r, f).len() && #[trigger] conds_bucket(pc, r, f)[x]
                    == (r as usize, k as usize),
    decreases pc.len(),
{
    if pc.len() > 0 {
        lemma_conds_bucket_props(pc.drop_last(), r, f);
        assert forall|k: int| 0 <= k < pc.drop_last().len() implies pc.drop_last()[k] == pc[k] by {}
        let cb = conds_bucket(pc, r, f);
        let cb0 = conds_bucket(pc.drop_last(), r, f);
        assert forall|x: int| 0 <= x < cb.len() implies {
            let p = #[trigger] cb[x];
            p.0 == r && p.1 < pc.len() && pc[p.1 as int].logic is Positive
                && pc[p.1 as int].content_conditions@.len() > 0 && glob_cond_hit(
                pc[p.1 as int],
                f.path@,
            )
        } by {
            if x < cb0.len() {
                assert(cb[x] == cb0[x]);
                assert(cb0[x].1 < pc.drop_last().len());
            } else {
                assert(cb[x] == (r as usize, (pc.len() - 1) as usize));
            }
        }
        assert forall|x1: int, x2: int| 0 <= x1 < x2 < cb.len() implies cb[x1].1 < cb[x2].1 by {
            if x2 < cb0.len() {
                assert(cb[x1] == cb0[x1]);
                assert(cb[x2] == cb0[x2]);
            } else {
                assert(cb[x2] == (r as usize, (pc.len() - 1) as usize));
                assert(cb[x1] == cb0[x1]);
                assert(cb0[x1].1 < pc.drop_last().len());
            }
        }
        assert forall|k: int|
            0 <= k < pc.len() && (#[trigger] pc[k]).logic is Positive
                && pc[k].content_conditions@.len() > 0 && glob_cond_hit(pc[k], f.path@) implies exists|
        x: int|
            0 <= x < conds_bucket(pc, r, f).len() && #[trigger] conds_bucket(pc, r, f)[x] == (
            r as usize,
            k as usize,
        ) by {
            if k == pc.len() - 1 {
                let x = conds_bucket(pc, r, f).len() - 1;
                assert(conds_bucket(pc, r, f)[x] == (r as usize, k as usize));
            } else {
                let x = choose|x: int|
                    0 <= x < conds_bucket(pc.drop_last(), r, f).len() && #[trigger] conds_bucket(
                        pc.drop_last(),
                        r,
                        f,
                    )[x] == (r as usize, k as usize);
                assert(conds_bucket(pc, r, f)[x] == (r as usize, k as usize));
            }
        }
    }
}

/// Bucket pairs of the whole rule list: valid, strictly ascending by
/// (rule, condition), and complete.
pub proof fn lemma_bucket_props(rules: Seq<Rule>, upto: int, f: FileContent)
    requires
        0 <= upto <= rules.len(),
        rules.len() <= usize::MAX,
        forall|r: int| 0 <= r < rules.len() ==> (#[trigger] rules[r]).path_conditions@.len()
            <= usize::MAX,
    ensures
        forall|x: int|
            0 <= x < bucket_of_rules(rules, upto, f).len() ==> {
                let p = #[trigger] bucket_of_rules(rules, upto, f)[x];
                p.0 < upto && p.1 < rules[p.0 as int].path_conditions@.len()
                    && rules[p.0 as int].path_conditions@[p.1 as int].logic is Positive
                    && rules[p.0 as int].path_conditions@[p.1 as int].content_conditions@.len() > 0
                    && glob_cond_hit(rules[p.0 as int].path_conditions@[p.1 as int], f.path@)
            },
        forall|x1: int, x2: int|
            0 <= x1 < x2 < bucket_of_rules(rules, upto, f).len() ==> (bucket_of_rules(
                rules,
                upto,
                f,
            )[x1].0, bucket_of_rules(rules, upto, f)[x1].1) != (bucket_of_rules(
                rules,
                upto,
                f,
            )[x2].0, bucket_of_rules(rules, upto, f)[x2].1),
        forall|r: int, k: int|
            0 <= r < upto && 0 <= k < rules[r].path_conditions@.len()
                && (#[trigger] rules[r].path_conditions@[k]).logic is Positive
                && rules[r].path_conditions@[k].content_conditions@.len() > 0 && glob_cond_hit(
                rules[r].path_conditions@[k],
                f.path@,
            ) ==> exists|x: int|
                0 <= x < bucket_of_rules(rules, upto, f).len() && #[trigger] bucket_of_rules(
                    rules,
                    upto,
                    f,
                )[x] == (r as usize, k as usize),
    decreases upto,
{
    if upto > 0 {
        lemma_bucket_props(rules, upto - 1, f);
        lemma_conds_bucket_props(rules[upto - 1].path_conditions@, upto - 1, f);
        let b = bucket_of_rules(rules, upto, f);
        let b0 = bucket_of_rules(rules, upto - 1, f);
        let cb = conds_bucket(rules[upto - 1].path_conditions@, upto - 1, f);
        assert forall|x1: int, x2: int| 0 <= x1 < x2 < b.len() implies (b[x1].0, b[x1].1) != (
        b[x2].0,
        b[x2].1,
        ) by {
            if x2 < b0.len() {
            } else if x1 >= b0.len() {
                assert(b[x1] == cb[x1 - b0.len()]);
                assert(b[x2] == cb[x2 - b0.len()]);
            } else {
                assert(b[x1] == b0[x1]);
                assert(b[x2] == cb[x2 - b0.len()]);
                assert(b0[x1].0 < upto - 1);
                assert(cb[x2 - b0.len()].0 == upto - 1);
            }
        }
        assert forall|r: int, k: int|
            0 <= r < upto && 0 <= k < rules[r].path_conditions@.len()
                && (#[trigger] rules[r].path_conditions@[k]).logic is Positive
                && rules[r].path_conditions@[k].content_conditions@.len() > 0 && glob_cond_hit(
                rules[r].path_conditions@[k],
                f.path@,
            ) implies exists|x: int|
            0 <= x < b.len() && #[trigger] b[x] == (r as usize, k as usize) by {
            if r < upto - 1 {
                let x = choose|x: int|
                    0 <= x < b0.len() && #[trigger] b0[x] == (r as usize, k as usize);
                assert(b[x] == (r as usize, k as usize));
            } else {
                let x = choose|x: int|
                    0 <= x < cb.len() && #[trigger] cb[x] == (r as usize, k as usize);
                assert(b[b0.len() + x] == (r as usize, k as usize));
            }
        }
    }
}

/// What one sorted walk of the listing decides: eliminated rules, the
/// satisfaction vector of the content-free positive conditions, the
/// file-level matches of content-free reporting targets, and the per-file
/// content worklist.
pub struct PathPhase {
    pub eliminated: Vec<bool>,
    pub satisfied: Vec<bool>,
    pub matched_files: Vec<Vec<usize>>,
    pub buckets: Vec<Vec<(usize, usize)>>,
}

/// Walks the listing once and evaluates every rule's path conditions
/// against every file, sharing glob results per file through the cache.
#[verifier::rlimit(100)]
pub fn path_match_phase(rs: &CompiledRuleset, files: &Vec<FileContent>) -> (r: PathPhase)
    requires
        rs.wf(),
    ensures
        r.eliminated@.len() == rs.rules@.len(),
        r.satisfied@.len() == rs.conditions_count,
        r.matched_files@.len() == rs.rules@.len(),
        r.buckets@.len() == files@.len(),
        forall|i: int|
            0 <= i < rs.rules@.len() ==> r.eliminated@[i] == rule_eliminated(
                #[trigger] rs.rules@[i],
                files@,
            ),
        forall|i: int, k: int|
            0 <= i < rs.rules@.len() && 0 <= k < rs.rules@[i].path_conditions@.len() && (
            #[trigger] rs.rules@[i].path_conditions@[k]).logic is Positive
                && rs.rules@[i].path_conditions@[k].content_conditions@.len() == 0
                ==> r.satisfied@[rs.rules@[i].path_conditions@[k].number as int] == exists|j: int|
                0 <= j < files@.len() && glob_cond_hit(
                    rs.rules@[i].path_conditions@[k],
                    (#[trigger] files@[j]).path@,
                ),
        forall|i: int, k: int|
            0 <= i < rs.rules@.len() && 0 <= k < rs.rules@[i].path_conditions@.len() && !((
            #[trigger] rs.rules@[i].path_conditions@[k]).logic is Positive
                && rs.rules@[i].path_conditions@[k].content_conditions@.len() == 0)
                ==> r.satisfied@[rs.rules@[i].path_conditions@[k].number as int] == false,
        forall|i: int, k: int|
            0 <= i < rs.rules@.len() && 0 <= k < rs.rules@[i].path_conditions@.len() && (
            #[trigger] rs.rules@[i].path_conditions@[k]).is_reporting_target
                && rs.rules@[i].path_conditions@[k].content_conditions@.len() == 0
                ==> r.matched_files@[i]@ == cond_path_hits(
                rs.rules@[i].path_conditions@[k],
                files@,
            ),
        forall|fi: int|
            0 <= fi < files@.len() ==> (#[trigger] r.buckets@[fi])@ == bucket_of_rules(
                rs.rules@,
                rs.rules@.len() as int,
                files@[fi],
            ),
{
    let nr = rs.rules.len();
    let nf = files.len();
    let mut eliminated: Vec<bool> = Vec::new();
    let mut i0: usize = 0;
    while i0 < nr
        invariant
            i0 <= nr,
            eliminated@.len() == i0,
            forall|i: int| 0 <= i < i0 ==> !(#[trigger] eliminated@[i]),
        decreases nr - i0,
    {
        eliminated.push(false);
        i0 = i0 + 1;
    }
    let cc = rs.conditions_count;
    let mut satisfied: Vec<bool> = Vec::new();
    let mut i1: usize = 0;
    while i1 < cc
        invariant
            i1 <= cc,
            satisfied@.len() == i1,
            forall|i: int| 0 <= i < i1 ==> !(#[trigger] satisfied@[i]),
        decreases cc - i1,
    {
        satisfied.push(false);
        i1 = i1 + 1;
    }
    let mut matched_files: Vec<Vec<usize>> = Vec::new();
    let mut i2: usize = 0;
    while i2 < nr
        invariant
            i2 <= nr,
            matched_files@.len() == i2,
            forall|i: int| 0 <= i < i2 ==> (#[trigger] matched_files@[i])@.len() == 0,
        decreases nr - i2,
    {
        matched_files.push(Vec::new());
        i2 = i2 + 1;
    }
    let mut buckets: Vec<Vec<(usize, usize)>> = Vec::new();
    let mut fi: usize = 0;
    proof {
        assert(files@.subrange(0, 0) =~= Seq::<FileContent>::empty());
    }
    while fi < nf
        invariant
            rs.wf(),
            nr == rs.rules@.len(),
            nf == files@.len(),
            fi <= nf,
            eliminated@.len() == nr,
            satisfied@.len() == rs.conditions_count,
            matched_files@.len() == nr,
            buckets@.len() == fi,
            forall|i: int|
                0 <= i < nr ==> (#[trigger] eliminated@[i]) == rule_eliminated(
                    rs.rules@[i],
                    files@.subrange(0, fi as int),
                ),
            forall|i: int, k: int|
                0 <= i < nr && 0 <= k < rs.rules@[i].path_conditions@.len() && (
                #[trigger] rs.rules@[i].path_conditions@[k]).logic is Positive
                    && rs.rules@[i].path_conditions@[k].content_conditions@.len() == 0
                    ==> satisfied@[rs.rules@[i].path_conditions@[k].number as int] == exists|
                j: int|
                    0 <= j < fi && glob_cond_hit(
                        rs.rules@[i].path_conditions@[k],
                        (#[trigger] files@[j]).path@,
                    ),
            forall|i: int, k: int|
                0 <= i < nr && 0 <= k < rs.rules@[i].path_conditions@.len() && !((
                #[trigger] rs.rules@[i].path_conditions@[k]).logic is Positive
                    && rs.rules@[i].path_conditions@[k].content_conditions@.len() == 0)
                    ==> satisfied@[rs.rules@[i].path_conditions@[k].number as int] == false,
            forall|i: int, k: int|
                0 <= i < nr && 0 <= k < rs.rules@[i].path_conditions@.len() && (
                #[trigger] rs.rules@[i].path_conditions@[k]).is_reporting_target
                    && rs.rules@[i].path_conditions@[k].content_conditions@.len() == 0
                    ==> matched_files@[i]@ == cond_path_hits(
                    rs.rules@[i].path_conditions@[k],
                    files@.subrange(0, fi as int),
                ),
            forall|fj: int|
                0 <= fj < fi ==> (#[trigger] buckets@[fj])@ == bucket_of_rules(
                    rs.rules@,
                    nr as int,
                    files@[fj],
                ),
        decreases nf - fi,
    {
        let file = &files[fi];
        let mut cache = GlobMatchingCache::new(
            file.path.as_str(),
            rs.globs_count,
            Ghost(rs.glob_keys@),
        );
        let mut bucket: Vec<(usize, usize)> = Vec::new();
        let ghost sat_in = satisfied@;
        let ghost elim_in = eliminated@;
        let ghost mf_in = matched_files@;
        let mut ri: usize = 0;
        while ri < nr
            invariant
                rs.wf(),
                nr == rs.rules@.len(),
                nf == files@.len(),
                fi < nf,
                ri <= nr,
                *file == files@[fi as int],
                cache.wf(),
                cache.spec_path() == files@[fi as int].path@,
                cache.spec_keys() == rs.glob_keys@,
                eliminated@.len() == nr,
                satisfied@.len() == rs.conditions_count,
                matched_files@.len() == nr,
                sat_in.len() == rs.conditions_count,
                elim_in.len() == nr,
                mf_in.len() == nr,
                // prior-file meaning of the incoming state
                forall|i: int|
                    0 <= i < nr ==> (#[trigger] elim_in[i]) == rule_eliminated(
                        rs.rules@[i],
                        files@.subrange(0, fi as int),
                    ),
                forall|i: int, k: int|
                    0 <= i < nr && 0 <= k < rs.rules@[i].path_conditions@.len() && (
                    #[trigger] rs.rules@[i].path_conditions@[k]).logic is Positive
                        && rs.rules@[i].path_conditions@[k].content_conditions@.len() == 0
                        ==> sat_in[rs.rules@[i].path_conditions@[k].number as int] == exists|
                    j: int|
                        0 <= j < fi && glob_cond_hit(
                            rs.rules@[i].path_conditions@[k],
                            (#[trigger] files@[j]).path@,
                        ),
                forall|i: int, k: int|
                    0 <= i < nr && 0 <= k < rs.rules@[i].path_conditions@.len() && !((
                    #[trigger] rs.rules@[i].path_conditions@[k]).logic is Positive
                        && rs.rules@[i].path_conditions@[k].content_conditions@.len() == 0)
                        ==> sat_in[rs.rules@[i].path_conditions@[k].number as int] == false,
                forall|i: int, k: int|
                    0 <= i < nr && 0 <= k < rs.rules@[i].path_conditions@.len() && (
                    #[trigger] rs.rules@[i].path_conditions@[k]).is_reporting_target
                        && rs.rules@[i].path_conditions@[k].content_conditions@.len() == 0
                        ==> mf_in[i]@ == cond_path_hits(
                        rs.rules@[i].path_conditions@[k],
                        files@.subrange(0, fi as int),
                    ),
                // rules before ri are updated through this file
                forall|i: int|
                    0 <= i < nr ==> (#[trigger] eliminated@[i]) == rule_eliminated(
                        rs.rules@[i],
                        files@.subrange(0, if i < ri as int { fi as int + 1 } else { fi as int }),
                    ),
                forall|i: int, k: int|
                    0 <= i < nr && 0 <= k < rs.rules@[i].path_conditions@.len() && (
                    #[trigger] rs.rules@[i].path_conditions@[k]).logic is Positive
                        && rs.rules@[i].path_conditions@[k].content_conditions@.len() == 0
                        ==> satisfied@[rs.rules@[i].path_conditions@[k].number as int] == exists|
                    j: int|
                        0 <= j < (if i < ri as int { fi as int + 1 } else { fi as int }) && glob_cond_hit(
                            rs.rules@[i].path_conditions@[k],
                            (#[trigger] files@[j]).path@,
                        ),
                forall|i: int, k: int|
                    0 <= i < nr && 0 <= k < rs.rules@[i].path_conditions@.len() && !((
                    #[trigger] rs.rules@[i].path_conditions@[k]).logic is Positive
                        && rs.rules@[i].path_conditions@[k].content_conditions@.len() == 0)
                        ==> satisfied@[rs.rules@[i].path_conditions@[k].number as int] == false,
                forall|i: int, k: int|
                    0 <= i < nr && 0 <= k < rs.rules@[i].path_conditions@.len() && (
                    #[trigger] rs.rules@[i].path_conditions@[k]).is_reporting_target
                        && rs.rules@[i].path_conditions@[k].content_conditions@.len() == 0
                        ==> matched_files@[i]@ == cond_path_hits(
                        rs.rules@[i].path_conditions@[k],
                        files@.subrange(0, if i < ri as int { fi as int + 1 } else { fi as int }),
                    ),
                bucket@ == bucket_of_rules(rs.rules@, ri as int, files@[fi as int]),
            decreases nr - ri,
        {
            let rule = &rs.rules[ri];
            let nk = rule.path_conditions.len();
            let ghost sat_r = satisfied@;
            let ghost elim_r = eliminated@;
            let ghost mf_r = matched_files@;
            let ghost bucket_r = bucket@;
            let mut k: usize = 0;
            let mut newly_eliminated: bool = false;
            while k < nk
                invariant
                    rs.wf(),
                    nr == rs.rules@.len(),
                    ri < nr,
                    fi < nf,
                    nf == files@.len(),
                    *rule == rs.rules@[ri as int],
                    nk == rule.path_conditions@.len(),
                    k <= nk,
                    *file == files@[fi as int],
                    cache.wf(),
                    cache.spec_path() == files@[fi as int].path@,
                    cache.spec_keys() == rs.glob_keys@,
                    eliminated@.len() == nr,
                    satisfied@.len() == rs.conditions_count,
                    matched_files@.len() == nr,
                    sat_r.len() == rs.conditions_count,
                    elim_r.len() == nr,
                    mf_r.len() == nr,
                    // frame: rows and slots of other rules untouched
                    forall|i: int| 0 <= i < nr && i != ri ==> eliminated@[i] == elim_r[i],
                    forall|i: int| 0 <= i < nr && i != ri ==> matched_files@[i] == mf_r[i],
                    forall|x: int|
                        0 <= x < sat_r.len() && (forall|kk: int|
                            0 <= kk < nk ==> (#[trigger] rule.path_conditions@[kk]).number != x)
                            ==> satisfied@[x] == sat_r[x],
                    // progress within this rule
                    eliminated@[ri as int] == (elim_r[ri as int] || exists|kk: int|
                        0 <= kk < k && (#[trigger] rule.path_conditions@[kk]).logic is Negative
                            && glob_cond_hit(
                            rule.path_conditions@[kk],
                            files@[fi as int].path@,
                        )),
                    forall|kk: int|
                        0 <= kk < nk && (#[trigger] rule.path_conditions@[kk]).logic is Positive
                            && rule.path_conditions@[kk].content_conditions@.len() == 0
                            ==> satisfied@[rule.path_conditions@[kk].number as int] == (sat_r[rule.path_conditions@[kk].number as int]
                            || (kk < k && glob_cond_hit(
                            rule.path_conditions@[kk],
                            files@[fi as int].path@,
                        ))),
                    forall|kk: int|
                        0 <= kk < nk && !((#[trigger] rule.path_conditions@[kk]).logic is Positive
                            && rule.path_conditions@[kk].content_conditions@.len() == 0)
                            ==> satisfied@[rule.path_conditions@[kk].number as int] == sat_r[rule.path_conditions@[kk].number as int],
                    forall|kk: int|
                        0 <= kk < nk && (#[trigger] rule.path_conditions@[kk]).is_reporting_target
                            && rule.path_conditions@[kk].content_conditions@.len() == 0
                            ==> matched_files@[ri as int]@ == (if kk < k && glob_cond_hit(
                            rule.path_conditions@[kk],
                            files@[fi as int].path@,
                        ) {
                            mf_r[ri as int]@.push(fi)
                        } else {
                            mf_r[ri as int]@
                        }),
                    (forall|kk: int|
                        0 <= kk < nk ==> !((#[trigger] rule.path_conditions@[kk])
                            .is_reporting_target
                            && rule.path_conditions@[kk].content_conditions@.len() == 0))
                        ==> matched_files@[ri as int] == mf_r[ri as int],
                    bucket@ == bucket_r + conds_bucket(
                        rule.path_conditions@.subrange(0, k as int),
                        ri as int,
                        files@[fi as int],
                    ),
                    bucket_r == bucket_of_rules(rs.rules@, ri as int, files@[fi as int]),
                decreases nk - k,
            {
                let cond = &rule.path_conditions[k];
                proof {
                    assert(*cond == rs.rules@[ri as int].path_conditions@[k as int]);
                    assert(crate::ruleset::compile::rule_patterns_wf(
                        rs.rules@[ri as int],
                        rs.glob_keys@,
                        rs.regex_keys@,
                    ));
                    assert(crate::ruleset::compile::rule_numbers_in(
                        rs.rules@[ri as int],
                        0,
                        rs.conditions_count as int,
                    ));
                    assert(crate::ruleset::compile::cond_numbers_in(
                        *cond,
                        0,
                        rs.conditions_count as int,
                    ));
                    assert(rule.path_conditions@.subrange(0, k + 1).drop_last()
                        =~= rule.path_conditions@.subrange(0, k as int));
                    assert(rule.path_conditions@.subrange(0, k + 1).last()
                        == rule.path_conditions@[k as int]);
                }
                match cond.logic {
                    ConditionLogic::Negative => {
                        let hit = cache.check_condition_match(cond);
                        if hit {
                            eliminated.set(ri, true);
                        }
                    },
                    ConditionLogic::Positive => {
                        if cond.content_conditions.len() > 0 {
                            let hit = cache.check_condition_match(cond);
                            if hit {
                                bucket.push((ri, k));
                            }
                        } else if cond.is_reporting_target {
                            let hit = cache.check_condition_match(cond);
                            if hit {
                                let number = cond.number;
                                satisfied.set(number, true);
                                let row = &mut matched_files[ri];
                                row.push(fi);
                            }
                        } else {
                            let number = cond.number;
                            if !satisfied[number] {
                                let hit = cache.check_condition_match(cond);
                                if hit {
                                    satisfied.set(number, true);
                                }
                            }
                        }
                    },
                }
                proof {
                    assert forall|k1: int, k2: int|
                        0 <= k1 < nk && 0 <= k2 < nk && k1 != k2 implies (
                    #[trigger] rule.path_conditions@[k1]).number
                        != (#[trigger] rule.path_conditions@[k2]).number by {
                        lemma_cond_numbers_unique(*rs, ri as int, k1, ri as int, k2);
                    }
                }
                k = k + 1;
            }
            proof {
                assert(rule.path_conditions@.subrange(0, nk as int) =~= rule.path_conditions@);
                // the rule's own reporting-target condition is unique
                assert forall|k1: int, k2: int|
                    0 <= k1 < nk && 0 <= k2 < nk && k1 != k2 implies (
                #[trigger] rule.path_conditions@[k1]).number
                    != (#[trigger] rule.path_conditions@[k2]).number by {
                    lemma_cond_numbers_unique(*rs, ri as int, k1, ri as int, k2);
                }
                // eliminated through this file
                assert(files@.subrange(0, fi + 1).drop_last() =~= files@.subrange(0, fi as int));
                assert(files@.subrange(0, fi + 1).last() == files@[fi as int]);
                assert(eliminated@[ri as int] == rule_eliminated(
                    rs.rules@[ri as int],
                    files@.subrange(0, fi + 1),
                )) by {
                    let pre = files@.subrange(0, fi as int);
                    let now = files@.subrange(0, fi + 1);
                    if eliminated@[ri as int] {
                        if elim_r[ri as int] {
                            let (kk, jj) = choose|kk: int, jj: int|
                                0 <= kk < rs.rules@[ri as int].path_conditions@.len() && 0 <= jj
                                    < pre.len() && (
                                #[trigger] rs.rules@[ri as int].path_conditions@[kk]).logic
                                    is Negative && glob_cond_hit(
                                    rs.rules@[ri as int].path_conditions@[kk],
                                    (#[trigger] pre[jj]).path@,
                                );
                            assert(now[jj] == pre[jj]);
                            assert(rule_eliminated(rs.rules@[ri as int], now));
                        } else {
                            let kk = choose|kk: int|
                                0 <= kk < k && (#[trigger] rule.path_conditions@[kk]).logic
                                    is Negative && glob_cond_hit(
                                    rule.path_conditions@[kk],
                                    files@[fi as int].path@,
                                );
                            assert(now[fi as int] == files@[fi as int]);
                            assert(rule_eliminated(rs.rules@[ri as int], now));
                        }
                    } else {
                        if rule_eliminated(rs.rules@[ri as int], now) {
                            let (kk, jj) = choose|kk: int, jj: int|
                                0 <= kk < rs.rules@[ri as int].path_conditions@.len() && 0 <= jj
                                    < now.len() && (
                                #[trigger] rs.rules@[ri as int].path_conditions@[kk]).logic
                                    is Negative && glob_cond_hit(
                                    rs.rules@[ri as int].path_conditions@[kk],
                                    (#[trigger] now[jj]).path@,
                                );
                            if jj < fi {
                                assert(pre[jj] == now[jj]);
                                assert(rule_eliminated(rs.rules@[ri as int], pre));
                            } else {
                                assert(now[jj] == files@[fi as int]);
                            }
                            assert(false);
                        }
                    }
                }
                // satisfied bits and matched rows through this file
                assert forall|kk: int|
                    0 <= kk < nk && (#[trigger] rule.path_conditions@[kk]).logic is Positive
                        && rule.path_conditions@[kk].content_conditions@.len() == 0 implies satisfied@[rule.path_conditions@[kk].number as int]
                    == exists|j: int|
                    0 <= j < fi + 1 && glob_cond_hit(
                        rule.path_conditions@[kk],
                        (#[trigger] files@[j]).path@,
                    ) by {
                    let c = rule.path_conditions@[kk];
                    let had = exists|j: int|
                        0 <= j < fi && glob_cond_hit(c, (#[trigger] files@[j]).path@);
                    assert(sat_r[c.number as int] == had);
                    if satisfied@[c.number as int] {
                        if sat_r[c.number as int] {
                            let j = choose|j: int|
                                0 <= j < fi && glob_cond_hit(c, (#[trigger] files@[j]).path@);
                            assert(glob_cond_hit(c, files@[j].path@));
                        } else {
                            assert(glob_cond_hit(c, files@[fi as int].path@));
                        }
                    } else {
                        if exists|j: int|
                            0 <= j < fi + 1 && glob_cond_hit(c, (#[trigger] files@[j]).path@) {
                            let j = choose|j: int|
                                0 <= j < fi + 1 && glob_cond_hit(c, (#[trigger] files@[j]).path@);
                            assert(false);
                        }
                    }
                }
                assert forall|kk: int|
                    0 <= kk < nk && (#[trigger] rule.path_conditions@[kk]).is_reporting_target
                        && rule.path_conditions@[kk].content_conditions@.len()
                        == 0 implies matched_files@[ri as int]@ == cond_path_hits(
                    rule.path_conditions@[kk],
                    files@.subrange(0, fi + 1),
                ) by {
                    let c = rule.path_conditions@[kk];
                    assert(mf_r[ri as int]@ == cond_path_hits(c, files@.subrange(0, fi as int)));
                }
                // other rules' satisfaction slots are untouched
                assert forall|i: int, k2: int|
                    0 <= i < nr && i != ri as int && 0 <= k2
                        < rs.rules@[i].path_conditions@.len() implies satisfied@[(
                #[trigger] rs.rules@[i].path_conditions@[k2]).number as int] == sat_r[rs.rules@[i].path_conditions@[k2].number as int] by {
                    let n = rs.rules@[i].path_conditions@[k2].number as int;
                    assert forall|kk: int|
                        0 <= kk < nk implies (#[trigger] rule.path_conditions@[kk]).number
                        != n by {
                        lemma_cond_numbers_unique(*rs, i, k2, ri as int, kk);
                    }
                }
            }
            proof {
                assert(bucket@ == bucket_of_rules(rs.rules@, ri + 1, files@[fi as int]));
                assert forall|i: int| 0 <= i < nr implies (#[trigger] eliminated@[i])
                    == rule_eliminated(
                    rs.rules@[i],
                    files@.subrange(
                        0,
                        if i < ri as int + 1 {
                            fi as int + 1
                        } else {
                            fi as int
                        },
                    ),
                ) by {
                    if i != ri as int {
                        assert(eliminated@[i] == elim_r[i]);
                    }
                }
            }
            ri = ri + 1;
        }
        proof {
            assert(bucket@ == bucket_of_rules(rs.rules@, nr as int, files@[fi as int]));
        }
        buckets.push(bucket);
        proof {
            assert(files@.subrange(0, fi + 1).drop_last() =~= files@.subrange(0, fi as int));
        }
        fi = fi + 1;
    }
    proof {
        assert(files@.subrange(0, files@.len() as int) =~= files@);
    }
    PathPhase { eliminated, satisfied, matched_files, buckets }
}

/// The file-level report views of a list of file indices.
pub open spec fn file_reports_of_hits(
    r: Rule,
    root: Seq<char>,
    files: Seq<FileContent>,
    hits: Seq<usize>,
) -> Seq<ReportView> {
    Seq::new(
        hits.len(),
        |x: int| (r.number as int, r.title@, root, Some((files[hits[x] as int].path@, None::<u64>))),
    )
}

/// The line-level report views of a list of (file index, line) locations.
pub open spec fn line_reports_of_locs(
    r: Rule,
    root: Seq<char>,
    files: Seq<FileContent>,
    lps: Seq<(usize, u64)>,
) -> Seq<ReportView> {
    Seq::new(
        lps.len(),
        |x: int|
            (r.number as int, r.title@, root, Some((files[lps[x].0 as int].path@, Some(lps[x].1)))),
    )
}

/// File-level reports are the full-hit indices, each turned into a
/// file-level report view.
pub proof fn lemma_file_reports_map(r: Rule, tc: GlobCondition, files: Seq<FileContent>, root: Seq<char>)
    requires
        files.len() <= usize::MAX,
    ensures
        file_level_reports(r, tc, files, root) == file_reports_of_hits(
            r,
            root,
            files,
            cond_full_hits(tc, files),
        ),
    decreases files.len(),
{
    if files.len() == 0 {
        assert(file_level_reports(r, tc, files, root) =~= file_reports_of_hits(
            r,
            root,
            files,
            cond_full_hits(tc, files),
        ));
    } else {
        let pre = files.drop_last();
        lemma_file_reports_map(r, tc, pre, root);
        lemma_hits_bounds(tc, pre);
        assert(file_reports_of_hits(r, root, pre, cond_full_hits(tc, pre)) =~= file_reports_of_hits(
            r,
            root,
            files,
            cond_full_hits(tc, pre),
        ));
        assert(file_level_reports(r, tc, files, root) =~= file_reports_of_hits(
            r,
            root,
            files,
            cond_full_hits(tc, files),
        ));
    }
}

/// Every full-hit index is an in-range file index, strictly ascending.
pub proof fn lemma_hits_bounds(c: GlobCondition, files: Seq<FileContent>)
    requires
        files.len() <= usize::MAX,
    ensures
        forall|x: int|
            0 <= x < cond_full_hits(c, files).len() ==> (#[trigger] cond_full_hits(c, files)[x])
                < files.len(),
        forall|x: int|
            0 <= x < cond_path_hits(c, files).len() ==> (#[trigger] cond_path_hits(c, files)[x])
                < files.len(),
    decreases files.len(),
{
    if files.len() > 0 {
        lemma_hits_bounds(c, files.drop_last());
        let pre = files.drop_last();
        assert forall|x: int| 0 <= x < cond_full_hits(c, files).len() implies (
        #[trigger] cond_full_hits(c, files)[x]) < files.len() by {
            if x < cond_full_hits(c, pre).len() {
                assert(cond_full_hits(c, files)[x] == cond_full_hits(c, pre)[x]);
            }
        }
        assert forall|x: int| 0 <= x < cond_path_hits(c, files).len() implies (
        #[trigger] cond_path_hits(c, files)[x]) < files.len() by {
            if x < cond_path_hits(c, pre).len() {
                assert(cond_path_hits(c, files)[x] == cond_path_hits(c, pre)[x]);
            }
        }
    }
}

/// Line-level reports are the line locations, each turned into a report
/// view.
pub proof fn lemma_line_reports_map(
    r: Rule,
    tc: GlobCondition,
    rc: RegexCondition,
    files: Seq<FileContent>,
    root: Seq<char>,
)
    requires
        files.len() <= usize::MAX,
    ensures
        line_level_reports(r, tc, rc, files, root) == line_reports_of_locs(
            r,
            root,
            files,
            line_locs(tc, rc, files),
        ),
    decreases files.len(),
{
    if files.len() == 0 {
        assert(line_level_reports(r, tc, rc, files, root) =~= line_reports_of_locs(
            r,
            root,
            files,
            line_locs(tc, rc, files),
        ));
    } else {
        let pre = files.drop_last();
        lemma_line_reports_map(r, tc, rc, pre, root);
        lemma_line_locs_bounds(tc, rc, pre);
        assert(line_reports_of_locs(r, root, pre, line_locs(tc, rc, pre)) =~= line_reports_of_locs(
            r,
            root,
            files,
            line_locs(tc, rc, pre),
        ));
        if cond_accepts_file(tc, files.last()) {
            let mln = matching_line_numbers(rc, lines_view(files.last().lines@));
            let mapped = mln.map_values(|l: u64| (((files.len() - 1) as usize, l)));
            assert(line_reports_of_file(r, rc, files.last(), root) =~= line_reports_of_locs(
                r,
                root,
                files,
                mapped,
            ));
            assert(line_reports_of_locs(r, root, files, line_locs(tc, rc, files))
                =~= line_reports_of_locs(r, root, files, line_locs(tc, rc, pre))
                + line_reports_of_locs(r, root, files, mapped));
            assert(line_level_reports(r, tc, rc, files, root) =~= line_reports_of_locs(
                r,
                root,
                files,
                line_locs(tc, rc, files),
            ));
        } else {
            assert(line_locs(tc, rc, files) =~= line_locs(tc, rc, pre));
            assert(line_level_reports(r, tc, rc, files, root) =~= line_reports_of_locs(
                r,
                root,
                files,
                line_locs(tc, rc, files),
            ));
        }
    }
}

/// Every line location names an in-range file index.
pub proof fn lemma_line_locs_bounds(tc: GlobCondition, rc: RegexCondition, files: Seq<FileContent>)
    requires
        files.len() <= usize::MAX,
    ensures
        forall|x: int|
            0 <= x < line_locs(tc, rc, files).len() ==> (#[trigger] line_locs(tc, rc, files)[x]).0
                < files.len(),
    decreases files.len(),
{
    if files.len() > 0 {
        lemma_line_locs_bounds(tc, rc, files.drop_last());
        let tail = line_locs(tc, rc, files.drop_last());
        assert forall|x: int| 0 <= x < line_locs(tc, rc, files).len() implies (
        #[trigger] line_locs(tc, rc, files)[x]).0 < files.len() by {
            if x < tail.len() {
                assert(line_locs(tc, rc, files)[x] == tail[x]);
            } else {
                let mapped = matching_line_numbers(rc, lines_view(files.last().lines@)).map_values(
                    |l: u64| (((files.len() - 1) as usize, l)),
                );
                assert(line_locs(tc, rc, files)[x] == mapped[x - tail.len()]);
            }
        }
    }
}

/// A condition without content conditions accepts a file exactly when its
/// globs do.
pub proof fn lemma_path_hits_no_content(c: GlobCondition, files: Seq<FileContent>)
    requires
        c.content_conditions@.len() == 0,
    ensures
        cond_path_hits(c, files) == cond_full_hits(c, files),
    decreases files.len(),
{
    if files.len() > 0 {
        lemma_path_hits_no_content(c, files.drop_last());
    }
}

/// The reporting-target facts hold of every pair of a well-formed
/// ruleset.
pub proof fn lemma_rule_flags_target_facts(rs: CompiledRuleset, p: (usize, usize))
    requires
        rs.wf(),
        pair_valid(rs, p),
    ensures
        rule_flags_target_facts(rs, p),
        pair_cond(rs, p).has_reporting_target ==> p.1
            == rs.rules@[p.0 as int].path_conditions@.len() - 1,
{
    let rule = rs.rules@[p.0 as int];
    let c = pair_cond(rs, p);
    assert(crate::ruleset::compile::rule_flags_ok(rule));
    if p.1 < rule.path_conditions@.len() - 1 {
        assert(crate::ruleset::compile::cond_flags_clear(c));
        assert forall|j: int|
            0 <= j < c.content_conditions@.len() implies !(#[trigger] c.content_conditions@[j])
            .is_reporting_target by {
            assert(crate::ruleset::compile::cond_content_flags_clear(c));
        }
    } else {
        assert(c == rule.path_conditions@.last());
    }
}

/// The views of a sequence of reports.
pub open spec fn views_of(ms: Seq<Match>) -> Seq<ReportView> {
    ms.map_values(|m: Match| m@)
}

pub proof fn lemma_views_push(s: Seq<Match>, m: Match)
    ensures
        views_of(s.push(m)) == views_of(s).push(m@),
{
    assert(views_of(s.push(m)) =~= views_of(s).push(m@));
}

/// The indices paired with one file index.
pub open spec fn pair_with(i: usize, ls: Seq<u64>) -> Seq<(usize, u64)> {
    ls.map_values(|l: u64| (i, l))
}

/// Applies a compiled ruleset to one root's in-memory listing and returns
/// every report, in canonical order: rules without path conditions first,
/// then each remaining rule's reports at its reporting target's
/// granularity, with files in listing order and lines ascending.
#[verifier::rlimit(100)]
pub fn apply_ruleset_to_listing(
    ruleset: &CompiledRuleset,
    root: &String,
    files: &Vec<FileContent>,
) -> (result: MatchResult)
    requires
        ruleset.wf(),
    ensures
        views_of(result.matches@) == expected_reports(*ruleset, files@, root@),
{
    let mut result = MatchResult::new();
    let nr = ruleset.rules.len();
    let mut r0: usize = 0;
    proof {
        assert(views_of(result.matches@) =~= reports_of_rules(
            ruleset.rules@.subrange(0, 0),
            files@,
            root@,
            true,
        ));
    }
    while r0 < nr
        invariant
            ruleset.wf(),
            nr == ruleset.rules@.len(),
            r0 <= nr,
            views_of(result.matches@) == reports_of_rules(
                ruleset.rules@.subrange(0, r0 as int),
                files@,
                root@,
                true,
            ),
        decreases nr - r0,
    {
        let rule = &ruleset.rules[r0];
        proof {
            assert(ruleset.rules@.subrange(0, r0 + 1).drop_last() =~= ruleset.rules@.subrange(
                0,
                r0 as int,
            ));
            assert(ruleset.rules@.subrange(0, r0 + 1).last() == ruleset.rules@[r0 as int]);
        }
        if rule.path_conditions.len() == 0 {
            proof {
                assert(crate::ruleset::compile::rule_flags_ok(ruleset.rules@[r0 as int]));
                assert(rule_fires(ruleset.rules@[r0 as int], files@));
            }
            let m = Match::for_root(rule, root);
            proof {
                lemma_views_push(result.matches@, m);
            }
            result.matches.push(m);
        }
        r0 = r0 + 1;
    }
    proof {
        assert(ruleset.rules@.subrange(0, nr as int) =~= ruleset.rules@);
    }
    let ghost group1 = views_of(result.matches@);
    let phase = path_match_phase(ruleset, files);
    let mut satisfied = phase.satisfied;
    let eliminated = phase.eliminated;
    let matched_files1 = phase.matched_files;
    let buckets = phase.buckets;
    let mut files2: Vec<Vec<usize>> = Vec::new();
    let mut i3: usize = 0;
    while i3 < nr
        invariant
            i3 <= nr,
            files2@.len() == i3,
            forall|i: int| 0 <= i < i3 ==> (#[trigger] files2@[i])@.len() == 0,
        decreases nr - i3,
    {
        files2.push(Vec::new());
        i3 = i3 + 1;
    }
    let mut locs: Vec<Vec<(usize, u64)>> = Vec::new();
    let mut i4: usize = 0;
    while i4 < nr
        invariant
            i4 <= nr,
            locs@.len() == i4,
            forall|i: int| 0 <= i < i4 ==> (#[trigger] locs@[i])@.len() == 0,
        decreases nr - i4,
    {
        locs.push(Vec::new());
        i4 = i4 + 1;
    }
    let nf = files.len();
    let mut fi: usize = 0;
    proof {
        assert(files@.subrange(0, 0) =~= Seq::<FileContent>::empty());
    }
    while fi < nf
        invariant
            ruleset.wf(),
            nr == ruleset.rules@.len(),
            nf == files@.len(),
            fi <= nf,
            satisfied@.len() == ruleset.conditions_count,
            files2@.len() == nr,
            locs@.len() == nr,
            buckets@.len() == nf,
            forall|fj: int|
                0 <= fj < nf ==> (#[trigger] buckets@[fj])@ == bucket_of_rules(
                    ruleset.rules@,
                    nr as int,
                    files@[fj],
                ),
            forall|i: int, k: int|
                0 <= i < nr && 0 <= k < ruleset.rules@[i].path_conditions@.len() && (
                #[trigger] ruleset.rules@[i].path_conditions@[k]).logic is Positive
                    && ruleset.rules@[i].path_conditions@[k].content_conditions@.len() == 0
                    ==> satisfied@[ruleset.rules@[i].path_conditions@[k].number as int] == exists|
                j: int|
                    0 <= j < nf && glob_cond_hit(
                        ruleset.rules@[i].path_conditions@[k],
                        (#[trigger] files@[j]).path@,
                    ),
            forall|i: int, k: int|
                0 <= i < nr && 0 <= k < ruleset.rules@[i].path_conditions@.len() && (
                #[trigger] ruleset.rules@[i].path_conditions@[k]).logic is Positive
                    && ruleset.rules@[i].path_conditions@[k].content_conditions@.len() > 0
                    ==> satisfied@[ruleset.rules@[i].path_conditions@[k].number as int] == exists|
                j: int|
                    0 <= j < fi && cond_accepts_file(
                        ruleset.rules@[i].path_conditions@[k],
                        #[trigger] files@[j],
                    ),
            forall|i: int, k: int|
                0 <= i < nr && 0 <= k < ruleset.rules@[i].path_conditions@.len() && (
                #[trigger] ruleset.rules@[i].path_conditions@[k]).logic is Negative
                    ==> satisfied@[ruleset.rules@[i].path_conditions@[k].number as int] == false,
            forall|i: int, k: int|
                0 <= i < nr && 0 <= k < ruleset.rules@[i].path_conditions@.len() && (
                #[trigger] ruleset.rules@[i].path_conditions@[k]).is_reporting_target
                    && ruleset.rules@[i].path_conditions@[k].content_conditions@.len() > 0
                    ==> (#[trigger] files2@[i])@ == cond_full_hits(
                    ruleset.rules@[i].path_conditions@[k],
                    files@.subrange(0, fi as int),
                ),
            forall|i: int, k: int|
                0 <= i < nr && 0 <= k < ruleset.rules@[i].path_conditions@.len() && (
                #[trigger] ruleset.rules@[i].path_conditions@[k]).has_reporting_target
                    && ruleset.rules@[i].path_conditions@[k].content_conditions@.len() > 0
                    ==> (#[trigger] locs@[i])@ == line_locs(
                    ruleset.rules@[i].path_conditions@[k],
                    target_regexes(ruleset.rules@[i].path_conditions@[k]),
                    files@.subrange(0, fi as int),
                ),
        decreases nf - fi,
    {
        let bucket = &buckets[fi];
        let nb = bucket.len();
        let mut pairs: Vec<(usize, usize)> = Vec::new();
        let mut x0: usize = 0;
        while x0 < nb
            invariant
                nb == bucket@.len(),
                x0 <= nb,
                pairs@ == bucket@.subrange(0, x0 as int),
            decreases nb - x0,
        {
            pairs.push(bucket[x0]);
            proof {
                assert(pairs@ =~= bucket@.subrange(0, x0 + 1));
            }
            x0 = x0 + 1;
        }
        proof {
            assert(pairs@ =~= bucket@);
            assert forall|i: int|
                0 <= i < nr implies (#[trigger] ruleset.rules@[i]).path_conditions@.len()
                <= usize::MAX by {
                assert(ruleset.rules@[i].path_conditions.len()
                    == ruleset.rules@[i].path_conditions@.len());
            }
            lemma_bucket_props(ruleset.rules@, nr as int, files@[fi as int]);
            assert forall|pi: int| 0 <= pi < pairs@.len() implies pair_valid(
                *ruleset,
                #[trigger] pairs@[pi],
            ) by {
                assert(pairs@[pi] == bucket_of_rules(ruleset.rules@, nr as int, files@[fi as int])[pi]);
            }
        }
        let outcome = scan_file(ruleset, pairs, &files[fi]);
        let ghost sat_in = satisfied@;
        let ghost files2_in = files2@;
        let ghost locs_in = locs@;
        let ghost bpairs = outcome.pairs@;
        let np = outcome.pairs.len();
        let mut pi: usize = 0;
        while pi < np
            invariant
                ruleset.wf(),
                nr == ruleset.rules@.len(),
                nf == files@.len(),
                fi < nf,
                np == bpairs.len(),
                pi <= np,
                outcome.pairs@ == bpairs,
                bpairs == bucket_of_rules(ruleset.rules@, nr as int, files@[fi as int]),
                outcome.qualified@.len() == np,
                outcome.matched_lines@.len() == nr,
                forall|x: int|
                    0 <= x < np ==> outcome.qualified@[x] == content_ok(
                        pair_cond(*ruleset, #[trigger] bpairs[x]),
                        files@[fi as int].size,
                        lines_view(files@[fi as int].lines@),
                    ),
                forall|x: int|
                    0 <= x < np && outcome.qualified@[x] && (pair_cond(
                        *ruleset,
                        #[trigger] bpairs[x],
                    )).has_reporting_target && pair_cond(
                        *ruleset,
                        bpairs[x],
                    ).content_conditions@.len() > 0
                        ==> outcome.matched_lines@[bpairs[x].0 as int]@ == matching_line_numbers(
                        target_regexes(pair_cond(*ruleset, bpairs[x])),
                        lines_view(files@[fi as int].lines@),
                    ),
                satisfied@.len() == ruleset.conditions_count,
                files2@.len() == nr,
                locs@.len() == nr,
                sat_in.len() == ruleset.conditions_count,
                files2_in.len() == nr,
                locs_in.len() == nr,
                forall|i: int, k: int|
                    0 <= i < nr && 0 <= k < ruleset.rules@[i].path_conditions@.len() && !((
                    #[trigger] ruleset.rules@[i].path_conditions@[k]).logic is Positive
                        && ruleset.rules@[i].path_conditions@[k].content_conditions@.len() > 0)
                        ==> satisfied@[ruleset.rules@[i].path_conditions@[k].number as int]
                        == sat_in[ruleset.rules@[i].path_conditions@[k].number as int],
                forall|i: int, k: int|
                    0 <= i < nr && 0 <= k < ruleset.rules@[i].path_conditions@.len() && (
                    #[trigger] ruleset.rules@[i].path_conditions@[k]).logic is Positive
                        && ruleset.rules@[i].path_conditions@[k].content_conditions@.len() > 0
                        ==> satisfied@[ruleset.rules@[i].path_conditions@[k].number as int] == (
                    sat_in[ruleset.rules@[i].path_conditions@[k].number as int] || exists|x: int|
                        0 <= x < pi && #[trigger] bpairs[x] == (i as usize, k as usize)
                            && outcome.qualified@[x]),
                forall|i: int, k: int|
                    0 <= i < nr && 0 <= k < ruleset.rules@[i].path_conditions@.len() && (
                    #[trigger] ruleset.rules@[i].path_conditions@[k]).is_reporting_target
                        && ruleset.rules@[i].path_conditions@[k].content_conditions@.len() > 0
                        ==> (#[trigger] files2@[i])@ == (if exists|x: int|
                        0 <= x < pi && #[trigger] bpairs[x] == (i as usize, k as usize)
                            && outcome.qualified@[x] {
                        files2_in[i]@.push(fi)
                    } else {
                        files2_in[i]@
                    }),
                forall|i: int, k: int|
                    0 <= i < nr && 0 <= k < ruleset.rules@[i].path_conditions@.len() && (
                    #[trigger] ruleset.rules@[i].path_conditions@[k]).has_reporting_target
                        && ruleset.rules@[i].path_conditions@[k].content_conditions@.len() > 0
                        ==> (#[trigger] locs@[i])@ == (if exists|x: int|
                        0 <= x < pi && #[trigger] bpairs[x] == (i as usize, k as usize)
                            && outcome.qualified@[x] {
                        locs_in[i]@ + pair_with(
                            fi,
                            matching_line_numbers(
                                target_regexes(ruleset.rules@[i].path_conditions@[k]),
                                lines_view(files@[fi as int].lines@),
                            ),
                        )
                    } else {
                        locs_in[i]@
                    }),
            decreases np - pi,
        {
            proof {
                assert forall|i: int|
                    0 <= i < nr implies (#[trigger] ruleset.rules@[i]).path_conditions@.len()
                    <= usize::MAX by {
                    assert(ruleset.rules@[i].path_conditions.len()
                        == ruleset.rules@[i].path_conditions@.len());
                }
                lemma_bucket_props(ruleset.rules@, nr as int, files@[fi as int]);
                assert(bpairs[pi as int] == bucket_of_rules(
                    ruleset.rules@,
                    nr as int,
                    files@[fi as int],
                )[pi as int]);
            }
            let ghost pnow = bpairs[pi as int];
            let ghost sat_mid = satisfied@;
            let ghost files2_mid = files2@;
            let ghost locs_mid = locs@;
            let qual = outcome.qualified[pi];
            if qual {
                let p = outcome.pairs[pi];
                let ri = p.0;
                let k = p.1;
                proof {
                    assert(bpairs[pi as int] == bucket_of_rules(
                        ruleset.rules@,
                        nr as int,
                        files@[fi as int],
                    )[pi as int]);
                    assert(p.0 < nr);
                    assert(p.1 < ruleset.rules@[p.0 as int].path_conditions@.len());
                }
                let cond = &ruleset.rules[ri].path_conditions[k];
                proof {
                    assert(*cond == pair_cond(*ruleset, p));
                    assert(crate::ruleset::compile::rule_numbers_in(
                        ruleset.rules@[ri as int],
                        0,
                        ruleset.conditions_count as int,
                    ));
                    assert(crate::ruleset::compile::cond_numbers_in(
                        *cond,
                        0,
                        ruleset.conditions_count as int,
                    ));
                }
                let number = cond.number;
                satisfied.set(number, true);
                proof {
                    assert forall|i: int, k2: int|
                        0 <= i < nr && 0 <= k2 < ruleset.rules@[i].path_conditions@.len() && (
                        i,
                        k2,
                    ) != (ri as int, k as int) implies (
                    #[trigger] ruleset.rules@[i].path_conditions@[k2]).number
                        != number by {
                        lemma_cond_numbers_unique(*ruleset, i, k2, ri as int, k as int);
                    }
                }
                if cond.is_reporting_target {
                    let row = &mut files2[ri];
                    row.push(fi);
                    proof {
                        lemma_rule_flags_target_facts(*ruleset, p);
                    }
                }
                if cond.has_reporting_target {
                    proof {
                        lemma_rule_flags_target_facts(*ruleset, p);
                    }
                    let src = &outcome.matched_lines[ri];
                    let ns = src.len();
                    let ghost locs_pre = locs@[ri as int]@;
                    let ghost locs_snap = locs@;
                    let mut x: usize = 0;
                    proof {
                        assert(locs@[ri as int]@ =~= locs_pre + pair_with(
                            fi,
                            src@.subrange(0, 0),
                        ));
                    }
                    while x < ns
                        invariant
                            ns == src@.len(),
                            x <= ns,
                            ri < locs@.len(),
                            locs@.len() == locs_snap.len(),
                            locs@[ri as int]@ == locs_pre + pair_with(
                                fi,
                                src@.subrange(0, x as int),
                            ),
                            forall|i: int|
                                0 <= i < locs@.len() && i != ri as int ==> locs@[i] == locs_snap[i],
                        decreases ns - x,
                    {
                        let row = &mut locs[ri];
                        row.push((fi, src[x]));
                        proof {
                            assert(locs@[ri as int]@ =~= locs_pre + pair_with(
                                fi,
                                src@.subrange(0, x + 1),
                            ));
                        }
                        x = x + 1;
                    }
                    proof {
                        assert(src@.subrange(0, ns as int) =~= src@);
                    }
                }
            }
            proof {
                assert(pair_valid(*ruleset, pnow));
                let ri0 = pnow.0 as int;
                let k0 = pnow.1 as int;
                assert forall|i: int, k2: int|
                    0 <= i < nr && 0 <= k2 < ruleset.rules@[i].path_conditions@.len() && (
                    #[trigger] ruleset.rules@[i].path_conditions@[k2]).logic is Positive
                        && ruleset.rules@[i].path_conditions@[k2].content_conditions@.len()
                        > 0 implies satisfied@[ruleset.rules@[i].path_conditions@[k2].number as int]
                    == (sat_in[ruleset.rules@[i].path_conditions@[k2].number as int] || exists|
                x: int|
                    0 <= x < pi + 1 && #[trigger] bpairs[x] == (i as usize, k2 as usize)
                        && outcome.qualified@[x]) by {
                    let c = ruleset.rules@[i].path_conditions@[k2];
                    if i == ri0 && k2 == k0 {
                        if outcome.qualified@[pi as int] {
                            assert(satisfied@[c.number as int]);
                            assert(bpairs[pi as int] == (i as usize, k2 as usize)
                                && outcome.qualified@[pi as int]);
                        } else {
                            assert(satisfied@[c.number as int] == sat_mid[c.number as int]);
                            if exists|x: int|
                                0 <= x < pi + 1 && #[trigger] bpairs[x] == (i as usize, k2 as usize)
                                    && outcome.qualified@[x] {
                                let x = choose|x: int|
                                    0 <= x < pi + 1 && #[trigger] bpairs[x] == (
                                    i as usize,
                                    k2 as usize,
                                ) && outcome.qualified@[x];
                                assert(x < pi);
                            }
                        }
                    } else {
                        if qual {
                            lemma_cond_numbers_unique(*ruleset, i, k2, ri0, k0);
                            assert(satisfied@[c.number as int] == sat_mid[c.number as int]);
                        } else {
                            assert(satisfied@[c.number as int] == sat_mid[c.number as int]);
                        }
                        if exists|x: int|
                            0 <= x < pi + 1 && #[trigger] bpairs[x] == (i as usize, k2 as usize)
                                && outcome.qualified@[x] {
                            let x = choose|x: int|
                                0 <= x < pi + 1 && #[trigger] bpairs[x] == (i as usize, k2 as usize)
                                    && outcome.qualified@[x];
                            assert(x != pi);
                            assert(exists|x2: int|
                                0 <= x2 < pi && #[trigger] bpairs[x2] == (i as usize, k2 as usize)
                                    && outcome.qualified@[x2]);
                        }
                    }
                }
                assert forall|i: int, k2: int|
                    0 <= i < nr && 0 <= k2 < ruleset.rules@[i].path_conditions@.len() && (
                    #[trigger] ruleset.rules@[i].path_conditions@[k2]).is_reporting_target
                        && ruleset.rules@[i].path_conditions@[k2].content_conditions@.len()
                        > 0 implies (#[trigger] files2@[i])@ == (if exists|x: int|
                    0 <= x < pi + 1 && #[trigger] bpairs[x] == (i as usize, k2 as usize)
                        && outcome.qualified@[x] {
                    files2_in[i]@.push(fi)
                } else {
                    files2_in[i]@
                }) by {
                    let c = ruleset.rules@[i].path_conditions@[k2];
                    assert(crate::ruleset::compile::rule_flags_ok(ruleset.rules@[i]));
                    assert(k2 == ruleset.rules@[i].path_conditions@.len() - 1);
                    if i == ri0 {
                        assert(crate::ruleset::compile::rule_flags_ok(ruleset.rules@[ri0]));
                        if qual && pair_cond(*ruleset, pnow).is_reporting_target {
                            assert(k0 == ruleset.rules@[ri0].path_conditions@.len() - 1);
                            assert(k2 == k0);
                            assert(bpairs[pi as int] == (i as usize, k2 as usize)
                                && outcome.qualified@[pi as int]);
                        } else {
                            assert(files2@[i] == files2_mid[i]);
                            if exists|x: int|
                                0 <= x < pi + 1 && #[trigger] bpairs[x] == (i as usize, k2 as usize)
                                    && outcome.qualified@[x] {
                                let x = choose|x: int|
                                    0 <= x < pi + 1 && #[trigger] bpairs[x] == (
                                    i as usize,
                                    k2 as usize,
                                ) && outcome.qualified@[x];
                                if x == pi {
                                    assert(pnow == (i as usize, k2 as usize));
                                    assert(pair_cond(*ruleset, pnow) == c);
                                    assert(false);
                                }
                                assert(exists|x2: int|
                                    0 <= x2 < pi && #[trigger] bpairs[x2] == (
                                    i as usize,
                                    k2 as usize,
                                ) && outcome.qualified@[x2]);
                            }
                        }
                    } else {
                        assert(files2@[i] == files2_mid[i]);
                        if exists|x: int|
                            0 <= x < pi + 1 && #[trigger] bpairs[x] == (i as usize, k2 as usize)
                                && outcome.qualified@[x] {
                            let x = choose|x: int|
                                0 <= x < pi + 1 && #[trigger] bpairs[x] == (i as usize, k2 as usize)
                                    && outcome.qualified@[x];
                            assert(x != pi);
                            assert(exists|x2: int|
                                0 <= x2 < pi && #[trigger] bpairs[x2] == (i as usize, k2 as usize)
                                    && outcome.qualified@[x2]);
                        }
                    }
                }
                assert forall|i: int, k2: int|
                    0 <= i < nr && 0 <= k2 < ruleset.rules@[i].path_conditions@.len() && (
                    #[trigger] ruleset.rules@[i].path_conditions@[k2]).has_reporting_target
                        && ruleset.rules@[i].path_conditions@[k2].content_conditions@.len()
                        > 0 implies (#[trigger] locs@[i])@ == (if exists|x: int|
                    0 <= x < pi + 1 && #[trigger] bpairs[x] == (i as usize, k2 as usize)
                        && outcome.qualified@[x] {
                    locs_in[i]@ + pair_with(
                        fi,
                        matching_line_numbers(
                            target_regexes(ruleset.rules@[i].path_conditions@[k2]),
                            lines_view(files@[fi as int].lines@),
                        ),
                    )
                } else {
                    locs_in[i]@
                }) by {
                    let c = ruleset.rules@[i].path_conditions@[k2];
                    assert(crate::ruleset::compile::rule_flags_ok(ruleset.rules@[i]));
                    assert(k2 == ruleset.rules@[i].path_conditions@.len() - 1);
                    if i == ri0 {
                        if qual && pair_cond(*ruleset, pnow).has_reporting_target {
                            lemma_rule_flags_target_facts(*ruleset, pnow);
                            assert(k0 == ruleset.rules@[ri0].path_conditions@.len() - 1);
                            assert(k2 == k0);
                            assert(bpairs[pi as int] == (i as usize, k2 as usize)
                                && outcome.qualified@[pi as int]);
                        } else {
                            assert(locs@[i] == locs_mid[i]);
                            if exists|x: int|
                                0 <= x < pi + 1 && #[trigger] bpairs[x] == (i as usize, k2 as usize)
                                    && outcome.qualified@[x] {
                                let x = choose|x: int|
                                    0 <= x < pi + 1 && #[trigger] bpairs[x] == (
                                    i as usize,
                                    k2 as usize,
                                ) && outcome.qualified@[x];
                                if x == pi {
                                    assert(pnow == (i as usize, k2 as usize));
                                    assert(pair_cond(*ruleset, pnow) == c);
                                    assert(false);
                                }
                                assert(exists|x2: int|
                                    0 <= x2 < pi && #[trigger] bpairs[x2] == (
                                    i as usize,
                                    k2 as usize,
                                ) && outcome.qualified@[x2]);
                            }
                        }
                    } else {
                        assert(locs@[i] == locs_mid[i]);
                        if exists|x: int|
                            0 <= x < pi + 1 && #[trigger] bpairs[x] == (i as usize, k2 as usize)
                                && outcome.qualified@[x] {
                            let x = choose|x: int|
                                0 <= x < pi + 1 && #[trigger] bpairs[x] == (i as usize, k2 as usize)
                                    && outcome.qualified@[x];
                            assert(x != pi);
                            assert(exists|x2: int|
                                0 <= x2 < pi && #[trigger] bpairs[x2] == (i as usize, k2 as usize)
                                    && outcome.qualified@[x2]);
                        }
                    }
                }
            }
            pi = pi + 1;
        }
        proof {
            assert(files@.subrange(0, fi + 1).drop_last() =~= files@.subrange(0, fi as int));
            assert(files@.subrange(0, fi + 1).last() == files@[fi as int]);
            lemma_bucket_props(ruleset.rules@, nr as int, files@[fi as int]);
            let cur = files@[fi as int];
            assert forall|i: int, k: int|
                0 <= i < nr && 0 <= k < ruleset.rules@[i].path_conditions@.len() && (
                #[trigger] ruleset.rules@[i].path_conditions@[k]).logic is Positive
                    && ruleset.rules@[i].path_conditions@[k].content_conditions@.len()
                    > 0 implies (exists|x: int|
                0 <= x < np && #[trigger] bpairs[x] == (i as usize, k as usize)
                    && outcome.qualified@[x]) == cond_accepts_file(
                ruleset.rules@[i].path_conditions@[k],
                cur,
            ) by {
                let c = ruleset.rules@[i].path_conditions@[k];
                if exists|x: int|
                    0 <= x < np && #[trigger] bpairs[x] == (i as usize, k as usize)
                        && outcome.qualified@[x] {
                    let x = choose|x: int|
                        0 <= x < np && #[trigger] bpairs[x] == (i as usize, k as usize)
                            && outcome.qualified@[x];
                    assert(pair_cond(*ruleset, bpairs[x]) == c);
                    assert(glob_cond_hit(c, cur.path@));
                    assert(cond_accepts_file(c, cur));
                }
                if cond_accepts_file(c, cur) {
                    assert(glob_cond_hit(c, cur.path@));
                    let x = choose|x: int|
                        0 <= x < bpairs.len() && #[trigger] bpairs[x] == (i as usize, k as usize);
                    assert(outcome.qualified@[x] == content_ok(c, cur.size, lines_view(cur.lines@)));
                    assert(outcome.qualified@[x]);
                }
            }
            assert forall|i: int, k: int|
                0 <= i < nr && 0 <= k < ruleset.rules@[i].path_conditions@.len() && (
                #[trigger] ruleset.rules@[i].path_conditions@[k]).logic is Positive
                    && ruleset.rules@[i].path_conditions@[k].content_conditions@.len()
                    > 0 implies satisfied@[ruleset.rules@[i].path_conditions@[k].number as int]
                == exists|j: int|
                0 <= j < fi + 1 && cond_accepts_file(
                    ruleset.rules@[i].path_conditions@[k],
                    #[trigger] files@[j],
                ) by {
                let c = ruleset.rules@[i].path_conditions@[k];
                if satisfied@[c.number as int] {
                    if sat_in[c.number as int] {
                        let j = choose|j: int|
                            0 <= j < fi && cond_accepts_file(c, #[trigger] files@[j]);
                        assert(cond_accepts_file(c, files@[j]));
                    } else {
                        assert(cond_accepts_file(c, files@[fi as int]));
                    }
                } else {
                    if exists|j: int|
                        0 <= j < fi + 1 && cond_accepts_file(c, #[trigger] files@[j]) {
                        let j = choose|j: int|
                            0 <= j < fi + 1 && cond_accepts_file(c, #[trigger] files@[j]);
                        if j < fi {
                            assert(sat_in[c.number as int]);
                        }
                        assert(false);
                    }
                }
            }
            assert forall|i: int, k: int|
                0 <= i < nr && 0 <= k < ruleset.rules@[i].path_conditions@.len() && (
                #[trigger] ruleset.rules@[i].path_conditions@[k]).is_reporting_target
                    && ruleset.rules@[i].path_conditions@[k].content_conditions@.len()
                    > 0 implies (#[trigger] files2@[i])@ == cond_full_hits(
                ruleset.rules@[i].path_conditions@[k],
                files@.subrange(0, fi + 1),
            ) by {
                let c = ruleset.rules@[i].path_conditions@[k];
                assert(c.logic is Positive) by {
                    lemma_rule_flags_target_facts(*ruleset, (i as usize, k as usize));
                    assert(crate::ruleset::compile::rule_flags_ok(ruleset.rules@[i]));
                }
                assert(files2_in[i]@ == cond_full_hits(c, files@.subrange(0, fi as int)));
            }
            assert forall|i: int, k: int|
                0 <= i < nr && 0 <= k < ruleset.rules@[i].path_conditions@.len() && (
                #[trigger] ruleset.rules@[i].path_conditions@[k]).has_reporting_target
                    && ruleset.rules@[i].path_conditions@[k].content_conditions@.len()
                    > 0 implies (#[trigger] locs@[i])@ == line_locs(
                ruleset.rules@[i].path_conditions@[k],
                target_regexes(ruleset.rules@[i].path_conditions@[k]),
                files@.subrange(0, fi + 1),
            ) by {
                let c = ruleset.rules@[i].path_conditions@[k];
                assert(c.logic is Positive) by {
                    assert(crate::ruleset::compile::rule_flags_ok(ruleset.rules@[i]));
                }
                assert(locs_in[i]@ == line_locs(c, target_regexes(c), files@.subrange(0, fi as int)));
                if exists|x: int|
                    0 <= x < np && #[trigger] bpairs[x] == (i as usize, k as usize)
                        && outcome.qualified@[x] {
                    let x = choose|x: int|
                        0 <= x < np && #[trigger] bpairs[x] == (i as usize, k as usize)
                            && outcome.qualified@[x];
                    assert(outcome.matched_lines@[i]@ == matching_line_numbers(
                        target_regexes(c),
                        lines_view(cur.lines@),
                    ));
                }
            }
        }
        fi = fi + 1;
    }
    proof {
        assert(files@.subrange(0, nf as int) =~= files@);
    }
    // --- emission: every remaining rule's reports, in rule order
    let mut r1: usize = 0;
    proof {
        assert(views_of(result.matches@) =~= group1 + reports_of_rules(
            ruleset.rules@.subrange(0, 0),
            files@,
            root@,
            false,
        ));
        assert forall|i: int, k: int|
            0 <= i < nr && 0 <= k < ruleset.rules@[i].path_conditions@.len() && (
            #[trigger] ruleset.rules@[i].path_conditions@[k]).logic
                is Positive implies satisfied@[ruleset.rules@[i].path_conditions@[k].number as int]
            == cond_satisfied(ruleset.rules@[i].path_conditions@[k], files@) by {
            let c = ruleset.rules@[i].path_conditions@[k];
            if c.content_conditions@.len() == 0 {
                assert forall|j: int| 0 <= j < files@.len() implies content_ok(
                    c,
                    (#[trigger] files@[j]).size,
                    lines_view(files@[j].lines@),
                ) by {}
                if satisfied@[c.number as int] {
                    let j = choose|j: int|
                        0 <= j < nf && glob_cond_hit(c, (#[trigger] files@[j]).path@);
                    assert(cond_accepts_file(c, files@[j]));
                } else {
                    if cond_satisfied(c, files@) {
                        let j = choose|j: int|
                            0 <= j < files@.len() && cond_accepts_file(c, #[trigger] files@[j]);
                        assert(glob_cond_hit(c, files@[j].path@));
                        assert(false);
                    }
                }
            } else {
                if satisfied@[c.number as int] {
                    let j = choose|j: int|
                        0 <= j < nf && cond_accepts_file(c, #[trigger] files@[j]);
                    assert(cond_accepts_file(c, files@[j]));
                } else {
                    if cond_satisfied(c, files@) {
                        let j = choose|j: int|
                            0 <= j < files@.len() && cond_accepts_file(c, #[trigger] files@[j]);
                        assert(false);
                    }
                }
            }
        }
        assert forall|i: int, k: int|
            0 <= i < nr && 0 <= k < ruleset.rules@[i].path_conditions@.len() && (
            #[trigger] ruleset.rules@[i].path_conditions@[k]).is_reporting_target
                && ruleset.rules@[i].path_conditions@[k].content_conditions@.len()
                == 0 implies matched_files1@[i]@ == cond_full_hits(
            ruleset.rules@[i].path_conditions@[k],
            files@,
        ) by {
            lemma_path_hits_no_content(ruleset.rules@[i].path_conditions@[k], files@);
        }
    }
    while r1 < nr
        invariant
            ruleset.wf(),
            nr == ruleset.rules@.len(),
            nf == files@.len(),
            satisfied@.len() == ruleset.conditions_count,
            eliminated@.len() == nr,
            matched_files1@.len() == nr,
            files2@.len() == nr,
            locs@.len() == nr,
            r1 <= nr,
            views_of(result.matches@) == group1 + reports_of_rules(
                ruleset.rules@.subrange(0, r1 as int),
                files@,
                root@,
                false,
            ),
            forall|i: int|
                0 <= i < nr ==> (#[trigger] eliminated@[i]) == rule_eliminated(
                    ruleset.rules@[i],
                    files@,
                ),
            forall|i: int, k: int|
                0 <= i < nr && 0 <= k < ruleset.rules@[i].path_conditions@.len() && (
                #[trigger] ruleset.rules@[i].path_conditions@[k]).logic is Positive
                    ==> satisfied@[ruleset.rules@[i].path_conditions@[k].number as int]
                    == cond_satisfied(ruleset.rules@[i].path_conditions@[k], files@),
            forall|i: int, k: int|
                0 <= i < nr && 0 <= k < ruleset.rules@[i].path_conditions@.len() && (
                #[trigger] ruleset.rules@[i].path_conditions@[k]).is_reporting_target
                    && ruleset.rules@[i].path_conditions@[k].content_conditions@.len() == 0
                    ==> matched_files1@[i]@ == cond_full_hits(
                    ruleset.rules@[i].path_conditions@[k],
                    files@,
                ),
            forall|i: int, k: int|
                0 <= i < nr && 0 <= k < ruleset.rules@[i].path_conditions@.len() && (
                #[trigger] ruleset.rules@[i].path_conditions@[k]).is_reporting_target
                    && ruleset.rules@[i].path_conditions@[k].content_conditions@.len() > 0
                    ==> (#[trigger] files2@[i])@ == cond_full_hits(
                    ruleset.rules@[i].path_conditions@[k],
                    files@,
                ),
            forall|i: int, k: int|
                0 <= i < nr && 0 <= k < ruleset.rules@[i].path_conditions@.len() && (
                #[trigger] ruleset.rules@[i].path_conditions@[k]).has_reporting_target
                    && ruleset.rules@[i].path_conditions@[k].content_conditions@.len() > 0
                    ==> (#[trigger] locs@[i])@ == line_locs(
                    ruleset.rules@[i].path_conditions@[k],
                    target_regexes(ruleset.rules@[i].path_conditions@[k]),
                    files@,
                ),
        decreases nr - r1,
    {
        let rule = &ruleset.rules[r1];
        let ghost srule = ruleset.rules@[r1 as int];
        proof {
            assert(ruleset.rules@.subrange(0, r1 + 1).drop_last() =~= ruleset.rules@.subrange(
                0,
                r1 as int,
            ));
            assert(ruleset.rules@.subrange(0, r1 + 1).last() == srule);
            assert(crate::ruleset::compile::rule_flags_ok(srule));
            assert(crate::ruleset::compile::rule_numbers_in(
                srule,
                0,
                ruleset.conditions_count as int,
            ));
        }
        let nk = rule.path_conditions.len();
        if nk > 0 {
            let mut emit = !eliminated[r1];
            if emit {
                emit = rule.are_all_positive_conditions_satisfied(&satisfied);
            }
            proof {
                assert(emit == rule_fires(srule, files@)) by {
                    if !eliminated@[r1 as int] {
                        assert forall|k: int|
                            0 <= k < srule.path_conditions@.len() implies ((
                        #[trigger] srule.path_conditions@[k]).logic is Positive
                            ==> satisfied@[srule.path_conditions@[k].number as int]
                            == cond_satisfied(srule.path_conditions@[k], files@)) by {}
                    }
                }
            }
            if emit {
                if rule.is_reporting_target {
                    let m = Match::for_root(rule, root);
                    proof {
                        lemma_views_push(result.matches@, m);
                        assert(reports_of_rule(srule, files@, root@) =~= seq![m@]);
                    }
                    result.matches.push(m);
                } else {
                    let lastc = &rule.path_conditions[nk - 1];
                    proof {
                        assert(*lastc == srule.path_conditions@.last());
                    }
                    if lastc.is_reporting_target {
                        let rows = if lastc.content_conditions.len() == 0 {
                            &matched_files1[r1]
                        } else {
                            &files2[r1]
                        };
                        let ghost hits = cond_full_hits(srule.path_conditions@.last(), files@);
                        proof {
                            assert(rows@ == hits);
                            lemma_hits_bounds(srule.path_conditions@.last(), files@);
                            lemma_file_reports_map(srule, srule.path_conditions@.last(), files@,
                                root@);
                        }
                        let ghost base = views_of(result.matches@);
                        let nh = rows.len();
                        let mut h: usize = 0;
                        while h < nh
                            invariant
                                nh == hits.len(),
                                h <= nh,
                                rows@ == hits,
                                nf == files@.len(),
                                *rule == srule,
                                forall|x: int| 0 <= x < nh ==> (#[trigger] hits[x]) < nf,
                                views_of(result.matches@) == base + file_reports_of_hits(
                                    srule,
                                    root@,
                                    files@,
                                    hits.subrange(0, h as int),
                                ),
                            decreases nh - h,
                        {
                            let idx = rows[h];
                            let m = Match::for_file(rule, root, files[idx].path.clone());
                            proof {
                                lemma_views_push(result.matches@, m);
                                assert(hits.subrange(0, h + 1).drop_last() =~= hits.subrange(
                                    0,
                                    h as int,
                                ));
                                assert(hits.subrange(0, h + 1).last() == hits[h as int]);
                            }
                            result.matches.push(m);
                            proof {
                                assert(views_of(result.matches@) =~= base + file_reports_of_hits(
                                    srule,
                                    root@,
                                    files@,
                                    hits.subrange(0, h + 1),
                                ));
                            }
                            h = h + 1;
                        }
                        proof {
                            assert(hits.subrange(0, nh as int) =~= hits);
                            assert(reports_of_rule(srule, files@, root@) == file_level_reports(
                                srule,
                                srule.path_conditions@.last(),
                                files@,
                                root@,
                            ));
                        }
                    } else {
                        proof {
                            assert(lastc.has_reporting_target);
                            assert(lastc.content_conditions@.len() > 0);
                        }
                        let rows = &locs[r1];
                        let ghost lpairs = line_locs(
                            srule.path_conditions@.last(),
                            target_regexes(srule.path_conditions@.last()),
                            files@,
                        );
                        proof {
                            assert(rows@ == lpairs);
                            lemma_line_locs_bounds(srule.path_conditions@.last(),
                                target_regexes(srule.path_conditions@.last()), files@);
                            lemma_line_reports_map(srule, srule.path_conditions@.last(),
                                target_regexes(srule.path_conditions@.last()), files@, root@);
                        }
                        let ghost base = views_of(result.matches@);
                        let nh = rows.len();
                        let mut h: usize = 0;
                        while h < nh
                            invariant
                                nh == lpairs.len(),
                                h <= nh,
                                rows@ == lpairs,
                                nf == files@.len(),
                                *rule == srule,
                                forall|x: int| 0 <= x < nh ==> (#[trigger] lpairs[x]).0 < nf,
                                views_of(result.matches@) == base + line_reports_of_locs(
                                    srule,
                                    root@,
                                    files@,
                                    lpairs.subrange(0, h as int),
                                ),
                            decreases nh - h,
                        {
                            let loc = rows[h];
                            let m = Match::for_line(rule, root, files[loc.0].path.clone(), loc.1);
                            proof {
                                lemma_views_push(result.matches@, m);
                                assert(lpairs.subrange(0, h + 1).drop_last() =~= lpairs.subrange(
                                    0,
                                    h as int,
                                ));
                                assert(lpairs.subrange(0, h + 1).last() == lpairs[h as int]);
                            }
                            result.matches.push(m);
                            proof {
                                assert(views_of(result.matches@) =~= base + line_reports_of_locs(
                                    srule,
                                    root@,
                                    files@,
                                    lpairs.subrange(0, h + 1),
                                ));
                            }
                            h = h + 1;
                        }
                        proof {
                            assert(lpairs.subrange(0, nh as int) =~= lpairs);
                            assert(reports_of_rule(srule, files@, root@) == line_level_reports(
                                srule,
                                srule.path_conditions@.last(),
                                target_regexes(srule.path_conditions@.last()),
                                files@,
                                root@,
                            ));
                        }
                    }
                }
            } else {
                proof {
                    assert(reports_of_rule(srule, files@, root@) =~= Seq::<ReportView>::empty());
                }
            }
        }
        r1 = r1 + 1;
    }
    proof {
        assert(ruleset.rules@.subrange(0, nr as int) =~= ruleset.rules@);
    }
    result
}

/// The reporting-target facts one pair's scan relies on, derived from the
/// compiled flags: a reporting-target content condition is the last one of
/// its (line-target) condition, and a condition without
/// `has_reporting_target` has no reporting-target content condition.
pub open spec fn rule_flags_target_facts(rs: CompiledRuleset, p: (usize, usize)) -> bool {
    let c = pair_cond(rs, p);
    &&& (forall|j: int|
        0 <= j < c.content_conditions@.len() && (#[trigger] c.content_conditions@[j])
            .is_reporting_target ==> c.has_reporting_target && j
            == c.content_conditions@.len() - 1 && c.content_conditions@[j].condition is Match)
    &&& (c.has_reporting_target ==> c.content_conditions@.len() > 0
        && c.content_conditions@.last().is_reporting_target
        && c.content_conditions@.last().condition is Match)
}

} // verus!
