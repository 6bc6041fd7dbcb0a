//! Global statements about the engine, proved once for every ruleset and
//! every tree: what the reports of the common rule shapes are, that
//! condition order cannot matter, and which files a scan can leave
//! unread.

use crate::applier::matching_caches::has_ignore_marker;
use crate::applier::{
    cond_accepts_file, cond_path_hits, cond_satisfied, content_ok, content_size_ok,
    file_reports_of_hits, lemma_content_ok_split, lemma_file_reports_map,
    lemma_path_hits_no_content, line_matches, matching_line_numbers, node_now, reports_of_rule,
    rule_eliminated, rule_fires, spec_done, FileContent, ReportView,
};
use crate::ruleset::{
    glob_cond_hit, ContentCondition, GlobCondition, RegexCondition, Rule, SizeOperator,
};
use vstd::prelude::*;

verus! {

/// A negative path condition that any file of the tree satisfies
/// eliminates its rule, wherever in the rule the condition was declared:
/// the rule produces no report at all.
pub proof fn lemma_negative_condition_eliminates(
    r: Rule,
    k: int,
    files: Seq<FileContent>,
    i: int,
    root: Seq<char>,
)
    requires
        0 <= k < r.path_conditions@.len(),
        r.path_conditions@[k].logic is Negative,
        0 <= i < files.len(),
        glob_cond_hit(r.path_conditions@[k], files[i].path@),
    ensures
        rule_eliminated(r, files),
        !rule_fires(r, files),
        reports_of_rule(r, files, root) == Seq::<ReportView>::empty(),
{
}

/// Declaration order of path conditions cannot matter for a rule that
/// pairs a `files` condition with a `nofiles` condition: when some file
/// of the tree satisfies the `nofiles` globs, neither ordering produces
/// any report.
pub proof fn lemma_condition_order_independent(
    a: GlobCondition,
    b: GlobCondition,
    r1: Rule,
    r2: Rule,
    files: Seq<FileContent>,
    root: Seq<char>,
)
    requires
        a.logic is Positive,
        b.logic is Negative,
        r1.path_conditions@ == seq![a, b],
        r2.path_conditions@ == seq![b, a],
        exists|i: int| 0 <= i < files.len() && glob_cond_hit(b, (#[trigger] files[i]).path@),
    ensures
        reports_of_rule(r1, files, root) == Seq::<ReportView>::empty(),
        reports_of_rule(r2, files, root) == Seq::<ReportView>::empty(),
{
    let i = choose|i: int| 0 <= i < files.len() && glob_cond_hit(b, (#[trigger] files[i]).path@);
    assert(r1.path_conditions@[1] == b);
    assert(r2.path_conditions@[0] == b);
    lemma_negative_condition_eliminates(r1, 1, files, i, root);
    lemma_negative_condition_eliminates(r2, 0, files, i, root);
}

/// A positive condition is existential: a rule that is one `files`
/// condition marked as the reporting target reports every satisfying
/// file separately, one file-level report per matching file, in listing
/// order — and nothing else.
pub proof fn lemma_files_rule_reports_each_file(
    r: Rule,
    files: Seq<FileContent>,
    root: Seq<char>,
)
    requires
        files.len() <= usize::MAX,
        r.path_conditions@.len() == 1,
        r.path_conditions@[0].logic is Positive,
        r.path_conditions@[0].content_conditions@.len() == 0,
        r.path_conditions@[0].is_reporting_target,
        !r.is_reporting_target,
    ensures
        reports_of_rule(r, files, root) == file_reports_of_hits(
            r,
            root,
            files,
            cond_path_hits(r.path_conditions@[0], files),
        ),
        reports_of_rule(r, files, root).len() == cond_path_hits(
            r.path_conditions@[0],
            files,
        ).len(),
{
    let c = r.path_conditions@[0];
    lemma_path_hits_no_content(c, files);
    lemma_file_reports_map(r, c, files, root);
    assert(!rule_eliminated(r, files));
    if rule_fires(r, files) {
        assert(r.path_conditions@.last() == c);
    } else {
        assert(!cond_satisfied(c, files));
        lemma_no_hits_when_unsatisfied(c, files);
        assert(cond_path_hits(c, files) =~= Seq::<usize>::empty());
        assert(file_reports_of_hits(r, root, files, cond_path_hits(c, files))
            =~= Seq::<ReportView>::empty());
    }
}

/// An unsatisfied condition has no satisfying files.
pub proof fn lemma_no_hits_when_unsatisfied(c: GlobCondition, files: Seq<FileContent>)
    requires
        !cond_satisfied(c, files),
    ensures
        cond_full_hits_len_zero(c, files),
    decreases files.len(),
{
    if files.len() > 0 {
        assert(!cond_accepts_file(c, files.last()));
        assert forall|i: int|
            0 <= i < files.drop_last().len() implies !cond_accepts_file(
            c,
            #[trigger] files.drop_last()[i],
        ) by {
            assert(files.drop_last()[i] == files[i]);
        }
        lemma_no_hits_when_unsatisfied(c, files.drop_last());
    }
}

/// Helper form: the full-hit list of an unsatisfied condition is empty.
pub open spec fn cond_full_hits_len_zero(c: GlobCondition, files: Seq<FileContent>) -> bool {
    crate::applier::cond_full_hits(c, files).len() == 0
}

/// A negative condition is universal: a rule that is one `nofiles`
/// condition reports exactly once, at root level, when no file of the
/// tree satisfies its globs — and not once per non-matching file.
pub proof fn lemma_nofiles_rule_reports_once(r: Rule, files: Seq<FileContent>, root: Seq<char>)
    requires
        r.path_conditions@.len() == 1,
        r.path_conditions@[0].logic is Negative,
        r.is_reporting_target,
    ensures
        reports_of_rule(r, files, root) == if exists|i: int|
            0 <= i < files.len() && glob_cond_hit(r.path_conditions@[0], (#[trigger] files[i]).path@) {
            Seq::<ReportView>::empty()
        } else {
            seq![(r.number as int, r.title@, root, Option::<(Seq<char>, Option<u64>)>::None)]
        },
{
    if exists|i: int|
        0 <= i < files.len() && glob_cond_hit(r.path_conditions@[0], (#[trigger] files[i]).path@) {
        let i = choose|i: int|
            0 <= i < files.len() && glob_cond_hit(
                r.path_conditions@[0],
                (#[trigger] files[i]).path@,
            );
        lemma_negative_condition_eliminates(r, 0, files, i, root);
    } else {
        assert(!rule_eliminated(r, files));
        assert(rule_fires(r, files));
    }
}

/// A file qualifies for a condition with two `match` directives exactly
/// when each directive is satisfied by some line of the file on its own:
/// the directives are independent existentials, and the report then fires
/// at the lines satisfying the reporting target.
pub proof fn lemma_match_pair_is_two_existentials(
    c: GlobCondition,
    m1: RegexCondition,
    m2: RegexCondition,
    size: u64,
    lines: Seq<Seq<char>>,
)
    requires
        c.content_conditions@.len() == 2,
        c.content_conditions@[0].condition == ContentCondition::Match(m1),
        c.content_conditions@[1].condition == ContentCondition::Match(m2),
    ensures
        content_ok(c, size, lines) == ((exists|l: int|
            0 <= l < lines.len() && line_matches(m1, #[trigger] lines[l])) && (exists|l: int|
            0 <= l < lines.len() && line_matches(m2, #[trigger] lines[l]))),
{
    if (exists|l: int| 0 <= l < lines.len() && line_matches(m1, #[trigger] lines[l])) && (
    exists|l: int| 0 <= l < lines.len() && line_matches(m2, #[trigger] lines[l])) {
        assert forall|j: int| 0 <= j < c.content_conditions@.len() implies crate::applier::node_ok(
            #[trigger] c.content_conditions@[j],
            size,
            lines,
        ) by {
            if j == 0 {
            } else {
                assert(c.content_conditions@[j] == c.content_conditions@[1]);
            }
        }
    }
    if content_ok(c, size, lines) {
        assert(crate::applier::node_ok(c.content_conditions@[0], size, lines));
        assert(crate::applier::node_ok(c.content_conditions@[1], size, lines));
    }
}

/// Every reported line number indexes a line that the `match` directive
/// accepts.
pub proof fn lemma_line_numbers_sound(rc: RegexCondition, lines: Seq<Seq<char>>)
    requires
        lines.len() <= u64::MAX,
    ensures
        forall|x: int|
            0 <= x < matching_line_numbers(rc, lines).len()
                ==> (#[trigger] matching_line_numbers(rc, lines)[x]) < lines.len()
                && line_matches(rc, lines[matching_line_numbers(rc, lines)[x] as int]),
    decreases lines.len(),
{
    if lines.len() > 0 {
        lemma_line_numbers_sound(rc, lines.drop_last());
        let pre = matching_line_numbers(rc, lines.drop_last());
        assert forall|x: int|
            0 <= x < matching_line_numbers(rc, lines).len() implies (
        #[trigger] matching_line_numbers(rc, lines)[x]) < lines.len() && line_matches(
            rc,
            lines[matching_line_numbers(rc, lines)[x] as int],
        ) by {
            if x < pre.len() {
                assert(matching_line_numbers(rc, lines)[x] == pre[x]);
                assert(lines.drop_last()[pre[x] as int] == lines[pre[x] as int]);
            } else {
                assert(line_matches(rc, lines.last()));
                assert(matching_line_numbers(rc, lines)[x] == (lines.len() - 1) as u64);
            }
        }
    }
}

/// A line that carries the ignore marker is never among the reported
/// lines of any `match` directive.
pub proof fn lemma_marker_line_never_reported(rc: RegexCondition, lines: Seq<Seq<char>>, l: int)
    requires
        lines.len() <= u64::MAX,
        0 <= l < lines.len(),
        has_ignore_marker(lines[l]),
    ensures
        !matching_line_numbers(rc, lines).contains(l as u64),
{
    lemma_line_numbers_sound(rc, lines);
    let ms = matching_line_numbers(rc, lines);
    if ms.contains(l as u64) {
        let x = choose|x: int| 0 <= x < ms.len() && ms[x] == l as u64;
        assert(line_matches(rc, lines[l]));
        assert(false);
    }
}

/// The ignore marker plays no part in `nomatch` disqualification: whether
/// a line disqualifies depends on the regexes alone.
pub proof fn lemma_marker_does_not_shield_nomatch(rc: RegexCondition, line: Seq<char>)
    ensures
        crate::applier::nomatch_hits(rc, line) == crate::ruleset::regex_cond_hit(rc, line),
{
}

/// The engine is a function of the compiled ruleset and the tree: the
/// expected reports of two runs over equal inputs are equal, so repeated
/// runs over an unchanged tree agree report for report.
pub proof fn lemma_runs_deterministic(
    rs1: crate::ruleset::compile::CompiledRuleset,
    rs2: crate::ruleset::compile::CompiledRuleset,
    files1: Seq<FileContent>,
    files2: Seq<FileContent>,
    root: Seq<char>,
)
    requires
        rs1 == rs2,
        files1 == files2,
    ensures
        crate::applier::expected_reports(rs1, files1, root) == crate::applier::expected_reports(
            rs2,
            files2,
            root,
        ),
{
}

/// A file that fails a `size` directive from metadata alone can never
/// qualify, whatever its lines hold: reading it could not change the
/// outcome, so it is never opened.
pub proof fn lemma_size_failure_settles_the_file(
    c: GlobCondition,
    size: u64,
    lines: Seq<Seq<char>>,
)
    requires
        !content_size_ok(c, size),
    ensures
        !content_ok(c, size, lines),
{
    lemma_content_ok_split(c, size, lines);
}

/// A line-count directive that needs the final count (`lines == N`,
/// `lines <= N`, `lines < N`) never lets its pair leave the per-line scan
/// early: the whole file is streamed unless the pair is removed some
/// other way.
pub proof fn lemma_final_count_streams_whole_file(
    c: GlobCondition,
    j: int,
    op: SizeOperator,
    value: u64,
    fed: Seq<Seq<char>>,
)
    requires
        0 <= j < c.content_conditions@.len(),
        c.content_conditions@[j].condition == ContentCondition::Lines(
            crate::ruleset::SizeCondition { operator: op, value },
        ),
        op is Equal || op is LessEqual || op is Less,
    ensures
        !spec_done(c, fed),
{
    assert(!node_now(c.content_conditions@[j], fed));
}

} // verus!
