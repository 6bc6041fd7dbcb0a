//! Compilation of a ruleset into an indexed evaluation plan: every rule,
//! path condition and content condition takes a globally unique dense
//! number, every distinct pattern takes a dense id, and each rule's single
//! reporting target is marked.

use crate::ruleset::enumerator::{table_distinct, table_prefix_of, Enumerator};
use crate::ruleset::{
    glob_key, ContentCondition, ContentConditionNode, Glob, GlobCondition, ConditionLogic,
    Regex, RegexCondition, Rule, Ruleset, is_linewise,
};
use vstd::pervasive::unreached;
use vstd::prelude::*;

verus! {

/// A glob is registered: its id points at its key in the table.
pub open spec fn wf_glob(g: Glob, keys: Seq<Seq<char>>) -> bool {
    g.spec_id() < keys.len() && keys[g.spec_id() as int] == glob_key(g.spec_text(), g.spec_scope())
}

pub open spec fn wf_globs(v: Seq<Glob>, keys: Seq<Seq<char>>) -> bool {
    forall|i: int| 0 <= i < v.len() ==> wf_glob(#[trigger] v[i], keys)
}

/// A regex is registered: its id points at its text in the table.
pub open spec fn wf_regex(x: Regex, keys: Seq<Seq<char>>) -> bool {
    x.spec_id() < keys.len() && keys[x.spec_id() as int] == x.spec_text()
}

pub open spec fn wf_regexes(v: Seq<Regex>, keys: Seq<Seq<char>>) -> bool {
    forall|i: int| 0 <= i < v.len() ==> wf_regex(#[trigger] v[i], keys)
}

pub open spec fn wf_regex_cond(rc: RegexCondition, keys: Seq<Seq<char>>) -> bool {
    wf_regexes(rc.patterns@, keys) && wf_regexes(rc.excludes@, keys)
}

pub open spec fn node_regexes_wf(node: ContentConditionNode, keys: Seq<Seq<char>>) -> bool {
    match node.condition {
        ContentCondition::Match(rc) => wf_regex_cond(rc, keys),
        ContentCondition::NoMatch(rc) => wf_regex_cond(rc, keys),
        _ => true,
    }
}

/// All patterns of every condition of the rule are registered.
pub open spec fn rule_patterns_wf(r: Rule, gk: Seq<Seq<char>>, rk: Seq<Seq<char>>) -> bool {
    forall|k: int|
        0 <= k < r.path_conditions@.len() ==> {
            let c = #[trigger] r.path_conditions@[k];
            wf_globs(c.patterns@, gk) && wf_globs(c.excludes@, gk) && forall|j: int|
                0 <= j < c.content_conditions@.len() ==> node_regexes_wf(
                    #[trigger] c.content_conditions@[j],
                    rk,
                )
        }
}

/// How many condition numbers a path condition consumes: one for itself
/// and one per content condition.
pub open spec fn cond_weight(c: GlobCondition) -> int {
    1 + c.content_conditions@.len() as int
}

pub open spec fn conds_weight(s: Seq<GlobCondition>) -> int
    decreases s.len(),
{
    if s.len() == 0 {
        0
    } else {
        cond_weight(s.first()) + conds_weight(s.drop_first())
    }
}

pub open spec fn rules_weight(s: Seq<Rule>) -> int
    decreases s.len(),
{
    if s.len() == 0 {
        0
    } else {
        conds_weight(s.first().path_conditions@) + rules_weight(s.drop_first())
    }
}

pub proof fn lemma_conds_weight_nonneg(s: Seq<GlobCondition>)
    ensures
        conds_weight(s) >= 0,
    decreases s.len(),
{
    if s.len() > 0 {
        lemma_conds_weight_nonneg(s.drop_first());
    }
}

pub proof fn lemma_rules_weight_nonneg(s: Seq<Rule>)
    ensures
        rules_weight(s) >= 0,
    decreases s.len(),
{
    if s.len() > 0 {
        lemma_conds_weight_nonneg(s.first().path_conditions@);
        lemma_rules_weight_nonneg(s.drop_first());
    }
}

pub proof fn lemma_conds_weight_push(s: Seq<GlobCondition>, c: GlobCondition)
    ensures
        conds_weight(s.push(c)) == conds_weight(s) + cond_weight(c),
    decreases s.len(),
{
    if s.len() == 0 {
        assert(s.push(c).first() == c);
        assert(s.push(c).drop_first() =~= Seq::<GlobCondition>::empty());
        assert(conds_weight(s.push(c).drop_first()) == 0);
        assert(conds_weight(s.push(c)) == cond_weight(c));
    } else {
        assert(s.push(c).first() == s.first());
        assert(s.push(c).drop_first() =~= s.drop_first().push(c));
        lemma_conds_weight_push(s.drop_first(), c);
        assert(conds_weight(s.push(c)) == cond_weight(s.first()) + conds_weight(
            s.drop_first().push(c),
        ));
    }
}

pub proof fn lemma_rules_weight_push(s: Seq<Rule>, r: Rule)
    ensures
        rules_weight(s.push(r)) == rules_weight(s) + conds_weight(r.path_conditions@),
    decreases s.len(),
{
    if s.len() == 0 {
        assert(s.push(r).first() == r);
        assert(s.push(r).drop_first() =~= Seq::<Rule>::empty());
        assert(rules_weight(s.push(r).drop_first()) == 0);
        assert(rules_weight(s.push(r)) == conds_weight(r.path_conditions@));
    } else {
        assert(s.push(r).first() == s.first());
        assert(s.push(r).drop_first() =~= s.drop_first().push(r));
        lemma_rules_weight_push(s.drop_first(), r);
        assert(rules_weight(s.push(r)) == conds_weight(s.first().path_conditions@) + rules_weight(
            s.drop_first().push(r),
        ));
    }
}

/// The weight depends only on how many content conditions each path
/// condition carries.
pub proof fn lemma_conds_weight_pointwise(a: Seq<GlobCondition>, b: Seq<GlobCondition>)
    requires
        a.len() == b.len(),
        forall|k: int|
            0 <= k < a.len() ==> (#[trigger] b[k]).content_conditions@.len()
                == a[k].content_conditions@.len(),
    ensures
        conds_weight(b) == conds_weight(a),
    decreases a.len(),
{
    if a.len() > 0 {
        assert(b.first().content_conditions@.len() == a.first().content_conditions@.len());
        assert forall|k: int|
            0 <= k < a.drop_first().len() implies (#[trigger] b.drop_first()[k])
            .content_conditions@.len() == a.drop_first()[k].content_conditions@.len() by {
            assert(a.drop_first()[k] == a[k + 1]);
            assert(b.drop_first()[k] == b[k + 1]);
        }
        lemma_conds_weight_pointwise(a.drop_first(), b.drop_first());
    }
}

/// The numbers are assigned by one compile-time walk in declaration
/// order: each path condition starts right after everything declared
/// before it, and its content conditions follow it directly, so together
/// they cover exactly `0 .. rules_weight(rules)`.
pub open spec fn rules_numbered_in_walk_order(rules: Seq<Rule>) -> bool {
    forall|i: int, k: int|
        0 <= i < rules.len() && 0 <= k < rules[i].path_conditions@.len() ==> {
            let c = #[trigger] rules[i].path_conditions@[k];
            c.number as int == rules_weight(rules.subrange(0, i)) + conds_weight(
                rules[i].path_conditions@.subrange(0, k),
            ) && forall|j: int|
                0 <= j < c.content_conditions@.len() ==> (#[trigger] c.content_conditions@[j])
                    .number as int == c.number + 1 + j
        }
}

/// Duplicate glob patterns, even across rules, collapse to one dense id:
/// two registered globs with the same text and scope share it.
pub proof fn lemma_duplicate_globs_collapse(rs: CompiledRuleset, g1: Glob, g2: Glob)
    requires
        rs.wf(),
        wf_glob(g1, rs.glob_keys@),
        wf_glob(g2, rs.glob_keys@),
        g1.spec_text() == g2.spec_text(),
        g1.spec_scope() == g2.spec_scope(),
    ensures
        g1.spec_id() == g2.spec_id(),
{
    if g1.spec_id() != g2.spec_id() {
        assert(rs.glob_keys@[g1.spec_id() as int] == rs.glob_keys@[g2.spec_id() as int]);
        if g1.spec_id() < g2.spec_id() {
            assert(rs.glob_keys@[g1.spec_id() as int] != rs.glob_keys@[g2.spec_id() as int]);
        } else {
            assert(rs.glob_keys@[g2.spec_id() as int] != rs.glob_keys@[g1.spec_id() as int]);
        }
    }
}

/// Duplicate regex patterns collapse to one dense id likewise.
pub proof fn lemma_duplicate_regexes_collapse(rs: CompiledRuleset, x1: Regex, x2: Regex)
    requires
        rs.wf(),
        wf_regex(x1, rs.regex_keys@),
        wf_regex(x2, rs.regex_keys@),
        x1.spec_text() == x2.spec_text(),
    ensures
        x1.spec_id() == x2.spec_id(),
{
    if x1.spec_id() != x2.spec_id() {
        assert(rs.regex_keys@[x1.spec_id() as int] == rs.regex_keys@[x2.spec_id() as int]);
        if x1.spec_id() < x2.spec_id() {
            assert(rs.regex_keys@[x1.spec_id() as int] != rs.regex_keys@[x2.spec_id() as int]);
        } else {
            assert(rs.regex_keys@[x2.spec_id() as int] != rs.regex_keys@[x1.spec_id() as int]);
        }
    }
}

/// The linewise content conditions of a list: all but `size` checks.
pub open spec fn linewise_count(s: Seq<ContentConditionNode>) -> int
    decreases s.len(),
{
    if s.len() == 0 {
        0
    } else {
        (if is_linewise(s.first().condition) {
            1int
        } else {
            0int
        }) + linewise_count(s.drop_first())
    }
}

pub proof fn lemma_linewise_count_bounds(s: Seq<ContentConditionNode>)
    ensures
        0 <= linewise_count(s) <= s.len(),
    decreases s.len(),
{
    if s.len() > 0 {
        lemma_linewise_count_bounds(s.drop_first());
    }
}

/// Whether condition number `n` belongs to this path condition or one of
/// its content conditions.
pub open spec fn cond_has_number(c: GlobCondition, n: int) -> bool {
    c.number == n || exists|j: int|
        0 <= j < c.content_conditions@.len() && (#[trigger] c.content_conditions@[j]).number == n
}

/// Whether condition number `n` belongs to the rule.
pub open spec fn rule_has_number(r: Rule, n: int) -> bool {
    exists|k: int| 0 <= k < r.path_conditions@.len() && cond_has_number(
        #[trigger] r.path_conditions@[k],
        n,
    )
}

/// All condition numbers of the path condition lie in `[lo, hi)`.
pub open spec fn cond_numbers_in(c: GlobCondition, lo: int, hi: int) -> bool {
    lo <= c.number < hi && forall|j: int|
        0 <= j < c.content_conditions@.len() ==> lo <= (#[trigger] c.content_conditions@[j]).number
            < hi
}

/// All condition numbers of the rule lie in `[lo, hi)`.
pub open spec fn rule_numbers_in(r: Rule, lo: int, hi: int) -> bool {
    forall|k: int|
        0 <= k < r.path_conditions@.len() ==> cond_numbers_in(
            #[trigger] r.path_conditions@[k],
            lo,
            hi,
        )
}

/// The numbers within one path condition are pairwise distinct.
pub open spec fn cond_numbers_distinct(c: GlobCondition) -> bool {
    (forall|j: int|
        0 <= j < c.content_conditions@.len() ==> (#[trigger] c.content_conditions@[j]).number
            != c.number) && forall|j1: int, j2: int|
        0 <= j1 < j2 < c.content_conditions@.len() ==> c.content_conditions@[j1].number
            != c.content_conditions@[j2].number
}

/// The numbers of all conditions of the rule are pairwise distinct.
pub open spec fn rule_numbers_distinct(r: Rule) -> bool {
    (forall|k: int|
        0 <= k < r.path_conditions@.len() ==> cond_numbers_distinct(
            #[trigger] r.path_conditions@[k],
        )) && forall|k1: int, k2: int, n: int|
        0 <= k1 < k2 < r.path_conditions@.len() ==> !(cond_has_number(r.path_conditions@[k1], n)
            && cond_has_number(r.path_conditions@[k2], n))
}

/// The numbers of all rules are pairwise distinct.
pub open spec fn rules_numbers_distinct(rules: Seq<Rule>) -> bool {
    (forall|r: int| 0 <= r < rules.len() ==> rule_numbers_distinct(#[trigger] rules[r]))
        && forall|r1: int, r2: int, n: int|
        0 <= r1 < r2 < rules.len() ==> !(rule_has_number(rules[r1], n) && rule_has_number(
            rules[r2],
            n,
        ))
}

/// No reporting flag of the condition is set.
pub open spec fn cond_content_flags_clear(c: GlobCondition) -> bool {
    forall|j: int|
        0 <= j < c.content_conditions@.len() ==> !(#[trigger] c.content_conditions@[j])
            .is_reporting_target
}

pub open spec fn cond_flags_clear(c: GlobCondition) -> bool {
    !c.is_reporting_target && !c.has_reporting_target && cond_content_flags_clear(c)
}

pub open spec fn rule_flags_clear(r: Rule) -> bool {
    !r.is_reporting_target && forall|k: int|
        0 <= k < r.path_conditions@.len() ==> cond_flags_clear(#[trigger] r.path_conditions@[k])
}

/// Exactly one reporting target per rule, placed as the last declared
/// directive allows: the last content condition of the last path condition
/// when that is a `match` under a positive condition; else the last path
/// condition itself when positive; else the rule.
pub open spec fn rule_flags_ok(r: Rule) -> bool {
    let pc = r.path_conditions@;
    if pc.len() == 0 {
        r.is_reporting_target
    } else {
        let lastc = pc.last();
        (forall|k: int| 0 <= k < pc.len() - 1 ==> cond_flags_clear(#[trigger] pc[k])) && if lastc.logic
            is Negative {
            r.is_reporting_target && cond_flags_clear(lastc)
        } else if lastc.content_conditions@.len() > 0 && lastc.content_conditions@.last().condition
            is Match {
            !r.is_reporting_target && !lastc.is_reporting_target && lastc.has_reporting_target
                && (forall|j: int|
                0 <= j < lastc.content_conditions@.len() - 1
                    ==> !(#[trigger] lastc.content_conditions@[j]).is_reporting_target)
                && lastc.content_conditions@.last().is_reporting_target
        } else {
            !r.is_reporting_target && lastc.is_reporting_target && !lastc.has_reporting_target
                && cond_content_flags_clear(lastc)
        }
    }
}

/// Same glob text and scope; the dense id may differ.
pub open spec fn glob_like(a: Glob, b: Glob) -> bool {
    b.spec_text() == a.spec_text() && b.spec_scope() == a.spec_scope()
}

pub open spec fn globs_like(a: Seq<Glob>, b: Seq<Glob>) -> bool {
    a.len() == b.len() && forall|i: int| 0 <= i < a.len() ==> glob_like(a[i], #[trigger] b[i])
}

pub open spec fn regexes_like(a: Seq<Regex>, b: Seq<Regex>) -> bool {
    a.len() == b.len() && forall|i: int|
        0 <= i < a.len() ==> (#[trigger] b[i]).spec_text() == a[i].spec_text()
}

pub open spec fn regex_cond_like(a: RegexCondition, b: RegexCondition) -> bool {
    regexes_like(a.patterns@, b.patterns@) && regexes_like(a.excludes@, b.excludes@)
}

/// Same content directive: same variant, same patterns or threshold.
pub open spec fn content_like(a: ContentCondition, b: ContentCondition) -> bool {
    match (a, b) {
        (ContentCondition::Match(x), ContentCondition::Match(y)) => regex_cond_like(x, y),
        (ContentCondition::NoMatch(x), ContentCondition::NoMatch(y)) => regex_cond_like(x, y),
        (ContentCondition::Size(x), ContentCondition::Size(y)) => x == y,
        (ContentCondition::Lines(x), ContentCondition::Lines(y)) => x == y,
        _ => false,
    }
}

/// Same directive chain: numbering, ids and flags aside, nothing changed.
pub open spec fn cond_like(a: GlobCondition, b: GlobCondition) -> bool {
    b.logic == a.logic && globs_like(a.patterns@, b.patterns@) && globs_like(
        a.excludes@,
        b.excludes@,
    ) && a.content_conditions@.len() == b.content_conditions@.len() && forall|j: int|
        0 <= j < a.content_conditions@.len() ==> content_like(
            a.content_conditions@[j].condition,
            (#[trigger] b.content_conditions@[j]).condition,
        )
}

pub open spec fn rule_like(a: Rule, b: Rule) -> bool {
    b.title@ == a.title@ && b.tags@ == a.tags@ && a.path_conditions@.len()
        == b.path_conditions@.len() && forall|k: int|
        0 <= k < a.path_conditions@.len() ==> cond_like(
            a.path_conditions@[k],
            #[trigger] b.path_conditions@[k],
        )
}

/// A compiled ruleset: densely renumbered rules plus the table sizes the
/// matching phases allocate their vectors from.
pub struct CompiledRuleset {
    pub rules: Vec<Rule>,
    pub conditions_count: usize,
    pub globs_count: usize,
    pub regexes_count: usize,
    pub glob_keys: Ghost<Seq<Seq<char>>>,
    pub regex_keys: Ghost<Seq<Seq<char>>>,
}

impl CompiledRuleset {
    /// The compile-time invariant every matching phase relies on: dense
    /// unique numbering below `conditions_count`, registered patterns,
    /// exact linewise counts, and one reporting target per rule.
    pub open spec fn wf(self) -> bool {
        &&& self.glob_keys@.len() == self.globs_count
        &&& self.regex_keys@.len() == self.regexes_count
        &&& forall|r: int| 0 <= r < self.rules@.len() ==> (#[trigger] self.rules@[r]).number == r
        &&& forall|r: int|
            0 <= r < self.rules@.len() ==> rule_numbers_in(
                #[trigger] self.rules@[r],
                0,
                self.conditions_count as int,
            )
        &&& rules_numbers_distinct(self.rules@)
        &&& forall|r: int|
            0 <= r < self.rules@.len() ==> rule_patterns_wf(
                #[trigger] self.rules@[r],
                self.glob_keys@,
                self.regex_keys@,
            )
        &&& forall|r: int|
            0 <= r < self.rules@.len() ==> rule_linewise_ok(#[trigger] self.rules@[r])
        &&& forall|r: int| 0 <= r < self.rules@.len() ==> rule_flags_ok(#[trigger] self.rules@[r])
        &&& table_distinct(self.glob_keys@)
        &&& table_distinct(self.regex_keys@)
        &&& self.conditions_count as int == rules_weight(self.rules@)
        &&& rules_numbered_in_walk_order(self.rules@)
    }
}

/// Every condition's stored linewise count is exact.
pub open spec fn rule_linewise_ok(r: Rule) -> bool {
    forall|k: int|
        0 <= k < r.path_conditions@.len() ==> (#[trigger] r.path_conditions@[k])
            .linewise_content_conditions_count == linewise_count(
            r.path_conditions@[k].content_conditions@,
        )
}

/// Whether this content condition requires file lines to be processed.
///
/// Matching and counting lines does, but checking file size does not.
pub fn is_linewise_condition(condition: &ContentCondition) -> (r: bool)
    ensures
        r == is_linewise(*condition),
{
    match condition {
        ContentCondition::Match(_) => true,
        ContentCondition::NoMatch(_) => true,
        ContentCondition::Size(_) => false,
        ContentCondition::Lines(_) => true,
    }
}

fn enumerate_globs(v: &mut Vec<Glob>, enumerator: &mut Enumerator)
    ensures
        globs_like(old(v)@, final(v)@),
        wf_globs(final(v)@, final(enumerator)@),
        table_prefix_of(old(enumerator)@, final(enumerator)@),
        table_distinct(old(enumerator)@) ==> table_distinct(final(enumerator)@),
{
    let mut out: Vec<Glob> = Vec::new();
    let ghost orig = v@;
    while v.len() > 0
        invariant
            out@.len() + v@.len() == orig.len(),
            v@ == orig.subrange(orig.len() - v@.len(), orig.len() as int),
            globs_like(orig.subrange(0, out@.len() as int), out@),
            wf_globs(out@, enumerator@),
            table_prefix_of(old(enumerator)@, enumerator@),
            table_distinct(old(enumerator)@) ==> table_distinct(enumerator@),
        decreases v@.len(),
    {
        let ghost done = out@.len() as int;
        let mut g = v.remove(0);
        proof {
            assert(g == orig[done]);
            assert(v@ =~= orig.subrange(done + 1, orig.len() as int));
        }
        let ghost before = enumerator@;
        g.enumerate_with(enumerator);
        proof {
            assert forall|i: int| 0 <= i < out@.len() implies wf_glob(#[trigger] out@[i],
                enumerator@,
            ) by {
                assert(wf_glob(out@[i], before));
            }
        }
        out.push(g);
        proof {
            assert(orig.subrange(0, done + 1).drop_last() =~= orig.subrange(0, done));
            assert(orig.subrange(0, done + 1).last() == orig[done]);
        }
    }
    proof {
        assert(orig.subrange(0, orig.len() as int) =~= orig);
    }
    *v = out;
}

fn enumerate_regexes(v: &mut Vec<Regex>, enumerator: &mut Enumerator)
    ensures
        regexes_like(old(v)@, final(v)@),
        wf_regexes(final(v)@, final(enumerator)@),
        table_prefix_of(old(enumerator)@, final(enumerator)@),
        table_distinct(old(enumerator)@) ==> table_distinct(final(enumerator)@),
{
    let mut out: Vec<Regex> = Vec::new();
    let ghost orig = v@;
    while v.len() > 0
        invariant
            out@.len() + v@.len() == orig.len(),
            v@ == orig.subrange(orig.len() - v@.len(), orig.len() as int),
            regexes_like(orig.subrange(0, out@.len() as int), out@),
            wf_regexes(out@, enumerator@),
            table_prefix_of(old(enumerator)@, enumerator@),
            table_distinct(old(enumerator)@) ==> table_distinct(enumerator@),
        decreases v@.len(),
    {
        let ghost done = out@.len() as int;
        let mut x = v.remove(0);
        proof {
            assert(x == orig[done]);
            assert(v@ =~= orig.subrange(done + 1, orig.len() as int));
        }
        let ghost before = enumerator@;
        x.enumerate_with(enumerator);
        proof {
            assert forall|i: int| 0 <= i < out@.len() implies wf_regex(#[trigger] out@[i],
                enumerator@,
            ) by {
                assert(wf_regex(out@[i], before));
            }
        }
        out.push(x);
        proof {
            assert(orig.subrange(0, done + 1).drop_last() =~= orig.subrange(0, done));
            assert(orig.subrange(0, done + 1).last() == orig[done]);
        }
    }
    proof {
        assert(orig.subrange(0, orig.len() as int) =~= orig);
    }
    *v = out;
}

fn enumerate_regex_condition(condition: &mut RegexCondition, enumerator: &mut Enumerator)
    ensures
        regex_cond_like(*old(condition), *final(condition)),
        wf_regex_cond(*final(condition), final(enumerator)@),
        table_prefix_of(old(enumerator)@, final(enumerator)@),
        table_distinct(old(enumerator)@) ==> table_distinct(final(enumerator)@),
{
    let ghost before = enumerator@;
    enumerate_regexes(&mut condition.patterns, enumerator);
    let ghost mid = enumerator@;
    enumerate_regexes(&mut condition.excludes, enumerator);
    proof {
        assert forall|i: int| 0 <= i < condition.patterns@.len() implies wf_regex(
            #[trigger] condition.patterns@[i],
            enumerator@,
        ) by {
            assert(wf_regex(condition.patterns@[i], mid));
        }
    }
}

/// Numbers one path condition and its content conditions, registers its
/// patterns, and recomputes its linewise count.
fn compile_cond(
    cond: GlobCondition,
    counter: &mut usize,
    glob_enumerator: &mut Enumerator,
    regex_enumerator: &mut Enumerator,
) -> (r: GlobCondition)
    requires
        cond_flags_clear(cond),
        *old(counter) + cond_weight(cond) <= usize::MAX,
    ensures
        cond_like(cond, r),
        cond_flags_clear(r),
        *final(counter) == *old(counter) + cond_weight(cond),
        r.number == *old(counter),
        forall|j: int|
            0 <= j < r.content_conditions@.len() ==> (#[trigger] r.content_conditions@[j]).number
                == *old(counter) + 1 + j,
        r.linewise_content_conditions_count == linewise_count(r.content_conditions@),
        wf_globs(r.patterns@, final(glob_enumerator)@),
        wf_globs(r.excludes@, final(glob_enumerator)@),
        forall|j: int|
            0 <= j < r.content_conditions@.len() ==> node_regexes_wf(
                #[trigger] r.content_conditions@[j],
                final(regex_enumerator)@,
            ),
        table_prefix_of(old(glob_enumerator)@, final(glob_enumerator)@),
        table_prefix_of(old(regex_enumerator)@, final(regex_enumerator)@),
        table_distinct(old(glob_enumerator)@) ==> table_distinct(final(glob_enumerator)@),
        table_distinct(old(regex_enumerator)@) ==> table_distinct(final(regex_enumerator)@),
{
    let GlobCondition {
        number: _,
        logic,
        mut patterns,
        mut excludes,
        content_conditions,
        linewise_content_conditions_count: _,
        is_reporting_target: _,
        has_reporting_target: _,
    } = cond;
    let base: usize = *counter;
    *counter = *counter + 1;
    enumerate_globs(&mut patterns, glob_enumerator);
    let ghost gmid = glob_enumerator@;
    enumerate_globs(&mut excludes, glob_enumerator);
    proof {
        assert forall|i: int| 0 <= i < patterns@.len() implies wf_glob(
            #[trigger] patterns@[i],
            glob_enumerator@,
        ) by {
            assert(wf_glob(patterns@[i], gmid));
        }
    }
    let ghost orig_nodes = content_conditions@;
    let mut nodes = content_conditions;
    let mut out_nodes: Vec<ContentConditionNode> = Vec::new();
    let mut lw: usize = 0;
    while nodes.len() > 0
        invariant
            out_nodes@.len() + nodes@.len() == orig_nodes.len(),
            nodes@ == orig_nodes.subrange(
                orig_nodes.len() - nodes@.len(),
                orig_nodes.len() as int,
            ),
            *counter == base + 1 + out_nodes@.len(),
            base + 1 + orig_nodes.len() <= usize::MAX,
            forall|j: int|
                0 <= j < out_nodes@.len() ==> content_like(
                    orig_nodes[j].condition,
                    (#[trigger] out_nodes@[j]).condition,
                ),
            forall|j: int|
                0 <= j < out_nodes@.len() ==> (#[trigger] out_nodes@[j]).number == base + 1 + j,
            forall|j: int|
                0 <= j < out_nodes@.len() ==> !(#[trigger] out_nodes@[j]).is_reporting_target,
            forall|j: int|
                0 <= j < out_nodes@.len() ==> node_regexes_wf(
                    #[trigger] out_nodes@[j],
                    regex_enumerator@,
                ),
            lw == linewise_count(orig_nodes.subrange(0, out_nodes@.len() as int)),
            lw <= out_nodes@.len(),
            table_prefix_of(old(regex_enumerator)@, regex_enumerator@),
            table_distinct(old(regex_enumerator)@) ==> table_distinct(regex_enumerator@),
        decreases nodes@.len(),
    {
        let ghost done = out_nodes@.len() as int;
        let node = nodes.remove(0);
        proof {
            assert(node == orig_nodes[done]);
            assert(nodes@ =~= orig_nodes.subrange(done + 1, orig_nodes.len() as int));
            crate::ruleset::compile::lemma_linewise_count_step(orig_nodes, done);
        }
        let number: usize = *counter;
        *counter = *counter + 1;
        if is_linewise_condition(&node.condition) {
            lw = lw + 1;
        }
        let ghost rbefore = regex_enumerator@;
        let new_condition = match node.condition {
            ContentCondition::Match(mut rc) => {
                enumerate_regex_condition(&mut rc, regex_enumerator);
                ContentCondition::Match(rc)
            },
            ContentCondition::NoMatch(mut rc) => {
                enumerate_regex_condition(&mut rc, regex_enumerator);
                ContentCondition::NoMatch(rc)
            },
            ContentCondition::Size(sc) => ContentCondition::Size(sc),
            ContentCondition::Lines(sc) => ContentCondition::Lines(sc),
        };
        proof {
            assert forall|j: int| 0 <= j < out_nodes@.len() implies node_regexes_wf(
                #[trigger] out_nodes@[j],
                regex_enumerator@,
            ) by {
                crate::ruleset::compile::lemma_node_wf_prefix(out_nodes@[j], rbefore,
                    regex_enumerator@);
            }
        }
        out_nodes.push(
            ContentConditionNode { number, is_reporting_target: false, condition: new_condition },
        );
    }
    proof {
        assert(orig_nodes.subrange(0, orig_nodes.len() as int) =~= orig_nodes);
        lemma_linewise_like(orig_nodes, out_nodes@);
    }
    GlobCondition {
        number: base,
        logic,
        patterns,
        excludes,
        content_conditions: out_nodes,
        linewise_content_conditions_count: lw,
        is_reporting_target: false,
        has_reporting_target: false,
    }
}

/// The linewise count of a prefix grows by the next node's kind.
pub proof fn lemma_linewise_count_step(s: Seq<ContentConditionNode>, i: int)
    requires
        0 <= i < s.len(),
    ensures
        linewise_count(s.subrange(0, i + 1)) == linewise_count(s.subrange(0, i)) + if is_linewise(
            s[i].condition,
        ) {
            1int
        } else {
            0int
        },
    decreases i,
{
    if i == 0 {
        assert(s.subrange(0, 1).first() == s[0]);
        assert(s.subrange(0, 1).drop_first() =~= s.subrange(0, 0));
    } else {
        assert(s.subrange(0, i + 1).first() == s[0]);
        assert(s.subrange(0, i).first() == s[0]);
        assert(s.subrange(0, i + 1).drop_first() =~= s.subrange(1, s.len() as int).subrange(
            0,
            i,
        ));
        assert(s.subrange(0, i).drop_first() =~= s.subrange(1, s.len() as int).subrange(
            0,
            i - 1,
        ));
        lemma_linewise_count_step(s.subrange(1, s.len() as int), i - 1);
        assert(s.subrange(1, s.len() as int)[i - 1] == s[i]);
    }
}

/// Equal but for reporting flags.
pub open spec fn node_eq_mod_flags(a: ContentConditionNode, b: ContentConditionNode) -> bool {
    b.number == a.number && b.condition == a.condition
}

/// Equal but for reporting flags: numbers, logic, patterns and counts all
/// carry over.
pub open spec fn cond_eq_mod_flags(a: GlobCondition, b: GlobCondition) -> bool {
    &&& b.number == a.number
    &&& b.logic == a.logic
    &&& b.patterns@ == a.patterns@
    &&& b.excludes@ == a.excludes@
    &&& b.linewise_content_conditions_count == a.linewise_content_conditions_count
    &&& b.content_conditions@.len() == a.content_conditions@.len()
    &&& forall|j: int|
        0 <= j < a.content_conditions@.len() ==> node_eq_mod_flags(
            a.content_conditions@[j],
            #[trigger] b.content_conditions@[j],
        )
}

/// Marks this rule's single reporting target: the last content condition
/// of the last path condition when that is a `match` under a positive
/// condition, else the last path condition itself when positive, else the
/// rule.
fn set_reporting_target(rule: &mut Rule)
    requires
        rule_flags_clear(*old(rule)),
    ensures
        final(rule).number == old(rule).number,
        final(rule).title == old(rule).title,
        final(rule).tags == old(rule).tags,
        final(rule).path_conditions@.len() == old(rule).path_conditions@.len(),
        forall|k: int|
            0 <= k < old(rule).path_conditions@.len() ==> cond_eq_mod_flags(
                old(rule).path_conditions@[k],
                #[trigger] final(rule).path_conditions@[k],
            ),
        rule_flags_ok(*final(rule)),
{
    let n = rule.path_conditions.len();
    if n == 0 {
        rule.is_reporting_target = true;
        return ;
    }
    let mut lastc = match rule.path_conditions.pop() {
        Some(c) => c,
        None => {
            proof {
                assert(false);
            }
            unreached()
        },
    };
    let is_positive = matches!(lastc.logic, ConditionLogic::Positive);
    if !is_positive {
        rule.path_conditions.push(lastc);
        rule.is_reporting_target = true;
        return ;
    }
    let m = lastc.content_conditions.len();
    if m > 0 {
        let mut lastn = match lastc.content_conditions.pop() {
            Some(x) => x,
            None => {
                proof {
                    assert(false);
                }
                unreached()
            },
        };
        if matches!(lastn.condition, ContentCondition::Match(_)) {
            lastn.is_reporting_target = true;
            lastc.content_conditions.push(lastn);
            lastc.has_reporting_target = true;
            rule.path_conditions.push(lastc);
            proof {
                assert(final(rule).path_conditions@.last().content_conditions@
                    =~= old(rule).path_conditions@.last().content_conditions@.drop_last().push(
                    lastn,
                ));
            }
            return ;
        }
        lastc.content_conditions.push(lastn);
        proof {
            assert(lastc.content_conditions@ =~= old(
                rule,
            ).path_conditions@.last().content_conditions@);
        }
    }
    lastc.is_reporting_target = true;
    rule.path_conditions.push(lastc);
}

/// Numbers one rule's conditions from the running counter, registers its
/// patterns, and marks its reporting target.
fn compile_rule(
    rule: Rule,
    idx: usize,
    counter: &mut usize,
    glob_enumerator: &mut Enumerator,
    regex_enumerator: &mut Enumerator,
) -> (r: Rule)
    requires
        rule_flags_clear(rule),
        *old(counter) + conds_weight(rule.path_conditions@) <= usize::MAX,
    ensures
        rule_like(rule, r),
        r.number == idx,
        *final(counter) == *old(counter) + conds_weight(rule.path_conditions@),
        *final(counter) == *old(counter) + conds_weight(r.path_conditions@),
        rule_numbers_in(r, *old(counter) as int, *final(counter) as int),
        rule_numbers_distinct(r),
        forall|k: int|
            0 <= k < r.path_conditions@.len() ==> (#[trigger] r.path_conditions@[k]).number as int
                == *old(counter) + conds_weight(r.path_conditions@.subrange(0, k)) && forall|
            j: int|
                0 <= j < r.path_conditions@[k].content_conditions@.len() ==> (
                #[trigger] r.path_conditions@[k].content_conditions@[j]).number as int
                    == r.path_conditions@[k].number + 1 + j,
        rule_patterns_wf(r, final(glob_enumerator)@, final(regex_enumerator)@),
        rule_linewise_ok(r),
        rule_flags_ok(r),
        table_prefix_of(old(glob_enumerator)@, final(glob_enumerator)@),
        table_prefix_of(old(regex_enumerator)@, final(regex_enumerator)@),
        table_distinct(old(glob_enumerator)@) ==> table_distinct(final(glob_enumerator)@),
        table_distinct(old(regex_enumerator)@) ==> table_distinct(final(regex_enumerator)@),
{
    let ghost start = *counter as int;
    let ghost rule0 = rule;
    let ghost orig = rule.path_conditions@;
    proof {
        lemma_conds_weight_nonneg(orig);
        assert(forall|k: int| 0 <= k < orig.len() ==> cond_flags_clear(#[trigger] orig[k]));
    }
    let Rule { number: _, title, tags, path_conditions, is_reporting_target: _ } = rule;
    proof {
        assert(title == rule0.title);
        assert(tags == rule0.tags);
        assert(path_conditions@ == orig);
    }
    let mut conds = path_conditions;
    let mut out_conds: Vec<GlobCondition> = Vec::new();
    while conds.len() > 0
        invariant
            out_conds@.len() + conds@.len() == orig.len(),
            conds@ == orig.subrange(orig.len() - conds@.len(), orig.len() as int),
            forall|k: int| 0 <= k < orig.len() ==> cond_flags_clear(#[trigger] orig[k]),
            *counter + conds_weight(conds@) == start + conds_weight(orig),
            *counter == start + conds_weight(out_conds@),
            start <= *counter,
            start + conds_weight(orig) <= usize::MAX,
            forall|k: int|
                0 <= k < out_conds@.len() ==> cond_like(orig[k], #[trigger] out_conds@[k]),
            forall|k: int|
                0 <= k < out_conds@.len() ==> cond_flags_clear(#[trigger] out_conds@[k]),
            forall|k: int|
                0 <= k < out_conds@.len() ==> cond_numbers_in(
                    #[trigger] out_conds@[k],
                    start,
                    *counter as int,
                ),
            forall|k: int|
                0 <= k < out_conds@.len() ==> cond_numbers_distinct(#[trigger] out_conds@[k]),
            forall|k1: int, k2: int, n: int|
                0 <= k1 < k2 < out_conds@.len() ==> !(cond_has_number(out_conds@[k1], n)
                    && cond_has_number(out_conds@[k2], n)),
            forall|k: int|
                0 <= k < out_conds@.len() ==> (#[trigger] out_conds@[k]).number as int == start
                    + conds_weight(out_conds@.subrange(0, k)) && forall|j: int|
                    0 <= j < out_conds@[k].content_conditions@.len() ==> (
                    #[trigger] out_conds@[k].content_conditions@[j]).number as int
                        == out_conds@[k].number + 1 + j,
            forall|k: int|
                0 <= k < out_conds@.len() ==> wf_globs(
                    (#[trigger] out_conds@[k]).patterns@,
                    glob_enumerator@,
                ) && wf_globs(out_conds@[k].excludes@, glob_enumerator@),
            forall|k: int, j: int|
                0 <= k < out_conds@.len() && 0 <= j
                    < out_conds@[k].content_conditions@.len() ==> node_regexes_wf(
                    #[trigger] out_conds@[k].content_conditions@[j],
                    regex_enumerator@,
                ),
            forall|k: int|
                0 <= k < out_conds@.len() ==> (#[trigger] out_conds@[k])
                    .linewise_content_conditions_count == linewise_count(
                    out_conds@[k].content_conditions@,
                ),
            table_prefix_of(old(glob_enumerator)@, glob_enumerator@),
            table_prefix_of(old(regex_enumerator)@, regex_enumerator@),
            table_distinct(old(glob_enumerator)@) ==> table_distinct(glob_enumerator@),
            table_distinct(old(regex_enumerator)@) ==> table_distinct(regex_enumerator@),
        decreases conds@.len(),
    {
        let ghost done = out_conds@.len() as int;
        let c = conds.remove(0);
        proof {
            assert(c == orig[done]);
            assert(conds@ =~= orig.subrange(done + 1, orig.len() as int));
            assert(orig.subrange(done, orig.len() as int).first() == orig[done]);
            assert(orig.subrange(done, orig.len() as int).drop_first() =~= orig.subrange(
                done + 1,
                orig.len() as int,
            ));
            lemma_conds_weight_nonneg(orig.subrange(done + 1, orig.len() as int));
            assert(cond_flags_clear(c));
        }
        let ghost cb = *counter as int;
        let ghost gbefore = glob_enumerator@;
        let ghost rbefore = regex_enumerator@;
        let cc = compile_cond(c, counter, glob_enumerator, regex_enumerator);
        proof {
            assert forall|k: int| 0 <= k < out_conds@.len() implies wf_globs(
                (#[trigger] out_conds@[k]).patterns@,
                glob_enumerator@,
            ) && wf_globs(out_conds@[k].excludes@, glob_enumerator@) by {
                assert forall|i: int| 0 <= i < out_conds@[k].patterns@.len() implies wf_glob(
                    #[trigger] out_conds@[k].patterns@[i],
                    glob_enumerator@,
                ) by {
                    assert(wf_glob(out_conds@[k].patterns@[i], gbefore));
                }
                assert forall|i: int| 0 <= i < out_conds@[k].excludes@.len() implies wf_glob(
                    #[trigger] out_conds@[k].excludes@[i],
                    glob_enumerator@,
                ) by {
                    assert(wf_glob(out_conds@[k].excludes@[i], gbefore));
                }
            }
            assert forall|k: int, j: int|
                0 <= k < out_conds@.len() && 0 <= j
                    < out_conds@[k].content_conditions@.len() implies node_regexes_wf(
                #[trigger] out_conds@[k].content_conditions@[j],
                regex_enumerator@,
            ) by {
                lemma_node_wf_prefix(out_conds@[k].content_conditions@[j], rbefore,
                    regex_enumerator@);
            }
            assert(cond_numbers_in(cc, cb, *counter as int));
            assert(cond_numbers_distinct(cc));
        }
        let ghost out_pre = out_conds@;
        out_conds.push(cc);
        proof {
            lemma_conds_weight_push(out_pre, cc);
            assert(cc.content_conditions@.len() == c.content_conditions@.len());
            assert(out_conds@.subrange(0, done) =~= out_pre);
            assert forall|k: int| 0 <= k < out_conds@.len() implies (
            #[trigger] out_conds@[k]).number as int == start + conds_weight(
                out_conds@.subrange(0, k),
            ) by {
                if k < done {
                    assert(out_conds@.subrange(0, k) =~= out_pre.subrange(0, k));
                    assert(out_conds@[k] == out_pre[k]);
                } else {
                    assert(out_conds@[k] == cc);
                    assert(out_conds@.subrange(0, k) =~= out_pre);
                }
            }
        }
    }
    proof {
        assert(orig.subrange(0, orig.len() as int) =~= orig);
    }
    let ghost final_conds = out_conds@;
    let ghost counter_after = *counter as int;
    let mut result = Rule {
        number: idx,
        title,
        tags,
        path_conditions: out_conds,
        is_reporting_target: false,
    };
    proof {
        assert(result.path_conditions@ == final_conds);
        assert(counter_after == start + conds_weight(final_conds));
        assert(rule_flags_clear(result));
    }
    let ghost pre = result;
    set_reporting_target(&mut result);
    proof {
        assert forall|k: int| 0 <= k < result.path_conditions@.len() implies cond_like(
            rule.path_conditions@[k],
            #[trigger] result.path_conditions@[k],
        ) && cond_numbers_in(result.path_conditions@[k], start, *counter as int)
            && cond_numbers_distinct(result.path_conditions@[k]) && wf_globs(
            result.path_conditions@[k].patterns@,
            glob_enumerator@,
        ) && wf_globs(result.path_conditions@[k].excludes@, glob_enumerator@) && (forall|j: int|
            0 <= j < result.path_conditions@[k].content_conditions@.len() ==> node_regexes_wf(
                #[trigger] result.path_conditions@[k].content_conditions@[j],
                regex_enumerator@,
            )) && result.path_conditions@[k].linewise_content_conditions_count == linewise_count(
            result.path_conditions@[k].content_conditions@,
        ) && (forall|n: int|
            cond_has_number(result.path_conditions@[k], n) == cond_has_number(
                pre.path_conditions@[k],
                n,
            )) && result.path_conditions@[k].number as int == start + conds_weight(
            result.path_conditions@.subrange(0, k),
        ) && (forall|j: int|
            0 <= j < result.path_conditions@[k].content_conditions@.len() ==> (
            #[trigger] result.path_conditions@[k].content_conditions@[j]).number as int
                == result.path_conditions@[k].number + 1 + j) by {
            let a = pre.path_conditions@[k];
            let b = result.path_conditions@[k];
            assert(cond_eq_mod_flags(a, b));
            lemma_cond_eq_mod_flags_transfer(a, b);
            assert(cond_like(orig[k], a));
            assert(rule.path_conditions@[k] == orig[k]);
            assert forall|x: int|
                0 <= x < k implies (#[trigger] result.path_conditions@.subrange(0, k)[x])
                .content_conditions@.len() == pre.path_conditions@.subrange(0, k)[x]
                .content_conditions@.len() by {
                assert(cond_eq_mod_flags(pre.path_conditions@[x], result.path_conditions@[x]));
            }
            lemma_conds_weight_pointwise(
                pre.path_conditions@.subrange(0, k),
                result.path_conditions@.subrange(0, k),
            );
            assert(pre.path_conditions@[k].number as int == start + conds_weight(
                pre.path_conditions@.subrange(0, k),
            ));
        }
        assert forall|x: int|
            0 <= x < pre.path_conditions@.len() implies (#[trigger] result.path_conditions@[x])
            .content_conditions@.len() == pre.path_conditions@[x].content_conditions@.len() by {
            assert(cond_eq_mod_flags(pre.path_conditions@[x], result.path_conditions@[x]));
        }
        lemma_conds_weight_pointwise(pre.path_conditions@, result.path_conditions@);
        assert forall|k1: int, k2: int, n: int|
            0 <= k1 < k2 < result.path_conditions@.len() implies !(cond_has_number(
            result.path_conditions@[k1],
            n,
        ) && cond_has_number(result.path_conditions@[k2], n)) by {
            assert(cond_eq_mod_flags(pre.path_conditions@[k1], result.path_conditions@[k1]));
            assert(cond_eq_mod_flags(pre.path_conditions@[k2], result.path_conditions@[k2]));
            lemma_cond_eq_mod_flags_transfer(pre.path_conditions@[k1],
                result.path_conditions@[k1]);
            lemma_cond_eq_mod_flags_transfer(pre.path_conditions@[k2],
                result.path_conditions@[k2]);
            assert(!(cond_has_number(pre.path_conditions@[k1], n) && cond_has_number(
                pre.path_conditions@[k2],
                n,
            )));
        }
    }
    result
}

/// Facts carried across a flags-only change of a path condition.
pub proof fn lemma_cond_eq_mod_flags_transfer(a: GlobCondition, b: GlobCondition)
    requires
        cond_eq_mod_flags(a, b),
    ensures
        forall|n: int| cond_has_number(b, n) == cond_has_number(a, n),
        forall|lo: int, hi: int| cond_numbers_in(a, lo, hi) ==> cond_numbers_in(b, lo, hi),
        cond_numbers_distinct(a) ==> cond_numbers_distinct(b),
        linewise_count(b.content_conditions@) == linewise_count(a.content_conditions@),
        forall|keys: Seq<Seq<char>>, j: int|
            #![trigger node_regexes_wf(b.content_conditions@[j], keys)]
            0 <= j < a.content_conditions@.len() && node_regexes_wf(a.content_conditions@[j], keys)
                ==> node_regexes_wf(b.content_conditions@[j], keys),
{
    assert forall|n: int| cond_has_number(b, n) == cond_has_number(a, n) by {
        if cond_has_number(a, n) && a.number != n {
            let j = choose|j: int|
                0 <= j < a.content_conditions@.len() && (#[trigger] a.content_conditions@[j]).number
                    == n;
            assert(b.content_conditions@[j].number == n);
        }
        if cond_has_number(b, n) && b.number != n {
            let j = choose|j: int|
                0 <= j < b.content_conditions@.len() && (#[trigger] b.content_conditions@[j]).number
                    == n;
            assert(a.content_conditions@[j].number == n);
        }
    }
    lemma_linewise_eq(a.content_conditions@, b.content_conditions@);
}

/// The linewise count is the same for alike condition payloads.
pub proof fn lemma_linewise_like(a: Seq<ContentConditionNode>, b: Seq<ContentConditionNode>)
    requires
        a.len() == b.len(),
        forall|j: int|
            0 <= j < a.len() ==> content_like(a[j].condition, (#[trigger] b[j]).condition),
    ensures
        linewise_count(b) == linewise_count(a),
    decreases a.len(),
{
    if a.len() > 0 {
        assert(content_like(a[0].condition, b[0].condition));
        assert(is_linewise(b.first().condition) == is_linewise(a.first().condition));
        assert forall|j: int| 0 <= j < a.drop_first().len() implies content_like(
            a.drop_first()[j].condition,
            (#[trigger] b.drop_first()[j]).condition,
        ) by {
            assert(a.drop_first()[j] == a[j + 1]);
            assert(b.drop_first()[j] == b[j + 1]);
            assert(content_like(a[j + 1].condition, b[j + 1].condition));
        }
        lemma_linewise_like(a.drop_first(), b.drop_first());
    }
}

/// The linewise count depends only on the condition payloads.
pub proof fn lemma_linewise_eq(a: Seq<ContentConditionNode>, b: Seq<ContentConditionNode>)
    requires
        a.len() == b.len(),
        forall|j: int| 0 <= j < a.len() ==> (#[trigger] b[j]).condition == a[j].condition,
    ensures
        linewise_count(b) == linewise_count(a),
    decreases a.len(),
{
    if a.len() > 0 {
        assert(b.first().condition == a.first().condition);
        assert forall|j: int| 0 <= j < a.drop_first().len() implies (#[trigger] b.drop_first()[j])
            .condition == a.drop_first()[j].condition by {
            assert(a.drop_first()[j] == a[j + 1]);
            assert(b.drop_first()[j] == b[j + 1]);
        }
        lemma_linewise_eq(a.drop_first(), b.drop_first());
    }
}

/// A number held by a rule lies in the rule's number range.
pub proof fn lemma_rule_numbers_in_has(r: Rule, lo: int, hi: int, n: int)
    requires
        rule_numbers_in(r, lo, hi),
        rule_has_number(r, n),
    ensures
        lo <= n < hi,
{
    let k = choose|k: int|
        0 <= k < r.path_conditions@.len() && cond_has_number(#[trigger] r.path_conditions@[k], n);
    let c = r.path_conditions@[k];
    if c.number != n {
        let j = choose|j: int|
            0 <= j < c.content_conditions@.len() && (#[trigger] c.content_conditions@[j]).number
                == n;
    }
}

/// A number range only widens.
pub proof fn lemma_rule_numbers_in_widen(r: Rule, lo: int, hi: int, lo2: int, hi2: int)
    requires
        rule_numbers_in(r, lo, hi),
        lo2 <= lo,
        hi <= hi2,
    ensures
        rule_numbers_in(r, lo2, hi2),
{
    assert forall|k: int| 0 <= k < r.path_conditions@.len() implies cond_numbers_in(
        #[trigger] r.path_conditions@[k],
        lo2,
        hi2,
    ) by {
        assert(cond_numbers_in(r.path_conditions@[k], lo, hi));
    }
}

/// Registered patterns of a rule stay registered when the tables grow.
pub proof fn lemma_rule_patterns_wf_prefix(
    r: Rule,
    gk1: Seq<Seq<char>>,
    rk1: Seq<Seq<char>>,
    gk2: Seq<Seq<char>>,
    rk2: Seq<Seq<char>>,
)
    requires
        rule_patterns_wf(r, gk1, rk1),
        table_prefix_of(gk1, gk2),
        table_prefix_of(rk1, rk2),
    ensures
        rule_patterns_wf(r, gk2, rk2),
{
    assert forall|k: int| 0 <= k < r.path_conditions@.len() implies {
        let c = #[trigger] r.path_conditions@[k];
        wf_globs(c.patterns@, gk2) && wf_globs(c.excludes@, gk2) && forall|j: int|
            0 <= j < c.content_conditions@.len() ==> node_regexes_wf(
                #[trigger] c.content_conditions@[j],
                rk2,
            )
    } by {
        let c = r.path_conditions@[k];
        assert(wf_globs(c.patterns@, gk1));
        assert forall|i: int| 0 <= i < c.patterns@.len() implies wf_glob(
            #[trigger] c.patterns@[i],
            gk2,
        ) by {
            assert(wf_glob(c.patterns@[i], gk1));
        }
        assert forall|i: int| 0 <= i < c.excludes@.len() implies wf_glob(
            #[trigger] c.excludes@[i],
            gk2,
        ) by {
            assert(wf_glob(c.excludes@[i], gk1));
        }
        assert forall|j: int| 0 <= j < c.content_conditions@.len() implies node_regexes_wf(
            #[trigger] c.content_conditions@[j],
            rk2,
        ) by {
            assert(node_regexes_wf(c.content_conditions@[j], rk1));
            lemma_node_wf_prefix(c.content_conditions@[j], rk1, rk2);
        }
    }
}

impl Ruleset {
    /// Compiles the ruleset: assigns every rule its index, every condition
    /// a globally unique dense number, every distinct pattern a dense id,
    /// and marks each rule's reporting target.
    pub fn compile(self) -> (r: CompiledRuleset)
        requires
            forall|i: int| 0 <= i < self.rules@.len() ==> rule_flags_clear(#[trigger] self.rules@[i]),
            rules_weight(self.rules@) <= usize::MAX,
        ensures
            r.rules@.len() == self.rules@.len(),
            forall|i: int|
                0 <= i < self.rules@.len() ==> rule_like(self.rules@[i], #[trigger] r.rules@[i]),
            r.wf(),
    {
        let ghost orig = self.rules@;
        proof {
            lemma_rules_weight_nonneg(orig);
        }
        let mut rules = self.rules;
        let mut out: Vec<Rule> = Vec::new();
        let mut counter: usize = 0;
        let mut glob_enumerator = Enumerator::new();
        let mut regex_enumerator = Enumerator::new();
        while rules.len() > 0
            invariant
                out@.len() + rules@.len() == orig.len(),
                rules@ == orig.subrange(orig.len() - rules@.len(), orig.len() as int),
                forall|i: int| 0 <= i < orig.len() ==> rule_flags_clear(#[trigger] orig[i]),
                counter + rules_weight(rules@) == rules_weight(orig),
                rules_weight(orig) <= usize::MAX,
                forall|i: int| 0 <= i < out@.len() ==> rule_like(orig[i], #[trigger] out@[i]),
                forall|i: int| 0 <= i < out@.len() ==> (#[trigger] out@[i]).number == i,
                forall|i: int|
                    0 <= i < out@.len() ==> rule_numbers_in(#[trigger] out@[i], 0, counter as int),
                forall|i: int| 0 <= i < out@.len() ==> rule_numbers_distinct(#[trigger] out@[i]),
                forall|i1: int, i2: int, n: int|
                    0 <= i1 < i2 < out@.len() ==> !(rule_has_number(out@[i1], n)
                        && rule_has_number(out@[i2], n)),
                forall|i: int|
                    0 <= i < out@.len() ==> rule_patterns_wf(
                        #[trigger] out@[i],
                        glob_enumerator@,
                        regex_enumerator@,
                    ),
                forall|i: int| 0 <= i < out@.len() ==> rule_linewise_ok(#[trigger] out@[i]),
                forall|i: int| 0 <= i < out@.len() ==> rule_flags_ok(#[trigger] out@[i]),
                counter as int == rules_weight(out@),
                rules_numbered_in_walk_order(out@),
                table_distinct(glob_enumerator@),
                table_distinct(regex_enumerator@),
            decreases rules@.len(),
        {
            let ghost done = out@.len() as int;
            let rule = rules.remove(0);
            proof {
                assert(rule == orig[done]);
                assert(rules@ =~= orig.subrange(done + 1, orig.len() as int));
                assert(orig.subrange(done, orig.len() as int).first() == orig[done]);
                assert(orig.subrange(done, orig.len() as int).drop_first() =~= orig.subrange(
                    done + 1,
                    orig.len() as int,
                ));
                lemma_rules_weight_nonneg(orig.subrange(done + 1, orig.len() as int));
                lemma_conds_weight_nonneg(rule.path_conditions@);
                assert(rule_flags_clear(rule));
            }
            let ghost cb = counter as int;
            let ghost gbefore = glob_enumerator@;
            let ghost rbefore = regex_enumerator@;
            let idx = out.len();
            let compiled = compile_rule(
                rule,
                idx,
                &mut counter,
                &mut glob_enumerator,
                &mut regex_enumerator,
            );
            let ghost out_pre = out@;
            proof {
                assert forall|i: int| 0 <= i < out@.len() implies rule_patterns_wf(
                    #[trigger] out@[i],
                    glob_enumerator@,
                    regex_enumerator@,
                ) by {
                    lemma_rule_patterns_wf_prefix(out@[i], gbefore, rbefore, glob_enumerator@,
                        regex_enumerator@);
                }
                assert forall|i: int| 0 <= i < out@.len() implies rule_numbers_in(
                    #[trigger] out@[i],
                    0,
                    counter as int,
                ) by {
                    lemma_rule_numbers_in_widen(out@[i], 0, cb, 0, counter as int);
                }
                lemma_rule_numbers_in_widen(compiled, cb, counter as int, 0, counter as int);
                assert forall|i1: int, i2: int, n: int|
                    0 <= i1 < i2 < out@.len() + 1 implies !(rule_has_number(
                    out@.push(compiled)[i1],
                    n,
                ) && rule_has_number(out@.push(compiled)[i2], n)) by {
                    if i2 == out@.len() {
                        if rule_has_number(out@[i1], n) && rule_has_number(compiled, n) {
                            lemma_rule_numbers_in_has(out@[i1], 0, cb, n);
                            lemma_rule_numbers_in_has(compiled, cb, counter as int, n);
                        }
                    }
                }
            }
            out.push(compiled);
            proof {
                lemma_rules_weight_push(out_pre, compiled);
                assert(out@.subrange(0, done) =~= out_pre);
                assert forall|i: int, k: int|
                    0 <= i < out@.len() && 0 <= k
                        < out@[i].path_conditions@.len() implies {
                    let c = #[trigger] out@[i].path_conditions@[k];
                    c.number as int == rules_weight(out@.subrange(0, i)) + conds_weight(
                        out@[i].path_conditions@.subrange(0, k),
                    ) && forall|j: int|
                        0 <= j < c.content_conditions@.len() ==> (
                        #[trigger] c.content_conditions@[j]).number as int == c.number + 1 + j
                } by {
                    if i < done {
                        assert(out@[i] == out_pre[i]);
                        assert(out@.subrange(0, i) =~= out_pre.subrange(0, i));
                        assert(rules_numbered_in_walk_order(out_pre));
                        assert(out_pre[i].path_conditions@[k].number as int == rules_weight(
                            out_pre.subrange(0, i),
                        ) + conds_weight(out_pre[i].path_conditions@.subrange(0, k)));
                    } else {
                        assert(out@[i] == compiled);
                        assert(out@.subrange(0, i) =~= out_pre);
                        assert(compiled.path_conditions@[k].number as int == cb + conds_weight(
                            compiled.path_conditions@.subrange(0, k),
                        ));
                    }
                }
            }
        }
        proof {
            assert(orig.subrange(0, orig.len() as int) =~= orig);
        }
        let globs_count = glob_enumerator.get_count();
        let regexes_count = regex_enumerator.get_count();
        CompiledRuleset {
            rules: out,
            conditions_count: counter,
            globs_count,
            regexes_count,
            glob_keys: Ghost(glob_enumerator@),
            regex_keys: Ghost(regex_enumerator@),
        }
    }
}

/// Registered regexes of a node stay registered when the table grows.
pub proof fn lemma_node_wf_prefix(
    node: ContentConditionNode,
    before: Seq<Seq<char>>,
    after: Seq<Seq<char>>,
)
    requires
        node_regexes_wf(node, before),
        table_prefix_of(before, after),
    ensures
        node_regexes_wf(node, after),
{
    match node.condition {
        ContentCondition::Match(rc) => {
            assert forall|i: int| 0 <= i < rc.patterns@.len() implies wf_regex(
                #[trigger] rc.patterns@[i],
                after,
            ) by {
                assert(wf_regex(rc.patterns@[i], before));
            }
            assert forall|i: int| 0 <= i < rc.excludes@.len() implies wf_regex(
                #[trigger] rc.excludes@[i],
                after,
            ) by {
                assert(wf_regex(rc.excludes@[i], before));
            }
        },
        ContentCondition::NoMatch(rc) => {
            assert forall|i: int| 0 <= i < rc.patterns@.len() implies wf_regex(
                #[trigger] rc.patterns@[i],
                after,
            ) by {
                assert(wf_regex(rc.patterns@[i], before));
            }
            assert forall|i: int| 0 <= i < rc.excludes@.len() implies wf_regex(
                #[trigger] rc.excludes@[i],
                after,
            ) by {
                assert(wf_regex(rc.excludes@[i], before));
            }
        },
        _ => {},
    }
}

} // verus!
