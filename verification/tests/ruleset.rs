use omnilinter::config::Config;
use omnilinter::ruleset::enumerator::Enumerator;
use omnilinter::ruleset::{Glob, SizeCondition, SizeOperator};
use std::collections::HashSet;

#[test]
fn enumerator() {
    let mut e = Enumerator::new();
    assert_eq!(e.get_id("foo"), 0);
    assert_eq!(e.get_id("bar"), 1);
    assert_eq!(e.get_id("baz"), 2);
    assert_eq!(e.get_id("foo"), 0);
    assert_eq!(e.get_id("bar"), 1);
    assert_eq!(e.get_id("baz"), 2);
    // asking about a known key leaves the table unchanged
    assert_eq!(e.get_count(), 3);
}

fn calc_unique_globs(patterns: &[&str]) -> usize {
    let mut e = Enumerator::new();
    patterns
        .iter()
        .map(|pattern| {
            let mut g = Glob::new(pattern).unwrap();
            g.enumerate_with(&mut e);
            g.get_unique_id()
        })
        .collect::<HashSet<_>>()
        .len()
}

#[test]
fn enumeration_same() {
    assert_eq!(calc_unique_globs(&["README.md", "README.md"]), 1);
}

#[test]
fn enumeration_different() {
    assert_eq!(calc_unique_globs(&["README.md", "/README.md"]), 2);
}

#[test]
fn glob_scope_and_trimming() {
    let g = Glob::new("/docs/*.md").unwrap();
    assert_eq!(g.as_str(), "docs/*.md");
    assert!(g.matches_path_with("docs/a.md"));
    assert!(!g.matches_path_with("src/docs/a.md"));
    let f = Glob::new("*.md").unwrap();
    assert!(f.matches_path_with("deep/dir/a.md"));
    assert!(!f.matches_path_with("deep/dir/a.rs"));
}

#[test]
fn compile_assigns_dense_numbers() {
    let text = "[]\nfiles *.py\nmatch /x/\nnomatch /y/\n[]\nfiles *.rs\n";
    let config = Config::from_str(text).unwrap();
    let compiled = config.ruleset.compile();
    assert_eq!(compiled.conditions_count, 4);
    assert_eq!(compiled.rules[0].number, 0);
    assert_eq!(compiled.rules[1].number, 1);
    assert_eq!(compiled.rules[0].path_conditions[0].number, 0);
    assert_eq!(
        compiled.rules[0].path_conditions[0].content_conditions[0].number,
        1
    );
    assert_eq!(
        compiled.rules[0].path_conditions[0].content_conditions[1].number,
        2
    );
    assert_eq!(compiled.rules[1].path_conditions[0].number, 3);
    // the same glob used twice collapses to one dense id
    assert_eq!(compiled.globs_count, 2);
    assert_eq!(compiled.regexes_count, 2);
}

#[test]
fn reporting_target_line_level() {
    // the last directive is a match: that node anchors the reports
    let text = "[]\nfiles *.py\nmatch /x/\n";
    let config = Config::from_str(text).unwrap();
    let compiled = config.ruleset.compile();
    let cond = &compiled.rules[0].path_conditions[0];
    assert!(!compiled.rules[0].is_reporting_target);
    assert!(!cond.is_reporting_target);
    assert!(cond.has_reporting_target);
    assert!(cond.content_conditions[0].is_reporting_target);
}

#[test]
fn reporting_target_file_level() {
    // rule `files a.py; match /a/; files b.py`: the trailing files
    // condition is the anchor, not a line of a.py
    let text = "[]\nfiles a.py\nmatch /a/\nfiles b.py\n";
    let config = Config::from_str(text).unwrap();
    let compiled = config.ruleset.compile();
    let rule = &compiled.rules[0];
    assert!(!rule.is_reporting_target);
    assert!(!rule.path_conditions[0].is_reporting_target);
    assert!(rule.path_conditions[1].is_reporting_target);
    assert!(!rule.path_conditions[1].has_reporting_target);
}

#[test]
fn reporting_target_root_level() {
    // a trailing nofiles (or no conditions at all) reports at root
    let text = "[]\nfiles *.py\nnofiles *.txt\n[]\n";
    let config = Config::from_str(text).unwrap();
    let compiled = config.ruleset.compile();
    assert!(compiled.rules[0].is_reporting_target);
    assert!(compiled.rules[1].is_reporting_target);
}

#[test]
fn filter_by_tags_keeps_matching_rules() {
    let text = "[a]\ntags red\n[b]\ntags blue\n[c]\n";
    let mut config = Config::from_str(text).unwrap();
    config
        .ruleset
        .filter_by_tags(&vec![], &vec!["blue".to_string()]);
    assert_eq!(config.ruleset.rules.len(), 2);
    assert_eq!(config.ruleset.rules[0].title, "a");
    assert_eq!(config.ruleset.rules[1].title, "c");

    let mut config2 = Config::from_str(text).unwrap();
    config2
        .ruleset
        .filter_by_tags(&vec!["red".to_string()], &vec![]);
    assert_eq!(config2.ruleset.rules.len(), 1);
    assert_eq!(config2.ruleset.rules[0].title, "a");
}

#[test]
fn size_condition_checks() {
    let c = SizeCondition {
        operator: SizeOperator::GreaterEqual,
        value: 10,
    };
    assert!(c.check(10));
    assert!(!c.check(9));
    assert!(c.check_for_this_and_above(10));
    let eq = SizeCondition {
        operator: SizeOperator::Equal,
        value: 3,
    };
    assert!(eq.check(3));
    assert!(!eq.check_for_this_and_above(3));
}
