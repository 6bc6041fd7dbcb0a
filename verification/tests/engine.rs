use omnilinter::applier::{apply_ruleset_to_listing, FileContent};
use omnilinter::config::Config;
use omnilinter::match_result::{Match, MatchResult};

fn make_files(entries: &[(&str, &str)]) -> Vec<FileContent> {
    entries
        .iter()
        .map(|(path, content)| FileContent {
            path: path.to_string(),
            size: content.len() as u64,
            lines: content.lines().map(|l| l.to_string()).collect(),
        })
        .collect()
}

fn run(config_text: &str, entries: &[(&str, &str)]) -> Vec<(usize, Option<String>, Option<u64>)> {
    let config = Config::from_str(config_text).unwrap();
    let compiled = config.ruleset.compile();
    let root = "root".to_string();
    let files = make_files(entries);
    let result = apply_ruleset_to_listing(&compiled, &root, &files);
    result
        .matches
        .iter()
        .map(|m: &Match| {
            (
                m.rule_number,
                m.file.as_ref().map(|f| f.path.clone()),
                m.file.as_ref().and_then(|f| f.line),
            )
        })
        .collect()
}

#[test]
fn files_reports_each_matching_file() {
    let out = run(
        "[]\nfiles *.py\n",
        &[("a.py", ""), ("b.py", ""), ("c.txt", "")],
    );
    assert_eq!(
        out,
        vec![
            (0, Some("a.py".to_string()), None),
            (0, Some("b.py".to_string()), None)
        ]
    );
}

#[test]
fn nofiles_reports_once_at_root() {
    let out = run("[]\nnofiles *.txt\n", &[("a.py", ""), ("b.py", "")]);
    assert_eq!(out, vec![(0, None, None)]);
}

#[test]
fn nofiles_with_a_matching_file_reports_nothing() {
    let out = run("[]\nnofiles *.txt\n", &[("a.txt", "")]);
    assert_eq!(out, vec![]);
}

#[test]
fn condition_order_does_not_matter() {
    // a `nofiles` disqualifies wherever it stands in the rule
    let tree = [("a", ""), ("b", "")];
    let first = run("[]\nfiles a\nnofiles b\n", &tree);
    let second = run("[]\nnofiles b\nfiles a\n", &tree);
    assert_eq!(first, vec![]);
    assert_eq!(second, vec![]);
}

#[test]
fn conditionless_rule_reports_at_root() {
    let out = run("[]\n", &[("a", "")]);
    assert_eq!(out, vec![(0, None, None)]);
}

#[test]
fn match_reports_lines() {
    let out = run(
        "[]\nfiles *.txt\nmatch /b/\n",
        &[("f.txt", "abc\nxyz\nb\n")],
    );
    assert_eq!(
        out,
        vec![
            (0, Some("f.txt".to_string()), Some(0)),
            (0, Some("f.txt".to_string()), Some(2))
        ]
    );
}

#[test]
fn trailing_files_condition_is_the_reporting_target() {
    // `files a.py; match /a/; files b.py` reports b.py at file level
    let out = run(
        "[]\nfiles a.py\nmatch /a/\nfiles b.py\n",
        &[("a.py", "a\n"), ("b.py", "b\n")],
    );
    assert_eq!(out, vec![(0, Some("b.py".to_string()), None)]);
    // with a trailing match, it reports matching lines of b.py instead
    let out2 = run(
        "[]\nfiles a.py\nmatch /a/\nfiles b.py\nmatch /b/\n",
        &[("a.py", "a\n"), ("b.py", "x\nb\n")],
    );
    assert_eq!(out2, vec![(0, Some("b.py".to_string()), Some(1))]);
}

#[test]
fn every_match_directive_must_be_satisfied() {
    // both matches must hold somewhere; the report fires at the lines
    // satisfying the last one
    let out = run("[]\nfiles *\nmatch /^a/\nmatch /^b/\n", &[("f", "a\nb\n")]);
    assert_eq!(out, vec![(0, Some("f".to_string()), Some(1))]);
    let out2 = run("[]\nfiles *\nmatch /^a/\nmatch /^b/\n", &[("f", "b\nc\n")]);
    assert_eq!(out2, vec![]);
}

#[test]
fn nomatch_disqualifies_the_file() {
    let out = run(
        "[]\nfiles *\nnomatch /stop/\nmatch /go/\n",
        &[("f", "go\nstop\n"), ("g", "go\n")],
    );
    assert_eq!(out, vec![(0, Some("g".to_string()), Some(0))]);
}

#[test]
fn ignore_marker_suppresses_reports() {
    let out = run(
        "[]\nfiles *\nmatch /foo/\n",
        &[("f", "foo omnilinter: ignore\nfoo\n")],
    );
    assert_eq!(out, vec![(0, Some("f".to_string()), Some(1))]);
}

#[test]
fn ignore_marker_does_not_shield_nomatch() {
    // a marker line still disqualifies through `nomatch`
    let out = run(
        "[]\nfiles *\nnomatch /foo/\nmatch /bar/\n",
        &[("f", "foo omnilinter: ignore\nbar\n")],
    );
    assert_eq!(out, vec![]);
}

#[test]
fn size_conditions_use_metadata() {
    let out = run("[]\nfiles *\nsize >= 4\n", &[("big", "12345"), ("small", "1")]);
    assert_eq!(out, vec![(0, Some("big".to_string()), None)]);
}

#[test]
fn lines_conditions_use_the_final_count() {
    let out = run(
        "[]\nfiles *\nlines == 2\n",
        &[("two", "a\nb\n"), ("three", "a\nb\nc\n")],
    );
    assert_eq!(out, vec![(0, Some("two".to_string()), None)]);
}

#[test]
fn runs_are_deterministic() {
    let cfg = "[]\nfiles *.py\nmatch /x/\n[]\nnofiles *.md\n";
    let tree = [("a.py", "x\ny\nx\n"), ("b.py", "y\n"), ("c.rs", "x\n")];
    let first = run(cfg, &tree);
    let second = run(cfg, &tree);
    assert_eq!(first, second);
    assert_eq!(
        first,
        vec![
            (0, Some("a.py".to_string()), Some(0)),
            (0, Some("a.py".to_string()), Some(2)),
            (1, None, None)
        ]
    );
}

#[test]
fn excludes_filter_paths_and_lines() {
    let out = run(
        "[]\nfiles *.py !test_*\n",
        &[("a.py", ""), ("test_a.py", "")],
    );
    assert_eq!(out, vec![(0, Some("a.py".to_string()), None)]);
    let out2 = run(
        "[]\nfiles *\nmatch /foo/ !/foobar/\n",
        &[("f", "foo\nfoobar\n")],
    );
    assert_eq!(out2, vec![(0, Some("f".to_string()), Some(0))]);
}

#[test]
fn full_path_globs_anchor_at_the_root() {
    let out = run(
        "[]\nfiles /src/*.rs\n",
        &[("src/a.rs", ""), ("other/src/b.rs", "")],
    );
    assert_eq!(out, vec![(0, Some("src/a.rs".to_string()), None)]);
}

#[test]
fn gating_condition_needs_no_report() {
    // the first files condition only gates; the second anchors reports
    let out = run(
        "[]\nfiles marker\nfiles *.py\n",
        &[("a.py", ""), ("marker", "")],
    );
    assert_eq!(out, vec![(0, Some("a.py".to_string()), None)]);
    let out2 = run("[]\nfiles marker\nfiles *.py\n", &[("a.py", "")]);
    assert_eq!(out2, vec![]);
}

#[test]
fn merged_results_append() {
    let mut all = MatchResult::new();
    assert!(all.is_empty());
    let config = Config::from_str("[]\n").unwrap();
    let compiled = config.ruleset.compile();
    let files: Vec<FileContent> = vec![];
    let r1 = apply_ruleset_to_listing(&compiled, &"one".to_string(), &files);
    let r2 = apply_ruleset_to_listing(&compiled, &"two".to_string(), &files);
    all.append(r1);
    all.append(r2);
    assert_eq!(all.matches.len(), 2);
    assert_eq!(all.matches[0].root, "one");
    assert_eq!(all.matches[1].root, "two");
    assert!(!all.is_empty());
}
