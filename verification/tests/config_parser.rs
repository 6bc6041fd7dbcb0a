use omnilinter::config::Config;
use omnilinter::ruleset::{ContentCondition, Regex, SizeCondition, SizeOperator};

fn get_first_regex_pattern(config: &Config) -> &Regex {
    match &config.ruleset.rules[0].path_conditions[0].content_conditions[0].condition {
        ContentCondition::Match(regex_condition) => &regex_condition.patterns[0],
        ContentCondition::NoMatch(regex_condition) => &regex_condition.patterns[0],
        _ => panic!(),
    }
}

fn get_first_regex_exclude(config: &Config) -> &Regex {
    match &config.ruleset.rules[0].path_conditions[0].content_conditions[0].condition {
        ContentCondition::Match(regex_condition) => &regex_condition.excludes[0],
        ContentCondition::NoMatch(regex_condition) => &regex_condition.excludes[0],
        _ => panic!(),
    }
}

fn get_first_size_condition(config: &Config) -> &SizeCondition {
    match &config.ruleset.rules[0].path_conditions[0].content_conditions[0].condition {
        ContentCondition::Size(size_condition) => size_condition,
        _ => panic!(),
    }
}

#[test]
fn tests_simple() {
    let text = "[test rule] # ]\n";
    let config = Config::from_str(text).unwrap();
    assert_eq!(config.ruleset.rules[0].title, "test rule");
}

#[test]
fn correct_escaping() {
    let text = "[test[ ]]rule] # ]\n";
    let config = Config::from_str(text).unwrap();
    assert_eq!(config.ruleset.rules[0].title, "test[ ]rule");
}

#[test]
fn tags() {
    let text = "[]\ntags A B,C\n";
    let config = Config::from_str(text).unwrap();
    assert_eq!(config.ruleset.rules[0].tags.len(), 3);
    assert!(config.ruleset.rules[0].tags.contains(&"a".to_string()));
    assert!(config.ruleset.rules[0].tags.contains(&"b".to_string()));
    assert!(config.ruleset.rules[0].tags.contains(&"c".to_string()));
}

#[test]
fn tests_whitespace() {
    let text = "[]\nfiles *\nmatch /f o\to/\n";
    let config = Config::from_str(text).unwrap();
    assert_eq!(get_first_regex_pattern(&config).as_str(), "f o\to");
}

#[test]
fn tests_arbitrary_delimiters() {
    let text = "[]\nfiles *\nmatch /foo/\n[]\nfiles *\nmatch ,foo,\n";
    let config = Config::from_str(text).unwrap();
    assert_eq!(get_first_regex_pattern(&config).as_str(), "foo");
    assert_eq!(get_first_regex_pattern(&config).as_str(), "foo");
}

#[test]
fn tests_character_classes_support() {
    let text = "[]\nfiles *\nmatch /\\s+/\n";
    let config = Config::from_str(text).unwrap();
    assert!(get_first_regex_pattern(&config).is_match(" \t"));
}

#[test]
fn tests_escaping() {
    let text = "[]\nfiles *\nmatch /a\\\\c/\n";
    let config = Config::from_str(text).unwrap();
    assert_eq!(get_first_regex_pattern(&config).as_str(), "a\\\\c");
}

#[test]
fn unicode_framing() {
    let text = "[]\nfiles *\nmatch \u{1f6a7}foo\u{1f6a7}\n";
    let config = Config::from_str(text).unwrap();
    assert_eq!(get_first_regex_pattern(&config).as_str(), "foo");
}

#[test]
fn exclude() {
    let text = "[]\nfiles *\nmatch /\\s+/ !/abc/\n";
    let config = Config::from_str(text).unwrap();
    assert_eq!(get_first_regex_exclude(&config).as_str(), "abc");
}

#[test]
fn with_space() {
    let text = "[]\nfiles *\nsize >= 123\n";
    let config = Config::from_str(text).unwrap();
    assert_eq!(
        get_first_size_condition(&config).operator,
        SizeOperator::GreaterEqual
    );
    assert_eq!(get_first_size_condition(&config).value, 123);
}

#[test]
fn without_space() {
    let text = "[]\nfiles *\nsize>=123\n";
    let config = Config::from_str(text).unwrap();
    assert_eq!(
        get_first_size_condition(&config).operator,
        SizeOperator::GreaterEqual
    );
    assert_eq!(get_first_size_condition(&config).value, 123);
}

#[test]
fn basic() {
    let text = "[]\nfiles *\n";
    let config = Config::from_str(text).unwrap();
    assert_eq!(
        config.ruleset.rules[0].path_conditions[0].patterns[0].as_str(),
        "*"
    );
}

#[test]
fn backslash_escape() {
    let text = "[]\nfiles \\*\\ \\*\n";
    let config = Config::from_str(text).unwrap();
    assert_eq!(
        config.ruleset.rules[0].path_conditions[0].patterns[0].as_str(),
        "[*] [*]"
    );
}

#[test]
fn dquote() {
    let text = "[]\nfiles \"* *\"\n";
    let config = Config::from_str(text).unwrap();
    assert_eq!(
        config.ruleset.rules[0].path_conditions[0].patterns[0].as_str(),
        "[*] [*]"
    );
}

#[test]
fn squote() {
    let text = "[]\nfiles '* *'\n";
    let config = Config::from_str(text).unwrap();
    assert_eq!(
        config.ruleset.rules[0].path_conditions[0].patterns[0].as_str(),
        "[*] [*]"
    );
}

#[test]
fn mixed_quoting() {
    let text = "[]\nfiles *\\*\"*\"'*'\n";
    let config = Config::from_str(text).unwrap();
    assert_eq!(
        config.ruleset.rules[0].path_conditions[0].patterns[0].as_str(),
        "*[*][*][*]"
    );
}

#[test]
fn quite_escaping() {
    let text = "[]\nfiles \\\"\\'\n";
    let config = Config::from_str(text).unwrap();
    assert_eq!(
        config.ruleset.rules[0].path_conditions[0].patterns[0].as_str(),
        "\"'"
    );
}

#[test]
fn tests_empty_lines() {
    let text = "\nroot .\n\n[]\n\ntags foo\n\nnofiles *\n\nfiles *\n\nnomatch /foo/\n\nmatch /foo/\n\n";
    Config::from_str(text).unwrap();
}

#[test]
fn glob_expansion() {
    let text = "root *\n";
    let config = Config::from_str(text).unwrap();
    assert_ne!(config.roots[0], "*");
}

#[test]
fn tilde_expansion() {
    let text = "root ~\n";
    let config = Config::from_str(text).unwrap();
    assert_ne!(config.roots[0], "~");
}

#[test]
fn tests_conditionless_rules() {
    let text = "[]\n[]\n";
    let config = Config::from_str(text).unwrap();
    assert_eq!(config.ruleset.rules.len(), 2);
}

#[test]
fn unclosed_title_is_an_error() {
    assert!(Config::from_str("[test\n").is_err());
}

#[test]
fn incorrect_title_escaping_is_an_error() {
    assert!(Config::from_str("[test[ ]rule]\n").is_err());
}

#[test]
fn missing_regex_delimiter_is_an_error() {
    assert!(Config::from_str("[]\nfiles *\nmatch /foo\n").is_err());
}

#[test]
fn text_after_regex_is_an_error() {
    assert!(Config::from_str("[]\nfiles *\nmatch /foo/bar/\n").is_err());
}

#[test]
fn match_without_files_is_an_error() {
    assert!(Config::from_str("[]\nmatch //\n").is_err());
}

#[test]
fn match_after_nofiles_is_an_error() {
    assert!(Config::from_str("[]\nnofiles *\nmatch /x/\n").is_err());
}

#[test]
fn bad_escape_is_an_error() {
    assert!(Config::from_str("[]\nfiles \\\n").is_err());
}

#[test]
fn unclosed_quote_is_an_error() {
    assert!(Config::from_str("[]\nfiles '\n").is_err());
}

#[test]
fn number_out_of_range_is_an_error() {
    assert!(Config::from_str("[]\nfiles *\nsize > 99999999999999999999\n").is_err());
}

#[test]
fn unknown_directive_is_an_error() {
    assert!(Config::from_str("[]\nfrobnicate *\n").is_err());
}

#[test]
fn invalid_glob_is_an_error() {
    assert!(Config::from_str("[]\nfiles [\n").is_err());
}

#[test]
fn invalid_regex_is_an_error() {
    assert!(Config::from_str("[]\nfiles *\nmatch /(/\n").is_err());
}
