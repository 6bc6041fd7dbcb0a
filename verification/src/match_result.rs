//! Matches and match collections: what the engine reports, at root, file,
//! or line granularity.

use crate::ruleset::Rule;
use vstd::prelude::*;

verus! {

/// A matched file, with the matched 0-based line when the report is
/// line-level.
pub struct FileMatch {
    pub path: String,
    pub line: Option<u64>,
}

/// One report: the originating rule (by number and title), the scanned
/// root, and the location. No file means a root-level report; a file
/// without a line means a file-level report.
pub struct Match {
    pub rule_number: usize,
    pub title: String,
    pub root: String,
    pub file: Option<FileMatch>,
}

impl Match {
    pub fn for_root(rule: &Rule, root: &String) -> (r: Match)
        ensures
            r.rule_number == rule.number,
            r.title@ == rule.title@,
            r.root@ == root@,
            r.file is None,
    {
        Match {
            rule_number: rule.number,
            title: rule.title.clone(),
            root: root.clone(),
            file: None,
        }
    }

    pub fn for_file(rule: &Rule, root: &String, path: String) -> (r: Match)
        ensures
            r.rule_number == rule.number,
            r.title@ == rule.title@,
            r.root@ == root@,
            r.file matches Some(f) && f.path == path && f.line is None,
    {
        Match {
            rule_number: rule.number,
            title: rule.title.clone(),
            root: root.clone(),
            file: Some(FileMatch { path, line: None }),
        }
    }

    pub fn for_line(rule: &Rule, root: &String, path: String, line: u64) -> (r: Match)
        ensures
            r.rule_number == rule.number,
            r.title@ == rule.title@,
            r.root@ == root@,
            r.file matches Some(f) && f.path == path && f.line == Some(line),
    {
        Match {
            rule_number: rule.number,
            title: rule.title.clone(),
            root: root.clone(),
            file: Some(FileMatch { path, line: Some(line) }),
        }
    }
}

/// The reports of one run, or of several merged runs.
pub struct MatchResult {
    pub matches: Vec<Match>,
}

impl MatchResult {
    pub fn new() -> (r: MatchResult)
        ensures
            r.matches@ =~= Seq::<Match>::empty(),
    {
        MatchResult { matches: Vec::new() }
    }

    /// Moves every report of `other` to the end of this collection.
    pub fn append(&mut self, other: MatchResult)
        ensures
            final(self).matches@ == old(self).matches@ + other.matches@,
    {
        let mut tail = other.matches;
        self.matches.append(&mut tail);
    }

    pub fn is_empty(&self) -> (r: bool)
        ensures
            r == (self.matches@.len() == 0),
    {
        self.matches.len() == 0
    }
}

} // verus!
