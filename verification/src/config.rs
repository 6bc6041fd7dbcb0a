//! A configuration: a ruleset plus the root directories named by `root`
//! directives, read from the configuration text format.

pub mod parser;

use crate::ruleset::Ruleset;
use vstd::prelude::*;

verus! {

/// A parsed configuration: the rules, the scan roots the text named, and
/// the include patterns it named.
pub struct Config {
    pub ruleset: Ruleset,
    pub roots: Vec<String>,
    pub includes: Vec<String>,
}

impl Config {
    pub fn new() -> (r: Config)
        ensures
            r.ruleset.rules@ =~= Seq::<crate::ruleset::Rule>::empty(),
            r.roots@ =~= Seq::<String>::empty(),
            r.includes@ =~= Seq::<String>::empty(),
    {
        Config { ruleset: Ruleset::new(), roots: Vec::new(), includes: Vec::new() }
    }

    /// Appends the rules and roots of `other` to this configuration.
    pub fn merge_from(&mut self, other: Config)
        ensures
            final(self).ruleset.rules@ == old(self).ruleset.rules@ + other.ruleset.rules@,
            final(self).roots@ == old(self).roots@ + other.roots@,
            final(self).includes@ == old(self).includes@ + other.includes@,
    {
        let Config { ruleset, roots, includes } = other;
        let mut rules = ruleset.rules;
        self.ruleset.rules.append(&mut rules);
        let mut roots2 = roots;
        self.roots.append(&mut roots2);
        let mut includes2 = includes;
        self.includes.append(&mut includes2);
    }
}

} // verus!
