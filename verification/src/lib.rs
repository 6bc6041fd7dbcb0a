//! A configurable file-tree linter core.
//!
//! Rules declare path conditions (`files` / `nofiles` glob sets) with nested
//! content conditions (`match` / `nomatch` regexes, `size` and `lines`
//! thresholds).  A ruleset is compiled into a densely numbered evaluation
//! plan, and the matching engine evaluates every rule against a listing of a
//! file tree in two passes: a path pass over file names, and a content pass
//! that scans each relevant file's lines at most once.  Matches are reported
//! at root, file, or line granularity, anchored at each rule's single
//! reporting target.

pub mod applier;
pub mod config;
pub mod laws;
pub mod match_result;
pub mod ruleset;
pub mod text;
