//! The configuration the scanner consumes: a depth bound, a set of
//! excluded directory names, and an ordered list of workspace-type
//! rules.

use vstd::prelude::*;

verus! {

/// One workspace-type rule.
///
/// A directory matches the rule when the `has_all_files` gate (if any)
/// is fully satisfied and at least one name from `has_any_file` is
/// present directly inside the directory.
pub struct WorkspaceDefinition {
    /// The workspace-type label recorded for a directory this rule matches.
    pub name: String,
    /// Optional gate: every listed file name must exist directly inside
    /// the candidate directory for the rule to be eligible.
    pub has_all_files: Option<Vec<String>>,
    /// At least one of these file names must exist directly inside the
    /// candidate directory.
    pub has_any_file: Vec<String>,
}

/// What one scan consumes, read-only.
pub struct ScanConfig {
    /// How many levels below the root the traversal may descend.
    pub max_search_depth: usize,
    /// Directory names (final path segments, not full paths) whose
    /// directory and whole subtree are pruned from the traversal.
    pub exclude_path_components: Vec<String>,
    /// The rules, in priority order: the first matching rule labels a
    /// directory.
    pub workspace_definitions: Vec<WorkspaceDefinition>,
}

/// Whether one of the strings in `v` has exactly the text `s`.
pub open spec fn contains_text(v: Seq<String>, s: Seq<char>) -> bool {
    exists|i: int| 0 <= i < v.len() && v[i]@ == s
}

/// Whether some string of `v` has the text `s`, decided by comparison.
pub fn contains_string(v: &Vec<String>, s: &String) -> (r: bool)
    ensures
        r == contains_text(v@, s@),
{
    let mut i: usize = 0;
    while i < v.len()
        invariant
            0 <= i <= v@.len(),
            forall|k: int| 0 <= k < i ==> v@[k]@ != s@,
        decreases v@.len() - i,
    {
        if v[i] == *s {
            return true;
        }
        i += 1;
    }
    false
}

} // verus!
