//! Rule evaluation: deciding which workspace-type rule, if any, a
//! candidate directory satisfies, given the entry names present
//! directly inside it. Rules are tried in configuration order and the
//! first match wins; each rule's `has_all_files` gate is evaluated for
//! that rule alone.

use vstd::prelude::*;

use crate::config::{contains_string, contains_text, WorkspaceDefinition};

verus! {

/// Either the rule lists no required files, or every listed name
/// occurs among the entry names in `present`.
pub open spec fn gate_passes(rule: WorkspaceDefinition, present: Seq<String>) -> bool {
    match rule.has_all_files {
        Some(req) => forall|i: int|
            0 <= i < req@.len() ==> #[trigger] contains_text(present, req@[i]@),
        None => true,
    }
}

/// At least one name from the rule's `has_any_file` list is present.
pub open spec fn any_file_present(rule: WorkspaceDefinition, present: Seq<String>) -> bool {
    exists|i: int|
        0 <= i < rule.has_any_file@.len() && #[trigger] contains_text(
            present,
            rule.has_any_file@[i]@,
        )
}

/// The rule matches: its gate passes and one of its marker files is
/// present.
pub open spec fn rule_matches(rule: WorkspaceDefinition, present: Seq<String>) -> bool {
    gate_passes(rule, present) && any_file_present(rule, present)
}

/// The label the ordered rule list assigns to a directory whose direct
/// entry names are `present`: the name of the first matching rule, or
/// nothing when no rule matches.
pub open spec fn rules_label(defs: Seq<WorkspaceDefinition>, present: Seq<String>) -> Option<
    Seq<char>,
>
    decreases defs.len(),
{
    if defs.len() == 0 {
        None
    } else if rule_matches(defs[0], present) {
        Some(defs[0].name@)
    } else {
        rules_label(defs.drop_first(), present)
    }
}

/// `label` is the name of one of the rules in `defs`.
pub open spec fn is_rule_label(defs: Seq<WorkspaceDefinition>, label: Seq<char>) -> bool {
    exists|i: int| 0 <= i < defs.len() && defs[i].name@ == label
}

/// Every name in `req` is present.
fn all_present(req: &Vec<String>, present: &Vec<String>) -> (r: bool)
    ensures
        r == (forall|i: int|
            0 <= i < req@.len() ==> #[trigger] contains_text(present@, req@[i]@)),
{
    let mut i: usize = 0;
    while i < req.len()
        invariant
            0 <= i <= req@.len(),
            forall|k: int| 0 <= k < i ==> #[trigger] contains_text(present@, req@[k]@),
        decreases req@.len() - i,
    {
        if !contains_string(present, &req[i]) {
            assert(!contains_text(present@, req@[i as int]@));
            return false;
        }
        i += 1;
    }
    true
}

/// Some name in `any` is present.
fn some_present(any: &Vec<String>, present: &Vec<String>) -> (r: bool)
    ensures
        r == (exists|i: int|
            0 <= i < any@.len() && #[trigger] contains_text(present@, any@[i]@)),
{
    let mut i: usize = 0;
    while i < any.len()
        invariant
            0 <= i <= any@.len(),
            forall|k: int| 0 <= k < i ==> !#[trigger] contains_text(present@, any@[k]@),
        decreases any@.len() - i,
    {
        if contains_string(present, &any[i]) {
            assert(contains_text(present@, any@[i as int]@));
            return true;
        }
        i += 1;
    }
    false
}

/// Evaluates the rules in order against the entry names `present` and
/// returns the first matching rule's name.
pub fn evaluate_rules<'a>(defs: &'a Vec<WorkspaceDefinition>, present: &Vec<String>) -> (r: Option<
    &'a String,
>)
    ensures
        match r {
            Some(label) => rules_label(defs@, present@) == Some(label@),
            None => rules_label(defs@, present@) is None,
        },
{
    let mut i: usize = 0;
    while i < defs.len()
        invariant
            0 <= i <= defs@.len(),
            forall|k: int| 0 <= k < i ==> !#[trigger] rule_matches(defs@[k], present@),
        decreases defs@.len() - i,
    {
        let gate = match &defs[i].has_all_files {
            Some(req) => all_present(req, present),
            None => true,
        };
        assert(gate == gate_passes(defs@[i as int], present@));
        if gate {
            if some_present(&defs[i].has_any_file, present) {
                assert(rule_matches(defs@[i as int], present@));
                proof {
                    lemma_rules_label_first_match(defs@, present@, i as int);
                }
                return Some(&defs[i].name);
            }
        }
        assert(!rule_matches(defs@[i as int], present@));
        i += 1;
    }
    proof {
        lemma_rules_label_none(defs@, present@);
    }
    None
}

/// When the rules before `i` do not match and rule `i` does, the
/// assigned label is rule `i`'s name.
proof fn lemma_rules_label_first_match(defs: Seq<WorkspaceDefinition>, present: Seq<String>, i: int)
    requires
        0 <= i < defs.len(),
        forall|k: int| 0 <= k < i ==> !#[trigger] rule_matches(defs[k], present),
        rule_matches(defs[i], present),
    ensures
        rules_label(defs, present) == Some(defs[i].name@),
    decreases i,
{
    if i == 0 {
    } else {
        assert(!rule_matches(defs[0], present));
        assert(forall|k: int|
            0 <= k < i - 1 ==> !#[trigger] rule_matches(defs.drop_first()[k], present)) by {
            assert(forall|k: int|
                0 <= k < i - 1 ==> defs.drop_first()[k] == defs[k + 1]);
        }
        assert(defs.drop_first()[i - 1] == defs[i]);
        lemma_rules_label_first_match(defs.drop_first(), present, i - 1);
    }
}

/// When no rule matches, no label is assigned.
proof fn lemma_rules_label_none(defs: Seq<WorkspaceDefinition>, present: Seq<String>)
    requires
        forall|k: int| 0 <= k < defs.len() ==> !#[trigger] rule_matches(defs[k], present),
    ensures
        rules_label(defs, present) is None,
    decreases defs.len(),
{
    if defs.len() == 0 {
    } else {
        assert(forall|k: int|
            0 <= k < defs.len() - 1 ==> !#[trigger] rule_matches(defs.drop_first()[k], present))
            by {
            assert(forall|k: int|
                0 <= k < defs.len() - 1 ==> defs.drop_first()[k] == defs[k + 1]);
        }
        lemma_rules_label_none(defs.drop_first(), present);
    }
}

/// When some rule matches, a label is assigned.
proof fn lemma_rules_label_some(defs: Seq<WorkspaceDefinition>, present: Seq<String>, j: int)
    requires
        0 <= j < defs.len(),
        rule_matches(defs[j], present),
    ensures
        rules_label(defs, present) is Some,
    decreases j,
{
    if rule_matches(defs[0], present) {
    } else {
        assert(j != 0);
        assert(defs.drop_first()[j - 1] == defs[j]);
        lemma_rules_label_some(defs.drop_first(), present, j - 1);
    }
}

/// An assigned label is always the name of one of the rules.
pub proof fn lemma_label_is_rule_name(
    defs: Seq<WorkspaceDefinition>,
    present: Seq<String>,
    label: Seq<char>,
)
    requires
        rules_label(defs, present) == Some(label),
    ensures
        is_rule_label(defs, label),
    decreases defs.len(),
{
    if defs.len() == 0 {
    } else if rule_matches(defs[0], present) {
        assert(defs[0].name@ == label);
    } else {
        lemma_label_is_rule_name(defs.drop_first(), present, label);
        let i = choose|i: int|
            0 <= i < defs.drop_first().len() && defs.drop_first()[i].name@ == label;
        assert(defs[i + 1].name@ == label);
    }
}

/// Rule priority: when a directory satisfies a rule that stands earlier
/// in the configuration than some other rule it also satisfies, the
/// label assigned is the name of a matching rule no later than the
/// earlier one — never the later rule's position.
pub proof fn lemma_rule_priority(
    defs: Seq<WorkspaceDefinition>,
    present: Seq<String>,
    i: int,
    j: int,
)
    requires
        0 <= i < j < defs.len(),
        rule_matches(defs[i], present),
        rule_matches(defs[j], present),
    ensures
        exists|k: int|
            0 <= k <= i && #[trigger] rule_matches(defs[k], present) && rules_label(defs, present)
                == Some(defs[k].name@),
    decreases i,
{
    if rule_matches(defs[0], present) {
        assert(rules_label(defs, present) == Some(defs[0].name@));
        assert(0 <= 0 <= i && rule_matches(defs[0], present) && rules_label(defs, present)
            == Some(defs[0].name@));
    } else {
        assert(i != 0);
        assert(defs.drop_first()[i - 1] == defs[i]);
        assert(defs.drop_first()[j - 1] == defs[j]);
        lemma_rule_priority(defs.drop_first(), present, i - 1, j - 1);
        let k = choose|k: int|
            0 <= k <= i - 1 && #[trigger] rule_matches(defs.drop_first()[k], present)
                && rules_label(defs.drop_first(), present) == Some(defs.drop_first()[k].name@);
        assert(defs.drop_first()[k] == defs[k + 1]);
        assert(rule_matches(defs[k + 1], present) && rules_label(defs, present) == Some(
            defs[k + 1].name@,
        ));
    }
}

/// Gate independence: a rule whose `has_all_files` gate fails does not
/// match, whatever its `has_any_file` list holds; and a failed gate of
/// one rule does not keep a different matching rule from assigning a
/// label.
pub proof fn lemma_gate_independence(
    defs: Seq<WorkspaceDefinition>,
    present: Seq<String>,
    i: int,
    j: int,
)
    requires
        0 <= i < defs.len(),
        0 <= j < defs.len(),
        !gate_passes(defs[i], present),
        rule_matches(defs[j], present),
    ensures
        !rule_matches(defs[i], present),
        rules_label(defs, present) is Some,
{
    lemma_rules_label_some(defs, present, j);
}

} // verus!
