//! Laws of literals: their texts make no findings.
use vstd::prelude::*;

use crate::analysis::{is_parsing_of, report_of, Parsing};
use crate::commands::{first_word, is_command, name_among, name_of, simple_commands, words_of};
use crate::findings::{
    findings_among, invocation_findings, mode_among, own_findings, stage_names, tree_findings,
};
use crate::laws::reports::{
    law_report_sources, lemma_tree_findings_sources, nodes_of, told_by_commands, told_by_nodes,
};
use crate::omission::{text_without, Part};
use crate::redirects::{
    is_write_operator, own_targets, targets_below, targets_within, writes, writes_within,
};
use crate::risk::Risk;
use crate::syntax::{field_child, Syntax};
use crate::text::ascii_lowercase;

verus! {

/// The name of the variable that an assignment sets.
pub open spec fn assigned_name(node: Syntax) -> Option<Seq<char>> {
    match field_child(node, "name"@) {
        Some(name) => Some(name.text),
        None => None,
    }
}

/// What counts of the words of a command although it may stand in quotes: the mode of a `chmod`,
/// and the words of an `export`.
pub open spec fn counted_words(node: Syntax) -> Seq<Seq<char>> {
    match name_of(node) {
        Some(name) => if ascii_lowercase(name) == "chmod"@ {
            seq![mode_among(words_of(node), 1)]
        } else if ascii_lowercase(name) == "export"@ {
            words_of(node)
        } else {
            Seq::empty()
        },
        None => Seq::empty(),
    }
}

/// The two trees are the same but for the texts of literals, and so of the nodes around them,
/// whose texts are the same outside literals. The literals that count as more than text are the
/// same too: in the targets of redirections, in the names of assigned variables, in the mode of
/// a `chmod` and in what is exported.
pub open spec fn same_but_for_literals(first: Syntax, second: Syntax) -> bool
    decreases first,
{
    &&& first.kind == second.kind
    &&& first.named == second.named
    &&& first.field == second.field
    &&& text_without(first, Part::Literal) == text_without(second, Part::Literal)
    &&& first.kind == "word"@ ==> first.text == second.text
    &&& first.kind == "variable_assignment"@ ==> assigned_name(first) == assigned_name(second)
    &&& is_command(first) ==> counted_words(first) == counted_words(second)
    &&& own_targets(first) == own_targets(second)
    &&& first.children.len() == second.children.len()
    &&& forall|i: int|
        0 <= i < first.children.len() ==> same_but_for_literals(
            #[trigger] first.children[i],
            second.children[i],
        )
}

/// Of two lists, each node is the same as its counterpart but for literals.
pub open spec fn all_same_but_for_literals(first: Seq<Syntax>, second: Seq<Syntax>) -> bool {
    &&& first.len() == second.len()
    &&& forall|i: int|
        0 <= i < first.len() ==> same_but_for_literals(#[trigger] first[i], second[i])
}

proof fn lemma_same_writes(first: Syntax, second: Syntax)
    requires
        same_but_for_literals(first, second),
    ensures
        writes(first) == writes(second),
{
    if writes(first) {
        let i = choose|i: int|
            0 <= i < first.children.len() && is_write_operator(#[trigger] first.children[i]);
        assert(same_but_for_literals(first.children[i], second.children[i]));
        assert(is_write_operator(second.children[i]));
    }
    if writes(second) {
        let i = choose|i: int|
            0 <= i < second.children.len() && is_write_operator(#[trigger] second.children[i]);
        assert(same_but_for_literals(first.children[i], second.children[i]));
        assert(is_write_operator(first.children[i]));
    }
}

proof fn lemma_same_writes_within(first: Syntax, second: Syntax)
    requires
        same_but_for_literals(first, second),
    ensures
        writes_within(first) == writes_within(second),
    decreases first,
{
    lemma_same_writes(first, second);
    assert forall|i: int| 0 <= i < first.children.len() implies writes_within(
        #[trigger] first.children[i],
    ) == writes_within(second.children[i]) by {
        lemma_same_writes_within(first.children[i], second.children[i]);
    }
    if exists|i: int|
        0 <= i < second.children.len() && writes_within(#[trigger] second.children[i]) {
        let i = choose|i: int|
            0 <= i < second.children.len() && writes_within(#[trigger] second.children[i]);
        assert(writes_within(first.children[i]));
    }
}

proof fn lemma_same_targets_within(first: Syntax, second: Syntax)
    requires
        same_but_for_literals(first, second),
    ensures
        targets_within(first) == targets_within(second),
    decreases first, 0nat,
{
    lemma_same_targets_below(first.children, second.children, first.children.len());
}

proof fn lemma_same_targets_below(first: Seq<Syntax>, second: Seq<Syntax>, n: nat)
    requires
        all_same_but_for_literals(first, second),
    ensures
        targets_below(first, n) == targets_below(second, n),
    decreases first, n,
{
    if 0 < n <= first.len() {
        lemma_same_targets_below(first, second, (n - 1) as nat);
        lemma_same_targets_within(first[n - 1], second[n - 1]);
    }
}

proof fn lemma_same_first_word(first: Seq<Syntax>, second: Seq<Syntax>)
    requires
        all_same_but_for_literals(first, second),
    ensures
        first_word(first) == first_word(second),
    decreases first.len(),
{
    if first.len() > 0 {
        assert(same_but_for_literals(first[0], second[0]));
        lemma_same_rest(first, second);
        lemma_same_first_word(first.drop_first(), second.drop_first());
    }
}

proof fn lemma_same_rest(first: Seq<Syntax>, second: Seq<Syntax>)
    requires
        first.len() > 0,
        all_same_but_for_literals(first, second),
    ensures
        all_same_but_for_literals(first.drop_first(), second.drop_first()),
{
    assert forall|i: int| 0 <= i < first.drop_first().len() implies same_but_for_literals(
        #[trigger] first.drop_first()[i],
        second.drop_first()[i],
    ) by {
        assert(same_but_for_literals(first[i + 1], second[i + 1]));
    }
}

proof fn lemma_same_name(first: Seq<Syntax>, second: Seq<Syntax>)
    requires
        all_same_but_for_literals(first, second),
    ensures
        name_among(first) == name_among(second),
    decreases first.len(),
{
    if first.len() > 0 {
        assert(same_but_for_literals(first[0], second[0]));
        lemma_same_first_word(first[0].children, second[0].children);
        lemma_same_rest(first, second);
        lemma_same_name(first.drop_first(), second.drop_first());
    }
}

proof fn lemma_same_stage_names(first: Seq<Syntax>, second: Seq<Syntax>, n: nat)
    requires
        all_same_but_for_literals(first, second),
    ensures
        stage_names(first, n) == stage_names(second, n),
    decreases n,
{
    if 0 < n <= first.len() {
        lemma_same_stage_names(first, second, (n - 1) as nat);
        assert(same_but_for_literals(first[n - 1], second[n - 1]));
        lemma_same_name(first[n - 1].children, second[n - 1].children);
    }
}

proof fn lemma_chmod_is_no_export()
    ensures
        "chmod"@ != "export"@,
{
    reveal_strlit("chmod");
    reveal_strlit("export");
    assert("chmod"@.len() != "export"@.len());
}

proof fn lemma_same_own_findings(first: Syntax, second: Syntax)
    requires
        same_but_for_literals(first, second),
    ensures
        own_findings(first) == own_findings(second),
{
    lemma_same_stage_names(first.children, second.children, first.children.len());
    lemma_same_targets_within(first, second);
    lemma_same_writes_within(first, second);
    lemma_same_name(first.children, second.children);
    if is_command(first) {
        assert(name_of(first) == name_of(second));
        assert(counted_words(first)[0] == counted_words(second)[0]);
        lemma_chmod_is_no_export();
        assert(invocation_findings(first) == invocation_findings(second));
    }
}

/// What the nodes of a tree tell does not depend on the texts of its literals.
pub proof fn law_findings_ignore_literals(first: Syntax, second: Syntax)
    requires
        same_but_for_literals(first, second),
    ensures
        tree_findings(first) == tree_findings(second),
    decreases first, 0nat,
{
    lemma_same_own_findings(first, second);
    lemma_same_findings_among(first.children, second.children, first.children.len());
}

proof fn lemma_same_findings_among(first: Seq<Syntax>, second: Seq<Syntax>, n: nat)
    requires
        all_same_but_for_literals(first, second),
    ensures
        findings_among(first, n) == findings_among(second, n),
    decreases first, n,
{
    if 0 < n <= first.len() {
        lemma_same_findings_among(first, second, (n - 1) as nat);
        law_findings_ignore_literals(first[n - 1], second[n - 1]);
    }
}

/// The text of a literal makes no report of a risk. What a report lists, other than for a
/// program that a command runs or a script that it hands to a shell, it lists whatever the
/// literals in the command say.
pub proof fn law_literals_tell_of_nothing(
    first: Parsing,
    command: Seq<char>,
    root: Syntax,
    second: Parsing,
    other_command: Seq<char>,
    other_root: Syntax,
    shell_depth: nat,
    risk: Risk,
)
    requires
        is_parsing_of(first, command, shell_depth),
        first.outcome == Some(root),
        is_parsing_of(second, other_command, shell_depth),
        second.outcome == Some(other_root),
        same_but_for_literals(root, other_root),
        report_of(first, shell_depth).contains(risk),
        !told_by_commands(simple_commands(root), shell_depth, first.nested, risk),
    ensures
        report_of(second, shell_depth).contains(risk),
{
    law_report_sources(first, command, shell_depth, root, risk);
    law_report_sources(second, other_command, shell_depth, other_root, risk);
    lemma_tree_findings_sources(root, risk);
    lemma_tree_findings_sources(other_root, risk);
    law_findings_ignore_literals(root, other_root);
    assert(told_by_nodes(nodes_of(root), risk));
}

} // verus!
