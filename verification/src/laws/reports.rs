//! Laws of reports: where each risk comes from, and what cannot hide it.
use vstd::prelude::*;
use vstd::utf8::*;

use crate::analysis::{
    all_findings, command_findings, is_parsing_of, is_report_on, lemma_nested_reports,
    nested_reports, program_findings, report_of, script_findings, Parsing, MAX_SHELL_DEPTH,
};
use crate::commands::simple_commands;
use crate::findings::{findings_among, own_findings, tree_findings};
use crate::nested::nested_script;
use crate::pieces::{lemma_commands_drawn, lemma_nested_script_piece, lemma_piece_ascii};
use crate::risk::{distinct, lemma_record_all_contains, lemma_record_all_no_duplicates, Risk};
use crate::syntax::Syntax;
use crate::text::is_piece_of;

verus! {

/// A report lists no risk twice.
pub proof fn law_report_lists_each_risk_once(
    command: Seq<char>,
    shell_depth: nat,
    report: Seq<Risk>,
)
    requires
        is_report_on(command, shell_depth, report),
    ensures
        report.no_duplicates(),
{
    let parsing = choose|parsing: Parsing| #[trigger]
        is_parsing_of(parsing, command, shell_depth) && report == report_of(parsing, shell_depth);
    if let Some(root) = parsing.outcome {
        lemma_record_all_no_duplicates(
            Seq::empty(),
            all_findings(
                root,
                simple_commands(root),
                shell_depth,
                nested_reports(parsing.nested, shell_depth, parsing.nested.len()),
            ),
        );
    }
}

/// What is found later adds to the end of a report and takes nothing out of it.
pub proof fn law_findings_extend_the_report(findings: Seq<Risk>, more: Seq<Risk>)
    ensures
        distinct(findings).is_prefix_of(distinct(findings + more)),
    decreases more.len(),
{
    if more.len() == 0 {
        assert(findings + more =~= findings);
    } else {
        law_findings_extend_the_report(findings, more.drop_last());
        assert((findings + more).drop_last() =~= findings + more.drop_last());
    }
}

/// The script of a command is followed at this depth.
pub open spec fn is_followed(words: Seq<Seq<char>>, shell_depth: nat) -> bool {
    nested_script(words) is Script && shell_depth < MAX_SHELL_DEPTH
}

proof fn lemma_command_findings_agree(
    commands: Seq<Seq<Seq<char>>>,
    shell_depth: nat,
    nested: Seq<Seq<Risk>>,
    others: Seq<Seq<Risk>>,
    n: nat,
)
    requires
        n <= commands.len(),
        forall|i: int|
            0 <= i < commands.len() && is_followed(#[trigger] commands[i], shell_depth)
                ==> nested[i] == others[i],
    ensures
        command_findings(commands, shell_depth, nested, n) == command_findings(
            commands,
            shell_depth,
            others,
            n,
        ),
    decreases n,
{
    if n > 0 {
        lemma_command_findings_agree(commands, shell_depth, nested, others, (n - 1) as nat);
        let words = commands[n - 1];
        assert(script_findings(words, shell_depth, nested[n - 1]) == script_findings(
            words,
            shell_depth,
            others[n - 1],
        ));
    }
}

proof fn lemma_ascii_parsings_agree(
    command: Seq<char>,
    shell_depth: nat,
    first: Parsing,
    second: Parsing,
)
    requires
        is_ascii_chars(command),
        is_parsing_of(first, command, shell_depth),
        is_parsing_of(second, command, shell_depth),
    ensures
        report_of(first, shell_depth) == report_of(second, shell_depth),
    decreases first,
{
    let root = first.outcome->0;
    let commands = simple_commands(root);
    lemma_commands_drawn(root, command);
    lemma_nested_reports(first.nested, shell_depth, first.nested.len());
    lemma_nested_reports(second.nested, shell_depth, second.nested.len());
    let nested = nested_reports(first.nested, shell_depth, first.nested.len());
    let others = nested_reports(second.nested, shell_depth, second.nested.len());
    assert forall|i: int|
        0 <= i < commands.len() && is_followed(
            #[trigger] commands[i],
            shell_depth,
        ) implies nested[i] == others[i] by {
        let script = nested_script(commands[i])->Script_0;
        assert forall|j: int| 0 <= j < commands[i].len() implies is_piece_of(
            #[trigger] commands[i][j],
            command,
        ) by {}
        lemma_nested_script_piece(commands[i], command);
        lemma_piece_ascii(script, command);
        assert(is_parsing_of(first.nested[i], script, shell_depth + 1));
        assert(is_parsing_of(second.nested[i], script, shell_depth + 1));
        lemma_ascii_parsings_agree(script, shell_depth + 1, first.nested[i], second.nested[i]);
    }
    lemma_command_findings_agree(commands, shell_depth, nested, others, commands.len());
}

/// A command in ASCII has one report.
pub proof fn law_ascii_command_has_one_report(
    command: Seq<char>,
    shell_depth: nat,
    first: Seq<Risk>,
    second: Seq<Risk>,
)
    requires
        is_ascii_chars(command),
        is_report_on(command, shell_depth, first),
        is_report_on(command, shell_depth, second),
    ensures
        first == second,
{
    let one = choose|parsing: Parsing| #[trigger]
        is_parsing_of(parsing, command, shell_depth) && first == report_of(parsing, shell_depth);
    let other = choose|parsing: Parsing| #[trigger]
        is_parsing_of(parsing, command, shell_depth) && second == report_of(parsing, shell_depth);
    lemma_ascii_parsings_agree(command, shell_depth, one, other);
}

proof fn lemma_deep_command_findings(
    commands: Seq<Seq<Seq<char>>>,
    shell_depth: nat,
    nested: Seq<Seq<Risk>>,
    others: Seq<Seq<Risk>>,
    n: nat,
)
    requires
        n <= commands.len(),
        shell_depth >= MAX_SHELL_DEPTH,
    ensures
        command_findings(commands, shell_depth, nested, n) == command_findings(
            commands,
            MAX_SHELL_DEPTH as nat,
            others,
            n,
        ),
    decreases n,
{
    if n > 0 {
        lemma_deep_command_findings(commands, shell_depth, nested, others, (n - 1) as nat);
        let words = commands[n - 1];
        assert(script_findings(words, shell_depth, nested[n - 1]) == script_findings(
            words,
            MAX_SHELL_DEPTH as nat,
            others[n - 1],
        ));
    }
}

/// From the depth on at which scripts are no longer followed, the depth does not matter: what
/// parsing may give, and the report on it, are the same.
pub proof fn law_depth_does_not_matter_beyond_the_bound(
    parsing: Parsing,
    command: Seq<char>,
    shell_depth: nat,
)
    requires
        shell_depth >= MAX_SHELL_DEPTH,
    ensures
        report_of(parsing, shell_depth) == report_of(parsing, MAX_SHELL_DEPTH as nat),
        is_parsing_of(parsing, command, shell_depth) == is_parsing_of(
            parsing,
            command,
            MAX_SHELL_DEPTH as nat,
        ),
{
    if let Some(root) = parsing.outcome {
        lemma_deep_command_findings(
            simple_commands(root),
            shell_depth,
            nested_reports(parsing.nested, shell_depth, parsing.nested.len()),
            nested_reports(parsing.nested, MAX_SHELL_DEPTH as nat, parsing.nested.len()),
            simple_commands(root).len(),
        );
    }
}

/// Beyond the bound, the reports on a command at one depth are those at any other.
pub proof fn law_deep_reports_are_the_same(
    command: Seq<char>,
    shell_depth: nat,
    report: Seq<Risk>,
)
    requires
        shell_depth >= MAX_SHELL_DEPTH,
    ensures
        is_report_on(command, shell_depth, report) == is_report_on(
            command,
            MAX_SHELL_DEPTH as nat,
            report,
        ),
{
    assert forall|parsing: Parsing|
        is_parsing_of(parsing, command, shell_depth) == is_parsing_of(
            parsing,
            command,
            MAX_SHELL_DEPTH as nat,
        ) && report_of(parsing, shell_depth) == #[trigger] report_of(
            parsing,
            MAX_SHELL_DEPTH as nat,
        ) by {
        law_depth_does_not_matter_beyond_the_bound(parsing, command, shell_depth);
    }
    if is_report_on(command, shell_depth, report) {
        let parsing = choose|parsing: Parsing| #[trigger]
            is_parsing_of(parsing, command, shell_depth) && report == report_of(
                parsing,
                shell_depth,
            );
        assert(report == report_of(parsing, MAX_SHELL_DEPTH as nat));
    }
}

/// The nodes of a tree, each before its descendants.
pub open spec fn nodes_of(node: Syntax) -> Seq<Syntax>
    decreases node, 0nat,
{
    seq![node] + nodes_among(node.children, node.children.len())
}

/// The nodes of the first `n` of `children`.
pub open spec fn nodes_among(children: Seq<Syntax>, n: nat) -> Seq<Syntax>
    decreases children, n,
{
    if n == 0 || n > children.len() {
        Seq::empty()
    } else {
        nodes_among(children, (n - 1) as nat) + nodes_of(children[n - 1])
    }
}

/// One of `nodes`, by itself, tells of `risk`.
pub open spec fn told_by_nodes(nodes: Seq<Syntax>, risk: Risk) -> bool {
    exists|i: int| 0 <= i < nodes.len() && own_findings(#[trigger] nodes[i]).contains(risk)
}

/// What two lists hold together is what either holds.
pub proof fn lemma_concat_contains(first: Seq<Risk>, second: Seq<Risk>, risk: Risk)
    ensures
        (first + second).contains(risk) <==> first.contains(risk) || second.contains(risk),
{
    let all = first + second;
    if first.contains(risk) {
        let i = choose|i: int| 0 <= i < first.len() && first[i] == risk;
        assert(all[i] == risk);
    }
    if second.contains(risk) {
        let i = choose|i: int| 0 <= i < second.len() && second[i] == risk;
        assert(all[first.len() + i] == risk);
    }
    if all.contains(risk) {
        let i = choose|i: int| 0 <= i < all.len() && all[i] == risk;
        if i < first.len() {
            assert(first[i] == risk);
        } else {
            assert(second[i - first.len()] == risk);
        }
    }
}

proof fn lemma_told_by_concat(first: Seq<Syntax>, second: Seq<Syntax>, risk: Risk)
    ensures
        told_by_nodes(first + second, risk) <==> told_by_nodes(first, risk) || told_by_nodes(
            second,
            risk,
        ),
{
    let all = first + second;
    if told_by_nodes(first, risk) {
        let i = choose|i: int|
            0 <= i < first.len() && own_findings(#[trigger] first[i]).contains(risk);
        assert(all[i] == first[i]);
    }
    if told_by_nodes(second, risk) {
        let i = choose|i: int|
            0 <= i < second.len() && own_findings(#[trigger] second[i]).contains(risk);
        assert(all[first.len() + i] == second[i]);
    }
    if told_by_nodes(all, risk) {
        let i = choose|i: int| 0 <= i < all.len() && own_findings(#[trigger] all[i]).contains(risk);
        if i < first.len() {
            assert(first[i] == all[i]);
        } else {
            assert(second[i - first.len()] == all[i]);
        }
    }
}

/// The tree tells of a risk exactly where one of its nodes does by itself.
pub proof fn lemma_tree_findings_sources(node: Syntax, risk: Risk)
    ensures
        tree_findings(node).contains(risk) <==> told_by_nodes(nodes_of(node), risk),
    decreases node, 0nat,
{
    let children = node.children;
    lemma_findings_among_sources(children, children.len(), risk);
    lemma_concat_contains(own_findings(node), findings_among(children, children.len()), risk);
    lemma_told_by_concat(seq![node], nodes_among(children, children.len()), risk);
    assert(told_by_nodes(seq![node], risk) <==> own_findings(node).contains(risk)) by {
        assert(seq![node][0] == node);
    }
}

proof fn lemma_findings_among_sources(children: Seq<Syntax>, n: nat, risk: Risk)
    ensures
        findings_among(children, n).contains(risk) <==> told_by_nodes(
            nodes_among(children, n),
            risk,
        ),
    decreases children, n,
{
    if 0 < n <= children.len() {
        lemma_findings_among_sources(children, (n - 1) as nat, risk);
        lemma_tree_findings_sources(children[n - 1], risk);
        lemma_concat_contains(
            findings_among(children, (n - 1) as nat),
            tree_findings(children[n - 1]),
            risk,
        );
        lemma_told_by_concat(
            nodes_among(children, (n - 1) as nat),
            nodes_of(children[n - 1]),
            risk,
        );
    }
}

/// The command tells of `risk`: by the program that it runs, or by the script that it hands to
/// a shell, where `nested` are the risks of that script.
pub open spec fn told_by_command(
    words: Seq<Seq<char>>,
    shell_depth: nat,
    nested: Seq<Risk>,
    risk: Risk,
) -> bool {
    program_findings(words).contains(risk) || script_findings(words, shell_depth, nested).contains(
        risk,
    )
}

/// One of the commands tells of `risk`.
pub open spec fn told_by_commands(
    commands: Seq<Seq<Seq<char>>>,
    shell_depth: nat,
    nested: Seq<Parsing>,
    risk: Risk,
) -> bool {
    exists|i: int|
        0 <= i < commands.len() && told_by_command(
            #[trigger] commands[i],
            shell_depth,
            report_of(nested[i], shell_depth + 1),
            risk,
        )
}

proof fn lemma_command_findings_sources(
    commands: Seq<Seq<Seq<char>>>,
    shell_depth: nat,
    nested: Seq<Seq<Risk>>,
    n: nat,
    risk: Risk,
)
    requires
        n <= commands.len(),
    ensures
        command_findings(commands, shell_depth, nested, n).contains(risk) <==> exists|i: int|
            0 <= i < n && told_by_command(#[trigger] commands[i], shell_depth, nested[i], risk),
    decreases n,
{
    if n > 0 {
        let before = command_findings(commands, shell_depth, nested, (n - 1) as nat);
        let program = program_findings(commands[n - 1]);
        let script = script_findings(commands[n - 1], shell_depth, nested[n - 1]);
        lemma_command_findings_sources(commands, shell_depth, nested, (n - 1) as nat, risk);
        lemma_concat_contains(before, program, risk);
        lemma_concat_contains(before + program, script, risk);
        if told_by_command(commands[n - 1], shell_depth, nested[n - 1], risk) {
            assert(0 <= n - 1 < n);
        }
    }
}

/// A report lists a risk exactly where one of the commands tells of it, or one of the nodes of
/// the tree by itself.
pub proof fn law_report_sources(
    parsing: Parsing,
    command: Seq<char>,
    shell_depth: nat,
    root: Syntax,
    risk: Risk,
)
    requires
        is_parsing_of(parsing, command, shell_depth),
        parsing.outcome == Some(root),
    ensures
        report_of(parsing, shell_depth).contains(risk) <==> told_by_commands(
            simple_commands(root),
            shell_depth,
            parsing.nested,
            risk,
        ) || told_by_nodes(nodes_of(root), risk),
{
    let commands = simple_commands(root);
    let nested = nested_reports(parsing.nested, shell_depth, parsing.nested.len());
    let by_commands = command_findings(commands, shell_depth, nested, commands.len());
    lemma_nested_reports(parsing.nested, shell_depth, parsing.nested.len());
    lemma_record_all_contains(
        Seq::empty(),
        all_findings(root, commands, shell_depth, nested),
        risk,
    );
    lemma_concat_contains(by_commands, tree_findings(root), risk);
    lemma_tree_findings_sources(root, risk);
    lemma_command_findings_sources(commands, shell_depth, nested, commands.len(), risk);
    if by_commands.contains(risk) {
        let i = choose|i: int|
            0 <= i < commands.len() && told_by_command(
                #[trigger] commands[i],
                shell_depth,
                nested[i],
                risk,
            );
        assert(nested[i] == report_of(parsing.nested[i], shell_depth + 1));
    }
    if told_by_commands(commands, shell_depth, parsing.nested, risk) {
        let i = choose|i: int|
            0 <= i < commands.len() && told_by_command(
                #[trigger] commands[i],
                shell_depth,
                report_of(parsing.nested[i], shell_depth + 1),
                risk,
            );
        assert(nested[i] == report_of(parsing.nested[i], shell_depth + 1));
        assert(told_by_command(commands[i], shell_depth, nested[i], risk));
    }
}

} // verus!
