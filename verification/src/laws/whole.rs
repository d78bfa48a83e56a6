//! Laws of whole reports: how the list of commands and the report on a command go back to the
//! nodes that the parser made of it.
use tree_sitter::Tree;
use vstd::prelude::*;
use vstd::utf8::*;

use crate::analysis::{
    command_findings, is_parsing_of, is_report_on, lemma_nested_reports,
    nested_reports, program_findings, report_of, script_findings, Parsing,
};
use crate::commands::{is_command_list_of, simple_commands};
use crate::findings::{findings_among, own_findings, tree_findings};
use crate::grammar::{bash_nodes, is_parse_of, is_well_nested, tree_nodes, tree_source, NodeFacts};
use crate::laws::listing::{
    law_commands_are_listed_in_order, named_nodes_of, words_of_commands,
};
use crate::laws::nodes::{
    ends_in_shell_stage, has_download_stage, invokes_by_name, is_download_stage, is_shell_stage,
    is_stage, law_escalation_by_name, law_pipelines_by_their_stages,
};
use crate::laws::reports::{
    law_report_sources, nodes_among, nodes_of, told_by_command, told_by_commands,
};
use crate::laws::trees::{
    depths_of, describes, law_tree_keeps_depths, law_tree_keeps_its_nodes,
};
use crate::nested::{nested_script, Nested};
use crate::risk::{distinct, lemma_record_all_contains, record_all, Risk};
use crate::syntax::{is_syntax_of, tree_of, Syntax};
use crate::words::destructive_name;

verus! {

/// The node is what the parser says of it, apart from its children.
pub open spec fn is_as_parsed(node: Syntax, facts: NodeFacts) -> bool {
    &&& node.kind == facts.kind
    &&& node.named == facts.named
    &&& node.field == facts.field
    &&& facts.text matches Some(text) ==> node.text == text
    &&& facts.text is None ==> node.text.len() == 0
}

/// The tree is made of the parser's nodes: all of them, in their order, each at its depth.
pub open spec fn is_made_of(root: Syntax, nodes: Seq<NodeFacts>) -> bool {
    &&& nodes_of(root).len() == nodes.len()
    &&& forall|i: int|
        0 <= i < nodes.len() ==> is_as_parsed(#[trigger] nodes_of(root)[i], nodes[i])
    &&& depths_of(root, 0) == Seq::new(nodes.len(), |i: int| nodes[i].depth)
}

/// Parsing a command always gives a tree, and it is made of all the nodes of a tree that was
/// parsed from this command.
pub proof fn law_syntax_is_as_parsed(command: Seq<char>, outcome: Option<Syntax>)
    requires
        is_syntax_of(command, outcome),
    ensures
        outcome is Some,
        exists|tree: Tree| #[trigger]
            tree_source(tree) == command && is_made_of(outcome->0, tree_nodes(tree)) && (
            is_ascii_chars(command) ==> tree_nodes(tree) == bash_nodes(command)),
{
    let nodes = choose|nodes: Seq<NodeFacts>| #[trigger]
        is_parse_of(command, nodes) && outcome == Some(tree_of(nodes));
    let tree = choose|tree: Tree| #[trigger]
        tree_source(tree) == command && tree_nodes(tree) == nodes;
    let root = outcome->0;
    assert(is_well_nested(nodes));
    law_tree_keeps_its_nodes(nodes);
    law_tree_keeps_depths(nodes);
    assert forall|i: int| 0 <= i < nodes.len() implies is_as_parsed(
        #[trigger] nodes_of(root)[i],
        nodes[i],
    ) by {
        assert(describes(nodes[i], nodes_of(root)[i]));
    }
    assert(is_made_of(root, tree_nodes(tree)));
    assert(tree_source(tree) == command);
}

/// The list of commands is always given, and has the words of the commands in such a tree, all
/// of them and in their order.
pub proof fn law_command_list_is_as_parsed(
    command: Seq<char>,
    commands: Option<Seq<Seq<Seq<char>>>>,
)
    requires
        is_command_list_of(command, commands),
    ensures
        commands is Some,
        exists|root: Syntax| #[trigger]
            is_syntax_of(command, Some(root)) && commands->0 == words_of_commands(
                named_nodes_of(root),
            ),
{
    let outcome = choose|outcome: Option<Syntax>| #[trigger]
        is_syntax_of(command, outcome) && commands == (match outcome {
            Some(root) => Some(simple_commands(root)),
            None => None,
        });
    law_syntax_is_as_parsed(command, outcome);
    law_commands_are_listed_in_order(outcome->0);
    assert(is_syntax_of(command, Some(outcome->0)));
}

/// Every report on a command goes back to a tree of this command.
pub proof fn law_reports_are_on_the_command(
    command: Seq<char>,
    shell_depth: nat,
    report: Seq<Risk>,
)
    requires
        is_report_on(command, shell_depth, report),
    ensures
        exists|parsing: Parsing| #[trigger]
            is_parsing_of(parsing, command, shell_depth) && parsing.outcome is Some && is_syntax_of(
                command,
                parsing.outcome,
            ) && report == report_of(parsing, shell_depth),
{
    let parsing = choose|parsing: Parsing| #[trigger]
        is_parsing_of(parsing, command, shell_depth) && report == report_of(parsing, shell_depth);
    law_syntax_is_as_parsed(command, parsing.outcome);
    assert(is_parsing_of(parsing, command, shell_depth));
}

/// What counts for a script that a command hands to a shell is the report on the script itself,
/// one level deeper, down to the sixteenth.
pub proof fn law_scripts_have_reports_of_their_own(
    parsing: Parsing,
    command: Seq<char>,
    shell_depth: nat,
    root: Syntax,
    index: int,
    script: Seq<char>,
)
    requires
        is_parsing_of(parsing, command, shell_depth),
        parsing.outcome == Some(root),
        0 <= index < simple_commands(root).len(),
        nested_script(simple_commands(root)[index]) == Nested::Script(script),
        shell_depth < 16,
    ensures
        is_report_on(script, shell_depth + 1, report_of(parsing.nested[index], shell_depth + 1)),
{
    assert(is_parsing_of(parsing.nested[index], script, shell_depth + 1));
}

/// The command, by its words, brings `risk` into a report, where `nested` is the report on the
/// script that it hands to a shell: a destructive program, what the script brings, or, for a
/// script that is not known or stands below the sixteenth level, remote code.
pub open spec fn brings(
    words: Seq<Seq<char>>,
    shell_depth: nat,
    nested: Seq<Risk>,
    risk: Risk,
) -> bool {
    ||| risk is DestructiveCommand && destructive_name(words) == Some(risk->DestructiveCommand_0)
    ||| nested_script(words) is Script && shell_depth < 16 && nested.contains(risk)
    ||| nested_script(words) is Script && shell_depth >= 16 && risk is RemoteCodeExecution
    ||| nested_script(words) is Ambiguous && risk is RemoteCodeExecution
}

proof fn lemma_brings(words: Seq<Seq<char>>, shell_depth: nat, nested: Seq<Risk>, risk: Risk)
    ensures
        told_by_command(words, shell_depth, nested, risk) <==> brings(
            words,
            shell_depth,
            nested,
            risk,
        ),
{
    let program = program_findings(words);
    let script = script_findings(words, shell_depth, nested);
    if let Some(name) = destructive_name(words) {
        assert(program =~= seq![Risk::DestructiveCommand(name)]);
        assert(program[0] == Risk::DestructiveCommand(name));
    }
    let remote = seq![Risk::RemoteCodeExecution];
    assert(remote[0] == Risk::RemoteCodeExecution);
    assert(remote.contains(risk) <==> risk is RemoteCodeExecution);
}

/// A report lists a risk exactly where one of the commands brings it or one of the nodes of the
/// tree tells of it.
pub proof fn law_report_in_full(
    parsing: Parsing,
    command: Seq<char>,
    shell_depth: nat,
    root: Syntax,
    risk: Risk,
)
    requires
        is_parsing_of(parsing, command, shell_depth),
        parsing.outcome == Some(root),
    ensures
        report_of(parsing, shell_depth).contains(risk) <==> {
            ||| exists|i: int|
                0 <= i < simple_commands(root).len() && brings(
                    #[trigger] simple_commands(root)[i],
                    shell_depth,
                    report_of(parsing.nested[i], shell_depth + 1),
                    risk,
                )
            ||| exists|i: int|
                0 <= i < nodes_of(root).len() && own_findings(
                    #[trigger] nodes_of(root)[i],
                ).contains(risk)
        },
{
    let commands = simple_commands(root);
    law_report_sources(parsing, command, shell_depth, root, risk);
    assert forall|i: int| 0 <= i < commands.len() implies told_by_command(
        #[trigger] commands[i],
        shell_depth,
        report_of(parsing.nested[i], shell_depth + 1),
        risk,
    ) == brings(commands[i], shell_depth, report_of(parsing.nested[i], shell_depth + 1), risk) by {
        lemma_brings(
            commands[i],
            shell_depth,
            report_of(parsing.nested[i], shell_depth + 1),
            risk,
        );
    }
    if told_by_commands(commands, shell_depth, parsing.nested, risk) {
        let i = choose|i: int|
            0 <= i < commands.len() && told_by_command(
                #[trigger] commands[i],
                shell_depth,
                report_of(parsing.nested[i], shell_depth + 1),
                risk,
            );
        assert(brings(
            commands[i],
            shell_depth,
            report_of(parsing.nested[i], shell_depth + 1),
            risk,
        ));
    }
    if exists|i: int|
        0 <= i < commands.len() && brings(
            #[trigger] commands[i],
            shell_depth,
            report_of(parsing.nested[i], shell_depth + 1),
            risk,
        ) {
        let i = choose|i: int|
            0 <= i < commands.len() && brings(
                #[trigger] commands[i],
                shell_depth,
                report_of(parsing.nested[i], shell_depth + 1),
                risk,
            );
        assert(told_by_command(
            commands[i],
            shell_depth,
            report_of(parsing.nested[i], shell_depth + 1),
            risk,
        ));
    }
}

/// A pipeline anywhere in a command, one of whose stages reads from the network and whose last
/// stage is a shell, is reported as network access and as remote code.
pub proof fn law_piped_downloads_are_remote_code(
    parsing: Parsing,
    command: Seq<char>,
    shell_depth: nat,
    root: Syntax,
    index: int,
    download: int,
    shell: int,
)
    requires
        is_parsing_of(parsing, command, shell_depth),
        parsing.outcome == Some(root),
        0 <= index < nodes_of(root).len(),
        ({
            let node = nodes_of(root)[index];
            let children = node.children;
            &&& node.kind == "pipeline"@
            &&& 0 <= download <= shell < children.len()
            &&& is_download_stage(children[download])
            &&& is_shell_stage(children[shell])
            &&& forall|k: int|
                shell < k < children.len() ==> !is_stage(#[trigger] children[k])
        }),
    ensures
        report_of(parsing, shell_depth).contains(Risk::NetworkAccess),
        report_of(parsing, shell_depth).contains(Risk::RemoteCodeExecution),
{
    let node = nodes_of(root)[index];
    assert(has_download_stage(node.children));
    assert(ends_in_shell_stage(node.children));
    law_pipelines_by_their_stages(node);
    law_report_in_full(parsing, command, shell_depth, root, Risk::NetworkAccess);
    law_report_in_full(parsing, command, shell_depth, root, Risk::RemoteCodeExecution);
}

/// A command anywhere in a command line whose name is `sudo` or `doas`, in any mixture of
/// capitals, is reported as a gain of privileges, whatever its arguments.
pub proof fn law_sudo_is_reported(
    parsing: Parsing,
    command: Seq<char>,
    shell_depth: nat,
    root: Syntax,
    index: int,
)
    requires
        is_parsing_of(parsing, command, shell_depth),
        parsing.outcome == Some(root),
        0 <= index < nodes_of(root).len(),
        invokes_by_name(nodes_of(root)[index], "sudo"@) || invokes_by_name(
            nodes_of(root)[index],
            "doas"@,
        ),
    ensures
        report_of(parsing, shell_depth).contains(Risk::PrivilegeEscalation),
{
    law_escalation_by_name(nodes_of(root)[index]);
    law_report_in_full(parsing, command, shell_depth, root, Risk::PrivilegeEscalation);
}

/// The findings of `nodes`, one after the other.
pub open spec fn findings_of(nodes: Seq<Syntax>) -> Seq<Risk>
    decreases nodes.len(),
{
    if nodes.len() == 0 {
        Seq::empty()
    } else {
        findings_of(nodes.drop_last()) + own_findings(nodes.last())
    }
}

proof fn lemma_findings_join(first: Seq<Syntax>, second: Seq<Syntax>)
    ensures
        findings_of(first + second) == findings_of(first) + findings_of(second),
    decreases second.len(),
{
    if second.len() == 0 {
        assert(first + second =~= first);
        assert(findings_of(first) + findings_of(second) =~= findings_of(first));
    } else {
        lemma_findings_join(first, second.drop_last());
        assert((first + second).drop_last() =~= first + second.drop_last());
        assert((first + second).last() == second.last());
        assert(findings_of(first + second) =~= findings_of(first) + findings_of(second));
    }
}

/// The nodes of a tree tell of risks in their order, each before its descendants.
pub proof fn law_nodes_tell_in_order(root: Syntax)
    ensures
        tree_findings(root) == findings_of(nodes_of(root)),
    decreases root, 0nat,
{
    let below = nodes_among(root.children, root.children.len());
    lemma_children_tell_in_order(root.children, root.children.len());
    lemma_findings_join(seq![root], below);
    assert(seq![root].drop_last() =~= Seq::<Syntax>::empty());
    assert(seq![root].last() == root);
    assert(findings_of(seq![root].drop_last()) =~= Seq::empty());
    assert(findings_of(seq![root]) =~= own_findings(root));
}

proof fn lemma_children_tell_in_order(children: Seq<Syntax>, n: nat)
    ensures
        findings_among(children, n) == findings_of(nodes_among(children, n)),
    decreases children, n,
{
    if 0 < n <= children.len() {
        lemma_children_tell_in_order(children, (n - 1) as nat);
        law_nodes_tell_in_order(children[n - 1]);
        lemma_findings_join(
            nodes_among(children, (n - 1) as nat),
            nodes_of(children[n - 1]),
        );
        assert(findings_among(children, n) =~= findings_of(nodes_among(children, n)));
    }
}

/// What one command brings, in order: its program, then its script.
pub open spec fn findings_of_command(
    words: Seq<Seq<char>>,
    shell_depth: nat,
    nested: Seq<Risk>,
) -> Seq<Risk> {
    let program = match destructive_name(words) {
        Some(name) => seq![Risk::DestructiveCommand(name)],
        None => Seq::empty(),
    };
    let unseen = seq![Risk::RemoteCodeExecution];
    match nested_script(words) {
        Nested::Nothing => program,
        Nested::Ambiguous => program + unseen,
        Nested::Script(_) => program + (if shell_depth < 16 {
            nested
        } else {
            unseen
        }),
    }
}

proof fn lemma_commands_bring_in_order(
    commands: Seq<Seq<Seq<char>>>,
    shell_depth: nat,
    nested: Seq<Seq<Risk>>,
    n: nat,
)
    requires
        0 < n <= commands.len(),
    ensures
        command_findings(commands, shell_depth, nested, n) == command_findings(
            commands,
            shell_depth,
            nested,
            (n - 1) as nat,
        ) + findings_of_command(commands[n - 1], shell_depth, nested[n - 1]),
{
    let earlier = command_findings(commands, shell_depth, nested, (n - 1) as nat);
    assert(command_findings(commands, shell_depth, nested, n) =~= earlier + findings_of_command(
        commands[n - 1],
        shell_depth,
        nested[n - 1],
    ));
}

/// What the first `n` commands bring, in order, where `nested` holds the parsings of their
/// scripts.
pub open spec fn findings_of_commands(
    commands: Seq<Seq<Seq<char>>>,
    shell_depth: nat,
    nested: Seq<Parsing>,
    n: nat,
) -> Seq<Risk>
    decreases n,
{
    if n == 0 {
        Seq::empty()
    } else {
        findings_of_commands(commands, shell_depth, nested, (n - 1) as nat) + findings_of_command(
            commands[n - 1],
            shell_depth,
            report_of(nested[n - 1], shell_depth + 1),
        )
    }
}

proof fn lemma_findings_of_commands(
    commands: Seq<Seq<Seq<char>>>,
    shell_depth: nat,
    nested: Seq<Parsing>,
    n: nat,
)
    requires
        n <= commands.len() == nested.len(),
    ensures
        command_findings(
            commands,
            shell_depth,
            nested_reports(nested, shell_depth, nested.len()),
            n,
        ) == findings_of_commands(commands, shell_depth, nested, n),
    decreases n,
{
    let reports = nested_reports(nested, shell_depth, nested.len());
    if n > 0 {
        lemma_findings_of_commands(commands, shell_depth, nested, (n - 1) as nat);
        lemma_nested_reports(nested, shell_depth, nested.len());
        assert(reports[n - 1] == report_of(nested[n - 1], shell_depth + 1));
        lemma_commands_bring_in_order(commands, shell_depth, reports, n);
    }
}

/// A report lists first what the commands bring, command by command, then what the nodes tell
/// of, node by node.
pub proof fn law_report_in_order(
    parsing: Parsing,
    command: Seq<char>,
    shell_depth: nat,
    root: Syntax,
)
    requires
        is_parsing_of(parsing, command, shell_depth),
        parsing.outcome == Some(root),
    ensures
        report_of(parsing, shell_depth) == distinct(
            findings_of_commands(
                simple_commands(root),
                shell_depth,
                parsing.nested,
                simple_commands(root).len(),
            ) + findings_of(nodes_of(root)),
        ),
{
    let commands = simple_commands(root);
    lemma_findings_of_commands(commands, shell_depth, parsing.nested, commands.len());
    law_nodes_tell_in_order(root);
}

/// Each finding is listed where it first occurs, and not again.
pub proof fn law_findings_are_listed_where_they_first_occur(findings: Seq<Risk>, risk: Risk)
    ensures
        distinct(Seq::empty()) == Seq::<Risk>::empty(),
        distinct(findings.push(risk)) == (if findings.contains(risk) {
            distinct(findings)
        } else {
            distinct(findings).push(risk)
        }),
{
    lemma_record_all_contains(Seq::empty(), findings, risk);
    assert(findings.push(risk).drop_last() =~= findings);
    assert(findings.push(risk).last() == risk);
}

/// The same of a report that has something in it: it stays as it is, and what is found later
/// comes behind it, each finding once.
pub proof fn law_reports_grow_at_the_end(report: Seq<Risk>, findings: Seq<Risk>, risk: Risk)
    ensures
        record_all(report, Seq::empty()) == report,
        record_all(report, findings.push(risk)) == (if report.contains(risk) || findings.contains(
            risk,
        ) {
            record_all(report, findings)
        } else {
            record_all(report, findings).push(risk)
        }),
{
    lemma_record_all_contains(report, findings, risk);
    assert(findings.push(risk).drop_last() =~= findings);
    assert(findings.push(risk).last() == risk);
}

} // verus!
