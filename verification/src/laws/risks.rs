//! Laws of single risks: what a report on a command lists them for.
use vstd::prelude::*;
use vstd::utf8::*;

use crate::analysis::{
    is_parsing_of, program_findings, report_of, script_findings, Parsing, MAX_SHELL_DEPTH,
};
use crate::commands::{is_command, simple_commands};
use crate::findings::{
    downloads, is_pipeline_shell, is_redirection, own_findings,
    path_findings, pipeline_findings, redirection_findings, stage_names,
};
use crate::laws::reports::{
    is_followed, law_report_sources, nodes_of, told_by_command, told_by_commands, told_by_nodes,
};
use crate::nested::nested_script;
use crate::omission::is_command_substitution;
use crate::redirects::{targets_within, writes_within};
use crate::risk::Risk;
use crate::syntax::{field_child, Syntax};
use crate::text::{ascii_lowercase, lowercase};
use crate::words::destructive_name;

verus! {

/// The risks that paths in a text tell of.
pub open spec fn is_path_risk(risk: Risk) -> bool {
    risk is PathTraversal || risk is SensitivePathAccess
}

proof fn lemma_path_findings_kinds(lower: Seq<char>)
    ensures
        forall|i: int|
            0 <= i < path_findings(lower).len() ==> is_path_risk(
                #[trigger] path_findings(lower)[i],
            ),
{
}

/// No node by itself tells of a destructive command.
proof fn lemma_nodes_tell_of_no_destruction(node: Syntax, name: Seq<char>)
    ensures
        !own_findings(node).contains(Risk::DestructiveCommand(name)),
{
    lemma_path_findings_kinds(lowercase(node.text));
    assert forall|i: int| 0 <= i < own_findings(node).len() implies !(
    #[trigger] own_findings(node)[i] is DestructiveCommand) by {}
}

/// A pipeline that ends in a shell and reads from the network.
pub open spec fn pipes_download_into_shell(node: Syntax) -> bool {
    let names = stage_names(node.children, node.children.len());
    node.kind == "pipeline"@ && downloads(names) && is_pipeline_shell(names.last())
}

proof fn lemma_pipeline_kind()
    ensures
        "pipeline"@ != "word"@,
        "pipeline"@ != "variable_assignment"@,
        !is_command_substitution("pipeline"@),
        "pipeline"@ != "process_substitution"@,
{
    reveal_strlit("pipeline");
    reveal_strlit("word");
    reveal_strlit("variable_assignment");
    reveal_strlit("command_substitution");
    reveal_strlit("old_command_substitution");
    reveal_strlit("process_substitution");
    assert("pipeline"@.len() == 8);
    assert("word"@.len() == 4);
    assert("variable_assignment"@.len() == 19);
    assert("command_substitution"@.len() == 20);
    assert("old_command_substitution"@.len() == 24);
    assert("process_substitution"@.len() == 20);
}

proof fn lemma_nodes_that_tell_of_remote_code(node: Syntax)
    ensures
        own_findings(node).contains(Risk::RemoteCodeExecution) <==> pipes_download_into_shell(node),
{
    let findings = own_findings(node);
    lemma_pipeline_kind();
    lemma_path_findings_kinds(lowercase(node.text));
    if node.kind == "pipeline"@ {
        let names = stage_names(node.children, node.children.len());
        assert(findings == pipeline_findings(names));
        if pipes_download_into_shell(node) {
            assert(findings[1] == Risk::RemoteCodeExecution);
        }
    } else {
        assert forall|i: int| 0 <= i < findings.len() implies !(
        #[trigger] findings[i] is RemoteCodeExecution) by {}
    }
}

/// A destructive command is reported exactly for the programs that commands run: one of the
/// commands in the tree, or one in a script that such a command hands to a shell. No other
/// text, whether argument, string or here-document, makes a report of one.
pub proof fn law_destruction_comes_from_programs(
    parsing: Parsing,
    command: Seq<char>,
    shell_depth: nat,
    root: Syntax,
    name: Seq<char>,
)
    requires
        is_parsing_of(parsing, command, shell_depth),
        parsing.outcome == Some(root),
    ensures
        report_of(parsing, shell_depth).contains(Risk::DestructiveCommand(name)) <==> exists|i: int|
            0 <= i < simple_commands(root).len() && {
                ||| destructive_name(#[trigger] simple_commands(root)[i]) == Some(name)
                ||| is_followed(simple_commands(root)[i], shell_depth) && report_of(
                    parsing.nested[i],
                    shell_depth + 1,
                ).contains(Risk::DestructiveCommand(name))
            },
{
    let commands = simple_commands(root);
    let risk = Risk::DestructiveCommand(name);
    law_report_sources(parsing, command, shell_depth, root, risk);
    assert(!told_by_nodes(nodes_of(root), risk)) by {
        assert forall|i: int| 0 <= i < nodes_of(root).len() implies !own_findings(
            #[trigger] nodes_of(root)[i],
        ).contains(risk) by {
            lemma_nodes_tell_of_no_destruction(nodes_of(root)[i], name);
        }
    }
    assert forall|i: int| 0 <= i < commands.len() implies told_by_command(
        #[trigger] commands[i],
        shell_depth,
        report_of(parsing.nested[i], shell_depth + 1),
        risk,
    ) == (destructive_name(commands[i]) == Some(name) || (is_followed(commands[i], shell_depth)
        && report_of(parsing.nested[i], shell_depth + 1).contains(risk))) by {
        lemma_command_tells_of_destruction(
            commands[i],
            shell_depth,
            report_of(parsing.nested[i], shell_depth + 1),
            name,
        );
    }
}

proof fn lemma_command_tells_of_destruction(
    words: Seq<Seq<char>>,
    shell_depth: nat,
    nested: Seq<Risk>,
    name: Seq<char>,
)
    ensures
        told_by_command(words, shell_depth, nested, Risk::DestructiveCommand(name)) <==> {
            ||| destructive_name(words) == Some(name)
            ||| is_followed(words, shell_depth) && nested.contains(Risk::DestructiveCommand(name))
        },
{
    let risk = Risk::DestructiveCommand(name);
    if destructive_name(words) == Some(name) {
        assert(program_findings(words)[0] == risk);
    }
    if !is_followed(words, shell_depth) {
        assert forall|i: int|
            0 <= i < script_findings(words, shell_depth, nested).len() implies script_findings(
            words,
            shell_depth,
            nested,
        )[i] is RemoteCodeExecution by {}
    }
}

/// The script that a command hands to a shell is not known, or is too deep inside others to be
/// followed.
pub open spec fn is_unseen_script(words: Seq<Seq<char>>, shell_depth: nat) -> bool {
    ||| nested_script(words) is Ambiguous
    ||| nested_script(words) is Script && shell_depth >= MAX_SHELL_DEPTH
}

/// Remote code is reported exactly where a pipeline reads from the network and ends in a shell,
/// where a command hands a shell a script that cannot be seen, or where a script that is
/// followed has remote code in its own report.
pub proof fn law_remote_code_sources(
    parsing: Parsing,
    command: Seq<char>,
    shell_depth: nat,
    root: Syntax,
)
    requires
        is_parsing_of(parsing, command, shell_depth),
        parsing.outcome == Some(root),
    ensures
        report_of(parsing, shell_depth).contains(Risk::RemoteCodeExecution) <==> {
            ||| exists|i: int|
                0 <= i < nodes_of(root).len() && pipes_download_into_shell(
                    #[trigger] nodes_of(root)[i],
                )
            ||| exists|i: int|
                0 <= i < simple_commands(root).len() && {
                    ||| is_unseen_script(#[trigger] simple_commands(root)[i], shell_depth)
                    ||| is_followed(simple_commands(root)[i], shell_depth) && report_of(
                        parsing.nested[i],
                        shell_depth + 1,
                    ).contains(Risk::RemoteCodeExecution)
                }
        },
{
    let commands = simple_commands(root);
    let nodes = nodes_of(root);
    let risk = Risk::RemoteCodeExecution;
    law_report_sources(parsing, command, shell_depth, root, risk);
    assert forall|i: int| 0 <= i < nodes.len() implies own_findings(#[trigger] nodes[i]).contains(
        risk,
    ) == pipes_download_into_shell(nodes[i]) by {
        lemma_nodes_that_tell_of_remote_code(nodes[i]);
    }
    assert forall|i: int| 0 <= i < commands.len() implies told_by_command(
        #[trigger] commands[i],
        shell_depth,
        report_of(parsing.nested[i], shell_depth + 1),
        risk,
    ) == (is_unseen_script(commands[i], shell_depth) || (is_followed(commands[i], shell_depth)
        && report_of(parsing.nested[i], shell_depth + 1).contains(risk))) by {
        let words = commands[i];
        let nested = report_of(parsing.nested[i], shell_depth + 1);
        if is_unseen_script(words, shell_depth) {
            assert(script_findings(words, shell_depth, nested)[0] == risk);
        }
        assert(!program_findings(words).contains(risk)) by {
            assert forall|k: int| 0 <= k < program_findings(words).len() implies program_findings(
                words,
            )[k] is DestructiveCommand by {}
        }
    }
}

/// Handing a script to a shell hides nothing: a report lists every risk of each script that is
/// followed.
pub proof fn law_followed_scripts_keep_their_risks(
    parsing: Parsing,
    command: Seq<char>,
    shell_depth: nat,
    root: Syntax,
    index: int,
    risk: Risk,
)
    requires
        is_parsing_of(parsing, command, shell_depth),
        parsing.outcome == Some(root),
        0 <= index < simple_commands(root).len(),
        is_followed(simple_commands(root)[index], shell_depth),
        report_of(parsing.nested[index], shell_depth + 1).contains(risk),
    ensures
        report_of(parsing, shell_depth).contains(risk),
{
    law_report_sources(parsing, command, shell_depth, root, risk);
    assert(told_by_command(
        simple_commands(root)[index],
        shell_depth,
        report_of(parsing.nested[index], shell_depth + 1),
        risk,
    ));
    assert(told_by_commands(simple_commands(root), shell_depth, parsing.nested, risk));
}

/// A script that cannot be seen fails closed: it is reported as remote code.
pub proof fn law_unseen_scripts_fail_closed(
    parsing: Parsing,
    command: Seq<char>,
    shell_depth: nat,
    root: Syntax,
    index: int,
)
    requires
        is_parsing_of(parsing, command, shell_depth),
        parsing.outcome == Some(root),
        0 <= index < simple_commands(root).len(),
        is_unseen_script(simple_commands(root)[index], shell_depth),
    ensures
        report_of(parsing, shell_depth).contains(Risk::RemoteCodeExecution),
{
    law_remote_code_sources(parsing, command, shell_depth, root);
}

/// A pipeline that reads from the network and ends in a shell is reported as both network
/// access and remote code.
pub proof fn law_downloads_into_shells_are_reported(
    parsing: Parsing,
    command: Seq<char>,
    shell_depth: nat,
    root: Syntax,
    index: int,
)
    requires
        is_parsing_of(parsing, command, shell_depth),
        parsing.outcome == Some(root),
        0 <= index < nodes_of(root).len(),
        pipes_download_into_shell(nodes_of(root)[index]),
    ensures
        report_of(parsing, shell_depth).contains(Risk::NetworkAccess),
        report_of(parsing, shell_depth).contains(Risk::RemoteCodeExecution),
{
    let node = nodes_of(root)[index];
    law_remote_code_sources(parsing, command, shell_depth, root);
    law_report_sources(parsing, command, shell_depth, root, Risk::NetworkAccess);
    lemma_pipeline_kind();
    let names = stage_names(node.children, node.children.len());
    assert(own_findings(node) == pipeline_findings(names));
    assert(own_findings(node)[0] == Risk::NetworkAccess);
    assert(told_by_nodes(nodes_of(root), Risk::NetworkAccess));
}

/// The node is a redirection, and a redirect at or below it writes.
pub open spec fn is_writing_redirection(node: Syntax) -> bool {
    is_redirection(node.kind) && writes_within(node)
}

proof fn lemma_redirection_kinds(kind: Seq<char>)
    requires
        is_redirection(kind),
    ensures
        kind != "word"@,
        kind != "variable_assignment"@,
        !is_command_substitution(kind),
        kind != "process_substitution"@,
        kind != "pipeline"@,
{
    reveal_strlit("redirected_statement");
    reveal_strlit("redirection");
    reveal_strlit("herestring_redirect");
    reveal_strlit("heredoc_redirect");
    reveal_strlit("word");
    reveal_strlit("variable_assignment");
    reveal_strlit("command_substitution");
    reveal_strlit("old_command_substitution");
    reveal_strlit("process_substitution");
    reveal_strlit("pipeline");
    reveal_strlit("file_redirect");
    assert(kind[0] == 'r' || kind[0] == 'f' || kind[0] == 'h');
    assert("word"@[0] == 'w');
    assert("variable_assignment"@[0] == 'v');
    assert("command_substitution"@[0] == 'c');
    assert("old_command_substitution"@[0] == 'o');
    assert("process_substitution"@[0] == 'p');
    assert("pipeline"@[0] == 'p');
}

proof fn lemma_nodes_that_tell_of_output(node: Syntax)
    ensures
        own_findings(node).contains(Risk::OutputRedirection) <==> is_writing_redirection(node),
{
    let findings = own_findings(node);
    if is_redirection(node.kind) {
        let paths = path_findings(lowercase(targets_within(node)));
        lemma_redirection_kinds(node.kind);
        lemma_path_findings_kinds(lowercase(targets_within(node)));
        assert(findings == redirection_findings(node));
        if writes_within(node) {
            assert(findings[paths.len() as int] == Risk::OutputRedirection);
        }
    } else {
        lemma_path_findings_kinds(lowercase(node.text));
        assert forall|i: int| 0 <= i < findings.len() implies !(
        #[trigger] findings[i] is OutputRedirection) by {}
    }
}

/// Output redirection is reported exactly where a redirection has a redirect whose operator
/// writes, or where a script that is followed has one in its own report. No other text, in
/// quotes or not, makes a report of it.
pub proof fn law_output_redirection_sources(
    parsing: Parsing,
    command: Seq<char>,
    shell_depth: nat,
    root: Syntax,
)
    requires
        is_parsing_of(parsing, command, shell_depth),
        parsing.outcome == Some(root),
    ensures
        report_of(parsing, shell_depth).contains(Risk::OutputRedirection) <==> {
            ||| exists|i: int|
                0 <= i < nodes_of(root).len() && is_writing_redirection(
                    #[trigger] nodes_of(root)[i],
                )
            ||| exists|i: int|
                0 <= i < simple_commands(root).len() && is_followed(
                    #[trigger] simple_commands(root)[i],
                    shell_depth,
                ) && report_of(parsing.nested[i], shell_depth + 1).contains(Risk::OutputRedirection)
        },
{
    let commands = simple_commands(root);
    let nodes = nodes_of(root);
    let risk = Risk::OutputRedirection;
    law_report_sources(parsing, command, shell_depth, root, risk);
    assert forall|i: int| 0 <= i < nodes.len() implies own_findings(#[trigger] nodes[i]).contains(
        risk,
    ) == is_writing_redirection(nodes[i]) by {
        lemma_nodes_that_tell_of_output(nodes[i]);
    }
    assert forall|i: int| 0 <= i < commands.len() implies told_by_command(
        #[trigger] commands[i],
        shell_depth,
        report_of(parsing.nested[i], shell_depth + 1),
        risk,
    ) == (is_followed(commands[i], shell_depth) && report_of(
        parsing.nested[i],
        shell_depth + 1,
    ).contains(risk)) by {
        let words = commands[i];
        let nested = report_of(parsing.nested[i], shell_depth + 1);
        assert(!program_findings(words).contains(risk)) by {
            assert forall|k: int| 0 <= k < program_findings(words).len() implies program_findings(
                words,
            )[k] is DestructiveCommand by {}
        }
        if !is_followed(words, shell_depth) {
            assert forall|k: int|
                0 <= k < script_findings(words, shell_depth, nested).len() implies script_findings(
                words,
                shell_depth,
                nested,
            )[k] is RemoteCodeExecution by {}
        }
    }
}

/// The kinds of node that tell of a risk.
pub open spec fn is_examined(node: Syntax) -> bool {
    ||| node.kind == "word"@
    ||| node.kind == "variable_assignment"@
    ||| is_command_substitution(node.kind)
    ||| node.kind == "process_substitution"@
    ||| node.kind == "pipeline"@
    ||| is_redirection(node.kind)
    ||| is_command(node)
}

/// Any other node by itself tells of nothing, whatever its text: strings, here-documents and
/// comments among them.
pub proof fn law_other_nodes_tell_of_nothing(node: Syntax, risk: Risk)
    requires
        !is_examined(node),
    ensures
        !own_findings(node).contains(risk),
{
}

/// An assignment to a variable whose name, in ASCII, is `PATH` in any mixture of capitals, is
/// reported.
pub proof fn law_path_assignments_are_reported(
    parsing: Parsing,
    command: Seq<char>,
    shell_depth: nat,
    root: Syntax,
    index: int,
    name: Syntax,
)
    requires
        is_parsing_of(parsing, command, shell_depth),
        parsing.outcome == Some(root),
        0 <= index < nodes_of(root).len(),
        nodes_of(root)[index].kind == "variable_assignment"@,
        field_child(nodes_of(root)[index], "name"@) == Some(name),
        is_ascii_chars(name.text),
        ascii_lowercase(name.text) == "path"@,
    ensures
        report_of(parsing, shell_depth).contains(Risk::EnvManipulation),
{
    let node = nodes_of(root)[index];
    reveal_strlit("word");
    reveal_strlit("variable_assignment");
    assert("word"@.len() != "variable_assignment"@.len());
    law_report_sources(parsing, command, shell_depth, root, Risk::EnvManipulation);
    assert(own_findings(node)[0] == Risk::EnvManipulation);
    assert(told_by_nodes(nodes_of(root), Risk::EnvManipulation));
}

} // verus!
