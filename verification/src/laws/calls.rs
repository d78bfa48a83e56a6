//! Laws of separate calls: how the report on a command goes with the list of its commands and
//! with the reports on its scripts. Each call parses anew, so they speak of commands in ASCII,
//! which have one syntax tree.
use vstd::prelude::*;
use vstd::utf8::*;

use crate::analysis::{is_parsing_of, is_report_on, report_of, Parsing, MAX_SHELL_DEPTH};
use crate::commands::{is_command_list_of, simple_commands};
use crate::laws::reports::{
    is_followed, law_ascii_command_has_one_report, law_deep_reports_are_the_same,
};
use crate::laws::risks::{
    law_destruction_comes_from_programs, law_followed_scripts_keep_their_risks,
};
use crate::nested::{nested_script, Nested};
use crate::pieces::{lemma_commands_drawn, lemma_nested_script_piece, lemma_piece_ascii};
use crate::risk::Risk;
use crate::syntax::{bash_syntax, Syntax};
use crate::text::is_piece_of;
use crate::words::destructive_name;

verus! {

/// The report on a script that is followed, inside the report on a command, is the one that the
/// script has by itself.
proof fn lemma_followed_report(
    parsing: Parsing,
    command: Seq<char>,
    shell_depth: nat,
    root: Syntax,
    index: int,
    script: Seq<char>,
    inner: Seq<Risk>,
)
    requires
        is_ascii_chars(command),
        is_parsing_of(parsing, command, shell_depth),
        parsing.outcome == Some(root),
        0 <= index < simple_commands(root).len(),
        shell_depth < MAX_SHELL_DEPTH,
        nested_script(simple_commands(root)[index]) == Nested::Script(script),
        is_report_on(script, shell_depth + 1, inner),
    ensures
        report_of(parsing.nested[index], shell_depth + 1) == inner,
{
    let words = simple_commands(root)[index];
    lemma_commands_drawn(root, command);
    assert forall|j: int| 0 <= j < words.len() implies is_piece_of(
        #[trigger] words[j],
        command,
    ) by {
        assert(words[j] == simple_commands(root)[index][j]);
    }
    lemma_nested_script_piece(words, command);
    lemma_piece_ascii(script, command);
    assert(is_parsing_of(parsing.nested[index], script, shell_depth + 1));
    law_ascii_command_has_one_report(
        script,
        shell_depth + 1,
        report_of(parsing.nested[index], shell_depth + 1),
        inner,
    );
}

/// Every risk of a script is a risk of a command that hands it to a shell.
pub proof fn law_wrapping_keeps_risks(
    command: Seq<char>,
    shell_depth: nat,
    report: Seq<Risk>,
    commands: Seq<Seq<Seq<char>>>,
    index: int,
    script: Seq<char>,
    inner: Seq<Risk>,
    risk: Risk,
)
    requires
        is_ascii_chars(command),
        shell_depth < MAX_SHELL_DEPTH,
        is_report_on(command, shell_depth, report),
        is_command_list_of(command, Some(commands)),
        0 <= index < commands.len(),
        nested_script(commands[index]) == Nested::Script(script),
        is_report_on(script, shell_depth + 1, inner),
        inner.contains(risk),
    ensures
        report.contains(risk),
{
    let parsing = choose|parsing: Parsing| #[trigger]
        is_parsing_of(parsing, command, shell_depth) && report == report_of(parsing, shell_depth);
    let root = bash_syntax(command);
    assert(commands == simple_commands(root));
    lemma_followed_report(parsing, command, shell_depth, root, index, script, inner);
    law_followed_scripts_keep_their_risks(parsing, command, shell_depth, root, index, risk);
}

/// A destructive command is reported exactly where one of the listed commands runs such a
/// program, or hands a shell a script whose own report has it. `inner` lists the reports on the
/// scripts that are followed.
pub proof fn law_destruction_is_listed(
    command: Seq<char>,
    shell_depth: nat,
    report: Seq<Risk>,
    commands: Seq<Seq<Seq<char>>>,
    inner: Seq<Seq<Risk>>,
    name: Seq<char>,
)
    requires
        is_ascii_chars(command),
        is_report_on(command, shell_depth, report),
        is_command_list_of(command, Some(commands)),
        inner.len() == commands.len(),
        forall|i: int|
            0 <= i < commands.len() && is_followed(#[trigger] commands[i], shell_depth)
                ==> is_report_on(
                nested_script(commands[i])->Script_0,
                shell_depth + 1,
                inner[i],
            ),
    ensures
        report.contains(Risk::DestructiveCommand(name)) <==> exists|i: int|
            0 <= i < commands.len() && {
                ||| destructive_name(#[trigger] commands[i]) == Some(name)
                ||| is_followed(commands[i], shell_depth) && inner[i].contains(
                    Risk::DestructiveCommand(name),
                )
            },
{
    let parsing = choose|parsing: Parsing| #[trigger]
        is_parsing_of(parsing, command, shell_depth) && report == report_of(parsing, shell_depth);
    let root = bash_syntax(command);
    assert(commands == simple_commands(root));
    assert forall|i: int|
        0 <= i < commands.len() && is_followed(
            #[trigger] commands[i],
            shell_depth,
        ) implies report_of(parsing.nested[i], shell_depth + 1) == inner[i] by {
        lemma_followed_report(
            parsing,
            command,
            shell_depth,
            root,
            i,
            nested_script(commands[i])->Script_0,
            inner[i],
        );
    }
    law_destruction_comes_from_programs(parsing, command, shell_depth, root, name);
}

/// Beyond the bound on how deep scripts are followed, the depth does not matter to the report on
/// a command.
pub proof fn law_deep_reports_agree(
    command: Seq<char>,
    shell_depth: nat,
    report: Seq<Risk>,
    bounded: Seq<Risk>,
)
    requires
        is_ascii_chars(command),
        shell_depth >= MAX_SHELL_DEPTH,
        is_report_on(command, shell_depth, report),
        is_report_on(command, MAX_SHELL_DEPTH as nat, bounded),
    ensures
        report == bounded,
{
    law_deep_reports_are_the_same(command, shell_depth, report);
    law_ascii_command_has_one_report(command, MAX_SHELL_DEPTH as nat, report, bounded);
}

} // verus!
