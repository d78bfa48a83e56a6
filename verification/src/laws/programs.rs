//! Laws of programs: what a command runs, word by word.
use vstd::prelude::*;

use crate::laws::launchers::{
    lemma_after_assignments_shift, lemma_after_options_shift, lemma_effective_index_shift,
    lemma_script_in_arguments_shift,
};
use crate::laws::texts::law_text_before_a_character;
use crate::nested::{nested_script, script_in_arguments};
use crate::text::before;
use crate::words::{
    after_assignments, after_launcher, after_options, assigns, basename, destructive_name,
    destructive_names, effective_index, launcher_options, lemma_after_assignments,
    lemma_after_options, lemma_effective_index, unquoted,
};

verus! {

/// The program that a command runs with its arguments, when the word at `from` is in the place
/// of a program.
pub open spec fn invocation_from(words: Seq<Seq<char>>, from: int) -> Option<Seq<Seq<char>>> {
    match effective_index(words, from) {
        Some(index) => Some(words.skip(index)),
        None => None,
    }
}

/// The program that a command runs with its arguments, without the launchers in front.
pub open spec fn invocation(words: Seq<Seq<char>>) -> Option<Seq<Seq<char>>> {
    invocation_from(words, 0)
}

/// A program that runs the command in its own arguments.
pub open spec fn is_runner(name: Seq<char>) -> bool {
    ||| name == "command"@ || name == "builtin"@ || name == "exec"@ || name == "nohup"@
    ||| name == "env"@
    ||| name == "sudo"@ || name == "doas"@ || name == "pkexec"@
}

/// The option of such a program is followed by a value of its own.
pub open spec fn is_followed_by_value(name: Seq<char>, option: Seq<char>) -> bool {
    ||| name == "env"@ && (option == "-u"@ || option == "--unset"@ || option == "-C"@ || option
        == "--chdir"@)
    ||| (name == "sudo"@ || name == "doas"@ || name == "pkexec"@) && (option == "-u"@ || option
        == "--user"@ || option == "-g"@ || option == "--group"@ || option == "-h"@ || option
        == "--host"@ || option == "-p"@ || option == "--prompt"@ || option == "-R"@ || option
        == "--chroot"@ || option == "-C"@ || option == "--close-from"@)
}

/// The text starts with a dash and is more than the dash.
pub open spec fn is_dashed(text: Seq<char>) -> bool {
    text.len() > 1 && text[0] == '-'
}

proof fn lemma_names_differ()
    ensures
        "env"@.len() == 3,
        "sudo"@.len() == 4 && "sudo"@[0] == 's',
        "doas"@.len() == 4 && "doas"@[0] == 'd',
        "exec"@.len() == 4 && "exec"@[0] == 'e',
        "pkexec"@.len() == 6,
        "command"@.len() == 7,
        "builtin"@.len() == 7,
        "nohup"@.len() == 5,
{
    reveal_strlit("env");
    reveal_strlit("sudo");
    reveal_strlit("doas");
    reveal_strlit("exec");
    reveal_strlit("pkexec");
    reveal_strlit("command");
    reveal_strlit("builtin");
    reveal_strlit("nohup");
}

/// Which programs run the command in their arguments, and which of their options take the next
/// word as a value.
pub proof fn law_launchers_by_name(name: Seq<char>, option: Seq<char>)
    ensures
        launcher_options(name) is Some <==> is_runner(name),
        launcher_options(name) matches Some(with_value) ==> (with_value.contains(option)
            <==> is_followed_by_value(name, option)),
{
    lemma_names_differ();
    if let Some(with_value) = launcher_options(name) {
        if name == "env"@ {
            assert(with_value[0] == "-u"@);
            assert(with_value[1] == "--unset"@);
            assert(with_value[2] == "-C"@);
            assert(with_value[3] == "--chdir"@);
        } else if name == "sudo"@ || name == "doas"@ || name == "pkexec"@ {
            assert(with_value[0] == "-u"@);
            assert(with_value[1] == "--user"@);
            assert(with_value[2] == "-g"@);
            assert(with_value[3] == "--group"@);
            assert(with_value[4] == "-h"@);
            assert(with_value[5] == "--host"@);
            assert(with_value[6] == "-p"@);
            assert(with_value[7] == "--prompt"@);
            assert(with_value[8] == "-R"@);
            assert(with_value[9] == "--chroot"@);
            assert(with_value[10] == "-C"@);
            assert(with_value[11] == "--close-from"@);
        }
    }
}

proof fn lemma_valued_options_hold_no_sign(name: Seq<char>, option: Seq<char>)
    requires
        is_followed_by_value(name, option),
    ensures
        !option.contains('='),
        is_dashed(option),
        option != "--"@,
{
    reveal_strlit("-u");
    reveal_strlit("--unset");
    reveal_strlit("-C");
    reveal_strlit("--chdir");
    reveal_strlit("--user");
    reveal_strlit("-g");
    reveal_strlit("--group");
    reveal_strlit("-h");
    reveal_strlit("--host");
    reveal_strlit("-p");
    reveal_strlit("--prompt");
    reveal_strlit("-R");
    reveal_strlit("--chroot");
    reveal_strlit("--close-from");
    reveal_strlit("--");
    assert("--"@[1] == '-');
    assert("--"@.len() == 2);
}

proof fn lemma_dashes()
    ensures
        "-"@ == seq!['-'],
        "--"@ == seq!['-', '-'],
{
    reveal_strlit("-");
    reveal_strlit("--");
    assert("-"@ =~= seq!['-']);
    assert("--"@ =~= seq!['-', '-']);
}

proof fn lemma_dash_prefix(text: Seq<char>)
    ensures
        "-"@.is_prefix_of(text) <==> text.len() > 0 && text[0] == '-',
        "-"@.is_prefix_of(text) && text != "-"@ <==> is_dashed(text),
{
    lemma_dashes();
    if text.len() > 0 && text[0] == '-' {
        assert(text.subrange(0, 1) =~= seq!['-']);
    }
    if text.len() == 1 && text[0] == '-' {
        assert(text =~= seq!['-']);
    }
    if "-"@.is_prefix_of(text) {
        assert(text.subrange(0, 1)[0] == text[0]);
    }
}

proof fn lemma_invocation_shift(first: Seq<char>, rest: Seq<Seq<char>>, from: int)
    requires
        0 <= from,
    ensures
        invocation_from(seq![first] + rest, from + 1) == invocation_from(rest, from),
{
    lemma_effective_index_shift(first, rest, from);
    lemma_effective_index(rest, from);
    if let Some(index) = effective_index(rest, from) {
        assert((seq![first] + rest).skip(index + 1) =~= rest.skip(index));
    }
}

/// Where the search goes on behind a launcher, among the words behind it.
spec fn behind_launcher(launcher: Seq<char>, rest: Seq<Seq<char>>) -> Option<Seq<Seq<char>>> {
    match after_options(rest, 0, launcher_options(basename(launcher))->0) {
        Some(plain) => invocation_from(
            rest,
            if basename(launcher) == "env"@ {
                after_assignments(rest, plain)
            } else {
                plain
            },
        ),
        None => None,
    }
}

proof fn lemma_behind_launcher(launcher: Seq<char>, rest: Seq<Seq<char>>)
    requires
        is_runner(basename(launcher)),
    ensures
        invocation(seq![launcher] + rest) == behind_launcher(launcher, rest),
{
    let words = seq![launcher] + rest;
    law_launchers_by_name(basename(launcher), Seq::empty());
    let with_value = launcher_options(basename(launcher))->0;
    assert(words[0] == launcher);
    lemma_after_options_shift(launcher, rest, 0, with_value);
    lemma_after_options(rest, 0, with_value);
    if let Some(plain) = after_options(rest, 0, with_value) {
        lemma_after_assignments_shift(launcher, rest, plain);
        lemma_after_assignments(rest, plain);
        let next = if basename(launcher) == "env"@ {
            after_assignments(rest, plain)
        } else {
            plain
        };
        assert(after_launcher(words, 0, with_value) == Some(next + 1));
        lemma_invocation_shift(launcher, rest, next);
    }
}

/// Neither a launcher by itself nor one with nothing but an unfinished option runs anything.
pub proof fn law_launcher_without_command_runs_nothing(launcher: Seq<char>, option: Seq<char>)
    requires
        is_runner(basename(launcher)),
        is_dashed(unquoted(option)),
    ensures
        invocation(seq![launcher]) is None,
        invocation(seq![launcher, option]) is None,
{
    let nothing = Seq::<Seq<char>>::empty();
    lemma_behind_launcher(launcher, nothing);
    assert(seq![launcher] + nothing =~= seq![launcher]);
    lemma_behind_launcher(launcher, seq![option]);
    assert(seq![launcher] + seq![option] =~= seq![launcher, option]);
    lemma_dash_prefix(unquoted(option));
    lemma_dashes();
    let with_value = launcher_options(basename(launcher))->0;
    assert(after_options(seq![option], 1, with_value) is None);
    assert(after_options(seq![option], 2, with_value) is None);
}

/// An option behind a launcher that is followed by no value of its own is passed over.
pub proof fn law_options_of_launchers_are_passed_over(
    launcher: Seq<char>,
    option: Seq<char>,
    rest: Seq<Seq<char>>,
)
    requires
        is_runner(basename(launcher)),
        is_dashed(unquoted(option)),
        unquoted(option) != "--"@,
        !is_followed_by_value(basename(launcher), unquoted(option)),
    ensures
        invocation(seq![launcher, option] + rest) == invocation(seq![launcher] + rest),
{
    let with_value = launcher_options(basename(launcher))->0;
    let argument = unquoted(option);
    let behind = seq![option] + rest;
    law_launchers_by_name(basename(launcher), argument);
    lemma_dash_prefix(argument);
    if !argument.contains('=') {
        law_text_before_a_character(argument, '=', Seq::empty());
    }
    assert(behind[0] == option);
    assert(after_options(behind, 0, with_value) == after_options(behind, 1, with_value));
    lemma_after_options_shift(option, rest, 0, with_value);
    lemma_after_options(rest, 0, with_value);
    if let Some(plain) = after_options(rest, 0, with_value) {
        lemma_after_assignments_shift(option, rest, plain);
        lemma_after_assignments(rest, plain);
        lemma_invocation_shift(option, rest, plain);
        lemma_invocation_shift(option, rest, after_assignments(rest, plain));
    }
    lemma_behind_launcher(launcher, behind);
    lemma_behind_launcher(launcher, rest);
    assert(seq![launcher] + behind =~= seq![launcher, option] + rest);
}

/// An option behind a launcher that is followed by a value is passed over with the value,
/// whatever that is.
pub proof fn law_options_with_values_are_passed_over(
    launcher: Seq<char>,
    option: Seq<char>,
    value: Seq<char>,
    rest: Seq<Seq<char>>,
)
    requires
        is_runner(basename(launcher)),
        is_followed_by_value(basename(launcher), unquoted(option)),
    ensures
        invocation(seq![launcher, option, value] + rest) == invocation(seq![launcher] + rest),
{
    let with_value = launcher_options(basename(launcher))->0;
    let argument = unquoted(option);
    let inner = seq![value] + rest;
    let behind = seq![option] + inner;
    law_launchers_by_name(basename(launcher), argument);
    lemma_valued_options_hold_no_sign(basename(launcher), argument);
    lemma_dash_prefix(argument);
    law_text_before_a_character(argument, '=', Seq::empty());
    assert(behind[0] == option);
    assert(after_options(behind, 0, with_value) == after_options(behind, 2, with_value));
    lemma_after_options_shift(option, inner, 1, with_value);
    lemma_after_options_shift(value, rest, 0, with_value);
    lemma_after_options(rest, 0, with_value);
    if let Some(plain) = after_options(rest, 0, with_value) {
        let next = after_assignments(rest, plain);
        lemma_after_assignments_shift(value, rest, plain);
        lemma_after_assignments_shift(option, inner, plain + 1);
        lemma_after_assignments(rest, plain);
        lemma_invocation_shift(value, rest, plain);
        lemma_invocation_shift(option, inner, plain + 1);
        lemma_invocation_shift(value, rest, next);
        lemma_invocation_shift(option, inner, next + 1);
    }
    lemma_behind_launcher(launcher, behind);
    lemma_behind_launcher(launcher, rest);
    assert(seq![launcher] + behind =~= seq![launcher, option, value] + rest);
}

/// A word that starts with no dash, or is a dash, is the command that a launcher runs, unless
/// the launcher is `env` and the word an assignment.
pub proof fn law_launcher_runs_what_follows(launcher: Seq<char>, rest: Seq<Seq<char>>)
    requires
        is_runner(basename(launcher)),
        rest.len() > 0,
        !is_dashed(unquoted(rest[0])),
        basename(launcher) == "env"@ ==> !is_setting(unquoted(rest[0])),
    ensures
        invocation(seq![launcher] + rest) == invocation(rest),
{
    let with_value = launcher_options(basename(launcher))->0;
    lemma_dash_prefix(unquoted(rest[0]));
    lemma_dashes();
    law_assignments_by_their_characters(rest[0]);
    assert(after_options(rest, 0, with_value) == Some(0int));
    assert(basename(launcher) == "env"@ ==> after_assignments(rest, 0) == 0);
    lemma_behind_launcher(launcher, rest);
}

/// Two dashes end the options: what follows is the command, though it starts with a dash.
pub proof fn law_two_dashes_end_the_options(
    launcher: Seq<char>,
    dashes: Seq<char>,
    rest: Seq<Seq<char>>,
)
    requires
        is_runner(basename(launcher)),
        unquoted(dashes) == "--"@,
        rest.len() > 0,
        basename(launcher) == "env"@ ==> !is_setting(unquoted(rest[0])),
    ensures
        invocation(seq![launcher, dashes] + rest) == invocation(rest),
{
    let with_value = launcher_options(basename(launcher))->0;
    let behind = seq![dashes] + rest;
    law_assignments_by_their_characters(rest[0]);
    assert(behind[0] == dashes);
    assert(behind[1] == rest[0]);
    assert(after_options(behind, 0, with_value) == Some(1int));
    assert(basename(launcher) == "env"@ ==> after_assignments(behind, 1) == 1);
    lemma_invocation_shift(dashes, rest, 0);
    lemma_behind_launcher(launcher, behind);
    assert(seq![launcher] + behind =~= seq![launcher, dashes] + rest);
}

/// Behind `env`, an assignment is passed over, with or without dashes that end the options in
/// front of it. It ends the options itself.
pub proof fn law_assignments_behind_env_are_passed_over(
    launcher: Seq<char>,
    dashes: Seq<char>,
    assignment: Seq<char>,
    rest: Seq<Seq<char>>,
)
    requires
        basename(launcher) == "env"@,
        unquoted(dashes) == "--"@,
        is_setting(unquoted(assignment)),
    ensures
        rest.len() > 0 ==> invocation(seq![launcher, assignment] + rest) == invocation(
            seq![launcher, dashes] + rest,
        ),
        rest.len() > 0 ==> invocation(seq![launcher, dashes, assignment] + rest) == invocation(
            seq![launcher, dashes] + rest,
        ),
        invocation(seq![launcher, assignment]) is None,
        invocation(seq![launcher, dashes, assignment]) is None,
{
    let with_value = launcher_options(basename(launcher))->0;
    let nothing = Seq::<Seq<char>>::empty();
    law_assignments_by_their_characters(assignment);
    lemma_setting_is_not_dashed(unquoted(assignment));
    lemma_dash_prefix(unquoted(assignment));
    lemma_dashes();
    lemma_env_passes_assignments(launcher, dashes, assignment, nothing);
    assert(seq![launcher, assignment] + nothing =~= seq![launcher, assignment]);
    assert(seq![launcher, dashes, assignment] + nothing =~= seq![launcher, dashes, assignment]);
    assert(invocation_from(nothing, 0) is None);
    assert(after_assignments(nothing, 0) == 0);
    if rest.len() > 0 {
        lemma_env_passes_assignments(launcher, dashes, assignment, rest);
        let plain = seq![dashes] + rest;
        let next = after_assignments(rest, 0);
        assert(plain[0] == dashes);
        assert(after_options(plain, 0, with_value) == Some(1int));
        lemma_after_assignments_shift(dashes, rest, 0);
        lemma_after_assignments(rest, 0);
        lemma_invocation_shift(dashes, rest, next);
        lemma_behind_launcher(launcher, plain);
        assert(seq![launcher] + plain =~= seq![launcher, dashes] + rest);
    }
}

proof fn lemma_env_passes_assignments(
    launcher: Seq<char>,
    dashes: Seq<char>,
    assignment: Seq<char>,
    rest: Seq<Seq<char>>,
)
    requires
        basename(launcher) == "env"@,
        unquoted(dashes) == "--"@,
        assigns(assignment),
        !is_dashed(unquoted(assignment)),
        unquoted(assignment) != "--"@,
    ensures
        invocation(seq![launcher, assignment] + rest) == invocation_from(
            rest,
            after_assignments(rest, 0),
        ),
        invocation(seq![launcher, dashes, assignment] + rest) == invocation_from(
            rest,
            after_assignments(rest, 0),
        ),
{
    let with_value = launcher_options(basename(launcher))->0;
    let set = seq![assignment] + rest;
    let dashed = seq![dashes] + set;
    let next = after_assignments(rest, 0);
    lemma_dash_prefix(unquoted(assignment));
    lemma_after_assignments(rest, 0);
    assert(set[0] == assignment);
    assert(dashed[0] == dashes);
    assert(dashed[1] == assignment);
    assert(after_options(set, 0, with_value) == Some(0int));
    assert(after_options(dashed, 0, with_value) == Some(1int));
    lemma_after_assignments_shift(assignment, rest, 0);
    lemma_after_assignments_shift(dashes, set, 0);
    lemma_invocation_shift(assignment, rest, next);
    lemma_invocation_shift(dashes, set, next + 1);
    lemma_behind_launcher(launcher, set);
    lemma_behind_launcher(launcher, dashed);
    assert(seq![launcher] + set =~= seq![launcher, assignment] + rest);
    assert(seq![launcher] + dashed =~= seq![launcher, dashes, assignment] + rest);
}

/// Where options end, whatever options take a value: at the first word that starts with no dash
/// or is one, or behind two dashes. An option that takes a value is passed over with it.
pub proof fn law_where_options_end(
    words: Seq<Seq<char>>,
    from: int,
    with_value: Seq<Seq<char>>,
)
    requires
        0 <= from,
        forall|i: int|
            0 <= i < with_value.len() ==> !(#[trigger] with_value[i]).contains('='),
    ensures
        from >= words.len() ==> after_options(words, from, with_value) is None,
        from < words.len() ==> {
            let argument = unquoted(words[from]);
            &&& !is_dashed(argument) ==> after_options(words, from, with_value) == Some(from)
            &&& argument == seq!['-', '-'] ==> after_options(words, from, with_value) == (if from
                + 1 < words.len() {
                Some(from + 1)
            } else {
                None
            })
            &&& is_dashed(argument) && argument != seq!['-', '-'] ==> after_options(
                words,
                from,
                with_value,
            ) == after_options(
                words,
                if with_value.contains(argument) {
                    from + 2
                } else {
                    from + 1
                },
                with_value,
            )
        },
{
    if from < words.len() {
        let argument = unquoted(words[from]);
        lemma_dashes();
        lemma_dash_prefix(argument);
        if argument.contains('=') {
            if with_value.contains(argument) {
                let i = choose|i: int| 0 <= i < with_value.len() && with_value[i] == argument;
                assert(!with_value[i].contains('='));
            }
        } else {
            law_text_before_a_character(argument, '=', Seq::empty());
        }
    }
}

/// The program of a command that starts with no launcher is its first word.
pub proof fn law_other_programs_run_themselves(words: Seq<Seq<char>>)
    requires
        words.len() > 0,
        !is_runner(basename(words[0])),
    ensures
        effective_index(words, 0) == Some(0int),
        invocation(words) == Some(words),
{
    law_launchers_by_name(basename(words[0]), Seq::empty());
    assert(words.skip(0) =~= words);
}

/// A command without words runs nothing.
pub proof fn law_no_words_run_nothing()
    ensures
        invocation(Seq::empty()) is None,
{
}

proof fn lemma_script_behind(words: Seq<Seq<char>>, index: int, at: int)
    requires
        0 <= index <= words.len(),
        0 <= at,
    ensures
        script_in_arguments(words, index + at) == script_in_arguments(words.skip(index), at),
    decreases index,
{
    if index == 0 {
        assert(words.skip(0) =~= words);
    } else {
        let rest = words.drop_first();
        assert(words =~= seq![words[0]] + rest);
        lemma_script_in_arguments_shift(words[0], rest, index - 1 + at);
        lemma_script_behind(rest, index - 1, at);
        assert(rest.skip(index - 1) =~= words.skip(index));
    }
}

/// Launchers in front count for nothing: a command is destructive, and hands a script to a
/// shell, exactly as what it runs does by itself.
pub proof fn law_only_the_invocation_counts(words: Seq<Seq<char>>)
    ensures
        invocation(words) matches Some(line) ==> {
            &&& line.len() > 0
            &&& !is_runner(basename(line[0]))
            &&& destructive_name(words) == destructive_name(line)
            &&& nested_script(words) == nested_script(line)
        },
        invocation(words) is None ==> destructive_name(words) is None && nested_script(
            words,
        ) is Nothing,
{
    lemma_effective_index(words, 0);
    if let Some(index) = effective_index(words, 0) {
        let line = words.skip(index);
        assert(line[0] == words[index]);
        law_launchers_by_name(basename(line[0]), Seq::empty());
        law_other_programs_run_themselves(line);
        lemma_script_behind(words, index, 1);
    }
}

/// A program that destroys data or stops the machine.
pub open spec fn is_destroyer(name: Seq<char>) -> bool {
    ||| name == "dd"@ || name == "truncate"@ || name == "shred"@
    ||| name == "mkswap"@ || name == "wipefs"@ || name == "blkdiscard"@ || name == "cryptsetup"@
    ||| name == "fdisk"@ || name == "sfdisk"@ || name == "parted"@
    ||| name == "pvremove"@ || name == "vgremove"@ || name == "lvremove"@
    ||| name == "zpool"@ || name == "zfs"@
    ||| name == "shutdown"@ || name == "reboot"@ || name == "poweroff"@ || name == "halt"@ || name
        == "telinit"@
}

/// A program of the family that makes file systems.
pub open spec fn is_mkfs(name: Seq<char>) -> bool {
    name == "mkfs"@ || exists|kind: Seq<char>| name == #[trigger] ("mkfs."@ + kind)
}

proof fn lemma_mkfs_names(name: Seq<char>)
    ensures
        is_mkfs(name) <==> name == "mkfs"@ || "mkfs."@.is_prefix_of(name),
{
    if "mkfs."@.is_prefix_of(name) {
        let kind = name.skip("mkfs."@.len() as int);
        assert(name =~= "mkfs."@ + kind) by {
            assert forall|i: int| 0 <= i < "mkfs."@.len() implies name[i] == "mkfs."@[i] by {
                assert(name.subrange(0, "mkfs."@.len() as int)[i] == name[i]);
            }
        }
    }
    if exists|kind: Seq<char>| name == #[trigger] ("mkfs."@ + kind) {
        let kind = choose|kind: Seq<char>| name == #[trigger] ("mkfs."@ + kind);
        assert(name.subrange(0, "mkfs."@.len() as int) =~= "mkfs."@);
    }
}

/// The list of destroyers has these and no others.
pub proof fn law_list_of_destroyers(name: Seq<char>)
    ensures
        destructive_names().contains(name) <==> is_destroyer(name),
        destructive_names().len() == 20,
{
    lemma_destroyers(name);
}

proof fn lemma_destroyers(name: Seq<char>)
    ensures
        destructive_names().contains(name) <==> is_destroyer(name),
{
    let names = destructive_names();
    assert(names[0] == "dd"@ && names[1] == "mkswap"@ && names[2] == "truncate"@);
    assert(names[3] == "shred"@ && names[4] == "wipefs"@ && names[5] == "blkdiscard"@);
    assert(names[6] == "fdisk"@ && names[7] == "sfdisk"@ && names[8] == "parted"@);
    assert(names[9] == "cryptsetup"@ && names[10] == "pvremove"@ && names[11] == "vgremove"@);
    assert(names[12] == "lvremove"@ && names[13] == "zpool"@ && names[14] == "zfs"@);
    assert(names[15] == "shutdown"@ && names[16] == "reboot"@ && names[17] == "poweroff"@);
    assert(names[18] == "halt"@ && names[19] == "telinit"@);
}

/// A command is destructive exactly where the program that it runs is one of the destroyers or
/// makes file systems, and is then reported under that name.
pub proof fn law_destroyers_by_name(words: Seq<Seq<char>>)
    ensures
        destructive_name(words) == match invocation(words) {
            Some(line) => if is_mkfs(basename(line[0])) {
                Some("mkfs"@)
            } else if is_destroyer(basename(line[0])) {
                Some(basename(line[0]))
            } else {
                None
            },
            None => None,
        },
{
    lemma_effective_index(words, 0);
    if let Some(index) = effective_index(words, 0) {
        let name = basename(words[index]);
        assert(words.skip(index)[0] == words[index]);
        lemma_mkfs_names(name);
        lemma_destroyers(name);
    }
}

/// `name` can name a variable: a letter or an underscore, then letters, digits and underscores.
pub open spec fn is_identifier(name: Seq<char>) -> bool {
    &&& name.len() > 0
    &&& !('0' <= name[0] <= '9')
    &&& forall|i: int|
        0 <= i < name.len() ==> (#[trigger] name[i] == '_' || 'a' <= name[i] <= 'z' || 'A'
            <= name[i] <= 'Z' || '0' <= name[i] <= '9')
}

/// The text is a name, an equals sign, and anything.
pub open spec fn is_setting(text: Seq<char>) -> bool {
    exists|name: Seq<char>, value: Seq<char>|
        is_identifier(name) && text == #[trigger] (name + seq!['='] + value)
}

proof fn lemma_setting_is_not_dashed(text: Seq<char>)
    requires
        is_setting(text),
    ensures
        text.len() > 0 && text[0] != '-',
{
    let (name, value) = choose|name: Seq<char>, value: Seq<char>|
        is_identifier(name) && text == #[trigger] (name + seq!['='] + value);
    assert(text[0] == name[0]);
}

proof fn lemma_split_at(text: Seq<char>, c: char) -> (at: int)
    requires
        text.contains(c),
    ensures
        0 <= at < text.len(),
        text[at] == c,
        !text.take(at).contains(c),
        text == text.take(at) + seq![c] + text.skip(at + 1),
        before(text, c) == text.take(at),
    decreases text.len(),
{
    let first = choose|i: int| 0 <= i < text.len() && text[i] == c;
    let at = if text[0] == c {
        0
    } else {
        assert(text.drop_first()[first - 1] == c);
        lemma_split_at(text.drop_first(), c) + 1
    };
    assert(!text.take(at).contains(c)) by {
        if text.take(at).contains(c) {
            let k = choose|k: int| 0 <= k < at && text.take(at)[k] == c;
            assert(k > 0);
            assert(text.drop_first().take(at - 1)[k - 1] == c);
        }
    }
    assert(text =~= text.take(at) + seq![c] + text.skip(at + 1));
    law_text_before_a_character(text.take(at), c, text.skip(at + 1));
    at
}

/// A word assigns to a variable exactly where it is a name, an equals sign and anything, in
/// quotes or not.
pub proof fn law_assignments_by_their_characters(raw: Seq<char>)
    ensures
        assigns(raw) <==> is_setting(unquoted(raw)),
{
    let text = unquoted(raw);
    if assigns(raw) {
        let at = lemma_split_at(text, '=');
        let name = text.take(at);
        assert(is_identifier(name));
        assert(text == name + seq!['='] + text.skip(at + 1));
    }
    if is_setting(text) {
        let (name, value) = choose|name: Seq<char>, value: Seq<char>|
            is_identifier(name) && text == #[trigger] (name + seq!['='] + value);
        assert(!name.contains('='));
        law_text_before_a_character(name, '=', value);
        assert(text[name.len() as int] == '=');
    }
}

/// A setting behind `env` hides nothing: the command behind it is as destructive as by itself.
pub proof fn law_env_hides_no_destruction(
    launcher: Seq<char>,
    assignment: Seq<char>,
    rest: Seq<Seq<char>>,
)
    requires
        basename(launcher) == "env"@,
        is_setting(unquoted(assignment)),
        rest.len() > 0,
        !is_setting(unquoted(rest[0])),
    ensures
        destructive_name(seq![launcher, assignment] + rest) == destructive_name(rest),
        nested_script(seq![launcher, assignment] + rest) == nested_script(rest),
{
    let words = seq![launcher, assignment] + rest;
    law_assignments_by_their_characters(assignment);
    law_assignments_by_their_characters(rest[0]);
    lemma_setting_is_not_dashed(unquoted(assignment));
    let with_value = launcher_options(basename(launcher))->0;
    let set = seq![assignment] + rest;
    lemma_dash_prefix(unquoted(assignment));
    lemma_dashes();
    assert(set[0] == assignment);
    assert(after_options(set, 0, with_value) == Some(0int));
    lemma_after_assignments_shift(assignment, rest, 0);
    assert(after_assignments(rest, 0) == 0);
    assert(after_assignments(set, 0) == 1);
    lemma_invocation_shift(assignment, rest, 0);
    lemma_behind_launcher(launcher, set);
    assert(seq![launcher] + set =~= words);
    law_only_the_invocation_counts(words);
    law_only_the_invocation_counts(rest);
}

} // verus!
