//! Scripts that a command hands to another shell.
use vstd::prelude::*;
use vstd::string::*;

use crate::text::{
    before, contains_char, is_ascii_digit, is_ascii_letter, is_one_of, same_text, starts_with,
    text_before, to_chars, trim, trimmed, views,
};
use crate::words::{
    basename, command_basename, effective_command_index, effective_index, lemma_effective_index,
    unquote_shell_word, unquoted, word_views,
};

verus! {

/// What a command hands to a shell to run.
#[derive(Debug)]
pub enum NestedShellScript<'a> {
    /// No script on the command line.
    Nothing,
    Script(&'a str),
    /// Options that leave open where the script stands, or a word that does not show it.
    Ambiguous,
}

/// The mathematical value of a `NestedShellScript`.
pub enum Nested {
    Nothing,
    Script(Seq<char>),
    Ambiguous,
}

impl<'a> View for NestedShellScript<'a> {
    type V = Nested;

    open spec fn view(&self) -> Nested {
        match self {
            NestedShellScript::Nothing => Nested::Nothing,
            NestedShellScript::Script(script) => Nested::Script(script@),
            NestedShellScript::Ambiguous => Nested::Ambiguous,
        }
    }
}

/// Shells that run the script behind `-c`.
pub open spec fn is_nested_shell(name: Seq<char>) -> bool {
    name == "bash"@ || name == "sh"@ || name == "dash"@ || name == "zsh"@ || name == "ksh"@
}

/// Long options of a shell.
pub open spec fn shell_long_options() -> Seq<Seq<char>> {
    seq![
        "--debug"@,
        "--debugger"@,
        "--dump-po-strings"@,
        "--dump-strings"@,
        "--help"@,
        "--login"@,
        "--noediting"@,
        "--noprofile"@,
        "--norc"@,
        "--posix"@,
        "--pretty-print"@,
        "--restricted"@,
        "--verbose"@,
        "--version"@,
    ]
}

fn long_options() -> (result: Vec<&'static str>)
    ensures
        views(result@) == shell_long_options(),
{
    let options: Vec<&'static str> = vec![
        "--debug",
        "--debugger",
        "--dump-po-strings",
        "--dump-strings",
        "--help",
        "--login",
        "--noediting",
        "--noprofile",
        "--norc",
        "--posix",
        "--pretty-print",
        "--restricted",
        "--verbose",
        "--version",
    ];
    assert(views(options@) =~= shell_long_options());
    options
}

/// Long options of a shell that take a value.
pub open spec fn shell_long_options_with_value() -> Seq<Seq<char>> {
    seq!["--init-file"@, "--rcfile"@]
}

fn long_options_with_value() -> (result: Vec<&'static str>)
    ensures
        views(result@) == shell_long_options_with_value(),
{
    let options: Vec<&'static str> = vec!["--init-file", "--rcfile"];
    assert(views(options@) =~= shell_long_options_with_value());
    options
}

/// Short options of a shell, besides those that take a value.
pub open spec fn shell_short_options() -> Seq<char> {
    "abefhiklmnprstuvxBCEHPTDqVE"@
}

/// A short option that takes the name of a shell option from a word of its own.
pub open spec fn takes_option_name(flag: char) -> bool {
    flag == 'o' || flag == 'O'
}

/// A short option of a shell.
pub open spec fn is_shell_flag(flag: char) -> bool {
    shell_short_options().contains(flag) || flag == 'c' || takes_option_name(flag)
}

pub open spec fn are_shell_flags(flags: Seq<char>) -> bool {
    flags.len() > 0 && forall|i: int| 0 <= i < flags.len() ==> is_shell_flag(#[trigger] flags[i])
}

/// The number of words that the flags take besides a script.
pub open spec fn option_name_count(flags: Seq<char>) -> nat
    decreases flags.len(),
{
    if flags.len() == 0 {
        0
    } else {
        option_name_count(flags.drop_last()) + (if takes_option_name(flags.last()) {
            1nat
        } else {
            0nat
        })
    }
}

/// The word is in the place of an option and is one: it starts with `-` or `+` and does not
/// end the options.
pub open spec fn is_shell_option(argument: Seq<char>) -> bool {
    &&& "-"@.is_prefix_of(argument) || "+"@.is_prefix_of(argument)
    &&& argument != "--"@
    &&& argument != "-"@
}

/// A character of a variable's name.
pub open spec fn is_name_char(c: char) -> bool {
    is_ascii_letter(c) || is_ascii_digit(c) || c == '_'
}

/// What may stand behind the `$` of a variable without braces: a name, one of the special
/// variables, or nothing.
pub open spec fn is_variable(name: Seq<char>) -> bool {
    ||| forall|i: int| 0 <= i < name.len() ==> is_name_char(#[trigger] name[i])
    ||| name.len() == 1 && "*@?!#-$"@.contains(name[0])
}

/// The word, as it is written, shows no script: a variable without braces, text whose characters
/// may be written as escapes, a number to be computed, or the name of a process's output.
pub open spec fn is_veiled(raw: Seq<char>) -> bool {
    let word = trimmed(raw);
    ||| "$"@.is_prefix_of(word) && is_variable(word.skip(1))
    ||| "$'"@.is_prefix_of(word)
    ||| "$(("@.is_prefix_of(word)
    ||| "$["@.is_prefix_of(word)
    ||| "<("@.is_prefix_of(word)
    ||| ">("@.is_prefix_of(word)
}

fn is_variable_name(name: &str) -> (result: bool)
    ensures
        result == is_variable(name@),
{
    let text = to_chars(name);
    if text.len() == 1 && contains_char("*@?!#-$", text[0]) {
        return true;
    }
    let mut i: usize = 0;
    while i < text.len()
        invariant
            i <= text@.len(),
            text@ == name@,
            !(name@.len() == 1 && "*@?!#-$"@.contains(name@[0])),
            forall|k: int| 0 <= k < i ==> is_name_char(#[trigger] name@[k]),
        decreases text@.len() - i,
    {
        let c: char = text[i];
        if !(('a' <= c && c <= 'z') || ('A' <= c && c <= 'Z') || ('0' <= c && c <= '9') || c
            == '_') {
            assert(!is_name_char(name@[i as int]));
            return false;
        }
        i += 1;
    }
    true
}

fn is_veiled_word(raw: &str) -> (result: bool)
    ensures
        result == is_veiled(raw@),
{
    let word = trim(raw);
    if starts_with(word, "$") {
        proof {
            reveal_strlit("$");
        }
        let total: usize = to_chars(word).len();
        let name = word.substring_char(1, total);
        assert(name@ =~= word@.skip(1));
        if is_variable_name(name) {
            return true;
        }
    }
    starts_with(word, "$'") || starts_with(word, "$((") || starts_with(word, "$[") || starts_with(
        word,
        "<(",
    ) || starts_with(word, ">(")
}

/// What a shell is handed to run, when its arguments from `at` on are still to be read.
pub open spec fn script_in_arguments(words: Seq<Seq<char>>, at: int) -> Nested
    decreases words.len() + 1 - at,
{
    if at >= words.len() {
        Nested::Nothing
    } else {
        let argument = unquoted(words[at]);
        if !is_shell_option(argument) {
            Nested::Nothing
        } else if "--"@.is_prefix_of(argument) {
            let option = before(argument, '=');
            let inline_value = argument.contains('=');
            if shell_long_options().contains(option) && !inline_value {
                script_in_arguments(words, at + 1)
            } else if shell_long_options_with_value().contains(option) {
                if inline_value {
                    script_in_arguments(words, at + 1)
                } else if at + 1 < words.len() {
                    script_in_arguments(words, at + 2)
                } else {
                    Nested::Ambiguous
                }
            } else {
                Nested::Ambiguous
            }
        } else {
            let flags = argument.skip(1);
            let next = at + 1 + option_name_count(flags);
            if !are_shell_flags(flags) {
                Nested::Ambiguous
            } else if flags.contains('c') {
                if "+"@.is_prefix_of(argument) || next >= words.len() || is_veiled(words[next]) {
                    Nested::Ambiguous
                } else {
                    Nested::Script(unquoted(words[next]))
                }
            } else if next > words.len() {
                Nested::Ambiguous
            } else {
                script_in_arguments(words, next)
            }
        }
    }
}

/// What the command hands to a shell to run.
pub open spec fn nested_script(words: Seq<Seq<char>>) -> Nested {
    match effective_index(words, 0) {
        Some(index) => if is_nested_shell(basename(words[index])) {
            script_in_arguments(words, index + 1)
        } else {
            Nested::Nothing
        },
        None => Nested::Nothing,
    }
}

/// Whether all of `flags` are short options of a shell, and there is one.
fn all_shell_flags(flags: &Vec<char>) -> (result: bool)
    ensures
        result == are_shell_flags(flags@),
{
    if flags.len() == 0 {
        return false;
    }
    let mut i: usize = 0;
    while i < flags.len()
        invariant
            i <= flags@.len(),
            forall|k: int| 0 <= k < i ==> is_shell_flag(#[trigger] flags@[k]),
        decreases flags@.len() - i,
    {
        let flag: char = flags[i];
        if !contains_char("abefhiklmnprstuvxBCEHPTDqVE", flag) && flag != 'c' && flag != 'o' && flag
            != 'O' {
            assert(!is_shell_flag(flags@[i as int]));
            return false;
        }
        i += 1;
    }
    true
}

fn count_option_names(flags: &Vec<char>) -> (result: usize)
    ensures
        result == option_name_count(flags@),
        result <= flags@.len(),
{
    let mut count: usize = 0;
    let mut i: usize = 0;
    assert(flags@.take(0) =~= Seq::<char>::empty());
    while i < flags.len()
        invariant
            i <= flags@.len(),
            count <= i,
            count == option_name_count(flags@.take(i as int)),
        decreases flags@.len() - i,
    {
        assert(flags@.take(i + 1).drop_last() =~= flags@.take(i as int));
        if flags[i] == 'o' || flags[i] == 'O' {
            count += 1;
        }
        i += 1;
    }
    assert(flags@.take(i as int) =~= flags@);
    count
}

/// What the command hands to a shell to run: the script behind `-c`, found past the options
/// that a shell takes. Where an option is unknown, or a value is missing, the place of the
/// script is not known; where it is a bare variable or the like, its text is not.
pub fn nested_shell_script<'a>(words: &'a [String]) -> (result: NestedShellScript<'a>)
    ensures
        result@ == nested_script(word_views(words@)),
{
    let ghost all = word_views(words@);
    let index: usize = match effective_command_index(words) {
        Some(index) => index,
        None => return NestedShellScript::Nothing,
    };
    proof {
        lemma_effective_index(all, 0);
    }
    let executable = command_basename(words[index].as_str());
    assert(executable@ == basename(all[index as int]));
    if !same_text(executable.as_str(), "bash") && !same_text(executable.as_str(), "sh")
        && !same_text(executable.as_str(), "dash") && !same_text(executable.as_str(), "zsh")
        && !same_text(executable.as_str(), "ksh") {
        return NestedShellScript::Nothing;
    }
    let long = long_options();
    let long_with_value = long_options_with_value();
    let mut at: usize = index + 1;
    while at < words.len()
        invariant
            at <= words@.len(),
            all == word_views(words@),
            views(long@) == shell_long_options(),
            views(long_with_value@) == shell_long_options_with_value(),
            nested_script(all) == script_in_arguments(all, at as int),
        decreases words@.len() - at,
    {
        let argument = unquote_shell_word(words[at].as_str());
        assert(argument@ == unquoted(all[at as int]));
        if same_text(argument, "--") || same_text(argument, "-") || (!starts_with(argument, "-")
            && !starts_with(argument, "+")) {
            return NestedShellScript::Nothing;
        }
        if starts_with(argument, "--") {
            let option = text_before(argument, '=');
            let inline_value = contains_char(argument, '=');
            if is_one_of(option, &long) && !inline_value {
                at += 1;
                continue ;
            }
            if is_one_of(option, &long_with_value) {
                if !inline_value {
                    if at + 1 >= words.len() {
                        return NestedShellScript::Ambiguous;
                    }
                    at += 1;
                }
                at += 1;
                continue ;
            }
            return NestedShellScript::Ambiguous;
        }
        proof {
            reveal_strlit("-");
            reveal_strlit("+");
        }
        let total = to_chars(argument).len();
        let rest = argument.substring_char(1, total);
        let flags = to_chars(rest);
        assert(flags@ =~= argument@.skip(1));
        if !all_shell_flags(&flags) {
            return NestedShellScript::Ambiguous;
        }
        let runs_script = contains_char(rest, 'c');
        if starts_with(argument, "+") && runs_script {
            return NestedShellScript::Ambiguous;
        }
        let names: usize = count_option_names(&flags);
        let following: usize = words.len() - at - 1;
        if runs_script {
            if names >= following {
                return NestedShellScript::Ambiguous;
            }
            let word = words[at + 1 + names].as_str();
            assert(word@ == all[at + 1 + names]);
            if is_veiled_word(word) {
                return NestedShellScript::Ambiguous;
            }
            let script = unquote_shell_word(word);
            return NestedShellScript::Script(script);
        }
        if names > following {
            return NestedShellScript::Ambiguous;
        }
        at += 1 + names;
    }
    NestedShellScript::Nothing
}

} // verus!
