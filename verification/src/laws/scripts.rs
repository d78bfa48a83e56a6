//! Laws of scripts: what a shell is handed to run, argument by argument.
use vstd::prelude::*;

use crate::laws::launchers::lemma_script_in_arguments_shift;
use crate::laws::programs::{is_runner, law_other_programs_run_themselves};
use crate::laws::texts::law_text_before_a_character;
use crate::nested::{
    are_shell_flags, is_shell_flag, is_shell_option, is_variable, is_veiled, nested_script,
    option_name_count, script_in_arguments, shell_long_options, shell_long_options_with_value,
    shell_short_options, Nested,
};
use crate::text::{before, trimmed};
use crate::words::{basename, unquoted};

verus! {

/// A shell that takes a script on its command line.
pub open spec fn is_script_shell(name: Seq<char>) -> bool {
    name == "sh"@ || name == "bash"@ || name == "dash"@ || name == "ksh"@ || name == "zsh"@
}

proof fn lemma_shells_are_no_runners(name: Seq<char>)
    requires
        is_script_shell(name),
    ensures
        !is_runner(name),
{
    reveal_strlit("sh");
    reveal_strlit("bash");
    reveal_strlit("dash");
    reveal_strlit("ksh");
    reveal_strlit("zsh");
    reveal_strlit("env");
    reveal_strlit("sudo");
    reveal_strlit("doas");
    reveal_strlit("exec");
    reveal_strlit("pkexec");
    reveal_strlit("command");
    reveal_strlit("builtin");
    reveal_strlit("nohup");
    assert(name.len() <= 4);
    assert(name.len() == 4 ==> name[3] == 'h');
    assert(name.len() == 3 ==> name[2] == 'h');
    assert("env"@[2] == 'v');
    assert("sudo"@[3] == 'o');
    assert("doas"@[3] == 's');
    assert("exec"@[3] == 'c');
}

proof fn lemma_shell_script(shell: Seq<char>, arguments: Seq<Seq<char>>)
    requires
        is_script_shell(basename(shell)),
    ensures
        nested_script(seq![shell] + arguments) == script_in_arguments(arguments, 0),
{
    let words = seq![shell] + arguments;
    assert(words[0] == shell);
    lemma_shells_are_no_runners(basename(shell));
    law_other_programs_run_themselves(words);
    lemma_script_in_arguments_shift(shell, arguments, 0);
}

/// A program that is neither a launcher nor a shell is handed no script, whatever its arguments.
pub proof fn law_other_programs_take_no_script(words: Seq<Seq<char>>)
    requires
        words.len() > 0,
        !is_runner(basename(words[0])),
        !is_script_shell(basename(words[0])),
    ensures
        nested_script(words) is Nothing,
{
    law_other_programs_run_themselves(words);
}

proof fn lemma_signs()
    ensures
        "-"@ == seq!['-'],
        "+"@ == seq!['+'],
        "--"@ == seq!['-', '-'],
{
    reveal_strlit("-");
    reveal_strlit("+");
    reveal_strlit("--");
    assert("-"@ =~= seq!['-']);
    assert("+"@ =~= seq!['+']);
    assert("--"@ =~= seq!['-', '-']);
}

proof fn lemma_sign_prefixes(text: Seq<char>)
    ensures
        "-"@.is_prefix_of(text) <==> text.len() > 0 && text[0] == '-',
        "+"@.is_prefix_of(text) <==> text.len() > 0 && text[0] == '+',
        "--"@.is_prefix_of(text) <==> text.len() > 1 && text[0] == '-' && text[1] == '-',
        text == "-"@ <==> text.len() == 1 && text[0] == '-',
        text == "--"@ <==> text.len() == 2 && text[0] == '-' && text[1] == '-',
{
    lemma_signs();
    if text.len() > 0 {
        assert(text.subrange(0, 1)[0] == text[0]);
        assert(text.subrange(0, 1) =~= seq![text[0]]);
    }
    if text.len() > 1 {
        assert(text.subrange(0, 2)[0] == text[0]);
        assert(text.subrange(0, 2)[1] == text[1]);
        assert(text.subrange(0, 2) =~= seq![text[0], text[1]]);
    }
    if text.len() == 1 {
        assert(text =~= seq![text[0]]);
    }
    if text.len() == 2 {
        assert(text =~= seq![text[0], text[1]]);
    }
}

/// The argument is in the place of an option of a shell, and starts one: a sign, and more.
pub open spec fn is_signed(argument: Seq<char>) -> bool {
    &&& argument.len() > 0
    &&& argument[0] == '-' || argument[0] == '+'
    &&& !(argument.len() == 1 && argument[0] == '-')
    &&& !(argument.len() == 2 && argument[0] == '-' && argument[1] == '-')
}

proof fn lemma_signed(argument: Seq<char>)
    ensures
        is_shell_option(argument) <==> is_signed(argument),
{
    lemma_sign_prefixes(argument);
}

/// A shell without arguments, or whose next argument is no option, is handed no script: what
/// comes later belongs to a program in a file.
pub proof fn law_a_word_ends_the_options_of_a_shell(
    shell: Seq<char>,
    word: Seq<char>,
    rest: Seq<Seq<char>>,
)
    requires
        is_script_shell(basename(shell)),
        !is_signed(unquoted(word)),
    ensures
        nested_script(seq![shell]) is Nothing,
        nested_script(seq![shell, word] + rest) is Nothing,
{
    let nothing = Seq::<Seq<char>>::empty();
    lemma_signed(unquoted(word));
    lemma_shell_script(shell, nothing);
    assert(seq![shell] + nothing =~= seq![shell]);
    let arguments = seq![word] + rest;
    assert(arguments[0] == word);
    lemma_shell_script(shell, arguments);
    assert(seq![shell] + arguments =~= seq![shell, word] + rest);
}

/// A long option of a shell.
pub open spec fn is_known_long_option(option: Seq<char>) -> bool {
    ||| option == "--debug"@ || option == "--debugger"@ || option == "--verbose"@
    ||| option == "--dump-strings"@ || option == "--dump-po-strings"@ || option
        == "--pretty-print"@
    ||| option == "--help"@ || option == "--version"@
    ||| option == "--login"@ || option == "--posix"@ || option == "--restricted"@
    ||| option == "--noediting"@ || option == "--noprofile"@ || option == "--norc"@
}

/// A long option of a shell that names a file.
pub open spec fn is_file_option(option: Seq<char>) -> bool {
    option == "--rcfile"@ || option == "--init-file"@
}

proof fn lemma_long_options(option: Seq<char>)
    ensures
        shell_long_options().contains(option) <==> is_known_long_option(option),
        shell_long_options_with_value().contains(option) <==> is_file_option(option),
{
    let long = shell_long_options();
    assert(long[0] == "--debug"@ && long[1] == "--debugger"@ && long[2] == "--dump-po-strings"@);
    assert(long[3] == "--dump-strings"@ && long[4] == "--help"@ && long[5] == "--login"@);
    assert(long[6] == "--noediting"@ && long[7] == "--noprofile"@ && long[8] == "--norc"@);
    assert(long[9] == "--posix"@ && long[10] == "--pretty-print"@ && long[11] == "--restricted"@);
    assert(long[12] == "--verbose"@ && long[13] == "--version"@);
    let valued = shell_long_options_with_value();
    assert(valued[0] == "--init-file"@ && valued[1] == "--rcfile"@);
}

proof fn lemma_long_options_are_plain(option: Seq<char>)
    requires
        is_known_long_option(option) || is_file_option(option),
    ensures
        !option.contains('='),
        option.len() > 2 && option[0] == '-' && option[1] == '-',
        !(is_known_long_option(option) && is_file_option(option)),
{
    reveal_strlit("--debug");
    reveal_strlit("--debugger");
    reveal_strlit("--verbose");
    reveal_strlit("--dump-strings");
    reveal_strlit("--dump-po-strings");
    reveal_strlit("--pretty-print");
    reveal_strlit("--help");
    reveal_strlit("--version");
    reveal_strlit("--login");
    reveal_strlit("--posix");
    reveal_strlit("--restricted");
    reveal_strlit("--noediting");
    reveal_strlit("--noprofile");
    reveal_strlit("--norc");
    reveal_strlit("--rcfile");
    reveal_strlit("--init-file");
    assert("--rcfile"@[2] == 'r' && "--rcfile"@[3] == 'c');
    assert("--init-file"@[2] == 'i');
    assert("--restricted"@[3] == 'e');
}

/// A long option of a shell is passed over, and one that names a file with the file, in a word
/// of its own or behind an equals sign. Where the file is missing, where the script stands is not
/// known.
pub proof fn law_long_options_are_passed_over(
    shell: Seq<char>,
    option: Seq<char>,
    value: Seq<char>,
    rest: Seq<Seq<char>>,
)
    requires
        is_script_shell(basename(shell)),
    ensures
        is_known_long_option(unquoted(option)) ==> nested_script(seq![shell, option] + rest)
            == nested_script(seq![shell] + rest),
        is_file_option(unquoted(option)) ==> nested_script(seq![shell, option, value] + rest)
            == nested_script(seq![shell] + rest) && nested_script(seq![shell, option]) is Ambiguous,
        (exists|name: Seq<char>, file: Seq<char>|
            is_file_option(name) && unquoted(option) == #[trigger] (name + seq!['='] + file))
            ==> nested_script(seq![shell, option] + rest) == nested_script(seq![shell] + rest),
{
    let argument = unquoted(option);
    let one = seq![option] + rest;
    let two = seq![option, value] + rest;
    let alone = seq![option];
    assert(one[0] == option && two[0] == option && alone[0] == option);
    assert(seq![shell] + one =~= seq![shell, option] + rest);
    assert(seq![shell] + two =~= seq![shell, option, value] + rest);
    assert(seq![shell] + alone =~= seq![shell, option]);
    lemma_shell_script(shell, one);
    lemma_shell_script(shell, two);
    lemma_shell_script(shell, alone);
    lemma_shell_script(shell, rest);
    lemma_script_in_arguments_shift(option, rest, 0);
    lemma_script_in_arguments_shift(value, rest, 0);
    lemma_script_in_arguments_shift(option, seq![value] + rest, 1);
    assert(seq![option] + (seq![value] + rest) =~= two);
    lemma_signed(argument);
    lemma_sign_prefixes(argument);
    if is_known_long_option(argument) || is_file_option(argument) {
        lemma_long_options(argument);
        lemma_long_options_are_plain(argument);
        law_text_before_a_character(argument, '=', Seq::empty());
    }
    if exists|name: Seq<char>, file: Seq<char>|
        is_file_option(name) && argument == #[trigger] (name + seq!['='] + file) {
        let (name, file) = choose|name: Seq<char>, file: Seq<char>|
            is_file_option(name) && argument == #[trigger] (name + seq!['='] + file);
        lemma_long_options(name);
        lemma_long_options_are_plain(name);
        law_text_before_a_character(name, '=', file);
        assert(argument[0] == name[0] && argument[1] == name[1]);
        assert(argument[name.len() as int] == '=');
    }
}

/// Any other long option leaves open where the script stands.
pub proof fn law_unknown_long_options_are_ambiguous(
    shell: Seq<char>,
    option: Seq<char>,
    rest: Seq<Seq<char>>,
)
    requires
        is_script_shell(basename(shell)),
        ({
            let argument = unquoted(option);
            &&& argument.len() > 2 && argument[0] == '-' && argument[1] == '-'
            &&& !is_known_long_option(argument)
            &&& !is_file_option(argument)
            &&& forall|name: Seq<char>, file: Seq<char>|
                is_file_option(name) ==> argument != #[trigger] (name + seq!['='] + file)
        }),
    ensures
        nested_script(seq![shell, option] + rest) is Ambiguous,
{
    let argument = unquoted(option);
    let one = seq![option] + rest;
    assert(one[0] == option);
    assert(seq![shell] + one =~= seq![shell, option] + rest);
    lemma_shell_script(shell, one);
    lemma_signed(argument);
    lemma_sign_prefixes(argument);
    let name = before(argument, '=');
    lemma_long_options(name);
    if argument.contains('=') {
        if is_file_option(name) {
            let file = argument.skip(name.len() as int + 1);
            lemma_before_splits(argument, '=');
            assert(argument == name + seq!['='] + file);
        }
    } else {
        law_text_before_a_character(argument, '=', Seq::empty());
    }
}

proof fn lemma_before_splits(text: Seq<char>, c: char)
    requires
        text.contains(c),
    ensures
        text == before(text, c) + seq![c] + text.skip(before(text, c).len() as int + 1),
    decreases text.len(),
{
    let i = choose|i: int| 0 <= i < text.len() && text[i] == c;
    if text[0] == c {
        assert(text =~= Seq::<char>::empty() + seq![c] + text.skip(1));
    } else {
        let rest = text.drop_first();
        assert(rest[i - 1] == c);
        lemma_before_splits(rest, c);
        let n = before(rest, c).len() as int;
        assert(text =~= before(text, c) + seq![c] + text.skip(n + 2)) by {
            assert(rest.skip(n + 1) =~= text.skip(n + 2));
            assert(text =~= seq![text[0]] + rest);
        }
    }
}

/// The number of characters of `flags` that are `o` or `O`.
pub open spec fn names_taken(flags: Seq<char>) -> nat {
    flags.filter(|flag: char| flag == 'o' || flag == 'O').len()
}

/// A short option of a shell.
pub open spec fn is_known_flag(flag: char) -> bool {
    ||| flag == 'c' || flag == 'o' || flag == 'O'
    ||| flag == 'a' || flag == 'b' || flag == 'e' || flag == 'f' || flag == 'h' || flag == 'i'
    ||| flag == 'k' || flag == 'l' || flag == 'm' || flag == 'n' || flag == 'p' || flag == 'q'
    ||| flag == 'r' || flag == 's' || flag == 't' || flag == 'u' || flag == 'v' || flag == 'x'
    ||| flag == 'B' || flag == 'C' || flag == 'D' || flag == 'E' || flag == 'H' || flag == 'P'
    ||| flag == 'T' || flag == 'V'
}

/// Short options of a shell throughout, at least one.
pub open spec fn is_flag_cluster(flags: Seq<char>) -> bool {
    flags.len() > 0 && forall|i: int| 0 <= i < flags.len() ==> is_known_flag(#[trigger] flags[i])
}

proof fn lemma_flag(flag: char)
    ensures
        is_shell_flag(flag) <==> is_known_flag(flag),
{
    let short = shell_short_options();
    reveal_strlit("abefhiklmnprstuvxBCEHPTDqVE");
    assert(short.len() == 27);
    assert(short[0] == 'a' && short[1] == 'b' && short[2] == 'e' && short[3] == 'f');
    assert(short[4] == 'h' && short[5] == 'i' && short[6] == 'k' && short[7] == 'l');
    assert(short[8] == 'm' && short[9] == 'n' && short[10] == 'p' && short[11] == 'r');
    assert(short[12] == 's' && short[13] == 't' && short[14] == 'u' && short[15] == 'v');
    assert(short[16] == 'x' && short[17] == 'B' && short[18] == 'C' && short[19] == 'E');
    assert(short[20] == 'H' && short[21] == 'P' && short[22] == 'T' && short[23] == 'D');
    assert(short[24] == 'q' && short[25] == 'V' && short[26] == 'E');
}

proof fn lemma_flags(flags: Seq<char>)
    ensures
        are_shell_flags(flags) <==> is_flag_cluster(flags),
{
    assert forall|i: int| 0 <= i < flags.len() implies is_shell_flag(#[trigger] flags[i])
        == is_known_flag(flags[i]) by {
        lemma_flag(flags[i]);
    }
}

/// The words that a cluster of flags takes are counted flag by flag, wherever the flags stand:
/// one for each `o` or `O`, none for any other.
pub proof fn law_flags_take_names_one_by_one(first: Seq<char>, second: Seq<char>, flag: char)
    ensures
        option_name_count(first + second) == option_name_count(first) + option_name_count(second),
        option_name_count(seq![flag]) == (if flag == 'o' || flag == 'O' {
            1nat
        } else {
            0nat
        }),
        option_name_count(first) == names_taken(first),
    decreases second.len(),
{
    lemma_names_taken(first);
    assert(seq![flag].drop_last() =~= Seq::<char>::empty());
    assert(seq![flag].last() == flag);
    assert(option_name_count(Seq::empty()) == 0);
    if second.len() == 0 {
        assert(first + second =~= first);
    } else {
        assert((first + second).drop_last() =~= first + second.drop_last());
        assert((first + second).last() == second.last());
        law_flags_take_names_one_by_one(first, second.drop_last(), flag);
    }
}

proof fn lemma_names_taken(flags: Seq<char>)
    ensures
        option_name_count(flags) == names_taken(flags),
    decreases flags.len(),
{
    reveal(Seq::filter);
    if flags.len() > 0 {
        lemma_names_taken(flags.drop_last());
    }
}

/// A cluster of flags in a word: a sign, then the flags. The sign is no start of a long option.
pub open spec fn is_cluster(argument: Seq<char>, sign: char, flags: Seq<char>) -> bool {
    &&& argument == seq![sign] + flags
    &&& sign == '-' || sign == '+'
    &&& sign == '-' ==> flags.len() > 0 && flags[0] != '-'
}

proof fn lemma_cluster(argument: Seq<char>, sign: char, flags: Seq<char>)
    requires
        is_cluster(argument, sign, flags),
    ensures
        is_shell_option(argument),
        !"--"@.is_prefix_of(argument),
        "+"@.is_prefix_of(argument) <==> sign == '+',
        argument.skip(1) == flags,
        are_shell_flags(flags) <==> is_flag_cluster(flags),
        option_name_count(flags) == names_taken(flags),
{
    assert(argument[0] == sign);
    if flags.len() > 0 {
        assert(argument[1] == flags[0]);
    }
    lemma_signed(argument);
    lemma_sign_prefixes(argument);
    lemma_flags(flags);
    lemma_names_taken(flags);
    assert(argument.skip(1) =~= flags);
}

proof fn lemma_script_past(skipped: Seq<Seq<char>>, rest: Seq<Seq<char>>)
    ensures
        script_in_arguments(skipped + rest, skipped.len() as int) == script_in_arguments(rest, 0),
    decreases skipped.len(),
{
    if skipped.len() == 0 {
        assert(skipped + rest =~= rest);
    } else {
        let inner = skipped.drop_first();
        lemma_script_past(inner, rest);
        lemma_script_in_arguments_shift(skipped[0], inner + rest, inner.len() as int);
        assert(seq![skipped[0]] + (inner + rest) =~= skipped + rest);
    }
}

/// Flags without `c` are passed over, with a word for each `o` and `O` among them, wherever it
/// stands. Where such a word is missing, where the script stands is not known.
pub proof fn law_flags_are_passed_over(
    shell: Seq<char>,
    cluster: Seq<char>,
    sign: char,
    flags: Seq<char>,
    names: Seq<Seq<char>>,
    rest: Seq<Seq<char>>,
)
    requires
        is_script_shell(basename(shell)),
        is_cluster(unquoted(cluster), sign, flags),
        is_flag_cluster(flags),
        !flags.contains('c'),
    ensures
        names.len() == names_taken(flags) ==> nested_script(seq![shell, cluster] + names + rest)
            == nested_script(seq![shell] + rest),
        names.len() < names_taken(flags) ==> nested_script(
            seq![shell, cluster] + names,
        ) is Ambiguous,
{
    lemma_cluster(unquoted(cluster), sign, flags);
    let skipped = seq![cluster] + names;
    let all = skipped + rest;
    assert(all[0] == cluster);
    assert(skipped[0] == cluster);
    lemma_shell_script(shell, all);
    lemma_shell_script(shell, skipped);
    lemma_shell_script(shell, rest);
    lemma_script_past(skipped, rest);
    assert(seq![shell] + all =~= seq![shell, cluster] + names + rest);
    assert(seq![shell] + skipped =~= seq![shell, cluster] + names);
}

/// Behind flags with `c` stands the script, after a word for each `o` and `O`: it is the word
/// without quotes, unless that does not show its text. Where it is missing, nothing is known of
/// it.
pub proof fn law_script_stands_behind_c(
    shell: Seq<char>,
    cluster: Seq<char>,
    flags: Seq<char>,
    names: Seq<Seq<char>>,
    script: Seq<char>,
    rest: Seq<Seq<char>>,
)
    requires
        is_script_shell(basename(shell)),
        is_cluster(unquoted(cluster), '-', flags),
        is_flag_cluster(flags),
        flags.contains('c'),
    ensures
        names.len() == names_taken(flags) ==> nested_script(
            seq![shell, cluster] + names + seq![script] + rest,
        ) == (if hides_its_text(trimmed(script)) {
            Nested::Ambiguous
        } else {
            Nested::Script(unquoted(script))
        }),
        names.len() <= names_taken(flags) ==> nested_script(
            seq![shell, cluster] + names,
        ) is Ambiguous,
{
    lemma_cluster(unquoted(cluster), '-', flags);
    let short = seq![cluster] + names;
    let all = seq![cluster] + names + seq![script] + rest;
    assert(all[0] == cluster);
    assert(short[0] == cluster);
    assert(all[1 + names.len() as int] == script);
    lemma_shell_script(shell, all);
    lemma_shell_script(shell, short);
    assert(seq![shell] + all =~= seq![shell, cluster] + names + seq![script] + rest);
    assert(seq![shell] + short =~= seq![shell, cluster] + names);
    law_words_that_hide_their_text(script);
}

/// A plus sign before `c`, an unknown flag, or no flag at all leaves open where the script
/// stands.
pub proof fn law_unclear_flags_are_ambiguous(
    shell: Seq<char>,
    cluster: Seq<char>,
    sign: char,
    flags: Seq<char>,
    rest: Seq<Seq<char>>,
)
    requires
        is_script_shell(basename(shell)),
        is_cluster(unquoted(cluster), sign, flags),
        !is_flag_cluster(flags) || sign == '+' && flags.contains('c'),
    ensures
        nested_script(seq![shell, cluster] + rest) is Ambiguous,
{
    lemma_cluster(unquoted(cluster), sign, flags);
    let all = seq![cluster] + rest;
    assert(all[0] == cluster);
    lemma_shell_script(shell, all);
    assert(seq![shell] + all =~= seq![shell, cluster] + rest);
}

/// A variable without braces, by what stands behind the dollar sign: letters, digits and
/// underscores, or one of the special signs.
pub open spec fn names_variable(name: Seq<char>) -> bool {
    ||| forall|i: int|
        0 <= i < name.len() ==> (#[trigger] name[i] == '_' || 'a' <= name[i] <= 'z' || 'A'
            <= name[i] <= 'Z' || '0' <= name[i] <= '9')
    ||| name.len() == 1 && (name[0] == '*' || name[0] == '@' || name[0] == '?' || name[0] == '!'
        || name[0] == '#' || name[0] == '-' || name[0] == '$')
}

/// The word, by its characters, is a variable without braces, text with escapes, arithmetic, or
/// a process.
pub open spec fn hides_its_text(word: Seq<char>) -> bool {
    &&& word.len() > 0
    &&& {
        ||| word[0] == '$' && {
            ||| names_variable(word.skip(1))
            ||| word.len() > 1 && (word[1] == '\'' || word[1] == '[')
            ||| word.len() > 2 && word[1] == '(' && word[2] == '('
        }
        ||| (word[0] == '<' || word[0] == '>') && word.len() > 1 && word[1] == '('
    }
}

proof fn lemma_two_prefix(prefix: Seq<char>, word: Seq<char>)
    requires
        prefix.len() == 2,
    ensures
        prefix.is_prefix_of(word) <==> word.len() > 1 && word[0] == prefix[0] && word[1]
            == prefix[1],
{
    if word.len() > 1 {
        assert(word.subrange(0, 2)[0] == word[0]);
        assert(word.subrange(0, 2)[1] == word[1]);
        assert(word.subrange(0, 2) =~= seq![word[0], word[1]]);
        assert(prefix =~= seq![prefix[0], prefix[1]]);
    }
}

/// Which words, in the place of a script, do not show its text.
pub proof fn law_words_that_hide_their_text(raw: Seq<char>)
    ensures
        is_veiled(raw) <==> hides_its_text(trimmed(raw)),
{
    let word = trimmed(raw);
    reveal_strlit("$");
    reveal_strlit("$'");
    reveal_strlit("$((");
    reveal_strlit("$[");
    reveal_strlit("<(");
    reveal_strlit(">(");
    lemma_two_prefix("$'"@, word);
    lemma_two_prefix("$["@, word);
    lemma_two_prefix("<("@, word);
    lemma_two_prefix(">("@, word);
    assert("$"@ =~= seq!['$']);
    assert("$(("@ =~= seq!['$', '(', '(']);
    if word.len() > 0 {
        assert(word.subrange(0, 1)[0] == word[0]);
        assert(word.subrange(0, 1) =~= seq![word[0]]);
    }
    if word.len() > 2 {
        assert(word.subrange(0, 3)[0] == word[0]);
        assert(word.subrange(0, 3)[1] == word[1]);
        assert(word.subrange(0, 3)[2] == word[2]);
        assert(word.subrange(0, 3) =~= seq![word[0], word[1], word[2]]);
    }
    if word.len() > 0 {
        lemma_variable(word.skip(1));
    }
}

proof fn lemma_variable(name: Seq<char>)
    ensures
        is_variable(name) <==> names_variable(name),
{
    reveal_strlit("*@?!#-$");
    let signs = "*@?!#-$"@;
    assert(signs.len() == 7);
    assert(signs[0] == '*' && signs[1] == '@' && signs[2] == '?' && signs[3] == '!');
    assert(signs[4] == '#' && signs[5] == '-' && signs[6] == '$');
}

} // verus!
