//! Laws of launchers: which program a command runs, behind `sudo`, `env` and their like.
use vstd::prelude::*;

use crate::nested::{nested_script, option_name_count, script_in_arguments};
use crate::text::before;
use crate::words::{
    after_assignments, after_launcher, after_options, assigns, basename, destructive_name,
    effective_index, launcher_options, lemma_after_assignments, lemma_after_launcher,
    lemma_after_options, lemma_effective_index, unquoted,
};

verus! {

/// The program that a command runs is one of its words, and no launcher.
pub proof fn law_effective_program_is_no_launcher(words: Seq<Seq<char>>)
    ensures
        effective_index(words, 0) matches Some(index) ==> 0 <= index < words.len()
            && launcher_options(basename(words[index])) is None,
{
    lemma_effective_index(words, 0);
}

/// `words` and `others` agree up to and at `index`.
pub open spec fn agree_through(words: Seq<Seq<char>>, others: Seq<Seq<char>>, index: int) -> bool {
    &&& index < words.len()
    &&& index < others.len()
    &&& forall|i: int| 0 <= i <= index ==> words[i] == #[trigger] others[i]
}

proof fn lemma_after_options_agree(
    words: Seq<Seq<char>>,
    others: Seq<Seq<char>>,
    from: int,
    with_value: Seq<Seq<char>>,
    index: int,
)
    requires
        0 <= from,
        agree_through(words, others, index),
        after_options(words, from, with_value) matches Some(found) && found <= index,
    ensures
        after_options(others, from, with_value) == after_options(words, from, with_value),
    decreases words.len() + 1 - from,
{
    lemma_after_options(words, from, with_value);
    assert(words[from] == others[from]);
    let argument = unquoted(words[from]);
    if argument != "--"@ && "-"@.is_prefix_of(argument) && argument != "-"@ {
        if with_value.contains(before(argument, '=')) && !argument.contains('=') {
            lemma_after_options_agree(words, others, from + 2, with_value, index);
        } else {
            lemma_after_options_agree(words, others, from + 1, with_value, index);
        }
    }
}

proof fn lemma_after_assignments_agree(
    words: Seq<Seq<char>>,
    others: Seq<Seq<char>>,
    from: int,
    index: int,
)
    requires
        0 <= from,
        agree_through(words, others, index),
        after_assignments(words, from) <= index,
    ensures
        after_assignments(others, from) == after_assignments(words, from),
    decreases words.len() - from,
{
    lemma_after_assignments(words, from);
    assert(words[from] == others[from]);
    if assigns(words[from]) {
        lemma_after_assignments_agree(words, others, from + 1, index);
    }
}

proof fn lemma_effective_index_agree(
    words: Seq<Seq<char>>,
    others: Seq<Seq<char>>,
    from: int,
    index: int,
)
    requires
        agree_through(words, others, index),
        effective_index(words, from) == Some(index),
    ensures
        effective_index(others, from) == Some(index),
    decreases words.len() - from,
{
    lemma_effective_index(words, from);
    assert(words[from] == others[from]);
    if let Some(with_value) = launcher_options(basename(words[from])) {
        lemma_after_launcher(words, from, with_value);
        let next = after_launcher(words, from, with_value)->0;
        lemma_effective_index(words, next);
        let plain = after_options(words, from + 1, with_value)->0;
        lemma_after_options(words, from + 1, with_value);
        lemma_after_assignments(words, plain);
        lemma_after_options_agree(words, others, from + 1, with_value, index);
        if basename(words[from]) == "env"@ {
            lemma_after_assignments_agree(words, others, plain, index);
        }
        lemma_effective_index_agree(words, others, next, index);
    }
}

/// The arguments of the program that a command runs are not looked at: commands that agree up
/// to it run the same program, at the same place, and are destructive alike.
pub proof fn law_arguments_are_not_inspected(words: Seq<Seq<char>>, others: Seq<Seq<char>>)
    requires
        effective_index(words, 0) matches Some(index) && agree_through(words, others, index),
    ensures
        effective_index(others, 0) == effective_index(words, 0),
        destructive_name(others) == destructive_name(words),
{
    let index = effective_index(words, 0)->0;
    lemma_effective_index(words, 0);
    lemma_effective_index_agree(words, others, 0, index);
    assert(words[index] == others[index]);
}

/// The same index, one place further.
pub open spec fn shifted(index: Option<int>) -> Option<int> {
    match index {
        Some(index) => Some(index + 1),
        None => None,
    }
}

/// A word in front moves the end of the options one place further.
pub proof fn lemma_after_options_shift(
    first: Seq<char>,
    rest: Seq<Seq<char>>,
    from: int,
    with_value: Seq<Seq<char>>,
)
    requires
        0 <= from,
    ensures
        after_options(seq![first] + rest, from + 1, with_value) == shifted(
            after_options(rest, from, with_value),
        ),
    decreases rest.len() + 1 - from,
{
    let words = seq![first] + rest;
    if from < rest.len() {
        assert(words[from + 1] == rest[from]);
        lemma_after_options_shift(first, rest, from + 1, with_value);
        lemma_after_options_shift(first, rest, from + 2, with_value);
    }
}

/// A word in front moves the end of the assignments one place further.
pub proof fn lemma_after_assignments_shift(first: Seq<char>, rest: Seq<Seq<char>>, from: int)
    requires
        0 <= from,
    ensures
        after_assignments(seq![first] + rest, from + 1) == after_assignments(rest, from) + 1,
    decreases rest.len() - from,
{
    let words = seq![first] + rest;
    if from < rest.len() {
        assert(words[from + 1] == rest[from]);
        lemma_after_assignments_shift(first, rest, from + 1);
    }
}

/// A word in front moves the program one place further.
pub proof fn lemma_effective_index_shift(first: Seq<char>, rest: Seq<Seq<char>>, from: int)
    requires
        0 <= from,
    ensures
        effective_index(seq![first] + rest, from + 1) == shifted(effective_index(rest, from)),
    decreases rest.len() - from,
{
    let words = seq![first] + rest;
    if from < rest.len() {
        assert(words[from + 1] == rest[from]);
        if let Some(with_value) = launcher_options(basename(rest[from])) {
            lemma_after_options_shift(first, rest, from + 1, with_value);
            lemma_after_launcher(rest, from, with_value);
            lemma_after_options(rest, from + 1, with_value);
            if let Some(plain) = after_options(rest, from + 1, with_value) {
                lemma_after_assignments_shift(first, rest, plain);
            }
            if let Some(next) = after_launcher(rest, from, with_value) {
                lemma_effective_index_shift(first, rest, next);
            }
        }
    }
}

/// A word in front does not change the script in the arguments behind it.
pub proof fn lemma_script_in_arguments_shift(first: Seq<char>, rest: Seq<Seq<char>>, at: int)
    requires
        0 <= at,
    ensures
        script_in_arguments(seq![first] + rest, at + 1) == script_in_arguments(rest, at),
    decreases rest.len() + 1 - at,
{
    let words = seq![first] + rest;
    if at < rest.len() {
        assert(words[at + 1] == rest[at]);
        let next = at + 1 + option_name_count(unquoted(rest[at]).skip(1));
        if next < rest.len() {
            assert(words[next + 1] == rest[next]);
        }
        lemma_script_in_arguments_shift(first, rest, at + 1);
        lemma_script_in_arguments_shift(first, rest, at + 2);
        if next <= rest.len() {
            lemma_script_in_arguments_shift(first, rest, next);
        }
    }
}

/// The word, behind a launcher, is in the place of a program: it is no option, and no
/// assignment behind `env`.
pub open spec fn starts_program(launcher: Seq<char>, word: Seq<char>) -> bool {
    &&& !is_option(word)
    &&& basename(launcher) == "env"@ ==> !assigns(word)
}

/// A launcher in front of a command changes neither the program that it runs, nor whether it
/// is destructive, nor the script that it hands to a shell.
pub proof fn law_launchers_are_transparent(launcher: Seq<char>, rest: Seq<Seq<char>>)
    requires
        launcher_options(basename(launcher)) is Some,
        rest.len() > 0,
        starts_program(launcher, rest[0]),
    ensures
        effective_index(seq![launcher] + rest, 0) == shifted(effective_index(rest, 0)),
        destructive_name(seq![launcher] + rest) == destructive_name(rest),
        nested_script(seq![launcher] + rest) == nested_script(rest),
{
    let words = seq![launcher] + rest;
    let with_value = launcher_options(basename(launcher))->0;
    assert(words[0] == launcher);
    assert(words[1] == rest[0]);
    lemma_no_option_ends_options(words, 1, with_value);
    assert(after_launcher(words, 0, with_value) == Some(1int));
    lemma_effective_index_shift(launcher, rest, 0);
    lemma_effective_index(rest, 0);
    if let Some(index) = effective_index(rest, 0) {
        assert(words[index + 1] == rest[index]);
        lemma_script_in_arguments_shift(launcher, rest, index + 1);
    }
}

/// The word is an option of a launcher that takes no value from a word of its own.
pub open spec fn is_plain_option(word: Seq<char>, with_value: Seq<Seq<char>>) -> bool {
    let option = unquoted(word);
    &&& is_option(word)
    &&& option != "--"@
    &&& !with_value.contains(before(option, '=')) || option.contains('=')
}

/// The word is an option of a launcher that takes the next word as its value.
pub open spec fn is_valued_option(word: Seq<char>, with_value: Seq<Seq<char>>) -> bool {
    let option = unquoted(word);
    &&& is_option(word)
    &&& option != "--"@
    &&& with_value.contains(before(option, '='))
    &&& !option.contains('=')
}

proof fn lemma_skipped_words(
    launcher: Seq<char>,
    skipped: Seq<Seq<char>>,
    rest: Seq<Seq<char>>,
)
    requires
        launcher_options(basename(launcher)) is Some,
        1 <= skipped.len() <= 2,
        ({
            let words = seq![launcher] + skipped + rest;
            let with_value = launcher_options(basename(launcher))->0;
            after_options(words, 1, with_value) == after_options(
                words,
                1 + skipped.len() as int,
                with_value,
            )
        }),
    ensures
        destructive_name(seq![launcher] + skipped + rest) == destructive_name(
            seq![launcher] + rest,
        ),
        nested_script(seq![launcher] + skipped + rest) == nested_script(seq![launcher] + rest),
{
    let with_value = launcher_options(basename(launcher))->0;
    let words = seq![launcher] + skipped + rest;
    let base = seq![launcher] + rest;
    let n = skipped.len() as int;
    assert(words[0] == launcher);
    assert(base[0] == launcher);
    lemma_after_options_shift(launcher, rest, 0, with_value);
    let inner = if n == 1 {
        rest
    } else {
        seq![skipped[1]] + rest
    };
    let outer = seq![skipped[0]] + inner;
    assert(words =~= seq![launcher] + outer);
    if n == 2 {
        lemma_after_options_shift(skipped[1], rest, 0, with_value);
    }
    lemma_after_options_shift(skipped[0], inner, n - 1, with_value);
    lemma_after_options_shift(launcher, outer, n, with_value);
    lemma_after_options(rest, 0, with_value);
    if let Some(plain) = after_options(rest, 0, with_value) {
        let next = if basename(launcher) == "env"@ {
            after_assignments(rest, plain)
        } else {
            plain
        };
        lemma_after_assignments_shift(launcher, rest, plain);
        if n == 2 {
            lemma_after_assignments_shift(skipped[1], rest, plain);
        }
        lemma_after_assignments_shift(skipped[0], inner, plain + n - 1);
        lemma_after_assignments_shift(launcher, outer, plain + n);
        lemma_after_assignments(rest, plain);
        assert(after_launcher(base, 0, with_value) == Some(next + 1));
        assert(after_launcher(words, 0, with_value) == Some(next + 1 + n));
        lemma_effective_index_shift(launcher, rest, next);
        if n == 2 {
            lemma_effective_index_shift(skipped[1], rest, next);
        }
        lemma_effective_index_shift(skipped[0], inner, next + n - 1);
        lemma_effective_index_shift(launcher, outer, next + n);
        lemma_effective_index(rest, next);
        if let Some(index) = effective_index(rest, next) {
            assert(base[index + 1] == rest[index]);
            assert(words[index + 1 + n] == rest[index]);
            lemma_script_in_arguments_shift(launcher, rest, index + 1);
            if n == 2 {
                lemma_script_in_arguments_shift(skipped[1], rest, index + 1);
            }
            lemma_script_in_arguments_shift(skipped[0], inner, index + n);
            lemma_script_in_arguments_shift(launcher, outer, index + 1 + n);
        }
    }
}

/// An option behind a launcher changes neither whether the command is destructive nor the
/// script that it hands to a shell.
pub proof fn law_launcher_options_are_transparent(
    launcher: Seq<char>,
    option: Seq<char>,
    rest: Seq<Seq<char>>,
)
    requires
        launcher_options(basename(launcher)) matches Some(with_value) && is_plain_option(
            option,
            with_value,
        ),
    ensures
        destructive_name(seq![launcher, option] + rest) == destructive_name(
            seq![launcher] + rest,
        ),
        nested_script(seq![launcher, option] + rest) == nested_script(seq![launcher] + rest),
{
    let words = seq![launcher] + seq![option] + rest;
    assert(words =~= seq![launcher, option] + rest);
    assert(words[1] == option);
    lemma_skipped_words(launcher, seq![option], rest);
}

/// Nor does an option with its value.
pub proof fn law_launcher_option_values_are_transparent(
    launcher: Seq<char>,
    option: Seq<char>,
    value: Seq<char>,
    rest: Seq<Seq<char>>,
)
    requires
        launcher_options(basename(launcher)) matches Some(with_value) && is_valued_option(
            option,
            with_value,
        ),
    ensures
        destructive_name(seq![launcher, option, value] + rest) == destructive_name(
            seq![launcher] + rest,
        ),
        nested_script(seq![launcher, option, value] + rest) == nested_script(
            seq![launcher] + rest,
        ),
{
    let words = seq![launcher] + seq![option, value] + rest;
    assert(words =~= seq![launcher, option, value] + rest);
    assert(words[1] == option);
    lemma_skipped_words(launcher, seq![option, value], rest);
}

/// The word is an option.
pub open spec fn is_option(word: Seq<char>) -> bool {
    "-"@.is_prefix_of(unquoted(word)) && unquoted(word) != "-"@
}

proof fn lemma_assignments_are_no_options(word: Seq<char>)
    requires
        assigns(word),
    ensures
        !is_option(word),
{
    let text = unquoted(word);
    reveal_strlit("-");
    if "-"@.is_prefix_of(text) {
        assert(text[0] == text.subrange(0, 1)[0]);
        assert(before(text, '=')[0] == '-');
    }
}

proof fn lemma_no_option_ends_options(
    words: Seq<Seq<char>>,
    from: int,
    with_value: Seq<Seq<char>>,
)
    requires
        0 <= from < words.len(),
        !is_option(words[from]),
    ensures
        after_options(words, from, with_value) == Some(from),
{
    reveal_strlit("-");
    reveal_strlit("--");
    assert("--"@.subrange(0, 1) =~= "-"@);
    assert("--"@.len() != "-"@.len());
}

/// An assignment behind `env`, in front of a word that is no option, changes neither whether
/// the command is destructive nor the script that it hands to a shell.
pub proof fn law_env_assignments_are_transparent(
    launcher: Seq<char>,
    assignment: Seq<char>,
    rest: Seq<Seq<char>>,
)
    requires
        basename(launcher) == "env"@,
        assigns(assignment),
        rest.len() > 0,
        !is_option(rest[0]),
    ensures
        destructive_name(seq![launcher, assignment] + rest) == destructive_name(
            seq![launcher] + rest,
        ),
        nested_script(seq![launcher, assignment] + rest) == nested_script(seq![launcher] + rest),
{
    let words = seq![launcher, assignment] + rest;
    let base = seq![launcher] + rest;
    let inner = seq![assignment] + rest;
    assert(words =~= seq![launcher] + inner);
    assert(words[0] == launcher);
    assert(words[1] == assignment);
    assert(base[0] == launcher);
    assert(base[1] == rest[0]);
    reveal_strlit("env");
    reveal_strlit("command");
    reveal_strlit("builtin");
    reveal_strlit("exec");
    reveal_strlit("nohup");
    assert("env"@.len() == 3);
    assert("command"@.len() == 7);
    assert("builtin"@.len() == 7);
    assert("exec"@.len() == 4);
    assert("nohup"@.len() == 5);
    let with_value = launcher_options(basename(launcher))->0;
    lemma_assignments_are_no_options(assignment);
    lemma_no_option_ends_options(words, 1, with_value);
    lemma_no_option_ends_options(base, 1, with_value);
    let next = after_assignments(rest, 0);
    lemma_after_assignments(rest, 0);
    lemma_after_assignments_shift(launcher, rest, 0);
    lemma_after_assignments_shift(assignment, rest, 0);
    lemma_after_assignments_shift(launcher, inner, 1);
    assert(after_launcher(base, 0, with_value) == Some(next + 1));
    assert(after_launcher(words, 0, with_value) == Some(next + 2));
    lemma_effective_index_shift(launcher, rest, next);
    lemma_effective_index_shift(assignment, rest, next);
    lemma_effective_index_shift(launcher, inner, next + 1);
    lemma_effective_index(rest, next);
    if let Some(index) = effective_index(rest, next) {
        assert(base[index + 1] == rest[index]);
        assert(words[index + 2] == rest[index]);
        lemma_script_in_arguments_shift(launcher, rest, index + 1);
        lemma_script_in_arguments_shift(assignment, rest, index + 1);
        lemma_script_in_arguments_shift(launcher, inner, index + 2);
    }
}

proof fn lemma_script_in_arguments_extended(words: Seq<Seq<char>>, more: Seq<Seq<char>>, at: int)
    requires
        0 <= at,
        script_in_arguments(words, at) is Script,
    ensures
        script_in_arguments(words + more, at) == script_in_arguments(words, at),
    decreases words.len() + 1 - at,
{
    let all = words + more;
    assert(all[at] == words[at]);
    let argument = unquoted(words[at]);
    let next = at + 1 + option_name_count(argument.skip(1));
    if next < words.len() {
        assert(all[next] == words[next]);
    }
    if script_in_arguments(words, at + 1) is Script {
        lemma_script_in_arguments_extended(words, more, at + 1);
    }
    if script_in_arguments(words, at + 2) is Script {
        lemma_script_in_arguments_extended(words, more, at + 2);
    }
    if next <= words.len() && script_in_arguments(words, next) is Script {
        lemma_script_in_arguments_extended(words, more, next);
    }
}

/// Words behind the script that a command hands to a shell are the script's own arguments:
/// they do not change which script it is.
pub proof fn law_script_arguments_are_not_inspected(
    words: Seq<Seq<char>>,
    more: Seq<Seq<char>>,
)
    requires
        nested_script(words) is Script,
    ensures
        nested_script(words + more) == nested_script(words),
{
    let index = effective_index(words, 0)->0;
    lemma_effective_index(words, 0);
    lemma_effective_index_agree(words, words + more, 0, index);
    assert((words + more)[index] == words[index]);
    lemma_script_in_arguments_extended(words, more, index + 1);
}

} // verus!
