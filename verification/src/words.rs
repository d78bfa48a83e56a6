//! Command words: which program a command line runs, and which script it hands to a shell.
use vstd::prelude::*;

use crate::text::{
    ascii_lowercase, before, contains_char, is_ascii_digit, is_ascii_letter, is_one_of,
    last_segment, same_text, starts_with, strip, stripped, text_after_separator, text_before,
    to_chars, trim, trimmed, views, Edge,
};

verus! {

/// The texts of a list of words.
pub open spec fn word_views(words: Seq<String>) -> Seq<Seq<char>> {
    words.map_values(|word: String| word@)
}

/// A word without the whitespace, and then the quotes, around it.
pub open spec fn unquoted(raw: Seq<char>) -> Seq<char> {
    stripped(trimmed(raw), Edge::Quote)
}

/// A word without the whitespace, and then the quotes, around it.
pub fn unquote_shell_word<'a>(raw: &'a str) -> (result: &'a str)
    ensures
        result@ == unquoted(raw@),
{
    strip(trim(raw), Edge::Quote)
}

/// The name of the program that a word calls: the last segment of its path, in lower case.
pub open spec fn basename(raw: Seq<char>) -> Seq<char> {
    ascii_lowercase(last_segment(unquoted(raw)))
}

/// The name of the program that a word calls.
pub fn command_basename(raw: &str) -> (result: String)
    ensures
        result@ == basename(raw@),
{
    text_after_separator(unquote_shell_word(raw)).to_ascii_lowercase()
}

/// `name` can be the name of a shell variable.
pub open spec fn is_variable_name(name: Seq<char>) -> bool {
    &&& name.len() > 0
    &&& name[0] == '_' || is_ascii_letter(name[0])
    &&& forall|i: int|
        1 <= i < name.len() ==> #[trigger] name[i] == '_' || is_ascii_letter(name[i])
            || is_ascii_digit(name[i])
}

/// The word assigns to a variable.
pub open spec fn assigns(raw: Seq<char>) -> bool {
    unquoted(raw).contains('=') && is_variable_name(before(unquoted(raw), '='))
}

/// Whether the word assigns to a variable.
pub fn is_assignment(raw: &str) -> (result: bool)
    ensures
        result == assigns(raw@),
{
    let word = unquote_shell_word(raw);
    if !contains_char(word, '=') {
        return false;
    }
    let name = to_chars(text_before(word, '='));
    if name.len() == 0 {
        return false;
    }
    let mut i: usize = 0;
    while i < name.len()
        invariant
            i <= name@.len(),
            name@.len() > 0,
            name@ == before(unquoted(raw@), '='),
            i > 0 ==> name@[0] == '_' || is_ascii_letter(name@[0]),
            forall|k: int|
                1 <= k < i ==> #[trigger] name@[k] == '_' || is_ascii_letter(name@[k])
                    || is_ascii_digit(name@[k]),
        decreases name@.len() - i,
    {
        let c: char = name[i];
        let letter = c == '_' || ('a' <= c && c <= 'z') || ('A' <= c && c <= 'Z');
        let digit = '0' <= c && c <= '9';
        if !letter && (i == 0 || !digit) {
            assert(name@[i as int] == c);
            return false;
        }
        i += 1;
    }
    true
}

/// The index of the first word from `from` on that is no option, where `with_value` lists the
/// options that take the next word as their value. `--` ends the options.
pub open spec fn after_options(
    words: Seq<Seq<char>>,
    from: int,
    with_value: Seq<Seq<char>>,
) -> Option<int>
    decreases words.len() + 1 - from,
{
    if from >= words.len() {
        None
    } else {
        let argument = unquoted(words[from]);
        if argument == "--"@ {
            if from + 1 < words.len() {
                Some(from + 1)
            } else {
                None
            }
        } else if !"-"@.is_prefix_of(argument) || argument == "-"@ {
            Some(from)
        } else if with_value.contains(before(argument, '=')) && !argument.contains('=') {
            after_options(words, from + 2, with_value)
        } else {
            after_options(words, from + 1, with_value)
        }
    }
}

/// The index that `after_options` finds lies among the words, at `from` or behind it.
pub proof fn lemma_after_options(
    words: Seq<Seq<char>>,
    from: int,
    with_value: Seq<Seq<char>>,
)
    ensures
        after_options(words, from, with_value) matches Some(index) ==> from <= index
            < words.len(),
    decreases words.len() + 1 - from,
{
    if from < words.len() {
        lemma_after_options(words, from + 1, with_value);
        lemma_after_options(words, from + 2, with_value);
    }
}

/// An index as a mathematical integer.
pub open spec fn index_view(index: Option<usize>) -> Option<int> {
    match index {
        Some(index) => Some(index as int),
        None => None,
    }
}

/// The index of the first word from `index` on that is no option.
pub fn skip_options(
    words: &[String],
    index: usize,
    options_with_value: &Vec<&'static str>,
) -> (result: Option<usize>)
    ensures
        index_view(result) == after_options(
            word_views(words@),
            index as int,
            views(options_with_value@),
        ),
{
    let ghost all = word_views(words@);
    let ghost with_value = views(options_with_value@);
    let mut at: usize = index;
    while at < words.len()
        invariant
            all == word_views(words@),
            with_value == views(options_with_value@),
            after_options(all, index as int, with_value) == after_options(
                all,
                at as int,
                with_value,
            ),
        decreases words@.len() - at,
    {
        let argument = unquote_shell_word(words[at].as_str());
        assert(argument@ == unquoted(all[at as int]));
        if same_text(argument, "--") {
            return if at + 1 < words.len() {
                Some(at + 1)
            } else {
                None
            };
        }
        if !starts_with(argument, "-") || same_text(argument, "-") {
            return Some(at);
        }
        let option = text_before(argument, '=');
        at += 1;
        if is_one_of(option, options_with_value) && !contains_char(argument, '=') {
            if at >= words.len() {
                assert(after_options(all, at + 1, with_value) is None);
                return None;
            }
            at += 1;
        }
    }
    None
}

/// The options of `env` that take a value.
pub open spec fn env_options() -> Seq<Seq<char>> {
    seq!["-u"@, "--unset"@, "-C"@, "--chdir"@]
}

/// The options with a value of the programs that run a command as another user.
pub open spec fn elevation_options() -> Seq<Seq<char>> {
    seq![
        "-u"@,
        "--user"@,
        "-g"@,
        "--group"@,
        "-h"@,
        "--host"@,
        "-p"@,
        "--prompt"@,
        "-R"@,
        "--chroot"@,
        "-C"@,
        "--close-from"@,
    ]
}

/// For a program that runs the command in its own arguments, its options that take a value.
pub open spec fn launcher_options(name: Seq<char>) -> Option<Seq<Seq<char>>> {
    if name == "command"@ || name == "builtin"@ || name == "exec"@ || name == "nohup"@ {
        Some(Seq::empty())
    } else if name == "env"@ {
        Some(env_options())
    } else if name == "sudo"@ || name == "doas"@ || name == "pkexec"@ {
        Some(elevation_options())
    } else {
        None
    }
}

fn launcher_options_of(name: &str) -> (result: Option<Vec<&'static str>>)
    ensures
        (match result {
            Some(options) => Some(views(options@)),
            None => None,
        }) == launcher_options(name@),
{
    if same_text(name, "command") || same_text(name, "builtin") || same_text(name, "exec")
        || same_text(name, "nohup") {
        let options: Vec<&'static str> = Vec::new();
        assert(views(options@) =~= Seq::<Seq<char>>::empty());
        Some(options)
    } else if same_text(name, "env") {
        let options: Vec<&'static str> = vec!["-u", "--unset", "-C", "--chdir"];
        assert(views(options@) =~= env_options());
        Some(options)
    } else if same_text(name, "sudo") || same_text(name, "doas") || same_text(name, "pkexec") {
        let options: Vec<&'static str> = vec![
            "-u",
            "--user",
            "-g",
            "--group",
            "-h",
            "--host",
            "-p",
            "--prompt",
            "-R",
            "--chroot",
            "-C",
            "--close-from",
        ];
        assert(views(options@) =~= elevation_options());
        Some(options)
    } else {
        None
    }
}

/// The index of the first word from `from` on that assigns to no variable.
pub open spec fn after_assignments(words: Seq<Seq<char>>, from: int) -> int
    decreases words.len() - from,
{
    if from < words.len() && assigns(words[from]) {
        after_assignments(words, from + 1)
    } else {
        from
    }
}

/// The index that `after_assignments` finds is `from` or behind it, and not behind the end.
pub proof fn lemma_after_assignments(words: Seq<Seq<char>>, from: int)
    ensures
        from <= after_assignments(words, from),
        from <= words.len() ==> after_assignments(words, from) <= words.len(),
    decreases words.len() - from,
{
    if from < words.len() && assigns(words[from]) {
        lemma_after_assignments(words, from + 1);
    }
}

/// The index of the word behind a launcher's own options, and behind the assignments that
/// `env` takes.
pub open spec fn after_launcher(
    words: Seq<Seq<char>>,
    launcher: int,
    with_value: Seq<Seq<char>>,
) -> Option<int> {
    match after_options(words, launcher + 1, with_value) {
        Some(index) => if basename(words[launcher]) == "env"@ {
            Some(after_assignments(words, index))
        } else {
            Some(index)
        },
        None => None,
    }
}

/// The word behind a launcher is behind it, and not behind the end.
pub proof fn lemma_after_launcher(
    words: Seq<Seq<char>>,
    launcher: int,
    with_value: Seq<Seq<char>>,
)
    ensures
        after_launcher(words, launcher, with_value) matches Some(index) ==> launcher < index
            <= words.len(),
{
    lemma_after_options(words, launcher + 1, with_value);
    if let Some(index) = after_options(words, launcher + 1, with_value) {
        lemma_after_assignments(words, index);
    }
}

/// The index of the program that the command runs, seen through launchers, when the word at
/// `from` is in the place of a program.
pub open spec fn effective_index(words: Seq<Seq<char>>, from: int) -> Option<int>
    decreases words.len() - from,
{
    if from < 0 || from >= words.len() {
        None
    } else {
        match launcher_options(basename(words[from])) {
            Some(with_value) => {
                proof {
                    lemma_after_launcher(words, from, with_value);
                }
                match after_launcher(words, from, with_value) {
                    Some(next) => effective_index(words, next),
                    None => None,
                }
            },
            None => Some(from),
        }
    }
}

/// The program that a command runs is a word from `from` on, and no launcher.
pub proof fn lemma_effective_index(words: Seq<Seq<char>>, from: int)
    ensures
        effective_index(words, from) matches Some(index) ==> from <= index < words.len()
            && launcher_options(basename(words[index])) is None,
    decreases words.len() - from,
{
    if 0 <= from < words.len() {
        if let Some(with_value) = launcher_options(basename(words[from])) {
            lemma_after_launcher(words, from, with_value);
            if let Some(next) = after_launcher(words, from, with_value) {
                lemma_effective_index(words, next);
            }
        }
    }
}

/// The index of the program that the command runs. Launchers such as `sudo` and `env` are
/// seen through, with their options; the arguments of any other program are not looked at.
pub fn effective_command_index(words: &[String]) -> (result: Option<usize>)
    ensures
        index_view(result) == effective_index(word_views(words@), 0),
{
    let ghost all = word_views(words@);
    let mut index: usize = 0;
    while index < words.len()
        invariant
            all == word_views(words@),
            effective_index(all, 0) == effective_index(all, index as int),
        decreases words@.len() - index,
    {
        let executable = command_basename(words[index].as_str());
        assert(executable@ == basename(all[index as int]));
        let options = match launcher_options_of(executable.as_str()) {
            Some(options) => options,
            None => return Some(index),
        };
        let ghost with_value = views(options@);
        proof {
            lemma_after_launcher(all, index as int, with_value);
            lemma_after_options(all, index + 1, with_value);
        }
        let mut next: usize = match skip_options(words, index + 1, &options) {
            Some(next) => next,
            None => return None,
        };
        if same_text(executable.as_str(), "env") {
            let ghost start = next as int;
            while next < words.len() && is_assignment(words[next].as_str())
                invariant
                    next <= words@.len(),
                    start <= next,
                    all == word_views(words@),
                    after_assignments(all, start) == after_assignments(all, next as int),
                decreases words@.len() - next,
            {
                assert(words@[next as int]@ == all[next as int]);
                next += 1;
            }
            assert(next < words@.len() ==> words@[next as int]@ == all[next as int]);
        }
        index = next;
    }
    None
}

/// Programs that destroy data or stop the machine, besides the `mkfs` family.
pub open spec fn destructive_names() -> Seq<Seq<char>> {
    seq![
        "dd"@,
        "mkswap"@,
        "truncate"@,
        "shred"@,
        "wipefs"@,
        "blkdiscard"@,
        "fdisk"@,
        "sfdisk"@,
        "parted"@,
        "cryptsetup"@,
        "pvremove"@,
        "vgremove"@,
        "lvremove"@,
        "zpool"@,
        "zfs"@,
        "shutdown"@,
        "reboot"@,
        "poweroff"@,
        "halt"@,
        "telinit"@,
    ]
}

/// Programs that destroy data or stop the machine, besides the `mkfs` family.
pub fn destructive_commands() -> (result: Vec<&'static str>)
    ensures
        views(result@) == destructive_names(),
{
    let names: Vec<&'static str> = vec![
        "dd",
        "mkswap",
        "truncate",
        "shred",
        "wipefs",
        "blkdiscard",
        "fdisk",
        "sfdisk",
        "parted",
        "cryptsetup",
        "pvremove",
        "vgremove",
        "lvremove",
        "zpool",
        "zfs",
        "shutdown",
        "reboot",
        "poweroff",
        "halt",
        "telinit",
    ];
    assert(views(names@) =~= destructive_names());
    names
}

/// The entry for a program in the list of destructive ones.
pub open spec fn destructive_entry(executable: Seq<char>) -> Option<Seq<char>> {
    if executable == "mkfs"@ || "mkfs."@.is_prefix_of(executable) {
        Some("mkfs"@)
    } else if destructive_names().contains(executable) {
        Some(executable)
    } else {
        None
    }
}

/// The entry for the program that the command runs.
pub open spec fn destructive_name(words: Seq<Seq<char>>) -> Option<Seq<char>> {
    match effective_index(words, 0) {
        Some(index) => destructive_entry(basename(words[index])),
        None => None,
    }
}

/// The destructive program that the command runs, by its name in the list of them.
pub fn destructive_command_name(words: &[String]) -> (result: Option<&'static str>)
    ensures
        (match result {
            Some(name) => Some(name@),
            None => None,
        }) == destructive_name(word_views(words@)),
{
    let index: usize = match effective_command_index(words) {
        Some(index) => index,
        None => return None,
    };
    proof {
        lemma_effective_index(word_views(words@), 0);
    }
    let executable = command_basename(words[index].as_str());
    assert(executable@ == basename(word_views(words@)[index as int]));
    if same_text(executable.as_str(), "mkfs") || starts_with(executable.as_str(), "mkfs.") {
        return Some("mkfs");
    }
    let names = destructive_commands();
    let mut i: usize = 0;
    while i < names.len()
        invariant
            i <= names@.len(),
            views(names@) == destructive_names(),
            destructive_name(word_views(words@)) == (if destructive_names().contains(executable@) {
                Some(executable@)
            } else {
                None
            }),
            forall|k: int| 0 <= k < i ==> views(names@)[k] != executable@,
        decreases names@.len() - i,
    {
        if same_text(names[i], executable.as_str()) {
            assert(views(names@)[i as int] == executable@);
            return Some(names[i]);
        }
        i += 1;
    }
    None
}

} // verus!
