//! Laws of the list of commands in a syntax tree.
use vstd::prelude::*;

use crate::commands::{
    is_command_list_of, is_command_word, is_string_prefix, own_command, simple_commands,
    simple_commands_among, words_among, words_of,
};
use crate::laws::words::law_stripping_is_idempotent;
use crate::pieces::{commands_drawn_from, lemma_commands_drawn};
use crate::syntax::{is_syntax_of, Syntax};
use crate::text::{trimmed, Edge};

verus! {

/// A word that holds something, without whitespace around it.
pub open spec fn is_clean_word(word: Seq<char>) -> bool {
    word.len() > 0 && trimmed(word) == word
}

/// A command with a program, all of whose words are clean.
pub open spec fn is_clean_command(words: Seq<Seq<char>>) -> bool {
    words.len() > 0 && forall|i: int| 0 <= i < words.len() ==> is_clean_word(#[trigger] words[i])
}

pub open spec fn are_clean_commands(commands: Seq<Seq<Seq<char>>>) -> bool {
    forall|i: int| 0 <= i < commands.len() ==> is_clean_command(#[trigger] commands[i])
}

proof fn lemma_clean_words(children: Seq<Syntax>, n: nat)
    ensures
        forall|i: int|
            0 <= i < words_among(children, n).len() ==> is_clean_word(
                #[trigger] words_among(children, n)[i],
            ),
    decreases n,
{
    if 0 < n <= children.len() {
        lemma_clean_words(children, (n - 1) as nat);
        law_stripping_is_idempotent(children[n - 1].text, Edge::Whitespace);
        let before = words_among(children, (n - 1) as nat);
        assert forall|i: int| 0 <= i < words_among(children, n).len() implies is_clean_word(
            #[trigger] words_among(children, n)[i],
        ) by {
            if i < before.len() {
                assert(words_among(children, n)[i] == before[i]);
            }
        }
    }
}

/// Every command listed for a tree has a program, and none of its words is empty or has
/// whitespace around it.
pub proof fn law_commands_are_clean(node: Syntax)
    ensures
        are_clean_commands(simple_commands(node)),
    decreases node, 0nat,
{
    lemma_clean_words(node.children, node.children.len());
    lemma_commands_among_are_clean(node.children, node.children.len());
    let own = own_command(node);
    let inner = simple_commands_among(node.children, node.children.len());
    assert forall|i: int| 0 <= i < simple_commands(node).len() implies is_clean_command(
        #[trigger] simple_commands(node)[i],
    ) by {
        if i < own.len() {
            assert(simple_commands(node)[i] == words_of(node));
        } else {
            assert(simple_commands(node)[i] == inner[i - own.len()]);
        }
    }
}

proof fn lemma_commands_among_are_clean(children: Seq<Syntax>, n: nat)
    ensures
        are_clean_commands(simple_commands_among(children, n)),
    decreases children, n,
{
    if 0 < n <= children.len() {
        lemma_commands_among_are_clean(children, (n - 1) as nat);
        law_commands_are_clean(children[n - 1]);
    }
}

proof fn lemma_word_is_listed(children: Seq<Syntax>, n: nat, index: int)
    requires
        0 <= index < n <= children.len(),
        is_command_word(children[index]),
        !is_string_prefix(children, index),
        trimmed(children[index].text).len() > 0,
    ensures
        words_among(children, n).contains(trimmed(children[index].text)),
    decreases n,
{
    let word = trimmed(children[index].text);
    let words = words_among(children, n);
    if index == n - 1 {
        assert(words.last() == word);
    } else {
        let before = words_among(children, (n - 1) as nat);
        lemma_word_is_listed(children, (n - 1) as nat, index);
        let k = choose|k: int| 0 <= k < before.len() && before[k] == word;
        assert(words[k] == word);
    }
}

/// No argument of a command is missing from its words, whatever kind of node it is, unless it is
/// a `$` before a string, which counts as the start of that string.
pub proof fn law_no_argument_is_missing(node: Syntax, index: int)
    requires
        0 <= index < node.children.len(),
        is_command_word(node.children[index]),
        !is_string_prefix(node.children, index),
        trimmed(node.children[index].text).len() > 0,
    ensures
        words_of(node).contains(trimmed(node.children[index].text)),
{
    lemma_word_is_listed(node.children, node.children.len(), index);
}

/// The words listed for a command are pieces of it, each entry has a program, and no word is
/// empty or has whitespace around it.
pub proof fn law_command_list(command: Seq<char>, commands: Seq<Seq<Seq<char>>>)
    requires
        is_command_list_of(command, Some(commands)),
    ensures
        are_clean_commands(commands),
        commands_drawn_from(commands, command),
{
    let outcome = choose|outcome: Option<Syntax>| #[trigger]
        is_syntax_of(command, outcome) && Some(commands) == (match outcome {
            Some(root) => Some(simple_commands(root)),
            None => None,
        });
    let root = outcome->0;
    law_commands_are_clean(root);
    lemma_commands_drawn(root, command);
}

} // verus!
