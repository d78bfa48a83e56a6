//! The commands in a syntax tree: their words and their names.
use vstd::prelude::*;
use vstd::string::*;

use crate::grammar::is_parseable;
use crate::syntax::{in_field, is_syntax_of, optional_node, parse_bash, Syntax, SyntaxNode};
use crate::text::{contains_char, same_text, starts_with, trim, trimmed};
use crate::words::word_views;

verus! {

/// The node is an invocation of a command.
pub open spec fn is_command(node: Syntax) -> bool {
    node.kind == "command"@ || node.kind == "simple_command"@
}

/// Whether the node is an invocation of a command.
pub fn is_command_node(node: &SyntaxNode) -> (result: bool)
    ensures
        result == is_command(node@),
{
    same_text(node.kind.as_str(), "command") || same_text(node.kind.as_str(), "simple_command")
}

/// The node, a child of a command, is one of its words: the grammar holds the executable in the
/// field `name`, and each argument, of whatever kind, in the field `argument`.
pub open spec fn is_command_word(node: Syntax) -> bool {
    in_field(node, "name"@) || in_field(node, "argument"@)
}

fn is_command_word_node(node: &SyntaxNode) -> (result: bool)
    ensures
        result == is_command_word(node@),
{
    match &node.field {
        Some(field) => same_text(field, "name") || same_text(field, "argument"),
        None => false,
    }
}

/// The child at `i` is the `$` that the grammar splits off a string such as `$"..."`: the word is
/// the string behind it. The tree does not show whether a space stands between the two.
pub open spec fn is_string_prefix(children: Seq<Syntax>, i: int) -> bool {
    &&& !children[i].named
    &&& children[i].kind == "$"@
    &&& i + 1 < children.len()
    &&& children[i + 1].kind == "string"@
}

fn is_string_prefix_at(node: &SyntaxNode, i: usize) -> (result: bool)
    requires
        i < node@.children.len(),
    ensures
        result == is_string_prefix(node@.children, i as int),
{
    let child = &node.children[i];
    assert(child@ == node@.children[i as int]);
    if child.named || !same_text(child.kind.as_str(), "$") || node.children.len() - i < 2 {
        return false;
    }
    let next = &node.children[i + 1];
    assert(next@ == node@.children[i + 1]);
    same_text(next.kind.as_str(), "string")
}

/// The words among the first `n` of `children`: their texts, without the whitespace around
/// them, where anything is left.
pub open spec fn words_among(children: Seq<Syntax>, n: nat) -> Seq<Seq<char>>
    decreases n,
{
    if n == 0 || n > children.len() {
        Seq::empty()
    } else {
        let words = words_among(children, (n - 1) as nat);
        let child = children[n - 1];
        if is_command_word(child) && !is_string_prefix(children, n - 1) && trimmed(
            child.text,
        ).len() > 0 {
            words.push(trimmed(child.text))
        } else {
            words
        }
    }
}

/// The words of a command.
pub open spec fn words_of(node: Syntax) -> Seq<Seq<char>> {
    words_among(node.children, node.children.len())
}

/// The node's own command, as a list, empty where it is no command or has no word.
pub open spec fn own_command(node: Syntax) -> Seq<Seq<Seq<char>>> {
    if is_command(node) && words_of(node).len() > 0 {
        seq![words_of(node)]
    } else {
        Seq::empty()
    }
}

/// The commands in the tree below and at `node`, each as its words, an outer command before
/// those inside it. Nodes that no named rule made are not entered.
pub open spec fn simple_commands(node: Syntax) -> Seq<Seq<Seq<char>>>
    decreases node, 0nat,
{
    own_command(node) + simple_commands_among(node.children, node.children.len())
}

/// The commands in the first `n` of `children`.
pub open spec fn simple_commands_among(children: Seq<Syntax>, n: nat) -> Seq<Seq<Seq<char>>>
    decreases children, n,
{
    if n == 0 || n > children.len() {
        Seq::empty()
    } else {
        simple_commands_among(children, (n - 1) as nat) + (if children[n - 1].named {
            simple_commands(children[n - 1])
        } else {
            Seq::empty()
        })
    }
}

/// The texts of a list of commands.
pub open spec fn command_views(commands: Seq<Vec<String>>) -> Seq<Seq<Seq<char>>> {
    commands.map_values(|words: Vec<String>| word_views(words@))
}

/// The words of a command.
pub fn command_words(node: &SyntaxNode) -> (result: Vec<String>)
    ensures
        word_views(result@) == words_of(node@),
{
    let ghost children = node@.children;
    let mut words: Vec<String> = Vec::new();
    let mut i: usize = 0;
    while i < node.children.len()
        invariant
            i <= node.children@.len(),
            children == node@.children,
            word_views(words@) =~= words_among(children, i as nat),
        decreases node.children@.len() - i,
    {
        let child = &node.children[i];
        assert(child@ == children[i as int]);
        if is_command_word_node(child) && !is_string_prefix_at(node, i) {
            let text = trim(child.text.as_str());
            if !text.is_empty() {
                let ghost before = words@;
                let word = text.to_string();
                words.push(word);
                assert(word_views(words@) =~= word_views(before).push(word@));
            }
        }
        i += 1;
    }
    words
}

/// Appends the commands in the tree below and at `node`, each as its words.
pub fn collect_simple_commands(node: &SyntaxNode, commands: &mut Vec<Vec<String>>)
    ensures
        command_views(final(commands)@) == command_views(old(commands)@) + simple_commands(node@),
    decreases node,
{
    let ghost children = node@.children;
    if is_command_node(node) {
        let words = command_words(node);
        if words.len() > 0 {
            let ghost before = commands@;
            commands.push(words);
            assert(command_views(commands@) =~= command_views(before).push(word_views(words@)));
        }
    }
    assert(command_views(commands@) =~= command_views(old(commands)@) + own_command(node@));
    let mut i: usize = 0;
    while i < node.children.len()
        invariant
            i <= node.children@.len(),
            children == node@.children,
            command_views(commands@) =~= command_views(old(commands)@) + own_command(node@)
                + simple_commands_among(children, i as nat),
        decreases node.children@.len() - i,
    {
        let child = &node.children[i];
        assert(child@ == children[i as int]);
        if child.named {
            collect_simple_commands(child, commands);
        }
        i += 1;
    }
}

pub open spec fn optional_commands(commands: Option<Vec<Vec<String>>>) -> Option<
    Seq<Seq<Seq<char>>>,
> {
    match commands {
        Some(commands) => Some(command_views(commands@)),
        None => None,
    }
}

/// What listing the commands of `command` may give: the commands of a syntax tree that parsing
/// it may give, or nothing where that gives none.
pub open spec fn is_command_list_of(
    command: Seq<char>,
    commands: Option<Seq<Seq<Seq<char>>>>,
) -> bool {
    exists|outcome: Option<Syntax>| #[trigger]
        is_syntax_of(command, outcome) && commands == (match outcome {
            Some(root) => Some(simple_commands(root)),
            None => None,
        })
}

/// The commands that `command` invokes, as the shell's grammar sees them. Each entry is
/// `[executable, argument, ...]`, with every argument of the command; the separators between
/// commands are in none of them, nor are assignments and the targets of redirections. Of
/// `$"..."`, which the grammar splits, the string is listed. A `$` that is an argument by itself
/// and stands before a string looks the same in the tree, and is not listed either.
pub fn simple_command_words(command: &str) -> (result: Option<Vec<Vec<String>>>)
    requires
        is_parseable(command@),
    ensures
        is_command_list_of(command@, optional_commands(result)),
{
    let parsed = parse_bash(command);
    let ghost outcome = optional_node(parsed);
    assert(is_syntax_of(command@, outcome));
    match parsed {
        Some(root) => {
            let mut commands: Vec<Vec<String>> = Vec::new();
            collect_simple_commands(&root, &mut commands);
            assert(command_views(commands@) =~= simple_commands(root@));
            Some(commands)
        },
        None => None,
    }
}

/// The first of `nodes` that is a word with any text, without the whitespace around it.
pub open spec fn first_word(nodes: Seq<Syntax>) -> Option<Seq<char>>
    decreases nodes.len(),
{
    if nodes.len() == 0 {
        None
    } else if nodes[0].kind == "word"@ && trimmed(nodes[0].text).len() > 0 {
        Some(trimmed(nodes[0].text))
    } else {
        first_word(nodes.drop_first())
    }
}

/// A word before a command's name that assigns to a variable: it holds `=`, but is no flag and
/// no path.
pub open spec fn is_prefix_assignment(word: Seq<char>) -> bool {
    word.contains('=') && !"="@.is_prefix_of(word) && !"-"@.is_prefix_of(word) && !word.contains(
        '/',
    )
}

/// The name of a command with the given children: the first word in a `command_name` node, or
/// a word among the children that is no assignment.
pub open spec fn name_among(children: Seq<Syntax>) -> Option<Seq<char>>
    decreases children.len(),
{
    if children.len() == 0 {
        None
    } else {
        let child = children[0];
        if child.kind == "command_name"@ && first_word(child.children) is Some {
            first_word(child.children)
        } else if child.kind == "word"@ && trimmed(child.text).len() > 0 && !is_prefix_assignment(
            trimmed(child.text),
        ) {
            Some(trimmed(child.text))
        } else {
            name_among(children.drop_first())
        }
    }
}

/// The name of the command that a node invokes.
pub open spec fn name_of(node: Syntax) -> Option<Seq<char>> {
    name_among(node.children)
}

pub open spec fn optional_name(name: Option<String>) -> Option<Seq<char>> {
    match name {
        Some(name) => Some(name@),
        None => None,
    }
}

fn first_word_of(node: &SyntaxNode) -> (result: Option<String>)
    ensures
        optional_name(result) == first_word(node@.children),
{
    let ghost children = node@.children;
    let mut i: usize = 0;
    assert(children.skip(0) =~= children);
    while i < node.children.len()
        invariant
            i <= node.children@.len(),
            children == node@.children,
            first_word(children) == first_word(children.skip(i as int)),
        decreases node.children@.len() - i,
    {
        let child = &node.children[i];
        assert(child@ == children.skip(i as int)[0]);
        assert(children.skip(i as int).drop_first() =~= children.skip(i + 1));
        if same_text(child.kind.as_str(), "word") {
            let word = trim(child.text.as_str());
            if !word.is_empty() {
                return Some(word.to_string());
            }
        }
        i += 1;
    }
    None
}

/// The name of the command that a node invokes.
pub fn command_name(node: &SyntaxNode) -> (result: Option<String>)
    ensures
        optional_name(result) == name_of(node@),
{
    proof {
        reveal_strlit("word");
        reveal_strlit("command_name");
        assert("word"@.len() != "command_name"@.len());
    }
    let ghost children = node@.children;
    let mut i: usize = 0;
    assert(children.skip(0) =~= children);
    while i < node.children.len()
        invariant
            i <= node.children@.len(),
            children == node@.children,
            "word"@.len() != "command_name"@.len(),
            name_among(children) == name_among(children.skip(i as int)),
        decreases node.children@.len() - i,
    {
        let child = &node.children[i];
        assert(child@ == children.skip(i as int)[0]);
        assert(children.skip(i as int).drop_first() =~= children.skip(i + 1));
        if same_text(child.kind.as_str(), "command_name") {
            let inner = first_word_of(child);
            if inner.is_some() {
                return inner;
            }
        } else if same_text(child.kind.as_str(), "word") {
            let word = trim(child.text.as_str());
            let assignment = contains_char(word, '=') && !starts_with(word, "=") && !starts_with(
                word,
                "-",
            ) && !contains_char(word, '/');
            if !word.is_empty() && !assignment {
                return Some(word.to_string());
            }
        }
        i += 1;
    }
    None
}

} // verus!
