//! Laws of the commands in a tree: none is missing from their list, and what their words and
//! their names are, child by child.
use vstd::prelude::*;

use crate::commands::{
    first_word, is_prefix_assignment, name_among, name_of, own_command, simple_commands,
    simple_commands_among, words_among, words_of,
};
use crate::laws::reports::{nodes_among, nodes_of};
use crate::laws::texts::{all_blank, is_blank, law_classes_of_characters, law_trimming_takes_blanks};
use crate::syntax::{field_child, first_in_field, Syntax};
use crate::text::{strip_back, strip_front, trimmed, Edge};

verus! {

/// The text holds something besides blanks.
pub open spec fn says_something(text: Seq<char>) -> bool {
    exists|i: int| 0 <= i < text.len() && !is_blank(#[trigger] text[i])
}

proof fn lemma_strip_front_leaves(s: Seq<char>, i: int)
    requires
        0 <= i < s.len(),
        !Edge::Whitespace.covers(s[i]),
    ensures
        strip_front(s, Edge::Whitespace).len() > 0,
        !Edge::Whitespace.covers(strip_front(s, Edge::Whitespace)[0]),
    decreases s.len(),
{
    if Edge::Whitespace.covers(s[0]) {
        assert(s.drop_first()[i - 1] == s[i]);
        lemma_strip_front_leaves(s.drop_first(), i - 1);
    }
}

proof fn lemma_strip_back_leaves(s: Seq<char>)
    requires
        s.len() > 0,
        !Edge::Whitespace.covers(s[0]),
    ensures
        strip_back(s, Edge::Whitespace).len() > 0,
    decreases s.len(),
{
    if Edge::Whitespace.covers(s.last()) {
        assert(s.drop_last()[0] == s[0]);
        lemma_strip_back_leaves(s.drop_last());
    }
}

/// Trimming leaves nothing exactly of a text of blanks.
pub proof fn law_trimming_leaves_what_is_said(text: Seq<char>)
    ensures
        trimmed(text).len() > 0 <==> says_something(text),
{
    let nothing = Seq::<char>::empty();
    if says_something(text) {
        let i = choose|i: int| 0 <= i < text.len() && !is_blank(#[trigger] text[i]);
        law_classes_of_characters(text[i]);
        lemma_strip_front_leaves(text, i);
        lemma_strip_back_leaves(strip_front(text, Edge::Whitespace));
    } else {
        assert(all_blank(text));
        law_trimming_takes_blanks(text, nothing, nothing);
        assert(text + nothing + nothing =~= text);
    }
}

/// The node at the end of a path from `root`: each step is the index of a child.
pub open spec fn node_at(root: Syntax, path: Seq<int>) -> Syntax
    decreases path.len(),
{
    if path.len() == 0 {
        root
    } else {
        node_at(root.children[path[0]], path.drop_first())
    }
}

/// The path leads through children that named rules made.
pub open spec fn is_named_path(root: Syntax, path: Seq<int>) -> bool
    decreases path.len(),
{
    path.len() > 0 ==> {
        &&& 0 <= path[0] < root.children.len()
        &&& root.children[path[0]].named
        &&& is_named_path(root.children[path[0]], path.drop_first())
    }
}

/// The node invokes a command, and has a word.
pub open spec fn invokes(node: Syntax) -> bool {
    (node.kind == "command"@ || node.kind == "simple_command"@) && words_of(node).len() > 0
}

proof fn lemma_commands_of_child(children: Seq<Syntax>, n: nat, i: int, words: Seq<Seq<char>>)
    requires
        0 <= i < n <= children.len(),
        children[i].named,
        simple_commands(children[i]).contains(words),
    ensures
        simple_commands_among(children, n).contains(words),
    decreases n,
{
    let before = simple_commands_among(children, (n - 1) as nat);
    let all = simple_commands_among(children, n);
    if i == n - 1 {
        let own = simple_commands(children[i]);
        let k = choose|k: int| 0 <= k < own.len() && own[k] == words;
        assert(all[before.len() + k] == words);
    } else {
        lemma_commands_of_child(children, (n - 1) as nat, i, words);
        let k = choose|k: int| 0 <= k < before.len() && before[k] == words;
        assert(all[k] == words);
    }
}

/// No command is missing from the list: one that can be reached through named nodes, of whatever
/// kinds, is in it with its words.
pub proof fn law_no_command_is_missing(root: Syntax, path: Seq<int>)
    requires
        is_named_path(root, path),
        invokes(node_at(root, path)),
    ensures
        simple_commands(root).contains(words_of(node_at(root, path))),
    decreases path.len(),
{
    let own = own_command(root);
    let below = simple_commands_among(root.children, root.children.len());
    let words = words_of(node_at(root, path));
    if path.len() == 0 {
        assert(simple_commands(root)[0] == words);
    } else {
        law_no_command_is_missing(root.children[path[0]], path.drop_first());
        lemma_commands_of_child(root.children, root.children.len(), path[0], words);
        let k = choose|k: int| 0 <= k < below.len() && below[k] == words;
        assert(simple_commands(root)[own.len() + k] == words);
    }
}

/// The nodes of a tree that can be reached through named nodes, each before its descendants.
pub open spec fn named_nodes_of(node: Syntax) -> Seq<Syntax>
    decreases node, 0nat,
{
    seq![node] + named_nodes_among(node.children, node.children.len())
}

/// The nodes of the first `n` of `children` that can be reached through named nodes.
pub open spec fn named_nodes_among(children: Seq<Syntax>, n: nat) -> Seq<Syntax>
    decreases children, n,
{
    if n == 0 || n > children.len() {
        Seq::empty()
    } else if children[n - 1].named {
        named_nodes_among(children, (n - 1) as nat) + named_nodes_of(children[n - 1])
    } else {
        named_nodes_among(children, (n - 1) as nat)
    }
}

/// The words of those of `nodes` that invoke a command.
pub open spec fn words_of_commands(nodes: Seq<Syntax>) -> Seq<Seq<Seq<char>>>
    decreases nodes.len(),
{
    if nodes.len() == 0 {
        Seq::empty()
    } else if invokes(nodes.last()) {
        words_of_commands(nodes.drop_last()).push(words_of(nodes.last()))
    } else {
        words_of_commands(nodes.drop_last())
    }
}

proof fn lemma_words_of_commands_join(first: Seq<Syntax>, second: Seq<Syntax>)
    ensures
        words_of_commands(first + second) == words_of_commands(first) + words_of_commands(second),
    decreases second.len(),
{
    if second.len() == 0 {
        assert(first + second =~= first);
        assert(words_of_commands(first) + words_of_commands(second) =~= words_of_commands(first));
    } else {
        lemma_words_of_commands_join(first, second.drop_last());
        assert((first + second).drop_last() =~= first + second.drop_last());
        assert((first + second).last() == second.last());
        assert(words_of_commands(first + second) =~= words_of_commands(first)
            + words_of_commands(second));
    }
}

/// The list has the words of each command among the nodes that can be reached through named
/// nodes, in their order, and nothing else.
pub proof fn law_commands_are_listed_in_order(root: Syntax)
    ensures
        simple_commands(root) == words_of_commands(named_nodes_of(root)),
    decreases root, 0nat,
{
    let below = named_nodes_among(root.children, root.children.len());
    lemma_commands_among_are_listed(root.children, root.children.len());
    lemma_words_of_commands_join(seq![root], below);
    assert(seq![root].drop_last() =~= Seq::<Syntax>::empty());
    assert(seq![root].last() == root);
    assert(words_of_commands(seq![root].drop_last()) =~= Seq::empty());
    assert(words_of_commands(seq![root]) =~= own_command(root));
}

proof fn lemma_commands_among_are_listed(children: Seq<Syntax>, n: nat)
    ensures
        simple_commands_among(children, n) == words_of_commands(named_nodes_among(children, n)),
    decreases children, n,
{
    if 0 < n <= children.len() {
        lemma_commands_among_are_listed(children, (n - 1) as nat);
        law_commands_are_listed_in_order(children[n - 1]);
        lemma_words_of_commands_join(
            named_nodes_among(children, (n - 1) as nat),
            named_nodes_of(children[n - 1]),
        );
        assert(simple_commands_among(children, n) =~= words_of_commands(
            named_nodes_among(children, n),
        ));
    }
}

/// Named rules made every node below `node`.
pub open spec fn is_named_throughout(node: Syntax) -> bool
    decreases node,
{
    forall|i: int|
        0 <= i < node.children.len() ==> (#[trigger] node.children[i]).named
            && is_named_throughout(node.children[i])
}

/// Where all nodes are named, every node of the tree is looked at.
pub proof fn law_all_named_nodes_are_reached(root: Syntax)
    requires
        is_named_throughout(root),
    ensures
        named_nodes_of(root) == nodes_of(root),
        simple_commands(root) == words_of_commands(nodes_of(root)),
    decreases root, 0nat,
{
    lemma_all_named_are_reached(root.children, root.children.len());
    law_commands_are_listed_in_order(root);
}

proof fn lemma_all_named_are_reached(children: Seq<Syntax>, n: nat)
    requires
        n <= children.len(),
        forall|i: int|
            0 <= i < children.len() ==> (#[trigger] children[i]).named && is_named_throughout(
                children[i],
            ),
    ensures
        named_nodes_among(children, n) == nodes_among(children, n),
    decreases children, n,
{
    if n > 0 {
        lemma_all_named_are_reached(children, (n - 1) as nat);
        law_all_named_nodes_are_reached(children[n - 1]);
    }
}

/// The words of a command with these children.
pub open spec fn words_in(children: Seq<Syntax>) -> Seq<Seq<char>> {
    words_among(children, children.len())
}

/// A dollar sign by itself, which no named rule made.
pub open spec fn is_lone_dollar(node: Syntax) -> bool {
    !node.named && node.kind == "$"@
}

proof fn lemma_words_of_prefix(first: Seq<Syntax>, second: Seq<Syntax>, n: nat)
    requires
        n <= first.len(),
        first.len() > 0 && second.len() > 0 ==> !(is_lone_dollar(first.last()) && second[0].kind
            == "string"@),
    ensures
        words_among(first + second, n) == words_among(first, n),
    decreases n,
{
    if n > 0 {
        lemma_words_of_prefix(first, second, (n - 1) as nat);
        let all = first + second;
        assert(all[n - 1] == first[n - 1]);
        if n < first.len() {
            assert(all[n as int] == first[n as int]);
        } else if second.len() > 0 {
            assert(all[n as int] == second[0]);
        }
    }
}

proof fn lemma_words_join(first: Seq<Syntax>, second: Seq<Syntax>, n: nat)
    requires
        n <= second.len(),
        first.len() > 0 && second.len() > 0 ==> !(is_lone_dollar(first.last()) && second[0].kind
            == "string"@),
    ensures
        words_among(first + second, first.len() + n) == words_in(first) + words_among(second, n),
    decreases n,
{
    let all = first + second;
    if n == 0 {
        lemma_words_of_prefix(first, second, first.len());
        assert(words_in(first) + words_among(second, 0) =~= words_in(first));
    } else {
        lemma_words_join(first, second, (n - 1) as nat);
        assert(all[first.len() + n - 1] == second[n - 1]);
        if n < second.len() {
            assert(all[(first.len() + n) as int] == second[n as int]);
        }
        assert(words_among(all, first.len() + n) =~= words_in(first) + words_among(second, n));
    }
}

/// The words of a command are those of its children, one after the other, however many there
/// are.
pub proof fn law_words_are_those_of_the_children(first: Seq<Syntax>, second: Seq<Syntax>)
    requires
        first.len() > 0 && second.len() > 0 ==> !(is_lone_dollar(first.last()) && second[0].kind
            == "string"@),
    ensures
        words_in(first + second) == words_in(first) + words_in(second),
{
    lemma_words_join(first, second, second.len());
}

/// A child is a word exactly where its parent holds it as the name or an argument and it says
/// something; then the word is its text without the blanks around it.
pub proof fn law_word_of_a_child(child: Syntax)
    ensures
        words_in(seq![child]) == (if (child.field == Some("name"@) || child.field == Some(
            "argument"@,
        )) && says_something(child.text) {
            seq![trimmed(child.text)]
        } else {
            Seq::<Seq<char>>::empty()
        }),
{
    law_trimming_leaves_what_is_said(child.text);
    let children = seq![child];
    assert(children[0] == child);
    assert(words_among(children, 0) =~= Seq::<Seq<char>>::empty());
    assert(words_in(children) =~= (if (child.field == Some("name"@) || child.field == Some(
        "argument"@,
    )) && says_something(child.text) {
        seq![trimmed(child.text)]
    } else {
        Seq::<Seq<char>>::empty()
    }));
}

/// The dollar sign in front of a string is no word: the string is.
pub proof fn law_dollar_belongs_to_its_string(dollar: Syntax, string: Syntax)
    requires
        is_lone_dollar(dollar),
        string.kind == "string"@,
    ensures
        words_in(seq![dollar, string]) == words_in(seq![string]),
{
    let both = seq![dollar, string];
    assert(both[0] == dollar && both[1] == string);
    assert(seq![string][0] == string);
    assert(words_among(both, 0) =~= Seq::<Seq<char>>::empty());
    assert(words_among(both, 1) =~= Seq::<Seq<char>>::empty());
    assert(words_among(seq![string], 0) =~= Seq::<Seq<char>>::empty());
    assert(words_among(both, 2) =~= words_among(seq![string], 1));
}

/// The words of a node are those of its children.
pub proof fn law_words_of_a_node(node: Syntax)
    ensures
        words_of(node) == words_in(node.children),
{
}

/// A node that is a word and says something.
pub open spec fn is_spoken_word(node: Syntax) -> bool {
    node.kind == "word"@ && says_something(node.text)
}

/// The word looks like an assignment in front of a command: there is an equals sign in it, but
/// not at the start, no slash, and no dash at the start.
pub open spec fn looks_like_assignment(word: Seq<char>) -> bool {
    &&& word.contains('=')
    &&& !word.contains('/')
    &&& word[0] != '=' && word[0] != '-'
}

proof fn lemma_prefix_assignment(word: Seq<char>)
    ensures
        is_prefix_assignment(word) <==> looks_like_assignment(word),
{
    reveal_strlit("=");
    reveal_strlit("-");
    assert("="@ =~= seq!['=']);
    assert("-"@ =~= seq!['-']);
    if word.len() > 0 {
        assert(word.subrange(0, 1)[0] == word[0]);
        assert(word.subrange(0, 1) =~= seq![word[0]]);
    }
}

proof fn lemma_kinds_of_names()
    ensures
        "word"@ != "command_name"@,
{
    reveal_strlit("word");
    reveal_strlit("command_name");
    assert("word"@.len() != "command_name"@.len());
}

/// Of the children of a command, one is its name: the first that names it.
pub open spec fn gives_no_name(child: Syntax) -> bool {
    &&& child.kind == "command_name"@ ==> forall|i: int|
        0 <= i < child.children.len() ==> !is_spoken_word(#[trigger] child.children[i])
    &&& is_spoken_word(child) ==> looks_like_assignment(trimmed(child.text))
}

proof fn lemma_first_word_none(nodes: Seq<Syntax>)
    requires
        forall|i: int| 0 <= i < nodes.len() ==> !is_spoken_word(#[trigger] nodes[i]),
    ensures
        first_word(nodes) is None,
    decreases nodes.len(),
{
    if nodes.len() > 0 {
        assert(!is_spoken_word(nodes[0]));
        law_trimming_leaves_what_is_said(nodes[0].text);
        assert forall|i: int| 0 <= i < nodes.drop_first().len() implies !is_spoken_word(
            #[trigger] nodes.drop_first()[i],
        ) by {
            assert(nodes.drop_first()[i] == nodes[i + 1]);
        }
        lemma_first_word_none(nodes.drop_first());
    }
}

proof fn lemma_first_word_at(nodes: Seq<Syntax>, at: int)
    requires
        0 <= at < nodes.len(),
        is_spoken_word(nodes[at]),
        forall|i: int| 0 <= i < at ==> !is_spoken_word(#[trigger] nodes[i]),
    ensures
        first_word(nodes) == Some(trimmed(nodes[at].text)),
    decreases at,
{
    law_trimming_leaves_what_is_said(nodes[0].text);
    if at > 0 {
        assert(!is_spoken_word(nodes[0]));
        assert forall|i: int| 0 <= i < at - 1 implies !is_spoken_word(
            #[trigger] nodes.drop_first()[i],
        ) by {
            assert(nodes.drop_first()[i] == nodes[i + 1]);
        }
        assert(nodes.drop_first()[at - 1] == nodes[at]);
        lemma_first_word_at(nodes.drop_first(), at - 1);
    }
}

/// Children that give no name are passed over, and a command without any other has none.
pub proof fn law_nameless_children_are_passed_over(child: Syntax, rest: Seq<Syntax>)
    requires
        gives_no_name(child),
    ensures
        name_among(seq![child] + rest) == name_among(rest),
        name_among(Seq::empty()) is None,
{
    let all = seq![child] + rest;
    assert(all[0] == child);
    assert(all.drop_first() =~= rest);
    law_trimming_leaves_what_is_said(child.text);
    lemma_prefix_assignment(trimmed(child.text));
    if child.kind == "command_name"@ {
        lemma_first_word_none(child.children);
        lemma_kinds_of_names();
    }
}

/// The name of a command is the first word that says something, in its name node, whatever
/// follows.
pub proof fn law_name_stands_in_the_name_node(child: Syntax, rest: Seq<Syntax>, at: int)
    requires
        child.kind == "command_name"@,
        0 <= at < child.children.len(),
        is_spoken_word(child.children[at]),
        forall|i: int| 0 <= i < at ==> !is_spoken_word(#[trigger] child.children[i]),
    ensures
        name_among(seq![child] + rest) == Some(trimmed(child.children[at].text)),
{
    let all = seq![child] + rest;
    assert(all[0] == child);
    lemma_first_word_at(child.children, at);
}

/// The name of a node is that among its children.
pub proof fn law_name_of_a_node(node: Syntax)
    ensures
        name_of(node) == name_among(node.children),
{
}

/// Or it is a word of the command itself that says something and does not look like an
/// assignment, whatever follows.
pub proof fn law_name_is_a_plain_word(child: Syntax, rest: Seq<Syntax>)
    requires
        is_spoken_word(child),
        !looks_like_assignment(trimmed(child.text)),
    ensures
        name_among(seq![child] + rest) == Some(trimmed(child.text)),
{
    let all = seq![child] + rest;
    assert(all[0] == child);
    law_trimming_leaves_what_is_said(child.text);
    lemma_prefix_assignment(trimmed(child.text));
    lemma_kinds_of_names();
}

/// The child under a field is the first that its parent holds under it.
pub proof fn law_first_child_under_a_field(node: Syntax, field: Seq<char>, at: int)
    requires
        0 <= at <= node.children.len(),
        forall|i: int| 0 <= i < at ==> (#[trigger] node.children[i]).field != Some(field),
        at < node.children.len() ==> node.children[at].field == Some(field),
    ensures
        field_child(node, field) == (if at < node.children.len() {
            Some(node.children[at])
        } else {
            None
        }),
{
    lemma_first_in_field_at(node.children, field, at);
}

proof fn lemma_first_in_field_at(nodes: Seq<Syntax>, field: Seq<char>, at: int)
    requires
        0 <= at <= nodes.len(),
        forall|i: int| 0 <= i < at ==> (#[trigger] nodes[i]).field != Some(field),
        at < nodes.len() ==> nodes[at].field == Some(field),
    ensures
        first_in_field(nodes, field) == (if at < nodes.len() {
            Some(nodes[at])
        } else {
            None
        }),
    decreases nodes.len(),
{
    if at > 0 {
        assert(nodes[0].field != Some(field));
        assert forall|i: int| 0 <= i < at - 1 implies (#[trigger] nodes.drop_first()[i]).field
            != Some(field) by {
            assert(nodes.drop_first()[i] == nodes[i + 1]);
        }
        lemma_first_in_field_at(nodes.drop_first(), field, at - 1);
    }
}

} // verus!
