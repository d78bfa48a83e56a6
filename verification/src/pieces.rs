//! Pieces of a text: what trimming and unquoting leave is a piece, and a piece can be parsed, and
//! is in ASCII, where the text can be and is.
use vstd::prelude::*;
use vstd::utf8::*;

use crate::commands::{
    own_command, simple_commands, simple_commands_among, words_among, words_of,
};
use crate::grammar::{is_parseable, is_range_char, is_wide_in_range};
use crate::nested::{nested_script, option_name_count, script_in_arguments, Nested};
use crate::syntax::{drawn_from, Syntax};
use crate::text::{byte_len, is_piece_of, strip_back, strip_front, stripped, trimmed, Edge};
use crate::words::{effective_index, lemma_effective_index, unquoted};

verus! {

proof fn lemma_encode_concat(first: Seq<char>, second: Seq<char>)
    ensures
        encode_utf8(first + second) == encode_utf8(first) + encode_utf8(second),
    decreases first.len(),
{
    if first.len() == 0 {
        assert(first + second =~= second);
        assert(encode_utf8(first) =~= Seq::empty());
    } else {
        assert((first + second).drop_first() =~= first.drop_first() + second);
        lemma_encode_concat(first.drop_first(), second);
    }
}

proof fn lemma_piece_byte_len(part: Seq<char>, s: Seq<char>)
    requires
        is_piece_of(part, s),
    ensures
        byte_len(part) <= byte_len(s),
{
    let (i, j) = choose|i: int, j: int|
        0 <= i <= j <= s.len() && part == #[trigger] s.subrange(i, j);
    let head = s.subrange(0, i);
    let tail = s.subrange(j, s.len() as int);
    lemma_encode_concat(head, part);
    lemma_encode_concat(head + part, tail);
    assert(head + part + tail =~= s);
}

/// The parser can read a piece of what it can read.
pub proof fn lemma_piece_parseable(part: Seq<char>, s: Seq<char>)
    requires
        is_piece_of(part, s),
        is_parseable(s),
    ensures
        is_parseable(part),
{
    lemma_piece_byte_len(part, s);
    let (from, to) = choose|i: int, j: int|
        0 <= i <= j <= s.len() && part == #[trigger] s.subrange(i, j);
    assert forall|i: int, j: int| !#[trigger] is_wide_in_range(part, i, j) by {
        if is_wide_in_range(part, i, j) {
            assert forall|k: int| from + i < k < from + j implies is_range_char(
                #[trigger] s[k],
            ) by {
                assert(s[k] == part[k - from]);
            }
            assert(is_wide_in_range(s, from + i, from + j));
        }
    }
}

/// A piece of a text in ASCII is in ASCII.
pub proof fn lemma_piece_ascii(part: Seq<char>, s: Seq<char>)
    requires
        is_piece_of(part, s),
        is_ascii_chars(s),
    ensures
        is_ascii_chars(part),
{
    let (i, j) = choose|i: int, j: int|
        0 <= i <= j <= s.len() && part == #[trigger] s.subrange(i, j);
    assert forall|k: int| 0 <= k < part.len() implies #[trigger] part[k] == s[i + k] by {}
}

/// A piece of a piece is a piece.
pub proof fn lemma_piece_of_piece(inner: Seq<char>, outer: Seq<char>, s: Seq<char>)
    requires
        is_piece_of(inner, outer),
        is_piece_of(outer, s),
    ensures
        is_piece_of(inner, s),
{
    let (i, j) = choose|i: int, j: int|
        0 <= i <= j <= s.len() && outer == #[trigger] s.subrange(i, j);
    let (k, l) = choose|k: int, l: int|
        0 <= k <= l <= outer.len() && inner == #[trigger] outer.subrange(k, l);
    assert(s.subrange(i + k, i + l) =~= inner);
}

proof fn lemma_strip_front_piece(s: Seq<char>, edge: Edge)
    ensures
        is_piece_of(strip_front(s, edge), s),
    decreases s.len(),
{
    if s.len() > 0 && edge.covers(s[0]) {
        lemma_strip_front_piece(s.drop_first(), edge);
        assert(s.drop_first() == s.subrange(1, s.len() as int));
        lemma_piece_of_piece(strip_front(s, edge), s.drop_first(), s);
    } else {
        assert(s.subrange(0, s.len() as int) =~= s);
    }
}

proof fn lemma_strip_back_piece(s: Seq<char>, edge: Edge)
    ensures
        is_piece_of(strip_back(s, edge), s),
    decreases s.len(),
{
    if s.len() > 0 && edge.covers(s.last()) {
        lemma_strip_back_piece(s.drop_last(), edge);
        assert(s.drop_last() == s.subrange(0, s.len() - 1));
        lemma_piece_of_piece(strip_back(s, edge), s.drop_last(), s);
    } else {
        assert(s.subrange(0, s.len() as int) =~= s);
    }
}

/// What stripping leaves of a text is a piece of it.
pub proof fn lemma_stripped_piece(s: Seq<char>, edge: Edge)
    ensures
        is_piece_of(stripped(s, edge), s),
{
    lemma_strip_front_piece(s, edge);
    lemma_strip_back_piece(strip_front(s, edge), edge);
    lemma_piece_of_piece(stripped(s, edge), strip_front(s, edge), s);
}

/// What unquoting leaves of a word is a piece of it.
pub proof fn lemma_unquoted_piece(raw: Seq<char>)
    ensures
        is_piece_of(unquoted(raw), raw),
{
    lemma_stripped_piece(raw, Edge::Whitespace);
    lemma_stripped_piece(trimmed(raw), Edge::Quote);
    lemma_piece_of_piece(unquoted(raw), trimmed(raw), raw);
}

proof fn lemma_script_in_arguments_piece(words: Seq<Seq<char>>, at: int, s: Seq<char>)
    requires
        0 <= at,
        forall|i: int| 0 <= i < words.len() ==> is_piece_of(#[trigger] words[i], s),
    ensures
        script_in_arguments(words, at) matches Nested::Script(script) ==> is_piece_of(script, s),
    decreases words.len() + 1 - at,
{
    if at < words.len() {
        let flags = unquoted(words[at]).skip(1);
        let next = at + 1 + option_name_count(flags);
        if next < words.len() {
            lemma_unquoted_piece(words[next]);
            lemma_piece_of_piece(unquoted(words[next]), words[next], s);
        }
        lemma_script_in_arguments_piece(words, at + 1, s);
        lemma_script_in_arguments_piece(words, at + 2, s);
        if next <= words.len() {
            lemma_script_in_arguments_piece(words, next, s);
        }
    }
}

/// The script that a command hands to a shell is a piece of any text of which all its words
/// are pieces.
pub proof fn lemma_nested_script_piece(words: Seq<Seq<char>>, s: Seq<char>)
    requires
        forall|i: int| 0 <= i < words.len() ==> is_piece_of(#[trigger] words[i], s),
    ensures
        nested_script(words) matches Nested::Script(script) ==> is_piece_of(script, s),
{
    lemma_effective_index(words, 0);
    if let Some(index) = effective_index(words, 0) {
        lemma_script_in_arguments_piece(words, index + 1, s);
    }
}

/// All words of the commands are pieces of `s`.
pub open spec fn commands_drawn_from(commands: Seq<Seq<Seq<char>>>, s: Seq<char>) -> bool {
    forall|i: int, j: int|
        0 <= i < commands.len() && 0 <= j < commands[i].len() ==> is_piece_of(
            #[trigger] commands[i][j],
            s,
        )
}

proof fn lemma_words_drawn(children: Seq<Syntax>, n: nat, s: Seq<char>)
    requires
        n <= children.len(),
        forall|i: int| 0 <= i < children.len() ==> drawn_from(#[trigger] children[i], s),
    ensures
        forall|j: int|
            0 <= j < words_among(children, n).len() ==> is_piece_of(
                #[trigger] words_among(children, n)[j],
                s,
            ),
    decreases n,
{
    if n > 0 {
        lemma_words_drawn(children, (n - 1) as nat, s);
        let child = children[n - 1];
        assert(drawn_from(child, s));
        lemma_stripped_piece(child.text, Edge::Whitespace);
        lemma_piece_of_piece(trimmed(child.text), child.text, s);
        assert forall|j: int| 0 <= j < words_among(children, n).len() implies is_piece_of(
            #[trigger] words_among(children, n)[j],
            s,
        ) by {
            let before = words_among(children, (n - 1) as nat);
            if j < before.len() {
                assert(words_among(children, n)[j] == before[j]);
            }
        }
    }
}

/// The words of the commands in a tree are pieces of the text that the tree was drawn from.
pub proof fn lemma_commands_drawn(node: Syntax, s: Seq<char>)
    requires
        drawn_from(node, s),
    ensures
        commands_drawn_from(simple_commands(node), s),
    decreases node, 0nat,
{
    lemma_words_drawn(node.children, node.children.len(), s);
    lemma_commands_among_drawn(node.children, node.children.len(), s);
    let own = own_command(node);
    let inner = simple_commands_among(node.children, node.children.len());
    let all = simple_commands(node);
    assert forall|i: int, j: int|
        0 <= i < all.len() && 0 <= j < all[i].len() implies is_piece_of(
        #[trigger] all[i][j],
        s,
    ) by {
        if i < own.len() {
            assert(all[i] == words_of(node));
        } else {
            assert(all[i] == inner[i - own.len()]);
        }
    }
}

proof fn lemma_commands_among_drawn(children: Seq<Syntax>, n: nat, s: Seq<char>)
    requires
        n <= children.len(),
        forall|i: int| 0 <= i < children.len() ==> drawn_from(#[trigger] children[i], s),
    ensures
        commands_drawn_from(simple_commands_among(children, n), s),
    decreases children, n,
{
    if n > 0 {
        lemma_commands_among_drawn(children, (n - 1) as nat, s);
        lemma_commands_drawn(children[n - 1], s);
        let before = simple_commands_among(children, (n - 1) as nat);
        let all = simple_commands_among(children, n);
        assert forall|i: int, j: int|
            0 <= i < all.len() && 0 <= j < all[i].len() implies is_piece_of(
            #[trigger] all[i][j],
            s,
        ) by {
            if i < before.len() {
                assert(all[i] == before[i]);
            } else {
                assert(all[i] == simple_commands(children[n - 1])[i - before.len()]);
            }
        }
    }
}

} // verus!
