//! Laws of single words: trimming, unquoting, and the name of a program.
use vstd::prelude::*;

use crate::text::{
    ascii_lower, ascii_lowercase, is_separator, last_segment, strip_back, strip_front, stripped,
    trimmed, Edge,
};
use crate::words::{basename, unquoted};

verus! {

proof fn lemma_strip_front_edge(s: Seq<char>, edge: Edge)
    ensures
        strip_front(s, edge).len() > 0 ==> !edge.covers(strip_front(s, edge)[0]),
    decreases s.len(),
{
    if s.len() > 0 && edge.covers(s[0]) {
        lemma_strip_front_edge(s.drop_first(), edge);
    }
}

proof fn lemma_strip_back_edge(s: Seq<char>, edge: Edge)
    ensures
        strip_back(s, edge).len() > 0 ==> !edge.covers(strip_back(s, edge).last()) && strip_back(
            s,
            edge,
        )[0] == s[0] && s.len() > 0,
    decreases s.len(),
{
    if s.len() > 0 && edge.covers(s.last()) {
        lemma_strip_back_edge(s.drop_last(), edge);
    }
}

/// Stripping leaves nothing that could be stripped, at either end.
pub proof fn law_stripped_ends(s: Seq<char>, edge: Edge)
    ensures
        stripped(s, edge).len() > 0 ==> !edge.covers(stripped(s, edge)[0]) && !edge.covers(
            stripped(s, edge).last(),
        ),
{
    lemma_strip_front_edge(s, edge);
    lemma_strip_back_edge(strip_front(s, edge), edge);
}

/// Stripping twice is stripping once.
pub proof fn law_stripping_is_idempotent(s: Seq<char>, edge: Edge)
    ensures
        stripped(stripped(s, edge), edge) == stripped(s, edge),
{
    law_stripped_ends(s, edge);
}

/// An unquoted word starts and ends with no quote.
pub proof fn law_unquoted_ends(raw: Seq<char>)
    ensures
        unquoted(raw).len() > 0 ==> !Edge::Quote.covers(unquoted(raw)[0]) && !Edge::Quote.covers(
            unquoted(raw).last(),
        ),
{
    law_stripped_ends(trimmed(raw), Edge::Quote);
}

proof fn lemma_last_segment_of_path(directory: Seq<char>, separator: char, file: Seq<char>)
    requires
        is_separator(separator),
    ensures
        last_segment(directory.push(separator) + file) == last_segment(file),
    decreases file.len(),
{
    let path = directory.push(separator) + file;
    if file.len() == 0 {
        assert(path.last() == separator);
    } else {
        assert(path.last() == file.last());
        assert(path.drop_last() =~= directory.push(separator) + file.drop_last());
        if !is_separator(file.last()) {
            lemma_last_segment_of_path(directory, separator, file.drop_last());
        }
    }
}

/// The directory in which a program lies has no part in its name.
pub proof fn law_basename_ignores_directory(
    raw: Seq<char>,
    directory: Seq<char>,
    separator: char,
    file: Seq<char>,
)
    requires
        is_separator(separator),
        unquoted(raw) == directory.push(separator) + file,
    ensures
        basename(raw) == ascii_lowercase(last_segment(file)),
{
    lemma_last_segment_of_path(directory, separator, file);
}

proof fn lemma_ascii_lower_keeps(c: char)
    ensures
        ascii_lower(ascii_lower(c)) == ascii_lower(c),
        forall|edge: Edge| #[trigger] edge.covers(ascii_lower(c)) == edge.covers(c),
        is_separator(ascii_lower(c)) == is_separator(c),
{
    if 'A' <= c <= 'Z' {
        let lower = (c as u8 + 32) as char;
        assert('a' <= lower <= 'z');
    }
}

proof fn lemma_strip_front_lower(s: Seq<char>, edge: Edge)
    ensures
        strip_front(ascii_lowercase(s), edge) == ascii_lowercase(strip_front(s, edge)),
    decreases s.len(),
{
    if s.len() > 0 {
        lemma_ascii_lower_keeps(s[0]);
        assert(edge.covers(ascii_lower(s[0])) == edge.covers(s[0]));
        assert(ascii_lowercase(s).drop_first() =~= ascii_lowercase(s.drop_first()));
        lemma_strip_front_lower(s.drop_first(), edge);
    }
}

proof fn lemma_strip_back_lower(s: Seq<char>, edge: Edge)
    ensures
        strip_back(ascii_lowercase(s), edge) == ascii_lowercase(strip_back(s, edge)),
    decreases s.len(),
{
    if s.len() > 0 {
        lemma_ascii_lower_keeps(s.last());
        assert(edge.covers(ascii_lower(s.last())) == edge.covers(s.last()));
        assert(ascii_lowercase(s).drop_last() =~= ascii_lowercase(s.drop_last()));
        lemma_strip_back_lower(s.drop_last(), edge);
    }
}

proof fn lemma_last_segment_lower(s: Seq<char>)
    ensures
        last_segment(ascii_lowercase(s)) == ascii_lowercase(last_segment(s)),
    decreases s.len(),
{
    if s.len() > 0 {
        lemma_ascii_lower_keeps(s.last());
        assert(ascii_lowercase(s).drop_last() =~= ascii_lowercase(s.drop_last()));
        lemma_last_segment_lower(s.drop_last());
        assert(ascii_lowercase(last_segment(s.drop_last())).push(ascii_lower(s.last()))
            =~= ascii_lowercase(last_segment(s.drop_last()).push(s.last())));
    }
    assert(ascii_lowercase(Seq::empty()) =~= Seq::empty());
}

/// Capitals have no part in the name of a program.
pub proof fn law_basename_ignores_case(raw: Seq<char>)
    ensures
        basename(ascii_lowercase(raw)) == basename(raw),
{
    lemma_strip_front_lower(raw, Edge::Whitespace);
    lemma_strip_back_lower(strip_front(raw, Edge::Whitespace), Edge::Whitespace);
    lemma_strip_front_lower(trimmed(raw), Edge::Quote);
    lemma_strip_back_lower(strip_front(trimmed(raw), Edge::Quote), Edge::Quote);
    lemma_last_segment_lower(unquoted(raw));
    let name = last_segment(unquoted(raw));
    assert forall|i: int| 0 <= i < name.len() implies ascii_lower(ascii_lower(#[trigger] name[i]))
        == ascii_lower(name[i]) by {
        lemma_ascii_lower_keeps(name[i]);
    }
    assert(ascii_lowercase(ascii_lowercase(name)) =~= ascii_lowercase(name));
}

} // verus!
