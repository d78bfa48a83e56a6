//! Laws of text: what trimming, splitting and searching give back of a text that was put
//! together from known parts.
use vstd::prelude::*;
use vstd::utf8::*;

use crate::grammar::{is_parseable, is_range_char, is_wide_in_range};
use crate::text::{
    ascii_lowercase, before, byte_len, is_ascii_digit, is_ascii_letter, is_quote, is_separator,
    is_whitespace, last_segment, leading_field, lowercase, occurs_in, position_from, second_field,
    strip_back, strip_front, stripped, trimmed, unicode_lowercase, Edge,
};
use crate::words::{basename, unquoted};

verus! {

/// A blank: one of the characters, from the tab to the ideographic space, that Unicode counts as
/// white space.
pub open spec fn is_blank(c: char) -> bool {
    ||| c == '\t' || c == '\n' || c == '\u{b}' || c == '\u{c}' || c == '\r' || c == ' '
    ||| c == '\u{85}' || c == '\u{a0}' || c == '\u{1680}'
    ||| '\u{2000}' <= c <= '\u{200a}'
    ||| c == '\u{2028}' || c == '\u{2029}' || c == '\u{202f}' || c == '\u{205f}' || c == '\u{3000}'
}

/// A quotation mark.
pub open spec fn is_mark(c: char) -> bool {
    c == '"' || c == '\''
}

/// Blanks throughout, or nothing.
pub open spec fn all_blank(s: Seq<char>) -> bool {
    forall|i: int| 0 <= i < s.len() ==> is_blank(#[trigger] s[i])
}

/// Quotation marks throughout, or nothing.
pub open spec fn all_marks(s: Seq<char>) -> bool {
    forall|i: int| 0 <= i < s.len() ==> is_mark(#[trigger] s[i])
}

/// The text has no blank at either end.
pub open spec fn has_no_blank_ends(s: Seq<char>) -> bool {
    s.len() > 0 ==> !is_blank(s[0]) && !is_blank(s.last())
}

/// The text has no quotation mark at either end.
pub open spec fn has_no_mark_ends(s: Seq<char>) -> bool {
    s.len() > 0 ==> !is_mark(s[0]) && !is_mark(s.last())
}

/// A bare word: something with neither a blank nor a quotation mark at either end.
pub open spec fn is_bare(s: Seq<char>) -> bool {
    s.len() > 0 && has_no_blank_ends(s) && has_no_mark_ends(s)
}

/// Which characters can be trimmed off, which quote, and which separate the parts of a path.
pub proof fn law_classes_of_characters(c: char)
    ensures
        is_whitespace(c) == is_blank(c),
        is_quote(c) == is_mark(c),
        is_separator(c) == (c == '/' || c == '\\'),
        is_ascii_letter(c) == ('A' <= c <= 'Z' || 'a' <= c <= 'z'),
        is_ascii_digit(c) == ('0' <= c <= '9'),
        Edge::Whitespace.covers(c) == is_blank(c),
        Edge::Quote.covers(c) == is_mark(c),
{
}

proof fn lemma_classes()
    ensures
        forall|c: char| #[trigger] Edge::Whitespace.covers(c) == is_blank(c),
        forall|c: char| #[trigger] Edge::Quote.covers(c) == is_mark(c),
{
}

proof fn lemma_strip_front_of(a: Seq<char>, s: Seq<char>, edge: Edge)
    requires
        forall|i: int| 0 <= i < a.len() ==> edge.covers(#[trigger] a[i]),
        s.len() > 0 ==> !edge.covers(s[0]),
    ensures
        strip_front(a + s, edge) == s,
    decreases a.len(),
{
    if a.len() == 0 {
        assert(a + s =~= s);
    } else {
        assert((a + s)[0] == a[0]);
        assert((a + s).drop_first() =~= a.drop_first() + s);
        lemma_strip_front_of(a.drop_first(), s, edge);
    }
}

proof fn lemma_strip_front_all(a: Seq<char>, edge: Edge)
    requires
        forall|i: int| 0 <= i < a.len() ==> edge.covers(#[trigger] a[i]),
    ensures
        strip_front(a, edge) == Seq::<char>::empty(),
    decreases a.len(),
{
    if a.len() == 0 {
        assert(a =~= Seq::<char>::empty());
    } else {
        lemma_strip_front_all(a.drop_first(), edge);
    }
}

proof fn lemma_strip_back_of(s: Seq<char>, b: Seq<char>, edge: Edge)
    requires
        forall|i: int| 0 <= i < b.len() ==> edge.covers(#[trigger] b[i]),
        s.len() > 0 ==> !edge.covers(s.last()),
    ensures
        strip_back(s + b, edge) == s,
    decreases b.len(),
{
    if b.len() == 0 {
        assert(s + b =~= s);
    } else {
        assert((s + b).last() == b.last());
        assert((s + b).drop_last() =~= s + b.drop_last());
        lemma_strip_back_of(s, b.drop_last(), edge);
    }
}

proof fn lemma_stripped_of(a: Seq<char>, m: Seq<char>, b: Seq<char>, edge: Edge)
    requires
        forall|i: int| 0 <= i < a.len() ==> edge.covers(#[trigger] a[i]),
        forall|i: int| 0 <= i < b.len() ==> edge.covers(#[trigger] b[i]),
        m.len() > 0 ==> !edge.covers(m[0]) && !edge.covers(m.last()),
    ensures
        stripped(a + m + b, edge) == m,
{
    if m.len() == 0 {
        let all = a + m + b;
        assert forall|i: int| 0 <= i < all.len() implies edge.covers(#[trigger] all[i]) by {
            if i < a.len() {
                assert(all[i] == a[i]);
            } else {
                assert(all[i] == b[i - a.len()]);
            }
        }
        lemma_strip_front_all(all, edge);
        assert(strip_back(Seq::<char>::empty(), edge) =~= m);
    } else {
        assert(a + m + b =~= a + (m + b));
        assert((m + b)[0] == m[0]);
        lemma_strip_front_of(a, m + b, edge);
        lemma_strip_back_of(m, b, edge);
    }
}

/// Blanks around a text are trimmed off, and nothing else is.
pub proof fn law_trimming_takes_blanks(front: Seq<char>, text: Seq<char>, back: Seq<char>)
    requires
        all_blank(front),
        all_blank(back),
        has_no_blank_ends(text),
    ensures
        trimmed(front + text + back) == text,
{
    lemma_classes();
    lemma_stripped_of(front, text, back, Edge::Whitespace);
}

/// A word is read without the blanks around it and then without the quotation marks around it,
/// of either kind and however many.
pub proof fn law_unquoting_takes_marks(
    front: Seq<char>,
    opening: Seq<char>,
    text: Seq<char>,
    closing: Seq<char>,
    back: Seq<char>,
)
    requires
        all_blank(front),
        all_blank(back),
        all_marks(opening),
        all_marks(closing),
        has_no_mark_ends(text),
        has_no_blank_ends(opening + text + closing),
    ensures
        unquoted(front + (opening + text + closing) + back) == text,
{
    lemma_classes();
    lemma_stripped_of(front, opening + text + closing, back, Edge::Whitespace);
    lemma_stripped_of(opening, text, closing, Edge::Quote);
}

/// A bare word is read as it is.
pub proof fn law_bare_words_are_kept(word: Seq<char>)
    requires
        is_bare(word),
    ensures
        trimmed(word) == word,
        unquoted(word) == word,
{
    let nothing = Seq::<char>::empty();
    law_trimming_takes_blanks(nothing, word, nothing);
    law_unquoting_takes_marks(nothing, nothing, word, nothing, nothing);
    assert(nothing + word + nothing =~= word);
    assert(nothing + (nothing + word + nothing) + nothing =~= word);
}

/// What stands before a character is all that comes ahead of its first occurrence.
pub proof fn law_text_before_a_character(head: Seq<char>, c: char, tail: Seq<char>)
    requires
        !head.contains(c),
    ensures
        before(head + seq![c] + tail, c) == head,
        before(head, c) == head,
    decreases head.len(),
{
    let all = head + seq![c] + tail;
    if head.len() == 0 {
        assert(all[0] == c);
        assert(head =~= Seq::<char>::empty());
    } else {
        assert(head[0] != c);
        assert(all[0] == head[0]);
        assert(all.drop_first() =~= head.drop_first() + seq![c] + tail);
        assert(!head.drop_first().contains(c)) by {
            if head.drop_first().contains(c) {
                let i = choose|i: int|
                    0 <= i < head.drop_first().len() && head.drop_first()[i] == c;
                assert(head[i + 1] == c);
            }
        }
        law_text_before_a_character(head.drop_first(), c, tail);
        assert(seq![head[0]] + head.drop_first() =~= head);
    }
}

/// The text has no separator of a path in it.
pub open spec fn has_no_slash(s: Seq<char>) -> bool {
    forall|i: int|
        0 <= i < s.len() ==> #[trigger] s[i] != '/' && s[i] != '\\'
}

proof fn lemma_last_segment_of(front: Seq<char>, file: Seq<char>)
    requires
        has_no_slash(file),
        front.len() > 0 ==> is_separator(front.last()),
    ensures
        last_segment(front + file) == file,
    decreases file.len(),
{
    let all = front + file;
    if file.len() == 0 {
        assert(all =~= front);
        assert(last_segment(all) =~= file);
    } else {
        assert(all.last() == file.last());
        assert(all.drop_last() =~= front + file.drop_last());
        lemma_last_segment_of(front, file.drop_last());
        assert(file.drop_last().push(file.last()) =~= file);
    }
}

/// A program is known by what stands behind the last separator of its path, in small letters,
/// whatever directory it is in.
pub proof fn law_program_goes_by_its_file_name(
    raw: Seq<char>,
    directory: Seq<char>,
    file: Seq<char>,
)
    requires
        unquoted(raw) == directory + file,
        directory.len() > 0 ==> directory.last() == '/' || directory.last() == '\\',
        has_no_slash(file),
    ensures
        basename(raw).len() == file.len(),
        forall|i: int| 0 <= i < file.len() ==> is_small(#[trigger] basename(raw)[i], file[i]),
{
    lemma_last_segment_of(directory, file);
    law_small_letters(file);
}

/// `small` is the small letter of the capital `c`, or `c` itself where it is no capital.
pub open spec fn is_small(small: char, c: char) -> bool {
    if 'A' <= c <= 'Z' {
        'a' <= small <= 'z' && small as int - 'a' as int == c as int - 'A' as int
    } else {
        small == c
    }
}

/// Small letters stand for capitals, and every other character for itself. In ASCII no other
/// letters have two cases; elsewhere Unicode says which do.
pub proof fn law_small_letters(s: Seq<char>)
    ensures
        ascii_lowercase(s).len() == s.len(),
        forall|i: int| 0 <= i < s.len() ==> is_small(#[trigger] ascii_lowercase(s)[i], s[i]),
        is_ascii_chars(s) ==> lowercase(s) == ascii_lowercase(s),
        !is_ascii_chars(s) ==> lowercase(s) == unicode_lowercase(s),
{
    assert forall|i: int| 0 <= i < s.len() implies is_small(
        #[trigger] ascii_lowercase(s)[i],
        s[i],
    ) by {
        let c = s[i];
        if 'A' <= c <= 'Z' {
            let small = (c as u8 + 32) as char;
            assert('a' <= small <= 'z');
        }
    }
}

/// One text is found in another exactly where the other is made of it, with something or nothing
/// on either side.
pub proof fn law_search_finds_what_is_there(part: Seq<char>, s: Seq<char>)
    ensures
        occurs_in(part, s) <==> exists|front: Seq<char>, back: Seq<char>| s == #[trigger] (front
            + part + back),
{
    if occurs_in(part, s) {
        let i = choose|i: int|
            0 <= i <= s.len() - part.len() && #[trigger] s.subrange(i, i + part.len()) == part;
        let front = s.take(i);
        let back = s.skip(i + part.len());
        assert(s =~= front + part + back) by {
            assert forall|k: int| 0 <= k < part.len() implies s[i + k] == part[k] by {
                assert(s.subrange(i, i + part.len())[k] == s[i + k]);
            }
        }
    }
    if exists|front: Seq<char>, back: Seq<char>| s == #[trigger] (front + part + back) {
        let (front, back) = choose|front: Seq<char>, back: Seq<char>|
            s == #[trigger] (front + part + back);
        let i = front.len() as int;
        assert(s.subrange(i, i + part.len()) =~= part);
    }
}

/// The place found for a text is the first, from where the search starts, at which it stands.
pub proof fn law_first_place_is_found(part: Seq<char>, s: Seq<char>, from: int)
    requires
        0 <= from,
    ensures
        position_from(part, s, from) matches Some(at) ==> {
            &&& from <= at <= s.len() - part.len()
            &&& s.subrange(at, at + part.len()) == part
            &&& forall|i: int|
                from <= i < at ==> #[trigger] s.subrange(i, i + part.len()) != part
        },
        position_from(part, s, from) is None ==> forall|i: int|
            from <= i <= s.len() - part.len() ==> #[trigger] s.subrange(i, i + part.len()) != part,
    decreases s.len() - from,
{
    if from + part.len() <= s.len() && s.subrange(from, from + part.len()) != part && from
        < s.len() {
        law_first_place_is_found(part, s, from + 1);
    }
}

/// A run without blanks.
pub open spec fn has_no_blank(s: Seq<char>) -> bool {
    forall|i: int| 0 <= i < s.len() ==> !is_blank(#[trigger] s[i])
}

proof fn lemma_leading_field_of(field: Seq<char>, tail: Seq<char>)
    requires
        has_no_blank(field),
        tail.len() > 0 ==> is_blank(tail[0]),
    ensures
        leading_field(field + tail) == field,
    decreases field.len(),
{
    let all = field + tail;
    if tail.len() > 0 {
        law_classes_of_characters(tail[0]);
    }
    if field.len() == 0 {
        assert(all =~= tail);
        assert(leading_field(all) =~= field);
    } else {
        law_classes_of_characters(field[0]);
        assert(all[0] == field[0]);
        assert(all.drop_first() =~= field.drop_first() + tail);
        lemma_leading_field_of(field.drop_first(), tail);
        assert(seq![field[0]] + field.drop_first() =~= field);
    }
}

/// The second field of a text is its second run without blanks.
pub proof fn law_second_field_is_the_second_run(
    margin: Seq<char>,
    first: Seq<char>,
    gap: Seq<char>,
    second: Seq<char>,
    tail: Seq<char>,
)
    requires
        all_blank(margin),
        has_no_blank(first),
        first.len() > 0,
        all_blank(gap),
        gap.len() > 0,
        has_no_blank(second),
        second.len() == 0 ==> tail.len() == 0,
        tail.len() > 0 ==> is_blank(tail[0]),
    ensures
        second_field(margin + first + gap + second + tail) == second,
        second_field(margin + first) == Seq::<char>::empty(),
        second_field(margin) == Seq::<char>::empty(),
{
    lemma_classes();
    let nothing = Seq::<char>::empty();
    let behind = gap + second + tail;
    let rest = first + behind;
    assert(margin + first + gap + second + tail =~= margin + rest);
    assert(rest[0] == first[0]);
    lemma_strip_front_of(margin, rest, Edge::Whitespace);
    assert(behind[0] == gap[0]);
    lemma_leading_field_of(first, behind);
    assert(rest.skip(first.len() as int) =~= behind);
    assert(behind =~= gap + (second + tail));
    if second.len() > 0 {
        assert((second + tail)[0] == second[0]);
    }
    lemma_strip_front_of(gap, second + tail, Edge::Whitespace);
    lemma_leading_field_of(second, tail);
    lemma_strip_front_of(margin, first, Edge::Whitespace);
    lemma_leading_field_of(first, nothing);
    assert(first + nothing =~= first);
    assert(first.skip(first.len() as int) =~= nothing);
    lemma_strip_front_all(margin, Edge::Whitespace);
    assert(nothing.skip(0) =~= nothing);
    assert(strip_front(nothing, Edge::Whitespace) == nothing);
    assert(leading_field(nothing) =~= nothing);
}

proof fn lemma_ascii_byte_len(s: Seq<char>)
    requires
        is_ascii_chars(s),
    ensures
        byte_len(s) == s.len(),
{
    is_ascii_chars_encode_utf8(s);
}

/// Digits and dots throughout, or nothing.
pub open spec fn is_range_text(s: Seq<char>) -> bool {
    forall|i: int| 0 <= i < s.len() ==> (#[trigger] s[i] == '.' || '0' <= s[i] <= '9')
}

/// The text has, behind a brace and nothing but digits and dots, a character above U+00FF.
pub open spec fn has_wide_range(s: Seq<char>) -> bool {
    exists|front: Seq<char>, range: Seq<char>, wide: char, back: Seq<char>|
        is_range_text(range) && wide > '\u{ff}' && s == #[trigger] (front + seq!['{'] + range
            + seq![wide] + back)
}

/// A text can be parsed exactly where its bytes can be counted in 32 bits and it has no such
/// character.
pub proof fn law_what_can_be_parsed(s: Seq<char>)
    ensures
        is_parseable(s) <==> encode_utf8(s).len() < 0xffff_ffff && !has_wide_range(s),
{
    if exists|i: int, j: int| #[trigger] is_wide_in_range(s, i, j) {
        let (i, j) = choose|i: int, j: int| #[trigger] is_wide_in_range(s, i, j);
        let front = s.take(i);
        let range = s.subrange(i + 1, j);
        let back = s.skip(j + 1);
        assert forall|k: int| 0 <= k < range.len() implies (#[trigger] range[k] == '.' || '0'
            <= range[k] <= '9') by {
            assert(range[k] == s[i + 1 + k]);
        }
        assert(s =~= front + seq!['{'] + range + seq![s[j]] + back);
    }
    if has_wide_range(s) {
        let (front, range, wide, back) = choose|
            front: Seq<char>,
            range: Seq<char>,
            wide: char,
            back: Seq<char>,
        |
            is_range_text(range) && wide > '\u{ff}' && s == #[trigger] (front + seq!['{'] + range
                + seq![wide] + back);
        let i = front.len() as int;
        let j = i + 1 + range.len();
        assert forall|k: int| i < k < j implies is_range_char(#[trigger] s[k]) by {
            assert(s[k] == range[k - i - 1]);
        }
        assert(is_wide_in_range(s, i, j));
    }
}

/// Every text in ASCII can be parsed, up to the length that the parser can count.
pub proof fn law_ascii_can_be_parsed(s: Seq<char>)
    requires
        is_ascii_chars(s),
    ensures
        is_parseable(s) <==> s.len() < 0xffff_ffff,
{
    lemma_ascii_byte_len(s);
}

} // verus!
