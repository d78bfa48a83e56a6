//! Text primitives: what trimming, splitting and searching mean on a sequence of
//! characters, and executable versions of them on `&str`.
use vstd::prelude::*;
use vstd::string::*;
use vstd::utf8::*;

verus! {

/// The characters of Unicode's `White_Space` property.
pub open spec fn is_whitespace(c: char) -> bool {
    ||| '\u{9}' <= c <= '\u{d}'
    ||| c == ' '
    ||| c == '\u{85}'
    ||| c == '\u{a0}'
    ||| c == '\u{1680}'
    ||| '\u{2000}' <= c <= '\u{200a}'
    ||| c == '\u{2028}'
    ||| c == '\u{2029}'
    ||| c == '\u{202f}'
    ||| c == '\u{205f}'
    ||| c == '\u{3000}'
}

/// The characters that quote a shell word.
pub open spec fn is_quote(c: char) -> bool {
    c == '\'' || c == '"'
}

/// The characters that end a directory name inside a path.
pub open spec fn is_separator(c: char) -> bool {
    c == '/' || c == '\\'
}

pub open spec fn is_ascii_letter(c: char) -> bool {
    'a' <= c <= 'z' || 'A' <= c <= 'Z'
}

pub open spec fn is_ascii_digit(c: char) -> bool {
    '0' <= c <= '9'
}

/// What may be stripped from both ends of a text.
#[derive(Clone, Copy)]
pub enum Edge {
    Whitespace,
    Quote,
}

impl Edge {
    pub open spec fn covers(self, c: char) -> bool {
        match self {
            Edge::Whitespace => is_whitespace(c),
            Edge::Quote => is_quote(c),
        }
    }

    fn has(self, c: char) -> (result: bool)
        ensures
            result == self.covers(c),
    {
        match self {
            Edge::Whitespace => {
                ('\u{9}' <= c && c <= '\u{d}') || c == ' ' || c == '\u{85}' || c == '\u{a0}' || c
                    == '\u{1680}' || ('\u{2000}' <= c && c <= '\u{200a}') || c == '\u{2028}' || c
                    == '\u{2029}' || c == '\u{202f}' || c == '\u{205f}' || c == '\u{3000}'
            },
            Edge::Quote => c == '\'' || c == '"',
        }
    }
}

/// `s` without its longest prefix of characters that `edge` covers.
pub open spec fn strip_front(s: Seq<char>, edge: Edge) -> Seq<char>
    decreases s.len(),
{
    if s.len() > 0 && edge.covers(s[0]) {
        strip_front(s.drop_first(), edge)
    } else {
        s
    }
}

/// `s` without its longest suffix of characters that `edge` covers.
pub open spec fn strip_back(s: Seq<char>, edge: Edge) -> Seq<char>
    decreases s.len(),
{
    if s.len() > 0 && edge.covers(s.last()) {
        strip_back(s.drop_last(), edge)
    } else {
        s
    }
}

pub open spec fn stripped(s: Seq<char>, edge: Edge) -> Seq<char> {
    strip_back(strip_front(s, edge), edge)
}

/// `s` without the whitespace around it.
pub open spec fn trimmed(s: Seq<char>) -> Seq<char> {
    stripped(s, Edge::Whitespace)
}

/// The part of `s` before the first `c`, all of `s` where there is no `c`.
pub open spec fn before(s: Seq<char>, c: char) -> Seq<char>
    decreases s.len(),
{
    if s.len() == 0 || s[0] == c {
        Seq::empty()
    } else {
        seq![s[0]] + before(s.drop_first(), c)
    }
}

/// The part of `s` after its last path separator, all of `s` where there is none.
pub open spec fn last_segment(s: Seq<char>) -> Seq<char>
    decreases s.len(),
{
    if s.len() == 0 || is_separator(s.last()) {
        Seq::empty()
    } else {
        last_segment(s.drop_last()).push(s.last())
    }
}

/// The longest prefix of `s` without whitespace.
pub open spec fn leading_field(s: Seq<char>) -> Seq<char>
    decreases s.len(),
{
    if s.len() == 0 || is_whitespace(s[0]) {
        Seq::empty()
    } else {
        seq![s[0]] + leading_field(s.drop_first())
    }
}

/// The second of the fields that whitespace separates in `s`, empty where there are fewer.
pub open spec fn second_field(s: Seq<char>) -> Seq<char> {
    let rest = strip_front(s, Edge::Whitespace);
    leading_field(strip_front(rest.skip(leading_field(rest).len() as int), Edge::Whitespace))
}

/// `part` stands somewhere in `s`.
pub open spec fn occurs_in(part: Seq<char>, s: Seq<char>) -> bool {
    exists|i: int|
        0 <= i <= s.len() - part.len() && #[trigger] s.subrange(i, i + part.len()) == part
}

/// Where `part` first stands in `s`, from `from` on.
pub open spec fn position_from(part: Seq<char>, s: Seq<char>, from: int) -> Option<int>
    decreases s.len() - from,
{
    if from + part.len() > s.len() {
        None
    } else if s.subrange(from, from + part.len()) == part {
        Some(from)
    } else if from < s.len() {
        position_from(part, s, from + 1)
    } else {
        None
    }
}

/// `part` is a contiguous piece of `s`.
pub open spec fn is_piece_of(part: Seq<char>, s: Seq<char>) -> bool {
    exists|i: int, j: int| 0 <= i <= j <= s.len() && part == #[trigger] s.subrange(i, j)
}

/// The number of bytes of `s` in UTF-8.
pub open spec fn byte_len(s: Seq<char>) -> nat {
    encode_utf8(s).len()
}

pub open spec fn ascii_lower(c: char) -> char {
    if 'A' <= c <= 'Z' {
        (c as u8 + 32) as char
    } else {
        c
    }
}

/// `s` with `A` to `Z` replaced by `a` to `z`.
pub open spec fn ascii_lowercase(s: Seq<char>) -> Seq<char> {
    s.map_values(|c: char| ascii_lower(c))
}

/// The lowercase form of a text by Unicode's default case conversion, as the standard library
/// computes it.
pub uninterp spec fn unicode_lowercase(s: Seq<char>) -> Seq<char>;

/// `str::to_lowercase`: the result is a function of the text alone, named `unicode_lowercase`.
/// On a text in ASCII it replaces `A` to `Z` by `a` to `z` and keeps the rest; of other texts
/// nothing more is claimed.
#[verifier::external_body]
fn std_lowercase(s: &str) -> (result: String)
    ensures
        result@ == unicode_lowercase(s@),
        is_ascii_chars(s@) ==> result@ == ascii_lowercase(s@),
{
    s.to_lowercase()
}

/// `s` in lower case.
pub open spec fn lowercase(s: Seq<char>) -> Seq<char> {
    if is_ascii_chars(s) {
        ascii_lowercase(s)
    } else {
        unicode_lowercase(s)
    }
}

/// `s` in lower case.
pub fn to_lowercase(s: &str) -> (result: String)
    ensures
        result@ == lowercase(s@),
{
    std_lowercase(s)
}

/// `str::to_ascii_lowercase`: `A` to `Z` become `a` to `z`, every other character stays.
pub assume_specification[ str::to_ascii_lowercase ](s: &str) -> (result: String)
    ensures
        result@ == ascii_lowercase(s@),
;

/// The characters of `s`, in order.
pub fn to_chars(s: &str) -> (result: Vec<char>)
    ensures
        result@ == s@,
{
    let mut chars: Vec<char> = Vec::new();
    for c in it: s.chars()
        invariant
            chars@ == s@.take(it.index()),
            it.seq() == s@,
    {
        chars.push(c);
        assert(s@.take(it.index() + 1) =~= s@.take(it.index()).push(c));
    }
    chars
}

/// Whether the two texts are equal.
pub fn same_text(a: &str, b: &str) -> (result: bool)
    ensures
        result == (a@ == b@),
{
    let left = a.as_bytes();
    let right = b.as_bytes();
    proof {
        encode_utf8_decode_utf8(a@);
        encode_utf8_decode_utf8(b@);
    }
    if left.len() != right.len() {
        return false;
    }
    let mut i: usize = 0;
    while i < left.len()
        invariant
            i <= left@.len(),
            left@.len() == right@.len(),
            left@ == encode_utf8(a@),
            right@ == encode_utf8(b@),
            forall|k: int| 0 <= k < i ==> left@[k] == right@[k],
        decreases left@.len() - i,
    {
        if left[i] != right[i] {
            return false;
        }
        i += 1;
    }
    assert(left@ =~= right@);
    true
}

/// Whether `text` is one of `choices`.
pub fn is_one_of(text: &str, choices: &Vec<&'static str>) -> (result: bool)
    ensures
        result == views(choices@).contains(text@),
{
    let mut i: usize = 0;
    while i < choices.len()
        invariant
            i <= choices@.len(),
            forall|k: int| 0 <= k < i ==> views(choices@)[k] != text@,
        decreases choices@.len() - i,
    {
        if same_text(text, choices[i]) {
            assert(views(choices@)[i as int] == text@);
            return true;
        }
        i += 1;
    }
    false
}

/// The texts of a list of string slices.
pub open spec fn views(texts: Seq<&'static str>) -> Seq<Seq<char>> {
    texts.map_values(|text: &'static str| text@)
}

pub fn starts_with(s: &str, prefix: &str) -> (result: bool)
    ensures
        result == prefix@.is_prefix_of(s@),
{
    let text = to_chars(s);
    let head = to_chars(prefix);
    if text.len() < head.len() {
        return false;
    }
    let mut i: usize = 0;
    while i < head.len()
        invariant
            i <= head@.len() <= text@.len(),
            text@ == s@,
            head@ == prefix@,
            forall|k: int| 0 <= k < i ==> head@[k] == text@[k],
        decreases head@.len() - i,
    {
        if text[i] != head[i] {
            assert(text@.subrange(0, head@.len() as int)[i as int] == text@[i as int]);
            return false;
        }
        i += 1;
    }
    assert(text@.subrange(0, head@.len() as int) =~= head@);
    true
}

pub fn contains_char(s: &str, c: char) -> (result: bool)
    ensures
        result == s@.contains(c),
{
    let text = to_chars(s);
    let mut i: usize = 0;
    while i < text.len()
        invariant
            i <= text@.len(),
            text@ == s@,
            forall|k: int| 0 <= k < i ==> text@[k] != c,
        decreases text@.len() - i,
    {
        if text[i] == c {
            assert(text@[i as int] == c);
            return true;
        }
        i += 1;
    }
    false
}

pub fn contains_text(s: &str, part: &str) -> (result: bool)
    ensures
        result == occurs_in(part@, s@),
{
    let text = to_chars(s);
    let wanted = to_chars(part);
    if text.len() < wanted.len() {
        return false;
    }
    let total: usize = text.len();
    let last: usize = total - wanted.len();
    let mut i: usize = 0;
    loop
        invariant
            i <= last,
            total == text@.len(),
            last == text@.len() - wanted@.len(),
            text@ == s@,
            wanted@ == part@,
            forall|k: int|
                0 <= k < i ==> #[trigger] text@.subrange(k, k + wanted@.len()) != wanted@,
        decreases last - i,
    {
        let mut j: usize = 0;
        let ghost window = text@.subrange(i as int, i + wanted@.len());
        while j < wanted.len() && text[i + j] == wanted[j]
            invariant
                i <= last,
                total == text@.len(),
                last == text@.len() - wanted@.len(),
                j <= wanted@.len(),
                window == text@.subrange(i as int, i + wanted@.len()),
                forall|k: int| 0 <= k < j ==> window[k] == wanted@[k],
            decreases wanted@.len() - j,
        {
            assert(window[j as int] == text@[i + j]);
            j += 1;
        }
        if j == wanted.len() {
            assert(window =~= wanted@);
            return true;
        }
        assert(window[j as int] == text@[i + j]);
        if i == last {
            assert forall|k: int| 0 <= k <= last implies #[trigger] text@.subrange(
                k,
                k + wanted@.len(),
            ) != wanted@ by {}
            return false;
        }
        i += 1;
    }
}

proof fn lemma_strip_front_skip(s: Seq<char>, n: int, edge: Edge)
    requires
        0 <= n < s.len(),
        edge.covers(s[n]),
    ensures
        strip_front(s.skip(n), edge) == strip_front(s.skip(n + 1), edge),
{
    assert(s.skip(n).drop_first() =~= s.skip(n + 1));
}

/// `s` without the characters around it that `edge` covers.
pub fn strip<'a>(s: &'a str, edge: Edge) -> (result: &'a str)
    ensures
        result@ == stripped(s@, edge),
{
    let text = to_chars(s);
    let mut from: usize = 0;
    assert(s@.skip(0) =~= s@);
    while from < text.len() && edge.has(text[from])
        invariant
            from <= text@.len(),
            text@ == s@,
            strip_front(s@, edge) == strip_front(s@.skip(from as int), edge),
        decreases text@.len() - from,
    {
        proof {
            lemma_strip_front_skip(s@, from as int, edge);
        }
        from += 1;
    }
    let ghost rest = s@.skip(from as int);
    assert(strip_front(s@, edge) == rest) by {
        if from < s@.len() {
            assert(rest[0] == s@[from as int]);
        }
    }
    let mut to: usize = text.len();
    assert(s@.subrange(from as int, to as int) =~= rest);
    while from < to && edge.has(text[to - 1])
        invariant
            from <= to <= text@.len(),
            text@ == s@,
            strip_back(rest, edge) == strip_back(s@.subrange(from as int, to as int), edge),
        decreases to - from,
    {
        let ghost window = s@.subrange(from as int, to as int);
        assert(window.last() == s@[to - 1]);
        assert(window.drop_last() =~= s@.subrange(from as int, to - 1));
        to -= 1;
    }
    assert(strip_back(rest, edge) == s@.subrange(from as int, to as int)) by {
        if from < to {
            assert(s@.subrange(from as int, to as int).last() == s@[to - 1]);
        }
    }
    s.substring_char(from, to)
}

/// `s` without the whitespace around it.
pub fn trim<'a>(s: &'a str) -> (result: &'a str)
    ensures
        result@ == trimmed(s@),
{
    strip(s, Edge::Whitespace)
}

proof fn lemma_before_prefix(s: Seq<char>, n: int, c: char)
    requires
        0 <= n <= s.len(),
        forall|k: int| 0 <= k < n ==> s[k] != c,
        n < s.len() ==> s[n] == c,
    ensures
        before(s, c) == s.take(n),
    decreases n,
{
    if n == 0 {
        assert(s.take(0) =~= Seq::empty());
    } else {
        assert forall|k: int| 0 <= k < n - 1 implies s.drop_first()[k] != c by {
            assert(s.drop_first()[k] == s[k + 1]);
        }
        lemma_before_prefix(s.drop_first(), n - 1, c);
        assert(seq![s[0]] + s.drop_first().take(n - 1) =~= s.take(n));
    }
}

/// The part of `s` before the first `c`.
pub fn text_before<'a>(s: &'a str, c: char) -> (result: &'a str)
    ensures
        result@ == before(s@, c),
{
    let text = to_chars(s);
    let mut i: usize = 0;
    while i < text.len() && text[i] != c
        invariant
            i <= text@.len(),
            forall|k: int| 0 <= k < i ==> text@[k] != c,
        decreases text@.len() - i,
    {
        i += 1;
    }
    proof {
        lemma_before_prefix(s@, i as int, c);
        assert(s@.subrange(0, i as int) =~= s@.take(i as int));
    }
    s.substring_char(0, i)
}

proof fn lemma_last_segment_suffix(s: Seq<char>, n: int)
    requires
        0 <= n <= s.len(),
        forall|k: int| n <= k < s.len() ==> !is_separator(s[k]),
        n > 0 ==> is_separator(s[n - 1]),
    ensures
        last_segment(s) == s.skip(n),
    decreases s.len() - n,
{
    if n == s.len() {
        assert(s.skip(n) =~= Seq::empty());
    } else {
        lemma_last_segment_suffix(s.drop_last(), n);
        assert(s.drop_last().skip(n).push(s.last()) =~= s.skip(n));
    }
}

/// The part of `s` after its last path separator.
pub fn text_after_separator<'a>(s: &'a str) -> (result: &'a str)
    ensures
        result@ == last_segment(s@),
{
    let text = to_chars(s);
    let mut i: usize = text.len();
    while i > 0 && text[i - 1] != '/' && text[i - 1] != '\\'
        invariant
            i <= text@.len(),
            forall|k: int| i <= k < text@.len() ==> !is_separator(text@[k]),
        decreases i,
    {
        i -= 1;
    }
    proof {
        lemma_last_segment_suffix(s@, i as int);
        assert(s@.subrange(i as int, s@.len() as int) =~= s@.skip(i as int));
    }
    s.substring_char(i, text.len())
}

proof fn lemma_leading_field_prefix(s: Seq<char>, n: int)
    requires
        0 <= n <= s.len(),
        forall|k: int| 0 <= k < n ==> !is_whitespace(s[k]),
        n < s.len() ==> is_whitespace(s[n]),
    ensures
        leading_field(s) == s.take(n),
    decreases n,
{
    if n == 0 {
        assert(s.take(0) =~= Seq::empty());
    } else {
        assert forall|k: int| 0 <= k < n - 1 implies !is_whitespace(s.drop_first()[k]) by {
            assert(s.drop_first()[k] == s[k + 1]);
        }
        lemma_leading_field_prefix(s.drop_first(), n - 1);
        assert(seq![s[0]] + s.drop_first().take(n - 1) =~= s.take(n));
    }
}

/// The index of the first character of `text`, from `from` on, that is whitespace or that is
/// not, by `wanted`.
fn next_boundary(text: &Vec<char>, from: usize, wanted: bool) -> (result: usize)
    requires
        from <= text@.len(),
    ensures
        from <= result <= text@.len(),
        forall|k: int| from <= k < result ==> is_whitespace(text@[k]) != wanted,
        result < text@.len() ==> is_whitespace(text@[result as int]) == wanted,
{
    let mut i: usize = from;
    while i < text.len() && Edge::Whitespace.has(text[i]) != wanted
        invariant
            from <= i <= text@.len(),
            forall|k: int| from <= k < i ==> is_whitespace(text@[k]) != wanted,
        decreases text@.len() - i,
    {
        i += 1;
    }
    i
}

proof fn lemma_strip_front_at(s: Seq<char>, from: int, n: int)
    requires
        0 <= from <= n <= s.len(),
        forall|k: int| from <= k < n ==> is_whitespace(s[k]),
        n < s.len() ==> !is_whitespace(s[n]),
    ensures
        strip_front(s.skip(from), Edge::Whitespace) == s.skip(n),
    decreases n - from,
{
    if from < n {
        lemma_strip_front_skip(s, from, Edge::Whitespace);
        lemma_strip_front_at(s, from + 1, n);
    } else if n < s.len() {
        assert(s.skip(n)[0] == s[n]);
    }
}

/// The second of the fields that whitespace separates in `s`, empty where there are fewer.
pub fn text_second_field<'a>(s: &'a str) -> (result: &'a str)
    ensures
        result@ == second_field(s@),
{
    let text = to_chars(s);
    let first = next_boundary(&text, 0, false);
    let first_end = next_boundary(&text, first, true);
    let second = next_boundary(&text, first_end, false);
    let second_end = next_boundary(&text, second, true);
    proof {
        assert(s@.skip(0) =~= s@);
        lemma_strip_front_at(s@, 0, first as int);
        let rest = s@.skip(first as int);
        lemma_leading_field_prefix(rest, first_end - first);
        assert(rest.skip(first_end - first) =~= s@.skip(first_end as int));
        lemma_strip_front_at(s@, first_end as int, second as int);
        let tail = s@.skip(second as int);
        lemma_leading_field_prefix(tail, second_end - second);
        assert(tail.take(second_end - second) =~= s@.subrange(second as int, second_end as int));
    }
    s.substring_char(second, second_end)
}

/// Where `part` first stands in `text`, from `from` on.
pub fn find_from(part: &Vec<char>, text: &Vec<char>, from: usize) -> (result: Option<usize>)
    requires
        from <= text@.len(),
    ensures
        (match result {
            Some(at) => Some(at as int),
            None => None,
        }) == position_from(part@, text@, from as int),
        result matches Some(at) ==> from <= at && at + part@.len() <= text@.len(),
{
    let total: usize = text.len();
    let mut at: usize = from;
    while part.len() <= total - at
        invariant
            from <= at <= total,
            total == text@.len(),
            position_from(part@, text@, from as int) == position_from(part@, text@, at as int),
        decreases total - at,
    {
        let mut j: usize = 0;
        let ghost window = text@.subrange(at as int, at + part@.len());
        while j < part.len() && text[at + j] == part[j]
            invariant
                at <= total,
                total == text@.len(),
                part@.len() <= total - at,
                j <= part@.len(),
                window == text@.subrange(at as int, at + part@.len()),
                forall|k: int| 0 <= k < j ==> window[k] == part@[k],
            decreases part@.len() - j,
        {
            assert(window[j as int] == text@[at + j]);
            j += 1;
        }
        if j == part.len() {
            assert(window =~= part@);
            return Some(at);
        }
        assert(window[j as int] == text@[at + j]);
        at += 1;
    }
    None
}

} // verus!
