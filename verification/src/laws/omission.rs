//! Laws of the text that is left when parts of it are left out.
use vstd::prelude::*;

use crate::laws::reports::{nodes_among, nodes_of};
use crate::laws::texts::law_first_place_is_found;
use crate::omission::{copied_without, holds, text_without, Part};
use crate::syntax::Syntax;
use crate::text::{is_whitespace, position_from};

verus! {

/// A kind of node that is such a part: a string in quotes of any kind or the body of a
/// here-document, or a substitution of a command or a process.
pub open spec fn is_left_out(kind: Seq<char>, part: Part) -> bool {
    match part {
        Part::Literal => {
            ||| kind == "string"@ || kind == "raw_string"@
            ||| kind == "ansi_c_string"@ || kind == "translated_string"@
            ||| kind == "heredoc_body"@
        },
        Part::Substitution => {
            ||| kind == "command_substitution"@ || kind == "old_command_substitution"@
            ||| kind == "process_substitution"@
        },
    }
}

/// One of the nodes is such a part.
pub open spec fn has_left_out(nodes: Seq<Syntax>, part: Part) -> bool {
    exists|i: int| 0 <= i < nodes.len() && is_left_out((#[trigger] nodes[i]).kind, part)
}

proof fn lemma_has_left_out_join(first: Seq<Syntax>, second: Seq<Syntax>, part: Part)
    ensures
        has_left_out(first + second, part) <==> has_left_out(first, part) || has_left_out(
            second,
            part,
        ),
{
    let all = first + second;
    if has_left_out(first, part) {
        let i = choose|i: int|
            0 <= i < first.len() && is_left_out((#[trigger] first[i]).kind, part);
        assert(all[i] == first[i]);
    }
    if has_left_out(second, part) {
        let i = choose|i: int|
            0 <= i < second.len() && is_left_out((#[trigger] second[i]).kind, part);
        assert(all[first.len() + i] == second[i]);
    }
    if has_left_out(all, part) {
        let i = choose|i: int| 0 <= i < all.len() && is_left_out((#[trigger] all[i]).kind, part);
        if i < first.len() {
            assert(first[i] == all[i]);
        } else {
            assert(second[i - first.len()] == all[i]);
        }
    }
}

proof fn lemma_holds(node: Syntax, part: Part)
    ensures
        holds(node, part) <==> has_left_out(nodes_of(node), part),
    decreases node, 0nat,
{
    let below = nodes_among(node.children, node.children.len());
    lemma_holds_among(node.children, part, node.children.len());
    lemma_has_left_out_join(seq![node], below, part);
    assert(seq![node][0] == node);
    assert(has_left_out(seq![node], part) <==> is_left_out(node.kind, part));
    assert(part.covers(node.kind) <==> is_left_out(node.kind, part));
}

proof fn lemma_holds_among(children: Seq<Syntax>, part: Part, n: nat)
    requires
        n <= children.len(),
    ensures
        has_left_out(nodes_among(children, n), part) <==> exists|i: int|
            0 <= i < n && holds(#[trigger] children[i], part),
    decreases children, n,
{
    if n > 0 {
        lemma_holds_among(children, part, (n - 1) as nat);
        lemma_holds(children[n - 1], part);
        lemma_has_left_out_join(
            nodes_among(children, (n - 1) as nat),
            nodes_of(children[n - 1]),
            part,
        );
    }
}

/// A node with no such part in it keeps its text, and one that is such a part leaves a pair of
/// quotes.
pub proof fn law_omission_at_the_ends(node: Syntax, part: Part)
    ensures
        !has_left_out(nodes_of(node), part) ==> text_without(node, part) == node.text,
        is_left_out(node.kind, part) ==> text_without(node, part) == seq!['\'', '\''],
{
    lemma_holds(node, part);
    reveal_strlit("''");
    assert("''"@ =~= seq!['\'', '\'']);
    if is_left_out(node.kind, part) {
        assert(part.covers(node.kind));
    }
}

/// The texts from the one at `from` on, each behind a gap, with one more gap at the end.
pub open spec fn laid_out(texts: Seq<Seq<char>>, gaps: Seq<Seq<char>>, from: int) -> Seq<char>
    decreases texts.len() - from,
{
    if from >= texts.len() {
        gaps[from]
    } else {
        gaps[from] + texts[from] + laid_out(texts, gaps, from + 1)
    }
}

/// The texts of nodes.
pub open spec fn texts_of(nodes: Seq<Syntax>) -> Seq<Seq<char>> {
    nodes.map_values(|node: Syntax| node.text)
}

/// The texts of nodes without such parts.
pub open spec fn texts_without(nodes: Seq<Syntax>, part: Part) -> Seq<Seq<char>> {
    nodes.map_values(|node: Syntax| text_without(node, part))
}

/// The text is whitespace throughout.
pub open spec fn is_gap(text: Seq<char>) -> bool {
    forall|i: int| 0 <= i < text.len() ==> is_whitespace(#[trigger] text[i])
}

/// The text holds something, and starts with no whitespace.
pub open spec fn starts_solid(text: Seq<char>) -> bool {
    text.len() > 0 && !is_whitespace(text[0])
}

proof fn lemma_position(part: Seq<char>, s: Seq<char>, from: int, at: int)
    requires
        0 <= from <= at,
        at + part.len() <= s.len(),
        s.subrange(at, at + part.len()) == part,
        forall|i: int| from <= i < at ==> #[trigger] s.subrange(i, i + part.len()) != part,
    ensures
        position_from(part, s, from) == Some(at),
    decreases at - from,
{
    if from < at {
        lemma_position(part, s, from + 1, at);
    }
}

/// The text at `n` does not stand any earlier in what is left of the whole: it is first found
/// behind its gap.
pub open spec fn stands_first(texts: Seq<Seq<char>>, gaps: Seq<Seq<char>>, n: int) -> bool {
    let rest = laid_out(texts, gaps, n);
    forall|k: int|
        0 <= k < gaps[n].len() ==> #[trigger] rest.subrange(k, k + texts[n].len()) != texts[n]
}

/// Every text is first found behind its gap.
pub open spec fn stand_first(texts: Seq<Seq<char>>, gaps: Seq<Seq<char>>) -> bool {
    forall|n: int| 0 <= n < texts.len() ==> #[trigger] stands_first(texts, gaps, n)
}

proof fn lemma_copied(node: Syntax, gaps: Seq<Seq<char>>, part: Part, n: nat)
    requires
        n <= node.children.len(),
        gaps.len() == node.children.len() + 1,
        stand_first(texts_of(node.children), gaps),
        node.text == laid_out(texts_of(node.children), gaps, 0),
    ensures
        ({
            let copied = copied_without(node.text, node.children, part, n);
            &&& 0 <= copied.read <= node.text.len()
            &&& node.text.skip(copied.read) == laid_out(texts_of(node.children), gaps, n as int)
            &&& copied.written + laid_out(texts_without(node.children, part), gaps, n as int)
                == laid_out(texts_without(node.children, part), gaps, 0)
        }),
    decreases n,
{
    let texts = texts_of(node.children);
    let kept = texts_without(node.children, part);
    if n == 0 {
        assert(node.text.skip(0) =~= node.text);
        assert(Seq::<char>::empty() + laid_out(kept, gaps, 0) =~= laid_out(kept, gaps, 0));
    } else {
        lemma_copied(node, gaps, part, (n - 1) as nat);
        let before = copied_without(node.text, node.children, part, (n - 1) as nat);
        let child = node.children[n - 1];
        let gap = gaps[n - 1];
        let rest = node.text.skip(before.read);
        let at = before.read + gap.len();
        let behind = laid_out(texts, gaps, n as int);
        assert(rest == gap + child.text + behind);
        assert(node.text.len() == before.read + rest.len());
        assert(texts[n - 1] == child.text);
        assert(rest == laid_out(texts, gaps, n - 1));
        assert forall|i: int| before.read <= i < at implies #[trigger] node.text.subrange(
            i,
            i + child.text.len(),
        ) != child.text by {
            let k = i - before.read;
            assert(stands_first(texts, gaps, n - 1));
            assert(node.text.subrange(i, i + child.text.len()) =~= rest.subrange(
                k,
                k + child.text.len(),
            ));
        }
        assert(node.text.subrange(at, at + child.text.len()) =~= child.text) by {
            assert forall|i: int| 0 <= i < child.text.len() implies node.text[at + i]
                == child.text[i] by {
                assert(node.text[at + i] == rest[gap.len() + i]);
            }
        }
        lemma_position(child.text, node.text, before.read, at);
        assert(node.text.subrange(before.read, at) =~= gap) by {
            assert forall|i: int| 0 <= i < gap.len() implies node.text[before.read + i]
                == gap[i] by {
                assert(node.text[before.read + i] == rest[i]);
            }
        }
        let copied = copied_without(node.text, node.children, part, n);
        assert(node.text.skip(copied.read) =~= behind) by {
            assert forall|i: int| 0 <= i < behind.len() implies node.text[copied.read + i]
                == behind[i] by {
                assert(node.text[copied.read + i] == rest[gap.len() + child.text.len() + i]);
            }
        }
        assert(copied.written + laid_out(kept, gaps, n as int) =~= before.written + laid_out(
            kept,
            gaps,
            n - 1,
        ));
    }
}

/// Leaving parts out replaces them in place: where each child's text is first found behind its
/// gap, what is left is what is left of the children, with the same gaps.
pub proof fn law_omission_replaces_in_place(node: Syntax, gaps: Seq<Seq<char>>, part: Part)
    requires
        !is_left_out(node.kind, part),
        gaps.len() == node.children.len() + 1,
        stand_first(texts_of(node.children), gaps),
        node.text == laid_out(texts_of(node.children), gaps, 0),
    ensures
        text_without(node, part) == laid_out(texts_without(node.children, part), gaps, 0),
{
    assert(!part.covers(node.kind));
    if holds(node, part) {
        lemma_copied(node, gaps, part, node.children.len());
    } else {
        assert forall|i: int| 0 <= i < node.children.len() implies text_without(
            #[trigger] node.children[i],
            part,
        ) == node.children[i].text by {}
        assert(texts_without(node.children, part) =~= texts_of(node.children));
    }
}

/// A child whose text does not stand in what is left is passed over.
pub proof fn law_absent_children_are_passed_over(
    text: Seq<char>,
    children: Seq<Syntax>,
    part: Part,
    n: nat,
)
    requires
        n < children.len(),
        forall|i: int|
            copied_without(text, children, part, n).read <= i <= text.len()
                - children[n as int].text.len() ==> #[trigger] text.subrange(
                i,
                i + children[n as int].text.len(),
            ) != children[n as int].text,
    ensures
        copied_without(text, children, part, n + 1) == copied_without(text, children, part, n),
{
    let read = copied_without(text, children, part, n).read;
    lemma_read_bounds(text, children, part, n);
    law_first_place_is_found(children[n as int].text, text, read);
}

proof fn lemma_read_bounds(text: Seq<char>, children: Seq<Syntax>, part: Part, n: nat)
    ensures
        0 <= copied_without(text, children, part, n).read <= text.len(),
    decreases n,
{
    if 0 < n <= children.len() {
        lemma_read_bounds(text, children, part, (n - 1) as nat);
        law_first_place_is_found(
            children[n - 1].text,
            text,
            copied_without(text, children, part, (n - 1) as nat).read,
        );
    }
}

/// Leaving parts out changes nothing but these parts: where a node's text is that of its
/// children with whitespace between them, what is left is what is left of the children, with the
/// same whitespace between them.
pub proof fn law_omission_keeps_the_spacing(node: Syntax, gaps: Seq<Seq<char>>, part: Part)
    requires
        !is_left_out(node.kind, part),
        gaps.len() == node.children.len() + 1,
        forall|i: int| 0 <= i < gaps.len() ==> is_gap(#[trigger] gaps[i]),
        forall|i: int|
            0 <= i < node.children.len() ==> starts_solid((#[trigger] node.children[i]).text),
        node.text == laid_out(texts_of(node.children), gaps, 0),
    ensures
        text_without(node, part) == laid_out(texts_without(node.children, part), gaps, 0),
{
    let texts = texts_of(node.children);
    assert forall|n: int| 0 <= n < texts.len() implies #[trigger] stands_first(texts, gaps, n) by {
        let rest = laid_out(texts, gaps, n);
        assert(starts_solid(node.children[n].text));
        assert forall|k: int| 0 <= k < gaps[n].len() implies #[trigger] rest.subrange(
            k,
            k + texts[n].len(),
        ) != texts[n] by {
            assert(is_gap(gaps[n]));
            assert(is_whitespace(gaps[n][k]));
            assert(rest[k] == gaps[n][k]);
            assert(rest.subrange(k, k + texts[n].len())[0] == rest[k]);
        }
    }
    law_omission_replaces_in_place(node, gaps, part);
}

} // verus!
