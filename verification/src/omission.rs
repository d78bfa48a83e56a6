//! The text of a node without the literals or the substitutions in it.
use vstd::prelude::*;
use vstd::string::*;

use crate::syntax::{Syntax, SyntaxNode};
use crate::text::{find_from, position_from, same_text, to_chars};

verus! {

/// Text in quotes, or the body of a here-document.
pub open spec fn is_literal(kind: Seq<char>) -> bool {
    kind == "string"@ || kind == "raw_string"@ || kind == "ansi_c_string"@ || kind
        == "translated_string"@ || kind == "heredoc_body"@
}

/// `$()` or backticks.
pub open spec fn is_command_substitution(kind: Seq<char>) -> bool {
    kind == "command_substitution"@ || kind == "old_command_substitution"@
}

/// What can be left out of the text of a node.
#[derive(Clone, Copy, Debug)]
pub enum Part {
    /// Text in quotes and the bodies of here-documents.
    Literal,
    /// Commands and processes whose output or name stands in for them.
    Substitution,
}

impl Part {
    /// A node of this kind is such a part.
    pub open spec fn covers(self, kind: Seq<char>) -> bool {
        match self {
            Part::Literal => is_literal(kind),
            Part::Substitution => is_command_substitution(kind) || kind == "process_substitution"@,
        }
    }

    fn covers_kind(self, kind: &str) -> (result: bool)
        ensures
            result == self.covers(kind@),
    {
        match self {
            Part::Literal => same_text(kind, "string") || same_text(kind, "raw_string")
                || same_text(kind, "ansi_c_string") || same_text(kind, "translated_string")
                || same_text(kind, "heredoc_body"),
            Part::Substitution => same_text(kind, "command_substitution") || same_text(
                kind,
                "old_command_substitution",
            ) || same_text(kind, "process_substitution"),
        }
    }
}

/// The node is such a part or holds one.
pub open spec fn holds(node: Syntax, part: Part) -> bool
    decreases node,
{
    ||| part.covers(node.kind)
    ||| exists|i: int| 0 <= i < node.children.len() && holds(#[trigger] node.children[i], part)
}

fn node_holds(node: &SyntaxNode, part: Part) -> (result: bool)
    ensures
        result == holds(node@, part),
    decreases node,
{
    if part.covers_kind(node.kind.as_str()) {
        return true;
    }
    let ghost children = node@.children;
    let mut i: usize = 0;
    while i < node.children.len()
        invariant
            i <= node.children@.len(),
            children == node@.children,
            forall|k: int| 0 <= k < i ==> !holds(#[trigger] children[k], part),
        decreases node.children@.len() - i,
    {
        let child = &node.children[i];
        assert(child@ == children[i as int]);
        if node_holds(child, part) {
            return true;
        }
        i += 1;
    }
    false
}

/// A text that is being copied: what was written so far, and how far it was read.
#[verifier::ext_equal]
pub struct Copied {
    pub written: Seq<char>,
    pub read: int,
}

/// The text of a node, with `''` in place of each such part. All else stays as it is, with the
/// whitespace between the words.
pub open spec fn text_without(node: Syntax, part: Part) -> Seq<char>
    decreases node, 0nat,
{
    if !holds(node, part) {
        node.text
    } else if part.covers(node.kind) {
        "''"@
    } else {
        let copied = copied_without(node.text, node.children, part, node.children.len());
        copied.written + node.text.skip(copied.read)
    }
}

/// `text`, copied up to the end of the first `n` of `children`, without such parts. Each child
/// stands where its own text next does.
pub open spec fn copied_without(
    text: Seq<char>,
    children: Seq<Syntax>,
    part: Part,
    n: nat,
) -> Copied
    decreases children, n,
{
    if n == 0 || n > children.len() {
        Copied { written: Seq::empty(), read: 0 }
    } else {
        let before = copied_without(text, children, part, (n - 1) as nat);
        let child = children[n - 1];
        match position_from(child.text, text, before.read) {
            Some(at) => Copied {
                written: before.written + text.subrange(before.read, at) + text_without(
                    child,
                    part,
                ),
                read: at + child.text.len(),
            },
            None => before,
        }
    }
}

/// Appends the text of a node, with `''` in place of each such part.
pub fn append_text_without(node: &SyntaxNode, part: Part, out: &mut String)
    ensures
        final(out)@ == old(out)@ + text_without(node@, part),
    decreases node,
{
    if !node_holds(node, part) {
        out.append(node.text.as_str());
        return ;
    }
    if part.covers_kind(node.kind.as_str()) {
        out.append("''");
        return ;
    }
    let ghost children = node@.children;
    let text = node.text.as_str();
    let chars = to_chars(text);
    let total: usize = chars.len();
    let mut read: usize = 0;
    let mut i: usize = 0;
    while i < node.children.len()
        invariant
            i <= node.children@.len(),
            children == node@.children,
            text@ == node@.text,
            chars@ == text@,
            read <= total == chars@.len(),
            read == copied_without(text@, children, part, i as nat).read,
            out@ =~= old(out)@ + copied_without(text@, children, part, i as nat).written,
        decreases node.children@.len() - i,
    {
        let child = &node.children[i];
        assert(child@ == children[i as int]);
        let wanted = to_chars(child.text.as_str());
        if let Some(at) = find_from(&wanted, &chars, read) {
            out.append(text.substring_char(read, at));
            append_text_without(child, part, out);
            read = at + wanted.len();
        }
        i += 1;
    }
    out.append(text.substring_char(read, total));
    assert(text@.subrange(read as int, text@.len() as int) =~= text@.skip(read as int));
    assert(out@ =~= old(out)@ + text_without(node@, part));
}

} // verus!
