//! The redirections in a syntax tree: whether they write, and where they go.
use vstd::prelude::*;
use vstd::string::*;

use crate::omission::{append_text_without, text_without, Part};
use crate::syntax::{in_field, Syntax, SyntaxNode};
use crate::text::{contains_char, same_text};

verus! {

/// The node redirects a file: an operator and its targets.
pub open spec fn is_redirect(node: Syntax) -> bool {
    node.kind == "file_redirect"@ || node.kind == "redirection"@
}

fn is_redirect_node(node: &SyntaxNode) -> (result: bool)
    ensures
        result == is_redirect(node@),
{
    same_text(node.kind.as_str(), "file_redirect") || same_text(node.kind.as_str(), "redirection")
}

/// `>`, `>>`, `>&` and the like. The kind of an operator is the operator itself.
pub open spec fn is_write_operator(node: Syntax) -> bool {
    !node.named && node.kind.contains('>')
}

/// The node is a redirect whose operator writes.
pub open spec fn writes(node: Syntax) -> bool {
    is_redirect(node) && exists|i: int|
        0 <= i < node.children.len() && is_write_operator(#[trigger] node.children[i])
}

/// Whether the node is a redirect whose operator writes.
pub fn node_writes(node: &SyntaxNode) -> (result: bool)
    ensures
        result == writes(node@),
{
    if !is_redirect_node(node) {
        return false;
    }
    let ghost children = node@.children;
    let mut i: usize = 0;
    while i < node.children.len()
        invariant
            i <= node.children@.len(),
            children == node@.children,
            is_redirect(node@),
            forall|k: int| 0 <= k < i ==> !is_write_operator(#[trigger] children[k]),
        decreases node.children@.len() - i,
    {
        let child = &node.children[i];
        assert(child@ == children[i as int]);
        if !child.named && contains_char(child.kind.as_str(), '>') {
            assert(is_write_operator(children[i as int]));
            return true;
        }
        i += 1;
    }
    false
}

/// One of the redirects at or below the node writes.
pub open spec fn writes_within(node: Syntax) -> bool
    decreases node,
{
    ||| writes(node)
    ||| exists|i: int| 0 <= i < node.children.len() && writes_within(#[trigger] node.children[i])
}

/// Whether one of the redirects at or below the node writes.
pub fn node_writes_within(node: &SyntaxNode) -> (result: bool)
    ensures
        result == writes_within(node@),
    decreases node,
{
    if node_writes(node) {
        return true;
    }
    let ghost children = node@.children;
    let mut i: usize = 0;
    while i < node.children.len()
        invariant
            i <= node.children@.len(),
            children == node@.children,
            forall|k: int| 0 <= k < i ==> !writes_within(#[trigger] children[k]),
        decreases node.children@.len() - i,
    {
        let child = &node.children[i];
        assert(child@ == children[i as int]);
        if node_writes_within(child) {
            return true;
        }
        i += 1;
    }
    false
}

/// The targets among the first `n` children of a redirect, a space before each. What a command
/// inside a target is made of is no part of it.
pub open spec fn targets_among(children: Seq<Syntax>, n: nat) -> Seq<char>
    decreases n,
{
    if n == 0 || n > children.len() {
        Seq::empty()
    } else {
        let targets = targets_among(children, (n - 1) as nat);
        let child = children[n - 1];
        if in_field(child, "destination"@) {
            targets + " "@ + text_without(child, Part::Substitution)
        } else {
            targets
        }
    }
}

/// The targets of a redirect, a space before each. A node that is no redirect has none.
pub open spec fn own_targets(node: Syntax) -> Seq<char> {
    if is_redirect(node) {
        targets_among(node.children, node.children.len())
    } else {
        Seq::empty()
    }
}

/// The targets of the redirects at and below the node, a space before each.
pub open spec fn targets_within(node: Syntax) -> Seq<char>
    decreases node, 0nat,
{
    own_targets(node) + targets_below(node.children, node.children.len())
}

/// The targets of the redirects at and below the first `n` of `children`.
pub open spec fn targets_below(children: Seq<Syntax>, n: nat) -> Seq<char>
    decreases children, n,
{
    if n == 0 || n > children.len() {
        Seq::empty()
    } else {
        targets_below(children, (n - 1) as nat) + targets_within(children[n - 1])
    }
}

fn append_own_targets(node: &SyntaxNode, targets: &mut String)
    ensures
        final(targets)@ == old(targets)@ + own_targets(node@),
{
    if !is_redirect_node(node) {
        assert(targets@ + own_targets(node@) =~= targets@);
        return ;
    }
    let ghost children = node@.children;
    let mut i: usize = 0;
    while i < node.children.len()
        invariant
            i <= node.children@.len(),
            children == node@.children,
            targets@ =~= old(targets)@ + targets_among(children, i as nat),
        decreases node.children@.len() - i,
    {
        let child = &node.children[i];
        assert(child@ == children[i as int]);
        if let Some(field) = &child.field {
            if same_text(field, "destination") {
                targets.append(" ");
                append_text_without(child, Part::Substitution, targets);
            }
        }
        i += 1;
    }
}

/// Appends the targets of the redirects at and below the node, a space before each.
pub fn append_targets_within(node: &SyntaxNode, targets: &mut String)
    ensures
        final(targets)@ == old(targets)@ + targets_within(node@),
    decreases node,
{
    let ghost children = node@.children;
    append_own_targets(node, targets);
    let mut i: usize = 0;
    while i < node.children.len()
        invariant
            i <= node.children@.len(),
            children == node@.children,
            targets@ =~= old(targets)@ + own_targets(node@) + targets_below(children, i as nat),
        decreases node.children@.len() - i,
    {
        let child = &node.children[i];
        assert(child@ == children[i as int]);
        append_targets_within(child, targets);
        i += 1;
    }
}

} // verus!
