//! Laws of redirections: which of them write, and where they go.
use vstd::prelude::*;

use crate::laws::reports::{nodes_among, nodes_of};
use crate::omission::{text_without, Part};
use crate::redirects::{
    is_write_operator, own_targets, targets_among, targets_below, targets_within, writes,
    writes_within,
};
use crate::syntax::Syntax;

verus! {

/// The node redirects a file with an operator that has a `>` in it.
pub open spec fn is_output(node: Syntax) -> bool {
    &&& node.kind == "file_redirect"@ || node.kind == "redirection"@
    &&& exists|i: int|
        0 <= i < node.children.len() && !(#[trigger] node.children[i]).named
            && node.children[i].kind.contains('>')
}

proof fn lemma_output(node: Syntax)
    ensures
        writes(node) <==> is_output(node),
{
    if writes(node) {
        let i = choose|i: int|
            0 <= i < node.children.len() && is_write_operator(#[trigger] node.children[i]);
        assert(!node.children[i].named && node.children[i].kind.contains('>'));
    }
    if is_output(node) {
        let i = choose|i: int|
            0 <= i < node.children.len() && !(#[trigger] node.children[i]).named
                && node.children[i].kind.contains('>');
        assert(is_write_operator(node.children[i]));
    }
}

/// One of the nodes redirects output.
pub open spec fn has_output(nodes: Seq<Syntax>) -> bool {
    exists|i: int| 0 <= i < nodes.len() && is_output(#[trigger] nodes[i])
}

proof fn lemma_has_output_join(first: Seq<Syntax>, second: Seq<Syntax>)
    ensures
        has_output(first + second) <==> has_output(first) || has_output(second),
{
    let all = first + second;
    if has_output(first) {
        let i = choose|i: int| 0 <= i < first.len() && is_output(#[trigger] first[i]);
        assert(all[i] == first[i]);
    }
    if has_output(second) {
        let i = choose|i: int| 0 <= i < second.len() && is_output(#[trigger] second[i]);
        assert(all[first.len() + i] == second[i]);
    }
    if has_output(all) {
        let i = choose|i: int| 0 <= i < all.len() && is_output(#[trigger] all[i]);
        if i < first.len() {
            assert(first[i] == all[i]);
        } else {
            assert(second[i - first.len()] == all[i]);
        }
    }
}

/// A redirect that writes is found at any depth: a tree has one exactly where one of its nodes
/// is one.
pub proof fn law_writing_redirects_are_found(node: Syntax)
    ensures
        writes_within(node) <==> exists|i: int|
            0 <= i < nodes_of(node).len() && is_output(#[trigger] nodes_of(node)[i]),
    decreases node, 0nat,
{
    let below = nodes_among(node.children, node.children.len());
    lemma_output(node);
    lemma_writes_among(node.children, node.children.len());
    lemma_has_output_join(seq![node], below);
    assert(seq![node][0] == node);
    assert(has_output(seq![node]) <==> is_output(node));
    assert(has_output(nodes_of(node)) <==> is_output(node) || has_output(below));
}

proof fn lemma_writes_among(children: Seq<Syntax>, n: nat)
    requires
        n <= children.len(),
    ensures
        has_output(nodes_among(children, n)) <==> exists|i: int|
            0 <= i < n && writes_within(#[trigger] children[i]),
    decreases children, n,
{
    if n > 0 {
        lemma_writes_among(children, (n - 1) as nat);
        law_writing_redirects_are_found(children[n - 1]);
        lemma_has_output_join(nodes_among(children, (n - 1) as nat), nodes_of(children[n - 1]));
        assert(has_output(nodes_of(children[n - 1])) <==> writes_within(children[n - 1]));
    }
}

/// What a node that redirects a file gives as its targets.
pub open spec fn listed_targets(node: Syntax) -> Seq<char> {
    if node.kind == "file_redirect"@ || node.kind == "redirection"@ {
        targets_among(node.children, node.children.len())
    } else {
        Seq::empty()
    }
}

/// The targets that `nodes` give, in order.
pub open spec fn all_targets(nodes: Seq<Syntax>) -> Seq<char>
    decreases nodes.len(),
{
    if nodes.len() == 0 {
        Seq::empty()
    } else {
        all_targets(nodes.drop_last()) + listed_targets(nodes.last())
    }
}

proof fn lemma_all_targets_join(first: Seq<Syntax>, second: Seq<Syntax>)
    ensures
        all_targets(first + second) == all_targets(first) + all_targets(second),
    decreases second.len(),
{
    if second.len() == 0 {
        assert(first + second =~= first);
        assert(all_targets(first) + all_targets(second) =~= all_targets(first));
    } else {
        lemma_all_targets_join(first, second.drop_last());
        assert((first + second).drop_last() =~= first + second.drop_last());
        assert((first + second).last() == second.last());
        assert(all_targets(first + second) =~= all_targets(first) + all_targets(second));
    }
}

/// The targets of a redirection are those of all nodes in it that redirect a file, at any depth.
pub proof fn law_targets_are_those_of_all_redirects(node: Syntax)
    ensures
        targets_within(node) == all_targets(nodes_of(node)),
    decreases node, 0nat,
{
    let below = nodes_among(node.children, node.children.len());
    lemma_targets_below(node.children, node.children.len());
    lemma_all_targets_join(seq![node], below);
    assert(seq![node].drop_last() =~= Seq::<Syntax>::empty());
    assert(seq![node].last() == node);
    assert(all_targets(seq![node].drop_last()) =~= Seq::empty());
    assert(all_targets(seq![node]) =~= own_targets(node));
}

proof fn lemma_targets_below(children: Seq<Syntax>, n: nat)
    ensures
        targets_below(children, n) == all_targets(nodes_among(children, n)),
    decreases children, n,
{
    if 0 < n <= children.len() {
        lemma_targets_below(children, (n - 1) as nat);
        law_targets_are_those_of_all_redirects(children[n - 1]);
        lemma_all_targets_join(
            nodes_among(children, (n - 1) as nat),
            nodes_of(children[n - 1]),
        );
        assert(targets_below(children, n) =~= all_targets(nodes_among(children, n)));
    }
}

proof fn lemma_targets_of_prefix(first: Seq<Syntax>, second: Seq<Syntax>, n: nat)
    requires
        n <= first.len(),
    ensures
        targets_among(first + second, n) == targets_among(first, n),
    decreases n,
{
    if n > 0 {
        lemma_targets_of_prefix(first, second, (n - 1) as nat);
        assert((first + second)[n - 1] == first[n - 1]);
    }
}

proof fn lemma_targets_join(first: Seq<Syntax>, second: Seq<Syntax>, n: nat)
    requires
        n <= second.len(),
    ensures
        targets_among(first + second, first.len() + n) == targets_among(first, first.len())
            + targets_among(second, n),
    decreases n,
{
    let head = targets_among(first, first.len());
    if n == 0 {
        lemma_targets_of_prefix(first, second, first.len());
        assert(head + targets_among(second, 0) =~= head);
    } else {
        lemma_targets_join(first, second, (n - 1) as nat);
        assert((first + second)[first.len() + n - 1] == second[n - 1]);
        assert(targets_among(first + second, first.len() + n) =~= head + targets_among(
            second,
            n,
        ));
    }
}

/// The targets of a redirect are those of its children, one after the other: a child is one
/// exactly where its parent holds it as a destination.
pub proof fn law_targets_child_by_child(first: Seq<Syntax>, second: Seq<Syntax>, child: Syntax)
    ensures
        targets_among(first + second, (first + second).len()) == targets_among(
            first,
            first.len(),
        ) + targets_among(second, second.len()),
        targets_among(seq![child], 1) == (if child.field == Some("destination"@) {
            seq![' '] + text_without(child, Part::Substitution)
        } else {
            Seq::<char>::empty()
        }),
{
    lemma_targets_join(first, second, second.len());
    reveal_strlit(" ");
    assert(" "@ =~= seq![' ']);
    assert(seq![child][0] == child);
    assert(targets_among(seq![child], 0) =~= Seq::<char>::empty());
    assert(targets_among(seq![child], 1) =~= (if child.field == Some("destination"@) {
        seq![' '] + text_without(child, Part::Substitution)
    } else {
        Seq::<char>::empty()
    }));
}

} // verus!
