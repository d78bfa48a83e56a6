//! Laws of the syntax tree that a list of nodes makes up.
use vstd::prelude::*;

use crate::grammar::{is_well_nested, NodeFacts};
use crate::laws::reports::{nodes_among, nodes_of};
use crate::syntax::{deeper_until, forest, labelled, lemma_deeper_until, tree_of, Syntax};

verus! {

/// `node` is what `facts` describes, whatever its children.
pub open spec fn describes(facts: NodeFacts, node: Syntax) -> bool {
    node == labelled(facts, node.children)
}

proof fn lemma_nodes_among_prefix(children: Seq<Syntax>, more: Seq<Syntax>, n: nat)
    requires
        n <= children.len(),
    ensures
        nodes_among(children + more, n) == nodes_among(children, n),
    decreases n,
{
    if n > 0 {
        lemma_nodes_among_prefix(children, more, (n - 1) as nat);
        assert((children + more)[n - 1] == children[n - 1]);
    }
}

proof fn lemma_nodes_among_concat(first: Seq<Syntax>, second: Seq<Syntax>, n: nat)
    requires
        n <= second.len(),
    ensures
        nodes_among(first + second, first.len() + n) == nodes_among(first, first.len())
            + nodes_among(second, n),
    decreases n,
{
    let all = first + second;
    if n == 0 {
        lemma_nodes_among_prefix(first, second, first.len());
        assert(nodes_among(first, first.len()) + nodes_among(second, 0) =~= nodes_among(
            first,
            first.len(),
        ));
    } else {
        lemma_nodes_among_concat(first, second, (n - 1) as nat);
        assert(all[first.len() + n - 1] == second[n - 1]);
        assert(nodes_among(all, first.len() + n) =~= nodes_among(first, first.len())
            + nodes_among(second, n));
    }
}

proof fn lemma_forest_lists_nodes(nodes: Seq<NodeFacts>, from: int, to: int)
    requires
        0 <= from <= to <= nodes.len(),
    ensures
        ({
            let trees = forest(nodes, from, to);
            let listed = nodes_among(trees, trees.len());
            &&& listed.len() == to - from
            &&& forall|i: int|
                0 <= i < listed.len() ==> describes(nodes[from + i], #[trigger] listed[i])
        }),
    decreases to - from,
{
    if from < to {
        let end = deeper_until(nodes, nodes[from].depth, from + 1, to);
        lemma_deeper_until(nodes, nodes[from].depth, from + 1, to);
        lemma_forest_lists_nodes(nodes, from + 1, end);
        lemma_forest_lists_nodes(nodes, end, to);
        let inner = forest(nodes, from + 1, end);
        let first = labelled(nodes[from], inner);
        let later = forest(nodes, end, to);
        let trees = forest(nodes, from, to);
        assert(trees == seq![first] + later);
        lemma_nodes_among_concat(seq![first], later, later.len());
        assert(nodes_among(seq![first], 1) =~= nodes_of(first)) by {
            assert(nodes_among(seq![first], 0) =~= Seq::empty());
            assert(seq![first][0] == first);
        }
        let below = nodes_among(inner, inner.len());
        let behind = nodes_among(later, later.len());
        let listed = nodes_among(trees, trees.len());
        assert(listed =~= seq![first] + below + behind);
        assert forall|i: int| 0 <= i < listed.len() implies describes(
            nodes[from + i],
            #[trigger] listed[i],
        ) by {
            if i == 0 {
                assert(listed[0] == first);
            } else if i < end - from {
                assert(listed[i] == below[i - 1]);
                assert(describes(nodes[from + 1 + (i - 1)], below[i - 1]));
            } else {
                assert(listed[i] == behind[i - (end - from)]);
                assert(describes(nodes[end + (i - (end - from))], behind[i - (end - from)]));
            }
        }
    }
}

/// The tree that a list of nodes makes up has these nodes and no others, in the same order,
/// each with its own kind, field and text.
pub proof fn law_tree_keeps_its_nodes(nodes: Seq<NodeFacts>)
    requires
        nodes.len() > 0,
    ensures
        nodes_of(tree_of(nodes)).len() == nodes.len(),
        forall|i: int|
            0 <= i < nodes.len() ==> describes(nodes[i], #[trigger] nodes_of(tree_of(nodes))[i]),
{
    lemma_forest_lists_nodes(nodes, 1, nodes.len() as int);
    let trees = forest(nodes, 1, nodes.len() as int);
    let below = nodes_among(trees, trees.len());
    let all = nodes_of(tree_of(nodes));
    assert(all =~= seq![tree_of(nodes)] + below);
    assert forall|i: int| 0 <= i < nodes.len() implies describes(nodes[i], #[trigger] all[i]) by {
        if i > 0 {
            assert(all[i] == below[i - 1]);
            assert(describes(nodes[1 + (i - 1)], below[i - 1]));
        }
    }
}

/// The depths of the nodes of a tree, each before its descendants, where the root's is `depth`.
pub open spec fn depths_of(node: Syntax, depth: nat) -> Seq<nat>
    decreases node, 0nat,
{
    seq![depth] + depths_among(node.children, depth + 1, node.children.len())
}

/// The depths of the nodes of the first `n` of `children`, which have depth `depth`.
pub open spec fn depths_among(children: Seq<Syntax>, depth: nat, n: nat) -> Seq<nat>
    decreases children, n,
{
    if n == 0 || n > children.len() {
        Seq::empty()
    } else {
        depths_among(children, depth, (n - 1) as nat) + depths_of(children[n - 1], depth)
    }
}

proof fn lemma_depths_among_prefix(children: Seq<Syntax>, more: Seq<Syntax>, depth: nat, n: nat)
    requires
        n <= children.len(),
    ensures
        depths_among(children + more, depth, n) == depths_among(children, depth, n),
    decreases n,
{
    if n > 0 {
        lemma_depths_among_prefix(children, more, depth, (n - 1) as nat);
        assert((children + more)[n - 1] == children[n - 1]);
    }
}

proof fn lemma_depths_among_concat(first: Seq<Syntax>, second: Seq<Syntax>, depth: nat, n: nat)
    requires
        n <= second.len(),
    ensures
        depths_among(first + second, depth, first.len() + n) == depths_among(
            first,
            depth,
            first.len(),
        ) + depths_among(second, depth, n),
    decreases n,
{
    let all = first + second;
    let head = depths_among(first, depth, first.len());
    if n == 0 {
        lemma_depths_among_prefix(first, second, depth, first.len());
        assert(head + depths_among(second, depth, 0) =~= head);
    } else {
        lemma_depths_among_concat(first, second, depth, (n - 1) as nat);
        assert(all[first.len() + n - 1] == second[n - 1]);
        assert(depths_among(all, depth, first.len() + n) =~= head + depths_among(
            second,
            depth,
            n,
        ));
    }
}

proof fn lemma_deeper_until_bounds(nodes: Seq<NodeFacts>, depth: nat, from: int, to: int)
    requires
        from <= to,
    ensures
        forall|i: int|
            from <= i < deeper_until(nodes, depth, from, to) ==> (#[trigger] nodes[i]).depth
                > depth,
        deeper_until(nodes, depth, from, to) < to ==> nodes[deeper_until(
            nodes,
            depth,
            from,
            to,
        )].depth <= depth,
    decreases to - from,
{
    if from < to && nodes[from].depth > depth {
        lemma_deeper_until_bounds(nodes, depth, from + 1, to);
    }
}

proof fn lemma_forest_depths(nodes: Seq<NodeFacts>, from: int, to: int, depth: nat)
    requires
        is_well_nested(nodes),
        1 <= from <= to <= nodes.len(),
        from < to ==> nodes[from].depth == depth,
        forall|i: int| from <= i < to ==> (#[trigger] nodes[i]).depth >= depth,
    ensures
        ({
            let trees = forest(nodes, from, to);
            depths_among(trees, depth, trees.len()) == Seq::new(
                (to - from) as nat,
                |i: int| nodes[from + i].depth,
            )
        }),
    decreases to - from,
{
    let trees = forest(nodes, from, to);
    let expected = Seq::new((to - from) as nat, |i: int| nodes[from + i].depth);
    if from < to {
        let end = deeper_until(nodes, depth, from + 1, to);
        lemma_deeper_until(nodes, depth, from + 1, to);
        lemma_deeper_until_bounds(nodes, depth, from + 1, to);
        lemma_forest_depths(nodes, from + 1, end, depth + 1);
        lemma_forest_depths(nodes, end, to, depth);
        let inner = forest(nodes, from + 1, end);
        let first = labelled(nodes[from], inner);
        let later = forest(nodes, end, to);
        lemma_depths_among_concat(seq![first], later, depth, later.len());
        assert(depths_among(seq![first], depth, 1) =~= depths_of(first, depth)) by {
            assert(depths_among(seq![first], depth, 0) =~= Seq::empty());
            assert(seq![first][0] == first);
        }
        let below = depths_among(inner, depth + 1, inner.len());
        let behind = depths_among(later, depth, later.len());
        assert(depths_among(trees, depth, trees.len()) =~= seq![depth] + below + behind);
        assert(seq![depth] + below + behind =~= expected);
    } else {
        assert(expected =~= Seq::empty());
    }
}

/// In the tree that a well-nested list of nodes makes up, every node stands at its own depth.
pub proof fn law_tree_keeps_depths(nodes: Seq<NodeFacts>)
    requires
        is_well_nested(nodes),
    ensures
        depths_of(tree_of(nodes), 0) == Seq::new(nodes.len(), |i: int| nodes[i].depth),
{
    let trees = forest(nodes, 1, nodes.len() as int);
    lemma_forest_depths(nodes, 1, nodes.len() as int, 1);
    let below = depths_among(trees, 1, trees.len());
    assert(depths_of(tree_of(nodes), 0) =~= seq![0nat] + below);
    assert(seq![0nat] + below =~= Seq::new(nodes.len(), |i: int| nodes[i].depth));
}

} // verus!
