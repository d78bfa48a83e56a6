//! Syntax trees of shell commands.
use vstd::prelude::*;
use vstd::utf8::*;

use crate::grammar::{
    bash_nodes, facts, facts_drawn_from, is_parse_of, is_parseable, parse_records, NodeFacts,
    NodeRecord,
};
use crate::text::{is_piece_of, same_text};

verus! {

/// A node of a syntax tree, with its subtree.
#[derive(Debug)]
pub struct SyntaxNode {
    /// The node's type in the grammar.
    pub kind: String,
    /// Whether a named rule of the grammar made it.
    pub named: bool,
    /// The field under which its parent holds it.
    pub field: Option<String>,
    /// The source text that it covers.
    pub text: String,
    pub children: Vec<SyntaxNode>,
}

/// The mathematical value of a `SyntaxNode`.
#[verifier::ext_equal]
pub struct Syntax {
    pub kind: Seq<char>,
    pub named: bool,
    pub field: Option<Seq<char>>,
    pub text: Seq<char>,
    pub children: Seq<Syntax>,
}

impl SyntaxNode {
    pub open spec fn view(&self) -> Syntax
        decreases self,
    {
        Syntax {
            kind: self.kind@,
            named: self.named,
            field: match self.field {
                Some(field) => Some(field@),
                None => None,
            },
            text: self.text@,
            children: Seq::new(
                self.children@.len(),
                |i: int|
                    if 0 <= i < self.children@.len() {
                        self.children@[i].view()
                    } else {
                        arbitrary()
                    },
            ),
        }
    }

    /// The first child that the node holds under `field`.
    pub fn child_by_field_name(&self, field: &str) -> (result: Option<&SyntaxNode>)
        ensures
            (match result {
                Some(child) => Some(child@),
                None => None,
            }) == field_child(self@, field@),
    {
        let mut i: usize = 0;
        while i < self.children.len()
            invariant
                i <= self.children@.len(),
                forall|k: int| 0 <= k < i ==> !in_field(#[trigger] self@.children[k], field@),
            decreases self.children@.len() - i,
        {
            let child = &self.children[i];
            assert(child@ == self@.children[i as int]);
            if let Some(name) = &child.field {
                if same_text(name, field) {
                    proof {
                        lemma_first_in_field(self@.children, field@, i as int);
                    }
                    return Some(child);
                }
            }
            i += 1;
        }
        proof {
            lemma_none_in_field(self@.children, field@);
        }
        None
    }
}

pub open spec fn node_views(nodes: Seq<SyntaxNode>) -> Seq<Syntax> {
    nodes.map_values(|node: SyntaxNode| node@)
}

pub open spec fn optional_node(node: Option<SyntaxNode>) -> Option<Syntax> {
    match node {
        Some(node) => Some(node@),
        None => None,
    }
}

pub open spec fn in_field(node: Syntax, field: Seq<char>) -> bool {
    node.field == Some(field)
}

/// The first of `nodes` that its parent holds under `field`.
pub open spec fn first_in_field(nodes: Seq<Syntax>, field: Seq<char>) -> Option<Syntax>
    decreases nodes.len(),
{
    if nodes.len() == 0 {
        None
    } else if in_field(nodes[0], field) {
        Some(nodes[0])
    } else {
        first_in_field(nodes.drop_first(), field)
    }
}

/// The first child of `node` under `field`.
pub open spec fn field_child(node: Syntax, field: Seq<char>) -> Option<Syntax> {
    first_in_field(node.children, field)
}

proof fn lemma_first_in_field(nodes: Seq<Syntax>, field: Seq<char>, n: int)
    requires
        0 <= n < nodes.len(),
        in_field(nodes[n], field),
        forall|k: int| 0 <= k < n ==> !in_field(#[trigger] nodes[k], field),
    ensures
        first_in_field(nodes, field) == Some(nodes[n]),
    decreases n,
{
    if n > 0 {
        assert(!in_field(nodes[0], field));
        assert forall|k: int| 0 <= k < n - 1 implies !in_field(
            #[trigger] nodes.drop_first()[k],
            field,
        ) by {
            assert(nodes.drop_first()[k] == nodes[k + 1]);
        }
        lemma_first_in_field(nodes.drop_first(), field, n - 1);
    }
}

proof fn lemma_none_in_field(nodes: Seq<Syntax>, field: Seq<char>)
    requires
        forall|k: int| 0 <= k < nodes.len() ==> !in_field(#[trigger] nodes[k], field),
    ensures
        first_in_field(nodes, field) == None::<Syntax>,
    decreases nodes.len(),
{
    if nodes.len() > 0 {
        assert(!in_field(nodes[0], field));
        assert forall|k: int| 0 <= k < nodes.drop_first().len() implies !in_field(
            #[trigger] nodes.drop_first()[k],
            field,
        ) by {
            assert(nodes.drop_first()[k] == nodes[k + 1]);
        }
        lemma_none_in_field(nodes.drop_first(), field);
    }
}

/// Every text in the tree is a piece of `source`.
pub open spec fn drawn_from(node: Syntax, source: Seq<char>) -> bool
    decreases node,
{
    &&& is_piece_of(node.text, source)
    &&& forall|i: int|
        0 <= i < node.children.len() ==> drawn_from(#[trigger] node.children[i], source)
}

/// The node that `facts` describes, with the given children. A node whose range is no text
/// counts as empty.
pub open spec fn labelled(facts: NodeFacts, children: Seq<Syntax>) -> Syntax {
    Syntax {
        kind: facts.kind,
        named: facts.named,
        field: facts.field,
        text: match facts.text {
            Some(text) => text,
            None => Seq::empty(),
        },
        children,
    }
}

/// The end of the run of nodes, from `from` on and before `to`, that are deeper than `depth`.
pub open spec fn deeper_until(nodes: Seq<NodeFacts>, depth: nat, from: int, to: int) -> int
    decreases to - from,
{
    if from < to && nodes[from].depth > depth {
        deeper_until(nodes, depth, from + 1, to)
    } else {
        from
    }
}

/// A run of deeper nodes ends within its bounds.
pub proof fn lemma_deeper_until(nodes: Seq<NodeFacts>, depth: nat, from: int, to: int)
    requires
        from <= to,
    ensures
        from <= deeper_until(nodes, depth, from, to) <= to,
    decreases to - from,
{
    if from < to && nodes[from].depth > depth {
        lemma_deeper_until(nodes, depth, from + 1, to);
    }
}

/// The trees that the nodes from `from` to `to` make up, listed each before its descendants:
/// a node's descendants are the deeper nodes that follow it directly.
pub open spec fn forest(nodes: Seq<NodeFacts>, from: int, to: int) -> Seq<Syntax>
    decreases to - from,
{
    if from >= to {
        Seq::empty()
    } else {
        proof {
            lemma_deeper_until(nodes, nodes[from].depth, from + 1, to);
        }
        let end = deeper_until(nodes, nodes[from].depth, from + 1, to);
        seq![labelled(nodes[from], forest(nodes, from + 1, end))] + forest(nodes, end, to)
    }
}

/// The tree that a non-empty list of nodes makes up: the first is the root.
pub open spec fn tree_of(nodes: Seq<NodeFacts>) -> Syntax {
    labelled(nodes[0], forest(nodes, 1, nodes.len() as int))
}

/// The syntax tree of a command in ASCII.
pub open spec fn bash_syntax(command: Seq<char>) -> Syntax {
    tree_of(bash_nodes(command))
}

/// What parsing `command` may give: the tree that the parser's nodes for the command make up,
/// whose texts are pieces of it. For a command in ASCII there is one possible tree.
pub open spec fn is_syntax_of(command: Seq<char>, outcome: Option<Syntax>) -> bool {
    &&& exists|nodes: Seq<NodeFacts>| #[trigger]
        is_parse_of(command, nodes) && outcome == Some(tree_of(nodes))
    &&& outcome matches Some(root) ==> drawn_from(root, command)
    &&& is_ascii_chars(command) ==> outcome == Some(bash_syntax(command))
}

fn label(record: &NodeRecord, children: Vec<SyntaxNode>) -> (result: SyntaxNode)
    ensures
        result@ == labelled(record@, node_views(children@)),
{
    let field = match &record.field {
        Some(field) => Some(field.clone()),
        None => None,
    };
    let text = match &record.text {
        Some(text) => text.clone(),
        None => String::new(),
    };
    let node = SyntaxNode { kind: record.kind.clone(), named: record.named, field, text, children };
    assert(node@.children =~= node_views(children@));
    node
}

fn build_forest(records: &Vec<NodeRecord>, from: usize, to: usize) -> (result: Vec<SyntaxNode>)
    requires
        from <= to <= records@.len(),
    ensures
        node_views(result@) == forest(facts(records@), from as int, to as int),
    decreases to - from,
{
    let ghost nodes = facts(records@);
    let mut trees: Vec<SyntaxNode> = Vec::new();
    let mut at: usize = from;
    while at < to
        invariant
            from <= at <= to <= records@.len(),
            nodes == facts(records@),
            forest(nodes, from as int, to as int) =~= node_views(trees@) + forest(
                nodes,
                at as int,
                to as int,
            ),
        decreases to - at,
    {
        let depth: u32 = records[at].depth;
        let mut end: usize = at + 1;
        while end < to && records[end].depth > depth
            invariant
                at < end <= to <= records@.len(),
                nodes == facts(records@),
                deeper_until(nodes, depth as nat, at + 1, to as int) == deeper_until(
                    nodes,
                    depth as nat,
                    end as int,
                    to as int,
                ),
            decreases to - end,
        {
            end += 1;
        }
        let children = build_forest(records, at + 1, end);
        let tree = label(&records[at], children);
        let ghost before = trees@;
        trees.push(tree);
        assert(node_views(trees@) =~= node_views(before).push(tree@));
        at = end;
    }
    trees
}

proof fn lemma_forest_drawn(nodes: Seq<NodeFacts>, from: int, to: int, source: Seq<char>)
    requires
        0 <= from <= to <= nodes.len(),
        facts_drawn_from(nodes, source),
    ensures
        forall|i: int|
            0 <= i < forest(nodes, from, to).len() ==> drawn_from(
                #[trigger] forest(nodes, from, to)[i],
                source,
            ),
    decreases to - from,
{
    if from < to {
        let end = deeper_until(nodes, nodes[from].depth, from + 1, to);
        lemma_deeper_until(nodes, nodes[from].depth, from + 1, to);
        lemma_forest_drawn(nodes, from + 1, end, source);
        lemma_forest_drawn(nodes, end, to, source);
        let first = labelled(nodes[from], forest(nodes, from + 1, end));
        lemma_empty_piece(source);
        assert(drawn_from(first, source));
        assert forall|i: int| 0 <= i < forest(nodes, from, to).len() implies drawn_from(
            #[trigger] forest(nodes, from, to)[i],
            source,
        ) by {
            if i > 0 {
                assert(forest(nodes, from, to)[i] == forest(nodes, end, to)[i - 1]);
            }
        }
    }
}

proof fn lemma_empty_piece(source: Seq<char>)
    ensures
        is_piece_of(Seq::empty(), source),
{
    assert(source.subrange(0, 0) =~= Seq::empty());
}

proof fn lemma_tree_drawn(nodes: Seq<NodeFacts>, source: Seq<char>)
    requires
        nodes.len() > 0,
        facts_drawn_from(nodes, source),
    ensures
        drawn_from(tree_of(nodes), source),
{
    lemma_forest_drawn(nodes, 1, nodes.len() as int, source);
    lemma_empty_piece(source);
    assert(nodes[0].text matches Some(text) ==> is_piece_of(text, source));
}

/// Parses a command into its syntax tree.
pub fn parse_bash(command: &str) -> (result: Option<SyntaxNode>)
    requires
        is_parseable(command@),
    ensures
        is_syntax_of(command@, optional_node(result)),
{
    match parse_records(command) {
        Some(records) => {
            let children = build_forest(&records, 1, records.len());
            proof {
                lemma_tree_drawn(facts(records@), command@);
                assert(is_parse_of(command@, facts(records@)));
            }
            Some(label(&records[0], children))
        },
        None => None,
    }
}

} // verus!
