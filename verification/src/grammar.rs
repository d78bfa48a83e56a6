//! The Bash grammar: what the `tree-sitter` parser with the `tree-sitter-bash` grammar finds
//! in a source text, as plain values.
use tree_sitter::Tree;
use vstd::prelude::*;
use vstd::utf8::*;

use crate::text::{byte_len, is_ascii_digit, is_piece_of, to_chars};

verus! {

/// A syntax tree of the `tree-sitter` crate.
#[verifier::external_type_specification]
#[verifier::external_body]
pub struct ExTree(Tree);

/// What is known of one node of a syntax tree.
#[verifier::ext_equal]
pub struct NodeFacts {
    /// The node's type in the grammar.
    pub kind: Seq<char>,
    /// The number of nodes above it.
    pub depth: nat,
    /// Whether a named rule of the grammar made it.
    pub named: bool,
    /// The field under which its parent holds it.
    pub field: Option<Seq<char>>,
    /// The source text that it covers, where that is text.
    pub text: Option<Seq<char>>,
}

/// The same as executable values.
#[derive(Debug)]
pub struct NodeRecord {
    pub kind: String,
    pub depth: u32,
    pub named: bool,
    pub field: Option<String>,
    pub text: Option<String>,
}

pub open spec fn optional_text(text: Option<String>) -> Option<Seq<char>> {
    match text {
        Some(text) => Some(text@),
        None => None,
    }
}

impl View for NodeRecord {
    type V = NodeFacts;

    open spec fn view(&self) -> NodeFacts {
        NodeFacts {
            kind: self.kind@,
            depth: self.depth as nat,
            named: self.named,
            field: optional_text(self.field),
            text: optional_text(self.text),
        }
    }
}

/// The source text that a tree was parsed from.
pub uninterp spec fn tree_source(tree: Tree) -> Seq<char>;

/// The nodes of a tree, each before its descendants and siblings in order, with the text that
/// each covers in the tree's source.
pub uninterp spec fn tree_nodes(tree: Tree) -> Seq<NodeFacts>;

/// The nodes of the tree that the parser makes of a source text in ASCII.
pub uninterp spec fn bash_nodes(source: Seq<char>) -> Seq<NodeFacts>;

/// A character of a range such as `1..3`.
pub open spec fn is_range_char(c: char) -> bool {
    is_ascii_digit(c) || c == '.'
}

/// The character at `j`, above U+00FF, stands behind the `{` at `i` with nothing between them
/// but what a range is made of.
pub open spec fn is_wide_in_range(source: Seq<char>, i: int, j: int) -> bool {
    &&& 0 <= i < j < source.len()
    &&& source[i] == '{'
    &&& source[j] > '\u{ff}'
    &&& forall|k: int| i < k < j ==> is_range_char(#[trigger] source[k])
}

/// The parser can read `source`: it counts the positions in it in 32 bits, and looks up the
/// characters of what may be a range in a table that ends at U+00FF.
pub open spec fn is_parseable(source: Seq<char>) -> bool {
    &&& byte_len(source) < u32::MAX
    &&& forall|i: int, j: int| !#[trigger] is_wide_in_range(source, i, j)
}

/// A range may be open at the end of the first `n` characters of `source`: a `{` with nothing
/// behind it but what a range is made of.
spec fn in_range_at(source: Seq<char>, n: int) -> bool {
    exists|i: int| #[trigger] opens_range_at(source, i, n)
}

spec fn opens_range_at(source: Seq<char>, i: int, n: int) -> bool {
    &&& 0 <= i < n <= source.len()
    &&& source[i] == '{'
    &&& forall|k: int| i < k < n ==> is_range_char(#[trigger] source[k])
}

/// Whether the parser can read `source`.
pub fn can_parse(source: &str) -> (result: bool)
    ensures
        result == is_parseable(source@),
{
    let bytes = source.as_bytes();
    if bytes.len() as u64 >= u32::MAX as u64 {
        return false;
    }
    let text = to_chars(source);
    let mut in_range = false;
    let mut n: usize = 0;
    while n < text.len()
        invariant
            n <= text@.len(),
            text@ == source@,
            in_range == in_range_at(source@, n as int),
            forall|i: int, j: int| j < n ==> !#[trigger] is_wide_in_range(source@, i, j),
        decreases text@.len() - n,
    {
        let c: char = text[n];
        let ghost earlier = choose|i: int| #[trigger] opens_range_at(source@, i, n as int);
        if in_range && c > '\u{ff}' {
            assert(is_wide_in_range(source@, earlier, n as int));
            return false;
        }
        assert forall|i: int, j: int| j < n + 1 implies !#[trigger] is_wide_in_range(
            source@,
            i,
            j,
        ) by {
            if j == n && is_wide_in_range(source@, i, j) {
                assert(opens_range_at(source@, i, j));
            }
        }
        let continues = in_range && (('0' <= c && c <= '9') || c == '.');
        proof {
            if c == '{' {
                assert(opens_range_at(source@, n as int, n + 1));
            } else if continues {
                assert(opens_range_at(source@, earlier, n + 1));
            }
            if in_range_at(source@, n + 1) && c != '{' {
                let i = choose|i: int| #[trigger] opens_range_at(source@, i, n + 1);
                assert(is_range_char(source@[n as int]));
                assert(opens_range_at(source@, i, n as int));
            }
        }
        in_range = c == '{' || continues;
        n += 1;
    }
    assert forall|i: int, j: int| !#[trigger] is_wide_in_range(source@, i, j) by {
        if is_wide_in_range(source@, i, j) {
            assert(j < n);
        }
    }
    true
}

/// The depths of the nodes are those of one tree: a root, and each node behind it at most one
/// step below the node before it.
pub open spec fn is_well_nested(nodes: Seq<NodeFacts>) -> bool {
    &&& nodes.len() > 0
    &&& nodes[0].depth == 0
    &&& forall|i: int|
        1 <= i < nodes.len() ==> 1 <= (#[trigger] nodes[i]).depth <= nodes[i - 1].depth + 1
}

/// `tree_sitter::Parser::parse`, on a new parser that `tree_sitter::Parser::set_language` has
/// given the grammar `tree_sitter_bash::LANGUAGE`, without an old tree. A tree comes back: the
/// parser supports the version of the grammar's format, gives up only where a progress callback
/// asks it to, and puts error nodes where the source is no program. The tree has this source,
/// and its nodes, listed each before its descendants, nest as those of a tree do. For a source
/// in ASCII they depend on the source alone. Nothing of the kind is claimed for other sources:
/// the grammar's scanner classifies characters with the C library's `iswspace`, `iswalpha`,
/// `iswalnum` and `iswdigit`, which differ outside ASCII with the locale and the platform. Two
/// kinds of source are left out. The parser counts bytes in 32 bits, so a longer source is one.
/// Behind a `{` the scanner calls C's `isdigit`, which is defined up to U+00FF only, on each
/// character until one is no part of a range: a source where a higher one comes first is the
/// other.
#[verifier::external_body]
fn parse_source(source: &str) -> (result: Option<Tree>)
    requires
        is_parseable(source@),
    ensures
        result is Some,
        result matches Some(tree) ==> tree_source(tree) == source@ && is_well_nested(
            tree_nodes(tree),
        ),
        is_ascii_chars(source@) ==> (result matches Some(tree) ==> tree_nodes(tree) == bash_nodes(
            source@,
        )),
{
    let mut parser = tree_sitter::Parser::new();
    let language = tree_sitter_bash::LANGUAGE;
    parser.set_language(&language.into()).ok()?;
    parser.parse(source, None)
}

/// `tree_sitter::Node::descendant_count` of the root: the number of nodes of the tree, the
/// root included.
#[verifier::external_body]
fn node_count(tree: &Tree) -> (result: usize)
    ensures
        result == tree_nodes(*tree).len(),
{
    tree.root_node().descendant_count()
}

/// `tree_sitter::TreeCursor::goto_descendant`, from the root: the node at the given place in
/// the order of `tree_nodes`, read with the cursor's `depth` and `field_name` and the node's
/// `kind`, `is_named` and `utf8_text`. The text is a slice of the source that the tree was
/// parsed from.
#[verifier::external_body]
fn node_record(tree: &Tree, source: &str, index: usize) -> (result: NodeRecord)
    requires
        source@ == tree_source(*tree),
        index < tree_nodes(*tree).len(),
    ensures
        result@ == tree_nodes(*tree)[index as int],
        result.text matches Some(text) ==> is_piece_of(text@, source@),
{
    let mut cursor = tree.walk();
    cursor.goto_descendant(index);
    let node = cursor.node();
    NodeRecord {
        kind: node.kind().to_string(),
        depth: cursor.depth(),
        named: node.is_named(),
        field: cursor.field_name().map(str::to_string),
        text: node.utf8_text(source.as_bytes()).ok().map(str::to_string),
    }
}

pub open spec fn facts(records: Seq<NodeRecord>) -> Seq<NodeFacts> {
    records.map_values(|record: NodeRecord| record@)
}

/// Every text among the nodes is a piece of `source`.
pub open spec fn facts_drawn_from(nodes: Seq<NodeFacts>, source: Seq<char>) -> bool {
    forall|i: int|
        0 <= i < nodes.len() ==> (#[trigger] nodes[i].text matches Some(text) ==> is_piece_of(
            text,
            source,
        ))
}

/// Parsing `source` may give these nodes, the root first: they are those of a tree that was
/// parsed from it. For a source in ASCII there is one possible list.
pub open spec fn is_parse_of(source: Seq<char>, nodes: Seq<NodeFacts>) -> bool {
    &&& exists|tree: Tree| #[trigger] tree_source(tree) == source && tree_nodes(tree) == nodes
    &&& is_ascii_chars(source) ==> nodes == bash_nodes(source)
    &&& is_well_nested(nodes)
    &&& facts_drawn_from(nodes, source)
}

/// The nodes of the syntax tree of `source`, each before its descendants.
pub fn parse_records(source: &str) -> (result: Option<Vec<NodeRecord>>)
    requires
        is_parseable(source@),
    ensures
        result matches Some(records) && is_parse_of(source@, facts(records@)),
{
    let tree = match parse_source(source) {
        Some(tree) => tree,
        None => return None,
    };
    let count: usize = node_count(&tree);
    let mut records: Vec<NodeRecord> = Vec::new();
    let mut index: usize = 0;
    while index < count
        invariant
            index <= count,
            count == tree_nodes(tree).len(),
            source@ == tree_source(tree),
            facts(records@) =~= tree_nodes(tree).take(index as int),
            facts_drawn_from(facts(records@), source@),
        decreases count - index,
    {
        let record = node_record(&tree, source, index);
        let ghost before = records@;
        records.push(record);
        assert(facts(records@) =~= facts(before).push(record@));
        assert(tree_nodes(tree).take(index + 1) =~= tree_nodes(tree).take(index as int).push(
            tree_nodes(tree)[index as int],
        ));
        assert(facts_drawn_from(facts(records@), source@)) by {
            assert forall|i: int| 0 <= i < facts(records@).len() implies (
            #[trigger] facts(records@)[i].text matches Some(text) ==> is_piece_of(
                text,
                source@,
            )) by {
                if i < facts(before).len() {
                    assert(facts(records@)[i] == facts(before)[i]);
                }
            }
        }
        index += 1;
    }
    assert(tree_nodes(tree).take(count as int) =~= tree_nodes(tree));
    assert(tree_source(tree) == source@ && tree_nodes(tree) == facts(records@));
    Some(records)
}

} // verus!
