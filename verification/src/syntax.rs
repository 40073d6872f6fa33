//! Syntax trees, as tree-sitter parses them.

use vstd::prelude::*;

verus! {

/// The grammars that source files can be parsed with.
#[derive(Debug, Clone, Copy, PartialEq, Eq, Structural)]
pub enum Grammar {
    Rust,
    Python,
    /// JavaScript, and close enough for the functions of TypeScript.
    JavaScript,
}

/// A node of a syntax tree.
#[derive(Debug, Clone)]
pub struct SyntaxNode {
    pub kind: String,
    /// The rows of the text that the node starts and ends in.
    pub start_row: usize,
    pub end_row: usize,
    /// The text of the node's field `name`, if it has one.
    pub name: Option<String>,
}

/// What a `SyntaxNode` says.
#[verifier::ext_equal]
pub struct NodeView {
    pub kind: Seq<char>,
    pub start_row: usize,
    pub end_row: usize,
    pub name: Option<Seq<char>>,
}

impl View for SyntaxNode {
    type V = NodeView;

    open spec fn view(&self) -> NodeView {
        NodeView {
            kind: self.kind@,
            start_row: self.start_row,
            end_row: self.end_row,
            name: match self.name {
                Some(n) => Some(n@),
                None => None,
            },
        }
    }
}

/// A syntax tree of tree-sitter.
#[verifier::external_type_specification]
#[verifier::external_body]
pub struct ExTree(tree_sitter::Tree);

/// The nodes of a syntax tree in document order: each before its children, and these one
/// after the other.
pub uninterp spec fn tree_nodes(tree: tree_sitter::Tree) -> Seq<NodeView>;

/// The text that a syntax tree was parsed from.
pub uninterp spec fn tree_source(tree: tree_sitter::Tree) -> Seq<char>;

/// Whether the syntax tree of a text is the same on every machine. The scanners of the
/// grammars for Rust and JavaScript ask the C library whether a character is a letter or
/// space, and what that says of characters outside ASCII is up to the library and its
/// locale. The scanner for Python does not ask.
pub open spec fn steady(grammar: Grammar, text: Seq<char>) -> bool {
    grammar == Grammar::Python || forall|i: int|
        0 <= i < text.len() ==> (#[trigger] text[i] as u32) < 128
}

/// The nodes of the syntax tree that tree-sitter makes of a steady text, in document order,
/// if it makes one.
pub uninterp spec fn syntax_of(grammar: Grammar, text: Seq<char>) -> Option<Seq<NodeView>>;

/// `tree_sitter::Parser::parse` with the grammar set by `Parser::set_language`: the syntax
/// tree of the text; none if the grammar does not fit the parser. For a steady text it
/// depends on the grammar and the text alone. Nothing is said of what tree another text
/// gets: that depends on the C library and its locale as well.
#[verifier::external_body]
pub(crate) fn parse_text(grammar: Grammar, text: &str) -> (r: Option<tree_sitter::Tree>)
    ensures
        match r {
            Some(t) => tree_source(t) == text@ && (steady(grammar, text@) ==> syntax_of(
                grammar,
                text@,
            ) == Some(tree_nodes(t))),
            None => steady(grammar, text@) ==> syntax_of(grammar, text@) is None,
        },
{
    let language: tree_sitter::Language = match grammar {
        Grammar::Rust => tree_sitter_rust::LANGUAGE.into(),
        Grammar::Python => tree_sitter_python::LANGUAGE.into(),
        Grammar::JavaScript => tree_sitter_javascript::LANGUAGE.into(),
    };
    let mut parser = tree_sitter::Parser::new();
    parser.set_language(&language).ok()?;
    parser.parse(text, None)
}

/// `tree_sitter::Node::descendant_count` of a tree's root: how many nodes the tree has, the
/// root included.
#[verifier::external_body]
pub(crate) fn node_count(tree: &tree_sitter::Tree) -> (r: usize)
    ensures
        r == tree_nodes(*tree).len(),
{
    tree.root_node().descendant_count()
}

/// `tree_sitter::TreeCursor::goto_descendant` from a tree's root: the node with the given
/// number in document order, with its kind, its rows, and the text of its field `name` as
/// far as that is UTF-8. A node does not end before it starts.
#[verifier::external_body]
pub(crate) fn node_at(tree: &tree_sitter::Tree, text: &str, i: usize) -> (r: SyntaxNode)
    requires
        tree_source(*tree) == text@,
        i < tree_nodes(*tree).len(),
    ensures
        r@ == tree_nodes(*tree)[i as int],
        r.start_row <= r.end_row,
{
    let mut cursor = tree.walk();
    cursor.goto_descendant(i);
    let node = cursor.node();
    let name = node.child_by_field_name("name").and_then(|n| n.utf8_text(text.as_bytes()).ok());
    SyntaxNode {
        kind: node.kind().to_string(),
        start_row: node.start_position().row,
        end_row: node.end_position().row,
        name: name.map(|n| n.to_string()),
    }
}

/// What nodes say, if there are any.
pub open spec fn nodes_view(nodes: Option<Vec<SyntaxNode>>) -> Option<Seq<NodeView>> {
    match nodes {
        Some(v) => Some(crate::sorting::views(v@)),
        None => None,
    }
}

/// Parses a text and gives the nodes of its syntax tree in document order. Those of a text
/// that is not steady depend on the C library and its locale as well.
pub fn parse_nodes(grammar: Grammar, text: &str) -> (r: Option<Vec<SyntaxNode>>)
    ensures
        steady(grammar, text@) ==> nodes_view(r) == syntax_of(grammar, text@),
        r is Some ==> forall|i: int|
            0 <= i < r->0@.len() ==> (#[trigger] r->0@[i]).start_row <= r->0@[i].end_row,
{
    match parse_text(grammar, text) {
        None => None,
        Some(tree) => {
            let mut out: Vec<SyntaxNode> = Vec::new();
            let n: usize = node_count(&tree);
            for i in 0..n
                invariant
                    n == tree_nodes(tree).len(),
                    tree_source(tree) == text@,
                    crate::sorting::views(out@) == tree_nodes(tree).take(i as int),
                    forall|j: int|
                        0 <= j < out@.len() ==> (#[trigger] out@[j]).start_row <= out@[j].end_row,
            {
                let ghost before = crate::sorting::views(out@);
                let node: SyntaxNode = node_at(&tree, text, i);
                let ghost shown = node@;
                out.push(node);
                assert(crate::sorting::views(out@) =~= before.push(shown));
                assert(tree_nodes(tree).take(i + 1) =~= before.push(shown));
            }
            assert(tree_nodes(tree).take(n as int) =~= tree_nodes(tree));
            Some(out)
        },
    }
}

} // verus!
