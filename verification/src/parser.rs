//! The boundary to the tree-sitter parser with the GDScript grammar.

use vstd::prelude::*;
use vstd::utf8::encode_utf8;
use crate::syntax::{tree_fits, NodeModel, SyntaxNode, SyntaxTree};

verus! {

/// A syntax tree of the `tree-sitter` crate.
#[verifier::external_type_specification]
#[verifier::external_body]
pub struct ExTree(tree_sitter::Tree);

/// The content of a parse.
pub enum ParseModel {
    /// The parser does not take the grammar, for the given reason.
    Refused(Seq<char>),
    /// The parser gave no tree.
    NoTree,
    /// The text does not follow the grammar.
    Broken,
    /// The tree of a text that follows the grammar: its nodes in pre-order.
    Tree(Seq<NodeModel>),
}

/// What a parse of a text yields.
pub enum Parsed {
    /// The parser does not take the grammar, for the given reason.
    Refused(String),
    /// The parser gave no tree.
    NoTree,
    /// The text does not follow the grammar.
    Broken,
    /// The tree of a text that follows the grammar.
    Tree(SyntaxTree),
}

impl View for Parsed {
    type V = ParseModel;

    open spec fn view(&self) -> ParseModel {
        match self {
            Parsed::Refused(reason) => ParseModel::Refused(reason@),
            Parsed::NoTree => ParseModel::NoTree,
            Parsed::Broken => ParseModel::Broken,
            Parsed::Tree(tree) => ParseModel::Tree(tree@),
        }
    }
}

/// The visible nodes that a tree holds, in pre-order, the root first.
pub uninterp spec fn tree_nodes(tree: tree_sitter::Tree) -> Seq<NodeModel>;

/// Whether a tree holds a syntax error.
pub uninterp spec fn tree_has_error(tree: tree_sitter::Tree) -> bool;

/// The number of bytes from which on a text is too long for the 32-bit byte offsets
/// and rows of a tree.
pub const LENGTH_LIMIT: usize = 0xffff_ffff;

/// Whether `source` is short enough for the offsets of a tree.
pub open spec fn within_length(source: Seq<char>) -> bool {
    encode_utf8(source).len() < LENGTH_LIMIT
}

/// What a fresh tree-sitter parser with the GDScript grammar makes of a text.
pub uninterp spec fn gdscript_parse(source: Seq<char>) -> ParseModel;

/// `tree_sitter::Parser::set_language` with the grammar
/// `tree_sitter_gdscript::LANGUAGE`, then `tree_sitter::Parser::parse` without an
/// older tree, on a fresh parser. The outcome depends on the text alone: the reason
/// why the grammar is refused (the `Display` text of the crate's `LanguageError`),
/// no tree, or a tree, of which it is known whether it holds errors and which nodes
/// it has. Which tree belongs to which text is left to the grammar. The lexer moves
/// through a text by whole characters and counts a row for each line feed, and every
/// node starts and ends where the lexer was; so each node of a tree without errors is
/// a part of the text, on the rows it says, as long as 32-bit offsets do not run out.
#[verifier::external_body]
fn parse_source(source: &str) -> (r: Result<Option<tree_sitter::Tree>, String>)
    ensures
        gdscript_parse(source@) == (match r {
            Err(reason) => ParseModel::Refused(reason@),
            Ok(None) => ParseModel::NoTree,
            Ok(Some(tree)) => if tree_has_error(tree) {
                ParseModel::Broken
            } else {
                ParseModel::Tree(tree_nodes(tree))
            },
        }),
        r matches Ok(Some(tree)) ==> !tree_has_error(tree) && within_length(source@) ==> tree_fits(
            source@,
            tree_nodes(tree),
        ),
{
    let mut parser = tree_sitter::Parser::new();
    match parser.set_language(&tree_sitter_gdscript::LANGUAGE.into()) {
        Ok(()) => Ok(parser.parse(source, None)),
        Err(error) => Err(error.to_string()),
    }
}

/// `tree_sitter::Node::has_error` of the root: whether there is a syntax error
/// anywhere in the tree.
#[verifier::external_body]
fn has_error(tree: &tree_sitter::Tree) -> (r: bool)
    ensures
        r == tree_has_error(*tree),
{
    tree.root_node().has_error()
}

/// `tree_sitter::Node::descendant_count` of the root: the number of nodes that the
/// tree holds, the root included.
#[verifier::external_body]
fn node_count(tree: &tree_sitter::Tree) -> (r: usize)
    ensures
        r == tree_nodes(*tree).len(),
        r >= 1,
{
    tree.root_node().descendant_count()
}

/// `tree_sitter::TreeCursor::goto_descendant`: the node with the given number in
/// pre-order, with its kind, its field in its parent, whether it is named, its depth
/// below the root, and its place in the text.
#[verifier::external_body]
fn node_at(tree: &tree_sitter::Tree, index: usize) -> (r: SyntaxNode)
    requires
        index < tree_nodes(*tree).len(),
    ensures
        r@ == tree_nodes(*tree)[index as int],
{
    let mut cursor = tree.walk();
    cursor.goto_descendant(index);
    let node = cursor.node();
    let field = match cursor.field_name() { Some(f) => Some(f.to_string()), None => None };
    SyntaxNode {
        kind: node.kind().to_string(),
        field,
        named: node.is_named(),
        depth: cursor.depth(),
        start_byte: node.start_byte(),
        end_byte: node.end_byte(),
        start_row: node.start_position().row,
        end_row: node.end_position().row,
    }
}

/// Copies the nodes of a tree.
fn capture(tree: &tree_sitter::Tree) -> (r: SyntaxTree)
    ensures
        r@ == tree_nodes(*tree),
        r@.len() > 0,
{
    let n = node_count(tree);
    let mut nodes: Vec<SyntaxNode> = Vec::new();
    for i in 0..n
        invariant
            n == tree_nodes(*tree).len(),
            nodes@.len() == i,
            forall|k: int| 0 <= k < i ==> (#[trigger] nodes@[k])@ == tree_nodes(*tree)[k],
    {
        nodes.push(node_at(tree, i));
    }
    let copy = SyntaxTree { nodes };
    proof {
        assert(copy@ =~= tree_nodes(*tree));
    }
    copy
}

/// Parses a GDScript text.
pub fn parse(source: &str) -> (r: Parsed)
    ensures
        r@ == gdscript_parse(source@),
        r matches Parsed::Tree(tree) ==> {
            &&& tree@.len() > 0
            &&& within_length(source@) ==> tree_fits(source@, tree@)
        },
{
    match parse_source(source) {
        Err(reason) => Parsed::Refused(reason),
        Ok(None) => Parsed::NoTree,
        Ok(Some(tree)) => if has_error(&tree) {
            Parsed::Broken
        } else {
            Parsed::Tree(capture(&tree))
        },
    }
}

} // verus!
