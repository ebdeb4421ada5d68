//! Syntax trees, as the outside parser gives them.

use vstd::prelude::*;

use crate::source_span::newlines;
use crate::text::byte_len;
use crate::views::Duplicate;

verus! {

/// A language that can be parsed.
#[derive(Debug, Clone, Copy, PartialEq, Eq, Structural)]
pub enum Grammar {
    /// Rust.
    Rust,
    /// JavaScript.
    JavaScript,
    /// Python.
    Python,
    /// Bash.
    Bash,
}

impl DeepView for Grammar {
    type V = Grammar;

    open spec fn deep_view(&self) -> Grammar {
        *self
    }
}

impl Duplicate for Grammar {
    fn duplicate(&self) -> (r: Self) {
        *self
    }
}

/// A node of a syntax tree.
#[derive(Debug, Clone, PartialEq)]
pub struct SyntaxNode {
    /// The kind of the node.
    pub kind: String,
    /// Whether the node is named in the grammar.
    pub named: bool,
    /// The byte at which it starts.
    pub start_byte: usize,
    /// The byte after its end.
    pub end_byte: usize,
    /// The row, from 0, in which it starts.
    pub start_row: usize,
    /// The row, from 0, in which it ends.
    pub end_row: usize,
    /// The column, from 0, at which it ends.
    pub end_column: usize,
}

/// The mathematical content of a [`SyntaxNode`].
#[verifier::ext_equal]
pub ghost struct SyntaxNodeView {
    pub kind: Seq<char>,
    pub named: bool,
    pub start_byte: usize,
    pub end_byte: usize,
    pub start_row: usize,
    pub end_row: usize,
    pub end_column: usize,
}

impl View for SyntaxNode {
    type V = SyntaxNodeView;

    open spec fn view(&self) -> SyntaxNodeView {
        SyntaxNodeView {
            kind: self.kind.deep_view(),
            named: self.named.deep_view(),
            start_byte: self.start_byte.deep_view(),
            end_byte: self.end_byte.deep_view(),
            start_row: self.start_row.deep_view(),
            end_row: self.end_row.deep_view(),
            end_column: self.end_column.deep_view(),
        }
    }
}

impl DeepView for SyntaxNode {
    type V = SyntaxNodeView;

    open spec fn deep_view(&self) -> SyntaxNodeView {
        self@
    }
}

impl Duplicate for SyntaxNode {
    fn duplicate(&self) -> (r: Self) {
        SyntaxNode {
            kind: self.kind.duplicate(),
            named: self.named,
            start_byte: self.start_byte,
            end_byte: self.end_byte,
            start_row: self.start_row,
            end_row: self.end_row,
            end_column: self.end_column,
        }
    }
}

/// A syntax tree of the outside parser.
#[verifier::external_type_specification]
#[verifier::external_body]
pub struct ExTree(tree_sitter::Tree);

/// What a syntax tree was parsed from: the grammar and the text.
pub uninterp spec fn parsed_from(tree: tree_sitter::Tree) -> (Grammar, Seq<char>);

/// How parsing a text with a grammar ends: with the message of the parser that refuses the
/// grammar, or with whether there is a tree.
pub uninterp spec fn parse_outcome(grammar: Grammar, text: Seq<char>) -> Result<bool, Seq<char>>;

/// The nodes of the syntax tree of a text, each with its depth, a node before its children
/// and children in order.
pub uninterp spec fn syntax_nodes(grammar: Grammar, text: Seq<char>) -> Seq<
    (usize, SyntaxNodeView),
>;

/// The smallest node that spans the bytes from `start` to `end` in the syntax tree of a text,
/// followed by its parent, the parent of that, and so on to the root; empty where there is
/// no such node.
pub uninterp spec fn spanning_nodes(
    grammar: Grammar,
    text: Seq<char>,
    start: usize,
    end: usize,
) -> Seq<SyntaxNodeView>;

/// Parses a text with `tree_sitter::Parser::set_language` and `tree_sitter::Parser::parse`.
/// The outcome is a function of the grammar and the text; what the tree looks like is what
/// [`tree_nodes`] and [`tree_span`] hand out.
#[verifier::external_body]
pub(crate) fn parse(grammar: Grammar, text: &str) -> (r: Result<Option<tree_sitter::Tree>, String>)
    ensures
        match r {
            Ok(Some(tree)) => parse_outcome(grammar, text@) == Ok::<bool, Seq<char>>(true)
                && parsed_from(tree) == (grammar, text@),
            Ok(None) => parse_outcome(grammar, text@) == Ok::<bool, Seq<char>>(false),
            Err(message) => parse_outcome(grammar, text@) == Err::<bool, Seq<char>>(message@),
        },
{
    let language: tree_sitter::Language = match grammar {
        Grammar::Rust => tree_sitter_rust::LANGUAGE.into(),
        Grammar::JavaScript => tree_sitter_javascript::LANGUAGE.into(),
        Grammar::Python => tree_sitter_python::LANGUAGE.into(),
        Grammar::Bash => tree_sitter_bash::LANGUAGE.into(),
    };
    let mut parser = tree_sitter::Parser::new();
    parser.set_language(&language).map_err(|error| error.to_string())?;
    Ok(parser.parse(text, None))
}

/// Whether the rows of nodes are told by where the nodes start: a node that starts at or
/// behind a position of the text starts in the line of that position or further down.
pub open spec fn rows_follow(text: Seq<char>, nodes: Seq<(usize, SyntaxNodeView)>) -> bool {
    forall|i: int, at: int|
        0 <= i < nodes.len() && 0 <= at <= text.len() && byte_len(#[trigger] text.take(at)) <= (
        #[trigger] nodes[i]).1.start_byte ==> newlines(text.take(at)) <= nodes[i].1.start_row
}

/// Hands out the nodes of a tree through `tree_sitter::TreeCursor::goto_descendant`, which
/// numbers them with the root first, a node before its children and children in order. The
/// row of a node, as `tree_sitter::Node::start_position` has it, counts the line feeds before
/// the byte at which the node starts; this is claimed of texts of at most `u32::MAX` bytes, as
/// the parser counts bytes and rows in 32 bits.
///
/// How the nodes of one text relate to those of another is left unsaid: a grammar decides that.
#[verifier::external_body]
pub(crate) fn tree_nodes(tree: &tree_sitter::Tree) -> (r: Vec<(usize, SyntaxNode)>)
    ensures
        r.deep_view() == syntax_nodes(parsed_from(*tree).0, parsed_from(*tree).1),
        byte_len(parsed_from(*tree).1) <= u32::MAX ==> rows_follow(
            parsed_from(*tree).1,
            r.deep_view(),
        ),
{
    let mut cursor = tree.walk();
    let mut nodes = Vec::new();
    for index in 0..tree.root_node().descendant_count() {
        cursor.goto_descendant(index);
        let (depth, node) = (cursor.depth() as usize, cursor.node());
        let (start_byte, end_byte) = (node.start_byte(), node.end_byte());
        let (start, end) = (node.start_position(), node.end_position());
        let (kind, named) = (node.kind().to_string(), node.is_named());
        let (start_row, end_row, end_column) = (start.row, end.row, end.column);
        nodes.push((depth, SyntaxNode { kind, named, start_byte, end_byte, start_row, end_row, end_column }));
    }
    nodes
}

/// Finds a node with `tree_sitter::Node::descendant_for_byte_range` and hands it out with
/// its ancestors, through `tree_sitter::Node::parent`.
#[verifier::external_body]
pub(crate) fn tree_span(tree: &tree_sitter::Tree, start: usize, end: usize) -> (r: Vec<SyntaxNode>)
    ensures
        r.deep_view() == spanning_nodes(parsed_from(*tree).0, parsed_from(*tree).1, start, end),
{
    let mut next = tree.root_node().descendant_for_byte_range(start, end);
    let mut nodes = Vec::new();
    while let Some(node) = next {
        let (start_byte, end_byte) = (node.start_byte(), node.end_byte());
        let (start, end) = (node.start_position(), node.end_position());
        let (kind, named) = (node.kind().to_string(), node.is_named());
        let (start_row, end_row, end_column) = (start.row, end.row, end.column);
        nodes.push(SyntaxNode { kind, named, start_byte, end_byte, start_row, end_row, end_column });
        next = node.parent();
    }
    nodes
}

} // verus!
