use vstd::prelude::*;

use crate::editor::Range;

use ::tree_sitter::StreamingIterator;

verus! {

/// One capture of the syntax-highlighting query: the bytes it spans and the
/// index of the query pattern that matched.
#[derive(Clone, Copy, Debug, PartialEq, Eq, Structural)]
pub struct TreeSitterHighlight {
    pub range: Range,
    pub highlight_type_index: usize,
}

/// The highlighting query: line comments, block comments and string
/// literals, in that order.
pub const HIGHLIGHT_QUERY: &'static str = "(line_comment) @line_comment (block_comment) @block_comment (string_literal) @string_literal";

/// The captures of the highlighting query in the syntax tree of a Rust text,
/// as tree-sitter produces them: they depend on the text alone.
pub uninterp spec fn syntax_highlights(text: Seq<char>) -> Seq<TreeSitterHighlight>;

/// Parses `text` as Rust (`tree_sitter::Parser::parse` with the
/// `tree_sitter_rust` grammar) and runs `HIGHLIGHT_QUERY` over the tree and
/// the text's bytes (`tree_sitter::QueryCursor::captures`); each match gives
/// the byte span of its first capture and the index of its pattern. The
/// contract names the result and says nothing more of it. Setting the
/// grammar, compiling the query and parsing only fail for a grammar built
/// for another tree-sitter version, a query naming nodes the grammar lacks,
/// or a parse that was cancelled; none applies to the versions and query
/// used here.
#[verifier::external_body]
pub fn calculate_highlights(text: &str) -> (highlights: Vec<TreeSitterHighlight>)
    ensures
        highlights@ == syntax_highlights(text@),
{
    let language: ::tree_sitter::Language = tree_sitter_rust::LANGUAGE.into();
    let mut parser = ::tree_sitter::Parser::new();
    parser.set_language(&language).unwrap();
    let tree = parser.parse(text, None).unwrap();
    let query = ::tree_sitter::Query::new(&language, HIGHLIGHT_QUERY).unwrap();
    let mut cursor = ::tree_sitter::QueryCursor::new();
    let mut captures = cursor.captures(&query, tree.root_node(), text.as_bytes());
    let mut highlights = Vec::new();
    while let Some((m, _)) = captures.next() {
        let node = m.captures()[0].node;
        let range = Range { start: node.start_byte(), end: node.end_byte() };
        highlights.push(TreeSitterHighlight { range, highlight_type_index: m.pattern_index });
    }
    highlights
}

} // verus!
