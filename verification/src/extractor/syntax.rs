//! The syntax tree the extractor walks, as plain values.
//!
//! Parsing is tree-sitter's work: [`parse_source`] hands the source to the
//! grammar of the chosen language and converts the resulting tree, node for
//! node, into [`SyntaxNode`]s. Everything the extractor then decides is
//! made on this tree.

use super::registry::Language;
use super::ExtractError;
use vstd::prelude::*;

verus! {

#[verifier::external_type_specification]
#[verifier::external_body]
pub struct ExTreeSitterNode<'a>(tree_sitter::Node<'a>);

/// One node of a parsed syntax tree.
#[derive(Debug)]
pub struct SyntaxNode {
    /// The grammar's name for the node (e.g. `"function_item"`).
    pub kind: String,
    /// Named nodes are grammar rules; anonymous ones are literal tokens.
    pub is_named: bool,
    pub start_byte: usize,
    pub end_byte: usize,
    /// Zero-based row of the node's first character.
    pub start_row: usize,
    /// Zero-based row of the node's last character.
    pub end_row: usize,
    /// All children, named and anonymous, in source order.
    pub children: Vec<SyntaxNode>,
}

/// The tree tree-sitter builds for `source` with `language`'s grammar, or
/// the reason none was built.
pub uninterp spec fn parsed_syntax(language: Language, source: Seq<u8>) -> Result<
    SyntaxNode,
    ExtractError,
>;

/// Whether every node of the tree rooted at `n` has a byte range inside a
/// source of `len` bytes and rows in order, and its children lie inside it,
/// each after the one before.
pub open spec fn node_wf(n: SyntaxNode, len: int) -> bool
    decreases n,
{
    &&& n.start_byte <= n.end_byte <= len
    &&& n.start_row <= n.end_row
    &&& n.end_row - n.start_row < usize::MAX
    &&& forall|i: int|
        0 <= i < n.children@.len() ==> n.start_byte <= (#[trigger] n.children@[i]).start_byte
            && n.children@[i].end_byte <= n.end_byte
    &&& forall|i: int, j: int|
        0 <= i < j < n.children@.len() ==> (#[trigger] n.children@[i]).end_byte
            <= (#[trigger] n.children@[j]).start_byte
    &&& forall|i: int| 0 <= i < n.children@.len() ==> node_wf(#[trigger] n.children@[i], len)
}

/// Checks [`node_wf`] for the tree rooted at `n`.
pub fn check_tree(n: &SyntaxNode, len: usize) -> (r: bool)
    ensures
        r == node_wf(*n, len as int),
    decreases n,
{
    if !(n.start_byte <= n.end_byte && n.end_byte <= len && n.start_row <= n.end_row && n.end_row
        - n.start_row < usize::MAX) {
        return false;
    }
    let mut i: usize = 0;
    while i < n.children.len()
        invariant
            i <= n.children@.len(),
            n.start_byte <= n.end_byte,
            forall|j: int| 0 <= j < i ==> node_wf(#[trigger] n.children@[j], len as int),
            forall|j: int|
                0 <= j < i ==> n.start_byte <= (#[trigger] n.children@[j]).start_byte
                    && n.children@[j].end_byte <= n.end_byte,
            forall|a: int, b: int|
                0 <= a < b < i ==> (#[trigger] n.children@[a]).end_byte
                    <= (#[trigger] n.children@[b]).start_byte,
        decreases n.children@.len() - i,
    {
        let c = &n.children[i];
        if !(n.start_byte <= c.start_byte && c.end_byte <= n.end_byte) {
            return false;
        }
        if i > 0 && n.children[i - 1].end_byte > c.start_byte {
            return false;
        }
        if !check_tree(c, len) {
            return false;
        }
        proof {
            assert forall|a: int, b: int|
                0 <= a < b < i + 1 implies (#[trigger] n.children@[a]).end_byte
                    <= (#[trigger] n.children@[b]).start_byte by {
                if b == i && a < i - 1 {
                    assert(n.children@[a].end_byte <= n.children@[i - 1].start_byte);
                    assert(node_wf(n.children@[i - 1], len as int));
                }
            }
        }
        i = i + 1;
    }
    true
}

/// Parses `source` with tree-sitter (`Parser::set_language`, then
/// `Parser::parse`) using the grammar of `language`, and converts the tree
/// into plain [`SyntaxNode`]s. The result is the tree tree-sitter builds for
/// this grammar and source; `LanguageUnavailable` when the grammar cannot be
/// loaded, `ParseFailed` when the parser returns no tree.
#[verifier::external_body]
pub(crate) fn parse_source(language: Language, source: &[u8]) -> (r: Result<
    SyntaxNode,
    ExtractError,
>)
    ensures
        r == parsed_syntax(language, source@),
{
    let grammar: tree_sitter::Language = match language {
        Language::Swift => tree_sitter_swift::LANGUAGE.into(),
        Language::Rust => tree_sitter_rust::LANGUAGE.into(),
        Language::TypeScript => tree_sitter_typescript::LANGUAGE_TYPESCRIPT.into(),
    };
    let mut parser = tree_sitter::Parser::new();
    if parser.set_language(&grammar).is_err() {
        return Err(ExtractError::LanguageUnavailable);
    }
    match parser.parse(source, None) {
        Some(tree) => Ok(syntax_node(tree.root_node())),
        None => Err(ExtractError::ParseFailed),
    }
}

/// Converts a tree-sitter node and, child by child, its subtree into plain
/// values (`Node::kind`, `is_named`, `start_byte`, `end_byte`, the rows of
/// `start_position`/`end_position`, and `children`).
#[verifier::external_body]
fn syntax_node(node: tree_sitter::Node) -> SyntaxNode {
    let mut cursor = node.walk();
    let children = node.children(&mut cursor).map(syntax_node).collect();
    SyntaxNode {
        kind: node.kind().to_string(),
        is_named: node.is_named(),
        start_byte: node.start_byte(),
        end_byte: node.end_byte(),
        start_row: node.start_position().row,
        end_row: node.end_position().row,
        children,
    }
}

} // verus!
