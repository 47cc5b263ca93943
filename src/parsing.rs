//! A source file together with its syntax tree, where the parser gave one.

use vstd::prelude::*;
use crate::frames::copy_range;
use crate::syntax::{SyntaxNode, nested, check_nested, spans_within, check_spans, get_nodes_of_type, nodes_view, select, of_kind};

verus! {

/// A source file: its name, its bytes, and the syntax tree of those bytes
/// where one is at hand.
pub struct ParsedFile {
    pub filename: String,
    pub file_content: Vec<u8>,
    pub syntax_tree: Option<SyntaxNode>,
}

impl ParsedFile {
    /// Every node of the tree spans bytes of the content, and lies inside
    /// its parent and after its elder siblings.
    pub open spec fn wf(&self) -> bool {
        self.syntax_tree matches Some(t) ==> spans_within(t, self.file_content@.len() as int) && nested(t)
    }

    /// The nodes of kind `kind`, in pre-order; none without a tree.
    pub open spec fn spec_nodes_of_type(&self, kind: Seq<char>) -> Seq<SyntaxNode> {
        match self.syntax_tree {
            Some(t) => select(t, of_kind(kind), false),
            None => seq![],
        }
    }

    /// The file `filename` with content `file_content`, and the tree that
    /// the parser gave for it, if any. A tree with a node outside the
    /// content, or outside its parent, or before an elder sibling, is not
    /// kept.
    pub fn from_string(filename: String, file_content: Vec<u8>, syntax_tree: Option<SyntaxNode>) -> (r: ParsedFile)
        ensures
            r.wf(),
            r.filename@ == filename@,
            r.file_content@ == file_content@,
            r.syntax_tree == (if syntax_tree matches Some(t) && spans_within(t, file_content@.len() as int)
                && nested(t) {
                syntax_tree
            } else {
                None
            }),
    {
        let tree = match syntax_tree {
            Some(t) => if check_spans(&t, file_content.len()) && check_nested(&t) {
                Some(t)
            } else {
                None
            },
            None => None,
        };
        ParsedFile { filename, file_content, syntax_tree: tree }
    }

    /// The nodes of kind `node_type`, in pre-order; none without a tree.
    pub fn get_nodes_of_type(&self, node_type: String) -> (r: Vec<&SyntaxNode>)
        ensures
            nodes_view(r@) == self.spec_nodes_of_type(node_type@),
    {
        match &self.syntax_tree {
            Some(t) => get_nodes_of_type(t, node_type, false),
            None => {
                let r: Vec<&SyntaxNode> = Vec::new();
                assert(nodes_view(r@) =~= Seq::<SyntaxNode>::empty());
                r
            },
        }
    }

    /// The bytes that `node` spans.
    pub fn get_node_string(&self, node: &SyntaxNode) -> (r: Vec<u8>)
        requires
            node.start_byte <= node.end_byte <= self.file_content@.len(),
        ensures
            r@ == self.file_content@.subrange(node.start_byte as int, node.end_byte as int),
    {
        copy_range(self.file_content.as_slice(), node.start_byte, node.end_byte)
    }
}

} // verus!
