//! The syntax of a document, as far as it says what encloses a place.

use vstd::prelude::*;
use vstd::string::*;
use vstd::utf8::*;

use crate::bytes::boundary;

verus! {

/// What encloses a place in a text, innermost first: the kind of each node of
/// the syntax tree, and where it starts and ends.
pub uninterp spec fn enclosing_nodes(text: Seq<char>, at: int) -> Seq<(Seq<char>, int, int)>;

/// The kind of a node and its range.
pub open spec fn node(n: (String, usize, usize)) -> (Seq<char>, int, int) {
    (n.0@, n.1 as int, n.2 as int)
}

/// The kinds of some nodes and their ranges.
pub open spec fn nodes(list: Seq<(String, usize, usize)>) -> Seq<(Seq<char>, int, int)> {
    list.map_values(|n: (String, usize, usize)| node(n))
}

/// `typst_syntax::parse` and `LinkedNode::leaf_at`, `parent`, `kind` and
/// `range`: the leaf of the syntax tree right before a place, and the nodes
/// that leaf is in, out to the root. A kind is named as the variant of
/// `SyntaxKind` is. The tree keeps every byte of the text, so a node's range
/// begins and ends where a character does.
#[verifier::external_body]
pub(crate) fn enclosing(text: &str, at: usize) -> (r: Vec<(String, usize, usize)>)
    ensures
        nodes(r@) == enclosing_nodes(text@, at as int),
        forall|i: int|
            0 <= i < r@.len() ==> (#[trigger] r@[i]).1 <= r@[i].2 && boundary(text@, r@[i].1 as int)
                && boundary(text@, r@[i].2 as int),
{
    let root = typst_syntax::parse(text);
    let mut next = typst_syntax::LinkedNode::new(&root).leaf_at(at, typst_syntax::Side::Before);
    let mut out = Vec::new();
    while let Some(node) = next {
        out.push((format!("{:?}", node.kind()), node.range().start, node.range().end));
        next = node.parent().cloned();
    }
    out
}

/// The syntax tree of a text in the order it is read: how deep each node is,
/// its kind, and where it starts and ends. The root comes first.
pub uninterp spec fn syntax_tree(text: Seq<char>) -> Seq<(int, Seq<char>, int, int)>;

/// How deep a node is, its kind and its range.
pub open spec fn branch(n: (usize, String, usize, usize)) -> (int, Seq<char>, int, int) {
    (n.0 as int, n.1@, n.2 as int, n.3 as int)
}

/// How deep some nodes are, their kinds and their ranges.
pub open spec fn branches(
    list: Seq<(usize, String, usize, usize)>,
) -> Seq<(int, Seq<char>, int, int)> {
    list.map_values(|n: (usize, String, usize, usize)| branch(n))
}

/// `typst_syntax::parse` and `LinkedNode::children`, `kind` and `range`: every
/// node of the syntax tree, each before what is inside it. A kind is named as
/// the variant of `SyntaxKind` is.
#[verifier::external_body]
pub(crate) fn tree_of(text: &str) -> (r: Vec<(usize, String, usize, usize)>)
    ensures
        branches(r@) == syntax_tree(text@),
{
    let root = typst_syntax::parse(text);
    let mut left = vec![(0, typst_syntax::LinkedNode::new(&root))];
    let mut out = Vec::new();
    while let Some((depth, node)) = left.pop() {
        let range = node.range();
        out.push((depth, format!("{:?}", node.kind()), range.start, range.end));
        left.extend(node.children().rev().map(|child| (depth + 1, child)));
    }
    out
}

} // verus!
