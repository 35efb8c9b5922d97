//! Finding the node that starts at a given line and column.

use crate::text::{line_breaks, trailing_chars, Cursor};
use crate::tree::{
    lemma_root_spans_all, lemma_text_before_grows, source_of, text_before, well_formed, NodeView,
    SyntaxTree,
};
use vstd::prelude::*;

verus! {

/// The 1-based line of the byte at `offset` in `source`.
pub open spec fn line_at(source: Seq<u8>, offset: int) -> nat {
    1 + line_breaks(source.take(offset))
}

/// The 1-based column of the byte at `offset` in `source`, counted in
/// characters from the last line break before it, or from the start.
pub open spec fn column_at(source: Seq<u8>, offset: int) -> nat {
    1 + trailing_chars(source.take(offset))
}

/// Whether node `index` starts at `line` and `column`.
pub open spec fn starts_at(nodes: Seq<NodeView>, index: int, line: usize, column: usize) -> bool {
    &&& line_at(source_of(nodes), nodes[index].start as int) == line
    &&& column_at(source_of(nodes), nodes[index].start as int) == column
}

/// The first node from `from` on that starts at `line` and `column`.
pub open spec fn first_at(nodes: Seq<NodeView>, from: int, line: usize, column: usize) -> Option<
    usize,
>
    decreases nodes.len() - from,
{
    if from < 0 || from >= nodes.len() {
        None
    } else if starts_at(nodes, from, line, column) {
        Some(from as usize)
    } else {
        first_at(nodes, from + 1, line, column)
    }
}

/// The first node, in document order, that starts at `line` and `column`.
pub open spec fn located(nodes: Seq<NodeView>, line: usize, column: usize) -> Option<usize> {
    first_at(nodes, 0, line, column)
}

/// In a well-formed tree the text before a node is the source up to the
/// node's start.
pub proof fn lemma_text_before_is_prefix(nodes: Seq<NodeView>, index: int)
    requires
        well_formed(nodes),
        0 <= index < nodes.len(),
    ensures
        text_before(nodes, index) == source_of(nodes).take(nodes[index].start as int),
        nodes[index].start <= source_of(nodes).len() <= usize::MAX,
{
    assert(crate::tree::covers_its_text(nodes, index));
    assert(crate::tree::covers_its_text(nodes, 0));
    lemma_root_spans_all(nodes);
    lemma_text_before_grows(nodes, index, nodes.len() as int);
}

/// `first_at` answers with a node that starts at the position and has no such
/// node between `from` and itself; it answers with nothing only where no node
/// from `from` on starts there.
pub proof fn lemma_first_at(nodes: Seq<NodeView>, from: int, line: usize, column: usize)
    requires
        0 <= from,
        nodes.len() <= usize::MAX,
    ensures
        match first_at(nodes, from, line, column) {
            Some(found) => {
                &&& from <= found < nodes.len()
                &&& starts_at(nodes, found as int, line, column)
                &&& forall|k: int| from <= k < found ==> !starts_at(nodes, k, line, column)
            },
            None => forall|k: int| from <= k < nodes.len() ==> !starts_at(nodes, k, line, column),
        },
    decreases nodes.len() - from,
{
    if from < nodes.len() && !starts_at(nodes, from, line, column) {
        lemma_first_at(nodes, from + 1, line, column);
    }
}

/// Finds the first node, in document order, that starts at the 1-based `line`
/// and `column`.
pub fn locate(tree: &SyntaxTree, line: usize, column: usize) -> (found: Option<usize>)
    ensures
        found == located(tree@, line, column),
        found matches Some(index) ==> index < tree@.len(),
{
    proof {
        use_type_invariant(tree);
    }
    let count = tree.len();
    let mut cursor = Cursor::origin();
    let mut i: usize = 0;
    while i < count
        invariant
            well_formed(tree@),
            count == tree@.len(),
            0 <= i <= count,
            cursor.is_after(text_before(tree@, i as int)),
            first_at(tree@, i as int, line, column) == located(tree@, line, column),
        decreases count - i,
    {
        proof {
            lemma_text_before_is_prefix(tree@, i as int);
        }
        if cursor.at(line, column) {
            return Some(i);
        }
        let text = &tree.node(i).text;
        let mut j: usize = 0;
        while j < text.len()
            invariant
                well_formed(tree@),
                i < tree@.len(),
                text@ == tree@[i as int].text,
                0 <= j <= text@.len(),
                cursor.is_after(text_before(tree@, i as int) + text@.take(j as int)),
            decreases text@.len() - j,
        {
            proof {
                let before = text_before(tree@, i as int) + text@.take(j as int);
                assert(before.push(text@[j as int]) =~= text_before(tree@, i as int)
                    + text@.take(j + 1));
                assert(crate::tree::covers_its_text(tree@, 0));
                lemma_root_spans_all(tree@);
                lemma_text_before_grows(tree@, i + 1, tree@.len() as int);
                cursor.lemma_stepped(before, text@[j as int]);
            }
            cursor = cursor.step(text[j]);
            j = j + 1;
        }
        assert(text@.take(text@.len() as int) =~= text@);
        i = i + 1;
    }
    None
}

} // verus!
