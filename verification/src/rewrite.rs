//! Writing the file anew: every byte as it was, but for the edited bindings.

use crate::escape::{escape_nix_string, nix_string};
use crate::plan::{
    active_for, first_for, lemma_first_for, lies_apart, lies_inside, EditPlan,
};
use crate::resolve::EditView;
use crate::text::{push_bytes, EQUALS, SEMICOLON, SPACE};
use crate::tree::{
    covers_its_text, extent, lemma_next_at_most, lemma_root_spans_all, lemma_text_before_grows,
    source_of, text_before, well_formed, NodeView, SyntaxTree,
};
use vstd::prelude::*;

verus! {

/// A binding of `name` to `value` as it is written: the name, an equals sign
/// between spaces, the value as a string literal, and a semicolon.
pub open spec fn rendered(name: Seq<u8>, value: Seq<u8>) -> Seq<u8> {
    name + seq![SPACE, EQUALS, SPACE] + nix_string(value) + seq![SEMICOLON]
}

/// What the binding of an edit reads once the edit is made.
pub open spec fn rendering(edit: EditView) -> Seq<u8> {
    rendered(edit.name, edit.value)
}

/// What the nodes from `index` on contribute to the new text when everything
/// up to the offset `boundary` has been written.
///
/// A node with an edit contributes the rendering of the edit, and moves the
/// boundary to its own end. Any other node contributes its own text if it ends
/// beyond the boundary, and nothing if it lies within what an edit replaced.
pub open spec fn rewritten_from(
    nodes: Seq<NodeView>,
    plan: Seq<EditView>,
    index: int,
    boundary: int,
) -> Seq<u8>
    decreases nodes.len() - index,
{
    if index < 0 || index >= nodes.len() {
        Seq::empty()
    } else {
        match active_for(plan, index as usize) {
            Some(edit) => rendering(edit) + rewritten_from(
                nodes,
                plan,
                index + 1,
                nodes[index].end as int,
            ),
            None => if nodes[index].end > boundary {
                nodes[index].text + rewritten_from(nodes, plan, index + 1, boundary)
            } else {
                rewritten_from(nodes, plan, index + 1, boundary)
            },
        }
    }
}

/// The new text of the file under `plan`.
pub open spec fn rewritten(nodes: Seq<NodeView>, plan: Seq<EditView>) -> Seq<u8> {
    rewritten_from(nodes, plan, 0, 0)
}

/// Appends a binding of `name` to `value` to `out`.
pub fn render(out: &mut Vec<u8>, name: &[u8], value: &[u8])
    ensures
        final(out)@ == old(out)@ + rendered(name@, value@),
{
    push_bytes(out, name);
    out.push(SPACE);
    out.push(EQUALS);
    out.push(SPACE);
    let literal = escape_nix_string(value);
    push_bytes(out, literal.as_slice());
    out.push(SEMICOLON);
    assert(out@ =~= old(out)@ + (name@ + seq![SPACE, EQUALS, SPACE] + nix_string(value@)
        + seq![SEMICOLON]));
}

/// Writes the text of `tree` anew under `plan`: the edited bindings as their
/// edits render them, and every other byte as it was.
pub fn reconstruct(tree: &SyntaxTree, plan: &EditPlan) -> (text: Vec<u8>)
    ensures
        text@ == rewritten(tree@, plan@),
{
    let count = tree.len();
    let mut text: Vec<u8> = Vec::new();
    let mut boundary: usize = 0;
    let mut i: usize = 0;
    assert(text@ + rewritten_from(tree@, plan@, 0, 0) =~= rewritten(tree@, plan@));
    while i < count
        invariant
            count == tree@.len(),
            0 <= i <= count,
            text@ + rewritten_from(tree@, plan@, i as int, boundary as int) == rewritten(
                tree@,
                plan@,
            ),
        decreases count - i,
    {
        let node = tree.node(i);
        let ghost before = text@;
        let ghost rest = rewritten_from(tree@, plan@, i + 1, boundary as int);
        match plan.active(i) {
            Some(edit) => {
                render(&mut text, edit.name.as_slice(), edit.value.as_slice());
                boundary = node.end;
                proof {
                    let after = rewritten_from(tree@, plan@, i + 1, boundary as int);
                    assert(text@ + after =~= before + (rendering(edit@) + after));
                }
            },
            None => {
                if node.end > boundary {
                    push_bytes(&mut text, node.text.as_slice());
                    assert(text@ + rest =~= before + (node@.text + rest));
                }
            },
        }
        i = i + 1;
    }
    assert(text@ + Seq::<u8>::empty() =~= text@);
    text
}

/// The edit that applies to node `index`, if there is one.
pub open spec fn edit_at(plan: Seq<EditView>, index: int) -> Option<EditView> {
    active_for(plan, index as usize)
}

/// The text that node `index` covers.
pub open spec fn span_text(nodes: Seq<NodeView>, index: int) -> Seq<u8> {
    source_of(nodes).subrange(nodes[index].start as int, nodes[index].end as int)
}

/// Whether the edit for node `index`, if there is one, renders as the text
/// that the node covers already, and no node inside it has an edit.
pub open spec fn leaves_as_is(nodes: Seq<NodeView>, plan: Seq<EditView>, index: int) -> bool {
    match active_for(plan, index as usize) {
        Some(edit) => {
            &&& rendering(edit) == span_text(nodes, index)
            &&& forall|inside: int|
                index < inside < extent(nodes, index) ==> (#[trigger] edit_at(plan, inside)) is None
        },
        None => true,
    }
}

/// A piece that follows the start of a text is that part of the text.
proof fn lemma_piece_of_whole(whole: Seq<u8>, start: Seq<u8>, piece: Seq<u8>)
    requires
        start.len() + piece.len() <= whole.len(),
        start + piece == whole.take((start.len() + piece.len()) as int),
    ensures
        piece == whole.subrange(start.len() as int, (start.len() + piece.len()) as int),
{
    let both = start + piece;
    assert forall|i: int| 0 <= i < piece.len() implies piece[i] == whole[start.len() + i] by {
        assert(both[start.len() + i] == piece[i]);
    }
    assert(piece =~= whole.subrange(start.len() as int, (start.len() + piece.len()) as int));
}

/// In a well-formed tree a node ends where its last descendant's text ends,
/// which is not before the end of its own text, and a node inside another ends
/// no later than the other.
pub proof fn lemma_ends(nodes: Seq<NodeView>, index: int)
    requires
        well_formed(nodes),
        0 <= index < nodes.len(),
    ensures
        index < extent(nodes, index) <= nodes.len(),
        nodes[index].start == text_before(nodes, index).len(),
        nodes[index].end == text_before(nodes, extent(nodes, index)).len(),
        nodes[index].end >= text_before(nodes, index + 1).len(),
        nodes[index].end <= source_of(nodes).len(),
        forall|inside: int|
            index < inside < extent(nodes, index) ==> (#[trigger] nodes[inside]).end
                <= nodes[index].end,
{
    assert(covers_its_text(nodes, index));
    let depth = nodes[index].depth as int;
    lemma_next_at_most(nodes, index + 1, depth);
    let behind = extent(nodes, index);
    lemma_text_before_grows(nodes, index + 1, behind);
    lemma_text_before_grows(nodes, behind, nodes.len() as int);
    assert forall|inside: int| index < inside < behind implies (#[trigger] nodes[inside]).end
        <= nodes[index].end by {
        assert(covers_its_text(nodes, inside));
        lemma_next_at_most(nodes, inside + 1, nodes[inside].depth as int);
        let inner = extent(nodes, inside);
        // The first node behind `inside` that lies no deeper than it comes no
        // later than the first that lies no deeper than `index`.
        if inner > behind {
            assert(nodes[behind].depth > nodes[inside].depth);
            assert(nodes[inside].depth > depth);
        }
        lemma_text_before_grows(nodes, inner, behind);
    }
}

/// Nothing inside an edited node is written where no node inside it has an
/// edit of its own.
pub proof fn lemma_inside_is_skipped(
    nodes: Seq<NodeView>,
    plan: Seq<EditView>,
    target: int,
    index: int,
)
    requires
        well_formed(nodes),
        0 <= target < index <= extent(nodes, target),
        target < nodes.len(),
        forall|inside: int|
            target < inside < extent(nodes, target) ==> (#[trigger] edit_at(plan, inside)) is None,
    ensures
        rewritten_from(nodes, plan, index, nodes[target].end as int) == rewritten_from(
            nodes,
            plan,
            extent(nodes, target),
            nodes[target].end as int,
        ),
    decreases extent(nodes, target) - index,
{
    lemma_ends(nodes, target);
    if index < extent(nodes, target) {
        assert(nodes[index].end <= nodes[target].end);
        assert(edit_at(plan, index) is None);
        lemma_inside_is_skipped(nodes, plan, target, index + 1);
    }
}

/// From a node on that starts at or behind the boundary, the new text is the
/// old one where every edit still to come leaves its node as it is.
pub proof fn lemma_rest_is_source(
    nodes: Seq<NodeView>,
    plan: Seq<EditView>,
    index: int,
    boundary: int,
)
    requires
        well_formed(nodes),
        0 <= index <= nodes.len(),
        boundary <= text_before(nodes, index).len(),
        forall|k: int| index <= k < nodes.len() ==> #[trigger] leaves_as_is(nodes, plan, k),
    ensures
        text_before(nodes, index).len() <= source_of(nodes).len(),
        rewritten_from(nodes, plan, index, boundary) == source_of(nodes).skip(
            text_before(nodes, index).len() as int,
        ),
    decreases nodes.len() - index,
{
    let source = source_of(nodes);
    let here = text_before(nodes, index).len() as int;
    lemma_text_before_grows(nodes, index, nodes.len() as int);
    if index < nodes.len() {
        lemma_ends(nodes, index);
        lemma_text_before_grows(nodes, index + 1, nodes.len() as int);
        assert(leaves_as_is(nodes, plan, index));
        match active_for(plan, index as usize) {
            Some(edit) => {
                let behind = extent(nodes, index);
                let end = nodes[index].end as int;
                if index + 1 <= behind {
                    lemma_inside_is_skipped(nodes, plan, index, index + 1);
                }
                lemma_rest_is_source(nodes, plan, behind, end);
                assert(source.subrange(here, end) + source.skip(end) =~= source.skip(here));
            },
            None => {
                lemma_rest_is_source(nodes, plan, index + 1, boundary);
                let next = text_before(nodes, index + 1).len() as int;
                assert(text_before(nodes, index + 1) =~= source.take(next));
                assert(text_before(nodes, index) =~= source.take(here));
                assert(text_before(nodes, index + 1) == text_before(nodes, index)
                    + nodes[index].text);
                lemma_piece_of_whole(source, text_before(nodes, index), nodes[index].text);
                assert(source.subrange(here, next) + source.skip(next) =~= source.skip(here));
            },
        }
    } else {
        assert(source.skip(here) =~= Seq::<u8>::empty());
    }
}

/// Up to the first node with an edit, the new text is the old one.
pub proof fn lemma_start_is_source(
    nodes: Seq<NodeView>,
    plan: Seq<EditView>,
    index: int,
    target: int,
)
    requires
        well_formed(nodes),
        0 <= index <= target < nodes.len(),
        forall|k: int| index <= k < target ==> (#[trigger] edit_at(plan, k)) is None,
    ensures
        text_before(nodes, index).len() <= text_before(nodes, target).len(),
        rewritten_from(nodes, plan, index, 0) == text_before(nodes, target).skip(
            text_before(nodes, index).len() as int,
        ) + rewritten_from(nodes, plan, target, 0),
    decreases target - index,
{
    let upto = text_before(nodes, target);
    let here = text_before(nodes, index).len() as int;
    lemma_text_before_grows(nodes, index, target);
    if index < target {
        lemma_ends(nodes, index);
        lemma_start_is_source(nodes, plan, index + 1, target);
        lemma_text_before_grows(nodes, index + 1, target);
        let next = text_before(nodes, index + 1).len() as int;
        let rest = rewritten_from(nodes, plan, target, 0);
        assert(text_before(nodes, index + 1) =~= upto.take(next));
        assert(text_before(nodes, index) =~= upto.take(here));
        assert(text_before(nodes, index + 1) == text_before(nodes, index) + nodes[index].text);
        assert(edit_at(plan, index) is None);
        lemma_piece_of_whole(upto, text_before(nodes, index), nodes[index].text);
        assert(upto.subrange(here, next) + upto.skip(next) =~= upto.skip(here));
        assert(nodes[index].text + (upto.skip(next) + rest) =~= upto.skip(here) + rest);
    } else {
        assert(upto.skip(here) =~= Seq::<u8>::empty());
        assert(Seq::<u8>::empty() + rewritten_from(nodes, plan, target, 0) =~= rewritten_from(
            nodes,
            plan,
            target,
            0,
        ));
    }
}

/// A plan with one edit replaces exactly the span of the edited node with the
/// rendering of the edit: the text before the node and the text behind it are
/// the old text, byte for byte.
pub proof fn lemma_one_edit_replaces_one_span(nodes: Seq<NodeView>, edit: EditView)
    requires
        well_formed(nodes),
        edit.node < nodes.len(),
    ensures
        nodes[edit.node as int].start <= nodes[edit.node as int].end <= source_of(nodes).len(),
        rewritten(nodes, seq![edit]) == source_of(nodes).take(nodes[edit.node as int].start as int)
            + rendering(edit) + source_of(nodes).skip(nodes[edit.node as int].end as int),
{
    let plan = seq![edit];
    let target = edit.node as int;
    let source = source_of(nodes);
    assert forall|k: int| 0 <= k < nodes.len() && k != target implies (#[trigger] edit_at(
        plan,
        k,
    )) is None by {
        lemma_first_for(plan, k as usize, 0);
    }
    assert(active_for(plan, target as usize) == Some(edit));
    lemma_ends(nodes, target);
    lemma_text_before_grows(nodes, target, target + 1);
    lemma_start_is_source(nodes, plan, 0, target);
    lemma_inside_is_skipped(nodes, plan, target, target + 1);
    let behind = extent(nodes, target);
    let end = nodes[target].end as int;
    assert forall|k: int| behind <= k < nodes.len() implies leaves_as_is(nodes, plan, k) by {
        assert(edit_at(plan, k) is None);
    }
    lemma_rest_is_source(nodes, plan, behind, end);
    lemma_text_before_grows(nodes, target, nodes.len() as int);
    assert(text_before(nodes, target).skip(0) =~= source.take(nodes[target].start as int));
}

/// A plan whose edits each render as the text that their node covers already,
/// and of which none lies inside another, changes nothing: the new text is the
/// old one. This is why a second run of the same requests finds no difference.
pub proof fn lemma_settled_plan_changes_nothing(nodes: Seq<NodeView>, plan: Seq<EditView>)
    requires
        well_formed(nodes),
        forall|k: int| 0 <= k < nodes.len() ==> #[trigger] leaves_as_is(nodes, plan, k),
    ensures
        rewritten(nodes, plan) == source_of(nodes),
{
    lemma_rest_is_source(nodes, plan, 0, 0);
    assert(source_of(nodes).skip(0) =~= source_of(nodes));
}

/// A stretch of the old text and what stands in its place in the new one.
pub struct Replacement {
    pub start: int,
    pub end: int,
    pub text: Seq<u8>,
}

/// The replacements that `plan` makes from node `index` on, in document
/// order: for each node with an edit, its span and the rendering of the edit.
pub open spec fn replacements_from(nodes: Seq<NodeView>, plan: Seq<EditView>, index: int) -> Seq<
    Replacement,
>
    decreases nodes.len() - index,
{
    if index < 0 || index >= nodes.len() {
        Seq::empty()
    } else {
        match edit_at(plan, index) {
            Some(edit) => seq![
                Replacement {
                    start: nodes[index].start as int,
                    end: nodes[index].end as int,
                    text: rendering(edit),
                },
            ] + replacements_from(nodes, plan, index + 1),
            None => replacements_from(nodes, plan, index + 1),
        }
    }
}

/// `source` from the offset `from` on with each of `replacements` made: the
/// text up to the first replacement, what replaces it, and so on from its end.
pub open spec fn spliced(source: Seq<u8>, replacements: Seq<Replacement>, from: int) -> Seq<u8>
    decreases replacements.len(),
{
    if replacements.len() == 0 {
        source.skip(from)
    } else {
        source.subrange(from, replacements[0].start) + replacements[0].text + spliced(
            source,
            replacements.drop_first(),
            replacements[0].end,
        )
    }
}

/// Whether no node with an edit lies inside another node with an edit.
pub open spec fn edits_lie_apart(nodes: Seq<NodeView>, plan: Seq<EditView>) -> bool {
    forall|outer: int, inside: int|
        0 <= outer < nodes.len() && (#[trigger] edit_at(plan, outer)) is Some && outer < inside
            < extent(nodes, outer) ==> (#[trigger] edit_at(plan, inside)) is None
}

/// A plan whose edits lie apart has no node with an edit inside another node
/// with an edit.
pub proof fn lemma_apart(nodes: Seq<NodeView>, plan: Seq<EditView>)
    requires
        nodes.len() <= usize::MAX,
        lies_apart(nodes, plan),
    ensures
        edits_lie_apart(nodes, plan),
{
    assert forall|outer: int, inside: int|
        0 <= outer < nodes.len() && (#[trigger] edit_at(plan, outer)) is Some && outer < inside
            < extent(nodes, outer) implies (#[trigger] edit_at(plan, inside)) is None by {
        lemma_next_at_most(nodes, outer + 1, nodes[outer].depth as int);
        lemma_first_for(plan, outer as usize, 0);
        lemma_first_for(plan, inside as usize, 0);
        if edit_at(plan, inside) is Some {
            let i = first_for(plan, inside as usize, 0)->Some_0;
            let j = first_for(plan, outer as usize, 0)->Some_0;
            assert(lies_inside(nodes, plan[i].node, plan[j].node));
        }
    }
}

/// The first replacement from a node on does not start before that node.
proof fn lemma_replacements_start_later(nodes: Seq<NodeView>, plan: Seq<EditView>, index: int)
    requires
        well_formed(nodes),
        0 <= index <= nodes.len(),
    ensures
        replacements_from(nodes, plan, index).len() > 0 ==> text_before(nodes, index).len()
            <= replacements_from(nodes, plan, index)[0].start <= source_of(nodes).len(),
    decreases nodes.len() - index,
{
    if index < nodes.len() {
        lemma_ends(nodes, index);
        lemma_text_before_grows(nodes, index, index + 1);
        lemma_text_before_grows(nodes, index, nodes.len() as int);
        if edit_at(plan, index) is None {
            lemma_replacements_start_later(nodes, plan, index + 1);
        }
    }
}

/// Where no node between two has an edit, the replacements from the first on
/// are those from the second on.
proof fn lemma_replacements_skip(nodes: Seq<NodeView>, plan: Seq<EditView>, index: int, upto: int)
    requires
        0 <= index <= upto <= nodes.len(),
        forall|k: int| index <= k < upto ==> (#[trigger] edit_at(plan, k)) is None,
    ensures
        replacements_from(nodes, plan, index) == replacements_from(nodes, plan, upto),
    decreases upto - index,
{
    if index < upto {
        assert(edit_at(plan, index) is None);
        lemma_replacements_skip(nodes, plan, index + 1, upto);
    }
}

/// Splicing may begin later, as long as it begins before the first
/// replacement: the text in between is the old text.
proof fn lemma_spliced_from_later(
    source: Seq<u8>,
    replacements: Seq<Replacement>,
    from: int,
    later: int,
)
    requires
        0 <= from <= later <= source.len(),
        replacements.len() > 0 ==> later <= replacements[0].start <= source.len(),
    ensures
        spliced(source, replacements, from) == source.subrange(from, later) + spliced(
            source,
            replacements,
            later,
        ),
{
    if replacements.len() == 0 {
        assert(source.skip(from) =~= source.subrange(from, later) + source.skip(later));
    } else {
        let start = replacements[0].start;
        let rest = replacements[0].text + spliced(
            source,
            replacements.drop_first(),
            replacements[0].end,
        );
        assert(source.subrange(from, start) =~= source.subrange(from, later) + source.subrange(
            later,
            start,
        ));
        assert(source.subrange(from, start) + replacements[0].text + spliced(
            source,
            replacements.drop_first(),
            replacements[0].end,
        ) =~= source.subrange(from, later) + (source.subrange(later, start)
            + replacements[0].text + spliced(
            source,
            replacements.drop_first(),
            replacements[0].end,
        )));
    }
}

/// From a node on that starts at or behind the boundary, the new text is the
/// old one with the replacements still to come.
proof fn lemma_rest_is_spliced(nodes: Seq<NodeView>, plan: Seq<EditView>, index: int, boundary: int)
    requires
        well_formed(nodes),
        edits_lie_apart(nodes, plan),
        0 <= index <= nodes.len(),
        boundary <= text_before(nodes, index).len(),
    ensures
        rewritten_from(nodes, plan, index, boundary) == spliced(
            source_of(nodes),
            replacements_from(nodes, plan, index),
            text_before(nodes, index).len() as int,
        ),
    decreases nodes.len() - index,
{
    let source = source_of(nodes);
    let here = text_before(nodes, index).len() as int;
    lemma_text_before_grows(nodes, index, nodes.len() as int);
    if index < nodes.len() {
        lemma_ends(nodes, index);
        lemma_text_before_grows(nodes, index + 1, nodes.len() as int);
        let next = text_before(nodes, index + 1).len() as int;
        match edit_at(plan, index) {
            Some(edit) => {
                let behind = extent(nodes, index);
                let end = nodes[index].end as int;
                lemma_inside_is_skipped(nodes, plan, index, index + 1);
                lemma_replacements_skip(nodes, plan, index + 1, behind);
                lemma_rest_is_spliced(nodes, plan, behind, end);
                let found = replacements_from(nodes, plan, index);
                assert(found.drop_first() =~= replacements_from(nodes, plan, behind));
                assert(source.subrange(here, here) =~= Seq::<u8>::empty());
                assert(Seq::<u8>::empty() + rendering(edit) =~= rendering(edit));
            },
            None => {
                lemma_rest_is_spliced(nodes, plan, index + 1, boundary);
                lemma_replacements_start_later(nodes, plan, index + 1);
                lemma_spliced_from_later(
                    source,
                    replacements_from(nodes, plan, index + 1),
                    here,
                    next,
                );
                assert(text_before(nodes, index + 1) == text_before(nodes, index)
                    + nodes[index].text);
                assert(text_before(nodes, index + 1) =~= source.take(next));
                lemma_piece_of_whole(source, text_before(nodes, index), nodes[index].text);
            },
        }
    }
}

/// Rewriting replaces exactly the spans of the edited bindings, each with the
/// rendering of its edit, and keeps every other byte as it was, provided that
/// no edited node lies inside another.
pub proof fn lemma_rewriting_replaces_the_edited_spans(nodes: Seq<NodeView>, plan: Seq<EditView>)
    requires
        well_formed(nodes),
        edits_lie_apart(nodes, plan),
    ensures
        rewritten(nodes, plan) == spliced(
            source_of(nodes),
            replacements_from(nodes, plan, 0),
            0,
        ),
{
    lemma_rest_is_spliced(nodes, plan, 0, 0);
}

} // verus!
