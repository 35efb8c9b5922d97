//! From source text to a syntax tree, by way of the `rnix` parser.

use crate::error::UpdateError;
use crate::scan::{can_tokenize, lexes};
use crate::text::{copy_bytes, same_bytes};
use crate::tree::{views_of, well_formed, source_of, NodeKind, NodeRecord, NodeView, SyntaxTree};
use vstd::prelude::*;

verus! {

/// The kind of a node as `rnix` reports it.
#[verifier::external_type_specification]
#[verifier::external_body]
pub struct ExNodeType(rnix::parser::NodeType);

/// The kind of a token as `rnix` reports it.
#[verifier::external_type_specification]
#[verifier::external_body]
pub struct ExToken(rnix::tokenizer::Token);

/// One step of a walk over a tree in document order: a node is entered, or the
/// node entered last and not yet left is left. A node that is a token is
/// entered with its text.
#[derive(Debug)]
pub enum WalkStep {
    Enter { kind: NodeKind, start: usize, end: usize, text: Option<Vec<u8>> },
    Leave,
}

/// A step as contracts see it.
pub enum StepView {
    Enter { kind: NodeKind, start: usize, end: usize, text: Option<Seq<u8>> },
    Leave,
}

impl View for WalkStep {
    type V = StepView;

    open spec fn view(&self) -> StepView {
        match *self {
            WalkStep::Enter { kind, start, end, text } => StepView::Enter {
                kind,
                start,
                end,
                text: match text {
                    Some(bytes) => Some(bytes@),
                    None => None,
                },
            },
            WalkStep::Leave => StepView::Leave,
        }
    }
}

/// The views of `steps`, in order.
pub open spec fn step_views(steps: Seq<WalkStep>) -> Seq<StepView> {
    Seq::new(steps.len(), |i: int| steps[i]@)
}

/// The walk over the tree that `rnix` parses `source` into.
pub uninterp spec fn rnix_walk(source: Seq<u8>) -> Seq<StepView>;

/// Calls `rnix::parse` and walks the tree it returns with rowan's `preorder`.
/// Each node is reported with its kind, its byte range and, for a token, its
/// text. Nothing is claimed of the walk but that it depends on the source
/// alone; bytes that are not UTF-8 reach the parser as replacement characters.
///
/// The tokenizer of `rnix` panics where a string is left open behind an
/// interpolation. The precondition leaves such sources out: it retraces how
/// the tokenizer cuts the source, and holds only where the end is reached.
#[verifier::external_body]
fn walk_source(source: &[u8]) -> (steps: Vec<WalkStep>)
    requires
        lexes(source@),
    ensures
        step_views(steps@) == rnix_walk(source@),
{
    let text = String::from_utf8_lossy(source);
    rnix::parse(&text).node().preorder().map(|event| match event {
        rowan::WalkEvent::Enter(node) => WalkStep::Enter {
            kind: node_kind(node.kind()),
            start: node.range().start().to_usize(),
            end: node.range().end().to_usize(),
            text: node.leaf_text().map(|text| text.as_bytes().to_vec()),
        },
        rowan::WalkEvent::Leave(_) => WalkStep::Leave,
    }).collect()
}

/// Tells the variants of `rnix::parser::NodeType` apart: each node that the
/// library looks for has a kind of its own, a token has the kind of its token,
/// and the rest are other nodes. No claim is made.
#[verifier::external_body]
fn node_kind(kind: rnix::parser::NodeType) -> NodeKind {
    match kind {
        rnix::parser::NodeType::Apply => NodeKind::Application,
        rnix::parser::NodeType::Attribute => NodeKind::KeyPath,
        rnix::parser::NodeType::IndexSet => NodeKind::IndexAccess,
        rnix::parser::NodeType::Inherit => NodeKind::Inherit,
        rnix::parser::NodeType::InheritFrom => NodeKind::InheritSource,
        rnix::parser::NodeType::Interpol => NodeKind::Interpolation,
        rnix::parser::NodeType::InterpolAst => NodeKind::ExpressionFragment,
        rnix::parser::NodeType::InterpolLiteral => NodeKind::LiteralFragment,
        rnix::parser::NodeType::SetEntry => NodeKind::Binding,
        rnix::parser::NodeType::Token(token) => token_kind(token),
        _ => NodeKind::Other,
    }
}

/// Tells the variants of `rnix::tokenizer::Token` apart: each token that the
/// library looks for has a kind of its own, and the rest are other tokens. No
/// claim is made.
#[verifier::external_body]
fn token_kind(token: rnix::tokenizer::Token) -> NodeKind {
    match token {
        rnix::tokenizer::Token::Comment => NodeKind::Comment,
        rnix::tokenizer::Token::Error => NodeKind::Unreadable,
        rnix::tokenizer::Token::Whitespace => NodeKind::Whitespace,
        rnix::tokenizer::Token::Dot => NodeKind::PathSeparator,
        rnix::tokenizer::Token::Ident => NodeKind::Identifier,
        rnix::tokenizer::Token::String => NodeKind::StringLiteral,
        rnix::tokenizer::Token::InterpolStart => NodeKind::FragmentOpening,
        rnix::tokenizer::Token::InterpolEndStart => NodeKind::FragmentJoint,
        rnix::tokenizer::Token::InterpolEnd => NodeKind::FragmentClosing,
        _ => NodeKind::OtherToken,
    }
}

/// How many nodes are entered and not yet left after the first `count` steps.
pub open spec fn open_after(steps: Seq<StepView>, count: int) -> int
    decreases count,
{
    if count <= 0 {
        0
    } else {
        open_after(steps, count - 1) + match steps[count - 1] {
            StepView::Enter { .. } => 1int,
            StepView::Leave => -1int,
        }
    }
}

/// No step leaves a node when none is open.
pub open spec fn leaves_match(steps: Seq<StepView>) -> bool {
    forall|count: int| 0 <= count <= steps.len() ==> #[trigger] open_after(steps, count) >= 0
}

/// The nodes entered during the first `count` steps, each at the depth at
/// which it was entered. A node that was entered without text has none.
pub open spec fn entered_before(steps: Seq<StepView>, count: int) -> Seq<NodeView>
    decreases count,
{
    if count <= 0 {
        Seq::empty()
    } else {
        match steps[count - 1] {
            StepView::Enter { kind, start, end, text } => entered_before(steps, count - 1).push(
                NodeView {
                    kind,
                    depth: open_after(steps, count - 1) as usize,
                    start,
                    end,
                    text: match text {
                        Some(bytes) => bytes,
                        None => Seq::empty(),
                    },
                },
            ),
            StepView::Leave => entered_before(steps, count - 1),
        }
    }
}

/// The nodes that a walk enters, in order.
pub open spec fn entered(steps: Seq<StepView>) -> Seq<NodeView> {
    entered_before(steps, steps.len() as int)
}

/// The nodes entered in the course of `steps`, each with its depth; nothing
/// where a step leaves a node that was never entered.
pub fn records_of_walk(steps: &Vec<WalkStep>) -> (found: Option<Vec<NodeRecord>>)
    ensures
        found is Some <==> leaves_match(step_views(steps@)),
        found matches Some(records) ==> views_of(records@) == entered(step_views(steps@)),
{
    let ghost walk = step_views(steps@);
    let mut records: Vec<NodeRecord> = Vec::new();
    let mut depth: usize = 0;
    let mut i: usize = 0;
    while i < steps.len()
        invariant
            walk == step_views(steps@),
            0 <= i <= steps@.len(),
            depth == open_after(walk, i as int),
            depth <= i,
            forall|count: int| 0 <= count <= i ==> #[trigger] open_after(walk, count) >= 0,
            views_of(records@) =~= entered_before(walk, i as int),
        decreases steps@.len() - i,
    {
        match &steps[i] {
            WalkStep::Enter { kind, start, end, text } => {
                let record = NodeRecord {
                    kind: *kind,
                    depth,
                    start: *start,
                    end: *end,
                    text: match text {
                        Some(bytes) => copy_bytes(bytes.as_slice()),
                        None => Vec::new(),
                    },
                };
                records.push(record);
                depth = depth + 1;
            },
            WalkStep::Leave => {
                if depth == 0 {
                    assert(open_after(walk, i + 1) < 0);
                    return None;
                }
                depth = depth - 1;
            },
        }
        i = i + 1;
    }
    Some(records)
}

/// Whether the tree that `source` parses into is well formed and carries
/// every byte of it.
pub open spec fn parses(source: Seq<u8>) -> bool {
    let walk = rnix_walk(source);
    leaves_match(walk) && well_formed(entered(walk)) && source_of(entered(walk)) == source
}

/// What parsing `source` comes to: refused where the tokenizer would not get
/// through it, unexpected where the tree is not well formed or does not carry
/// the source byte for byte, and else the nodes of the tree.
pub open spec fn parsed_nodes(source: Seq<u8>) -> Result<Seq<NodeView>, UpdateError> {
    if !lexes(source) {
        Err(UpdateError::SourceRefused)
    } else if !parses(source) {
        Err(UpdateError::Unexpected)
    } else {
        Ok(entered(rnix_walk(source)))
    }
}

/// Parses `source` into a syntax tree. The parser marks what it cannot read
/// inside the tree and goes on. A source that its tokenizer would not get
/// through is refused before the parser is called.
pub fn parse(source: &[u8]) -> (parsed: Result<SyntaxTree, UpdateError>)
    ensures
        match parsed_nodes(source@) {
            Ok(nodes) => parsed matches Ok(tree) && tree@ == nodes,
            Err(error) => parsed matches Err(failure) && failure == error,
        },
{
    if !can_tokenize(source) {
        return Err(UpdateError::SourceRefused);
    }
    let steps = walk_source(source);
    match records_of_walk(&steps) {
        None => Err(UpdateError::Unexpected),
        Some(records) => match SyntaxTree::new(records) {
            None => Err(UpdateError::Unexpected),
            Some(tree) => {
                let text = tree.source();
                if same_bytes(text.as_slice(), source) {
                    Ok(tree)
                } else {
                    Err(UpdateError::Unexpected)
                }
            },
        },
    }
}

} // verus!
