//! Turning an interpolation into a pattern that takes a value apart.
//!
//! The pattern is a regular expression: the literal text of the interpolation
//! stands for itself, each interpolated identifier becomes a named group that
//! matches one or more characters, and a call of the version helper becomes a
//! fixed pattern for a number, a dot and a number.

use crate::error::UpdateError;
use crate::text::{
    copy_bytes, copy_range, leading_run, push_bytes, same_bytes, trailing_pairs, without_leading,
    without_trailing_pairs, AMPERSAND, ASTERISK, BACKSLASH, BAR, BRACE_CLOSE, BRACE_OPEN,
    BRACKET_CLOSE, BRACKET_OPEN, CARET, COLON, DIGIT_0, DIGIT_9, DOLLAR, FULL_STOP, GREATER, HASH,
    HYPHEN, LESS, LOWER_A, LOWER_I, LOWER_J, LOWER_M, LOWER_N, LOWER_O, LOWER_R, PAREN_CLOSE,
    PAREN_OPEN, PLUS, QUESTION, TILDE, UPPER_M, UPPER_P,
};
use crate::tree::{children_of, inner_children_of, single, NodeKind, NodeView, SyntaxTree};
use vstd::prelude::*;

verus! {

/// Whether `byte` is a character with a meaning of its own in a regular
/// expression.
pub open spec fn is_meta(byte: u8) -> bool {
    ||| byte == BACKSLASH
    ||| byte == FULL_STOP
    ||| byte == PLUS
    ||| byte == ASTERISK
    ||| byte == QUESTION
    ||| byte == PAREN_OPEN
    ||| byte == PAREN_CLOSE
    ||| byte == BAR
    ||| byte == BRACKET_OPEN
    ||| byte == BRACKET_CLOSE
    ||| byte == BRACE_OPEN
    ||| byte == BRACE_CLOSE
    ||| byte == CARET
    ||| byte == DOLLAR
    ||| byte == HASH
    ||| byte == AMPERSAND
    ||| byte == HYPHEN
    ||| byte == TILDE
}

/// `text` with a backslash before each character that has a meaning of its own
/// in a regular expression, so that the result matches `text` and nothing else.
pub open spec fn escape_meta(text: Seq<u8>) -> Seq<u8>
    decreases text.len(),
{
    if text.len() == 0 {
        Seq::empty()
    } else if is_meta(text.last()) {
        escape_meta(text.drop_last()).push(BACKSLASH).push(text.last())
    } else {
        escape_meta(text.drop_last()).push(text.last())
    }
}

/// The group that captures one or more characters under `name`: `(?P<name>.+)`.
pub open spec fn capture_of(name: Seq<u8>) -> Seq<u8> {
    seq![PAREN_OPEN, QUESTION, UPPER_P, LESS] + name + seq![GREATER, FULL_STOP, PLUS, PAREN_CLOSE]
}

/// What a call of the version helper is matched by: `[0-9]+\.[0-9]+`.
pub open spec fn version_pattern() -> Seq<u8> {
    seq![
        BRACKET_OPEN,
        DIGIT_0,
        HYPHEN,
        DIGIT_9,
        BRACKET_CLOSE,
        PLUS,
        BACKSLASH,
        FULL_STOP,
        BRACKET_OPEN,
        DIGIT_0,
        HYPHEN,
        DIGIT_9,
        BRACKET_CLOSE,
        PLUS,
    ]
}

/// The name of the version helper: `majorMinor`.
pub open spec fn version_helper() -> Seq<u8> {
    seq![LOWER_M, LOWER_A, LOWER_J, LOWER_O, LOWER_R, UPPER_M, LOWER_I, LOWER_N, LOWER_O, LOWER_R]
}

/// `body` made to match a whole text, from its start to its end: `^(?:body)$`.
pub open spec fn anchored(body: Seq<u8>) -> Seq<u8> {
    seq![CARET, PAREN_OPEN, QUESTION, COLON] + body + seq![PAREN_CLOSE, DOLLAR]
}

/// The literal text that a token of `kind` stands for: the token's text
/// without the `}` that closes the expression before it and the `${` that
/// opens the one behind it. Other kinds of token stand for no literal text.
pub open spec fn literal_text(kind: NodeKind, text: Seq<u8>) -> Option<Seq<u8>> {
    match kind {
        NodeKind::FragmentOpening => Some(without_trailing_pairs(text, DOLLAR, BRACE_OPEN)),
        NodeKind::FragmentJoint => Some(
            without_trailing_pairs(without_leading(text, BRACE_CLOSE), DOLLAR, BRACE_OPEN),
        ),
        NodeKind::FragmentClosing => Some(without_leading(text, BRACE_CLOSE)),
        _ => None,
    }
}

/// The function that `application` calls: its first child that is not trivia
/// or, where that selects an attribute from a set, the attribute selected.
pub open spec fn callee_of(nodes: Seq<NodeView>, application: usize) -> Option<usize> {
    let inner = inner_children_of(nodes, application);
    if inner.len() == 0 {
        None
    } else if nodes[inner[0] as int].kind == NodeKind::IndexAccess {
        let parts = inner_children_of(nodes, inner[0]);
        if parts.len() > 2 {
            Some(parts[2])
        } else {
            None
        }
    } else {
        Some(inner[0])
    }
}

/// What `application` applies its function to: its second child that is not
/// trivia.
pub open spec fn argument_of(nodes: Seq<NodeView>, application: usize) -> Option<usize> {
    let inner = inner_children_of(nodes, application);
    if inner.len() > 1 {
        Some(inner[1])
    } else {
        None
    }
}

/// Whether `application` applies its function to a single identifier.
pub open spec fn takes_identifier(nodes: Seq<NodeView>, application: usize) -> bool {
    match argument_of(nodes, application) {
        Some(argument) => nodes[argument as int].kind == NodeKind::Identifier,
        None => false,
    }
}

/// Whether node `callee` names the version helper.
pub open spec fn is_version_helper(nodes: Seq<NodeView>, callee: usize) -> bool {
    nodes[callee as int].kind == NodeKind::Identifier && nodes[callee as int].text
        == version_helper()
}

/// What one fragment of an interpolation adds to the pattern, and the name it
/// captures, if any.
pub struct Piece {
    pub pattern: Seq<u8>,
    pub name: Option<Seq<u8>>,
}

/// The piece that `fragment` adds. A fragment holds exactly one node. In a
/// literal fragment that is a token of the interpolation's text. In an
/// expression fragment it is an identifier, which is captured under its own
/// name, or the version helper applied to an identifier, which captures
/// nothing.
pub open spec fn piece_of(nodes: Seq<NodeView>, fragment: usize) -> Result<Piece, UpdateError> {
    let parts = children_of(nodes, fragment);
    if parts.len() != 1 {
        Err(UpdateError::PatternSynthesis)
    } else {
        let part = nodes[parts[0] as int];
        match nodes[fragment as int].kind {
            NodeKind::LiteralFragment => match literal_text(part.kind, part.text) {
                Some(text) => Ok(Piece { pattern: escape_meta(text), name: None }),
                None => Err(UpdateError::Unexpected),
            },
            NodeKind::ExpressionFragment => match part.kind {
                NodeKind::Identifier => Ok(
                    Piece { pattern: capture_of(part.text), name: Some(part.text) },
                ),
                NodeKind::Application => match callee_of(nodes, parts[0]) {
                    Some(callee) => if is_version_helper(nodes, callee) && takes_identifier(
                        nodes,
                        parts[0],
                    ) {
                        Ok(Piece { pattern: version_pattern(), name: None })
                    } else {
                        Err(UpdateError::PatternSynthesis)
                    },
                    None => Err(UpdateError::Unexpected),
                },
                _ => Err(UpdateError::PatternSynthesis),
            },
            _ => Err(UpdateError::Unexpected),
        }
    }
}

/// A pattern and the names it captures, in the order of their groups.
pub struct Template {
    pub pattern: Seq<u8>,
    pub names: Seq<Seq<u8>>,
}

/// The pieces of the first `count` of `fragments` put together, or the failure
/// of the first fragment among them that adds no piece.
pub open spec fn template_upto(nodes: Seq<NodeView>, fragments: Seq<usize>, count: int) -> Result<
    Template,
    UpdateError,
>
    decreases count,
{
    if count <= 0 {
        Ok(Template { pattern: Seq::empty(), names: Seq::empty() })
    } else {
        match template_upto(nodes, fragments, count - 1) {
            Err(error) => Err(error),
            Ok(before) => match piece_of(nodes, fragments[count - 1]) {
                Err(error) => Err(error),
                Ok(piece) => Ok(
                    Template {
                        pattern: before.pattern + piece.pattern,
                        names: match piece.name {
                            Some(name) => before.names.push(name),
                            None => before.names,
                        },
                    },
                ),
            },
        }
    }
}

/// The template of the interpolation at node `value`: the pieces of all its
/// fragments, anchored at both ends.
pub open spec fn template_of(nodes: Seq<NodeView>, value: usize) -> Result<Template, UpdateError> {
    let fragments = children_of(nodes, value);
    match template_upto(nodes, fragments, fragments.len() as int) {
        Err(error) => Err(error),
        Ok(whole) => Ok(Template { pattern: anchored(whole.pattern), names: whole.names }),
    }
}

/// The texts of `names`, in order.
pub open spec fn texts_of(names: Seq<Vec<u8>>) -> Seq<Seq<u8>> {
    Seq::new(names.len(), |i: int| names[i]@)
}

/// A pattern and the names it captures, in the order of their groups.
#[derive(Debug)]
pub struct Pattern {
    pub text: Vec<u8>,
    pub names: Vec<Vec<u8>>,
}

impl View for Pattern {
    type V = Template;

    open spec fn view(&self) -> Template {
        Template { pattern: self.text@, names: texts_of(self.names@) }
    }
}

/// Whether `byte` is a character with a meaning of its own in a regular
/// expression.
pub fn means_something(byte: u8) -> (meta: bool)
    ensures
        meta == is_meta(byte),
{
    byte == BACKSLASH || byte == FULL_STOP || byte == PLUS || byte == ASTERISK
        || byte == QUESTION || byte == PAREN_OPEN || byte == PAREN_CLOSE || byte == BAR
        || byte == BRACKET_OPEN || byte == BRACKET_CLOSE || byte == BRACE_OPEN
        || byte == BRACE_CLOSE || byte == CARET || byte == DOLLAR || byte == HASH
        || byte == AMPERSAND || byte == HYPHEN || byte == TILDE
}

/// Puts a backslash before each character of `text` that has a meaning of its
/// own in a regular expression.
pub fn escape_literal(text: &[u8]) -> (escaped: Vec<u8>)
    ensures
        escaped@ == escape_meta(text@),
{
    let mut escaped: Vec<u8> = Vec::new();
    let mut i: usize = 0;
    while i < text.len()
        invariant
            0 <= i <= text@.len(),
            escaped@ == escape_meta(text@.take(i as int)),
        decreases text@.len() - i,
    {
        assert(text@.take(i + 1).drop_last() =~= text@.take(i as int));
        let byte = text[i];
        if means_something(byte) {
            escaped.push(BACKSLASH);
        }
        escaped.push(byte);
        i = i + 1;
    }
    assert(text@.take(text@.len() as int) =~= text@);
    escaped
}

/// The literal text that a token of `kind` with `text` stands for.
pub fn trim_fragment(kind: NodeKind, text: &[u8]) -> (trimmed: Option<Vec<u8>>)
    ensures
        match literal_text(kind, text@) {
            Some(literal) => trimmed matches Some(found) && found@ == literal,
            None => trimmed is None,
        },
{
    match kind {
        NodeKind::FragmentOpening => {
            let end = trailing_pairs(text, text.len(), DOLLAR, BRACE_OPEN);
            assert(text@.take(text@.len() as int) =~= text@);
            assert(text@.subrange(0, end as int) =~= text@.take(end as int));
            Some(copy_range(text, 0, end))
        },
        NodeKind::FragmentJoint => {
            let start = leading_run(text, BRACE_CLOSE);
            let rest = copy_range(text, start, text.len());
            assert(rest@ =~= text@.skip(start as int));
            let end = trailing_pairs(rest.as_slice(), rest.len(), DOLLAR, BRACE_OPEN);
            assert(rest@.take(rest@.len() as int) =~= rest@);
            assert(rest@.subrange(0, end as int) =~= rest@.take(end as int));
            Some(copy_range(rest.as_slice(), 0, end))
        },
        NodeKind::FragmentClosing => {
            let start = leading_run(text, BRACE_CLOSE);
            assert(text@.subrange(start as int, text@.len() as int) =~= text@.skip(start as int));
            Some(copy_range(text, start, text.len()))
        },
        _ => None,
    }
}

/// The function that `application` calls.
pub fn callee(tree: &SyntaxTree, application: usize) -> (found: Option<usize>)
    requires
        application < tree@.len(),
    ensures
        found == callee_of(tree@, application),
        found matches Some(index) ==> index < tree@.len(),
{
    let inner = tree.children(application, true);
    if inner.len() == 0 {
        None
    } else if tree.node(inner[0]).kind == NodeKind::IndexAccess {
        let parts = tree.children(inner[0], true);
        if parts.len() > 2 {
            Some(parts[2])
        } else {
            None
        }
    } else {
        Some(inner[0])
    }
}

/// Whether `application` applies its function to a single identifier.
pub fn applies_to_identifier(tree: &SyntaxTree, application: usize) -> (applies: bool)
    requires
        application < tree@.len(),
    ensures
        applies == takes_identifier(tree@, application),
{
    let inner = tree.children(application, true);
    inner.len() > 1 && tree.node(inner[1]).kind == NodeKind::Identifier
}

/// Whether node `callee` names the version helper.
pub fn names_version_helper(tree: &SyntaxTree, callee: usize) -> (named: bool)
    requires
        callee < tree@.len(),
    ensures
        named == is_version_helper(tree@, callee),
{
    let mut helper: Vec<u8> = Vec::new();
    helper.push(LOWER_M);
    helper.push(LOWER_A);
    helper.push(LOWER_J);
    helper.push(LOWER_O);
    helper.push(LOWER_R);
    helper.push(UPPER_M);
    helper.push(LOWER_I);
    helper.push(LOWER_N);
    helper.push(LOWER_O);
    helper.push(LOWER_R);
    assert(helper@ =~= version_helper());
    tree.node(callee).kind == NodeKind::Identifier && same_bytes(
        tree.node(callee).text.as_slice(),
        helper.as_slice(),
    )
}

/// Adds the piece of `fragment` to `pattern`, and the name it captures, if
/// any, to `names`. On failure both are left with what they held or more.
pub fn add_piece(
    tree: &SyntaxTree,
    fragment: usize,
    pattern: &mut Vec<u8>,
    names: &mut Vec<Vec<u8>>,
) -> (added: Result<(), UpdateError>)
    requires
        fragment < tree@.len(),
    ensures
        match piece_of(tree@, fragment) {
            Ok(piece) => {
                &&& added is Ok
                &&& final(pattern)@ == old(pattern)@ + piece.pattern
                &&& texts_of(final(names)@) == match piece.name {
                    Some(name) => texts_of(old(names)@).push(name),
                    None => texts_of(old(names)@),
                }
            },
            Err(error) => added == Err::<(), UpdateError>(error),
        },
{
    let parts = tree.children(fragment, false);
    let inside = match single(&parts) {
        Some(inside) => inside,
        None => {
            return Err(UpdateError::PatternSynthesis);
        },
    };
    let part = tree.node(inside);
    match tree.node(fragment).kind {
        NodeKind::LiteralFragment => match trim_fragment(part.kind, part.text.as_slice()) {
            Some(text) => {
                let escaped = escape_literal(text.as_slice());
                push_bytes(pattern, escaped.as_slice());
                Ok(())
            },
            None => Err(UpdateError::Unexpected),
        },
        NodeKind::ExpressionFragment => match part.kind {
            NodeKind::Identifier => {
                pattern.push(PAREN_OPEN);
                pattern.push(QUESTION);
                pattern.push(UPPER_P);
                pattern.push(LESS);
                push_bytes(pattern, part.text.as_slice());
                pattern.push(GREATER);
                pattern.push(FULL_STOP);
                pattern.push(PLUS);
                pattern.push(PAREN_CLOSE);
                assert(pattern@ =~= old(pattern)@ + capture_of(part@.text));
                let name = copy_bytes(part.text.as_slice());
                names.push(name);
                assert(texts_of(names@) =~= texts_of(old(names)@).push(part@.text));
                Ok(())
            },
            NodeKind::Application => match callee(tree, inside) {
                Some(called) => {
                    if names_version_helper(tree, called) && applies_to_identifier(tree, inside) {
                        pattern.push(BRACKET_OPEN);
                        pattern.push(DIGIT_0);
                        pattern.push(HYPHEN);
                        pattern.push(DIGIT_9);
                        pattern.push(BRACKET_CLOSE);
                        pattern.push(PLUS);
                        pattern.push(BACKSLASH);
                        pattern.push(FULL_STOP);
                        pattern.push(BRACKET_OPEN);
                        pattern.push(DIGIT_0);
                        pattern.push(HYPHEN);
                        pattern.push(DIGIT_9);
                        pattern.push(BRACKET_CLOSE);
                        pattern.push(PLUS);
                        assert(pattern@ =~= old(pattern)@ + version_pattern());
                        Ok(())
                    } else {
                        Err(UpdateError::PatternSynthesis)
                    }
                },
                None => Err(UpdateError::Unexpected),
            },
            _ => Err(UpdateError::PatternSynthesis),
        },
        _ => Err(UpdateError::Unexpected),
    }
}

/// Makes the pattern of the interpolation at node `value`, with the names it
/// captures.
pub fn synthesize(tree: &SyntaxTree, value: usize) -> (made: Result<Pattern, UpdateError>)
    requires
        value < tree@.len(),
    ensures
        match template_of(tree@, value) {
            Ok(template) => made matches Ok(pattern) && pattern@ == template,
            Err(error) => made matches Err(failure) && failure == error,
        },
{
    let fragments = tree.children(value, false);
    let mut body: Vec<u8> = Vec::new();
    let mut names: Vec<Vec<u8>> = Vec::new();
    let mut i: usize = 0;
    assert(texts_of(names@) =~= Seq::<Seq<u8>>::empty());
    while i < fragments.len()
        invariant
            0 <= i <= fragments@.len(),
            fragments@ == children_of(tree@, value),
            forall|k: int| 0 <= k < fragments@.len() ==> #[trigger] fragments@[k] < tree@.len(),
            template_upto(tree@, fragments@, i as int) == Ok::<Template, UpdateError>(
                Template { pattern: body@, names: texts_of(names@) },
            ),
        decreases fragments@.len() - i,
    {
        match add_piece(tree, fragments[i], &mut body, &mut names) {
            Ok(()) => {},
            Err(error) => {
                proof {
                    lemma_template_fails_on(tree@, fragments@, i + 1, fragments@.len() as int);
                }
                return Err(error);
            },
        }
        i = i + 1;
    }
    let mut text: Vec<u8> = Vec::new();
    text.push(CARET);
    text.push(PAREN_OPEN);
    text.push(QUESTION);
    text.push(COLON);
    push_bytes(&mut text, body.as_slice());
    text.push(PAREN_CLOSE);
    text.push(DOLLAR);
    assert(text@ =~= anchored(body@));
    Ok(Pattern { text, names })
}

/// Synthesis fails in two ways only: on a fragment that no pattern can be
/// made of, or on a tree of a shape that is not understood.
pub proof fn lemma_template_failures(nodes: Seq<NodeView>, fragments: Seq<usize>, count: int)
    ensures
        template_upto(nodes, fragments, count) matches Err(error) ==> error
            == UpdateError::PatternSynthesis || error == UpdateError::Unexpected,
    decreases count,
{
    if count > 0 {
        lemma_template_failures(nodes, fragments, count - 1);
    }
}

/// A failure among the first `count` fragments is the failure of any longer
/// run of them.
pub proof fn lemma_template_fails_on(
    nodes: Seq<NodeView>,
    fragments: Seq<usize>,
    count: int,
    longer: int,
)
    requires
        0 <= count <= longer,
        template_upto(nodes, fragments, count) is Err,
    ensures
        template_upto(nodes, fragments, longer) == template_upto(nodes, fragments, count),
    decreases longer - count,
{
    if count < longer {
        lemma_template_fails_on(nodes, fragments, count, longer - 1);
    }
}

} // verus!
