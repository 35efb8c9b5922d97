//! Following a binding to the literal bindings behind it.

use crate::capture::{groups_of, match_pattern, matched_groups};
use crate::error::UpdateError;
use crate::escape::{escape_nix_string, nix_string};
use crate::pattern::{lemma_template_failures, synthesize, template_of, texts_of};
use crate::scope::{lemma_lookup, lookup, lookup_set_entry, value_node, value_of};
use crate::text::{
    contains_line_break, copy_bytes, has_line_break, same_bytes, LOWER_L, LOWER_N, LOWER_U,
};
use crate::tree::{children_of, NodeKind, NodeView, SyntaxTree};
use vstd::prelude::*;

verus! {

/// An edit as contracts see it.
pub struct EditView {
    pub node: usize,
    pub name: Seq<u8>,
    pub value: Seq<u8>,
    pub derived: bool,
}

/// One edit that resolution arrived at: the binding at `node` is to read
/// `name = value;`. An edit is derived where it was reached through an alias
/// or an interpolation, and direct where the binding itself was asked for.
#[derive(Debug)]
pub struct ResolvedEdit {
    pub node: usize,
    pub name: Vec<u8>,
    pub value: Vec<u8>,
    pub derived: bool,
}

impl View for ResolvedEdit {
    type V = EditView;

    open spec fn view(&self) -> EditView {
        EditView { node: self.node, name: self.name@, value: self.value@, derived: self.derived }
    }
}

impl ResolvedEdit {
    /// An edit of the binding at `node`, with copies of `name` and `value`.
    pub fn new(node: usize, name: &[u8], value: &[u8], derived: bool) -> (edit: ResolvedEdit)
        ensures
            edit@ == (EditView { node, name: name@, value: value@, derived }),
    {
        ResolvedEdit { node, name: copy_bytes(name), value: copy_bytes(value), derived }
    }
}

/// The views of `edits`, in order.
pub open spec fn edit_views(edits: Seq<ResolvedEdit>) -> Seq<EditView> {
    Seq::new(edits.len(), |i: int| edits[i]@)
}

/// The identifier that stands for no value and is treated as a literal: `null`.
pub open spec fn null_name() -> Seq<u8> {
    seq![LOWER_N, LOWER_U, LOWER_L, LOWER_L]
}

/// Whether the binding at `node` ends resolution: its value is a string
/// literal or the identifier `null`.
pub open spec fn is_terminal(nodes: Seq<NodeView>, node: usize) -> bool {
    match value_of(nodes, node) {
        Some(value) => nodes[value as int].kind == NodeKind::StringLiteral || (nodes[value as int].kind
            == NodeKind::Identifier && nodes[value as int].text == null_name()),
        None => false,
    }
}

/// The edits that giving `value` to the binding at `binding` comes to.
///
/// A string literal, or the identifier `null`, is edited itself. An identifier
/// is an alias: the edit goes to the nearest binding of that name. An
/// interpolation is taken apart by its pattern, and each captured name goes to
/// its nearest binding with what it captured. `visiting` holds the bindings
/// whose resolution is under way; reaching one of them again is a cycle.
pub open spec fn resolve(
    nodes: Seq<NodeView>,
    binding: usize,
    name: Seq<u8>,
    value: Seq<u8>,
    derived: bool,
    visiting: Seq<usize>,
) -> Result<Seq<EditView>, UpdateError>
    decreases binding, 1nat, 0nat,
    via resolve_terminates
{
    if binding >= nodes.len() || nodes[binding as int].kind != NodeKind::Binding {
        Err(UpdateError::BindingNotFound)
    } else if visiting.contains(binding) {
        Err(UpdateError::CycleDetected)
    } else {
        match value_of(nodes, binding) {
            None => Err(UpdateError::Unexpected),
            Some(rhs) => match nodes[rhs as int].kind {
                NodeKind::StringLiteral => Ok(seq![EditView { node: binding, name, value, derived }]),
                NodeKind::Identifier => {
                    let alias = nodes[rhs as int].text;
                    if alias == null_name() {
                        Ok(seq![EditView { node: binding, name, value, derived }])
                    } else {
                        match lookup(nodes, alias, binding) {
                            None => Err(UpdateError::UnresolvableAlias),
                            Some(target) => resolve(
                                nodes,
                                target,
                                alias,
                                value,
                                true,
                                visiting.push(binding),
                            ),
                        }
                    }
                },
                NodeKind::Interpolation => match template_of(nodes, rhs) {
                    Err(error) => Err(error),
                    Ok(template) => match matched_groups(template, nix_string(value)) {
                        Err(error) => Err(error),
                        Ok(groups) => resolve_captures(
                            nodes,
                            binding,
                            template.names,
                            groups,
                            0,
                            visiting.push(binding),
                        ),
                    },
                },
                _ => Err(UpdateError::UnsupportedValue),
            },
        }
    }
}

/// What group `index` holds, if there is such a group and it holds anything.
pub open spec fn held_by(groups: Seq<Option<Seq<u8>>>, index: int) -> Option<Seq<u8>> {
    if 0 <= index < groups.len() {
        groups[index]
    } else {
        None
    }
}

/// `first`, and then what `rest` comes to, unless that is a failure.
pub open spec fn and_then_edits(first: Seq<EditView>, rest: Result<Seq<EditView>, UpdateError>) -> Result<
    Seq<EditView>,
    UpdateError,
> {
    match rest {
        Ok(more) => Ok(first + more),
        Err(error) => Err(error),
    }
}

/// How a list of edits stands after a resolution with `outcome`: on success
/// the edits found were appended, and on failure the list is as it was and the
/// failure is reported.
pub open spec fn appended(
    before: Seq<ResolvedEdit>,
    after: Seq<ResolvedEdit>,
    outcome: Result<Seq<EditView>, UpdateError>,
    done: Result<(), UpdateError>,
) -> bool {
    match outcome {
        Ok(found) => done is Ok && edit_views(after) =~= edit_views(before) + found,
        Err(error) => done == Err::<(), UpdateError>(error) && edit_views(after) =~= edit_views(
            before,
        ),
    }
}

/// The edits that the captures from `from` on come to, in order: each of
/// `names` goes to its nearest binding as seen from `binding`, with the text
/// that its group holds. A group that holds nothing, or a line break, is a
/// fault of the pattern.
pub open spec fn resolve_captures(
    nodes: Seq<NodeView>,
    binding: usize,
    names: Seq<Seq<u8>>,
    groups: Seq<Option<Seq<u8>>>,
    from: int,
    visiting: Seq<usize>,
) -> Result<Seq<EditView>, UpdateError>
    decreases binding, 0nat, names.len() - from,
    via resolve_captures_terminates
{
    if from < 0 || from >= names.len() {
        Ok(Seq::empty())
    } else {
        match lookup(nodes, names[from], binding) {
            None => Err(UpdateError::UnresolvableAlias),
            Some(target) => match held_by(groups, from) {
                None => Err(UpdateError::Unexpected),
                Some(part) => if has_line_break(part) {
                    Err(UpdateError::Unexpected)
                } else {
                    match resolve(nodes, target, names[from], part, true, visiting) {
                        Err(error) => Err(error),
                        Ok(first) => match resolve_captures(
                            nodes,
                            binding,
                            names,
                            groups,
                            from + 1,
                            visiting,
                        ) {
                            Err(error) => Err(error),
                            Ok(rest) => Ok(first + rest),
                        },
                    }
                },
            },
        }
    }
}

#[via_fn]
proof fn resolve_terminates(
    nodes: Seq<NodeView>,
    binding: usize,
    name: Seq<u8>,
    value: Seq<u8>,
    derived: bool,
    visiting: Seq<usize>,
) {
    match value_of(nodes, binding) {
        Some(rhs) => {
            lemma_lookup(nodes, nodes[rhs as int].text, binding);
        },
        None => {},
    }
}

#[via_fn]
proof fn resolve_captures_terminates(
    nodes: Seq<NodeView>,
    binding: usize,
    names: Seq<Seq<u8>>,
    groups: Seq<Option<Seq<u8>>>,
    from: int,
    visiting: Seq<usize>,
) {
    if 0 <= from < names.len() {
        lemma_lookup(nodes, names[from], binding);
    }
}

/// What holds of an edit that resolution from `binding` arrived at: it is for
/// a binding at or before `binding` whose value ends resolution, and its value
/// holds no line break unless `value` does.
pub open spec fn is_settled(
    nodes: Seq<NodeView>,
    binding: usize,
    value: Seq<u8>,
    edit: EditView,
) -> bool {
    &&& edit.node <= binding
    &&& edit.node < nodes.len()
    &&& nodes[edit.node as int].kind == NodeKind::Binding
    &&& is_terminal(nodes, edit.node)
    &&& has_line_break(edit.value) ==> has_line_break(value)
}

/// Every edit that `resolve` arrives at is settled, and where every binding
/// under way lies behind `binding`, no cycle is reported.
proof fn lemma_resolve(
    nodes: Seq<NodeView>,
    binding: usize,
    name: Seq<u8>,
    value: Seq<u8>,
    derived: bool,
    visiting: Seq<usize>,
)
    ensures
        match resolve(nodes, binding, name, value, derived, visiting) {
            Ok(edits) => forall|i: int|
                0 <= i < edits.len() ==> is_settled(nodes, binding, value, #[trigger] edits[i]),
            Err(error) => (forall|k: int| 0 <= k < visiting.len() ==> visiting[k] > binding)
                ==> error != UpdateError::CycleDetected,
        },
    decreases binding, 1nat, 0nat,
{
    if binding < nodes.len() && nodes[binding as int].kind == NodeKind::Binding
        && !visiting.contains(binding) {
        match value_of(nodes, binding) {
            None => {},
            Some(rhs) => {
                let inner = visiting.push(binding);
                if forall|k: int| 0 <= k < visiting.len() ==> visiting[k] > binding {
                    assert forall|k: int| 0 <= k < inner.len() implies inner[k] >= binding by {
                        if k < visiting.len() {
                            assert(inner[k] == visiting[k]);
                        }
                    }
                }
                match nodes[rhs as int].kind {
                    NodeKind::Identifier => {
                        let alias = nodes[rhs as int].text;
                        if alias != null_name() {
                            lemma_lookup(nodes, alias, binding);
                            match lookup(nodes, alias, binding) {
                                None => {},
                                Some(target) => {
                                    lemma_resolve(nodes, target, alias, value, true, inner);
                                },
                            }
                        }
                    },
                    NodeKind::Interpolation => match template_of(nodes, rhs) {
                        Err(_) => {
                            let fragments = children_of(nodes, rhs);
                            lemma_template_failures(nodes, fragments, fragments.len() as int);
                        },
                        Ok(template) => match matched_groups(template, nix_string(value)) {
                            Err(_) => {},
                            Ok(groups) => {
                                lemma_resolve_captures(
                                    nodes,
                                    binding,
                                    template.names,
                                    groups,
                                    0,
                                    inner,
                                );
                            },
                        },
                    },
                    _ => {},
                }
            },
        }
    } else if binding < nodes.len() && nodes[binding as int].kind == NodeKind::Binding {
        let k = choose|k: int| 0 <= k < visiting.len() && visiting[k] == binding;
        assert(!(visiting[k] > binding));
    }
}

/// Every edit that `resolve_captures` arrives at is for a binding before
/// `binding` whose value ends resolution, and holds no line break; where no
/// binding under way lies before `binding`, no cycle is reported.
proof fn lemma_resolve_captures(
    nodes: Seq<NodeView>,
    binding: usize,
    names: Seq<Seq<u8>>,
    groups: Seq<Option<Seq<u8>>>,
    from: int,
    visiting: Seq<usize>,
)
    ensures
        match resolve_captures(nodes, binding, names, groups, from, visiting) {
            Ok(edits) => forall|i: int|
                0 <= i < edits.len() ==> is_settled(
                    nodes,
                    binding,
                    Seq::empty(),
                    #[trigger] edits[i],
                ),
            Err(error) => (forall|k: int| 0 <= k < visiting.len() ==> visiting[k] >= binding)
                ==> error != UpdateError::CycleDetected,
        },
    decreases binding, 0nat, names.len() - from,
{
    if 0 <= from < names.len() {
        lemma_lookup(nodes, names[from], binding);
        match lookup(nodes, names[from], binding) {
            None => {},
            Some(target) => match held_by(groups, from) {
                None => {},
                Some(part) => {
                    if !has_line_break(part) {
                        lemma_resolve(nodes, target, names[from], part, true, visiting);
                        lemma_resolve_captures(nodes, binding, names, groups, from + 1, visiting);
                        match resolve(nodes, target, names[from], part, true, visiting) {
                            Err(_) => {},
                            Ok(first) => match resolve_captures(
                                nodes,
                                binding,
                                names,
                                groups,
                                from + 1,
                                visiting,
                            ) {
                                Err(_) => {},
                                Ok(rest) => {
                                    let edits = first + rest;
                                    assert forall|i: int| 0 <= i < edits.len() implies is_settled(
                                        nodes,
                                        binding,
                                        Seq::empty(),
                                        #[trigger] edits[i],
                                    ) by {
                                        if i < first.len() {
                                            assert(is_settled(nodes, target, part, first[i]));
                                        } else {
                                            assert(is_settled(
                                                nodes,
                                                binding,
                                                Seq::empty(),
                                                rest[i - first.len()],
                                            ));
                                        }
                                    }
                                },
                            }
                        }
                    }
                },
            },
        }
    }
}

/// Resolution ends at literals: every edit it arrives at is for a binding
/// whose value is a string literal or `null`, never for an alias or an
/// interpolation on the way, however long the chain.
pub proof fn lemma_edits_end_at_literals(
    nodes: Seq<NodeView>,
    binding: usize,
    name: Seq<u8>,
    value: Seq<u8>,
    derived: bool,
    visiting: Seq<usize>,
)
    ensures
        resolve(nodes, binding, name, value, derived, visiting) matches Ok(edits) ==> forall|
            i: int,
        |
            0 <= i < edits.len() ==> {
                &&& (#[trigger] edits[i]).node <= binding
                &&& edits[i].node < nodes.len()
                &&& nodes[edits[i].node as int].kind == NodeKind::Binding
                &&& is_terminal(nodes, edits[i].node)
            },
{
    lemma_resolve(nodes, binding, name, value, derived, visiting);
    if let Ok(edits) = resolve(nodes, binding, name, value, derived, visiting) {
        assert forall|i: int| 0 <= i < edits.len() implies {
            &&& (#[trigger] edits[i]).node <= binding
            &&& edits[i].node < nodes.len()
            &&& nodes[edits[i].node as int].kind == NodeKind::Binding
            &&& is_terminal(nodes, edits[i].node)
        } by {
            assert(is_settled(nodes, binding, value, edits[i]));
        }
    }
}

/// A value on one line comes to edits whose values are each on one line.
pub proof fn lemma_edits_are_single_line(
    nodes: Seq<NodeView>,
    binding: usize,
    name: Seq<u8>,
    value: Seq<u8>,
    derived: bool,
    visiting: Seq<usize>,
)
    requires
        !has_line_break(value),
    ensures
        resolve(nodes, binding, name, value, derived, visiting) matches Ok(edits) ==> forall|
            i: int,
        |
            0 <= i < edits.len() ==> !has_line_break((#[trigger] edits[i]).value),
{
    lemma_resolve(nodes, binding, name, value, derived, visiting);
    if let Ok(edits) = resolve(nodes, binding, name, value, derived, visiting) {
        assert forall|i: int| 0 <= i < edits.len() implies !has_line_break(
            (#[trigger] edits[i]).value,
        ) by {
            assert(is_settled(nodes, binding, value, edits[i]));
        }
    }
}

/// A resolution that starts with no binding under way never reports a cycle:
/// scope lookup only ever moves towards the start of the file.
pub proof fn lemma_no_cycle_from_the_start(
    nodes: Seq<NodeView>,
    binding: usize,
    name: Seq<u8>,
    value: Seq<u8>,
    derived: bool,
)
    ensures
        resolve(nodes, binding, name, value, derived, Seq::empty()) != Err::<
            Seq<EditView>,
            UpdateError,
        >(UpdateError::CycleDetected),
{
    lemma_resolve(nodes, binding, name, value, derived, Seq::empty());
}

/// Cuts `edits` back to its first `count` edits.
fn cut_back(edits: &mut Vec<ResolvedEdit>, count: usize)
    requires
        count <= old(edits)@.len(),
    ensures
        edit_views(final(edits)@) == edit_views(old(edits)@).take(count as int),
{
    edits.truncate(count);
    assert(edit_views(edits@) =~= edit_views(old(edits)@).take(count as int));
}

/// Whether `text` is the identifier `null`.
pub fn is_null(text: &[u8]) -> (null: bool)
    ensures
        null == (text@ == null_name()),
{
    let mut name: Vec<u8> = Vec::new();
    name.push(LOWER_N);
    name.push(LOWER_U);
    name.push(LOWER_L);
    name.push(LOWER_L);
    assert(name@ =~= null_name());
    same_bytes(text, name.as_slice())
}

/// Whether `binding` is among `visiting`.
fn is_visiting(visiting: &Vec<usize>, binding: usize) -> (found: bool)
    ensures
        found == visiting@.contains(binding),
{
    let mut i: usize = 0;
    while i < visiting.len()
        invariant
            0 <= i <= visiting@.len(),
            forall|k: int| 0 <= k < i ==> visiting@[k] != binding,
        decreases visiting@.len() - i,
    {
        if visiting[i] == binding {
            return true;
        }
        i = i + 1;
    }
    false
}

/// `visiting` with `binding` added.
fn visiting_also(visiting: &Vec<usize>, binding: usize) -> (more: Vec<usize>)
    ensures
        more@ == visiting@.push(binding),
{
    let mut more: Vec<usize> = Vec::new();
    let mut i: usize = 0;
    while i < visiting.len()
        invariant
            0 <= i <= visiting@.len(),
            more@ =~= visiting@.take(i as int),
        decreases visiting@.len() - i,
    {
        more.push(visiting[i]);
        i = i + 1;
    }
    more.push(binding);
    assert(more@ =~= visiting@.push(binding));
    more
}

/// Appends one edit to `edits`.
fn push_edit(
    edits: &mut Vec<ResolvedEdit>,
    node: usize,
    name: &[u8],
    value: &[u8],
    derived: bool,
)
    ensures
        edit_views(final(edits)@) == edit_views(old(edits)@) + seq![
            EditView { node, name: name@, value: value@, derived },
        ],
{
    edits.push(ResolvedEdit::new(node, name, value, derived));
    assert(edit_views(edits@) =~= edit_views(old(edits)@) + seq![
        EditView { node, name: name@, value: value@, derived },
    ]);
}

/// Resolves the request that the binding at `edit.node` be given `edit.value`
/// and appends the edits it comes to.
pub fn resolve_bindings(tree: &SyntaxTree, edits: &mut Vec<ResolvedEdit>, edit: ResolvedEdit) -> (done:
    Result<(), UpdateError>)
    ensures
        appended(
            old(edits)@,
            final(edits)@,
            resolve(tree@, edit.node, edit.name@, edit.value@, edit.derived, Seq::empty()),
            done,
        ),
{
    let visiting: Vec<usize> = Vec::new();
    resolve_within(
        tree,
        edits,
        edit.node,
        edit.name.as_slice(),
        edit.value.as_slice(),
        edit.derived,
        &visiting,
    )
}

/// Resolves the request that the binding at `binding` be given `value` while
/// the bindings in `visiting` are being resolved, and appends the edits it
/// comes to.
pub fn resolve_within(
    tree: &SyntaxTree,
    edits: &mut Vec<ResolvedEdit>,
    binding: usize,
    name: &[u8],
    value: &[u8],
    derived: bool,
    visiting: &Vec<usize>,
) -> (done: Result<(), UpdateError>)
    ensures
        appended(
            old(edits)@,
            final(edits)@,
            resolve(tree@, binding, name@, value@, derived, visiting@),
            done,
        ),
    decreases binding, 1nat,
{
    if binding >= tree.len() || tree.node(binding).kind != NodeKind::Binding {
        return Err(UpdateError::BindingNotFound);
    }
    if is_visiting(visiting, binding) {
        return Err(UpdateError::CycleDetected);
    }
    match value_node(tree, binding) {
        None => Err(UpdateError::Unexpected),
        Some(rhs) => match tree.node(rhs).kind {
            NodeKind::StringLiteral => {
                push_edit(edits, binding, name, value, derived);
                Ok(())
            },
            NodeKind::Identifier => {
                let alias = tree.node(rhs).text.as_slice();
                if is_null(alias) {
                    push_edit(edits, binding, name, value, derived);
                    Ok(())
                } else {
                    match lookup_set_entry(tree, alias, binding) {
                        None => Err(UpdateError::UnresolvableAlias),
                        Some(target) => {
                            let inner = visiting_also(visiting, binding);
                            resolve_within(tree, edits, target, alias, value, true, &inner)
                        },
                    }
                }
            },
            NodeKind::Interpolation => match synthesize(tree, rhs) {
                Err(error) => Err(error),
                Ok(pattern) => {
                    let literal = escape_nix_string(value);
                    match match_pattern(&pattern, literal.as_slice()) {
                        Err(error) => Err(error),
                        Ok(groups) => {
                            let inner = visiting_also(visiting, binding);
                            bind_captures(tree, edits, binding, &pattern.names, &groups, &inner)
                        },
                    }
                },
            },
            _ => Err(UpdateError::UnsupportedValue),
        },
    }
}

/// Resolves what an interpolation captured: each of `names` goes to its
/// nearest binding as seen from `binding`, with the text that its group among
/// `groups` holds, and the edits are appended in the order of the names.
pub fn bind_captures(
    tree: &SyntaxTree,
    edits: &mut Vec<ResolvedEdit>,
    binding: usize,
    names: &Vec<Vec<u8>>,
    groups: &Vec<Option<Vec<u8>>>,
    visiting: &Vec<usize>,
) -> (done: Result<(), UpdateError>)
    requires
        binding < tree@.len(),
    ensures
        appended(
            old(edits)@,
            final(edits)@,
            resolve_captures(
                tree@,
                binding,
                texts_of(names@),
                groups_of(groups@),
                0,
                visiting@,
            ),
            done,
        ),
    decreases binding, 0nat,
{
    let ghost nodes = tree@;
    let ghost texts = texts_of(names@);
    let ghost held = groups_of(groups@);
    let ghost whole = resolve_captures(nodes, binding, texts, held, 0, visiting@);
    let ghost mut so_far: Seq<EditView> = Seq::empty();
    let start = edits.len();
    let mut k: usize = 0;
    assert(edit_views(edits@) =~= edit_views(old(edits)@) + so_far);
    while k < names.len()
        invariant
            start == old(edits)@.len(),
            start <= edits@.len(),
            nodes == tree@,
            texts == texts_of(names@),
            held == groups_of(groups@),
            whole == resolve_captures(nodes, binding, texts, held, 0, visiting@),
            binding < nodes.len(),
            0 <= k <= names@.len(),
            edit_views(edits@) == edit_views(old(edits)@) + so_far,
            whole == and_then_edits(
                so_far,
                resolve_captures(nodes, binding, texts, held, k as int, visiting@),
            ),
        decreases names@.len() - k,
    {
        let ghost before = edits@;
        let name = names[k].as_slice();
        match lookup_set_entry(tree, name, binding) {
            None => {
                cut_back(edits, start);
                return Err(UpdateError::UnresolvableAlias);
            },
            Some(target) => {
                if k >= groups.len() {
                    cut_back(edits, start);
                    return Err(UpdateError::Unexpected);
                }
                match &groups[k] {
                    None => {
                        cut_back(edits, start);
                        return Err(UpdateError::Unexpected);
                    },
                    Some(part) => {
                        if contains_line_break(part.as_slice()) {
                            cut_back(edits, start);
                            return Err(UpdateError::Unexpected);
                        }
                        match resolve_within(
                            tree,
                            edits,
                            target,
                            name,
                            part.as_slice(),
                            true,
                            visiting,
                        ) {
                            Err(error) => {
                                cut_back(edits, start);
                                return Err(error);
                            },
                            Ok(()) => {
                                proof {
                                    let first = resolve(
                                        nodes,
                                        target,
                                        texts[k as int],
                                        part@,
                                        true,
                                        visiting@,
                                    )->Ok_0;
                                    assert(edit_views(edits@) =~= edit_views(old(edits)@) + (so_far
                                        + first));
                                    let rest = resolve_captures(
                                        nodes,
                                        binding,
                                        texts,
                                        held,
                                        k + 1,
                                        visiting@,
                                    );
                                    assert(and_then_edits(so_far, and_then_edits(first, rest))
                                        == and_then_edits(so_far + first, rest)) by {
                                        if let Ok(more) = rest {
                                            assert(so_far + (first + more) =~= (so_far + first)
                                                + more);
                                        }
                                    }
                                    so_far = so_far + first;
                                }
                            },
                        }
                    },
                }
            },
        }
        k = k + 1;
    }
    proof {
        assert(so_far + Seq::<EditView>::empty() =~= so_far);
    }
    Ok(())
}

} // verus!
