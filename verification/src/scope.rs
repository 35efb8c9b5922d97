//! Bindings and the scopes they are looked up in.

use crate::error::UpdateError;
use crate::text::same_bytes;
use crate::tree::{
    children_of, inner_children_of, lemma_last_at_most, next_sibling_of, parent_of, scope_step,
    single, NodeKind, NodeView, SyntaxTree,
};
use vstd::prelude::*;

verus! {

/// The attributes among `items`, which are the parts of a key: what is left
/// when the dots between them are taken out.
pub open spec fn path_parts(nodes: Seq<NodeView>, items: Seq<usize>) -> Seq<usize>
    decreases items.len(),
{
    if items.len() == 0 {
        Seq::empty()
    } else if nodes[items.last() as int].kind == NodeKind::PathSeparator {
        path_parts(nodes, items.drop_last())
    } else {
        path_parts(nodes, items.drop_last()).push(items.last())
    }
}

/// The identifier that is the whole key of binding `index`. There is none
/// where the node is no binding, or its key is a path of several attributes or
/// not an identifier.
pub open spec fn key_identifier(nodes: Seq<NodeView>, index: usize) -> Option<usize> {
    let inner = inner_children_of(nodes, index);
    if nodes[index as int].kind == NodeKind::Binding && inner.len() > 0 && nodes[inner[0] as int].kind
        == NodeKind::KeyPath {
        let parts = path_parts(nodes, inner_children_of(nodes, inner[0]));
        if parts.len() == 1 && nodes[parts[0] as int].kind == NodeKind::Identifier {
            Some(parts[0])
        } else {
            None
        }
    } else {
        None
    }
}

/// Whether node `index` is a binding whose key is the single identifier `name`.
pub open spec fn binds(nodes: Seq<NodeView>, index: usize, name: Seq<u8>) -> bool {
    match key_identifier(nodes, index) {
        Some(key) => nodes[key as int].text == name,
        None => false,
    }
}

/// The value of binding `index`: what follows its key and the equals sign.
pub open spec fn value_of(nodes: Seq<NodeView>, index: usize) -> Option<usize> {
    let inner = inner_children_of(nodes, index);
    if inner.len() > 2 {
        Some(inner[2])
    } else {
        None
    }
}

/// The nearest binding of `name` that is visible from node `from`: the search
/// moves to the previous sibling, or to the parent where there is none, and
/// stops at the first binding whose key is `name`.
pub open spec fn lookup(nodes: Seq<NodeView>, name: Seq<u8>, from: usize) -> Option<usize>
    decreases from,
    via lookup_terminates
{
    match scope_step(nodes, from) {
        None => None,
        Some(before) => if binds(nodes, before, name) {
            Some(before)
        } else {
            lookup(nodes, name, before)
        },
    }
}

#[via_fn]
proof fn lookup_terminates(nodes: Seq<NodeView>, name: Seq<u8>, from: usize) {
    if from - 1 < nodes.len() {
        lemma_last_at_most(nodes, from - 1, nodes[from as int].depth as int);
    }
}

/// A binding that `lookup` finds lies before the node the search began at, and
/// its key is the name looked for.
pub proof fn lemma_lookup(nodes: Seq<NodeView>, name: Seq<u8>, from: usize)
    ensures
        lookup(nodes, name, from) matches Some(found) ==> found < from && binds(
            nodes,
            found,
            name,
        ),
    decreases from,
{
    if from - 1 < nodes.len() {
        lemma_last_at_most(nodes, from - 1, nodes[from as int].depth as int);
    }
    match scope_step(nodes, from) {
        None => {},
        Some(before) => {
            if !binds(nodes, before, name) {
                lemma_lookup(nodes, name, before);
            }
        },
    }
}

/// The binding that a located node stands for. A binding stands for itself.
/// A node inside an `inherit` clause stands for the binding of the identifier
/// that follows it, looked up from there; inheriting from an expression is not
/// supported. Any other node stands for nothing.
pub open spec fn binding_at(nodes: Seq<NodeView>, node: usize) -> Result<Option<usize>, UpdateError> {
    if nodes[node as int].kind == NodeKind::Binding {
        Ok(Some(node))
    } else {
        match parent_of(nodes, node) {
            Some(clause) if nodes[clause as int].kind == NodeKind::Inherit => {
                if has_kind(nodes, children_of(nodes, clause), NodeKind::InheritSource) {
                    Err(UpdateError::UnsupportedValue)
                } else {
                    match next_sibling_of(nodes, node) {
                        Some(behind) if nodes[behind as int].kind == NodeKind::Identifier => Ok(
                            lookup(nodes, nodes[behind as int].text, behind),
                        ),
                        _ => Err(UpdateError::Unexpected),
                    }
                }
            },
            _ => Ok(None),
        }
    }
}

/// The binding that a node stands for is a binding of the tree, at or before
/// the node's next sibling.
pub proof fn lemma_binding_at(nodes: Seq<NodeView>, node: usize)
    requires
        node < nodes.len(),
    ensures
        binding_at(nodes, node) matches Ok(Some(binding)) ==> binding < nodes.len()
            && nodes[binding as int].kind == NodeKind::Binding,
{
    if nodes[node as int].kind != NodeKind::Binding {
        match next_sibling_of(nodes, node) {
            Some(behind) => {
                lemma_lookup(nodes, nodes[behind as int].text, behind);
            },
            None => {},
        }
    }
}

/// Whether one of `items` is of `kind`.
pub open spec fn has_kind(nodes: Seq<NodeView>, items: Seq<usize>, kind: NodeKind) -> bool {
    exists|k: int| 0 <= k < items.len() && nodes[#[trigger] items[k] as int].kind == kind
}

/// Whether one of `items` is of `kind`.
pub fn any_of_kind(tree: &SyntaxTree, items: &Vec<usize>, kind: NodeKind) -> (any: bool)
    requires
        forall|k: int| 0 <= k < items@.len() ==> #[trigger] items@[k] < tree@.len(),
    ensures
        any == has_kind(tree@, items@, kind),
{
    let mut i: usize = 0;
    while i < items.len()
        invariant
            0 <= i <= items@.len(),
            forall|k: int| 0 <= k < items@.len() ==> #[trigger] items@[k] < tree@.len(),
            forall|k: int| 0 <= k < i ==> tree@[#[trigger] items@[k] as int].kind != kind,
        decreases items@.len() - i,
    {
        if tree.node(items[i]).kind == kind {
            assert(tree@[items@[i as int] as int].kind == kind);
            return true;
        }
        i = i + 1;
    }
    false
}

/// The identifier that is the whole key of binding `index`, if it has one.
pub fn key_of(tree: &SyntaxTree, index: usize) -> (found: Option<usize>)
    requires
        index < tree@.len(),
    ensures
        found == key_identifier(tree@, index),
        found matches Some(key) ==> key < tree@.len(),
{
    if tree.node(index).kind != NodeKind::Binding {
        return None;
    }
    let inner = tree.children(index, true);
    if inner.len() == 0 || tree.node(inner[0]).kind != NodeKind::KeyPath {
        return None;
    }
    let items = tree.children(inner[0], true);
    let mut parts: Vec<usize> = Vec::new();
    let mut i: usize = 0;
    while i < items.len()
        invariant
            0 <= i <= items@.len(),
            forall|k: int| 0 <= k < items@.len() ==> #[trigger] items@[k] < tree@.len(),
            parts@ == path_parts(tree@, items@.take(i as int)),
            forall|k: int| 0 <= k < parts@.len() ==> #[trigger] parts@[k] < tree@.len(),
        decreases items@.len() - i,
    {
        assert(items@.take(i + 1).drop_last() =~= items@.take(i as int));
        if tree.node(items[i]).kind != NodeKind::PathSeparator {
            parts.push(items[i]);
        }
        i = i + 1;
    }
    assert(items@.take(items@.len() as int) =~= items@);
    match single(&parts) {
        Some(key) => if tree.node(key).kind == NodeKind::Identifier {
            Some(key)
        } else {
            None
        },
        None => None,
    }
}

/// Whether node `index` is a binding whose key is the single identifier `name`.
pub fn has_key(tree: &SyntaxTree, index: usize, name: &[u8]) -> (held: bool)
    requires
        index < tree@.len(),
    ensures
        held == binds(tree@, index, name@),
{
    match key_of(tree, index) {
        Some(key) => same_bytes(tree.node(key).text.as_slice(), name),
        None => false,
    }
}

/// The value of binding `index`: its third child that is not trivia.
pub fn value_node(tree: &SyntaxTree, index: usize) -> (found: Option<usize>)
    requires
        index < tree@.len(),
    ensures
        found == value_of(tree@, index),
        found matches Some(value) ==> index < value < tree@.len(),
{
    let inner = tree.children(index, true);
    if inner.len() > 2 {
        Some(inner[2])
    } else {
        None
    }
}

/// Looks for the nearest binding of `name` that is visible from `node`: among
/// the siblings before it, then from its parent in the same way, up to the
/// root.
pub fn lookup_set_entry(tree: &SyntaxTree, name: &[u8], node: usize) -> (found: Option<usize>)
    requires
        node < tree@.len(),
    ensures
        found == lookup(tree@, name@, node),
        found matches Some(binding) ==> binding < node && binds(tree@, binding, name@),
{
    let mut current = node;
    loop
        invariant
            current <= node < tree@.len(),
            lookup(tree@, name@, current) == lookup(tree@, name@, node),
        decreases current,
    {
        match tree.scope_step(current) {
            None => {
                return None;
            },
            Some(before) => {
                if has_key(tree, before, name) {
                    return Some(before);
                }
                current = before;
            },
        }
    }
}

/// Looks up the binding of `name` from `node` as `lookup_set_entry` does, and
/// fails where there is none.
pub fn checked_lookup_set_entry(tree: &SyntaxTree, name: &[u8], node: usize) -> (found: Result<
    usize,
    UpdateError,
>)
    requires
        node < tree@.len(),
    ensures
        found == match lookup(tree@, name@, node) {
            Some(binding) => Ok::<usize, UpdateError>(binding),
            None => Err(UpdateError::UnresolvableAlias),
        },
        found matches Ok(binding) ==> binding < node && binds(tree@, binding, name@),
{
    match lookup_set_entry(tree, name, node) {
        Some(binding) => Ok(binding),
        None => Err(UpdateError::UnresolvableAlias),
    }
}

/// The binding that `node` stands for: the node itself where it is a binding,
/// or, inside an `inherit` clause, the binding of the identifier that follows
/// the node.
pub fn to_set_entry(tree: &SyntaxTree, node: usize) -> (found: Result<Option<usize>, UpdateError>)
    requires
        node < tree@.len(),
    ensures
        found == binding_at(tree@, node),
        found matches Ok(Some(binding)) ==> binding < tree@.len(),
{
    if tree.node(node).kind == NodeKind::Binding {
        return Ok(Some(node));
    }
    match tree.parent(node) {
        None => Ok(None),
        Some(clause) => {
            if tree.node(clause).kind != NodeKind::Inherit {
                return Ok(None);
            }
            let parts = tree.children(clause, false);
            if any_of_kind(tree, &parts, NodeKind::InheritSource) {
                return Err(UpdateError::UnsupportedValue);
            }
            match tree.next_sibling(node) {
                None => Err(UpdateError::Unexpected),
                Some(behind) => {
                    if tree.node(behind).kind == NodeKind::Identifier {
                        Ok(lookup_set_entry(tree, tree.node(behind).text.as_slice(), behind))
                    } else {
                        Err(UpdateError::Unexpected)
                    }
                },
            }
        },
    }
}

} // verus!
