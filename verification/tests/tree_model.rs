use nix_update_fetch::error::UpdateError;
use nix_update_fetch::locate::locate;
use nix_update_fetch::parse::{records_of_walk, WalkStep};
use nix_update_fetch::plan::{check_apart, is_version_name, order_edits, plan_edits};
use nix_update_fetch::resolve::{bind_captures, is_null, resolve_bindings, resolve_within, ResolvedEdit};
use nix_update_fetch::rewrite::{reconstruct, render};
use nix_update_fetch::scope::{
    any_of_kind, checked_lookup_set_entry, has_key, key_of, lookup_set_entry, to_set_entry,
    value_node,
};
use nix_update_fetch::tree::{single, NodeKind, NodeRecord, SyntaxTree};

/// Nodes in document order from their kinds, depths and texts; the offsets are
/// worked out from the texts.
fn records(shape: &[(NodeKind, usize, &str)]) -> Vec<NodeRecord> {
    let mut nodes: Vec<NodeRecord> = Vec::new();
    let mut offset = 0;
    for (kind, depth, text) in shape {
        nodes.push(NodeRecord {
            kind: *kind,
            depth: *depth,
            start: offset,
            end: offset,
            text: text.as_bytes().to_vec(),
        });
        offset += text.len();
    }
    for index in 0..nodes.len() {
        let mut behind = index + 1;
        while behind < nodes.len() && nodes[behind].depth > nodes[index].depth {
            behind += 1;
        }
        nodes[index].end = if behind < nodes.len() { nodes[behind].start } else { offset };
    }
    nodes
}

fn binding(depth: usize, key: &'static str, value: (NodeKind, &'static str)) -> Vec<(NodeKind, usize, &'static str)> {
    vec![
        (NodeKind::Binding, depth, ""),
        (NodeKind::KeyPath, depth + 1, ""),
        (NodeKind::Identifier, depth + 2, key),
        (NodeKind::Whitespace, depth + 1, " "),
        (NodeKind::OtherToken, depth + 1, "="),
        (NodeKind::Whitespace, depth + 1, " "),
        (value.0, depth + 1, value.1),
        (NodeKind::OtherToken, depth + 1, ";"),
    ]
}

/// `{ a = "1"; b = a; c = 3; d = null; }` as a tree written by hand.
fn small_set() -> SyntaxTree {
    let mut shape = vec![(NodeKind::Other, 0, ""), (NodeKind::Other, 1, ""), (NodeKind::Other, 2, "{")];
    for (key, value) in [
        ("a", (NodeKind::StringLiteral, "\"1\"")),
        ("b", (NodeKind::Identifier, "a")),
        ("c", (NodeKind::Other, "3")),
        ("d", (NodeKind::Identifier, "null")),
    ] {
        shape.push((NodeKind::Whitespace, 2, " "));
        shape.extend(binding(2, key, value));
    }
    shape.push((NodeKind::Whitespace, 2, " "));
    shape.push((NodeKind::Other, 2, "}"));
    SyntaxTree::new(records(&shape)).unwrap()
}

fn binding_of(tree: &SyntaxTree, key: &str) -> usize {
    (0..tree.len()).find(|index| has_key(tree, *index, key.as_bytes())).unwrap()
}

#[test]
fn hand_written_tree_carries_its_text() {
    let tree = small_set();
    assert_eq!(tree.source(), b"{ a = \"1\"; b = a; c = 3; d = null; }".to_vec());
    assert_eq!(tree.node(0).start, 0);
    assert_eq!(tree.node(0).end, 36);
}

#[test]
fn tree_refuses_wrong_depths() {
    assert!(SyntaxTree::new(Vec::new()).is_none());
    let mut nodes = records(&[(NodeKind::Other, 0, ""), (NodeKind::Other, 1, "x")]);
    nodes[0].depth = 1;
    assert!(SyntaxTree::new(nodes).is_none());
    let nodes = records(&[(NodeKind::Other, 0, ""), (NodeKind::Other, 2, "x")]);
    assert!(SyntaxTree::new(nodes).is_none());
    let nodes = records(&[(NodeKind::Other, 0, ""), (NodeKind::Other, 0, "x")]);
    assert!(SyntaxTree::new(nodes).is_none());
}

#[test]
fn tree_refuses_wrong_offsets() {
    let good = records(&[(NodeKind::Other, 0, ""), (NodeKind::Other, 1, "ab"), (NodeKind::Other, 1, "c")]);
    assert!(SyntaxTree::new(good).is_some());
    let mut nodes = records(&[(NodeKind::Other, 0, ""), (NodeKind::Other, 1, "ab"), (NodeKind::Other, 1, "c")]);
    nodes[2].start = 1;
    assert!(SyntaxTree::new(nodes).is_none());
    let mut nodes = records(&[(NodeKind::Other, 0, ""), (NodeKind::Other, 1, "ab"), (NodeKind::Other, 1, "c")]);
    nodes[0].end = 2;
    assert!(SyntaxTree::new(nodes).is_none());
    let mut nodes = records(&[(NodeKind::Other, 0, ""), (NodeKind::Other, 1, "ab"), (NodeKind::Other, 1, "c")]);
    nodes[0].text = b"x".to_vec();
    assert!(SyntaxTree::new(nodes).is_none());
}

#[test]
fn navigation_follows_the_depths() {
    let tree = small_set();
    let a = binding_of(&tree, "a");
    let b = binding_of(&tree, "b");
    assert_eq!(tree.parent(0), None);
    assert_eq!(tree.parent(1), Some(0));
    assert_eq!(tree.parent(a), Some(1));
    assert_eq!(tree.children(a, false).len(), 6);
    assert_eq!(tree.children(a, true).len(), 4);
    assert_eq!(tree.prev_sibling(b), Some(b - 1));
    assert_eq!(tree.prev_sibling(2), None);
    assert_eq!(tree.scope_step(2), Some(1));
    assert_eq!(tree.next_sibling(a), Some(a + 8));
    assert_eq!(tree.next_sibling(tree.len() - 1), None);
    assert_eq!(single(&tree.children(a + 1, false)), Some(a + 2));
    assert_eq!(single(&tree.children(a, false)), None);
    assert_eq!(single(&tree.children(2, false)), None);
    assert!(tree.is_token(a + 2));
    assert!(tree.is_token(a + 3));
    assert!(!tree.is_token(a));
    assert!(!tree.is_token(a + 1));
    assert!(!tree.is_token(0));
    assert!(any_of_kind(&tree, &tree.children(a, false), NodeKind::KeyPath));
    assert!(!any_of_kind(&tree, &tree.children(a, false), NodeKind::Inherit));
}

#[test]
fn keys_and_values_are_found() {
    let tree = small_set();
    let a = binding_of(&tree, "a");
    assert_eq!(key_of(&tree, a), Some(a + 2));
    assert_eq!(key_of(&tree, a + 1), None);
    assert_eq!(value_node(&tree, a), Some(a + 6));
    assert_eq!(tree.node(a + 6).kind, NodeKind::StringLiteral);
    assert_eq!(value_node(&tree, a + 1), None);
    assert!(!has_key(&tree, a, b"b"));
}

#[test]
fn lookup_sees_what_comes_before() {
    let tree = small_set();
    let a = binding_of(&tree, "a");
    let b = binding_of(&tree, "b");
    let c = binding_of(&tree, "c");
    assert_eq!(lookup_set_entry(&tree, b"a", c), Some(a));
    assert_eq!(lookup_set_entry(&tree, b"b", c), Some(b));
    assert_eq!(lookup_set_entry(&tree, b"c", c), None);
    assert_eq!(lookup_set_entry(&tree, b"b", a), None);
    assert_eq!(checked_lookup_set_entry(&tree, b"a", b), Ok(a));
    assert_eq!(checked_lookup_set_entry(&tree, b"z", b), Err(UpdateError::UnresolvableAlias));
    assert_eq!(to_set_entry(&tree, b), Ok(Some(b)));
    assert_eq!(to_set_entry(&tree, b + 2), Ok(None));
}

#[test]
fn locate_returns_the_first_node_at_the_position() {
    let tree = small_set();
    let a = binding_of(&tree, "a");
    assert_eq!(locate(&tree, 1, 1), Some(0));
    assert_eq!(locate(&tree, 1, 3), Some(a));
    assert_eq!(locate(&tree, 1, 4), Some(a + 3));
    assert_eq!(locate(&tree, 2, 1), None);
    assert_eq!(locate(&tree, 1, 99), None);
    assert_eq!(locate(&tree, 0, 0), None);
}

#[test]
fn resolution_ends_at_the_literal_behind_an_alias() {
    let tree = small_set();
    let a = binding_of(&tree, "a");
    let b = binding_of(&tree, "b");
    let mut edits = Vec::new();
    let done = resolve_bindings(&tree, &mut edits, ResolvedEdit::new(b, b"b", b"2", false));
    assert_eq!(done, Ok(()));
    assert_eq!(edits.len(), 1);
    assert_eq!(edits[0].node, a);
    assert_eq!(edits[0].name, b"a".to_vec());
    assert_eq!(edits[0].value, b"2".to_vec());
    assert!(edits[0].derived);
}

#[test]
fn resolution_keeps_a_direct_edit_direct() {
    let tree = small_set();
    let a = binding_of(&tree, "a");
    let mut edits = Vec::new();
    assert_eq!(resolve_bindings(&tree, &mut edits, ResolvedEdit::new(a, b"a", b"2", false)), Ok(()));
    assert_eq!(edits.len(), 1);
    assert_eq!(edits[0].node, a);
    assert!(!edits[0].derived);
}

#[test]
fn null_is_edited_like_a_literal() {
    let tree = small_set();
    let d = binding_of(&tree, "d");
    let mut edits = Vec::new();
    assert_eq!(resolve_bindings(&tree, &mut edits, ResolvedEdit::new(d, b"d", b"x", false)), Ok(()));
    assert_eq!(edits.len(), 1);
    assert_eq!(edits[0].node, d);
    assert!(is_null(b"null"));
    assert!(!is_null(b"nul"));
}

#[test]
fn resolution_refuses_what_it_cannot_edit() {
    let tree = small_set();
    let c = binding_of(&tree, "c");
    let mut edits = Vec::new();
    assert_eq!(
        resolve_bindings(&tree, &mut edits, ResolvedEdit::new(c, b"c", b"4", false)),
        Err(UpdateError::UnsupportedValue)
    );
    assert_eq!(
        resolve_bindings(&tree, &mut edits, ResolvedEdit::new(c + 1, b"c", b"4", false)),
        Err(UpdateError::BindingNotFound)
    );
    assert_eq!(
        resolve_bindings(&tree, &mut edits, ResolvedEdit::new(tree.len(), b"c", b"4", false)),
        Err(UpdateError::BindingNotFound)
    );
    assert!(edits.is_empty());
}

#[test]
fn binding_under_way_is_a_cycle() {
    let tree = small_set();
    let a = binding_of(&tree, "a");
    let b = binding_of(&tree, "b");
    let mut edits = Vec::new();
    assert_eq!(
        resolve_within(&tree, &mut edits, b, b"b", b"2", false, &vec![a]),
        Err(UpdateError::CycleDetected)
    );
    assert_eq!(
        resolve_within(&tree, &mut edits, b, b"b", b"2", false, &vec![b]),
        Err(UpdateError::CycleDetected)
    );
    assert!(edits.is_empty());
}

#[test]
fn captures_go_to_their_bindings_in_order() {
    let tree = small_set();
    let a = binding_of(&tree, "a");
    let d = binding_of(&tree, "d");
    let end = tree.len() - 1;
    let names = vec![b"d".to_vec(), b"a".to_vec()];
    let mut edits = Vec::new();
    let groups = vec![Some(b"x".to_vec()), Some(b"y".to_vec())];
    assert_eq!(bind_captures(&tree, &mut edits, end, &names, &groups, &Vec::new()), Ok(()));
    assert_eq!(edits.len(), 2);
    assert_eq!((edits[0].node, edits[0].value.clone(), edits[0].derived), (d, b"x".to_vec(), true));
    assert_eq!((edits[1].node, edits[1].value.clone(), edits[1].derived), (a, b"y".to_vec(), true));
}

#[test]
fn captures_fail_on_missing_groups_and_bindings() {
    let tree = small_set();
    let end = tree.len() - 1;
    let mut edits = Vec::new();
    let names = vec![b"a".to_vec()];
    assert_eq!(
        bind_captures(&tree, &mut edits, end, &names, &vec![None], &Vec::new()),
        Err(UpdateError::Unexpected)
    );
    assert_eq!(
        bind_captures(&tree, &mut edits, end, &names, &Vec::new(), &Vec::new()),
        Err(UpdateError::Unexpected)
    );
    assert_eq!(
        bind_captures(&tree, &mut edits, end, &names, &vec![Some(b"x\ny".to_vec())], &Vec::new()),
        Err(UpdateError::Unexpected)
    );
    let names = vec![b"zz".to_vec()];
    assert_eq!(
        bind_captures(&tree, &mut edits, end, &names, &vec![Some(b"x".to_vec())], &Vec::new()),
        Err(UpdateError::UnresolvableAlias)
    );
}

#[test]
fn failed_resolution_leaves_the_edits_as_they_were() {
    let tree = small_set();
    let a = binding_of(&tree, "a");
    let c = binding_of(&tree, "c");
    let end = tree.len() - 1;
    let mut edits = vec![ResolvedEdit::new(a, b"a", b"0", false)];
    let names = vec![b"a".to_vec(), b"d".to_vec(), b"zz".to_vec()];
    let groups = vec![Some(b"x".to_vec()), Some(b"y".to_vec()), Some(b"z".to_vec())];
    assert_eq!(
        bind_captures(&tree, &mut edits, end, &names, &groups, &Vec::new()),
        Err(UpdateError::UnresolvableAlias)
    );
    assert_eq!(edits.len(), 1);
    assert_eq!(edits[0].value, b"0".to_vec());
    let names = vec![b"a".to_vec(), b"c".to_vec()];
    assert_eq!(
        bind_captures(&tree, &mut edits, end, &names, &groups, &Vec::new()),
        Err(UpdateError::UnsupportedValue)
    );
    assert_eq!(edits.len(), 1);
    assert_eq!(
        resolve_bindings(&tree, &mut edits, ResolvedEdit::new(c, b"c", b"4", false)),
        Err(UpdateError::UnsupportedValue)
    );
    assert_eq!(edits.len(), 1);
}

#[test]
fn edits_are_ordered_by_offset_then_direct_first_then_latest_first() {
    let tree = small_set();
    let a = binding_of(&tree, "a");
    let d = binding_of(&tree, "d");
    let edits = vec![
        ResolvedEdit::new(d, b"d", b"1", true),
        ResolvedEdit::new(a, b"a", b"2", true),
        ResolvedEdit::new(d, b"d", b"3", false),
        ResolvedEdit::new(a, b"a", b"4", true),
        ResolvedEdit::new(d, b"d", b"5", false),
    ];
    let plan = order_edits(&tree, &edits);
    let values: Vec<Vec<u8>> = plan.iter().map(|edit| edit.value.clone()).collect();
    assert_eq!(values, vec![b"4".to_vec(), b"2".to_vec(), b"5".to_vec(), b"3".to_vec(), b"1".to_vec()]);
}

#[test]
fn disagreeing_edits_are_a_conflict() {
    let tree = small_set();
    let a = binding_of(&tree, "a");
    let edits = vec![ResolvedEdit::new(a, b"a", b"2", true), ResolvedEdit::new(a, b"a", b"3", true)];
    assert_eq!(plan_edits(&tree, &edits).err(), Some(UpdateError::EditConflict));
    let edits = vec![ResolvedEdit::new(a, b"a", b"2", true), ResolvedEdit::new(a, b"a", b"3", false)];
    assert_eq!(plan_edits(&tree, &edits).err(), Some(UpdateError::EditConflict));
    let edits = vec![ResolvedEdit::new(a, b"a", b"2", true), ResolvedEdit::new(a, b"b", b"2", true)];
    assert_eq!(plan_edits(&tree, &edits).err(), Some(UpdateError::EditConflict));
}

#[test]
fn edit_inside_an_edited_node_is_a_conflict() {
    let shape = vec![
        (NodeKind::Other, 0, ""),
        (NodeKind::Binding, 1, ""),
        (NodeKind::KeyPath, 2, ""),
        (NodeKind::Binding, 3, ""),
        (NodeKind::Identifier, 4, "k"),
        (NodeKind::Other, 2, "="),
        (NodeKind::StringLiteral, 2, "\"v\""),
        (NodeKind::Other, 2, ";"),
        (NodeKind::Binding, 1, ""),
        (NodeKind::Identifier, 2, "z"),
    ];
    let tree = SyntaxTree::new(records(&shape)).unwrap();
    assert_eq!(tree.end_of_subtree(1), 8);
    assert_eq!(tree.end_of_subtree(3), 5);
    let edits = vec![ResolvedEdit::new(3, b"k", b"1", false), ResolvedEdit::new(1, b"o", b"2", false)];
    assert!(!check_apart(&tree, &order_edits(&tree, &edits)));
    assert_eq!(plan_edits(&tree, &edits).err(), Some(UpdateError::EditConflict));
    let edits = vec![ResolvedEdit::new(8, b"k", b"1", false), ResolvedEdit::new(1, b"o", b"2", false)];
    assert!(check_apart(&tree, &order_edits(&tree, &edits)));
    let plan = plan_edits(&tree, &edits).unwrap();
    assert_eq!(reconstruct(&tree, &plan), b"o = \"2\";k = \"1\";".to_vec());
}

#[test]
fn agreeing_edits_and_version_overrides_are_planned() {
    let tree = small_set();
    let a = binding_of(&tree, "a");
    let edits = vec![ResolvedEdit::new(a, b"a", b"2", true), ResolvedEdit::new(a, b"a", b"2", false)];
    let plan = plan_edits(&tree, &edits).unwrap();
    assert_eq!(plan.len(), 2);
    assert!(!plan.edit(0).derived);
    assert_eq!(plan.active(a).unwrap().value, b"2".to_vec());
    assert!(plan.active(a + 1).is_none());
    let edits = vec![
        ResolvedEdit::new(a, b"version", b"1.0", true),
        ResolvedEdit::new(a, b"version", b"2.0", false),
    ];
    let plan = plan_edits(&tree, &edits).unwrap();
    assert_eq!(plan.active(a).unwrap().value, b"2.0".to_vec());
    assert!(is_version_name(b"version"));
    assert!(!is_version_name(b"Version"));
}

#[test]
fn reconstruction_replaces_the_span_of_the_binding() {
    let tree = small_set();
    let a = binding_of(&tree, "a");
    let d = binding_of(&tree, "d");
    let plan = plan_edits(&tree, &vec![ResolvedEdit::new(a, b"a", b"x$y", false)]).unwrap();
    assert_eq!(reconstruct(&tree, &plan), b"{ a = \"x\\$y\"; b = a; c = 3; d = null; }".to_vec());
    let edits = vec![ResolvedEdit::new(d, b"d", b"9", false), ResolvedEdit::new(a, b"a", b"8", false)];
    let plan = plan_edits(&tree, &edits).unwrap();
    assert_eq!(reconstruct(&tree, &plan), b"{ a = \"8\"; b = a; c = 3; d = \"9\"; }".to_vec());
    let plan = plan_edits(&tree, &Vec::new()).unwrap();
    assert_eq!(reconstruct(&tree, &plan), tree.source());
}

#[test]
fn reconstruction_is_unchanged_when_the_value_is_already_there() {
    let tree = small_set();
    let a = binding_of(&tree, "a");
    let plan = plan_edits(&tree, &vec![ResolvedEdit::new(a, b"a", b"1", false)]).unwrap();
    assert_eq!(reconstruct(&tree, &plan), tree.source());
}

#[test]
fn rendering_is_name_equals_literal_semicolon() {
    let mut out = b"# ".to_vec();
    render(&mut out, b"sha256", b"0abc");
    assert_eq!(out, b"# sha256 = \"0abc\";".to_vec());
}

#[test]
fn walk_steps_become_nodes_with_depths() {
    let enter = |kind, start, end, text: Option<&str>| WalkStep::Enter {
        kind,
        start,
        end,
        text: text.map(|text| text.as_bytes().to_vec()),
    };
    let steps = vec![
        enter(NodeKind::Other, 0, 2, None),
        enter(NodeKind::Identifier, 0, 1, Some("a")),
        WalkStep::Leave,
        enter(NodeKind::Whitespace, 1, 2, Some(" ")),
        WalkStep::Leave,
        WalkStep::Leave,
    ];
    let nodes = records_of_walk(&steps).unwrap();
    let depths: Vec<usize> = nodes.iter().map(|node| node.depth).collect();
    assert_eq!(depths, vec![0, 1, 1]);
    assert_eq!(nodes[0].text, Vec::<u8>::new());
    assert_eq!(nodes[1].text, b"a".to_vec());
    assert_eq!((nodes[2].start, nodes[2].end), (1, 2));
    assert!(SyntaxTree::new(nodes).is_some());
    assert!(records_of_walk(&vec![WalkStep::Leave]).is_none());
    let steps = vec![enter(NodeKind::Other, 0, 0, None), WalkStep::Leave, WalkStep::Leave];
    assert!(records_of_walk(&steps).is_none());
}
