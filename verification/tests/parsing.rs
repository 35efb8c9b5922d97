use nix_update_fetch::parse::parse;
use nix_update_fetch::tree::{kind_is_token, kind_is_trivia, NodeKind};

#[test]
fn parse_keeps_every_byte() {
    let source = b"{ pname = \"foo\"; # note\n  version = \"1.0\"; }\n";
    let tree = parse(source).unwrap();
    assert_eq!(tree.source(), source.to_vec());
    assert_eq!(tree.node(0).depth, 0);
    let mut bindings = 0;
    for index in 0..tree.len() {
        if tree.node(index).kind == NodeKind::Binding {
            bindings += 1;
        }
    }
    assert_eq!(bindings, 2);
}

#[test]
fn tokens_are_told_by_their_kind() {
    let tree = parse(b"{ a = ; # c\n}").unwrap();
    let mut tokens = 0;
    for index in 0..tree.len() {
        let leaf = tree.children(index, false).is_empty();
        if tree.is_token(index) {
            assert!(leaf);
            tokens += 1;
        } else if leaf {
            assert_eq!(tree.node(index).kind, NodeKind::Other);
        }
        let kind = tree.node(index).kind;
        assert_eq!(kind_is_trivia(kind), kind == NodeKind::Whitespace || kind == NodeKind::Comment || kind == NodeKind::Unreadable);
    }
    assert!(tokens > 5);
    assert!(kind_is_token(NodeKind::Identifier) && !kind_is_token(NodeKind::Binding));
    let open = parse(b"{ a = ").unwrap();
    let childless: Vec<usize> = (0..open.len())
        .filter(|index| open.children(*index, false).is_empty() && !open.is_token(*index))
        .collect();
    assert!(!childless.is_empty());
}
