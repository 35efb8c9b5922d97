use nix_update_fetch::capture::match_pattern;
use nix_update_fetch::error::UpdateError;
use nix_update_fetch::parse::parse;
use nix_update_fetch::pattern::{callee, names_version_helper, synthesize, Pattern};
use nix_update_fetch::tree::{NodeKind, SyntaxTree};

fn first_of(tree: &SyntaxTree, kind: NodeKind) -> usize {
    (0..tree.len()).find(|index| tree.node(*index).kind == kind).unwrap()
}

fn pattern_of(source: &str) -> Result<Pattern, UpdateError> {
    let tree = parse(source.as_bytes()).unwrap();
    synthesize(&tree, first_of(&tree, NodeKind::Interpolation))
}

#[test]
fn interpolation_becomes_an_anchored_pattern() {
    let pattern = pattern_of("{ name = \"${pname}-${version}\"; }").unwrap();
    assert_eq!(
        String::from_utf8(pattern.text).unwrap(),
        "^(?:\"(?P<pname>.+)\\-(?P<version>.+)\")$"
    );
    assert_eq!(pattern.names, vec![b"pname".to_vec(), b"version".to_vec()]);
}

#[test]
fn literal_text_is_escaped_in_the_pattern() {
    let pattern = pattern_of("{ url = \"https://a.b/${pname}.tar.gz\"; }").unwrap();
    assert_eq!(
        String::from_utf8(pattern.text).unwrap(),
        "^(?:\"https://a\\.b/(?P<pname>.+)\\.tar\\.gz\")$"
    );
    assert_eq!(pattern.names, vec![b"pname".to_vec()]);
}

#[test]
fn version_helper_adds_a_fixed_pattern_and_no_name() {
    let pattern = pattern_of("{ url = \"x/${lib.versions.majorMinor version}/${pname}\"; }");
    let pattern = pattern.unwrap();
    assert_eq!(
        String::from_utf8(pattern.text).unwrap(),
        "^(?:\"x/[0-9]+\\.[0-9]+/(?P<pname>.+)\")$"
    );
    assert_eq!(pattern.names, vec![b"pname".to_vec()]);
    let pattern = pattern_of("{ url = \"${majorMinor version}\"; }").unwrap();
    assert_eq!(String::from_utf8(pattern.text).unwrap(), "^(?:\"[0-9]+\\.[0-9]+\")$");
    assert!(pattern.names.is_empty());
}

#[test]
fn callee_is_the_function_or_the_selected_attribute() {
    let tree = parse(b"{ a = \"${lib.versions.majorMinor version}\"; b = \"${f x}\"; }").unwrap();
    let first = first_of(&tree, NodeKind::Application);
    let called = callee(&tree, first).unwrap();
    assert_eq!(tree.node(called).text, b"majorMinor".to_vec());
    assert!(names_version_helper(&tree, called));
    let second = (first + 1..tree.len())
        .find(|index| tree.node(*index).kind == NodeKind::Application)
        .unwrap();
    let called = callee(&tree, second).unwrap();
    assert_eq!(tree.node(called).text, b"f".to_vec());
    assert!(!names_version_helper(&tree, called));
}

#[test]
fn other_expressions_are_a_synthesis_failure() {
    assert_eq!(pattern_of("{ a = \"${f x}\"; }").err(), Some(UpdateError::PatternSynthesis));
    assert_eq!(pattern_of("{ a = \"${a.b}\"; }").err(), Some(UpdateError::PatternSynthesis));
    assert_eq!(pattern_of("{ a = \"${ b }\"; }").err(), Some(UpdateError::PatternSynthesis));
    assert_eq!(pattern_of("{ a = \"x${toString 1}\"; }").err(), Some(UpdateError::PatternSynthesis));
    assert_eq!(pattern_of("{ a = \"${majorMinor (f x)}\"; }").err(), Some(UpdateError::PatternSynthesis));
    assert_eq!(pattern_of("{ a = \"${majorMinor a b}\"; }").err(), Some(UpdateError::PatternSynthesis));
}

#[test]
fn pattern_takes_a_value_apart() {
    let pattern = pattern_of("{ name = \"${pname}-${version}\"; }").unwrap();
    let groups = match_pattern(&pattern, b"\"foo-1.0\"").unwrap();
    assert_eq!(groups, vec![Some(b"foo".to_vec()), Some(b"1.0".to_vec())]);
    let groups = match_pattern(&pattern, b"\"a-b-c\"").unwrap();
    assert_eq!(groups, vec![Some(b"a-b".to_vec()), Some(b"c".to_vec())]);
}

#[test]
fn pattern_must_match_the_whole_value() {
    let pattern = pattern_of("{ name = \"${pname}-${version}\"; }").unwrap();
    assert_eq!(match_pattern(&pattern, b"\"foo\"").err(), Some(UpdateError::PatternMismatch));
    assert_eq!(match_pattern(&pattern, b"x\"foo-1\"").err(), Some(UpdateError::PatternMismatch));
    assert_eq!(match_pattern(&pattern, b"\"foo-1\"x").err(), Some(UpdateError::PatternMismatch));
    assert_eq!(match_pattern(&pattern, b"foo-1").err(), Some(UpdateError::PatternMismatch));
}

#[test]
fn pattern_that_does_not_compile_is_unexpected() {
    let broken = Pattern { text: b"(".to_vec(), names: Vec::new() };
    assert_eq!(match_pattern(&broken, b"(").err(), Some(UpdateError::Unexpected));
    let twice = pattern_of("{ name = \"${a}-${a}\"; }").unwrap();
    assert_eq!(match_pattern(&twice, b"\"1-2\"").err(), Some(UpdateError::Unexpected));
}

#[test]
fn name_that_is_no_group_captures_nothing() {
    let pattern = Pattern { text: b"^(?P<a>.+)$".to_vec(), names: vec![b"a".to_vec(), b"b".to_vec()] };
    assert_eq!(match_pattern(&pattern, b"xy").unwrap(), vec![Some(b"xy".to_vec()), None]);
}
