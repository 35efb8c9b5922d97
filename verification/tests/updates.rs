use nix_update_fetch::error::{UpdateError, UpdateFailure};
use nix_update_fetch::parse::parse;
use nix_update_fetch::request::{batch_requests, sort_requests, UpdateRequest};
use nix_update_fetch::update::{
    apply_request, apply_version, check_single_line, find_line_break, other_version_named,
    update_file, update_tree, RunContext,
};
use nix_update_fetch::resolve::ResolvedEdit;

fn asked(file: &str, source: &str, binding: &str, value: &str) -> UpdateRequest {
    let offset = source.find(binding).unwrap();
    let before = &source[..offset];
    let line = before.matches('\n').count() + 1;
    let column = before.chars().rev().take_while(|c| *c != '\n').count() + 1;
    let name = binding.trim().split(' ').next().unwrap();
    UpdateRequest::new(name.as_bytes(), file.as_bytes(), line, column, value.as_bytes())
}

fn text(bytes: Vec<u8>) -> String {
    String::from_utf8(bytes).unwrap()
}

const PACKAGE: &str = "{ stdenv, fetchurl }:\n\nstdenv.mkDerivation rec {\n  pname = \"hello\";\n  version = \"2.10\";\n\n  src = fetchurl {\n    url = \"mirror://gnu/hello/${pname}-${version}.tar.gz\";\n    sha256 = \"0ssi1wpaf7plaswqqjwigppsg5fyh99vdlb9kzl7c9lng89ndq1i\";\n  };\n}\n";

#[test]
fn fetcher_arguments_update_the_bindings_behind_them() {
    let requests = vec![
        asked("hello.nix", PACKAGE, "url =", "mirror://gnu/hello/hello-2.12.tar.gz"),
        asked("hello.nix", PACKAGE, "sha256 =", "1ayhp9v4m4rdhjmnl2bq3cibrbqqkgjbl3s7yk2nhlh8vj3ay16g"),
    ];
    let mut context = RunContext::new();
    let updated = update_file(&mut context, b"hello.nix", PACKAGE.as_bytes(), &requests, None);
    let expected = PACKAGE
        .replace("2.10", "2.12")
        .replace("0ssi1wpaf7plaswqqjwigppsg5fyh99vdlb9kzl7c9lng89ndq1i", "1ayhp9v4m4rdhjmnl2bq3cibrbqqkgjbl3s7yk2nhlh8vj3ay16g");
    assert_eq!(text(updated.unwrap()), expected);
    assert!(context.version_file.is_none());
}

#[test]
fn second_run_changes_nothing() {
    let requests = vec![
        asked("hello.nix", PACKAGE, "url =", "mirror://gnu/hello/hello-2.12.tar.gz"),
        asked("hello.nix", PACKAGE, "sha256 =", "1ayhp9v4m4rdhjmnl2bq3cibrbqqkgjbl3s7yk2nhlh8vj3ay16g"),
    ];
    let mut context = RunContext::new();
    let once = update_file(&mut context, b"hello.nix", PACKAGE.as_bytes(), &requests, Some(b"2.12")).unwrap();
    let mut context = RunContext::new();
    let twice = update_file(&mut context, b"hello.nix", &once, &requests, Some(b"2.12")).unwrap();
    assert_eq!(text(twice), text(once));
}

#[test]
fn version_override_edits_the_version_binding() {
    let requests = vec![asked("hello.nix", PACKAGE, "sha256 =", "1ayhp9v4m4rdhjmnl2bq3cibrbqqkgjbl3s7yk2nhlh8vj3ay16g")];
    let mut context = RunContext::new();
    let updated = update_file(&mut context, b"hello.nix", PACKAGE.as_bytes(), &requests, Some(b"3.0"));
    let expected = PACKAGE
        .replace("2.10", "3.0")
        .replace("0ssi1wpaf7plaswqqjwigppsg5fyh99vdlb9kzl7c9lng89ndq1i", "1ayhp9v4m4rdhjmnl2bq3cibrbqqkgjbl3s7yk2nhlh8vj3ay16g");
    assert_eq!(text(updated.unwrap()), expected);
    assert_eq!(context.version_file, Some(b"hello.nix".to_vec()));
}

#[test]
fn version_override_wins_over_the_derived_version() {
    let requests = vec![asked("hello.nix", PACKAGE, "url =", "mirror://gnu/hello/hello-2.12.tar.gz")];
    let mut context = RunContext::new();
    let updated = update_file(&mut context, b"hello.nix", PACKAGE.as_bytes(), &requests, Some(b"9.9"));
    assert_eq!(text(updated.unwrap()), PACKAGE.replace("2.10", "9.9"));
}

#[test]
fn version_in_a_second_file_is_a_conflict() {
    let requests = vec![asked("hello.nix", PACKAGE, "sha256 =", "abc")];
    let mut context = RunContext::new();
    update_file(&mut context, b"hello.nix", PACKAGE.as_bytes(), &requests, Some(b"3.0")).unwrap();
    let requests = vec![asked("other.nix", PACKAGE, "sha256 =", "abc")];
    let outcome = update_file(&mut context, b"other.nix", PACKAGE.as_bytes(), &requests, Some(b"3.0"));
    assert_eq!(outcome.map_err(|failure| failure.error), Err(UpdateError::VersionConflict));
    assert_eq!(context.version_file, Some(b"hello.nix".to_vec()));
}

#[test]
fn second_file_without_version_binding_is_no_conflict() {
    let mut context = RunContext { version_file: Some(b"hello.nix".to_vec()) };
    let source = "{ sha256 = \"abc\"; }";
    let requests = vec![asked("other.nix", source, "sha256 =", "def")];
    let updated = update_file(&mut context, b"other.nix", source.as_bytes(), &requests, Some(b"3.0"));
    assert_eq!(text(updated.unwrap()), "{ sha256 = \"def\"; }");
}

#[test]
fn same_version_binding_reached_twice_is_accepted() {
    let requests = vec![
        asked("hello.nix", PACKAGE, "url =", "mirror://gnu/hello/hello-3.0.tar.gz"),
        asked("hello.nix", PACKAGE, "sha256 =", "abc"),
    ];
    let mut context = RunContext::new();
    let updated = update_file(&mut context, b"hello.nix", PACKAGE.as_bytes(), &requests, Some(b"3.0"));
    let expected = PACKAGE
        .replace("2.10", "3.0")
        .replace("0ssi1wpaf7plaswqqjwigppsg5fyh99vdlb9kzl7c9lng89ndq1i", "abc");
    assert_eq!(text(updated.unwrap()), expected);
}

#[test]
fn different_version_bindings_in_one_file_are_a_conflict() {
    let source = "{\n  a = rec { version = \"1\"; x = \"p\"; };\n  b = rec { version = \"2\"; y = \"q\"; };\n}\n";
    let requests = vec![asked("two.nix", source, "x =", "r"), asked("two.nix", source, "y =", "s")];
    let mut context = RunContext::new();
    let outcome = update_file(&mut context, b"two.nix", source.as_bytes(), &requests, Some(b"3"));
    assert_eq!(outcome.map_err(|failure| failure.error), Err(UpdateError::VersionConflict));
    assert!(context.version_file.is_none());
}

#[test]
fn multiline_value_is_malformed_input() {
    let requests = vec![asked("hello.nix", PACKAGE, "sha256 =", "a\nb")];
    let mut context = RunContext::new();
    let outcome = update_file(&mut context, b"hello.nix", PACKAGE.as_bytes(), &requests, None);
    assert_eq!(outcome.map_err(|failure| failure.error), Err(UpdateError::InputMalformed));
    assert!(check_single_line(None, &requests));
    assert!(check_single_line(Some(b"1\n2"), &Vec::new()));
    assert!(!check_single_line(Some(b"1.2"), &Vec::new()));
}

#[test]
fn node_without_binding_is_binding_not_found() {
    let requests = vec![asked("hello.nix", PACKAGE, "{ stdenv", "x")];
    let mut context = RunContext::new();
    let outcome = update_file(&mut context, b"hello.nix", PACKAGE.as_bytes(), &requests, None);
    assert_eq!(outcome.map_err(|failure| failure.error), Err(UpdateError::BindingNotFound));
}

#[test]
fn position_inside_a_token_is_not_found() {
    let source = "{ pname = \"foo\"; }";
    let requests = vec![UpdateRequest::new(b"pname", b"f.nix", 1, 4, b"bar")];
    let mut context = RunContext::new();
    let outcome = update_file(&mut context, b"f.nix", source.as_bytes(), &requests, None);
    assert_eq!(outcome.map_err(|failure| failure.error), Err(UpdateError::PositionNotFound));
}

#[test]
fn number_value_is_unsupported() {
    let source = "{ count = 3; }";
    let requests = vec![asked("f.nix", source, "count =", "4")];
    let mut context = RunContext::new();
    let outcome = update_file(&mut context, b"f.nix", source.as_bytes(), &requests, None);
    assert_eq!(outcome.map_err(|failure| failure.error), Err(UpdateError::UnsupportedValue));
}

#[test]
fn value_that_does_not_fit_the_interpolation_is_a_mismatch() {
    let source = "{ a = \"1\"; b = \"x-${a}\"; }";
    let requests = vec![asked("f.nix", source, "b =", "y-2")];
    let mut context = RunContext::new();
    let outcome = update_file(&mut context, b"f.nix", source.as_bytes(), &requests, None);
    assert_eq!(outcome.map_err(|failure| failure.error), Err(UpdateError::PatternMismatch));
}

#[test]
fn alias_without_binding_is_unresolvable() {
    let source = "{ a = b; }";
    let requests = vec![asked("f.nix", source, "a =", "1")];
    let mut context = RunContext::new();
    let outcome = update_file(&mut context, b"f.nix", source.as_bytes(), &requests, None);
    assert_eq!(outcome.map_err(|failure| failure.error), Err(UpdateError::UnresolvableAlias));
}

#[test]
fn nearest_binding_shadows_the_outer_one() {
    let source = "{ v = \"1\"; inner = { v = \"2\"; w = v; }; }";
    let requests = vec![asked("f.nix", source, "w =", "3")];
    let mut context = RunContext::new();
    let updated = update_file(&mut context, b"f.nix", source.as_bytes(), &requests, None);
    assert_eq!(text(updated.unwrap()), "{ v = \"1\"; inner = { v = \"3\"; w = v; }; }");
}

#[test]
fn enclosing_scope_is_searched_when_siblings_do_not_bind() {
    let source = "{ v = \"1\"; inner = { w = v; }; }";
    let requests = vec![asked("f.nix", source, "w =", "3")];
    let mut context = RunContext::new();
    let updated = update_file(&mut context, b"f.nix", source.as_bytes(), &requests, None);
    assert_eq!(text(updated.unwrap()), "{ v = \"3\"; inner = { w = v; }; }");
}

#[test]
fn inherited_name_stands_for_its_binding() {
    let source = "let v = \"1\"; in { inherit v; }";
    let offset = source.find(" v; }").unwrap();
    let requests = vec![UpdateRequest::new(b"v", b"f.nix", 1, offset + 1, b"2")];
    let mut context = RunContext::new();
    let updated = update_file(&mut context, b"f.nix", source.as_bytes(), &requests, None);
    assert_eq!(text(updated.unwrap()), "let v = \"2\"; in { inherit v; }");
}

#[test]
fn inherit_from_an_expression_is_unsupported() {
    let source = "let s = { v = \"1\"; }; in { inherit (s) v; }";
    let offset = source.find(" v; }").unwrap();
    let requests = vec![UpdateRequest::new(b"v", b"f.nix", 1, offset + 1, b"2")];
    let mut context = RunContext::new();
    let outcome = update_file(&mut context, b"f.nix", source.as_bytes(), &requests, None);
    assert_eq!(outcome.map_err(|failure| failure.error), Err(UpdateError::UnsupportedValue));
}

#[test]
fn conflicting_requests_for_one_binding_fail() {
    let source = "{ a = \"1\"; b = a; }";
    let requests = vec![asked("f.nix", source, "a =", "2"), asked("f.nix", source, "b =", "3")];
    let mut context = RunContext::new();
    let outcome = update_file(&mut context, b"f.nix", source.as_bytes(), &requests, None);
    assert_eq!(outcome.map_err(|failure| failure.error), Err(UpdateError::EditConflict));
}

#[test]
fn formatting_and_comments_stay_as_they_are() {
    let source = "# head\n{\n\tversion   =\n    \"1.0\" ; /* c */ other=1;\n}\n# tail";
    let requests = vec![asked("f.nix", source, "version ", "1.1")];
    let mut context = RunContext::new();
    let updated = update_file(&mut context, b"f.nix", source.as_bytes(), &requests, None);
    assert_eq!(text(updated.unwrap()), "# head\n{\n\tversion = \"1.1\"; /* c */ other=1;\n}\n# tail");
}

#[test]
fn column_counts_characters_before_the_binding() {
    let source = "{ /* é→ */ a = \"1\"; }";
    let requests = vec![asked("f.nix", source, "a =", "2")];
    assert_eq!(requests[0].position.column, 12);
    let mut context = RunContext::new();
    let updated = update_file(&mut context, b"f.nix", source.as_bytes(), &requests, None);
    assert_eq!(text(updated.unwrap()), "{ /* é→ */ a = \"2\"; }");
}

#[test]
fn update_of_a_parsed_tree_is_the_update_of_its_file() {
    let tree = parse(PACKAGE.as_bytes()).unwrap();
    let requests = vec![asked("hello.nix", PACKAGE, "pname =", "hi")];
    let mut context = RunContext::new();
    let updated = update_tree(&tree, &mut context, b"hello.nix", &requests, None).unwrap();
    assert_eq!(text(updated), PACKAGE.replace("\"hello\"", "\"hi\""));
}

#[test]
fn steps_collect_edits_and_the_holder() {
    let tree = parse(PACKAGE.as_bytes()).unwrap();
    let mut edits: Vec<ResolvedEdit> = Vec::new();
    let mut holder: Option<Vec<u8>> = None;
    let request = asked("hello.nix", PACKAGE, "url =", "mirror://gnu/hello/hello-2.12.tar.gz");
    assert_eq!(apply_request(&tree, b"hello.nix", Some(b"2.12"), &request, &mut edits, &mut holder), Ok(()));
    let names: Vec<Vec<u8>> = edits.iter().map(|edit| edit.name.clone()).collect();
    assert_eq!(names, vec![b"pname".to_vec(), b"version".to_vec(), b"version".to_vec()]);
    assert_eq!(edits[1].node, edits[2].node);
    assert!(edits[1].derived && !edits[2].derived);
    assert_eq!(holder, Some(b"hello.nix".to_vec()));
    assert!(!other_version_named(&edits, edits[1].node));
    assert!(other_version_named(&edits, edits[0].node));
    let before = edits.len();
    let inside = edits[1].node + 1;
    assert_eq!(apply_version(&tree, b"hello.nix", b"2.12", inside, &mut edits, &mut holder), Ok(()));
    assert_eq!(edits.len(), before);
    assert_eq!(
        apply_version(&tree, b"else.nix", b"2.12", inside, &mut edits, &mut holder),
        Err(UpdateError::VersionConflict)
    );
    assert_eq!(apply_version(&tree, b"else.nix", b"2.12", 0, &mut edits, &mut holder), Ok(()));
}

#[test]
fn requests_are_ordered_by_file_then_line() {
    let requests = vec![
        UpdateRequest::new(b"c", b"b.nix", 9, 1, b""),
        UpdateRequest::new(b"a", b"b.nix", 2, 7, b""),
        UpdateRequest::new(b"d", b"a.nix", 5, 1, b""),
        UpdateRequest::new(b"b", b"b.nix", 2, 3, b""),
        UpdateRequest::new(b"e", b"a.nix", 1, 1, b""),
    ];
    let sorted = sort_requests(&requests);
    let names: Vec<Vec<u8>> = sorted.iter().map(|request| request.name.clone()).collect();
    assert_eq!(names, vec![b"e".to_vec(), b"d".to_vec(), b"a".to_vec(), b"b".to_vec(), b"c".to_vec()]);
}

#[test]
fn requests_are_batched_by_file() {
    let requests = vec![
        UpdateRequest::new(b"c", b"b.nix", 9, 1, b""),
        UpdateRequest::new(b"d", b"a.nix", 5, 1, b""),
        UpdateRequest::new(b"b", b"b.nix", 2, 3, b""),
        UpdateRequest::new(b"e", b"c.nix", 1, 1, b""),
    ];
    let batches = batch_requests(&requests);
    let shape: Vec<(Vec<u8>, usize)> = batches
        .iter()
        .map(|batch| (batch[0].position.file.clone(), batch.len()))
        .collect();
    assert_eq!(shape, vec![(b"a.nix".to_vec(), 1), (b"b.nix".to_vec(), 2), (b"c.nix".to_vec(), 1)]);
    assert_eq!(batches[1][0].name, b"b".to_vec());
    assert!(batch_requests(&Vec::new()).is_empty());
}

#[test]
fn failure_names_the_request_at_fault() {
    let source = "{ a = \"1\"; b = 2; c = d; }";
    let requests = vec![
        asked("f.nix", source, "a =", "x"),
        asked("f.nix", source, "c =", "y"),
        asked("f.nix", source, "b =", "z"),
    ];
    let mut context = RunContext::new();
    let outcome = update_file(&mut context, b"f.nix", source.as_bytes(), &requests, None);
    assert_eq!(
        outcome,
        Err(UpdateFailure { error: UpdateError::UnresolvableAlias, request: Some(1) })
    );
    let outcome = update_file(&mut context, b"f.nix", source.as_bytes(), &vec![asked("f.nix", source, "b =", "z")], None);
    assert_eq!(
        outcome,
        Err(UpdateFailure { error: UpdateError::UnsupportedValue, request: Some(0) })
    );
}

#[test]
fn failure_without_a_request_at_fault_names_none() {
    let source = "{ a = \"1\"; b = a; }";
    let requests = vec![asked("f.nix", source, "a =", "2"), asked("f.nix", source, "b =", "3")];
    let mut context = RunContext::new();
    let outcome = update_file(&mut context, b"f.nix", source.as_bytes(), &requests, None);
    assert_eq!(outcome, Err(UpdateFailure { error: UpdateError::EditConflict, request: None }));
    let outcome = update_file(&mut context, b"f.nix", b"\"${a}", &requests, None);
    assert_eq!(outcome, Err(UpdateFailure { error: UpdateError::SourceRefused, request: None }));
}

#[test]
fn line_break_names_the_first_request_that_asks_for_it() {
    let source = "{ a = \"1\"; b = \"2\"; }";
    let requests = vec![
        asked("f.nix", source, "a =", "x"),
        asked("f.nix", source, "b =", "y\nz"),
        asked("f.nix", source, "a =", "\n"),
    ];
    let mut context = RunContext::new();
    let outcome = update_file(&mut context, b"f.nix", source.as_bytes(), &requests, None);
    assert_eq!(outcome, Err(UpdateFailure { error: UpdateError::InputMalformed, request: Some(1) }));
    assert_eq!(find_line_break(None, &requests), Some(1));
    assert_eq!(find_line_break(Some(b"1\n"), &requests), None);
    let outcome = update_file(&mut context, b"f.nix", source.as_bytes(), &requests, Some(b"1\n"));
    assert_eq!(outcome, Err(UpdateFailure { error: UpdateError::InputMalformed, request: None }));
}
