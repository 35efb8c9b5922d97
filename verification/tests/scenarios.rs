use nix_update_fetch::error::UpdateError;
use nix_update_fetch::request::UpdateRequest;
use nix_update_fetch::update::{update_file, RunContext};

fn request(name: &str, line: usize, column: usize, value: &str) -> UpdateRequest {
    UpdateRequest::new(name.as_bytes(), b"default.nix", line, column, value.as_bytes())
}

/// The request that the binding which begins with `binding` in `source` be
/// given `value`, under the name that the binding has.
fn request_at(source: &str, binding: &str, value: &str) -> UpdateRequest {
    let offset = source.find(binding).unwrap();
    let before = &source[..offset];
    let line = before.matches('\n').count() + 1;
    let column = before.chars().rev().take_while(|c| *c != '\n').count() + 1;
    let name = binding.split(' ').next().unwrap();
    request(name, line, column, value)
}

fn update(content: &str, requests: Vec<UpdateRequest>) -> Result<String, UpdateError> {
    let mut context = RunContext::new();
    update_file(&mut context, b"default.nix", content.as_bytes(), &requests, None)
        .map(|text| String::from_utf8(text).unwrap())
        .map_err(|failure| failure.error)
}

#[test]
fn literal_binding_is_replaced_in_place() {
    let source = "{\n  pname = \"foo\";\n  version   =   \"1.0\"; # keep\n}\n";
    let updated = update(source, vec![request("version", 3, 3, "1.2")]).unwrap();
    assert_eq!(updated, "{\n  pname = \"foo\";\n  version = \"1.2\"; # keep\n}\n");
}

#[test]
fn direct_request_leaves_other_bindings_untouched() {
    let source = "{ name = \"${pname}-${version}\"; pname = \"foo\"; version = \"1.0\"; }";
    let updated = update(source, vec![request_at(source, "pname =", "1.2")]).unwrap();
    assert_eq!(
        updated,
        "{ name = \"${pname}-${version}\"; pname = \"1.2\"; version = \"1.0\"; }"
    );
}

#[test]
fn interpolation_sees_only_bindings_before_it() {
    let source = "{ name = \"${pname}-${version}\"; pname = \"foo\"; version = \"1.0\"; }";
    let outcome = update(source, vec![request_at(source, "name = \"$", "foo-1.2")]);
    assert_eq!(outcome, Err(UpdateError::UnresolvableAlias));
}

#[test]
fn interpolation_changes_only_the_captured_part_that_differs() {
    let source = "{ pname = \"foo\"; version = \"1.0\"; name = \"${pname}-${version}\"; }";
    let updated = update(source, vec![request_at(source, "name = \"$", "foo-1.2")]).unwrap();
    assert_eq!(
        updated,
        "{ pname = \"foo\"; version = \"1.2\"; name = \"${pname}-${version}\"; }"
    );
}

#[test]
fn interpolation_assigns_each_identifier_its_part() {
    let source = "{ a = \"0\"; b = \"0\"; c = \"X${a}-Y${b}\"; }";
    let updated = update(source, vec![request_at(source, "c =", "X1-Y2")]).unwrap();
    assert_eq!(updated, "{ a = \"1\"; b = \"2\"; c = \"X${a}-Y${b}\"; }");
}

#[test]
fn alias_chain_ends_at_the_literal() {
    let source = "{ a = \"1\"; b = a; c = b; d = c; }";
    let updated = update(source, vec![request_at(source, "d =", "2")]).unwrap();
    assert_eq!(updated, "{ a = \"2\"; b = a; c = b; d = c; }");
}

#[test]
fn position_without_node_is_not_found() {
    let source = "{ pname = \"foo\"; }\n";
    let outcome = update(source, vec![request("pname", 7, 1, "bar")]);
    assert_eq!(outcome, Err(UpdateError::PositionNotFound));
}
