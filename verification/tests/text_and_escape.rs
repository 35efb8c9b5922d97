use nix_update_fetch::escape::{escape_nix_string, protect_dollars};
use nix_update_fetch::pattern::{escape_literal, means_something, trim_fragment};
use nix_update_fetch::text::{
    contains_line_break, copy_range, leading_run, precedes, push_bytes, same_bytes, trailing_pairs,
    Cursor,
};
use nix_update_fetch::tree::NodeKind;

fn cursor_after(text: &[u8]) -> Cursor {
    let mut cursor = Cursor::origin();
    for byte in text {
        cursor = cursor.step(*byte);
    }
    cursor
}

#[test]
fn cursor_starts_at_line_one_column_one() {
    assert!(Cursor::origin().at(1, 1));
    assert!(!Cursor::origin().at(1, 2));
    assert!(!Cursor::origin().at(0, 0));
}

#[test]
fn cursor_counts_lines_and_columns() {
    let cursor = cursor_after(b"ab\ncd");
    assert_eq!((cursor.breaks, cursor.chars), (1, 2));
    assert!(cursor.at(2, 3));
    assert!(cursor_after(b"ab\n").at(2, 1));
}

#[test]
fn cursor_counts_characters_not_bytes() {
    let cursor = cursor_after("é→x".as_bytes());
    assert_eq!("é→x".len(), 6);
    assert!(cursor.at(1, 4));
}

#[test]
fn same_bytes_compares_whole_texts() {
    assert!(same_bytes(b"version", b"version"));
    assert!(!same_bytes(b"version", b"versions"));
    assert!(!same_bytes(b"version", b"versioN"));
    assert!(same_bytes(b"", b""));
}

#[test]
fn precedes_is_dictionary_order() {
    assert!(precedes(b"a.nix", b"b.nix"));
    assert!(!precedes(b"b.nix", b"a.nix"));
    assert!(precedes(b"a", b"ab"));
    assert!(!precedes(b"ab", b"a"));
    assert!(!precedes(b"same", b"same"));
    assert!(precedes(b"", b"a"));
    assert!(!precedes(b"", b""));
}

#[test]
fn line_break_is_found_anywhere() {
    assert!(contains_line_break(b"a\nb"));
    assert!(contains_line_break(b"\n"));
    assert!(!contains_line_break(b"a\rb"));
    assert!(!contains_line_break(b""));
}

#[test]
fn bytes_are_appended_and_copied() {
    let mut out = b"ab".to_vec();
    push_bytes(&mut out, b"cd");
    assert_eq!(out, b"abcd".to_vec());
    assert_eq!(copy_range(b"abcdef", 2, 4), b"cd".to_vec());
    assert_eq!(copy_range(b"abcdef", 3, 3), Vec::<u8>::new());
}

#[test]
fn leading_and_trailing_runs_are_measured() {
    assert_eq!(leading_run(b"}}-${", b'}'), 2);
    assert_eq!(leading_run(b"-}", b'}'), 0);
    assert_eq!(trailing_pairs(b"x${${", 5, b'$', b'{'), 1);
    assert_eq!(trailing_pairs(b"x${${", 3, b'$', b'{'), 1);
    assert_eq!(trailing_pairs(b"x$", 2, b'$', b'{'), 2);
}

#[test]
fn fragments_lose_their_delimiters() {
    assert_eq!(trim_fragment(NodeKind::FragmentOpening, b"\"mirror://${"), Some(b"\"mirror://".to_vec()));
    assert_eq!(trim_fragment(NodeKind::FragmentJoint, b"}-${"), Some(b"-".to_vec()));
    assert_eq!(trim_fragment(NodeKind::FragmentClosing, b"}.tar.gz\""), Some(b".tar.gz\"".to_vec()));
    assert_eq!(trim_fragment(NodeKind::FragmentJoint, b"}${"), Some(Vec::new()));
    assert_eq!(trim_fragment(NodeKind::Identifier, b"}-${"), None);
}

#[test]
fn meta_characters_are_escaped() {
    assert_eq!(escape_literal(b"a.b-c"), b"a\\.b\\-c".to_vec());
    assert_eq!(escape_literal(b"\\.+*?()|[]{}^$#&-~"), b"\\\\\\.\\+\\*\\?\\(\\)\\|\\[\\]\\{\\}\\^\\$\\#\\&\\-\\~".to_vec());
    assert_eq!(escape_literal(b"\"plain/text%!\""), b"\"plain/text%!\"".to_vec());
    assert_eq!(escape_literal(b"a.b-c"), regex::escape("a.b-c").into_bytes());
}

#[test]
fn meta_characters_are_those_that_regex_escapes() {
    for byte in 0u8..128 {
        let text = (byte as char).to_string();
        assert_eq!(means_something(byte), regex::escape(&text) != text);
        assert_eq!(escape_literal(&[byte]), regex::escape(&text).into_bytes());
    }
    assert!(!means_something(0xC3));
}

#[test]
fn every_ascii_byte_stands_in_the_literal_as_described() {
    for byte in 0u8..128 {
        let inner: Vec<u8> = match byte {
            b'"' => b"\\\"".to_vec(),
            b'\\' => b"\\\\".to_vec(),
            b'$' => b"\\$".to_vec(),
            8 => b"\\b".to_vec(),
            9 => b"\\t".to_vec(),
            10 => b"\\n".to_vec(),
            12 => b"\\f".to_vec(),
            13 => b"\\r".to_vec(),
            0..=31 => format!("\\u00{:02x}", byte).into_bytes(),
            _ => vec![byte],
        };
        let mut expected = vec![b'"'];
        expected.extend(inner);
        expected.push(b'"');
        assert_eq!(escape_nix_string(&[b'a', byte]) [2..].to_vec(), expected[1..].to_vec());
        assert_eq!(escape_nix_string(&[byte]), expected);
    }
}

#[test]
fn bytes_that_are_no_text_are_replaced() {
    assert_eq!(escape_nix_string(&[b'a', 0xff, b'$']), "\"a\u{fffd}\\$\"".as_bytes().to_vec());
}

#[test]
fn dollars_are_protected() {
    assert_eq!(protect_dollars(b"a$b$$"), b"a\\$b\\$\\$".to_vec());
    assert_eq!(protect_dollars(b"none"), b"none".to_vec());
}

#[test]
fn values_become_nix_string_literals() {
    assert_eq!(escape_nix_string(b"1.2"), b"\"1.2\"".to_vec());
    assert_eq!(escape_nix_string(b"a\"b\\c"), b"\"a\\\"b\\\\c\"".to_vec());
    assert_eq!(escape_nix_string(b"${x}"), b"\"\\${x}\"".to_vec());
    assert_eq!(escape_nix_string(b"tab\there"), b"\"tab\\there\"".to_vec());
    assert_eq!(escape_nix_string("é".as_bytes()), "\"é\"".as_bytes().to_vec());
}
