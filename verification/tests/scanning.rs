use nix_update_fetch::error::UpdateError;
use nix_update_fetch::parse::parse;
use nix_update_fetch::scan::{
    byte_in, can_tokenize, comment_end, pairs, peek, probe_at, run, scan_string, step, ByteClass,
    Frame, Shape, StringEnd,
};

/// The ends of the tokens that the scanner cuts `source` into, if it gets
/// through.
fn cuts(source: &[u8]) -> Option<Vec<usize>> {
    let mut frames: Vec<Frame> = Vec::new();
    let mut ends = Vec::new();
    let mut at = 0;
    while at < source.len() {
        let next = step(source, at, &mut frames)?;
        assert!(next > at && next <= source.len());
        ends.push(next);
        at = next;
    }
    Some(ends)
}

/// The ends of the tokens that `rnix` cuts `source` into.
fn rnix_cuts(source: &str) -> Vec<usize> {
    let mut end = 0;
    rnix::tokenizer::Tokenizer::new(source)
        .map(|(_, text)| {
            end += text.len();
            end
        })
        .collect()
}

/// Holds the scanner against the tokenizer on `source`.
fn compare(source: &str) {
    let found = cuts(source.as_bytes());
    assert_eq!(found.is_some(), can_tokenize(source.as_bytes()), "{:?}", source);
    if let Some(ends) = found {
        assert_eq!(ends, rnix_cuts(source), "{:?}", source);
        assert_ne!(parse(source.as_bytes()).err(), Some(UpdateError::SourceRefused));
    } else {
        assert_eq!(parse(source.as_bytes()).err(), Some(UpdateError::SourceRefused));
    }
}

#[test]
fn string_left_open_behind_an_interpolation_is_refused() {
    assert!(!can_tokenize(b"\"${a}"));
    assert_eq!(parse(b"\"${a}").err(), Some(UpdateError::SourceRefused));
    assert!(!can_tokenize(b"{ a = \"x${b}y; }"));
    assert!(!can_tokenize(b"''\n  ${a}\n'"));
    assert!(!can_tokenize(b"\"${a}\\\""));
    assert!(!can_tokenize(b"\"${ \"${b}\" }"));
    assert!(can_tokenize(b"\"${a}\""));
    assert!(can_tokenize(b"\"${a"));
    assert!(can_tokenize(b"\"abc"));
    assert!(can_tokenize(b"${a}"));
    assert!(can_tokenize(b"\"${ { b = 1; } }\""));
    assert!(can_tokenize(b""));
}

#[test]
fn character_outside_ascii_is_refused_only_in_code() {
    assert!(can_tokenize("# é\n\"é\" /* é */ ''é''".as_bytes()));
    assert!(!can_tokenize("é".as_bytes()));
    assert!(!can_tokenize("a/é".as_bytes()));
    assert!(!can_tokenize("a:é".as_bytes()));
    assert!(!can_tokenize("~é".as_bytes()));
    assert!(can_tokenize(&[b'"', 0xff, b'"']));
    assert!(!can_tokenize(&[0xff]));
}

#[test]
fn runs_and_probes_follow_their_classes() {
    assert_eq!(run(b"  \t\nx", 0, ByteClass::Space), 4);
    assert_eq!(run(b"ab-c'd e", 0, ByteClass::Name), 6);
    assert_eq!(run(b"a/b.c+d e", 0, ByteClass::Path), 7);
    assert_eq!(run(b"12.5", 0, ByteClass::Digit), 2);
    assert_eq!(run(b"x", 1, ByteClass::Line), 1);
    assert!(byte_in(ByteClass::Link, b'%') && !byte_in(ByteClass::Link, b'"'));
    assert!(byte_in(ByteClass::StoreProbe, b'<') && !byte_in(ByteClass::Probe, b'<'));
    assert!(byte_in(ByteClass::NotStar, b'/') && !byte_in(ByteClass::NotStar, b'*'));
    assert_eq!(peek(b"ab", 0, 1), Some(b'b'));
    assert_eq!(peek(b"ab", 1, 1), None);
    assert_eq!(probe_at(b"a/b", 0), Shape::PathLike);
    assert_eq!(probe_at(b"a//b", 0), Shape::Plain);
    assert_eq!(probe_at(b"a/ b", 0), Shape::Plain);
    assert_eq!(probe_at(b"<nixpkgs>", 0), Shape::Store);
    assert_eq!(probe_at(b"http://x", 0), Shape::Link);
    assert_eq!(probe_at(b"a: b", 0), Shape::Plain);
    assert_eq!(probe_at("a:é".as_bytes(), 0), Shape::Unsure);
    assert!(pairs(b'-', b'>') && pairs(b'/', b'/') && !pairs(b'>', b'>'));
}

#[test]
fn strings_and_comments_end_where_they_should() {
    assert_eq!(scan_string(b"ab\" c", 0, false), StringEnd::Closed(3));
    assert_eq!(scan_string(b"a\\\"b\"", 0, false), StringEnd::Closed(5));
    assert_eq!(scan_string(b"a${b}", 0, false), StringEnd::Opened(3));
    assert_eq!(scan_string(b"a$${b}\"", 0, false), StringEnd::Closed(7));
    assert_eq!(scan_string(b"abc\\", 0, false), StringEnd::Unclosed);
    assert_eq!(scan_string(b"a'' b", 0, true), StringEnd::Closed(3));
    assert_eq!(scan_string(b"a'''b''", 0, true), StringEnd::Closed(7));
    assert_eq!(scan_string(b"a''${b}''", 0, true), StringEnd::Closed(9));
    assert_eq!(scan_string(b"a\"b", 0, true), StringEnd::Unclosed);
    assert_eq!(comment_end(b"/* a */ b", 2), 7);
    assert_eq!(comment_end(b"/***/x", 2), 5);
    assert_eq!(comment_end(b"/*/", 2), 3);
    assert_eq!(comment_end(b"/* a *", 2), 6);
}

#[test]
fn scanner_cuts_sources_as_the_tokenizer_does() {
    for source in [
        "{ stdenv, fetchurl }:\nstdenv.mkDerivation rec {\n  name = \"${pname}-${version}\";\n}\n",
        "a''b ''c'' d",
        "a/b/* c */ d",
        "a/* c */ b",
        "http://x.y/*z${a} ''q''",
        "x: y ? z",
        "<nixpkgs> <a<b> <a/b> < a >",
        "~/foo ~\" ~",
        "1.5 1. .5 1..2 ...x",
        "a//b a// b //*x",
        "/abs/path /. /* c",
        "\"a${b \"c${d}e\" f}g\" h",
        "''a${b}''${c}",
        "${a.${b}} { } } } ${ { } }",
        "a-b a->b a==b a!=b a<=b a>=b a&&b a||b a++b",
        "x = ''\n  ${a} ''' ''$ ''\\n $$ {\n''; y",
        "# c \"\n\"d\" /* \" */ \"e\"",
        "a.b.\"c\".${d} or e",
        "rec { inherit (a) b c; }",
        "let a = 1; in a + 2 * 3",
        "$ $$ ${",
        "\u{e9} in code",
        "\"é${a}é\" # é",
    ] {
        compare(source);
    }
}

#[test]
fn scanner_agrees_with_the_tokenizer_on_many_small_sources() {
    let alphabet: Vec<char> = "a1_.+-/<>:~*#\"'$ {}\\\n=!&|?@,%()[];é".chars().collect();
    let mut state: u64 = 0x2545F4914F6CDD1D;
    let mut refused = 0;
    for round in 0..150000 {
        let length = 1 + round % 12;
        let mut source = String::new();
        for _ in 0..length {
            state ^= state << 13;
            state ^= state >> 7;
            state ^= state << 17;
            source.push(alphabet[(state % alphabet.len() as u64) as usize]);
        }
        if cuts(source.as_bytes()).is_none() {
            refused += 1;
            continue;
        }
        assert_eq!(cuts(source.as_bytes()).unwrap(), rnix_cuts(&source), "{:?}", source);
    }
    assert!(refused > 0);
}

#[test]
fn parser_gets_through_every_source_that_the_scanner_lets_pass() {
    let alphabet: Vec<&str> = vec![
        "a", "1", ".", "/", ":", "\"", "''", "${", "}", "{", " ", "\n", "=", ";", "(", ")", "[",
        "]", "\\", "$", "'", "#", "/*", "*/", "let", "in", "rec", "inherit", "with", "if", "then",
        "else", "assert", "@", ",", "?", "or", "!", "-", "+", "<", ">", "~", "...",
    ];
    let mut state: u64 = 0x9E3779B97F4A7C15;
    let mut parsed = 0;
    for round in 0..40000 {
        let length = 1 + round % 10;
        let mut source = String::new();
        for _ in 0..length {
            state ^= state << 13;
            state ^= state >> 7;
            state ^= state << 17;
            source.push_str(alphabet[(state % alphabet.len() as u64) as usize]);
        }
        match parse(source.as_bytes()) {
            Ok(tree) => {
                assert_eq!(tree.source(), source.as_bytes().to_vec());
                parsed += 1;
            }
            Err(error) => assert_eq!(error, UpdateError::SourceRefused, "{:?}", source),
        }
    }
    assert!(parsed > 1000);
}
