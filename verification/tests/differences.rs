use nix_update_fetch::diff::{
    diff, diff_lines, has_difference, push_change, split_lines, Change, DiffLine, LineKind,
};

fn shown(lines: &Vec<DiffLine>) -> Vec<String> {
    lines
        .iter()
        .map(|line| {
            let mark = match line.kind {
                LineKind::Context => ' ',
                LineKind::Added => '+',
                LineKind::Removed => '-',
            };
            format!("{}{}", mark, String::from_utf8(line.text.clone()).unwrap())
        })
        .collect()
}

#[test]
fn text_is_split_into_lines() {
    assert_eq!(split_lines(b"a\nb"), vec![b"a".to_vec(), b"b".to_vec()]);
    assert_eq!(split_lines(b"a\nb\n"), vec![b"a".to_vec(), b"b".to_vec()]);
    assert_eq!(split_lines(b"a\r\nb\r"), vec![b"a".to_vec(), b"b\r".to_vec()]);
    assert_eq!(split_lines(b"\n\nx"), vec![b"".to_vec(), b"".to_vec(), b"x".to_vec()]);
    assert_eq!(split_lines(b""), Vec::<Vec<u8>>::new());
    assert_eq!(split_lines(b"\r\n"), vec![b"".to_vec()]);
}

#[test]
fn lines_are_split_as_the_standard_library_splits_them() {
    for text in ["", "a", "a\n", "a\nb", "a\r\nb\r\n", "\n", "\r", "a\r", "\n\n", "x\ny\n\nz"] {
        let expected: Vec<Vec<u8>> = text.lines().map(|line| line.as_bytes().to_vec()).collect();
        assert_eq!(split_lines(text.as_bytes()), expected);
    }
}

#[test]
fn context_is_cut_to_the_lines_next_to_a_change() {
    let changes = vec![
        Change::Same(b"1\n2\n3\n4".to_vec()),
        Change::Rem(b"old".to_vec()),
        Change::Add(b"new\nnewer".to_vec()),
        Change::Same(b"5\n6\n7\n8\n9".to_vec()),
        Change::Add(b"last".to_vec()),
        Change::Same(b"10\n11\n12".to_vec()),
    ];
    assert_eq!(
        shown(&diff_lines(2, &changes)),
        vec![" 3", " 4", "-old", "+new", "+newer", " 5", " 6", " 8", " 9", "+last", " 10", " 11"]
    );
    assert_eq!(
        shown(&diff_lines(0, &changes)),
        vec!["-old", "+new", "+newer", "+last"]
    );
    assert!(has_difference(&changes));
}

#[test]
fn short_stretches_are_shown_once() {
    let changes = vec![
        Change::Rem(b"a".to_vec()),
        Change::Same(b"1\n2\n3".to_vec()),
        Change::Add(b"b".to_vec()),
    ];
    assert_eq!(shown(&diff_lines(2, &changes)), vec!["-a", " 1", " 2", " 3", "+b"]);
    assert_eq!(shown(&diff_lines(5, &changes)), vec!["-a", " 1", " 2", " 3", "+b"]);
}

#[test]
fn a_single_stretch_shows_nothing() {
    let changes = vec![Change::Same(b"1\n2\n3".to_vec())];
    assert!(diff_lines(2, &changes).is_empty());
    assert!(!has_difference(&changes));
    assert!(!has_difference(&Vec::new()));
    assert!(has_difference(&vec![Change::Add(b"x".to_vec())]));
}

#[test]
fn one_change_is_shown_by_its_place() {
    let mut out = Vec::new();
    push_change(&mut out, &Change::Same(b"1\n2\n3".to_vec()), 1, true, false);
    assert_eq!(shown(&out), vec![" 3"]);
    push_change(&mut out, &Change::Same(b"1\n2\n3".to_vec()), 1, false, true);
    assert_eq!(shown(&out), vec![" 3", " 1"]);
    push_change(&mut out, &Change::Rem(b"x\ny".to_vec()), 0, false, false);
    assert_eq!(shown(&out), vec![" 3", " 1", "-x", "-y"]);
}

#[test]
fn texts_are_compared_line_by_line() {
    let old = b"a\nb\nc\nd\ne\nf\n";
    let new = b"a\nb\nc\nD\ne\nf\n";
    let report = diff(1, old, new);
    assert!(report.changed);
    assert_eq!(shown(&report.lines), vec![" c", "-d", "+D", " e"]);
    let report = diff(2, old, old);
    assert!(!report.changed);
    assert!(report.lines.is_empty());
    let report = diff(2, b"", b"");
    assert!(!report.changed);
    let report = diff(2, b"", b"x");
    assert!(report.changed);
    assert_eq!(shown(&report.lines), vec!["+x"]);
}
