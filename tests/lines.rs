use asstosrt::lines::UniversalLines;

#[test]
fn test_universal_lines() {
    let mut lines = UniversalLines::new("a\r\nb\nc\r\r\n\n\r\n\r\n");
    assert_eq!(lines.next().as_deref(), Some("a")); // a\r\n
    assert_eq!(lines.next().as_deref(), Some("b")); // b\n
    assert_eq!(lines.next().as_deref(), Some("c")); // c\r
    assert_eq!(lines.next().as_deref(), Some("")); // \r
    assert_eq!(lines.next().as_deref(), Some("")); // \n
    assert_eq!(lines.next().as_deref(), Some("")); // \n
    assert_eq!(lines.next().as_deref(), Some("")); // \r\n
    assert_eq!(lines.next(), None);
    assert_eq!(lines.next(), None);

    let mut lines = UniversalLines::new("single line");
    assert_eq!(lines.next().as_deref(), Some("single line"));
    assert_eq!(lines.next(), None);

    let mut lines = UniversalLines::new("");
    assert_eq!(lines.next(), None);
}

fn all_lines(text: &str) -> Vec<String> {
    let mut it = UniversalLines::new(text);
    let mut out = Vec::new();
    while let Some(l) = it.next() {
        out.push(l);
    }
    out
}

#[test]
fn mixed_terminators_give_no_trailing_line() {
    assert_eq!(all_lines("a\r\nb\nc\r"), vec!["a", "b", "c"]);
}

#[test]
fn cr_then_crlf_gives_empty_line() {
    assert_eq!(all_lines("a\r\r\n"), vec!["a", ""]);
}
