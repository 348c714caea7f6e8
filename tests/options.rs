use asstosrt::options::{ChineseConvertion, LineStrip};

#[test]
fn test_line_strip() {
    let empty = "";
    let one_line = "1";
    let two_lines = "1\n2";

    assert!(LineStrip::KeepAll.strip(empty).is_empty());
    assert!(LineStrip::KeepFirst.strip(empty).is_empty());
    assert!(LineStrip::KeepLast.strip(empty).is_empty());

    assert_eq!(LineStrip::KeepAll.strip(one_line), "1");
    assert_eq!(LineStrip::KeepFirst.strip(one_line), "1");
    assert_eq!(LineStrip::KeepLast.strip(one_line), "1");

    assert_eq!(LineStrip::KeepAll.strip(two_lines), "1\n2");
    assert_eq!(LineStrip::KeepFirst.strip(two_lines), "1");
    assert_eq!(LineStrip::KeepLast.strip(two_lines), "2");
}

#[test]
fn line_strip_with_crlf() {
    assert_eq!(LineStrip::KeepFirst.strip("a\r\nb\r\n"), "a");
    assert_eq!(LineStrip::KeepLast.strip("a\r\nb\r\n"), "b");
    assert_eq!(LineStrip::KeepLast.strip("a\nb\r"), "b\r");
}

#[test]
fn dictionary_names() {
    assert_eq!(ChineseConvertion::Keep.dict_name(), None);
    assert_eq!(ChineseConvertion::ToSimplified.dict_name(), Some("t2s.txt"));
    assert_eq!(ChineseConvertion::ToTraditional.dict_name(), Some("s2t.txt"));
}
