use asstosrt::dict::Dict;

fn pm(dict: &Dict, q: &str) -> Option<(String, String)> {
    dict.prefix_match(q)
}

fn pair(a: &str, b: &str) -> Option<(String, String)> {
    Some((a.to_string(), b.to_string()))
}

#[test]
fn test_prefix_match() {
    let dict = Dict::load(
        "
A a'
B b'
C c'
ABC abc'
ABCD abcd'
DDD ddd'
BB bb'",
    );
    assert_eq!(pair("A", "a'"), pm(&dict, "A"));
    assert_eq!(pair("B", "b'"), pm(&dict, "BXX"));
    assert_eq!(pair("ABC", "abc'"), pm(&dict, "ABCX"));
    assert_eq!(pair("ABCD", "abcd'"), pm(&dict, "ABCDEFG"));
    assert_eq!(None, pm(&dict, "X"));
    assert_eq!(None, pm(&dict, "DD"));
}

#[test]
fn test_dict_simple() {
    let dict = Dict::load(
        "
A a
B b
ABC xxx
'",
    );
    assert_eq!("a", dict.replace_all("A"));
    assert_eq!("ab", dict.replace_all("AB"));
    assert_eq!("xxx", dict.replace_all("ABC"));
    assert_eq!("abxxxa", dict.replace_all("ABABCA"));
    assert_eq!("aXbXab", dict.replace_all("AXBXAB"));
}

#[test]
fn empty_dictionary_changes_nothing() {
    let dict = Dict::new();
    assert_eq!("曾經有一份 ABC", dict.replace_all("曾經有一份 ABC"));
    let loaded = Dict::load("");
    assert_eq!("", loaded.replace_all(""));
    assert_eq!("x y\r\nz", loaded.replace_all("x y\r\nz"));
}

#[test]
fn text_without_keys_is_kept() {
    let dict = Dict::load("A a\nB b\nABC xxx\n");
    assert_eq!("XYZ 123", dict.replace_all("XYZ 123"));
}

#[test]
fn later_line_wins_and_value_keeps_spaces() {
    let dict = Dict::load("K one\r\nK two words\nL\n M\n");
    assert_eq!("two words", dict.replace_all("K"));
    // a line without a space, and one with an empty key, hold no entry
    assert_eq!("L M", dict.replace_all("L M"));
}

#[test]
fn shorter_key_added_after_longer_one() {
    let dict = Dict::load("AB x\nA y\n");
    assert_eq!("x", dict.replace_all("AB"));
    assert_eq!("yy", dict.replace_all("AA"));
    assert_eq!("yC", dict.replace_all("AC"));
}

#[test]
fn chinese_phrases_prefer_longest() {
    let dict = Dict::load("干 幹\n干燥 乾燥\n头发 頭髮\n");
    assert_eq!("頭髮很乾燥，幹活", dict.replace_all("头发很干燥，干活"));
}
