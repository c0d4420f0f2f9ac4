use fsmirror::text::basename;
use fsmirror::text::chars_to_string;
use fsmirror::text::dirname;
use fsmirror::text::join_path;
use fsmirror::text::parse_usize;
use fsmirror::text::split_components;
use fsmirror::text::str_chars;
use fsmirror::text::strip_prefix;
use fsmirror::text::trim_chars;
use fsmirror::text::u64_to_dec;

#[test]
fn decimal_rendering() {
    assert_eq!(u64_to_dec(0), "0");
    assert_eq!(u64_to_dec(7), "7");
    assert_eq!(u64_to_dec(10), "10");
    assert_eq!(u64_to_dec(1536), "1536");
    assert_eq!(u64_to_dec(u64::MAX), "18446744073709551615");
}

#[test]
fn parse_usize_accepts_digits_and_plus() {
    assert_eq!(parse_usize(&str_chars("123")), Some(123));
    assert_eq!(parse_usize(&str_chars("+5")), Some(5));
    assert_eq!(parse_usize(&str_chars("0")), Some(0));
    assert_eq!(parse_usize(&str_chars("")), None);
    assert_eq!(parse_usize(&str_chars("12a")), None);
    assert_eq!(parse_usize(&str_chars("-3")), None);
    assert_eq!(parse_usize(&str_chars("99999999999999999999999999")), None);
}

#[test]
fn dirname_and_basename() {
    assert_eq!(dirname(&"/a/b".to_string()), Some("/a".to_string()));
    assert_eq!(dirname(&"/a".to_string()), Some("/".to_string()));
    assert_eq!(dirname(&"/".to_string()), None);
    assert_eq!(dirname(&"plain".to_string()), None);
    assert_eq!(basename(&"/a/b".to_string()), "b");
    assert_eq!(basename(&"/a".to_string()), "a");
    assert_eq!(basename(&"plain".to_string()), "plain");
}

#[test]
fn join_path_handles_root() {
    assert_eq!(join_path(&"/".to_string(), &"x".to_string()), "/x");
    assert_eq!(join_path(&"/a".to_string(), &"x".to_string()), "/a/x");
    assert_eq!(join_path(&"a".to_string(), &"b".to_string()), "a/b");
}

#[test]
fn components_drop_empties() {
    let c = split_components(&"/a//b/".to_string());
    assert_eq!(c, vec!["a".to_string(), "b".to_string()]);
    let none: Vec<String> = Vec::new();
    assert_eq!(split_components(&"///".to_string()), none);
    assert_eq!(split_components(&"".to_string()), none);
}

#[test]
fn strip_prefix_only_when_leading() {
    assert_eq!(strip_prefix(&"/root/sub".to_string(), &"/root".to_string()), "/sub");
    assert_eq!(strip_prefix(&"/other".to_string(), &"/root".to_string()), "/other");
}

#[test]
fn trim_both_ends() {
    assert_eq!(chars_to_string(&trim_chars(&str_chars("  hi \n"))), "hi");
    assert_eq!(chars_to_string(&trim_chars(&str_chars(""))), "");
    assert_eq!(chars_to_string(&trim_chars(&str_chars("   "))), "");
}
