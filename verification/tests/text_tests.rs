use aur_guard::text::{
    cat, append_chars, decimal_chars, join_chars, less, parse_u32_chars, path_join_chars, same,
    sort_dedup_strings, split_lines, string_of, to_chars, trim_char_exec, trim_chars,
};

fn c(s: &str) -> Vec<char> {
    s.chars().collect()
}

#[test]
fn conversions_and_concat() {
    assert_eq!(to_chars("añb"), vec!['a', 'ñ', 'b']);
    assert_eq!(string_of(&['x', 'y']), "xy");
    assert_eq!(cat("ab", "cd"), "abcd");
    assert_eq!(append_chars(&c("a"), &c("b")), c("ab"));
}

#[test]
fn trimming_and_lines() {
    assert_eq!(trim_chars(&c(" \t x y \r\n")), c("x y"));
    assert_eq!(trim_chars(&c("   ")), c(""));
    assert_eq!(trim_char_exec(&c("\"\"v\""), '"'), c("v"));
    let ls: Vec<String> = split_lines(&c("a\r\nb\n\nc\r")).iter().map(|l| l.iter().collect()).collect();
    assert_eq!(ls, vec!["a", "b", "", "c\r"]);
    assert!(split_lines(&c("")).is_empty());
    assert_eq!(split_lines(&c("\n")).len(), 1);
}

#[test]
fn numbers() {
    assert_eq!(decimal_chars(0), c("0"));
    assert_eq!(decimal_chars(1234567890), c("1234567890"));
    assert_eq!(parse_u32_chars(&c("007")), Some(7));
    assert_eq!(parse_u32_chars(&c("4294967295")), Some(u32::MAX));
    assert_eq!(parse_u32_chars(&c("99999999999999999999")), None);
}

#[test]
fn order_and_sets() {
    assert!(less(&c("a"), &c("b")));
    assert!(less(&c("a"), &c("ab")));
    assert!(!less(&c("b"), &c("ab")));
    assert!(!less(&c("a"), &c("a")));
    assert!(same(&c("x"), &c("x")));
    let v: Vec<String> = vec!["b".into(), "a".into(), "b".into(), "Z".into(), "é".into()];
    let mut expected = v.clone();
    expected.sort();
    expected.dedup();
    assert_eq!(sort_dedup_strings(&v), expected);
}

#[test]
fn joins_and_paths() {
    assert_eq!(join_chars(&vec![c("a"), c("b"), c("c")], &c(", ")), c("a, b, c"));
    assert_eq!(join_chars(&vec![], &c(", ")), c(""));
    assert_eq!(path_join_chars(&c("/a"), &c("b")), c("/a/b"));
    assert_eq!(path_join_chars(&c("/a/"), &c("b")), c("/a/b"));
    assert_eq!(path_join_chars(&c(""), &c("b")), c("b"));
}
