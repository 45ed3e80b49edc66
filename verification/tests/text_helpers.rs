use recall::text::{chars_of, count_chars, find_char, is_whitespace, lines_of, rfind_char, trim};

fn s(v: &[char]) -> String {
    v.iter().collect()
}

#[test]
fn trim_removes_unicode_whitespace() {
    let v: Vec<char> = " \t\u{3000}a b\u{a0}\r\n".chars().collect();
    assert_eq!(s(&trim(&v)), "a b");
    assert!(trim(&chars_of("   ")).is_empty());
    assert!(is_whitespace('\u{2028}'));
    assert!(!is_whitespace('x'));
    assert!(!is_whitespace('\u{200b}'));
}

#[test]
fn finding_and_counting() {
    let v = chars_of("a{b}{c}");
    assert_eq!(find_char(&v, '{'), Some(1));
    assert_eq!(rfind_char(&v, '}'), Some(6));
    assert_eq!(find_char(&v, 'z'), None);
    assert_eq!(count_chars(&v, '{'), 2);
}

#[test]
fn lines_split_on_newlines() {
    let lines = lines_of(&chars_of("a\r\n\nb\n"));
    let got: Vec<String> = lines.iter().map(|l| s(l)).collect();
    assert_eq!(got, vec!["a\r", "", "b"]);
    assert!(lines_of(&chars_of("")).is_empty());
    assert_eq!(lines_of(&chars_of("x")).len(), 1);
}
