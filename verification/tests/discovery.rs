use recall::discovery::{
    extract_function_body, parse_alias, parse_function_start, parse_shell_text, Discovered,
};

fn chars(s: &str) -> Vec<char> {
    s.chars().collect()
}

fn pairs(found: &[Discovered]) -> Vec<(String, String)> {
    found.iter().map(|d| (d.name.clone(), d.definition.clone())).collect()
}

#[test]
fn aliases_functions_and_comments() {
    let text = "# my aliases\n\
                alias ll='ls -la'\n\
                alias gs=\"git status\"\n\
                  alias x=y\n\
                \n\
                mkcd() {\n\
                  mkdir -p \"$1\"\n\
                  cd \"$1\"\n\
                }\n\
                hello() { echo hi; }\n\
                if () {\n\
                export PATH=/bin\n";
    let found = parse_shell_text(text).unwrap();
    assert_eq!(
        pairs(&found),
        vec![
            ("ll".to_string(), "ls -la".to_string()),
            ("gs".to_string(), "git status".to_string()),
            ("x".to_string(), "y".to_string()),
            ("mkcd".to_string(), "mkdir -p \"$1\"; cd \"$1\"".to_string()),
            ("hello".to_string(), "echo hi;".to_string()),
        ]
    );
}

#[test]
fn long_body_keeps_three_lines() {
    let text = "f() {\n  a\n  # note\n\n  b\n  c\n  d\n}\nalias z=1\n";
    let found = parse_shell_text(text).unwrap();
    assert_eq!(
        pairs(&found),
        vec![
            ("f".to_string(), "a; b; c".to_string()),
            ("z".to_string(), "1".to_string()),
        ]
    );
}

#[test]
fn nested_braces_stay_in_the_body() {
    let text = "g() {\n  if x; then { y; }\n  fi\n}\nalias after=1\n";
    let found = parse_shell_text(text).unwrap();
    assert_eq!(
        pairs(&found),
        vec![
            ("g".to_string(), "if x; then { y; }; fi".to_string()),
            ("after".to_string(), "1".to_string()),
        ]
    );
}

#[test]
fn unterminated_function_takes_the_rest() {
    let text = "h() {\n  one\n  alias inner=2\n";
    let found = parse_shell_text(text).unwrap();
    assert_eq!(pairs(&found), vec![("h".to_string(), "one; alias inner=2".to_string())]);
}

#[test]
fn windows_line_endings_are_trimmed() {
    let found = parse_shell_text("alias a=b\r\nalias c='d'\r\n").unwrap();
    assert_eq!(
        pairs(&found),
        vec![("a".to_string(), "b".to_string()), ("c".to_string(), "d".to_string())]
    );
}

#[test]
fn empty_text_has_no_commands() {
    assert!(parse_shell_text("").unwrap().is_empty());
    assert!(parse_shell_text("\n\n   \n# only comments\n").unwrap().is_empty());
}

#[test]
fn lone_quote_alias_has_no_result() {
    assert!(parse_shell_text("alias ok=1\nalias q='\n").is_none());
    assert!(parse_shell_text("alias q=\"\n").is_none());
}

#[test]
fn parse_alias_cases() {
    let d = parse_alias(&chars("alias ll='ls -la'")).unwrap();
    assert_eq!((d.name.as_str(), d.definition.as_str()), ("ll", "ls -la"));
    let d = parse_alias(&chars("alias e=a=b")).unwrap();
    assert_eq!((d.name.as_str(), d.definition.as_str()), ("e", "a=b"));
    // quotes must match at both ends to be removed
    let d = parse_alias(&chars("alias m='x\"")).unwrap();
    assert_eq!(d.definition, "'x\"");
    let d = parse_alias(&chars("alias n=''")).unwrap();
    assert_eq!(d.definition, "");
    assert!(parse_alias(&chars("alias noequals")).is_none());
    assert!(parse_alias(&chars("aliasx=1")).is_none());
    assert!(parse_alias(&chars("export A=1")).is_none());
}

#[test]
fn parse_function_start_cases() {
    assert_eq!(parse_function_start(&chars("mkcd() {")), Some("mkcd".to_string()));
    assert_eq!(parse_function_start(&chars("my_fn () { echo; }")), Some("my_fn".to_string()));
    assert_eq!(parse_function_start(&chars("_x(){")), Some("_x".to_string()));
    assert_eq!(parse_function_start(&chars("1abc() {")), None);
    assert_eq!(parse_function_start(&chars("a-b() {")), None);
    assert_eq!(parse_function_start(&chars("f()")), None);
    assert_eq!(parse_function_start(&chars("f() x {")), None);
    assert_eq!(parse_function_start(&chars("() {")), None);
    assert_eq!(parse_function_start(&chars("while () {")), None);
    assert_eq!(parse_function_start(&chars("done() {")), None);
    assert_eq!(parse_function_start(&chars("function f() {")), None);
}

#[test]
fn extract_function_body_moves_the_index() {
    let lines: Vec<Vec<char>> = vec![chars("f() {"), chars("  a"), chars("}"), chars("next")];
    let mut i = 0;
    let body = extract_function_body(&chars("f() {"), &lines, &mut i);
    assert_eq!(body.iter().collect::<String>(), "a");
    assert_eq!(i, 3);

    let lines: Vec<Vec<char>> = vec![chars("g() {  x;  y; }")];
    let mut i = 0;
    let body = extract_function_body(&chars("g() {  x;  y; }"), &lines, &mut i);
    assert_eq!(body.iter().collect::<String>(), "x;  y;");
    assert_eq!(i, 1);

    // a closing brace with no opening one gives an empty definition
    let lines: Vec<Vec<char>> = vec![chars("}")];
    let mut i = 0;
    let body = extract_function_body(&chars("}"), &lines, &mut i);
    assert!(body.is_empty());
    assert_eq!(i, 1);
}
