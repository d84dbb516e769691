use envgg::classify::{parse_env_line, EnvLine};

fn direct(key: &str, value: &str) -> EnvLine {
    EnvLine::Direct { key: key.to_string(), value: value.to_string() }
}

fn alias(key: &str, keyring_key: &str) -> EnvLine {
    EnvLine::Alias { key: key.to_string(), keyring_key: keyring_key.to_string() }
}

fn lookup(key: &str) -> EnvLine {
    EnvLine::Lookup { key: key.to_string() }
}

#[test]
fn blank_lines_are_comments() {
    assert_eq!(parse_env_line(""), EnvLine::Comment);
    assert_eq!(parse_env_line("   "), EnvLine::Comment);
    assert_eq!(parse_env_line("\t \r"), EnvLine::Comment);
}

#[test]
fn hash_lines_are_comments() {
    assert_eq!(parse_env_line("# a comment"), EnvLine::Comment);
    assert_eq!(parse_env_line("#KEY=value"), EnvLine::Comment);
    assert_eq!(parse_env_line("   # indented, trailing content = ignored"), EnvLine::Comment);
    assert_eq!(parse_env_line("\t#"), EnvLine::Comment);
}

#[test]
fn lines_without_assignment_are_lookups() {
    assert_eq!(parse_env_line("DATABASE_URL"), lookup("DATABASE_URL"));
    assert_eq!(parse_env_line("  SOME_KEY  "), lookup("SOME_KEY"));
    assert_eq!(parse_env_line("not even a name"), lookup("not even a name"));
}

#[test]
fn only_first_assignment_splits() {
    assert_eq!(parse_env_line("KEY=\"a=b\""), direct("KEY", "a=b"));
    assert_eq!(parse_env_line("KEY=a=b=c"), direct("KEY", "a=b=c"));
}

#[test]
fn dollar_values_are_aliases() {
    assert_eq!(parse_env_line("KEY=$SECRET"), alias("KEY", "SECRET"));
    assert_eq!(parse_env_line("KEY=$"), alias("KEY", ""));
    assert_eq!(parse_env_line("KEY = $ OTHER "), alias("KEY", "OTHER"));
}

#[test]
fn matching_quotes_are_stripped_once() {
    assert_eq!(parse_env_line("KEY='quoted'"), direct("KEY", "quoted"));
    assert_eq!(parse_env_line("KEY=\"quoted value\""), direct("KEY", "quoted value"));
    assert_eq!(parse_env_line("KEY=\"\"nested\"\""), direct("KEY", "\"nested\""));
    assert_eq!(parse_env_line("KEY=''"), direct("KEY", ""));
}

#[test]
fn mismatched_quotes_are_kept_verbatim() {
    assert_eq!(parse_env_line("KEY=\"mismatched'"), direct("KEY", "\"mismatched'"));
    assert_eq!(parse_env_line("KEY='other\""), direct("KEY", "'other\""));
    assert_eq!(parse_env_line("KEY=\""), direct("KEY", "\""));
    assert_eq!(parse_env_line("KEY='"), direct("KEY", "'"));
}

#[test]
fn plain_values_are_direct() {
    assert_eq!(parse_env_line("KEY=value"), direct("KEY", "value"));
    assert_eq!(parse_env_line("  KEY  =  value  "), direct("KEY", "value"));
    assert_eq!(parse_env_line("KEY="), direct("KEY", ""));
}

#[test]
fn empty_key_is_permitted() {
    assert_eq!(parse_env_line("=value"), direct("", "value"));
}

#[test]
fn unicode_whitespace_is_trimmed() {
    assert_eq!(parse_env_line("\u{a0}KEY=v"), direct("KEY", "v"));
    assert_eq!(parse_env_line("KEY=v\u{2028}"), direct("KEY", "v"));
    assert_eq!(parse_env_line("\u{3000}\u{2003}#x"), EnvLine::Comment);
    assert_eq!(parse_env_line("\u{85}\u{1680}"), EnvLine::Comment);
}

#[test]
fn non_ascii_text_is_kept_as_is() {
    assert_eq!(parse_env_line("KEY=café"), direct("KEY", "café"));
    assert_eq!(parse_env_line("KEY='日本語'"), direct("KEY", "日本語"));
    assert_eq!(parse_env_line("KEY=$GRÜßE"), alias("KEY", "GRÜßE"));
}

#[test]
fn env_var_names_come_from_every_non_comment_line() {
    let lines: Vec<String> = vec![
        "# comment".to_string(),
        "A=1".to_string(),
        "B=$SECRET".to_string(),
        "C".to_string(),
        "".to_string(),
    ];
    let names = envgg::classify::env_var_names(&lines);
    assert_eq!(names, vec!["A".to_string(), "B".to_string(), "C".to_string()]);
}

#[test]
fn classify_lines_keeps_order() {
    let lines: Vec<String> = vec!["#c".to_string(), "X=1".to_string(), "Y".to_string()];
    let directives = envgg::classify::classify_lines(&lines);
    assert_eq!(directives, vec![EnvLine::Comment, direct("X", "1"), lookup("Y")]);
}
