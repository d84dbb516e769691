use envgg::validate::is_valid_env_var_name;

#[test]
fn accepts_screaming_case_names() {
    assert!(is_valid_env_var_name("FOO_BAR2"));
    assert!(is_valid_env_var_name("A"));
    assert!(is_valid_env_var_name("API_KEY"));
    assert!(is_valid_env_var_name("X9"));
}

#[test]
fn rejects_lowercase() {
    assert!(!is_valid_env_var_name("foo"));
    assert!(!is_valid_env_var_name("Foo"));
    assert!(!is_valid_env_var_name("FOo"));
}

#[test]
fn rejects_leading_digit_or_underscore() {
    assert!(!is_valid_env_var_name("2FOO"));
    assert!(!is_valid_env_var_name("_FOO"));
}

#[test]
fn rejects_empty_name() {
    assert!(!is_valid_env_var_name(""));
}

#[test]
fn rejects_other_characters() {
    assert!(!is_valid_env_var_name("FOO-BAR"));
    assert!(!is_valid_env_var_name("FOO BAR"));
    assert!(!is_valid_env_var_name("FOO.BAR"));
    assert!(!is_valid_env_var_name("FOO$"));
}
