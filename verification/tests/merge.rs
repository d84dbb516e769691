use envgg::classify::EnvLine;
use envgg::resolve::{merge_directives, merge_pairs, Warning};

fn pair(k: &str, v: &str) -> (String, String) {
    (k.to_string(), v.to_string())
}

#[test]
fn later_direct_entry_wins() {
    let directives = vec![
        EnvLine::Direct { key: "A".to_string(), value: "1".to_string() },
        EnvLine::Direct { key: "A".to_string(), value: "2".to_string() },
    ];
    let lookups: Vec<Option<String>> = vec![None, None];
    let (env, warnings) = merge_directives(&directives, &lookups);
    assert_eq!(env, vec![pair("A", "2")]);
    assert!(warnings.is_empty());
}

#[test]
fn later_line_wins_whatever_order_lookups_resolved() {
    // Two lookups of the same exported key: the outcomes are merged by line
    // index, so the second line's value wins even though the store answered
    // the lookups in whatever order it pleased.
    let directives = vec![
        EnvLine::Lookup { key: "A".to_string() },
        EnvLine::Lookup { key: "A".to_string() },
    ];
    let lookups = vec![Some("first".to_string()), Some("second".to_string())];
    let (env, warnings) = merge_directives(&directives, &lookups);
    assert_eq!(env, vec![pair("A", "second")]);
    assert!(warnings.is_empty());
}

#[test]
fn overwrite_keeps_first_position() {
    let pairs = vec![pair("A", "1"), pair("B", "x"), pair("A", "2")];
    let merged = merge_pairs(&pairs);
    assert_eq!(merged, vec![pair("A", "2"), pair("B", "x")]);
}

#[test]
fn failed_lookup_drops_key_and_records_one_warning() {
    let directives = vec![
        EnvLine::Alias { key: "B".to_string(), keyring_key: "MISSING".to_string() },
        EnvLine::Direct { key: "A".to_string(), value: "1".to_string() },
    ];
    let lookups: Vec<Option<String>> = vec![None, None];
    let (env, warnings) = merge_directives(&directives, &lookups);
    assert_eq!(env, vec![pair("A", "1")]);
    assert_eq!(
        warnings,
        vec![Warning { key: "B".to_string(), keyring_key: "MISSING".to_string() }],
    );
}

#[test]
fn failed_bare_lookup_warns_under_its_own_name() {
    let directives = vec![EnvLine::Lookup { key: "GONE".to_string() }];
    let lookups: Vec<Option<String>> = vec![None];
    let (env, warnings) = merge_directives(&directives, &lookups);
    assert!(env.is_empty());
    assert_eq!(
        warnings,
        vec![Warning { key: "GONE".to_string(), keyring_key: "GONE".to_string() }],
    );
}

#[test]
fn comments_contribute_nothing() {
    let directives = vec![EnvLine::Comment, EnvLine::Comment];
    let lookups: Vec<Option<String>> = vec![None, None];
    let (env, warnings) = merge_directives(&directives, &lookups);
    assert!(env.is_empty());
    assert!(warnings.is_empty());
}

#[test]
fn alias_takes_resolved_value_under_exported_key() {
    let directives = vec![
        EnvLine::Alias { key: "KEY".to_string(), keyring_key: "OTHER".to_string() },
    ];
    let lookups = vec![Some("secret".to_string())];
    let (env, warnings) = merge_directives(&directives, &lookups);
    assert_eq!(env, vec![pair("KEY", "secret")]);
    assert!(warnings.is_empty());
}

#[test]
fn merge_keeps_distinct_keys_in_line_order() {
    let pairs = vec![pair("C", "3"), pair("A", "1"), pair("B", "2")];
    let merged = merge_pairs(&pairs);
    assert_eq!(merged, vec![pair("C", "3"), pair("A", "1"), pair("B", "2")]);
}
