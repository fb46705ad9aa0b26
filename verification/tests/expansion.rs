use nosh::aliases::AliasTable;
use nosh::expansion::expand_aliases;

#[test]
fn no_aliases() {
    let mut tokens = vec!["ls".to_string(), "-al".to_string(), "*.py".to_string()];
    let expected = vec!["ls".to_string(), "-al".to_string(), "*.py".to_string()];
    assert_eq!(expected, expand_aliases(&AliasTable::new(), &mut tokens));
}

#[test]
fn with_aliases() {
    let mut tokens = vec!["l".to_string(), "-al".to_string(), "*.py".to_string()];
    let mut aliases = AliasTable::new();
    aliases.insert("l".to_string(), "ls".to_string());
    let expected = vec!["ls".to_string(), "-al".to_string(), "*.py".to_string()];
    assert_eq!(expected, expand_aliases(&aliases, &mut tokens));
}

#[test]
fn alias_splits_tokens_after_expansion() {
    let mut tokens = vec!["lc".to_string(), "-al".to_string(), "*.py".to_string()];
    let mut aliases = AliasTable::new();
    aliases.insert("lc".to_string(), "ls --color".to_string());
    let expected = vec![
        "ls".to_string(),
        "--color".to_string(),
        "-al".to_string(),
        "*.py".to_string(),
    ];
    assert_eq!(expected, expand_aliases(&aliases, &mut tokens));
}

#[test]
fn nested_aliases() {
    let mut tokens = vec!["sl".to_string()];
    let mut aliases = AliasTable::new();
    aliases.insert("sl".to_string(), "ls".to_string());
    aliases.insert("ls".to_string(), "cd".to_string());
    let expected = vec!["cd".to_string()];
    assert_eq!(expected, expand_aliases(&aliases, &mut tokens));
}

#[test]
fn infinitely_recursive_alias() {
    let mut tokens = vec!["ls".to_string()];
    let mut aliases = AliasTable::new();
    aliases.insert("ls".to_string(), "ls --color".to_string());
    let expected = vec!["ls".to_string(), "--color".to_string()];
    assert_eq!(expected, expand_aliases(&aliases, &mut tokens));
}

#[test]
fn expansion_guard_is_global_across_the_token_list() {
    // The first occurrence is substituted; the second stays literal because
    // the guard set is shared by the whole top-level call.
    let mut tokens = vec!["ls".to_string(), "ls".to_string()];
    let mut aliases = AliasTable::new();
    aliases.insert("ls".to_string(), "ls --color".to_string());
    let expected = vec!["ls".to_string(), "--color".to_string(), "ls".to_string()];
    assert_eq!(expected, expand_aliases(&aliases, &mut tokens));
}

#[test]
fn expansion_drains_the_input_tokens() {
    let mut tokens = vec!["ls".to_string()];
    expand_aliases(&AliasTable::new(), &mut tokens);
    assert!(tokens.is_empty());
}

#[test]
fn empty_token_list_expands_to_nothing() {
    let mut tokens: Vec<String> = vec![];
    let expected: Vec<String> = vec![];
    assert_eq!(expected, expand_aliases(&AliasTable::new(), &mut tokens));
}

#[test]
fn alias_with_empty_replacement_vanishes() {
    let mut tokens = vec!["e".to_string(), "x".to_string()];
    let mut aliases = AliasTable::new();
    aliases.insert("e".to_string(), "".to_string());
    let expected = vec!["x".to_string()];
    assert_eq!(expected, expand_aliases(&aliases, &mut tokens));
}

#[test]
fn alias_replacement_is_lexed_with_quoting() {
    let mut tokens = vec!["q".to_string()];
    let mut aliases = AliasTable::new();
    aliases.insert("q".to_string(), "echo 'a b'".to_string());
    let expected = vec!["echo".to_string(), "a b".to_string()];
    assert_eq!(expected, expand_aliases(&aliases, &mut tokens));
}
