use nosh::aliases::AliasTable;
use nosh::shell::Shell;
use nosh::utilities::alias;

fn string_vec(items: Vec<&str>) -> Vec<String> {
    items.into_iter().map(String::from).collect()
}

#[test]
fn add_alias() {
    let mut shell = Shell::new();
    let args: &Vec<String> = &string_vec(vec!["ll=ls -l"]);
    alias(&mut shell, args);
    assert_eq!(
        shell.aliases.get(&"ll".to_string()).unwrap(),
        "ls -l".to_string()
    );
}

#[test]
fn alias_value_may_hold_equals_signs() {
    let mut shell = Shell::new();
    alias(&mut shell, &string_vec(vec!["x=a=b"]));
    assert_eq!(shell.aliases.get(&"x".to_string()).unwrap(), "a=b".to_string());
}

#[test]
fn alias_redefinition_replaces_in_place() {
    let mut shell = Shell::new();
    alias(&mut shell, &string_vec(vec!["ll=ls -l", "la=ls -a", "ll=ls -la"]));
    assert_eq!(shell.aliases.len(), 2);
    assert_eq!(shell.aliases.name_at(0), "ll".to_string());
    assert_eq!(shell.aliases.value_at(0), "ls -la".to_string());
    assert_eq!(shell.aliases.name_at(1), "la".to_string());
}

#[test]
fn alias_bare_name_reports_definition() {
    let mut shell = Shell::new();
    let queries = alias(&mut shell, &string_vec(vec!["ll=ls -l", "ll"]));
    assert_eq!(queries.len(), 1);
    assert_eq!(queries[0].name, "ll".to_string());
    assert_eq!(queries[0].value, Some("ls -l".to_string()));
}

#[test]
fn alias_unknown_name_reports_nothing_found() {
    let mut shell = Shell::new();
    let queries = alias(&mut shell, &string_vec(vec!["nope"]));
    assert_eq!(queries.len(), 1);
    assert_eq!(queries[0].name, "nope".to_string());
    assert_eq!(queries[0].value, None);
}

#[test]
fn alias_without_arguments_lists_in_definition_order() {
    let mut shell = Shell::new();
    alias(&mut shell, &string_vec(vec!["a=1", "b=2"]));
    let queries = alias(&mut shell, &string_vec(vec![]));
    assert_eq!(queries.len(), 2);
    assert_eq!(queries[0].name, "a".to_string());
    assert_eq!(queries[0].value, Some("1".to_string()));
    assert_eq!(queries[1].name, "b".to_string());
    assert_eq!(queries[1].value, Some("2".to_string()));
}

#[test]
fn fresh_shell_has_no_aliases() {
    let shell = Shell::new();
    assert_eq!(shell.aliases.len(), 0);
    assert_eq!(shell.aliases.get(&"ls".to_string()), None);
}

#[test]
fn alias_table_get_finds_latest_value() {
    let mut table = AliasTable::new();
    table.insert("ls".to_string(), "ls --color".to_string());
    table.insert("ls".to_string(), "ls -G".to_string());
    assert_eq!(table.get(&"ls".to_string()), Some("ls -G".to_string()));
    assert_eq!(table.len(), 1);
}
