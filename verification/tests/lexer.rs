use nosh::lexer::lex;

#[test]
fn lex_empty_string() {
    let expected: Vec<&str> = vec![];
    assert_eq!(expected, lex(""));
}

#[test]
fn lex_newline_only() {
    let expected: Vec<&str> = vec![];
    assert_eq!(expected, lex("\n"));
}

#[test]
fn lex_single_word() {
    let expected = vec!["cd"];
    assert_eq!(expected, lex("cd\n"));
}

#[test]
fn lex_two_words() {
    let expected = vec!["ls", "-al"];
    assert_eq!(expected, lex("ls -al\n"));
}

#[test]
fn lex_weak_quoting() {
    let expected = vec!["cd", "dir with spaces"];
    let actual = lex("cd \"dir with spaces\"\n");
    assert_eq!(expected, actual);
}

#[test]
fn lex_strong_quoting() {
    let expected = vec!["cd", " ${PWD}\\\\`echo`"];
    let actual = lex("cd ' ${PWD}\\\\`echo`'\n");
    assert_eq!(expected, actual);
}

#[test]
fn lex_unquoted_escape() {
    let expected = vec!["\\${PWD}()`\"'<<rn"];
    let actual = lex("\\\\\\${PWD}\\(\\)\\`\\\"\\'\\<\\<\\r\\n\n");
    assert_eq!(expected, actual);
}

#[test]
fn lex_weak_quote_escape() {
    let expected = vec!["\\t$`\\o"];
    let actual = lex("\"\\\\t\\$\\`\\o\"\n");
    assert_eq!(expected, actual);
}

#[test]
fn lex_comment() {
    let expected = vec!["okay"];
    let actual = lex("okay#${}()\";'a\\\n");
    assert_eq!(expected, actual);
}

#[test]
fn lex_operator() {
    let expected = vec!["cd", "&&", "ls"];
    let actual = lex("cd&&ls\n");
    assert_eq!(expected, actual);
}

#[test]
fn lex_many_operators() {
    let expected = vec!["cd", "&&", "||", "<<-", "ls"];
    let actual = lex("cd&&||<<-ls");
    assert_eq!(expected, actual);
}

#[test]
fn lex_plain_words_split_on_whitespace() {
    let expected = vec!["a", "bb", "ccc"];
    assert_eq!(expected, lex("a bb\t\nccc"));
}

#[test]
fn lex_whitespace_runs_only() {
    let expected: Vec<&str> = vec![];
    assert_eq!(expected, lex(" \t \n "));
}

#[test]
fn lex_trailing_escape_is_dropped() {
    let expected = vec!["abc"];
    assert_eq!(expected, lex("abc\\"));
}

#[test]
fn lex_unterminated_strong_quote_runs_to_end() {
    let expected = vec!["ab cd"];
    assert_eq!(expected, lex("'ab cd"));
}

#[test]
fn lex_weak_quote_keeps_backslash_before_double_quote() {
    // Inside weak quoting a backslash grants escaping power only to the
    // backtick, dollar and backslash characters; before a double quote the
    // backslash survives and the quote it escapes does not end the quoting.
    let expected = vec!["a\\\"b"];
    assert_eq!(expected, lex("\"a\\\"b\"\n"));
}

#[test]
fn lex_operator_match_is_positional() {
    // Maximal munch looks only at the token's length, so `&` may be followed
    // by `<` because some operator has `<` in second position.
    let expected = vec!["cd", "&<", "ls"];
    assert_eq!(expected, lex("cd&<ls\n"));
}

#[test]
fn lex_escaped_operator_starter_stays_in_word() {
    let expected = vec!["a&b"];
    assert_eq!(expected, lex("a\\&b\n"));
}

#[test]
fn lex_escaped_whitespace_stays_in_word() {
    // An escaped character, whitespace included, is taken literally and does
    // not delimit the token.
    let expected = vec!["a b"];
    assert_eq!(expected, lex("a\\ b\n"));
}

#[test]
fn lex_escaped_newline_stays_in_word() {
    let expected = vec!["a\nb"];
    assert_eq!(expected, lex("a\\\nb\n"));
}
