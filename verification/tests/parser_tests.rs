use lagoon::parser::{debug, parse};
use lagoon::tree::{new_exec, new_guard, new_loop, new_symbol, new_tree};

#[test]
fn parser_single() {
    let input = "0+;".to_string();
    let tree = parse(input);
    let expected = new_tree(vec![new_symbol("0+", 1), new_exec(1)]);
    assert_eq!(tree, expected);
}

#[test]
fn parser_multiple() {
    let input = "0+ 1+ 123+ 321o;".to_string();
    let tree = parse(input);
    let expected = new_tree(vec![
        new_symbol("0+", 1),
        new_symbol("1+", 1),
        new_symbol("123+", 1),
        new_symbol("321o", 1),
        new_exec(1),
    ]);
    assert_eq!(tree, expected);
}

#[test]
fn parser_nested() {
    let input = "0+{0|0-;};".to_string();
    let tree = parse(input);
    let expected = new_tree(vec![
        new_symbol("0+", 1),
        new_loop(
            vec![new_guard("0", false)],
            new_tree(vec![new_symbol("0-", 1), new_exec(1)]),
        ),
        new_exec(1),
    ]);
    assert_eq!(tree, expected);
}

#[test]
fn parser_negated() {
    let input = "0+{!0|0-;};".to_string();
    let tree = parse(input);
    let expected = new_tree(vec![
        new_symbol("0+", 1),
        new_loop(
            vec![new_guard("0", true)],
            new_tree(vec![new_symbol("0-", 1), new_exec(1)]),
        ),
        new_exec(1),
    ]);
    assert_eq!(tree, expected);
}

#[test]
fn parser_multiple_guards() {
    let input = "0+{0,!1|0-;};".to_string();
    let tree = parse(input);
    let expected = new_tree(vec![
        new_symbol("0+", 1),
        new_loop(
            vec![new_guard("0", false), new_guard("1", true)],
            new_tree(vec![new_symbol("0-", 1), new_exec(1)]),
        ),
        new_exec(1),
    ]);
    assert_eq!(tree, expected);
}

#[test]
fn debug_renders_symbols_and_loops() {
    let tree = parse("0+ 1+ 123+ 321o;".to_string());
    assert_eq!(debug(tree), "(0+, 1+, 123+, 321o, ;)");

    let nested = parse("0+{0|0-;};".to_string());
    assert_eq!(debug(nested), "(0+, (0-, ;), ;)");
}

#[test]
fn whitespace_is_insignificant() {
    let spaced = parse("1 2\t+;".to_string());
    let expected = new_tree(vec![new_symbol("12+", 1), new_exec(1)]);
    assert_eq!(spaced, expected);
}

#[test]
fn unterminated_loop_truncates() {
    let tree = parse("0+{0|0-".to_string());
    let expected = new_tree(vec![
        new_symbol("0+", 1),
        new_loop(vec![new_guard("0", false)], new_tree(vec![new_symbol("0-", 1)])),
    ]);
    assert_eq!(tree, expected);
}

#[test]
fn malformed_guard_characters_are_ignored() {
    let tree = parse("{0a,!b1|;}".to_string());
    let expected = new_tree(vec![new_loop(
        vec![new_guard("0", false), new_guard("1", true)],
        new_tree(vec![new_symbol(";", 1)]),
    )]);
    assert_eq!(tree, expected);
}
