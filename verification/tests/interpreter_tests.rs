use lagoon::interpreter::expression as e;
use lagoon::interpreter::interpret;
use lagoon::tree as t;

#[test]
fn mod_single() {
    let tree = t::new_tree(vec![t::new_symbol("0+", 1), t::new_exec(1)]);
    let actual = interpret(tree);
    let expected = e::new_closure(vec![e::new_instruction(0, '+'), e::new_exec()]);
    assert_eq!(actual, expected);
}

#[test]
fn mod_multiple() {
    let tree = t::new_tree(vec![
        t::new_symbol("0+", 1),
        t::new_symbol("1+", 1),
        t::new_exec(1),
    ]);
    let actual = interpret(tree);
    let expected = e::new_closure(vec![
        e::new_instruction(0, '+'),
        e::new_instruction(1, '+'),
        e::new_exec(),
    ]);
    assert_eq!(actual, expected);
}

#[test]
fn mod_nested() {
    let tree = t::new_tree(vec![
        t::new_symbol("0+", 1),
        t::new_loop(
            vec![t::new_guard("0", false)],
            t::new_tree(vec![t::new_symbol("0-", 1), t::new_exec(1)]),
        ),
        t::new_exec(1),
    ]);
    let actual = interpret(tree);
    let expected = e::new_closure(vec![
        e::new_instruction(0, '+'),
        e::new_loop(
            vec![e::new_guard(0, false)],
            e::new_closure(vec![e::new_instruction(0, '-'), e::new_exec()]),
        ),
        e::new_exec(),
    ]);
    assert_eq!(actual, expected);
}

#[test]
fn mod_negated() {
    let tree = t::new_tree(vec![
        t::new_symbol("0+", 1),
        t::new_loop(
            vec![t::new_guard("0", true)],
            t::new_tree(vec![t::new_symbol("0-", 1), t::new_exec(1)]),
        ),
        t::new_exec(1),
    ]);
    let actual = interpret(tree);
    let expected = e::new_closure(vec![
        e::new_instruction(0, '+'),
        e::new_loop(
            vec![e::new_guard(0, true)],
            e::new_closure(vec![e::new_instruction(0, '-'), e::new_exec()]),
        ),
        e::new_exec(),
    ]);
    assert_eq!(actual, expected);
}

#[test]
fn mod_multiple_guards() {
    let tree = t::new_tree(vec![
        t::new_symbol("0+", 1),
        t::new_loop(
            vec![t::new_guard("0", false), t::new_guard("1", true)],
            t::new_tree(vec![t::new_symbol("0-", 1), t::new_exec(1)]),
        ),
        t::new_exec(1),
    ]);
    let actual = interpret(tree);
    let expected = e::new_closure(vec![
        e::new_instruction(0, '+'),
        e::new_loop(
            vec![e::new_guard(0, false), e::new_guard(1, true)],
            e::new_closure(vec![e::new_instruction(0, '-'), e::new_exec()]),
        ),
        e::new_exec(),
    ]);
    assert_eq!(actual, expected);
}

#[test]
fn unparseable_index_defaults_to_zero() {
    let tree = t::new_tree(vec![t::new_symbol("+", 1), t::new_exec(1)]);
    let actual = interpret(tree);
    let expected = e::new_closure(vec![e::new_instruction(0, '+'), e::new_exec()]);
    assert_eq!(actual, expected);
}

#[test]
fn oversized_index_defaults_to_zero() {
    let tree = t::new_tree(vec![t::new_symbol("99999999999999999999999+", 1)]);
    let actual = interpret(tree);
    let expected = e::new_closure(vec![e::new_instruction(0, '+')]);
    assert_eq!(actual, expected);
}

#[test]
fn exec_symbol_keeps_no_index() {
    let tree = t::new_tree(vec![t::new_symbol("12;", 1)]);
    let actual = interpret(tree);
    let expected = e::new_closure(vec![e::new_exec()]);
    assert_eq!(actual, expected);
}
