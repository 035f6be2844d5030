use lagoon::executor::{execute, run_loop, ExecError};
use lagoon::interpreter::expression as e;
use lagoon::interpreter::interpret;
use lagoon::memory::Memory;
use lagoon::parser::parse;
use lagoon::pool::Pools;

const STEPS: u64 = 1_000_000;

fn inc(x: i32) -> i32 {
    x.wrapping_add(1)
}

fn dec(x: i32) -> i32 {
    x.wrapping_sub(1)
}

fn standard_pools() -> Pools<fn(i32) -> i32> {
    let mut pools: Pools<fn(i32) -> i32> = Pools::new();
    pools.add_pool('+', inc);
    pools.add_pool('-', dec);
    pools
}

fn run_source(src: &str) -> Memory {
    let tree = parse(src.to_string());
    let program = interpret(tree);
    let mut memory = Memory::new();
    let mut pools = standard_pools();
    let outcome = execute(&mut memory, &mut pools, &program, STEPS);
    assert!(outcome.is_ok());
    memory
}

#[test]
fn mod_simple() {
    let mut memory = Memory::new();
    let mut pools = standard_pools();

    let program = e::new_closure(vec![e::new_instruction(0, '+'), e::new_exec()]);

    assert_eq!(memory.read(0), 0);
    execute(&mut memory, &mut pools, &program, STEPS).unwrap();
    assert_eq!(memory.read(0), 1);
}

#[test]
fn mod_toggle_index() {
    let mut memory = Memory::new();
    let mut pools = standard_pools();

    let program = e::new_closure(vec![
        e::new_instruction(0, '+'),
        e::new_instruction(0, '+'),
        e::new_instruction(1, '+'),
        e::new_exec(),
    ]);

    assert_eq!(memory.read(0), 0);
    assert_eq!(memory.read(1), 0);
    execute(&mut memory, &mut pools, &program, STEPS).unwrap();
    assert_eq!(memory.read(0), 0);
    assert_eq!(memory.read(1), 1);
}

#[test]
fn mod_simple_loop() {
    let mut memory = Memory::new();
    let mut pools = standard_pools();

    let program = e::new_closure(vec![
        e::new_instruction(0, '+'),
        e::new_exec(),
        e::new_exec(),
        e::new_exec(),
        e::new_instruction(0, '+'),
        e::new_instruction(0, '-'),
        e::new_instruction(1, '+'),
        e::new_loop(
            vec![e::new_guard(0, false)],
            e::new_closure(vec![e::new_exec()]),
        ),
    ]);

    execute(&mut memory, &mut pools, &program, STEPS).unwrap();
    assert_eq!(memory.read(0), 0);
    assert_eq!(memory.read(1), 3);
}

#[test]
fn mod_negated_loop() {
    let mut memory = Memory::new();
    let mut pools = standard_pools();

    let program = e::new_closure(vec![
        e::new_instruction(0, '+'),
        e::new_exec(),
        e::new_exec(),
        e::new_exec(),
        e::new_instruction(0, '+'),
        e::new_instruction(0, '-'),
        e::new_instruction(1, '+'),
        e::new_loop(
            vec![e::new_guard(0, false), e::new_guard(1, true)],
            e::new_closure(vec![e::new_exec()]),
        ),
    ]);

    execute(&mut memory, &mut pools, &program, STEPS).unwrap();
    assert_eq!(memory.read(0), 2);
    assert_eq!(memory.read(1), 1);
}

#[test]
fn mod_nested_loop() {
    let mut memory = Memory::new();
    let mut pools = standard_pools();

    let program = e::new_closure(vec![
        e::new_instruction(1, '+'),
        e::new_exec(),
        e::new_exec(),
        e::new_exec(),
        e::new_instruction(1, '+'),
        e::new_loop(
            vec![e::new_guard(1, false)],
            e::new_closure(vec![
                e::new_instruction(1, '-'),
                e::new_exec(),
                e::new_instruction(1, '-'),
                e::new_instruction(2, '+'),
                e::new_exec(),
                e::new_exec(),
                e::new_exec(),
                e::new_instruction(2, '+'),
                e::new_instruction(2, '-'),
                e::new_loop(
                    vec![e::new_guard(2, false)],
                    e::new_closure(vec![
                        e::new_instruction(0, '+'),
                        e::new_exec(),
                        e::new_instruction(0, '+'),
                    ]),
                ),
                e::new_instruction(2, '-'),
            ]),
        ),
    ]);

    execute(&mut memory, &mut pools, &program, STEPS).unwrap();
    assert_eq!(memory.read(0), 9);
    assert_eq!(memory.read(1), 0);
    assert_eq!(memory.read(2), 0);
}

#[test]
fn scenario_single_increment() {
    let memory = run_source("0+;");
    assert_eq!(memory.read(0), 1);
}

#[test]
fn scenario_toggle_pair() {
    let memory = run_source("0+0+1+;");
    assert_eq!(memory.read(0), 0);
    assert_eq!(memory.read(1), 1);
}

#[test]
fn scenario_counting_loop() {
    let memory = run_source("0+;;;0+0-1+{0|;}");
    assert_eq!(memory.read(0), 0);
    assert_eq!(memory.read(1), 3);
}

#[test]
fn scenario_negated_guard_loop() {
    let memory = run_source("0+;;;0+0-1+{0,!1|;}");
    assert_eq!(memory.read(0), 2);
    assert_eq!(memory.read(1), 1);
}

#[test]
fn scenario_multiplication() {
    let memory = run_source("0+1+;;;0+;1+{0|0-;0-2+1-{1|;}2+1-2-1+3+{2|;}2-1+3+}");
    assert_eq!(memory.read(1), 4);
    assert_eq!(memory.read(3), 12);
    assert_eq!(memory.read(0), 0);
    assert_eq!(memory.read(2), 0);
}

#[test]
fn unknown_pool_aborts_execution() {
    let mut memory = Memory::new();
    let mut pools = standard_pools();

    let program = e::new_closure(vec![e::new_instruction(0, 'x'), e::new_exec()]);

    let outcome = execute(&mut memory, &mut pools, &program, STEPS);
    assert_eq!(outcome, Err(ExecError::UnknownPool { identifier: 'x' }));
}

#[test]
fn empty_guard_list_exhausts_budget() {
    let mut memory = Memory::new();
    let mut pools = standard_pools();

    let program = e::new_closure(vec![e::new_loop(vec![], e::new_closure(vec![]))]);

    let outcome = execute(&mut memory, &mut pools, &program, 1000);
    assert_eq!(outcome, Err(ExecError::OutOfSteps));
}

#[test]
fn guard_negation_is_complement() {
    // The loop with the unnegated guard on an absent slot (reads 0) never
    // runs its body; with the negated guard it runs until the body makes
    // the slot nonzero.
    let mut memory = Memory::new();
    let mut pools = standard_pools();

    let unnegated = vec![e::new_guard(5, false)];
    let body = e::new_closure(vec![
        e::new_instruction(5, '+'),
        e::new_exec(),
        e::new_instruction(5, '+'),
    ]);
    let outcome = run_loop(&mut memory, &mut pools, &unnegated, &body, STEPS);
    assert!(outcome.is_ok());
    assert_eq!(memory.read(5), 0);

    let negated = vec![e::new_guard(5, true)];
    let outcome = run_loop(&mut memory, &mut pools, &negated, &body, STEPS);
    assert!(outcome.is_ok());
    assert_eq!(memory.read(5), 1);
}

#[test]
fn loop_exits_when_slot_reaches_zero() {
    let mut memory = Memory::new();
    let mut pools = standard_pools();
    memory.write(6, 3);

    // Each pass decrements slot 6 once; the loop exits exactly when the
    // slot reads 0.
    let guards = vec![e::new_guard(6, false)];
    let body = e::new_closure(vec![
        e::new_instruction(6, '-'),
        e::new_exec(),
        e::new_instruction(6, '-'),
    ]);
    let outcome = run_loop(&mut memory, &mut pools, &guards, &body, STEPS);
    assert!(outcome.is_ok());
    assert_eq!(memory.read(6), 0);
}

#[test]
fn fallback_index_program_runs() {
    let memory = run_source("+;");
    assert_eq!(memory.read(0), 1);
}

#[test]
fn append_composes_incrementally() {
    let mut session: lagoon::Lagoon<fn(i32) -> i32> = lagoon::Lagoon::new();
    session.pools.add_pool('+', inc);
    session.pools.add_pool('-', dec);
    session.append("0+".to_string());
    session.append(";1+;".to_string());
    let outcome = execute(
        &mut session.memory,
        &mut session.pools,
        &session.code,
        STEPS,
    );
    assert!(outcome.is_ok());
    assert_eq!(session.memory.read(0), 2);
    assert_eq!(session.memory.read(1), 1);
}

#[test]
fn lagoon_session_starts_empty() {
    let lagoon: lagoon::Lagoon<fn(i32) -> i32> = lagoon::Lagoon::new();
    let mut memory = lagoon.memory;
    let mut pools = lagoon.pools;
    let code = lagoon.code;
    assert_eq!(memory.read(0), 0);
    let outcome = execute(&mut memory, &mut pools, &code, STEPS);
    assert_eq!(outcome, Ok(STEPS));
    assert!(!memory.contains(0));
}
