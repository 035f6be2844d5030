use lagoon::memory::Memory;
use lagoon::pool::{Pool, PoolError, Pools};

fn inc(x: i32) -> i32 {
    x.wrapping_add(1)
}

fn dec(x: i32) -> i32 {
    x.wrapping_sub(1)
}

#[test]
fn single_index() {
    let mut memory = Memory::new();
    let mut pool: Pool<fn(i32) -> i32> = Pool::new(inc);

    pool.add(0);
    pool.execute(&mut memory);

    assert_eq!(memory.read(0), 1);
}

#[test]
fn multiple_indices() {
    let mut memory = Memory::new();
    let mut pool: Pool<fn(i32) -> i32> = Pool::new(inc);

    pool.add(0);
    pool.add(2);
    pool.execute(&mut memory);

    assert_eq!(memory.read(0), 1);
    assert_eq!(memory.read(1), 0);
    assert_eq!(memory.read(2), 1);
}

#[test]
fn double_toggle() {
    let mut memory = Memory::new();
    let mut pool: Pool<fn(i32) -> i32> = Pool::new(inc);

    pool.toggle(0);
    pool.toggle(0);
    pool.execute(&mut memory);

    assert_eq!(memory.read(0), 0);
}

#[test]
fn single_index_each() {
    let mut memory = Memory::new();
    let mut pool_a: Pool<fn(i32) -> i32> = Pool::new(inc);
    let mut pool_b: Pool<fn(i32) -> i32> = Pool::new(inc);

    pool_a.add(0);
    pool_b.add(1);
    pool_a.execute(&mut memory);
    pool_b.execute(&mut memory);

    assert_eq!(memory.read(0), 1);
    assert_eq!(memory.read(1), 1);
}

#[test]
fn single_index_overlap() {
    let mut memory = Memory::new();
    let mut pool_a: Pool<fn(i32) -> i32> = Pool::new(inc);
    let mut pool_b: Pool<fn(i32) -> i32> = Pool::new(inc);

    pool_a.add(0);
    pool_b.add(0);
    pool_a.execute(&mut memory);
    pool_b.execute(&mut memory);

    assert_eq!(memory.read(0), 2);
}

#[test]
fn pool_multiple_indices() {
    let mut memory = Memory::new();
    let mut pool_a: Pool<fn(i32) -> i32> = Pool::new(inc);
    let mut pool_b: Pool<fn(i32) -> i32> = Pool::new(dec);

    pool_a.add(0);
    pool_a.add(1);
    pool_b.add(1);
    pool_b.add(2);
    pool_a.execute(&mut memory);
    pool_b.execute(&mut memory);

    assert_eq!(memory.read(0), 1);
    assert_eq!(memory.read(1), 0);
    assert_eq!(memory.read(2), -1);
}

#[test]
fn toggle_restores_membership() {
    let mut pool: Pool<fn(i32) -> i32> = Pool::new(inc);

    pool.add(3);
    assert!(pool.has(3));
    assert!(!pool.toggle(3));
    assert!(!pool.has(3));
    assert!(pool.toggle(3));
    assert!(pool.has(3));
}

#[test]
fn add_remove_report_change() {
    let mut pool: Pool<fn(i32) -> i32> = Pool::new(inc);

    assert!(pool.add(7));
    assert!(!pool.add(7));
    assert!(pool.has(7));
    assert!(pool.remove(7));
    assert!(!pool.remove(7));
    assert!(!pool.has(7));
}

#[test]
fn empty_pool_execute_is_noop() {
    let mut memory = Memory::new();
    memory.write(4, 11);
    let pool: Pool<fn(i32) -> i32> = Pool::new(inc);

    pool.execute(&mut memory);

    assert_eq!(memory.read(4), 11);
    assert_eq!(memory.read(0), 0);
    assert!(!memory.contains(0));
}

#[test]
fn get_pool_unknown_identifier() {
    let mut pools: Pools<fn(i32) -> i32> = Pools::new();
    pools.add_pool('+', inc);

    assert!(pools.get_pool('+').is_ok());
    assert_eq!(
        pools.get_pool('x').err(),
        Some(PoolError::UnknownPool { identifier: 'x' })
    );
}

#[test]
fn add_pool_overwrite_discards_membership() {
    let mut memory = Memory::new();
    let mut pools: Pools<fn(i32) -> i32> = Pools::new();
    pools.add_pool('+', inc);
    pools.toggle_member('+', 0).unwrap();
    pools.add_pool('+', inc);
    pools.execute(&mut memory);

    assert_eq!(memory.read(0), 0);
    assert!(!memory.contains(0));
}

#[test]
fn absent_index_reads_zero_without_entry() {
    let mut memory = Memory::new();

    assert_eq!(memory.read(9), 0);
    assert!(!memory.contains(9));
    memory.write(9, -3);
    assert_eq!(memory.read(9), -3);
    assert!(memory.contains(9));
}
