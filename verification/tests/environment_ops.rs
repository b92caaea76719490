use calyx::environment::Environment;
use calyx::environment::state_merger;
use calyx::errors::IrError;
use calyx::ir::PortId;

fn pid(cell: usize, port: usize) -> PortId {
    PortId { cell, port }
}

#[test]
fn get_and_set_are_point_access() {
    let mut env = Environment::new();
    assert_eq!(env.get(pid(1, 0)), None);
    env.set(pid(1, 0), 42);
    assert_eq!(env.get(pid(1, 0)), Some(42));
    env.set(pid(1, 0), 7);
    assert_eq!(env.get(pid(1, 0)), Some(7));
    assert_eq!(env.clk(), 0);
}

#[test]
fn forked_branches_are_isolated_from_the_parent() {
    let mut env = Environment::new();
    env.set(pid(1, 0), 1);
    let mut branch = env.fork();
    branch.set(pid(2, 0), 9);
    assert_eq!(env.get(pid(2, 0)), None);
    assert_eq!(branch.get(pid(1, 0)), Some(1));
    assert_eq!(branch.get(pid(2, 0)), Some(9));
}

#[test]
fn merging_disjoint_writes_unions_pointwise() {
    let mut env = Environment::new();
    env.set(pid(0, 0), 5);
    let mut b1 = env.fork();
    let mut b2 = env.fork();
    b1.set(pid(1, 0), 1);
    b2.set(pid(2, 0), 2);
    let merged = state_merger(b1, b2).unwrap();
    assert_eq!(merged.get(pid(0, 0)), Some(5));
    assert_eq!(merged.get(pid(1, 0)), Some(1));
    assert_eq!(merged.get(pid(2, 0)), Some(2));
}

#[test]
fn merging_conflicting_writes_is_an_explicit_error() {
    let env = Environment::new();
    let mut b1 = env.fork();
    let mut b2 = env.fork();
    b1.set(pid(1, 0), 1);
    b2.set(pid(1, 0), 2);
    assert_eq!(state_merger(b1, b2).unwrap_err(), IrError::MergeConflict);
}

#[test]
fn merging_agreeing_writes_is_not_a_conflict() {
    let env = Environment::new();
    let mut b1 = env.fork();
    let mut b2 = env.fork();
    b1.set(pid(1, 0), 4);
    b2.set(pid(1, 0), 4);
    let merged = state_merger(b1, b2).unwrap();
    assert_eq!(merged.get(pid(1, 0)), Some(4));
}

#[test]
fn merged_clock_is_the_maximum_of_the_branches() {
    let env = Environment::new();
    let mut b1 = env.fork();
    let mut b2 = env.fork();
    b1.tick();
    b1.tick();
    b1.tick();
    b2.tick();
    let merged = state_merger(b1, b2).unwrap();
    assert_eq!(merged.clk(), 3);
}

#[test]
fn merge_is_commutative_over_a_common_fork_point() {
    let mut env = Environment::new();
    env.set(pid(0, 0), 5);
    let mut b1 = env.fork();
    let mut b2 = env.fork();
    b1.set(pid(1, 0), 1);
    b1.tick();
    b2.set(pid(2, 0), 2);
    let c1 = env.fork();
    let c2 = env.fork();
    let mut b1c = c1;
    let mut b2c = c2;
    b1c.set(pid(1, 0), 1);
    b1c.tick();
    b2c.set(pid(2, 0), 2);
    let m12 = state_merger(b1, b2).unwrap();
    let m21 = state_merger(b2c, b1c).unwrap();
    for p in [pid(0, 0), pid(1, 0), pid(2, 0)] {
        assert_eq!(m12.get(p), m21.get(p));
    }
    assert_eq!(m12.clk(), m21.clk());
}
