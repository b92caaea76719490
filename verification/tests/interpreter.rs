use calyx::component::Component;
use calyx::errors::IrError;
use calyx::fixpoint::interpret_group;
use calyx::interp::init_environment;
use calyx::interp::interpret_control;
use calyx::ir::Assignment;
use calyx::ir::CellKind;
use calyx::ir::Control;
use calyx::ir::Group;
use calyx::ir::Guard;
use calyx::ir::Port;
use calyx::ir::build_constant;
use calyx::ir::cell_from_signature;

fn new_comp() -> Component {
    Component::new("main".to_string(), &vec![])
}

fn add_const(comp: &mut Component, val: u64) -> Port {
    let id = comp.next_cell_id();
    let c = build_constant(id, val, 32);
    let out = c.ports[0].clone();
    comp.add_cell(c);
    out
}

fn add_sink(comp: &mut Component, name: &str) -> Port {
    let id = comp.next_cell_id();
    let c = cell_from_signature(
        id,
        name.to_string(),
        CellKind::Primitive,
        &vec![("in".to_string(), 32u64)],
        &vec![],
    );
    let p = c.ports[0].clone();
    comp.add_cell(c);
    p
}

fn wire(src: &Port, dst: &Port) -> Assignment {
    Assignment { dst: dst.clone(), src: src.clone(), guard: None }
}

fn group(name: &str, asgns: Vec<Assignment>) -> Group {
    Group { name: name.to_string(), assignments: asgns }
}

fn enable(name: &str) -> Control {
    Control::Enable(name.to_string())
}

#[test]
fn par_of_disjoint_groups_unions_their_writes() {
    // G1 asserts x = 1, G2 asserts y = 2; Par([Enable(G1), Enable(G2)])
    let mut comp = new_comp();
    let one = add_const(&mut comp, 1);
    let two = add_const(&mut comp, 2);
    let x = add_sink(&mut comp, "x");
    let y = add_sink(&mut comp, "y");
    comp.add_group(group("G1", vec![wire(&one, &x)]));
    comp.add_group(group("G2", vec![wire(&two, &y)]));
    let ctrl = Control::Par(vec![enable("G1"), enable("G2")]);
    let env = init_environment(&comp);
    let out = interpret_control(&ctrl, &comp.continuous_assignments, env, &comp).unwrap();
    assert_eq!(out.get(x.id), Some(1));
    assert_eq!(out.get(y.id), Some(2));
    // the clock is the maximum of the two branch clocks
    assert_eq!(out.clk(), 1);
}

#[test]
fn par_branches_writing_different_values_conflict() {
    let mut comp = new_comp();
    let one = add_const(&mut comp, 1);
    let two = add_const(&mut comp, 2);
    let x = add_sink(&mut comp, "x");
    comp.add_group(group("G1", vec![wire(&one, &x)]));
    comp.add_group(group("G2", vec![wire(&two, &x)]));
    let ctrl = Control::Par(vec![enable("G1"), enable("G2")]);
    let env = init_environment(&comp);
    let r = interpret_control(&ctrl, &comp.continuous_assignments, env, &comp);
    assert_eq!(r.unwrap_err(), IrError::MergeConflict);
}

fn if_component(cond_val: u64) -> (Component, Control, Port, Port) {
    let mut comp = new_comp();
    let cv = add_const(&mut comp, cond_val);
    let one = add_const(&mut comp, 1);
    let two = add_const(&mut comp, 2);
    let t = add_sink(&mut comp, "t");
    let x = add_sink(&mut comp, "x");
    let y = add_sink(&mut comp, "y");
    comp.add_group(group("Gc", vec![wire(&cv, &t)]));
    comp.add_group(group("G1", vec![wire(&one, &x)]));
    comp.add_group(group("G2", vec![wire(&two, &y)]));
    let ctrl = Control::If(
        t.clone(),
        "Gc".to_string(),
        Box::new(enable("G1")),
        Box::new(enable("G2")),
    );
    (comp, ctrl, x, y)
}

#[test]
fn if_with_zero_test_port_takes_the_false_branch() {
    let (comp, ctrl, x, y) = if_component(0);
    let env = init_environment(&comp);
    let out = interpret_control(&ctrl, &comp.continuous_assignments, env, &comp).unwrap();
    assert_eq!(out.get(x.id), Some(0));
    assert_eq!(out.get(y.id), Some(2));
}

#[test]
fn if_with_nonzero_test_port_takes_the_true_branch() {
    let (comp, ctrl, x, y) = if_component(5);
    let env = init_environment(&comp);
    let out = interpret_control(&ctrl, &comp.continuous_assignments, env, &comp).unwrap();
    assert_eq!(out.get(x.id), Some(1));
    assert_eq!(out.get(y.id), Some(0));
}

#[test]
fn empty_control_settles_the_continuous_assignments_once() {
    // continuous: c.in = const.out with constant value 7
    let mut comp = new_comp();
    let seven = add_const(&mut comp, 7);
    let c_in = add_sink(&mut comp, "c");
    comp.continuous_assignments.push(wire(&seven, &c_in));
    let env = init_environment(&comp);
    assert_eq!(env.get(c_in.id), Some(0));
    let out = interpret_control(&Control::Empty, &comp.continuous_assignments, env, &comp)
        .unwrap();
    assert_eq!(out.get(c_in.id), Some(7));
    // no group was ever enabled
    assert_eq!(out.clk(), 0);
}

#[test]
fn sequencing_two_enables_equals_running_them_one_after_the_other() {
    let mut comp = new_comp();
    let one = add_const(&mut comp, 1);
    let two = add_const(&mut comp, 2);
    let x = add_sink(&mut comp, "x");
    let y = add_sink(&mut comp, "y");
    comp.add_group(group("G1", vec![wire(&one, &x)]));
    comp.add_group(group("G2", vec![wire(&two, &y)]));
    let seq_ctrl = Control::Sequence(vec![enable("G1"), enable("G2")]);
    let env1 = init_environment(&comp);
    let composed = interpret_control(&seq_ctrl, &comp.continuous_assignments, env1, &comp)
        .unwrap();
    let env2 = init_environment(&comp);
    let after_a = interpret_control(&enable("G1"), &comp.continuous_assignments, env2, &comp)
        .unwrap();
    let after_b = interpret_control(&enable("G2"), &comp.continuous_assignments, after_a, &comp)
        .unwrap();
    assert_eq!(composed.get(x.id), after_b.get(x.id));
    assert_eq!(composed.get(y.id), after_b.get(y.id));
    assert_eq!(composed.clk(), after_b.clk());
}

#[test]
fn while_with_false_condition_never_runs_its_body() {
    let mut comp = new_comp();
    let zero = add_const(&mut comp, 0);
    let one = add_const(&mut comp, 1);
    let t = add_sink(&mut comp, "t");
    let x = add_sink(&mut comp, "x");
    comp.add_group(group("Gc", vec![wire(&zero, &t)]));
    comp.add_group(group("G1", vec![wire(&one, &x)]));
    let ctrl = Control::While(t.clone(), "Gc".to_string(), Box::new(enable("G1")));
    let env = init_environment(&comp);
    let out = interpret_control(&ctrl, &comp.continuous_assignments, env, &comp).unwrap();
    assert_eq!(out.get(x.id), Some(0));
}

#[test]
fn enabling_an_unknown_group_is_an_undefined_reference() {
    let comp = new_comp();
    let env = init_environment(&comp);
    let r = interpret_control(&enable("nope"), &comp.continuous_assignments, env, &comp);
    assert_eq!(r.unwrap_err(), IrError::UndefinedReference);
}

#[test]
fn invoke_is_reported_as_unsupported() {
    let comp = new_comp();
    let env = init_environment(&comp);
    let r = interpret_control(&Control::Invoke, &comp.continuous_assignments, env, &comp);
    assert_eq!(r.unwrap_err(), IrError::UnsupportedControl);
}

#[test]
fn par_interprets_every_child_before_merging() {
    // the third child's failure is returned unchanged, even though the
    // first two branches disagree on x: all children run before any merge
    let mut comp = new_comp();
    let one = add_const(&mut comp, 1);
    let two = add_const(&mut comp, 2);
    let x = add_sink(&mut comp, "x");
    comp.add_group(group("G1", vec![wire(&one, &x)]));
    comp.add_group(group("G2", vec![wire(&two, &x)]));
    let ctrl = Control::Par(vec![enable("G1"), enable("G2"), Control::Invoke]);
    let env = init_environment(&comp);
    let r = interpret_control(&ctrl, &comp.continuous_assignments, env, &comp);
    assert_eq!(r.unwrap_err(), IrError::UnsupportedControl);
}

#[test]
fn an_oscillating_group_fails_to_converge() {
    let mut comp = new_comp();
    let zero = add_const(&mut comp, 0);
    let one = add_const(&mut comp, 1);
    let x = add_sink(&mut comp, "x");
    let osc = group(
        "Gosc",
        vec![
            Assignment {
                dst: x.clone(),
                src: one.clone(),
                guard: Some(Guard::Not(Box::new(Guard::Port(x.clone())))),
            },
            Assignment {
                dst: x.clone(),
                src: zero.clone(),
                guard: Some(Guard::Port(x.clone())),
            },
        ],
    );
    comp.add_group(osc);
    let env = init_environment(&comp);
    let r = interpret_control(&enable("Gosc"), &comp.continuous_assignments, env, &comp);
    assert_eq!(r.unwrap_err(), IrError::NonConvergence);
}

#[test]
fn guard_comparisons_gate_assignments() {
    let mut comp = new_comp();
    let five = add_const(&mut comp, 5);
    let one = add_const(&mut comp, 1);
    let x = add_sink(&mut comp, "x");
    let y = add_sink(&mut comp, "y");
    let grp = group(
        "Gcmp",
        vec![
            // active: 5 > 1
            Assignment {
                dst: x.clone(),
                src: one.clone(),
                guard: Some(Guard::Gt(
                    Box::new(Guard::Port(five.clone())),
                    Box::new(Guard::Port(one.clone())),
                )),
            },
            // inactive: 5 < 1
            Assignment {
                dst: y.clone(),
                src: one.clone(),
                guard: Some(Guard::Lt(
                    Box::new(Guard::Port(five.clone())),
                    Box::new(Guard::Port(one.clone())),
                )),
            },
        ],
    );
    let env = init_environment(&comp);
    let out = interpret_group(&grp, &comp.continuous_assignments, env).unwrap();
    assert_eq!(out.get(x.id), Some(1));
    assert_eq!(out.get(y.id), Some(0));
    assert_eq!(out.clk(), 1);
}
