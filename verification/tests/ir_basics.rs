use calyx::component::Component;
use calyx::errors::IrError;
use calyx::ir::Cell;
use calyx::ir::CellKind;
use calyx::ir::Control;
use calyx::ir::Direction;
use calyx::ir::Guard;
use calyx::ir::Port;
use calyx::ir::PortId;
use calyx::ir::build_constant;
use calyx::ir::cell_from_signature;
use calyx::ir::u64_to_string;
use calyx::passes::LatencyInsensitive;

#[test]
fn decimal_rendering_is_exact() {
    assert_eq!(u64_to_string(0), "0");
    assert_eq!(u64_to_string(7), "7");
    assert_eq!(u64_to_string(12345), "12345");
    assert_eq!(u64_to_string(u64::MAX), "18446744073709551615");
}

#[test]
fn constant_cells_carry_their_value_in_their_name() {
    let c = build_constant(3, 7, 16);
    assert_eq!(c.name, "_7");
    assert_eq!(c.kind, CellKind::Constant(7));
    assert_eq!(c.ports.len(), 1);
    assert_eq!(c.ports[0].name, "out");
    assert_eq!(c.ports[0].width, 16);
    assert_eq!(c.ports[0].direction, Direction::Output);
    assert_eq!(c.ports[0].id, PortId { cell: 3, port: 0 });
}

#[test]
fn cell_from_signature_orders_inputs_before_outputs() {
    let c = cell_from_signature(
        2,
        "adder".to_string(),
        CellKind::Primitive,
        &vec![("lhs".to_string(), 32u64), ("rhs".to_string(), 32u64)],
        &vec![("sum".to_string(), 32u64)],
    );
    assert_eq!(c.ports.len(), 3);
    assert_eq!(c.ports[0].name, "lhs");
    assert_eq!(c.ports[1].name, "rhs");
    assert_eq!(c.ports[2].name, "sum");
    assert_eq!(c.ports[0].direction, Direction::Input);
    assert_eq!(c.ports[2].direction, Direction::Output);
    assert_eq!(c.ports[1].id, PortId { cell: 2, port: 1 });
    assert_eq!(c.ports[1].parent, "adder");
}

#[test]
fn direction_reversal_swaps_input_and_output() {
    assert_eq!(Direction::Input.reverse(), Direction::Output);
    assert_eq!(Direction::Output.reverse(), Direction::Input);
    assert_eq!(Direction::Inout.reverse(), Direction::Inout);
}

#[test]
fn component_signature_reverses_port_directions() {
    let comp = Component::new(
        "main".to_string(),
        &vec![
            ("go".to_string(), 1u64, Direction::Input),
            ("done".to_string(), 1u64, Direction::Output),
        ],
    );
    assert_eq!(comp.signature.ports.len(), 2);
    assert_eq!(comp.signature.ports[0].name, "go");
    assert_eq!(comp.signature.ports[0].direction, Direction::Output);
    assert_eq!(comp.signature.ports[1].direction, Direction::Input);
    assert!(matches!(comp.control, Control::Empty));
}

#[test]
fn port_key_pairs_parent_and_name() {
    let p = Port {
        id: PortId { cell: 4, port: 2 },
        parent: "reg".to_string(),
        name: "done".to_string(),
        width: 1,
        direction: Direction::Output,
    };
    assert_eq!(p.key(), ("reg".to_string(), "done".to_string()));
    assert_eq!(p.get_parent_name(), "reg");
}

#[test]
fn guard_all_ports_lists_leaf_occurrences_in_order() {
    let p1 = Port {
        id: PortId { cell: 1, port: 0 },
        parent: "a".to_string(),
        name: "o".to_string(),
        width: 1,
        direction: Direction::Output,
    };
    let p2 = Port {
        id: PortId { cell: 2, port: 0 },
        parent: "b".to_string(),
        name: "o".to_string(),
        width: 1,
        direction: Direction::Output,
    };
    let g = Guard::Or(
        Box::new(Guard::Eq(
            Box::new(Guard::Port(p1.clone())),
            Box::new(Guard::Port(p2.clone())),
        )),
        Box::new(Guard::Not(Box::new(Guard::Port(p1.clone())))),
    );
    let ports = g.all_ports();
    let ids: Vec<PortId> = ports.iter().map(|p| p.id).collect();
    assert_eq!(ids, vec![p1.id, p2.id, p1.id]);
}

fn named_cell(id: usize, name: &str) -> Cell {
    cell_from_signature(
        id,
        name.to_string(),
        CellKind::Primitive,
        &vec![("in".to_string(), 1u64)],
        &vec![],
    )
}

#[test]
fn find_and_retain_and_drain_cells() {
    let mut comp = Component::new("main".to_string(), &vec![]);
    let a = named_cell(comp.next_cell_id(), "a");
    comp.add_cell(a);
    let b = named_cell(comp.next_cell_id(), "b");
    comp.add_cell(b);
    assert!(comp.find_cell(&"a".to_string()).is_some());
    assert!(comp.find_cell(&"z".to_string()).is_none());
    comp.retain_cells(|c: &Cell| c.name == "b");
    assert!(comp.find_cell(&"a".to_string()).is_none());
    assert!(comp.find_cell(&"b".to_string()).is_some());
    let drained = comp.drain_cells();
    assert_eq!(drained.len(), 1);
    assert_eq!(drained[0].name, "b");
    assert_eq!(comp.iter_cells().len(), 0);
}

#[test]
fn add_cells_appends_in_order() {
    let mut comp = Component::new("main".to_string(), &vec![]);
    let first = comp.next_cell_id();
    let cells = vec![named_cell(first, "a"), named_cell(first + 1, "b")];
    comp.add_cells(cells);
    assert_eq!(comp.iter_cells().len(), 2);
    assert_eq!(comp.iter_cells()[0].name, "a");
    assert_eq!(comp.iter_cells()[1].name, "b");
}

#[test]
fn groups_are_found_by_name_and_cleared() {
    let mut comp = Component::new("main".to_string(), &vec![]);
    comp.add_group(calyx::ir::Group { name: "g".to_string(), assignments: vec![] });
    assert!(comp.find_group(&"g".to_string()).is_some());
    assert!(comp.find_group(&"h".to_string()).is_none());
    assert_eq!(comp.iter_groups().len(), 1);
    comp.clear_groups();
    assert_eq!(comp.iter_groups().len(), 0);
}

#[test]
fn generated_names_append_the_counter() {
    let mut comp = Component::new("main".to_string(), &vec![]);
    assert_eq!(comp.generate_name("t"), "t0");
    assert_eq!(comp.generate_name("t"), "t1");
    assert_eq!(comp.generate_name("u"), "u2");
}

#[test]
fn latency_insensitive_pass_adds_the_interface_once() {
    let mut comp = Component::new("main".to_string(), &vec![]);
    let pass = LatencyInsensitive {};
    pass.start(&mut comp);
    let shaped = |name: &str| {
        comp.signature
            .ports
            .iter()
            .find(|p| p.name == name)
            .map(|p| (p.width, p.direction))
    };
    // the two inputs appear inside the component as outputs, the output as
    // an input, all one bit wide
    assert_eq!(shaped("valid"), Some((1, Direction::Output)));
    assert_eq!(shaped("clk"), Some((1, Direction::Output)));
    assert_eq!(shaped("ready"), Some((1, Direction::Input)));
    let before: Vec<String> = comp.signature.ports.iter().map(|p| p.name.clone()).collect();
    pass.start(&mut comp);
    let after: Vec<String> = comp.signature.ports.iter().map(|p| p.name.clone()).collect();
    assert_eq!(after, before);
    assert_eq!(LatencyInsensitive::name(), "latency-insensitive");
    assert!(!LatencyInsensitive::description().is_empty());
}

#[test]
fn errors_describe_themselves() {
    for e in [
        IrError::UndefinedReference,
        IrError::CyclicGraph,
        IrError::MergeConflict,
        IrError::NonConvergence,
        IrError::UnsupportedControl,
    ] {
        assert!(!e.message().is_empty());
    }
    assert_eq!(IrError::CyclicGraph, IrError::CyclicGraph);
    assert_ne!(IrError::CyclicGraph, IrError::MergeConflict);
}

#[test]
fn control_constructors_build_the_matching_variants() {
    assert!(matches!(Control::empty(), Control::Empty));
    assert!(matches!(Control::enable("g".to_string()), Control::Enable(_)));
    assert!(matches!(Control::sequence(vec![]), Control::Sequence(_)));
    assert!(matches!(Control::par(vec![]), Control::Par(_)));
}
