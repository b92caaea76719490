use calyx::graph::GraphAnalysis;
use calyx::ir::Assignment;
use calyx::ir::Direction;
use calyx::ir::Guard;
use calyx::ir::Port;
use calyx::ir::PortId;
use calyx::errors::IrError;

fn port(cell: usize, idx: usize, parent: &str, name: &str, dir: Direction) -> Port {
    Port {
        id: PortId { cell, port: idx },
        parent: parent.to_string(),
        name: name.to_string(),
        width: 32,
        direction: dir,
    }
}

fn wire(src: &Port, dst: &Port) -> Assignment {
    Assignment { dst: dst.clone(), src: src.clone(), guard: None }
}

fn names(mut it: calyx::graph::PortIterator) -> Vec<(String, String)> {
    let mut out = Vec::new();
    while let Some(p) = it.next() {
        out.push((p.parent.clone(), p.name.clone()));
    }
    out
}

#[test]
fn guarded_assignment_contributes_one_node_per_port_and_all_edges() {
    // c.in = g.done & b.done ? a.out
    let a_out = port(1, 0, "a", "out", Direction::Output);
    let c_in = port(2, 0, "c", "in", Direction::Input);
    let g_done = port(3, 0, "g", "done", Direction::Output);
    let b_done = port(4, 0, "b", "done", Direction::Output);
    let asgn = Assignment {
        dst: c_in.clone(),
        src: a_out.clone(),
        guard: Some(Guard::And(
            Box::new(Guard::Port(g_done.clone())),
            Box::new(Guard::Port(b_done.clone())),
        )),
    };
    let mut g = GraphAnalysis::new();
    g.insert_assignment(&asgn);
    // one node per referenced port, 1 + 2 edges, in insertion order
    let dump = g.to_string();
    assert_eq!(
        dump,
        "a.out -> [c.in]\nc.in -> []\ng.done -> [c.in]\nb.done -> [c.in]\n"
    );
    assert_eq!(names(g.reads_from(&a_out)), vec![("c".to_string(), "in".to_string())]);
    let writers = names(g.writes_to(&c_in));
    assert_eq!(writers.len(), 3);
    assert!(writers.contains(&("a".to_string(), "out".to_string())));
    assert!(writers.contains(&("g".to_string(), "done".to_string())));
    assert!(writers.contains(&("b".to_string(), "done".to_string())));
}

#[test]
fn reads_from_empty_for_input_and_writes_to_empty_for_output() {
    let a_out = port(1, 0, "a", "out", Direction::Output);
    let c_in = port(2, 0, "c", "in", Direction::Input);
    let mut g = GraphAnalysis::new();
    g.insert_assignment(&wire(&a_out, &c_in));
    // an input port reads from nothing; an output port is written by nothing
    assert_eq!(names(g.reads_from(&c_in)), Vec::<(String, String)>::new());
    assert_eq!(names(g.writes_to(&a_out)), Vec::<(String, String)>::new());
    // and the edge is visible from both ends
    assert_eq!(names(g.reads_from(&a_out)).len(), 1);
    assert_eq!(names(g.writes_to(&c_in)).len(), 1);
}

#[test]
fn toposort_orders_sources_before_destinations() {
    let a = port(1, 0, "a", "out", Direction::Output);
    let b_in = port(2, 0, "b", "in", Direction::Inout);
    let c_in = port(3, 0, "c", "in", Direction::Input);
    let mut g = GraphAnalysis::new();
    g.insert_assignment(&wire(&a, &b_in));
    g.insert_assignment(&wire(&b_in, &c_in));
    assert!(!g.has_cycles());
    let order = g.toposort().unwrap().collect();
    let pos = |cell: &str, name: &str| {
        order
            .iter()
            .position(|p| p.parent == cell && p.name == name)
            .unwrap()
    };
    assert_eq!(order.len(), 3);
    assert!(pos("a", "out") < pos("b", "in"));
    assert!(pos("b", "in") < pos("c", "in"));
}

#[test]
fn toposort_fails_exactly_when_cyclic() {
    let x = port(1, 0, "x", "io", Direction::Inout);
    let y = port(2, 0, "y", "io", Direction::Inout);
    let mut g = GraphAnalysis::new();
    g.insert_assignment(&wire(&x, &y));
    g.insert_assignment(&wire(&y, &x));
    assert!(g.has_cycles());
    match g.toposort() {
        Err(e) => assert_eq!(e, IrError::CyclicGraph),
        Ok(_) => panic!("toposort succeeded on a cyclic graph"),
    }
}

#[test]
fn paths_enumerates_both_branches_of_a_diamond() {
    let a = port(1, 0, "a", "o", Direction::Output);
    let b = port(2, 0, "b", "io", Direction::Inout);
    let c = port(3, 0, "c", "io", Direction::Inout);
    let d = port(4, 0, "d", "i", Direction::Input);
    let mut g = GraphAnalysis::new();
    g.insert_assignment(&wire(&a, &b));
    g.insert_assignment(&wire(&a, &c));
    g.insert_assignment(&wire(&b, &d));
    g.insert_assignment(&wire(&c, &d));
    let ps = g.paths(&a, &d);
    assert_eq!(ps.len(), 2);
    let mut labels: Vec<Vec<String>> = ps
        .iter()
        .map(|p| p.iter().map(|q| q.parent.clone()).collect())
        .collect();
    labels.sort();
    assert_eq!(
        labels,
        vec![
            vec!["a".to_string(), "b".to_string(), "d".to_string()],
            vec!["a".to_string(), "c".to_string(), "d".to_string()],
        ]
    );
}

#[test]
fn paths_from_a_port_to_itself_yields_no_nontrivial_path() {
    let a = port(1, 0, "a", "io", Direction::Inout);
    let b = port(2, 0, "b", "io", Direction::Inout);
    let mut g = GraphAnalysis::new();
    g.insert_assignment(&wire(&a, &b));
    g.insert_assignment(&wire(&b, &a));
    // even through a cycle, no simple path returns to its start
    assert_eq!(g.paths(&a, &a).len(), 0);
}

#[test]
fn add_edges_augments_and_rejects_unknown_ports() {
    let a = port(1, 0, "a", "o", Direction::Output);
    let b = port(2, 0, "b", "i", Direction::Input);
    let stranger = port(9, 0, "z", "q", Direction::Output);
    let mut g = GraphAnalysis::new();
    g.insert_assignment(&wire(&a, &b));
    let g2 = g.add_edges(&vec![(b.clone(), a.clone())]).unwrap();
    assert!(g2.has_cycles());
    let g3 = GraphAnalysis::new();
    assert!(matches!(
        g3.add_edges(&vec![(stranger.clone(), stranger.clone())]),
        Err(IrError::UndefinedReference)
    ));
}

#[test]
fn subgraph_and_isolated_vertex_removal_are_consistent() {
    let a = port(1, 0, "a", "o", Direction::Output);
    let b = port(2, 0, "b", "io", Direction::Inout);
    let c = port(3, 0, "c", "i", Direction::Input);
    let mut g = GraphAnalysis::new();
    g.insert_assignment(&wire(&a, &b));
    g.insert_assignment(&wire(&b, &c));
    // keep only edges out of a: b -> c disappears, c becomes isolated
    let sub = g.edge_induced_subgraph(|s: &Port, _d: &Port| s.parent == "a");
    let pruned = sub.remove_isolated_vertices();
    let once = pruned.to_string();
    assert_eq!(once, "a.o -> [b.io]\nb.io -> []\n");
    // applying the pruning twice yields the same graph as applying it once
    let again = pruned.remove_isolated_vertices().to_string();
    assert_eq!(again, once);
}

#[test]
fn empty_port_iterator_yields_nothing() {
    let mut it = calyx::graph::PortIterator::empty();
    assert!(it.next().is_none());
}
