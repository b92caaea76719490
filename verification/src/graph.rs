//! Dependency-graph analysis over ports.
//!
//! Every assignment `dst = guard ? src` contributes a node for each port it
//! references, an edge `src -> dst`, and an edge `guard-port -> dst` for
//! every port read inside the guard.  Nodes are held in first-insertion
//! order and deduplicated by port identity; edges are pairs of node indices
//! and may repeat.
//!
//! Cycle detection, topological ordering and simple-path enumeration are
//! delegated to petgraph; everything this module states about them is proved
//! from the contracts of the three wrappers below.

use vstd::prelude::*;

use petgraph::algo;
use petgraph::graph::DiGraph;
use petgraph::graph::NodeIndex;

use crate::errors::IrError;
use crate::ir::Assignment;
use crate::ir::Port;
use crate::ir::PortId;

verus! {

/// Every edge's endpoints are valid indices into a node list of length `n`.
pub open spec fn edges_ok(es: Seq<(usize, usize)>, n: nat) -> bool {
    forall|k: int| 0 <= k < es.len() ==> (#[trigger] es[k]).0 < n && es[k].1 < n
}

/// Some edge equals `(a, b)`.
pub open spec fn edge_in(es: Seq<(usize, usize)>, a: usize, b: usize) -> bool {
    exists|k: int| 0 <= k < es.len() && #[trigger] es[k] == (a, b)
}

/// `c` walks along edges and returns to its starting node.
pub open spec fn is_cycle(es: Seq<(usize, usize)>, c: Seq<usize>) -> bool {
    &&& c.len() >= 2
    &&& c[0] == c[c.len() - 1]
    &&& forall|i: int| 0 <= i < c.len() - 1 ==> edge_in(es, #[trigger] c[i], c[i + 1])
}

/// The edge list contains a directed cycle.
pub open spec fn has_cycle(es: Seq<(usize, usize)>) -> bool {
    exists|c: Seq<usize>| #[trigger] is_cycle(es, c)
}

/// `ord` lists every node index below `n` exactly once, and each node comes
/// before its successors.
pub open spec fn is_topo_order(ord: Seq<usize>, n: nat, es: Seq<(usize, usize)>) -> bool {
    &&& ord.len() == n
    &&& forall|i: int| 0 <= i < ord.len() ==> (#[trigger] ord[i]) < n
    &&& forall|v: usize| v < n ==> ord.contains(v)
    &&& forall|i: int, j: int| 0 <= i < j < ord.len() ==> (#[trigger] ord[i]) != (#[trigger] ord[j])
    &&& forall|k: int, i: int, j: int|
        0 <= k < es.len() && 0 <= i < ord.len() && 0 <= j < ord.len() && (#[trigger] es[k]).0 == (
        #[trigger] ord[i]) && es[k].1 == (#[trigger] ord[j]) ==> i < j
}

/// `p` is a directed path from `a` to `b` along edges that visits no node
/// twice.
pub open spec fn is_simple_path(
    n: nat,
    es: Seq<(usize, usize)>,
    a: usize,
    b: usize,
    p: Seq<usize>,
) -> bool {
    &&& p.len() >= 2
    &&& p[0] == a
    &&& p[p.len() - 1] == b
    &&& forall|i: int| 0 <= i < p.len() ==> (#[trigger] p[i]) < n
    &&& forall|i: int, j: int| 0 <= i < j < p.len() ==> (#[trigger] p[i]) != (#[trigger] p[j])
    &&& forall|i: int| 0 <= i < p.len() - 1 ==> edge_in(es, #[trigger] p[i], p[i + 1])
}

/// Relies on `petgraph::algo::toposort`: on the graph with nodes `0..n` and
/// the given edges it returns the nodes in a topological order — each node
/// ordered before its successors — exactly when the graph is acyclic, and
/// reports a cycle otherwise.  The node and edge counts stay below the
/// graph's `u32` index maximum, at which its builders would fail.
#[verifier::external_body]
fn petgraph_toposort(n: usize, edges: &Vec<(usize, usize)>) -> (r: Option<Vec<usize>>)
    requires
        edges_ok(edges@, n as nat),
        n < u32::MAX as usize,
        edges@.len() < u32::MAX as usize,
    ensures
        match r {
            Option::Some(ord) => is_topo_order(ord@, n as nat, edges@) && !has_cycle(edges@),
            Option::None => has_cycle(edges@),
        },
{
    let mut g = DiGraph::<(), ()>::new();
    let mut i: usize = 0;
    while i < n {
        g.add_node(());
        i += 1;
    }
    let mut k: usize = 0;
    while k < edges.len() {
        g.add_edge(NodeIndex::new(edges[k].0), NodeIndex::new(edges[k].1), ());
        k += 1;
    }
    match algo::toposort(&g, None) {
        Ok(ord) => Some(ord.into_iter().map(|x| x.index()).collect()),
        Err(_) => None,
    }
}

/// Relies on `petgraph::algo::is_cyclic_directed`: true exactly when the
/// graph with nodes `0..n` and the given edges contains a directed cycle.
/// The node and edge counts stay below the graph's `u32` index maximum, at
/// which its builders would fail.
#[verifier::external_body]
fn petgraph_is_cyclic(n: usize, edges: &Vec<(usize, usize)>) -> (r: bool)
    requires
        edges_ok(edges@, n as nat),
        n < u32::MAX as usize,
        edges@.len() < u32::MAX as usize,
    ensures
        r == has_cycle(edges@),
{
    let mut g = DiGraph::<(), ()>::new();
    let mut i: usize = 0;
    while i < n {
        g.add_node(());
        i += 1;
    }
    let mut k: usize = 0;
    while k < edges.len() {
        g.add_edge(NodeIndex::new(edges[k].0), NodeIndex::new(edges[k].1), ());
        k += 1;
    }
    algo::is_cyclic_directed(&g)
}

/// Relies on `petgraph::algo::all_simple_paths`: on the graph with nodes
/// `0..n` and the given edges it enumerates the simple directed paths from
/// `from` to `to` — every path it yields is simple, and every simple path
/// appears (possibly more than once when parallel edges repeat it).  The
/// node and edge counts stay below the graph's `u32` index maximum, at
/// which its builders would fail.
#[verifier::external_body]
fn petgraph_simple_paths(n: usize, edges: &Vec<(usize, usize)>, from: usize, to: usize) -> (r:
    Vec<Vec<usize>>)
    requires
        edges_ok(edges@, n as nat),
        n < u32::MAX as usize,
        edges@.len() < u32::MAX as usize,
        from < n,
        to < n,
    ensures
        forall|i: int|
            0 <= i < r@.len() ==> is_simple_path(n as nat, edges@, from, to, (#[trigger] r@[i])@),
        forall|p: Seq<usize>|
            is_simple_path(n as nat, edges@, from, to, p) ==> exists|i: int|
                0 <= i < r@.len() && (#[trigger] r@[i])@ == p,
{
    let mut g = DiGraph::<(), ()>::new();
    let mut i: usize = 0;
    while i < n {
        g.add_node(());
        i += 1;
    }
    let mut k: usize = 0;
    while k < edges.len() {
        g.add_edge(NodeIndex::new(edges[k].0), NodeIndex::new(edges[k].1), ());
        k += 1;
    }
    let it = algo::all_simple_paths::<Vec<NodeIndex>, _, std::collections::hash_map::RandomState>(
        &g, NodeIndex::new(from), NodeIndex::new(to), 0, None);
    it.map(|p| p.into_iter().map(|x| x.index()).collect()).collect()
}

/// Some node in `ns` carries the identity `id`.
pub open spec fn contains_id(ns: Seq<Port>, id: PortId) -> bool {
    exists|i: int| 0 <= i < ns.len() && (#[trigger] ns[i]).id == id
}

/// No two nodes share a port identity.
pub open spec fn distinct_ids(ns: Seq<Port>) -> bool {
    forall|i: int, j: int| 0 <= i < j < ns.len() ==> (#[trigger] ns[i]).id != (#[trigger] ns[j]).id
}

/// The index of the first node carrying `id`.
pub open spec fn id_index(ns: Seq<Port>, id: PortId) -> int
    decreases ns.len(),
{
    if ns.len() == 0 {
        0
    } else if ns[0].id == id {
        0
    } else {
        1 + id_index(ns.drop_first(), id)
    }
}

/// `id_index` points at the first occurrence of a present identity.
pub proof fn lemma_id_index(ns: Seq<Port>, id: PortId)
    requires
        contains_id(ns, id),
    ensures
        0 <= id_index(ns, id) < ns.len(),
        ns[id_index(ns, id)].id == id,
        forall|k: int| 0 <= k < id_index(ns, id) ==> (#[trigger] ns[k]).id != id,
    decreases ns.len(),
{
    if ns.len() > 0 && ns[0].id != id {
        let i = choose|i: int| 0 <= i < ns.len() && (#[trigger] ns[i]).id == id;
        assert(ns.drop_first()[i - 1].id == id);
        lemma_id_index(ns.drop_first(), id);
        assert forall|k: int| 0 <= k < id_index(ns, id) implies (#[trigger] ns[k]).id != id by {
            if k > 0 {
                assert(ns.drop_first()[k - 1].id != id);
            }
        }
    }
}

/// Appending nodes does not move the first occurrence of a present identity.
pub proof fn lemma_id_index_push(ns: Seq<Port>, id: PortId, p: Port)
    requires
        contains_id(ns, id),
    ensures
        contains_id(ns.push(p), id),
        id_index(ns.push(p), id) == id_index(ns, id),
    decreases ns.len(),
{
    let i = choose|i: int| 0 <= i < ns.len() && (#[trigger] ns[i]).id == id;
    assert(ns.push(p)[i].id == id);
    if ns.len() > 0 && ns[0].id != id {
        assert(ns.drop_first()[i - 1].id == id);
        lemma_id_index_push(ns.drop_first(), id, p);
        assert(ns.push(p).drop_first() =~= ns.drop_first().push(p));
    }
}

/// Adding a port as a node: appended when its identity is new, ignored when
/// a node already carries it.
pub open spec fn add_node_spec(ns: Seq<Port>, p: Port) -> Seq<Port> {
    if contains_id(ns, p.id) {
        ns
    } else {
        ns.push(p)
    }
}

/// Adding a list of ports as nodes, leftmost first.
pub open spec fn add_ports_spec(ns: Seq<Port>, ps: Seq<Port>) -> Seq<Port>
    decreases ps.len(),
{
    if ps.len() == 0 {
        ns
    } else {
        add_node_spec(add_ports_spec(ns, ps.drop_last()), ps.last())
    }
}

/// The nodes contributed by one assignment: source, destination, then every
/// guard port.
pub open spec fn insert_nodes_spec(ns: Seq<Port>, a: Assignment) -> Seq<Port> {
    add_ports_spec(add_node_spec(add_node_spec(ns, a.src), a.dst), a.guard_ports())
}

/// The nodes of the graph of a list of assignments.
pub open spec fn build_nodes_spec(ns: Seq<Port>, asgns: Seq<Assignment>) -> Seq<Port>
    decreases asgns.len(),
{
    if asgns.len() == 0 {
        ns
    } else {
        insert_nodes_spec(build_nodes_spec(ns, asgns.drop_last()), asgns.last())
    }
}

/// How many edges a list of assignments contributes: one per assignment plus
/// one per guard port.
pub open spec fn edge_count_spec(asgns: Seq<Assignment>) -> nat
    decreases asgns.len(),
{
    if asgns.len() == 0 {
        0
    } else {
        edge_count_spec(asgns.drop_last()) + 1 + asgns.last().guard_ports().len()
    }
}

/// The edges one assignment's guard contributes, given the node list `nsa`
/// as it stands once the assignment's ports are inserted: one edge from
/// each guard port to the destination index `di`, in guard order.
pub open spec fn guard_edges_spec(nsa: Seq<Port>, ps: Seq<Port>, di: usize) -> Seq<(usize, usize)>
    decreases ps.len(),
{
    if ps.len() == 0 {
        Seq::empty()
    } else {
        guard_edges_spec(nsa, ps.drop_last(), di).push(
            (id_index(nsa, ps.last().id) as usize, di),
        )
    }
}

/// The edges one assignment contributes, given the node list `nsa` as it
/// stands once the assignment's ports are inserted: source to destination,
/// then one edge per guard port.
pub open spec fn asgn_edges_spec(nsa: Seq<Port>, a: Assignment) -> Seq<(usize, usize)> {
    seq![(id_index(nsa, a.src.id) as usize, id_index(nsa, a.dst.id) as usize)]
        + guard_edges_spec(nsa, a.guard_ports(), id_index(nsa, a.dst.id) as usize)
}

/// The edges of the graph of a list of assignments: each assignment's block
/// of edges, indexed against the node list as it stood right after that
/// assignment's ports were inserted (first occurrences never move later).
pub open spec fn build_edges_spec(ns: Seq<Port>, asgns: Seq<Assignment>) -> Seq<(usize, usize)>
    decreases asgns.len(),
{
    if asgns.len() == 0 {
        Seq::empty()
    } else {
        build_edges_spec(ns, asgns.drop_last()) + asgn_edges_spec(
            build_nodes_spec(ns, asgns),
            asgns.last(),
        )
    }
}

/// The guard edges, element by element.
pub proof fn lemma_guard_edges(nsa: Seq<Port>, ps: Seq<Port>, di: usize)
    ensures
        guard_edges_spec(nsa, ps, di).len() == ps.len(),
        forall|j: int|
            0 <= j < ps.len() ==> #[trigger] guard_edges_spec(nsa, ps, di)[j] == (
                id_index(nsa, ps[j].id) as usize,
                di,
            ),
    decreases ps.len(),
{
    if ps.len() > 0 {
        lemma_guard_edges(nsa, ps.drop_last(), di);
        assert forall|j: int| 0 <= j < ps.len() implies #[trigger] guard_edges_spec(nsa, ps, di)[j]
            == (id_index(nsa, ps[j].id) as usize, di) by {
            if j < ps.len() - 1 {
                assert(ps.drop_last()[j] == ps[j]);
            }
        }
    }
}

/// A graph-based representation of the wire-level dependencies of a set of
/// assignments.  Ports are nodes; each edge records that its source port is
/// read when its destination port is written.
#[derive(Debug)]
pub struct GraphAnalysis {
    nodes: Vec<Port>,
    edges: Vec<(usize, usize)>,
}

impl GraphAnalysis {
    /// The nodes, in first-insertion order.
    pub closed spec fn nodes_spec(self) -> Seq<Port> {
        self.nodes@
    }

    /// The edges, as pairs of node indices, in insertion order.
    pub closed spec fn edges_spec(self) -> Seq<(usize, usize)> {
        self.edges@
    }

    /// Well-formedness: node identities are distinct and edges stay in
    /// bounds.
    pub open spec fn wf(self) -> bool {
        distinct_ids(self.nodes_spec()) && edges_ok(self.edges_spec(), self.nodes_spec().len())
    }

    /// The empty analysis.
    pub fn new() -> (r: GraphAnalysis)
        ensures
            r.wf(),
            r.nodes_spec() == Seq::<Port>::empty(),
            r.edges_spec() == Seq::<(usize, usize)>::empty(),
    {
        let r = GraphAnalysis { nodes: Vec::new(), edges: Vec::new() };
        proof {
            assert(r.nodes_spec() =~= Seq::<Port>::empty());
            assert(r.edges_spec() =~= Seq::<(usize, usize)>::empty());
        }
        r
    }

    /// The index of the node carrying `id`, if any.
    fn find_node(&self, id: PortId) -> (r: Option<usize>)
        ensures
            match r {
                Option::Some(i) => i < self.nodes_spec().len() && self.nodes_spec()[i as int].id
                    == id && contains_id(self.nodes_spec(), id) && i as int == id_index(
                    self.nodes_spec(),
                    id,
                ),
                Option::None => !contains_id(self.nodes_spec(), id),
            },
    {
        let mut i: usize = 0;
        while i < self.nodes.len()
            invariant
                i <= self.nodes@.len(),
                forall|k: int| 0 <= k < i ==> (#[trigger] self.nodes@[k]).id != id,
            decreases self.nodes@.len() - i,
        {
            if self.nodes[i].id.cell == id.cell && self.nodes[i].id.port == id.port {
                proof {
                    assert(self.nodes@[i as int].id == id);
                    lemma_id_index(self.nodes@, id);
                }
                return Option::Some(i);
            }
            i = i + 1;
        }
        Option::None
    }

    /// Insert a node for `p` unless one with its identity exists; return its
    /// index.
    fn ensure_node(&mut self, p: &Port) -> (i: usize)
        requires
            old(self).wf(),
        ensures
            final(self).wf(),
            final(self).nodes_spec() == add_node_spec(old(self).nodes_spec(), *p),
            final(self).edges_spec() == old(self).edges_spec(),
            contains_id(final(self).nodes_spec(), p.id),
            i as int == id_index(final(self).nodes_spec(), p.id),
            i < final(self).nodes_spec().len(),
            final(self).nodes_spec()[i as int].id == p.id,
            old(self).nodes_spec().len() <= final(self).nodes_spec().len(),
    {
        let r = self.find_node(p.id);
        match r {
            Option::Some(i) => i,
            Option::None => {
                let i = self.nodes.len();
                proof {
                    let ns = self.nodes@;
                    let t = ns.push(*p);
                    assert(t[i as int].id == p.id);
                    assert forall|a: int, b: int| 0 <= a < b < t.len() implies (
                    #[trigger] t[a]).id != (#[trigger] t[b]).id by {
                        if b < i {
                            assert(ns[a].id != ns[b].id);
                        } else {
                            assert(t[b].id == p.id);
                            assert(!contains_id(ns, p.id));
                            assert(t[a].id == ns[a].id);
                        }
                    }
                    assert forall|k: int| 0 <= k < i implies (#[trigger] t[k]).id != p.id by {
                        assert(t[k].id == ns[k].id);
                    }
                    lemma_id_index(t, p.id);
                    assert(id_index(t, p.id) == i as int) by {
                        if id_index(t, p.id) < i as int {
                            assert(t[id_index(t, p.id)].id != p.id);
                        }
                    }
                }
                self.nodes.push(p.clone());
                i
            },
        }
    }

    /// Add the nodes and edges of one assignment: nodes for its source,
    /// destination and guard ports, an edge source -> destination, and one
    /// edge guard-port -> destination per guard port.
    pub fn insert_assignment(&mut self, asgn: &Assignment)
        requires
            old(self).wf(),
        ensures
            final(self).wf(),
            final(self).nodes_spec() == insert_nodes_spec(old(self).nodes_spec(), *asgn),
            final(self).edges_spec().len() == old(self).edges_spec().len() + 1
                + asgn.guard_ports().len(),
            final(self).edges_spec().take(old(self).edges_spec().len() as int) == old(
                self,
            ).edges_spec(),
            contains_id(final(self).nodes_spec(), asgn.src.id),
            contains_id(final(self).nodes_spec(), asgn.dst.id),
            forall|j: int|
                0 <= j < asgn.guard_ports().len() ==> contains_id(
                    final(self).nodes_spec(),
                    (#[trigger] asgn.guard_ports()[j]).id,
                ),
            final(self).edges_spec()[old(self).edges_spec().len() as int] == (
                id_index(final(self).nodes_spec(), asgn.src.id) as usize,
                id_index(final(self).nodes_spec(), asgn.dst.id) as usize,
            ),
            forall|j: int|
                0 <= j < asgn.guard_ports().len() ==> final(self).edges_spec()[old(
                    self,
                ).edges_spec().len() + 1 + j] == (
                    id_index(final(self).nodes_spec(), (#[trigger] asgn.guard_ports()[j]).id) as usize,
                    id_index(final(self).nodes_spec(), asgn.dst.id) as usize,
                ),
    {
        let ghost ns0 = self.nodes@;
        let ghost es0 = self.edges@;
        let si = self.ensure_node(&asgn.src);
        let ghost ns_a = self.nodes@;
        let di = self.ensure_node(&asgn.dst);
        proof {
            if self.nodes@ != ns_a {
                assert(self.nodes@ == ns_a.push(asgn.dst));
            }
            lemma_id_index_stable(ns_a, self.nodes@, asgn.src.id);
        }
        self.edges.push((si, di));
        let gports = match &asgn.guard {
            Option::Some(g) => g.all_ports(),
            Option::None => Vec::new(),
        };
        let ghost ns1 = self.nodes@;
        let mut j: usize = 0;
        while j < gports.len()
            invariant
                self.wf(),
                j <= gports@.len(),
                gports@ == asgn.guard_ports(),
                contains_id(self.nodes@, asgn.src.id),
                contains_id(self.nodes@, asgn.dst.id),
                di as int == id_index(self.nodes@, asgn.dst.id),
                si as int == id_index(self.nodes@, asgn.src.id),
                self.nodes@ == add_ports_spec(ns1, gports@.take(j as int)),
                self.edges@.len() == es0.len() + 1 + j,
                self.edges@.take(es0.len() as int) == es0,
                self.edges@[es0.len() as int] == (si, di),
                forall|m: int|
                    0 <= m < j ==> contains_id(self.nodes@, (#[trigger] gports@[m]).id),
                forall|m: int|
                    0 <= m < j ==> (#[trigger] self.edges@[es0.len() + 1 + m]) == (
                        id_index(self.nodes@, gports@[m].id) as usize,
                        di,
                    ),
            decreases gports@.len() - j,
        {
            let ghost nsj = self.nodes@;
            let gi = self.ensure_node(&gports[j]);
            proof {
                if self.nodes@ != nsj {
                    assert(self.nodes@ == nsj.push(gports@[j as int]));
                }
                lemma_add_ports_snoc(ns1, gports@, j as int);
                lemma_id_index_stable(nsj, self.nodes@, asgn.src.id);
                lemma_id_index_stable(nsj, self.nodes@, asgn.dst.id);
                assert forall|m: int| 0 <= m < j implies contains_id(
                    self.nodes@,
                    (#[trigger] gports@[m]).id,
                ) by {
                    lemma_id_index_stable(nsj, self.nodes@, gports@[m].id);
                }
                assert forall|m: int| 0 <= m < j implies (#[trigger] self.edges@[es0.len() + 1 + m])
                    == (id_index(self.nodes@, gports@[m].id) as usize, di) by {
                    lemma_id_index_stable(nsj, self.nodes@, gports@[m].id);
                }
            }
            self.edges.push((gi, di));
            proof {
                assert(self.edges@.take(es0.len() as int) =~= es0);
            }
            j = j + 1;
        }
        proof {
            assert(gports@.take(gports@.len() as int) =~= gports@);
        }
    }
}

/// The ports that appear as direct successors of node `i`: the destinations
/// of the edges leaving it, in edge order.
pub open spec fn succs(ns: Seq<Port>, es: Seq<(usize, usize)>, i: usize) -> Seq<Port>
    decreases es.len(),
{
    if es.len() == 0 {
        Seq::empty()
    } else if es.last().0 == i {
        succs(ns, es.drop_last(), i).push(ns[es.last().1 as int])
    } else {
        succs(ns, es.drop_last(), i)
    }
}

/// The ports that appear as direct predecessors of node `i`: the sources of
/// the edges entering it, in edge order.
pub open spec fn preds(ns: Seq<Port>, es: Seq<(usize, usize)>, i: usize) -> Seq<Port>
    decreases es.len(),
{
    if es.len() == 0 {
        Seq::empty()
    } else if es.last().1 == i {
        preds(ns, es.drop_last(), i).push(ns[es.last().0 as int])
    } else {
        preds(ns, es.drop_last(), i)
    }
}

/// The index path `p` rendered as ports.
pub open spec fn ports_of(ns: Seq<Port>, p: Seq<usize>) -> Seq<Port>
    decreases p.len(),
{
    if p.len() == 0 {
        Seq::empty()
    } else {
        ports_of(ns, p.drop_last()).push(ns[p.last() as int])
    }
}

/// An iterator over ports, yielding the remainder of a fixed list.
#[derive(Debug)]
pub struct PortIterator {
    items: Vec<Port>,
    pos: usize,
}

impl View for PortIterator {
    type V = Seq<Port>;

    closed spec fn view(&self) -> Seq<Port> {
        self.items@.skip(self.pos as int)
    }
}

impl PortIterator {
    /// The cursor has not run past the end.
    pub closed spec fn wf(self) -> bool {
        self.pos <= self.items@.len()
    }

    /// An empty iterator over ports.
    pub fn empty() -> (r: PortIterator)
        ensures
            r.wf(),
            r@ == Seq::<Port>::empty(),
    {
        let r = PortIterator { items: Vec::new(), pos: 0 };
        proof {
            assert(r@ =~= Seq::<Port>::empty());
        }
        r
    }

    /// Wrap a list of ports.
    fn from_vec(items: Vec<Port>) -> (r: PortIterator)
        ensures
            r.wf(),
            r@ == items@,
    {
        let r = PortIterator { items, pos: 0 };
        proof {
            assert(r@ =~= r.items@);
        }
        r
    }

    /// The next port, advancing the cursor.
    pub fn next(&mut self) -> (r: Option<Port>)
        requires
            old(self).wf(),
        ensures
            final(self).wf(),
            match r {
                Option::Some(p) => old(self)@.len() > 0 && p == old(self)@[0] && final(self)@ == old(
                    self,
                )@.drop_first(),
                Option::None => old(self)@.len() == 0 && final(self)@ == old(self)@,
            },
    {
        if self.pos < self.items.len() {
            let p = self.items[self.pos].clone();
            self.pos = self.pos + 1;
            proof {
                assert(final(self)@ =~= old(self)@.drop_first());
            }
            Option::Some(p)
        } else {
            Option::None
        }
    }

    /// The remaining ports as a list.
    pub fn collect(self) -> (r: Vec<Port>)
        requires
            self.wf(),
        ensures
            r@ == self@,
    {
        let mut it = self;
        let mut out: Vec<Port> = Vec::new();
        while it.pos < it.items.len()
            invariant
                it.wf(),
                out@ + it.items@.skip(it.pos as int) == self@,
            decreases it.items@.len() - it.pos,
        {
            let p = it.items[it.pos].clone();
            out.push(p);
            it.pos = it.pos + 1;
            proof {
                assert(out@ + it.items@.skip(it.pos as int) =~= self@);
            }
        }
        proof {
            assert(out@ =~= out@ + it.items@.skip(it.pos as int));
        }
        out
    }
}

impl GraphAnalysis {
    /// The analysis of one group's assignments.
    pub fn from_group(group: &crate::ir::Group) -> (r: GraphAnalysis)
        ensures
            r.wf(),
            r.nodes_spec() == build_nodes_spec(Seq::<Port>::empty(), group.assignments@),
            r.edges_spec() == build_edges_spec(Seq::<Port>::empty(), group.assignments@),
            r.edges_spec().len() == edge_count_spec(group.assignments@),
    {
        let mut g = GraphAnalysis::new();
        g.insert_assignments(&group.assignments);
        proof {
            assert(Seq::<(usize, usize)>::empty() + build_edges_spec(
                Seq::<Port>::empty(),
                group.assignments@,
            ) =~= build_edges_spec(Seq::<Port>::empty(), group.assignments@));
        }
        g
    }

    /// The analysis of a whole component: its continuous assignments and
    /// every group's assignments, in order.
    pub fn from_component(component: &crate::component::Component) -> (r: GraphAnalysis)
        ensures
            r.wf(),
            r.nodes_spec() == build_nodes_spec(Seq::<Port>::empty(), component.all_assignments()),
            r.edges_spec() == build_edges_spec(Seq::<Port>::empty(), component.all_assignments()),
            r.edges_spec().len() == edge_count_spec(component.all_assignments()),
    {
        let mut g = GraphAnalysis::new();
        g.insert_assignments(&component.continuous_assignments);
        let mut i: usize = 0;
        let groups = component.iter_groups();
        proof {
            assert(crate::component::groups_assignments(groups@.take(0)) =~= Seq::<
                Assignment,
            >::empty());
            assert(component.continuous_assignments@ + crate::component::groups_assignments(
                groups@.take(0),
            ) =~= component.continuous_assignments@);
            assert(Seq::<(usize, usize)>::empty() + build_edges_spec(
                Seq::<Port>::empty(),
                component.continuous_assignments@,
            ) =~= build_edges_spec(Seq::<Port>::empty(), component.continuous_assignments@));
        }
        while i < groups.len()
            invariant
                g.wf(),
                i <= groups@.len(),
                groups@ == component.groups_spec(),
                g.nodes_spec() == build_nodes_spec(
                    Seq::<Port>::empty(),
                    component.continuous_assignments@ + crate::component::groups_assignments(
                        groups@.take(i as int),
                    ),
                ),
                g.edges_spec() == build_edges_spec(
                    Seq::<Port>::empty(),
                    component.continuous_assignments@ + crate::component::groups_assignments(
                        groups@.take(i as int),
                    ),
                ),
                g.edges_spec().len() == edge_count_spec(
                    component.continuous_assignments@ + crate::component::groups_assignments(
                        groups@.take(i as int),
                    ),
                ),
            decreases groups@.len() - i,
        {
            let ghost pre = component.continuous_assignments@
                + crate::component::groups_assignments(groups@.take(i as int));
            g.insert_assignments(&groups[i].assignments);
            proof {
                lemma_build_concat(Seq::<Port>::empty(), pre, groups@[i as int].assignments@);
                lemma_build_edges_concat(Seq::<Port>::empty(), pre, groups@[i as int].assignments@);
                lemma_count_concat(pre, groups@[i as int].assignments@);
                assert(groups@.take(i + 1 as int).drop_last() =~= groups@.take(i as int));
                assert(groups@.take(i + 1 as int).last() == groups@[i as int]);
                assert(pre + groups@[i as int].assignments@ =~= component.continuous_assignments@
                    + crate::component::groups_assignments(groups@.take(i + 1 as int)));
            }
            i = i + 1;
        }
        proof {
            assert(groups@.take(groups@.len() as int) =~= groups@);
        }
        g
    }

    /// Insert every assignment of a list.
    pub fn insert_assignments(&mut self, asgns: &Vec<Assignment>)
        requires
            old(self).wf(),
        ensures
            final(self).wf(),
            final(self).nodes_spec() == build_nodes_spec(old(self).nodes_spec(), asgns@),
            final(self).edges_spec() == old(self).edges_spec() + build_edges_spec(
                old(self).nodes_spec(),
                asgns@,
            ),
            final(self).edges_spec().len() == old(self).edges_spec().len() + edge_count_spec(
                asgns@,
            ),
    {
        let ghost ns0 = self.nodes@;
        let ghost es0 = self.edges@;
        let mut i: usize = 0;
        proof {
            assert(es0 + build_edges_spec(ns0, asgns@.take(0)) =~= es0);
        }
        while i < asgns.len()
            invariant
                self.wf(),
                i <= asgns@.len(),
                self.nodes_spec() == build_nodes_spec(ns0, asgns@.take(i as int)),
                self.edges_spec() == es0 + build_edges_spec(ns0, asgns@.take(i as int)),
                self.edges_spec().len() == es0.len() + edge_count_spec(asgns@.take(i as int)),
            decreases asgns@.len() - i,
        {
            let ghost epre = self.edges@;
            self.insert_assignment(&asgns[i]);
            proof {
                let a = asgns@[i as int];
                assert(asgns@.take(i + 1 as int).drop_last() =~= asgns@.take(i as int));
                assert(asgns@.take(i + 1 as int).last() == a);
                let nsa = self.nodes@;
                lemma_guard_edges(nsa, a.guard_ports(), id_index(nsa, a.dst.id) as usize);
                assert(self.edges@ =~= epre + asgn_edges_spec(nsa, a));
                assert(self.edges@ =~= es0 + build_edges_spec(ns0, asgns@.take(i + 1 as int)));
            }
            i = i + 1;
        }
        proof {
            assert(asgns@.take(asgns@.len() as int) =~= asgns@);
        }
    }

    /// `pp` renders some simple index path from the node of `aid` to the
    /// node of `bid` as ports.
    pub open spec fn path_matches(self, aid: PortId, bid: PortId, pp: Seq<Port>) -> bool {
        exists|p: Seq<usize>|
            #[trigger] is_simple_path(
                self.nodes_spec().len(),
                self.edges_spec(),
                id_index(self.nodes_spec(), aid) as usize,
                id_index(self.nodes_spec(), bid) as usize,
                p,
            ) && pp == ports_of(self.nodes_spec(), p)
    }

    /// The index of the node carrying `id`; callable only when it exists.
    fn must_find(&self, id: PortId) -> (i: usize)
        requires
            contains_id(self.nodes_spec(), id),
        ensures
            i < self.nodes_spec().len(),
            i as int == id_index(self.nodes_spec(), id),
            self.nodes_spec()[i as int].id == id,
    {
        let r = self.find_node(id);
        match r {
            Option::Some(i) => i,
            Option::None => {
                proof {
                    assert(false);
                }
                0
            },
        }
    }

    /// All the ports this port reads from: the destinations of its outgoing
    /// edges, one hop.  Empty for an input port.
    pub fn reads_from(&self, port: &Port) -> (r: PortIterator)
        requires
            self.wf(),
            contains_id(self.nodes_spec(), port.id),
        ensures
            r.wf(),
            port.direction == crate::ir::Direction::Input ==> r@ == Seq::<Port>::empty(),
            port.direction != crate::ir::Direction::Input ==> r@ == succs(
                self.nodes_spec(),
                self.edges_spec(),
                id_index(self.nodes_spec(), port.id) as usize,
            ),
    {
        match port.direction {
            crate::ir::Direction::Input => PortIterator::empty(),
            _ => {
                let idx = self.must_find(port.id);
                PortIterator::from_vec(self.collect_succs(idx))
            },
        }
    }

    /// All the ports that write to this port: the sources of its incoming
    /// edges, one hop.  Empty for an output port.
    pub fn writes_to(&self, port: &Port) -> (r: PortIterator)
        requires
            self.wf(),
            contains_id(self.nodes_spec(), port.id),
        ensures
            r.wf(),
            port.direction == crate::ir::Direction::Output ==> r@ == Seq::<Port>::empty(),
            port.direction != crate::ir::Direction::Output ==> r@ == preds(
                self.nodes_spec(),
                self.edges_spec(),
                id_index(self.nodes_spec(), port.id) as usize,
            ),
    {
        match port.direction {
            crate::ir::Direction::Output => PortIterator::empty(),
            _ => {
                let idx = self.must_find(port.id);
                PortIterator::from_vec(self.collect_preds(idx))
            },
        }
    }

    /// The destinations of the edges leaving node `idx`.
    fn collect_succs(&self, idx: usize) -> (r: Vec<Port>)
        requires
            self.wf(),
            idx < self.nodes_spec().len(),
        ensures
            r@ == succs(self.nodes_spec(), self.edges_spec(), idx),
    {
        let mut out: Vec<Port> = Vec::new();
        let mut k: usize = 0;
        while k < self.edges.len()
            invariant
                self.wf(),
                idx < self.nodes_spec().len(),
                k <= self.edges@.len(),
                out@ == succs(self.nodes@, self.edges@.take(k as int), idx),
            decreases self.edges@.len() - k,
        {
            let e = self.edges[k];
            proof {
                let t = self.edges@.take(k + 1 as int);
                assert(t.drop_last() =~= self.edges@.take(k as int));
                assert(t.last() == e);
            }
            if e.0 == idx {
                out.push(self.nodes[e.1].clone());
            }
            k = k + 1;
        }
        proof {
            assert(self.edges@.take(self.edges@.len() as int) =~= self.edges@);
        }
        out
    }

    /// The sources of the edges entering node `idx`.
    fn collect_preds(&self, idx: usize) -> (r: Vec<Port>)
        requires
            self.wf(),
            idx < self.nodes_spec().len(),
        ensures
            r@ == preds(self.nodes_spec(), self.edges_spec(), idx),
    {
        let mut out: Vec<Port> = Vec::new();
        let mut k: usize = 0;
        while k < self.edges.len()
            invariant
                self.wf(),
                idx < self.nodes_spec().len(),
                k <= self.edges@.len(),
                out@ == preds(self.nodes@, self.edges@.take(k as int), idx),
            decreases self.edges@.len() - k,
        {
            let e = self.edges[k];
            proof {
                let t = self.edges@.take(k + 1 as int);
                assert(t.drop_last() =~= self.edges@.take(k as int));
                assert(t.last() == e);
            }
            if e.1 == idx {
                out.push(self.nodes[e.0].clone());
            }
            k = k + 1;
        }
        proof {
            assert(self.edges@.take(self.edges@.len() as int) =~= self.edges@);
        }
        out
    }

    /// Whether the dependency graph contains a directed cycle.
    pub fn has_cycles(&self) -> (r: bool)
        requires
            self.wf(),
            self.nodes_spec().len() < u32::MAX as usize,
            self.edges_spec().len() < u32::MAX as usize,
        ensures
            r == has_cycle(self.edges_spec()),
    {
        petgraph_is_cyclic(self.nodes.len(), &self.edges)
    }

    /// Every node, in an order where each node comes before the nodes it
    /// feeds.  Fails explicitly when the graph is cyclic; it succeeds exactly
    /// when `has_cycles` is false.
    pub fn toposort(&self) -> (r: Result<PortIterator, IrError>)
        requires
            self.wf(),
            self.nodes_spec().len() < u32::MAX as usize,
            self.edges_spec().len() < u32::MAX as usize,
        ensures
            match r {
                Result::Ok(it) => {
                    &&& it.wf()
                    &&& !has_cycle(self.edges_spec())
                    &&& exists|ord: Seq<usize>|
                        #[trigger] is_topo_order(ord, self.nodes_spec().len(), self.edges_spec())
                            && it@ == ports_of(self.nodes_spec(), ord)
                },
                Result::Err(e) => {
                    &&& e == IrError::CyclicGraph
                    &&& has_cycle(self.edges_spec())
                },
            },
    {
        let r = petgraph_toposort(self.nodes.len(), &self.edges);
        match r {
            Option::Some(ord) => {
                let mut out: Vec<Port> = Vec::new();
                let mut i: usize = 0;
                while i < ord.len()
                    invariant
                        self.wf(),
                        i <= ord@.len(),
                        is_topo_order(ord@, self.nodes_spec().len(), self.edges_spec()),
                        out@ == ports_of(self.nodes@, ord@.take(i as int)),
                    decreases ord@.len() - i,
                {
                    out.push(self.nodes[ord[i]].clone());
                    proof {
                        let t = ord@.take(i + 1 as int);
                        assert(t.drop_last() =~= ord@.take(i as int));
                        assert(t.last() == ord@[i as int]);
                    }
                    i = i + 1;
                }
                proof {
                    assert(ord@.take(ord@.len() as int) =~= ord@);
                }
                Result::Ok(PortIterator::from_vec(out))
            },
            Option::None => Result::Err(IrError::CyclicGraph),
        }
    }

    /// Every simple directed path from `start` to `finish`: each returned
    /// path follows edges and visits no node twice, and every such path is
    /// returned.  In particular no path is returned from a port to itself.
    pub fn paths(&self, start: &Port, finish: &Port) -> (r: Vec<Vec<Port>>)
        requires
            self.wf(),
            self.nodes_spec().len() < u32::MAX as usize,
            self.edges_spec().len() < u32::MAX as usize,
            contains_id(self.nodes_spec(), start.id),
            contains_id(self.nodes_spec(), finish.id),
        ensures
            forall|i: int|
                0 <= i < r@.len() ==> self.path_matches(start.id, finish.id, (#[trigger] r@[i])@),
            forall|p: Seq<usize>|
                #[trigger] is_simple_path(
                    self.nodes_spec().len(),
                    self.edges_spec(),
                    id_index(self.nodes_spec(), start.id) as usize,
                    id_index(self.nodes_spec(), finish.id) as usize,
                    p,
                ) ==> exists|i: int|
                    0 <= i < r@.len() && (#[trigger] r@[i])@ == ports_of(self.nodes_spec(), p),
    {
        let si = self.must_find(start.id);
        let fi = self.must_find(finish.id);
        let raw = petgraph_simple_paths(self.nodes.len(), &self.edges, si, fi);
        let mut out: Vec<Vec<Port>> = Vec::new();
        let mut i: usize = 0;
        while i < raw.len()
            invariant
                self.wf(),
                i <= raw@.len(),
                si as int == id_index(self.nodes_spec(), start.id),
                fi as int == id_index(self.nodes_spec(), finish.id),
                si < self.nodes_spec().len(),
                forall|k: int|
                    0 <= k < raw@.len() ==> is_simple_path(
                        self.nodes_spec().len(),
                        self.edges_spec(),
                        si,
                        fi,
                        (#[trigger] raw@[k])@,
                    ),
                out@.len() == i,
                forall|k: int|
                    0 <= k < i ==> (#[trigger] out@[k])@ == ports_of(self.nodes@, raw@[k]@),
            decreases raw@.len() - i,
        {
            let rp = &raw[i];
            let mut path: Vec<Port> = Vec::new();
            let mut j: usize = 0;
            while j < rp.len()
                invariant
                    self.wf(),
                    j <= rp@.len(),
                    is_simple_path(self.nodes_spec().len(), self.edges_spec(), si, fi, rp@),
                    path@ == ports_of(self.nodes@, rp@.take(j as int)),
                decreases rp@.len() - j,
            {
                path.push(self.nodes[rp[j]].clone());
                proof {
                    let t = rp@.take(j + 1 as int);
                    assert(t.drop_last() =~= rp@.take(j as int));
                    assert(t.last() == rp@[j as int]);
                }
                j = j + 1;
            }
            proof {
                assert(rp@.take(rp@.len() as int) =~= rp@);
            }
            out.push(path);
            i = i + 1;
        }
        proof {
            let sit = id_index(self.nodes_spec(), start.id) as usize;
            let fit = id_index(self.nodes_spec(), finish.id) as usize;
            assert(si == sit && fi == fit);
            assert forall|i: int| 0 <= i < out@.len() implies self.path_matches(
                start.id,
                finish.id,
                (#[trigger] out@[i])@,
            ) by {
                assert(is_simple_path(
                    self.nodes_spec().len(),
                    self.edges_spec(),
                    sit,
                    fit,
                    raw@[i]@,
                ));
                assert(out@[i]@ == ports_of(self.nodes_spec(), raw@[i]@));
            }
            assert forall|p: Seq<usize>|
                #[trigger] is_simple_path(
                    self.nodes_spec().len(),
                    self.edges_spec(),
                    sit,
                    fit,
                    p,
                ) implies exists|i: int|
                0 <= i < out@.len() && (#[trigger] out@[i])@ == ports_of(
                    self.nodes_spec(),
                    p,
                ) by {
                assert(is_simple_path(self.nodes_spec().len(), self.edges_spec(), si, fi, p));
                let i = choose|i: int| 0 <= i < raw@.len() && (#[trigger] raw@[i])@ == p;
                assert((out@[i])@ == ports_of(self.nodes@, raw@[i]@));
            }
        }
        out
    }

    /// Augment the graph with caller-supplied dependency edges between ports
    /// that already exist as nodes; referencing an unknown port is an error.
    pub fn add_edges(self, extra: &Vec<(Port, Port)>) -> (r: Result<GraphAnalysis, IrError>)
        requires
            self.wf(),
        ensures
            match r {
                Result::Ok(g) => {
                    &&& g.wf()
                    &&& g.nodes_spec() == self.nodes_spec()
                    &&& g.edges_spec().len() == self.edges_spec().len() + extra@.len()
                    &&& g.edges_spec().take(self.edges_spec().len() as int) == self.edges_spec()
                    &&& forall|k: int|
                        0 <= k < extra@.len() ==> contains_id(
                            self.nodes_spec(),
                            (#[trigger] extra@[k]).0.id,
                        ) && contains_id(self.nodes_spec(), extra@[k].1.id)
                    &&& forall|k: int|
                        0 <= k < extra@.len() ==> (#[trigger] g.edges_spec()[self.edges_spec().len()
                            + k]) == (
                            id_index(self.nodes_spec(), extra@[k].0.id) as usize,
                            id_index(self.nodes_spec(), extra@[k].1.id) as usize,
                        )
                },
                Result::Err(e) => {
                    &&& e == IrError::UndefinedReference
                    &&& exists|k: int|
                        0 <= k < extra@.len() && (!contains_id(
                            self.nodes_spec(),
                            (#[trigger] extra@[k]).0.id,
                        ) || !contains_id(self.nodes_spec(), extra@[k].1.id))
                },
            },
    {
        let mut g = self;
        let ghost el0 = g.edges@.len();
        let mut k: usize = 0;
        while k < extra.len()
            invariant
                g.wf(),
                k <= extra@.len(),
                g.nodes_spec() == self.nodes_spec(),
                g.edges_spec().len() == el0 + k,
                el0 == self.edges_spec().len(),
                g.edges_spec().take(el0 as int) == self.edges_spec(),
                forall|m: int|
                    0 <= m < k ==> contains_id(self.nodes_spec(), (#[trigger] extra@[m]).0.id)
                        && contains_id(self.nodes_spec(), extra@[m].1.id),
                forall|m: int|
                    0 <= m < k ==> (#[trigger] g.edges_spec()[el0 + m]) == (
                        id_index(self.nodes_spec(), extra@[m].0.id) as usize,
                        id_index(self.nodes_spec(), extra@[m].1.id) as usize,
                    ),
            decreases extra@.len() - k,
        {
            let a = g.find_node(extra[k].0.id);
            let b = g.find_node(extra[k].1.id);
            match (a, b) {
                (Option::Some(ai), Option::Some(bi)) => {
                    g.edges.push((ai, bi));
                    proof {
                        assert(g.edges@.take(el0 as int) =~= self.edges_spec());
                    }
                },
                _ => {
                    return Result::Err(IrError::UndefinedReference);
                },
            }
            k = k + 1;
        }
        Result::Ok(g)
    }
}

/// Some edge of `es` equals `e`.
pub open spec fn edge_among(e: (usize, usize), es: Seq<(usize, usize)>) -> bool {
    exists|k: int| 0 <= k < es.len() && #[trigger] es[k] == e
}

/// The edges selected by a sequence of per-edge decisions, in order.
pub open spec fn edges_where(es: Seq<(usize, usize)>, ds: Seq<bool>) -> Seq<(usize, usize)>
    decreases es.len(),
{
    if es.len() == 0 {
        Seq::empty()
    } else if ds.last() {
        edges_where(es.drop_last(), ds.drop_last()).push(es.last())
    } else {
        edges_where(es.drop_last(), ds.drop_last())
    }
}

/// Node index `i` has at least one incident edge.
pub open spec fn keep(es: Seq<(usize, usize)>, i: int) -> bool {
    exists|k: int| 0 <= k < es.len() && ((#[trigger] es[k]).0 == i || es[k].1 == i)
}

/// How many indices below `i` have an incident edge.
pub open spec fn rank(es: Seq<(usize, usize)>, i: int) -> int
    decreases i,
{
    if i <= 0 {
        0
    } else {
        rank(es, i - 1) + if keep(es, i - 1) {
            1int
        } else {
            0int
        }
    }
}

/// The nodes among the first `n` that have an incident edge, in order.
pub open spec fn ri_nodes_pre(ns: Seq<Port>, es: Seq<(usize, usize)>, n: int) -> Seq<Port>
    decreases n,
{
    if n <= 0 {
        Seq::empty()
    } else if keep(es, n - 1) {
        ri_nodes_pre(ns, es, n - 1).push(ns[n - 1])
    } else {
        ri_nodes_pre(ns, es, n - 1)
    }
}

/// The nodes left by dropping isolated vertices.
pub open spec fn ri_nodes(ns: Seq<Port>, es: Seq<(usize, usize)>) -> Seq<Port> {
    ri_nodes_pre(ns, es, ns.len() as int)
}

/// The edges re-indexed after dropping isolated vertices.
pub open spec fn ri_edges(es: Seq<(usize, usize)>) -> Seq<(usize, usize)> {
    Seq::new(es.len(), |k: int| (rank(es, es[k].0 as int) as usize, rank(es, es[k].1 as int) as usize))
}

/// `rank` is monotone, strictly so across an index with an incident edge,
/// and never exceeds the number of indices considered.
pub proof fn lemma_rank_le(es: Seq<(usize, usize)>, i: int, j: int)
    requires
        i <= j,
    ensures
        rank(es, i) <= rank(es, j),
        j >= 0 ==> 0 <= rank(es, j) <= j,
        i >= 0 && keep(es, i) && i < j ==> rank(es, i) < rank(es, j),
    decreases j - i,
{
    if j >= 0 {
        lemma_rank_bound(es, j);
    }
    if i < j {
        lemma_rank_le(es, i, j - 1);
    }
}

/// `rank` never exceeds the number of indices considered.
proof fn lemma_rank_bound(es: Seq<(usize, usize)>, j: int)
    requires
        j >= 0,
    ensures
        0 <= rank(es, j) <= j,
    decreases j,
{
    if j > 0 {
        lemma_rank_bound(es, j - 1);
    }
}

/// Position `m` of the kept-node list holds a node that had an incident
/// edge, placed at its rank.
pub open spec fn originates(ns: Seq<Port>, es: Seq<(usize, usize)>, n: int, m: int) -> bool {
    exists|j: int|
        0 <= j < n && #[trigger] keep(es, j) && rank(es, j) == m && ri_nodes_pre(ns, es, n)[m]
            == ns[j]
}

/// The shape of `ri_nodes_pre`: its length is the rank of `n`, a node with
/// an incident edge sits at its rank, and every element arises that way.
pub proof fn lemma_ri_nodes_pre(ns: Seq<Port>, es: Seq<(usize, usize)>, n: int)
    requires
        n <= ns.len(),
    ensures
        ri_nodes_pre(ns, es, n).len() == rank(es, n),
        forall|j: int|
            0 <= j < n && #[trigger] keep(es, j) ==> 0 <= rank(es, j) < rank(es, n)
                && ri_nodes_pre(ns, es, n)[rank(es, j)] == ns[j],
        forall|m: int| 0 <= m < rank(es, n) ==> #[trigger] originates(ns, es, n, m),
    decreases n,
{
    if n > 0 {
        lemma_ri_nodes_pre(ns, es, n - 1);
        lemma_rank_le(es, 0, n - 1);
        assert forall|j: int| 0 <= j < n && keep(es, j) implies 0 <= rank(es, j) < rank(es, n)
            && ri_nodes_pre(ns, es, n)[rank(es, j)] == ns[j] by {
            lemma_rank_le(es, 0, j);
            if j < n - 1 {
                lemma_rank_le(es, j, n - 1);
            }
        }
        assert forall|m: int| 0 <= m < rank(es, n) implies #[trigger] originates(ns, es, n, m) by {
            if keep(es, n - 1) && m == rank(es, n - 1) {
                assert(keep(es, n - 1) && rank(es, n - 1) == m && ri_nodes_pre(ns, es, n)[m] == ns[n
                    - 1]);
            } else {
                assert(0 <= m < rank(es, n - 1));
                assert(originates(ns, es, n - 1, m));
                let j = choose|j: int|
                    0 <= j < n - 1 && #[trigger] keep(es, j) && rank(es, j) == m && ri_nodes_pre(
                        ns,
                        es,
                        n - 1,
                    )[m] == ns[j];
                assert(keep(es, j) && rank(es, j) == m && ri_nodes_pre(ns, es, n)[m] == ns[j]);
            }
        }
    }
}

/// Every node left by dropping isolated vertices has an incident edge, and
/// dropping them again changes nothing: the operation is idempotent.
pub proof fn lemma_remove_isolated_idempotent(ns: Seq<Port>, es: Seq<(usize, usize)>)
    requires
        edges_ok(es, ns.len()),
    ensures
        forall|m: int| 0 <= m < ri_nodes(ns, es).len() ==> keep(ri_edges(es), m),
        ri_nodes(ri_nodes(ns, es), ri_edges(es)) == ri_nodes(ns, es),
        ri_edges(ri_edges(es)) == ri_edges(es),
{
    let ns1 = ri_nodes(ns, es);
    let es1 = ri_edges(es);
    lemma_ri_nodes_pre(ns, es, ns.len() as int);
    assert forall|m: int| 0 <= m < ns1.len() implies keep(es1, m) by {
        assert(originates(ns, es, ns.len() as int, m));
        let j = choose|j: int|
            0 <= j < ns.len() && #[trigger] keep(es, j) && rank(es, j) == m && ns1[m] == ns[j];
        let k = choose|k: int| 0 <= k < es.len() && ((#[trigger] es[k]).0 == j || es[k].1 == j);
        assert(es1[k] == (rank(es, es[k].0 as int) as usize, rank(es, es[k].1 as int) as usize));
        lemma_rank_le(es, 0, es[k].0 as int);
        lemma_rank_le(es, 0, es[k].1 as int);
        assert(es1[k].0 == m || es1[k].1 == m);
    }
    assert forall|i: int| 0 <= i <= ns1.len() implies rank(es1, i) == i by {
        lemma_rank_all_kept(es1, ns1.len() as int, i);
    }
    assert forall|n: int| 0 <= n <= ns1.len() implies ri_nodes_pre(ns1, es1, n) =~= ns1.take(
        n,
    ) by {
        lemma_ri_all_kept(ns1, es1, n);
    }
    assert(ri_nodes(ns1, es1) =~= ns1.take(ns1.len() as int));
    assert(ns1.take(ns1.len() as int) =~= ns1);
    assert forall|k: int| 0 <= k < es1.len() implies #[trigger] ri_edges(es1)[k] == es1[k] by {
        let j0 = es[k].0 as int;
        let j1 = es[k].1 as int;
        lemma_rank_le(es, 0, j0);
        lemma_rank_le(es, 0, j1);
        assert(keep(es, j0)) by {
            assert(es[k].0 == j0 || es[k].1 == j0);
        }
        assert(keep(es, j1)) by {
            assert(es[k].0 == j1 || es[k].1 == j1);
        }
        assert(rank(es, j0) < rank(es, ns.len() as int)) by {
            lemma_rank_le(es, j0, ns.len() as int);
        }
        assert(rank(es, j1) < rank(es, ns.len() as int)) by {
            lemma_rank_le(es, j1, ns.len() as int);
        }
        lemma_rank_all_kept(es1, ns1.len() as int, es1[k].0 as int);
        lemma_rank_all_kept(es1, ns1.len() as int, es1[k].1 as int);
    }
    assert(ri_edges(es1) =~= es1);
}

/// Where every index below `n` has an incident edge, `rank` is the
/// identity.
proof fn lemma_rank_all_kept(es: Seq<(usize, usize)>, n: int, i: int)
    requires
        forall|m: int| 0 <= m < n ==> keep(es, m),
        0 <= i <= n,
    ensures
        rank(es, i) == i,
    decreases i,
{
    if i > 0 {
        lemma_rank_all_kept(es, n, i - 1);
    }
}

/// Where every index below `n` has an incident edge, dropping isolated
/// vertices keeps the prefix unchanged.
proof fn lemma_ri_all_kept(ns: Seq<Port>, es: Seq<(usize, usize)>, n: int)
    requires
        forall|m: int| 0 <= m < n ==> keep(es, m),
        0 <= n <= ns.len(),
    ensures
        ri_nodes_pre(ns, es, n) =~= ns.take(n),
    decreases n,
{
    if n > 0 {
        lemma_ri_all_kept(ns, es, n - 1);
        assert(ri_nodes_pre(ns, es, n - 1) =~= ns.take(n - 1));
    }
}

impl GraphAnalysis {
    /// Whether node `i` has an incident edge.
    fn keep_exec(&self, i: usize) -> (b: bool)
        ensures
            b == keep(self.edges_spec(), i as int),
    {
        let mut k: usize = 0;
        while k < self.edges.len()
            invariant
                k <= self.edges@.len(),
                forall|m: int|
                    0 <= m < k ==> !((#[trigger] self.edges@[m]).0 == i as int || self.edges@[m].1
                        == i as int),
            decreases self.edges@.len() - k,
        {
            let e = self.edges[k];
            if e.0 == i || e.1 == i {
                return true;
            }
            k = k + 1;
        }
        false
    }

    /// Restrict the graph to the edges the filter accepts; the node set is
    /// unchanged.  The filter sees the source and destination port of each
    /// edge; the kept edges are the decided subsequence of the old ones, in
    /// order and with their multiplicity.
    pub fn edge_induced_subgraph<F: Fn(&Port, &Port) -> bool>(self, filter: F) -> (r:
        GraphAnalysis)
        requires
            self.wf(),
            forall|a: Port, b: Port| #[trigger] call_requires(filter, (&a, &b)),
        ensures
            r.wf(),
            r.nodes_spec() == self.nodes_spec(),
            exists|ds: Seq<bool>|
                {
                    &&& ds.len() == self.edges_spec().len()
                    &&& (forall|k: int|
                        0 <= k < ds.len() ==> call_ensures(
                            filter,
                            (
                                &self.nodes_spec()[self.edges_spec()[k].0 as int],
                                &self.nodes_spec()[self.edges_spec()[k].1 as int],
                            ),
                            #[trigger] ds[k],
                        ))
                    &&& r.edges_spec() == #[trigger] edges_where(self.edges_spec(), ds)
                },
            forall|k: int|
                0 <= k < r.edges_spec().len() ==> edge_among(
                    #[trigger] r.edges_spec()[k],
                    self.edges_spec(),
                ),
            forall|k: int|
                0 <= k < r.edges_spec().len() ==> call_ensures(
                    filter,
                    (
                        &self.nodes_spec()[(#[trigger] r.edges_spec()[k]).0 as int],
                        &self.nodes_spec()[r.edges_spec()[k].1 as int],
                    ),
                    true,
                ),
            forall|k2: int|
                0 <= k2 < self.edges_spec().len() && (forall|ret: bool|
                    call_ensures(
                        filter,
                        (
                            &self.nodes_spec()[(#[trigger] self.edges_spec()[k2]).0 as int],
                            &self.nodes_spec()[self.edges_spec()[k2].1 as int],
                        ),
                        ret,
                    ) ==> ret == true) ==> edge_among(self.edges_spec()[k2], r.edges_spec()),
    {
        let mut kept: Vec<(usize, usize)> = Vec::new();
        let ghost mut ds: Seq<bool> = Seq::empty();
        let mut k: usize = 0;
        while k < self.edges.len()
            invariant
                self.wf(),
                k <= self.edges@.len(),
                ds.len() == k,
                forall|m: int|
                    0 <= m < k ==> call_ensures(
                        filter,
                        (
                            &self.nodes_spec()[self.edges_spec()[m].0 as int],
                            &self.nodes_spec()[self.edges_spec()[m].1 as int],
                        ),
                        #[trigger] ds[m],
                    ),
                kept@ == edges_where(self.edges_spec().take(k as int), ds),
                forall|a: Port, b: Port| #[trigger] call_requires(filter, (&a, &b)),
                forall|m: int|
                    0 <= m < kept@.len() ==> edge_among(#[trigger] kept@[m], self.edges_spec()),
                forall|m: int|
                    0 <= m < kept@.len() ==> (#[trigger] kept@[m]).0 < self.nodes_spec().len()
                        && kept@[m].1 < self.nodes_spec().len(),
                forall|m: int|
                    0 <= m < kept@.len() ==> call_ensures(
                        filter,
                        (
                            &self.nodes_spec()[(#[trigger] kept@[m]).0 as int],
                            &self.nodes_spec()[kept@[m].1 as int],
                        ),
                        true,
                    ),
                forall|k2: int|
                    0 <= k2 < k && (forall|ret: bool|
                        call_ensures(
                            filter,
                            (
                                &self.nodes_spec()[(#[trigger] self.edges_spec()[k2]).0 as int],
                                &self.nodes_spec()[self.edges_spec()[k2].1 as int],
                            ),
                            ret,
                        ) ==> ret == true) ==> edge_among(self.edges_spec()[k2], kept@),
            decreases self.edges@.len() - k,
        {
            let e = self.edges[k];
            let ghost kept0 = kept@;
            let b = filter(&self.nodes[e.0], &self.nodes[e.1]);
            proof {
                let ds1 = ds.push(b);
                assert(ds1.drop_last() =~= ds);
                assert(self.edges_spec().take(k + 1 as int).drop_last() =~= self.edges_spec().take(
                    k as int,
                ));
                assert(self.edges_spec().take(k + 1 as int).last() == e);
                ds = ds1;
            }
            if b {
                proof {
                    assert(self.edges_spec()[k as int] == e);
                }
                kept.push(e);
            }
            proof {
                assert forall|k2: int|
                    0 <= k2 < k + 1 && (forall|ret: bool|
                        call_ensures(
                            filter,
                            (
                                &self.nodes_spec()[(#[trigger] self.edges_spec()[k2]).0 as int],
                                &self.nodes_spec()[self.edges_spec()[k2].1 as int],
                            ),
                            ret,
                        ) ==> ret == true) implies edge_among(self.edges_spec()[k2], kept@) by {
                    if k2 == k {
                        if b {
                            assert(kept@[kept@.len() - 1] == e);
                        } else {
                            assert(call_ensures(
                                filter,
                                (
                                    &self.nodes_spec()[self.edges_spec()[k2].0 as int],
                                    &self.nodes_spec()[self.edges_spec()[k2].1 as int],
                                ),
                                b,
                            ));
                            assert(false);
                        }
                    } else {
                        assert(edge_among(self.edges_spec()[k2], kept0));
                        let m = choose|m: int|
                            0 <= m < kept0.len() && #[trigger] kept0[m] == self.edges_spec()[k2];
                        assert(kept@[m] == self.edges_spec()[k2]);
                    }
                }
            }
            k = k + 1;
        }
        proof {
            assert(self.edges_spec().take(self.edges_spec().len() as int) =~= self.edges_spec());
            assert(kept@ == edges_where(self.edges_spec(), ds));
        }
        GraphAnalysis { nodes: self.nodes, edges: kept }
    }

    /// Drop every node with no incident edge, re-indexing the remaining
    /// nodes and edges consistently.  Applying it twice yields the same
    /// graph as applying it once.
    pub fn remove_isolated_vertices(self) -> (r: GraphAnalysis)
        requires
            self.wf(),
        ensures
            r.wf(),
            r.nodes_spec() == ri_nodes(self.nodes_spec(), self.edges_spec()),
            r.edges_spec() == ri_edges(self.edges_spec()),
    {
        let ghost ns = self.nodes@;
        let ghost es = self.edges@;
        let mut ranks: Vec<usize> = Vec::new();
        let mut cnt: usize = 0;
        let mut i: usize = 0;
        while i < self.nodes.len()
            invariant
                self.wf(),
                ns == self.nodes@,
                es == self.edges@,
                i <= ns.len(),
                ranks@.len() == i,
                cnt as int == rank(es, i as int),
                forall|m: int| 0 <= m < i ==> (#[trigger] ranks@[m]) as int == rank(es, m),
            decreases ns.len() - i,
        {
            ranks.push(cnt);
            let b = self.keep_exec(i);
            if b {
                proof {
                    lemma_rank_le(es, 0, i as int);
                    lemma_rank_le(es, i as int, ns.len() as int);
                    assert(rank(es, ns.len() as int) <= ns.len());
                }
                cnt = cnt + 1;
            }
            i = i + 1;
        }
        let mut new_nodes: Vec<Port> = Vec::new();
        let mut j: usize = 0;
        while j < self.nodes.len()
            invariant
                self.wf(),
                ns == self.nodes@,
                es == self.edges@,
                j <= ns.len(),
                new_nodes@ == ri_nodes_pre(ns, es, j as int),
            decreases ns.len() - j,
        {
            let b = self.keep_exec(j);
            if b {
                new_nodes.push(self.nodes[j].clone());
            }
            j = j + 1;
        }
        let mut new_edges: Vec<(usize, usize)> = Vec::new();
        let mut k: usize = 0;
        while k < self.edges.len()
            invariant
                self.wf(),
                ns == self.nodes@,
                es == self.edges@,
                k <= es.len(),
                ranks@.len() == ns.len(),
                forall|m: int| 0 <= m < ns.len() ==> (#[trigger] ranks@[m]) as int == rank(es, m),
                new_edges@.len() == k,
                forall|m: int| 0 <= m < k ==> (#[trigger] new_edges@[m]) == ri_edges(es)[m],
            decreases es.len() - k,
        {
            let e = self.edges[k];
            new_edges.push((ranks[e.0], ranks[e.1]));
            k = k + 1;
        }
        let r = GraphAnalysis { nodes: new_nodes, edges: new_edges };
        proof {
            assert(r.edges_spec() =~= ri_edges(es));
            lemma_ri_nodes_pre(ns, es, ns.len() as int);
            assert forall|a: int, b: int| 0 <= a < b < r.nodes_spec().len() implies (
            #[trigger] r.nodes_spec()[a]).id != (#[trigger] r.nodes_spec()[b]).id by {
                assert(originates(ns, es, ns.len() as int, a));
                assert(originates(ns, es, ns.len() as int, b));
                let ja = choose|j: int|
                    0 <= j < ns.len() && #[trigger] keep(es, j) && rank(es, j) == a && ri_nodes_pre(
                        ns,
                        es,
                        ns.len() as int,
                    )[a] == ns[j];
                let jb = choose|j: int|
                    0 <= j < ns.len() && #[trigger] keep(es, j) && rank(es, j) == b && ri_nodes_pre(
                        ns,
                        es,
                        ns.len() as int,
                    )[b] == ns[j];
                assert(ja != jb);
                if ja < jb {
                    assert(ns[ja].id != ns[jb].id);
                } else {
                    lemma_rank_le(es, jb, ja);
                    assert(false);
                }
            }
            assert forall|m: int| 0 <= m < r.edges_spec().len() implies (
            #[trigger] r.edges_spec()[m]).0 < r.nodes_spec().len() && r.edges_spec()[m].1
                < r.nodes_spec().len() by {
                let j0 = es[m].0 as int;
                let j1 = es[m].1 as int;
                assert(keep(es, j0)) by {
                    assert(es[m].0 == j0 || es[m].1 == j0);
                }
                assert(keep(es, j1)) by {
                    assert(es[m].0 == j1 || es[m].1 == j1);
                }
                lemma_rank_le(es, 0, j0);
                lemma_rank_le(es, j0, ns.len() as int);
                lemma_rank_le(es, 0, j1);
                lemma_rank_le(es, j1, ns.len() as int);
            }
        }
        r
    }
}

impl Default for GraphAnalysis {
    /// The empty analysis.
    fn default() -> (r: GraphAnalysis)
        ensures
            r.wf(),
            r.nodes_spec() == Seq::<Port>::empty(),
            r.edges_spec() == Seq::<(usize, usize)>::empty(),
    {
        GraphAnalysis::new()
    }
}

/// The label of a port in the diagnostic dump: `<cell>.<port>`.
pub open spec fn port_label(p: Port) -> Seq<char> {
    p.parent@ + seq!['.'] + p.name@
}

/// Port labels joined with `", "`.
pub open spec fn join_labels(ps: Seq<Port>) -> Seq<char>
    decreases ps.len(),
{
    if ps.len() == 0 {
        Seq::empty()
    } else if ps.len() == 1 {
        port_label(ps[0])
    } else {
        join_labels(ps.drop_last()) + seq![',', ' '] + port_label(ps.last())
    }
}

/// One line of the diagnostic dump: the node's label, an arrow, and the
/// labels of its direct successors in brackets.
pub open spec fn line_spec(ns: Seq<Port>, es: Seq<(usize, usize)>, i: usize) -> Seq<char> {
    port_label(ns[i as int]) + seq![' ', '-', '>', ' ', '['] + join_labels(succs(ns, es, i)) + seq![
        ']',
        '\n',
    ]
}

/// The whole diagnostic dump: one line per node, in node order.
pub open spec fn dump_spec(ns: Seq<Port>, es: Seq<(usize, usize)>, n: int) -> Seq<char>
    decreases n,
{
    if n <= 0 {
        Seq::empty()
    } else {
        dump_spec(ns, es, n - 1) + line_spec(ns, es, (n - 1) as usize)
    }
}

impl GraphAnalysis {
    /// The deterministic textual adjacency listing, one line per node:
    /// `<cell>.<port> -> [<cell>.<port>, ...]`.
    pub fn to_string(&self) -> (r: String)
        requires
            self.wf(),
        ensures
            r@ == dump_spec(self.nodes_spec(), self.edges_spec(), self.nodes_spec().len() as int),
    {
        let ghost ns = self.nodes@;
        let ghost es = self.edges@;
        let mut out = String::new();
        proof {
            assert(out@ =~= dump_spec(ns, es, 0));
        }
        let mut i: usize = 0;
        while i < self.nodes.len()
            invariant
                self.wf(),
                ns == self.nodes@,
                es == self.edges@,
                i <= ns.len(),
                out@ == dump_spec(ns, es, i as int),
            decreases ns.len() - i,
        {
            proof {
                reveal_strlit(" -> [");
                reveal_strlit("]\n");
                reveal_strlit(", ");
            }
            let sv = self.collect_succs(i);
            out.push_str(self.nodes[i].parent.as_str());
            out.push('.');
            out.push_str(self.nodes[i].name.as_str());
            out.push_str(" -> [");
            proof {
                assert(" -> ["@ =~= seq![' ', '-', '>', ' ', '[']);
                assert(out@ =~= dump_spec(ns, es, i as int) + port_label(ns[i as int]) + seq![
                    ' ',
                    '-',
                    '>',
                    ' ',
                    '[',
                ] + join_labels(sv@.take(0)));
            }
            let mut j: usize = 0;
            while j < sv.len()
                invariant
                    self.wf(),
                    ns == self.nodes@,
                    es == self.edges@,
                    i < ns.len(),
                    j <= sv@.len(),
                    sv@ == succs(ns, es, i),
                    out@ == dump_spec(ns, es, i as int) + port_label(ns[i as int]) + seq![
                        ' ',
                        '-',
                        '>',
                        ' ',
                        '[',
                    ] + join_labels(sv@.take(j as int)),
                decreases sv@.len() - j,
            {
                proof {
                    reveal_strlit(", ");
                }
                if j > 0 {
                    out.push_str(", ");
                }
                out.push_str(sv[j].parent.as_str());
                out.push('.');
                out.push_str(sv[j].name.as_str());
                proof {
                    let t = sv@.take(j + 1 as int);
                    assert(t.drop_last() =~= sv@.take(j as int));
                    assert(t.last() == sv@[j as int]);
                    assert(", "@ =~= seq![',', ' ']);
                    if j == 0 {
                        assert(t.len() == 1);
                        assert(t[0] == sv@[0]);
                        assert(join_labels(t) == port_label(sv@[0]));
                    }
                    assert(out@ =~= dump_spec(ns, es, i as int) + port_label(ns[i as int]) + seq![
                        ' ',
                        '-',
                        '>',
                        ' ',
                        '[',
                    ] + join_labels(sv@.take(j + 1 as int)));
                }
                j = j + 1;
            }
            out.push_str("]\n");
            proof {
                assert(sv@.take(sv@.len() as int) =~= sv@);
                assert("]\n"@ =~= seq![']', '\n']);
                assert(out@ =~= dump_spec(ns, es, i + 1 as int));
            }
            i = i + 1;
        }
        out
    }
}

/// Whether some assignment of the list references the port identity `id`:
/// as its source, its destination, or inside its guard.
pub open spec fn references(asgns: Seq<Assignment>, id: PortId) -> bool {
    exists|i: int|
        0 <= i < asgns.len() && ((#[trigger] asgns[i]).src.id == id || asgns[i].dst.id == id
            || exists|j: int|
            0 <= j < asgns[i].guard_ports().len() && (#[trigger] asgns[i].guard_ports()[j]).id
                == id)
}

/// Adding a list of ports as nodes adds exactly their identities.
proof fn lemma_add_ports_ids(ns: Seq<Port>, ps: Seq<Port>, id: PortId)
    ensures
        contains_id(add_ports_spec(ns, ps), id) <==> contains_id(ns, id) || exists|j: int|
            0 <= j < ps.len() && (#[trigger] ps[j]).id == id,
    decreases ps.len(),
{
    if ps.len() > 0 {
        lemma_add_ports_ids(ns, ps.drop_last(), id);
        let pre = add_ports_spec(ns, ps.drop_last());
        if contains_id(pre, id) {
            lemma_id_index_stable(pre, add_node_spec(pre, ps.last()), id);
            if add_node_spec(pre, ps.last()) != pre {
                assert(add_node_spec(pre, ps.last()) == pre.push(ps.last()));
            }
        }
        if ps.last().id == id {
            let t = add_node_spec(pre, ps.last());
            if contains_id(pre, id) {
            } else {
                assert(t == pre.push(ps.last()));
                assert(t[t.len() - 1].id == id);
            }
            assert(ps[ps.len() - 1].id == id);
        }
        if contains_id(add_ports_spec(ns, ps), id) && !contains_id(pre, id) {
            let t = add_node_spec(pre, ps.last());
            let k = choose|k: int| 0 <= k < t.len() && (#[trigger] t[k]).id == id;
            if t != pre {
                assert(t == pre.push(ps.last()));
                assert(k == t.len() - 1);
                assert(ps[ps.len() - 1].id == id);
            }
        }
        assert forall|j: int|
            0 <= j < ps.drop_last().len() && (#[trigger] ps.drop_last()[j]).id == id implies ps[j].id
            == id by {}
        assert forall|j: int| 0 <= j < ps.len() - 1 && (#[trigger] ps[j]).id == id implies
            ps.drop_last()[j].id == id by {}
    }
}

/// Every port referenced by some assignment corresponds to a graph node,
/// and only referenced ports do: building the graph of a list of
/// assignments covers exactly the referenced identities.  Together with the
/// distinctness of node identities, each such port corresponds to exactly
/// one node.
pub proof fn lemma_build_nodes_referenced(ns: Seq<Port>, asgns: Seq<Assignment>, id: PortId)
    ensures
        contains_id(build_nodes_spec(ns, asgns), id) <==> contains_id(ns, id) || references(
            asgns,
            id,
        ),
    decreases asgns.len(),
{
    if asgns.len() > 0 {
        lemma_build_nodes_referenced(ns, asgns.drop_last(), id);
        let pre = build_nodes_spec(ns, asgns.drop_last());
        let a = asgns.last();
        let n1 = add_node_spec(pre, a.src);
        let n2 = add_node_spec(n1, a.dst);
        lemma_add_ports_ids(n2, a.guard_ports(), id);
        assert(contains_id(n1, id) <==> contains_id(pre, id) || a.src.id == id) by {
            lemma_add_one_id(pre, a.src, id);
        }
        assert(contains_id(n2, id) <==> contains_id(n1, id) || a.dst.id == id) by {
            lemma_add_one_id(n1, a.dst, id);
        }
        if references(asgns, id) && !references(asgns.drop_last(), id) {
            let i = choose|i: int|
                0 <= i < asgns.len() && ((#[trigger] asgns[i]).src.id == id || asgns[i].dst.id
                    == id || exists|j: int|
                    0 <= j < asgns[i].guard_ports().len() && (
                    #[trigger] asgns[i].guard_ports()[j]).id == id);
            if i < asgns.len() - 1 {
                assert(asgns.drop_last()[i] == asgns[i]);
                assert(references(asgns.drop_last(), id));
            }
        }
        if references(asgns.drop_last(), id) {
            let i = choose|i: int|
                0 <= i < asgns.drop_last().len() && ((#[trigger] asgns.drop_last()[i]).src.id == id
                    || asgns.drop_last()[i].dst.id == id || exists|j: int|
                    0 <= j < asgns.drop_last()[i].guard_ports().len() && (
                    #[trigger] asgns.drop_last()[i].guard_ports()[j]).id == id);
            assert(asgns[i] == asgns.drop_last()[i]);
            assert(references(asgns, id));
        }
        if a.src.id == id || a.dst.id == id || exists|j: int|
            0 <= j < a.guard_ports().len() && (#[trigger] a.guard_ports()[j]).id == id {
            assert(asgns[asgns.len() - 1] == a);
            assert(references(asgns, id));
        }
    }
}

/// Adding one port as a node adds exactly its identity.
proof fn lemma_add_one_id(ns: Seq<Port>, p: Port, id: PortId)
    ensures
        contains_id(add_node_spec(ns, p), id) <==> contains_id(ns, id) || p.id == id,
{
    let t = add_node_spec(ns, p);
    if t != ns {
        assert(t == ns.push(p));
        assert(t[t.len() - 1].id == p.id);
        if contains_id(t, id) && !contains_id(ns, id) {
            let k = choose|k: int| 0 <= k < t.len() && (#[trigger] t[k]).id == id;
            assert(k == t.len() - 1);
        }
        if contains_id(ns, id) {
            let k = choose|k: int| 0 <= k < ns.len() && (#[trigger] ns[k]).id == id;
            assert(t[k].id == id);
        }
    }
}

/// An edge's destination is among the ports its source reads from: for any
/// edge `u -> v` of a well-formed graph, `v` is in `reads_from(u)` and `u`
/// is in `writes_to(v)`, whenever each is defined.
pub proof fn lemma_edge_in_reads_writes(ns: Seq<Port>, es: Seq<(usize, usize)>, k: int)
    requires
        edges_ok(es, ns.len()),
        0 <= k < es.len(),
    ensures
        succs(ns, es, es[k].0).contains(ns[es[k].1 as int]),
        preds(ns, es, es[k].1).contains(ns[es[k].0 as int]),
    decreases es.len(),
{
    if k == es.len() - 1 {
        assert(succs(ns, es, es[k].0).last() == ns[es[k].1 as int]);
        assert(preds(ns, es, es[k].1).last() == ns[es[k].0 as int]);
    } else {
        lemma_edge_in_reads_writes(ns, es.drop_last(), k);
        assert(es.drop_last()[k] == es[k]);
        let u = es[k].0;
        let v = es[k].1;
        let i1 = choose|i: int|
            0 <= i < succs(ns, es.drop_last(), u).len() && succs(ns, es.drop_last(), u)[i] == ns[es[k].1 as int];
        if es.last().0 == u {
            assert(succs(ns, es, u)[i1] == ns[es[k].1 as int]);
        } else {
            assert(succs(ns, es, u)[i1] == ns[es[k].1 as int]);
        }
        let i2 = choose|i: int|
            0 <= i < preds(ns, es.drop_last(), v).len() && preds(ns, es.drop_last(), v)[i] == ns[es[k].0 as int];
        if es.last().1 == v {
            assert(preds(ns, es, v)[i2] == ns[es[k].0 as int]);
        } else {
            assert(preds(ns, es, v)[i2] == ns[es[k].0 as int]);
        }
    }
}

/// In a topological order every edge's source comes before its target:
/// positions in the order respect every edge.
pub proof fn lemma_topo_respects_edges(
    ord: Seq<usize>,
    n: nat,
    es: Seq<(usize, usize)>,
    k: int,
    i: int,
    j: int,
)
    requires
        is_topo_order(ord, n, es),
        0 <= k < es.len(),
        0 <= i < ord.len(),
        0 <= j < ord.len(),
        ord[i] == es[k].0,
        ord[j] == es[k].1,
    ensures
        i < j,
{
}

/// No simple path leads from a port back to itself: with `start == finish`
/// the path would have to repeat its first node.
pub proof fn lemma_paths_no_self(n: nat, es: Seq<(usize, usize)>, a: usize, p: Seq<usize>)
    ensures
        !is_simple_path(n, es, a, a, p),
{
    if is_simple_path(n, es, a, a, p) {
        assert(p[0] == p[p.len() - 1]);
        assert(false);
    }
}

/// Building the graph of a concatenation of assignment lists builds the
/// first list, then the second on top of it.
proof fn lemma_build_concat(ns: Seq<Port>, a: Seq<Assignment>, b: Seq<Assignment>)
    ensures
        build_nodes_spec(ns, a + b) == build_nodes_spec(build_nodes_spec(ns, a), b),
    decreases b.len(),
{
    if b.len() == 0 {
        assert(a + b =~= a);
    } else {
        assert((a + b).drop_last() =~= a + b.drop_last());
        assert((a + b).last() == b.last());
        lemma_build_concat(ns, a, b.drop_last());
    }
}

/// Building the edges of a concatenation of assignment lists builds the
/// first list's edges, then the second's on top of the first's nodes.
proof fn lemma_build_edges_concat(ns: Seq<Port>, a: Seq<Assignment>, b: Seq<Assignment>)
    ensures
        build_edges_spec(ns, a + b) == build_edges_spec(ns, a) + build_edges_spec(
            build_nodes_spec(ns, a),
            b,
        ),
    decreases b.len(),
{
    if b.len() == 0 {
        assert(a + b =~= a);
        assert(build_edges_spec(ns, a) + build_edges_spec(build_nodes_spec(ns, a), b)
            =~= build_edges_spec(ns, a));
    } else {
        assert((a + b).drop_last() =~= a + b.drop_last());
        assert((a + b).last() == b.last());
        lemma_build_edges_concat(ns, a, b.drop_last());
        lemma_build_concat(ns, a, b);
        assert(build_edges_spec(ns, a + b) =~= build_edges_spec(ns, a) + build_edges_spec(
            build_nodes_spec(ns, a),
            b,
        ));
    }
}

/// Edge counts add up over concatenation.
proof fn lemma_count_concat(a: Seq<Assignment>, b: Seq<Assignment>)
    ensures
        edge_count_spec(a + b) == edge_count_spec(a) + edge_count_spec(b),
    decreases b.len(),
{
    if b.len() == 0 {
        assert(a + b =~= a);
    } else {
        assert((a + b).drop_last() =~= a + b.drop_last());
        assert((a + b).last() == b.last());
        lemma_count_concat(a, b.drop_last());
    }
}

/// Growing the node list by `add_node_spec` moves no existing identity's
/// first occurrence.
pub proof fn lemma_id_index_stable(ns: Seq<Port>, ns2: Seq<Port>, id: PortId)
    requires
        contains_id(ns, id),
        ns2 == ns || exists|p: Port| ns2 == ns.push(p),
    ensures
        contains_id(ns2, id),
        id_index(ns2, id) == id_index(ns, id),
{
    if ns2 != ns {
        let p = choose|p: Port| ns2 == ns.push(p);
        lemma_id_index_push(ns, id, p);
    }
}

/// One step of `add_ports_spec` from the end.
pub proof fn lemma_add_ports_snoc(ns: Seq<Port>, ps: Seq<Port>, j: int)
    requires
        0 <= j < ps.len(),
    ensures
        add_ports_spec(ns, ps.take(j + 1)) == add_node_spec(add_ports_spec(ns, ps.take(j)), ps[j]),
{
    assert(ps.take(j + 1).drop_last() =~= ps.take(j));
    assert(ps.take(j + 1).last() == ps[j]);
}

} // verus!
