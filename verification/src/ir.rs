//! The IR data model: ports, cells, guards, assignments, groups and the
//! control tree.
//!
//! Cells live in an arena inside a component and are addressed by stable
//! integer identifiers; a port is addressed by the pair of its owning cell's
//! identifier and its position within the cell.  Identifier `0` is reserved
//! for the component's own signature cell.

use vstd::prelude::*;

verus! {

/// The direction of a signal port.
#[derive(Clone, Copy, Debug, PartialEq, Eq, Structural)]
pub enum Direction {
    Input,
    Output,
    Inout,
}

impl Direction {
    /// The direction seen from the other side of a boundary: inputs become
    /// outputs and vice versa.
    pub fn reverse(self) -> (r: Direction)
        ensures
            r == self.reverse_spec(),
    {
        match self {
            Direction::Input => Direction::Output,
            Direction::Output => Direction::Input,
            Direction::Inout => Direction::Inout,
        }
    }

    /// What `reverse` returns.
    pub open spec fn reverse_spec(self) -> Direction {
        match self {
            Direction::Input => Direction::Output,
            Direction::Output => Direction::Input,
            Direction::Inout => Direction::Inout,
        }
    }
}

/// The identity of a port: the stable identifier of its owning cell and its
/// position among that cell's ports.  Unique within a component.
#[derive(Clone, Copy, Debug, PartialEq, Eq, Structural)]
pub struct PortId {
    pub cell: usize,
    pub port: usize,
}

/// A named signal terminal on a cell.
///
/// `parent` is the owning cell's name, carried as a plain value in place of a
/// back-reference; `id.cell` is the owning cell's stable identifier.
#[derive(Debug)]
pub struct Port {
    pub id: PortId,
    pub parent: String,
    pub name: String,
    pub width: u64,
    pub direction: Direction,
}

impl Clone for Port {
    fn clone(&self) -> (r: Self)
        ensures
            r == *self,
    {
        Port {
            id: self.id,
            parent: self.parent.clone(),
            name: self.name.clone(),
            width: self.width,
            direction: self.direction,
        }
    }
}

impl Port {
    /// The key a port is indexed by in name-based lookups: owning cell's name and
    /// the port's own name.
    pub fn key(&self) -> (r: (String, String))
        ensures
            r.0 == self.parent,
            r.1 == self.name,
    {
        (self.parent.clone(), self.name.clone())
    }

    /// The owning cell's name.
    pub fn get_parent_name(&self) -> (r: &String)
        ensures
            r == &self.parent,
    {
        &self.parent
    }
}

/// What a cell instantiates.
#[derive(Clone, Copy, Debug, PartialEq, Eq, Structural)]
pub enum CellKind {
    /// A library primitive.
    Primitive,
    /// An instance of another component.
    Component,
    /// A constant; the payload is its value, driven on every port of the
    /// cell.
    Constant(u64),
    /// The enclosing component's own boundary signature.
    ThisComponent,
}

/// An instantiated cell: a named bundle of ports.
#[derive(Debug)]
pub struct Cell {
    /// Stable identifier of this cell within its component's arena.
    pub id: usize,
    pub name: String,
    pub kind: CellKind,
    pub ports: Vec<Port>,
}

impl Cell {
    /// Internal consistency: every port's identity points back at this cell
    /// and carries this cell's name.
    pub open spec fn wf(self) -> bool {
        forall|j: int|
            0 <= j < self.ports@.len() ==> {
                &&& (#[trigger] self.ports@[j]).id == (PortId { cell: self.id, port: j as usize })
                &&& self.ports@[j].parent@ == self.name@
            }
    }

    /// A copy of this cell, its ports included.
    pub fn clone_cell(&self) -> (r: Cell)
        ensures
            r.id == self.id,
            r.name == self.name,
            r.kind == self.kind,
            r.ports@ == self.ports@,
            self.wf() ==> r.wf(),
    {
        let mut ports: Vec<Port> = Vec::new();
        let mut j: usize = 0;
        while j < self.ports.len()
            invariant
                j <= self.ports@.len(),
                ports@ == self.ports@.take(j as int),
            decreases self.ports@.len() - j,
        {
            ports.push(self.ports[j].clone());
            proof {
                assert(ports@ =~= self.ports@.take(j + 1 as int));
            }
            j = j + 1;
        }
        proof {
            assert(self.ports@.take(self.ports@.len() as int) =~= self.ports@);
        }
        Cell { id: self.id, name: self.name.clone(), kind: self.kind, ports }
    }

    /// The cell's name.
    pub fn name(&self) -> (r: &String)
        ensures
            r == &self.name,
    {
        &self.name
    }
}

/// Construct a cell with identifier `id` from an input/output signature given
/// as `(name, width)` pairs: input ports first, then output ports.
pub fn cell_from_signature(
    id: usize,
    name: String,
    kind: CellKind,
    inputs: &Vec<(String, u64)>,
    outputs: &Vec<(String, u64)>,
) -> (r: Cell)
    ensures
        r.id == id,
        r.name == name,
        r.kind == kind,
        r.wf(),
        r.ports@.len() == inputs@.len() + outputs@.len(),
        forall|j: int|
            0 <= j < inputs@.len() ==> {
                &&& (#[trigger] r.ports@[j]).name == inputs@[j].0
                &&& r.ports@[j].width == inputs@[j].1
                &&& r.ports@[j].direction == Direction::Input
            },
        forall|j: int|
            inputs@.len() <= j < r.ports@.len() ==> {
                &&& (#[trigger] r.ports@[j]).name == outputs@[j - inputs@.len()].0
                &&& r.ports@[j].width == outputs@[j - inputs@.len()].1
                &&& r.ports@[j].direction == Direction::Output
            },
{
    let mut ports: Vec<Port> = Vec::new();
    let mut j: usize = 0;
    while j < inputs.len()
        invariant
            j <= inputs@.len(),
            ports@.len() == j,
            forall|k: int|
                0 <= k < j ==> {
                    &&& (#[trigger] ports@[k]).id == (PortId { cell: id, port: k as usize })
                    &&& ports@[k].parent@ == name@
                    &&& ports@[k].name == inputs@[k].0
                    &&& ports@[k].width == inputs@[k].1
                    &&& ports@[k].direction == Direction::Input
                },
        decreases inputs@.len() - j,
    {
        ports.push(
            Port {
                id: PortId { cell: id, port: j },
                parent: name.clone(),
                name: inputs[j].0.clone(),
                width: inputs[j].1,
                direction: Direction::Input,
            },
        );
        j = j + 1;
    }
    let n_in: usize = j;
    let mut k: usize = 0;
    while k < outputs.len()
        invariant
            n_in == inputs@.len(),
            k <= outputs@.len(),
            ports@.len() == n_in + k,
            forall|m: int|
                0 <= m < n_in ==> {
                    &&& (#[trigger] ports@[m]).id == (PortId { cell: id, port: m as usize })
                    &&& ports@[m].parent@ == name@
                    &&& ports@[m].name == inputs@[m].0
                    &&& ports@[m].width == inputs@[m].1
                    &&& ports@[m].direction == Direction::Input
                },
            forall|m: int|
                n_in <= m < ports@.len() ==> {
                    &&& (#[trigger] ports@[m]).id == (PortId { cell: id, port: m as usize })
                    &&& ports@[m].parent@ == name@
                    &&& ports@[m].name == outputs@[m - n_in].0
                    &&& ports@[m].width == outputs@[m - n_in].1
                    &&& ports@[m].direction == Direction::Output
                },
        decreases outputs@.len() - k,
    {
        let idx: usize = ports.len();
        ports.push(
            Port {
                id: PortId { cell: id, port: idx },
                parent: name.clone(),
                name: outputs[k].0.clone(),
                width: outputs[k].1,
                direction: Direction::Output,
            },
        );
        k = k + 1;
    }
    Cell { id, name, kind, ports }
}

/// The decimal digit character for `d`.
pub open spec fn digit_char(d: int) -> char {
    ((48 + d) as u8) as char
}

/// The decimal representation of `v`.
pub open spec fn dec_str(v: nat) -> Seq<char>
    decreases v,
{
    if v < 10 {
        seq![digit_char(v as int)]
    } else {
        dec_str(v / 10).push(digit_char((v % 10) as int))
    }
}

/// Render `v` in decimal.
pub fn u64_to_string(v: u64) -> (s: String)
    ensures
        s@ == dec_str(v as nat),
    decreases v,
{
    if v < 10 {
        let mut s = String::new();
        s.push((48 + v as u8) as char);
        s
    } else {
        let mut s = u64_to_string(v / 10);
        s.push((48 + (v % 10) as u8) as char);
        s
    }
}

/// Construct the cell representing the constant `val` of the given bit
/// width: a single output port named `out`, with the cell named after the
/// value.
pub fn build_constant(id: usize, val: u64, width: u64) -> (r: Cell)
    ensures
        r.id == id,
        r.kind == CellKind::Constant(val),
        r.wf(),
        r.name@ == seq!['_'] + dec_str(val as nat),
        r.ports@.len() == 1,
        r.ports@[0].name@ == "out"@,
        r.ports@[0].width == width,
        r.ports@[0].direction == Direction::Output,
{
    let mut name = String::new();
    name.push('_');
    let digits = u64_to_string(val);
    name.push_str(digits.as_str());
    proof {
        reveal_strlit("out");
    }
    let mut outs: Vec<(String, u64)> = Vec::new();
    let mut out_name = String::new();
    out_name.push('o');
    out_name.push('u');
    out_name.push('t');
    outs.push((out_name, width));
    let ins: Vec<(String, u64)> = Vec::new();
    proof {
        assert(seq!['o', 'u', 't'] =~= "out"@) by {
            reveal_strlit("out");
        }
        assert(Seq::<char>::empty().push('o').push('u').push('t') =~= seq!['o', 'u', 't']);
        assert(name@ =~= seq!['_'] + dec_str(val as nat));
    }
    cell_from_signature(id, name, CellKind::Constant(val), &ins, &outs)
}

/// A boolean gating expression over port values: a strict tree of
/// port-reference leaves, logical connectives and binary comparisons.
///
/// A guard evaluates to an unsigned value; any nonzero value counts as true.
#[derive(Debug)]
pub enum Guard {
    Port(Port),
    And(Box<Guard>, Box<Guard>),
    Or(Box<Guard>, Box<Guard>),
    Not(Box<Guard>),
    Eq(Box<Guard>, Box<Guard>),
    Neq(Box<Guard>, Box<Guard>),
    Gt(Box<Guard>, Box<Guard>),
    Lt(Box<Guard>, Box<Guard>),
    Geq(Box<Guard>, Box<Guard>),
    Leq(Box<Guard>, Box<Guard>),
}

impl Guard {
    /// The ports read anywhere inside the guard, leftmost first, one
    /// occurrence per reference.
    pub open spec fn ports_spec(self) -> Seq<Port>
        decreases self,
    {
        match self {
            Guard::Port(p) => seq![p],
            Guard::Not(g) => g.ports_spec(),
            Guard::And(a, b) => a.ports_spec() + b.ports_spec(),
            Guard::Or(a, b) => a.ports_spec() + b.ports_spec(),
            Guard::Eq(a, b) => a.ports_spec() + b.ports_spec(),
            Guard::Neq(a, b) => a.ports_spec() + b.ports_spec(),
            Guard::Gt(a, b) => a.ports_spec() + b.ports_spec(),
            Guard::Lt(a, b) => a.ports_spec() + b.ports_spec(),
            Guard::Geq(a, b) => a.ports_spec() + b.ports_spec(),
            Guard::Leq(a, b) => a.ports_spec() + b.ports_spec(),
        }
    }

    /// Collect every port read inside the guard.
    pub fn all_ports(&self) -> (r: Vec<Port>)
        ensures
            r@ == self.ports_spec(),
        decreases *self,
    {
        match self {
            Guard::Port(p) => {
                let mut v: Vec<Port> = Vec::new();
                v.push(p.clone());
                proof {
                    assert(v@ =~= self.ports_spec());
                }
                v
            },
            Guard::Not(g) => g.all_ports(),
            Guard::And(a, b) => Self::joined(a.all_ports(), b.all_ports()),
            Guard::Or(a, b) => Self::joined(a.all_ports(), b.all_ports()),
            Guard::Eq(a, b) => Self::joined(a.all_ports(), b.all_ports()),
            Guard::Neq(a, b) => Self::joined(a.all_ports(), b.all_ports()),
            Guard::Gt(a, b) => Self::joined(a.all_ports(), b.all_ports()),
            Guard::Lt(a, b) => Self::joined(a.all_ports(), b.all_ports()),
            Guard::Geq(a, b) => Self::joined(a.all_ports(), b.all_ports()),
            Guard::Leq(a, b) => Self::joined(a.all_ports(), b.all_ports()),
        }
    }

    /// Concatenate two port lists.
    fn joined(a: Vec<Port>, b: Vec<Port>) -> (r: Vec<Port>)
        ensures
            r@ == a@ + b@,
    {
        let mut a = a;
        let mut b = b;
        a.append(&mut b);
        a
    }
}

/// A guarded wire: `dst = guard ? src`.  The referenced ports are carried as
/// plain copies; an assignment does not own the component's ports.
#[derive(Debug)]
pub struct Assignment {
    pub dst: Port,
    pub src: Port,
    pub guard: Option<Guard>,
}

impl Assignment {
    /// Identities of the ports read by this assignment's guard, leftmost
    /// first.
    pub open spec fn guard_ports(self) -> Seq<Port> {
        match self.guard {
            Option::Some(g) => g.ports_spec(),
            Option::None => Seq::empty(),
        }
    }
}

/// A named, control-addressable bundle of assignments.
#[derive(Debug)]
pub struct Group {
    pub name: String,
    pub assignments: Vec<Assignment>,
}

/// The hierarchical control program: a strict tree.
///
/// Groups are referenced by name and are looked up in the enclosing component
/// at interpretation time.
#[derive(Debug)]
pub enum Control {
    /// Run the children in order, threading the environment through them.
    Sequence(Vec<Control>),
    /// Fork the environment once per child, run every child, merge.
    Par(Vec<Control>),
    /// Evaluate the condition group, read the test port, then run exactly one
    /// branch.
    If(Port, String, Box<Control>, Box<Control>),
    /// Repeatedly evaluate the condition group and run the body while the
    /// test port is nonzero.
    While(Port, String, Box<Control>),
    /// Run the named group to its fixpoint, then its exit protocol.
    Enable(String),
    /// Cross-component invocation; its semantics are not defined by this
    /// core.
    Invoke,
    /// Let only the continuous assignments settle.
    Empty,
}

impl Control {
    /// An empty control program.
    pub fn empty() -> (r: Control)
        ensures
            r == Control::Empty,
    {
        Control::Empty
    }

    /// A control program enabling one group.
    pub fn enable(group: String) -> (r: Control)
        ensures
            r == Control::Enable(group),
    {
        Control::Enable(group)
    }

    /// A sequential composition.
    pub fn sequence(stmts: Vec<Control>) -> (r: Control)
        ensures
            r == Control::Sequence(stmts),
    {
        Control::Sequence(stmts)
    }

    /// A parallel composition.
    pub fn par(stmts: Vec<Control>) -> (r: Control)
        ensures
            r == Control::Par(stmts),
    {
        Control::Par(stmts)
    }

    /// A conditional over a test port and its condition group.
    pub fn if_(port: Port, cond: String, tbranch: Box<Control>, fbranch: Box<Control>) -> (r:
        Control)
        ensures
            r == Control::If(port, cond, tbranch, fbranch),
    {
        Control::If(port, cond, tbranch, fbranch)
    }

    /// A loop over a test port and its condition group.
    pub fn while_(port: Port, cond: String, body: Box<Control>) -> (r: Control)
        ensures
            r == Control::While(port, cond, body),
    {
        Control::While(port, cond, body)
    }
}

} // verus!
