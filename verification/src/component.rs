//! A component: one compilation unit.  It owns a signature cell, an arena of
//! instantiated cells, a set of named groups, its always-active continuous
//! assignments, and one control program.

use vstd::prelude::*;

use crate::ir::Assignment;
use crate::ir::Cell;
use crate::ir::Control;
use crate::ir::Direction;
use crate::ir::Group;
use crate::ir::Port;
use crate::ir::PortId;
use crate::ir::dec_str;
use crate::ir::u64_to_string;

verus! {

/// The assignments of a list of groups, concatenated in order.
pub open spec fn groups_assignments(gs: Seq<Group>) -> Seq<Assignment>
    decreases gs.len(),
{
    if gs.len() == 0 {
        Seq::empty()
    } else {
        groups_assignments(gs.drop_last()) + gs.last().assignments@
    }
}

/// In-memory representation of a component.
#[derive(Debug)]
pub struct Component {
    /// Name of the component.
    pub name: String,
    /// The input/output signature, as a cell with identifier `0` whose port
    /// directions are reversed with respect to the outside view.
    pub signature: Cell,
    /// The cells instantiated for this component, addressed by stable
    /// identifiers handed out in instantiation order.
    pub cells: Vec<Cell>,
    /// Groups of assignment wires, with pairwise distinct names.
    pub groups: Vec<Group>,
    /// The assignments that are always active.
    pub continuous_assignments: Vec<Assignment>,
    /// The control program for this component.
    pub control: Control,
    /// Counter backing `generate_name`.
    pub namegen: u64,
    /// The next cell identifier to hand out.
    pub next_cell: usize,
}

impl Component {
    /// The instantiated cells, in instantiation order.
    pub open spec fn cells_spec(self) -> Seq<Cell> {
        self.cells@
    }

    /// The groups, in insertion order.
    pub open spec fn groups_spec(self) -> Seq<Group> {
        self.groups@
    }

    /// The counter backing `generate_name`.
    pub open spec fn namegen_spec(self) -> u64 {
        self.namegen
    }

    /// The next cell identifier `add_cell` will accept.
    pub open spec fn next_cell_spec(self) -> usize {
        self.next_cell
    }

    /// Every assignment of the component: the continuous ones, then each
    /// group's, in order.
    pub open spec fn all_assignments(self) -> Seq<Assignment> {
        self.continuous_assignments@ + groups_assignments(self.groups_spec())
    }

    /// Well-formedness: the signature is cell `0` and internally consistent,
    /// cell identifiers are distinct, positive and below the arena counter,
    /// every cell is internally consistent, and group names are pairwise
    /// distinct.
    pub open spec fn wf(self) -> bool {
        &&& self.signature.id == 0
        &&& 1 <= self.next_cell_spec()
        &&& self.signature.wf()
        &&& forall|i: int|
            0 <= i < self.cells_spec().len() ==> (#[trigger] self.cells_spec()[i]).wf()
        &&& forall|i: int|
            0 <= i < self.cells_spec().len() ==> 1 <= (#[trigger] self.cells_spec()[i]).id
                < self.next_cell_spec()
        &&& forall|i: int, j: int|
            0 <= i < j < self.cells_spec().len() ==> (#[trigger] self.cells_spec()[i]).id != (
            #[trigger] self.cells_spec()[j]).id
        &&& forall|i: int, j: int|
            0 <= i < j < self.groups_spec().len() ==> (#[trigger] self.groups_spec()[i]).name@ != (
            #[trigger] self.groups_spec()[j]).name@
    }

    /// Construct a new component with the given name and signature ports,
    /// given as `(name, width, direction)` triples.  The signature cell sees
    /// the ports from the inside, so each direction is reversed.
    pub fn new(name: String, ports: &Vec<(String, u64, Direction)>) -> (r: Component)
        ensures
            r.wf(),
            r.name == name,
            r.signature.name@ == "_this"@,
            r.signature.kind == crate::ir::CellKind::ThisComponent,
            r.signature.ports@.len() == ports@.len(),
            forall|j: int|
                0 <= j < ports@.len() ==> {
                    &&& (#[trigger] r.signature.ports@[j]).name == ports@[j].0
                    &&& r.signature.ports@[j].width == ports@[j].1
                    &&& r.signature.ports@[j].direction == ports@[j].2.reverse_spec()
                },
            r.cells_spec() == Seq::<Cell>::empty(),
            r.groups_spec() == Seq::<Group>::empty(),
            r.continuous_assignments@ == Seq::<Assignment>::empty(),
            r.control == Control::Empty,
            r.next_cell_spec() == 1,
    {
        let mut sig_name = String::new();
        sig_name.push('_');
        sig_name.push('t');
        sig_name.push('h');
        sig_name.push('i');
        sig_name.push('s');
        proof {
            reveal_strlit("_this");
            assert(sig_name@ =~= "_this"@);
        }
        let mut sig_ports: Vec<Port> = Vec::new();
        let mut j: usize = 0;
        while j < ports.len()
            invariant
                j <= ports@.len(),
                sig_ports@.len() == j,
                forall|k: int|
                    0 <= k < j ==> {
                        &&& (#[trigger] sig_ports@[k]).id == (PortId { cell: 0, port: k as usize })
                        &&& sig_ports@[k].parent@ == sig_name@
                        &&& sig_ports@[k].name == ports@[k].0
                        &&& sig_ports@[k].width == ports@[k].1
                        &&& sig_ports@[k].direction == ports@[k].2.reverse_spec()
                    },
            decreases ports@.len() - j,
        {
            sig_ports.push(
                Port {
                    id: PortId { cell: 0, port: j },
                    parent: sig_name.clone(),
                    name: ports[j].0.clone(),
                    width: ports[j].1,
                    direction: ports[j].2.reverse(),
                },
            );
            j = j + 1;
        }
        let signature = Cell {
            id: 0,
            name: sig_name,
            kind: crate::ir::CellKind::ThisComponent,
            ports: sig_ports,
        };
        let r = Component {
            name,
            signature,
            cells: Vec::new(),
            groups: Vec::new(),
            continuous_assignments: Vec::new(),
            control: Control::empty(),
            namegen: 0,
            next_cell: 1,
        };
        proof {
            assert(r.cells_spec() =~= Seq::<Cell>::empty());
            assert(r.groups_spec() =~= Seq::<Group>::empty());
            assert(r.continuous_assignments@ =~= Seq::<Assignment>::empty());
        }
        r
    }

    /// A reference to the group named `name`, if present.
    pub fn find_group(&self, name: &String) -> (r: Option<&Group>)
        ensures
            match r {
                Option::Some(g) => exists|i: int|
                    0 <= i < self.groups_spec().len() && *g == self.groups_spec()[i] && (
                    #[trigger] self.groups_spec()[i]).name@ == name@,
                Option::None => forall|i: int|
                    0 <= i < self.groups_spec().len() ==> (#[trigger] self.groups_spec()[i]).name@
                        != name@,
            },
    {
        let mut i: usize = 0;
        while i < self.groups.len()
            invariant
                i <= self.groups@.len(),
                forall|k: int| 0 <= k < i ==> (#[trigger] self.groups@[k]).name@ != name@,
            decreases self.groups@.len() - i,
        {
            if self.groups[i].name.eq(name) {
                proof {
                    assert((#[trigger] self.groups_spec()[i as int]).name@ == name@);
                }
                return Option::Some(&self.groups[i]);
            }
            i = i + 1;
        }
        Option::None
    }

    /// A reference to the instantiated cell named `name`, if present.
    pub fn find_cell(&self, name: &String) -> (r: Option<&Cell>)
        ensures
            match r {
                Option::Some(c) => exists|i: int|
                    0 <= i < self.cells_spec().len() && *c == self.cells_spec()[i] && (
                    #[trigger] self.cells_spec()[i]).name@ == name@,
                Option::None => forall|i: int|
                    0 <= i < self.cells_spec().len() ==> (#[trigger] self.cells_spec()[i]).name@
                        != name@,
            },
    {
        let mut i: usize = 0;
        while i < self.cells.len()
            invariant
                i <= self.cells@.len(),
                forall|k: int| 0 <= k < i ==> (#[trigger] self.cells@[k]).name@ != name@,
            decreases self.cells@.len() - i,
        {
            if self.cells[i].name.eq(name) {
                proof {
                    assert((#[trigger] self.cells_spec()[i as int]).name@ == name@);
                }
                return Option::Some(&self.cells[i]);
            }
            i = i + 1;
        }
        Option::None
    }

    /// Construct a fresh name from a prefix and the component's name
    /// counter.
    pub fn generate_name(&mut self, prefix: &str) -> (r: String)
        ensures
            r@ == prefix@ + dec_str(old(self).namegen_spec() as nat),
            final(self).namegen_spec() == if old(self).namegen_spec() < u64::MAX {
                (old(self).namegen_spec() + 1) as u64
            } else {
                old(self).namegen_spec()
            },
            final(self).cells_spec() == old(self).cells_spec(),
            final(self).groups_spec() == old(self).groups_spec(),
            final(self).signature == old(self).signature,
            final(self).name == old(self).name,
            final(self).control == old(self).control,
            final(self).continuous_assignments == old(self).continuous_assignments,
            final(self).next_cell_spec() == old(self).next_cell_spec(),
            old(self).wf() ==> final(self).wf(),
    {
        let mut out = String::new();
        out.push_str(prefix);
        let digits = u64_to_string(self.namegen);
        out.push_str(digits.as_str());
        if self.namegen < u64::MAX {
            self.namegen = self.namegen + 1;
        }
        out
    }

    /// The groups contained in this component.
    pub fn iter_groups(&self) -> (r: &Vec<Group>)
        ensures
            r@ == self.groups_spec(),
    {
        &self.groups
    }

    /// The cells contained in this component.
    pub fn iter_cells(&self) -> (r: &Vec<Cell>)
        ensures
            r@ == self.cells_spec(),
    {
        &self.cells
    }

    /// Add a group.  A group with the same name is replaced in place;
    /// otherwise the group is appended.
    pub fn add_group(&mut self, group: Group)
        requires
            old(self).wf(),
        ensures
            final(self).wf(),
            final(self).cells_spec() == old(self).cells_spec(),
            final(self).continuous_assignments == old(self).continuous_assignments,
            exists|i: int|
                0 <= i < final(self).groups_spec().len() && final(self).groups_spec()[i] == group
                    && (#[trigger] final(self).groups_spec()[i]).name@ == group.name@,
            forall|n: Seq<char>|
                n != group.name@ ==> #[trigger] group_with_name(final(self).groups_spec(), n)
                    == group_with_name(old(self).groups_spec(), n),
    {
        let ghost gs0 = self.groups@;
        let mut i: usize = 0;
        while i < self.groups.len()
            invariant
                *self == *old(self),
                old(self).wf(),
                self.groups@ == gs0,
                i <= gs0.len(),
                forall|k: int| 0 <= k < i ==> (#[trigger] gs0[k]).name@ != group.name@,
            decreases gs0.len() - i,
        {
            if self.groups[i].name.eq(&group.name) {
                proof {
                    assert(gs0[i as int].name@ == group.name@);
                    let t = gs0.update(i as int, group);
                    assert(t[i as int] == group);
                    assert forall|n: Seq<char>| n != group.name@ implies group_with_name(t, n)
                        == group_with_name(gs0, n) by {
                        lemma_group_with_name_update(gs0, i as int, group, n);
                    }
                    assert forall|a: int, b: int| 0 <= a < b < t.len() implies (
                    #[trigger] t[a]).name@ != (#[trigger] t[b]).name@ by {
                        assert((#[trigger] old(self).groups_spec()[a]).name@ != (
                        #[trigger] old(self).groups_spec()[b]).name@);
                    }
                }
                self.groups.set(i, group);
                return ;
            }
            i = i + 1;
        }
        proof {
            let t = gs0.push(group);
            assert(t[gs0.len() as int] == group);
            assert forall|n: Seq<char>| n != group.name@ implies group_with_name(t, n)
                == group_with_name(gs0, n) by {
                lemma_group_with_name_push(gs0, group, n);
            }
            assert forall|a: int, b: int| 0 <= a < b < t.len() implies (#[trigger] t[a]).name@ != (
            #[trigger] t[b]).name@ by {
                if b < gs0.len() {
                    assert((#[trigger] old(self).groups_spec()[a]).name@ != (
                    #[trigger] old(self).groups_spec()[b]).name@);
                } else {
                    assert(t[b].name@ == group.name@);
                    assert(t[a].name@ == gs0[a].name@);
                }
            }
        }
        self.groups.push(group);
    }

    /// Remove every group.
    pub fn clear_groups(&mut self)
        ensures
            final(self).groups_spec() == Seq::<Group>::empty(),
            final(self).cells_spec() == old(self).cells_spec(),
            final(self).continuous_assignments == old(self).continuous_assignments,
            final(self).signature == old(self).signature,
            final(self).control == old(self).control,
            final(self).next_cell_spec() == old(self).next_cell_spec(),
            old(self).wf() ==> final(self).wf(),
    {
        self.groups = Vec::new();
        proof {
            assert(self.groups@ =~= Seq::<Group>::empty());
        }
    }

    /// The identifier the next added cell must carry.
    pub fn next_cell_id(&self) -> (r: usize)
        ensures
            r == self.next_cell_spec(),
    {
        self.next_cell
    }

    /// Add a cell built with the identifier this component handed out.
    pub fn add_cell(&mut self, cell: Cell)
        requires
            old(self).wf(),
            cell.wf(),
            cell.id == old(self).next_cell_spec(),
            old(self).next_cell_spec() < usize::MAX,
        ensures
            final(self).wf(),
            final(self).cells_spec() == old(self).cells_spec().push(cell),
            final(self).groups_spec() == old(self).groups_spec(),
            final(self).continuous_assignments == old(self).continuous_assignments,
            final(self).signature == old(self).signature,
            final(self).control == old(self).control,
            final(self).next_cell_spec() == old(self).next_cell_spec() + 1,
    {
        let ghost cs0 = self.cells@;
        self.cells.push(cell);
        self.next_cell = self.next_cell + 1;
        proof {
            let t = self.cells@;
            assert forall|a: int, b: int| 0 <= a < b < t.len() implies (#[trigger] t[a]).id != (
            #[trigger] t[b]).id by {
                if b < cs0.len() {
                    assert((#[trigger] old(self).cells_spec()[a]).id != (
                    #[trigger] old(self).cells_spec()[b]).id);
                } else {
                    assert(t[b].id == cell.id);
                    assert((#[trigger] old(self).cells_spec()[a]).id < old(self).next_cell_spec());
                }
            }
            assert forall|a: int| 0 <= a < t.len() implies (#[trigger] t[a]).wf() && 1 <= t[a].id
                < self.next_cell by {
                if a < cs0.len() {
                    assert((#[trigger] old(self).cells_spec()[a]).wf());
                    assert(1 <= old(self).cells_spec()[a].id < old(self).next_cell_spec());
                } else {
                    assert(t[a] == cell);
                }
            }
            assert forall|a: int, b: int|
                0 <= a < b < final(self).groups_spec().len() implies (
            #[trigger] final(self).groups_spec()[a]).name@ != (
            #[trigger] final(self).groups_spec()[b]).name@ by {
                assert((#[trigger] old(self).groups_spec()[a]).name@ != (
                #[trigger] old(self).groups_spec()[b]).name@);
            }
        }
    }

    /// Add a list of cells, built with consecutive identifiers starting at
    /// the one this component handed out.
    pub fn add_cells(&mut self, cells: Vec<Cell>)
        requires
            old(self).wf(),
            old(self).next_cell_spec() + cells@.len() < usize::MAX,
            forall|i: int| 0 <= i < cells@.len() ==> (#[trigger] cells@[i]).wf(),
            forall|i: int|
                0 <= i < cells@.len() ==> (#[trigger] cells@[i]).id == old(self).next_cell_spec()
                    + i,
        ensures
            final(self).wf(),
            final(self).cells_spec() == old(self).cells_spec() + cells@,
            final(self).groups_spec() == old(self).groups_spec(),
            final(self).continuous_assignments == old(self).continuous_assignments,
            final(self).next_cell_spec() == old(self).next_cell_spec() + cells@.len(),
    {
        let ghost cs0 = self.cells@;
        let ghost cin = cells@;
        let mut cells = cells;
        let mut i: usize = 0;
        while cells.len() > 0
            invariant
                self.wf(),
                i + cells@.len() == cin.len(),
                cells@ == cin.skip(i as int),
                self.cells@ == cs0 + cin.take(i as int),
                self.next_cell_spec() == old(self).next_cell_spec() + i,
                self.groups@ == old(self).groups@,
                self.signature == old(self).signature,
                self.continuous_assignments == old(self).continuous_assignments,
                old(self).next_cell_spec() + cin.len() < usize::MAX,
                forall|k: int| 0 <= k < cin.len() ==> (#[trigger] cin[k]).wf(),
                forall|k: int|
                    0 <= k < cin.len() ==> (#[trigger] cin[k]).id == old(self).next_cell_spec()
                        + k,
            decreases cells@.len(),
        {
            let c = cells.remove(0);
            proof {
                assert(c == cin[i as int]);
                assert(cells@ =~= cin.skip(i + 1 as int));
            }
            self.add_cell(c);
            proof {
                assert(self.cells@ =~= cs0 + cin.take(i + 1 as int));
            }
            i = i + 1;
        }
        proof {
            assert(cin.take(cin.len() as int) =~= cin);
        }
    }

    /// Keep only the cells the predicate accepts, preserving order: the
    /// remaining cells are exactly those the predicate answered true for,
    /// in their prior order, as the decision sequence below pins down.
    pub fn retain_cells<F: Fn(&Cell) -> bool>(&mut self, f: F)
        requires
            old(self).wf(),
            forall|c: Cell| #[trigger] call_requires(f, (&c,)),
        ensures
            final(self).wf(),
            final(self).groups_spec() == old(self).groups_spec(),
            final(self).continuous_assignments == old(self).continuous_assignments,
            final(self).next_cell_spec() == old(self).next_cell_spec(),
            final(self).signature == old(self).signature,
            final(self).name == old(self).name,
            final(self).control == old(self).control,
            final(self).namegen_spec() == old(self).namegen_spec(),
            exists|ds: Seq<bool>|
                {
                    &&& ds.len() == old(self).cells_spec().len()
                    &&& (forall|j: int|
                        0 <= j < ds.len() ==> call_ensures(
                            f,
                            (&old(self).cells_spec()[j],),
                            #[trigger] ds[j],
                        ))
                    &&& final(self).cells_spec() == #[trigger] cells_where(
                        old(self).cells_spec(),
                        ds,
                    )
                },
            forall|j: int|
                0 <= j < old(self).cells_spec().len() && (forall|ret: bool|
                    call_ensures(f, (&(#[trigger] old(self).cells_spec()[j]),), ret) ==> ret
                        == true) ==> is_among(
                    old(self).cells_spec()[j],
                    final(self).cells_spec(),
                ),
            forall|i: int|
                0 <= i < final(self).cells_spec().len() ==> is_among(
                    #[trigger] final(self).cells_spec()[i],
                    old(self).cells_spec(),
                ),
            forall|i: int|
                0 <= i < final(self).cells_spec().len() ==> call_ensures(
                    f,
                    (&(#[trigger] final(self).cells_spec()[i]),),
                    true,
                ),
    {
        let ghost cs0 = self.cells@;
        let n0: usize = self.cells.len();
        let mut all: Vec<Cell> = Vec::new();
        core::mem::swap(&mut all, &mut self.cells);
        let ghost mut ds: Seq<bool> = Seq::empty();
        let mut i: usize = 0;
        while all.len() > 0
            invariant
                old(self).wf(),
                cs0.len() == n0,
                self.signature == old(self).signature,
                self.name == old(self).name,
                self.control == old(self).control,
                self.groups@ == old(self).groups@,
                self.continuous_assignments == old(self).continuous_assignments,
                self.next_cell == old(self).next_cell,
                self.namegen == old(self).namegen,
                cs0 == old(self).cells@,
                i + all@.len() == cs0.len(),
                all@ == cs0.skip(i as int),
                ds.len() == i,
                forall|j: int|
                    0 <= j < i ==> call_ensures(f, (&cs0[j],), #[trigger] ds[j]),
                self.cells@ == cells_where(cs0.take(i as int), ds),
                forall|c: Cell| #[trigger] call_requires(f, (&c,)),
                forall|k: int|
                    0 <= k < self.cells@.len() ==> is_among(
                        #[trigger] self.cells@[k],
                        cs0.take(i as int),
                    ),
                forall|k: int|
                    0 <= k < self.cells@.len() ==> call_ensures(
                        f,
                        (&(#[trigger] self.cells@[k]),),
                        true,
                    ),
                forall|a: int, b: int|
                    0 <= a < b < self.cells@.len() ==> (#[trigger] self.cells@[a]).id != (
                    #[trigger] self.cells@[b]).id,
                forall|k: int|
                    0 <= k < self.cells@.len() ==> (#[trigger] self.cells@[k]).wf() && 1
                        <= self.cells@[k].id < self.next_cell,
            decreases all@.len(),
        {
            let c = all.remove(0);
            proof {
                assert(c == cs0[i as int]);
                assert(all@ =~= cs0.skip(i + 1 as int));
                assert((#[trigger] old(self).cells_spec()[i as int]).wf());
                assert(1 <= old(self).cells_spec()[i as int].id < old(self).next_cell_spec());
            }
            proof {
                let pre0 = cs0.take(i as int);
                let post0 = cs0.take(i + 1 as int);
                assert forall|k: int| 0 <= k < self.cells@.len() implies is_among(
                    #[trigger] self.cells@[k],
                    post0,
                ) by {
                    let j = choose|j: int| 0 <= j < pre0.len() && #[trigger] pre0[j]
                        == self.cells@[k];
                    assert(post0[j] == self.cells@[k]);
                }
            }
            let kept_now = f(&c);
            proof {
                let ds1 = ds.push(kept_now);
                assert(ds1.drop_last() =~= ds);
                assert(cs0.take(i + 1 as int).drop_last() =~= cs0.take(i as int));
                assert(cs0.take(i + 1 as int).last() == c);
                ds = ds1;
            }
            if kept_now {
                proof {
                    let ks = self.cells@.push(c);
                    let pre = cs0.take(i as int);
                    assert forall|a: int, b: int| 0 <= a < b < ks.len() implies (
                    #[trigger] ks[a]).id != (#[trigger] ks[b]).id by {
                        if b + 1 == ks.len() {
                            let j = choose|j: int| 0 <= j < pre.len() && #[trigger] pre[j]
                                == self.cells@[a];
                            assert(pre[j] == cs0[j]);
                            assert((#[trigger] old(self).cells_spec()[j]).id != (
                            #[trigger] old(self).cells_spec()[i as int]).id);
                            assert(self.cells@[a].id != c.id);
                        } else {
                            assert(self.cells@[a].id != self.cells@[b].id);
                        }
                    }
                }
                self.cells.push(c);
            }
            i = i + 1;
        }
        proof {
            assert(cs0.take(i as int) =~= cs0);
            assert(final(self).cells_spec() == cells_where(old(self).cells_spec(), ds));
            assert forall|j: int|
                0 <= j < old(self).cells_spec().len() && (forall|ret: bool|
                    call_ensures(f, (&(#[trigger] old(self).cells_spec()[j]),), ret) ==> ret
                        == true) implies is_among(
                old(self).cells_spec()[j],
                final(self).cells_spec(),
            ) by {
                assert(call_ensures(f, (&cs0[j],), ds[j]));
                assert(ds[j]);
                lemma_cells_where_kept(cs0, ds, j);
            }
            assert forall|k: int| 0 <= k < final(self).cells_spec().len() implies is_among(
                #[trigger] final(self).cells_spec()[k],
                old(self).cells_spec(),
            ) by {
                assert(is_among(self.cells@[k], cs0.take(i as int)));
            }
            assert forall|a: int, b: int|
                0 <= a < b < final(self).groups_spec().len() implies (
            #[trigger] final(self).groups_spec()[a]).name@ != (
            #[trigger] final(self).groups_spec()[b]).name@ by {
                assert((#[trigger] old(self).groups_spec()[a]).name@ != (
                #[trigger] old(self).groups_spec()[b]).name@);
            }
            assert(final(self).signature.wf());
            assert(1 <= final(self).next_cell_spec());
        }
    }

    /// Remove and return every cell, leaving the arena empty.  Identifiers
    /// already handed out are never reused.
    pub fn drain_cells(&mut self) -> (r: Vec<Cell>)
        ensures
            r@ == old(self).cells_spec(),
            final(self).cells_spec() == Seq::<Cell>::empty(),
            final(self).groups_spec() == old(self).groups_spec(),
            final(self).continuous_assignments == old(self).continuous_assignments,
            final(self).signature == old(self).signature,
            final(self).next_cell_spec() == old(self).next_cell_spec(),
            old(self).wf() ==> final(self).wf(),
    {
        let mut out: Vec<Cell> = Vec::new();
        core::mem::swap(&mut out, &mut self.cells);
        proof {
            assert(self.cells@ =~= Seq::<Cell>::empty());
        }
        out
    }
}

/// `c` occurs in `s`.
pub open spec fn is_among(c: Cell, s: Seq<Cell>) -> bool {
    exists|j: int| 0 <= j < s.len() && #[trigger] s[j] == c
}

/// The cells selected by a sequence of per-cell decisions, in order.
pub open spec fn cells_where(s: Seq<Cell>, ds: Seq<bool>) -> Seq<Cell>
    decreases s.len(),
{
    if s.len() == 0 {
        Seq::empty()
    } else if ds.last() {
        cells_where(s.drop_last(), ds.drop_last()).push(s.last())
    } else {
        cells_where(s.drop_last(), ds.drop_last())
    }
}

/// A cell whose decision is true appears in the selection.
proof fn lemma_cells_where_kept(s: Seq<Cell>, ds: Seq<bool>, j: int)
    requires
        ds.len() == s.len(),
        0 <= j < s.len(),
        ds[j],
    ensures
        is_among(s[j], cells_where(s, ds)),
    decreases s.len(),
{
    if j == s.len() - 1 {
        let w = cells_where(s, ds);
        assert(w[w.len() - 1] == s[j]);
    } else {
        lemma_cells_where_kept(s.drop_last(), ds.drop_last(), j);
        let c = s.drop_last()[j];
        let pre = cells_where(s.drop_last(), ds.drop_last());
        let k = choose|k: int| 0 <= k < pre.len() && #[trigger] pre[k] == c;
        assert(cells_where(s, ds)[k] == c);
    }
}

/// The first group carrying a name, if any: what `find_group` resolves.
pub open spec fn group_with_name(gs: Seq<Group>, name: Seq<char>) -> Option<Group>
    decreases gs.len(),
{
    if gs.len() == 0 {
        Option::None
    } else if gs[0].name@ == name {
        Option::Some(gs[0])
    } else {
        group_with_name(gs.drop_first(), name)
    }
}

/// When no group carries a name, `group_with_name` resolves to nothing.
pub proof fn lemma_group_with_name_absent(gs: Seq<Group>, name: Seq<char>)
    requires
        forall|i: int| 0 <= i < gs.len() ==> (#[trigger] gs[i]).name@ != name,
    ensures
        group_with_name(gs, name) == Option::<Group>::None,
    decreases gs.len(),
{
    if gs.len() > 0 {
        assert(gs[0].name@ != name);
        assert forall|i: int| 0 <= i < gs.drop_first().len() implies (
        #[trigger] gs.drop_first()[i]).name@ != name by {
            assert(gs[i + 1].name@ != name);
        }
        lemma_group_with_name_absent(gs.drop_first(), name);
    }
}

/// Under pairwise distinct group names, `group_with_name` resolves a present
/// name to the group that carries it.
pub proof fn lemma_group_with_name_found(gs: Seq<Group>, name: Seq<char>, i: int)
    requires
        forall|a: int, b: int|
            0 <= a < b < gs.len() ==> (#[trigger] gs[a]).name@ != (#[trigger] gs[b]).name@,
        0 <= i < gs.len(),
        gs[i].name@ == name,
    ensures
        group_with_name(gs, name) == Option::Some(gs[i]),
    decreases gs.len(),
{
    if i == 0 {
    } else {
        assert(gs[0].name@ != name);
        assert forall|a: int, b: int| 0 <= a < b < gs.drop_first().len() implies (
        #[trigger] gs.drop_first()[a]).name@ != (#[trigger] gs.drop_first()[b]).name@ by {
            assert(gs[a + 1].name@ != gs[b + 1].name@);
        }
        assert(gs.drop_first()[i - 1] == gs[i]);
        lemma_group_with_name_found(gs.drop_first(), name, i - 1);
    }
}

/// Appending a group changes `group_with_name` only at that group's name.
proof fn lemma_group_with_name_push(gs: Seq<Group>, g: Group, n: Seq<char>)
    requires
        n != g.name@,
    ensures
        group_with_name(gs.push(g), n) == group_with_name(gs, n),
    decreases gs.len(),
{
    let t = gs.push(g);
    if gs.len() == 0 {
        assert(t[0] == g);
        assert(t.drop_first() =~= gs);
    } else {
        assert(t[0] == gs[0]);
        assert(t.drop_first() =~= gs.drop_first().push(g));
        lemma_group_with_name_push(gs.drop_first(), g, n);
    }
}

/// Updating one group changes `group_with_name` only at that group's names.
proof fn lemma_group_with_name_update(gs: Seq<Group>, i: int, g: Group, n: Seq<char>)
    requires
        0 <= i < gs.len(),
        n != g.name@,
        n != gs[i].name@,
    ensures
        group_with_name(gs.update(i, g), n) == group_with_name(gs, n),
    decreases gs.len(),
{
    let t = gs.update(i, g);
    if gs.len() > 0 {
        if i == 0 {
            assert(t.drop_first() =~= gs.drop_first());
        } else {
            assert(t[0] == gs[0]);
            assert(t.drop_first() =~= gs.drop_first().update(i - 1, g));
            if gs[0].name@ != n {
                lemma_group_with_name_update(gs.drop_first(), i - 1, g, n);
            }
        }
    }
}

} // verus!
