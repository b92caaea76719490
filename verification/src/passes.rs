//! Passes over a component's interface.

use vstd::prelude::*;

use crate::component::Component;
use crate::ir::Cell;
use crate::ir::Direction;
use crate::ir::Port;
use crate::ir::PortId;

verus! {

/// The cell holds a port with this name.
pub open spec fn cell_has_name(c: Cell, n: Seq<char>) -> bool {
    exists|j: int| 0 <= j < c.ports@.len() && (#[trigger] c.ports@[j]).name@ == n
}

/// The cell holds a port with this name, width and direction.
pub open spec fn cell_has_shaped(c: Cell, n: Seq<char>, w: u64, d: Direction) -> bool {
    exists|j: int|
        0 <= j < c.ports@.len() && (#[trigger] c.ports@[j]).name@ == n && c.ports@[j].width == w
            && c.ports@[j].direction == d
}

/// Gives a component a latency-insensitive interface: a `valid` and a `clk`
/// input and a `ready` output on its signature, added when missing.
pub struct LatencyInsensitive {}

impl LatencyInsensitive {
    /// The pass's name.
    pub fn name() -> (r: &'static str)
        ensures
            r@ == "latency-insensitive"@,
    {
        "latency-insensitive"
    }

    /// What the pass does.
    pub fn description() -> (r: &'static str)
        ensures
            r@.len() > 0,
    {
        proof {
            reveal_strlit("adds a latency insensitive interface to a component");
        }
        "adds a latency insensitive interface to a component"
    }

    /// Ensure the signature carries ports named `valid`, `clk` and `ready`,
    /// adding any that are missing as one-bit ports: the two inputs appear
    /// inside the component as outputs and the output as an input.  Existing
    /// ports are left unchanged, a present name is never re-added, and when
    /// all three names are already present the component is left untouched —
    /// so running the pass twice leaves what one run left.
    pub fn start(&self, comp: &mut Component)
        requires
            old(comp).wf(),
        ensures
            final(comp).wf(),
            cell_has_name(final(comp).signature, "valid"@),
            cell_has_name(final(comp).signature, "clk"@),
            cell_has_name(final(comp).signature, "ready"@),
            !cell_has_name(old(comp).signature, "valid"@) ==> cell_has_shaped(
                final(comp).signature,
                "valid"@,
                1,
                Direction::Output,
            ),
            !cell_has_name(old(comp).signature, "clk"@) ==> cell_has_shaped(
                final(comp).signature,
                "clk"@,
                1,
                Direction::Output,
            ),
            !cell_has_name(old(comp).signature, "ready"@) ==> cell_has_shaped(
                final(comp).signature,
                "ready"@,
                1,
                Direction::Input,
            ),
            cell_has_name(old(comp).signature, "valid"@) && cell_has_name(
                old(comp).signature,
                "clk"@,
            ) && cell_has_name(old(comp).signature, "ready"@) ==> *final(comp) == *old(comp),
            final(comp).signature.ports@.len() <= old(comp).signature.ports@.len() + 3,
            final(comp).signature.ports@.take(old(comp).signature.ports@.len() as int) == old(
                comp,
            ).signature.ports@,
            final(comp).cells_spec() == old(comp).cells_spec(),
            final(comp).groups_spec() == old(comp).groups_spec(),
            final(comp).continuous_assignments == old(comp).continuous_assignments,
            final(comp).control == old(comp).control,
            final(comp).name == old(comp).name,
    {
        let valid: String = "valid".to_owned();
        let clk: String = "clk".to_owned();
        let ready: String = "ready".to_owned();
        let ghost p0 = comp.signature.ports@;
        Self::ensure_port(comp, valid, Direction::Output);
        let ghost s1 = comp.signature;
        let ghost p1 = comp.signature.ports@;
        Self::ensure_port(comp, clk, Direction::Output);
        let ghost s2 = comp.signature;
        let ghost p2 = comp.signature.ports@;
        Self::ensure_port(comp, ready, Direction::Input);
        proof {
            let p3 = comp.signature.ports@;
            assert(p0.len() <= p1.len() <= p2.len() <= p3.len());
            assert forall|i: int| 0 <= i < p0.len() implies p3[i] == p0[i] by {
                assert(p1.take(p0.len() as int)[i] == p1[i]);
                assert(p2.take(p1.len() as int)[i] == p2[i]);
                assert(p3.take(p2.len() as int)[i] == p3[i]);
            }
            assert(final(comp).signature.ports@.take(old(comp).signature.ports@.len() as int)
                =~= old(comp).signature.ports@);
            reveal_strlit("valid");
            reveal_strlit("clk");
            reveal_strlit("ready");
            assert("valid"@.len() == 5 && "clk"@.len() == 3 && "ready"@.len() == 5);
            assert("valid"@[0] == 'v' && "ready"@[0] == 'r');
            assert("valid"@ != "clk"@ && "valid"@ != "ready"@ && "clk"@ != "ready"@);
            if !cell_has_name(old(comp).signature, "clk"@) && cell_has_name(s1, "clk"@) {
                let j = choose|j: int|
                    0 <= j < s1.ports@.len() && (#[trigger] s1.ports@[j]).name@ == "clk"@;
                assert(j < p0.len() || s1.ports@[j].name@ == "valid"@);
                assert(false);
            }
            if !cell_has_name(old(comp).signature, "ready"@) {
                if cell_has_name(s1, "ready"@) {
                    let j = choose|j: int|
                        0 <= j < s1.ports@.len() && (#[trigger] s1.ports@[j]).name@ == "ready"@;
                    assert(j < p0.len() || s1.ports@[j].name@ == "valid"@);
                    assert(false);
                }
                if cell_has_name(s2, "ready"@) {
                    let j = choose|j: int|
                        0 <= j < s2.ports@.len() && (#[trigger] s2.ports@[j]).name@ == "ready"@;
                    assert(j < p1.len() || s2.ports@[j].name@ == "clk"@);
                    assert(false);
                }
                assert(p3 == p2.push(
                    (Port {
                        id: (PortId { cell: 0, port: p2.len() as usize }),
                        parent: s2.name,
                        name: ready,
                        width: 1,
                        direction: Direction::Input,
                    }),
                ));
                assert(p3[p3.len() - 1].name@ == "ready"@ && p3[p3.len() - 1].width == 1 && p3[
                    p3.len() - 1].direction == Direction::Input);
            }
        }
    }

    /// Add a one-bit port with this name and internal direction to the
    /// signature, unless one with the name exists.
    fn ensure_port(comp: &mut Component, name: String, dir: Direction)
        requires
            old(comp).wf(),
        ensures
            final(comp).wf(),
            cell_has_name(final(comp).signature, name@),
            cell_has_name(old(comp).signature, name@) ==> *final(comp) == *old(comp),
            !cell_has_name(old(comp).signature, name@) ==> final(comp).signature.ports@ == old(
                comp,
            ).signature.ports@.push(
                (Port {
                    id: (PortId { cell: 0, port: old(comp).signature.ports@.len() as usize }),
                    parent: old(comp).signature.name,
                    name: name,
                    width: 1,
                    direction: dir,
                }),
            ),
            final(comp).signature.ports@.take(old(comp).signature.ports@.len() as int) == old(
                comp,
            ).signature.ports@,
            forall|n: Seq<char>|
                cell_has_name(old(comp).signature, n) ==> #[trigger] cell_has_name(
                    final(comp).signature,
                    n,
                ),
            old(comp).signature.ports@.len() <= final(comp).signature.ports@.len() <= old(
                comp,
            ).signature.ports@.len() + 1,
            final(comp).cells_spec() == old(comp).cells_spec(),
            final(comp).groups_spec() == old(comp).groups_spec(),
            final(comp).continuous_assignments == old(comp).continuous_assignments,
            final(comp).control == old(comp).control,
            final(comp).name == old(comp).name,
    {
        let ghost ports0 = comp.signature.ports@;
        let mut j: usize = 0;
        while j < comp.signature.ports.len()
            invariant
                *comp == *old(comp),
                old(comp).wf(),
                j <= comp.signature.ports@.len(),
                forall|m: int|
                    0 <= m < j ==> (#[trigger] comp.signature.ports@[m]).name@ != name@,
            decreases comp.signature.ports@.len() - j,
        {
            if comp.signature.ports[j].name.eq(&name) {
                proof {
                    assert((#[trigger] comp.signature.ports@[j as int]).name@ == name@);
                    assert(cell_has_name(comp.signature, name@));
                    assert(comp.signature.ports@.take(comp.signature.ports@.len() as int)
                        =~= comp.signature.ports@);
                }
                return ;
            }
            j = j + 1;
        }
        let idx: usize = comp.signature.ports.len();
        let port = Port {
            id: PortId { cell: 0, port: idx },
            parent: comp.signature.name.clone(),
            name,
            width: 1,
            direction: dir,
        };
        comp.signature.ports.push(port);
        proof {
            let t = comp.signature.ports@;
            assert(t[idx as int].name@ == name@);
            assert(cell_has_name(comp.signature, name@));
            assert(t.take(ports0.len() as int) =~= ports0);
            assert forall|m: int| 0 <= m < t.len() implies {
                &&& (#[trigger] t[m]).id == (PortId { cell: comp.signature.id, port: m as usize })
                &&& t[m].parent@ == comp.signature.name@
            } by {
                if m < idx {
                    assert(ports0[m].id == (PortId { cell: old(comp).signature.id, port: m as usize }));
                }
            }
            assert forall|n: Seq<char>| cell_has_name(old(comp).signature, n) implies
                #[trigger] cell_has_name(final(comp).signature, n) by {
                let m = choose|m: int|
                    0 <= m < ports0.len() && (#[trigger] ports0[m]).name@ == n;
                assert(t[m].name@ == n);
            }
            assert forall|a: int, b: int|
                0 <= a < b < final(comp).groups_spec().len() implies (
            #[trigger] final(comp).groups_spec()[a]).name@ != (
            #[trigger] final(comp).groups_spec()[b]).name@ by {
                assert((#[trigger] old(comp).groups_spec()[a]).name@ != (
                #[trigger] old(comp).groups_spec()[b]).name@);
            }
            assert forall|a: int|
                0 <= a < final(comp).cells_spec().len() implies (
            #[trigger] final(comp).cells_spec()[a]).wf() && 1 <= final(comp).cells_spec()[a].id
                < final(comp).next_cell_spec() by {
                assert((#[trigger] old(comp).cells_spec()[a]).wf());
                assert(1 <= old(comp).cells_spec()[a].id < old(comp).next_cell_spec());
            }
            assert forall|a: int, b: int|
                0 <= a < b < final(comp).cells_spec().len() implies (
            #[trigger] final(comp).cells_spec()[a]).id != (
            #[trigger] final(comp).cells_spec()[b]).id by {
                assert((#[trigger] old(comp).cells_spec()[a]).id != (
                #[trigger] old(comp).cells_spec()[b]).id);
            }
        }
    }
}

} // verus!
