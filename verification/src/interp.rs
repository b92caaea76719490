//! The control interpreter: a state machine that walks the control tree,
//! driving the group-level evaluator and the environment to produce a final
//! store.
//!
//! Every function is proved to return exactly what the specification-level
//! interpreter `interp_spec` describes.  A `While` whose condition never
//! clears would run forever; the interpreter carries an iteration budget so
//! large it is unreachable in practice, and reports a failure to converge
//! were it ever exhausted.

use vstd::prelude::*;

use crate::component::Component;
use crate::component::group_with_name;
use crate::environment::EnvModel;
use crate::environment::Environment;
use crate::environment::absorb_model;
use crate::environment::absorb_merge;
use crate::environment::fork_model;
use crate::environment::merge_model;
use crate::environment::state_merger;
use crate::errors::IrError;
use crate::fixpoint::finish_group_interpretation;
use crate::fixpoint::finish_group_spec;
use crate::fixpoint::interp_cont;
use crate::fixpoint::interp_cont_spec;
use crate::fixpoint::interpret_group;
use crate::fixpoint::interpret_group_spec;
use crate::ir::Assignment;
use crate::ir::Control;
use crate::ir::Group;
use crate::ir::Port;

verus! {

/// The iteration budget of a `While` loop: never reached by a program that
/// terminates in any practical sense.
pub const WHILE_BUDGET: u64 = u64::MAX;

/// The number of nodes in a control tree.
pub open spec fn ctrl_size(c: Control) -> nat
    decreases c, 0nat,
{
    match c {
        Control::Sequence(cs) => 1 + ctrls_size(cs@),
        Control::Par(cs) => 1 + ctrls_size(cs@),
        Control::If(_, _, t, f) => 1 + ctrl_size(*t) + ctrl_size(*f),
        Control::While(_, _, b) => 1 + ctrl_size(*b),
        Control::Enable(_) => 1,
        Control::Invoke => 1,
        Control::Empty => 1,
    }
}

/// The total number of nodes in a list of control trees.
pub open spec fn ctrls_size(cs: Seq<Control>) -> nat
    decreases cs, cs.len(),
{
    if cs.len() == 0 {
        0
    } else {
        ctrl_size(cs[0]) + ctrls_size(cs.drop_first())
    }
}

/// Each tree of a list is no larger than the whole list.
pub proof fn lemma_ctrls_size_elem(cs: Seq<Control>, i: int)
    requires
        0 <= i < cs.len(),
    ensures
        ctrl_size(cs[i]) <= ctrls_size(cs),
    decreases i,
{
    if i > 0 {
        lemma_ctrls_size_elem(cs.drop_first(), i - 1);
        assert(cs.drop_first()[i - 1] == cs[i]);
    }
}

/// Evaluate a condition group to its fixpoint, read the test port, and run
/// the group's exit protocol; yields the port's value and the environment
/// after the exit protocol.
pub open spec fn run_cond_spec(
    port: Port,
    cond: Seq<char>,
    ca: Seq<Assignment>,
    comp: Component,
    e: EnvModel,
) -> Result<(u64, EnvModel), IrError> {
    match group_with_name(comp.groups_spec(), cond) {
        Option::None => Result::Err(IrError::UndefinedReference),
        Option::Some(grp) => match interpret_group_spec(grp, ca, e) {
            Result::Err(x) => Result::Err(x),
            Result::Ok(e1) => if !e1.vals.dom().contains(port.id) {
                Result::Err(IrError::UndefinedReference)
            } else {
                match finish_group_spec(ca, e1) {
                    Result::Err(x) => Result::Err(x),
                    Result::Ok(e2) => Result::Ok((e1.vals[port.id], e2)),
                }
            },
        },
    }
}

/// Run the named group to its fixpoint, then its exit protocol.
pub open spec fn enable_spec(
    group: Seq<char>,
    ca: Seq<Assignment>,
    comp: Component,
    e: EnvModel,
) -> Result<EnvModel, IrError> {
    match group_with_name(comp.groups_spec(), group) {
        Option::None => Result::Err(IrError::UndefinedReference),
        Option::Some(grp) => match interpret_group_spec(grp, ca, e) {
            Result::Err(x) => Result::Err(x),
            Result::Ok(e1) => finish_group_spec(ca, e1),
        },
    }
}

/// What interpreting a control program yields, for every control variant.
pub open spec fn interp_spec(
    c: Control,
    ca: Seq<Assignment>,
    comp: Component,
    e: EnvModel,
) -> Result<EnvModel, IrError>
    decreases ctrl_size(c), 0nat, 0nat,
{
    match c {
        Control::Empty => interp_cont_spec(ca, e),
        Control::Invoke => Result::Err(IrError::UnsupportedControl),
        Control::Enable(g) => enable_spec(g@, ca, comp, e),
        Control::Sequence(cs) => seq_spec(cs@, ca, comp, e),
        Control::Par(cs) => par_block_spec(cs@, ca, comp, e),
        Control::If(port, cond, t, f) => if_spec(port, cond@, *t, *f, ca, comp, e),
        Control::While(port, cond, b) => while_spec(
            port,
            cond@,
            *b,
            ca,
            comp,
            e,
            WHILE_BUDGET as nat,
        ),
    }
}

/// Thread the environment through the children left to right; a child
/// failure aborts the whole sequence.
pub open spec fn seq_spec(
    cs: Seq<Control>,
    ca: Seq<Assignment>,
    comp: Component,
    e: EnvModel,
) -> Result<EnvModel, IrError>
    decreases ctrls_size(cs), cs.len(), 1nat,
{
    if cs.len() == 0 {
        Result::Ok(e)
    } else {
        match interp_spec(cs[0], ca, comp, e) {
            Result::Err(x) => Result::Err(x),
            Result::Ok(e1) => seq_spec(cs.drop_first(), ca, comp, e1),
        }
    }
}

/// Interpret each child to completion from its own fork of `base`, left to
/// right, collecting the resulting branch states; a child's failure is
/// returned unchanged and later children are not interpreted.
pub open spec fn par_run_spec(
    cs: Seq<Control>,
    ca: Seq<Assignment>,
    comp: Component,
    base: EnvModel,
) -> Result<Seq<EnvModel>, IrError>
    decreases ctrls_size(cs), cs.len(), 1nat,
{
    if cs.len() == 0 {
        Result::Ok(Seq::empty())
    } else {
        match interp_spec(cs[0], ca, comp, fork_model(base)) {
            Result::Err(x) => Result::Err(x),
            Result::Ok(b) => match par_run_spec(cs.drop_first(), ca, comp, base) {
                Result::Err(x) => Result::Err(x),
                Result::Ok(rest) => Result::Ok(seq![b] + rest),
            },
        }
    }
}

/// Fold the collected branch states into the merge accumulator, left to
/// right; the first write-write disagreement is a conflict.
pub open spec fn par_merge_spec(acc: EnvModel, branches: Seq<EnvModel>) -> Result<
    EnvModel,
    IrError,
>
    decreases branches.len(),
{
    if branches.len() == 0 {
        Result::Ok(acc)
    } else {
        match merge_model(acc, branches[0]) {
            Result::Err(x) => Result::Err(x),
            Result::Ok(a1) => par_merge_spec(a1, branches.drop_first()),
        }
    }
}

/// What a parallel block yields: every child interpreted from its own fork,
/// then all the branch states folded together and absorbed back into the
/// enclosing branch.
pub open spec fn par_block_spec(
    cs: Seq<Control>,
    ca: Seq<Assignment>,
    comp: Component,
    e: EnvModel,
) -> Result<EnvModel, IrError>
    decreases ctrls_size(cs), cs.len(), 2nat,
{
    match par_run_spec(cs, ca, comp, e) {
        Result::Err(x) => Result::Err(x),
        Result::Ok(bs) => match par_merge_spec(fork_model(e), bs) {
            Result::Err(x) => Result::Err(x),
            Result::Ok(m) => Result::Ok(absorb_model(e, m)),
        },
    }
}

/// Run the condition group, read the test port, and interpret exactly one
/// branch: the false branch on zero, the true branch on any nonzero value.
pub open spec fn if_spec(
    port: Port,
    cond: Seq<char>,
    t: Control,
    f: Control,
    ca: Seq<Assignment>,
    comp: Component,
    e: EnvModel,
) -> Result<EnvModel, IrError>
    decreases ctrl_size(t) + ctrl_size(f), 0nat, 1nat,
{
    match run_cond_spec(port, cond, ca, comp, e) {
        Result::Err(x) => Result::Err(x),
        Result::Ok((v, e2)) => if v == 0 {
            interp_spec(f, ca, comp, e2)
        } else {
            interp_spec(t, ca, comp, e2)
        },
    }
}

/// Repeatedly run the condition group and the body while the test port is
/// nonzero, for at most `k` further iterations.
pub open spec fn while_spec(
    port: Port,
    cond: Seq<char>,
    body: Control,
    ca: Seq<Assignment>,
    comp: Component,
    e: EnvModel,
    k: nat,
) -> Result<EnvModel, IrError>
    decreases ctrl_size(body), k, 1nat,
{
    match run_cond_spec(port, cond, ca, comp, e) {
        Result::Err(x) => Result::Err(x),
        Result::Ok((v, e2)) => if v == 0 {
            Result::Ok(e2)
        } else if k == 0 {
            Result::Err(IrError::NonConvergence)
        } else {
            match interp_spec(body, ca, comp, e2) {
                Result::Err(x) => Result::Err(x),
                Result::Ok(e3) => while_spec(port, cond, body, ca, comp, e3, (k - 1) as nat),
            }
        },
    }
}

/// The models of a list of branch environments, in order.
pub open spec fn branch_models(s: Seq<Environment>) -> Seq<EnvModel>
    decreases s.len(),
{
    if s.len() == 0 {
        Seq::empty()
    } else {
        branch_models(s.drop_last()).push(s.last()@)
    }
}

/// `branch_models` is the element-wise view.
pub proof fn lemma_branch_models(s: Seq<Environment>)
    ensures
        branch_models(s).len() == s.len(),
        forall|k: int| 0 <= k < s.len() ==> branch_models(s)[k] == (#[trigger] s[k])@,
    decreases s.len(),
{
    if s.len() > 0 {
        lemma_branch_models(s.drop_last());
        assert forall|k: int| 0 <= k < s.len() implies branch_models(s)[k] == (
        #[trigger] s[k])@ by {
            if k < s.len() - 1 {
                assert(s.drop_last()[k] == s[k]);
            }
        }
    }
}

/// The returned environment or error agrees with the model outcome.
pub open spec fn matches_model(r: Result<Environment, IrError>, s: Result<EnvModel, IrError>) -> bool {
    match r {
        Result::Ok(e) => s == Result::<EnvModel, IrError>::Ok(e@),
        Result::Err(x) => s == Result::<EnvModel, IrError>::Err(x),
    }
}

/// Sequential composition law: interpreting `Sequence([a, b])` from an
/// environment yields exactly what interpreting `b` after interpreting `a`
/// yields, failures propagating unchanged.
pub proof fn lemma_seq_composition(
    c: Control,
    a: Control,
    b: Control,
    ca: Seq<Assignment>,
    comp: Component,
    e: EnvModel,
)
    requires
        c matches Control::Sequence(stmts) && stmts@ == seq![a, b],
    ensures
        interp_spec(c, ca, comp, e) == (match interp_spec(a, ca, comp, e) {
            Result::Err(x) => Result::<EnvModel, IrError>::Err(x),
            Result::Ok(e1) => interp_spec(b, ca, comp, e1),
        }),
{
    let cs = seq![a, b];
    assert(cs[0] == a);
    assert(cs.drop_first() =~= seq![b]);
    assert(seq![b][0] == b);
    assert(seq![b].drop_first() =~= Seq::<Control>::empty());
    assert(interp_spec(c, ca, comp, e) == seq_spec(cs, ca, comp, e));
    match interp_spec(a, ca, comp, e) {
        Result::Err(x) => {
            assert(seq_spec(cs, ca, comp, e) == Result::<EnvModel, IrError>::Err(x));
        },
        Result::Ok(e1) => {
            assert(seq_spec(cs, ca, comp, e) == seq_spec(seq![b], ca, comp, e1));
            match interp_spec(b, ca, comp, e1) {
                Result::Err(x) => {
                    assert(seq_spec(seq![b], ca, comp, e1) == Result::<EnvModel, IrError>::Err(x));
                },
                Result::Ok(e2) => {
                    assert(seq_spec(seq![b], ca, comp, e1) == seq_spec(
                        Seq::<Control>::empty(),
                        ca,
                        comp,
                        e2,
                    ));
                },
            }
        },
    }
}

/// The value a port starts at: a constant cell drives its value on every
/// port, every other port starts at zero.
pub open spec fn init_val(k: crate::ir::CellKind) -> u64 {
    match k {
        crate::ir::CellKind::Constant(v) => v,
        _ => 0u64,
    }
}

/// The component holds a port with this identity, on its signature or on
/// one of its cells.
pub open spec fn comp_has_port(comp: Component, id: crate::ir::PortId) -> bool {
    (exists|j: int|
        0 <= j < comp.signature.ports@.len() && (#[trigger] comp.signature.ports@[j]).id == id)
        || (exists|i: int, j: int|
        0 <= i < comp.cells_spec().len() && 0 <= j < (#[trigger] comp.cells_spec()[i]).ports@.len()
            && (#[trigger] comp.cells_spec()[i].ports@[j]).id == id)
}

/// The initial environment of a component: every port of the signature and
/// of every cell is present, constants at their value and every other port
/// at zero; the clock is zero and nothing counts as written yet.
pub fn init_environment(comp: &Component) -> (r: Environment)
    requires
        comp.wf(),
    ensures
        r.wf(),
        r@.clk == 0,
        r@.writes == r@.vals,
        forall|id: crate::ir::PortId| r@.vals.dom().contains(id) <==> comp_has_port(*comp, id),
        forall|j: int|
            0 <= j < comp.signature.ports@.len() ==> r@.vals[(
            #[trigger] comp.signature.ports@[j]).id] == init_val(comp.signature.kind),
        forall|i: int, j: int|
            0 <= i < comp.cells_spec().len() && 0 <= j < (
            #[trigger] comp.cells_spec()[i]).ports@.len() ==> r@.vals[(
            #[trigger] comp.cells_spec()[i].ports@[j]).id] == init_val(comp.cells_spec()[i].kind),
{
    let mut env = Environment::new();
    let mut j: usize = 0;
    while j < comp.signature.ports.len()
        invariant
            comp.wf(),
            env.wf(),
            env@.clk == 0,
            env@.writes == env@.vals,
            j <= comp.signature.ports@.len(),
            forall|id: crate::ir::PortId|
                env@.vals.dom().contains(id) <==> exists|m: int|
                    0 <= m < j && (#[trigger] comp.signature.ports@[m]).id == id,
            forall|m: int|
                0 <= m < j ==> env@.vals[(#[trigger] comp.signature.ports@[m]).id] == init_val(
                    comp.signature.kind,
                ),
        decreases comp.signature.ports@.len() - j,
    {
        let ghost pre = env@.vals;
        let id = comp.signature.ports[j].id;
        let v = match comp.signature.kind {
            crate::ir::CellKind::Constant(c) => c,
            _ => 0u64,
        };
        env.set(id, v);
        proof {
            assert(comp.signature.ports@[j as int].id == id);
            assert forall|m: int| 0 <= m < j + 1 implies env@.vals[(
            #[trigger] comp.signature.ports@[m]).id] == init_val(comp.signature.kind) by {
                if m < j {
                    assert(comp.signature.ports@[m].id == (crate::ir::PortId {
                        cell: comp.signature.id,
                        port: m as usize,
                    }));
                    assert(comp.signature.ports@[j as int].id == (crate::ir::PortId {
                        cell: comp.signature.id,
                        port: j,
                    }));
                    assert(pre[comp.signature.ports@[m].id] == init_val(comp.signature.kind));
                }
            }
        }
        j = j + 1;
    }
    let mut i: usize = 0;
    while i < comp.cells.len()
        invariant
            comp.wf(),
            env.wf(),
            env@.clk == 0,
            env@.writes == env@.vals,
            i <= comp.cells@.len(),
            forall|id: crate::ir::PortId|
                env@.vals.dom().contains(id) <==> (exists|m: int|
                    0 <= m < comp.signature.ports@.len() && (
                    #[trigger] comp.signature.ports@[m]).id == id) || (exists|a: int, b: int|
                    0 <= a < i && 0 <= b < (#[trigger] comp.cells@[a]).ports@.len() && (
                    #[trigger] comp.cells@[a].ports@[b]).id == id),
            forall|m: int|
                0 <= m < comp.signature.ports@.len() ==> env@.vals[(
                #[trigger] comp.signature.ports@[m]).id] == init_val(comp.signature.kind),
            forall|a: int, b: int|
                0 <= a < i && 0 <= b < (#[trigger] comp.cells@[a]).ports@.len() ==> env@.vals[(
                #[trigger] comp.cells@[a].ports@[b]).id] == init_val(comp.cells@[a].kind),
        decreases comp.cells@.len() - i,
    {
        let cell = &comp.cells[i];
        let mut b: usize = 0;
        while b < cell.ports.len()
            invariant
                comp.wf(),
                env.wf(),
                env@.clk == 0,
                env@.writes == env@.vals,
                i < comp.cells@.len(),
                cell == &comp.cells[i as int],
                b <= cell.ports@.len(),
                forall|id: crate::ir::PortId|
                    env@.vals.dom().contains(id) <==> (exists|m: int|
                        0 <= m < comp.signature.ports@.len() && (
                        #[trigger] comp.signature.ports@[m]).id == id) || (exists|a: int, c: int|
                        0 <= a < i && 0 <= c < (#[trigger] comp.cells@[a]).ports@.len() && (
                        #[trigger] comp.cells@[a].ports@[c]).id == id) || (exists|c: int|
                        0 <= c < b && (#[trigger] cell.ports@[c]).id == id),
                forall|m: int|
                    0 <= m < comp.signature.ports@.len() ==> env@.vals[(
                    #[trigger] comp.signature.ports@[m]).id] == init_val(comp.signature.kind),
                forall|a: int, c: int|
                    0 <= a < i && 0 <= c < (#[trigger] comp.cells@[a]).ports@.len() ==> env@.vals[(
                    #[trigger] comp.cells@[a].ports@[c]).id] == init_val(comp.cells@[a].kind),
                forall|c: int|
                    0 <= c < b ==> env@.vals[(#[trigger] cell.ports@[c]).id] == init_val(cell.kind),
            decreases cell.ports@.len() - b,
        {
            let ghost pre = env@.vals;
            let id = cell.ports[b].id;
            let v = match cell.kind {
                crate::ir::CellKind::Constant(c) => c,
                _ => 0u64,
            };
            env.set(id, v);
            proof {
                let ci = comp.cells@[i as int];
                assert(ci.wf());
                assert(cell.ports@[b as int].id == (crate::ir::PortId {
                    cell: ci.id,
                    port: b,
                }));
                assert forall|m: int| 0 <= m < comp.signature.ports@.len() implies env@.vals[(
                #[trigger] comp.signature.ports@[m]).id] == init_val(comp.signature.kind) by {
                    assert(comp.signature.ports@[m].id.cell == 0);
                    assert(ci.id >= 1);
                }
                assert forall|a: int, c: int|
                    0 <= a < i && 0 <= c < (#[trigger] comp.cells@[a]).ports@.len() implies env@.vals[(
                #[trigger] comp.cells@[a].ports@[c]).id] == init_val(comp.cells@[a].kind) by {
                    assert(comp.cells@[a].wf());
                    assert(comp.cells@[a].ports@[c].id.cell == comp.cells@[a].id);
                    assert(comp.cells@[a].id != ci.id);
                }
                assert forall|c: int| 0 <= c < b + 1 implies env@.vals[(
                #[trigger] cell.ports@[c]).id] == init_val(cell.kind) by {
                    if c < b {
                        assert(cell.ports@[c].id == (crate::ir::PortId { cell: ci.id, port: c as usize }));
                    }
                }
            }
            b = b + 1;
        }
        i = i + 1;
    }
    env
}

/// Helper function to evaluate a control program against a component.
pub fn interpret_control(
    ctrl: &Control,
    continuous_assignments: &Vec<Assignment>,
    env: Environment,
    comp: &Component,
) -> (r: Result<Environment, IrError>)
    requires
        env.wf(),
        comp.wf(),
    ensures
        matches_model(r, interp_spec(*ctrl, continuous_assignments@, *comp, env@)),
        match r {
            Result::Ok(e) => e.wf() && e.base_map() == env.base_map(),
            Result::Err(_) => true,
        },
    decreases ctrl_size(*ctrl), 0nat, 0nat,
{
    match ctrl {
        Control::Sequence(s) => eval_seq(s, continuous_assignments, env, comp),
        Control::Par(p) => eval_par(p, continuous_assignments, env, comp),
        Control::If(port, cond, t, f) => eval_if(
            port,
            cond,
            t,
            f,
            continuous_assignments,
            env,
            comp,
        ),
        Control::While(port, cond, b) => eval_while(port, cond, b, continuous_assignments, env, comp),
        Control::Invoke => eval_invoke(continuous_assignments, env),
        Control::Enable(g) => eval_enable(g, continuous_assignments, env, comp),
        Control::Empty => eval_empty(continuous_assignments, env, comp),
    }
}

/// Interpret a sequence of controls, threading the environment through.
pub fn eval_seq(
    stmts: &Vec<Control>,
    continuous_assignments: &Vec<Assignment>,
    env: Environment,
    comp: &Component,
) -> (r: Result<Environment, IrError>)
    requires
        env.wf(),
        comp.wf(),
    ensures
        matches_model(r, seq_spec(stmts@, continuous_assignments@, *comp, env@)),
        match r {
            Result::Ok(e) => e.wf() && e.base_map() == env.base_map(),
            Result::Err(_) => true,
        },
    decreases ctrls_size(stmts@), stmts@.len(), 1nat,
{
    let mut cur = env;
    let mut i: usize = 0;
    proof {
        assert(stmts@.skip(0) =~= stmts@);
    }
    while i < stmts.len()
        invariant
            cur.wf(),
            comp.wf(),
            cur.base_map() == env.base_map(),
            i <= stmts@.len(),
            seq_spec(stmts@, continuous_assignments@, *comp, env@) == seq_spec(
                stmts@.skip(i as int),
                continuous_assignments@,
                *comp,
                cur@,
            ),
        decreases stmts@.len() - i,
    {
        proof {
            lemma_ctrls_size_elem(stmts@, i as int);
            assert(stmts@.skip(i as int)[0] == stmts@[i as int]);
            assert(stmts@.skip(i as int).drop_first() =~= stmts@.skip(i + 1 as int));
        }
        let r = interpret_control(&stmts[i], continuous_assignments, cur, comp);
        match r {
            Result::Ok(e1) => {
                cur = e1;
            },
            Result::Err(x) => {
                return Result::Err(x);
            },
        }
        i = i + 1;
    }
    proof {
        assert(stmts@.skip(stmts@.len() as int) =~= Seq::<Control>::empty());
    }
    Result::Ok(cur)
}

/// Interpret a parallel block: fork the environment once per child,
/// interpret every child to completion, and only then fold all the
/// resulting environments together with `state_merger`.
pub fn eval_par(
    stmts: &Vec<Control>,
    continuous_assignments: &Vec<Assignment>,
    env: Environment,
    comp: &Component,
) -> (r: Result<Environment, IrError>)
    requires
        env.wf(),
        comp.wf(),
    ensures
        matches_model(r, par_block_spec(stmts@, continuous_assignments@, *comp, env@)),
        match r {
            Result::Ok(e) => e.wf() && e.base_map() == env.base_map(),
            Result::Err(_) => true,
        },
    decreases ctrls_size(stmts@), stmts@.len(), 2nat,
{
    let mut sts: Vec<Environment> = Vec::new();
    let mut i: usize = 0;
    proof {
        assert(stmts@.skip(0) =~= stmts@);
        assert(branch_models(sts@) =~= Seq::<EnvModel>::empty());
        assert(Seq::<EnvModel>::empty() + par_run_spec(
            stmts@,
            continuous_assignments@,
            *comp,
            env@,
        )->Ok_0 =~= par_run_spec(stmts@, continuous_assignments@, *comp, env@)->Ok_0);
    }
    while i < stmts.len()
        invariant
            comp.wf(),
            env.wf(),
            i <= stmts@.len(),
            sts@.len() == i,
            forall|k: int|
                0 <= k < sts@.len() ==> (#[trigger] sts@[k]).wf() && sts@[k].base_map()
                    == env@.vals,
            par_run_spec(stmts@, continuous_assignments@, *comp, env@) == (match par_run_spec(
                stmts@.skip(i as int),
                continuous_assignments@,
                *comp,
                env@,
            ) {
                Result::Err(x) => Result::<Seq<EnvModel>, IrError>::Err(x),
                Result::Ok(rest) => Result::<Seq<EnvModel>, IrError>::Ok(
                    branch_models(sts@) + rest,
                ),
            }),
        decreases stmts@.len() - i,
    {
        proof {
            lemma_ctrls_size_elem(stmts@, i as int);
            assert(stmts@.skip(i as int)[0] == stmts@[i as int]);
            assert(stmts@.skip(i as int).drop_first() =~= stmts@.skip(i + 1 as int));
        }
        let branch = env.fork();
        let r = interpret_control(&stmts[i], continuous_assignments, branch, comp);
        match r {
            Result::Ok(st) => {
                let ghost bm = branch_models(sts@);
                proof {
                    let t = sts@.push(st);
                    assert(t.drop_last() =~= sts@);
                    assert(t.last() == st);
                }
                sts.push(st);
                proof {
                    match par_run_spec(
                        stmts@.skip(i + 1 as int),
                        continuous_assignments@,
                        *comp,
                        env@,
                    ) {
                        Result::Ok(rest) => {
                            assert(bm + (seq![st@] + rest) =~= branch_models(sts@) + rest);
                        },
                        Result::Err(_) => {},
                    }
                }
            },
            Result::Err(x) => {
                return Result::Err(x);
            },
        }
        i = i + 1;
    }
    proof {
        assert(stmts@.skip(stmts@.len() as int) =~= Seq::<Control>::empty());
        assert(branch_models(sts@) + Seq::<EnvModel>::empty() =~= branch_models(sts@));
    }
    let ghost all_branches = branch_models(sts@);
    let mut sts = sts;
    let mut acc = env.fork();
    proof {
        lemma_branch_models(sts@);
        assert(acc@ == fork_model(env@));
    }
    while sts.len() > 0
        invariant
            env.wf(),
            acc.wf(),
            acc.base_map() == env@.vals,
            par_run_spec(stmts@, continuous_assignments@, *comp, env@) == Result::<
                Seq<EnvModel>,
                IrError,
            >::Ok(all_branches),
            forall|k: int|
                0 <= k < sts@.len() ==> (#[trigger] sts@[k]).wf() && sts@[k].base_map()
                    == env@.vals,
            par_merge_spec(fork_model(env@), all_branches) == par_merge_spec(
                acc@,
                branch_models(sts@),
            ),
        decreases sts@.len(),
    {
        let ghost pre = sts@;
        let st = sts.remove(0);
        proof {
            lemma_branch_models(pre);
            lemma_branch_models(sts@);
            assert(sts@ =~= pre.drop_first());
            assert(st == pre[0]);
            assert(branch_models(pre)[0] == st@);
            assert forall|k: int| 0 <= k < sts@.len() implies branch_models(sts@)[k]
                == branch_models(pre).drop_first()[k] by {
                assert(sts@[k] == pre[k + 1]);
                assert(branch_models(sts@)[k] == sts@[k]@);
                assert(branch_models(pre)[k + 1] == pre[k + 1]@);
            }
            assert(branch_models(pre).drop_first() =~= branch_models(sts@));
        }
        let m = state_merger(acc, st);
        match m {
            Result::Ok(a1) => {
                acc = a1;
            },
            Result::Err(x) => {
                return Result::Err(x);
            },
        }
    }
    proof {
        lemma_branch_models(sts@);
        assert(branch_models(sts@) =~= Seq::<EnvModel>::empty());
    }
    let out = absorb_merge(env, acc);
    Result::Ok(out)
}

/// Run the condition group, read the test port, run the exit protocol, and
/// hand back the port's value with the settled environment.
fn run_cond(
    port: &Port,
    cond: &String,
    continuous_assignments: &Vec<Assignment>,
    env: Environment,
    comp: &Component,
) -> (r: Result<(u64, Environment), IrError>)
    requires
        env.wf(),
        comp.wf(),
    ensures
        match r {
            Result::Ok((v, e)) => {
                &&& e.wf()
                &&& e.base_map() == env.base_map()
                &&& run_cond_spec(*port, cond@, continuous_assignments@, *comp, env@) == Result::<
                    (u64, EnvModel),
                    IrError,
                >::Ok((v, e@))
            },
            Result::Err(x) => run_cond_spec(*port, cond@, continuous_assignments@, *comp, env@)
                == Result::<(u64, EnvModel), IrError>::Err(x),
        },
{
    let found = comp.find_group(cond);
    match found {
        Option::None => {
            proof {
                crate::component::lemma_group_with_name_absent(comp.groups_spec(), cond@);
            }
            Result::Err(IrError::UndefinedReference)
        },
        Option::Some(grp) => {
            proof {
                let i = choose|i: int|
                    0 <= i < comp.groups_spec().len() && *grp == comp.groups_spec()[i] && (
                    #[trigger] comp.groups_spec()[i]).name@ == cond@;
                crate::component::lemma_group_with_name_found(comp.groups_spec(), cond@, i);
            }
            let r1 = interpret_group(grp, continuous_assignments, env);
            match r1 {
                Result::Err(x) => Result::Err(x),
                Result::Ok(e1) => {
                    let val = e1.get(port.id);
                    match val {
                        Option::None => Result::Err(IrError::UndefinedReference),
                        Option::Some(v) => {
                            let r2 = finish_group_interpretation(grp, continuous_assignments, e1);
                            match r2 {
                                Result::Err(x) => Result::Err(x),
                                Result::Ok(e2) => Result::Ok((v, e2)),
                            }
                        },
                    }
                },
            }
        },
    }
}

/// Interpret a conditional: never both branches.
pub fn eval_if(
    port: &Port,
    cond: &String,
    tbranch: &Control,
    fbranch: &Control,
    continuous_assignments: &Vec<Assignment>,
    env: Environment,
    comp: &Component,
) -> (r: Result<Environment, IrError>)
    requires
        env.wf(),
        comp.wf(),
    ensures
        matches_model(
            r,
            if_spec(*port, cond@, *tbranch, *fbranch, continuous_assignments@, *comp, env@),
        ),
        match r {
            Result::Ok(e) => e.wf() && e.base_map() == env.base_map(),
            Result::Err(_) => true,
        },
    decreases ctrl_size(*tbranch) + ctrl_size(*fbranch), 0nat, 1nat,
{
    let rc = run_cond(port, cond, continuous_assignments, env, comp);
    match rc {
        Result::Err(x) => Result::Err(x),
        Result::Ok((v, e2)) => {
            if v == 0 {
                interpret_control(fbranch, continuous_assignments, e2, comp)
            } else {
                interpret_control(tbranch, continuous_assignments, e2, comp)
            }
        },
    }
}

/// Interpret a loop: re-evaluate the condition group before every iteration
/// and stop when the test port reads zero.
pub fn eval_while(
    port: &Port,
    cond: &String,
    body: &Control,
    continuous_assignments: &Vec<Assignment>,
    env: Environment,
    comp: &Component,
) -> (r: Result<Environment, IrError>)
    requires
        env.wf(),
        comp.wf(),
    ensures
        matches_model(
            r,
            while_spec(
                *port,
                cond@,
                *body,
                continuous_assignments@,
                *comp,
                env@,
                WHILE_BUDGET as nat,
            ),
        ),
        match r {
            Result::Ok(e) => e.wf() && e.base_map() == env.base_map(),
            Result::Err(_) => true,
        },
    decreases ctrl_size(*body), 1nat, 1nat,
{
    let mut cur = env;
    let mut k: u64 = WHILE_BUDGET;
    loop
        invariant
            cur.wf(),
            comp.wf(),
            cur.base_map() == env.base_map(),
            k <= WHILE_BUDGET,
            while_spec(
                *port,
                cond@,
                *body,
                continuous_assignments@,
                *comp,
                env@,
                WHILE_BUDGET as nat,
            ) == while_spec(
                *port,
                cond@,
                *body,
                continuous_assignments@,
                *comp,
                cur@,
                k as nat,
            ),
        decreases k,
    {
        let rc = run_cond(port, cond, continuous_assignments, cur, comp);
        match rc {
            Result::Err(x) => {
                return Result::Err(x);
            },
            Result::Ok((v, e2)) => {
                if v == 0 {
                    return Result::Ok(e2);
                }
                if k == 0 {
                    return Result::Err(IrError::NonConvergence);
                }
                let r = interpret_control(body, continuous_assignments, e2, comp);
                match r {
                    Result::Err(x) => {
                        return Result::Err(x);
                    },
                    Result::Ok(e3) => {
                        cur = e3;
                        k = k - 1;
                    },
                }
            },
        }
    }
}

/// Cross-component invocation has no defined semantics in this core; it is
/// reported as an explicit failure.
pub fn eval_invoke(continuous_assignments: &Vec<Assignment>, env: Environment) -> (r: Result<
    Environment,
    IrError,
>)
    ensures
        r matches Result::Err(x) && x == IrError::UnsupportedControl,
{
    Result::Err(IrError::UnsupportedControl)
}

/// Interpret an `Enable`: run the named group to its fixpoint, then its
/// exit protocol.
pub fn eval_enable(
    group: &String,
    continuous_assignments: &Vec<Assignment>,
    env: Environment,
    comp: &Component,
) -> (r: Result<Environment, IrError>)
    requires
        env.wf(),
        comp.wf(),
    ensures
        matches_model(r, enable_spec(group@, continuous_assignments@, *comp, env@)),
        match r {
            Result::Ok(e) => e.wf() && e.base_map() == env.base_map(),
            Result::Err(_) => true,
        },
{
    let found = comp.find_group(group);
    match found {
        Option::None => {
            proof {
                crate::component::lemma_group_with_name_absent(comp.groups_spec(), group@);
            }
            Result::Err(IrError::UndefinedReference)
        },
        Option::Some(grp) => {
            proof {
                let i = choose|i: int|
                    0 <= i < comp.groups_spec().len() && *grp == comp.groups_spec()[i] && (
                    #[trigger] comp.groups_spec()[i]).name@ == group@;
                crate::component::lemma_group_with_name_found(comp.groups_spec(), group@, i);
            }
            let r1 = interpret_group(grp, continuous_assignments, env);
            match r1 {
                Result::Err(x) => Result::Err(x),
                Result::Ok(e1) => finish_group_interpretation(grp, continuous_assignments, e1),
            }
        },
    }
}

/// Interpret an `Empty`: let only the continuous assignments settle.
pub fn eval_empty(
    continuous_assignments: &Vec<Assignment>,
    env: Environment,
    comp: &Component,
) -> (r: Result<Environment, IrError>)
    requires
        env.wf(),
        comp.wf(),
    ensures
        matches_model(r, interp_cont_spec(continuous_assignments@, env@)),
        match r {
            Result::Ok(e) => e.wf() && e.base_map() == env.base_map(),
            Result::Err(_) => true,
        },
{
    interp_cont(continuous_assignments, env, comp)
}

} // verus!
