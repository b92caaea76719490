//! The group-level dataflow evaluator: repeated in-order evaluation of a set
//! of guarded assignments until the store stops changing.
//!
//! A pass applies every assignment once, in order: an assignment whose guard
//! evaluates to a nonzero value (or that has no guard) copies the source
//! port's value to the destination port.  Settling repeats passes until one
//! changes nothing; a set of assignments that is still changing after as
//! many passes as there are assignments plus one is reported as
//! `NonConvergence`.

use vstd::prelude::*;

use crate::component::Component;
use crate::environment::EnvModel;
use crate::environment::Environment;
use crate::environment::tick_clk;
use crate::errors::IrError;
use crate::ir::Assignment;
use crate::ir::Group;
use crate::ir::Guard;
use crate::ir::PortId;

verus! {

/// Truth as a logic value: nonzero is true, comparisons yield one or zero.
pub open spec fn bool_val(b: bool) -> u64 {
    if b {
        1u64
    } else {
        0u64
    }
}

/// The value of a guard over a store, or nothing when the guard reads a port
/// the store does not hold.
pub open spec fn eval_guard_spec(g: Guard, m: Map<PortId, u64>) -> Option<u64>
    decreases g,
{
    match g {
        Guard::Port(p) => if m.dom().contains(p.id) {
            Option::Some(m[p.id])
        } else {
            Option::None
        },
        Guard::Not(a) => match eval_guard_spec(*a, m) {
            Option::Some(x) => Option::Some(bool_val(x == 0)),
            Option::None => Option::None,
        },
        Guard::And(a, b) => match (eval_guard_spec(*a, m), eval_guard_spec(*b, m)) {
            (Option::Some(x), Option::Some(y)) => Option::Some(bool_val(x != 0 && y != 0)),
            _ => Option::None,
        },
        Guard::Or(a, b) => match (eval_guard_spec(*a, m), eval_guard_spec(*b, m)) {
            (Option::Some(x), Option::Some(y)) => Option::Some(bool_val(x != 0 || y != 0)),
            _ => Option::None,
        },
        Guard::Eq(a, b) => match (eval_guard_spec(*a, m), eval_guard_spec(*b, m)) {
            (Option::Some(x), Option::Some(y)) => Option::Some(bool_val(x == y)),
            _ => Option::None,
        },
        Guard::Neq(a, b) => match (eval_guard_spec(*a, m), eval_guard_spec(*b, m)) {
            (Option::Some(x), Option::Some(y)) => Option::Some(bool_val(x != y)),
            _ => Option::None,
        },
        Guard::Gt(a, b) => match (eval_guard_spec(*a, m), eval_guard_spec(*b, m)) {
            (Option::Some(x), Option::Some(y)) => Option::Some(bool_val(x > y)),
            _ => Option::None,
        },
        Guard::Lt(a, b) => match (eval_guard_spec(*a, m), eval_guard_spec(*b, m)) {
            (Option::Some(x), Option::Some(y)) => Option::Some(bool_val(x < y)),
            _ => Option::None,
        },
        Guard::Geq(a, b) => match (eval_guard_spec(*a, m), eval_guard_spec(*b, m)) {
            (Option::Some(x), Option::Some(y)) => Option::Some(bool_val(x >= y)),
            _ => Option::None,
        },
        Guard::Leq(a, b) => match (eval_guard_spec(*a, m), eval_guard_spec(*b, m)) {
            (Option::Some(x), Option::Some(y)) => Option::Some(bool_val(x <= y)),
            _ => Option::None,
        },
    }
}

/// Evaluate a guard against the environment.  Fails exactly when the guard
/// references a port the environment does not hold.
pub fn eval_guard(g: &Guard, env: &Environment) -> (r: Result<u64, IrError>)
    requires
        env.wf(),
    ensures
        match eval_guard_spec(*g, env@.vals) {
            Option::Some(v) => r == Result::<u64, IrError>::Ok(v),
            Option::None => r == Result::<u64, IrError>::Err(IrError::UndefinedReference),
        },
    decreases *g,
{
    match g {
        Guard::Port(p) => match env.get(p.id) {
            Option::Some(v) => Result::Ok(v),
            Option::None => Result::Err(IrError::UndefinedReference),
        },
        Guard::Not(a) => {
            let x = eval_guard(a, env)?;
            Result::Ok(if x == 0 { 1 } else { 0 })
        },
        Guard::And(a, b) => {
            let x = eval_guard(a, env)?;
            let y = eval_guard(b, env)?;
            Result::Ok(if x != 0 && y != 0 { 1 } else { 0 })
        },
        Guard::Or(a, b) => {
            let x = eval_guard(a, env)?;
            let y = eval_guard(b, env)?;
            Result::Ok(if x != 0 || y != 0 { 1 } else { 0 })
        },
        Guard::Eq(a, b) => {
            let x = eval_guard(a, env)?;
            let y = eval_guard(b, env)?;
            Result::Ok(if x == y { 1 } else { 0 })
        },
        Guard::Neq(a, b) => {
            let x = eval_guard(a, env)?;
            let y = eval_guard(b, env)?;
            Result::Ok(if x != y { 1 } else { 0 })
        },
        Guard::Gt(a, b) => {
            let x = eval_guard(a, env)?;
            let y = eval_guard(b, env)?;
            Result::Ok(if x > y { 1 } else { 0 })
        },
        Guard::Lt(a, b) => {
            let x = eval_guard(a, env)?;
            let y = eval_guard(b, env)?;
            Result::Ok(if x < y { 1 } else { 0 })
        },
        Guard::Geq(a, b) => {
            let x = eval_guard(a, env)?;
            let y = eval_guard(b, env)?;
            Result::Ok(if x >= y { 1 } else { 0 })
        },
        Guard::Leq(a, b) => {
            let x = eval_guard(a, env)?;
            let y = eval_guard(b, env)?;
            Result::Ok(if x <= y { 1 } else { 0 })
        },
    }
}

/// Copy the source value to the destination, when the assignment is active.
/// The boolean tracks whether any destination changed its value.
pub open spec fn write_spec(a: Assignment, e: EnvModel, changed: bool) -> Result<
    (EnvModel, bool),
    IrError,
> {
    if !e.vals.dom().contains(a.src.id) {
        Result::Err(IrError::UndefinedReference)
    } else {
        let v = e.vals[a.src.id];
        let ch = changed || !e.vals.dom().contains(a.dst.id) || e.vals[a.dst.id] != v;
        Result::Ok(
            (
                EnvModel {
                    vals: e.vals.insert(a.dst.id, v),
                    writes: e.writes.insert(a.dst.id, v),
                    clk: e.clk,
                },
                ch,
            ),
        )
    }
}

/// Apply one assignment: evaluate its guard, and copy the source value when
/// the guard passes.
pub open spec fn apply_asgn_spec(a: Assignment, e: EnvModel, changed: bool) -> Result<
    (EnvModel, bool),
    IrError,
> {
    match a.guard {
        Option::Some(g) => match eval_guard_spec(g, e.vals) {
            Option::None => Result::Err(IrError::UndefinedReference),
            Option::Some(v) => if v == 0 {
                Result::Ok((e, changed))
            } else {
                write_spec(a, e, changed)
            },
        },
        Option::None => write_spec(a, e, changed),
    }
}

/// Apply every assignment of a list once, in order.
pub open spec fn pass_fold(s: Seq<Assignment>, e: EnvModel, changed: bool) -> Result<
    (EnvModel, bool),
    IrError,
>
    decreases s.len(),
{
    if s.len() == 0 {
        Result::Ok((e, changed))
    } else {
        match pass_fold(s.drop_last(), e, changed) {
            Result::Err(x) => Result::Err(x),
            Result::Ok((e1, c1)) => apply_asgn_spec(s.last(), e1, c1),
        }
    }
}

/// Run passes until one changes nothing, for at most `k` further passes
/// after the first; a store still changing then fails to converge.
pub open spec fn settle(s: Seq<Assignment>, e: EnvModel, k: nat) -> Result<EnvModel, IrError>
    decreases k,
{
    match pass_fold(s, e, false) {
        Result::Err(x) => Result::Err(x),
        Result::Ok((e1, ch)) => if !ch {
            Result::Ok(e1)
        } else if k == 0 {
            Result::Err(IrError::NonConvergence)
        } else {
            settle(s, e1, (k - 1) as nat)
        },
    }
}

/// The pass budget for a group's assignments run together with the
/// continuous assignments.
pub open spec fn pass_budget(n1: nat, n2: nat) -> nat {
    n1 + n2 + 1
}

/// What running a group to its fixpoint yields: the group's assignments
/// followed by the continuous assignments, settled, and the clock advanced
/// by one step.
pub open spec fn interpret_group_spec(g: Group, ca: Seq<Assignment>, e: EnvModel) -> Result<
    EnvModel,
    IrError,
> {
    match settle(g.assignments@ + ca, e, pass_budget(g.assignments@.len(), ca.len())) {
        Result::Err(x) => Result::Err(x),
        Result::Ok(e1) => Result::Ok(EnvModel { vals: e1.vals, writes: e1.writes, clk: tick_clk(e1.clk) }),
    }
}

/// What a group's exit protocol yields: the continuous assignments settled
/// once more, with the group no longer active.
pub open spec fn finish_group_spec(ca: Seq<Assignment>, e: EnvModel) -> Result<
    EnvModel,
    IrError,
> {
    settle(ca, e, pass_budget(0, ca.len()))
}

/// What letting only the continuous assignments settle yields.
pub open spec fn interp_cont_spec(ca: Seq<Assignment>, e: EnvModel) -> Result<EnvModel, IrError> {
    settle(ca, e, pass_budget(0, ca.len()))
}

/// An erroring pass of a prefix errors every longer prefix the same way.
proof fn lemma_pass_fold_err(s: Seq<Assignment>, e: EnvModel, j: int, j2: int, x: IrError)
    requires
        0 <= j <= j2 <= s.len(),
        pass_fold(s.take(j), e, false) == Result::<(EnvModel, bool), IrError>::Err(x),
    ensures
        pass_fold(s.take(j2), e, false) == Result::<(EnvModel, bool), IrError>::Err(x),
    decreases j2 - j,
{
    if j2 > j {
        assert(s.take(j + 1).drop_last() =~= s.take(j));
        lemma_pass_fold_err(s, e, j + 1, j2, x);
    }
}

/// Apply one assignment to the environment.
fn apply_assignment(a: &Assignment, env: &mut Environment, changed: bool) -> (r: Result<
    bool,
    IrError,
>)
    requires
        old(env).wf(),
    ensures
        final(env).wf(),
        final(env).base_map() == old(env).base_map(),
        match r {
            Result::Ok(ch) => apply_asgn_spec(*a, old(env)@, changed) == Result::<
                (EnvModel, bool),
                IrError,
            >::Ok((final(env)@, ch)),
            Result::Err(er) => apply_asgn_spec(*a, old(env)@, changed) == Result::<
                (EnvModel, bool),
                IrError,
            >::Err(er) && final(env)@ == old(env)@,
        },
{
    let active: bool = match &a.guard {
        Option::Some(g) => {
            let rv = eval_guard(g, env);
            match rv {
                Result::Ok(v) => v != 0,
                Result::Err(er) => {
                    return Result::Err(er);
                },
            }
        },
        Option::None => true,
    };
    if !active {
        return Result::Ok(changed);
    }
    let sv = env.get(a.src.id);
    match sv {
        Option::None => Result::Err(IrError::UndefinedReference),
        Option::Some(v) => {
            let dv = env.get(a.dst.id);
            let ch: bool = changed || match dv {
                Option::None => true,
                Option::Some(w) => w != v,
            };
            env.set(a.dst.id, v);
            Result::Ok(ch)
        },
    }
}

/// Run one pass over the group's assignments followed by the continuous
/// assignments.
fn run_pass(gasgns: &Vec<Assignment>, ca: &Vec<Assignment>, env: &mut Environment) -> (r: Result<
    bool,
    IrError,
>)
    requires
        old(env).wf(),
    ensures
        final(env).wf(),
        final(env).base_map() == old(env).base_map(),
        match r {
            Result::Ok(ch) => pass_fold(gasgns@ + ca@, old(env)@, false) == Result::<
                (EnvModel, bool),
                IrError,
            >::Ok((final(env)@, ch)),
            Result::Err(er) => pass_fold(gasgns@ + ca@, old(env)@, false) == Result::<
                (EnvModel, bool),
                IrError,
            >::Err(er),
        },
{
    let ghost all = gasgns@ + ca@;
    let mut changed: bool = false;
    let mut i: usize = 0;
    while i < gasgns.len()
        invariant
            env.wf(),
            env.base_map() == old(env).base_map(),
            i <= gasgns@.len(),
            all == gasgns@ + ca@,
            pass_fold(all.take(i as int), old(env)@, false) == Result::<
                (EnvModel, bool),
                IrError,
            >::Ok((env@, changed)),
        decreases gasgns@.len() - i,
    {
        proof {
            assert(all.take(i + 1 as int).drop_last() =~= all.take(i as int));
            assert(all.take(i + 1 as int).last() == gasgns@[i as int]);
        }
        let r = apply_assignment(&gasgns[i], env, changed);
        match r {
            Result::Ok(ch) => {
                changed = ch;
            },
            Result::Err(er) => {
                proof {
                    lemma_pass_fold_err(all, old(env)@, i + 1, all.len() as int, er);
                    assert(all.take(all.len() as int) =~= all);
                }
                return Result::Err(er);
            },
        }
        i = i + 1;
    }
    let mut j: usize = 0;
    while j < ca.len()
        invariant
            env.wf(),
            env.base_map() == old(env).base_map(),
            j <= ca@.len(),
            all == gasgns@ + ca@,
            pass_fold(all.take(gasgns@.len() + j), old(env)@, false) == Result::<
                (EnvModel, bool),
                IrError,
            >::Ok((env@, changed)),
        decreases ca@.len() - j,
    {
        proof {
            assert(all.take(gasgns@.len() + j + 1).drop_last() =~= all.take(gasgns@.len() + j));
            assert(all.take(gasgns@.len() + j + 1).last() == ca@[j as int]);
        }
        let r = apply_assignment(&ca[j], env, changed);
        match r {
            Result::Ok(ch) => {
                changed = ch;
            },
            Result::Err(er) => {
                proof {
                    lemma_pass_fold_err(all, old(env)@, gasgns@.len() + j + 1, all.len() as int, er);
                    assert(all.take(all.len() as int) =~= all);
                }
                return Result::Err(er);
            },
        }
        j = j + 1;
    }
    proof {
        assert(all.take(all.len() as int) =~= all);
    }
    Result::Ok(changed)
}

/// Settle the group's assignments together with the continuous assignments.
fn settle_all(gasgns: &Vec<Assignment>, ca: &Vec<Assignment>, env: Environment) -> (r: Result<
    Environment,
    IrError,
>)
    requires
        env.wf(),
    ensures
        match r {
            Result::Ok(e) => {
                &&& e.wf()
                &&& e.base_map() == env.base_map()
                &&& settle(gasgns@ + ca@, env@, pass_budget(gasgns@.len(), ca@.len()))
                    == Result::<EnvModel, IrError>::Ok(e@)
            },
            Result::Err(er) => settle(gasgns@ + ca@, env@, pass_budget(gasgns@.len(), ca@.len()))
                == Result::<EnvModel, IrError>::Err(er),
        },
{
    let ghost all = gasgns@ + ca@;
    let ghost budget = pass_budget(gasgns@.len(), ca@.len());
    let mut cur = env;
    let total: u128 = gasgns.len() as u128 + ca.len() as u128 + 1;
    let mut k: u128 = total;
    loop
        invariant
            cur.wf(),
            cur.base_map() == env.base_map(),
            all == gasgns@ + ca@,
            k <= total,
            total == budget,
            budget == pass_budget(gasgns@.len(), ca@.len()),
            settle(all, env@, budget) == settle(all, cur@, k as nat),
        decreases k,
    {
        let ghost pre = cur@;
        let r = run_pass(gasgns, ca, &mut cur);
        match r {
            Result::Err(er) => {
                return Result::Err(er);
            },
            Result::Ok(ch) => {
                if !ch {
                    return Result::Ok(cur);
                }
                if k == 0 {
                    return Result::Err(IrError::NonConvergence);
                }
                k = k - 1;
            },
        }
    }
}

/// Run the group's assignments plus the continuous assignments to a
/// fixpoint, advancing the logical clock by one step.
pub fn interpret_group(group: &Group, continuous_assignments: &Vec<Assignment>, env: Environment)
    -> (r: Result<Environment, IrError>)
    requires
        env.wf(),
    ensures
        match r {
            Result::Ok(e) => {
                &&& e.wf()
                &&& e.base_map() == env.base_map()
                &&& interpret_group_spec(*group, continuous_assignments@, env@) == Result::<
                    EnvModel,
                    IrError,
                >::Ok(e@)
            },
            Result::Err(er) => interpret_group_spec(*group, continuous_assignments@, env@)
                == Result::<EnvModel, IrError>::Err(er),
        },
{
    let r = settle_all(&group.assignments, continuous_assignments, env);
    match r {
        Result::Ok(e) => {
            let mut e = e;
            e.tick();
            Result::Ok(e)
        },
        Result::Err(x) => Result::Err(x),
    }
}

/// Run the exit protocol of a group: let the continuous assignments settle
/// with the group no longer active.
pub fn finish_group_interpretation(
    group: &Group,
    continuous_assignments: &Vec<Assignment>,
    env: Environment,
) -> (r: Result<Environment, IrError>)
    requires
        env.wf(),
    ensures
        match r {
            Result::Ok(e) => {
                &&& e.wf()
                &&& e.base_map() == env.base_map()
                &&& finish_group_spec(continuous_assignments@, env@) == Result::<
                    EnvModel,
                    IrError,
                >::Ok(e@)
            },
            Result::Err(er) => finish_group_spec(continuous_assignments@, env@) == Result::<
                EnvModel,
                IrError,
            >::Err(er),
        },
{
    let none: Vec<Assignment> = Vec::new();
    proof {
        assert(none@ + continuous_assignments@ =~= continuous_assignments@);
    }
    settle_all(&none, continuous_assignments, env)
}

/// Run only the continuous assignments to a single settling.
pub fn interp_cont(
    continuous_assignments: &Vec<Assignment>,
    env: Environment,
    _comp: &Component,
) -> (r: Result<Environment, IrError>)
    requires
        env.wf(),
    ensures
        match r {
            Result::Ok(e) => {
                &&& e.wf()
                &&& e.base_map() == env.base_map()
                &&& interp_cont_spec(continuous_assignments@, env@) == Result::<
                    EnvModel,
                    IrError,
                >::Ok(e@)
            },
            Result::Err(er) => interp_cont_spec(continuous_assignments@, env@) == Result::<
                EnvModel,
                IrError,
            >::Err(er),
        },
{
    let none: Vec<Assignment> = Vec::new();
    proof {
        assert(none@ + continuous_assignments@ =~= continuous_assignments@);
    }
    settle_all(&none, continuous_assignments, env)
}

} // verus!
