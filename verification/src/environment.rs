//! The execution environment: a value store keyed by port identity plus a
//! monotonically non-decreasing logical clock, supporting isolated forking
//! and conflict-aware merging.
//!
//! The store is a copy-on-write pair of layers: an immutable base holding the
//! state at the last fork point, and a write layer recording every write made
//! since.  Merging two branches forked from the same point unions their write
//! layers and fails with a conflict when the branches disagree on a port.

use vstd::prelude::*;

use crate::errors::IrError;
use crate::ir::PortId;

verus! {

/// The mathematical model of an environment: the visible values, the writes
/// made since the last fork point, and the logical clock.
pub ghost struct EnvModel {
    pub vals: Map<PortId, u64>,
    pub writes: Map<PortId, u64>,
    pub clk: u64,
}

/// The map described by an association list, later entries winning.
pub open spec fn pairs_map(s: Seq<(PortId, u64)>) -> Map<PortId, u64>
    decreases s.len(),
{
    if s.len() == 0 {
        Map::empty()
    } else {
        pairs_map(s.drop_last()).insert(s.last().0, s.last().1)
    }
}

/// No two entries of the association list share a key.
pub open spec fn distinct_keys(s: Seq<(PortId, u64)>) -> bool {
    forall|i: int, j: int| 0 <= i < j < s.len() ==> (#[trigger] s[i]).0 != (#[trigger] s[j]).0
}

/// A key is in the domain of the described map exactly when some entry
/// carries it.
proof fn lemma_pairs_map_dom(s: Seq<(PortId, u64)>, p: PortId)
    ensures
        pairs_map(s).dom().contains(p) <==> exists|i: int| 0 <= i < s.len() && (#[trigger] s[i]).0
            == p,
    decreases s.len(),
{
    if s.len() > 0 {
        lemma_pairs_map_dom(s.drop_last(), p);
        if s.last().0 == p {
            assert(s[s.len() - 1].0 == p);
        } else if pairs_map(s).dom().contains(p) {
            let i = choose|i: int| 0 <= i < s.drop_last().len() && (#[trigger] s.drop_last()[i]).0
                == p;
            assert(s[i].0 == p);
        } else {
            assert forall|i: int| 0 <= i < s.len() implies (#[trigger] s[i]).0 != p by {
                if i < s.len() - 1 {
                    assert(s.drop_last()[i].0 == s[i].0);
                }
            }
        }
    }
}

/// Under distinct keys, the described map sends each entry's key to its
/// value.
proof fn lemma_pairs_map_get(s: Seq<(PortId, u64)>, i: int)
    requires
        distinct_keys(s),
        0 <= i < s.len(),
    ensures
        pairs_map(s).dom().contains(s[i].0),
        pairs_map(s)[s[i].0] == s[i].1,
    decreases s.len(),
{
    lemma_pairs_map_dom(s, s[i].0);
    if i < s.len() - 1 {
        assert(distinct_keys(s.drop_last()));
        assert(s.drop_last()[i] == s[i]);
        lemma_pairs_map_get(s.drop_last(), i);
        assert(s.last().0 != s[i].0);
    }
}

/// Updating the entry that holds a key describes the same map as inserting
/// that key.
proof fn lemma_pairs_map_update(s: Seq<(PortId, u64)>, i: int, p: PortId, v: u64)
    requires
        distinct_keys(s),
        0 <= i < s.len(),
        s[i].0 == p,
    ensures
        distinct_keys(s.update(i, (p, v))),
        pairs_map(s.update(i, (p, v))) == pairs_map(s).insert(p, v),
    decreases s.len(),
{
    let t = s.update(i, (p, v));
    assert forall|a: int, b: int| 0 <= a < b < t.len() implies (#[trigger] t[a]).0 != (
    #[trigger] t[b]).0 by {
        assert(s[a].0 != s[b].0);
    }
    if i == s.len() - 1 {
        assert(t.drop_last() =~= s.drop_last());
        assert(pairs_map(t) =~= pairs_map(s).insert(p, v));
    } else {
        assert(t.drop_last() =~= s.drop_last().update(i, (p, v)));
        assert(distinct_keys(s.drop_last()));
        lemma_pairs_map_update(s.drop_last(), i, p, v);
        assert(s.last().0 != p);
        assert(t.last() == s.last());
        assert(pairs_map(t) == pairs_map(s.drop_last()).insert(p, v).insert(
            s.last().0,
            s.last().1,
        ));
        assert(pairs_map(t) =~= pairs_map(s).insert(p, v));
    }
}

/// Two write layers conflict when they send the same port to different
/// values.
pub open spec fn writes_conflict(w1: Map<PortId, u64>, w2: Map<PortId, u64>) -> bool {
    exists|p: PortId|
        #[trigger] w1.dom().contains(p) && w2.dom().contains(p) && w1[p] != w2[p]
}

/// The clock after one step: incremented, saturating at the maximum.
pub open spec fn tick_clk(c: u64) -> u64 {
    if c < u64::MAX {
        (c + 1) as u64
    } else {
        c
    }
}

/// What merging the models of two sibling branches yields: their common
/// values overlaid with the other branch's writes when the write layers
/// agree, and an explicit conflict otherwise.  The clock of the result is the
/// maximum of the branches' clocks.
pub open spec fn merge_model(a: EnvModel, b: EnvModel) -> Result<EnvModel, IrError> {
    if writes_conflict(a.writes, b.writes) {
        Result::Err(IrError::MergeConflict)
    } else {
        Result::Ok(
            EnvModel {
                vals: a.vals.union_prefer_right(b.writes),
                writes: a.writes.union_prefer_right(b.writes),
                clk: if a.clk >= b.clk {
                    a.clk
                } else {
                    b.clk
                },
            },
        )
    }
}

/// Merging sibling branches is commutative: two branches whose values both
/// extend a common fork-point store merge to the same result in either
/// order, and conflict in one order exactly when they conflict in the
/// other.
pub proof fn lemma_merge_commutes(base: Map<PortId, u64>, a: EnvModel, b: EnvModel)
    requires
        a.vals == base.union_prefer_right(a.writes),
        b.vals == base.union_prefer_right(b.writes),
    ensures
        merge_model(a, b) is Err <==> merge_model(b, a) is Err,
        merge_model(a, b) is Ok ==> merge_model(a, b) == merge_model(b, a),
{
    if writes_conflict(a.writes, b.writes) {
        let p = choose|p: PortId|
            #[trigger] a.writes.dom().contains(p) && b.writes.dom().contains(p) && a.writes[p]
                != b.writes[p];
        assert(b.writes.dom().contains(p) && a.writes.dom().contains(p) && b.writes[p]
            != a.writes[p]);
        assert(writes_conflict(b.writes, a.writes));
    } else if writes_conflict(b.writes, a.writes) {
        let p = choose|p: PortId|
            #[trigger] b.writes.dom().contains(p) && a.writes.dom().contains(p) && b.writes[p]
                != a.writes[p];
        assert(writes_conflict(a.writes, b.writes));
        assert(false);
    } else {
        let m1 = merge_model(a, b)->Ok_0;
        let m2 = merge_model(b, a)->Ok_0;
        assert(m1.writes =~= m2.writes);
        assert(m1.vals =~= m2.vals);
        assert(m1.clk == m2.clk);
        assert(m1 == m2);
    }
}

/// Folding merges left-to-right is associative: merging `a` with `b` and
/// then with `c` yields the same outcome as merging `a` with the merge of
/// `b` and `c` — the same store when every merge succeeds, and a conflict
/// in one association exactly when there is one in the other.
pub proof fn lemma_merge_associates(a: EnvModel, b: EnvModel, c: EnvModel)
    ensures
        (match merge_model(a, b) {
            Result::Err(x) => Result::<EnvModel, IrError>::Err(x),
            Result::Ok(m) => merge_model(m, c),
        }) == (match merge_model(b, c) {
            Result::Err(x) => Result::<EnvModel, IrError>::Err(x),
            Result::Ok(m) => merge_model(a, m),
        }),
{
    let ab = a.writes.union_prefer_right(b.writes);
    let bc = b.writes.union_prefer_right(c.writes);
    let cab = writes_conflict(a.writes, b.writes);
    let cbc = writes_conflict(b.writes, c.writes);
    let cac = writes_conflict(a.writes, c.writes);
    if !cab && !cbc {
        assert(writes_conflict(ab, c.writes) <==> cac) by {
            if writes_conflict(ab, c.writes) {
                let p = choose|p: PortId|
                    #[trigger] ab.dom().contains(p) && c.writes.dom().contains(p) && ab[p]
                        != c.writes[p];
                if b.writes.dom().contains(p) {
                    assert(false);
                } else {
                    assert(a.writes.dom().contains(p) && c.writes.dom().contains(p) && a.writes[p]
                        != c.writes[p]);
                }
            }
            if cac {
                let p = choose|p: PortId|
                    #[trigger] a.writes.dom().contains(p) && c.writes.dom().contains(p)
                        && a.writes[p] != c.writes[p];
                assert(ab.dom().contains(p) && c.writes.dom().contains(p) && ab[p] != c.writes[p]);
            }
        }
        assert(writes_conflict(a.writes, bc) <==> cac) by {
            if writes_conflict(a.writes, bc) {
                let p = choose|p: PortId|
                    #[trigger] a.writes.dom().contains(p) && bc.dom().contains(p) && a.writes[p]
                        != bc[p];
                if c.writes.dom().contains(p) {
                    assert(a.writes.dom().contains(p) && c.writes.dom().contains(p) && a.writes[p]
                        != c.writes[p]);
                } else {
                    assert(b.writes.dom().contains(p));
                    assert(false);
                }
            }
            if cac {
                let p = choose|p: PortId|
                    #[trigger] a.writes.dom().contains(p) && c.writes.dom().contains(p)
                        && a.writes[p] != c.writes[p];
                if b.writes.dom().contains(p) {
                    assert(a.writes[p] != bc[p]);
                } else {
                    assert(bc[p] == c.writes[p]);
                }
                assert(a.writes.dom().contains(p) && bc.dom().contains(p) && a.writes[p] != bc[p]);
            }
        }
        if !cac {
            let lhs = merge_model(merge_model(a, b)->Ok_0, c)->Ok_0;
            let rhs = merge_model(a, merge_model(b, c)->Ok_0)->Ok_0;
            assert(lhs.vals =~= rhs.vals);
            assert(lhs.writes =~= rhs.writes);
            assert(lhs.clk == rhs.clk);
            assert(lhs == rhs);
        }
    } else if cab && !cbc {
        // the left association fails at once; the right fails when `a`
        // meets the surviving writes of `b`
        let p = choose|p: PortId|
            #[trigger] a.writes.dom().contains(p) && b.writes.dom().contains(p) && a.writes[p]
                != b.writes[p];
        assert(bc[p] == b.writes[p] || bc[p] == c.writes[p]);
        if c.writes.dom().contains(p) && bc[p] == a.writes[p] {
            assert(b.writes[p] != c.writes[p]);
            assert(false);
        }
        assert(a.writes.dom().contains(p) && bc.dom().contains(p) && a.writes[p] != bc[p]);
        assert(writes_conflict(a.writes, bc));
    } else if !cab && cbc {
        // the right association fails at once; the left fails when the
        // surviving writes of `b` meet `c`
        let p = choose|p: PortId|
            #[trigger] b.writes.dom().contains(p) && c.writes.dom().contains(p) && b.writes[p]
                != c.writes[p];
        assert(ab[p] == b.writes[p]);
        assert(ab.dom().contains(p) && c.writes.dom().contains(p) && ab[p] != c.writes[p]);
        assert(writes_conflict(ab, c.writes));
    }
}

/// An isolated branch of `e`: same values and clock, no writes yet.
pub open spec fn fork_model(e: EnvModel) -> EnvModel {
    EnvModel { vals: e.vals, writes: Map::empty(), clk: e.clk }
}

/// Fold the merged result `m` of a parallel block back into its enclosing
/// branch `p`: the block's writes extend the writes the branch had already
/// made since its own fork point.
pub open spec fn absorb_model(p: EnvModel, m: EnvModel) -> EnvModel {
    EnvModel { vals: m.vals, writes: p.writes.union_prefer_right(m.writes), clk: m.clk }
}

/// A versioned mapping from port identity to a logic value, with a logical
/// clock.
#[derive(Debug)]
pub struct Environment {
    base: Vec<(PortId, u64)>,
    delta: Vec<(PortId, u64)>,
    clk: u64,
}

impl View for Environment {
    type V = EnvModel;

    closed spec fn view(&self) -> EnvModel {
        EnvModel {
            vals: pairs_map(self.base@).union_prefer_right(pairs_map(self.delta@)),
            writes: pairs_map(self.delta@),
            clk: self.clk,
        }
    }
}

/// Find the index of the entry holding `p`, if any.
fn find_pair(v: &Vec<(PortId, u64)>, p: PortId) -> (r: Option<usize>)
    ensures
        match r {
            Option::Some(i) => i < v@.len() && v@[i as int].0 == p,
            Option::None => forall|i: int| 0 <= i < v@.len() ==> (#[trigger] v@[i]).0 != p,
        },
{
    let mut i: usize = 0;
    while i < v.len()
        invariant
            i <= v@.len(),
            forall|k: int| 0 <= k < i ==> (#[trigger] v@[k]).0 != p,
        decreases v@.len() - i,
    {
        if v[i].0.cell == p.cell && v[i].0.port == p.port {
            return Option::Some(i);
        }
        i = i + 1;
    }
    Option::None
}

/// Insert or overwrite the entry for `p`.
fn upsert_pair(v: &mut Vec<(PortId, u64)>, p: PortId, val: u64)
    requires
        distinct_keys(old(v)@),
    ensures
        distinct_keys(final(v)@),
        pairs_map(final(v)@) == pairs_map(old(v)@).insert(p, val),
{
    let r = find_pair(v, p);
    match r {
        Option::Some(i) => {
            proof {
                lemma_pairs_map_update(v@, i as int, p, val);
            }
            v.set(i, (p, val));
        },
        Option::None => {
            proof {
                let s = v@.push((p, val));
                assert(s.drop_last() =~= v@);
                assert(forall|a: int|
                    0 <= a < v@.len() ==> (#[trigger] s[a]) == v@[a]);
            }
            v.push((p, val));
        },
    }
}

/// Copy an association list.
fn copy_pairs(v: &Vec<(PortId, u64)>) -> (r: Vec<(PortId, u64)>)
    ensures
        r@ == v@,
{
    let mut out: Vec<(PortId, u64)> = Vec::new();
    let mut i: usize = 0;
    while i < v.len()
        invariant
            i <= v@.len(),
            out@ == v@.take(i as int),
        decreases v@.len() - i,
    {
        out.push(v[i]);
        proof {
            assert(out@ =~= v@.take(i + 1 as int));
        }
        i = i + 1;
    }
    proof {
        assert(v@.take(v@.len() as int) =~= v@);
    }
    out
}

impl Environment {
    /// Both layers hold each key at most once.
    pub closed spec fn wf(self) -> bool {
        distinct_keys(self.base@) && distinct_keys(self.delta@)
    }

    /// The state at the last fork point.
    pub closed spec fn base_map(self) -> Map<PortId, u64> {
        pairs_map(self.base@)
    }

    /// The empty environment: no port has a value, the clock is zero.
    pub fn new() -> (r: Environment)
        ensures
            r.wf(),
            r@.vals == Map::<PortId, u64>::empty(),
            r@.writes == Map::<PortId, u64>::empty(),
            r@.clk == 0,
            r.base_map() == Map::<PortId, u64>::empty(),
    {
        let r = Environment { base: Vec::new(), delta: Vec::new(), clk: 0 };
        proof {
            assert(r@.vals =~= Map::<PortId, u64>::empty());
        }
        r
    }

    /// The logical clock.
    pub fn clk(&self) -> (r: u64)
        ensures
            r == self@.clk,
    {
        self.clk
    }

    /// Point access: the current value of `p`, or nothing when `p` has never
    /// been given a value.
    pub fn get(&self, p: PortId) -> (r: Option<u64>)
        requires
            self.wf(),
        ensures
            r == if self@.vals.dom().contains(p) {
                Option::Some(self@.vals[p])
            } else {
                Option::<u64>::None
            },
    {
        let rd = find_pair(&self.delta, p);
        match rd {
            Option::Some(i) => {
                proof {
                    lemma_pairs_map_get(self.delta@, i as int);
                }
                Option::Some(self.delta[i].1)
            },
            Option::None => {
                proof {
                    lemma_pairs_map_dom(self.delta@, p);
                }
                let rb = find_pair(&self.base, p);
                match rb {
                    Option::Some(i) => {
                        proof {
                            lemma_pairs_map_get(self.base@, i as int);
                        }
                        Option::Some(self.base[i].1)
                    },
                    Option::None => {
                        proof {
                            lemma_pairs_map_dom(self.base@, p);
                        }
                        Option::None
                    },
                }
            },
        }
    }

    /// Point update: record a write of `val` to `p`.
    pub fn set(&mut self, p: PortId, val: u64)
        requires
            old(self).wf(),
        ensures
            final(self).wf(),
            final(self)@.vals == old(self)@.vals.insert(p, val),
            final(self)@.writes == old(self)@.writes.insert(p, val),
            final(self)@.clk == old(self)@.clk,
            final(self).base_map() == old(self).base_map(),
    {
        upsert_pair(&mut self.delta, p, val);
        proof {
            assert(final(self)@.vals =~= old(self)@.vals.insert(p, val));
        }
    }

    /// Advance the logical clock by one step, saturating at its maximum.
    pub fn tick(&mut self)
        requires
            old(self).wf(),
        ensures
            final(self).wf(),
            final(self)@.vals == old(self)@.vals,
            final(self)@.writes == old(self)@.writes,
            final(self)@.clk == tick_clk(old(self)@.clk),
            final(self).base_map() == old(self).base_map(),
    {
        if self.clk < u64::MAX {
            self.clk = self.clk + 1;
        }
    }

    /// Produce an independent branch: it sees the same values and clock, its
    /// write layer is empty, and its fork point is the current state.
    pub fn fork(&self) -> (r: Environment)
        requires
            self.wf(),
        ensures
            r.wf(),
            r@.vals == self@.vals,
            r@.writes == Map::<PortId, u64>::empty(),
            r@.clk == self@.clk,
            r.base_map() == self@.vals,
    {
        let mut nb = copy_pairs(&self.base);
        let mut i: usize = 0;
        while i < self.delta.len()
            invariant
                self.wf(),
                i <= self.delta@.len(),
                distinct_keys(nb@),
                pairs_map(nb@) == pairs_map(self.base@).union_prefer_right(
                    pairs_map(self.delta@.take(i as int)),
                ),
            decreases self.delta@.len() - i,
        {
            let (p, v) = self.delta[i];
            proof {
                let pre = self.delta@.take(i as int);
                let post = self.delta@.take(i + 1 as int);
                assert(post.drop_last() =~= pre);
                assert(post.last() == (p, v));
                assert(pairs_map(self.base@).union_prefer_right(pairs_map(pre)).insert(p, v)
                    =~= pairs_map(self.base@).union_prefer_right(pairs_map(post)));
            }
            upsert_pair(&mut nb, p, v);
            i = i + 1;
        }
        proof {
            assert(self.delta@.take(self.delta@.len() as int) =~= self.delta@);
        }
        let r = Environment { base: nb, delta: Vec::new(), clk: self.clk };
        proof {
            assert(r@.vals =~= pairs_map(nb@));
        }
        r
    }
}

/// Fold the merged result of a parallel block back into the branch that
/// forked it: the block's writes extend the branch's own writes, the values
/// and clock are the block's.
pub fn absorb_merge(parent: Environment, merged: Environment) -> (r: Environment)
    requires
        parent.wf(),
        merged.wf(),
        merged.base_map() == parent@.vals,
    ensures
        r.wf(),
        r@ == absorb_model(parent@, merged@),
        r.base_map() == parent.base_map(),
{
    let mut nd = copy_pairs(&parent.delta);
    let mut i: usize = 0;
    while i < merged.delta.len()
        invariant
            parent.wf(),
            merged.wf(),
            i <= merged.delta@.len(),
            distinct_keys(nd@),
            pairs_map(nd@) == pairs_map(parent.delta@).union_prefer_right(
                pairs_map(merged.delta@.take(i as int)),
            ),
        decreases merged.delta@.len() - i,
    {
        let (p, v) = merged.delta[i];
        proof {
            let pre = merged.delta@.take(i as int);
            let post = merged.delta@.take(i + 1 as int);
            assert(post.drop_last() =~= pre);
            assert(post.last() == (p, v));
            assert(pairs_map(parent.delta@).union_prefer_right(pairs_map(pre)).insert(p, v)
                =~= pairs_map(parent.delta@).union_prefer_right(pairs_map(post)));
        }
        upsert_pair(&mut nd, p, v);
        i = i + 1;
    }
    proof {
        assert(merged.delta@.take(merged.delta@.len() as int) =~= merged.delta@);
    }
    let nb = copy_pairs(&parent.base);
    let r = Environment { base: nb, delta: nd, clk: merged.clk };
    proof {
        assert(r@.vals =~= merged@.vals);
        assert(r@.writes =~= parent@.writes.union_prefer_right(merged@.writes));
    }
    r
}

/// Merge two branches that were forked from the same point.
///
/// Writes to disjoint ports union cleanly; if the two branches wrote
/// different values to the same port since the fork, the merge fails with an
/// explicit conflict instead of silently choosing a winner.  The clock of the
/// result is the maximum of the branches' clocks.
pub fn state_merger(st1: Environment, st2: Environment) -> (r: Result<Environment, IrError>)
    requires
        st1.wf(),
        st2.wf(),
        st1.base_map() == st2.base_map(),
    ensures
        match r {
            Result::Ok(e) => {
                &&& e.wf()
                &&& e@ == merge_model(st1@, st2@)->Ok_0
                &&& !writes_conflict(st1@.writes, st2@.writes)
                &&& e.base_map() == st1.base_map()
            },
            Result::Err(er) => {
                &&& er == IrError::MergeConflict
                &&& writes_conflict(st1@.writes, st2@.writes)
            },
        },
{
    let mut nd = copy_pairs(&st1.delta);
    let mut i: usize = 0;
    while i < st2.delta.len()
        invariant
            st1.wf(),
            st2.wf(),
            i <= st2.delta@.len(),
            distinct_keys(nd@),
            pairs_map(nd@) == pairs_map(st1.delta@).union_prefer_right(
                pairs_map(st2.delta@.take(i as int)),
            ),
            forall|k: int|
                0 <= k < i ==> !(pairs_map(st1.delta@).dom().contains(
                    (#[trigger] st2.delta@[k]).0,
                ) && pairs_map(st1.delta@)[st2.delta@[k].0] != st2.delta@[k].1),
        decreases st2.delta@.len() - i,
    {
        let (p, v) = st2.delta[i];
        let r1 = find_pair(&st1.delta, p);
        match r1 {
            Option::Some(j) => {
                proof {
                    lemma_pairs_map_get(st1.delta@, j as int);
                }
                if st1.delta[j].1 != v {
                    proof {
                        lemma_pairs_map_get(st2.delta@, i as int);
                        assert(writes_conflict(st1@.writes, st2@.writes));
                    }
                    return Result::Err(IrError::MergeConflict);
                }
            },
            Option::None => {
                proof {
                    lemma_pairs_map_dom(st1.delta@, p);
                }
            },
        }
        proof {
            let pre = st2.delta@.take(i as int);
            let post = st2.delta@.take(i + 1 as int);
            assert(post.drop_last() =~= pre);
            assert(post.last() == (p, v));
            assert(pairs_map(st1.delta@).union_prefer_right(pairs_map(pre)).insert(p, v)
                =~= pairs_map(st1.delta@).union_prefer_right(pairs_map(post)));
        }
        upsert_pair(&mut nd, p, v);
        i = i + 1;
    }
    proof {
        assert(st2.delta@.take(st2.delta@.len() as int) =~= st2.delta@);
        assert forall|p: PortId|
            st1@.writes.dom().contains(p) && st2@.writes.dom().contains(p) implies st1@.writes[p]
            == st2@.writes[p] by {
            lemma_pairs_map_dom(st2.delta@, p);
            let k = choose|k: int| 0 <= k < st2.delta@.len() && (#[trigger] st2.delta@[k]).0 == p;
            lemma_pairs_map_get(st2.delta@, k);
        }
    }
    let nb = copy_pairs(&st1.base);
    let clk: u64 = if st1.clk >= st2.clk {
        st1.clk
    } else {
        st2.clk
    };
    let e = Environment { base: nb, delta: nd, clk };
    proof {
        assert(e@.vals =~= st1@.vals.union_prefer_right(st2@.writes));
        assert(e@.writes =~= st1@.writes.union_prefer_right(st2@.writes));
    }
    Result::Ok(e)
}

} // verus!

