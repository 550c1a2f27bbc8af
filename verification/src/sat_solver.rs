//! The search loop: decisions, conflict handling, restarts and the final
//! check of the assignment found.
use crate::clause_pool::{clause_start, lemma_long_pool_clause, lemma_same_clauses_refl, lemma_same_clauses_trans, same_clauses};
use crate::cnf_manager::{imps_done, lemma_wf_frame, clause_from, first_zero, in_vars, lemma_first_zero_exists, lemma_first_zero_unique, long_pool, occurrences_fit, ArrTuple, CnfManager, SCORE, SET};
use crate::restarter::{lemma_luby_step, lemma_pow2_mono, luby, Restarter};
use crate::sat_instance::SatInstance;
use crate::utils::{lit_in_range, sign_of, to_var, var_of, VA};
use vstd::arithmetic::power2::{lemma_pow2_pos, lemma_pow2_unfold, pow2};
use vstd::prelude::*;

verus! {

/// `2^e` for a small exponent.
fn pow2_i32(e: i32) -> (r: i32)
    requires
        0 <= e <= 30,
    ensures
        r == pow2(e as nat),
{
    proof {
        vstd::bits::lemma_u32_pow2_no_overflow(e as nat);
        vstd::bits::lemma_u32_shl_is_mul(1, e as u32);
        vstd::arithmetic::power2::lemma2_to64();
        lemma_pow2_mono(e as nat, 30);
    }
    let r = 1u32 << (e as u32);
    r as i32
}

/// The Luby sequence 1, 1, 2, 1, 1, 2, 4, ... that spaces the restarts.
pub struct Luby {
    pub seq: Vec<i32>,
    pub index: i32,
    pub k: i32,
}

impl Luby {
    /// The sequence holds the first `index` terms and `k` is the level of
    /// term `index + 1`.
    pub open spec fn wf(&self) -> bool {
        &&& self.seq@.len() == self.index
        &&& 0 <= self.index
        &&& 1 <= self.k
        &&& pow2((self.k - 1) as nat) <= self.index + 1 < pow2(self.k as nat)
        &&& forall|j: int| 0 <= j < self.index ==> #[trigger] self.seq@[j] == luby((j + 1) as nat)
    }

    pub fn new() -> (r: Luby)
        ensures
            r.wf(),
            r.index == 0,
            r.k == 1,
    {
        proof {
            vstd::arithmetic::power2::lemma2_to64();
        }
        Luby { seq: Vec::new(), index: 0, k: 1 }
    }

    /// Advances to the next term of the Luby sequence and returns it.
    pub fn next(&mut self) -> (r: i32)
        requires
            old(self).wf(),
            old(self).index + 1 < 0x4000_0000,
        ensures
            final(self).wf(),
            final(self).index == old(self).index + 1,
            r == luby((old(self).index + 1) as nat),
            1 <= r < 0x4000_0000,
    {
        let ghost k = self.k as nat;
        proof {
            vstd::arithmetic::power2::lemma2_to64();
            if k >= 31 {
                lemma_pow2_mono(30, (k - 1) as nat);
            }
            assert(k <= 30);
            lemma_pow2_unfold(k);
            lemma_pow2_pos((k - 1) as nat);
        }
        self.index += 1;
        proof {
            lemma_luby_step(self.index as nat, k);
        }
        let top = pow2_i32(self.k);
        let half = pow2_i32(self.k - 1);
        if self.index == top - 1 {
            self.seq.push(half);
            self.k += 1;
            proof {
                lemma_pow2_unfold((k + 1) as nat);
                lemma_pow2_mono((k - 1) as nat, 29);
            }
        } else {
            let val = self.seq[(self.index - half) as usize];
            self.seq.push(val);
        }
        let r = self.seq[self.seq.len() - 1];
        proof {
            assert(r == luby(self.index as nat));
            lemma_luby_bounds(self.index as nat, k);
        }
        r
    }
}

/// The terms of the Luby sequence up to index `2^k - 1` lie in `1..=2^(k-1)`.
pub proof fn lemma_luby_bounds(i: nat, k: nat)
    requires
        1 <= i < pow2(k),
        1 <= k <= 30,
    ensures
        1 <= luby(i) <= pow2((k - 1) as nat),
        luby(i) < 0x4000_0000,
    decreases k,
{
    vstd::arithmetic::power2::lemma2_to64();
    lemma_pow2_unfold(k);
    lemma_pow2_pos((k - 1) as nat);
    lemma_pow2_mono((k - 1) as nat, 29);
    if i < pow2((k - 1) as nat) {
        lemma_luby_bounds(i, (k - 1) as nat);
        lemma_pow2_mono((k - 2) as nat, (k - 1) as nat);
    } else {
        lemma_luby_step(i, k);
        if i + 1 != pow2(k) {
            let j = (i + 1 - pow2((k - 1) as nat)) as nat;
            if k >= 2 {
                lemma_luby_bounds(j, (k - 1) as nat);
                lemma_pow2_mono((k - 2) as nat, (k - 1) as nat);
            }
        }
    }
}


/// Law: the restart thresholds of a [`Restarter`] and the terms of a
/// [`Luby`] sequence that have advanced equally far agree term by term.
pub proof fn law_restarter_matches_luby(r: Restarter, l: Luby)
    requires
        r.wf(),
        l.wf(),
        r.i == l.index,
    ensures
        forall|j: int| 0 <= j < r.i ==> #[trigger] r.threshold_sequence@[j] == l.seq@[j],
{
    assert forall|j: int| 0 <= j < r.i implies #[trigger] r.threshold_sequence@[j] == l.seq@[j] by {
        assert(r.threshold_sequence@[j] == luby((j + 1) as nat));
        assert(l.seq@[j] == luby((j + 1) as nat));
    }
}

/// Why a run of the solver gave no answer.
#[derive(PartialEq, Eq, Structural, Clone, Copy, Debug)]
pub enum RunError {
    /// The assignment found does not satisfy every clause of the pool's
    /// input part.
    InvalidSolution,
    /// A counter of the search (conflicts, decisions, levels, restarts or
    /// the restart schedule) would pass `i32::MAX`.
    CounterLimit,
    /// Conflict analysis reached the bottom of the trail.
    TrailExhausted,
    /// Raising the activities of a clause met in conflict analysis would
    /// take the score of a variable (the sum of its two activities) past
    /// `i32::MAX`.
    ActivityOverflow,
}

/// A counter of the search has reached the end of its range: the conflict,
/// decision, level or restart count is `i32::MAX`, the next decay or the
/// next restart would pass `i32::MAX`, the learned clauses number
/// `i32::MAX`, or the restart schedule is at its last term.
pub open spec fn at_counter_limit(s: &SatSolver) -> bool {
    let m = s.cnf_manager;
    ||| m.conflict_count == i32::MAX
    ||| m.decision_count == i32::MAX
    ||| m.decision_level == i32::MAX
    ||| m.restart_count == i32::MAX
    ||| s.next_decay > i32::MAX - 128
    ||| m.clauses@.len() >= i32::MAX
    ||| s.luby.index >= 0x3FFF_FFFF
    ||| (s.luby.seq@.len() > 0 && s.next_restart + 512 * s.luby.seq@.last() > i32::MAX)
}

/// The clause at index `j` of the pool of `m` has a literal true in `m`
/// before its terminating `0`.
pub open spec fn clause_true_at(m: &CnfManager, j: int) -> bool {
    let pool = m.lit_pool@;
    exists|k: int|
        j <= k < pool.len() && #[trigger] pool[k] != 0 && m.is_true(pool[k]) && forall|t: int|
            j <= t <= k ==> #[trigger] pool[t] != 0
}

/// Every clause of the input part of the pool has a true literal.
pub open spec fn input_clauses_satisfied(m: &CnfManager) -> bool {
    forall|j: int| 0 <= j < m.lit_pool_size_orig && clause_start(m.lit_pool@, j) ==> #[trigger] clause_true_at(m, j)
}

/// Law: when every clause of the input part of the pool has a true literal
/// (what [`SatSolver::verifySolution`] checks, and what a run answering
/// `Ok(true)` leaves) and that part holds the clauses of three or more
/// literals of `cs` (as [`SatSolver::new`] builds it and every step keeps
/// it, see [`same_clauses`]), each such clause of `cs` has a true literal.
pub proof fn law_model_of_long_clauses(m: CnfManager, cs: Seq<Seq<i32>>)
    requires
        input_clauses_satisfied(&m),
        m.lit_pool_size_orig == long_pool(cs).len(),
        same_clauses(m.lit_pool@, long_pool(cs), m.lit_pool_size_orig as int),
        forall|i: int, k: int| 0 <= i < cs.len() && 0 <= k < cs[i].len() ==> #[trigger] cs[i][k] != 0,
    ensures
        forall|i: int|
            0 <= i < cs.len() && (#[trigger] cs[i]).len() >= 3 ==> exists|k: int| 0 <= k < cs[i].len() && m.is_true(cs[i][k]),
{
    broadcast use vstd::multiset::group_multiset_axioms;

    let l = long_pool(cs);
    let pool = m.lit_pool@;
    let orig = m.lit_pool_size_orig as int;
    assert forall|i: int| 0 <= i < cs.len() && (#[trigger] cs[i]).len() >= 3 implies exists|k: int|
        0 <= k < cs[i].len() && m.is_true(cs[i][k]) by {
        lemma_long_pool_clause(cs, i);
        let c = long_pool(cs.take(i)).len() as int;
        let z = c + cs[i].len();
        assert(first_zero(l, c, z)) by {
            assert forall|t: int| c <= t < z implies #[trigger] l[t] != 0 by {
                assert(l[t] == l.subrange(c, z)[t - c]);
                assert(cs[i][t - c] != 0);
            }
        }
        assert(pool.subrange(c, z).to_multiset() =~= l.subrange(c, z).to_multiset());
        assert(clause_start(pool, c)) by {
            if c > 0 {
                assert(l[c - 1] == 0);
            }
        }
        assert(clause_true_at(&m, c));
        let k = choose|k: int|
            c <= k < pool.len() && #[trigger] pool[k] != 0 && m.is_true(pool[k]) && forall|t: int|
                c <= t <= k ==> #[trigger] pool[t] != 0;
        assert(k < z) by {
            if k >= z {
                assert(l[z] == 0);
                assert(pool[z] == 0);
            }
        }
        let seg = pool.subrange(c, z);
        assert(seg[k - c] == pool[k]);
        seg.to_multiset_ensures();
        assert(seg.contains(pool[k]));
        assert(l.subrange(c, z).to_multiset().count(pool[k]) > 0);
        l.subrange(c, z).to_multiset_ensures();
        assert(cs[i].contains(pool[k]));
        let kk = choose|kk: int| 0 <= kk < cs[i].len() && cs[i][kk] == pool[k];
        assert(m.is_true(cs[i][kk]));
    }
}

/// Law: a solver built by [`SatSolver::new`] from `sat_instance` (state
/// `s0`) whose [`SatSolver::run`] answered `Ok(true)` (state `s1`, which then
/// agrees with `s0` on the input clauses and satisfies them) leaves every
/// clause of three or more literals of the formula with a true literal.
pub proof fn law_sat_answer_satisfies_long_clauses(s0: SatSolver, s1: SatSolver, sat_instance: SatInstance)
    requires
        sat_instance.well_formed(),
        s0.initialised(&sat_instance),
        s1.cnf_manager.lit_pool_size_orig == s0.cnf_manager.lit_pool_size_orig,
        same_clauses(s1.cnf_manager.lit_pool@, s0.cnf_manager.lit_pool@, s0.cnf_manager.lit_pool_size_orig as int),
        input_clauses_satisfied(&s1.cnf_manager),
    ensures
        forall|i: int|
            0 <= i < sat_instance.clause_count && (#[trigger] sat_instance.clauses@[i]@).len() >= 3 ==> exists|k: int|
                0 <= k < sat_instance.clauses@[i]@.len() && s1.cnf_manager.is_true(sat_instance.clauses@[i]@[k]),
{
    let cs = sat_instance.clause_seqs().take(sat_instance.clause_count as int);
    let orig = s0.cnf_manager.lit_pool_size_orig as int;
    lemma_same_clauses_trans(s1.cnf_manager.lit_pool@, s0.cnf_manager.lit_pool@, long_pool(cs), orig);
    assert forall|i: int, k: int| 0 <= i < cs.len() && 0 <= k < cs[i].len() implies #[trigger] cs[i][k] != 0 by {
        assert(cs[i] == sat_instance.clauses@[i]@);
    }
    law_model_of_long_clauses(s1.cnf_manager, cs);
    assert forall|i: int|
        0 <= i < sat_instance.clause_count && (#[trigger] sat_instance.clauses@[i]@).len() >= 3 implies exists|k: int|
            0 <= k < sat_instance.clauses@[i]@.len() && s1.cnf_manager.is_true(sat_instance.clauses@[i]@[k]) by {
        assert(cs[i] == sat_instance.clauses@[i]@);
    }
}

/// The literal that assigns variable `x` the polarity the heuristic
/// prefers: positive when its positive activity leads by more than 32,
/// negative when its negative one does, else as its saved phase.
pub open spec fn preferred(m: &CnfManager, x: i32) -> i32 {
    let d = m.vars@[x as int].activity@[1] - m.vars@[x as int].activity@[0];
    if d > 32 {
        x
    } else if -d > 32 {
        (-x) as i32
    } else if m.vars@[x as int].phase {
        x
    } else {
        (-x) as i32
    }
}

/// Variable `v` has occurrences of one polarity only: one of its two
/// activities is zero and the other positive.
pub open spec fn is_pure(m: &CnfManager, v: int) -> bool {
    let a = m.vars@[v].activity@;
    (a[1] == 0 && a[0] > 0) || (a[0] == 0 && a[1] > 0)
}

/// Variable `v` holds the value of its only polarity: false when it occurs
/// negatively only, true when it occurs positively only.
pub open spec fn pure_value(m: &CnfManager, v: int) -> bool {
    let a = m.vars@[v].activity@;
    ||| m.vars@[v].value == VA::Neg && a[1] == 0 && a[0] > 0
    ||| m.vars@[v].value == VA::Pos && a[0] == 0 && a[1] > 0
}

/// Every variable assigned with no reason is the variable of a unit clause
/// of `inst`, or one of one polarity only that holds the value of that
/// polarity.
pub open spec fn reasonless_justified(m: &CnfManager, inst: &SatInstance) -> bool {
    forall|v: int|
        1 <= v <= m.n() && (#[trigger] m.vars@[v]).value != VA::Free && m.vars@[v].ante.is_null ==> inst.unit_on(v)
            || pure_value(m, v)
}

/// Asserting, with no reason, a literal whose variable occurs in the
/// literal's polarity only keeps every reasonless assignment justified.
proof fn lemma_pure_step(pre: &CnfManager, post: &CnfManager, inst: &SatInstance, lit: i32)
    requires
        reasonless_justified(pre, inst),
        post.is_true(lit),
        post.reasonless_kept(pre, lit),
        post.var_count == pre.var_count,
        pre.vars@.len() == pre.n() + 1,
        lit != 0,
        lit_in_range(lit, pre.n()),
        ({
            let a = pre.vars@[var_of(lit)].activity@;
            ||| sign_of(lit) == VA::Neg && a[1] == 0 && a[0] > 0
            ||| sign_of(lit) == VA::Pos && a[0] == 0 && a[1] > 0
        }),
    ensures
        reasonless_justified(post, inst),
{
    assert forall|v: int|
        1 <= v <= post.n() && (#[trigger] post.vars@[v]).value != VA::Free && post.vars@[v].ante.is_null implies inst.unit_on(v)
            || pure_value(post, v) by {
        assert(post.vars@[v].activity == pre.vars@[v].activity);
        if v != var_of(lit) {
            assert(pre.vars@[v].value == post.vars@[v].value && pre.vars@[v].ante.is_null);
        }
    }
}

/// After the construction at level 1, a variable that holds a value without
/// a reason and has no unit clause is one of a single polarity, and holds
/// that polarity's value: false when it has no positive occurrence, true when
/// it has no negative one.
pub proof fn law_pure_variables_take_their_polarity(s: SatSolver, sat_instance: SatInstance, v: int)
    requires
        s.initialised(&sat_instance),
        s.cnf_manager.decision_level == 1,
        1 <= v <= sat_instance.var_count,
        s.cnf_manager.vars@[v].value != VA::Free,
        s.cnf_manager.vars@[v].ante.is_null,
        !sat_instance.unit_on(v),
    ensures
        s.cnf_manager.vars@[v].activity@[1] == 0 ==> s.cnf_manager.vars@[v].value == VA::Neg && s.cnf_manager.vars@[v].activity@[0] > 0,
        s.cnf_manager.vars@[v].activity@[0] == 0 ==> s.cnf_manager.vars@[v].value == VA::Pos && s.cnf_manager.vars@[v].activity@[1] > 0,
{
    assert(pure_value(&s.cnf_manager, v));
}

/// Variable `v` is listed in the variable order.
pub open spec fn in_order(m: &CnfManager, v: int) -> bool {
    exists|k: int| 0 <= k < m.var_order@.len() && m.var_order@[k] == v
}

/// The variable order as the solver builds it before the search: exactly the
/// unassigned variables of positive score, by ascending score and, among
/// equal scores, by ascending variable; each knows its position, and its
/// phase is positive when its positive activity is the larger. Variables not
/// listed have position 0.
pub open spec fn order_built(m: &CnfManager) -> bool {
    let vo = m.var_order@;
    &&& forall|k: int| 0 <= k < vo.len() ==> {
        let v = #[trigger] vo[k] as int;
        &&& m.vars@[v].value == VA::Free
        &&& m.spec_weight(v) > 0
        &&& m.vars@[v].phase == (m.vars@[v].activity@[1] > m.vars@[v].activity@[0])
        &&& m.var_position@[v] == k
    }
    &&& forall|i: int, j: int|
        #![trigger vo[i], vo[j]]
        0 <= i < j < vo.len() ==> m.spec_weight(vo[i] as int) < m.spec_weight(vo[j] as int) || (
        m.spec_weight(vo[i] as int) == m.spec_weight(vo[j] as int) && vo[i] < vo[j])
    &&& forall|v: int|
        1 <= v <= m.n() && m.vars@[v].value == VA::Free && m.spec_weight(v) > 0 ==> #[trigger] in_order(m, v)
    &&& forall|v: int| 0 <= v <= m.n() && !in_order(m, v) ==> #[trigger] m.var_position@[v] == 0
}

/// A list of distinct indices below its length takes every such index.
pub proof fn lemma_perm_onto(p: Seq<int>, q: int)
    requires
        forall|i: int| 0 <= i < p.len() ==> 0 <= #[trigger] p[i] < p.len(),
        forall|i: int, j: int| 0 <= i < j < p.len() ==> p[i] != p[j],
        0 <= q < p.len(),
    ensures
        exists|i: int| 0 <= i < p.len() && p[i] == q,
{
    assert(p.no_duplicates()) by {
        assert forall|i: int, j: int| 0 <= i < p.len() && 0 <= j < p.len() && i != j implies p[i] != p[j] by {
            if i > j {
                assert(p[j] != p[i]);
            }
        }
    }
    p.unique_seq_to_set();
    if !(exists|i: int| 0 <= i < p.len() && p[i] == q) {
        let r = vstd::set_lib::set_int_range(0, p.len() as int);
        vstd::set_lib::lemma_int_range(0, p.len() as int);
        assert(p.to_set().subset_of(r.remove(q))) by {
            assert forall|x: int| p.to_set().contains(x) implies r.remove(q).contains(x) by {
                let i = choose|i: int| 0 <= i < p.len() && p[i] == x;
            }
        }
        vstd::set_lib::lemma_len_subset(p.to_set(), r.remove(q));
    }
}

/// After a propagation that ended without conflict, the propagated literal
/// is true, and a variable still unassigned was unassigned before and kept
/// its activities.
pub proof fn lemma_success_free(m: &CnfManager, o: &CnfManager, lit: i32, level: i32)
    requires
        m.propagation_outcome(o, lit, true, level),
    ensures
        m.is_true(lit),
        forall|v: int|
            0 <= v <= o.n() && (#[trigger] m.vars@[v]).value == VA::Free ==> o.vars@[v].value == VA::Free
                && m.vars@[v].activity == o.vars@[v].activity,
        forall|v: int|
            0 <= v <= o.n() && (#[trigger] o.vars@[v]).value != VA::Free && v != var_of(lit) ==> m.vars@[v].value
                == o.vars@[v].value,
{
    let ns = choose|ns: Seq<i32>| {
        &&& 1 <= ns.len()
        &&& ns[0] == lit
        &&& m.decision_stack@ == o.decision_stack@ + ns
        &&& forall|k: int| 0 <= k < ns.len() ==> #[trigger] ns[k] != 0 && m.is_true(ns[k])
        &&& forall|k: int| 1 <= k < ns.len() ==> o.is_free(#[trigger] ns[k])
        &&& forall|i: int, j: int| 0 <= i < j < ns.len() ==> var_of(ns[i]) != var_of(ns[j])
        &&& forall|v: int| 0 <= v <= o.n() && !in_vars(ns, v) ==>
            (#[trigger] m.vars@[v]).value == o.vars@[v].value
        &&& imps_done(m.vars@, ns, ns.len() as int)
    };
    assert(ns[0] != 0 && m.is_true(ns[0]));
    assert forall|v: int|
        0 <= v <= o.n() && (#[trigger] m.vars@[v]).value == VA::Free implies o.vars@[v].value == VA::Free
            && m.vars@[v].activity == o.vars@[v].activity by {
        if in_vars(ns, v) {
            let k = choose|k: int| 0 <= k < ns.len() && var_of(#[trigger] ns[k]) == v;
            assert(ns[k] != 0 && m.is_true(ns[k]));
        }
    }
    assert forall|v: int|
        0 <= v <= o.n() && (#[trigger] o.vars@[v]).value != VA::Free && v != var_of(lit) implies m.vars@[v].value
            == o.vars@[v].value by {
        if in_vars(ns, v) {
            let k = choose|k: int| 0 <= k < ns.len() && var_of(#[trigger] ns[k]) == v;
            if k >= 1 {
                assert(o.is_free(ns[k]));
            }
        }
    }
}

/// The literals of learned clause `i`: the pool from the clause's start up
/// to the next `0`.
pub open spec fn learned_lits(m: &CnfManager, i: int) -> Seq<i32> {
    clause_from(m.lit_pool@, m.clauses@[i] as int)
}

/// Some literal of `c` is true in `m`.
pub open spec fn some_true(m: &CnfManager, c: Seq<i32>) -> bool {
    exists|k: int| 0 <= k < c.len() && m.is_true(#[trigger] c[k])
}

/// Learned clause `i` has a true literal.
pub open spec fn clause_sat(m: &CnfManager, i: int) -> bool {
    some_true(m, learned_lits(m, i))
}

/// `x` is the variable the heuristic branches on in clause `c`: that of the
/// first unassigned literal of highest score, or `0` when every literal is
/// assigned.
pub open spec fn best_free_var(m: &CnfManager, c: Seq<i32>, x: i32) -> bool {
    if forall|k: int| 0 <= k < c.len() ==> !m.is_free(#[trigger] c[k]) {
        x == 0
    } else {
        exists|k: int|
            #![trigger c[k]]
            0 <= k < c.len() && m.is_free(c[k]) && x == var_of(c[k]) && (forall|j: int|
                0 <= j < c.len() && m.is_free(#[trigger] c[j]) ==> m.spec_weight(var_of(c[j])) <= m.spec_weight(
                    var_of(c[k]),
                )) && (forall|j: int|
                0 <= j < k && m.is_free(#[trigger] c[j]) ==> m.spec_weight(var_of(c[j])) < m.spec_weight(
                    var_of(c[k]),
                ))
    }
}

/// The first learned clause the scan looks at when it starts from `nc`:
/// it looks at most 257 clauses back.
pub open spec fn scan_low(nc: i32) -> int {
    if nc > 256 {
        nc - 256
    } else {
        0
    }
}

/// `a` and `b` agree on everything but the two scan cursors.
pub open spec fn same_but_cursors(a: &CnfManager, b: &CnfManager) -> bool {
    &&& a.var_count == b.var_count
    &&& a.vars@ == b.vars@
    &&& a.var_order@ == b.var_order@
    &&& a.var_position@ == b.var_position@
    &&& a.lit_pool@ == b.lit_pool@
    &&& a.lit_pool_size_orig == b.lit_pool_size_orig
    &&& a.clauses@ == b.clauses@
    &&& a.decision_stack@ == b.decision_stack@
    &&& a.assertion_level == b.assertion_level
    &&& a.decision_level == b.decision_level
    &&& a.decision_count == b.decision_count
    &&& a.conflict_count == b.conflict_count
    &&& a.restart_count == b.restart_count
    &&& a.conflict_lit@ == b.conflict_lit@
    &&& a.tmp_conflict_lit@ == b.tmp_conflict_lit@
    &&& a.conflict_clause_ind == b.conflict_clause_ind
}

/// Moving the scan cursors within their ranges keeps the invariant.
pub proof fn lemma_cursor_frame(a: CnfManager, b: CnfManager)
    requires
        a.wf(),
        same_but_cursors(&a, &b),
        b.next_var >= 0,
        b.next_clause < b.clauses@.len() || b.next_clause == 0,
    ensures
        b.wf(),
{
    assert forall|v: int| 0 <= v <= b.n() implies #[trigger] b.var_wf(v) by {
        assert(a.var_wf(v));
    }
}

/// The literal of the polarity [`preferred`] gives variable `x`.
fn pick_polarity(m: &CnfManager, x: i32) -> (r: i32)
    requires
        m.wf_core(),
        0 <= x <= m.n(),
    ensures
        r == preferred(m, x),
{
    proof {
        assert(m.var_wf(x as int));
    }
    let d = m.vars[x as usize].activity[1] - m.vars[x as usize].activity[0];
    if d > 32 {
        x
    } else if -d > 32 {
        -x
    } else if m.vars[x as usize].phase {
        x
    } else {
        -x
    }
}

/// Whether the clause of the pool starting at `start` has a true literal.
fn clause_has_true(m: &CnfManager, start: usize) -> (r: bool)
    requires
        m.wf(),
        start < m.lit_pool@.len(),
    ensures
        r == some_true(m, clause_from(m.lit_pool@, start as int)),
{
    let ghost pool = m.lit_pool@;
    proof {
        lemma_first_zero_exists(pool, start as int);
    }
    let ghost z = choose|z: int| #[trigger] first_zero(pool, start as int, z);
    let plen = m.lit_pool.len();
    let mut ind = start;
    while m.lit_pool[ind] != 0
        invariant
            m.wf(),
            pool == m.lit_pool@,
            plen == pool.len(),
            start <= ind < pool.len(),
            first_zero(pool, start as int, z),
            forall|t: int| start <= t < ind ==> #[trigger] pool[t] != 0 && !m.is_true(pool[t]),
        decreases pool.len() - ind,
    {
        let lit = m.lit_pool[ind];
        proof {
            assert(lit_in_range(pool[ind as int], m.n()));
        }
        if SET(&lit, m) {
            proof {
                if z <= ind {
                    assert(pool[z] != 0);
                }
                let c = clause_from(pool, start as int);
                assert(c[ind - start] == lit);
            }
            return true;
        }
        ind += 1;
        proof {
            if ind == pool.len() {
                assert(pool[pool.len() - 1] == 0);
            }
        }
    }
    proof {
        assert(first_zero(pool, start as int, ind as int));
        lemma_first_zero_unique(pool, start as int, z, ind as int);
        let c = clause_from(pool, start as int);
        assert forall|k: int| 0 <= k < c.len() implies !m.is_true(#[trigger] c[k]) by {
            assert(c[k] == pool[start + k]);
        }
    }
    false
}

/// The variable [`best_free_var`] picks in the clause of the pool starting
/// at `start`.
fn best_var_in(m: &CnfManager, start: usize) -> (x: i32)
    requires
        m.wf(),
        start < m.lit_pool@.len(),
    ensures
        0 <= x <= m.n(),
        best_free_var(m, clause_from(m.lit_pool@, start as int), x),
{
    let ghost pool = m.lit_pool@;
    proof {
        lemma_first_zero_exists(pool, start as int);
    }
    let ghost z = choose|z: int| #[trigger] first_zero(pool, start as int, z);
    let plen = m.lit_pool.len();
    let mut x: i32 = 0;
    let mut score: i32 = -1;
    let mut ind = start;
    while m.lit_pool[ind] != 0
        invariant
            m.wf(),
            pool == m.lit_pool@,
            plen == pool.len(),
            start <= ind < pool.len(),
            first_zero(pool, start as int, z),
            forall|t: int| start <= t < ind ==> #[trigger] pool[t] != 0,
            0 <= x <= m.n(),
            (forall|t: int| start <= t < ind ==> !m.is_free(#[trigger] pool[t])) ==> x == 0 && score == -1,
            !(forall|t: int| start <= t < ind ==> !m.is_free(#[trigger] pool[t])) ==> exists|t: int|
                #![trigger pool[t]]
                start <= t < ind && m.is_free(pool[t]) && x == var_of(pool[t]) && score == m.spec_weight(x as int)
                    && (forall|j: int|
                    start <= j < ind && m.is_free(#[trigger] pool[j]) ==> m.spec_weight(var_of(pool[j])) <= score)
                    && (forall|j: int| start <= j < t && m.is_free(#[trigger] pool[j]) ==> m.spec_weight(var_of(pool[j])) < score),
        decreases pool.len() - ind,
    {
        let lit = m.lit_pool[ind];
        proof {
            assert(lit_in_range(pool[ind as int], m.n()));
        }
        let v = to_var(&lit) as i32;
        proof {
            assert(m.var_wf(v as int));
        }
        let ghost old_score = score;
        let ghost none_before = forall|t: int| start <= t < ind ==> !m.is_free(#[trigger] pool[t]);
        if m.free(&lit) && SCORE(&v, m) > score {
            x = v;
            score = SCORE(&x, m);
            proof {
                let t = ind as int;
                assert forall|j: int| start <= j < ind + 1 && m.is_free(#[trigger] pool[j]) implies m.spec_weight(var_of(pool[j])) <= score by {
                    if j < ind {
                        assert(!none_before);
                    }
                }
                assert forall|j: int| start <= j < t && m.is_free(#[trigger] pool[j]) implies m.spec_weight(var_of(pool[j])) < score by {
                    assert(!none_before);
                }
                assert(start <= t < ind + 1 && m.is_free(pool[t]) && x == var_of(pool[t]) && score == m.spec_weight(x as int));
            }
        } else {
            proof {
                if !(forall|t: int| start <= t < ind + 1 ==> !m.is_free(#[trigger] pool[t])) {
                    if none_before {
                        assert(m.is_free(pool[ind as int]));
                        assert(false);
                    }
                    let t = choose|t: int|
                        #![trigger pool[t]]
                        start <= t < ind && m.is_free(pool[t]) && x == var_of(pool[t]) && score == m.spec_weight(x as int)
                            && (forall|j: int|
                            start <= j < ind && m.is_free(#[trigger] pool[j]) ==> m.spec_weight(var_of(pool[j])) <= score)
                            && (forall|j: int| start <= j < t && m.is_free(#[trigger] pool[j]) ==> m.spec_weight(var_of(pool[j])) < score);
                    assert forall|j: int| start <= j < ind + 1 && m.is_free(#[trigger] pool[j]) implies m.spec_weight(var_of(pool[j])) <= score by {
                    }
                    assert(start <= t < ind + 1 && m.is_free(pool[t]) && x == var_of(pool[t]));
                }
            }
        }
        ind += 1;
        proof {
            if ind == pool.len() {
                assert(pool[pool.len() - 1] == 0);
            }
        }
    }
    proof {
        assert(first_zero(pool, start as int, ind as int));
        lemma_first_zero_unique(pool, start as int, z, ind as int);
        let c = clause_from(pool, start as int);
        assert(c =~= pool.subrange(start as int, ind as int));
        if forall|k: int| 0 <= k < c.len() ==> !m.is_free(#[trigger] c[k]) {
            assert forall|t: int| start <= t < ind implies !m.is_free(#[trigger] pool[t]) by {
                assert(c[t - start] == pool[t]);
            }
        } else {
            let k0 = choose|k: int| 0 <= k < c.len() && m.is_free(#[trigger] c[k]);
            assert(c[k0] == pool[start + k0]);
            let t = choose|t: int|
                #![trigger pool[t]]
                start <= t < ind && m.is_free(pool[t]) && x == var_of(pool[t]) && score == m.spec_weight(x as int)
                    && (forall|j: int|
                    start <= j < ind && m.is_free(#[trigger] pool[j]) ==> m.spec_weight(var_of(pool[j])) <= score)
                    && (forall|j: int| start <= j < t && m.is_free(#[trigger] pool[j]) ==> m.spec_weight(var_of(pool[j])) < score);
            let k = t - start;
            assert(c[k] == pool[t]);
            assert forall|j: int| 0 <= j < c.len() && m.is_free(#[trigger] c[j]) implies m.spec_weight(var_of(c[j])) <= m.spec_weight(var_of(c[k])) by {
                assert(c[j] == pool[start + j]);
            }
            assert forall|j: int| 0 <= j < k && m.is_free(#[trigger] c[j]) implies m.spec_weight(var_of(c[j])) < m.spec_weight(var_of(c[k])) by {
                assert(c[j] == pool[start + j]);
            }
        }
    }
    x
}

/// What [`SatSolver::selectLiteral`] does to the solver state `o`, giving
/// `m` and the literal `r`. The learned clauses are scanned from
/// `o.next_clause` down to [`scan_low`]; at the first one without a true
/// literal the scan stops there and the literal is that of the variable of
/// [`best_free_var`] in it. When every scanned clause has a true literal, the
/// scan rests at its low end, and the variable order is scanned from
/// `o.next_var` for an unassigned variable: the literal is that of the first
/// one, and `next_var` moves just past it; when there is none, the literal is
/// `0`. The polarity is always that of [`preferred`].
pub open spec fn select_outcome(o: &CnfManager, m: &CnfManager, r: i32) -> bool {
    let nc = o.next_clause as int;
    let lo = scan_low(o.next_clause);
    let vo = o.var_order@;
    if exists|i: int| lo <= i <= nc && !#[trigger] clause_sat(o, i) {
        &&& lo <= m.next_clause <= nc
        &&& !clause_sat(o, m.next_clause as int)
        &&& forall|i: int| m.next_clause < i <= nc ==> #[trigger] clause_sat(o, i)
        &&& m.next_var == o.next_var
        &&& exists|x: i32| best_free_var(o, learned_lits(o, m.next_clause as int), x) && r == #[trigger] preferred(o, x)
    } else {
        &&& m.next_clause == if lo <= nc {
            lo
        } else {
            nc
        }
        &&& if exists|j: int| o.next_var <= j < vo.len() && o.vars@[#[trigger] vo[j] as int].value == VA::Free {
            &&& o.next_var < m.next_var <= vo.len()
            &&& o.vars@[vo[m.next_var - 1] as int].value == VA::Free
            &&& forall|j: int| o.next_var <= j < m.next_var - 1 ==> o.vars@[#[trigger] vo[j] as int].value != VA::Free
            &&& r == preferred(o, vo[m.next_var - 1])
        } else {
            r == 0 && m.next_var == o.next_var
        }
    }
}

/// The solver: the clause database and trail, and the restart and decay schedule.
pub struct SatSolver {
    pub cnf_manager: CnfManager,
    pub luby: Luby,
    pub luby_unit: i32,
    pub next_decay: i32,
    pub next_restart: i32,
}

impl SatSolver {
    /// The invariant of the solver.
    pub open spec fn wf(&self) -> bool {
        &&& self.cnf_manager.wf()
        &&& self.luby.wf()
        &&& self.luby_unit == 512
        &&& self.cnf_manager.decision_level >= 1 ==> self.cnf_manager.next_clause < self.cnf_manager.clauses@.len()
    }

    /// What the construction leaves: the counters at zero, the first restart
    /// after `512` conflicts, the first decay after `128`; and, unless the
    /// unit clauses conflicted (decision level 0, which needs a unit clause
    /// to happen at all), the order of
    /// [`order_built`], the clause scan starting at the last learned clause,
    /// every variable assigned without a reason justified by a unit clause or
    /// by its one polarity (see [`reasonless_justified`]) and, when no
    /// conflict occurred, no unassigned variable of one polarity only.
    pub open spec fn initialised(&self, sat_instance: &SatInstance) -> bool {
        let m = self.cnf_manager;
        &&& m.var_count == sat_instance.var_count
        &&& m.decision_count == 0
        &&& m.restart_count == 0
        &&& 0 <= m.conflict_count <= m.n() + 1
        &&& self.luby.index == 1
        &&& self.next_restart == 512
        &&& self.next_decay == 128
        &&& 0 <= m.decision_level <= 1
        &&& m.lit_pool_size_orig == long_pool(sat_instance.clause_seqs().take(sat_instance.clause_count as int)).len()
        &&& same_clauses(
            m.lit_pool@,
            long_pool(sat_instance.clause_seqs().take(sat_instance.clause_count as int)),
            m.lit_pool_size_orig as int,
        )
        &&& m.decision_level == 0 ==> m.conflict_count == 1 && m.var_order@.len() == 0
        &&& m.decision_level == 0 ==> exists|u: int| 0 <= u < sat_instance.clause_count && #[trigger] sat_instance.is_unit(u)
        &&& m.decision_level == 1 ==> {
            &&& forall|u: int|
                0 <= u < sat_instance.clause_count && sat_instance.is_unit(u) ==> #[trigger] m.is_true(
                    sat_instance.clauses@[u]@[0],
                )
            &&& order_built(&m)
            &&& m.next_var == 0
            &&& m.clauses@.len() == 0
            &&& m.next_clause == -1
            &&& m.conflict_count == 0 ==> forall|v: int|
                1 <= v <= m.n() && (#[trigger] m.vars@[v]).value == VA::Free ==> !is_pure(&m, v)
            &&& reasonless_justified(&m, sat_instance)
        }
    }

    /// Builds the solver for `sat_instance`: the clause database of
    /// [`CnfManager::new`]; then, at decision level 1, each unassigned
    /// variable of one polarity only (see [`is_pure`]), from the first to the
    /// last, is asserted in that polarity and propagated; then the unassigned
    /// variables of positive score are put in order (see [`order_built`]).
    ///
    /// Returns `None` exactly when two unit clauses are opposite.
    #[verifier::rlimit(40)]
    #[verifier::spinoff_prover]
    pub fn new(sat_instance: &SatInstance) -> (r: Option<SatSolver>)
        requires
            sat_instance.well_formed(),
            occurrences_fit(sat_instance.clause_seqs().take(sat_instance.clause_count as int), sat_instance.var_count as int),
        ensures
            r is None <==> sat_instance.opposite_units(),
            r matches Some(s) ==> s.wf() && s.initialised(sat_instance),
    {
        let m = match CnfManager::new(sat_instance) {
            None => {
                return None;
            },
            Some(m) => m,
        };
        let mut luby = Luby::new();
        let first = luby.next();
        proof {
            vstd::arithmetic::power2::lemma2_to64();
            lemma_luby_step(1, 1);
        }
        let mut ret = SatSolver { cnf_manager: m, luby, luby_unit: 512, next_decay: 128, next_restart: 0 };
        ret.next_restart = first * ret.luby_unit;
        if ret.cnf_manager.decision_level == 0 {
            return Some(ret);
        }
        let ghost orig = ret.cnf_manager.lit_pool_size_orig;
        let n = ret.cnf_manager.var_count as usize;
        let mut i: usize = 1;
        while i <= n
            invariant
                ret.cnf_manager.wf(),
                ret.luby.wf(),
                ret.luby.index == 1,
                ret.luby_unit == 512,
                ret.next_decay == 128,
                ret.next_restart == 512,
                n == ret.cnf_manager.n(),
                n == sat_instance.var_count,
                1 <= i <= n + 1,
                ret.cnf_manager.decision_level == 1,
                ret.cnf_manager.decision_count == 0,
                ret.cnf_manager.restart_count == 0,
                0 <= ret.cnf_manager.conflict_count < i,
                ret.cnf_manager.var_order@.len() == 0,
                forall|v: int| 0 <= v <= n ==> #[trigger] ret.cnf_manager.var_position@[v] == 0,
                ret.cnf_manager.next_var == 0,
                ret.cnf_manager.clauses@.len() == 0,
                ret.cnf_manager.lit_pool_size_orig == orig,
                ret.cnf_manager.conflict_count == 0 ==> forall|v: int|
                    1 <= v < i && (#[trigger] ret.cnf_manager.vars@[v]).value == VA::Free ==> !is_pure(&ret.cnf_manager, v),
                reasonless_justified(&ret.cnf_manager, sat_instance),
                sat_instance.well_formed(),
                forall|u: int|
                    0 <= u < sat_instance.clause_count && sat_instance.is_unit(u) ==> #[trigger] ret.cnf_manager.is_true(
                        sat_instance.clauses@[u]@[0],
                    ),
                same_clauses(
                    ret.cnf_manager.lit_pool@,
                    long_pool(sat_instance.clause_seqs().take(sat_instance.clause_count as int)),
                    orig as int,
                ),
            decreases n + 1 - i,
        {
            proof {
                assert(ret.cnf_manager.var_wf(i as int));
            }
            let ghost pre = ret.cnf_manager;
            if ret.cnf_manager.vars[i].value == VA::Free {
                let pos = ret.cnf_manager.vars[i].activity[1];
                let neg = ret.cnf_manager.vars[i].activity[0];
                if pos == 0 && neg > 0 {
                    let r = ret.cnf_manager.assert_literal(-(i as i32), ArrTuple::new(), 0);
                    proof {
                        lemma_same_clauses_trans(
                            ret.cnf_manager.lit_pool@,
                            pre.lit_pool@,
                            long_pool(sat_instance.clause_seqs().take(sat_instance.clause_count as int)),
                            orig as int,
                        );
                        if r {
                            lemma_success_free(&ret.cnf_manager, &pre, (-(i as i32)) as i32, 1);
                            assert(ret.cnf_manager.vars@[i as int].value != VA::Free);
                        }
                        assert(var_of((-(i as i32)) as i32) == i);
                        lemma_pure_step(&pre, &ret.cnf_manager, sat_instance, (-(i as i32)) as i32);
                        assert forall|u: int|
                            0 <= u < sat_instance.clause_count && sat_instance.is_unit(u) implies #[trigger] ret.cnf_manager.is_true(
                                sat_instance.clauses@[u]@[0],
                            ) by {
                            let l = sat_instance.clauses@[u]@[0];
                            assert(pre.is_true(l));
                            assert(pre.vars@[var_of(l)].value != VA::Free);
                        }
                        assert forall|v: int| 0 <= v <= n implies #[trigger] ret.cnf_manager.var_position@[v] == 0 by {
                            assert(pre.var_position@[v] == 0);
                        }
                    }
                } else if neg == 0 && pos > 0 {
                    let r = ret.cnf_manager.assert_literal(i as i32, ArrTuple::new(), 0);
                    proof {
                        lemma_same_clauses_trans(
                            ret.cnf_manager.lit_pool@,
                            pre.lit_pool@,
                            long_pool(sat_instance.clause_seqs().take(sat_instance.clause_count as int)),
                            orig as int,
                        );
                        if r {
                            lemma_success_free(&ret.cnf_manager, &pre, i as i32, 1);
                            assert(ret.cnf_manager.vars@[i as int].value != VA::Free);
                        }
                        assert(var_of(i as i32) == i);
                        lemma_pure_step(&pre, &ret.cnf_manager, sat_instance, i as i32);
                        assert forall|u: int|
                            0 <= u < sat_instance.clause_count && sat_instance.is_unit(u) implies #[trigger] ret.cnf_manager.is_true(
                                sat_instance.clauses@[u]@[0],
                            ) by {
                            let l = sat_instance.clauses@[u]@[0];
                            assert(pre.is_true(l));
                            assert(pre.vars@[var_of(l)].value != VA::Free);
                        }
                        assert forall|v: int| 0 <= v <= n implies #[trigger] ret.cnf_manager.var_position@[v] == 0 by {
                            assert(pre.var_position@[v] == 0);
                        }
                    }
                }
            }
            i += 1;
        }
        let ghost s1 = ret.cnf_manager;
        let mut i: usize = 1;
        while i <= n
            invariant
                ret.cnf_manager.wf(),
                ret.luby.wf(),
                ret.luby.index == 1,
                ret.luby_unit == 512,
                ret.next_decay == 128,
                ret.next_restart == 512,
                n == ret.cnf_manager.n(),
                n == sat_instance.var_count,
                1 <= i <= n + 1,
                s1.wf(),
                s1.decision_level == 1,
                s1.decision_count == 0,
                s1.restart_count == 0,
                0 <= s1.conflict_count <= n + 1,
                s1.var_order@.len() == 0,
                forall|v: int| 0 <= v <= n ==> #[trigger] s1.var_position@[v] == 0,
                s1.next_var == 0,
                s1.clauses@.len() == 0,
                s1.lit_pool_size_orig == orig,
                s1.conflict_count == 0 ==> forall|v: int|
                    1 <= v <= n && (#[trigger] s1.vars@[v]).value == VA::Free ==> !is_pure(&s1, v),
                sat_instance.well_formed(),
                forall|u: int|
                    0 <= u < sat_instance.clause_count && sat_instance.is_unit(u) ==> #[trigger] s1.is_true(
                        sat_instance.clauses@[u]@[0],
                    ),
                same_clauses(
                    s1.lit_pool@,
                    long_pool(sat_instance.clause_seqs().take(sat_instance.clause_count as int)),
                    orig as int,
                ),
                ret.cnf_manager.var_count == s1.var_count,
                ret.cnf_manager.var_position@ == s1.var_position@,
                ret.cnf_manager.next_var == s1.next_var,
                ret.cnf_manager.lit_pool@ == s1.lit_pool@,
                ret.cnf_manager.lit_pool_size_orig == s1.lit_pool_size_orig,
                ret.cnf_manager.clauses@ == s1.clauses@,
                ret.cnf_manager.next_clause == s1.next_clause,
                ret.cnf_manager.decision_stack@ == s1.decision_stack@,
                ret.cnf_manager.decision_level == s1.decision_level,
                ret.cnf_manager.decision_count == s1.decision_count,
                ret.cnf_manager.conflict_count == s1.conflict_count,
                ret.cnf_manager.restart_count == s1.restart_count,
                ret.cnf_manager.vars@.len() == s1.vars@.len(),
                forall|v: int| 0 <= v <= n ==> {
                    &&& (#[trigger] ret.cnf_manager.vars@[v]).value == s1.vars@[v].value
                    &&& ret.cnf_manager.vars@[v].activity == s1.vars@[v].activity
                    &&& ret.cnf_manager.vars@[v].ante == s1.vars@[v].ante
                },
                reasonless_justified(&s1, sat_instance),
                ret.cnf_manager.var_order@.len() < i,
                forall|a: int, b: int|
                    #![trigger ret.cnf_manager.var_order@[a], ret.cnf_manager.var_order@[b]]
                    0 <= a < b < ret.cnf_manager.var_order@.len() ==> ret.cnf_manager.var_order@[a] < ret.cnf_manager.var_order@[b],
                forall|k: int| 0 <= k < ret.cnf_manager.var_order@.len() ==> {
                    let v = #[trigger] ret.cnf_manager.var_order@[k] as int;
                    &&& 1 <= v < i
                    &&& ret.cnf_manager.vars@[v].value == VA::Free
                    &&& ret.cnf_manager.spec_weight(v) > 0
                    &&& ret.cnf_manager.vars@[v].phase == (ret.cnf_manager.vars@[v].activity@[1]
                        > ret.cnf_manager.vars@[v].activity@[0])
                },
                forall|v: int|
                    1 <= v < i && ret.cnf_manager.vars@[v].value == VA::Free && ret.cnf_manager.spec_weight(v) > 0
                        ==> #[trigger] in_order(&ret.cnf_manager, v),
            decreases n + 1 - i,
        {
            proof {
                assert(ret.cnf_manager.var_wf(i as int));
            }
            let ghost pre = ret.cnf_manager;
            let w = SCORE(&(i as i32), &ret.cnf_manager);
            if ret.cnf_manager.vars[i].value == VA::Free && w > 0 {
                ret.cnf_manager.var_order.push(i as i32);
                let ghost mid = ret.cnf_manager;
                proof {
                    assert forall|u: int| 0 <= u <= mid.n() implies #[trigger] mid.var_wf(u) by {
                        assert(pre.var_wf(u));
                    }
                    assert(mid.wf());
                }
                let ph = ret.cnf_manager.vars[i].activity[1] > ret.cnf_manager.vars[i].activity[0];
                ret.cnf_manager.vars[i].phase = ph;
                proof {
                    assert forall|u: int| 0 <= u <= n implies #[trigger] ret.cnf_manager.var_wf(u) by {
                        assert(mid.var_wf(u));
                    }
                    assert forall|v: int|
                        1 <= v < i + 1 && ret.cnf_manager.vars@[v].value == VA::Free && ret.cnf_manager.spec_weight(v) > 0
                            implies #[trigger] in_order(&ret.cnf_manager, v) by {
                        if v == i {
                            assert(ret.cnf_manager.var_order@[pre.var_order@.len() as int] == v);
                        } else {
                            assert(pre.vars@[v] == ret.cnf_manager.vars@[v]);
                            assert(in_order(&pre, v));
                            let k = choose|k: int| 0 <= k < pre.var_order@.len() && pre.var_order@[k] == v;
                            assert(ret.cnf_manager.var_order@[k] == v);
                        }
                    }
                }
            } else {
                proof {
                    assert forall|v: int|
                        1 <= v < i + 1 && ret.cnf_manager.vars@[v].value == VA::Free && ret.cnf_manager.spec_weight(v) > 0
                            implies #[trigger] in_order(&ret.cnf_manager, v) by {
                        if v == i {
                            assert(false);
                        }
                    }
                }
            }
            i += 1;
        }
        let ghost s2 = ret.cnf_manager;
        proof {
            assert forall|v: int|
                1 <= v <= s2.n() && (#[trigger] s2.vars@[v]).value != VA::Free && s2.vars@[v].ante.is_null implies sat_instance.unit_on(v)
                    || pure_value(&s2, v) by {
                assert(s1.vars@[v].value == s2.vars@[v].value);
            }
            assert forall|v: int| 1 <= v <= n && (#[trigger] s2.vars@[v]).value == VA::Free && s2.conflict_count == 0
                implies !is_pure(&s2, v) by {
                assert(s1.vars@[v].value == VA::Free);
            }
        }
        ret.cnf_manager.sort_vars();
        let ghost s3 = ret.cnf_manager;
        proof {
            assert forall|u: int|
                0 <= u < sat_instance.clause_count && sat_instance.is_unit(u) implies #[trigger] s3.is_true(
                    sat_instance.clauses@[u]@[0],
                ) by {
                let l = sat_instance.clauses@[u]@[0];
                assert(s1.is_true(l));
                assert(s2.vars@[var_of(l)].value == s1.vars@[var_of(l)].value);
            }
            let p = choose|p: Seq<int>| s3.sorted_by_weight(&s2, p);
            let vo = s3.var_order@;
            let ov = s2.var_order@;
            assert forall|a: int, b: int|
                #![trigger vo[a], vo[b]]
                0 <= a < b < vo.len() implies s3.spec_weight(vo[a] as int) < s3.spec_weight(vo[b] as int) || (
                s3.spec_weight(vo[a] as int) == s3.spec_weight(vo[b] as int) && vo[a] < vo[b]) by {
                assert(p[a] != p[b]);
                assert(vo[a] == ov[p[a]] && vo[b] == ov[p[b]]);
                if p[a] < p[b] {
                    assert(ov[p[a]] < ov[p[b]]);
                }
            }
            assert forall|v: int|
                1 <= v <= n && s3.vars@[v].value == VA::Free && s3.spec_weight(v) > 0 implies #[trigger] in_order(&s3, v) by {
                assert(in_order(&s2, v));
                let q = choose|q: int| 0 <= q < ov.len() && ov[q] == v;
                lemma_perm_onto(p, q);
                let j = choose|j: int| 0 <= j < p.len() && p[j] == q;
                assert(vo[j] == v);
            }
            assert forall|k: int| 0 <= k < vo.len() implies {
                let v = #[trigger] vo[k] as int;
                &&& 1 <= v <= n
                &&& s3.vars@[v].value == VA::Free
                &&& s3.spec_weight(v) > 0
                &&& s3.vars@[v].phase == (s3.vars@[v].activity@[1] > s3.vars@[v].activity@[0])
            } by {
                assert(vo[k] == ov[p[k]]);
                assert(0 <= p[k] < ov.len());
            }
        }
        let len = ret.cnf_manager.var_order.len();
        let mut k: usize = 0;
        while k < len
            invariant
                ret.cnf_manager.wf_core(),
                ret.luby.wf(),
                ret.luby.index == 1,
                ret.luby_unit == 512,
                ret.next_decay == 128,
                ret.next_restart == 512,
                n == ret.cnf_manager.n(),
                n == sat_instance.var_count,
                len == s3.var_order@.len(),
                k <= len,
                s3.wf_core(),
                s3.decision_level == 1,
                s3.decision_count == 0,
                s3.restart_count == 0,
                0 <= s3.conflict_count <= n + 1,
                s3.next_var == 0,
                s3.clauses@.len() == 0,
                s3.lit_pool_size_orig == orig,
                s3.conflict_count == 0 ==> forall|v: int|
                    1 <= v <= n && (#[trigger] s3.vars@[v]).value == VA::Free ==> !is_pure(&s3, v),
                reasonless_justified(&s3, sat_instance),
                forall|u: int|
                    0 <= u < sat_instance.clause_count && sat_instance.is_unit(u) ==> #[trigger] s3.is_true(
                        sat_instance.clauses@[u]@[0],
                    ),
                same_clauses(
                    s3.lit_pool@,
                    long_pool(sat_instance.clause_seqs().take(sat_instance.clause_count as int)),
                    orig as int,
                ),
                forall|a: int, b: int|
                    #![trigger s3.var_order@[a], s3.var_order@[b]]
                    0 <= a < b < len ==> s3.spec_weight(s3.var_order@[a] as int) < s3.spec_weight(s3.var_order@[b] as int) || (
                    s3.spec_weight(s3.var_order@[a] as int) == s3.spec_weight(s3.var_order@[b] as int)
                        && s3.var_order@[a] < s3.var_order@[b]),
                forall|k2: int| 0 <= k2 < len ==> {
                    let v = #[trigger] s3.var_order@[k2] as int;
                    &&& 1 <= v <= n
                    &&& s3.vars@[v].value == VA::Free
                    &&& s3.spec_weight(v) > 0
                    &&& s3.vars@[v].phase == (s3.vars@[v].activity@[1] > s3.vars@[v].activity@[0])
                },
                forall|v: int|
                    1 <= v <= n && s3.vars@[v].value == VA::Free && s3.spec_weight(v) > 0 ==> #[trigger] in_order(&s3, v),
                ret.cnf_manager.var_count == s3.var_count,
                ret.cnf_manager.vars@ == s3.vars@,
                ret.cnf_manager.var_order@ == s3.var_order@,
                ret.cnf_manager.next_var == s3.next_var,
                ret.cnf_manager.lit_pool@ == s3.lit_pool@,
                ret.cnf_manager.lit_pool_size_orig == s3.lit_pool_size_orig,
                ret.cnf_manager.clauses@ == s3.clauses@,
                ret.cnf_manager.next_clause == s3.next_clause,
                ret.cnf_manager.decision_stack@ == s3.decision_stack@,
                ret.cnf_manager.decision_level == s3.decision_level,
                ret.cnf_manager.decision_count == s3.decision_count,
                ret.cnf_manager.conflict_count == s3.conflict_count,
                ret.cnf_manager.restart_count == s3.restart_count,
                ret.cnf_manager.var_position@.len() == n + 1,
                forall|j: int| 0 <= j < k ==> #[trigger] ret.cnf_manager.var_position@[s3.var_order@[j] as int] == j,
                forall|v: int|
                    0 <= v <= n && !(exists|j: int| 0 <= j < k && s3.var_order@[j] == v) ==> #[trigger] ret.cnf_manager.var_position@[v] == 0,
            decreases len - k,
        {
            let ghost pre = ret.cnf_manager;
            let v = ret.cnf_manager.var_order[k] as usize;
            proof {
                assert(1 <= s3.var_order@[k as int] <= n);
            }
            ret.cnf_manager.var_position.set(v, k as i32);
            proof {
                assert forall|u: int| 0 <= u <= n implies #[trigger] ret.cnf_manager.var_wf(u) by {
                    assert(pre.var_wf(u));
                }
                assert forall|j: int| 0 <= j < k + 1 implies #[trigger] ret.cnf_manager.var_position@[s3.var_order@[j] as int] == j by {
                    if j < k {
                        assert(s3.var_order@[j] != s3.var_order@[k as int]);
                    }
                }
                assert forall|u: int|
                    0 <= u <= n && !(exists|j: int| 0 <= j < k + 1 && s3.var_order@[j] == u) implies #[trigger] ret.cnf_manager.var_position@[u] == 0 by {
                    assert(s3.var_order@[k as int] != u);
                    assert(!(exists|j: int| 0 <= j < k && s3.var_order@[j] == u));
                }
            }
            k += 1;
        }
        let ghost s4 = ret.cnf_manager;
        ret.cnf_manager.next_var = 0;
        let nc = ret.cnf_manager.clauses.len() as i32 - 1;
        ret.cnf_manager.next_clause = nc;
        proof {
            let m = ret.cnf_manager;
            let vo = m.var_order@;
            assert forall|u: int| 0 <= u <= n implies #[trigger] m.var_wf(u) by {
                assert(s4.var_wf(u));
            }
            assert forall|v: int| 0 <= v <= n && !in_order(&m, v) implies #[trigger] m.var_position@[v] == 0 by {
                if exists|j: int| 0 <= j < len && s3.var_order@[j] == v {
                    let j = choose|j: int| 0 <= j < len && s3.var_order@[j] == v;
                    assert(vo[j] == v);
                }
            }
            assert(m.positions_wf()) by {
                assert forall|v: int| 0 <= v <= m.n() implies {
                    let p = #[trigger] m.var_position@[v];
                    &&& p >= 0
                    &&& p > 0 ==> p < m.var_order@.len() && m.var_order@[p as int] == v
                } by {
                    if exists|j: int| 0 <= j < len && s3.var_order@[j] == v {
                        let j = choose|j: int| 0 <= j < len && s3.var_order@[j] == v;
                        assert(m.var_position@[s3.var_order@[j] as int] == j);
                    }
                }
            }
            assert forall|k2: int| 0 <= k2 < vo.len() implies #[trigger] m.var_position@[vo[k2] as int] == k2 by {
                assert(s3.var_order@[k2] == vo[k2]);
            }
            assert forall|v: int|
                1 <= v <= m.n() && m.vars@[v].value == VA::Free && m.spec_weight(v) > 0 implies #[trigger] in_order(&m, v) by {
                assert(in_order(&s3, v));
            }
            assert(order_built(&m));
            assert forall|u: int|
                0 <= u < sat_instance.clause_count && sat_instance.is_unit(u) implies #[trigger] m.is_true(
                    sat_instance.clauses@[u]@[0],
                ) by {
                assert(s3.is_true(sat_instance.clauses@[u]@[0]));
            }
        }
        Some(ret)
    }

    /// Chooses the next decision literal, or `0` when every variable the
    /// heuristic looks at is assigned (see [`select_outcome`]). Only the two
    /// scan cursors of the clause database change.
    #[allow(non_snake_case)]
    pub fn selectLiteral(&mut self) -> (r: i32)
        requires
            old(self).wf(),
            old(self).cnf_manager.decision_level >= 1,
        ensures
            final(self).wf(),
            final(self).luby == old(self).luby,
            final(self).luby_unit == old(self).luby_unit,
            final(self).next_decay == old(self).next_decay,
            final(self).next_restart == old(self).next_restart,
            same_but_cursors(&final(self).cnf_manager, &old(self).cnf_manager),
            r != 0 ==> lit_in_range(r, old(self).cnf_manager.n()) && old(self).cnf_manager.is_free(r),
            select_outcome(&old(self).cnf_manager, &final(self).cnf_manager, r),
    {
        let ghost o = self.cnf_manager;
        let ghost so = *self;
        let nc = self.cnf_manager.next_clause;
        let last_clause: i32 = if nc > 256 {
            nc - 256
        } else {
            0
        };
        let mut i: i32 = nc;
        while i >= last_clause
            invariant
                *self == so,
                so == *old(self),
                self.cnf_manager == o,
                so.wf(),
                o.decision_level >= 1,
                nc == o.next_clause,
                nc < o.clauses@.len(),
                last_clause == scan_low(nc),
                i <= nc,
                last_clause - 1 <= i || i == nc,
                forall|i2: int| i < i2 <= nc ==> #[trigger] clause_sat(&o, i2),
            decreases i - last_clause + 1,
        {
            let start = self.cnf_manager.clauses[i as usize];
            proof {
                assert(o.clauses@[i as int] < o.lit_pool@.len());
            }
            if !clause_has_true(&self.cnf_manager, start) {
                let x = best_var_in(&self.cnf_manager, start);
                let lit = pick_polarity(&self.cnf_manager, x);
                proof {
                    let c = learned_lits(&o, i as int);
                    assert(!clause_sat(&o, i as int));
                    if x != 0 {
                        assert(!(forall|k: int| 0 <= k < c.len() ==> !o.is_free(#[trigger] c[k])));
                        let k = choose|k: int|
                            #![trigger c[k]]
                            0 <= k < c.len() && o.is_free(c[k]) && x == var_of(c[k]) && (forall|j: int|
                                0 <= j < c.len() && o.is_free(#[trigger] c[j]) ==> o.spec_weight(var_of(c[j])) <= o.spec_weight(
                                    var_of(c[k]),
                                )) && (forall|j: int|
                                0 <= j < k && o.is_free(#[trigger] c[j]) ==> o.spec_weight(var_of(c[j])) < o.spec_weight(
                                    var_of(c[k]),
                                ));
                        assert(o.vars@[x as int].value == VA::Free);
                    }
                }
                self.cnf_manager.next_clause = i;
                proof {
                    lemma_cursor_frame(o, self.cnf_manager);
                    assert(best_free_var(&o, learned_lits(&o, i as int), x) && lit == preferred(&o, x));
                }
                return lit;
            }
            i -= 1;
        }
        let len = self.cnf_manager.var_order.len();
        let mut j: usize = self.cnf_manager.next_var as usize;
        while j < len
            invariant
                *self == so,
                so == *old(self),
                self.cnf_manager == o,
                so.wf(),
                o.decision_level >= 1,
                nc == o.next_clause,
                nc < o.clauses@.len(),
                last_clause == scan_low(nc),
                forall|i2: int| last_clause <= i2 <= nc ==> #[trigger] clause_sat(&o, i2),
                len == o.var_order@.len(),
                o.next_var <= j,
                j <= len || j == o.next_var,
                forall|t: int| o.next_var <= t < j ==> o.vars@[#[trigger] o.var_order@[t] as int].value != VA::Free,
            decreases len - j,
        {
            let x = self.cnf_manager.var_order[j];
            proof {
                assert(1 <= o.var_order@[j as int] <= o.n());
            }
            if self.cnf_manager.vars[x as usize].value == VA::Free {
                let lit = pick_polarity(&self.cnf_manager, x);
                if last_clause <= nc {
                    self.cnf_manager.next_clause = last_clause;
                }
                self.cnf_manager.next_var = (j + 1) as i32;
                proof {
                    lemma_cursor_frame(o, self.cnf_manager);
                }
                return lit;
            }
            j += 1;
        }
        if last_clause <= nc {
            self.cnf_manager.next_clause = last_clause;
        }
        proof {
            lemma_cursor_frame(o, self.cnf_manager);
        }
        0
    }

    /// Searches for a satisfying assignment: decides the literal of
    /// [`SatSolver::selectLiteral`] until it returns `0`; after a conflict,
    /// decays the scores every 128 conflicts, restarts (back to level 1) when
    /// the conflict count reaches the Luby schedule `next_restart`, else
    /// backtracks to the assertion level, and asserts the learned clause,
    /// until that succeeds.
    ///
    /// `Ok(false)`: the formula is unsatisfiable (the unit clauses conflicted
    /// already, or a conflict was found at assertion level 0). `Ok(true)`:
    /// the assignment found satisfies every clause of the pool's input
    /// part. `Err(InvalidSolution)`: the search ended with an assignment that
    /// does not. `Err(CounterLimit)`, `Err(TrailExhausted)`,
    /// `Err(ActivityOverflow)`: see [`RunError`].
    pub fn run(&mut self) -> (r: Result<bool, RunError>)
        requires
            old(self).wf(),
        ensures
            final(self).wf(),
            final(self).cnf_manager.var_count == old(self).cnf_manager.var_count,
            final(self).cnf_manager.lit_pool_size_orig == old(self).cnf_manager.lit_pool_size_orig,
            old(self).cnf_manager.decision_level == 0 ==> r == Ok::<bool, RunError>(false) && *final(self) == *old(self),
            r == Ok::<bool, RunError>(true) ==> input_clauses_satisfied(&final(self).cnf_manager),
            r == Err::<bool, RunError>(RunError::InvalidSolution) ==> !input_clauses_satisfied(&final(self).cnf_manager),
            r == Ok::<bool, RunError>(false) ==> old(self).cnf_manager.decision_level == 0
                || (final(self).cnf_manager.assertion_level == 0 && final(self).cnf_manager.conflict_count
                > old(self).cnf_manager.conflict_count),
            r == Err::<bool, RunError>(RunError::TrailExhausted) ==> final(self).cnf_manager.assertion_level == -1
                && final(self).cnf_manager.decision_stack@.len() == 1,
            r == Err::<bool, RunError>(RunError::ActivityOverflow) ==> final(self).cnf_manager.assertion_level == -2
                && final(self).cnf_manager.some_clause_overflows(),
            r == Err::<bool, RunError>(RunError::CounterLimit) ==> at_counter_limit(&*final(self)),
            same_clauses(
                final(self).cnf_manager.lit_pool@,
                old(self).cnf_manager.lit_pool@,
                old(self).cnf_manager.lit_pool_size_orig as int,
            ),
    {
        proof {
            lemma_same_clauses_refl(self.cnf_manager.lit_pool@, self.cnf_manager.lit_pool_size_orig as int);
        }
        if self.cnf_manager.decision_level == 0 {
            return Ok(false);
        }
        let ghost pool0 = self.cnf_manager.lit_pool@;
        let ghost n0 = self.cnf_manager.var_count;
        let ghost orig = self.cnf_manager.lit_pool_size_orig;
        let mut lit = self.selectLiteral();
        while lit != 0
            invariant
                self.wf(),
                self.cnf_manager.decision_level >= 1,
                lit != 0 ==> lit_in_range(lit, self.cnf_manager.n()),
                self.cnf_manager.var_count == n0,
                self.cnf_manager.lit_pool_size_orig == orig,
                n0 == old(self).cnf_manager.var_count,
                orig == old(self).cnf_manager.lit_pool_size_orig,
                old(self).cnf_manager.decision_level != 0,
                pool0 == old(self).cnf_manager.lit_pool@,
                same_clauses(self.cnf_manager.lit_pool@, pool0, orig as int),
                self.cnf_manager.conflict_count >= old(self).cnf_manager.conflict_count,
            decreases i32::MAX - self.cnf_manager.decision_count,
        {
            if self.cnf_manager.conflict_count == i32::MAX || self.cnf_manager.decision_count == i32::MAX
                || self.cnf_manager.decision_level == i32::MAX {
                return Err(RunError::CounterLimit);
            }
            let ghost pre_d = self.cnf_manager;
            let ok = self.cnf_manager.decide(lit);
            proof {
                lemma_same_clauses_trans(self.cnf_manager.lit_pool@, pre_d.lit_pool@, pool0, orig as int);
            }
            if !ok {
                let ghost dc = self.cnf_manager.decision_count;
                loop
                    invariant_except_break
                        self.cnf_manager.assertion_level >= -2,
                        self.cnf_manager.assertion_level == -1 ==> self.cnf_manager.decision_stack@.len() == 1,
                        self.cnf_manager.assertion_level == -2 ==> self.cnf_manager.some_clause_overflows(),
                        self.cnf_manager.assertion_level <= 0 || (self.cnf_manager.conflict_clause_ind + 1
                            < self.cnf_manager.lit_pool@.len() && self.cnf_manager.lit_pool@[self.cnf_manager.conflict_clause_ind as int]
                            != 0),
                    invariant
                        self.wf(),
                        self.cnf_manager.decision_level >= 1,
                        self.cnf_manager.var_count == n0,
                        self.cnf_manager.lit_pool_size_orig == orig,
                        n0 == old(self).cnf_manager.var_count,
                        orig == old(self).cnf_manager.lit_pool_size_orig,
                        old(self).cnf_manager.decision_level != 0,
                        self.cnf_manager.decision_count == dc,
                        pool0 == old(self).cnf_manager.lit_pool@,
                        same_clauses(self.cnf_manager.lit_pool@, pool0, orig as int),
                        self.cnf_manager.conflict_count > old(self).cnf_manager.conflict_count,
                    ensures
                        self.wf(),
                        self.cnf_manager.decision_level >= 1,
                        self.cnf_manager.var_count == n0,
                        self.cnf_manager.lit_pool_size_orig == orig,
                        self.cnf_manager.decision_count == dc,
                        same_clauses(self.cnf_manager.lit_pool@, pool0, orig as int),
                        self.cnf_manager.conflict_count > old(self).cnf_manager.conflict_count,
                    decreases i32::MAX - self.cnf_manager.conflict_count,
                {
                    let al = self.cnf_manager.assertion_level;
                    if al == 0 {
                        return Ok(false);
                    }
                    if al == -2 {
                        return Err(RunError::ActivityOverflow);
                    }
                    if al < 0 {
                        return Err(RunError::TrailExhausted);
                    }
                    if self.cnf_manager.conflict_count == self.next_decay {
                        if self.next_decay > i32::MAX - 128 {
                            return Err(RunError::CounterLimit);
                        }
                        self.next_decay = self.next_decay + 128;
                        self.cnf_manager.score_decay();
                    }
                    let cl = self.cnf_manager.clauses.len();
                    if cl >= 0x7FFF_FFFF {
                        return Err(RunError::CounterLimit);
                    }
                    let ghost pre = self.cnf_manager;
                    self.cnf_manager.next_clause = cl as i32 - 1;
                    proof {
                        lemma_cursor_frame(pre, self.cnf_manager);
                    }
                    if self.cnf_manager.conflict_count == self.next_restart {
                        if self.cnf_manager.restart_count == i32::MAX || self.luby.index >= 0x3FFF_FFFF {
                            return Err(RunError::CounterLimit);
                        }
                        let ghost pre2 = self.cnf_manager;
                        self.cnf_manager.restart_count = self.cnf_manager.restart_count + 1;
                        proof {
                            lemma_wf_frame(pre2, self.cnf_manager);
                        }
                        let step = self.luby.next();
                        let nr: i64 = self.next_restart as i64 + step as i64 * 512;
                        if nr > 0x7FFF_FFFF {
                            return Err(RunError::CounterLimit);
                        }
                        self.next_restart = nr as i32;
                        self.cnf_manager.backtrack(1);
                        if self.cnf_manager.decision_level != self.cnf_manager.assertion_level {
                            break;
                        }
                    } else {
                        self.cnf_manager.backtrack(al);
                    }
                    if self.cnf_manager.conflict_count == i32::MAX {
                        return Err(RunError::CounterLimit);
                    }
                    let ghost pre_a = self.cnf_manager;
                    let asserted = self.cnf_manager.assert_conflict_literal();
                    proof {
                        lemma_same_clauses_trans(self.cnf_manager.lit_pool@, pre_a.lit_pool@, pool0, orig as int);
                    }
                    if asserted {
                        break;
                    }
                }
            }
            lit = self.selectLiteral();
        }
        if !self.verifySolution() {
            return Err(RunError::InvalidSolution);
        }
        Ok(true)
    }

    /// Whether every clause of the input part of the pool has a true
    /// literal under the current assignment.
    #[allow(non_snake_case)]
    pub fn verifySolution(&self) -> (r: bool)
        requires
            self.cnf_manager.wf(),
        ensures
            r == input_clauses_satisfied(&self.cnf_manager),
    {
        let m = &self.cnf_manager;
        let ghost pool = m.lit_pool@;
        let orig = m.lit_pool_size_orig;
        let mut i: usize = 0;
        while i < orig
            invariant
                *m == self.cnf_manager,
                m.wf(),
                pool == m.lit_pool@,
                orig == m.lit_pool_size_orig,
                orig <= pool.len(),
                orig > 0 ==> pool[orig - 1] == 0,
                i <= orig,
                i < orig ==> clause_start(pool, i as int),
                forall|j: int| 0 <= j < i && clause_start(pool, j) ==> #[trigger] clause_true_at(m, j),
            decreases orig - i,
        {
            let i0 = i;
            let mut satisfied = false;
            while m.lit_pool[i] != 0
                invariant_except_break
                    !satisfied,
                    forall|t: int| i0 <= t < i ==> #[trigger] pool[t] != 0 && !m.is_true(pool[t]),
                invariant
                    m.wf(),
                    pool == m.lit_pool@,
                    orig == m.lit_pool_size_orig,
                    orig <= pool.len(),
                    pool[orig - 1] == 0,
                    i0 <= i < orig,
                    forall|t: int| i0 <= t < i ==> #[trigger] pool[t] != 0,
                ensures
                    i0 <= i < orig,
                    forall|t: int| i0 <= t < i ==> #[trigger] pool[t] != 0,
                    satisfied ==> clause_true_at(m, i0 as int) && pool[i as int] == 0,
                    !satisfied ==> pool[i as int] == 0 && forall|t: int| i0 <= t < i ==> #[trigger] pool[t] != 0 && !m.is_true(pool[t]),
                decreases orig - i,
            {
                let lit = m.lit_pool[i];
                proof {
                    assert(lit_in_range(pool[i as int], m.n()));
                }
                let ghost k = i as int;
                i += 1;
                if SET(&lit, m) {
                    satisfied = true;
                    proof {
                        assert(clause_true_at(m, i0 as int)) by {
                            assert(i0 <= k < pool.len() && pool[k] != 0 && m.is_true(pool[k]));
                            assert(forall|t: int| i0 <= t <= k ==> #[trigger] pool[t] != 0);
                        }
                    }
                    while m.lit_pool[i] != 0
                        invariant
                            m.wf(),
                            pool == m.lit_pool@,
                            orig == m.lit_pool_size_orig,
                            orig <= pool.len(),
                            pool[orig - 1] == 0,
                            i0 < i < orig,
                            clause_true_at(m, i0 as int),
                            forall|t: int| i0 <= t < i ==> #[trigger] pool[t] != 0,
                        decreases orig - i,
                    {
                        i += 1;
                    }
                    break;
                }
                proof {
                    assert(i < orig) by {
                        if i == orig {
                            assert(pool[orig - 1] != 0);
                        }
                    }
                }
            }
            i += 1;
            if !satisfied {
                proof {
                    assert(!clause_true_at(m, i0 as int)) by {
                        if clause_true_at(m, i0 as int) {
                            let k = choose|k: int|
                                i0 <= k < pool.len() && #[trigger] pool[k] != 0 && m.is_true(pool[k]) && forall|t: int|
                                    i0 <= t <= k ==> #[trigger] pool[t] != 0;
                            if k >= i - 1 {
                                assert(pool[i - 1] != 0);
                            }
                        }
                    }
                    assert(0 <= i0 < m.lit_pool_size_orig && clause_start(m.lit_pool@, i0 as int));
                    assert(!input_clauses_satisfied(m));
                }
                return false;
            }
            proof {
                assert forall|j: int| 0 <= j < i && clause_start(pool, j) implies #[trigger] clause_true_at(m, j) by {
                    if j >= i0 && j != i0 {
                        assert(pool[j - 1] != 0);
                    }
                }
            }
        }
        true
    }

    /// The assignment as literals: entry `i - 1` is `i` when variable `i` is
    /// true and `-i` otherwise.
    pub fn solution(&self) -> (r: Vec<i32>)
        requires
            self.cnf_manager.wf(),
        ensures
            r@.len() == self.cnf_manager.n(),
            forall|k: int| 0 <= k < r@.len() ==> #[trigger] r@[k] == if self.cnf_manager.vars@[k + 1].value == VA::Pos {
                k + 1
            } else {
                -(k + 1)
            },
    {
        let n = self.cnf_manager.var_count as usize;
        let mut r: Vec<i32> = Vec::new();
        let mut i: usize = 1;
        while i <= n
            invariant
                self.cnf_manager.wf(),
                n == self.cnf_manager.n(),
                1 <= i <= n + 1,
                r@.len() == i - 1,
                forall|k: int| 0 <= k < r@.len() ==> #[trigger] r@[k] == if self.cnf_manager.vars@[k + 1].value == VA::Pos {
                    k + 1
                } else {
                    -(k + 1)
                },
            decreases n + 1 - i,
        {
            if self.cnf_manager.vars[i].value == VA::Pos {
                r.push(i as i32);
            } else {
                r.push(-(i as i32));
            }
            i += 1;
        }
        r
    }
}
} // verus!
