//! The clause database, the assignment trail and the propagation and
//! conflict-analysis engine of the solver.
//!
//! Clauses of three or more literals live in `lit_pool`, each followed by a
//! `0`; the first two literals of each are watched. Binary clauses live in the
//! per-variable implication lists `bin_imp`. The trail `decision_stack` starts
//! with a `0` guard and lists the assigned literals in assignment order.
use crate::clause_pool::{lemma_same_clauses_append, lemma_same_clauses_refl, lemma_same_clauses_swap, lemma_same_clauses_trans, same_clauses};
use crate::sat_instance::SatInstance;
use crate::utils::{lemma_neg_var_sign, lit_in_range, lit_of, neg, sign, sign_of, to_var, var_of, VA};
use std::collections::VecDeque;
use vstd::prelude::*;

verus! {

/// The reason of an assignment: none (`is_null`), a clause of the literal
/// pool, or the binary-implication list of variable `var_index` and polarity
/// `positive`.
#[derive(Clone, Copy, Debug)]
pub struct ArrTuple {
    pub is_null: bool,
    pub is_lit_pool: bool,
    pub var_index: usize,
    pub positive: usize,
}

impl ArrTuple {
    /// No reason.
    pub fn new() -> (r: ArrTuple)
        ensures
            r.is_null,
            !r.is_lit_pool,
            r.var_index == 1000,
            r.positive == 1000,
    {
        ArrTuple { is_null: true, is_lit_pool: false, var_index: 1000, positive: 1000 }
    }

    /// A present reason, in the literal pool when `islp` holds.
    pub fn ctor(islp: bool) -> (r: ArrTuple)
        ensures
            !r.is_null,
            r.is_lit_pool == islp,
            r.var_index == 1000,
            r.positive == 1000,
    {
        let mut nt = ArrTuple::new();
        nt.is_null = false;
        nt.is_lit_pool = islp;
        nt
    }

    /// A reason in the implication list of variable `vari`, polarity `pos`.
    pub fn ctor2(vari: usize, pos: usize) -> (r: ArrTuple)
        ensures
            !r.is_null,
            !r.is_lit_pool,
            r.var_index == vari,
            r.positive == pos,
    {
        let mut nt = ArrTuple::ctor(false);
        nt.var_index = vari;
        nt.positive = pos;
        nt
    }
}

/// The solver state of one variable.
pub struct Variable {
    pub uip_mark: bool,
    pub phase: bool,
    pub value: VA,
    pub decision_level: i32,
    pub ante: ArrTuple,
    pub ante_ind: usize,
    pub activity: [i32; 2],
    pub bin_imp: [Vec<i32>; 2],
    pub watch: [Vec<usize>; 2],
}

impl Variable {
    /// An unassigned variable with no occurrences recorded.
    pub fn new() -> (r: Variable)
        ensures
            !r.uip_mark,
            !r.phase,
            r.value == VA::Free,
            r.decision_level == 0,
            r.ante.is_null,
            !r.ante.is_lit_pool,
            r.ante.var_index == 1000,
            r.ante.positive == 1000,
            r.ante_ind == 0,
            r.activity@ == seq![0i32, 0i32],
            r.bin_imp@[0]@.len() == 0,
            r.bin_imp@[1]@.len() == 0,
            r.watch@[0]@.len() == 0,
            r.watch@[1]@.len() == 0,
    {
        Variable {
            uip_mark: false,
            phase: false,
            value: VA::Free,
            decision_level: 0,
            ante: ArrTuple::new(),
            ante_ind: 0,
            activity: [0, 0],
            bin_imp: [Vec::new(), Vec::new()],
            watch: [Vec::new(), Vec::new()],
        }
    }
}

/// Half of a nonnegative activity, rounded down.
pub open spec fn half(x: i32) -> i32 {
    (x / 2) as i32
}

/// A binary-implication list of the literal `lit_of(v, s)`: a conflict slot,
/// the literal itself, a `0`, the literals it implies, and a final `0`.
pub open spec fn bin_ok(l: Seq<i32>, v: int, s: int, n: int) -> bool {
    &&& l.len() >= 4
    &&& l[1] == lit_of(v, s)
    &&& l[2] == 0
    &&& l[l.len() - 1] == 0
    &&& forall|k: int| 0 <= k < l.len() ==> lit_in_range(#[trigger] l[k], n)
}

/// Every clause index on a watch list starts a clause of the pool whose first
/// two literals are present.
pub open spec fn watches_ok(w: Seq<usize>, pool: Seq<i32>) -> bool {
    forall|k: int|
        0 <= k < w.len() ==> {
            &&& #[trigger] w[k] + 2 < pool.len()
            &&& pool[w[k] as int] != 0
            &&& pool[w[k] + 1] != 0
            &&& (w[k] == 0 || pool[w[k] - 1] == 0)
        }
}

/// The clause database, trail and heuristics state of the solver.
pub struct CnfManager {
    pub var_count: i32,
    pub vars: Vec<Variable>,
    pub var_order: Vec<i32>,
    pub var_position: Vec<i32>,
    pub next_var: i32,
    pub lit_pool: Vec<i32>,
    pub lit_pool_size_orig: usize,
    pub clauses: Vec<usize>,
    pub next_clause: i32,
    pub decision_stack: Vec<i32>,
    pub assertion_level: i32,
    pub decision_level: i32,
    pub decision_count: i32,
    pub conflict_count: i32,
    pub restart_count: i32,
    pub conflict_lit: VecDeque<i32>,
    pub tmp_conflict_lit: VecDeque<i32>,
    pub conflict_clause_ind: usize,
}

/// The invariant depends only on the variables, the pool, the clause list,
/// the trail, the order and a few counters.
pub proof fn lemma_wf_frame(a: CnfManager, b: CnfManager)
    requires
        a.wf_core(),
        b.var_count == a.var_count,
        b.vars@ == a.vars@,
        b.var_position@ == a.var_position@,
        b.var_order@ == a.var_order@,
        b.next_var >= 0,
        b.lit_pool@ == a.lit_pool@,
        b.lit_pool_size_orig == a.lit_pool_size_orig,
        b.clauses@ == a.clauses@,
        b.next_clause == a.next_clause,
        b.decision_stack@ == a.decision_stack@ || b.stack_wf(),
        b.decision_level >= 0,
    ensures
        b.wf_core(),
        a.positions_wf() ==> b.positions_wf(),
{
    assert forall|v: int| 0 <= v <= b.n() implies #[trigger] b.var_wf(v) by {
        assert(a.var_wf(v));
    }
}

/// Pushing a literal over the variables keeps the trail well formed.
pub proof fn lemma_stack_push(a: CnfManager, b: CnfManager, x: i32)
    requires
        a.stack_wf(),
        b.var_count == a.var_count,
        b.decision_stack@ == a.decision_stack@.push(x),
        x != 0,
        lit_in_range(x, a.n()),
    ensures
        b.stack_wf(),
{
    let st = b.decision_stack@;
    assert forall|k: int| 0 <= k < st.len() implies lit_in_range(#[trigger] st[k], b.n()) by {
        if k < a.decision_stack@.len() {
            assert(st[k] == a.decision_stack@[k]);
        }
    }
    assert forall|k: int| 1 <= k < st.len() implies #[trigger] st[k] != 0 by {
        if k < a.decision_stack@.len() {
            assert(st[k] == a.decision_stack@[k]);
        }
    }
}

impl CnfManager {
    /// The number of variables.
    pub open spec fn n(&self) -> int {
        self.var_count as int
    }

    /// The value of the variable of `lit`.
    pub open spec fn value_of(&self, lit: i32) -> VA {
        self.vars@[var_of(lit)].value
    }

    /// `lit` is unassigned.
    pub open spec fn is_free(&self, lit: i32) -> bool {
        self.value_of(lit) == VA::Free
    }

    /// `lit` is assigned true.
    pub open spec fn is_true(&self, lit: i32) -> bool {
        self.value_of(lit) == sign_of(lit)
    }

    /// `lit` is assigned false.
    pub open spec fn is_false(&self, lit: i32) -> bool {
        self.value_of(lit) == sign_of((-lit) as i32)
    }

    /// A reason that the conflict analysis can read: a pool position, or the
    /// literal slot of an implication list.
    pub open spec fn ante_ok(&self, a: ArrTuple, ind: usize) -> bool {
        ||| a.is_null
        ||| (a.is_lit_pool && 1 <= ind < self.lit_pool@.len())
        ||| (!a.is_lit_pool && 1 <= a.var_index <= self.n() && a.positive < 2 && ind == 1)
    }

    /// The invariant of one variable.
    pub open spec fn var_wf(&self, v: int) -> bool {
        let x = self.vars@[v];
        &&& x.activity@.len() == 2
        &&& 0 <= x.activity@[0]
        &&& 0 <= x.activity@[1]
        &&& x.activity@[0] + x.activity@[1] <= i32::MAX
        &&& x.bin_imp@.len() == 2
        &&& x.watch@.len() == 2
        &&& (v >= 1 ==> bin_ok(x.bin_imp@[0]@, v, 0, self.n()) && bin_ok(
            x.bin_imp@[1]@,
            v,
            1,
            self.n(),
        ))
        &&& watches_ok(x.watch@[0]@, self.lit_pool@)
        &&& watches_ok(x.watch@[1]@, self.lit_pool@)
        &&& (v >= 1 && (x.decision_level != 1 || x.uip_mark) ==> self.ante_ok(x.ante, x.ante_ind))
        &&& (v == 0 ==> x.value == VA::Free && x.decision_level == 0)
    }

    /// The pool holds literals over the variables, ends with a `0`, and its
    /// input part (the first `lit_pool_size_orig` entries) is a sequence of
    /// whole clauses.
    pub open spec fn pool_wf(&self) -> bool {
        let pool = self.lit_pool@;
        &&& forall|k: int| 0 <= k < pool.len() ==> lit_in_range(#[trigger] pool[k], self.n())
        &&& pool.len() > 0 ==> pool[pool.len() - 1] == 0
        &&& self.lit_pool_size_orig <= pool.len()
        &&& self.lit_pool_size_orig > 0 ==> pool[self.lit_pool_size_orig - 1] == 0
        &&& forall|k: int| 0 <= k < self.clauses@.len() ==> #[trigger] self.clauses@[k] < pool.len()
        &&& (self.next_clause < self.clauses@.len() || self.next_clause == 0)
    }

    /// The trail starts with the `0` guard and holds literals over the variables.
    pub open spec fn stack_wf(&self) -> bool {
        let st = self.decision_stack@;
        &&& st.len() >= 1
        &&& st[0] == 0
        &&& forall|k: int| 0 <= k < st.len() ==> lit_in_range(#[trigger] st[k], self.n())
        &&& forall|k: int| 1 <= k < st.len() ==> #[trigger] st[k] != 0
    }

    /// Every variable's position is 0 or the index where `var_order` holds it.
    pub open spec fn positions_wf(&self) -> bool {
        forall|v: int|
            0 <= v <= self.n() ==> {
                let p = #[trigger] self.var_position@[v];
                &&& p >= 0
                &&& p > 0 ==> p < self.var_order@.len() && self.var_order@[p as int] == v
            }
    }

    /// The invariant of the solver state.
    pub open spec fn wf(&self) -> bool {
        &&& self.wf_core()
        &&& self.positions_wf()
    }

    /// The invariant, except the link between `var_position` and `var_order`.
    pub open spec fn wf_core(&self) -> bool {
        &&& 0 <= self.var_count < i32::MAX
        &&& self.vars@.len() == self.n() + 1
        &&& self.var_position@.len() == self.n() + 1
        &&& forall|v: int| 0 <= v <= self.n() ==> #[trigger] self.var_wf(v)
        &&& self.pool_wf()
        &&& self.stack_wf()
        &&& self.var_order@.len() <= i32::MAX
        &&& forall|k: int|
            0 <= k < self.var_order@.len() ==> 1 <= #[trigger] self.var_order@[k] <= self.n()
        &&& self.next_var >= 0
        &&& self.decision_level >= 0
    }

    /// Whether `lit` is unassigned.
    pub fn free(&self, lit: &i32) -> (r: bool)
        requires
            self.wf_core(),
            lit_in_range(*lit, self.n()),
        ensures
            r == self.is_free(*lit),
    {
        self.vars[to_var(lit)].value == VA::Free
    }

    /// Whether `lit` is assigned true.
    pub fn good(&self, lit: &i32) -> (r: bool)
        requires
            self.wf_core(),
            lit_in_range(*lit, self.n()),
        ensures
            r == self.is_true(*lit),
    {
        self.vars[to_var(lit)].value == sign(lit)
    }

    /// Whether `lit` is assigned false.
    pub fn bad(&self, lit: &i32) -> (r: bool)
        requires
            self.wf_core(),
            lit_in_range(*lit, self.n()),
        ensures
            r == self.is_false(*lit),
    {
        let neg = neg(lit);
        self.vars[to_var(lit)].value == sign(&neg)
    }

    /// The score of a variable: the sum of its two activities.
    pub fn weight(&self, var: &i32) -> (r: i32)
        requires
            self.wf_core(),
            0 <= *var <= self.n(),
        ensures
            r == self.spec_weight(*var as int),
    {
        proof {
            assert(self.var_wf(*var as int));
        }
        self.vars[*var as usize].activity[0] + self.vars[*var as usize].activity[1]
    }

    /// The score of variable `v`.
    pub open spec fn spec_weight(&self, v: int) -> int {
        self.vars@[v].activity@[0] + self.vars@[v].activity@[1]
    }
}


/// The score of variable `x` under the activities `act`.
pub open spec fn score_in(act: Seq<Seq<i32>>, x: int) -> int {
    act[x][0] + act[x][1]
}

/// The coarse search for the new place of a variable of score `w` at
/// position `pos`: from `q`, step back 1024 places at a time while the
/// entry there scores below `w`; the result is the last place visited
/// (1024 after the first that failed or fell below 0).
pub open spec fn gallop(order: Seq<i32>, act: Seq<Seq<i32>>, w: int, q: int) -> int
    decreases q + 1024,
{
    if q < 0 || score_in(act, order[q] as int) >= w {
        q + 1024
    } else {
        gallop(order, act, w, q - 1024)
    }
}

/// The fine search after [`gallop`]: for steps 512, 256, ..., 1, move back
/// by the step when the entry there exists and scores below `w`.
pub open spec fn refine(order: Seq<i32>, act: Seq<Seq<i32>>, w: int, q: int, step: int) -> int
    decreases step,
{
    if step <= 0 {
        q
    } else {
        let q2 = if q - step >= 0 && score_in(act, order[q - step] as int) < w {
            q - step
        } else {
            q
        };
        refine(order, act, w, q2, step / 2)
    }
}

/// One step of [`CnfManager::update_weights`] on the activities, order and
/// positions `st`, for literal `lit`: its activity is raised (saturating at
/// by one); when its variable has a positive position and now
/// outscores its predecessor in the order, it trades places with the entry
/// at the place the two searches find.
pub open spec fn raise_one(st: (Seq<Seq<i32>>, Seq<i32>, Seq<i32>), lit: i32) -> (Seq<Seq<i32>>, Seq<i32>, Seq<i32>) {
    let (act, order, position) = st;
    let v = var_of(lit);
    let s = if lit > 0 {
        1int
    } else {
        0int
    };
    let a = act[v][s];
    let act2 = act.update(
        v,
        act[v].update(
            s,
            (a + 1) as i32,
        ),
    );
    let pos = position[v] as int;
    let w = score_in(act2, v);
    if pos == 0 || w <= score_in(act2, order[pos - 1] as int) {
        (act2, order, position)
    } else {
        let q = refine(order, act2, w, gallop(order, act2, w, pos - 1024), 512);
        let u = order[q];
        (act2, order.update(pos, u).update(q, v as i32), position.update(v, q as i32).update(u as int, pos as i32))
    }
}

/// [`raise_one`] for each literal of `c` in turn.
pub open spec fn raise_all(st: (Seq<Seq<i32>>, Seq<i32>, Seq<i32>), c: Seq<i32>) -> (Seq<Seq<i32>>, Seq<i32>, Seq<i32>)
    decreases c.len(),
{
    if c.len() == 0 {
        st
    } else {
        raise_one(raise_all(st, c.drop_last()), c.last())
    }
}

impl CnfManager {
    /// `self` and `o` agree on everything but the variables and the pool.
    pub open spec fn same_but_vars_pool(&self, o: &CnfManager) -> bool {
        &&& self.var_count == o.var_count
        &&& self.var_order@ == o.var_order@
        &&& self.var_position@ == o.var_position@
        &&& self.next_var == o.next_var
        &&& self.lit_pool_size_orig == o.lit_pool_size_orig
        &&& self.clauses@ == o.clauses@
        &&& self.next_clause == o.next_clause
        &&& self.decision_stack@ == o.decision_stack@
        &&& self.assertion_level == o.assertion_level
        &&& self.decision_level == o.decision_level
        &&& self.decision_count == o.decision_count
        &&& self.conflict_count == o.conflict_count
        &&& self.restart_count == o.restart_count
        &&& self.conflict_lit@ == o.conflict_lit@
        &&& self.tmp_conflict_lit@ == o.tmp_conflict_lit@
        &&& self.conflict_clause_ind == o.conflict_clause_ind
    }

    /// `self` and `o` agree on everything but the variables.
    pub open spec fn same_but_vars(&self, o: &CnfManager) -> bool {
        &&& self.same_but_vars_pool(o)
        &&& self.lit_pool@ == o.lit_pool@
    }

    /// Variable `v` of `self` is that of `o` with value, reason and level replaced.
    pub open spec fn var_set(&self, o: &CnfManager, v: int, value: VA, ante: ArrTuple, ind: usize, level: i32) -> bool {
        let a = self.vars@[v];
        let b = o.vars@[v];
        &&& a.value == value
        &&& a.ante == ante
        &&& a.ante_ind == ind
        &&& a.decision_level == level
        &&& a.uip_mark == b.uip_mark
        &&& a.phase == b.phase
        &&& a.activity == b.activity
        &&& a.bin_imp == b.bin_imp
        &&& a.watch == b.watch
    }

    /// Assigns `lit` true at the current decision level, with the given reason.
    pub fn set_literal(&mut self, lit: i32, ante: ArrTuple, ind: usize)
        requires
            old(self).wf_core(),
            lit != 0,
            lit_in_range(lit, old(self).n()),
            old(self).decision_level != 1 || old(self).vars@[var_of(lit)].uip_mark ==> old(self).ante_ok(ante, ind),
        ensures
            final(self).wf_core(),
            old(self).positions_wf() ==> final(self).positions_wf(),
            final(self).same_but_vars(&*old(self)),
            final(self).vars@.len() == old(self).vars@.len(),
            final(self).var_set(&*old(self), var_of(lit), sign_of(lit), ante, ind, old(self).decision_level),
            forall|v: int| 0 <= v < old(self).vars@.len() && v != var_of(lit) ==> final(self).vars@[v] == old(self).vars@[v],
    {
        let v = to_var(&lit);
        self.vars[v].value = sign(&lit);
        self.vars[v].ante = ante;
        self.vars[v].ante_ind = ind;
        self.vars[v].decision_level = self.decision_level;
        proof {
            assert forall|u: int| 0 <= u <= self.n() implies #[trigger] self.var_wf(u) by {
                assert(old(self).var_wf(u));
            }
        }
    }

    /// Halves every activity.
    pub fn score_decay(&mut self)
        requires
            old(self).wf_core(),
        ensures
            final(self).wf_core(),
            old(self).positions_wf() ==> final(self).positions_wf(),
            final(self).same_but_vars(&*old(self)),
            final(self).vars@.len() == old(self).vars@.len(),
            final(self).vars@[0] == old(self).vars@[0],
            forall|v: int| 1 <= v < old(self).vars@.len() ==> {
                let a = #[trigger] final(self).vars@[v];
                let b = old(self).vars@[v];
                &&& a.activity@ == seq![half(b.activity@[0]), half(b.activity@[1])]
                &&& a.value == b.value && a.phase == b.phase && a.uip_mark == b.uip_mark
                &&& a.decision_level == b.decision_level && a.ante == b.ante && a.ante_ind == b.ante_ind
                &&& a.bin_imp == b.bin_imp && a.watch == b.watch
            },
    {
        let n = self.var_count as usize;
        let mut i: usize = 1;
        while i < n + 1
            invariant
                1 <= i <= n + 1,
                n == old(self).var_count,
                self.wf_core(),
                old(self).wf_core(),
                old(self).positions_wf() ==> self.positions_wf(),
                self.same_but_vars(&*old(self)),
                self.vars@.len() == old(self).vars@.len(),
                self.vars@[0] == old(self).vars@[0],
                forall|v: int| 1 <= v < i ==> {
                    let a = #[trigger] self.vars@[v];
                    let b = old(self).vars@[v];
                    &&& a.activity@ == seq![half(b.activity@[0]), half(b.activity@[1])]
                    &&& a.value == b.value && a.phase == b.phase && a.uip_mark == b.uip_mark
                    &&& a.decision_level == b.decision_level && a.ante == b.ante && a.ante_ind == b.ante_ind
                    &&& a.bin_imp == b.bin_imp && a.watch == b.watch
                },
                forall|v: int| i <= v < self.vars@.len() ==> #[trigger] self.vars@[v] == old(self).vars@[v],
            decreases n + 1 - i,
        {
            proof {
                assert(self.var_wf(i as int));
            }
            let a0 = self.vars[i].activity[0];
            let a1 = self.vars[i].activity[1];
            assert(a0 >> 1 == a0 / 2) by (bit_vector)
                requires a0 >= 0;
            assert(a1 >> 1 == a1 / 2) by (bit_vector)
                requires a1 >= 0;
            self.vars[i].activity[0] >>= 1;
            self.vars[i].activity[1] >>= 1;
            proof {
                assert(self.vars@[i as int].activity@ =~= seq![half(a0), half(a1)]);
                assert forall|u: int| 0 <= u <= self.n() implies #[trigger] self.var_wf(u) by {
                    assert(old(self).var_wf(u));
                }
            }
            i += 1;
        }
    }
}

/// Some entry of `st` at index `from` or above is a literal of variable `v`.
pub open spec fn occurs_from(st: Seq<i32>, from: int, v: int) -> bool {
    exists|k: int| from <= k < st.len() && var_of(st[k]) == v
}

/// The entries of `st` from `k` on name `v` when that at `k` does or those
/// after it do.
pub proof fn lemma_occurs_from_step(st: Seq<i32>, k: int, v: int)
    requires
        0 <= k < st.len(),
    ensures
        occurs_from(st, k, v) == (occurs_from(st, k + 1, v) || var_of(st[k]) == v),
{
    if occurs_from(st, k, v) && var_of(st[k]) != v {
        let j = choose|j: int| k <= j < st.len() && var_of(st[j]) == v;
        assert(k + 1 <= j);
    }
}

impl CnfManager {
    /// The variables of the entries of the trail of `o` from `keep` on are
    /// unassigned in `self`, and every other variable has its value in `o`.
    pub open spec fn values_after_pop(&self, o: &CnfManager, keep: int) -> bool {
        &&& self.vars@.len() == o.vars@.len()
        &&& forall|v: int| 0 <= v < o.vars@.len() ==> (#[trigger] self.vars@[v]).value == if occurs_from(o.decision_stack@, keep, v) {
            VA::Free
        } else {
            o.vars@[v].value
        }
    }
}

/// Two entries of `st` at index `from` or above are literals of variable `v`.
pub open spec fn occurs_twice_from(st: Seq<i32>, from: int, v: int) -> bool {
    exists|k1: int, k2: int| from <= k1 < k2 < st.len() && var_of(st[k1]) == v && var_of(st[k2]) == v
}

impl CnfManager {
    /// The decision level of the variable of trail entry `k`.
    pub open spec fn entry_level(&self, k: int) -> i32 {
        self.vars@[var_of(self.decision_stack@[k])].decision_level
    }

    /// The state after undoing the assignments above decision level `level`
    /// from `o`: the trail keeps its first `keep` entries.
    pub open spec fn backtracked(&self, o: &CnfManager, level: i32, keep: int) -> bool {
        let st = o.decision_stack@;
        &&& 1 <= keep <= st.len()
        &&& self.decision_stack@ == st.subrange(0, keep)
        &&& forall|k: int| keep <= k < st.len() ==> #[trigger] o.entry_level(k) > level
        &&& o.entry_level(keep - 1) <= level
        &&& self.decision_level == level
        &&& self.vars@.len() == o.vars@.len()
        &&& forall|v: int| 0 <= v < o.vars@.len() ==> {
            let a = #[trigger] self.vars@[v];
            let b = o.vars@[v];
            &&& a.decision_level == b.decision_level && a.ante == b.ante && a.ante_ind == b.ante_ind
            &&& a.uip_mark == b.uip_mark && a.activity == b.activity
            &&& a.bin_imp == b.bin_imp && a.watch == b.watch
            &&& if occurs_from(st, keep, v) {
                &&& a.value == VA::Free
                &&& b.decision_level < o.decision_level ==> a.phase == (b.value != VA::Neg
                    || occurs_twice_from(st, keep, v))
                &&& b.decision_level >= o.decision_level ==> a.phase == b.phase
            } else {
                a.value == b.value && a.phase == b.phase
            }
        }
        &&& self.next_var <= o.next_var
        &&& forall|v: int| 0 <= v < o.vars@.len() && occurs_from(st, keep, v) ==> self.next_var <= o.var_position@[v]
        &&& (self.next_var == o.next_var || exists|v: int| 0 <= v < o.vars@.len() && occurs_from(st, keep, v) && self.next_var == o.var_position@[v])
    }

    /// Undoes every assignment above decision level `level`, popping them off
    /// the trail, and makes `level` the current level. A popped variable below
    /// the current level remembers in `phase` whether it was not false.
    pub fn backtrack(&mut self, level: i32)
        requires
            old(self).wf(),
            level >= 0,
        ensures
            final(self).wf(),
            exists|keep: int| final(self).backtracked(&*old(self), level, keep),
            final(self).var_count == old(self).var_count,
            final(self).var_order@ == old(self).var_order@,
            final(self).var_position@ == old(self).var_position@,
            final(self).lit_pool@ == old(self).lit_pool@,
            final(self).lit_pool_size_orig == old(self).lit_pool_size_orig,
            final(self).clauses@ == old(self).clauses@,
            final(self).next_clause == old(self).next_clause,
            final(self).assertion_level == old(self).assertion_level,
            final(self).decision_count == old(self).decision_count,
            final(self).conflict_count == old(self).conflict_count,
            final(self).restart_count == old(self).restart_count,
            final(self).conflict_lit@ == old(self).conflict_lit@,
            final(self).tmp_conflict_lit@ == old(self).tmp_conflict_lit@,
            final(self).conflict_clause_ind == old(self).conflict_clause_ind,
    {
        let ghost st = self.decision_stack@;
        let ghost o = *self;
        let mut var = to_var(&self.decision_stack[self.decision_stack.len() - 1]);
        proof {
            assert(lit_in_range(st[st.len() - 1], o.n()));
        }
        while self.vars[var].decision_level > level
            invariant
                self.wf(),
                o.wf(),
                level >= 0,
                1 <= self.decision_stack@.len() <= st.len(),
                self.decision_stack@ == st.subrange(0, self.decision_stack@.len() as int),
                st == o.decision_stack@,
                var == var_of(st[self.decision_stack@.len() - 1]),
                0 <= var <= self.n(),
                forall|k: int| self.decision_stack@.len() <= k < st.len() ==> #[trigger] o.entry_level(k) > level,
                self.decision_level == o.decision_level,
                self.var_count == o.var_count,
                self.var_order@ == o.var_order@,
                self.var_position@ == o.var_position@,
                self.lit_pool@ == o.lit_pool@,
                self.lit_pool_size_orig == o.lit_pool_size_orig,
                self.clauses@ == o.clauses@,
                self.next_clause == o.next_clause,
                self.assertion_level == o.assertion_level,
                self.decision_count == o.decision_count,
                self.conflict_count == o.conflict_count,
                self.restart_count == o.restart_count,
                self.conflict_lit@ == o.conflict_lit@,
                self.tmp_conflict_lit@ == o.tmp_conflict_lit@,
                self.conflict_clause_ind == o.conflict_clause_ind,
                self.vars@.len() == o.vars@.len(),
                forall|v: int| 0 <= v < o.vars@.len() ==> {
                    let a = #[trigger] self.vars@[v];
                    let b = o.vars@[v];
                    let keep = self.decision_stack@.len() as int;
                    &&& a.decision_level == b.decision_level && a.ante == b.ante && a.ante_ind == b.ante_ind
                    &&& a.uip_mark == b.uip_mark && a.activity == b.activity
                    &&& a.bin_imp == b.bin_imp && a.watch == b.watch
                    &&& if occurs_from(st, keep, v) {
                        &&& a.value == VA::Free
                        &&& b.decision_level < o.decision_level ==> a.phase == (b.value != VA::Neg
                            || occurs_twice_from(st, keep, v))
                        &&& b.decision_level >= o.decision_level ==> a.phase == b.phase
                    } else {
                        a.value == b.value && a.phase == b.phase
                    }
                },
                self.next_var <= o.next_var,
                forall|v: int| 0 <= v < o.vars@.len() && occurs_from(st, self.decision_stack@.len() as int, v) ==> self.next_var <= o.var_position@[v],
                (self.next_var == o.next_var || exists|v: int| 0 <= v < o.vars@.len() && occurs_from(st, self.decision_stack@.len() as int, v) && self.next_var == o.var_position@[v]),
            decreases self.decision_stack@.len(),
        {
            let ghost len = self.decision_stack@.len() as int;
            proof {
                if len == 1 {
                    assert(o.var_wf(0));
                }
                assert(self.var_wf(var as int));
                assert(o.var_wf(var as int));
            }
            if self.vars[var].decision_level < self.decision_level {
                let val = self.vars[var].value;
                self.vars[var].phase = val != VA::Neg;
            }
            self.vars[var].value = VA::Free;
            if self.var_position[var] < self.next_var {
                self.next_var = self.var_position[var];
            }
            assert(self.decision_stack@ == st.subrange(0, len));
            let _popped = self.decision_stack.pop();
            proof {
                let nl = len - 1;
                assert(self.decision_stack@ =~= st.subrange(0, nl));
                assert(var_of(st[nl]) == var);
                assert forall|v: int| 0 <= v < o.vars@.len() implies
                    (occurs_from(st, nl, v) <==> (occurs_from(st, len, v) || v == var)) by {
                    if occurs_from(st, nl, v) && v != var {
                        let k = choose|k: int| nl <= k < st.len() && var_of(st[k]) == v;
                        assert(k != nl);
                    }
                    if v == var {
                        assert(var_of(st[nl]) == v);
                    }
                }
                assert forall|v: int| 0 <= v < o.vars@.len() implies
                    (occurs_twice_from(st, nl, v) <==> (occurs_twice_from(st, len, v) || (v == var && occurs_from(st, len, v)))) by {
                    if occurs_twice_from(st, nl, v) {
                        let (k1, k2) = choose|k1: int, k2: int| nl <= k1 < k2 < st.len() && var_of(st[k1]) == v && var_of(st[k2]) == v;
                        if k1 == nl {
                            assert(v == var);
                            assert(occurs_from(st, len, v));
                        }
                    }
                    if v == var && occurs_from(st, len, v) {
                        let k = choose|k: int| len <= k < st.len() && var_of(st[k]) == v;
                        assert(nl < k && var_of(st[nl]) == v);
                    }
                    if occurs_twice_from(st, len, v) {
                        let (k1, k2) = choose|k1: int, k2: int| len <= k1 < k2 < st.len() && var_of(st[k1]) == v && var_of(st[k2]) == v;
                        assert(nl <= k1);
                    }
                }
                assert forall|u: int| 0 <= u <= self.n() implies #[trigger] self.var_wf(u) by {
                    assert(o.var_wf(u));
                }
                assert(lit_in_range(st[nl - 1], o.n()));
            }
            var = to_var(&self.decision_stack[self.decision_stack.len() - 1]);
        }
        self.decision_level = level;
        proof {
            assert forall|u: int| 0 <= u <= self.n() implies #[trigger] self.var_wf(u) by {
                assert(o.var_wf(u));
            }
            assert(self.backtracked(&o, level, self.decision_stack@.len() as int));
        }
    }
}

/// `lit` is the literal of variable `v` with polarity slot `s`.
pub open spec fn lit_at(lit: i32, v: int, s: int) -> bool {
    var_of(lit) == v && sign_of(lit).slot() == s
}

/// The pool form of a learned clause `cl` (its literals in the order kept by
/// the analysis): the last literal, then the first, then the rest in order.
pub open spec fn learned_clause(cl: Seq<i32>) -> Seq<i32> {
    if cl.len() <= 1 {
        cl
    } else {
        seq![cl[cl.len() - 1], cl[0]] + cl.subrange(1, cl.len() - 1)
    }
}

/// The entries `add_clause` appends to the watch list of `lit_of(v, s)` for a
/// clause at pool index `ind` watched through `back` and `front`.
pub open spec fn watch_pushes(v: int, s: int, back: i32, front: i32, ind: usize) -> Seq<usize> {
    (if lit_at(back, v, s) { seq![ind] } else { Seq::empty() }) + (if lit_at(front, v, s) {
        seq![ind]
    } else {
        Seq::empty()
    })
}

/// Where each literal of `learned_clause(cl)` comes from in `cl`.
pub proof fn lemma_learned_clause(cl: Seq<i32>)
    ensures
        learned_clause(cl).len() == cl.len(),
        cl.len() >= 2 ==> learned_clause(cl)[0] == cl[cl.len() - 1] && learned_clause(cl)[1] == cl[0],
        forall|k: int| 2 <= k < cl.len() ==> #[trigger] learned_clause(cl)[k] == cl[k - 1],
        cl.len() <= 1 ==> learned_clause(cl) == cl,
{
}

/// Watch lists stay valid when the pool grows at its end.
pub proof fn lemma_watches_prefix(w: Seq<usize>, pool: Seq<i32>, np: Seq<i32>)
    requires
        watches_ok(w, pool),
        pool.len() <= np.len(),
        forall|k: int| 0 <= k < pool.len() ==> #[trigger] np[k] == pool[k],
    ensures
        watches_ok(w, np),
{
    assert forall|k: int| 0 <= k < w.len() implies {
        &&& #[trigger] w[k] + 2 < np.len()
        &&& np[w[k] as int] != 0
        &&& np[w[k] + 1] != 0
    } by {
        assert(np[w[k] as int] == pool[w[k] as int]);
        assert(np[w[k] + 1] == pool[w[k] + 1]);
    }
}

/// Two valid watch lists joined are valid.
pub proof fn lemma_watches_append(w: Seq<usize>, e: Seq<usize>, np: Seq<i32>)
    requires
        watches_ok(w, np),
        watches_ok(e, np),
    ensures
        watches_ok(w + e, np),
{
    assert forall|k: int| 0 <= k < (w + e).len() implies {
        &&& #[trigger] (w + e)[k] + 2 < np.len()
        &&& np[(w + e)[k] as int] != 0
        &&& np[(w + e)[k] + 1] != 0
    } by {
        if k < w.len() {
            assert((w + e)[k] == w[k]);
        } else {
            assert((w + e)[k] == e[k - w.len()]);
        }
    }
}

/// The invariant after `add_clause`.
proof fn lemma_add_clause_wf(o: CnfManager, s: CnfManager, cl: Seq<i32>, ind: usize)
    requires
        o.wf_core(),
        cl == o.conflict_lit@,
        cl.len() >= 1,
        forall|k: int| 0 <= k < cl.len() ==> #[trigger] cl[k] != 0 && lit_in_range(cl[k], o.n()),
        ind == o.lit_pool@.len(),
        s.lit_pool@ == o.lit_pool@ + learned_clause(cl) + seq![0i32],
        s.clauses@ == if cl.len() > 1 { o.clauses@.push(ind) } else { o.clauses@ },
        s.vars@.len() == o.vars@.len(),
        forall|u: int| 0 <= u < o.vars@.len() ==> {
            let a = #[trigger] s.vars@[u];
            let b = o.vars@[u];
            &&& a.value == b.value && a.phase == b.phase && a.uip_mark == b.uip_mark
            &&& a.decision_level == b.decision_level && a.ante == b.ante && a.ante_ind == b.ante_ind
            &&& a.activity == b.activity && a.bin_imp == b.bin_imp
            &&& a.watch@.len() == 2
        },
        forall|u: int, t: int| 0 <= u < o.vars@.len() && 0 <= t < 2 ==>
            #[trigger] s.vars@[u].watch@[t]@ == o.vars@[u].watch@[t]@ + (if cl.len() > 1 {
                watch_pushes(u, t, cl[cl.len() - 1], cl[0], ind)
            } else {
                Seq::empty()
            }),
        s.var_count == o.var_count,
        s.var_position@ == o.var_position@,
        s.var_order@ == o.var_order@,
        s.next_var == o.next_var,
        s.lit_pool_size_orig == o.lit_pool_size_orig,
        s.next_clause == o.next_clause,
        s.decision_stack@ == o.decision_stack@,
        s.decision_level == o.decision_level,
    ensures
        s.wf_core(),
{
    lemma_learned_clause(cl);
    let np = s.lit_pool@;
    let tail = learned_clause(cl) + seq![0i32];
    assert(np =~= o.lit_pool@ + tail);
    assert forall|k: int| 0 <= k < tail.len() implies #[trigger] lit_in_range(tail[k], o.n()) && (k < cl.len() ==> tail[k] != 0) by {
        if k < cl.len() {
            if cl.len() <= 1 {
                assert(tail[k] == cl[k]);
            } else if k == 0 {
                assert(tail[k] == cl[cl.len() - 1]);
            } else if k == 1 {
                assert(tail[k] == cl[0]);
            } else {
                assert(tail[k] == cl[k - 1]);
            }
        }
    }
    assert forall|k: int| 0 <= k < np.len() implies lit_in_range(#[trigger] np[k], s.n()) by {
        if k >= o.lit_pool@.len() {
            assert(np[k] == tail[k - o.lit_pool@.len()]);
        } else {
            assert(np[k] == o.lit_pool@[k]);
        }
    }
    assert forall|k: int| 0 <= k < o.lit_pool@.len() implies #[trigger] np[k] == o.lit_pool@[k] by {}
    assert forall|u: int| 0 <= u <= s.n() implies #[trigger] s.var_wf(u) by {
        assert(o.var_wf(u));
        let a = s.vars@[u];
        assert forall|t: int| 0 <= t < 2 implies watches_ok(#[trigger] a.watch@[t]@, np) by {
            let ow = o.vars@[u].watch@[t]@;
            lemma_watches_prefix(ow, o.lit_pool@, np);
            let e: Seq<usize> = if cl.len() > 1 {
                watch_pushes(u, t, cl[cl.len() - 1], cl[0], ind)
            } else {
                Seq::empty()
            };
            if cl.len() > 1 {
                assert(np[ind as int] == tail[0]);
                assert(np[ind + 1] == tail[1]);
            }
            assert forall|k: int| 0 <= k < e.len() implies {
                &&& #[trigger] e[k] + 2 < np.len()
                &&& np[e[k] as int] != 0
                &&& np[e[k] + 1] != 0
            } by {
                assert(e[k] == ind);
            }
            lemma_watches_append(ow, e, np);
            assert(a.watch@[t]@ == ow + e);
        }
        assert(watches_ok(a.watch@[0]@, np));
        assert(watches_ok(a.watch@[1]@, np));
    }
    assert forall|k: int| 0 <= k < s.clauses@.len() implies #[trigger] s.clauses@[k] < np.len() by {
        if k < o.clauses@.len() {
            assert(s.clauses@[k] == o.clauses@[k]);
        }
    }
}

impl CnfManager {
    /// Appends clause index `ind` to the watch list of `lit`.
    fn push_watch(&mut self, lit: i32, ind: usize)
        requires
            lit != 0,
            lit != i32::MIN,
            0 <= var_of(lit) < old(self).vars@.len(),
            forall|u: int| 0 <= u < old(self).vars@.len() ==> (#[trigger] old(self).vars@[u]).watch@.len() == 2,
        ensures
            final(self).same_but_vars(&*old(self)),
            final(self).var_count == old(self).var_count,
            final(self).vars@.len() == old(self).vars@.len(),
            forall|u: int| 0 <= u < old(self).vars@.len() ==> {
                let a = #[trigger] final(self).vars@[u];
                let b = old(self).vars@[u];
                &&& a.value == b.value && a.phase == b.phase && a.uip_mark == b.uip_mark
                &&& a.decision_level == b.decision_level && a.ante == b.ante && a.ante_ind == b.ante_ind
                &&& a.activity == b.activity && a.bin_imp == b.bin_imp
                &&& a.watch@.len() == 2
            },
            forall|u: int, t: int| 0 <= u < old(self).vars@.len() && 0 <= t < 2 ==>
                #[trigger] final(self).vars@[u].watch@[t]@ == old(self).vars@[u].watch@[t]@ + (if lit_at(lit, u, t) {
                    seq![ind]
                } else {
                    Seq::empty()
                }),
    {
        let v = to_var(&lit);
        let s = sign(&lit).index();
        self.vars[v].watch[s].push(ind);
        proof {
            assert forall|u: int, t: int| 0 <= u < old(self).vars@.len() && 0 <= t < 2 implies
                #[trigger] self.vars@[u].watch@[t]@ =~= old(self).vars@[u].watch@[t]@ + (if lit_at(lit, u, t) {
                    seq![ind]
                } else {
                    Seq::empty()
                }) by {}
        }
    }

    /// Appends the clause held in `conflict_lit` to the pool (see
    /// [`learned_clause`]); a clause of two or more literals is also recorded
    /// in `clauses` and watched through its first two pool literals.
    /// `conflict_clause_ind` is set to its pool index.
    pub fn add_clause(&mut self)
        requires
            old(self).wf_core(),
            old(self).conflict_lit@.len() >= 1,
            forall|k: int|
                0 <= k < old(self).conflict_lit@.len() ==> #[trigger] old(self).conflict_lit@[k] != 0
                    && lit_in_range(old(self).conflict_lit@[k], old(self).n()),
        ensures
            final(self).wf_core(),
            old(self).positions_wf() ==> final(self).positions_wf(),
            ({
                let cl = old(self).conflict_lit@;
                let ind = old(self).lit_pool@.len() as usize;
                &&& final(self).lit_pool@ == old(self).lit_pool@ + learned_clause(cl) + seq![0i32]
                &&& final(self).conflict_clause_ind == old(self).lit_pool@.len()
                &&& final(self).clauses@ == if cl.len() > 1 {
                    old(self).clauses@.push(ind)
                } else {
                    old(self).clauses@
                }
                &&& final(self).vars@.len() == old(self).vars@.len()
                &&& forall|v: int| 0 <= v < old(self).vars@.len() ==> {
                    let a = #[trigger] final(self).vars@[v];
                    let b = old(self).vars@[v];
                    &&& a.value == b.value && a.phase == b.phase && a.uip_mark == b.uip_mark
                    &&& a.decision_level == b.decision_level && a.ante == b.ante && a.ante_ind == b.ante_ind
                    &&& a.activity == b.activity && a.bin_imp == b.bin_imp
                    &&& a.watch@.len() == 2
                    &&& a.watch@[0]@ == b.watch@[0]@ + (if cl.len() > 1 {
                        watch_pushes(v, 0, cl[cl.len() - 1], cl[0], ind)
                    } else {
                        Seq::empty()
                    })
                    &&& a.watch@[1]@ == b.watch@[1]@ + (if cl.len() > 1 {
                        watch_pushes(v, 1, cl[cl.len() - 1], cl[0], ind)
                    } else {
                        Seq::empty()
                    })
                }
            }),
            final(self).var_count == old(self).var_count,
            final(self).var_order@ == old(self).var_order@,
            final(self).var_position@ == old(self).var_position@,
            final(self).next_var == old(self).next_var,
            final(self).lit_pool_size_orig == old(self).lit_pool_size_orig,
            final(self).next_clause == old(self).next_clause,
            final(self).decision_stack@ == old(self).decision_stack@,
            final(self).assertion_level == old(self).assertion_level,
            final(self).decision_level == old(self).decision_level,
            final(self).decision_count == old(self).decision_count,
            final(self).conflict_count == old(self).conflict_count,
            final(self).restart_count == old(self).restart_count,
            final(self).conflict_lit@ == old(self).conflict_lit@,
            final(self).tmp_conflict_lit@ == old(self).tmp_conflict_lit@,
    {
        let ghost o = *self;
        let ghost cl = self.conflict_lit@;
        let len = self.conflict_lit.len();
        self.conflict_clause_ind = self.lit_pool.len();
        let ind = self.conflict_clause_ind;
        let back_lit = self.conflict_lit[len - 1];
        self.lit_pool.push(back_lit);
        if len > 1 {
            self.clauses.push(ind);
            assert(self.clauses@ == o.clauses@.push(ind));
            let front_lit = self.conflict_lit[0];
            self.lit_pool.push(front_lit);
            self.push_watch(back_lit, ind);
            let ghost v1 = self.vars@;
            self.push_watch(front_lit, ind);
            proof {
                assert forall|u: int, t: int| 0 <= u < o.vars@.len() && 0 <= t < 2 implies
                    #[trigger] self.vars@[u].watch@[t]@ =~= o.vars@[u].watch@[t]@ + watch_pushes(u, t, back_lit, front_lit, ind) by {
                    assert(v1[u].watch@[t]@ == o.vars@[u].watch@[t]@ + (if lit_at(back_lit, u, t) { seq![ind] } else { Seq::empty() }));
                }
            }
            let ghost pre = *self;
            let mut i: usize = 1;
            while i < len - 1
                invariant
                    1 <= i <= len - 1,
                    self.same_but_vars_pool(&pre),
                    self.vars@ == pre.vars@,
                    len == cl.len(),
                    len > 1,
                    cl == o.conflict_lit@,
                    self.conflict_lit@ == cl,
                    self.lit_pool@ == o.lit_pool@ + seq![cl[len - 1], cl[0]] + cl.subrange(1, i as int),
                decreases len - 1 - i,
            {
                let x = self.conflict_lit[i];
                self.lit_pool.push(x);
                proof {
                    assert(cl.subrange(1, i + 1) =~= cl.subrange(1, i as int).push(x));
                }
                i += 1;
            }
        }
        self.lit_pool.push(0);
        proof {
            let ind = o.lit_pool@.len() as usize;
            lemma_learned_clause(cl);
            assert(self.lit_pool@ =~= o.lit_pool@ + learned_clause(cl) + seq![0i32]);
            if cl.len() <= 1 {
                assert forall|u: int, t: int| 0 <= u < o.vars@.len() && 0 <= t < 2 implies
                    #[trigger] self.vars@[u].watch@[t]@ =~= o.vars@[u].watch@[t]@ + Seq::<usize>::empty() by {}
            }
            lemma_add_clause_wf(o, *self, cl, ind);
        }
    }
}

/// The number of occurrences of `x` in `s`.
pub open spec fn occ(s: Seq<i32>, x: i32) -> nat
    decreases s.len(),
{
    if s.len() == 0 {
        0
    } else {
        occ(s.drop_last(), x) + if s.last() == x { 1nat } else { 0nat }
    }
}

/// `z` is the first `0` of `src` at or after `ind`.
pub open spec fn first_zero(src: Seq<i32>, ind: int, z: int) -> bool {
    &&& ind <= z < src.len()
    &&& src[z] == 0
    &&& forall|k: int| ind <= k < z ==> #[trigger] src[k] != 0
}

/// The literals of `src` from `ind` up to the next `0`.
pub open spec fn clause_from(src: Seq<i32>, ind: int) -> Seq<i32> {
    src.subrange(ind, choose|z: int| #[trigger] first_zero(src, ind, z))
}

/// An activity raised by `k` occurrences.
pub open spec fn bumped(a: i32, k: nat) -> int {
    a as int + k as int
}

/// The occurrences in `s` of the two literals of variable `v`.
pub open spec fn var_occ(s: Seq<i32>, v: int) -> int {
    (occ(s, lit_of(v, 0) as i32) + occ(s, lit_of(v, 1) as i32)) as int
}

/// Occurrences add up over a concatenation.
pub proof fn lemma_occ_concat(s: Seq<i32>, t: Seq<i32>, x: i32)
    ensures
        occ(s + t, x) == occ(s, x) + occ(t, x),
    decreases t.len(),
{
    if t.len() == 0 {
        assert(s + t =~= s);
    } else {
        assert((s + t).drop_last() =~= s + t.drop_last());
        lemma_occ_concat(s, t.drop_last(), x);
    }
}

/// A sequence that ends with `0` has a first `0` after every index.
pub proof fn lemma_first_zero_exists(src: Seq<i32>, ind: int)
    requires
        0 <= ind < src.len(),
        src[src.len() - 1] == 0,
    ensures
        exists|z: int| #[trigger] first_zero(src, ind, z),
    decreases src.len() - ind,
{
    if src[ind] == 0 {
        assert(first_zero(src, ind, ind));
    } else {
        lemma_first_zero_exists(src, ind + 1);
        let z = choose|z: int| #[trigger] first_zero(src, ind + 1, z);
        assert(first_zero(src, ind, z));
    }
}

/// The first `0` is unique.
pub proof fn lemma_first_zero_unique(src: Seq<i32>, ind: int, z1: int, z2: int)
    requires
        first_zero(src, ind, z1),
        first_zero(src, ind, z2),
    ensures
        z1 == z2,
{
    if z1 < z2 {
        assert(src[z1] != 0);
    } else if z2 < z1 {
        assert(src[z2] != 0);
    }
}

/// Counting over a sequence extended by one element.
pub proof fn lemma_occ_push(s: Seq<i32>, y: i32, x: i32)
    ensures
        occ(s.push(y), x) == occ(s, x) + if y == x { 1nat } else { 0nat },
{
    assert(s.push(y).drop_last() =~= s);
}

impl CnfManager {
    /// The list a reason refers to: the pool or an implication list.
    pub open spec fn source(&self, t: ArrTuple) -> Seq<i32> {
        if t.is_lit_pool {
            self.lit_pool@
        } else {
            self.vars@[t.var_index as int].bin_imp@[t.positive as int]@
        }
    }

    /// `t` and `ind` name a readable position of a pool clause or of an
    /// implication list.
    pub open spec fn source_ok(&self, t: ArrTuple, ind: usize) -> bool {
        if t.is_lit_pool {
            ind < self.lit_pool@.len()
        } else {
            1 <= t.var_index <= self.n() && t.positive < 2 && ind < self.vars@[t.var_index as int].bin_imp@[t.positive as int]@.len()
        }
    }

    /// Activities after bumping every literal of `c` once per occurrence.
    pub open spec fn activities_bumped(&self, o: &CnfManager, c: Seq<i32>) -> bool {
        &&& self.vars@.len() == o.vars@.len()
        &&& forall|v: int| 0 <= v < o.vars@.len() ==> {
            let a = #[trigger] self.vars@[v];
            let b = o.vars@[v];
            &&& a.value == b.value && a.phase == b.phase && a.uip_mark == b.uip_mark
            &&& a.decision_level == b.decision_level && a.ante == b.ante && a.ante_ind == b.ante_ind
            &&& a.bin_imp == b.bin_imp && a.watch == b.watch
            &&& a.activity@.len() == 2
            &&& a.activity@[0] == bumped(b.activity@[0], occ(c, lit_of(v, 0) as i32))
            &&& a.activity@[1] == bumped(b.activity@[1], occ(c, lit_of(v, 1) as i32))
        }
    }

    /// Raising every literal of `c` once per occurrence keeps the score of
    /// each variable within `i32`.
    pub open spec fn weights_fit(&self, c: Seq<i32>) -> bool {
        forall|v: int| 1 <= v <= self.n() ==> #[trigger] self.spec_weight(v) + var_occ(c, v) <= i32::MAX
    }

    /// Some clause that conflict analysis can read (at `i` of the list `t`
    /// names) would take a variable's score past `i32::MAX` if its
    /// activities were raised.
    pub open spec fn some_clause_overflows(&self) -> bool {
        exists|t: ArrTuple, i: usize|
            #![trigger self.source_ok(t, i)]
            self.source_ok(t, i) && !self.weights_fit(clause_from(self.source(t), i as int))
    }

    /// The two activities of every variable.
    pub open spec fn acts(&self) -> Seq<Seq<i32>> {
        self.vars@.map_values(|x: Variable| x.activity@)
    }

    /// Raises the activity of each literal of the clause at `ind` of the
    /// list `tuple` names (up to its `0`), and moves each raised variable of
    /// positive position ahead in `var_order`, past the variables of smaller
    /// score, when it outscores its predecessor. The caller makes sure that
    /// no score passes `i32::MAX` (see [`CnfManager::weights_fit`]).
    #[verifier::rlimit(40)]
    #[verifier::spinoff_prover]
    pub fn update_weights(&mut self, tuple: ArrTuple, ind: usize)
        requires
            old(self).wf(),
            old(self).source_ok(tuple, ind),
            old(self).weights_fit(clause_from(old(self).source(tuple), ind as int)),
        ensures
            final(self).wf(),
            final(self).activities_bumped(&*old(self), clause_from(old(self).source(tuple), ind as int)),
            (final(self).acts(), final(self).var_order@, final(self).var_position@) == raise_all(
                (old(self).acts(), old(self).var_order@, old(self).var_position@),
                clause_from(old(self).source(tuple), ind as int),
            ),
            final(self).var_order@.to_multiset() == old(self).var_order@.to_multiset(),
            final(self).var_order@.len() == old(self).var_order@.len(),
            final(self).var_count == old(self).var_count,
            final(self).next_var == old(self).next_var,
            final(self).lit_pool@ == old(self).lit_pool@,
            final(self).lit_pool_size_orig == old(self).lit_pool_size_orig,
            final(self).clauses@ == old(self).clauses@,
            final(self).next_clause == old(self).next_clause,
            final(self).decision_stack@ == old(self).decision_stack@,
            final(self).assertion_level == old(self).assertion_level,
            final(self).decision_level == old(self).decision_level,
            final(self).decision_count == old(self).decision_count,
            final(self).conflict_count == old(self).conflict_count,
            final(self).restart_count == old(self).restart_count,
            final(self).conflict_lit@ == old(self).conflict_lit@,
            final(self).tmp_conflict_lit@ == old(self).tmp_conflict_lit@,
            final(self).conflict_clause_ind == old(self).conflict_clause_ind,
    {
        let ghost o = *self;
        let ghost src = o.source(tuple);
        proof {
            if !tuple.is_lit_pool {
                assert(o.var_wf(tuple.var_index as int));
            }
            lemma_first_zero_exists(src, ind as int);
        }
        let ghost z = choose|z: int| #[trigger] first_zero(src, ind as int, z);
        proof {
            assert(src.subrange(ind as int, ind as int) =~= Seq::<i32>::empty());
            assert forall|u: int| 0 <= u < o.vars@.len() implies {
                let a = #[trigger] self.vars@[u];
                &&& a.activity@.len() == 2
                &&& a.activity@[0] == bumped(a.activity@[0], occ(Seq::<i32>::empty(), lit_of(u, 0) as i32))
                &&& a.activity@[1] == bumped(a.activity@[1], occ(Seq::<i32>::empty(), lit_of(u, 1) as i32))
            } by {
                assert(o.var_wf(u));
            }
        }
        let ind0 = ind;
        let mut ind = ind;
        let src_len = if tuple.is_lit_pool {
            self.lit_pool.len()
        } else {
            self.vars[tuple.var_index].bin_imp[tuple.positive].len()
        };
        loop
            invariant
                src_len == src.len(),
                self.wf(),
                o.wf(),
                o.source_ok(tuple, ind0),
                src == o.source(tuple),
                self.source(tuple) == src,
                first_zero(src, ind0 as int, z),
                ind0 <= ind <= z,
                o.weights_fit(src.subrange(ind0 as int, z)),
                self.activities_bumped(&o, src.subrange(ind0 as int, ind as int)),
                (self.acts(), self.var_order@, self.var_position@) == raise_all(
                    (o.acts(), o.var_order@, o.var_position@),
                    src.subrange(ind0 as int, ind as int),
                ),
                self.var_order@.to_multiset() == o.var_order@.to_multiset(),
                self.var_order@.len() == o.var_order@.len(),
                self.var_count == o.var_count,
                self.next_var == o.next_var,
                self.lit_pool@ == o.lit_pool@,
                self.lit_pool_size_orig == o.lit_pool_size_orig,
                self.clauses@ == o.clauses@,
                self.next_clause == o.next_clause,
                self.decision_stack@ == o.decision_stack@,
                self.assertion_level == o.assertion_level,
                self.decision_level == o.decision_level,
                self.decision_count == o.decision_count,
                self.conflict_count == o.conflict_count,
                self.restart_count == o.restart_count,
                self.conflict_lit@ == o.conflict_lit@,
                self.tmp_conflict_lit@ == o.tmp_conflict_lit@,
                self.conflict_clause_ind == o.conflict_clause_ind,
            ensures
                self.wf(),
                ind == z,
                self.activities_bumped(&o, src.subrange(ind0 as int, z)),
                (self.acts(), self.var_order@, self.var_position@) == raise_all(
                    (o.acts(), o.var_order@, o.var_position@),
                    src.subrange(ind0 as int, z),
                ),
                self.var_order@.to_multiset() == o.var_order@.to_multiset(),
                self.var_order@.len() == o.var_order@.len(),
                self.var_count == o.var_count,
                self.next_var == o.next_var,
                self.lit_pool@ == o.lit_pool@,
                self.lit_pool_size_orig == o.lit_pool_size_orig,
                self.clauses@ == o.clauses@,
                self.next_clause == o.next_clause,
                self.decision_stack@ == o.decision_stack@,
                self.assertion_level == o.assertion_level,
                self.decision_level == o.decision_level,
                self.decision_count == o.decision_count,
                self.conflict_count == o.conflict_count,
                self.restart_count == o.restart_count,
                self.conflict_lit@ == o.conflict_lit@,
                self.tmp_conflict_lit@ == o.tmp_conflict_lit@,
                self.conflict_clause_ind == o.conflict_clause_ind,
            decreases z - ind,
        {
            let lit = if tuple.is_lit_pool {
                self.lit_pool[ind]
            } else {
                self.vars[tuple.var_index].bin_imp[tuple.positive][ind]
            };
            if lit == 0 {
                break;
            }
            proof {
                assert(lit == src[ind as int]);
                assert(ind < z);
                if tuple.is_lit_pool {
                    assert(lit_in_range(src[ind as int], o.n()));
                } else {
                    assert(o.var_wf(tuple.var_index as int));
                    assert(lit_in_range(src[ind as int], o.n()));
                }
            }
            let ghost before = *self;
            let ghost st0 = (before.acts(), before.var_order@, before.var_position@);
            let ghost c0 = src.subrange(ind0 as int, ind as int);
            proof {
                let c1 = src.subrange(ind0 as int, ind + 1);
                assert(c1.drop_last() =~= c0);
                assert(c1.last() == lit);
            }
            let v = to_var(&lit);
            let s = sign(&lit).index();
            proof {
                assert(self.var_wf(v as int));
            }
            proof {
                let c1 = src.subrange(ind0 as int, ind + 1);
                let full = src.subrange(ind0 as int, z);
                assert(full =~= c1 + src.subrange(ind + 1, z));
                lemma_occ_concat(c1, src.subrange(ind + 1, z), lit_of(v as int, 0) as i32);
                lemma_occ_concat(c1, src.subrange(ind + 1, z), lit_of(v as int, 1) as i32);
                assert(c1 =~= c0.push(lit));
                lemma_occ_push(c0, lit, lit_of(v as int, 0) as i32);
                lemma_occ_push(c0, lit, lit_of(v as int, 1) as i32);
                assert(o.var_wf(v as int));
                assert(o.spec_weight(v as int) + var_occ(full, v as int) <= i32::MAX);
                if lit > 0 {
                    assert(lit == lit_of(v as int, 1) as i32);
                } else {
                    assert(lit == lit_of(v as int, 0) as i32);
                }
            }
            self.vars[v].activity[s] += 1;
            proof {
                let c0 = src.subrange(ind0 as int, ind as int);
                let c1 = src.subrange(ind0 as int, ind + 1);
                assert(c1 =~= c0.push(lit));
                assert forall|u: int, t: int| 0 <= u < o.vars@.len() && 0 <= t < 2 implies
                    #[trigger] occ(c1, lit_of(u, t) as i32) == occ(c0, lit_of(u, t) as i32) + if lit == lit_of(u, t) as i32 { 1nat } else { 0nat } by {
                    lemma_occ_push(c0, lit, lit_of(u, t) as i32);
                }
                assert forall|u: int| 0 <= u < o.vars@.len() implies {
                    let a = #[trigger] self.vars@[u];
                    let b = o.vars@[u];
                    &&& a.activity@.len() == 2
                    &&& a.activity@[0] == bumped(b.activity@[0], occ(c1, lit_of(u, 0) as i32))
                    &&& a.activity@[1] == bumped(b.activity@[1], occ(c1, lit_of(u, 1) as i32))
                } by {
                    assert(occ(c1, lit_of(u, 0) as i32) == occ(c0, lit_of(u, 0) as i32) + if lit == lit_of(u, 0) as i32 { 1nat } else { 0nat });
                    assert(occ(c1, lit_of(u, 1) as i32) == occ(c0, lit_of(u, 1) as i32) + if lit == lit_of(u, 1) as i32 { 1nat } else { 0nat });
                    assert(before.var_wf(u));
                    if u == v {
                        if lit > 0 {
                            assert(lit == lit_of(u, 1) as i32);
                            assert(lit != lit_of(u, 0) as i32);
                        } else {
                            assert(lit == lit_of(u, 0) as i32);
                            assert(lit != lit_of(u, 1) as i32);
                        }
                    } else {
                        assert(lit != lit_of(u, 0) as i32);
                        assert(lit != lit_of(u, 1) as i32);
                    }
                }
                assert(self.activities_bumped(&o, c1));
                let a = before.vars@[v as int].activity@[s as int];
                let sl: int = if lit > 0 { 1 } else { 0 };
                assert(s == sl);
                let act2 = st0.0.update(v as int, st0.0[v as int].update(sl, (a + 1) as i32));
                assert forall|x: int| 0 <= x < self.vars@.len() implies #[trigger] self.acts()[x] == act2[x] by {
                    if x == v {
                        assert(self.vars@[x].activity@ =~= act2[x]);
                    }
                }
                assert(self.acts() =~= act2);
                assert forall|u: int| 0 <= u <= self.n() implies #[trigger] self.var_wf(u) by {
                    assert(before.var_wf(u));
                }
            }
            let pos = self.var_position[v];
            ind += 1;
            if pos == 0 {
                proof {
                    assert(src.subrange(ind0 as int, ind as int).drop_last() =~= c0);
                }
                continue;
            }
            proof {
                assert(self.positions_wf());
                assert(0 <= self.var_position@[v as int]);
            }
            let weight = self.weight(&(v as i32));
            let ghost act = self.acts();
            proof {
                assert(act[v as int] == self.vars@[v as int].activity@);
                assert(weight == score_in(act, v as int));
                assert(1 <= self.var_order@[pos - 1] <= self.n());
                assert(act[self.var_order@[pos - 1] as int] == self.vars@[self.var_order@[pos - 1] as int].activity@);
            }
            if weight <= self.weight(&self.var_order[(pos - 1) as usize]) {
                proof {
                    assert(src.subrange(ind0 as int, ind as int).drop_last() =~= c0);
                }
                continue;
            }
            let ghost order = self.var_order@;
            let ghost w = weight as int;
            let mut step: i32 = 0x400;
            let mut q: i32 = pos - step;
            while q >= 0
                invariant
                    0 <= q + step <= pos,
                    step == 0x400,
                    pos < self.var_order@.len(),
                    self.wf(),
                    0 <= weight,
                    order == self.var_order@,
                    act == self.acts(),
                    w == weight,
                    gallop(order, act, w, q as int) == gallop(order, act, w, pos - 1024),
                ensures
                    0 <= q + step <= pos,
                    q < 0 || score_in(act, order[q as int] as int) >= w,
                    gallop(order, act, w, q as int) == gallop(order, act, w, pos - 1024),
                decreases q + step,
            {
                proof {
                    assert(1 <= self.var_order@[q as int] <= self.n());
                    assert(act[self.var_order@[q as int] as int] == self.vars@[self.var_order@[q as int] as int].activity@);
                }
                if self.weight(&self.var_order[q as usize]) >= weight {
                    break;
                }
                q -= step;
            }
            q += step;
            let ghost q1 = q as int;
            proof {
                assert(q1 == gallop(order, act, w, pos - 1024));
            }
            assert((0x400i32 >> 1i32) == 0x200i32) by (bit_vector);
            step >>= 1;
            while step > 0
                invariant
                    0 <= q <= pos,
                    0 <= step,
                    pos < self.var_order@.len(),
                    self.wf(),
                    order == self.var_order@,
                    act == self.acts(),
                    w == weight,
                    refine(order, act, w, q as int, step as int) == refine(order, act, w, q1, 512),
                decreases step,
            {
                let ghost qb = q as int;
                proof {
                    if q - step >= 0 {
                        assert(1 <= self.var_order@[q - step] <= self.n());
                        assert(act[self.var_order@[q - step] as int] == self.vars@[self.var_order@[q - step] as int].activity@);
                    }
                }
                if q - step >= 0 && self.weight(&self.var_order[(q - step) as usize]) < weight {
                    q -= step;
                }
                assert(step >> 1 == step / 2) by (bit_vector)
                    requires step > 0;
                assert(step >> 1 < step) by (bit_vector)
                    requires step > 0;
                assert(step >> 1 >= 0) by (bit_vector)
                    requires step > 0;
                step >>= 1;
            }
            proof {
                assert(q == refine(order, act, w, q1, 512));
            }
            let ghost pre = *self;
            let qu = q as usize;
            let pu = pos as usize;
            let u = self.var_order[qu];
            self.var_order.set(pu, u);
            self.var_position.set(v, q);
            self.var_position.set(u as usize, pos);
            self.var_order.set(qu, v as i32);
            proof {
                let s0 = pre.var_order@;
                assert(s0[pu as int] == v);
                let s1 = s0.update(pu as int, u);
                broadcast use vstd::multiset::group_multiset_axioms;
                vstd::seq_lib::to_multiset_update(s0, pu as int, u);
                vstd::seq_lib::to_multiset_update(s1, qu as int, v as i32);
                s0.to_multiset_ensures();
                assert(s0.contains(v as i32));
                assert(self.var_order@ == s1.update(qu as int, v as i32));
                assert(s1[qu as int] == if qu == pu { u } else { u });
                assert(self.var_order@.to_multiset() =~= s0.to_multiset());
                assert forall|w: int| 0 <= w <= self.n() implies {
                    let p = #[trigger] self.var_position@[w];
                    &&& p >= 0
                    &&& p > 0 ==> p < self.var_order@.len() && self.var_order@[p as int] == w
                } by {
                    let p0 = pre.var_position@[w];
                    assert(p0 >= 0);
                }
                assert forall|k: int| 0 <= k < self.var_order@.len() implies 1 <= #[trigger] self.var_order@[k] <= self.n() by {
                    if k != qu && k != pu {
                        assert(self.var_order@[k] == pre.var_order@[k]);
                    }
                }
                assert(self.vars@ == pre.vars@);
                assert forall|w: int| 0 <= w <= self.n() implies #[trigger] self.var_wf(w) by {
                    assert(pre.var_wf(w));
                }
                assert(self.pool_wf());
                assert(self.stack_wf());
                assert(self.wf_core());
                assert(self.positions_wf());
                assert(self.acts() == act);
                assert(src.subrange(ind0 as int, ind as int).drop_last() =~= c0);
                assert(src.subrange(ind0 as int, ind as int).last() == lit);
            }
        }
    }
}

/// The variables of `vars` that carry a mark.
pub open spec fn marked_vars(vars: Seq<Variable>) -> Set<int> {
    Set::new(|v: int| 0 <= v < vars.len() && vars[v].uip_mark)
}

/// Marking the literals `s` in turn, from the marked variables `marked`,
/// under the decision levels of `vars` and current level `dl`: a literal
/// whose variable is at level 1, or already marked when `skip` holds, is
/// passed over; any other marks its variable and is either collected (below
/// level `dl`) or counted. The result is the count, the collected literals
/// in order, and the marked variables at the end.
pub open spec fn marking(s: Seq<i32>, marked: Set<int>, vars: Seq<Variable>, dl: i32, skip: bool) -> (
    nat,
    Seq<i32>,
    Set<int>,
)
    decreases s.len(),
{
    if s.len() == 0 {
        (0, Seq::empty(), marked)
    } else {
        let l = s[0];
        let v = var_of(l);
        if (skip && marked.contains(v)) || vars[v].decision_level == 1 {
            marking(s.drop_first(), marked, vars, dl, skip)
        } else {
            let rest = marking(s.drop_first(), marked.insert(v), vars, dl, skip);
            if vars[v].decision_level < dl {
                (rest.0, seq![l] + rest.1, rest.2)
            } else {
                (rest.0 + 1, rest.1, rest.2)
            }
        }
    }
}

/// `c + k`, saturating at `i32::MAX`.
pub open spec fn capped_add(c: i32, k: int) -> int {
    if c + k > i32::MAX {
        i32::MAX as int
    } else {
        c + k
    }
}

impl CnfManager {
    /// Everything but the variables, the order, the trail, the two literal
    /// queues and the assertion level is as in `o`.
    pub open spec fn frame(&self, o: &CnfManager) -> bool {
        &&& self.var_count == o.var_count
        &&& self.lit_pool@ == o.lit_pool@
        &&& self.lit_pool_size_orig == o.lit_pool_size_orig
        &&& self.clauses@ == o.clauses@
        &&& self.next_clause == o.next_clause
        &&& self.decision_level == o.decision_level
        &&& self.decision_count == o.decision_count
        &&& self.conflict_count == o.conflict_count
        &&& self.restart_count == o.restart_count
        &&& self.conflict_clause_ind == o.conflict_clause_ind
    }

    /// The variables of `self` are those of `o` but for their marks.
    pub open spec fn vars_but_marks(&self, o: &CnfManager) -> bool {
        &&& self.vars@.len() == o.vars@.len()
        &&& forall|v: int| 0 <= v < o.vars@.len() ==> {
            let a = #[trigger] self.vars@[v];
            let b = o.vars@[v];
            &&& a.value == b.value && a.phase == b.phase
            &&& a.decision_level == b.decision_level && a.ante == b.ante && a.ante_ind == b.ante_ind
            &&& a.activity == b.activity && a.bin_imp == b.bin_imp && a.watch == b.watch
        }
    }

    /// The literals collected for the learned clause so far: assigned below
    /// the current level, above level 1.
    pub open spec fn tmp_ok(&self) -> bool {
        forall|k: int| 0 <= k < self.tmp_conflict_lit@.len() ==> {
            let l = #[trigger] self.tmp_conflict_lit@[k];
            &&& l != 0
            &&& lit_in_range(l, self.n())
            &&& self.vars@[var_of(l)].decision_level != 1
            &&& self.vars@[var_of(l)].decision_level < self.decision_level
        }
    }

    /// A readable reason can be read from its index and from the entry before.
    proof fn lemma_ante_source(&self, a: ArrTuple, ind: usize)
        requires
            self.wf_core(),
            self.ante_ok(a, ind),
            !a.is_null,
        ensures
            self.source_ok(a, ind),
            self.source_ok(a, (ind - 1) as usize),
            ind >= 1,
    {
        if !a.is_lit_pool {
            assert(self.var_wf(a.var_index as int));
        }
    }

    /// Entry `ind` of the list that `t` names.
    fn src_at(&self, t: ArrTuple, ind: usize) -> (r: i32)
        requires
            self.wf_core(),
            self.source_ok(t, ind),
        ensures
            r == self.source(t)[ind as int],
            lit_in_range(r, self.n()),
    {
        if t.is_lit_pool {
            self.lit_pool[ind]
        } else {
            proof {
                assert(self.var_wf(t.var_index as int));
            }
            self.vars[t.var_index].bin_imp[t.positive][ind]
        }
    }

    /// The length of the list that `t` names.
    fn src_len(&self, t: ArrTuple) -> (r: usize)
        requires
            self.wf_core(),
            t.is_lit_pool || 1 <= t.var_index <= self.n() && t.positive < 2,
        ensures
            r == self.source(t).len(),
    {
        if t.is_lit_pool {
            self.lit_pool.len()
        } else {
            proof {
                assert(self.var_wf(t.var_index as int));
            }
            self.vars[t.var_index].bin_imp[t.positive].len()
        }
    }

    /// The list `t` names ends with a `0`.
    proof fn lemma_source_ends(&self, t: ArrTuple, ind: usize)
        requires
            self.wf_core(),
            self.source_ok(t, ind),
        ensures
            self.source(t).len() > 0,
            self.source(t)[self.source(t).len() - 1] == 0,
            forall|k: int| 0 <= k < self.source(t).len() ==> lit_in_range(#[trigger] self.source(t)[k], self.n()),
    {
        if !t.is_lit_pool {
            assert(self.var_wf(t.var_index as int));
        }
    }

    /// Marks the variables of the clause at `ind` of the list `t` (up to its
    /// `0`) that are above level 1, skipping already marked ones when
    /// `skip_marked` holds; literals below the current level go to
    /// `tmp_conflict_lit`, and the others are counted into `cur`.
    fn mark_lits(&mut self, t: ArrTuple, ind: usize, skip_marked: bool, cur: i32) -> (r: i32)
        requires
            old(self).wf(),
            old(self).tmp_ok(),
            old(self).source_ok(t, ind),
        ensures
            final(self).wf(),
            final(self).tmp_ok(),
            final(self).frame(&*old(self)),
            final(self).vars_but_marks(&*old(self)),
            final(self).var_order@ == old(self).var_order@,
            final(self).var_position@ == old(self).var_position@,
            final(self).next_var == old(self).next_var,
            final(self).decision_stack@ == old(self).decision_stack@,
            final(self).conflict_lit@ == old(self).conflict_lit@,
            final(self).assertion_level == old(self).assertion_level,
            old(self).tmp_conflict_lit@.is_prefix_of(final(self).tmp_conflict_lit@),
            r >= cur,
            ({
                let m = marking(
                    clause_from(old(self).source(t), ind as int),
                    marked_vars(old(self).vars@),
                    old(self).vars@,
                    old(self).decision_level,
                    skip_marked,
                );
                &&& r == capped_add(cur, m.0 as int)
                &&& final(self).tmp_conflict_lit@ == old(self).tmp_conflict_lit@ + m.1
                &&& marked_vars(final(self).vars@) == m.2
            }),
    {
        let ghost o = *self;
        let ghost src = self.source(t);
        proof {
            self.lemma_source_ends(t, ind);
            lemma_first_zero_exists(src, ind as int);
        }
        let ghost z = choose|z: int| #[trigger] first_zero(src, ind as int, z);
        let len = self.src_len(t);
        let mut ind = ind;
        let cur0 = cur;
        let mut cur = cur;
        let ghost whole = marking(src.subrange(ind as int, z), marked_vars(o.vars@), o.vars@, o.decision_level, skip_marked);
        let ghost mut done: int = 0;
        let ghost mut pushed: Seq<i32> = Seq::empty();
        proof {
            assert(o.tmp_conflict_lit@ + pushed =~= o.tmp_conflict_lit@);
        }
        loop
            invariant
                len == src.len(),
                cur >= cur0,
                done >= 0,
                cur == capped_add(cur0, done),
                self.tmp_conflict_lit@ == o.tmp_conflict_lit@ + pushed,
                ({
                    let rest = marking(src.subrange(ind as int, z), marked_vars(self.vars@), o.vars@, o.decision_level, skip_marked);
                    &&& done + rest.0 == whole.0
                    &&& pushed + rest.1 == whole.1
                    &&& rest.2 == whole.2
                }),
                self.wf(),
                self.tmp_ok(),
                self.frame(&o),
                self.vars_but_marks(&o),
                self.var_order@ == o.var_order@,
                self.var_position@ == o.var_position@,
                self.next_var == o.next_var,
                self.decision_stack@ == o.decision_stack@,
                self.conflict_lit@ == o.conflict_lit@,
                self.assertion_level == o.assertion_level,
                o.tmp_conflict_lit@.is_prefix_of(self.tmp_conflict_lit@),
                o.wf(),
                o.source_ok(t, ind as usize),
                src == o.source(t),
                self.source(t) == src,
                first_zero(src, ind as int, z),
                ind <= z,
            ensures
                self.wf(),
                self.tmp_ok(),
                self.frame(&o),
                self.vars_but_marks(&o),
                self.var_order@ == o.var_order@,
                self.var_position@ == o.var_position@,
                self.next_var == o.next_var,
                self.decision_stack@ == o.decision_stack@,
                self.conflict_lit@ == o.conflict_lit@,
                self.assertion_level == o.assertion_level,
                o.tmp_conflict_lit@.is_prefix_of(self.tmp_conflict_lit@),
                cur >= cur0,
                cur == capped_add(cur0, whole.0 as int),
                self.tmp_conflict_lit@ == o.tmp_conflict_lit@ + whole.1,
                marked_vars(self.vars@) == whole.2,
            decreases z - ind,
        {
            let lit = self.src_at(t, ind);
            let ghost rest = src.subrange(ind as int, z);
            let ghost mk = marked_vars(self.vars@);
            if lit == 0 {
                proof {
                    assert(ind == z);
                    assert(rest.len() == 0);
                    assert(pushed + Seq::<i32>::empty() =~= pushed);
                }
                break;
            }
            proof {
                assert(ind < z);
                assert(rest[0] == lit);
                assert(rest.drop_first() =~= src.subrange(ind + 1, z));
            }
            ind += 1;
            proof {
                if !t.is_lit_pool {
                    assert(o.var_wf(t.var_index as int));
                }
            }
            let v = to_var(&lit);
            proof {
                assert(self.var_wf(v as int));
                assert(var_of(lit) == v);
                assert(self.vars@[v as int].decision_level == o.vars@[v as int].decision_level);
                assert(mk.contains(v as int) == self.vars@[v as int].uip_mark);
            }
            if skip_marked && self.vars[v].uip_mark {
                continue;
            }
            if self.vars[v].decision_level == 1 {
                continue;
            }
            let ghost pre = *self;
            let ghost after = marking(src.subrange(ind as int, z), mk.insert(v as int), o.vars@, o.decision_level, skip_marked);
            if self.vars[v].decision_level < self.decision_level {
                self.tmp_conflict_lit.push_back(lit);
                proof {
                    assert(pushed + (seq![lit] + after.1) =~= pushed.push(lit) + after.1);
                    pushed = pushed.push(lit);
                }
            } else {
                if cur < i32::MAX {
                    cur += 1;
                }
                proof {
                    done = done + 1;
                }
            }
            self.vars[v].uip_mark = true;
            proof {
                assert(marked_vars(self.vars@) =~= mk.insert(v as int));
                assert forall|u: int| 0 <= u <= self.n() implies #[trigger] self.var_wf(u) by {
                    assert(pre.var_wf(u));
                }
                assert forall|k: int| 0 <= k < self.tmp_conflict_lit@.len() implies {
                    let l = #[trigger] self.tmp_conflict_lit@[k];
                    &&& l != 0
                    &&& lit_in_range(l, self.n())
                    &&& self.vars@[var_of(l)].decision_level != 1
                    &&& self.vars@[var_of(l)].decision_level < self.decision_level
                } by {
                    if k < pre.tmp_conflict_lit@.len() {
                        assert(self.tmp_conflict_lit@[k] == pre.tmp_conflict_lit@[k]);
                    }
                }
                assert(self.vars_but_marks(&o));
            }
        }
        cur
    }
}

/// A literal that occurs in `s` is one of its entries.
pub proof fn lemma_occ_pos(s: Seq<i32>, x: i32)
    requires
        occ(s, x) > 0,
    ensures
        exists|k: int| 0 <= k < s.len() && s[k] == x,
    decreases s.len(),
{
    if s.last() == x {
        assert(s[s.len() - 1] == x);
    } else {
        lemma_occ_pos(s.drop_last(), x);
        let k = choose|k: int| 0 <= k < s.drop_last().len() && s.drop_last()[k] == x;
        assert(s[k] == x);
    }
}

impl CnfManager {
    /// Whether raising every literal of the clause at `ind` of the list `t`
    /// names, once per occurrence, keeps each variable's score within `i32`.
    fn fits_weights(&self, t: ArrTuple, ind: usize) -> (r: bool)
        requires
            self.wf(),
            self.source_ok(t, ind),
        ensures
            r == self.weights_fit(clause_from(self.source(t), ind as int)),
    {
        let ghost src = self.source(t);
        proof {
            self.lemma_source_ends(t, ind);
            lemma_first_zero_exists(src, ind as int);
        }
        let ghost z = choose|z: int| #[trigger] first_zero(src, ind as int, z);
        let ghost c = src.subrange(ind as int, z);
        let len = self.src_len(t);
        let mut i = ind;
        while i < len
            invariant
                self.wf(),
                self.source_ok(t, ind),
                src == self.source(t),
                len == src.len(),
                first_zero(src, ind as int, z),
                c == src.subrange(ind as int, z),
                ind <= i <= z,
                forall|k: int|
                    ind <= k < i ==> #[trigger] self.spec_weight(var_of(src[k])) + var_occ(c, var_of(src[k])) <= i32::MAX,
            ensures
                i == z,
                forall|k: int|
                    ind <= k < i ==> #[trigger] self.spec_weight(var_of(src[k])) + var_occ(c, var_of(src[k])) <= i32::MAX,
            decreases z - i,
        {
            let x = self.src_at(t, i);
            if x == 0 {
                break;
            }
            proof {
                assert(i < z);
            }
            let v = to_var(&x);
            proof {
                assert(self.var_wf(v as int));
            }
            let w = self.weight(&(v as i32));
            let mut cnt: usize = 0;
            let mut j = ind;
            while j < len
                invariant
                    self.wf(),
                    self.source_ok(t, ind),
                    src == self.source(t),
                    len == src.len(),
                    first_zero(src, ind as int, z),
                    ind <= j <= z,
                    1 <= v <= self.n(),
                    cnt == var_occ(src.subrange(ind as int, j as int), v as int),
                ensures
                    j == z,
                    cnt == var_occ(src.subrange(ind as int, z), v as int),
                decreases z - j,
            {
                let y = self.src_at(t, j);
                if y == 0 {
                    break;
                }
                proof {
                    assert(j < z);
                    let c0 = src.subrange(ind as int, j as int);
                    assert(src.subrange(ind as int, j + 1) =~= c0.push(y));
                    lemma_occ_push(c0, y, lit_of(v as int, 0) as i32);
                    lemma_occ_push(c0, y, lit_of(v as int, 1) as i32);
                    assert(cnt <= j - ind) by {
                        lemma_occ_le_len(c0, lit_of(v as int, 0) as i32, lit_of(v as int, 1) as i32);
                    }
                }
                if to_var(&y) == v {
                    proof {
                        if y > 0 {
                            assert(y == lit_of(v as int, 1) as i32);
                        } else {
                            assert(y == lit_of(v as int, 0) as i32);
                        }
                    }
                    cnt = cnt + 1;
                } else {
                    proof {
                        assert(y != lit_of(v as int, 1) as i32);
                        assert(y != lit_of(v as int, 0) as i32);
                    }
                }
                j += 1;
            }
            proof {
                assert(w == self.spec_weight(v as int));
                assert(var_of(src[i as int]) == v);
            }
            if cnt > (i32::MAX - w) as usize {
                proof {
                    assert(!(self.spec_weight(v as int) + var_occ(c, v as int) <= i32::MAX));
                }
                return false;
            }
            i += 1;
        }
        proof {
            assert forall|v: int| 1 <= v <= self.n() implies #[trigger] self.spec_weight(v) + var_occ(c, v) <= i32::MAX by {
                assert(self.var_wf(v));
                if var_occ(c, v) > 0 {
                    if occ(c, lit_of(v, 0) as i32) > 0 {
                        lemma_occ_pos(c, lit_of(v, 0) as i32);
                        let k = choose|k: int| 0 <= k < c.len() && c[k] == lit_of(v, 0) as i32;
                        assert(src[ind + k] == c[k]);
                        assert(var_of(src[ind + k]) == v);
                    } else {
                        lemma_occ_pos(c, lit_of(v, 1) as i32);
                        let k = choose|k: int| 0 <= k < c.len() && c[k] == lit_of(v, 1) as i32;
                        assert(src[ind + k] == c[k]);
                        assert(var_of(src[ind + k]) == v);
                    }
                }
            }
        }
        true
    }
}

/// Two literals together occur no more often than a sequence is long.
pub proof fn lemma_occ_le_len(s: Seq<i32>, x: i32, y: i32)
    requires
        x != y,
    ensures
        occ(s, x) + occ(s, y) <= s.len(),
    decreases s.len(),
{
    if s.len() > 0 {
        lemma_occ_le_len(s.drop_last(), x, y);
    }
}

impl CnfManager {
    /// Analyses the conflict on the clause at `ind` of the list `tuple` names
    /// (all of whose literals are false) and learns a clause from it.
    ///
    /// At decision level 1 the conflict cannot be resolved: `assertion_level`
    /// becomes 0 and nothing else changes. Otherwise the activities of the
    /// clauses met are raised, the trail is undone down to the first unique
    /// implication point of the current level (the variables popped become
    /// unassigned, every other keeps its value), and the learned clause, made of
    /// the negation of that literal and the non-redundant literals of lower
    /// levels, is added (see [`CnfManager::add_clause`]) with the negated
    /// literal first; `assertion_level` becomes the highest level among the
    /// other literals, or 1. A collected literal is left out of the learned
    /// clause only when its variable has a reason each of whose literals is
    /// over a collected variable or over one that stays marked (see
    /// [`CnfManager::reason_within`]); the first literal of `conflict_lit` is
    /// one of the assertion level when that is above 1, and the marks of the
    /// collected variables and of the implication point are cleared. Should
    /// the trail run out before the implication
    /// point is found, `assertion_level` becomes -1 and no clause is learned;
    /// should raising the activities of a clause met take a variable's score
    /// past `i32::MAX` (where plain `i32` addition would overflow), the
    /// analysis stops there with `assertion_level` -2 and no clause learned.
    pub fn learn_clause(&mut self, tuple: ArrTuple, ind: usize)
        requires
            old(self).wf(),
            old(self).source_ok(tuple, ind),
        ensures
            final(self).wf(),
            final(self).var_count == old(self).var_count,
            final(self).lit_pool_size_orig == old(self).lit_pool_size_orig,
            final(self).next_clause == old(self).next_clause,
            final(self).decision_level == old(self).decision_level,
            final(self).decision_count == old(self).decision_count,
            final(self).conflict_count == old(self).conflict_count,
            final(self).restart_count == old(self).restart_count,
            old(self).decision_level == 1 ==> {
                &&& final(self).assertion_level == 0
                &&& final(self).vars@ == old(self).vars@
                &&& final(self).lit_pool@ == old(self).lit_pool@
                &&& final(self).clauses@ == old(self).clauses@
                &&& final(self).decision_stack@ == old(self).decision_stack@
                &&& final(self).var_order@ == old(self).var_order@
                &&& final(self).var_position@ == old(self).var_position@
                &&& final(self).next_var == old(self).next_var
                &&& final(self).conflict_lit@ == old(self).conflict_lit@
                &&& final(self).tmp_conflict_lit@ == old(self).tmp_conflict_lit@
                &&& final(self).conflict_clause_ind == old(self).conflict_clause_ind
            },
            old(self).decision_level != 1 ==> {
                ||| {
                    &&& (final(self).assertion_level == -1 || final(self).assertion_level == -2)
                    &&& final(self).assertion_level == -1 ==> final(self).decision_stack@.len() == 1
                    &&& final(self).assertion_level == -2 ==> final(self).some_clause_overflows()
                    &&& final(self).lit_pool@ == old(self).lit_pool@
                    &&& final(self).clauses@ == old(self).clauses@
                    &&& final(self).conflict_clause_ind == old(self).conflict_clause_ind
                }
                ||| {
                    let cl = final(self).conflict_lit@;
                    &&& 1 <= final(self).assertion_level
                    &&& old(self).decision_level >= 2 ==> final(self).assertion_level < old(self).decision_level
                    &&& cl.len() >= 1
                    &&& final(self).lit_pool@ == old(self).lit_pool@ + learned_clause(cl) + seq![0i32]
                    &&& final(self).conflict_clause_ind == old(self).lit_pool@.len()
                    &&& final(self).clauses@ == if cl.len() > 1 {
                        old(self).clauses@.push(old(self).lit_pool@.len() as usize)
                    } else {
                        old(self).clauses@
                    }
                    &&& final(self).is_free(final(self).lit_pool@[final(self).conflict_clause_ind as int])
                    &&& final(self).lit_pool@[final(self).conflict_clause_ind as int] != 0
                    &&& final(self).decision_stack@.len() < old(self).decision_stack@.len()
                    &&& final(self).decision_stack@ == old(self).decision_stack@.subrange(0, final(self).decision_stack@.len() as int)
                    &&& final(self).values_after_pop(&*old(self), final(self).decision_stack@.len() as int)
                    &&& forall|k: int| 0 <= k < final(self).tmp_conflict_lit@.len()
                        && !cl.contains(#[trigger] final(self).tmp_conflict_lit@[k])
                        ==> old(self).reason_within(final(self).tmp_conflict_lit@[k], final(self).tmp_conflict_lit@, final(self).vars@)
                    &&& forall|k: int| 0 <= k < cl.len() - 1
                        ==> final(self).vars@[var_of(#[trigger] cl[k])].decision_level <= final(self).assertion_level
                    &&& final(self).assertion_level > 1 ==> cl.len() > 1
                        && final(self).vars@[var_of(cl[0])].decision_level == final(self).assertion_level
                    &&& forall|k: int| 0 <= k < final(self).tmp_conflict_lit@.len()
                        ==> !final(self).vars@[var_of(#[trigger] final(self).tmp_conflict_lit@[k])].uip_mark
                    &&& !final(self).vars@[var_of(cl[cl.len() - 1])].uip_mark
                }
            },
    {
        if self.decision_level == 1 {
            self.assertion_level = 0;
            proof {
                lemma_wf_frame(*old(self), *self);
            }
            return;
        }
        let ghost o = *self;
        if !self.fits_weights(tuple, ind) {
            self.assertion_level = -2;
            proof {
                lemma_wf_frame(o, *self);
                assert(self.vars@ == o.vars@ && self.lit_pool@ == o.lit_pool@ && self.var_count == o.var_count);
                assert(self.source(tuple) == o.source(tuple));
                let c = clause_from(self.source(tuple), ind as int);
                assert(!o.weights_fit(c));
                let v = choose|v: int| 1 <= v <= o.n() && !(o.spec_weight(v) + var_occ(c, v) <= i32::MAX);
                assert(self.spec_weight(v) == o.spec_weight(v));
                assert(!self.weights_fit(c));
                assert(self.source_ok(tuple, ind));
                assert(self.some_clause_overflows());
            }
            return;
        }
        self.update_weights(tuple, ind);
        let ghost pre0 = *self;
        self.conflict_lit.clear();
        self.tmp_conflict_lit.clear();
        self.assertion_level = 0;
        proof {
            lemma_wf_frame(pre0, *self);
            assert(self.tmp_ok());
        }
        let ghost pre_mark = *self;
        let mut cur_level_lits = self.mark_lits(tuple, ind, false, 0);
        proof {
            assert(pre0.reasons_kept(&o));
            assert(pre_mark.reasons_kept(&pre0));
            assert(self.reasons_kept(&pre_mark));
            lemma_reasons_kept_trans(o, pre0, pre_mark);
            lemma_reasons_kept_trans(o, pre_mark, *self);
        }
        let ghost st = o.decision_stack@;
        let mut lit: i32 = 0;
        loop
            invariant_except_break
                self.assertion_level == 0,
            invariant
                self.wf(),
                self.tmp_ok(),
                o.wf(),
                self.var_count == o.var_count,
                self.lit_pool@ == o.lit_pool@,
                self.lit_pool_size_orig == o.lit_pool_size_orig,
                self.clauses@ == o.clauses@,
                self.next_clause == o.next_clause,
                self.decision_level == o.decision_level,
                self.decision_count == o.decision_count,
                self.conflict_count == o.conflict_count,
                self.restart_count == o.restart_count,
                self.conflict_clause_ind == o.conflict_clause_ind,
                self.conflict_lit@.len() == 0,
                1 <= self.decision_stack@.len() <= st.len(),
                self.decision_stack@ == st.subrange(0, self.decision_stack@.len() as int),
                self.values_after_pop(&o, self.decision_stack@.len() as int),
                st == o.decision_stack@,
                self.reasons_kept(&o),
            ensures
                self.reasons_kept(&o),
                self.wf(),
                self.tmp_ok(),
                self.var_count == o.var_count,
                self.lit_pool@ == o.lit_pool@,
                self.lit_pool_size_orig == o.lit_pool_size_orig,
                self.clauses@ == o.clauses@,
                self.next_clause == o.next_clause,
                self.decision_level == o.decision_level,
                self.decision_count == o.decision_count,
                self.conflict_count == o.conflict_count,
                self.restart_count == o.restart_count,
                self.conflict_clause_ind == o.conflict_clause_ind,
                self.conflict_lit@.len() == 0,
                self.assertion_level == -1 || self.assertion_level == -2 || (self.assertion_level == 0 && lit != 0 && lit_in_range(lit, self.n()) && self.is_free(lit)
                    && self.decision_stack@.len() < st.len()),
                self.assertion_level == -1 ==> self.decision_stack@.len() == 1,
                self.assertion_level == -2 ==> self.some_clause_overflows(),
                self.values_after_pop(&o, self.decision_stack@.len() as int),
                self.decision_stack@ == st.subrange(0, self.decision_stack@.len() as int),
                self.assertion_level == 0 ==> !self.vars@[var_of(lit)].uip_mark,
            decreases self.decision_stack@.len(),
        {
            let len = self.decision_stack.len();
            let ghost top = *self;
            if len <= 1 {
                self.assertion_level = -1;
                proof {
                    lemma_wf_frame(top, *self);
                    assert(self.tmp_ok());
                }
                break;
            }
            lit = self.decision_stack[len - 1];
            let _ = self.decision_stack.pop();
            proof {
                assert(self.decision_stack@ =~= st.subrange(0, len - 1));
                assert(lit != 0 && lit_in_range(lit, self.n()));
                assert forall|u: int| 0 <= u <= self.n() implies #[trigger] self.var_wf(u) by {
                    assert(top.var_wf(u));
                }
                assert(self.tmp_ok());
            }
            let var = to_var(&lit);
            let ghost pre = *self;
            proof {
                assert(self.var_wf(var as int));
            }
            self.vars[var].value = VA::Free;
            proof {
                assert forall|u: int| 0 <= u <= self.n() implies #[trigger] self.var_wf(u) by {
                    assert(pre.var_wf(u));
                }
                assert(self.tmp_ok());
                assert(st[len - 1] == lit);
                assert(o.decision_stack@ == st);
                assert(top.values_after_pop(&o, len as int));
                assert(var_of(lit) == var);
                assert(pre.vars@ == top.vars@);
                assert forall|v: int| 0 <= v < o.vars@.len() implies (#[trigger] self.vars@[v]).value == if occurs_from(o.decision_stack@, (len - 1) as int, v) {
                    VA::Free
                } else {
                    o.vars@[v].value
                } by {
                    lemma_occurs_from_step(st, len - 1, v);
                    if v != var {
                        assert(self.vars@[v] == pre.vars@[v]);
                        assert(top.vars@[v].value == if occurs_from(st, len as int, v) { VA::Free } else { o.vars@[v].value });
                    }
                }
            }
            if !self.vars[var].uip_mark {
                let ghost pre_nv = *self;
                if self.var_position[var] < self.next_var {
                    self.next_var = self.var_position[var];
                }
                proof {
                    assert(0 <= self.var_position@[var as int]);
                    lemma_wf_frame(pre_nv, *self);
                    assert(self.tmp_ok());
                }
                continue;
            }
            let a = self.vars[var].ante;
            let ai = self.vars[var].ante_ind;
            proof {
                assert(self.var_wf(var as int));
                assert(self.ante_ok(a, ai));
            }
            let ghost pre2 = *self;
            self.vars[var].uip_mark = false;
            proof {
                assert forall|u: int| 0 <= u <= self.n() implies #[trigger] self.var_wf(u) by {
                    assert(pre2.var_wf(u));
                }
                assert(self.tmp_ok());
                assert(self.ante_ok(a, ai));
            }
            proof {
                if !a.is_null {
                    self.lemma_ante_source(a, ai);
                }
            }
            if !a.is_null {
                if !self.fits_weights(a, ai - 1) {
                    let ghost top2 = *self;
                    self.assertion_level = -2;
                    proof {
                        lemma_wf_frame(top2, *self);
                        assert(self.tmp_ok());
                        let j = (ai - 1) as usize;
                        assert(self.vars@ == top2.vars@ && self.lit_pool@ == top2.lit_pool@ && self.var_count == top2.var_count);
                        assert(self.source(a) == top2.source(a));
                        let c = clause_from(self.source(a), j as int);
                        assert(!top2.weights_fit(c));
                        let v = choose|v: int| 1 <= v <= top2.n() && !(top2.spec_weight(v) + var_occ(c, v) <= i32::MAX);
                        assert(self.spec_weight(v) == top2.spec_weight(v));
                        assert(!self.weights_fit(c));
                        assert(self.source_ok(a, j));
                        assert(self.some_clause_overflows());
                    }
                    break;
                }
                self.update_weights(a, ai - 1);
            }
            let ghost pre_nv2 = *self;
            if self.var_position[var] < self.next_var {
                self.next_var = self.var_position[var];
            }
            proof {
                assert(0 <= self.var_position@[var as int]);
                lemma_wf_frame(pre_nv2, *self);
                assert(self.tmp_ok());
            }
            if cur_level_lits == 1 {
                break;
            }
            if cur_level_lits > i32::MIN {
                cur_level_lits -= 1;
            }
            if !a.is_null {
                cur_level_lits = self.mark_lits(a, ai, true, cur_level_lits);
            }
        }
        if self.assertion_level < 0 {
            return;
        }
        let ghost pre1 = *self;
        self.assertion_level = 1;
        proof {
            lemma_wf_frame(pre1, *self);
            assert(self.tmp_ok());
        }
        let ntmp = self.tmp_conflict_lit.len();
        let ghost mv = self.vars@;
        let ghost tq = self.tmp_conflict_lit@;
        let mut i: usize = 0;
        while i < ntmp
            invariant
                self.wf(),
                self.tmp_ok(),
                self.tmp_conflict_lit@.len() == ntmp,
                self.tmp_conflict_lit@ == tq,
                self.vars@ == mv,
                self.reasons_kept(&o),
                !mv[var_of(lit)].uip_mark,
                forall|k: int| 0 <= k < i && !self.conflict_lit@.contains(#[trigger] tq[k]) ==> o.reason_within(tq[k], tq, mv),
                forall|k: int| 0 <= k < self.conflict_lit@.len()
                    ==> self.vars@[var_of(#[trigger] self.conflict_lit@[k])].decision_level <= self.assertion_level,
                self.assertion_level > 1 ==> self.conflict_lit@.len() > 0
                    && self.vars@[var_of(self.conflict_lit@[0])].decision_level == self.assertion_level,
                self.var_count == o.var_count,
                self.lit_pool@ == o.lit_pool@,
                self.lit_pool_size_orig == o.lit_pool_size_orig,
                self.clauses@ == o.clauses@,
                self.next_clause == o.next_clause,
                self.decision_level == o.decision_level,
                self.decision_count == o.decision_count,
                self.conflict_count == o.conflict_count,
                self.restart_count == o.restart_count,
                self.conflict_clause_ind == o.conflict_clause_ind,
                lit != 0 && lit_in_range(lit, self.n()) && self.is_free(lit),
                self.decision_stack@.len() < st.len(),
                self.decision_stack@ == st.subrange(0, self.decision_stack@.len() as int),
                1 <= self.assertion_level,
                self.decision_level >= 2 ==> self.assertion_level < self.decision_level,
                forall|k: int| 0 <= k < self.conflict_lit@.len() ==> #[trigger] self.conflict_lit@[k] != 0
                    && lit_in_range(self.conflict_lit@[k], self.n()),
                i <= ntmp,
                self.values_after_pop(&o, self.decision_stack@.len() as int),
            decreases ntmp - i,
        {
            let conf_lit = self.tmp_conflict_lit[i];
            proof {
                assert(self.tmp_conflict_lit@[i as int] == conf_lit);
            }
            let cv = to_var(&conf_lit);
            proof {
                assert(self.var_wf(cv as int));
            }
            let mut redundant = true;
            let x = self.vars[cv].ante;
            if !x.is_null {
                let mut z = self.vars[cv].ante_ind;
                let ghost src = self.source(x);
                proof {
                    assert(self.ante_ok(x, z));
                    self.lemma_ante_source(x, z);
                    self.lemma_source_ends(x, z);
                    lemma_first_zero_exists(src, z as int);
                }
                let ghost zz = choose|q: int| #[trigger] first_zero(src, z as int, q);
                let ghost z0 = z as int;
                let xlen = self.src_len(x);
                loop
                    invariant_except_break
                        redundant,
                    invariant
                        self.wf(),
                        xlen == src.len(),
                        src == self.source(x),
                        self.source_ok(x, z),
                        first_zero(src, z as int, zz),
                        first_zero(src, z0, zz),
                        z0 <= z <= zz,
                        forall|j: int| z0 <= j < z ==> self.vars@[var_of(#[trigger] src[j])].uip_mark,
                    ensures
                        redundant ==> forall|j: int| z0 <= j < zz ==> self.vars@[var_of(#[trigger] src[j])].uip_mark,
                    decreases zz - z,
                {
                    let y = self.src_at(x, z);
                    if y == 0 {
                        break;
                    }
                    proof {
                        assert(z < zz);
                    }
                    let yv = to_var(&y);
                    if !self.vars[yv].uip_mark {
                        redundant = false;
                        break;
                    }
                    z += 1;
                }
                proof {
                    if redundant {
                        let c = clause_from(src, z0);
                        let q = choose|q: int| #[trigger] first_zero(src, z0, q);
                        lemma_first_zero_unique(src, z0, q, zz);
                        assert(c == src.subrange(z0, zz));
                        self.lemma_source_ends(x, z0 as usize);
                        assert(o.vars@[cv as int].ante == x);
                        assert(o.vars@[cv as int].ante_ind == z0);
                        assert(o.source(x) == src);
                        assert forall|j: int| 0 <= j < c.len() implies {
                            let v = var_of(#[trigger] c[j]);
                            &&& 0 <= v < mv.len()
                            &&& in_vars(tq, v) || mv[v].uip_mark
                        } by {
                            assert(c[j] == src[z0 + j]);
                            assert(lit_in_range(src[z0 + j], self.n()));
                        }
                        assert(var_of(conf_lit) == cv);
                        assert(o.reason_within(conf_lit, tq, mv));
                    }
                }
            } else {
                redundant = false;
            }
            let ghost pre_push = *self;
            if !redundant {
                if self.vars[cv].decision_level > self.assertion_level {
                    self.assertion_level = self.vars[cv].decision_level;
                    self.conflict_lit.push_front(conf_lit);
                } else {
                    self.conflict_lit.push_back(conf_lit);
                }
            }
            proof {
                lemma_wf_frame(pre_push, *self);
                assert(self.tmp_ok());
                assert forall|k: int| 0 <= k < self.conflict_lit@.len() implies #[trigger] self.conflict_lit@[k] != 0
                    && lit_in_range(self.conflict_lit@[k], self.n()) by {
                    if k > 0 && self.conflict_lit@.len() > pre_push.conflict_lit@.len() && self.conflict_lit@[0] == conf_lit && self.conflict_lit@.len() > 0 {
                    }
                }
                assert forall|k: int| 0 <= k < self.conflict_lit@.len() implies
                    self.vars@[var_of(#[trigger] self.conflict_lit@[k])].decision_level <= self.assertion_level by {
                    if self.conflict_lit@ == pre_push.conflict_lit@.push(conf_lit) && self.conflict_lit@ != pre_push.conflict_lit@ {
                        if k < pre_push.conflict_lit@.len() {
                            assert(self.conflict_lit@[k] == pre_push.conflict_lit@[k]);
                        }
                    } else if self.conflict_lit@ == seq![conf_lit] + pre_push.conflict_lit@ && self.conflict_lit@ != pre_push.conflict_lit@ {
                        if k > 0 {
                            assert(self.conflict_lit@[k] == pre_push.conflict_lit@[k - 1]);
                        }
                    }
                }
                if self.assertion_level > 1 && self.conflict_lit@ == pre_push.conflict_lit@.push(conf_lit) && self.conflict_lit@ != pre_push.conflict_lit@ && pre_push.conflict_lit@.len() > 0 {
                    assert(self.conflict_lit@[0] == pre_push.conflict_lit@[0]);
                }
                assert forall|k: int| 0 <= k < i + 1 && !self.conflict_lit@.contains(#[trigger] tq[k]) implies o.reason_within(tq[k], tq, mv) by {
                    if k < i {
                        if pre_push.conflict_lit@.contains(tq[k]) {
                            let w = choose|w: int| 0 <= w < pre_push.conflict_lit@.len() && pre_push.conflict_lit@[w] == tq[k];
                            if self.conflict_lit@ == pre_push.conflict_lit@.push(conf_lit) {
                                assert(self.conflict_lit@[w] == tq[k]);
                            } else if self.conflict_lit@ == seq![conf_lit] + pre_push.conflict_lit@ {
                                assert(self.conflict_lit@[w + 1] == tq[k]);
                            }
                        }
                    } else {
                        assert(tq[k] == conf_lit);
                        if !redundant {
                            if self.conflict_lit@ == pre_push.conflict_lit@.push(conf_lit) {
                                assert(self.conflict_lit@[pre_push.conflict_lit@.len() as int] == conf_lit);
                            } else {
                                assert(self.conflict_lit@[0] == conf_lit);
                            }
                        }
                    }
                }
            }
            i += 1;
        }
        let ghost cq = self.conflict_lit@;
        let mut i: usize = 0;
        while i < ntmp
            invariant
                self.wf(),
                self.tmp_ok(),
                self.tmp_conflict_lit@.len() == ntmp,
                self.var_count == o.var_count,
                self.lit_pool@ == o.lit_pool@,
                self.lit_pool_size_orig == o.lit_pool_size_orig,
                self.clauses@ == o.clauses@,
                self.next_clause == o.next_clause,
                self.decision_level == o.decision_level,
                self.decision_count == o.decision_count,
                self.conflict_count == o.conflict_count,
                self.restart_count == o.restart_count,
                self.conflict_clause_ind == o.conflict_clause_ind,
                lit != 0 && lit_in_range(lit, self.n()) && self.is_free(lit),
                self.decision_stack@.len() < st.len(),
                self.decision_stack@ == st.subrange(0, self.decision_stack@.len() as int),
                1 <= self.assertion_level,
                self.decision_level >= 2 ==> self.assertion_level < self.decision_level,
                forall|k: int| 0 <= k < self.conflict_lit@.len() ==> #[trigger] self.conflict_lit@[k] != 0
                    && lit_in_range(self.conflict_lit@[k], self.n()),
                i <= ntmp,
                self.values_after_pop(&o, self.decision_stack@.len() as int),
                self.tmp_conflict_lit@ == tq,
                self.conflict_lit@ == cq,
                self.vars@.len() == mv.len(),
                forall|v: int| 0 <= v < mv.len() ==> #[trigger] self.vars@[v].decision_level == mv[v].decision_level,
                !self.vars@[var_of(lit)].uip_mark,
                forall|k: int| 0 <= k < i ==> !self.vars@[var_of(#[trigger] tq[k])].uip_mark,
                forall|k: int| 0 <= k < cq.len() ==> mv[var_of(#[trigger] cq[k])].decision_level <= self.assertion_level,
                self.assertion_level > 1 ==> cq.len() > 0 && mv[var_of(cq[0])].decision_level == self.assertion_level,
                forall|v: int| 0 <= v < mv.len() && mv[v].uip_mark && !in_vars(tq, v) ==> #[trigger] self.vars@[v].uip_mark,
            decreases ntmp - i,
        {
            let t = self.tmp_conflict_lit[i];
            proof {
                assert(self.tmp_conflict_lit@[i as int] == t);
            }
            let tv = to_var(&t);
            let ghost pre = *self;
            proof {
                assert(self.var_wf(tv as int));
            }
            self.vars[tv].uip_mark = false;
            proof {
                assert forall|u: int| 0 <= u <= self.n() implies #[trigger] self.var_wf(u) by {
                    assert(pre.var_wf(u));
                }
                assert(self.tmp_ok());
                assert forall|k: int| 0 <= k < i + 1 implies !self.vars@[var_of(#[trigger] tq[k])].uip_mark by {
                    if k < i {
                        assert(lit_in_range(tq[k], self.n()));
                        if var_of(tq[k]) != tv {
                            assert(self.vars@[var_of(tq[k])] == pre.vars@[var_of(tq[k])]);
                        }
                    }
                }
                if var_of(lit) != tv {
                    assert(self.vars@[var_of(lit)] == pre.vars@[var_of(lit)]);
                }
                assert forall|v: int| 0 <= v < mv.len() && mv[v].uip_mark && !in_vars(tq, v) implies #[trigger] self.vars@[v].uip_mark by {
                    if v == tv {
                        assert(var_of(tq[i as int]) == v);
                    }
                    assert(pre.vars@[v].uip_mark);
                }
            }
            i += 1;
        }
        let ghost pre3 = *self;
        self.conflict_lit.push_back(-lit);
        proof {
            lemma_wf_frame(pre3, *self);
            assert forall|k: int| 0 <= k < self.conflict_lit@.len() implies #[trigger] self.conflict_lit@[k] != 0
                && lit_in_range(self.conflict_lit@[k], self.n()) by {}
        }
        let ghost before_add = *self;
        self.add_clause();
        proof {
            let cl = self.conflict_lit@;
            lemma_learned_clause(cl);
            let lc = learned_clause(cl);
            let ol = o.lit_pool@;
            assert(self.lit_pool@ == ol + lc + seq![0i32]);
            assert((ol + lc + seq![0i32])[ol.len() as int] == lc[0]);
            if cl.len() == 1 {
                assert(lc[0] == cl[0]);
            }
            assert(lc[0] == cl[cl.len() - 1]);
            assert(cl[cl.len() - 1] == -lit);
            assert(before_add.lit_pool@ == ol);
            assert(self.conflict_clause_ind == ol.len());
            assert(self.lit_pool@[self.conflict_clause_ind as int] == cl[cl.len() - 1]);
            assert(self.decision_stack@ == before_add.decision_stack@);
            assert(self.vars@.len() == before_add.vars@.len());
            assert(before_add.values_after_pop(&o, self.decision_stack@.len() as int));
            assert forall|v: int| 0 <= v < o.vars@.len() implies (#[trigger] self.vars@[v]).value == if occurs_from(o.decision_stack@, self.decision_stack@.len() as int, v) {
                VA::Free
            } else {
                o.vars@[v].value
            } by {
                assert(self.vars@[v].value == before_add.vars@[v].value);
            }
            assert(self.vars@[var_of(lit)].value == before_add.vars@[var_of(lit)].value);
            assert(self.is_free(lit));
            assert(var_of(-lit as i32) == var_of(lit));
            assert(self.conflict_lit@ == cq.push((-lit) as i32));
            assert(self.tmp_conflict_lit@ == tq);
            assert forall|k: int| 0 <= k < cl.len() - 1 implies
                self.vars@[var_of(#[trigger] cl[k])].decision_level <= self.assertion_level by {
                assert(cl[k] == cq[k]);
                assert(lit_in_range(cq[k], self.n()));
                assert(self.vars@[var_of(cq[k])].decision_level == before_add.vars@[var_of(cq[k])].decision_level);
            }
            assert forall|k: int| 0 <= k < self.tmp_conflict_lit@.len() implies
                !self.vars@[var_of(#[trigger] self.tmp_conflict_lit@[k])].uip_mark by {
                assert(lit_in_range(tq[k], self.n()));
                assert(self.vars@[var_of(tq[k])].uip_mark == before_add.vars@[var_of(tq[k])].uip_mark);
            }
            assert(cl[cl.len() - 1] == -lit);
            assert(self.vars@[var_of(lit)].uip_mark == before_add.vars@[var_of(lit)].uip_mark);
            if self.assertion_level > 1 {
                assert(cl[0] == cq[0]);
                assert(lit_in_range(cq[0], self.n()));
                assert(self.vars@[var_of(cq[0])].decision_level == before_add.vars@[var_of(cq[0])].decision_level);
            }
            assert forall|k: int| 0 <= k < self.tmp_conflict_lit@.len() && !self.conflict_lit@.contains(
                #[trigger] self.tmp_conflict_lit@[k],
            ) implies o.reason_within(self.tmp_conflict_lit@[k], self.tmp_conflict_lit@, self.vars@) by {
                if cq.contains(tq[k]) {
                    let w = choose|w: int| 0 <= w < cq.len() && cq[w] == tq[k];
                    assert(self.conflict_lit@[w] == tq[k]);
                }
                assert(o.reason_within(tq[k], tq, mv));
                let x = o.vars@[var_of(tq[k])];
                let c = clause_from(o.source(x.ante), x.ante_ind as int);
                assert forall|j: int| 0 <= j < c.len() implies {
                    let v = var_of(#[trigger] c[j]);
                    &&& 0 <= v < self.vars@.len()
                    &&& in_vars(tq, v) || self.vars@[v].uip_mark
                } by {
                    let v = var_of(c[j]);
                    if mv[v].uip_mark && !in_vars(tq, v) {
                        assert(before_add.vars@[v].uip_mark);
                        assert(self.vars@[v].uip_mark == before_add.vars@[v].uip_mark);
                    }
                }
            }
        }
    }
}

/// Some literal of `ns` is over variable `v`.
pub open spec fn in_vars(ns: Seq<i32>, v: int) -> bool {
    exists|k: int| 0 <= k < ns.len() && var_of(#[trigger] ns[k]) == v
}

impl CnfManager {
    /// Every variable keeps the reason it has in `o`, and every implication
    /// list is as in `o`.
    pub open spec fn reasons_kept(&self, o: &CnfManager) -> bool {
        &&& self.vars@.len() == o.vars@.len()
        &&& forall|v: int| 0 <= v < o.vars@.len() ==> {
            let a = #[trigger] self.vars@[v];
            let b = o.vars@[v];
            a.ante == b.ante && a.ante_ind == b.ante_ind && a.bin_imp == b.bin_imp
        }
    }

    /// The variable of `t` has a reason, and every literal of that reason is
    /// over a variable of some literal of `kept` or over one that `vars`
    /// marks.
    pub open spec fn reason_within(&self, t: i32, kept: Seq<i32>, vars: Seq<Variable>) -> bool {
        let x = self.vars@[var_of(t)];
        let c = clause_from(self.source(x.ante), x.ante_ind as int);
        &&& !x.ante.is_null
        &&& forall|j: int| 0 <= j < c.len() ==> {
            let v = var_of(#[trigger] c[j]);
            &&& 0 <= v < vars.len()
            &&& in_vars(kept, v) || vars[v].uip_mark
        }
    }
}

/// Keeping reasons is transitive.
pub proof fn lemma_reasons_kept_trans(a: CnfManager, b: CnfManager, c: CnfManager)
    requires
        b.reasons_kept(&a),
        c.reasons_kept(&b),
    ensures
        c.reasons_kept(&a),
{
    assert forall|v: int| 0 <= v < a.vars@.len() implies {
        let x = #[trigger] c.vars@[v];
        let y = a.vars@[v];
        x.ante == y.ante && x.ante_ind == y.ante_ind && x.bin_imp == y.bin_imp
    } by {
        assert(b.vars@[v].ante == a.vars@[v].ante);
        assert(c.vars@[v].ante == b.vars@[v].ante);
    }
}

/// Literals over distinct variables drawn from `s` are at most `|s|` many.
pub proof fn lemma_distinct_vars_bound(ns: Seq<i32>, s: Set<int>)
    requires
        s.finite(),
        forall|k: int| 0 <= k < ns.len() ==> s.contains(var_of(#[trigger] ns[k])),
        forall|i: int, j: int| 0 <= i < j < ns.len() ==> var_of(ns[i]) != var_of(ns[j]),
    ensures
        ns.len() <= s.len(),
    decreases ns.len(),
{
    if ns.len() > 0 {
        let x = var_of(ns.last());
        let t = ns.drop_last();
        assert forall|k: int| 0 <= k < t.len() implies s.remove(x).contains(var_of(#[trigger] t[k])) by {
            assert(t[k] == ns[k]);
            assert(var_of(ns[k]) != var_of(ns[ns.len() - 1]));
        }
        lemma_distinct_vars_bound(t, s.remove(x));
        assert(s.contains(x));
    }
}

/// Writing the conflict slot of an implication list keeps it well formed.
pub proof fn lemma_bin_ok_slot0(l: Seq<i32>, v: int, s: int, n: int, x: i32)
    requires
        bin_ok(l, v, s, n),
        lit_in_range(x, n),
    ensures
        bin_ok(l.update(0, x), v, s, n),
{
    let u = l.update(0, x);
    assert forall|k: int| 0 <= k < u.len() implies lit_in_range(#[trigger] u[k], n) by {
        if k != 0 {
            assert(u[k] == l[k]);
        }
    }
}

/// The invariant survives a change of the pool that keeps its length, its
/// zeros and its literal range.
pub proof fn lemma_wf_pool_equiv(a: CnfManager, b: CnfManager)
    requires
        a.wf_core(),
        b.var_count == a.var_count,
        b.vars@ == a.vars@,
        b.var_position@ == a.var_position@,
        b.var_order@ == a.var_order@,
        b.next_var == a.next_var,
        b.lit_pool@.len() == a.lit_pool@.len(),
        forall|k: int| 0 <= k < a.lit_pool@.len() ==> (#[trigger] b.lit_pool@[k] == 0 <==> a.lit_pool@[k] == 0),
        forall|k: int| 0 <= k < b.lit_pool@.len() ==> lit_in_range(#[trigger] b.lit_pool@[k], b.n()),
        b.lit_pool_size_orig == a.lit_pool_size_orig,
        b.clauses@ == a.clauses@,
        b.next_clause == a.next_clause,
        b.decision_stack@ == a.decision_stack@,
        b.decision_level == a.decision_level,
    ensures
        b.wf_core(),
        a.positions_wf() ==> b.positions_wf(),
{
    assert forall|v: int| 0 <= v <= b.n() implies #[trigger] b.var_wf(v) by {
        assert(a.var_wf(v));
        let x = b.vars@[v];
        assert forall|t: int| 0 <= t < 2 implies watches_ok(#[trigger] x.watch@[t]@, b.lit_pool@) by {
            let w = x.watch@[t]@;
            assert(watches_ok(w, a.lit_pool@));
            assert forall|k: int| 0 <= k < w.len() implies {
                &&& #[trigger] w[k] + 2 < b.lit_pool@.len()
                &&& b.lit_pool@[w[k] as int] != 0
                &&& b.lit_pool@[w[k] + 1] != 0
            } by {
                assert(a.lit_pool@[w[k] as int] != 0);
                assert(a.lit_pool@[w[k] + 1] != 0);
            }
        }
        assert(watches_ok(x.watch@[0]@, b.lit_pool@));
        assert(watches_ok(x.watch@[1]@, b.lit_pool@));
    }
    let bp = b.lit_pool@;
    if bp.len() > 0 {
        assert(a.lit_pool@[bp.len() - 1] == 0);
    }
    if b.lit_pool_size_orig > 0 {
        assert(a.lit_pool@[b.lit_pool_size_orig - 1] == 0);
    }
}

/// Every literal the implication list of literal `l` holds (from its fourth
/// entry up to the first `0`) is true under `vars`.
pub open spec fn imps_true(vars: Seq<Variable>, l: i32) -> bool {
    let list = vars[var_of(l)].bin_imp@[sign_of(l).slot()]@;
    forall|j: int|
        3 <= j < list.len() && #[trigger] list[j] != 0 && (forall|t: int| 3 <= t < j ==> list[t] != 0) ==> vars[var_of(
            list[j],
        )].value == sign_of(list[j])
}

/// The implication lists of the negations of the first `done` literals of
/// `ns` hold only true literals.
pub open spec fn imps_done(vars: Seq<Variable>, ns: Seq<i32>, done: int) -> bool {
    forall|k: int| 0 <= k < done ==> imps_true(vars, (-#[trigger] ns[k]) as i32)
}

/// Every literal of the trail `st` at position `from` or beyond (past the
/// guard) has the literals its binary clauses force true under `vars` (see
/// [`imps_true`]).
pub open spec fn trail_closed(vars: Seq<Variable>, st: Seq<i32>, from: int) -> bool {
    forall|k: int| from <= k < st.len() && 1 <= k ==> imps_true(vars, (-#[trigger] st[k]) as i32)
}

/// [`imps_true`] for one literal survives a step that keeps the lists and
/// changes no assigned value.
pub proof fn lemma_imp_persist(a: Seq<Variable>, b: Seq<Variable>, l: i32, n: int)
    requires
        imps_true(a, l),
        1 <= var_of(l) <= n,
        a.len() == b.len(),
        a.len() == n + 1,
        forall|v: int| 1 <= v <= n ==> bin_ok((#[trigger] a[v]).bin_imp@[0]@, v, 0, n) && bin_ok(a[v].bin_imp@[1]@, v, 1, n),
        forall|v: int| 0 <= v < a.len() ==> (#[trigger] b[v]).bin_imp == a[v].bin_imp,
        forall|v: int| 0 <= v < a.len() && (#[trigger] a[v]).value != VA::Free ==> b[v].value == a[v].value,
    ensures
        imps_true(b, l),
{
    let v = var_of(l);
    let list = a[v].bin_imp@[sign_of(l).slot()]@;
    assert(b[v].bin_imp@[sign_of(l).slot()]@ == list);
    assert forall|j: int|
        3 <= j < list.len() && #[trigger] list[j] != 0 && (forall|t: int| 3 <= t < j ==> list[t] != 0) implies b[var_of(
            list[j],
        )].value == sign_of(list[j]) by {
        assert(lit_in_range(list[j], n));
        assert(a[var_of(list[j])].value == sign_of(list[j]));
    }
}

/// The implication lists stay satisfied when no value changes but to assign
/// an unassigned variable, and the lists stay as they were.
pub proof fn lemma_imps_frame(a: Seq<Variable>, b: Seq<Variable>, ns: Seq<i32>, done: int, n: int)
    requires
        imps_done(a, ns, done),
        a.len() == b.len(),
        a.len() == n + 1,
        forall|k: int| 0 <= k < done ==> #[trigger] ns[k] != 0 && ns[k] != i32::MIN && lit_in_range(ns[k], n),
        forall|v: int| 1 <= v <= n ==> bin_ok((#[trigger] a[v]).bin_imp@[0]@, v, 0, n) && bin_ok(a[v].bin_imp@[1]@, v, 1, n),
        forall|v: int| 0 <= v < a.len() ==> (#[trigger] b[v]).bin_imp == a[v].bin_imp,
        forall|v: int| 0 <= v < a.len() && (#[trigger] a[v]).value != VA::Free ==> b[v].value == a[v].value,
    ensures
        imps_done(b, ns, done),
{
    assert forall|k: int| 0 <= k < done implies imps_true(b, (-#[trigger] ns[k]) as i32) by {
        let l = (-ns[k]) as i32;
        let v = var_of(l);
        assert(1 <= v <= n);
        let list = a[v].bin_imp@[sign_of(l).slot()]@;
        assert(b[v].bin_imp@[sign_of(l).slot()]@ == list);
        assert(imps_true(a, l));
        assert forall|j: int|
            3 <= j < list.len() && #[trigger] list[j] != 0 && (forall|t: int| 3 <= t < j ==> list[t] != 0) implies b[var_of(
                list[j],
            )].value == sign_of(list[j]) by {
            assert(lit_in_range(list[j], n));
            assert(a[var_of(list[j])].value == sign_of(list[j]));
        }
    }
}

/// Extending `ns` keeps what is said of its first `done` entries.
pub proof fn lemma_imps_push(vars: Seq<Variable>, ns: Seq<i32>, done: int, x: i32)
    requires
        imps_done(vars, ns, done),
        done <= ns.len(),
    ensures
        imps_done(vars, ns.push(x), done),
{
    assert forall|k: int| 0 <= k < done implies imps_true(vars, (-#[trigger] ns.push(x)[k]) as i32) by {
        assert(ns.push(x)[k] == ns[k]);
    }
}

impl CnfManager {
    /// [`lemma_imps_frame`] for a well-formed state `self` and a successor
    /// `b` with the same implication lists and no assigned value changed.
    proof fn lemma_imps_step(&self, b: &CnfManager, ns: Seq<i32>, done: int)
        requires
            self.wf(),
            imps_done(self.vars@, ns, done),
            b.vars@.len() == self.vars@.len(),
            forall|k: int| 0 <= k < done ==> #[trigger] ns[k] != 0 && lit_in_range(ns[k], self.n()),
            forall|v: int| 0 <= v < self.vars@.len() ==> (#[trigger] b.vars@[v]).bin_imp == self.vars@[v].bin_imp,
            forall|v: int| 0 <= v < self.vars@.len() && (#[trigger] self.vars@[v]).value != VA::Free ==> b.vars@[v].value == self.vars@[v].value,
        ensures
            imps_done(b.vars@, ns, done),
    {
        assert forall|v: int| 1 <= v <= self.n() implies bin_ok((#[trigger] self.vars@[v]).bin_imp@[0]@, v, 0, self.n())
            && bin_ok(self.vars@[v].bin_imp@[1]@, v, 1, self.n()) by {
            assert(self.var_wf(v));
        }
        assert forall|k: int| 0 <= k < done implies #[trigger] ns[k] != 0 && ns[k] != i32::MIN && lit_in_range(ns[k], self.n()) by {
        }
        lemma_imps_frame(self.vars@, b.vars@, ns, done, self.n());
    }
}

/// Every literal of `ns` after the first has its variable assigned with a
/// reason.
pub open spec fn reasons_given(vars: Seq<Variable>, ns: Seq<i32>) -> bool {
    forall|k: int| 1 <= k < ns.len() ==> !vars[var_of(#[trigger] ns[k])].ante.is_null
}

impl CnfManager {
    /// Every variable keeps its activities from `o`, and one assigned with no
    /// reason, other than the variable of `lit`, was assigned so, with the
    /// same value, in `o`.
    pub open spec fn reasonless_kept(&self, o: &CnfManager, lit: i32) -> bool {
        &&& self.vars@.len() == o.vars@.len()
        &&& forall|v: int| 0 <= v <= o.n() ==> {
            &&& (#[trigger] self.vars@[v]).activity == o.vars@[v].activity
            &&& (self.vars@[v].value != VA::Free && self.vars@[v].ante.is_null && v != var_of(lit)) ==> (
            o.vars@[v].value == self.vars@[v].value && o.vars@[v].ante.is_null)
        }
    }

    /// The step state of `assert_literal` keeps the reasonless assignments of
    /// `o`, and `lit` is true.
    proof fn lemma_bcp_reasonless(&self, o: &CnfManager, ns: Seq<i32>, lit: i32, it: int)
        requires
            self.bcp_inv(o, ns, lit, it),
        ensures
            self.reasonless_kept(o, lit),
            self.is_true(lit),
    {
        assert(self.is_true(ns[0]));
        assert forall|v: int| 0 <= v <= o.n() implies {
            &&& (#[trigger] self.vars@[v]).activity == o.vars@[v].activity
            &&& (self.vars@[v].value != VA::Free && self.vars@[v].ante.is_null && v != var_of(lit)) ==> (
            o.vars@[v].value == self.vars@[v].value && o.vars@[v].ante.is_null)
        } by {
            if self.vars@[v].value != VA::Free && self.vars@[v].ante.is_null && v != var_of(lit) && in_vars(ns, v) {
                let k = choose|k: int| 0 <= k < ns.len() && var_of(#[trigger] ns[k]) == v;
                assert(k != 0);
                assert(!self.vars@[var_of(ns[k])].ante.is_null);
            }
        }
    }
}

/// Reasonless assignments are kept across a change that keeps every value,
/// reason and activity.
pub proof fn lemma_reasonless_frame(a: CnfManager, b: CnfManager, o: CnfManager, lit: i32)
    requires
        a.reasonless_kept(&o, lit),
        a.is_true(lit),
        b.vars@.len() == a.vars@.len(),
        a.vars@.len() == o.n() + 1,
        0 <= var_of(lit) < a.vars@.len(),
        forall|v: int| 0 <= v < a.vars@.len() ==> {
            &&& (#[trigger] b.vars@[v]).value == a.vars@[v].value
            &&& b.vars@[v].ante == a.vars@[v].ante
            &&& b.vars@[v].activity == a.vars@[v].activity
        },
    ensures
        b.reasonless_kept(&o, lit),
        b.is_true(lit),
{
    assert(b.vars@[var_of(lit)].value == a.vars@[var_of(lit)].value);
    assert forall|v: int| 0 <= v <= o.n() implies {
        &&& (#[trigger] b.vars@[v]).activity == o.vars@[v].activity
        &&& (b.vars@[v].value != VA::Free && b.vars@[v].ante.is_null && v != var_of(lit)) ==> (
        o.vars@[v].value == b.vars@[v].value && o.vars@[v].ante.is_null)
    } by {
        assert(a.vars@[v].activity == o.vars@[v].activity);
    }
}

impl CnfManager {
    /// The state of `assert_literal` between steps: the literals `ns`
    /// assigned so far (the first is `lit`, the others were unassigned in `o`)
    /// are true and over distinct variables, the first `it` of them are on the
    /// trail, and no other variable changed its value.
    pub open spec fn bcp_inv(&self, o: &CnfManager, ns: Seq<i32>, lit: i32, it: int) -> bool {
        &&& self.wf()
        &&& o.wf()
        &&& self.var_count == o.var_count
        &&& self.var_order@ == o.var_order@
        &&& self.var_position@ == o.var_position@
        &&& self.next_var == o.next_var
        &&& self.lit_pool_size_orig == o.lit_pool_size_orig
        &&& self.clauses@ == o.clauses@
        &&& self.next_clause == o.next_clause
        &&& self.assertion_level == o.assertion_level
        &&& self.decision_level == o.decision_level
        &&& self.decision_count == o.decision_count
        &&& self.conflict_count == o.conflict_count
        &&& self.restart_count == o.restart_count
        &&& self.conflict_lit@ == o.conflict_lit@
        &&& self.tmp_conflict_lit@ == o.tmp_conflict_lit@
        &&& self.conflict_clause_ind == o.conflict_clause_ind
        &&& self.lit_pool@.len() == o.lit_pool@.len()
        &&& same_clauses(self.lit_pool@, o.lit_pool@, o.lit_pool_size_orig as int)
        &&& o.conflict_count < i32::MAX
        &&& 1 <= ns.len() <= self.n()
        &&& ns[0] == lit
        &&& 0 <= it <= ns.len()
        &&& forall|k: int| 0 <= k < ns.len() ==> {
            &&& #[trigger] ns[k] != 0
            &&& lit_in_range(ns[k], self.n())
            &&& self.is_true(ns[k])
            &&& self.vars@[var_of(ns[k])].decision_level == o.decision_level
        }
        &&& forall|i: int, j: int| 0 <= i < j < ns.len() ==> var_of(ns[i]) != var_of(ns[j])
        &&& forall|k: int| 1 <= k < ns.len() ==> o.is_free(#[trigger] ns[k])
        &&& self.decision_stack@ == o.decision_stack@ + ns.subrange(0, it)
        &&& forall|v: int| 0 <= v <= self.n() && !in_vars(ns, v) ==> (#[trigger] self.vars@[v]).value == o.vars@[v].value
        &&& forall|v: int| 0 <= v <= self.n() && !in_vars(ns, v) ==> {
            &&& (#[trigger] self.vars@[v]).decision_level == o.vars@[v].decision_level
            &&& self.vars@[v].ante == o.vars@[v].ante
            &&& self.vars@[v].ante_ind == o.vars@[v].ante_ind
        }
        &&& forall|v: int| 0 <= v <= self.n() ==> (#[trigger] self.vars@[v]).uip_mark == o.vars@[v].uip_mark
        &&& forall|v: int| 0 <= v <= self.n() ==> {
            &&& (#[trigger] self.vars@[v]).activity == o.vars@[v].activity
            &&& self.vars@[v].phase == o.vars@[v].phase
            &&& self.vars@[v].bin_imp == o.vars@[v].bin_imp
        }
        &&& reasons_given(self.vars@, ns)
    }

    /// A literal list over distinct variables of `1..=n` is at most `n` long.
    proof fn lemma_ns_bound(&self, ns: Seq<i32>)
        requires
            self.wf_core(),
            forall|k: int| 0 <= k < ns.len() ==> #[trigger] ns[k] != 0 && lit_in_range(ns[k], self.n()),
            forall|i: int, j: int| 0 <= i < j < ns.len() ==> var_of(ns[i]) != var_of(ns[j]),
        ensures
            ns.len() <= self.n(),
    {
        let s = vstd::set_lib::set_int_range(1, self.n() + 1);
        vstd::set_lib::lemma_int_range(1, self.n() + 1);
        assert forall|k: int| 0 <= k < ns.len() implies s.contains(var_of(#[trigger] ns[k])) by {
            assert(ns[k] != 0);
        }
        lemma_distinct_vars_bound(ns, s);
    }

    /// Appending a newly assigned unassigned literal keeps the step state.
    proof fn lemma_bcp_push(&self, pre: &CnfManager, o: &CnfManager, ns: Seq<i32>, lit: i32, it: int, x: i32)
        requires
            pre.bcp_inv(o, ns, lit, it),
            pre.is_free(x),
            x != 0,
            lit_in_range(x, pre.n()),
            self.wf(),
            self.same_but_vars(pre),
            self.vars@.len() == pre.vars@.len(),
            self.var_set(pre, var_of(x), sign_of(x), self.vars@[var_of(x)].ante, self.vars@[var_of(x)].ante_ind, pre.decision_level),
            forall|v: int| 0 <= v < pre.vars@.len() && v != var_of(x) ==> self.vars@[v] == pre.vars@[v],
            !self.vars@[var_of(x)].ante.is_null,
        ensures
            self.bcp_inv(o, ns.push(x), lit, it),
    {
        let ns2 = ns.push(x);
        assert forall|k: int| 1 <= k < ns2.len() implies !self.vars@[var_of(#[trigger] ns2[k])].ante.is_null by {
            if k < ns.len() {
                assert(ns2[k] == ns[k]);
                assert(pre.is_true(ns[k]));
                assert(var_of(ns[k]) != var_of(x));
                assert(self.vars@[var_of(ns[k])] == pre.vars@[var_of(ns[k])]);
            }
        }
        assert forall|k: int| 0 <= k < ns.len() implies var_of(#[trigger] ns[k]) != var_of(x) by {
            assert(pre.is_true(ns[k]));
        }
        assert forall|i: int, j: int| 0 <= i < j < ns2.len() implies var_of(ns2[i]) != var_of(ns2[j]) by {
            if j == ns.len() {
                assert(ns2[i] == ns[i]);
                assert(var_of(ns[i]) != var_of(x));
            } else {
                assert(ns2[i] == ns[i] && ns2[j] == ns[j]);
            }
        }
        assert forall|k: int| 0 <= k < ns2.len() implies {
            &&& #[trigger] ns2[k] != 0
            &&& lit_in_range(ns2[k], self.n())
            &&& self.is_true(ns2[k])
            &&& self.vars@[var_of(ns2[k])].decision_level == o.decision_level
        } by {
            if k < ns.len() {
                assert(ns2[k] == ns[k]);
                assert(pre.is_true(ns[k]));
                assert(var_of(ns[k]) != var_of(x));
            }
        }
        assert forall|k: int| 1 <= k < ns2.len() implies o.is_free(#[trigger] ns2[k]) by {
            if k < ns.len() {
                assert(ns2[k] == ns[k]);
            } else {
                assert(!in_vars(ns, var_of(x))) by {
                    if in_vars(ns, var_of(x)) {
                        let k2 = choose|k2: int| 0 <= k2 < ns.len() && var_of(#[trigger] ns[k2]) == var_of(x);
                        assert(var_of(ns[k2]) != var_of(x));
                    }
                }
                assert(pre.vars@[var_of(x)].value == o.vars@[var_of(x)].value);
            }
        }
        assert forall|v: int| 0 <= v <= self.n() && !in_vars(ns2, v) implies (#[trigger] self.vars@[v]).value == o.vars@[v].value by {
            if in_vars(ns, v) {
                let k2 = choose|k2: int| 0 <= k2 < ns.len() && var_of(#[trigger] ns[k2]) == v;
                assert(ns2[k2] == ns[k2]);
            }
            if v == var_of(x) {
                assert(ns2[ns.len() as int] == x);
            }
        }
        assert forall|v: int| 0 <= v <= self.n() && !in_vars(ns2, v) implies {
            &&& (#[trigger] self.vars@[v]).decision_level == o.vars@[v].decision_level
            &&& self.vars@[v].ante == o.vars@[v].ante
            &&& self.vars@[v].ante_ind == o.vars@[v].ante_ind
        } by {
            if in_vars(ns, v) {
                let k2 = choose|k2: int| 0 <= k2 < ns.len() && var_of(#[trigger] ns[k2]) == v;
                assert(ns2[k2] == ns[k2]);
            }
            if v == var_of(x) {
                assert(ns2[ns.len() as int] == x);
            }
        }
        assert(ns2.subrange(0, it) =~= ns.subrange(0, it));
        self.lemma_ns_bound(ns2);
    }
}

impl CnfManager {
    /// The step state survives a change of the pool that keeps its length,
    /// its zeros and its literal range.
    proof fn lemma_bcp_pool(&self, pre: &CnfManager, o: &CnfManager, ns: Seq<i32>, lit: i32, it: int)
        requires
            pre.bcp_inv(o, ns, lit, it),
            self.same_but_vars_pool(pre),
            self.vars@ == pre.vars@,
            self.lit_pool@.len() == pre.lit_pool@.len(),
            forall|k: int| 0 <= k < pre.lit_pool@.len() ==> (#[trigger] self.lit_pool@[k] == 0 <==> pre.lit_pool@[k] == 0),
            forall|k: int| 0 <= k < self.lit_pool@.len() ==> lit_in_range(#[trigger] self.lit_pool@[k], self.n()),
            same_clauses(self.lit_pool@, o.lit_pool@, o.lit_pool_size_orig as int),
        ensures
            self.bcp_inv(o, ns, lit, it),
    {
        lemma_wf_pool_equiv(*pre, *self);
    }

    /// The step state survives a change of the watch lists that keeps them valid.
    proof fn lemma_bcp_watch(&self, pre: &CnfManager, o: &CnfManager, ns: Seq<i32>, lit: i32, it: int)
        requires
            pre.bcp_inv(o, ns, lit, it),
            self.same_but_vars(pre),
            self.vars@.len() == pre.vars@.len(),
            forall|v: int| 0 <= v < pre.vars@.len() ==> {
                let a = #[trigger] self.vars@[v];
                let b = pre.vars@[v];
                &&& a.value == b.value && a.phase == b.phase && a.uip_mark == b.uip_mark
                &&& a.decision_level == b.decision_level && a.ante == b.ante && a.ante_ind == b.ante_ind
                &&& a.activity == b.activity && a.bin_imp == b.bin_imp
                &&& a.watch@.len() == 2
                &&& watches_ok(a.watch@[0]@, self.lit_pool@)
                &&& watches_ok(a.watch@[1]@, self.lit_pool@)
            },
        ensures
            self.bcp_inv(o, ns, lit, it),
    {
        assert forall|v: int| 0 <= v <= self.n() implies #[trigger] self.var_wf(v) by {
            assert(pre.var_wf(v));
        }
        assert forall|k: int| 1 <= k < ns.len() implies !self.vars@[var_of(#[trigger] ns[k])].ante.is_null by {
            assert(lit_in_range(ns[k], self.n()));
            assert(self.vars@[var_of(ns[k])].ante == pre.vars@[var_of(ns[k])].ante);
        }
    }

    /// Assigns `lit` and propagates: every literal it makes false is pushed
    /// on the trail (in assignment order) and its binary implications and
    /// watched clauses are visited; a clause whose literals are all false but
    /// one unassigned forces that literal true, and a clause with a true or
    /// unassigned literal beyond its watches moves its watch there.
    ///
    /// Returns `false` on a conflict (a clause with every literal false):
    /// the rest of the assigned literals go on the trail, `conflict_count`
    /// grows by one and the conflict is analysed by
    /// [`CnfManager::learn_clause`]. Returns `true` when propagation ends
    /// without a conflict: then the trail has grown by the literals assigned
    /// here, `lit` first, the others unassigned before, all true, and no other
    /// variable changed its value. Every literal forced here is assigned with
    /// its clause as reason, so when propagation ends without a conflict, or
    /// at level 1 in any case, `lit` is true and the only variable that can
    /// have become assigned without a reason is that of `lit` (see
    /// [`CnfManager::reasonless_kept`]).
    #[verifier::rlimit(50)]
    pub fn assert_literal(&mut self, lit: i32, ante: ArrTuple, ante_ind: usize) -> (r: bool)
        requires
            old(self).wf(),
            lit != 0,
            lit_in_range(lit, old(self).n()),
            old(self).decision_level != 1 || old(self).vars@[var_of(lit)].uip_mark ==> old(self).ante_ok(ante, ante_ind),
            old(self).conflict_count < i32::MAX,
        ensures
            final(self).wf(),
            final(self).var_count == old(self).var_count,
            final(self).lit_pool_size_orig == old(self).lit_pool_size_orig,
            final(self).next_clause == old(self).next_clause,
            final(self).decision_level == old(self).decision_level,
            final(self).decision_count == old(self).decision_count,
            final(self).restart_count == old(self).restart_count,
            final(self).lit_pool@.len() >= old(self).lit_pool@.len(),
            final(self).propagation_outcome(&*old(self), lit, r, old(self).decision_level),
            old(self).decision_level == 1 ==> forall|v: int| 0 <= v <= old(self).n() ==>
                (#[trigger] final(self).vars@[v]).uip_mark == old(self).vars@[v].uip_mark,
            r || old(self).decision_level == 1 ==> final(self).is_true(lit) && final(self).reasonless_kept(&*old(self), lit),
    {
        let ghost o = *self;
        let mut new_stack: Vec<i32> = Vec::new();
        let mut it: usize = 0;
        new_stack.push(lit);
        self.set_literal(lit, ante, ante_ind);
        proof {
            assert(new_stack@ =~= seq![lit]);
            assert(self.decision_stack@ =~= o.decision_stack@ + new_stack@.subrange(0, 0));
            assert forall|v: int| 0 <= v <= self.n() && !in_vars(new_stack@, v) implies (#[trigger] self.vars@[v]).value == o.vars@[v].value by {
                if v == var_of(lit) {
                    assert(var_of(new_stack@[0]) == v);
                }
            }
            assert forall|v: int| 0 <= v <= self.n() && !in_vars(new_stack@, v) implies {
                &&& (#[trigger] self.vars@[v]).decision_level == o.vars@[v].decision_level
                &&& self.vars@[v].ante == o.vars@[v].ante
                &&& self.vars@[v].ante_ind == o.vars@[v].ante_ind
            } by {
                if v == var_of(lit) {
                    assert(var_of(new_stack@[0]) == v);
                }
            }
            assert(1 <= self.n());
            lemma_same_clauses_refl(o.lit_pool@, o.lit_pool_size_orig as int);
            assert(self.bcp_inv(&o, new_stack@, lit, 0));
        }
        let ghost nn = self.n();
        while it < new_stack.len()
            invariant
                self.bcp_inv(&o, new_stack@, lit, it as int),
                nn == self.n(),
                o == *old(self),
                imps_done(self.vars@, new_stack@, it as int),
            decreases nn + 1 - it,
        {
            let l = neg(&new_stack[it]);
            proof {
                assert(new_stack@[it as int] != 0);
                assert(self.is_true(new_stack@[it as int]));
                assert(self.is_false(l));
            }
            let ghost pre_push = *self;
            it += 1;
            self.decision_stack.push(-l);
            proof {
                assert(new_stack@.subrange(0, it as int) =~= new_stack@.subrange(0, it - 1).push(-l as i32));
                lemma_stack_push(pre_push, *self, (-l) as i32);
                lemma_wf_frame(pre_push, *self);
                assert(self.bcp_inv(&o, new_stack@, lit, it as int));
            }
            let lv = to_var(&l);
            let ls = sign(&l).index();
            let ghost it0 = it;
            proof {
                assert(self.var_wf(lv as int));
            }
            let mut imp_ind: usize = 3;
            let ghost list0 = self.vars@[lv as int].bin_imp@[ls as int]@;
            proof {
                assert(l == (-new_stack@[it - 1]) as i32);
            }
            while imp_ind < self.vars[lv].bin_imp[ls].len()
                invariant
                    self.bcp_inv(&o, new_stack@, lit, it as int),
                    1 <= lv <= self.n(),
                    ls < 2,
                    l != 0,
                    lv == var_of(l),
                    ls == sign_of(l).slot(),
                    self.is_false(l),
                    it >= 1,
                    it == it0,
                    o == *old(self),
                    l == (-new_stack@[it - 1]) as i32,
                    imps_done(self.vars@, new_stack@, it - 1),
                    self.vars@[lv as int].bin_imp@[ls as int]@ == list0,
                    3 <= imp_ind,
                    forall|j: int| 3 <= j < imp_ind ==> #[trigger] list0[j] != 0 && self.vars@[var_of(list0[j])].value == sign_of(list0[j]),
                ensures
                    self.bcp_inv(&o, new_stack@, lit, it as int),
                    it == it0,
                    o == *old(self),
                    l == (-new_stack@[it - 1]) as i32,
                    imps_done(self.vars@, new_stack@, it - 1),
                    self.vars@[lv as int].bin_imp@[ls as int]@ == list0,
                    3 <= imp_ind,
                    imp_ind >= list0.len() || list0[imp_ind as int] == 0,
                    forall|j: int| 3 <= j < imp_ind ==> #[trigger] list0[j] != 0 && self.vars@[var_of(list0[j])].value == sign_of(list0[j]),
                decreases self.vars@[lv as int].bin_imp@[ls as int]@.len() - imp_ind,
            {
                proof {
                    assert(self.var_wf(lv as int));
                }
                let imp_lit = self.vars[lv].bin_imp[ls][imp_ind];
                proof {
                    assert(lit_in_range(self.vars@[lv as int].bin_imp@[ls as int]@[imp_ind as int], self.n()));
                }
                if self.free(&imp_lit) {
                    if imp_lit == 0 {
                        break;
                    }
                    let ghost pre = *self;
                    let ghost ns = new_stack@;
                    new_stack.push(imp_lit);
                    self.set_literal(imp_lit, ArrTuple::ctor2(lv, ls), 1);
                    proof {
                        self.lemma_bcp_push(&pre, &o, ns, lit, it as int, imp_lit);
                        assert(var_of(imp_lit) != lv);
                        assert forall|v: int| 1 <= v <= self.n() implies bin_ok((#[trigger] pre.vars@[v]).bin_imp@[0]@, v, 0, self.n())
                            && bin_ok(pre.vars@[v].bin_imp@[1]@, v, 1, self.n()) by {
                            assert(pre.var_wf(v));
                        }
                        assert forall|k2: int| 0 <= k2 < it - 1 implies #[trigger] ns[k2] != 0 && ns[k2] != i32::MIN && lit_in_range(ns[k2], self.n()) by {
                        }
                        lemma_imps_frame(pre.vars@, self.vars@, ns, it - 1, self.n());
                        lemma_imps_push(self.vars@, ns, it - 1, imp_lit);
                        assert(new_stack@[it - 1] == ns[it - 1]);
                        assert forall|j: int| 3 <= j < imp_ind + 1 implies #[trigger] list0[j] != 0 && self.vars@[var_of(list0[j])].value == sign_of(list0[j]) by {
                            if j < imp_ind {
                                assert(lit_in_range(list0[j], self.n()));
                                assert(pre.vars@[var_of(list0[j])].value == sign_of(list0[j]));
                            }
                        }
                    }
                } else if self.bad(&imp_lit) {
                    proof {
                        self.lemma_bcp_reasonless(&o, new_stack@, lit, it as int);
                    }
                    let ghost pre_c0 = *self;
                    self.conflict_count += 1;
                    let ghost pre_c = *self;
                    proof {
                        lemma_wf_frame(pre_c0, *self);
                    }
                    while it < new_stack.len()
                        invariant
                            self.wf(),
                            it <= new_stack@.len(),
                            forall|k: int| 0 <= k < new_stack@.len() ==> #[trigger] new_stack@[k] != 0 && lit_in_range(new_stack@[k], self.n()),
                            self.var_count == o.var_count,
                            self.vars@ == pre_c.vars@,
                            self.lit_pool@ == pre_c.lit_pool@,
                            self.lit_pool_size_orig == o.lit_pool_size_orig,
                            self.next_clause == o.next_clause,
                            self.clauses@ == o.clauses@,
                            self.decision_level == o.decision_level,
                            self.decision_count == o.decision_count,
                            self.conflict_count == o.conflict_count + 1,
                            self.restart_count == o.restart_count,
                            self.var_order@ == o.var_order@,
                            self.var_position@ == o.var_position@,
                            self.next_var == o.next_var,
                            1 <= lv <= self.n(),
                            ls < 2,
                            lit_in_range(imp_lit, self.n()),
                            o == *old(self),
                        decreases new_stack@.len() - it,
                    {
                        let ghost pre_f = *self;
                        let x = new_stack[it];
                        self.decision_stack.push(x);
                        proof {
                            assert(x != 0 && lit_in_range(x, self.n()));
                            lemma_stack_push(pre_f, *self, x);
                            lemma_wf_frame(pre_f, *self);
                            assert(self.stack_wf());
                        }
                        it += 1;
                    }
                    let ghost pre_s = *self;
                    proof {
                        assert(self.var_wf(lv as int));
                        lemma_bin_ok_slot0(self.vars@[lv as int].bin_imp@[ls as int]@, lv as int, ls as int, self.n(), imp_lit);
                    }
                    self.vars[lv].bin_imp[ls][0] = imp_lit;
                    proof {
                        assert(self.vars@[lv as int].bin_imp@[ls as int]@ == pre_s.vars@[lv as int].bin_imp@[ls as int]@.update(0, imp_lit));
                        assert forall|v: int| 0 <= v <= self.n() implies #[trigger] self.var_wf(v) by {
                            assert(pre_s.var_wf(v));
                            if v == lv {
                                assert(self.vars@[v].bin_imp@[ls as int]@ == pre_s.vars@[v].bin_imp@[ls as int]@.update(0, imp_lit));
                                assert(self.vars@[v].bin_imp@[1 - ls as int] == pre_s.vars@[v].bin_imp@[1 - ls as int]);
                            }
                        }
                        assert(self.source_ok(ArrTuple { is_null: false, is_lit_pool: false, var_index: lv, positive: ls }, 0));
                    }
                    let ghost pre_l = *self;
                    self.learn_clause(ArrTuple::ctor2(lv, ls), 0);
                    proof {
                        assert(pre_l.lit_pool@ == pre_c0.lit_pool@);
                            lemma_same_clauses_refl(pre_l.lit_pool@, o.lit_pool_size_orig as int);
                            if self.lit_pool@ != pre_l.lit_pool@ {
                                let extra = learned_clause(self.conflict_lit@) + seq![0i32];
                                lemma_same_clauses_append(pre_l.lit_pool@, pre_l.lit_pool@, o.lit_pool_size_orig as int, extra);
                                assert(self.lit_pool@ =~= pre_l.lit_pool@ + extra);
                            }
                            lemma_same_clauses_trans(self.lit_pool@, pre_l.lit_pool@, o.lit_pool@, o.lit_pool_size_orig as int);
                        if o.decision_level == 1 {
                            let ns = new_stack@;
                            assert forall|v: int| 0 <= v < pre_c0.vars@.len() implies {
                                &&& (#[trigger] self.vars@[v]).value == pre_c0.vars@[v].value
                                &&& self.vars@[v].ante == pre_c0.vars@[v].ante
                                &&& self.vars@[v].activity == pre_c0.vars@[v].activity
                            } by {
                                assert(self.vars@[v] == pre_l.vars@[v]);
                                assert(pre_s.vars@[v] == pre_c0.vars@[v]);
                            }
                            lemma_reasonless_frame(pre_c0, *self, o, lit);
                            assert forall|v: int|
                                0 <= v <= o.n() && (#[trigger] o.vars@[v]).value != VA::Free && v != var_of(lit) implies self.vars@[v].value
                                    == o.vars@[v].value by {
                                assert(self.vars@[v] == pre_l.vars@[v]);
                                assert(pre_l.vars@[v].value == pre_s.vars@[v].value);
                                assert(pre_s.vars@[v] == pre_c0.vars@[v]);
                                if in_vars(ns, v) {
                                    let k = choose|k: int| 0 <= k < ns.len() && var_of(#[trigger] ns[k]) == v;
                                    if k >= 1 {
                                        assert(o.is_free(ns[k]));
                                    }
                                }
                            }
                        }
                        assert(pre_s.var_count == o.var_count);
                        assert(self.var_count == o.var_count);
                        assert(self.lit_pool_size_orig == o.lit_pool_size_orig);
                        if self.assertion_level != -1 && o.decision_level != 1 {
                            lemma_learned_clause(self.conflict_lit@);
                        }
                    }
                    return false;
                } else {
                    proof {
                        assert(self.var_wf(0));
                        assert(imp_lit != 0);
                        lemma_neg_var_sign(imp_lit);
                        assert(self.is_true(imp_lit));
                    }
                }
                imp_ind += 1;
            }
            proof {
                assert(imps_true(self.vars@, l)) by {
                    assert forall|j: int|
                        3 <= j < list0.len() && #[trigger] list0[j] != 0 && (forall|t: int| 3 <= t < j ==> list0[t] != 0) implies self.vars@[var_of(
                            list0[j],
                        )].value == sign_of(list0[j]) by {
                        if j >= imp_ind {
                            assert(list0[imp_ind as int] != 0);
                        }
                    }
                }
                assert forall|k2: int| 0 <= k2 < it implies imps_true(self.vars@, (-#[trigger] new_stack@[k2]) as i32) by {
                    if k2 < it - 1 {
                    }
                }
            }
            let mut k: usize = 0;
            while k < self.vars[lv].watch[ls].len()
                invariant
                    imps_done(self.vars@, new_stack@, it as int),
                    self.bcp_inv(&o, new_stack@, lit, it as int),
                    1 <= lv <= self.n(),
                    ls < 2,
                    l != 0,
                    lv == var_of(l),
                    ls == sign_of(l).slot(),
                    self.is_false(l),
                    it >= 1,
                    it == it0,
                    o == *old(self),
                decreases self.vars@[lv as int].watch@[ls as int]@.len() - k,
            {
                proof {
                    assert(self.var_wf(lv as int));
                    assert(watches_ok(self.vars@[lv as int].watch@[ls as int]@, self.lit_pool@));
                }
                let first = self.vars[lv].watch[ls][k];
                let plen = self.lit_pool.len();
                proof {
                    let w = self.vars@[lv as int].watch@[ls as int]@;
                    assert(w[k as int] == first);
                    assert(first + 2 < self.lit_pool@.len());
                    assert(self.lit_pool@[first as int] != 0 && self.lit_pool@[first + 1] != 0);
                }
                let watch;
                let other_watch;
                if self.lit_pool[first] == l {
                    watch = first;
                    other_watch = first + 1;
                } else {
                    watch = first + 1;
                    other_watch = first;
                }
                proof {
                    assert(lit_in_range(self.lit_pool@[other_watch as int], self.n()));
                    assert(lit_in_range(self.lit_pool@[watch as int], self.n()));
                }
                if self.good(&self.lit_pool[other_watch]) {
                    k += 1;
                    continue;
                }
                let ghost pool = self.lit_pool@;
                proof {
                    lemma_first_zero_exists(pool, first + 2);
                }
                let ghost z = choose|q: int| #[trigger] first_zero(pool, first + 2, q);
                let mut p = first + 2;
                loop
                    invariant
                        self.bcp_inv(&o, new_stack@, lit, it as int),
                        it == it0,
                        o == *old(self),
                        pool == self.lit_pool@,
                        plen == pool.len(),
                        first_zero(pool, first + 2, z),
                        first + 2 <= p <= z,
                        pool[first as int] != 0 && pool[first + 1] != 0,
                    ensures
                        self.bcp_inv(&o, new_stack@, lit, it as int),
                        it == it0,
                        o == *old(self),
                        pool == self.lit_pool@,
                        first + 2 <= p <= z,
                        !self.is_false(pool[p as int]),
                        first_zero(pool, first + 2, z),
                        pool[first as int] != 0 && pool[first + 1] != 0,
                    decreases z - p,
                {
                    proof {
                        assert(lit_in_range(pool[p as int], self.n()));
                        assert(self.var_wf(0));
                    }
                    if !self.bad(&self.lit_pool[p]) {
                        break;
                    }
                    proof {
                        assert(pool[p as int] != 0);
                        assert(p < z);
                    }
                    p += 1;
                }
                proof {
                    assert(lit_in_range(pool[p as int], self.n()));
                }
                if self.lit_pool[p] != 0 {
                    let plit = self.lit_pool[p];
                    let ghost pre = *self;
                    proof {
                        assert(!self.is_false(plit));
                        assert(plit != l);
                    }
                    self.push_watch(plit, first);
                    proof {
                        assert(self.vars@[lv as int].watch@[ls as int]@ == pre.vars@[lv as int].watch@[ls as int]@);
                        assert forall|v: int| 0 <= v < pre.vars@.len() implies {
                            let a = #[trigger] self.vars@[v];
                            &&& a.watch@.len() == 2
                            &&& watches_ok(a.watch@[0]@, self.lit_pool@)
                            &&& watches_ok(a.watch@[1]@, self.lit_pool@)
                        } by {
                            assert(pre.var_wf(v));
                            assert forall|t: int| 0 <= t < 2 implies watches_ok(#[trigger] self.vars@[v].watch@[t]@, self.lit_pool@) by {
                                let e: Seq<usize> = if lit_at(plit, v, t) { seq![first] } else { Seq::empty() };
                                assert forall|j: int| 0 <= j < e.len() implies {
                                    &&& #[trigger] e[j] + 2 < self.lit_pool@.len()
                                    &&& self.lit_pool@[e[j] as int] != 0
                                    &&& self.lit_pool@[e[j] + 1] != 0
                                } by {}
                                lemma_watches_append(pre.vars@[v].watch@[t]@, e, self.lit_pool@);
                            }
                        }
                        self.lemma_bcp_watch(&pre, &o, new_stack@, lit, it as int);
                        pre.lemma_imps_step(&*self, new_stack@, it as int);
                    }
                    let ghost pre2 = *self;
                    let ghost wl = self.vars@[lv as int].watch@[ls as int]@;
                    let last_i = self.vars[lv].watch[ls].len() - 1;
                    let last = self.vars[lv].watch[ls][last_i];
                    self.vars[lv].watch[ls][k] = last;
                    let _ = self.vars[lv].watch[ls].pop();
                    proof {
                        let nw = self.vars@[lv as int].watch@[ls as int]@;
                        assert(nw =~= wl.update(k as int, last).subrange(0, wl.len() - 1));
                        assert(pre2.var_wf(lv as int));
                        assert forall|j: int| 0 <= j < nw.len() implies {
                            &&& #[trigger] nw[j] + 2 < self.lit_pool@.len()
                            &&& self.lit_pool@[nw[j] as int] != 0
                            &&& self.lit_pool@[nw[j] + 1] != 0
                        } by {
                            if j == k {
                                assert(nw[j] == wl[last_i as int]);
                            } else {
                                assert(nw[j] == wl[j]);
                            }
                        }
                        assert forall|v: int| 0 <= v < pre2.vars@.len() implies {
                            let a = #[trigger] self.vars@[v];
                            &&& a.watch@.len() == 2
                            &&& watches_ok(a.watch@[0]@, self.lit_pool@)
                            &&& watches_ok(a.watch@[1]@, self.lit_pool@)
                        } by {
                            assert(pre2.var_wf(v));
                            if v == lv {
                                assert(self.vars@[v].watch@[1 - ls as int] == pre2.vars@[v].watch@[1 - ls as int]);
                            }
                        }
                        self.lemma_bcp_watch(&pre2, &o, new_stack@, lit, it as int);
                        pre2.lemma_imps_step(&*self, new_stack@, it as int);
                    }
                    let ghost pre3 = *self;
                    let x = self.lit_pool[watch];
                    let y = self.lit_pool[p];
                    self.lit_pool[watch] = y;
                    self.lit_pool[p] = x;
                    proof {
                        assert(pre3.lit_pool@ == pool);
                        assert(p < z);
                        assert forall|t: int| watch <= t <= p implies #[trigger] pre3.lit_pool@[t] != 0 by {
                            if first + 2 <= t < z {
                                assert(pool[t] != 0);
                            }
                        }
                        lemma_same_clauses_swap(pre3.lit_pool@, o.lit_pool@, o.lit_pool_size_orig as int, watch as int, p as int);
                        assert(self.lit_pool@ =~= pre3.lit_pool@.update(watch as int, pre3.lit_pool@[p as int]).update(p as int, pre3.lit_pool@[watch as int]));
                        assert(x != 0 && y != 0);
                        assert(lit_in_range(x, self.n()) && lit_in_range(y, self.n()));
                        assert forall|j: int| 0 <= j < pre3.lit_pool@.len() implies (#[trigger] self.lit_pool@[j] == 0 <==> pre3.lit_pool@[j] == 0) by {}
                        assert forall|j: int| 0 <= j < self.lit_pool@.len() implies lit_in_range(#[trigger] self.lit_pool@[j], self.n()) by {
                            assert(lit_in_range(pre3.lit_pool@[j], self.n()));
                        }
                        self.lemma_bcp_pool(&pre3, &o, new_stack@, lit, it as int);
                        assert(self.vars@[lv as int].watch@[ls as int]@.len() < wl.len());
                    }
                } else {
                    let olit = self.lit_pool[other_watch];
                    proof {
                        assert(olit != 0);
                    }
                    if self.free(&olit) {
                        let ghost pre = *self;
                        let ghost ns = new_stack@;
                        new_stack.push(olit);
                        self.set_literal(olit, ArrTuple::ctor(true), first + 1);
                        proof {
                            self.lemma_bcp_push(&pre, &o, ns, lit, it as int, olit);
                            assert(var_of(olit) != lv);
                            pre.lemma_imps_step(&*self, ns, it as int);
                            lemma_imps_push(self.vars@, ns, it as int, olit);
                        }
                        if other_watch != first {
                            let ghost pre3 = *self;
                            let x = self.lit_pool[other_watch];
                            let y = self.lit_pool[first];
                            self.lit_pool[other_watch] = y;
                            self.lit_pool[first] = x;
                            proof {
                                assert(pre3.lit_pool@ == pool);
                                assert(other_watch == first + 1);
                                assert forall|t: int| first <= t <= first + 1 implies #[trigger] pre3.lit_pool@[t] != 0 by {
                                }
                                lemma_same_clauses_swap(pre3.lit_pool@, o.lit_pool@, o.lit_pool_size_orig as int, first as int, first + 1);
                                assert(self.lit_pool@ =~= pre3.lit_pool@.update(first as int, pre3.lit_pool@[first + 1]).update(first + 1, pre3.lit_pool@[first as int]));
                                assert(x != 0 && y != 0);
                                assert(lit_in_range(x, self.n()) && lit_in_range(y, self.n()));
                                assert forall|j: int| 0 <= j < pre3.lit_pool@.len() implies (#[trigger] self.lit_pool@[j] == 0 <==> pre3.lit_pool@[j] == 0) by {}
                                assert forall|j: int| 0 <= j < self.lit_pool@.len() implies lit_in_range(#[trigger] self.lit_pool@[j], self.n()) by {
                                    assert(lit_in_range(pre3.lit_pool@[j], self.n()));
                                }
                                self.lemma_bcp_pool(&pre3, &o, new_stack@, lit, it as int);
                            }
                        }
                    } else if self.bad(&olit) {
                        proof {
                            self.lemma_bcp_reasonless(&o, new_stack@, lit, it as int);
                        }
                        let ghost pre_c0 = *self;
                        self.conflict_count += 1;
                        let ghost pre_c = *self;
                        proof {
                            lemma_wf_frame(pre_c0, *self);
                        }
                        while it < new_stack.len()
                            invariant
                                self.wf(),
                                it <= new_stack@.len(),
                                forall|k: int| 0 <= k < new_stack@.len() ==> #[trigger] new_stack@[k] != 0 && lit_in_range(new_stack@[k], self.n()),
                                self.var_count == o.var_count,
                                self.vars@ == pre_c.vars@,
                                self.lit_pool@ == pre_c.lit_pool@,
                                self.lit_pool@.len() == o.lit_pool@.len(),
                                self.lit_pool_size_orig == o.lit_pool_size_orig,
                                self.next_clause == o.next_clause,
                                self.clauses@ == o.clauses@,
                                self.decision_level == o.decision_level,
                                self.decision_count == o.decision_count,
                                self.conflict_count == o.conflict_count + 1,
                                self.restart_count == o.restart_count,
                                self.var_order@ == o.var_order@,
                                self.var_position@ == o.var_position@,
                                self.next_var == o.next_var,
                                first < self.lit_pool@.len(),
                                o == *old(self),
                            decreases new_stack@.len() - it,
                        {
                            let ghost pre_f = *self;
                            let x = new_stack[it];
                            self.decision_stack.push(x);
                            proof {
                                assert(x != 0 && lit_in_range(x, self.n()));
                                lemma_stack_push(pre_f, *self, x);
                                lemma_wf_frame(pre_f, *self);
                                assert(self.stack_wf());
                            }
                            it += 1;
                        }
                        let ghost pre_l = *self;
                        self.learn_clause(ArrTuple::ctor(true), first);
                        proof {
                            assert(pre_l.lit_pool@ == pre_c0.lit_pool@);
                            lemma_same_clauses_refl(pre_l.lit_pool@, o.lit_pool_size_orig as int);
                            if self.lit_pool@ != pre_l.lit_pool@ {
                                let extra = learned_clause(self.conflict_lit@) + seq![0i32];
                                lemma_same_clauses_append(pre_l.lit_pool@, pre_l.lit_pool@, o.lit_pool_size_orig as int, extra);
                                assert(self.lit_pool@ =~= pre_l.lit_pool@ + extra);
                            }
                            lemma_same_clauses_trans(self.lit_pool@, pre_l.lit_pool@, o.lit_pool@, o.lit_pool_size_orig as int);
                            if o.decision_level == 1 {
                                let ns = new_stack@;
                                assert forall|v: int| 0 <= v < pre_c0.vars@.len() implies {
                                    &&& (#[trigger] self.vars@[v]).value == pre_c0.vars@[v].value
                                    &&& self.vars@[v].ante == pre_c0.vars@[v].ante
                                    &&& self.vars@[v].activity == pre_c0.vars@[v].activity
                                } by {
                                    assert(self.vars@[v] == pre_l.vars@[v]);
                                    assert(pre_l.vars@[v] == pre_c0.vars@[v]);
                                }
                                lemma_reasonless_frame(pre_c0, *self, o, lit);
                                assert forall|v: int|
                                    0 <= v <= o.n() && (#[trigger] o.vars@[v]).value != VA::Free && v != var_of(lit) implies self.vars@[v].value
                                        == o.vars@[v].value by {
                                    assert(self.vars@[v] == pre_l.vars@[v]);
                                    assert(pre_l.vars@[v] == pre_c0.vars@[v]);
                                    if in_vars(ns, v) {
                                        let k = choose|k: int| 0 <= k < ns.len() && var_of(#[trigger] ns[k]) == v;
                                        if k >= 1 {
                                            assert(o.is_free(ns[k]));
                                        }
                                    }
                                }
                            }
                            assert(self.var_count == o.var_count);
                            if self.assertion_level != -1 && o.decision_level != 1 {
                                lemma_learned_clause(self.conflict_lit@);
                            }
                        }
                        return false;
                    }
                    k += 1;
                }
            }
        }
        proof {
            assert(new_stack@.subrange(0, it as int) =~= new_stack@);
            let ns = new_stack@;
            assert forall|k: int| 0 <= k < ns.len() implies #[trigger] ns[k] != 0 && self.is_true(ns[k]) by {}
            self.lemma_bcp_reasonless(&o, ns, lit, it as int);
        }
        true
    }
}

impl CnfManager {
    /// What `assert_literal` of `lit` at decision level `level` from state
    /// `o` leaves behind, returning `r`. With `r`, the trail of `o` has grown
    /// by the literals assigned, `lit` first, all true at the current level
    /// and all but `lit` unassigned in `o`, no other variable has changed its
    /// value, level or reason, and every literal that a binary clause forces
    /// once one of them is true (see [`imps_done`]) is true. Without `r`, a
    /// conflict was counted and analysed (see [`CnfManager::learn_clause`]);
    /// at level 1 no value assigned before changed but that of `lit`'s
    /// variable; above it, the analysis either learned a clause, or emptied
    /// the trail (`assertion_level` -1), or met a clause whose activities
    /// could not be raised (`assertion_level` -2).
    pub open spec fn propagation_outcome(&self, o: &CnfManager, lit: i32, r: bool, level: i32) -> bool {
        &&& same_clauses(self.lit_pool@, o.lit_pool@, o.lit_pool_size_orig as int)
        &&& r ==> {
            &&& self.conflict_count == o.conflict_count
            &&& self.clauses@ == o.clauses@
            &&& self.assertion_level == o.assertion_level
            &&& self.var_order@ == o.var_order@
            &&& self.var_position@ == o.var_position@
            &&& self.next_var == o.next_var
            &&& self.lit_pool@.len() == o.lit_pool@.len()
            &&& forall|v: int| 0 <= v <= o.n() ==> {
                &&& (#[trigger] self.vars@[v]).activity == o.vars@[v].activity
                &&& self.vars@[v].phase == o.vars@[v].phase
                &&& self.vars@[v].bin_imp == o.vars@[v].bin_imp
            }
            &&& exists|ns: Seq<i32>| {
                &&& 1 <= ns.len()
                &&& ns[0] == lit
                &&& self.decision_stack@ == o.decision_stack@ + ns
                &&& forall|k: int| 0 <= k < ns.len() ==> #[trigger] ns[k] != 0 && self.is_true(ns[k])
                    && self.vars@[var_of(ns[k])].decision_level == self.decision_level
                &&& forall|k: int| 1 <= k < ns.len() ==> o.is_free(#[trigger] ns[k])
                &&& forall|i: int, j: int| 0 <= i < j < ns.len() ==> var_of(ns[i]) != var_of(ns[j])
                &&& forall|v: int| 0 <= v <= o.n() && !in_vars(ns, v) ==>
                    (#[trigger] self.vars@[v]).value == o.vars@[v].value
                &&& forall|v: int| 0 <= v <= o.n() && !in_vars(ns, v) ==> {
                    &&& (#[trigger] self.vars@[v]).decision_level == o.vars@[v].decision_level
                    &&& self.vars@[v].ante == o.vars@[v].ante
                    &&& self.vars@[v].ante_ind == o.vars@[v].ante_ind
                }
                &&& imps_done(self.vars@, ns, ns.len() as int)
            }
        }
        &&& !r ==> {
            &&& self.conflict_count == o.conflict_count + 1
            &&& self.clauses@.len() >= o.clauses@.len()
            &&& level == 1 ==> forall|v: int|
                0 <= v <= o.n() && (#[trigger] o.vars@[v]).value != VA::Free && v != var_of(lit) ==> self.vars@[v].value
                    == o.vars@[v].value
            &&& level == 1 ==> self.assertion_level == 0
            &&& level == 1 ==> self.var_order@ == o.var_order@ && self.var_position@ == o.var_position@
                && self.next_var == o.next_var && self.clauses@ == o.clauses@
            &&& level != 1 ==> {
                ||| self.assertion_level == -1 && self.decision_stack@.len() == 1
                ||| self.assertion_level == -2 && self.some_clause_overflows()
                ||| {
                    &&& 1 <= self.assertion_level
                    &&& level >= 2 ==> self.assertion_level < level
                    &&& self.conflict_clause_ind + 1 < self.lit_pool@.len()
                    &&& self.lit_pool@[self.conflict_clause_ind as int] != 0
                    &&& self.is_free(self.lit_pool@[self.conflict_clause_ind as int])
                }
            }
        }
    }
}

impl CnfManager {
    /// Opens a new decision level and asserts `lit` there, with no reason.
    pub fn decide(&mut self, lit: i32) -> (r: bool)
        requires
            old(self).wf(),
            lit != 0,
            lit_in_range(lit, old(self).n()),
            old(self).conflict_count < i32::MAX,
            old(self).decision_count < i32::MAX,
            old(self).decision_level < i32::MAX,
        ensures
            final(self).wf(),
            final(self).var_count == old(self).var_count,
            final(self).lit_pool_size_orig == old(self).lit_pool_size_orig,
            final(self).next_clause == old(self).next_clause,
            final(self).decision_level == old(self).decision_level + 1,
            final(self).decision_count == old(self).decision_count + 1,
            final(self).restart_count == old(self).restart_count,
            final(self).lit_pool@.len() >= old(self).lit_pool@.len(),
            final(self).propagation_outcome(&*old(self), lit, r, (old(self).decision_level + 1) as i32),
    {
        let ghost o = *self;
        self.decision_count += 1;
        self.decision_level += 1;
        let ghost mid = *self;
        proof {
            lemma_wf_frame(o, mid);
            assert(mid.ante_ok(ArrTuple { is_null: true, is_lit_pool: false, var_index: 1000, positive: 1000 }, 0));
        }
        let r = self.assert_literal(lit, ArrTuple::new(), 0);
        proof {
            assert(mid.vars@ == o.vars@);
            assert(mid.decision_stack@ == o.decision_stack@);
            assert forall|x: i32| #[trigger] mid.is_free(x) == o.is_free(x) by {}
        }
        r
    }

    /// Asserts the first literal of the clause just learned, with the rest of
    /// that clause as its reason.
    pub fn assert_conflict_literal(&mut self) -> (r: bool)
        requires
            old(self).wf(),
            old(self).conflict_clause_ind + 1 < old(self).lit_pool@.len(),
            old(self).lit_pool@[old(self).conflict_clause_ind as int] != 0,
            old(self).conflict_count < i32::MAX,
        ensures
            final(self).wf(),
            final(self).var_count == old(self).var_count,
            final(self).lit_pool_size_orig == old(self).lit_pool_size_orig,
            final(self).next_clause == old(self).next_clause,
            final(self).decision_level == old(self).decision_level,
            final(self).decision_count == old(self).decision_count,
            final(self).restart_count == old(self).restart_count,
            final(self).lit_pool@.len() >= old(self).lit_pool@.len(),
            final(self).propagation_outcome(
                &*old(self),
                old(self).lit_pool@[old(self).conflict_clause_ind as int],
                r,
                old(self).decision_level,
            ),
    {
        let ind = self.conflict_clause_ind;
        let plen = self.lit_pool.len();
        assert(ind + 1 < plen);
        let lit = self.lit_pool[ind];
        proof {
            assert(lit_in_range(self.lit_pool@[ind as int], self.n()));
        }
        self.assert_literal(lit, ArrTuple::ctor(true), ind + 1)
    }

    /// Propagates the literals already on the trail (the unit clauses),
    /// from the top of the trail down. On a conflict, the level is lowered by
    /// one and `false` is returned. Otherwise no value assigned before has
    /// changed, every literal on the trail has the literals its binary
    /// clauses force true (see [`trail_closed`]), and every variable assigned
    /// without a reason was assigned, with that value, before.
    pub fn assert_unit_clauses(&mut self) -> (r: bool)
        requires
            old(self).wf(),
            old(self).decision_level >= 1,
            old(self).conflict_count < i32::MAX,
            old(self).decision_level == 1 ==> forall|v: int| 0 <= v <= old(self).n() ==> !(#[trigger] old(self).vars@[v]).uip_mark,
            old(self).decision_level != 1 ==> old(self).lit_pool@.len() >= 2,
            forall|k: int| 1 <= k < old(self).decision_stack@.len() ==> old(self).is_true(#[trigger] old(self).decision_stack@[k]),
        ensures
            final(self).wf(),
            final(self).var_count == old(self).var_count,
            final(self).lit_pool_size_orig == old(self).lit_pool_size_orig,
            final(self).decision_count == old(self).decision_count,
            final(self).restart_count == old(self).restart_count,
            final(self).lit_pool@.len() >= old(self).lit_pool@.len(),
            r ==> forall|v: int|
                0 <= v <= old(self).n() && (#[trigger] old(self).vars@[v]).value != VA::Free ==> final(self).vars@[v].value
                    == old(self).vars@[v].value,
            r ==> trail_closed(final(self).vars@, final(self).decision_stack@, 1),
            r ==> forall|v: int|
                0 <= v <= old(self).n() && (#[trigger] final(self).vars@[v]).value != VA::Free && final(self).vars@[v].ante.is_null
                    ==> old(self).vars@[v].value == final(self).vars@[v].value,
            r ==> forall|v: int| 0 <= v <= old(self).n() ==> {
                &&& (#[trigger] final(self).vars@[v]).activity == old(self).vars@[v].activity
                &&& final(self).vars@[v].bin_imp == old(self).vars@[v].bin_imp
            },
            same_clauses(final(self).lit_pool@, old(self).lit_pool@, old(self).lit_pool_size_orig as int),
            r ==> final(self).decision_level == old(self).decision_level,
            r ==> final(self).conflict_count == old(self).conflict_count,
            !r ==> final(self).decision_level == old(self).decision_level - 1,
            !r ==> final(self).conflict_count == old(self).conflict_count + 1,
            !r && old(self).decision_level == 1 ==> final(self).assertion_level == 0,
            !r ==> old(self).decision_stack@.len() > 1,
            old(self).decision_level == 1 ==> {
                &&& final(self).var_order@ == old(self).var_order@
                &&& final(self).var_position@ == old(self).var_position@
                &&& final(self).next_var <= old(self).next_var
                &&& final(self).clauses@ == old(self).clauses@
            },
    {
        let ghost o = *self;
        proof {
            lemma_same_clauses_refl(o.lit_pool@, o.lit_pool_size_orig as int);
        }
        let mut i = self.decision_stack.len();
        while i > 1
            invariant
                self.wf(),
                1 <= i <= self.decision_stack@.len(),
                i <= o.decision_stack@.len(),
                self.var_count == o.var_count,
                self.lit_pool_size_orig == o.lit_pool_size_orig,
                self.decision_count == o.decision_count,
                self.restart_count == o.restart_count,
                self.decision_level == o.decision_level,
                self.conflict_count == o.conflict_count,
                self.lit_pool@.len() >= o.lit_pool@.len(),
                o.conflict_count < i32::MAX,
                o.decision_level >= 1,
                o.decision_level == 1 ==> forall|v: int| 0 <= v <= self.n() ==> !(#[trigger] self.vars@[v]).uip_mark,
                o.decision_level != 1 ==> self.lit_pool@.len() >= 2,
                o == *old(self),
                forall|k: int| 1 <= k < self.decision_stack@.len() ==> self.is_true(#[trigger] self.decision_stack@[k]),
                forall|v: int|
                    0 <= v <= o.n() && (#[trigger] o.vars@[v]).value != VA::Free ==> self.vars@[v].value == o.vars@[v].value,
                forall|v: int| 0 <= v <= o.n() ==> {
                    &&& (#[trigger] self.vars@[v]).activity == o.vars@[v].activity
                    &&& self.vars@[v].bin_imp == o.vars@[v].bin_imp
                },
                trail_closed(self.vars@, self.decision_stack@, i as int),
                same_clauses(self.lit_pool@, o.lit_pool@, o.lit_pool_size_orig as int),
                forall|v: int|
                    0 <= v <= o.n() && (#[trigger] self.vars@[v]).value != VA::Free && self.vars@[v].ante.is_null
                        ==> o.vars@[v].value == self.vars@[v].value,
                forall|k: int| 1 <= k < i ==> #[trigger] self.decision_stack@[k] == o.decision_stack@[k],
                forall|k: int| 1 <= k < o.decision_stack@.len() ==> o.is_true(#[trigger] o.decision_stack@[k]),
                o.decision_level == 1 ==> {
                    &&& self.var_order@ == o.var_order@
                    &&& self.var_position@ == o.var_position@
                    &&& self.next_var == o.next_var
                    &&& self.clauses@ == o.clauses@
                },
            decreases i,
        {
            i -= 1;
            let lit = self.decision_stack[i];
            let ghost pre = *self;
            proof {
                assert(lit != 0 && lit_in_range(lit, self.n()));
            }
            let len = self.decision_stack.len();
            if i != len - 1 {
                let top = self.decision_stack[len - 1];
                let _ = self.decision_stack.pop();
                self.decision_stack.set(i, top);
                proof {
                    assert(lit_in_range(top, self.n()) && top != 0);
                    let st = self.decision_stack@;
                    assert forall|k: int| 0 <= k < st.len() implies lit_in_range(#[trigger] st[k], self.n()) by {
                        if k != i {
                            assert(st[k] == pre.decision_stack@[k]);
                        }
                    }
                    assert forall|k: int| 1 <= k < st.len() implies #[trigger] st[k] != 0 by {
                        if k != i {
                            assert(st[k] == pre.decision_stack@[k]);
                        }
                    }
                    assert(self.stack_wf());
                    lemma_wf_frame(pre, *self);
                    assert forall|k: int| 1 <= k < st.len() implies self.is_true(#[trigger] st[k]) by {
                        if k != i {
                            assert(st[k] == pre.decision_stack@[k]);
                        } else {
                            assert(st[k] == pre.decision_stack@[len - 1]);
                        }
                    }
                }
            }
            proof {
                assert(self.is_true(lit)) by {
                    if i != len - 1 {
                        assert(lit == pre.decision_stack@[i as int]);
                    }
                }
                assert(self.vars@ == pre.vars@);
                let st = self.decision_stack@;
                assert forall|k: int| i <= k < st.len() && 1 <= k && !(k == i && i == len - 1) implies imps_true(
                    self.vars@,
                    (-#[trigger] st[k]) as i32,
                ) by {
                    if i != len - 1 {
                        if k == i {
                            assert(st[k] == pre.decision_stack@[len - 1]);
                        } else {
                            assert(st[k] == pre.decision_stack@[k]);
                        }
                    } else {
                        assert(st[k] == pre.decision_stack@[k]);
                    }
                }
            }
            let ind = self.lit_pool.len().wrapping_sub(1);
            proof {
                assert(self.var_wf(var_of(lit)));
                if o.decision_level != 1 {
                    assert(self.ante_ok(ArrTuple { is_null: false, is_lit_pool: true, var_index: 1000, positive: 1000 }, ind));
                }
            }
            let ghost before = *self;
            if !self.assert_literal(lit, ArrTuple::ctor(true), ind) {
                proof {
                    lemma_same_clauses_trans(self.lit_pool@, before.lit_pool@, o.lit_pool@, o.lit_pool_size_orig as int);
                }
                self.backtrack(self.decision_level - 1);
                return false;
            }
            proof {
                lemma_same_clauses_trans(self.lit_pool@, before.lit_pool@, o.lit_pool@, o.lit_pool_size_orig as int);
                assert(lit == o.decision_stack@[i as int]);
                assert(o.is_true(lit));
                assert forall|v: int|
                    0 <= v <= o.n() && (#[trigger] self.vars@[v]).value != VA::Free && self.vars@[v].ante.is_null
                        implies o.vars@[v].value == self.vars@[v].value by {
                    if v != var_of(lit) {
                        assert(before.vars@[v].value == self.vars@[v].value && before.vars@[v].ante.is_null);
                    }
                }
                let ns = choose|ns: Seq<i32>| {
                    &&& 1 <= ns.len()
                    &&& ns[0] == lit
                    &&& self.decision_stack@ == before.decision_stack@ + ns
                    &&& forall|k: int| 0 <= k < ns.len() ==> #[trigger] ns[k] != 0 && self.is_true(ns[k])
                    &&& forall|k: int| 1 <= k < ns.len() ==> before.is_free(#[trigger] ns[k])
                    &&& forall|i: int, j: int| 0 <= i < j < ns.len() ==> var_of(ns[i]) != var_of(ns[j])
                    &&& forall|v: int| 0 <= v <= before.n() && !in_vars(ns, v) ==>
                        (#[trigger] self.vars@[v]).value == before.vars@[v].value
                    &&& imps_done(self.vars@, ns, ns.len() as int)
                };
                assert(self.decision_stack@.len() >= before.decision_stack@.len() + 1);
                assert forall|v: int| 0 <= v <= before.n() && before.vars@[v].value != VA::Free implies
                    (#[trigger] self.vars@[v]).value == before.vars@[v].value by {
                    if in_vars(ns, v) {
                        let k = choose|k: int| 0 <= k < ns.len() && var_of(#[trigger] ns[k]) == v;
                        if k >= 1 {
                            assert(before.is_free(ns[k]));
                        } else {
                            assert(ns[0] == lit);
                            assert(before.is_true(lit));
                            assert(self.is_true(lit));
                        }
                    }
                }
                assert forall|v: int| 1 <= v <= before.n() implies bin_ok((#[trigger] before.vars@[v]).bin_imp@[0]@, v, 0, before.n())
                    && bin_ok(before.vars@[v].bin_imp@[1]@, v, 1, before.n()) by {
                    assert(before.var_wf(v));
                }
                let bst = before.decision_stack@;
                assert forall|k: int| i <= k < self.decision_stack@.len() && 1 <= k implies imps_true(
                    self.vars@,
                    (-#[trigger] self.decision_stack@[k]) as i32,
                ) by {
                    let x = self.decision_stack@[k];
                    if k >= bst.len() {
                        assert(x == ns[k - bst.len()]);
                    } else if k == i && i == len - 1 {
                        assert(x == bst[k]);
                        assert(x == ns[0]);
                    } else {
                        assert(x == bst[k]);
                        assert(imps_true(before.vars@, (-bst[k]) as i32));
                        assert(lit_in_range(bst[k], before.n()) && bst[k] != 0);
                        lemma_imp_persist(before.vars@, self.vars@, (-bst[k]) as i32, before.n());
                    }
                }
                assert forall|k: int| 1 <= k < self.decision_stack@.len() implies self.is_true(#[trigger] self.decision_stack@[k]) by {
                    if k < before.decision_stack@.len() {
                        let x = before.decision_stack@[k];
                        assert(self.decision_stack@[k] == x);
                        assert(before.is_true(x));
                        assert(x != 0);
                        assert(before.vars@[var_of(x)].value != VA::Free);
                    } else {
                        assert(self.decision_stack@[k] == ns[k - before.decision_stack@.len()]);
                    }
                }
                if o.decision_level == 1 {
                    assert forall|v: int| 0 <= v <= self.n() implies !(#[trigger] self.vars@[v]).uip_mark by {
                        assert(!before.vars@[v].uip_mark);
                    }
                }
            }
        }
        true
    }
}

/// Sorts `v` ascending, with `sort_unstable` of std's slices. The contract
/// claims that the result is ascending and holds the same values as before.
#[verifier::external_body]
fn sort_keys(v: &mut Vec<u64>)
    ensures
        final(v)@.to_multiset() == old(v)@.to_multiset(),
        forall|i: int, j: int| 0 <= i < j < final(v)@.len() ==> final(v)@[i] <= final(v)@[j],
{
    v.sort_unstable();
}

/// `y` is one of `keys`.
pub open spec fn in_keys(keys: Seq<u64>, y: u64) -> bool {
    exists|j: int| 0 <= j < keys.len() && keys[j] == y
}

/// The sort key of entry `k` of weight `w`: weight first, index second.
pub open spec fn order_key(w: int, k: int) -> int {
    w * 0x1_0000_0000 + k
}

/// A key gives back its index, and keys compare by weight, then index.
pub proof fn lemma_order_key(w1: int, k1: int, w2: int, k2: int)
    requires
        0 <= w1,
        0 <= w2,
        0 <= k1 < 0x1_0000_0000,
        0 <= k2 < 0x1_0000_0000,
    ensures
        order_key(w1, k1) % 0x1_0000_0000 == k1,
        order_key(w1, k1) < order_key(w2, k2) ==> (w1 < w2 || (w1 == w2 && k1 < k2)),
        order_key(w1, k1) == order_key(w2, k2) ==> k1 == k2,
{
    assert(order_key(w1, k1) % 0x1_0000_0000 == k1) by (nonlinear_arith)
        requires 0 <= w1, 0 <= k1 < 0x1_0000_0000;
    assert(order_key(w2, k2) % 0x1_0000_0000 == k2) by (nonlinear_arith)
        requires 0 <= w2, 0 <= k2 < 0x1_0000_0000;
    assert(order_key(w1, k1) < order_key(w2, k2) ==> (w1 < w2 || (w1 == w2 && k1 < k2))) by (nonlinear_arith)
        requires 0 <= w1, 0 <= w2, 0 <= k1 < 0x1_0000_0000, 0 <= k2 < 0x1_0000_0000;
}

impl CnfManager {
    /// `self.var_order` is `o.var_order` reordered by `p` (entry `i` comes from
    /// entry `p[i]`) into ascending score, ties kept in their earlier order.
    pub open spec fn sorted_by_weight(&self, o: &CnfManager, p: Seq<int>) -> bool {
        let old_order = o.var_order@;
        &&& p.len() == old_order.len()
        &&& self.var_order@.len() == old_order.len()
        &&& forall|i: int| 0 <= i < p.len() ==> 0 <= #[trigger] p[i] < p.len()
        &&& forall|i: int, j: int| 0 <= i < j < p.len() ==> p[i] != p[j]
        &&& forall|i: int| 0 <= i < p.len() ==> #[trigger] self.var_order@[i] == old_order[p[i]]
        &&& forall|i: int, j: int|
            #![trigger p[i], p[j]]
            0 <= i < j < p.len() ==> {
                let wi = o.spec_weight(old_order[p[i]] as int);
                let wj = o.spec_weight(old_order[p[j]] as int);
                wi < wj || (wi == wj && p[i] < p[j])
            }
    }

    /// The sort key of entry `k` of `var_order`.
    pub open spec fn key_of(&self, k: int) -> int {
        order_key(self.spec_weight(self.var_order@[k] as int), k)
    }

    /// Sorts `var_order` by ascending score, keeping the earlier order among
    /// variables of equal score. `var_position` is left as it was.
    pub fn sort_vars(&mut self)
        requires
            old(self).wf_core(),
        ensures
            final(self).wf_core(),
            exists|p: Seq<int>| final(self).sorted_by_weight(&*old(self), p),
            final(self).vars@ == old(self).vars@,
            final(self).var_count == old(self).var_count,
            final(self).var_position@ == old(self).var_position@,
            final(self).next_var == old(self).next_var,
            final(self).lit_pool@ == old(self).lit_pool@,
            final(self).lit_pool_size_orig == old(self).lit_pool_size_orig,
            final(self).clauses@ == old(self).clauses@,
            final(self).next_clause == old(self).next_clause,
            final(self).decision_stack@ == old(self).decision_stack@,
            final(self).assertion_level == old(self).assertion_level,
            final(self).decision_level == old(self).decision_level,
            final(self).decision_count == old(self).decision_count,
            final(self).conflict_count == old(self).conflict_count,
            final(self).restart_count == old(self).restart_count,
            final(self).conflict_lit@ == old(self).conflict_lit@,
            final(self).tmp_conflict_lit@ == old(self).tmp_conflict_lit@,
            final(self).conflict_clause_ind == old(self).conflict_clause_ind,
    {
        let ghost o = *self;
        let n = self.var_order.len();
        let mut keys: Vec<u64> = Vec::new();
        let mut k: usize = 0;
        while k < n
            invariant
                *self == o,
                o.wf_core(),
                n == o.var_order@.len(),
                n <= i32::MAX,
                k <= n,
                keys@.len() == k,
                forall|j: int| 0 <= j < k ==> #[trigger] keys@[j] == o.key_of(j),
            decreases n - k,
        {
            let v = self.var_order[k];
            let w = self.weight(&v);
            proof {
                assert(o.var_wf(v as int));
            }
            let key = (w as u64) * 0x1_0000_0000u64 + (k as u64);
            keys.push(key);
            k += 1;
        }
        let ghost k0 = keys@;
        sort_keys(&mut keys);
        let ghost kf = keys@;
        proof {
            k0.to_multiset_ensures();
            kf.to_multiset_ensures();
            assert(kf.len() == k0.len());
            assert forall|i: int, j: int| 0 <= i < j < k0.len() implies k0[i] != k0[j] by {
                assert(o.var_wf(o.var_order@[i] as int));
                assert(o.var_wf(o.var_order@[j] as int));
                lemma_order_key(o.spec_weight(o.var_order@[i] as int), i, o.spec_weight(o.var_order@[j] as int), j);
            }
            assert(k0.no_duplicates());
            k0.lemma_multiset_has_no_duplicates();
            kf.lemma_multiset_has_no_duplicates_conv();
            assert forall|i: int| 0 <= i < n implies #[trigger] in_keys(k0, kf[i]) by {
                assert(kf.to_multiset().count(kf[i]) > 0);
                assert(k0.contains(kf[i]));
                let j = choose|j: int| 0 <= j < k0.len() && k0[j] == kf[i];
                assert(0 <= j < n && k0[j] == kf[i]);
            }
        }
        let mut new_order: Vec<i32> = Vec::new();
        let mut i: usize = 0;
        while i < n
            invariant
                *self == o,
                o.wf_core(),
                n == o.var_order@.len(),
                n <= i32::MAX,
                kf == keys@,
                kf.len() == n,
                k0.len() == n,
                forall|j: int| 0 <= j < n ==> #[trigger] k0[j] == o.key_of(j),
                forall|x: int| 0 <= x < n ==> #[trigger] in_keys(k0, kf[x]),
                i <= n,
                new_order@.len() == i,
                forall|x: int| 0 <= x < i ==> #[trigger] new_order@[x] == o.var_order@[(kf[x] % 0x1_0000_0000) as int],
                forall|x: int| 0 <= x < i ==> 0 <= #[trigger] (kf[x] % 0x1_0000_0000) < n,
            decreases n - i,
        {
            let key = keys[i];
            proof {
                assert(in_keys(k0, kf[i as int]));
                let j = choose|j: int| 0 <= j < k0.len() && k0[j] == kf[i as int];
                assert(o.var_wf(o.var_order@[j] as int));
                lemma_order_key(o.spec_weight(o.var_order@[j] as int), j, 0, 0);
                assert(key % 0x1_0000_0000 == j);
            }
            let idx = (key % 0x1_0000_0000u64) as usize;
            new_order.push(self.var_order[idx]);
            i += 1;
        }
        self.var_order = new_order;
        proof {
            let p = Seq::new(n as nat, |x: int| (kf[x] % 0x1_0000_0000) as int);
            assert forall|x: int| 0 <= x < n implies kf[x] == #[trigger] k0[p[x]] by {
                assert(in_keys(k0, kf[x]));
                let j = choose|j: int| 0 <= j < k0.len() && k0[j] == kf[x];
                assert(o.var_wf(o.var_order@[j] as int));
                lemma_order_key(o.spec_weight(o.var_order@[j] as int), j, 0, 0);
            }
            assert forall|x: int, y: int| 0 <= x < y < p.len() implies p[x] != p[y] by {
                assert(kf[x] == k0[p[x]] && kf[y] == k0[p[y]]);
                assert(kf[x] != kf[y]);
            }
            assert forall|x: int, y: int| #![trigger p[x], p[y]] 0 <= x < y < p.len() implies ({
                let wi = o.spec_weight(o.var_order@[p[x]] as int);
                let wj = o.spec_weight(o.var_order@[p[y]] as int);
                wi < wj || (wi == wj && p[x] < p[y])
            }) by {
                assert(kf[x] == k0[p[x]] && kf[y] == k0[p[y]]);
                assert(kf[x] != kf[y]);
                assert(kf[x] <= kf[y]);
                assert(o.var_wf(o.var_order@[p[x]] as int));
                assert(o.var_wf(o.var_order@[p[y]] as int));
                lemma_order_key(o.spec_weight(o.var_order@[p[x]] as int), p[x], o.spec_weight(o.var_order@[p[y]] as int), p[y]);
            }
            assert(self.sorted_by_weight(&o, p));
            lemma_wf_frame_order(o, *self);
        }
    }
}

/// Replacing the variable order by one over the same variables keeps the
/// invariant (apart from positions).
proof fn lemma_wf_frame_order(a: CnfManager, b: CnfManager)
    requires
        a.wf_core(),
        b.var_count == a.var_count,
        b.vars@ == a.vars@,
        b.var_position@ == a.var_position@,
        b.var_order@.len() == a.var_order@.len(),
        forall|k: int| 0 <= k < b.var_order@.len() ==> 1 <= #[trigger] b.var_order@[k] <= b.n(),
        b.next_var == a.next_var,
        b.lit_pool@ == a.lit_pool@,
        b.lit_pool_size_orig == a.lit_pool_size_orig,
        b.clauses@ == a.clauses@,
        b.next_clause == a.next_clause,
        b.decision_stack@ == a.decision_stack@,
        b.decision_level == a.decision_level,
    ensures
        b.wf_core(),
{
    assert forall|v: int| 0 <= v <= b.n() implies #[trigger] b.var_wf(v) by {
        assert(a.var_wf(v));
    }
}

/// The pool part of clauses `cs`: each clause of three or more literals,
/// followed by a `0`, in order.
pub open spec fn long_pool(cs: Seq<Seq<i32>>) -> Seq<i32>
    decreases cs.len(),
{
    if cs.len() == 0 {
        Seq::empty()
    } else {
        long_pool(cs.drop_last()) + if cs.last().len() >= 3 {
            cs.last().push(0)
        } else {
            Seq::empty()
        }
    }
}

/// The literals of the clauses of two or more literals of `cs`, in order.
pub open spec fn nonunit_lits(cs: Seq<Seq<i32>>) -> Seq<i32>
    decreases cs.len(),
{
    if cs.len() == 0 {
        Seq::empty()
    } else {
        nonunit_lits(cs.drop_last()) + if cs.last().len() >= 2 {
            cs.last()
        } else {
            Seq::empty()
        }
    }
}

/// The literals that `x` being false implies through the binary clauses of
/// `cs`, in order.
pub open spec fn bin_imps(cs: Seq<Seq<i32>>, x: i32) -> Seq<i32>
    decreases cs.len(),
{
    if cs.len() == 0 {
        Seq::empty()
    } else {
        let c = cs.last();
        bin_imps(cs.drop_last(), x) + if c.len() == 2 {
            (if c[0] == x { seq![c[1]] } else { Seq::empty() }) + (if c[1] == x {
                seq![c[0]]
            } else {
                Seq::empty()
            })
        } else {
            Seq::empty()
        }
    }
}

/// The pool offsets of the clauses of three or more literals of `cs` whose
/// first or second literal is `x` (once per such literal), in order.
pub open spec fn long_watches(cs: Seq<Seq<i32>>, x: i32) -> Seq<usize>
    decreases cs.len(),
{
    if cs.len() == 0 {
        Seq::empty()
    } else {
        let c = cs.last();
        let off = long_pool(cs.drop_last()).len() as usize;
        long_watches(cs.drop_last(), x) + if c.len() >= 3 {
            (if c[0] == x { seq![off] } else { Seq::empty() }) + (if c[1] == x {
                seq![off]
            } else {
                Seq::empty()
            })
        } else {
            Seq::empty()
        }
    }
}

/// The literals of every variable occur at most `i32::MAX` times, the two
/// polarities together, in the clauses of two or more literals of `cs`: the
/// occurrence counts the activities start from fit, and so do their sums.
pub open spec fn occurrences_fit(cs: Seq<Seq<i32>>, n: int) -> bool {
    forall|v: int| 1 <= v <= n ==> #[trigger] var_occ(nonunit_lits(cs), v) <= i32::MAX
}

/// The literals of the first `i` clauses occur no more often than those of
/// all of them.
pub proof fn lemma_nonunit_prefix_occ(cs: Seq<Seq<i32>>, i: int, x: i32)
    requires
        0 <= i <= cs.len(),
    ensures
        occ(nonunit_lits(cs.take(i)), x) <= occ(nonunit_lits(cs), x),
    decreases cs.len(),
{
    if i < cs.len() {
        assert(cs.take(i) =~= cs.drop_last().take(i));
        lemma_nonunit_prefix_occ(cs.drop_last(), i, x);
        let t = if cs.last().len() >= 2 { cs.last() } else { Seq::<i32>::empty() };
        lemma_occ_concat(nonunit_lits(cs.drop_last()), t, x);
    } else {
        assert(cs.take(i) =~= cs);
    }
}

/// Whether the occurrence counts of `sat_instance` fit (see
/// [`occurrences_fit`]): what [`CnfManager::new`] needs beside a
/// well-formed formula.
pub fn counts_fit(sat_instance: &SatInstance) -> (r: bool)
    requires
        sat_instance.well_formed(),
    ensures
        r == occurrences_fit(sat_instance.clause_seqs().take(sat_instance.clause_count as int), sat_instance.var_count as int),
{
    let ghost cs = sat_instance.clause_seqs().take(sat_instance.clause_count as int);
    let ghost nn = sat_instance.var_count as int;
    let n = sat_instance.var_count;
    let mut counts: Vec<u64> = Vec::new();
    let mut v: usize = 0;
    while v <= n
        invariant
            v <= n + 1,
            n == sat_instance.var_count,
            sat_instance.well_formed(),
            counts@.len() == v,
            forall|u: int| 0 <= u < v ==> #[trigger] counts@[u] == 0,
        decreases n + 1 - v,
    {
        counts.push(0);
        v += 1;
    }
    proof {
        assert forall|u: int| 1 <= u <= nn implies #[trigger] counts@[u] == var_occ(nonunit_lits(cs.take(0)), u) by {
            assert(cs.take(0) =~= Seq::<Seq<i32>>::empty());
        }
    }
    let cc = sat_instance.clause_count;
    let mut i: usize = 0;
    while i < cc
        invariant
            i <= cc,
            cc == sat_instance.clause_count,
            n == sat_instance.var_count,
            nn == n,
            sat_instance.well_formed(),
            cs == sat_instance.clause_seqs().take(sat_instance.clause_count as int),
            counts@.len() == n + 1,
            forall|u: int| 1 <= u <= nn ==> #[trigger] counts@[u] == var_occ(nonunit_lits(cs.take(i as int)), u),
        decreases cc - i,
    {
        let c = &sat_instance.clauses[i];
        let len = c.len();
        let ghost base = nonunit_lits(cs.take(i as int));
        proof {
            assert(c@ == cs[i as int]);
            assert(cs.take(i + 1).drop_last() =~= cs.take(i as int));
            assert(cs.take(i + 1).last() == c@);
        }
        if len >= 2 {
            let mut j: usize = 0;
            while j < len
                invariant
                    j <= len,
                    len == c@.len(),
                    len >= 2,
                    i < cc,
                    cc == sat_instance.clause_count,
                    n == sat_instance.var_count,
                    nn == n,
                    sat_instance.well_formed(),
                    cs == sat_instance.clause_seqs().take(sat_instance.clause_count as int),
                    c@ == cs[i as int],
                    base == nonunit_lits(cs.take(i as int)),
                    nonunit_lits(cs.take(i + 1)) == base + c@,
                    counts@.len() == n + 1,
                    forall|u: int| 1 <= u <= nn ==> #[trigger] counts@[u] == var_occ(base + c@.take(j as int), u),
                decreases len - j,
            {
                let l = c[j];
                proof {
                    assert(sat_instance.clauses@[i as int]@ == c@);
                    assert(l != 0 && var_of(l) <= nn);
                }
                let x = to_var(&l);
                let ghost pre = base + c@.take(j as int);
                proof {
                    assert(base + c@.take(j + 1) =~= pre.push(l));
                    assert forall|u: int| 1 <= u <= nn implies var_occ(pre.push(l), u) == var_occ(pre, u) + if u == x { 1int } else { 0int } by {
                        lemma_occ_push(pre, l, lit_of(u, 0) as i32);
                        lemma_occ_push(pre, l, lit_of(u, 1) as i32);
                        if u == x {
                            assert(l > 0 ==> l == lit_of(u, 1) as i32);
                            assert(l < 0 ==> l == lit_of(u, 0) as i32);
                        } else {
                            assert(l != lit_of(u, 1) as i32);
                            assert(l != lit_of(u, 0) as i32);
                        }
                    }
                }
                if counts[x] >= 0x7FFF_FFFF {
                    proof {
                        let full = nonunit_lits(cs);
                        assert(1 <= x <= nn);
                        assert(counts@[x as int] == var_occ(pre, x as int));
                        assert(var_occ(pre.push(l), x as int) > i32::MAX);
                        assert(base + c@ =~= pre.push(l) + c@.skip(j + 1));
                        lemma_occ_concat(pre.push(l), c@.skip(j + 1), lit_of(x as int, 0) as i32);
                        lemma_occ_concat(pre.push(l), c@.skip(j + 1), lit_of(x as int, 1) as i32);
                        lemma_nonunit_prefix_occ(cs, i + 1, lit_of(x as int, 0) as i32);
                        lemma_nonunit_prefix_occ(cs, i + 1, lit_of(x as int, 1) as i32);
                        assert(var_occ(full, x as int) > i32::MAX);
                    }
                    return false;
                }
                counts.set(x, counts[x] + 1);
                j += 1;
            }
            proof {
                assert(c@.take(len as int) =~= c@);
            }
        } else {
            proof {
                assert(nonunit_lits(cs.take(i + 1)) =~= base);
            }
        }
        i += 1;
    }
    proof {
        assert(cs.take(cc as int) =~= cs);
    }
    let mut u: usize = 1;
    while u <= n
        invariant
            1 <= u <= n + 1,
            n == sat_instance.var_count,
            nn == n,
            counts@.len() == n + 1,
            forall|w: int| 1 <= w <= nn ==> #[trigger] counts@[w] == var_occ(nonunit_lits(cs), w),
            forall|w: int| 1 <= w < u ==> #[trigger] var_occ(nonunit_lits(cs), w) <= i32::MAX,
            sat_instance.well_formed(),
            cs == sat_instance.clause_seqs().take(sat_instance.clause_count as int),
            nn == sat_instance.var_count,
        decreases n + 1 - u,
    {
        if counts[u] > 0x7FFF_FFFF {
            proof {
                assert(var_occ(nonunit_lits(cs), u as int) > i32::MAX);
            }
            return false;
        }
        u += 1;
    }
    true
}

/// Polarity `t` of variable `v` holds the occurrence count, implication list
/// and watch list that the clauses `cs` give it.
pub open spec fn fresh_slot(x: Variable, v: int, t: int, cs: Seq<Seq<i32>>) -> bool {
    &&& x.activity@[t] == bumped(0, occ(nonunit_lits(cs), lit_of(v, t) as i32))
    &&& x.bin_imp@[t]@ == seq![0i32, lit_of(v, t) as i32, 0i32] + bin_imps(cs, lit_of(v, t) as i32) + seq![0i32]
    &&& x.watch@[t]@ == long_watches(cs, lit_of(v, t) as i32)
}

impl CnfManager {
    /// The solver state of a fresh formula, as `build_database` leaves it.
    pub open spec fn fresh_db(&self, cs: Seq<Seq<i32>>, n: int) -> bool {
        &&& self.var_count == n
        &&& self.vars@.len() == n + 1
        &&& forall|v: int| 0 <= v <= n ==> {
            let x = #[trigger] self.vars@[v];
            &&& x.value == VA::Free
            &&& x.decision_level == 0
            &&& !x.uip_mark
            &&& !x.phase
            &&& x.ante.is_null
            &&& x.ante_ind == 0
        }
        &&& forall|v: int| 1 <= v <= n ==> fresh_slot(#[trigger] self.vars@[v], v, 0, cs) && fresh_slot(self.vars@[v], v, 1, cs)
        &&& self.lit_pool@ == long_pool(cs)
        &&& self.lit_pool_size_orig == self.lit_pool@.len()
        &&& self.var_order@.len() == 0
        &&& forall|v: int| 0 <= v <= n ==> #[trigger] self.var_position@[v] == 0
        &&& self.next_var == 0
        &&& self.clauses@.len() == 0
        &&& self.next_clause == 0
        &&& self.decision_stack@ == seq![0i32]
        &&& self.assertion_level == 0
        &&& self.decision_level == 1
        &&& self.decision_count == 0
        &&& self.conflict_count == 0
        &&& self.restart_count == 0
        &&& self.conflict_lit@.len() == 0
        &&& self.tmp_conflict_lit@.len() == 0
        &&& self.conflict_clause_ind == 0
    }
}

/// The per-polarity lists of implied literals being collected for variables
/// `0..=n` from the binary clauses `cs`.
pub open spec fn imps_built(imp: [Vec<Vec<i32>>; 2], cs: Seq<Seq<i32>>, n: int) -> bool {
    &&& imp@.len() == 2
    &&& imp@[0]@.len() == n + 1
    &&& imp@[1]@.len() == n + 1
    &&& imp@[0]@[0]@.len() == 0
    &&& imp@[1]@[0]@.len() == 0
    &&& forall|v: int| 1 <= v <= n ==> #[trigger] imp@[0]@[v]@ == bin_imps(cs, lit_of(v, 0) as i32)
    &&& forall|v: int| 1 <= v <= n ==> #[trigger] imp@[1]@[v]@ == bin_imps(cs, lit_of(v, 1) as i32)
}

impl CnfManager {
    /// The state while the clauses `cs` are being loaded: everything as in
    /// [`CnfManager::fresh_db`] but the implication lists, which are still empty.
    pub open spec fn loading(&self, cs: Seq<Seq<i32>>, n: int) -> bool {
        &&& self.loading_core(cs, n)
        &&& forall|v: int| 0 <= v <= n ==> (#[trigger] self.vars@[v]).bin_imp@[0]@.len() == 0
            && self.vars@[v].bin_imp@[1]@.len() == 0
    }

    /// [`CnfManager::loading`] without the emptiness of the implication lists.
    pub open spec fn loading_core(&self, cs: Seq<Seq<i32>>, n: int) -> bool {
        &&& 0 <= n < i32::MAX
        &&& self.var_count == n
        &&& self.vars@.len() == n + 1
        &&& self.var_position@.len() == n + 1
        &&& forall|v: int| 0 <= v <= n ==> {
            let x = #[trigger] self.vars@[v];
            &&& x.value == VA::Free
            &&& x.decision_level == 0
            &&& !x.uip_mark
            &&& !x.phase
            &&& x.ante.is_null
            &&& x.ante_ind == 0
            &&& x.activity@.len() == 2
            &&& x.bin_imp@.len() == 2
            &&& x.watch@.len() == 2
            &&& self.var_position@[v] == 0
        }
        &&& self.vars@[0].activity@ == seq![0i32, 0i32]
        &&& self.vars@[0].watch@[0]@.len() == 0
        &&& self.vars@[0].watch@[1]@.len() == 0
        &&& forall|v: int| 1 <= v <= n ==> {
            let x = #[trigger] self.vars@[v];
            &&& x.activity@[0] == bumped(0, occ(nonunit_lits(cs), lit_of(v, 0) as i32))
            &&& x.activity@[1] == bumped(0, occ(nonunit_lits(cs), lit_of(v, 1) as i32))
            &&& x.watch@[0]@ == long_watches(cs, lit_of(v, 0) as i32)
            &&& x.watch@[1]@ == long_watches(cs, lit_of(v, 1) as i32)
        }
        &&& self.lit_pool@ == long_pool(cs)
        &&& self.var_order@.len() == 0
        &&& self.next_var == 0
        &&& self.clauses@.len() == 0
        &&& self.next_clause == 0
        &&& self.decision_stack@ == seq![0i32]
        &&& self.assertion_level == 0
        &&& self.decision_level == 1
        &&& self.decision_count == 0
        &&& self.conflict_count == 0
        &&& self.restart_count == 0
        &&& self.conflict_lit@.len() == 0
        &&& self.tmp_conflict_lit@.len() == 0
        &&& self.conflict_clause_ind == 0
    }

    /// Raises by one the activity of `lit`.
    fn bump_activity(&mut self, lit: i32)
        requires
            lit != 0,
            lit != i32::MIN,
            var_of(lit) < old(self).vars@.len(),
            old(self).vars@[var_of(lit)].activity@.len() == 2,
            0 <= old(self).vars@[var_of(lit)].activity@[0],
            0 <= old(self).vars@[var_of(lit)].activity@[1],
            old(self).vars@[var_of(lit)].activity@[0] + old(self).vars@[var_of(lit)].activity@[1] < i32::MAX,
        ensures
            final(self).same_but_vars(&*old(self)),
            final(self).var_count == old(self).var_count,
            final(self).vars@.len() == old(self).vars@.len(),
            forall|u: int| 0 <= u < old(self).vars@.len() && u != var_of(lit) ==> #[trigger] final(self).vars@[u] == old(self).vars@[u],
            ({
                let a = final(self).vars@[var_of(lit)];
                let b = old(self).vars@[var_of(lit)];
                let s = sign_of(lit).slot();
                &&& a.value == b.value && a.phase == b.phase && a.uip_mark == b.uip_mark
                &&& a.decision_level == b.decision_level && a.ante == b.ante && a.ante_ind == b.ante_ind
                &&& a.bin_imp == b.bin_imp && a.watch == b.watch
                &&& a.activity@.len() == 2
                &&& a.activity@[s] == b.activity@[s] + 1
                &&& a.activity@[1 - s] == b.activity@[1 - s]
            }),
    {
        let v = to_var(&lit);
        let s = sign(&lit).index();
        self.vars[v].activity[s] += 1;
    }
}

impl CnfManager {
    /// Loads one more clause `c` of the formula: a binary clause goes to the
    /// implication lists, a longer one to the pool with its first two
    /// literals watched; the activities count the literals of both kinds.
    fn load_clause(&mut self, imp: &mut [Vec<Vec<i32>>; 2], c: &Vec<i32>, Ghost(cs): Ghost<Seq<Seq<i32>>>)
        requires
            old(self).loading(cs, old(self).n()),
            imps_built(*old(imp), cs, old(self).n()),
            c@.len() >= 1,
            forall|k: int| 0 <= k < c@.len() ==> #[trigger] c@[k] != 0 && var_of(c@[k]) <= old(self).n(),
            occurrences_fit(cs.push(c@), old(self).n()),
        ensures
            final(self).loading(cs.push(c@), old(self).n()),
            imps_built(*final(imp), cs.push(c@), old(self).n()),
    {
        let ghost n = self.n();
        let ghost cs2 = cs.push(c@);
        proof {
            assert(cs2.drop_last() =~= cs);
            assert(cs2.last() == c@);
        }
        let len = c.len();
        if len == 1 {
            proof {
                assert(c@.len() == 1);
                assert(cs2.last() == c@);
                assert(cs2.last().len() == 1);
                assert(nonunit_lits(cs2) =~= nonunit_lits(cs));
                assert(long_pool(cs2) =~= long_pool(cs));
                assert forall|v: int| #![trigger imp@[0]@[v]@] #![trigger imp@[1]@[v]@] 1 <= v <= n implies imp@[0]@[v]@ == bin_imps(cs2, lit_of(v, 0) as i32)
                    && imp@[1]@[v]@ == bin_imps(cs2, lit_of(v, 1) as i32) by {
                    assert(bin_imps(cs2, lit_of(v, 0) as i32) =~= bin_imps(cs, lit_of(v, 0) as i32));
                    assert(bin_imps(cs2, lit_of(v, 1) as i32) =~= bin_imps(cs, lit_of(v, 1) as i32));
                }
                assert forall|v: int| 1 <= v <= n implies {
                    let x = #[trigger] self.vars@[v];
                    &&& x.watch@[0]@ == long_watches(cs2, lit_of(v, 0) as i32)
                    &&& x.watch@[1]@ == long_watches(cs2, lit_of(v, 1) as i32)
                } by {
                    assert(cs2.last().len() == 1);
                    assert(long_watches(cs2, lit_of(v, 0) as i32) == long_watches(cs, lit_of(v, 0) as i32) + Seq::<usize>::empty());
                    assert(long_watches(cs2, lit_of(v, 0) as i32) =~= long_watches(cs, lit_of(v, 0) as i32));
                    assert(long_watches(cs2, lit_of(v, 1) as i32) == long_watches(cs, lit_of(v, 1) as i32) + Seq::<usize>::empty());
                    assert(long_watches(cs2, lit_of(v, 1) as i32) =~= long_watches(cs, lit_of(v, 1) as i32));
                }
            }
        } else if len == 2 {
            self.load_binary(imp, c, Ghost(cs));
        } else {
            self.load_long(c, Ghost(cs));
            proof {
                assert forall|v: int| #![trigger imp@[0]@[v]@] #![trigger imp@[1]@[v]@] 1 <= v <= n implies imp@[0]@[v]@ == bin_imps(cs2, lit_of(v, 0) as i32)
                    && imp@[1]@[v]@ == bin_imps(cs2, lit_of(v, 1) as i32) by {
                    assert(bin_imps(cs2, lit_of(v, 0) as i32) =~= bin_imps(cs, lit_of(v, 0) as i32));
                    assert(bin_imps(cs2, lit_of(v, 1) as i32) =~= bin_imps(cs, lit_of(v, 1) as i32));
                }
            }
        }
    }

    /// Loads the binary clause `c`.
    #[verifier::rlimit(40)]
    fn load_binary(&mut self, imp: &mut [Vec<Vec<i32>>; 2], c: &Vec<i32>, Ghost(cs): Ghost<Seq<Seq<i32>>>)
        requires
            old(self).loading(cs, old(self).n()),
            imps_built(*old(imp), cs, old(self).n()),
            c@.len() == 2,
            forall|k: int| 0 <= k < c@.len() ==> #[trigger] c@[k] != 0 && var_of(c@[k]) <= old(self).n(),
            occurrences_fit(cs.push(c@), old(self).n()),
        ensures
            final(self).loading(cs.push(c@), old(self).n()),
            imps_built(*final(imp), cs.push(c@), old(self).n()),
    {
        let ghost n = self.n();
        let ghost cs2 = cs.push(c@);
        proof {
            assert(cs2.drop_last() =~= cs);
            assert(cs2.last() == c@);
        }
        let l0 = c[0];
        let l1 = c[1];
        proof {
            assert(c@[0] != 0 && c@[1] != 0);
        }
        let ghost imp0 = *imp;
        let s0 = sign(&l0).index();
        let v0 = to_var(&l0);
        imp[s0][v0].push(l1);
        let s1 = sign(&l1).index();
        let v1 = to_var(&l1);
        imp[s1][v1].push(l0);
        proof {
            assert forall|v: int| #![trigger imp@[0]@[v]@] #![trigger imp@[1]@[v]@] 1 <= v <= n implies imp@[0]@[v]@ == bin_imps(cs2, lit_of(v, 0) as i32)
                && imp@[1]@[v]@ == bin_imps(cs2, lit_of(v, 1) as i32) by {
                assert(bin_imps(cs2, lit_of(v, 0) as i32) =~= bin_imps(cs, lit_of(v, 0) as i32) + (if l0 == lit_of(v, 0) as i32 { seq![l1] } else { Seq::empty() }) + (if l1 == lit_of(v, 0) as i32 { seq![l0] } else { Seq::empty() }));
                assert(bin_imps(cs2, lit_of(v, 1) as i32) =~= bin_imps(cs, lit_of(v, 1) as i32) + (if l0 == lit_of(v, 1) as i32 { seq![l1] } else { Seq::empty() }) + (if l1 == lit_of(v, 1) as i32 { seq![l0] } else { Seq::empty() }));
                if v == v0 || v == v1 {
                    assert(l0 > 0 ==> l0 == lit_of(var_of(l0), 1) as i32);
                    assert(l0 < 0 ==> l0 == lit_of(var_of(l0), 0) as i32);
                    assert(l1 > 0 ==> l1 == lit_of(var_of(l1), 1) as i32);
                    assert(l1 < 0 ==> l1 == lit_of(var_of(l1), 0) as i32);
                }
                assert(imp@[0]@[v]@ =~= imp0@[0]@[v]@ + (if l0 == lit_of(v, 0) as i32 { seq![l1] } else { Seq::empty() }) + (if l1 == lit_of(v, 0) as i32 { seq![l0] } else { Seq::empty() }));
                assert(imp@[1]@[v]@ =~= imp0@[1]@[v]@ + (if l0 == lit_of(v, 1) as i32 { seq![l1] } else { Seq::empty() }) + (if l1 == lit_of(v, 1) as i32 { seq![l0] } else { Seq::empty() }));
            }
        }
        let ghost pre = *self;
        proof {
            assert(c@ =~= seq![l0, l1]);
            assert(nonunit_lits(cs2) =~= nonunit_lits(cs) + seq![l0, l1]);
            let base = nonunit_lits(cs);
            assert(base + seq![l0, l1] =~= base.push(l0).push(l1));
            assert(var_occ(nonunit_lits(cs2), v0 as int) <= i32::MAX);
            lemma_occ_push(base, l0, lit_of(v0 as int, 0) as i32);
            lemma_occ_push(base, l0, lit_of(v0 as int, 1) as i32);
            lemma_occ_push(base.push(l0), l1, lit_of(v0 as int, 0) as i32);
            lemma_occ_push(base.push(l0), l1, lit_of(v0 as int, 1) as i32);
            assert(l0 > 0 ==> l0 == lit_of(v0 as int, 1) as i32);
            assert(l0 < 0 ==> l0 == lit_of(v0 as int, 0) as i32);
        }
        self.bump_activity(l0);
        proof {
            let base = nonunit_lits(cs);
            assert(var_occ(nonunit_lits(cs2), v1 as int) <= i32::MAX);
            lemma_occ_push(base, l0, lit_of(v1 as int, 0) as i32);
            lemma_occ_push(base, l0, lit_of(v1 as int, 1) as i32);
            lemma_occ_push(base.push(l0), l1, lit_of(v1 as int, 0) as i32);
            lemma_occ_push(base.push(l0), l1, lit_of(v1 as int, 1) as i32);
            assert(l0 > 0 ==> l0 == lit_of(var_of(l0), 1) as i32);
            assert(l0 < 0 ==> l0 == lit_of(var_of(l0), 0) as i32);
            assert(l1 > 0 ==> l1 == lit_of(v1 as int, 1) as i32);
            assert(l1 < 0 ==> l1 == lit_of(v1 as int, 0) as i32);
        }
        self.bump_activity(l1);
        proof {
            assert(c@ =~= seq![l0, l1]);
            assert(nonunit_lits(cs2) =~= nonunit_lits(cs) + seq![l0, l1]);
            assert(long_pool(cs2) =~= long_pool(cs));
            let base = nonunit_lits(cs);
            assert(base + seq![l0, l1] =~= base.push(l0).push(l1));
            assert forall|v: int| 1 <= v <= n implies {
                let x = #[trigger] self.vars@[v];
                &&& x.activity@[0] == bumped(0, occ(nonunit_lits(cs2), lit_of(v, 0) as i32))
                &&& x.activity@[1] == bumped(0, occ(nonunit_lits(cs2), lit_of(v, 1) as i32))
                &&& x.watch@[0]@ == long_watches(cs2, lit_of(v, 0) as i32)
                &&& x.watch@[1]@ == long_watches(cs2, lit_of(v, 1) as i32)
            } by {
                assert(long_watches(cs2, lit_of(v, 0) as i32) =~= long_watches(cs, lit_of(v, 0) as i32));
                assert(long_watches(cs2, lit_of(v, 1) as i32) =~= long_watches(cs, lit_of(v, 1) as i32));
                lemma_occ_push(base, l0, lit_of(v, 0) as i32);
                lemma_occ_push(base, l0, lit_of(v, 1) as i32);
                lemma_occ_push(base.push(l0), l1, lit_of(v, 0) as i32);
                lemma_occ_push(base.push(l0), l1, lit_of(v, 1) as i32);
                if v == v0 || v == v1 {
                    assert(l0 > 0 ==> l0 == lit_of(var_of(l0), 1) as i32);
                    assert(l0 < 0 ==> l0 == lit_of(var_of(l0), 0) as i32);
                    assert(l1 > 0 ==> l1 == lit_of(var_of(l1), 1) as i32);
                    assert(l1 < 0 ==> l1 == lit_of(var_of(l1), 0) as i32);
                }
            }
        }
    }

    /// Loads the clause `c` of three or more literals.
    fn load_long(&mut self, c: &Vec<i32>, Ghost(cs): Ghost<Seq<Seq<i32>>>)
        requires
            old(self).loading(cs, old(self).n()),
            c@.len() >= 3,
            forall|k: int| 0 <= k < c@.len() ==> #[trigger] c@[k] != 0 && var_of(c@[k]) <= old(self).n(),
            occurrences_fit(cs.push(c@), old(self).n()),
        ensures
            final(self).loading(cs.push(c@), old(self).n()),
    {
        let ghost n = self.n();
        let ghost cs2 = cs.push(c@);
        proof {
            assert(cs2.drop_last() =~= cs);
            assert(cs2.last() == c@);
        }
        let len = c.len();
        let l0 = c[0];
        let l1 = c[1];
        proof {
            assert(c@[0] != 0 && c@[1] != 0);
        }
        let off = self.lit_pool.len();
        let ghost pre = *self;
        self.push_watch(l0, off);
        self.push_watch(l1, off);
        proof {
            assert forall|v: int| 1 <= v <= n implies {
                let x = #[trigger] self.vars@[v];
                &&& x.watch@[0]@ == long_watches(cs2, lit_of(v, 0) as i32)
                &&& x.watch@[1]@ == long_watches(cs2, lit_of(v, 1) as i32)
            } by {
                assert(long_watches(cs2, lit_of(v, 0) as i32) =~= long_watches(cs, lit_of(v, 0) as i32) + (if l0 == lit_of(v, 0) as i32 { seq![off] } else { Seq::empty() }) + (if l1 == lit_of(v, 0) as i32 { seq![off] } else { Seq::empty() }));
                assert(long_watches(cs2, lit_of(v, 1) as i32) =~= long_watches(cs, lit_of(v, 1) as i32) + (if l0 == lit_of(v, 1) as i32 { seq![off] } else { Seq::empty() }) + (if l1 == lit_of(v, 1) as i32 { seq![off] } else { Seq::empty() }));
                if v == var_of(l0) || v == var_of(l1) {
                    assert(l0 > 0 ==> l0 == lit_of(var_of(l0), 1) as i32);
                    assert(l0 < 0 ==> l0 == lit_of(var_of(l0), 0) as i32);
                    assert(l1 > 0 ==> l1 == lit_of(var_of(l1), 1) as i32);
                    assert(l1 < 0 ==> l1 == lit_of(var_of(l1), 0) as i32);
                }
            }
            assert(lit_at(l0, 0, 0) == false && lit_at(l0, 0, 1) == false);
            assert(lit_at(l1, 0, 0) == false && lit_at(l1, 0, 1) == false);
            assert(self.vars@[0].watch@[0]@ =~= pre.vars@[0].watch@[0]@);
            assert(self.vars@[0].watch@[1]@ =~= pre.vars@[0].watch@[1]@);
        }
        let ghost base = nonunit_lits(cs);
        let ghost mid = *self;
        proof {
            assert(cs2.drop_last() =~= cs);
            assert(nonunit_lits(cs2) =~= base + c@);
        }
        let mut j: usize = 0;
        while j < len
            invariant
                j <= len,
                len == c@.len(),
                len >= 3,
                n == self.n(),
                0 <= n < i32::MAX,
                forall|k: int| 0 <= k < c@.len() ==> #[trigger] c@[k] != 0 && var_of(c@[k]) <= n,
                self.lit_pool@ == long_pool(cs) + c@.take(j as int),
                self.same_but_vars_pool(&mid),
                self.var_count == mid.var_count,
                self.vars@.len() == n + 1,
                forall|v: int| 0 <= v <= n ==> {
                    let x = #[trigger] self.vars@[v];
                    let y = mid.vars@[v];
                    &&& x.value == y.value && x.decision_level == y.decision_level && x.uip_mark == y.uip_mark
                    &&& x.phase == y.phase && x.ante == y.ante && x.ante_ind == y.ante_ind
                    &&& x.activity@.len() == 2 && x.bin_imp == y.bin_imp && x.watch == y.watch
                },
                forall|v: int| 1 <= v <= n ==> {
                    let x = #[trigger] self.vars@[v];
                    &&& x.activity@[0] == bumped(0, occ(base + c@.take(j as int), lit_of(v, 0) as i32))
                    &&& x.activity@[1] == bumped(0, occ(base + c@.take(j as int), lit_of(v, 1) as i32))
                },
                self.vars@[0].activity@ == seq![0i32, 0i32],
                forall|v: int| 1 <= v <= n ==> #[trigger] var_occ(base + c@, v) <= i32::MAX,
            decreases len - j,
        {
            let x = c[j];
            proof {
                assert(x != 0 && var_of(x) <= n);
                let vx = var_of(x);
                let pre_s = base + c@.take(j as int);
                assert(base + c@ =~= pre_s.push(x) + c@.skip(j + 1));
                lemma_occ_concat(pre_s.push(x), c@.skip(j + 1), lit_of(vx, 0) as i32);
                lemma_occ_concat(pre_s.push(x), c@.skip(j + 1), lit_of(vx, 1) as i32);
                lemma_occ_push(pre_s, x, lit_of(vx, 0) as i32);
                lemma_occ_push(pre_s, x, lit_of(vx, 1) as i32);
                assert(x > 0 ==> x == lit_of(vx, 1) as i32);
                assert(x < 0 ==> x == lit_of(vx, 0) as i32);
                assert(var_occ(base + c@, vx) <= i32::MAX);
            }
            self.bump_activity(x);
            self.lit_pool.push(x);
            proof {
                assert(c@.take(j + 1) =~= c@.take(j as int).push(x));
                assert(base + c@.take(j + 1) =~= (base + c@.take(j as int)).push(x));
                assert(long_pool(cs) + c@.take(j + 1) =~= (long_pool(cs) + c@.take(j as int)).push(x));
                assert forall|v: int| 1 <= v <= n implies {
                    let y = #[trigger] self.vars@[v];
                    &&& y.activity@[0] == bumped(0, occ(base + c@.take(j + 1), lit_of(v, 0) as i32))
                    &&& y.activity@[1] == bumped(0, occ(base + c@.take(j + 1), lit_of(v, 1) as i32))
                } by {
                    lemma_occ_push(base + c@.take(j as int), x, lit_of(v, 0) as i32);
                    lemma_occ_push(base + c@.take(j as int), x, lit_of(v, 1) as i32);
                    if v == var_of(x) {
                        assert(x > 0 ==> x == lit_of(v, 1) as i32);
                        assert(x < 0 ==> x == lit_of(v, 0) as i32);
                    }
                }
            }
            j += 1;
        }
        self.lit_pool.push(0);
        proof {
            assert(c@.take(len as int) =~= c@);
            assert(nonunit_lits(cs2) =~= base + c@);
            assert(long_pool(cs2) =~= long_pool(cs) + c@.push(0));
            assert(self.lit_pool@ =~= long_pool(cs2));
        }
    }
}

/// All literals of `cs` are nonzero and over the variables `1..=n`.
pub open spec fn clauses_in_range(cs: Seq<Seq<i32>>, n: int) -> bool {
    forall|i: int, k: int| 0 <= i < cs.len() && 0 <= k < cs[i].len() ==> #[trigger] cs[i][k] != 0 && var_of(cs[i][k]) <= n
}

/// The pool built from `cs` holds literals over the variables and ends with a `0`.
pub proof fn lemma_long_pool(cs: Seq<Seq<i32>>, n: int)
    requires
        clauses_in_range(cs, n),
        n >= 0,
    ensures
        forall|k: int| 0 <= k < long_pool(cs).len() ==> lit_in_range(#[trigger] long_pool(cs)[k], n),
        long_pool(cs).len() > 0 ==> long_pool(cs)[long_pool(cs).len() - 1] == 0,
    decreases cs.len(),
{
    if cs.len() > 0 {
        let p = cs.drop_last();
        assert forall|i: int, k: int| 0 <= i < p.len() && 0 <= k < p[i].len() implies #[trigger] p[i][k] != 0 && var_of(p[i][k]) <= n by {
            assert(p[i] == cs[i]);
        }
        lemma_long_pool(p, n);
        let c = cs.last();
        let lp = long_pool(cs);
        let e: Seq<i32> = if c.len() >= 3 { c.push(0) } else { Seq::empty() };
        assert(lp == long_pool(p) + e);
        assert forall|k: int| 0 <= k < lp.len() implies lit_in_range(#[trigger] lp[k], n) by {
            if k < long_pool(p).len() {
                assert(lp[k] == long_pool(p)[k]);
            } else {
                let j = k - long_pool(p).len();
                assert(lp[k] == e[j]);
                if j < c.len() {
                    assert(c[j] == cs[cs.len() - 1][j]);
                    assert(cs[cs.len() - 1][j] != 0 && var_of(cs[cs.len() - 1][j]) <= n);
                    assert(e[j] == c[j]);
                } else {
                    assert(e[j] == 0);
                }
            }
        }
    }
}

/// The watch lists built from `cs` are valid for the pool built from `cs`.
pub proof fn lemma_long_watches(cs: Seq<Seq<i32>>, x: i32, n: int)
    requires
        clauses_in_range(cs, n),
        long_pool(cs).len() <= usize::MAX,
    ensures
        watches_ok(long_watches(cs, x), long_pool(cs)),
    decreases cs.len(),
{
    if cs.len() > 0 {
        let p = cs.drop_last();
        assert forall|i: int, k: int| 0 <= i < p.len() && 0 <= k < p[i].len() implies #[trigger] p[i][k] != 0 && var_of(p[i][k]) <= n by {
            assert(p[i] == cs[i]);
        }
        let c = cs.last();
        let e: Seq<i32> = if c.len() >= 3 { c.push(0) } else { Seq::empty() };
        let lp = long_pool(cs);
        assert(lp == long_pool(p) + e);
        lemma_long_watches(p, x, n);
        assert forall|k: int| 0 <= k < long_pool(p).len() implies #[trigger] lp[k] == long_pool(p)[k] by {}
        lemma_watches_prefix(long_watches(p, x), long_pool(p), lp);
        let off = long_pool(p).len() as usize;
        let w: Seq<usize> = if c.len() >= 3 {
            (if c[0] == x { seq![off] } else { Seq::empty() }) + (if c[1] == x { seq![off] } else { Seq::empty() })
        } else {
            Seq::empty()
        };
        if c.len() >= 3 {
            assert(c[0] == cs[cs.len() - 1][0] && c[1] == cs[cs.len() - 1][1]);
            assert(off as int == long_pool(p).len());
            assert(lp[off as int] == e[0]);
            assert(lp[off + 1] == e[1]);
            assert(cs[cs.len() - 1][0] != 0 && cs[cs.len() - 1][1] != 0);
        }
        crate::clause_pool::lemma_long_pool_ends(p);
        assert forall|k: int| 0 <= k < w.len() implies {
            &&& #[trigger] w[k] + 2 < lp.len()
            &&& lp[w[k] as int] != 0
            &&& lp[w[k] + 1] != 0
            &&& (w[k] == 0 || lp[w[k] - 1] == 0)
        } by {
            assert(w[k] == off);
            if off > 0 {
                assert(lp[off - 1] == long_pool(p)[off - 1]);
            }
        }
        lemma_watches_append(long_watches(p, x), w, lp);
        assert(long_watches(cs, x) == long_watches(p, x) + w);
    }
}

/// The implied literals collected from `cs` are nonzero literals over the variables.
pub proof fn lemma_bin_imps(cs: Seq<Seq<i32>>, x: i32, n: int)
    requires
        clauses_in_range(cs, n),
    ensures
        forall|k: int| 0 <= k < bin_imps(cs, x).len() ==> #[trigger] bin_imps(cs, x)[k] != 0 && lit_in_range(bin_imps(cs, x)[k], n),
    decreases cs.len(),
{
    if cs.len() > 0 {
        let p = cs.drop_last();
        assert forall|i: int, k: int| 0 <= i < p.len() && 0 <= k < p[i].len() implies #[trigger] p[i][k] != 0 && var_of(p[i][k]) <= n by {
            assert(p[i] == cs[i]);
        }
        lemma_bin_imps(p, x, n);
        let c = cs.last();
        let b = bin_imps(cs, x);
        let e: Seq<i32> = if c.len() == 2 {
            (if c[0] == x { seq![c[1]] } else { Seq::empty() }) + (if c[1] == x { seq![c[0]] } else { Seq::empty() })
        } else {
            Seq::empty()
        };
        assert(b == bin_imps(p, x) + e);
        if c.len() == 2 {
            assert(c[0] == cs[cs.len() - 1][0] && c[1] == cs[cs.len() - 1][1]);
        }
        assert forall|k: int| 0 <= k < b.len() implies #[trigger] b[k] != 0 && lit_in_range(b[k], n) by {
            if k < bin_imps(p, x).len() {
                assert(b[k] == bin_imps(p, x)[k]);
            } else {
                assert(b[k] == e[k - bin_imps(p, x).len()]);
            }
        }
    }
}

impl CnfManager {
    /// Builds the clause database of the first `clause_count` clauses of
    /// `inst`, with every variable unassigned, the trail holding only its
    /// guard, and the decision level 1.
    fn build_database(inst: &SatInstance) -> (m: CnfManager)
        requires
            inst.well_formed(),
            occurrences_fit(inst.clause_seqs().take(inst.clause_count as int), inst.var_count as int),
        ensures
            m.wf(),
            m.fresh_db(inst.clause_seqs().take(inst.clause_count as int), inst.var_count as int),
    {
        let ghost cs_all = inst.clause_seqs().take(inst.clause_count as int);
        let ghost nn = inst.var_count as int;
        let n = inst.var_count as i32;
        let mut ret = CnfManager {
            var_count: n,
            vars: Vec::new(),
            var_order: Vec::new(),
            var_position: Vec::new(),
            next_var: 0,
            lit_pool: Vec::new(),
            lit_pool_size_orig: 0,
            clauses: Vec::new(),
            next_clause: 0,
            decision_stack: Vec::new(),
            assertion_level: 0,
            decision_level: 1,
            decision_count: 0,
            conflict_count: 0,
            restart_count: 0,
            conflict_lit: VecDeque::new(),
            tmp_conflict_lit: VecDeque::new(),
            conflict_clause_ind: 0,
        };
        let mut imp: [Vec<Vec<i32>>; 2] = [Vec::new(), Vec::new()];
        let nu = inst.var_count;
        let mut k: usize = 0;
        while k <= nu
            invariant
                nu == inst.var_count,
                nu < i32::MAX,
                n == nu,
                k <= nu + 1,
                ret.var_count == n,
                ret.vars@.len() == k,
                ret.var_position@.len() == k,
                imp@.len() == 2,
                imp@[0]@.len() == k,
                imp@[1]@.len() == k,
                forall|v: int| 0 <= v < k ==> {
                    let x = #[trigger] ret.vars@[v];
                    &&& x.value == VA::Free
                    &&& x.decision_level == 0
                    &&& !x.uip_mark
                    &&& !x.phase
                    &&& x.ante.is_null
                    &&& x.ante_ind == 0
                    &&& x.activity@ == seq![0i32, 0i32]
                    &&& x.bin_imp@.len() == 2
                    &&& x.watch@.len() == 2
                    &&& x.bin_imp@[0]@.len() == 0
                    &&& x.bin_imp@[1]@.len() == 0
                    &&& x.watch@[0]@.len() == 0
                    &&& x.watch@[1]@.len() == 0
                    &&& ret.var_position@[v] == 0
                },
                forall|v: int| 0 <= v < k ==> (#[trigger] imp@[0]@[v]@).len() == 0 && imp@[1]@[v]@.len() == 0,
                ret.lit_pool@.len() == 0,
                ret.var_order@.len() == 0,
                ret.next_var == 0,
                ret.clauses@.len() == 0,
                ret.next_clause == 0,
                ret.decision_stack@.len() == 0,
                ret.assertion_level == 0,
                ret.decision_level == 1,
                ret.decision_count == 0,
                ret.conflict_count == 0,
                ret.restart_count == 0,
                ret.conflict_lit@.len() == 0,
                ret.tmp_conflict_lit@.len() == 0,
                ret.conflict_clause_ind == 0,
            decreases nu + 1 - k,
        {
            ret.vars.push(Variable::new());
            ret.var_position.push(0);
            imp[0].push(Vec::new());
            imp[1].push(Vec::new());
            k += 1;
        }
        ret.decision_stack.push(0);
        ret.vars[0].decision_level = 0;
        ret.vars[0].value = VA::Free;
        proof {
            let e = Seq::<Seq<i32>>::empty();
            assert(ret.decision_stack@ =~= seq![0i32]);
            assert(cs_all.take(0) =~= e);
            assert(ret.lit_pool@ =~= long_pool(e));
            assert forall|v: int| 1 <= v <= nn implies {
                let x = #[trigger] ret.vars@[v];
                &&& x.activity@[0] == bumped(0, occ(nonunit_lits(e), lit_of(v, 0) as i32))
                &&& x.activity@[1] == bumped(0, occ(nonunit_lits(e), lit_of(v, 1) as i32))
                &&& x.watch@[0]@ == long_watches(e, lit_of(v, 0) as i32)
                &&& x.watch@[1]@ == long_watches(e, lit_of(v, 1) as i32)
            } by {
                assert(ret.vars@[v].watch@[0]@ =~= long_watches(e, lit_of(v, 0) as i32));
                assert(ret.vars@[v].watch@[1]@ =~= long_watches(e, lit_of(v, 1) as i32));
            }
            assert(ret.vars@[0].watch@[0]@.len() == 0);
            assert(ret.loading(e, nn));
            assert forall|v: int| #![trigger imp@[0]@[v]@] #![trigger imp@[1]@[v]@] 1 <= v <= nn implies imp@[0]@[v]@ == bin_imps(e, lit_of(v, 0) as i32)
                && imp@[1]@[v]@ == bin_imps(e, lit_of(v, 1) as i32) by {
                assert(imp@[0]@[v]@.len() == 0);
                assert(imp@[1]@[v]@.len() == 0);
                assert(imp@[0]@[v]@ =~= bin_imps(e, lit_of(v, 0) as i32));
                assert(imp@[1]@[v]@ =~= bin_imps(e, lit_of(v, 1) as i32));
            }
            assert(imp@[0]@[0]@.len() == 0);
            assert(imp@[1]@[0]@.len() == 0);
            assert(imps_built(imp, e, nn));
        }
        let cc = inst.clause_count;
        let mut i: usize = 0;
        while i < cc
            invariant
                cc == inst.clause_count,
                inst.well_formed(),
                cs_all == inst.clause_seqs().take(inst.clause_count as int),
                nn == inst.var_count,
                i <= cc,
                ret.loading(cs_all.take(i as int), nn),
                imps_built(imp, cs_all.take(i as int), nn),
                occurrences_fit(cs_all, nn),
            decreases cc - i,
        {
            let c = &inst.clauses[i];
            proof {
                assert(c@ == inst.clause_seqs()[i as int]);
                assert(cs_all.take(i + 1) =~= cs_all.take(i as int).push(c@));
                assert(ret.n() == nn);
            }
            proof {
                assert forall|v: int| 1 <= v <= nn implies #[trigger] var_occ(nonunit_lits(cs_all.take(i as int).push(c@)), v) <= i32::MAX by {
                    lemma_nonunit_prefix_occ(cs_all, i + 1, lit_of(v, 0) as i32);
                    lemma_nonunit_prefix_occ(cs_all, i + 1, lit_of(v, 1) as i32);
                    assert(var_occ(nonunit_lits(cs_all), v) <= i32::MAX);
                }
            }
            ret.load_clause(&mut imp, c, Ghost(cs_all.take(i as int)));
            i += 1;
        }
        proof {
            assert(cs_all.take(cc as int) =~= cs_all);
            assert forall|a: int, b: int| 0 <= a < cs_all.len() && 0 <= b < cs_all[a].len() implies #[trigger] cs_all[a][b] != 0 && var_of(cs_all[a][b]) <= nn by {
                assert(cs_all[a] == inst.clauses@[a]@);
            }
            lemma_long_pool(cs_all, nn);
        }
        ret.lit_pool_size_orig = ret.lit_pool.len();
        let mut v: usize = 1;
        proof {
            assert(ret.loading_core(cs_all, nn));
        }
        while v <= nu
            invariant
                1 <= v <= nu + 1,
                nu == inst.var_count,
                nn == nu,
                n == nu,
                nu < i32::MAX,
                ret.loading_core(cs_all, nn),
                ret.lit_pool@.len() <= usize::MAX,
                ret.lit_pool_size_orig == ret.lit_pool@.len(),
                imps_built(imp, cs_all, nn),
                clauses_in_range(cs_all, nn),
                forall|u: int| 1 <= u < v ==> {
                    let x = #[trigger] ret.vars@[u];
                    &&& x.bin_imp@[0]@ == seq![0i32, lit_of(u, 0) as i32, 0i32] + bin_imps(cs_all, lit_of(u, 0) as i32) + seq![0i32]
                    &&& x.bin_imp@[1]@ == seq![0i32, lit_of(u, 1) as i32, 0i32] + bin_imps(cs_all, lit_of(u, 1) as i32) + seq![0i32]
                },
                forall|u: int| v <= u <= nn ==> (#[trigger] ret.vars@[u]).bin_imp@[0]@.len() == 0 && ret.vars@[u].bin_imp@[1]@.len() == 0,
            decreases nu + 1 - v,
        {
            let mut j: usize = 0;
            let ghost pre_v = ret;
            while j < 2
                invariant
                    j <= 2,
                    1 <= v <= nu,
                    nu < i32::MAX,
                    imps_built(imp, cs_all, nn),
                    nn == nu,
                    ret.vars@.len() == pre_v.vars@.len(),
                    pre_v.vars@.len() == nn + 1,
                    ret.same_but_vars(&pre_v),
                    forall|u: int| 0 <= u < ret.vars@.len() && u != v ==> #[trigger] ret.vars@[u] == pre_v.vars@[u],
                    ({
                        let x = ret.vars@[v as int];
                        let y = pre_v.vars@[v as int];
                        &&& x.value == y.value && x.decision_level == y.decision_level && x.uip_mark == y.uip_mark
                        &&& x.phase == y.phase && x.ante == y.ante && x.ante_ind == y.ante_ind
                        &&& x.activity == y.activity && x.watch == y.watch
                        &&& x.bin_imp@.len() == 2
                        &&& forall|t: int| 0 <= t < j ==> #[trigger] x.bin_imp@[t]@ == seq![0i32, lit_of(v as int, t) as i32, 0i32] + bin_imps(cs_all, lit_of(v as int, t) as i32) + seq![0i32]
                        &&& forall|t: int| j <= t < 2 ==> #[trigger] x.bin_imp@[t] == y.bin_imp@[t]
                    }),
                decreases 2 - j,
            {
                let lit: i32 = if j == 1 { v as i32 } else { -(v as i32) };
                let mut l: Vec<i32> = Vec::new();
                l.push(0);
                l.push(lit);
                l.push(0);
                let m = imp[j][v].len();
                let mut q: usize = 0;
                while q < m
                    invariant
                        q <= m,
                        j < 2,
                        1 <= v <= nu,
                        imps_built(imp, cs_all, nn),
                        nn == nu,
                        m == imp@[j as int]@[v as int]@.len(),
                        l@ == seq![0i32, lit, 0i32] + imp@[j as int]@[v as int]@.take(q as int),
                    decreases m - q,
                {
                    l.push(imp[j][v][q]);
                    proof {
                        assert(imp@[j as int]@[v as int]@.take(q + 1) =~= imp@[j as int]@[v as int]@.take(q as int).push(imp@[j as int]@[v as int]@[q as int]));
                    }
                    q += 1;
                }
                l.push(0);
                proof {
                    assert(imp@[j as int]@[v as int]@.take(m as int) =~= imp@[j as int]@[v as int]@);
                    assert(lit == lit_of(v as int, j as int) as i32);
                    if j == 0 {
                        assert(imp@[0]@[v as int]@ == bin_imps(cs_all, lit_of(v as int, 0) as i32));
                    } else {
                        assert(imp@[1]@[v as int]@ == bin_imps(cs_all, lit_of(v as int, 1) as i32));
                    }
                    assert(l@ =~= seq![0i32, lit, 0i32] + bin_imps(cs_all, lit_of(v as int, j as int) as i32) + seq![0i32]);
                }
                ret.vars[v].bin_imp[j] = l;
                j += 1;
            }
            v += 1;
        }
        proof {
            assert(ret.fresh_db(cs_all, nn)) by {
                assert forall|u: int| 1 <= u <= nn implies fresh_slot(#[trigger] ret.vars@[u], u, 0, cs_all) && fresh_slot(ret.vars@[u], u, 1, cs_all) by {}
                assert forall|u: int| 0 <= u <= nn implies #[trigger] ret.var_position@[u] == 0 by {
                    assert(ret.vars@[u].value == VA::Free);
                }
                assert forall|u: int| 0 <= u <= nn implies {
                    let x = #[trigger] ret.vars@[u];
                    &&& x.value == VA::Free
                    &&& x.decision_level == 0
                    &&& !x.uip_mark
                    &&& !x.phase
                    &&& x.ante.is_null
                    &&& x.ante_ind == 0
                } by {}
            }
            assert forall|u: int| 0 <= u <= ret.n() implies #[trigger] ret.var_wf(u) by {
                let x = ret.vars@[u];
                if u >= 1 {
                    lemma_bin_imps(cs_all, lit_of(u, 0) as i32, nn);
                    lemma_bin_imps(cs_all, lit_of(u, 1) as i32, nn);
                    lemma_long_watches(cs_all, lit_of(u, 0) as i32, nn);
                    lemma_long_watches(cs_all, lit_of(u, 1) as i32, nn);
                    assert forall|t: int| 0 <= t < 2 implies bin_ok(#[trigger] x.bin_imp@[t]@, u, t, nn) by {
                        let b = bin_imps(cs_all, lit_of(u, t) as i32);
                        let l = x.bin_imp@[t]@;
                        assert(l == seq![0i32, lit_of(u, t) as i32, 0i32] + b + seq![0i32]);
                        assert forall|k: int| 0 <= k < l.len() implies lit_in_range(#[trigger] l[k], nn) by {
                            if 3 <= k < 3 + b.len() {
                                assert(l[k] == b[k - 3]);
                            }
                        }
                    }
                    assert(bin_ok(x.bin_imp@[0]@, u, 0, nn));
                    assert(bin_ok(x.bin_imp@[1]@, u, 1, nn));
                    assert(var_occ(nonunit_lits(cs_all), u) <= i32::MAX);
                } else {
                    assert(watches_ok(x.watch@[0]@, ret.lit_pool@));
                }
            }
            assert(ret.wf_core());
        }
        ret
    }
}

impl CnfManager {
    /// Builds the solver state of the formula `sat_instance`: the clause
    /// database of its first `clause_count` clauses (see
    /// [`CnfManager::fresh_db`]), with the literals of its unit clauses
    /// assigned at level 1 and propagated (see
    /// [`CnfManager::assert_unit_clauses`]; a conflict there leaves decision
    /// level 0): at level 1 every unit clause's literal is true and the trail
    /// is closed under the binary clauses, and a variable assigned without a
    /// reason is that of a unit clause.
    ///
    /// Returns `None` exactly when two unit clauses are opposite.
    pub fn new(sat_instance: &SatInstance) -> (r: Option<CnfManager>)
        requires
            sat_instance.well_formed(),
            occurrences_fit(sat_instance.clause_seqs().take(sat_instance.clause_count as int), sat_instance.var_count as int),
        ensures
            r is None <==> sat_instance.opposite_units(),
            r matches Some(m) ==> {
                &&& m.wf()
                &&& m.var_count == sat_instance.var_count
                &&& 0 <= m.decision_level <= 1
                &&& m.conflict_count == 1 - m.decision_level
                &&& m.decision_level == 1 ==> forall|u: int|
                    0 <= u < sat_instance.clause_count && sat_instance.is_unit(u) ==> #[trigger] m.is_true(
                        sat_instance.clauses@[u]@[0],
                    )
                &&& m.decision_level == 1 ==> trail_closed(m.vars@, m.decision_stack@, 1)
                &&& m.decision_level == 1 ==> forall|v: int|
                    0 <= v <= m.n() && (#[trigger] m.vars@[v]).value != VA::Free && m.vars@[v].ante.is_null
                        ==> sat_instance.unit_on(v)
                &&& m.decision_level == 0 ==> exists|u: int| 0 <= u < sat_instance.clause_count && #[trigger] sat_instance.is_unit(u)
                &&& m.decision_level == 1 ==> forall|v: int|
                    1 <= v <= m.n() ==> {
                        let cs = sat_instance.clause_seqs().take(sat_instance.clause_count as int);
                        &&& (#[trigger] m.vars@[v]).activity@[0] == occ(nonunit_lits(cs), lit_of(v, 0) as i32)
                        &&& m.vars@[v].activity@[1] == occ(nonunit_lits(cs), lit_of(v, 1) as i32)
                        &&& m.vars@[v].bin_imp@[0]@ == seq![0i32, lit_of(v, 0) as i32, 0i32] + bin_imps(cs, lit_of(v, 0) as i32)
                            + seq![0i32]
                        &&& m.vars@[v].bin_imp@[1]@ == seq![0i32, lit_of(v, 1) as i32, 0i32] + bin_imps(cs, lit_of(v, 1) as i32)
                            + seq![0i32]
                    }
                &&& same_clauses(
                    m.lit_pool@,
                    long_pool(sat_instance.clause_seqs().take(sat_instance.clause_count as int)),
                    m.lit_pool_size_orig as int,
                )
                &&& m.decision_count == 0
                &&& m.restart_count == 0
                &&& m.var_order@.len() == 0
                &&& forall|v: int| 0 <= v <= m.n() ==> #[trigger] m.var_position@[v] == 0
                &&& m.next_var == 0
                &&& m.clauses@.len() == 0
                &&& m.lit_pool_size_orig == long_pool(sat_instance.clause_seqs().take(sat_instance.clause_count as int)).len()
                &&& m.lit_pool@.len() >= m.lit_pool_size_orig
            },
    {
        let mut ret = Self::build_database(sat_instance);
        let ghost cs_all = sat_instance.clause_seqs().take(sat_instance.clause_count as int);
        let ghost nn = sat_instance.var_count as int;
        let ghost b = ret;
        let cc = sat_instance.clause_count;
        let mut i: usize = 0;
        while i < cc
            invariant
                cc == sat_instance.clause_count,
                sat_instance.well_formed(),
                nn == sat_instance.var_count,
                i <= cc,
                ret.wf(),
                ret.n() == nn,
                ret.decision_level == 1,
                ret.decision_count == 0,
                ret.conflict_count == 0,
                ret.restart_count == 0,
                ret.var_order@.len() == 0,
                ret.var_position@ == b.var_position@,
                forall|v: int| 0 <= v <= nn ==> #[trigger] b.var_position@[v] == 0,
                ret.next_var == 0,
                ret.clauses@.len() == 0,
                ret.lit_pool_size_orig == long_pool(cs_all).len(),
                ret.lit_pool@.len() == ret.lit_pool_size_orig,
                ret.lit_pool@ == long_pool(cs_all),
                cs_all == sat_instance.clause_seqs().take(sat_instance.clause_count as int),
                forall|v: int| 0 <= v <= nn ==> !(#[trigger] ret.vars@[v]).uip_mark,
                forall|k: int| 1 <= k < ret.decision_stack@.len() ==> ret.is_true(#[trigger] ret.decision_stack@[k]),
                forall|u: int| 0 <= u < i && sat_instance.is_unit(u) ==> #[trigger] ret.is_true(sat_instance.clauses@[u]@[0]),
                forall|v: int| 0 <= v <= nn && (#[trigger] ret.vars@[v]).value != VA::Free ==>
                    exists|u: int| 0 <= u < i && sat_instance.is_unit(u) && var_of(#[trigger] sat_instance.clauses@[u]@[0]) == v,
                b.fresh_db(cs_all, nn),
                ret.vars@.len() == b.vars@.len(),
                forall|v: int| 0 <= v <= nn ==> {
                    &&& (#[trigger] ret.vars@[v]).activity == b.vars@[v].activity
                    &&& ret.vars@[v].bin_imp == b.vars@[v].bin_imp
                },
            decreases cc - i,
        {
            if sat_instance.clauses[i].len() == 1 {
                let lit = sat_instance.clauses[i][0];
                proof {
                    assert(sat_instance.clauses@[i as int]@[0] == lit);
                    assert(lit != 0 && var_of(lit) <= nn);
                }
                if ret.free(&lit) {
                    let ghost pre = ret;
                    ret.decision_stack.push(lit);
                    proof {
                        lemma_stack_push(pre, ret, lit);
                        lemma_wf_frame(pre, ret);
                    }
                    ret.set_literal(lit, ArrTuple::new(), 0);
                    proof {
                        assert forall|v: int| 0 <= v <= nn implies !(#[trigger] ret.vars@[v]).uip_mark by {
                            assert(!pre.vars@[v].uip_mark);
                        }
                        assert forall|v: int| 0 <= v <= nn implies {
                            &&& (#[trigger] ret.vars@[v]).activity == b.vars@[v].activity
                            &&& ret.vars@[v].bin_imp == b.vars@[v].bin_imp
                        } by {
                            assert(pre.vars@[v].activity == b.vars@[v].activity);
                        }
                        assert forall|k: int| 1 <= k < ret.decision_stack@.len() implies ret.is_true(#[trigger] ret.decision_stack@[k]) by {
                            if k < pre.decision_stack@.len() {
                                let x = pre.decision_stack@[k];
                                assert(pre.is_true(x));
                                assert(x != 0);
                                assert(var_of(x) != var_of(lit));
                            }
                        }
                        assert forall|u: int| 0 <= u < i + 1 && sat_instance.is_unit(u) implies #[trigger] ret.is_true(sat_instance.clauses@[u]@[0]) by {
                            if u < i {
                                let l = sat_instance.clauses@[u]@[0];
                                assert(pre.is_true(l));
                                assert(var_of(l) != var_of(lit));
                            }
                        }
                        assert forall|v: int| 0 <= v <= nn && (#[trigger] ret.vars@[v]).value != VA::Free implies
                            exists|u: int| 0 <= u < i + 1 && sat_instance.is_unit(u) && var_of(#[trigger] sat_instance.clauses@[u]@[0]) == v by {
                            if v == var_of(lit) {
                                assert(sat_instance.is_unit(i as int) && var_of(sat_instance.clauses@[i as int]@[0]) == v);
                            } else {
                                assert(pre.vars@[v].value != VA::Free);
                            }
                        }
                    }
                } else if ret.bad(&lit) {
                    proof {
                        let v = var_of(lit);
                        assert(ret.vars@[v].value != VA::Free);
                        let u = choose|u: int| 0 <= u < i && sat_instance.is_unit(u) && var_of(#[trigger] sat_instance.clauses@[u]@[0]) == v;
                        let l = sat_instance.clauses@[u]@[0];
                        assert(ret.is_true(l));
                        assert(l == -lit);
                        assert(sat_instance.is_unit(i as int));
                        assert(0 <= u < sat_instance.clause_count && 0 <= i < sat_instance.clause_count && sat_instance.is_unit(u) && sat_instance.is_unit(i as int)
                            && sat_instance.clauses@[u]@[0] == -sat_instance.clauses@[i as int]@[0]);
                        assert(sat_instance.opposite_units());
                    }
                    return None;
                } else {
                    proof {
                        assert(ret.is_true(lit));
                    }
                }
            }
            proof {
                assert forall|v: int| 0 <= v <= nn && (#[trigger] ret.vars@[v]).value != VA::Free implies
                    exists|u: int| 0 <= u < i + 1 && sat_instance.is_unit(u) && var_of(#[trigger] sat_instance.clauses@[u]@[0]) == v by {
                    let u = choose|u: int| 0 <= u < i && sat_instance.is_unit(u) && var_of(#[trigger] sat_instance.clauses@[u]@[0]) == v;
                }
            }
            i += 1;
        }
        proof {
            if sat_instance.opposite_units() {
                let (a, c) = choose|a: int, c: int|
                    0 <= a < sat_instance.clause_count && 0 <= c < sat_instance.clause_count && sat_instance.is_unit(a) && sat_instance.is_unit(c)
                        && sat_instance.clauses@[a]@[0] == -sat_instance.clauses@[c]@[0];
                assert(ret.is_true(sat_instance.clauses@[a]@[0]));
                assert(ret.is_true(sat_instance.clauses@[c]@[0]));
                assert(false);
            }
        }
        let ghost before = ret;
        let r = ret.assert_unit_clauses();
        proof {
            if !r {
                let x = before.decision_stack@[1];
                assert(before.is_true(x));
                assert(before.vars@[var_of(x)].value != VA::Free);
                assert(0 <= var_of(x) <= nn);
                let u = choose|u: int| 0 <= u < cc && sat_instance.is_unit(u) && var_of(#[trigger] sat_instance.clauses@[u]@[0]) == var_of(x);
                assert(sat_instance.is_unit(u));
            }
            if r {
                assert forall|v: int|
                    0 <= v <= ret.n() && (#[trigger] ret.vars@[v]).value != VA::Free && ret.vars@[v].ante.is_null
                        implies sat_instance.unit_on(v) by {
                    assert(before.vars@[v].value != VA::Free);
                    let u = choose|u: int| 0 <= u < cc && sat_instance.is_unit(u) && var_of(#[trigger] sat_instance.clauses@[u]@[0]) == v;
                }
                assert forall|u: int| 0 <= u < sat_instance.clause_count && sat_instance.is_unit(u) implies
                    #[trigger] ret.is_true(sat_instance.clauses@[u]@[0]) by {
                    let l = sat_instance.clauses@[u]@[0];
                    assert(before.is_true(l));
                    assert(before.vars@[var_of(l)].value != VA::Free);
                }
            }
            assert forall|v: int| 0 <= v <= ret.n() implies #[trigger] ret.var_position@[v] == 0 by {
                assert(before.var_position@[v] == 0);
            }
            if ret.decision_level == 1 {
                assert forall|v: int| 1 <= v <= ret.n() implies {
                    &&& (#[trigger] ret.vars@[v]).activity@[0] == occ(nonunit_lits(cs_all), lit_of(v, 0) as i32)
                    &&& ret.vars@[v].activity@[1] == occ(nonunit_lits(cs_all), lit_of(v, 1) as i32)
                    &&& ret.vars@[v].bin_imp@[0]@ == seq![0i32, lit_of(v, 0) as i32, 0i32] + bin_imps(cs_all, lit_of(v, 0) as i32)
                        + seq![0i32]
                    &&& ret.vars@[v].bin_imp@[1]@ == seq![0i32, lit_of(v, 1) as i32, 0i32] + bin_imps(cs_all, lit_of(v, 1) as i32)
                        + seq![0i32]
                } by {
                    assert(before.vars@[v].activity == b.vars@[v].activity);
                    assert(fresh_slot(b.vars@[v], v, 0, cs_all) && fresh_slot(b.vars@[v], v, 1, cs_all));
                }
            }
        }
        Some(ret)
    }
}

/// Law: the literal [`CnfManager::set_literal`] assigns is afterwards true
/// (what [`CnfManager::good`] and [`SET`] report), not free, and its
/// negation is false (what [`CnfManager::bad`] reports).
pub proof fn law_set_literal_makes_true(before: CnfManager, after: CnfManager, lit: i32, ante: ArrTuple, ind: usize)
    requires
        lit != 0,
        lit != i32::MIN,
        after.var_set(&before, var_of(lit), sign_of(lit), ante, ind, before.decision_level),
    ensures
        after.is_true(lit),
        !after.is_free(lit),
        after.is_false((-lit) as i32),
{
}

/// Whether `lit` is assigned true in `m` (the `SET` test of the solver).
#[allow(non_snake_case)]
pub fn SET(lit: &i32, m: &CnfManager) -> (r: bool)
    requires
        m.wf_core(),
        lit_in_range(*lit, m.n()),
    ensures
        r == m.is_true(*lit),
{
    m.good(lit)
}

/// The score of variable `var` in `m` (the `SCORE` of the solver).
#[allow(non_snake_case)]
pub fn SCORE(var: &i32, m: &CnfManager) -> (r: i32)
    requires
        m.wf_core(),
        0 <= *var <= m.n(),
    ensures
        r == m.spec_weight(*var as int),
{
    m.weight(var)
}
} // verus!
