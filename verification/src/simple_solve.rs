//! A small search solver over [`Instance`]: it tries assignments of the
//! variables to search and checks every clause.
use crate::structs::{all_satisfied, clause_in_range, clause_satisfied, lit_true, Clause, Instance};
use vstd::prelude::*;

verus! {

/// The identity on booleans.
pub fn id(x: bool) -> (r: bool)
    ensures
        r == x,
{
    x
}

/// Boolean negation.
pub fn not(x: bool) -> (r: bool)
    ensures
        r == !x,
{
    !x
}

/// The literal of variable `var` with polarity `pos`.
pub fn lit_num(var: usize, pos: bool) -> (r: i32)
    requires
        var <= i32::MAX,
    ensures
        r == if pos {
            var as int
        } else {
            -(var as int)
        },
{
    if pos {
        var as i32
    } else {
        -(var as i32)
    }
}

/// Whether some literal of `clause` is true under the assignment.
fn clause_check(clause: &Clause, instance: &Instance) -> (r: bool)
    requires
        clause_in_range(*clause, instance.assignment@.len() as int),
    ensures
        r == clause_satisfied(*clause, instance.assignment@),
{
    broadcast use vstd::std_specs::hash::group_hash_axioms;

    let ghost lits = clause.literals@;
    let ghost mut visited: Set<i32> = Set::empty();
    for literal in it: clause.literals.iter()
        invariant
            clause_in_range(*clause, instance.assignment@.len() as int),
            lits == clause.literals@,
            it.seq().unref().to_set() == lits,
            forall|i: int| 0 <= i < it.index() ==> #[trigger] visited.contains(*it.seq()[i]),
            forall|l: i32| #[trigger] visited.contains(l) ==> lits.contains(l) && !lit_true(l, instance.assignment@),
    {
        let lit = *literal;
        proof {
            assert(it.seq().unref()[it.index()] == lit);
            assert(lits.contains(lit));
        }
        let val = if lit > 0 {
            instance.assignment[(lit - 1) as usize]
        } else {
            instance.assignment[(-lit - 1) as usize]
        };
        let s = if lit > 0 {
            id(val)
        } else {
            not(val)
        };
        if s {
            proof {
                assert(lit_true(lit, instance.assignment@));
            }
            return true;
        }
        proof {
            visited = visited.insert(lit);
        }
    }
    proof {
        assert forall|l: i32| lits.contains(l) implies visited.contains(l) by {
        }
    }
    false
}

/// Whether every clause has a true literal under the assignment.
pub fn check(instance: &Instance) -> (r: bool)
    requires
        instance.clauses_wf(),
    ensures
        r == all_satisfied(instance.clauses@, instance.assignment@),
{
    broadcast use vstd::std_specs::hash::group_hash_axioms;

    let ghost mut visited: Set<Clause> = Set::empty();
    for clause in it: instance.clauses.values()
        invariant
            instance.clauses_wf(),
            it.seq().unref().to_set() == instance.clauses@.values(),
            forall|i: int| 0 <= i < it.index() ==> #[trigger] visited.contains(*it.seq()[i]),
            forall|c: Clause| #[trigger] visited.contains(c) ==> clause_satisfied(c, instance.assignment@),
    {
        proof {
            assert(it.seq().unref()[it.index()] == *clause);
            assert(instance.clauses@.values().contains(*clause));
            let k = choose|k: i32| instance.clauses@.dom().contains(k) && instance.clauses@[k] == *clause;
            assert(clause_in_range(instance.clauses@[k], instance.assignment@.len() as int));
        }
        if !clause_check(clause, instance) {
            proof {
                let k = choose|k: i32| instance.clauses@.dom().contains(k) && instance.clauses@[k] == *clause;
                assert(!clause_satisfied(instance.clauses@[k], instance.assignment@));
            }
            return false;
        }
        proof {
            visited = visited.insert(*clause);
        }
    }
    proof {
        assert forall|c: Clause| instance.clauses@.values().contains(c) implies visited.contains(c) by {
        }
        assert forall|k: i32| instance.clauses@.dom().contains(k) implies #[trigger] clause_satisfied(instance.clauses@[k], instance.assignment@) by {
            assert(instance.clauses@.values().contains(instance.clauses@[k]));
            assert(visited.contains(instance.clauses@[k]));
        }
    }
    true
}

/// The `m`-th assignment the search tries below position `pos` of the
/// walk `order` (of length `k`): the variables `order[pos..k - m]` false,
/// `order[k - m..k]` true, every other one as in `a`.
pub open spec fn candidate(a: Seq<bool>, order: Seq<usize>, pos: int, m: int) -> Seq<bool> {
    Seq::new(
        a.len(),
        |x: int|
            if exists|j: int| pos <= j < order.len() - m && order[j] == x {
                false
            } else if exists|j: int| pos <= j && order.len() - m <= j < order.len() && order[j] == x {
                true
            } else {
                a[x]
            },
    )
}

/// What the search below position `pos` of `order` does, from the
/// assignment `a` to `af` with result `r`: it tries the candidates
/// `m = 0, 1, ..., k - pos` in turn and stops at the first that satisfies
/// every clause of `cs`; `r` says whether one did, and `af` is that one, or
/// the last when none did.
pub open spec fn search_outcome(
    cs: Map<i32, Clause>,
    a: Seq<bool>,
    order: Seq<usize>,
    pos: int,
    r: bool,
    af: Seq<bool>,
) -> bool {
    let k = order.len() as int;
    &&& r == exists|m: int| 0 <= m <= k - pos && all_satisfied(cs, #[trigger] candidate(a, order, pos, m))
    &&& r ==> exists|m: int|
        0 <= m <= k - pos && all_satisfied(cs, #[trigger] candidate(a, order, pos, m)) && (forall|m2: int|
            0 <= m2 < m ==> !all_satisfied(cs, #[trigger] candidate(a, order, pos, m2))) && af == candidate(a, order, pos, m)
    &&& !r ==> af == candidate(a, order, pos, k - pos)
}

/// Fixing `order[pos]` to false first: the candidates below `pos + 1` of the
/// updated assignment are those below `pos`, but the last.
pub proof fn lemma_candidate_shift(a: Seq<bool>, order: Seq<usize>, pos: int, m: int)
    requires
        0 <= pos < order.len(),
        0 <= m <= order.len() - pos - 1,
        order.no_duplicates(),
        forall|j: int| 0 <= j < order.len() ==> #[trigger] order[j] < a.len(),
    ensures
        candidate(a.update(order[pos] as int, false), order, pos + 1, m) == candidate(a, order, pos, m),
{
    let a1 = a.update(order[pos] as int, false);
    let l = candidate(a1, order, pos + 1, m);
    let r = candidate(a, order, pos, m);
    assert forall|x: int| 0 <= x < a.len() implies l[x] == r[x] by {
        if x == order[pos] as int {
            assert(pos <= pos < order.len() - m && order[pos] == x);
            if exists|j: int| pos + 1 <= j && order.len() - m <= j < order.len() && order[j] == x {
                let j = choose|j: int| pos + 1 <= j && order.len() - m <= j < order.len() && order[j] == x;
                assert(order[j] == order[pos]);
            }
        } else {
            if exists|j: int| pos <= j < order.len() - m && order[j] == x {
                let j = choose|j: int| pos <= j < order.len() - m && order[j] == x;
                assert(j != pos);
                assert(pos + 1 <= j < order.len() - m && order[j] == x);
            }
            if exists|j: int| pos <= j && order.len() - m <= j < order.len() && order[j] == x {
                let j = choose|j: int| pos <= j && order.len() - m <= j < order.len() && order[j] == x;
                assert(j != pos);
                assert(pos + 1 <= j && order.len() - m <= j < order.len() && order[j] == x);
            }
        }
    }
    assert(l =~= r);
}

/// After the candidates below `pos + 1` all failed, setting `order[pos]` to
/// true gives the last candidate below `pos`.
pub proof fn lemma_candidate_last(a: Seq<bool>, order: Seq<usize>, pos: int)
    requires
        0 <= pos < order.len(),
        order.no_duplicates(),
        forall|j: int| 0 <= j < order.len() ==> #[trigger] order[j] < a.len(),
    ensures
        candidate(a.update(order[pos] as int, false), order, pos + 1, order.len() - pos - 1).update(order[pos] as int, true)
            == candidate(a, order, pos, order.len() - pos),
{
    let k = order.len() as int;
    let a1 = a.update(order[pos] as int, false);
    let l = candidate(a1, order, pos + 1, k - pos - 1).update(order[pos] as int, true);
    let r = candidate(a, order, pos, k - pos);
    assert forall|x: int| 0 <= x < a.len() implies l[x] == r[x] by {
        if x == order[pos] as int {
            assert(pos <= pos && k - (k - pos) <= pos < k && order[pos] == x);
        } else {
            if exists|j: int| pos <= j && k - (k - pos) <= j < k && order[j] == x {
                let j = choose|j: int| pos <= j && k - (k - pos) <= j < k && order[j] == x;
                assert(j != pos);
                assert(pos + 1 <= j && k - (k - pos - 1) <= j < k && order[j] == x);
            }
        }
    }
    assert(l =~= r);
}

/// The search over the walk `order` from position `pos`: fix `order[pos]`
/// to false and search the rest; when that fails, fix it to true and check
/// (the rest of the walk is used up by then, as in the one-pass walk the
/// search makes). See [`search_outcome`].
fn subsets(instance: &mut Instance, order: &Vec<usize>, pos: usize) -> (r: bool)
    requires
        old(instance).wf(),
        pos <= order@.len(),
        order@.no_duplicates(),
        forall|j: int| 0 <= j < order@.len() ==> #[trigger] order@[j] < old(instance).assignment@.len(),
    ensures
        final(instance).wf(),
        final(instance).clauses@ == old(instance).clauses@,
        final(instance).literals@ == old(instance).literals@,
        final(instance).nbvar == old(instance).nbvar,
        final(instance).nbclauses == old(instance).nbclauses,
        final(instance).assignment@.len() == old(instance).assignment@.len(),
        search_outcome(old(instance).clauses@, old(instance).assignment@, order@, pos as int, r, final(instance).assignment@),
    decreases order@.len() - pos,
{
    let ghost a0 = instance.assignment@;
    let ghost cs = instance.clauses@;
    if pos == order.len() {
        let r = check(instance);
        proof {
            assert(candidate(a0, order@, pos as int, 0) =~= a0);
        }
        return r;
    }
    let depth = order[pos];
    instance.assignment.set(depth, false);
    let ghost a1 = instance.assignment@;
    let ghost k = order@.len() as int;
    proof {
        assert forall|m: int| 0 <= m <= order@.len() - pos - 1 implies #[trigger] candidate(a1, order@, pos + 1, m)
            == candidate(a0, order@, pos as int, m) by {
            lemma_candidate_shift(a0, order@, pos as int, m);
        }
    }
    if subsets(instance, order, pos + 1) {
        proof {
            let af = instance.assignment@;
            let m = choose|m: int|
                0 <= m <= k - (pos + 1) && all_satisfied(cs, #[trigger] candidate(a1, order@, pos + 1, m)) && (forall|m2: int|
                    0 <= m2 < m ==> !all_satisfied(cs, #[trigger] candidate(a1, order@, pos + 1, m2))) && af == candidate(a1, order@, pos + 1, m);
            assert(candidate(a1, order@, pos + 1, m) == candidate(a0, order@, pos as int, m));
            assert forall|m2: int| 0 <= m2 < m implies !all_satisfied(cs, #[trigger] candidate(a0, order@, pos as int, m2)) by {
                assert(candidate(a1, order@, pos + 1, m2) == candidate(a0, order@, pos as int, m2));
            }
        }
        return true;
    }
    instance.assignment.set(depth, true);
    proof {
        lemma_candidate_last(a0, order@, pos as int);
    }
    let r = check(instance);
    proof {
        assert forall|m2: int| 0 <= m2 < k - pos implies !all_satisfied(cs, #[trigger] candidate(a0, order@, pos as int, m2)) by {
            assert(candidate(a1, order@, pos + 1, m2) == candidate(a0, order@, pos as int, m2));
        }
        if r {
            assert(all_satisfied(cs, candidate(a0, order@, pos as int, k - pos)));
        }
    }
    r
}

/// Searches the assignments of the variables in `instance.literals` for one
/// that satisfies every clause (see [`search_outcome`]), walking them in the
/// order the set hands them out, and leaves the assignment it stopped at.
/// Returns whether it satisfies every clause.
pub fn simple_solve(instance: &mut Instance) -> (r: bool)
    requires
        old(instance).wf(),
    ensures
        final(instance).wf(),
        final(instance).clauses@ == old(instance).clauses@,
        final(instance).literals@ == old(instance).literals@,
        final(instance).assignment@.len() == old(instance).assignment@.len(),
        r ==> all_satisfied(final(instance).clauses@, final(instance).assignment@),
        exists|order: Seq<usize>|
            order.to_set() == old(instance).literals@ && order.no_duplicates() && search_outcome(
                old(instance).clauses@,
                old(instance).assignment@,
                order,
                0,
                r,
                final(instance).assignment@,
            ),
{
    broadcast use vstd::std_specs::hash::group_hash_axioms;

    let mut order: Vec<usize> = Vec::new();
    let ghost mut seen: Set<usize> = Set::empty();
    for d in it: instance.literals.iter()
        invariant
            instance.wf(),
            it.seq().unref().to_set() == instance.literals@,
            it.seq().no_duplicates(),
            order@.len() == it.index(),
            forall|i: int| 0 <= i < it.index() ==> #[trigger] order@[i] == *it.seq()[i],
            forall|i: int| 0 <= i < it.index() ==> #[trigger] seen.contains(*it.seq()[i]),
            forall|x: usize| #[trigger] seen.contains(x) <==> order@.contains(x),
            order@.no_duplicates(),
            forall|x: usize| #[trigger] seen.contains(x) ==> instance.literals@.contains(x),
    {
        proof {
            assert(it.seq().unref()[it.index()] == *d);
            assert(instance.literals@.contains(*d));
            assert forall|i: int| 0 <= i < order@.len() implies order@[i] != *d by {
                assert(order@[i] == *it.seq()[i]);
            }
        }
        let ghost pre = order@;
        let ghost seen0 = seen;
        order.push(*d);
        proof {
            seen = seen.insert(*d);
            let o = order@;
            assert(o == pre.push(*d));
            assert forall|x: usize| #[trigger] seen.contains(x) <==> o.contains(x) by {
                if x == *d {
                    assert(o[pre.len() as int] == x);
                } else {
                    if seen0.contains(x) {
                        assert(pre.contains(x));
                        let i = choose|i: int| 0 <= i < pre.len() && pre[i] == x;
                        assert(o[i] == x);
                    }
                    if o.contains(x) {
                        let i = choose|i: int| 0 <= i < o.len() && o[i] == x;
                        assert(i < pre.len());
                        assert(pre[i] == x);
                        assert(pre.contains(x));
                    }
                }
            }
        }
    }
    proof {
        assert forall|x: usize| instance.literals@.contains(x) implies seen.contains(x) by {
        }
        assert forall|x: usize| order@.to_set().contains(x) <==> instance.literals@.contains(x) by {
            if order@.to_set().contains(x) {
                assert(order@.contains(x));
                assert(seen.contains(x));
            }
            if instance.literals@.contains(x) {
                assert(seen.contains(x));
                assert(order@.contains(x));
            }
        }
        assert(order@.to_set() =~= instance.literals@);
        assert forall|j: int| 0 <= j < order@.len() implies #[trigger] order@[j] < instance.assignment@.len() by {
            assert(order@.contains(order@[j]));
            assert(seen.contains(order@[j]));
        }
    }
    subsets(instance, &order, 0)
}

/// The assignment as literals, as the solution line lists them: entry `i`
/// is `lit_num(i + 1, assignment[i])`.
pub fn assignment_literals(instance: &Instance) -> (r: Vec<i32>)
    requires
        instance.assignment@.len() < i32::MAX,
    ensures
        r@.len() == instance.assignment@.len(),
        forall|i: int| 0 <= i < r@.len() ==> #[trigger] r@[i] == if instance.assignment@[i] {
            i + 1
        } else {
            -(i + 1)
        },
{
    let mut r: Vec<i32> = Vec::new();
    let n = instance.assignment.len();
    let mut i: usize = 0;
    while i < n
        invariant
            n == instance.assignment@.len(),
            n < i32::MAX,
            i <= n,
            r@.len() == i,
            forall|k: int| 0 <= k < i ==> #[trigger] r@[k] == if instance.assignment@[k] {
                k + 1
            } else {
                -(k + 1)
            },
        decreases n - i,
    {
        let l = lit_num(i + 1, instance.assignment[i]);
        r.push(l);
        i += 1;
    }
    r
}

} // verus!
