//! Unit propagation over an [`Instance`]: the literal of every one-literal
//! clause is made true, the clauses it satisfies leave the instance and its
//! negation is struck from the others, until nothing more is forced or some
//! clause loses its last literal.
use crate::structs::{all_satisfied, clause_in_range, clause_satisfied, lit_true, Clause, Instance};
use std::collections::HashSet;
use vstd::prelude::*;

verus! {

/// The negation of a literal.
pub open spec fn negation(x: i32) -> i32 {
    (-x) as i32
}

/// Where the variable of literal `x` sits in an assignment.
pub open spec fn var_index(x: i32) -> int {
    if x > 0 {
        x - 1
    } else {
        -x - 1
    }
}

/// The set `s` holds `q` and nothing else.
pub open spec fn is_unit(s: Set<i32>, q: i32) -> bool {
    s == set![q]
}

/// What is left of the clause `c` once the literals of `p` hold: its
/// literals whose negation is not in `p`.
pub open spec fn reduced(c: Set<i32>, p: Set<i32>) -> Set<i32> {
    c.filter(|x: i32| !p.contains(negation(x)))
}

/// No literal of `p` comes with its negation.
pub open spec fn consistent(p: Set<i32>) -> bool {
    forall|x: i32| #[trigger] p.contains(x) ==> !p.contains(negation(x))
}

/// Once the literals of `p` hold, some clause of `cs` that none of them
/// satisfies is left with `l` alone.
pub open spec fn forces(cs: Map<i32, Clause>, p: Set<i32>, l: i32) -> bool {
    exists|k: i32|
        #![trigger cs[k]]
        cs.dom().contains(k) && cs[k].literals@.disjoint(p) && is_unit(reduced(cs[k].literals@, p), l)
}

/// `order` is a run of unit propagation on `cs`: each of its literals is
/// forced by the ones before it, none comes twice and none comes with its
/// negation.
pub open spec fn propagates(cs: Map<i32, Clause>, order: Seq<i32>) -> bool {
    &&& forall|i: int| 0 <= i < order.len() ==> #[trigger] forces(cs, order.take(i).to_set(), order[i])
    &&& order.no_duplicates()
    &&& consistent(order.to_set())
}

/// Clause `k` of `cs` as it stands in `out` once the literals of `p` hold:
/// present exactly when no literal of `p` satisfies it, and then reduced.
pub open spec fn clause_state(cs: Map<i32, Clause>, out: Map<i32, Clause>, k: i32, p: Set<i32>) -> bool {
    &&& out.dom().contains(k) <==> cs[k].literals@.disjoint(p)
    &&& out.dom().contains(k) ==> out[k].literals@ == reduced(cs[k].literals@, p)
}

/// `out` is what the literals of `p` leave of `cs`: the clauses that none
/// of them satisfies, each without the negations of `p`.
pub open spec fn propagated(cs: Map<i32, Clause>, p: Set<i32>, out: Map<i32, Clause>) -> bool {
    &&& forall|k: i32| #[trigger] out.dom().contains(k) ==> cs.dom().contains(k)
    &&& forall|k: i32| #[trigger] cs.dom().contains(k) ==> clause_state(cs, out, k, p)
}

/// Once the literals of `p` hold, every clause of `cs` that none of them
/// satisfies keeps two literals or more, or had none to begin with: nothing
/// more is forced.
pub open spec fn settled(cs: Map<i32, Clause>, p: Set<i32>) -> bool {
    forall|k: i32|
        #![trigger cs[k]]
        cs.dom().contains(k) && cs[k].literals@.disjoint(p) ==> {
            &&& forall|x: i32| #[trigger]
                reduced(cs[k].literals@, p).contains(x) ==> exists|y: i32|
                    y != x && reduced(cs[k].literals@, p).contains(y)
            &&& cs[k].literals@ != Set::<i32>::empty() ==> reduced(cs[k].literals@, p) != Set::<i32>::empty()
        }
}

/// Once the literals of `p` hold, some clause of `cs` has lost every
/// literal it had.
pub open spec fn falsified(cs: Map<i32, Clause>, p: Set<i32>) -> bool {
    exists|k: i32|
        #![trigger cs[k]]
        cs.dom().contains(k) && cs[k].literals@ != Set::<i32>::empty() && reduced(cs[k].literals@, p)
            == Set::<i32>::empty()
}

/// `a` with the variable of each literal of `p` set to make it true.
pub open spec fn assigned(a: Seq<bool>, p: Set<i32>) -> Seq<bool> {
    Seq::new(
        a.len(),
        |i: int|
            if i + 1 <= i32::MAX && p.contains((i + 1) as i32) {
                true
            } else if i + 1 <= i32::MAX && p.contains((-(i + 1)) as i32) {
                false
            } else {
                a[i]
            },
    )
}

/// The indices of the variables that occur in the clauses of `cs`.
pub open spec fn occurring(cs: Map<i32, Clause>) -> Set<usize> {
    Set::new(
        |d: usize|
            exists|k: i32, l: i32|
                #![trigger cs[k].literals@.contains(l)]
                cs.dom().contains(k) && cs[k].literals@.contains(l) && var_index(l) == d,
    )
}

/// Clause `k` is listed under the variable of `l` in `lists`.
pub open spec fn listed(lists: Seq<Vec<i32>>, l: i32, k: i32) -> bool {
    lists[var_index(l)]@.contains(k)
}

/// Every literal of every clause of `cs` is a nonzero literal over the
/// variables `1..=n`.
pub open spec fn in_range(cs: Map<i32, Clause>, n: int) -> bool {
    forall|k: i32, l: i32|
        #![trigger cs[k].literals@.contains(l)]
        cs.dom().contains(k) && cs[k].literals@.contains(l) ==> l != 0 && l != i32::MIN && var_index(l)
            < n
}

/// How many literals of `s` come before the first one outside `p`.
pub open spec fn first_fresh(s: Seq<i32>, p: Set<i32>) -> nat
    decreases s.len(),
{
    if s.len() == 0 {
        0
    } else if !p.contains(s[0]) {
        0
    } else {
        1 + first_fresh(s.drop_first(), p)
    }
}

proof fn lemma_first_fresh_append(s: Seq<i32>, t: Seq<i32>, p: Set<i32>)
    requires
        t.len() == 0 || !p.contains(t[0]),
    ensures
        first_fresh(s + t, p) <= first_fresh(s, p),
    decreases s.len(),
{
    if s.len() == 0 {
        assert(s + t =~= t);
    } else if p.contains(s[0]) {
        assert((s + t).drop_first() =~= s.drop_first() + t);
        lemma_first_fresh_append(s.drop_first(), t, p);
    }
}

proof fn lemma_reduced_insert(c: Set<i32>, p: Set<i32>, l: i32)
    requires
        l != i32::MIN,
        forall|x: i32| #[trigger] c.contains(x) ==> x != i32::MIN,
    ensures
        reduced(c, p.insert(l)) == reduced(c, p).remove(negation(l)),
{
    assert(reduced(c, p.insert(l)) =~= reduced(c, p).remove(negation(l)));
}

proof fn lemma_assigned_insert(a: Seq<bool>, p: Set<i32>, l: i32)
    requires
        consistent(p.insert(l)),
        l != 0,
        l != i32::MIN,
        0 <= var_index(l) < a.len(),
    ensures
        assigned(a, p).update(var_index(l), l > 0) == assigned(a, p.insert(l)),
        assigned(a, p.insert(l)).update(var_index(l), l > 0) == assigned(a, p.insert(l)),
{
    let p2 = p.insert(l);
    assert(p2.contains(l));
    assert(!p2.contains(negation(l)));
    assert(assigned(a, p).update(var_index(l), l > 0) =~= assigned(a, p2));
    assert(assigned(a, p2).update(var_index(l), l > 0) =~= assigned(a, p2));
}

proof fn lemma_literals_finite(s: &HashSet<i32>)
    ensures
        s@.finite(),
{
    broadcast use vstd::std_specs::hash::group_hash_axioms;
    broadcast use vstd::seq_lib::seq_to_set_is_finite;

    let keys = vstd::std_specs::iter::IteratorSpec::remaining(&vstd::std_specs::hash::spec_hash_keys_iter(s)).unref();
    assert(keys.to_set() == s@);
}

/// The only literal of a one-literal set.
fn only_literal(s: &HashSet<i32>) -> (r: i32)
    requires
        s@.len() == 1,
    ensures
        is_unit(s@, r),
{
    broadcast use vstd::std_specs::hash::group_hash_axioms;

    let mut r: i32 = 0;
    let ghost mut count: int = 0;
    for x in it: s.iter()
        invariant
            it.seq().unref().to_set() == s@,
            it.seq().len() == 1,
            count == it.index(),
            count > 0 ==> s@.contains(r),
    {
        proof {
            assert(it.seq().unref()[it.index() as int] == *x);
        }
        r = *x;
        proof {
            count = count + 1;
        }
    }
    proof {
        assert(count == 1);
        lemma_literals_finite(s);
        assert(s@.remove(r).len() == 0);
        assert(s@.remove(r) =~= Set::<i32>::empty());
        assert(s@ =~= set![r]);
    }
    r
}

/// The index in an assignment of the variable of literal `l`.
fn variable_of(l: i32) -> (r: usize)
    requires
        l != 0,
        l != i32::MIN,
    ensures
        r == var_index(l),
{
    if l > 0 {
        (l - 1) as usize
    } else {
        (-l - 1) as usize
    }
}

/// For each variable, the clauses in which it occurs; and the literal of
/// each one-literal clause, with the clause it comes from.
fn index_clauses(instance: &Instance) -> (res: (Vec<Vec<i32>>, Vec<i32>, Ghost<Seq<i32>>))
    requires
        in_range(instance.clauses@, instance.assignment@.len() as int),
    ensures
        res.0@.len() == instance.assignment@.len(),
        forall|k: i32, l: i32|
            instance.clauses@.dom().contains(k) && #[trigger] instance.clauses@[k].literals@.contains(l)
                ==> listed(res.0@, l, k),
        res.1@.len() == res.2@.len(),
        forall|j: int|
            0 <= j < res.1@.len() ==> instance.clauses@.dom().contains(#[trigger] res.2@[j]) && is_unit(
                instance.clauses@[res.2@[j]].literals@,
                res.1@[j],
            ),
        forall|k: i32, q: i32|
            instance.clauses@.dom().contains(k) && #[trigger] is_unit(instance.clauses@[k].literals@, q)
                ==> res.1@.contains(q),
{
    broadcast use vstd::std_specs::hash::group_hash_axioms;
    broadcast use vstd::seq_lib::lemma_seq_contains_after_push;

    let ghost cs = instance.clauses@;
    let n = instance.assignment.len();
    let mut lists: Vec<Vec<i32>> = Vec::new();
    let mut i: usize = 0;
    while i < n
        invariant
            i <= n,
            lists@.len() == i,
            forall|j: int| 0 <= j < i ==> #[trigger] lists@[j]@ == Seq::<i32>::empty(),
        decreases n - i,
    {
        lists.push(Vec::new());
        i = i + 1;
    }
    let mut queue: Vec<i32> = Vec::new();
    let ghost mut why: Seq<i32> = Seq::empty();
    let ghost mut done: Set<i32> = Set::empty();
    for id in it: instance.clauses.keys()
        invariant
            cs == instance.clauses@,
            in_range(cs, n as int),
            n == instance.assignment@.len(),
            lists@.len() == n,
            it.seq().unref().to_set() == cs.dom(),
            forall|i: int| 0 <= i < it.index() ==> #[trigger] done.contains(*it.seq()[i]),
            forall|k: i32| #[trigger] done.contains(k) ==> cs.dom().contains(k),
            forall|k: i32, l: i32|
                done.contains(k) && #[trigger] cs[k].literals@.contains(l) ==> listed(lists@, l, k),
            queue@.len() == why.len(),
            forall|j: int|
                0 <= j < queue@.len() ==> cs.dom().contains(#[trigger] why[j]) && is_unit(
                    cs[why[j]].literals@,
                    queue@[j],
                ),
            forall|k: i32, q: i32|
                done.contains(k) && #[trigger] is_unit(cs[k].literals@, q) ==> queue@.contains(q),
    {
        let k = *id;
        proof {
            assert(it.seq().unref()[it.index() as int] == k);
            assert(cs.dom().contains(k));
        }
        let clause = instance.clauses.get(&k).unwrap();
        proof {
            lemma_literals_finite(&clause.literals);
        }
        if clause.literals.len() == 1 {
            let q = only_literal(&clause.literals);
            let ghost queue0 = queue@;
            queue.push(q);
            proof {
                why = why.push(k);
                assert forall|k2: i32, q2: i32| done.contains(k2) && #[trigger] is_unit(cs[k2].literals@, q2) implies queue@.contains(q2) by {
                    vstd::seq_lib::lemma_seq_contains_after_push(queue0, q, q2);
                }
                assert forall|q2: i32| #[trigger] is_unit(cs[k].literals@, q2) implies queue@.contains(q2) by {
                    assert(set![q].contains(q2));
                    assert(queue@[queue@.len() - 1] == q);
                }
            }
        } else {
            proof {
                assert forall|q2: i32| #[trigger] is_unit(cs[k].literals@, q2) implies queue@.contains(q2) by {
                    assert(clause.literals@.len() == 1);
                }
            }
        }
        let ghost lists0 = lists@;
        let ghost mut seen: Set<i32> = Set::empty();
        for lit in it2: clause.literals.iter()
            invariant
                cs == instance.clauses@,
                cs.dom().contains(k),
                cs[k] == *clause,
                in_range(cs, n as int),
                lists@.len() == n,
                lists0.len() == n,
                it2.seq().unref().to_set() == clause.literals@,
                forall|v: int, x: i32| 0 <= v < n && #[trigger] lists0[v]@.contains(x) ==> lists@[v]@.contains(x),
                forall|i2: int| 0 <= i2 < it2.index() ==> #[trigger] seen.contains(*it2.seq()[i2]),
                forall|x: i32| #[trigger] seen.contains(x) ==> listed(lists@, x, k) && clause.literals@.contains(x),
        {
            let l = *lit;
            proof {
                assert(it2.seq().unref()[it2.index() as int] == l);
                assert(clause.literals@.contains(l));
                assert(cs[k].literals@.contains(l));
            }
            let v = variable_of(l);
            let ghost before = lists@;
            lists[v].push(k);
            proof {
                assert(lists@[v as int]@ == before[v as int]@.push(k));
                assert forall|v2: int, x: i32| 0 <= v2 < n && #[trigger] lists0[v2]@.contains(x) implies lists@[v2]@.contains(x) by {
                    assert(before[v2]@.contains(x));
                    if v2 == v {
                        vstd::seq_lib::lemma_seq_contains_after_push(before[v2]@, k, x);
                    }
                }
                assert forall|x: i32| #[trigger] seen.insert(l).contains(x) implies listed(lists@, x, k) by {
                    let vx = var_index(x);
                    assert(cs[k].literals@.contains(x));
                    if x == l {
                        vstd::seq_lib::lemma_seq_contains_after_push(before[v as int]@, k, k);
                    } else {
                        assert(listed(before, x, k));
                        if vx == v {
                            vstd::seq_lib::lemma_seq_contains_after_push(before[vx]@, k, k);
                        }
                    }
                }
                seen = seen.insert(l);
            }
        }
        proof {
            assert forall|x: i32| clause.literals@.contains(x) implies seen.contains(x) by {
            }
            assert forall|k2: i32, l: i32|
                done.insert(k).contains(k2) && #[trigger] cs[k2].literals@.contains(l) implies listed(lists@, l, k2) by {
                if k2 == k {
                    assert(clause.literals@.contains(l));
                    assert(seen.contains(l));
                } else {
                    assert(listed(lists0, l, k2));
                    assert(0 <= var_index(l) < n);
                    assert(lists0[var_index(l)]@.contains(k2));
                }
            }
            done = done.insert(k);
        }
    }
    proof {
        assert forall|k: i32| cs.dom().contains(k) implies done.contains(k) by {
        }
    }
    (lists, queue, Ghost(why))
}

/// Refills the variables to search with those that occur in the clauses.
fn collect_variables(instance: &mut Instance)
    requires
        in_range(old(instance).clauses@, old(instance).assignment@.len() as int),
    ensures
        final(instance).literals@ == occurring(old(instance).clauses@),
        final(instance).clauses@ == old(instance).clauses@,
        final(instance).assignment@ == old(instance).assignment@,
        final(instance).nbvar == old(instance).nbvar,
        final(instance).nbclauses == old(instance).nbclauses,
{
    broadcast use vstd::std_specs::hash::group_hash_axioms;

    let ghost cs = instance.clauses@;
    let ghost n = instance.assignment@.len();
    let ghost a0 = instance.assignment@;
    let ghost nbvar = instance.nbvar;
    let ghost nbclauses = instance.nbclauses;
    instance.literals.clear();
    let ghost mut done: Set<Clause> = Set::empty();
    for clause in it: instance.clauses.values()
        invariant
            cs == instance.clauses@,
            in_range(cs, n as int),
            a0 == instance.assignment@,
            nbvar == instance.nbvar,
            nbclauses == instance.nbclauses,
            it.seq().unref().to_set() == cs.values(),
            forall|i: int| 0 <= i < it.index() ==> #[trigger] done.contains(*it.seq()[i]),
            forall|c: Clause| #[trigger] done.contains(c) ==> cs.values().contains(c),
            forall|c: Clause, l: i32|
                done.contains(c) && #[trigger] c.literals@.contains(l) ==> instance.literals@.contains(
                    var_index(l) as usize,
                ),
            forall|d: usize| #[trigger] instance.literals@.contains(d) ==> occurring(cs).contains(d),
    {
        proof {
            assert(it.seq().unref()[it.index() as int] == *clause);
            assert(cs.values().contains(*clause));
        }
        let ghost k = choose|k: i32| cs.dom().contains(k) && cs[k] == *clause;
        let ghost mut seen: Set<i32> = Set::empty();
        for lit in it2: clause.literals.iter()
            invariant
                cs == instance.clauses@,
                in_range(cs, n as int),
                a0 == instance.assignment@,
                nbvar == instance.nbvar,
                nbclauses == instance.nbclauses,
                cs.dom().contains(k),
                cs[k] == *clause,
                it2.seq().unref().to_set() == clause.literals@,
                forall|i2: int| 0 <= i2 < it2.index() ==> #[trigger] seen.contains(*it2.seq()[i2]),
                forall|x: i32|
                    #[trigger] seen.contains(x) ==> instance.literals@.contains(var_index(x) as usize),
                forall|c: Clause, l: i32|
                    done.contains(c) && #[trigger] c.literals@.contains(l) ==> instance.literals@.contains(
                        var_index(l) as usize,
                    ),
                forall|d: usize| #[trigger] instance.literals@.contains(d) ==> occurring(cs).contains(d),
        {
            let l = *lit;
            proof {
                assert(it2.seq().unref()[it2.index() as int] == l);
                assert(cs[k].literals@.contains(l));
            }
            let v = variable_of(l);
            instance.literals.insert(v);
            proof {
                assert(occurring(cs).contains(v));
                seen = seen.insert(l);
            }
        }
        proof {
            assert forall|x: i32| clause.literals@.contains(x) implies seen.contains(x) by {
            }
            assert forall|c: Clause, l: i32|
                done.insert(*clause).contains(c) && #[trigger] c.literals@.contains(l) implies instance.literals@.contains(
                    var_index(l) as usize,
                ) by {
                if c == *clause {
                    assert(seen.contains(l));
                }
            }
            done = done.insert(*clause);
        }
    }
    proof {
        assert forall|d: usize| occurring(cs).contains(d) implies instance.literals@.contains(d) by {
            let (k, l) = choose|k: i32, l: i32|
                #![trigger cs[k].literals@.contains(l)]
                cs.dom().contains(k) && cs[k].literals@.contains(l) && var_index(l) == d;
            assert(cs.values().contains(cs[k]));
            assert(done.contains(cs[k]));
        }
        assert(instance.literals@ =~= occurring(cs));
    }
}

proof fn lemma_wf_in_range(instance: &Instance)
    requires
        instance.clauses_wf(),
    ensures
        in_range(instance.clauses@, instance.assignment@.len() as int),
{
    assert forall|k: i32, l: i32|
        instance.clauses@.dom().contains(k) && #[trigger] instance.clauses@[k].literals@.contains(l) implies l != 0
            && l != i32::MIN && var_index(l) < instance.assignment@.len() by {
        assert(clause_in_range(instance.clauses@[k], instance.assignment@.len() as int));
    }
}

/// Propagates the one-literal clauses of `instance`.
///
/// Each literal taken from the queue is made true in the assignment; every
/// clause it satisfies leaves the instance, its negation is struck from the
/// others, and a clause left with one literal queues that literal. Returns
/// `false` as soon as a clause loses its last literal; otherwise, once the
/// queue is empty, refills the variables to search with those that still
/// occur and returns `true`.
pub fn unit_propagation(instance: &mut Instance) -> (r: bool)
    requires
        old(instance).clauses_wf(),
    ensures
        final(instance).nbvar == old(instance).nbvar,
        final(instance).nbclauses == old(instance).nbclauses,
        final(instance).assignment@.len() == old(instance).assignment@.len(),
        r ==> exists|order: Seq<i32>|
            #[trigger] propagates(old(instance).clauses@, order) && settled(old(instance).clauses@, order.to_set())
                && propagated(old(instance).clauses@, order.to_set(), final(instance).clauses@)
                && final(instance).assignment@ == assigned(old(instance).assignment@, order.to_set())
                && final(instance).literals@ == occurring(final(instance).clauses@),
        !r ==> final(instance).literals@ == old(instance).literals@,
        !r ==> exists|order: Seq<i32>|
            #[trigger] propagates(old(instance).clauses@, order) && falsified(old(instance).clauses@, order.to_set())
                && (forall|k: i32| #[trigger] final(instance).clauses@.dom().contains(k) ==> old(instance).clauses@.dom().contains(k))
                && (forall|k: i32|
                #[trigger] old(instance).clauses@.dom().contains(k) ==> clause_state(
                    old(instance).clauses@,
                    final(instance).clauses@,
                    k,
                    order.to_set(),
                ) || clause_state(old(instance).clauses@, final(instance).clauses@, k, order.drop_last().to_set()))
                && (final(instance).assignment@ == assigned(old(instance).assignment@, order.to_set())
                || final(instance).assignment@ == assigned(old(instance).assignment@, order.drop_last().to_set())),
{
    broadcast use vstd::std_specs::hash::group_hash_axioms;

    let ghost c0 = instance.clauses@;
    let ghost a0 = instance.assignment@;
    let ghost n = a0.len();
    let ghost nbvar = instance.nbvar;
    let ghost nbclauses = instance.nbclauses;
    proof {
        lemma_wf_in_range(instance);
    }
    let (lists, mut queue, Ghost(why0)) = index_clauses(instance);
    let ghost mut why = why0;
    let ghost mut order: Seq<i32> = Seq::empty();
    let mut head: usize = 0;
    proof {
        assert(order.to_set() =~= Set::<i32>::empty());
        assert forall|k: i32| #[trigger] c0.dom().contains(k) implies clause_state(c0, instance.clauses@, k, order.to_set()) by {
            assert(reduced(c0[k].literals@, order.to_set()) =~= c0[k].literals@);
        }
        assert(assigned(a0, order.to_set()) =~= a0);
        assert(queue@.subrange(0, queue@.len() as int) =~= queue@);
    }
    while head < queue.len()
        invariant
            c0.dom().finite(),
            in_range(c0, n as int),
            lists@.len() == n,
            forall|k: i32, l: i32| c0.dom().contains(k) && #[trigger] c0[k].literals@.contains(l) ==> listed(lists@, l, k),
            instance.nbvar == nbvar,
            instance.nbclauses == nbclauses,
            nbvar == old(instance).nbvar,
            nbclauses == old(instance).nbclauses,
            c0 == old(instance).clauses@,
            a0 == old(instance).assignment@,
            instance.literals@ == old(instance).literals@,
            instance.assignment@.len() == n,
            propagates(c0, order),
            forall|x: i32| #[trigger] order.to_set().contains(x) ==> x != 0 && x != i32::MIN && 0 <= var_index(x) < n,
            propagated(c0, order.to_set(), instance.clauses@),
            instance.assignment@ == assigned(a0, order.to_set()),
            head <= queue@.len(),
            queue@.len() == why.len(),
            forall|j: int|
                head <= j < queue@.len() ==> order.to_set().contains(#[trigger] queue@[j]) || (
                instance.clauses@.dom().contains(why[j]) && is_unit(instance.clauses@[why[j]].literals@, queue@[j])),
            forall|k: i32, q: i32|
                instance.clauses@.dom().contains(k) && #[trigger] is_unit(instance.clauses@[k].literals@, q)
                    ==> queue@.subrange(head as int, queue@.len() as int).contains(q),
            forall|k: i32|
                #[trigger] instance.clauses@.dom().contains(k) && c0[k].literals@ != Set::<i32>::empty()
                    ==> instance.clauses@[k].literals@ != Set::<i32>::empty(),
        decreases instance.clauses@.dom().len(), first_fresh(queue@.subrange(head as int, queue@.len() as int), order.to_set()),
    {
        let l = queue[head];
        head = head + 1;
        let ghost p = order.to_set();
        let ghost fresh = !p.contains(l);
        let ghost w = why[head - 1];
        let ghost order2 = if fresh { order.push(l) } else { order };
        let ghost p2 = p.insert(l);
        proof {
            if fresh {
                assert(instance.clauses@.dom().contains(w) && is_unit(instance.clauses@[w].literals@, l));
                assert(clause_state(c0, instance.clauses@, w, p));
                assert(reduced(c0[w].literals@, p).contains(l));
                assert(c0[w].literals@.contains(l));
                assert(order2.to_set() =~= p2) by {
                    vstd::seq_lib::lemma_seq_contains_after_push(order, l, l);
                    assert forall|x: i32| #[trigger] order2.to_set().contains(x) == p2.contains(x) by {
                        vstd::seq_lib::lemma_seq_contains_after_push(order, l, x);
                    }
                }
                assert(!p.contains(negation(l))) by {
                    if p.contains(negation(l)) {
                        assert(negation(negation(l)) == l);
                        assert(!reduced(c0[w].literals@, p).contains(l));
                    }
                }
                assert(forces(c0, order.to_set(), l));
                assert forall|i: int| 0 <= i < order2.len() implies #[trigger] forces(c0, order2.take(i).to_set(), order2[i]) by {
                    if i < order.len() {
                        assert(order2.take(i) =~= order.take(i));
                    } else {
                        assert(order2.take(i) =~= order);
                    }
                }
                assert forall|x: i32| #[trigger] p2.contains(x) implies !p2.contains(negation(x)) by {
                    if x != l {
                        assert(negation(x) != l);
                    }
                }
            } else {
                assert(p2 =~= p);
            }
        }
        let v = variable_of(l);
        let nl = -l;
        let ids = &lists[v];
        let ghost start_dom = instance.clauses@.dom();
        let ghost q0 = queue@;
        let ghost mut wrote = false;
        proof {
            assert(ids@.take(0) =~= Seq::<i32>::empty());
            assert forall|k: i32, q: i32|
                instance.clauses@.dom().contains(k) && #[trigger] is_unit(instance.clauses@[k].literals@, q)
                    implies queue@.subrange(head as int, queue@.len() as int).contains(q) || (q == l
                    && !ids@.take(0).contains(k)) by {
                let old_seg = queue@.subrange(head - 1, queue@.len() as int);
                assert(old_seg.contains(q));
                let t = choose|t: int| 0 <= t < old_seg.len() && old_seg[t] == q;
                if t > 0 {
                    assert(queue@.subrange(head as int, queue@.len() as int)[t - 1] == q);
                }
            }
        }
        for idx in 0..ids.len()
            invariant
                c0.dom().finite(),
                in_range(c0, n as int),
                lists@.len() == n,
                forall|k: i32, l: i32| c0.dom().contains(k) && #[trigger] c0[k].literals@.contains(l) ==> listed(lists@, l, k),
                ids@ == lists@[v as int]@,
                v == var_index(l),
                nl == negation(l),
                l != 0,
                l != i32::MIN,
                v < n,
                instance.nbvar == nbvar,
                instance.nbclauses == nbclauses,
                nbvar == old(instance).nbvar,
                nbclauses == old(instance).nbclauses,
                c0 == old(instance).clauses@,
                a0 == old(instance).assignment@,
                instance.literals@ == old(instance).literals@,
                instance.assignment@.len() == n,
                n == old(instance).assignment@.len(),
                p == order.to_set(),
                p2 == p.insert(l),
                fresh == !p.contains(l),
                propagates(c0, order2),
                order2 == if fresh { order.push(l) } else { order },
                order2.to_set() == p2,
                consistent(p2),
                forall|x: i32| #[trigger] p2.contains(x) ==> x != 0 && x != i32::MIN && 0 <= var_index(x) < n,
                forall|k: i32| #[trigger] instance.clauses@.dom().contains(k) ==> c0.dom().contains(k) && start_dom.contains(k),
                forall|k: i32|
                    #[trigger] c0.dom().contains(k) ==> if ids@.take(idx as int).contains(k) {
                        clause_state(c0, instance.clauses@, k, p2)
                    } else {
                        clause_state(c0, instance.clauses@, k, p)
                    },
                instance.assignment@ == if wrote {
                    assigned(a0, p2)
                } else {
                    assigned(a0, p)
                },
                head <= q0.len(),
                q0.len() <= queue@.len(),
                queue@.len() == why.len(),
                q0 == queue@.subrange(0, q0.len() as int),
                forall|j: int|
                    head <= j < queue@.len() ==> p2.contains(#[trigger] queue@[j]) || (
                    instance.clauses@.dom().contains(why[j]) && is_unit(instance.clauses@[why[j]].literals@, queue@[j])),
                forall|j: int| q0.len() <= j < queue@.len() ==> !p2.contains(#[trigger] queue@[j]),
                forall|k: i32, q: i32|
                    instance.clauses@.dom().contains(k) && #[trigger] is_unit(instance.clauses@[k].literals@, q)
                        ==> queue@.subrange(head as int, queue@.len() as int).contains(q) || (q == l
                        && !ids@.take(idx as int).contains(k)),
                forall|k: i32|
                    #[trigger] instance.clauses@.dom().contains(k) && c0[k].literals@ != Set::<i32>::empty()
                        ==> instance.clauses@[k].literals@ != Set::<i32>::empty(),
                fresh ==> c0.dom().contains(w) && c0[w].literals@.contains(l) && (!wrote ==> instance.clauses@.dom().contains(w)
                    && !ids@.take(idx as int).contains(w)),
        {
            let id = ids[idx];
            proof {
                assert(ids@.take(idx + 1) =~= ids@.take(idx as int).push(id));
                assert forall|k: i32| #[trigger] ids@.take(idx + 1).contains(k) == (ids@.take(idx as int).contains(k) || k == id) by {
                    vstd::seq_lib::lemma_seq_contains_after_push(ids@.take(idx as int), id, k);
                }
            }
            let ghost cur = instance.clauses@;
            let ghost queue_before = queue@;
            match instance.clauses.remove(&id) {
                None => {
                },
                Some(mut clause) => {
                    let ghost old_lits = clause.literals@;
                    proof {
                        lemma_literals_finite(&clause.literals);
                        assert(cur.dom().contains(id) && cur[id] == clause);
                        assert(c0.dom().contains(id));
                        assert(old_lits.subset_of(c0[id].literals@));
                    }
                    if clause.literals.contains(&l) {
                        proof {
                            assert(c0[id].literals@.contains(l));
                            assert(!c0[id].literals@.disjoint(p2));
                        }
                    } else {
                        let had = clause.literals.remove(&nl);
                        proof {
                            lemma_literals_finite(&clause.literals);
                            lemma_reduced_insert(c0[id].literals@, p, l);
                            if ids@.take(idx as int).contains(id) {
                                assert(negation(negation(l)) == l);
                                assert(!reduced(c0[id].literals@, p2).contains(nl));
                                assert(clause.literals@ =~= old_lits);
                            } else {
                                assert(clause_state(c0, cur, id, p));
                                assert(old_lits == reduced(c0[id].literals@, p));
                                assert(!c0[id].literals@.contains(l)) by {
                                    if c0[id].literals@.contains(l) {
                                        if fresh {
                                            assert(p2.contains(l));
                                            assert(!p2.contains(negation(l)));
                                            assert(reduced(c0[id].literals@, p).contains(l));
                                        } else {
                                            assert(p.contains(l));
                                        }
                                    }
                                }
                                assert(clause.literals@ =~= reduced(c0[id].literals@, p2));
                            }
                            assert(clause.literals@ == reduced(c0[id].literals@, p2));
                            assert(c0[id].literals@.disjoint(p2));
                        }
                        if had && clause.literals.len() == 0 {
                            proof {
                                assert(clause.literals@ =~= Set::<i32>::empty());
                                assert(old_lits.contains(nl));
                                assert(c0[id].literals@.contains(nl));
                                assert(falsified(c0, order2.to_set()));
                                assert(propagates(c0, order2));
                                assert(fresh) by {
                                    if !fresh {
                                        assert(p2 =~= p);
                                        assert(negation(negation(l)) == l);
                                        assert(!reduced(c0[id].literals@, p2).contains(nl));
                                    }
                                }
                                assert(order2.drop_last() =~= order);
                            }
                            instance.clauses.insert(id, clause);
                            proof {
                                assert forall|k: i32| #[trigger] c0.dom().contains(k) implies clause_state(
                                    c0,
                                    instance.clauses@,
                                    k,
                                    order2.to_set(),
                                ) || clause_state(c0, instance.clauses@, k, order2.drop_last().to_set()) by {
                                    if k != id {
                                        assert(instance.clauses@.dom().contains(k) == cur.dom().contains(k));
                                        assert(cur.dom().contains(k) ==> instance.clauses@[k] == cur[k]);
                                        if ids@.take(idx as int).contains(k) {
                                            assert(clause_state(c0, cur, k, p2));
                                        } else {
                                            assert(clause_state(c0, cur, k, p));
                                        }
                                    }
                                }
                            }
                            return false;
                        }
                        proof {
                            vstd::set_lib::lemma_set_empty_equivalency_len(clause.literals@);
                            if c0[id].literals@ != Set::<i32>::empty() && !had {
                                assert(clause.literals@ =~= old_lits);
                            }
                        }
                        if clause.literals.len() == 1 {
                            let q = only_literal(&clause.literals);
                            queue.push(q);
                            proof {
                                why = why.push(id);
                                assert(clause.literals@.contains(q));
                                assert(!p2.contains(q));
                            }
                        }
                        instance.clauses.insert(id, clause);
                    }
                    instance.assignment[v] = l > 0;
                    proof {
                        lemma_assigned_insert(a0, p, l);
                        wrote = true;
                    }
                },
            }
            proof {
                assert(queue@.subrange(0, q0.len() as int) =~= q0);
                assert forall|k: i32, q: i32|
                    instance.clauses@.dom().contains(k) && #[trigger] is_unit(instance.clauses@[k].literals@, q)
                        implies queue@.subrange(head as int, queue@.len() as int).contains(q) || (q == l
                        && !ids@.take(idx + 1).contains(k)) by {
                    if queue_before.subrange(head as int, queue_before.len() as int).contains(q) {
                        let t = choose|t: int| 0 <= t < queue_before.len() - head && queue_before.subrange(head as int, queue_before.len() as int)[t] == q;
                        assert(queue@.subrange(head as int, queue@.len() as int)[t] == q);
                    }
                    if k == id && queue@.len() > queue_before.len() {
                        assert(queue@.subrange(head as int, queue@.len() as int)[queue@.len() - 1 - head] == queue@[queue@.len() - 1]);
                    }
                }
            }
        }
        proof {
            assert(ids@.take(ids@.len() as int) =~= ids@);
            assert forall|k: i32| #[trigger] c0.dom().contains(k) implies clause_state(c0, instance.clauses@, k, p2) by {
                if !ids@.contains(k) {
                    assert(!c0[k].literals@.contains(l)) by {
                        if c0[k].literals@.contains(l) {
                            assert(listed(lists@, l, k));
                        }
                    }
                    assert(!c0[k].literals@.contains(negation(l))) by {
                        if c0[k].literals@.contains(negation(l)) {
                            assert(listed(lists@, negation(l), k));
                            assert(var_index(negation(l)) == var_index(l));
                        }
                    }
                    lemma_reduced_insert(c0[k].literals@, p, l);
                    assert(reduced(c0[k].literals@, p2) =~= reduced(c0[k].literals@, p));
                }
            }
            if fresh {
                assert(listed(lists@, l, w));
                assert(ids@.contains(w));
                assert(wrote);
                assert(!instance.clauses@.dom().contains(w));
                assert(instance.clauses@.dom().subset_of(start_dom.remove(w)));
                vstd::set_lib::lemma_len_subset(instance.clauses@.dom(), start_dom.remove(w));
            } else {
                assert(p2 =~= p);
                assert(instance.clauses@.dom().subset_of(start_dom));
                vstd::set_lib::lemma_len_subset(instance.clauses@.dom(), start_dom);
                let old_seg = q0.subrange(head - 1, q0.len() as int);
                let new_seg = queue@.subrange(head as int, queue@.len() as int);
                let pushed = queue@.subrange(q0.len() as int, queue@.len() as int);
                assert(old_seg.drop_first() + pushed =~= new_seg);
                lemma_first_fresh_append(old_seg.drop_first(), pushed, p);
            }
            assert forall|k: i32, q: i32|
                instance.clauses@.dom().contains(k) && #[trigger] is_unit(instance.clauses@[k].literals@, q)
                    implies queue@.subrange(head as int, queue@.len() as int).contains(q) by {
                if q == l && !ids@.contains(k) {
                    assert(instance.clauses@[k].literals@.contains(l));
                    assert(c0[k].literals@.contains(l));
                    assert(listed(lists@, l, k));
                }
            }
            order = order2;
        }
    }
    proof {
        let p = order.to_set();
        assert forall|k: i32| #![trigger c0[k]] c0.dom().contains(k) && c0[k].literals@.disjoint(p) implies {
            &&& forall|x: i32| #[trigger]
                reduced(c0[k].literals@, p).contains(x) ==> exists|y: i32|
                    y != x && reduced(c0[k].literals@, p).contains(y)
            &&& c0[k].literals@ != Set::<i32>::empty() ==> reduced(c0[k].literals@, p) != Set::<i32>::empty()
        } by {
            assert(clause_state(c0, instance.clauses@, k, p));
            assert forall|x: i32| #[trigger] reduced(c0[k].literals@, p).contains(x) implies exists|y: i32|
                y != x && reduced(c0[k].literals@, p).contains(y) by {
                if !exists|y: i32| y != x && reduced(c0[k].literals@, p).contains(y) {
                    assert(reduced(c0[k].literals@, p) =~= set![x]);
                    assert(is_unit(instance.clauses@[k].literals@, x));
                    assert(queue@.subrange(head as int, queue@.len() as int) =~= Seq::<i32>::empty());
                }
            }
        }
    }
    collect_variables(instance);
    proof {
        assert(propagates(c0, order));
    }
    true
}

proof fn lemma_negation_true(x: i32, a: Seq<bool>)
    requires
        x != 0,
        x != i32::MIN,
        0 <= var_index(x) < a.len(),
    ensures
        lit_true(negation(x), a) == !lit_true(x, a),
{
}

proof fn lemma_forced_literals_hold(cs: Map<i32, Clause>, order: Seq<i32>, a: Seq<bool>)
    requires
        forall|i: int| 0 <= i < order.len() ==> #[trigger] forces(cs, order.take(i).to_set(), order[i]),
        in_range(cs, a.len() as int),
        all_satisfied(cs, a),
    ensures
        forall|i: int| 0 <= i < order.len() ==> #[trigger] lit_true(order[i], a),
    decreases order.len(),
{
    if order.len() > 0 {
        let last = order.len() - 1;
        let prefix = order.take(last);
        assert forall|i: int| 0 <= i < prefix.len() implies #[trigger] forces(cs, prefix.take(i).to_set(), prefix[i]) by {
            assert(prefix.take(i) =~= order.take(i));
            assert(forces(cs, order.take(i).to_set(), order[i]));
        }
        lemma_forced_literals_hold(cs, prefix, a);
        let l = order[last];
        let p = prefix.to_set();
        assert(forces(cs, order.take(last).to_set(), order[last]));
        let k = choose|k: i32|
            #![trigger cs[k]]
            cs.dom().contains(k) && cs[k].literals@.disjoint(p) && is_unit(reduced(cs[k].literals@, p), l);
        assert(clause_satisfied(cs[k], a));
        let x = choose|x: i32| cs[k].literals@.contains(x) && #[trigger] lit_true(x, a);
        if x != l {
            assert(!reduced(cs[k].literals@, p).contains(x)) by {
                assert(!set![l].contains(x));
            }
            assert(p.contains(negation(x)));
            let j = choose|j: int| 0 <= j < prefix.len() && prefix[j] == negation(x);
            assert(lit_true(prefix[j], a));
            lemma_negation_true(x, a);
        }
        assert(reduced(cs[k].literals@, p).contains(l));
        assert forall|i: int| 0 <= i < order.len() implies #[trigger] lit_true(order[i], a) by {
            if i < last {
                assert(order[i] == prefix[i]);
            }
        }
    }
}

/// Every literal that a run of unit propagation derives is true under every
/// assignment that satisfies all the clauses.
pub proof fn law_propagated_literals_hold(cs: Map<i32, Clause>, order: Seq<i32>, a: Seq<bool>)
    requires
        propagates(cs, order),
        in_range(cs, a.len() as int),
        all_satisfied(cs, a),
    ensures
        forall|i: int| 0 <= i < order.len() ==> #[trigger] lit_true(order[i], a),
{
    lemma_forced_literals_hold(cs, order, a);
}

/// A clause that loses every literal to unit propagation means that no
/// assignment satisfies all the clauses.
pub proof fn law_conflict_unsatisfiable(cs: Map<i32, Clause>, order: Seq<i32>, a: Seq<bool>)
    requires
        propagates(cs, order),
        falsified(cs, order.to_set()),
        in_range(cs, a.len() as int),
    ensures
        !all_satisfied(cs, a),
{
    if all_satisfied(cs, a) {
        lemma_forced_literals_hold(cs, order, a);
        let p = order.to_set();
        let k = choose|k: i32|
            #![trigger cs[k]]
            cs.dom().contains(k) && cs[k].literals@ != Set::<i32>::empty() && reduced(cs[k].literals@, p)
                == Set::<i32>::empty();
        assert(clause_satisfied(cs[k], a));
        let x = choose|x: i32| cs[k].literals@.contains(x) && #[trigger] lit_true(x, a);
        assert(!reduced(cs[k].literals@, p).contains(x));
        let j = choose|j: int| 0 <= j < order.len() && order[j] == negation(x);
        assert(lit_true(order[j], a));
        lemma_negation_true(x, a);
    }
}

/// Unit propagation keeps exactly the models that make its literals true:
/// an assignment satisfies every clause of `cs` if and only if it makes
/// every propagated literal true and satisfies every clause left in `out`.
pub proof fn law_propagation_keeps_models(
    cs: Map<i32, Clause>,
    order: Seq<i32>,
    out: Map<i32, Clause>,
    a: Seq<bool>,
)
    requires
        propagates(cs, order),
        propagated(cs, order.to_set(), out),
        in_range(cs, a.len() as int),
    ensures
        all_satisfied(cs, a) <==> (all_satisfied(out, a) && forall|i: int|
            0 <= i < order.len() ==> #[trigger] lit_true(order[i], a)),
{
    let p = order.to_set();
    if all_satisfied(cs, a) {
        lemma_forced_literals_hold(cs, order, a);
        assert forall|k: i32| out.dom().contains(k) implies #[trigger] clause_satisfied(out[k], a) by {
            assert(clause_state(cs, out, k, p));
            assert(clause_satisfied(cs[k], a));
            let x = choose|x: i32| cs[k].literals@.contains(x) && #[trigger] lit_true(x, a);
            if p.contains(negation(x)) {
                let j = choose|j: int| 0 <= j < order.len() && order[j] == negation(x);
                assert(lit_true(order[j], a));
                lemma_negation_true(x, a);
            }
            assert(out[k].literals@.contains(x));
        }
    }
    if all_satisfied(out, a) && forall|i: int| 0 <= i < order.len() ==> #[trigger] lit_true(order[i], a) {
        assert forall|k: i32| cs.dom().contains(k) implies #[trigger] clause_satisfied(cs[k], a) by {
            assert(clause_state(cs, out, k, p));
            if cs[k].literals@.disjoint(p) {
                assert(clause_satisfied(out[k], a));
                let x = choose|x: i32| out[k].literals@.contains(x) && #[trigger] lit_true(x, a);
                assert(cs[k].literals@.contains(x));
            } else {
                let x = choose|x: i32| cs[k].literals@.contains(x) && p.contains(x);
                let j = choose|j: int| 0 <= j < order.len() && order[j] == x;
                assert(lit_true(order[j], a));
            }
        }
    }
}

proof fn lemma_run_within(cs: Map<i32, Clause>, order: Seq<i32>, p: Set<i32>, n: int, i: int)
    requires
        forall|j: int| 0 <= j < order.len() ==> #[trigger] forces(cs, order.take(j).to_set(), order[j]),
        consistent(p),
        settled(cs, p),
        in_range(cs, n),
        0 <= i <= order.len(),
    ensures
        forall|j: int| 0 <= j < i ==> p.contains(#[trigger] order[j]),
    decreases i,
{
    if i > 0 {
        lemma_run_within(cs, order, p, n, i - 1);
        let pre = order.take(i - 1).to_set();
        let q = order[i - 1];
        assert(pre.subset_of(p)) by {
            assert forall|x: i32| pre.contains(x) implies p.contains(x) by {
                let pre_seq = order.take(i - 1);
                let j = choose|j: int| 0 <= j < pre_seq.len() && #[trigger] pre_seq[j] == x;
                assert(order[j] == x);
            }
        }
        assert(forces(cs, order.take(i - 1).to_set(), order[i - 1]));
        let k = choose|k: i32|
            #![trigger cs[k]]
            cs.dom().contains(k) && cs[k].literals@.disjoint(pre) && is_unit(reduced(cs[k].literals@, pre), q);
        let c = cs[k].literals@;
        assert(reduced(c, pre).contains(q));
        if !p.contains(q) {
            assert(c.disjoint(p)) by {
                assert forall|y: i32| c.contains(y) implies !p.contains(y) by {
                    if y != q {
                        assert(!set![q].contains(y));
                        assert(!reduced(c, pre).contains(y));
                        assert(p.contains(negation(y)));
                        assert(negation(negation(y)) == y);
                    }
                }
            }
            assert(reduced(c, p).subset_of(reduced(c, pre)));
            if p.contains(negation(q)) {
                assert(reduced(c, p) =~= Set::<i32>::empty());
                assert(c.contains(q));
            } else {
                assert(reduced(c, p).contains(q));
                let y = choose|y: i32| y != q && reduced(c, p).contains(y);
                assert(set![q].contains(y));
            }
        }
    }
}

/// The literals that unit propagation derives do not depend on the order in
/// which it takes them: two runs on `cs` that each leave nothing more forced
/// derive the same literals.
pub proof fn law_propagation_result_unique(cs: Map<i32, Clause>, o1: Seq<i32>, o2: Seq<i32>, n: int)
    requires
        propagates(cs, o1),
        propagates(cs, o2),
        settled(cs, o1.to_set()),
        settled(cs, o2.to_set()),
        in_range(cs, n),
    ensures
        o1.to_set() == o2.to_set(),
{
    lemma_run_within(cs, o2, o1.to_set(), n, o2.len() as int);
    lemma_run_within(cs, o1, o2.to_set(), n, o1.len() as int);
    assert(o1.to_set() =~= o2.to_set());
}

/// Whether unit propagation finds a conflict does not depend on the order in
/// which it takes the literals: no run on `cs` falsifies a clause when some
/// run leaves nothing more forced.
pub proof fn law_conflict_excludes_settled(cs: Map<i32, Clause>, o1: Seq<i32>, o2: Seq<i32>, n: int)
    requires
        propagates(cs, o1),
        settled(cs, o1.to_set()),
        propagates(cs, o2),
        in_range(cs, n),
    ensures
        !falsified(cs, o2.to_set()),
{
    let p1 = o1.to_set();
    let p2 = o2.to_set();
    lemma_run_within(cs, o2, p1, n, o2.len() as int);
    if falsified(cs, p2) {
        let k = choose|k: i32|
            #![trigger cs[k]]
            cs.dom().contains(k) && cs[k].literals@ != Set::<i32>::empty() && reduced(cs[k].literals@, p2)
                == Set::<i32>::empty();
        let c = cs[k].literals@;
        assert(p2.subset_of(p1)) by {
            assert forall|x: i32| p2.contains(x) implies p1.contains(x) by {
                let j = choose|j: int| 0 <= j < o2.len() && o2[j] == x;
            }
        }
        assert(exists|x: i32| c.contains(x)) by {
            if !exists|x: i32| c.contains(x) {
                assert(c =~= Set::<i32>::empty());
            }
        }
        let x = choose|x: i32| c.contains(x);
        assert(!reduced(c, p2).contains(x));
        assert(p1.contains(negation(x)));
        assert(reduced(c, p1) =~= Set::<i32>::empty()) by {
            assert forall|y: i32| c.contains(y) implies p1.contains(negation(y)) by {
                assert(!reduced(c, p2).contains(y));
            }
        }
        if c.disjoint(p1) {
            assert(false);
        } else {
            let y = choose|y: i32| c.contains(y) && p1.contains(y);
            assert(!reduced(c, p2).contains(y));
            assert(p1.contains(negation(y)));
        }
    }
}

} // verus!
