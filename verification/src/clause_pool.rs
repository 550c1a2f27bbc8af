//! Pools of clauses laid out as literals closed by `0`, and their equality
//! up to the order of the literals inside each clause.
use crate::cnf_manager::{first_zero, long_pool};
use vstd::prelude::*;

verus! {

/// Index `j` of `pool` starts a clause.
pub open spec fn clause_start(pool: Seq<i32>, j: int) -> bool {
    j == 0 || pool[j - 1] == 0
}

/// The pools `p` and `q` agree on their first `orig` entries up to the
/// order of the literals inside each clause: their zeros stand at the same
/// places, and each clause of `q` there holds the same literals, as often,
/// as the same stretch of `p`.
pub open spec fn same_clauses(p: Seq<i32>, q: Seq<i32>, orig: int) -> bool {
    &&& 0 <= orig <= p.len()
    &&& orig <= q.len()
    &&& orig > 0 ==> q[orig - 1] == 0
    &&& forall|j: int| 0 <= j < orig ==> (#[trigger] p[j] == 0 <==> q[j] == 0)
    &&& forall|c: int, z: int|
        0 <= c <= z < orig && #[trigger] first_zero(q, c, z) && clause_start(q, c) ==> p.subrange(c, z).to_multiset()
            =~= q.subrange(c, z).to_multiset()
}

/// A pool whose first `orig` entries end with a `0` agrees with itself.
pub proof fn lemma_same_clauses_refl(q: Seq<i32>, orig: int)
    requires
        0 <= orig <= q.len(),
        orig > 0 ==> q[orig - 1] == 0,
    ensures
        same_clauses(q, q, orig),
{
}

/// The agreement is transitive.
pub proof fn lemma_same_clauses_trans(p: Seq<i32>, q: Seq<i32>, r: Seq<i32>, orig: int)
    requires
        same_clauses(p, q, orig),
        same_clauses(q, r, orig),
    ensures
        same_clauses(p, r, orig),
{
    assert forall|c: int, z: int|
        0 <= c <= z < orig && #[trigger] first_zero(r, c, z) && clause_start(r, c) implies p.subrange(c, z).to_multiset()
            =~= r.subrange(c, z).to_multiset() by {
        assert(first_zero(q, c, z)) by {
            assert forall|k: int| c <= k < z implies #[trigger] q[k] != 0 by {
                assert(r[k] != 0);
            }
        }
        if c > 0 {
            assert(q[c - 1] == 0);
        }
    }
}

/// Literals appended after the first `orig` entries change nothing there.
pub proof fn lemma_same_clauses_append(p: Seq<i32>, q: Seq<i32>, orig: int, extra: Seq<i32>)
    requires
        same_clauses(p, q, orig),
    ensures
        same_clauses(p + extra, q, orig),
{
    let p2 = p + extra;
    assert forall|j: int| 0 <= j < orig implies (#[trigger] p2[j] == 0 <==> q[j] == 0) by {
        assert(p2[j] == p[j]);
    }
    assert forall|c: int, z: int|
        0 <= c <= z < orig && #[trigger] first_zero(q, c, z) && clause_start(q, c) implies p2.subrange(c, z).to_multiset()
            =~= q.subrange(c, z).to_multiset() by {
        assert(p2.subrange(c, z) =~= p.subrange(c, z));
    }
}

/// Swapping two literals of one zero-free stretch keeps the agreement.
pub proof fn lemma_same_clauses_swap(p: Seq<i32>, q: Seq<i32>, orig: int, a: int, b: int)
    requires
        same_clauses(p, q, orig),
        0 <= a < b < p.len(),
        forall|t: int| a <= t <= b ==> #[trigger] p[t] != 0,
    ensures
        same_clauses(p.update(a, p[b]).update(b, p[a]), q, orig),
{
    broadcast use vstd::multiset::group_multiset_axioms;

    let p2 = p.update(a, p[b]).update(b, p[a]);
    assert forall|j: int| 0 <= j < orig implies (#[trigger] p2[j] == 0 <==> q[j] == 0) by {
        if j == a {
            assert(p[b] != 0 && p[a] != 0);
        } else if j == b {
            assert(p[a] != 0 && p[b] != 0);
        }
    }
    assert forall|c: int, z: int|
        0 <= c <= z < orig && #[trigger] first_zero(q, c, z) && clause_start(q, c) implies p2.subrange(c, z).to_multiset()
            =~= q.subrange(c, z).to_multiset() by {
        let s = p.subrange(c, z);
        let s2 = p2.subrange(c, z);
        if b < c || a >= z {
            assert(s2 =~= s);
        } else {
            assert(p[z] == 0) by {
                assert(q[z] == 0);
            }
            assert(!(a <= z <= b));
            assert(c <= a) by {
                if a < c {
                    assert(c > 0);
                    assert(q[c - 1] == 0);
                    assert(p[c - 1] == 0);
                    assert(a <= c - 1 <= b);
                }
            }
            assert(b < z);
            let s1 = s.update(a - c, p[b]);
            assert(s2 =~= s1.update(b - c, p[a]));
            vstd::seq_lib::to_multiset_update(s, a - c, p[b]);
            vstd::seq_lib::to_multiset_update(s1, b - c, p[a]);
            s.to_multiset_ensures();
            s1.to_multiset_ensures();
            assert(s[a - c] == p[a]);
            assert(s[b - c] == p[b]);
            assert(s1[b - c] == p[b]);
            assert(s.contains(p[a]));
            assert(s2.to_multiset() =~= s.to_multiset());
        }
    }
}

/// A nonempty pool built from clauses ends with a `0`.
pub proof fn lemma_long_pool_ends(cs: Seq<Seq<i32>>)
    ensures
        long_pool(cs).len() > 0 ==> long_pool(cs)[long_pool(cs).len() - 1] == 0,
    decreases cs.len(),
{
    if cs.len() > 0 {
        lemma_long_pool_ends(cs.drop_last());
    }
}

/// Clause `i` of `cs`, of three or more literals, stands in the pool built
/// from `cs` right after the pool of the clauses before it, closed by a `0`.
pub proof fn lemma_long_pool_clause(cs: Seq<Seq<i32>>, i: int)
    requires
        0 <= i < cs.len(),
        cs[i].len() >= 3,
    ensures
        ({
            let c = long_pool(cs.take(i)).len() as int;
            let l = long_pool(cs);
            &&& c + cs[i].len() < l.len()
            &&& l.subrange(c, c + cs[i].len()) == cs[i]
            &&& l[c + cs[i].len()] == 0
            &&& clause_start(l, c)
        }),
    decreases cs.len(),
{
    let p = cs.drop_last();
    let e: Seq<i32> = if cs.last().len() >= 3 { cs.last().push(0) } else { Seq::empty() };
    assert(long_pool(cs) == long_pool(p) + e);
    if i == cs.len() - 1 {
        assert(cs.take(i) =~= p);
        lemma_long_pool_ends(p);
        let c = long_pool(p).len() as int;
        assert(long_pool(cs).subrange(c, c + cs[i].len()) =~= cs[i]);
    } else {
        lemma_long_pool_clause(p, i);
        assert(p.take(i) =~= cs.take(i));
        assert(p[i] == cs[i]);
        let c = long_pool(cs.take(i)).len() as int;
        assert(long_pool(cs).subrange(c, c + cs[i].len()) =~= long_pool(p).subrange(c, c + cs[i].len()));
    }
}

} // verus!
