//! A formula kept as hash collections, for the small search solver.
use std::collections::{HashMap, HashSet};
use vstd::prelude::*;

verus! {

/// A clause: the set of its literals.
pub struct Clause {
    pub literals: HashSet<i32>,
}

/// A formula with a current assignment: `assignment[i]` is the value of
/// variable `i + 1`, `literals` the indices of the variables still to be
/// assigned by the search, and `clauses` the clauses by identifier.
pub struct Instance {
    pub nbvar: i32,
    pub nbclauses: i32,
    pub assignment: Vec<bool>,
    pub literals: HashSet<usize>,
    pub clauses: HashMap<i32, Clause>,
}

/// `lit` is true under `a`: variable `|lit|` is `a[|lit| - 1]`.
pub open spec fn lit_true(lit: i32, a: Seq<bool>) -> bool {
    if lit > 0 {
        a[lit - 1]
    } else {
        !a[-lit - 1]
    }
}

/// Some literal of `c` is true under `a`.
pub open spec fn clause_satisfied(c: Clause, a: Seq<bool>) -> bool {
    exists|l: i32| c.literals@.contains(l) && #[trigger] lit_true(l, a)
}

/// Every clause of `cs` is satisfied under `a`.
pub open spec fn all_satisfied(cs: Map<i32, Clause>, a: Seq<bool>) -> bool {
    forall|k: i32| cs.dom().contains(k) ==> #[trigger] clause_satisfied(cs[k], a)
}

/// Every literal of `c` is a nonzero literal over the variables `1..=n`.
pub open spec fn clause_in_range(c: Clause, n: int) -> bool {
    forall|l: i32|
        #[trigger] c.literals@.contains(l) ==> l != 0 && l != i32::MIN && (if l > 0 {
            l as int
        } else {
            -l
        }) <= n
}

impl Instance {
    /// Every literal of every clause names a variable of the assignment, and
    /// every variable to search is one of them.
    pub open spec fn wf(&self) -> bool {
        &&& self.clauses_wf()
        &&& forall|d: usize| #[trigger] self.literals@.contains(d) ==> d < self.assignment@.len()
    }

    /// Every literal of every clause names a variable of the assignment.
    pub open spec fn clauses_wf(&self) -> bool {
        forall|k: i32| #[trigger] self.clauses@.dom().contains(k) ==> clause_in_range(self.clauses@[k], self.assignment@.len() as int)
    }
}

} // verus!
