//! Literals, variables and the three-valued assignment value.
//!
//! A literal is a nonzero `i32`: `v` stands for variable `v` being true and
//! `-v` for it being false. The value `0` terminates clauses wherever clauses
//! are stored in flat arrays.
use vstd::prelude::*;

verus! {

/// The value of a variable: false, true, or not assigned yet.
#[derive(PartialEq, Eq, Structural, Clone, Copy, Debug)]
pub enum VA {
    Neg,
    Pos,
    Free,
}

impl VA {
    /// The slot a value selects in two-element per-polarity arrays
    /// (`Neg` is 0, `Pos` is 1, `Free` is 2).
    pub open spec fn slot(self) -> int {
        match self {
            VA::Neg => 0,
            VA::Pos => 1,
            VA::Free => 2,
        }
    }

    /// Executable form of [`VA::slot`].
    pub fn index(&self) -> (r: usize)
        ensures
            r == self.slot(),
    {
        match self {
            VA::Neg => 0,
            VA::Pos => 1,
            VA::Free => 2,
        }
    }
}

/// The variable of a literal: its absolute value.
pub open spec fn var_of(lit: i32) -> int {
    if lit >= 0 {
        lit as int
    } else {
        -(lit as int)
    }
}

/// The polarity of a literal: `Pos` for a positive literal, `Neg` otherwise.
pub open spec fn sign_of(lit: i32) -> VA {
    if lit > 0 {
        VA::Pos
    } else {
        VA::Neg
    }
}

/// The literal of variable `v` with polarity slot `s` (1 is positive, 0 negative).
pub open spec fn lit_of(v: int, s: int) -> int {
    if s == 1 {
        v
    } else {
        -v
    }
}

/// A literal over the variables `1..=n`, or the terminator `0`.
pub open spec fn lit_in_range(lit: i32, n: int) -> bool {
    var_of(lit) <= n
}

/// Polarity of a literal (`Pos` when it is positive, `Neg` otherwise).
pub fn sign(lit: &i32) -> (r: VA)
    ensures
        r == sign_of(*lit),
{
    if *lit > 0 {
        VA::Pos
    } else {
        VA::Neg
    }
}

/// The variable of a literal.
pub fn to_var(lit: &i32) -> (r: usize)
    requires
        *lit != i32::MIN,
    ensures
        r == var_of(*lit),
{
    if *lit >= 0 {
        *lit as usize
    } else {
        (-*lit) as usize
    }
}

/// The complementary literal.
pub fn neg(lit: &i32) -> (r: i32)
    requires
        *lit != i32::MIN,
    ensures
        r == -(*lit as int),
{
    -*lit
}

/// Negating a literal keeps its variable and flips its polarity.
pub proof fn lemma_neg_var_sign(lit: i32)
    requires
        lit != i32::MIN,
        lit != 0,
    ensures
        var_of((-lit) as i32) == var_of(lit),
        sign_of((-lit) as i32) != sign_of(lit),
{
}

} // verus!
