//! Where the reason of an implied assignment is stored.
use vstd::prelude::*;

verus! {

/// The reason ("antecedent") of an assignment: none (`is_null`), a clause of
/// the literal pool, or a binary-implication list given by variable and
/// polarity.
#[derive(Clone, Copy, Debug)]
pub struct AnteLocation {
    pub is_null: bool,
    pub is_lit_pool: bool,
    pub var_index: usize,
    pub positive: usize,
}

impl AnteLocation {
    /// No reason: a decision or an unassigned variable.
    pub fn new() -> (r: AnteLocation)
        ensures
            r.is_null,
            !r.is_lit_pool,
            r.var_index == 0,
            r.positive == 0,
    {
        AnteLocation { is_null: true, is_lit_pool: false, var_index: 0, positive: 0 }
    }

    /// A present reason, in the literal pool when `islp` holds.
    pub fn ctor(islp: bool) -> (r: AnteLocation)
        ensures
            !r.is_null,
            r.is_lit_pool == islp,
            r.var_index == 0,
            r.positive == 0,
    {
        let mut nt = AnteLocation::new();
        nt.is_null = false;
        nt.is_lit_pool = islp;
        nt
    }

    /// A reason in the binary-implication list of variable `vari` and
    /// polarity `pos`.
    pub fn ctor2(vari: usize, pos: usize) -> (r: AnteLocation)
        ensures
            !r.is_null,
            !r.is_lit_pool,
            r.var_index == vari,
            r.positive == pos,
    {
        let mut nt = AnteLocation::ctor(false);
        nt.var_index = vari;
        nt.positive = pos;
        nt
    }
}

} // verus!
