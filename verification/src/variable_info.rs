//! Per-variable solver state, in the layout of [`crate::cnf_manager::Variable`]
//! with an [`AnteLocation`] as its reason.
use crate::ante_location::AnteLocation;
use crate::utils::VA;
use vstd::prelude::*;

verus! {

/// The state the solver keeps for one variable.
pub struct VariableInfo {
    pub uip_mark: bool,
    pub phase: bool,
    pub value: VA,
    pub decision_level: i32,
    pub ante: AnteLocation,
    pub ante_ind: usize,
    pub activity: [i32; 2],
    pub bin_imp: [Vec<i32>; 2],
    pub watch: [Vec<usize>; 2],
}

impl VariableInfo {
    /// An unassigned variable with no occurrences recorded.
    pub fn new() -> (r: VariableInfo)
        ensures
            !r.uip_mark,
            !r.phase,
            r.value == VA::Free,
            r.decision_level == 0,
            r.ante.is_null,
            !r.ante.is_lit_pool,
            r.ante.var_index == 0,
            r.ante.positive == 0,
            r.ante_ind == 0,
            r.activity@ == seq![0i32, 0i32],
            r.bin_imp@.len() == 2,
            r.bin_imp@[0]@.len() == 0,
            r.bin_imp@[1]@.len() == 0,
            r.watch@.len() == 2,
            r.watch@[0]@.len() == 0,
            r.watch@[1]@.len() == 0,
    {
        VariableInfo {
            uip_mark: false,
            phase: false,
            value: VA::Free,
            decision_level: 0,
            ante: AnteLocation::new(),
            ante_ind: 0,
            activity: [0, 0],
            bin_imp: [Vec::new(), Vec::new()],
            watch: [Vec::new(), Vec::new()],
        }
    }
}

} // verus!
