use rusty_duckling::cnf_manager::{counts_fit, ArrTuple};
use rusty_duckling::{CnfManager, SatInstance, SCORE, SET, VA};
use std::collections::VecDeque;

fn instance(var_count: usize, clauses: Vec<Vec<i32>>) -> SatInstance {
    SatInstance { var_count, clause_count: clauses.len(), clauses }
}

#[test]
fn database_layout() {
    let inst = instance(4, vec![vec![1, -2, 3], vec![2, 4], vec![-1, 3, 4, -2]]);
    let m = CnfManager::new(&inst).unwrap();
    assert_eq!(m.lit_pool, vec![1, -2, 3, 0, -1, 3, 4, -2, 0]);
    assert_eq!(m.lit_pool_size_orig, 9);
    assert_eq!(m.decision_level, 1);
    assert_eq!(m.decision_stack, vec![0]);
    assert!(m.clauses.is_empty());
    // literal 1 starts the first long clause; -2 is second there, 3 second in the next.
    assert_eq!(m.vars[1].watch[1], vec![0]);
    assert_eq!(m.vars[2].watch[0], vec![0]);
    assert_eq!(m.vars[1].watch[0], vec![4]);
    assert_eq!(m.vars[3].watch[1], vec![4]);
    // the binary clause (2 4): 2 false implies 4, 4 false implies 2.
    assert_eq!(m.vars[2].bin_imp[1], vec![0, 2, 0, 4, 0]);
    assert_eq!(m.vars[4].bin_imp[1], vec![0, 4, 0, 2, 0]);
    assert_eq!(m.vars[3].bin_imp[0], vec![0, -3, 0, 0]);
    // activities count the occurrences in clauses of two or more literals.
    assert_eq!(m.vars[2].activity, [2, 1]);
    assert_eq!(m.vars[3].activity, [0, 2]);
    assert_eq!(m.weight(&4), 2);
    assert_eq!(SCORE(&2, &m), 3);
}

#[test]
fn unit_clauses_are_propagated_at_level_one() {
    let inst = instance(3, vec![vec![1], vec![-1, 2], vec![-2, -3, -1]]);
    let m = CnfManager::new(&inst).unwrap();
    assert_eq!(m.decision_level, 1);
    assert!(SET(&1, &m) && SET(&2, &m) && SET(&-3, &m));
    assert!(m.good(&-3) && m.bad(&3) && !m.free(&3));
    assert_eq!(m.conflict_count, 0);
}

#[test]
fn opposite_units_give_none() {
    assert!(CnfManager::new(&instance(1, vec![vec![1], vec![-1]])).is_none());
}

#[test]
fn set_literal_then_query() {
    let mut m = CnfManager::new(&instance(3, vec![vec![1, 2, 3]])).unwrap();
    assert!(m.free(&2) && m.free(&-2));
    m.set_literal(-2, ArrTuple::new(), 0);
    assert!(m.good(&-2) && m.bad(&2) && !m.free(&2));
    assert_eq!(m.vars[2].value, VA::Neg);
    assert_eq!(m.vars[2].decision_level, 1);
}

#[test]
fn decide_then_backtrack() {
    let mut m = CnfManager::new(&instance(3, vec![vec![1, 2, 3], vec![-1, 2]])).unwrap();
    assert!(m.decide(1));
    assert_eq!(m.decision_level, 2);
    assert_eq!(m.decision_count, 1);
    assert!(SET(&1, &m) && SET(&2, &m));
    assert_eq!(m.decision_stack, vec![0, 1, 2]);
    m.backtrack(1);
    assert_eq!(m.decision_level, 1);
    assert_eq!(m.decision_stack, vec![0]);
    assert!(m.free(&1) && m.free(&2));
    // variables assigned at the level being left keep their phase
    assert!(!m.vars[1].phase && !m.vars[2].phase);
}

#[test]
fn score_decay_halves_activities() {
    let mut m = CnfManager::new(&instance(2, vec![vec![1, 2], vec![1, -2], vec![1, 2, -1]])).unwrap();
    let before: Vec<[i32; 2]> = m.vars.iter().map(|v| v.activity).collect();
    m.score_decay();
    for (v, b) in m.vars.iter().zip(before.iter()) {
        assert_eq!(v.activity, [b[0] / 2, b[1] / 2]);
    }
}

#[test]
fn sort_vars_is_stable_by_score() {
    let mut m = CnfManager::new(&instance(4, vec![vec![1, 2, 3], vec![-3, 4], vec![3, -4, 2]])).unwrap();
    m.var_order = vec![4, 1, 3, 2];
    m.sort_vars();
    // scores: 1 -> 1, 2 -> 2, 3 -> 3, 4 -> 2
    assert_eq!(m.var_order, vec![1, 4, 2, 3]);
}

#[test]
fn add_clause_appends_and_watches() {
    let mut m = CnfManager::new(&instance(3, vec![vec![1, 2, 3]])).unwrap();
    m.conflict_lit = VecDeque::from(vec![-1, -2, 3]);
    m.add_clause();
    assert_eq!(m.conflict_clause_ind, 4);
    assert_eq!(m.lit_pool.len(), 8);
    assert_eq!(m.lit_pool[7], 0);
    assert_eq!(m.clauses, vec![4]);
}

#[test]
fn binary_chains_are_followed() {
    let inst = instance(4, vec![vec![1], vec![-1, 2], vec![-2, 3], vec![-3, -4], vec![2, 3, 4]]);
    let m = CnfManager::new(&inst).unwrap();
    assert_eq!(m.decision_level, 1);
    assert!(SET(&1, &m) && SET(&2, &m) && SET(&3, &m) && SET(&-4, &m));
    // the unit literal is asserted again from the trail, then its consequences follow
    assert_eq!(m.decision_stack, vec![0, 1, 1, 2, 3, -4]);
}

#[test]
fn decide_propagates_binary_clauses() {
    let mut m = CnfManager::new(&instance(4, vec![vec![-1, 2], vec![-2, -3], vec![3, 4, 1]])).unwrap();
    assert!(m.decide(1));
    assert!(SET(&2, &m) && SET(&-3, &m));
    assert!(m.free(&4));
    assert_eq!(m.decision_stack, vec![0, 1, 2, -3]);
}

#[test]
fn update_weights_moves_a_raised_variable_forward() {
    let mut m = CnfManager::new(&instance(3, vec![vec![1, 2, 3]])).unwrap();
    m.var_order = vec![1, 2, 3];
    m.var_position = vec![0, 0, 1, 2];
    m.lit_pool = vec![3, 0];
    m.update_weights(ArrTuple::ctor(true), 0);
    // 3 now scores 2, above 1 and 2: it trades places with the first entry
    // that scores below it.
    assert_eq!(m.vars[3].activity, [0, 2]);
    assert_eq!(m.var_order, vec![3, 2, 1]);
    assert_eq!(m.var_position, vec![0, 2, 1, 0]);
}

#[test]
fn update_weights_raises_a_large_activity_by_one() {
    let mut m = CnfManager::new(&instance(3, vec![vec![1, 2, 3]])).unwrap();
    m.var_order = vec![1, 2, 3];
    m.var_position = vec![0, 0, 1, 2];
    m.vars[3].activity = [0, 0x3FFF_FFFF];
    m.lit_pool = vec![3, 0];
    m.update_weights(ArrTuple::ctor(true), 0);
    assert_eq!(m.vars[3].activity, [0, 0x4000_0000]);
    assert_eq!(m.var_order, vec![3, 2, 1]);
}

fn conflict_state() -> CnfManager {
    let mut m = CnfManager::new(&instance(5, vec![vec![-3, 4], vec![-2, -4, 5]])).unwrap();
    assert!(m.decide(1));
    assert!(m.decide(2));
    assert!(m.decide(3));
    m.lit_pool.extend([-1, -4, -5, 0]);
    m
}

#[test]
fn learn_clause_finds_the_first_implication_point() {
    let mut m = conflict_state();
    assert_eq!(m.lit_pool, vec![5, -4, -2, 0, -1, -4, -5, 0]);
    m.learn_clause(ArrTuple::ctor(true), 4);
    assert_eq!(m.conflict_lit, VecDeque::from(vec![-2, -1, -4]));
    assert_eq!(m.assertion_level, 3);
    assert_eq!(m.conflict_clause_ind, 8);
    assert_eq!(&m.lit_pool[8..], &[-4, -2, -1, 0]);
    assert_eq!(m.clauses, vec![8]);
    assert_eq!(m.decision_stack, vec![0, 1, 2, 3]);
    assert_eq!(m.vars[4].value, VA::Free);
    assert_eq!(m.vars[5].value, VA::Free);
    assert_eq!(m.vars[3].value, VA::Pos);
    assert!(m.vars.iter().all(|v| !v.uip_mark));
}

#[test]
fn learn_clause_stops_before_an_activity_overflow() {
    let mut m = conflict_state();
    m.vars[4].activity = [i32::MAX - 1, 0];
    let pool = m.lit_pool.clone();
    m.learn_clause(ArrTuple::ctor(true), 4);
    assert_eq!(m.assertion_level, -2);
    assert_eq!(m.lit_pool, pool);
    assert!(m.clauses.is_empty());
}

#[test]
fn counts_fit_accepts_ordinary_formulas() {
    assert!(counts_fit(&instance(3, vec![vec![1], vec![-1, 2], vec![-2, -1, 3]])));
    assert!(counts_fit(&instance(0, vec![])));
}

#[test]
fn new_propagates_units_through_long_clauses() {
    let m = CnfManager::new(&instance(3, vec![vec![1], vec![-1, 2], vec![-2, -1, 3]])).unwrap();
    assert_eq!(m.decision_level, 1);
    assert_eq!(m.vars[1].value, VA::Pos);
    assert_eq!(m.vars[2].value, VA::Pos);
    assert_eq!(m.vars[3].value, VA::Pos);
    assert!(m.vars[1..].iter().all(|v| v.decision_level == 1));
    assert_eq!(m.lit_pool_size_orig, 4);
    assert_eq!(m.lit_pool.len(), 4);
    assert_eq!(m.lit_pool[3], 0);
    let mut block = m.lit_pool[..3].to_vec();
    block.sort();
    assert_eq!(block, vec![-2, -1, 3]);
    assert!(m.clauses.is_empty());
    assert_eq!(m.vars[1].activity, [2, 0]);
    assert_eq!(m.vars[2].activity, [1, 1]);
    assert_eq!(m.vars[3].activity, [0, 1]);
}
