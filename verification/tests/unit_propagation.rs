use rusty_duckling::structs::{Clause, Instance};
use rusty_duckling::unit_propagation::unit_propagation;
use std::collections::{HashMap, HashSet};

fn instance(nbvar: usize, clauses: Vec<Vec<i32>>) -> Instance {
    let mut map = HashMap::new();
    for (k, c) in clauses.iter().enumerate() {
        map.insert(k as i32, Clause { literals: c.iter().cloned().collect::<HashSet<i32>>() });
    }
    Instance {
        nbvar: nbvar as i32,
        nbclauses: clauses.len() as i32,
        assignment: vec![false; nbvar],
        literals: (0..nbvar).collect(),
        clauses: map,
    }
}

fn literals_of(inst: &Instance, id: i32) -> Vec<i32> {
    let mut v: Vec<i32> = inst.clauses[&id].literals.iter().cloned().collect();
    v.sort();
    v
}

fn variables(inst: &Instance) -> Vec<usize> {
    let mut v: Vec<usize> = inst.literals.iter().cloned().collect();
    v.sort();
    v
}

#[test]
fn chain_of_units_is_propagated() {
    let mut inst = instance(5, vec![vec![1], vec![-1, 2], vec![-2, 3, 4], vec![3, -4, 5]]);
    assert!(unit_propagation(&mut inst));
    let mut ids: Vec<i32> = inst.clauses.keys().cloned().collect();
    ids.sort();
    assert_eq!(ids, vec![2, 3]);
    assert_eq!(literals_of(&inst, 2), vec![3, 4]);
    assert_eq!(literals_of(&inst, 3), vec![-4, 3, 5]);
    assert_eq!(inst.assignment, vec![true, true, false, false, false]);
    assert_eq!(variables(&inst), vec![2, 3, 4]);
    assert_eq!(inst.nbvar, 5);
    assert_eq!(inst.nbclauses, 4);
}

#[test]
fn negative_unit_sets_false() {
    let mut inst = instance(3, vec![vec![-2], vec![2, 3], vec![1, -3]]);
    inst.assignment = vec![false, true, false];
    assert!(unit_propagation(&mut inst));
    assert!(inst.clauses.is_empty());
    assert_eq!(inst.assignment, vec![true, false, true]);
    assert!(inst.literals.is_empty());
}

#[test]
fn opposite_units_conflict() {
    let mut inst = instance(1, vec![vec![1], vec![-1]]);
    assert!(!unit_propagation(&mut inst));
    assert!(inst.clauses.values().any(|c| c.literals.is_empty()));
    assert_eq!(variables(&inst), vec![0]);
}

#[test]
fn derived_conflict_is_found() {
    let mut inst = instance(2, vec![vec![1], vec![-1, 2], vec![-1, -2]]);
    assert!(!unit_propagation(&mut inst));
}

#[test]
fn without_units_nothing_is_forced() {
    let mut inst = instance(3, vec![vec![1, 2], vec![-2, 3]]);
    assert!(unit_propagation(&mut inst));
    assert_eq!(inst.clauses.len(), 2);
    assert_eq!(literals_of(&inst, 0), vec![1, 2]);
    assert_eq!(literals_of(&inst, 1), vec![-2, 3]);
    assert_eq!(inst.assignment, vec![false, false, false]);
    assert_eq!(variables(&inst), vec![0, 1, 2]);
}

#[test]
fn empty_clause_is_kept() {
    let mut inst = instance(2, vec![vec![], vec![2]]);
    assert!(unit_propagation(&mut inst));
    assert_eq!(inst.clauses.len(), 1);
    assert!(inst.clauses[&0].literals.is_empty());
    assert_eq!(inst.assignment, vec![false, true]);
    assert!(inst.literals.is_empty());
}

#[test]
fn duplicate_units_are_harmless() {
    let mut inst = instance(2, vec![vec![1], vec![1], vec![-1, 2], vec![2, 1]]);
    assert!(unit_propagation(&mut inst));
    assert!(inst.clauses.is_empty());
    assert_eq!(inst.assignment, vec![true, true]);
}

#[test]
fn tautology_is_satisfied_by_a_unit() {
    let mut inst = instance(2, vec![vec![2], vec![2, -2, 1]]);
    assert!(unit_propagation(&mut inst));
    assert!(inst.clauses.is_empty());
    assert_eq!(inst.assignment, vec![false, true]);
}

fn satisfies(clauses: &HashMap<i32, Clause>, a: &[bool]) -> bool {
    clauses.values().all(|c| c.literals.iter().any(|&l| a[(l.abs() - 1) as usize] == (l > 0)))
}

#[test]
fn models_survive_propagation() {
    let clauses = vec![vec![1], vec![-1, 2], vec![-2, 3, 4], vec![3, -4, 5], vec![-3, -5]];
    let model = [true, true, true, false, false];
    let mut inst = instance(5, clauses);
    assert!(satisfies(&inst.clauses, &model));
    assert!(unit_propagation(&mut inst));
    assert!(satisfies(&inst.clauses, &model));
    assert_eq!(&inst.assignment[0..2], &model[0..2]);
    let mut other = model;
    other[2] = false;
    assert!(!satisfies(&inst.clauses, &other));
}

#[test]
fn conflict_means_no_model() {
    let clauses = vec![vec![1], vec![-1, 2], vec![-1, -2, 3], vec![-3, -2]];
    let mut inst = instance(3, clauses);
    for bits in 0..8u32 {
        let a = [bits & 1 != 0, bits & 2 != 0, bits & 4 != 0];
        assert!(!satisfies(&inst.clauses, &a));
    }
    assert!(!unit_propagation(&mut inst));
}

#[test]
fn result_does_not_depend_on_clause_numbering() {
    let clauses = vec![vec![-3], vec![3, 1, 2], vec![-1, 4], vec![2, -4, 3], vec![1, 4]];
    let mut first = instance(4, clauses.clone());
    let mut reversed_clauses = clauses.clone();
    reversed_clauses.reverse();
    let mut second = instance(4, reversed_clauses);
    assert!(unit_propagation(&mut first));
    assert!(unit_propagation(&mut second));
    assert_eq!(first.assignment, second.assignment);
    let mut a: Vec<Vec<i32>> = first.clauses.values().map(|c| {
        let mut v: Vec<i32> = c.literals.iter().cloned().collect();
        v.sort();
        v
    }).collect();
    let mut b: Vec<Vec<i32>> = second.clauses.values().map(|c| {
        let mut v: Vec<i32> = c.literals.iter().cloned().collect();
        v.sort();
        v
    }).collect();
    a.sort();
    b.sort();
    assert_eq!(a, b);
    assert_eq!(a, vec![vec![-4, 2], vec![-1, 4], vec![1, 2], vec![1, 4]]);
}
