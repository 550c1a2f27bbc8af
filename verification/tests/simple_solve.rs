use rusty_duckling::simple_solve::{assignment_literals, check, id, lit_num, not, simple_solve};
use rusty_duckling::structs::{Clause, Instance};
use std::collections::{HashMap, HashSet};

fn instance(nbvar: usize, clauses: Vec<Vec<i32>>) -> Instance {
    let mut map = HashMap::new();
    for (k, c) in clauses.iter().enumerate() {
        map.insert(k as i32, Clause { literals: c.iter().cloned().collect::<HashSet<i32>>() });
    }
    Instance {
        nbvar: nbvar as i32,
        nbclauses: clauses.len() as i32,
        assignment: vec![false; nbvar],
        literals: (0..nbvar).collect(),
        clauses: map,
    }
}

fn satisfied(inst: &Instance) -> bool {
    inst.clauses.values().all(|c| {
        c.literals.iter().any(|&l| inst.assignment[(l.abs() - 1) as usize] == (l > 0))
    })
}

#[test]
fn boolean_helpers() {
    assert!(id(true));
    assert!(!id(false));
    assert!(not(false));
    assert!(!not(true));
    assert_eq!(lit_num(3, true), 3);
    assert_eq!(lit_num(3, false), -3);
}

#[test]
fn check_reads_the_assignment() {
    let mut inst = instance(2, vec![vec![1, 2], vec![-1]]);
    inst.assignment = vec![false, true];
    assert!(check(&inst));
    inst.assignment = vec![true, true];
    assert!(!check(&inst));
    inst.assignment = vec![false, false];
    assert!(!check(&inst));
}

#[test]
fn check_rejects_an_empty_clause() {
    let mut inst = instance(1, vec![vec![]]);
    inst.assignment = vec![true];
    assert!(!check(&inst));
}

#[test]
fn check_accepts_no_clauses() {
    let inst = instance(3, vec![]);
    assert!(check(&inst));
}

#[test]
fn search_finds_all_false() {
    let mut inst = instance(3, vec![vec![-1, -2], vec![-3]]);
    assert!(simple_solve(&mut inst));
    assert_eq!(inst.assignment, vec![false, false, false]);
}

#[test]
fn search_finds_all_true() {
    let mut inst = instance(3, vec![vec![1], vec![2], vec![3]]);
    assert!(simple_solve(&mut inst));
    assert_eq!(inst.assignment, vec![true, true, true]);
}

#[test]
fn search_result_satisfies() {
    let mut inst = instance(2, vec![vec![1, 2], vec![-1, 2]]);
    let r = simple_solve(&mut inst);
    // some candidate of the walk has variable 2 true
    assert!(r);
    assert!(satisfied(&inst));
    assert!(check(&inst));
}

#[test]
fn search_fails_on_contradiction() {
    let mut inst = instance(1, vec![vec![1], vec![-1]]);
    assert!(!simple_solve(&mut inst));
    assert_eq!(inst.assignment, vec![true]);
}

#[test]
fn solution_literals() {
    let mut inst = instance(3, vec![]);
    inst.assignment = vec![true, false, true];
    assert_eq!(assignment_literals(&inst), vec![1, -2, 3]);
}
