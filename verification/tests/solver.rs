use rusty_duckling::{Reader, RunError, SatInstance, SatSolver, VA};

fn instance(var_count: usize, clauses: Vec<Vec<i32>>) -> SatInstance {
    SatInstance { var_count, clause_count: clauses.len(), clauses }
}

fn satisfies(solution: &[i32], clauses: &[Vec<i32>]) -> bool {
    clauses.iter().all(|c| c.iter().any(|l| solution[(l.abs() - 1) as usize] == *l))
}

fn solve(inst: &SatInstance) -> (Option<Result<bool, RunError>>, Option<SatSolver>) {
    match SatSolver::new(inst) {
        None => (None, None),
        Some(mut s) => {
            let r = s.run();
            (Some(r), Some(s))
        }
    }
}

#[test]
fn satisfiable_three_sat() {
    let clauses = vec![
        vec![1, 2, 3],
        vec![-1, -2, 3],
        vec![1, -2, -3],
        vec![-1, 2, -3],
        vec![2, 3, 4],
        vec![-4, -3, -2],
    ];
    let inst = instance(4, clauses.clone());
    let (r, s) = solve(&inst);
    assert_eq!(r, Some(Ok(true)));
    let s = s.unwrap();
    assert!(s.verifySolution());
    let sol = s.solution();
    assert_eq!(sol.len(), 4);
    assert!(satisfies(&sol, &clauses));
}

#[test]
fn satisfiable_with_units_and_binaries() {
    let clauses = vec![vec![1], vec![-1, 2], vec![-2, 3, 4], vec![-3, -4], vec![4, 5, -1]];
    let inst = instance(5, clauses.clone());
    let (r, s) = solve(&inst);
    assert_eq!(r, Some(Ok(true)));
    let sol = s.unwrap().solution();
    assert_eq!(sol[0], 1);
    assert_eq!(sol[1], 2);
    assert!(satisfies(&sol, &clauses));
}

#[test]
fn unsatisfiable_binary_square() {
    let inst = instance(2, vec![vec![1, 2], vec![1, -2], vec![-1, 2], vec![-1, -2]]);
    let (r, _) = solve(&inst);
    assert_eq!(r, Some(Ok(false)));
}

fn pigeonhole(pigeons: i32, holes: i32) -> Vec<Vec<i32>> {
    let x = |p: i32, h: i32| (p - 1) * holes + h;
    let mut cs = Vec::new();
    for p in 1..=pigeons {
        cs.push((1..=holes).map(|h| x(p, h)).collect());
    }
    for h in 1..=holes {
        for p in 1..=pigeons {
            for q in (p + 1)..=pigeons {
                cs.push(vec![-x(p, h), -x(q, h)]);
            }
        }
    }
    cs
}

#[test]
fn unsatisfiable_pigeonhole() {
    let inst = instance(12, pigeonhole(4, 3));
    let (r, _) = solve(&inst);
    assert_eq!(r, Some(Ok(false)));
}

#[test]
fn satisfiable_pigeonhole_with_room() {
    let clauses = pigeonhole(3, 3);
    let inst = instance(9, clauses.clone());
    let (r, s) = solve(&inst);
    assert_eq!(r, Some(Ok(true)));
    assert!(satisfies(&s.unwrap().solution(), &clauses));
}

#[test]
fn opposite_unit_clauses_give_no_solver() {
    let inst = instance(2, vec![vec![1], vec![2, 1], vec![-1]]);
    assert!(SatSolver::new(&inst).is_none());
}

#[test]
fn conflicting_units_give_unsat() {
    let inst = instance(2, vec![vec![1], vec![-1, 2], vec![-1, -2]]);
    let mut s = SatSolver::new(&inst).unwrap();
    assert_eq!(s.cnf_manager.decision_level, 0);
    assert_eq!(s.run(), Ok(false));
    assert_eq!(s.cnf_manager.decision_level, 0);
}

#[test]
fn empty_formula_is_satisfiable() {
    let inst = instance(3, vec![]);
    let mut s = SatSolver::new(&inst).unwrap();
    assert_eq!(s.run(), Ok(true));
    assert_eq!(s.solution(), vec![-1, -2, -3]);
}

#[test]
fn construction_state() {
    let inst = instance(4, vec![vec![1, 2, 3], vec![1, -2, 3], vec![-3, 4]]);
    let s = SatSolver::new(&inst).unwrap();
    assert_eq!(s.luby.index, 1);
    assert_eq!(s.next_restart, 512);
    assert_eq!(s.next_decay, 128);
    assert_eq!(s.luby_unit, 512);
    let m = &s.cnf_manager;
    assert_eq!(m.decision_level, 1);
    assert_eq!(m.next_var, 0);
    assert_eq!(m.next_clause, -1);
    // 1 occurs only positively and 4 only positively: both are asserted.
    assert_eq!(m.vars[1].value, VA::Pos);
    assert_eq!(m.vars[4].value, VA::Pos);
    // The rest of the unassigned variables are ordered by ascending score.
    for w in m.var_order.windows(2) {
        let (a, b) = (w[0], w[1]);
        let wa = m.weight(&a);
        let wb = m.weight(&b);
        assert!(wa < wb || (wa == wb && a < b));
    }
    for (k, &v) in m.var_order.iter().enumerate() {
        assert_eq!(m.vars[v as usize].value, VA::Free);
        assert_eq!(m.var_position[v as usize], k as i32);
    }
}

#[test]
fn select_prefers_the_heavier_polarity() {
    let inst = instance(3, vec![vec![1, 2, 3], vec![-1, 2, 3], vec![-1, -2, -3], vec![1, -2, -3], vec![2, -3, 1]]);
    let mut s = SatSolver::new(&inst).unwrap();
    let lit = s.selectLiteral();
    assert_ne!(lit, 0);
    let v = lit.abs() as usize;
    assert_eq!(s.cnf_manager.vars[v].value, VA::Free);
    assert_eq!(s.cnf_manager.next_var, 1);
}

#[test]
fn solve_from_dimacs_text() {
    let mut reader = Reader::new();
    reader.refill("p cnf 3 4\n1 2 0\n-1 2 0\n-2 3 0\n-3 -1 0\n");
    let inst = SatInstance::read(&mut reader).unwrap();
    assert!(inst.is_well_formed());
    let (r, s) = solve(&inst);
    assert_eq!(r, Some(Ok(true)));
    let sol = s.unwrap().solution();
    assert!(satisfies(&sol, &inst.clauses));
    assert_eq!(sol, vec![-1, 2, 3]);
}
