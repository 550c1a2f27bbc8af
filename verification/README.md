# rusty_duckling

A conflict-driven clause-learning SAT solver, verified with Verus.

- `src/cnf_manager.rs`: the clause database (literal pool, binary-implication
  lists, watch lists), the trail, unit propagation, conflict analysis with
  clause learning, backtracking and the variable-activity heuristic.
- `src/sat_solver.rs`: the search loop (`SatSolver::run`), the decision
  heuristic (`selectLiteral`), the Luby restart schedule and the final check
  of the assignment (`verifySolution`).
- `src/sat_instance.rs`, `src/cnf.rs`: reading DIMACS formulas from tokens
  and from lines.
- `src/restarter.rs`: restart thresholds on the Luby sequence.
- `src/structs.rs`, `src/simple_solve.rs`: a small search solver over
  formulas kept in hash collections, which tries the assignments of one walk
  through the variables (one more than there are variables to search).
- `src/unit_propagation.rs`: unit propagation over those formulas, with the
  laws that make it sound (derived literals hold in every model, a conflict
  means no model, models are kept exactly) and order-independent.
- `app/`: the command-line program (reading standard input, printing).

Every function in `src/` carries a `requires`/`ensures` contract checked by
Verus; `tests/` exercises the library on concrete formulas.
