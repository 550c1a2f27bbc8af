//! A conflict-driven clause-learning SAT solver for formulas in conjunctive
//! normal form, with the DIMACS reader that feeds it, and a small search
//! solver over hash-set formulas.
pub mod utils;
pub mod restarter;
pub mod ante_location;
pub mod variable_info;
pub mod clause_pool;
pub mod cnf_manager;
pub mod sat_instance;
pub mod cnf;
pub mod sat_solver;
pub mod structs;
pub mod simple_solve;
pub mod unit_propagation;

pub use cnf::Cnf;
pub use cnf_manager::{CnfManager, SCORE, SET};
pub use sat_instance::{Reader, SatInstance};
pub use sat_solver::{RunError, SatSolver};
pub use utils::VA;
