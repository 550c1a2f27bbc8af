use rusty_duckling::sat_instance::{parse_i32, parse_usize};
use rusty_duckling::{Cnf, Reader, SatInstance};

fn reader_of(text: &str) -> Reader {
    let mut r = Reader::new();
    r.refill(text);
    r
}

#[test]
fn reader_hands_out_tokens_in_order() {
    let mut r = reader_of("p cnf\n 3\t2 ");
    assert_eq!(r.next(), Some(String::from("p")));
    assert_eq!(r.next(), Some(String::from("cnf")));
    assert_eq!(r.next(), Some(String::from("3")));
    assert_eq!(r.next(), Some(String::from("2")));
    assert_eq!(r.next(), None);
    assert_eq!(r.next(), None);
}

#[test]
fn empty_reader_has_no_token() {
    let mut r = Reader::new();
    assert_eq!(r.next(), None);
    r.refill("   \n  ");
    assert_eq!(r.next(), None);
}

#[test]
fn unsigned_tokens() {
    assert_eq!(parse_usize(&String::from("42")), Some(42));
    assert_eq!(parse_usize(&String::from("+7")), Some(7));
    assert_eq!(parse_usize(&String::from("007")), Some(7));
    assert_eq!(parse_usize(&String::from("-1")), None);
    assert_eq!(parse_usize(&String::from("")), None);
    assert_eq!(parse_usize(&String::from("+")), None);
    assert_eq!(parse_usize(&String::from("12a")), None);
    assert_eq!(parse_usize(&String::from("99999999999999999999999")), None);
}

#[test]
fn signed_tokens() {
    assert_eq!(parse_i32(&String::from("-12")), Some(-12));
    assert_eq!(parse_i32(&String::from("+3")), Some(3));
    assert_eq!(parse_i32(&String::from("0")), Some(0));
    assert_eq!(parse_i32(&String::from("2147483647")), Some(2147483647));
    assert_eq!(parse_i32(&String::from("-2147483648")), Some(i32::MIN));
    assert_eq!(parse_i32(&String::from("2147483648")), None);
    assert_eq!(parse_i32(&String::from("-2147483649")), None);
    assert_eq!(parse_i32(&String::from("--1")), None);
    assert_eq!(parse_i32(&String::from("x")), None);
}

#[test]
fn read_a_formula() {
    let mut r = reader_of("p cnf 3 2\n1 -2 0\n2 3 -1 0\n");
    let inst = SatInstance::read(&mut r).unwrap();
    assert_eq!(inst.var_count, 3);
    assert_eq!(inst.clause_count, 2);
    assert_eq!(inst.clauses, vec![vec![1, -2], vec![2, 3, -1]]);
    assert_eq!(r.next(), None);
}

#[test]
fn read_drops_tautologies_and_repetitions() {
    let mut r = reader_of("p cnf 3 3 1 1 2 0 1 -1 0 3 -2 3 0 next");
    let inst = SatInstance::read(&mut r).unwrap();
    assert_eq!(inst.clauses, vec![vec![1, 2], vec![3, -2]]);
    assert_eq!(inst.clause_count, 2);
    assert_eq!(r.next(), Some(String::from("next")));
}

#[test]
fn read_stops_after_the_announced_clauses() {
    let mut r = reader_of("p cnf 2 1 1 2 0 p cnf 1 1 -1 0");
    let first = SatInstance::read(&mut r).unwrap();
    assert_eq!(first.clauses, vec![vec![1, 2]]);
    let second = SatInstance::read(&mut r).unwrap();
    assert_eq!(second.var_count, 1);
    assert_eq!(second.clauses, vec![vec![-1]]);
}

#[test]
fn read_without_clauses() {
    let mut r = reader_of("p cnf 4 0 5");
    let inst = SatInstance::read(&mut r).unwrap();
    assert_eq!(inst.var_count, 4);
    assert_eq!(inst.clause_count, 0);
    assert!(inst.clauses.is_empty());
    assert_eq!(r.next(), Some(String::from("5")));
}

#[test]
fn read_rejects_bad_input() {
    assert!(SatInstance::read(&mut reader_of("q cnf 1 1 1 0")).is_none());
    assert!(SatInstance::read(&mut reader_of("p dnf 1 1 1 0")).is_none());
    assert!(SatInstance::read(&mut reader_of("p cnf x 1 1 0")).is_none());
    assert!(SatInstance::read(&mut reader_of("p cnf 1 -1 1 0")).is_none());
    assert!(SatInstance::read(&mut reader_of("p cnf 1 2 1 0 1")).is_none());
    assert!(SatInstance::read(&mut reader_of("p cnf 1 1 a 0")).is_none());
    assert!(SatInstance::read(&mut reader_of("p cnf 1 1 -2147483648 0")).is_none());
    assert!(SatInstance::read(&mut reader_of("p cnf")).is_none());
    assert!(SatInstance::read(&mut reader_of("")).is_none());
}

#[test]
fn well_formed_formulas() {
    let ok = SatInstance { var_count: 2, clause_count: 2, clauses: vec![vec![1, -2], vec![2]] };
    assert!(ok.is_well_formed());
    let out_of_range = SatInstance { var_count: 2, clause_count: 1, clauses: vec![vec![3]] };
    assert!(!out_of_range.is_well_formed());
    let empty_clause = SatInstance { var_count: 2, clause_count: 1, clauses: vec![vec![]] };
    assert!(!empty_clause.is_well_formed());
    let too_many = SatInstance { var_count: 2, clause_count: 3, clauses: vec![vec![1]] };
    assert!(!too_many.is_well_formed());
    let ignored_tail = SatInstance { var_count: 1, clause_count: 1, clauses: vec![vec![1], vec![9]] };
    assert!(ignored_tail.is_well_formed());
}

#[test]
fn header_line_counts() {
    let c = Cnf::from_header("p cnf 5 3\n").unwrap();
    assert_eq!((c.var_count, c.clause_count, c.clause_sum_length), (5, 3, 0));
    assert!(c.clauses.is_empty());
    assert!(Cnf::from_header("p cnf 5").is_none());
    assert!(Cnf::from_header("p cnf five 3").is_none());
    let d = Cnf::from_header("a b -1 7 extra").unwrap();
    assert_eq!((d.var_count, d.clause_count), (-1, 7));
}

#[test]
fn clause_lines() {
    let mut c = Cnf::from_header("p cnf 3 2").unwrap();
    assert!(c.add_clause_line("1 -3 0\n"));
    assert!(c.add_clause_line("2 0 3"));
    assert_eq!(c.clauses, vec![vec![1, -3], vec![2, 3]]);
    assert_eq!(c.clause_sum_length, 4);
    assert!(c.add_clause_line(""));
    assert_eq!(c.clauses.len(), 3);
    assert!(c.add_clause_line("00 -0"));
    assert_eq!(c.clauses[3], vec![0, 0]);
    assert!(!c.add_clause_line("1 x 0"));
    assert_eq!(c.clauses.len(), 4);
    assert_eq!(c.clause_sum_length, 6);
}
