use rusty_duckling::ante_location::AnteLocation;
use rusty_duckling::cnf_manager::{ArrTuple, Variable};
use rusty_duckling::utils::{neg, sign, to_var};
use rusty_duckling::variable_info::VariableInfo;
use rusty_duckling::VA;

#[test]
fn sign_of_literals() {
    assert_eq!(sign(&5), VA::Pos);
    assert_eq!(sign(&-5), VA::Neg);
    assert_eq!(sign(&0), VA::Neg);
}

#[test]
fn variable_of_literals() {
    assert_eq!(to_var(&7), 7);
    assert_eq!(to_var(&-7), 7);
    assert_eq!(to_var(&0), 0);
}

#[test]
fn negation_is_an_involution() {
    for l in [-9, -1, 1, 4, 2147483647] {
        assert_eq!(neg(&neg(&l)), l);
        assert_eq!(to_var(&neg(&l)), to_var(&l));
        assert_ne!(sign(&neg(&l)), sign(&l));
    }
}

#[test]
fn value_slots() {
    assert_eq!(VA::Neg.index(), 0);
    assert_eq!(VA::Pos.index(), 1);
    assert_eq!(VA::Free.index(), 2);
}

#[test]
fn reason_constructors() {
    let a = ArrTuple::new();
    assert!(a.is_null && !a.is_lit_pool);
    let b = ArrTuple::ctor(true);
    assert!(!b.is_null && b.is_lit_pool);
    let c = ArrTuple::ctor2(3, 1);
    assert!(!c.is_null && !c.is_lit_pool);
    assert_eq!((c.var_index, c.positive), (3, 1));
    let d = AnteLocation::new();
    assert!(d.is_null && !d.is_lit_pool);
    assert_eq!((d.var_index, d.positive), (0, 0));
    let e = AnteLocation::ctor(true);
    assert!(!e.is_null && e.is_lit_pool);
    let f = AnteLocation::ctor2(4, 0);
    assert!(!f.is_null && !f.is_lit_pool);
    assert_eq!((f.var_index, f.positive), (4, 0));
}

#[test]
fn fresh_variables() {
    let v = Variable::new();
    assert_eq!(v.value, VA::Free);
    assert_eq!(v.activity, [0, 0]);
    assert!(v.bin_imp[0].is_empty() && v.watch[1].is_empty());
    let w = VariableInfo::new();
    assert_eq!(w.value, VA::Free);
    assert_eq!(w.decision_level, 0);
    assert!(w.ante.is_null);
    assert_eq!(w.activity, [0, 0]);
}
