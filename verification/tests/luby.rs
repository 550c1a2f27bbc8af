use rusty_duckling::restarter::Restarter;
use rusty_duckling::sat_solver::Luby;

#[test]
fn luby_first_terms() {
    let mut l = Luby::new();
    let got: Vec<i32> = (0..15).map(|_| l.next()).collect();
    assert_eq!(got, vec![1, 1, 2, 1, 1, 2, 4, 1, 1, 2, 1, 1, 2, 4, 8]);
    assert_eq!(l.index, 15);
    assert_eq!(l.seq.len(), 15);
}

#[test]
fn luby_term_at_power_of_two_minus_one() {
    let mut l = Luby::new();
    let mut last = 0;
    for _ in 0..63 {
        last = l.next();
    }
    assert_eq!(last, 32);
    assert_eq!(l.next(), 1);
}

#[test]
fn restarter_thresholds_follow_luby() {
    let mut r = Restarter::new();
    let mut l = Luby::new();
    for _ in 0..100 {
        assert_eq!(r.next_threshold() as i32, l.next());
    }
    assert_eq!(r.i, 100);
    assert_eq!(r.threshold_sequence.len(), 100);
}

#[test]
fn restarter_first_terms() {
    let mut r = Restarter::new();
    let got: Vec<usize> = (0..8).map(|_| r.next_threshold()).collect();
    assert_eq!(got, vec![1, 1, 2, 1, 1, 2, 4, 1]);
}
