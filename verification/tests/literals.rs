use sat_solver::lit::{negate, polarity, slot, var};
use sat_solver::{Solver, MAX_VARS};

#[test]
fn variable_is_the_magnitude() {
    assert_eq!(var(5), 5);
    assert_eq!(var(-5), 5);
    assert_eq!(var(1), 1);
    assert_eq!(var(i32::MAX), 2147483647);
    assert_eq!(var(i32::MIN), 2147483648);
}

#[test]
fn polarity_is_the_sign() {
    assert!(polarity(3));
    assert!(!polarity(-3));
}

#[test]
fn negation_flips_the_sign() {
    assert_eq!(negate(4), -4);
    assert_eq!(negate(-4), 4);
    assert_eq!(negate(negate(7)), 7);
    assert_eq!(var(negate(-9)), 9);
}

#[test]
fn slots_run_from_the_most_negative_literal() {
    assert_eq!(slot(3, -3), 0);
    assert_eq!(slot(3, -1), 2);
    assert_eq!(slot(3, 1), 4);
    assert_eq!(slot(3, 3), 6);
    assert_eq!(slot(MAX_VARS, i32::MAX), 4294967294);
    assert_eq!(slot(MAX_VARS, -i32::MAX), 0);
}

#[test]
fn slots_of_distinct_literals_differ() {
    let n = 4;
    let mut seen = vec![false; 2 * n + 1];
    for l in -4..=4 {
        if l != 0 {
            let s = slot(n, l);
            assert!(!seen[s]);
            seen[s] = true;
        }
    }
}

#[test]
fn eval_follows_assignment_and_polarity() {
    let mut s = Solver::new(3, vec![vec![1, 2, 3]].as_slice()).unwrap();
    for v in 1..=3 {
        let l = v as i32;
        assert_eq!(s.eval(l), None);
        assert_eq!(s.eval(-l), None);
        s.assign(v, Some(true));
        assert_eq!(s.assignment(v), Some(true));
        assert_eq!(s.eval(l), Some(true));
        assert_eq!(s.eval(-l), Some(false));
        s.assign(v, Some(false));
        assert_eq!(s.eval(l), Some(false));
        assert_eq!(s.eval(-l), Some(true));
        s.assign(v, None);
        assert_eq!(s.eval(l), None);
        assert_eq!(s.eval(-l), None);
    }
}

#[test]
fn assignment_of_one_variable_leaves_the_others() {
    let mut s = Solver::new(3, vec![vec![1, 2, 3]].as_slice()).unwrap();
    s.assign(2, Some(true));
    assert_eq!(s.assignment(1), None);
    assert_eq!(s.assignment(2), Some(true));
    assert_eq!(s.assignment(3), None);
    assert_eq!(s.literals(s.clause(0)), vec![1, 2, 3]);
}

#[test]
fn levels_are_kept_for_the_caller() {
    let mut s = Solver::new(2, vec![vec![1, 2]].as_slice()).unwrap();
    s.set_level(3);
    s.set_level_of(2, 3);
    assert_eq!(s.level(), 3);
    assert_eq!(s.level_of(1), 0);
    assert_eq!(s.level_of(2), 3);
    s.suggest[1] = true;
    assert_eq!(s.suggest, vec![false, true]);
}
