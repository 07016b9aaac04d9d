use sat_solver::propagate::PropagateResult;
use sat_solver::{Clause, Solver};

fn build(n: usize, clauses: Vec<Vec<i32>>) -> Solver {
    Solver::new(n, clauses.as_slice()).unwrap()
}

fn implied(r: PropagateResult) -> Vec<(i32, Clause)> {
    match r {
        PropagateResult::Implied(v) => v,
        PropagateResult::Conflict(c) => panic!("conflict at {:?}", c),
    }
}

fn conflict(r: PropagateResult) -> Clause {
    match r {
        PropagateResult::Implied(v) => panic!("no conflict, implied {:?}", v),
        PropagateResult::Conflict(c) => c,
    }
}

#[test]
fn forced_unit() {
    let mut s = build(2, vec![vec![1, -2]]);
    let c = s.clause(0);
    s.assign(1, Some(false));
    let v = implied(s.propagate_once(-1));
    assert_eq!(v, vec![(-2, c)]);
    assert_eq!(s.assignment(2), None);
    assert_eq!(s.literals(c), vec![1, -2]);
}

#[test]
fn conflict_when_both_are_false() {
    let mut s = build(2, vec![vec![1, 2]]);
    let c = s.clause(0);
    s.assign(1, Some(false));
    s.assign(2, Some(false));
    assert_eq!(conflict(s.propagate_once(-1)), c);
    assert_eq!(s.eval(1), Some(false));
    assert_eq!(s.eval(2), Some(false));
}

#[test]
fn satisfied_clause_is_left_alone() {
    let mut s = build(2, vec![vec![1, 2]]);
    let c = s.clause(0);
    s.assign(2, Some(true));
    let v = implied(s.propagate_once(-1));
    assert!(v.is_empty());
    assert_eq!(s.literals(c), vec![1, 2]);
    assert_eq!(s.watchers_of(-1), &vec![c]);
    assert_eq!(s.watchers_of(-2), &vec![c]);
}

#[test]
fn false_literal_at_the_back_comes_to_the_front() {
    let mut s = build(2, vec![vec![2, 1]]);
    let c = s.clause(0);
    s.assign(1, Some(false));
    let v = implied(s.propagate_once(-1));
    assert_eq!(v, vec![(2, c)]);
    assert_eq!(s.literals(c), vec![1, 2]);
    assert_eq!(s.watchers_of(-1), &vec![c]);
    assert_eq!(s.watchers_of(-2), &vec![c]);
}

#[test]
fn another_literal_takes_over_the_watch() {
    let mut s = build(4, vec![vec![1, 2, 3, 4]]);
    let c = s.clause(0);
    s.assign(1, Some(false));
    s.assign(2, Some(false));
    let v = implied(s.propagate_once(-1));
    assert!(v.is_empty());
    // 3 is the first literal in between that is not false: it is watched at the back
    // now, 4 has come to the front, and 1 lies where 3 was.
    assert_eq!(s.literals(c), vec![4, 2, 1, 3]);
    assert!(s.watchers_of(-1).is_empty());
    assert_eq!(s.watchers_of(-3), &vec![c]);
    assert_eq!(s.watchers_of(-4), &vec![c]);
    assert!(s.watchers_of(-2).is_empty());
}

#[test]
fn a_true_literal_in_between_takes_over_too() {
    let mut s = build(3, vec![vec![1, 2, 3]]);
    let c = s.clause(0);
    s.assign(1, Some(false));
    s.assign(2, Some(true));
    s.assign(3, Some(false));
    let v = implied(s.propagate_once(-1));
    assert!(v.is_empty());
    assert_eq!(s.literals(c), vec![3, 1, 2]);
    assert_eq!(s.watchers_of(-2), &vec![c]);
    assert_eq!(s.watchers_of(-3), &vec![c]);
}

#[test]
fn forced_when_nothing_in_between_can_take_over() {
    let mut s = build(3, vec![vec![1, 2, 3]]);
    let c = s.clause(0);
    s.assign(1, Some(false));
    s.assign(2, Some(false));
    let v = implied(s.propagate_once(-1));
    assert_eq!(v, vec![(3, c)]);
    assert_eq!(s.literals(c), vec![1, 2, 3]);
    assert_eq!(s.watchers_of(-1), &vec![c]);
}

#[test]
fn conflict_drops_what_was_collected() {
    let mut s = build(3, vec![vec![1, 2], vec![1, 3]]);
    let c1 = s.clause(1);
    s.assign(1, Some(false));
    s.assign(3, Some(false));
    assert_eq!(conflict(s.propagate_once(-1)), c1);
}

#[test]
fn every_clause_of_the_list_is_examined() {
    // The first clause leaves the list, the last one takes its place and must still be
    // looked at.
    let mut s = build(5, vec![vec![1, 2, 3], vec![1, 4], vec![1, 5]]);
    let c0 = s.clause(0);
    let c1 = s.clause(1);
    let c2 = s.clause(2);
    s.assign(1, Some(false));
    let mut v = implied(s.propagate_once(-1));
    v.sort_by_key(|p| p.0);
    assert_eq!(v, vec![(4, c1), (5, c2)]);
    assert_eq!(s.literals(c0), vec![3, 1, 2]);
    let mut rest = s.watchers_of(-1).clone();
    rest.sort_by_key(|c| c.start);
    assert_eq!(rest, vec![c1, c2]);
    assert_eq!(s.watchers_of(-2), &vec![c0]);
    assert_eq!(s.watchers_of(-3), &vec![c0]);
}

#[test]
fn clauses_that_do_not_watch_the_literal_are_untouched() {
    let mut s = build(3, vec![vec![2, 1, 3], vec![-1, 2]]);
    let c0 = s.clause(0);
    let c1 = s.clause(1);
    s.assign(1, Some(false));
    let v = implied(s.propagate_once(-1));
    assert!(v.is_empty());
    assert_eq!(s.literals(c0), vec![2, 1, 3]);
    assert_eq!(s.literals(c1), vec![-1, 2]);
}

#[test]
fn propagation_reads_the_assignment_only() {
    let mut s = build(2, vec![vec![1, -2]]);
    s.assign(1, Some(false));
    s.set_level(1);
    s.set_level_of(1, 1);
    let _ = s.propagate_once(-1);
    assert_eq!(s.assignment(1), Some(false));
    assert_eq!(s.assignment(2), None);
    assert_eq!(s.level(), 1);
    assert_eq!(s.level_of(1), 1);
    assert_eq!(s.level_of(2), 0);
}

#[test]
fn watches_stay_consistent_over_a_chain_of_steps() {
    let mut s = build(4, vec![vec![1, 2, 3, 4], vec![-1, -2], vec![-2, 3, -4]]);
    let c0 = s.clause(0);
    s.assign(1, Some(false));
    assert!(implied(s.propagate_once(-1)).is_empty());
    s.assign(4, Some(false));
    assert!(implied(s.propagate_once(-4)).is_empty());
    s.assign(3, Some(false));
    let v = implied(s.propagate_once(-3));
    assert_eq!(v, vec![(2, c0)]);
    for k in 0..s.clause_count() {
        let c = s.clause(k);
        let lits = s.literals(c);
        for l in -4..=4 {
            let here = s.watchers_of(l).iter().filter(|x| **x == c).count();
            let expected = l == -lits[0] || l == -lits[lits.len() - 1];
            assert_eq!(here, if expected { 1 } else { 0 });
        }
    }
    let mut sorted = s.literals(c0);
    sorted.sort();
    assert_eq!(sorted, vec![1, 2, 3, 4]);
}
