use sat_solver::{Clause, Solver};

fn build(n: usize, clauses: Vec<Vec<i32>>) -> Solver {
    Solver::new(n, clauses.as_slice()).unwrap()
}

#[test]
fn sat_solver_struct_test() {
    let mut ss2 = Solver::new(3, vec![vec![1, -2], vec![-1, 2, 3]].as_slice()).unwrap();
    let mut ss = Solver::new(2, vec![].as_slice()).unwrap();
    std::mem::swap(&mut ss, &mut ss2);
    assert_eq!(ss.literals(ss.clause(0))[0], 1);
    assert_eq!(ss.literals(ss.clause(1))[0], -1);
}

#[test]
fn relocation_keeps_clauses_and_watchers() {
    let mut a = build(3, vec![vec![1, -2], vec![-1, 2, 3]]);
    let c0 = a.clause(0);
    let c1 = a.clause(1);
    let lits0 = a.literals(c0);
    let lits1 = a.literals(c1);
    let lists: Vec<Vec<Clause>> = (-3..=3).map(|l| a.watchers_of(l).clone()).collect();
    let mut b = build(2, vec![]);
    std::mem::swap(&mut a, &mut b);
    assert_eq!(a.clause_count(), 0);
    assert_eq!(b.var_count(), 3);
    assert_eq!(b.clause(0), c0);
    assert_eq!(b.clause(1), c1);
    assert_eq!(b.literals(c0), lits0);
    assert_eq!(b.literals(c1), lits1);
    assert_eq!(&b.literals(c0)[..2], &[1, -2]);
    assert_eq!(&b.literals(c1)[..2], &[-1, 2]);
    let moved = Box::new(b);
    for l in -3..=3 {
        assert_eq!(moved.watchers_of(l), &lists[(l + 3) as usize]);
    }
}

#[test]
fn clauses_are_laid_out_back_to_back() {
    let s = build(4, vec![vec![1, -2], vec![-1, 2, 3], vec![4, -3]]);
    assert_eq!(s.var_count(), 4);
    assert_eq!(s.clause_count(), 3);
    assert_eq!(s.clause(0), Clause { start: 0, end: 2 });
    assert_eq!(s.clause(1), Clause { start: 2, end: 5 });
    assert_eq!(s.clause(2), Clause { start: 5, end: 7 });
    assert_eq!(s.literals(s.clause(0)), vec![1, -2]);
    assert_eq!(s.literals(s.clause(1)), vec![-1, 2, 3]);
    assert_eq!(s.literals(s.clause(2)), vec![4, -3]);
}

#[test]
fn fresh_solver_has_nothing_assigned() {
    let s = build(3, vec![vec![1, 2, 3]]);
    assert_eq!(s.level(), 0);
    assert_eq!(s.suggest, vec![false, false, false]);
    for v in 1..=3 {
        assert_eq!(s.assignment(v), None);
        assert_eq!(s.level_of(v), 0);
    }
}

#[test]
fn every_clause_is_watched_by_the_negations_of_its_ends() {
    let s = build(3, vec![vec![1, -2], vec![-1, 2, 3], vec![3, 1]]);
    let c0 = s.clause(0);
    let c1 = s.clause(1);
    let c2 = s.clause(2);
    // The list of a literal holds the clauses that watch its negation.
    assert_eq!(s.watchers_of(-1), &vec![c0, c2]);
    assert_eq!(s.watchers_of(2), &vec![c0]);
    assert_eq!(s.watchers_of(1), &vec![c1]);
    assert_eq!(s.watchers_of(-3), &vec![c1, c2]);
    assert!(s.watchers_of(-2).is_empty());
    assert!(s.watchers_of(3).is_empty());
    assert!(s.watchers_of(0).is_empty());
    for c in [c0, c1, c2] {
        let lits = s.literals(c);
        let mut count = 0;
        for l in -3..=3 {
            let here = s.watchers_of(l).iter().filter(|x| **x == c).count();
            let expected = l == -lits[0] || l == -lits[lits.len() - 1];
            assert_eq!(here, if expected { 1 } else { 0 });
            count += here;
        }
        assert_eq!(count, 2);
    }
}

#[test]
fn empty_formula_is_accepted() {
    let s = build(2, vec![]);
    assert_eq!(s.clause_count(), 0);
    for l in -2..=2 {
        assert!(s.watchers_of(l).is_empty());
    }
    let z = build(0, vec![]);
    assert_eq!(z.var_count(), 0);
}

#[test]
fn repeated_variable_is_rejected() {
    assert!(Solver::new(2, vec![vec![1, 1, 2]].as_slice()).is_none());
    assert!(Solver::new(2, vec![vec![1, 2, -1]].as_slice()).is_none());
    assert!(Solver::new(3, vec![vec![3, 2, 1, -2]].as_slice()).is_none());
}

#[test]
fn short_clauses_are_rejected() {
    assert!(Solver::new(2, vec![vec![]].as_slice()).is_none());
    assert!(Solver::new(2, vec![vec![1]].as_slice()).is_none());
    assert!(Solver::new(2, vec![vec![1, 2], vec![-2]].as_slice()).is_none());
}

#[test]
fn zero_literal_is_rejected() {
    assert!(Solver::new(2, vec![vec![0, 1]].as_slice()).is_none());
    assert!(Solver::new(2, vec![vec![1, 2], vec![2, 0]].as_slice()).is_none());
}

#[test]
fn literal_beyond_the_variables_is_rejected() {
    assert!(Solver::new(2, vec![vec![1, 3]].as_slice()).is_none());
    assert!(Solver::new(2, vec![vec![-3, 1]].as_slice()).is_none());
    assert!(Solver::new(2, vec![vec![1, i32::MIN]].as_slice()).is_none());
    assert!(Solver::new(2, vec![vec![i32::MAX, 2]].as_slice()).is_none());
    assert!(Solver::new(0, vec![vec![1, 2]].as_slice()).is_none());
}

#[test]
fn a_rejected_clause_leaves_no_trace_for_the_next() {
    // The variable 1 was seen in the first formula's bad clause; a later formula that
    // uses it once must still be accepted.
    assert!(Solver::new(2, vec![vec![1, 2], vec![1, -1]].as_slice()).is_none());
    assert!(Solver::new(2, vec![vec![1, 2], vec![-1, 2], vec![-2, 1]].as_slice()).is_some());
}

#[test]
fn unchecked_construction_builds_the_same_solver() {
    let clauses = vec![vec![1, -2], vec![-1, 2, 3]];
    let a = Solver::new(3, clauses.as_slice()).unwrap();
    let b = Solver::new_unchecked(3, clauses.as_slice());
    assert_eq!(a.clause_count(), b.clause_count());
    for k in 0..a.clause_count() {
        assert_eq!(a.clause(k), b.clause(k));
        assert_eq!(a.literals(a.clause(k)), b.literals(b.clause(k)));
    }
    for l in -3..=3 {
        assert_eq!(a.watchers_of(l), b.watchers_of(l));
    }
}
