//! What holds of every well-formed solver.

use crate::clause::Clause;
use crate::lit::spec_var;
use crate::solver::Solver;
use vstd::prelude::*;

verus! {

impl Solver {
    /// Every literal of every clause is nonzero and names one of the variables of the
    /// solver.
    pub proof fn lemma_literals_in_range(&self, c: Clause, j: int)
        requires
            self.wf(),
            self.is_clause(c),
            0 <= j < self.lits(c).len(),
        ensures
            self.lits(c)[j] != 0,
            1 <= spec_var(self.lits(c)[j] as int) <= self.num_vars(),
    {
    }

    /// Of two clauses, the one that was given first ends where the other begins, or
    /// before.
    pub proof fn lemma_ordered(&self, i: int, j: int)
        requires
            self.layout_ok(),
            self.clauses_ok(),
            0 <= i < j < self.spans().len(),
        ensures
            self.spans()[i].end <= self.spans()[j].start,
        decreases j - i,
    {
        if j > i + 1 {
            self.lemma_ordered(i, j - 1);
            assert(self.is_clause(self.spans()[j - 1]));
        }
    }

    /// Two different clauses of the solver do not overlap.
    pub proof fn lemma_disjoint(&self, c1: Clause, c2: Clause)
        requires
            self.wf(),
            self.is_clause(c1),
            self.is_clause(c2),
            c1 != c2,
        ensures
            c1.end <= c2.start || c2.end <= c1.start,
    {
        let i = choose|i: int| 0 <= i < self.spans().len() && self.spans()[i] == c1;
        let j = choose|j: int| 0 <= j < self.spans().len() && self.spans()[j] == c2;
        if i < j {
            self.lemma_ordered(i, j);
        } else {
            self.lemma_ordered(j, i);
        }
    }

    /// Every clause is registered in exactly two watcher lists, once in each: that of
    /// the negation of its first literal and that of the negation of its last.
    pub proof fn lemma_watched_exactly_twice(&self, c: Clause)
        requires
            self.wf(),
            self.is_clause(c),
        ensures
            ({
                let a = self.slot_of(-(self.lits(c).first() as int));
                let b = self.slot_of(-(self.lits(c).last() as int));
                &&& 0 <= a < self.num_slots()
                &&& 0 <= b < self.num_slots()
                &&& a != b
                &&& forall|s: int|
                    0 <= s < self.num_slots() ==> (#[trigger] self.watch_list(s).contains(c) <==> s
                        == a || s == b)
                &&& self.watch_list(a).to_multiset().count(c) == 1
                &&& self.watch_list(b).to_multiset().count(c) == 1
            }),
    {
        let m = self.lits(c);
        let a = self.slot_of(-(m.first() as int));
        let b = self.slot_of(-(m.last() as int));
        assert(self.watches(c, a) && self.watches(c, b));
        self.watch_list(a).lemma_multiset_has_no_duplicates();
        self.watch_list(b).lemma_multiset_has_no_duplicates();
        vstd::seq_lib::to_multiset_contains(self.watch_list(a), c);
        vstd::seq_lib::to_multiset_contains(self.watch_list(b), c);
    }

    /// A literal is true exactly where its variable has the value it asks for, false
    /// exactly where it has the other value, and unassigned exactly where the variable
    /// is; its negation has the opposite truth value.
    pub proof fn lemma_eval_by_polarity(&self, lit: int)
        requires
            lit != 0,
        ensures
            self.eval_lit(lit) == Some(true) <==> self.value(spec_var(lit)) == Some(lit > 0),
            self.eval_lit(lit) == Some(false) <==> self.value(spec_var(lit)) == Some(lit < 0),
            self.eval_lit(lit) is None <==> self.value(spec_var(lit)) is None,
            self.eval_lit(-lit) == match self.eval_lit(lit) {
                Some(b) => Some(!b),
                None => None,
            },
    {
    }
}

} // verus!
