//! The solver state: clause store, watcher lists and the assignment.

use crate::clause::{tiled, valid_clause, Clause};
use crate::lit::{polarity, slot, spec_slot, spec_var, valid_lit, var, MAX_VARS};
use vstd::prelude::*;

verus! {

/// A formula over the variables `1..=n`, stored for propagation, with the current
/// assignment.
///
/// The literals of all clauses lie back to back in one buffer that is never resized; the
/// clauses and the watcher lists hold offsets into it, so the value can be moved freely.
pub struct Solver {
    pub(crate) n: usize,
    pub(crate) clause_body: Vec<i32>,
    pub(crate) clauses: Vec<Clause>,
    pub(crate) assign: Vec<Option<bool>>,
    pub(crate) level: usize,
    /// The polarity to try first for each variable, that of `v` at `v - 1`; the
    /// propagation never reads it.
    pub suggest: Vec<bool>,
    pub(crate) levels: Vec<usize>,
    pub(crate) watchers: Vec<Vec<Clause>>,
}

impl Solver {
    /// The number of variables.
    pub open(crate) spec fn num_vars(&self) -> nat {
        self.n as nat
    }

    /// The literal buffer.
    pub open(crate) spec fn body(&self) -> Seq<i32> {
        self.clause_body@
    }

    /// The clauses, in the order in which they were given.
    pub open(crate) spec fn spans(&self) -> Seq<Clause> {
        self.clauses@
    }

    /// The watcher lists.
    pub open(crate) spec fn watch_lists(&self) -> Seq<Vec<Clause>> {
        self.watchers@
    }

    /// The assignment; the value of variable `v` is at `v - 1`.
    pub open(crate) spec fn values(&self) -> Seq<Option<bool>> {
        self.assign@
    }

    /// The decision level at which each variable was assigned; that of `v` is at `v - 1`.
    pub open(crate) spec fn var_levels(&self) -> Seq<usize> {
        self.levels@
    }

    /// The current decision level.
    pub open(crate) spec fn cur_level(&self) -> usize {
        self.level
    }

    /// The polarity suggested for each variable; that of `v` is at `v - 1`.
    pub open(crate) spec fn hints(&self) -> Seq<bool> {
        self.suggest@
    }

    /// The number of watcher lists.
    pub open spec fn num_slots(&self) -> nat {
        self.watch_lists().len()
    }

    /// The watcher list with index `s`.
    pub open spec fn watch_list(&self, s: int) -> Seq<Clause> {
        self.watch_lists()[s]@
    }

    /// The value of variable `v`, `None` while it is unassigned.
    pub open spec fn value(&self, v: int) -> Option<bool> {
        self.values()[v - 1]
    }

    /// `c` is one of the clauses of this solver.
    pub open spec fn is_clause(&self, c: Clause) -> bool {
        self.spans().contains(c)
    }

    /// The literals of `c` in their current order.
    pub open spec fn lits(&self, c: Clause) -> Seq<i32> {
        self.body().subrange(c.start as int, c.end as int)
    }

    /// The index of the watcher list of `lit`: the list of the clauses that watch the
    /// negation of `lit`.
    pub open spec fn slot_of(&self, lit: int) -> int {
        spec_slot(self.num_vars() as int, lit)
    }

    /// The truth value of `lit` under the assignment.
    pub open spec fn eval_lit(&self, lit: int) -> Option<bool> {
        match self.value(spec_var(lit)) {
            None => None,
            Some(b) => Some(b == (lit > 0)),
        }
    }

    /// `s` is the list in which one of the two watched literals of `c` registers it.
    pub open spec fn watches(&self, c: Clause, s: int) -> bool {
        ||| s == self.slot_of(-(self.lits(c).first() as int))
        ||| s == self.slot_of(-(self.lits(c).last() as int))
    }

    /// The clauses tile the buffer in order.
    pub open spec fn layout_ok(&self) -> bool {
        tiled(self.spans(), self.body().len())
    }

    /// Every clause lies inside the buffer and is a valid clause.
    pub open spec fn clauses_ok(&self) -> bool {
        forall|c: Clause| #[trigger]
            self.is_clause(c) ==> c.start <= c.end <= self.body().len() && valid_clause(
                self.num_vars() as int,
                self.lits(c),
            )
    }

    /// Every clause is registered once in each of the two lists of its watched literals,
    /// and nowhere else.
    pub open spec fn watchers_ok(&self) -> bool {
        &&& forall|s: int, i: int|
            0 <= s < self.num_slots() && 0 <= i < self.watch_list(s).len() ==> self.is_clause(
                #[trigger] self.watch_list(s)[i],
            ) && self.watches(self.watch_list(s)[i], s)
        &&& forall|c: Clause, s: int|
            self.is_clause(c) && 0 <= s < self.num_slots() && #[trigger] self.watches(c, s)
                ==> self.watch_list(s).contains(c)
        &&& forall|s: int|
            0 <= s < self.num_slots() ==> #[trigger] self.watch_list(s).no_duplicates()
    }

    /// The invariant of the solver.
    pub open spec fn wf(&self) -> bool {
        &&& self.num_vars() <= MAX_VARS
        &&& self.num_slots() == 2 * self.num_vars() + 1
        &&& self.values().len() == self.num_vars()
        &&& self.var_levels().len() == self.num_vars()
        &&& self.hints().len() == self.num_vars()
        &&& self.layout_ok()
        &&& self.clauses_ok()
        &&& self.watchers_ok()
    }

    /// `other` holds the same clauses, laid out and watched in the same way.
    pub open spec fn same_store(&self, other: &Solver) -> bool {
        &&& self.num_vars() == other.num_vars()
        &&& self.body() == other.body()
        &&& self.spans() == other.spans()
        &&& self.watch_lists() == other.watch_lists()
    }

    /// Every literal of `c` is false.
    pub open spec fn falsified(&self, c: Clause) -> bool {
        forall|j: int|
            0 <= j < self.lits(c).len() ==> self.eval_lit(#[trigger] self.lits(c)[j] as int)
                == Some(false)
    }

    /// `l` is a literal of `c` and unassigned, and every other literal of `c` is false.
    pub open spec fn forces(&self, c: Clause, l: i32) -> bool {
        exists|j: int|
            {
                &&& 0 <= j < self.lits(c).len()
                &&& #[trigger] self.lits(c)[j] == l
                &&& self.eval_lit(l as int) is None
                &&& forall|k: int|
                    0 <= k < self.lits(c).len() && k != j ==> self.eval_lit(
                        #[trigger] self.lits(c)[k] as int,
                    ) == Some(false)
            }
    }

    /// The number of variables.
    pub fn var_count(&self) -> (n: usize)
        ensures
            n == self.num_vars(),
    {
        self.n
    }

    /// The number of clauses.
    pub fn clause_count(&self) -> (count: usize)
        ensures
            count == self.spans().len(),
    {
        self.clauses.len()
    }

    /// The clause that was given as number `k`, counting from 0.
    pub fn clause(&self, k: usize) -> (c: Clause)
        requires
            k < self.spans().len(),
        ensures
            c == self.spans()[k as int],
            self.is_clause(c),
    {
        self.clauses[k]
    }

    /// The literals of `c` in their current order: the two watched literals are the
    /// first and the last.
    pub fn literals(&self, c: Clause) -> (m: Vec<i32>)
        requires
            self.wf(),
            self.is_clause(c),
        ensures
            m@ == self.lits(c),
    {
        let mut m: Vec<i32> = Vec::new();
        let mut p: usize = c.start;
        while p < c.end
            invariant
                c.start <= p <= c.end <= self.body().len(),
                m@ == self.body().subrange(c.start as int, p as int),
            decreases c.end - p,
        {
            m.push(self.clause_body[p]);
            p += 1;
        }
        m
    }

    /// The clauses that watch the negation of `lit`, in no particular order.
    pub fn watchers_of(&self, lit: i32) -> (list: &Vec<Clause>)
        requires
            self.wf(),
            -self.num_vars() <= lit <= self.num_vars(),
        ensures
            list@ == self.watch_list(self.slot_of(lit as int)),
    {
        &self.watchers[slot(self.n, lit)]
    }

    /// The value of the variable `v`, `None` while it is unassigned.
    pub fn assignment(&self, v: usize) -> (value: Option<bool>)
        requires
            self.wf(),
            1 <= v <= self.num_vars(),
        ensures
            value == self.value(v as int),
    {
        self.assign[v - 1]
    }

    /// Gives the variable `v` the value `value`, or none.
    pub fn assign(&mut self, v: usize, value: Option<bool>)
        requires
            old(self).wf(),
            1 <= v <= old(self).num_vars(),
        ensures
            final(self).wf(),
            final(self).same_store(old(self)),
            final(self).values() == old(self).values().update(v - 1, value),
            final(self).var_levels() == old(self).var_levels(),
            final(self).cur_level() == old(self).cur_level(),
            final(self).hints() == old(self).hints(),
    {
        let ghost pre = *self;
        self.assign[v - 1] = value;
        proof {
            pre.lemma_same_store_wf(*self);
        }
    }

    /// The current decision level.
    pub fn level(&self) -> (l: usize)
        ensures
            l == self.cur_level(),
    {
        self.level
    }

    /// Sets the current decision level.
    pub fn set_level(&mut self, l: usize)
        requires
            old(self).wf(),
        ensures
            final(self).wf(),
            final(self).same_store(old(self)),
            final(self).cur_level() == l,
            final(self).values() == old(self).values(),
            final(self).var_levels() == old(self).var_levels(),
            final(self).hints() == old(self).hints(),
    {
        let ghost pre = *self;
        self.level = l;
        proof {
            pre.lemma_same_store_wf(*self);
        }
    }

    /// The decision level at which the variable `v` was assigned.
    pub fn level_of(&self, v: usize) -> (l: usize)
        requires
            self.wf(),
            1 <= v <= self.num_vars(),
        ensures
            l == self.var_levels()[v - 1],
    {
        self.levels[v - 1]
    }

    /// Records the decision level at which the variable `v` was assigned.
    pub fn set_level_of(&mut self, v: usize, l: usize)
        requires
            old(self).wf(),
            1 <= v <= old(self).num_vars(),
        ensures
            final(self).wf(),
            final(self).same_store(old(self)),
            final(self).var_levels() == old(self).var_levels().update(v - 1, l),
            final(self).values() == old(self).values(),
            final(self).cur_level() == old(self).cur_level(),
            final(self).hints() == old(self).hints(),
    {
        let ghost pre = *self;
        self.levels[v - 1] = l;
        proof {
            pre.lemma_same_store_wf(*self);
        }
    }

    /// The polarity suggested for the variable `v`.
    pub fn suggestion(&self, v: usize) -> (positive: bool)
        requires
            self.wf(),
            1 <= v <= self.num_vars(),
        ensures
            positive == self.hints()[v - 1],
    {
        self.suggest[v - 1]
    }

    /// Suggests a polarity for the variable `v`.
    pub fn set_suggestion(&mut self, v: usize, positive: bool)
        requires
            old(self).wf(),
            1 <= v <= old(self).num_vars(),
        ensures
            final(self).wf(),
            final(self).same_store(old(self)),
            final(self).hints() == old(self).hints().update(v - 1, positive),
            final(self).values() == old(self).values(),
            final(self).var_levels() == old(self).var_levels(),
            final(self).cur_level() == old(self).cur_level(),
    {
        let ghost pre = *self;
        self.suggest[v - 1] = positive;
        proof {
            pre.lemma_same_store_wf(*self);
        }
    }

    /// A solver that holds the same clauses, laid out and watched in the same way, and
    /// an assignment for as many variables, is well formed too.
    pub proof fn lemma_same_store_wf(&self, other: Solver)
        requires
            self.wf(),
            other.same_store(self),
            other.values().len() == self.num_vars(),
            other.var_levels().len() == self.num_vars(),
            other.hints().len() == self.num_vars(),
        ensures
            other.wf(),
    {
        assert forall|c: Clause| #[trigger] other.is_clause(c) implies c.start <= c.end
            <= other.body().len() && valid_clause(other.num_vars() as int, other.lits(c)) by {
            assert(self.is_clause(c));
        }
        assert forall|c: Clause, s: int| other.watches(c, s) <==> self.watches(c, s) by {}
        assert forall|s: int| other.watch_list(s) == self.watch_list(s) by {}
    }

    /// The truth value of `lit` under the current assignment: `Some(true)` where its
    /// variable has the value that `lit` asks for, `Some(false)` where it has the other
    /// value, `None` where it has none.
    pub fn eval(&self, lit: i32) -> (r: Option<bool>)
        requires
            self.wf(),
            valid_lit(self.num_vars() as int, lit as int),
        ensures
            r == self.eval_lit(lit as int),
            r == Some(true) <==> self.value(spec_var(lit as int)) == Some(lit > 0),
            r == Some(false) <==> self.value(spec_var(lit as int)) == Some(lit < 0),
            r is None <==> self.value(spec_var(lit as int)) is None,
    {
        match self.assign[var(lit) - 1] {
            None => None,
            Some(b) => Some(b == polarity(lit)),
        }
    }
}

} // verus!
