//! Building a solver from a formula.

use crate::clause::{clause_is_valid, tiled, valid_clause, valid_formula, Clause};
use crate::lit::{negate, slot, MAX_VARS};
use crate::solver::Solver;
use vstd::prelude::*;

verus! {

/// Copies the literals of all clauses, in the order given, into one buffer, and records
/// the span of each.
fn lay_out(clauses: &[Vec<i32>]) -> (r: (Vec<i32>, Vec<Clause>))
    ensures
        tiled(r.1@, r.0@.len()),
        r.1@.len() == clauses@.len(),
        forall|k: int|
            #![trigger r.1@[k]]
            0 <= k < clauses@.len() ==> r.1@[k].start <= r.1@[k].end <= r.0@.len()
                && r.0@.subrange(r.1@[k].start as int, r.1@[k].end as int) == clauses@[k]@,
{
    let mut body: Vec<i32> = Vec::new();
    let mut spans: Vec<Clause> = Vec::new();
    let mut k: usize = 0;
    while k < clauses.len()
        invariant
            k <= clauses@.len(),
            spans@.len() == k,
            tiled(spans@, body@.len()),
            forall|j: int|
                #![trigger spans@[j]]
                0 <= j < k ==> spans@[j].start <= spans@[j].end <= body@.len() && body@.subrange(
                    spans@[j].start as int,
                    spans@[j].end as int,
                ) == clauses@[j]@,
        decreases clauses@.len() - k,
    {
        let clause = &clauses[k];
        let start = body.len();
        let ghost body0 = body@;
        let mut j: usize = 0;
        while j < clause.len()
            invariant
                j <= clause@.len(),
                body@ == body0 + clause@.take(j as int),
            decreases clause@.len() - j,
        {
            body.push(clause[j]);
            j += 1;
        }
        spans.push(Clause { start, end: body.len() });
        k += 1;
    }
    (body, spans)
}

impl Solver {
    /// What holds of a solver that has just been built for the formula `cs` over the
    /// variables `1..=n`: it holds the clauses of `cs`, in their order, each with its
    /// literals in their order; no variable is assigned; the decision level is 0.
    pub open spec fn fresh(&self, n: int, cs: Seq<Vec<i32>>) -> bool {
        &&& self.num_vars() == n
        &&& self.spans().len() == cs.len()
        &&& forall|k: int|
            0 <= k < cs.len() ==> self.lits(#[trigger] self.spans()[k]) == cs[k]@
        &&& self.values() == Seq::new(n as nat, |i: int| None::<bool>)
        &&& self.var_levels() == Seq::new(n as nat, |i: int| 0usize)
        &&& self.hints() == Seq::new(n as nat, |i: int| false)
        &&& self.cur_level() == 0
    }

    /// Builds the solver for the formula `clauses` over the variables `1..=n`, or `None`
    /// where a clause cannot be stored: one with fewer than two literals, with a literal
    /// that is zero or names a variable beyond `n`, or with two literals of one variable.
    pub fn new(n: usize, clauses: &[Vec<i32>]) -> (r: Option<Self>)
        requires
            n <= MAX_VARS,
        ensures
            r is Some <==> valid_formula(n as int, clauses@),
            r matches Some(s) ==> s.wf() && s.fresh(n as int, clauses@),
    {
        let mut seen: Vec<bool> = Vec::new();
        let mut v: usize = 0;
        while v <= n
            invariant
                v <= n + 1,
                n <= MAX_VARS,
                seen@.len() == v,
                forall|w: int| 0 <= w < v ==> !seen@[w],
            decreases n + 1 - v,
        {
            seen.push(false);
            v += 1;
        }
        let mut k: usize = 0;
        while k < clauses.len()
            invariant
                k <= clauses@.len(),
                seen@.len() == n + 1,
                forall|w: int| 0 <= w <= n ==> !seen@[w],
                forall|j: int| 0 <= j < k ==> valid_clause(n as int, (#[trigger] clauses@[j])@),
            decreases clauses@.len() - k,
        {
            if !clause_is_valid(n, &clauses[k], &mut seen) {
                return None;
            }
            k += 1;
        }
        Some(Self::new_unchecked(n, clauses))
    }

    /// Builds the solver for the formula `clauses` over the variables `1..=n` without
    /// looking at the clauses: that each of them can be stored is the caller's to show.
    pub fn new_unchecked(n: usize, clauses: &[Vec<i32>]) -> (s: Self)
        requires
            n <= MAX_VARS,
            valid_formula(n as int, clauses@),
        ensures
            s.wf(),
            s.fresh(n as int, clauses@),
    {
        let (body, spans) = lay_out(clauses);
        let mut assign: Vec<Option<bool>> = Vec::new();
        let mut suggest: Vec<bool> = Vec::new();
        let mut levels: Vec<usize> = Vec::new();
        let mut v: usize = 0;
        while v < n
            invariant
                v <= n,
                assign@ == Seq::new(v as nat, |i: int| None::<bool>),
                levels@ == Seq::new(v as nat, |i: int| 0usize),
                suggest@ == Seq::new(v as nat, |i: int| false),
            decreases n - v,
        {
            assign.push(None);
            suggest.push(false);
            levels.push(0);
            v += 1;
        }
        let mut watchers: Vec<Vec<Clause>> = Vec::new();
        let mut t: usize = 0;
        while t < 2 * n + 1
            invariant
                n <= MAX_VARS,
                t <= 2 * n + 1,
                watchers@.len() == t,
                forall|u: int| 0 <= u < t ==> (#[trigger] watchers@[u])@.len() == 0,
            decreases 2 * n + 1 - t,
        {
            watchers.push(Vec::new());
            t += 1;
        }
        let mut s = Solver {
            n,
            clause_body: body,
            clauses: spans,
            assign,
            level: 0,
            suggest,
            levels,
            watchers,
        };
        let ghost built = s;
        let mut k: usize = 0;
        while k < s.clauses.len()
            invariant
                s == (Solver { watchers: s.watchers, ..built }),
                built.num_vars() == n,
                n <= MAX_VARS,
                s.num_slots() == 2 * n + 1,
                s.layout_ok(),
                s.clauses_ok(),
                k <= s.spans().len(),
                forall|u: int, i: int|
                    0 <= u < s.num_slots() && 0 <= i < s.watch_list(u).len() ==> s.watches(
                        #[trigger] s.watch_list(u)[i],
                        u,
                    ) && exists|j: int|
                        0 <= j < k && #[trigger] s.spans()[j] == s.watch_list(u)[i],
                forall|j: int, u: int|
                    0 <= j < k && 0 <= u < s.num_slots() && #[trigger] s.watches(
                        s.spans()[j],
                        u,
                    ) ==> s.watch_list(u).contains(s.spans()[j]),
                forall|u: int|
                    0 <= u < s.num_slots() ==> #[trigger] s.watch_list(u).no_duplicates(),
            decreases s.spans().len() - k,
        {
            let ghost pre = s;
            let c = s.clauses[k];
            assert(s.is_clause(c));
            let ghost m = s.lits(c);
            let first = s.clause_body[c.start];
            let last = s.clause_body[c.end - 1];
            assert(first == m.first() && last == m.last());
            let a = slot(n, negate(first));
            let b = slot(n, negate(last));
            s.watchers[a].push(c);
            s.watchers[b].push(c);
            proof {
                assert forall|x: Clause| #[trigger] s.is_clause(x) implies x.start <= x.end
                    <= s.body().len() && valid_clause(s.num_vars() as int, s.lits(x)) by {
                    assert(pre.is_clause(x));
                }
                assert forall|x: Clause, u: int| s.watches(x, u) <==> pre.watches(x, u) by {}
                assert forall|u: int| 0 <= u < s.num_slots() implies !pre.watch_list(u).contains(
                    c,
                ) by {
                    if pre.watch_list(u).contains(c) {
                        let i = choose|i: int|
                            0 <= i < pre.watch_list(u).len() && pre.watch_list(u)[i] == c;
                        let j = choose|j: int|
                            0 <= j < k && #[trigger] pre.spans()[j] == pre.watch_list(u)[i];
                        s.lemma_ordered(j, k as int);
                    }
                }
                assert forall|u: int, i: int|
                    0 <= u < s.num_slots() && 0 <= i < s.watch_list(u).len() implies s.watches(
                    #[trigger] s.watch_list(u)[i],
                    u,
                ) && exists|j: int|
                    0 <= j < k + 1 && #[trigger] s.spans()[j] == s.watch_list(u)[i] by {
                    if i < pre.watch_list(u).len() {
                        assert(s.watch_list(u)[i] == pre.watch_list(u)[i]);
                    } else {
                        assert(s.watch_list(u)[i] == c);
                    }
                }
                assert forall|j: int, u: int|
                    0 <= j < k + 1 && 0 <= u < s.num_slots() && #[trigger] s.watches(
                        s.spans()[j],
                        u,
                    ) implies s.watch_list(u).contains(s.spans()[j]) by {
                    if j < k {
                        let i = choose|i: int|
                            0 <= i < pre.watch_list(u).len() && pre.watch_list(u)[i]
                                == pre.spans()[j];
                        assert(s.watch_list(u)[i] == s.spans()[j]);
                    } else {
                        assert(s.watch_list(u)[pre.watch_list(u).len() as int] == c);
                    }
                }
                assert forall|u: int| 0 <= u < s.num_slots() implies #[trigger] s.watch_list(
                    u,
                ).no_duplicates() by {
                    assert(pre.watch_list(u).no_duplicates());
                }
            }
            k += 1;
        }
        s
    }
}

} // verus!
