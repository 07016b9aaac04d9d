//! One step of unit propagation: what follows from one literal that has become true.

use crate::clause::{valid_clause, Clause};
use crate::lit::{negate, slot, valid_lit};
use crate::solver::Solver;
use vstd::prelude::*;
use vstd::seq_lib::{to_multiset_contains, to_multiset_update};

verus! {

/// What one propagation step found.
#[derive(Debug)]
pub enum PropagateResult {
    /// No clause is violated.  Each pair is a literal that is now forced and the clause
    /// that forces it.
    Implied(Vec<(i32, Clause)>),
    /// The clause is violated: every literal of it is false.
    Conflict(Clause),
}

/// The literals `m` of a clause that watches the negation of `lit`, with that negation
/// in front: the two watched literals change places where it stood at the back.
pub open spec fn normalized(m: Seq<i32>, lit: int) -> Seq<i32> {
    if m.last() == -lit {
        m.update(0, m.last()).update(m.len() - 1, m.first())
    } else {
        m
    }
}

/// The literals `m` after the literal at `p` has taken over from the watched literal in
/// front: the one at `p` is now watched at the back, the one that was watched at the back
/// is now in front, and the one that was in front lies at `p`.
pub open spec fn rotated(m: Seq<i32>, p: int) -> Seq<i32> {
    m.update(0, m.last()).update(p, m.first()).update(m.len() - 1, m[p])
}

/// What a watcher list holds after the entry at `i` was overwritten with the last entry
/// and the list shortened by one.
spec fn swap_removed(w: Seq<Clause>, i: int) -> Seq<Clause> {
    w.update(i, w.last()).drop_last()
}

/// `x` stands in `w` at `i` or later.
spec fn occurs_from(w: Seq<Clause>, i: int, x: Clause) -> bool {
    exists|j: int| i <= j < w.len() && #[trigger] w[j] == x
}

/// Removing the entry at `i` by overwriting it with the last one removes that entry and
/// no other, and brings no entry twice.
proof fn lemma_swap_removed(w: Seq<Clause>, i: int)
    requires
        w.no_duplicates(),
        0 <= i < w.len(),
    ensures
        swap_removed(w, i).no_duplicates(),
        forall|x: Clause| swap_removed(w, i).contains(x) <==> w.contains(x) && x != w[i],
        forall|x: Clause| occurs_from(swap_removed(w, i), i, x) <==> occurs_from(w, i + 1, x),
{
    let r = swap_removed(w, i);
    let last = w.len() - 1;
    assert forall|x: Clause| r.contains(x) <==> w.contains(x) && x != w[i] by {
        if r.contains(x) {
            let j = choose|j: int| 0 <= j < r.len() && r[j] == x;
            if j == i {
                assert(w[last] == x);
            } else {
                assert(w[j] == x);
            }
        }
        if w.contains(x) && x != w[i] {
            let j = choose|j: int| 0 <= j < w.len() && w[j] == x;
            if j == last {
                assert(r[i] == x);
            } else {
                assert(r[j] == x);
            }
        }
    }
    assert forall|x: Clause| occurs_from(r, i, x) <==> occurs_from(w, i + 1, x) by {
        if occurs_from(r, i, x) {
            let j = choose|j: int| i <= j < r.len() && r[j] == x;
            if j == i {
                assert(w[last] == x);
            } else {
                assert(w[j] == x);
            }
        }
        if occurs_from(w, i + 1, x) {
            let j = choose|j: int| i + 1 <= j < w.len() && w[j] == x;
            if j == last {
                assert(r[i] == x);
            } else {
                assert(r[j] == x);
            }
        }
    }
}

/// Stepping over the entry at `i` leaves the later ones to come.
proof fn lemma_step_over(w: Seq<Clause>, i: int)
    requires
        w.no_duplicates(),
        0 <= i < w.len(),
    ensures
        !occurs_from(w, i + 1, w[i]),
        forall|x: Clause| x != w[i] ==> (occurs_from(w, i + 1, x) <==> occurs_from(w, i, x)),
{
    assert forall|x: Clause| x != w[i] implies (occurs_from(w, i + 1, x) <==> occurs_from(
        w,
        i,
        x,
    )) by {
        if occurs_from(w, i, x) {
            let j = choose|j: int| i <= j < w.len() && w[j] == x;
            assert(i + 1 <= j < w.len() && w[j] == x);
        }
    }
}

/// `x`, a clause of the list `all` that the step walks, has been examined: of the list
/// as it is now, `now`, the entries from `i` on are still to come.
spec fn examined(all: Seq<Clause>, now: Seq<Clause>, i: int, x: Clause) -> bool {
    all.contains(x) && !occurs_from(now, i, x)
}

/// Bringing a watched literal to the front keeps the literals of the clause.
pub proof fn lemma_normalized_permutes(m: Seq<i32>, lit: int)
    requires
        m.len() >= 2,
    ensures
        normalized(m, lit).to_multiset() == m.to_multiset(),
{
    broadcast use vstd::multiset::group_multiset_axioms;

    if m.last() == -lit {
        let s1 = m.update(0, m.last());
        to_multiset_update(m, 0, m.last());
        to_multiset_update(s1, m.len() - 1, m.first());
        to_multiset_contains(m, m.first());
        to_multiset_contains(m, m.last());
    }
}

/// Letting another literal take over a watch keeps the literals of the clause.
pub proof fn lemma_rotated_permutes(m: Seq<i32>, p: int)
    requires
        0 < p < m.len() - 1,
    ensures
        rotated(m, p).to_multiset() == m.to_multiset(),
{
    broadcast use vstd::multiset::group_multiset_axioms;

    let s1 = m.update(0, m.last());
    let s2 = s1.update(p, m.first());
    to_multiset_update(m, 0, m.last());
    to_multiset_update(s1, p, m.first());
    to_multiset_update(s2, m.len() - 1, m[p]);
    to_multiset_contains(m, m.first());
    to_multiset_contains(m, m.last());
    to_multiset_contains(m, m[p]);
}

impl Solver {
    /// The literal of `m` at `p` is the first one between the two watched literals that
    /// is not false.
    pub open spec fn is_replacement(&self, m: Seq<i32>, p: int) -> bool {
        &&& 0 < p < m.len() - 1
        &&& self.eval_lit(m[p] as int) != Some(false)
        &&& forall|j: int| 0 < j < p ==> self.eval_lit(#[trigger] m[j] as int) == Some(false)
    }

    /// The position of the first literal between the two watched literals of `m` that is
    /// not false, where there is one.
    pub open spec fn replacement(&self, m: Seq<i32>) -> int {
        choose|p: int| self.is_replacement(m, p)
    }

    /// A clause with the literals `m`, whose first literal has become false, gives up
    /// watching it: the literal watched at the back is not true, and another literal that
    /// is not false can take over.
    pub open spec fn moves(&self, m: Seq<i32>) -> bool {
        &&& self.eval_lit(m.last() as int) != Some(true)
        &&& exists|p: int| self.is_replacement(m, p)
    }

    /// Every literal of `m` after the first is false.
    pub open spec fn conflicting(&self, m: Seq<i32>) -> bool {
        forall|j: int| 0 < j < m.len() ==> self.eval_lit(#[trigger] m[j] as int) == Some(false)
    }

    /// The last literal of `m` is unassigned and every literal between the first and the
    /// last is false.
    pub open spec fn unit(&self, m: Seq<i32>) -> bool {
        &&& self.eval_lit(m.last() as int) is None
        &&& forall|j: int|
            0 < j < m.len() - 1 ==> self.eval_lit(#[trigger] m[j] as int) == Some(false)
    }

    /// The literals of a clause after the step for `lit` has examined it, where `m` were
    /// its literals before.
    pub open spec fn visited(&self, m: Seq<i32>, lit: int) -> Seq<i32> {
        let f = normalized(m, lit);
        if self.moves(f) {
            rotated(f, self.replacement(f))
        } else {
            f
        }
    }

    /// Only one position can hold the first literal that is not false.
    proof fn lemma_replacement_unique(&self, m: Seq<i32>, p: int)
        requires
            self.is_replacement(m, p),
        ensures
            self.replacement(m) == p,
    {
        let q = self.replacement(m);
        assert(self.is_replacement(m, q));
        if q < p {
            assert(self.eval_lit(m[q] as int) == Some(false));
        }
        if p < q {
            assert(self.eval_lit(m[p] as int) == Some(false));
        }
    }

    /// Examining a clause keeps its literals: it only changes their order.
    pub proof fn lemma_visited_permutes(&self, m: Seq<i32>, lit: int)
        requires
            m.len() >= 2,
        ensures
            self.visited(m, lit).to_multiset() == m.to_multiset(),
            self.visited(m, lit).len() == m.len(),
    {
        let f = normalized(m, lit);
        lemma_normalized_permutes(m, lit);
        if self.moves(f) {
            let p = self.replacement(f);
            lemma_rotated_permutes(f, p);
        }
    }

    /// A change of the buffer inside one clause leaves the literals of the others alone.
    proof fn lemma_others_untouched(&self, post: Solver, c: Clause)
        requires
            self.wf(),
            self.is_clause(c),
            post.spans() == self.spans(),
            post.body().len() == self.body().len(),
            forall|k: int|
                0 <= k < self.body().len() && !(c.start <= k < c.end) ==> post.body()[k]
                    == self.body()[k],
        ensures
            forall|c2: Clause|
                self.is_clause(c2) && c2 != c ==> #[trigger] post.lits(c2) == self.lits(c2),
    {
        assert forall|c2: Clause| self.is_clause(c2) && c2 != c implies #[trigger] post.lits(c2)
            == self.lits(c2) by {
            self.lemma_disjoint(c, c2);
        }
    }

    /// Brings the negation of `lit` to the front of `c`, which watches it.
    fn normalize(&mut self, c: Clause, lit: i32)
        requires
            old(self).wf(),
            old(self).is_clause(c),
            valid_lit(old(self).num_vars() as int, lit as int),
        ensures
            final(self).wf(),
            *final(self) == (Solver { clause_body: final(self).clause_body, ..*old(self) }),
            final(self).lits(c) == normalized(old(self).lits(c), lit as int),
            forall|c2: Clause|
                old(self).is_clause(c2) && c2 != c ==> #[trigger] final(self).lits(c2) == old(
                    self,
                ).lits(c2),
    {
        let ghost pre = *self;
        let a = c.start;
        let b = c.end - 1;
        let x = self.clause_body[a];
        let y = self.clause_body[b];
        if y == negate(lit) {
            self.clause_body[a] = y;
            self.clause_body[b] = x;
        }
        proof {
            assert(self.lits(c) =~= normalized(pre.lits(c), lit as int));
            pre.lemma_others_untouched(*self, c);
            assert forall|c2: Clause| #[trigger] self.is_clause(c2) implies c2.start <= c2.end
                <= self.body().len() && valid_clause(self.num_vars() as int, self.lits(c2)) by {
                assert(pre.is_clause(c2));
            }
            assert forall|c2: Clause, s: int| self.is_clause(c2) implies (#[trigger] self.watches(
                c2,
                s,
            ) <==> pre.watches(c2, s)) by {}
            assert forall|s: int, i: int|
                0 <= s < self.num_slots() && 0 <= i < self.watch_list(s).len() implies self.is_clause(
                #[trigger] self.watch_list(s)[i],
            ) && self.watches(self.watch_list(s)[i], s) by {
                assert(pre.is_clause(pre.watch_list(s)[i]));
            }
        }
    }

    /// Looks between the two watched literals of `c`, from the front, for a literal that
    /// is not false.
    fn find_replacement(&self, c: Clause) -> (found: Option<usize>)
        requires
            self.wf(),
            self.is_clause(c),
        ensures
            match found {
                Some(p) => self.is_replacement(self.lits(c), p as int),
                None => forall|j: int|
                    0 < j < self.lits(c).len() - 1 ==> self.eval_lit(
                        #[trigger] self.lits(c)[j] as int,
                    ) == Some(false),
            },
    {
        let ghost m = self.lits(c);
        let len = c.end - c.start;
        let mut p: usize = 1;
        while p < len - 1
            invariant
                self.wf(),
                self.is_clause(c),
                m == self.lits(c),
                len == m.len(),
                1 <= p <= len - 1,
                forall|j: int| 0 < j < p ==> self.eval_lit(#[trigger] m[j] as int) == Some(false),
            decreases len - p,
        {
            let l = self.clause_body[c.start + p];
            assert(l == m[p as int]);
            if self.eval(l) != Some(false) {
                return Some(p);
            }
            p += 1;
        }
        None
    }

    /// Lets the literal at `p` of the clause at `i` of the list `s` take over from the
    /// watched literal in front, which registered the clause in `s`: the literals rotate,
    /// the clause leaves `s` and enters the list of its new watched literal.
    fn relocate(&mut self, s: usize, i: usize, p: usize)
        requires
            old(self).wf(),
            s < old(self).num_slots(),
            i < old(self).watch_list(s as int).len(),
            s == old(self).slot_of(
                -(old(self).lits(old(self).watch_list(s as int)[i as int]).first() as int),
            ),
            0 < p < old(self).lits(old(self).watch_list(s as int)[i as int]).len() - 1,
        ensures
            final(self).wf(),
            *final(self) == (Solver {
                clause_body: final(self).clause_body,
                watchers: final(self).watchers,
                ..*old(self)
            }),
            final(self).lits(old(self).watch_list(s as int)[i as int]) == rotated(
                old(self).lits(old(self).watch_list(s as int)[i as int]),
                p as int,
            ),
            forall|c2: Clause|
                old(self).is_clause(c2) && c2 != old(self).watch_list(s as int)[i as int]
                    ==> #[trigger] final(self).lits(c2) == old(self).lits(c2),
            final(self).watch_list(s as int) == swap_removed(
                old(self).watch_list(s as int),
                i as int,
            ),
    {
        let ghost pre = *self;
        let c = self.watchers[s][i];
        let ghost m = pre.lits(c);
        let a = c.start;
        let b = c.end - 1;
        let q = c.start + p;
        let first = self.clause_body[a];
        let last = self.clause_body[b];
        let found = self.clause_body[q];
        assert(first == m[0] && last == m[m.len() - 1] && found == m[p as int]);
        self.clause_body[a] = last;
        self.clause_body[q] = first;
        self.clause_body[b] = found;
        self.watchers[s].swap_remove(i);
        let t = slot(self.n, negate(found));
        self.watchers[t].push(c);
        proof {
            let so = pre.slot_of(-(last as int));
            assert(self.lits(c) =~= rotated(m, p as int));
            pre.lemma_others_untouched(*self, c);
            lemma_swap_removed(pre.watch_list(s as int), i as int);
            assert forall|u: int| 0 <= u < pre.num_slots() && u != s && u != t implies self.watch_list(
                u,
            ) == pre.watch_list(u) by {}
            // The clause was watched in `s` and `so`; it is now watched in `so` and `t`.
            assert forall|u: int| pre.watches(c, u) <==> u == s || u == so by {}
            assert forall|u: int| self.watches(c, u) <==> u == so || u == t by {}
            assert forall|c2: Clause| #[trigger] self.is_clause(c2) implies c2.start <= c2.end
                <= self.body().len() && valid_clause(self.num_vars() as int, self.lits(c2)) by {
                assert(pre.is_clause(c2));
            }
            assert forall|c2: Clause, u: int| self.is_clause(c2) && c2 != c implies (
            #[trigger] self.watches(c2, u) <==> pre.watches(c2, u)) by {}
            assert forall|u: int, k: int|
                0 <= u < self.num_slots() && 0 <= k < self.watch_list(u).len() implies self.is_clause(
                #[trigger] self.watch_list(u)[k],
            ) && self.watches(self.watch_list(u)[k], u) by {
                let e = self.watch_list(u)[k];
                if u == s {
                    assert(self.watch_list(u).contains(e));
                    let k0 = choose|k0: int|
                        0 <= k0 < pre.watch_list(u).len() && pre.watch_list(u)[k0] == e;
                    assert(pre.watches(pre.watch_list(u)[k0], u));
                } else if u == t {
                    if k < pre.watch_list(u).len() {
                        assert(pre.watches(pre.watch_list(u)[k], u));
                    }
                } else {
                    assert(pre.watches(pre.watch_list(u)[k], u));
                }
            }
            assert forall|c2: Clause, u: int|
                self.is_clause(c2) && 0 <= u < self.num_slots() && #[trigger] self.watches(
                    c2,
                    u,
                ) implies self.watch_list(u).contains(c2) by {
                if u == t {
                    if c2 == c {
                        assert(self.watch_list(u)[pre.watch_list(u).len() as int] == c);
                    } else {
                        let k = choose|k: int|
                            0 <= k < pre.watch_list(u).len() && pre.watch_list(u)[k] == c2;
                        assert(self.watch_list(u)[k] == c2);
                    }
                } else if c2 == c {
                    assert(pre.watches(c, u));
                }
            }
            assert forall|u: int| 0 <= u < self.num_slots() implies #[trigger] self.watch_list(
                u,
            ).no_duplicates() by {
                assert(pre.watch_list(u).no_duplicates());
            }
        }
    }

    /// What holds of the literals `v` that a step for `lit` from the state `self` reports
    /// as implied, and of the state `post` that it leaves.  Every clause that watched the
    /// negation of `lit` has been examined, none of them is violated, and `v` holds, once
    /// each, the clauses among them of which only the other watched literal is left, with
    /// that literal.
    pub open spec fn step_implies(&self, lit: int, v: Seq<(i32, Clause)>, post: Solver) -> bool {
        let list = self.watch_list(self.slot_of(lit));
        &&& forall|c: Clause|
            self.is_clause(c) ==> #[trigger] post.lits(c) == (if list.contains(c) {
                self.visited(self.lits(c), lit)
            } else {
                self.lits(c)
            })
        &&& forall|c: Clause| #[trigger]
            list.contains(c) ==> !self.conflicting(normalized(self.lits(c), lit))
        &&& v.no_duplicates()
        &&& forall|l: i32, c: Clause| #[trigger]
            v.contains((l, c)) <==> {
                &&& list.contains(c)
                &&& self.unit(normalized(self.lits(c), lit))
                &&& l == normalized(self.lits(c), lit).last()
            }
    }

    /// What holds of the clause `cc` that a step for `lit` from the state `self` reports
    /// as violated, and of the state `post` that it leaves.  `cc` watched the negation of
    /// `lit` and all its other literals are false; each clause has been examined or is as
    /// it was.
    pub open spec fn step_conflicts(&self, lit: int, cc: Clause, post: Solver) -> bool {
        let list = self.watch_list(self.slot_of(lit));
        &&& list.contains(cc)
        &&& self.conflicting(normalized(self.lits(cc), lit))
        &&& forall|c: Clause|
            self.is_clause(c) ==> #[trigger] post.lits(c) == self.lits(c) || (list.contains(c)
                && post.lits(c) == self.visited(self.lits(c), lit))
    }

    /// A step changes the order of the literals of a clause at most.
    proof fn lemma_step_permutes(&self, lit: int, post: Solver)
        requires
            self.wf(),
            forall|c: Clause|
                self.is_clause(c) ==> #[trigger] post.lits(c) == self.lits(c) || post.lits(c)
                    == self.visited(self.lits(c), lit),
        ensures
            forall|c: Clause|
                self.is_clause(c) ==> (#[trigger] post.lits(c)).to_multiset() == self.lits(
                    c,
                ).to_multiset(),
    {
        assert forall|c: Clause| self.is_clause(c) implies (#[trigger] post.lits(
            c,
        )).to_multiset() == self.lits(c).to_multiset() by {
            self.lemma_visited_permutes(self.lits(c), lit);
        }
    }

    /// Where `lit` is true, each literal that a step for it reports as implied is the
    /// one literal of its clause that is not false, and is unassigned.
    pub proof fn lemma_implied_is_forced(
        &self,
        lit: int,
        v: Seq<(i32, Clause)>,
        post: Solver,
        k: int,
    )
        requires
            self.wf(),
            valid_lit(self.num_vars() as int, lit),
            self.eval_lit(lit) == Some(true),
            self.step_implies(lit, v, post),
            post.values() == self.values(),
            0 <= k < v.len(),
        ensures
            self.is_clause(v[k].1),
            post.forces(v[k].1, v[k].0),
    {
        let (l, c) = v[k];
        assert(v.contains((l, c)));
        let f = normalized(self.lits(c), lit);
        let j = f.len() - 1;
        assert forall|t: int| 0 <= t < f.len() && t != j implies post.eval_lit(
            #[trigger] post.lits(c)[t] as int,
        ) == Some(false) by {}
    }

    /// Where `lit` is true, every literal of the clause that a step for it reports as
    /// violated is false.
    pub proof fn lemma_conflict_is_falsified(&self, lit: int, cc: Clause, post: Solver)
        requires
            self.wf(),
            valid_lit(self.num_vars() as int, lit),
            self.eval_lit(lit) == Some(true),
            self.step_conflicts(lit, cc, post),
            post.values() == self.values(),
        ensures
            self.is_clause(cc),
            post.falsified(cc),
    {
    }

    /// After a step for `lit` that found no conflict, the list of `lit` holds those of its
    /// clauses for which no other literal took over the watch, and no others.
    pub proof fn lemma_step_keeps_the_rest(
        &self,
        lit: int,
        v: Seq<(i32, Clause)>,
        post: Solver,
        c: Clause,
    )
        requires
            self.wf(),
            post.wf(),
            valid_lit(self.num_vars() as int, lit),
            self.step_implies(lit, v, post),
            post.num_vars() == self.num_vars(),
            post.spans() == self.spans(),
            post.values() == self.values(),
        ensures
            post.watch_list(self.slot_of(lit)).contains(c) <==> self.watch_list(
                self.slot_of(lit),
            ).contains(c) && !self.moves(normalized(self.lits(c), lit)),
    {
        if self.is_clause(c) {
            self.lemma_watched_exactly_twice(c);
            post.lemma_watched_exactly_twice(c);
        }
    }

    /// Computes what follows from `lit`, which has just become true.
    ///
    /// Walks the clauses that watch the negation of `lit`.  A clause whose other watched
    /// literal is true stays as it is.  Otherwise the first literal between the two that
    /// is not false takes over: it becomes the watched literal at the back, the other
    /// watched literal comes to the front, and the clause moves from this list to that of
    /// the new literal.  Where no literal can take over, the other watched literal is
    /// forced if it is unassigned, and the clause is violated if it is false: the step
    /// then returns that clause at once and drops what it had collected.
    ///
    /// The assignment is only read: committing the forced literals is the caller's part.
    pub fn propagate_once(&mut self, lit: i32) -> (res: PropagateResult)
        requires
            old(self).wf(),
            valid_lit(old(self).num_vars() as int, lit as int),
        ensures
            final(self).wf(),
            final(self).num_vars() == old(self).num_vars(),
            final(self).spans() == old(self).spans(),
            final(self).values() == old(self).values(),
            final(self).var_levels() == old(self).var_levels(),
            final(self).cur_level() == old(self).cur_level(),
            final(self).hints() == old(self).hints(),
            res matches PropagateResult::Implied(v) ==> old(self).step_implies(
                lit as int,
                v@,
                *final(self),
            ),
            res matches PropagateResult::Conflict(cc) ==> old(self).step_conflicts(
                lit as int,
                cc,
                *final(self),
            ),
            forall|c: Clause|
                old(self).is_clause(c) ==> (#[trigger] final(self).lits(c)).to_multiset() == old(
                    self,
                ).lits(c).to_multiset(),
            old(self).eval_lit(lit as int) == Some(true) ==> (res matches PropagateResult::Implied(
                v,
            ) ==> forall|k: int|
                0 <= k < v@.len() ==> final(self).forces((#[trigger] v@[k]).1, v@[k].0)),
            old(self).eval_lit(lit as int) == Some(true) ==> (
            res matches PropagateResult::Conflict(cc) ==> final(self).falsified(cc)),
    {
        let ghost pre = *self;
        let s = slot(self.n, lit);
        let ghost all = pre.watch_list(s as int);
        let mut implied: Vec<(i32, Clause)> = Vec::new();
        let mut i: usize = 0;
        while i < self.watchers[s].len()
            invariant
                pre == *old(self),
                pre.wf(),
                self.wf(),
                *self == (Solver {
                    clause_body: self.clause_body,
                    watchers: self.watchers,
                    ..pre
                }),
                valid_lit(pre.num_vars() as int, lit as int),
                s == pre.slot_of(lit as int),
                s < self.num_slots(),
                all == pre.watch_list(s as int),
                i <= self.watch_list(s as int).len(),
                forall|j: int|
                    0 <= j < self.watch_list(s as int).len() ==> all.contains(
                        #[trigger] self.watch_list(s as int)[j],
                    ),
                forall|c: Clause|
                    pre.is_clause(c) ==> #[trigger] self.lits(c) == (if examined(
                        all,
                        self.watch_list(s as int),
                        i as int,
                        c,
                    ) {
                        pre.visited(pre.lits(c), lit as int)
                    } else {
                        pre.lits(c)
                    }),
                forall|c: Clause| #[trigger]
                    examined(all, self.watch_list(s as int), i as int, c) ==> !pre.conflicting(
                        normalized(pre.lits(c), lit as int),
                    ),
                implied@.no_duplicates(),
                forall|l: i32, c: Clause| #[trigger]
                    implied@.contains((l, c)) <==> {
                        &&& examined(all, self.watch_list(s as int), i as int, c)
                        &&& pre.unit(normalized(pre.lits(c), lit as int))
                        &&& l == normalized(pre.lits(c), lit as int).last()
                    },
            decreases self.watch_list(s as int).len() - i,
        {
            let ghost head = *self;
            let ghost now = head.watch_list(s as int);
            let ghost found0 = implied@;
            let c = self.watchers[s][i];
            proof {
                lemma_step_over(now, i as int);
                lemma_swap_removed(now, i as int);
            }
            self.normalize(c, lit);
            let ghost f = self.lits(c);
            let other = self.clause_body[c.end - 1];
            proof {
                assert(other == f.last());
            }
            let other_value = self.eval(other);
            let mut kept = true;
            if other_value != Some(true) {
                match self.find_replacement(c) {
                    Some(p) => {
                        proof {
                            assert(pre.is_replacement(f, p as int));
                        }
                        self.relocate(s, i, p);
                        kept = false;
                    },
                    None => {
                        if other_value == Some(false) {
                            proof {
                                pre.lemma_step_permutes(lit as int, *self);
                            }
                            return PropagateResult::Conflict(c);
                        }
                        proof {
                            assert(!found0.contains((other, c)));
                        }
                        implied.push((other, c));
                    },
                }
            }
            proof {
                let after = self.watch_list(s as int);
                let i1: int = if kept { i + 1 } else { i as int };
                assert forall|x: Clause| examined(all, after, i1, x) <==> x == c || examined(
                    all,
                    now,
                    i as int,
                    x,
                ) by {}
                assert forall|l: i32, x: Clause| #[trigger]
                    implied@.contains((l, x)) <==> {
                        &&& examined(all, after, i1, x)
                        &&& pre.unit(normalized(pre.lits(x), lit as int))
                        &&& l == normalized(pre.lits(x), lit as int).last()
                    } by {
                    if implied@ != found0 {
                        assert(implied@[found0.len() as int] == (other, c));
                        if found0.contains((l, x)) {
                            let k = choose|k: int| 0 <= k < found0.len() && found0[k] == (l, x);
                            assert(implied@[k] == (l, x));
                        }
                    }
                }
            }
            if kept {
                i += 1;
            }
        }
        proof {
            let last = self.watch_list(s as int);
            assert forall|x: Clause| examined(all, last, i as int, x) <==> all.contains(x) by {}
            pre.lemma_step_permutes(lit as int, *self);
            if pre.eval_lit(lit as int) == Some(true) {
                assert forall|k: int| 0 <= k < implied@.len() implies self.forces(
                    (#[trigger] implied@[k]).1,
                    implied@[k].0,
                ) by {
                    pre.lemma_implied_is_forced(lit as int, implied@, *self, k);
                }
            }
        }
        PropagateResult::Implied(implied)
    }
}

} // verus!
