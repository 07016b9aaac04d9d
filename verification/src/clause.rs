//! Clauses: what a raw clause must satisfy, and the span a stored clause occupies.

use crate::lit::{spec_var, valid_lit, var};
use vstd::prelude::*;

verus! {

/// A stored clause: the half-open range `start..end` of the literal buffer.  The literals
/// at `start` and at `end - 1` are the two the clause watches.
#[derive(Clone, Copy, PartialEq, Eq, Debug, Structural)]
pub struct Clause {
    pub start: usize,
    pub end: usize,
}

/// No two literals of `m` speak of the same variable.
pub open spec fn distinct_vars(m: Seq<i32>) -> bool {
    forall|i: int, j: int|
        #![trigger m[i], m[j]]
        0 <= i < m.len() && 0 <= j < m.len() && i != j ==> spec_var(m[i] as int) != spec_var(
            m[j] as int,
        )
}

/// Every literal of `m` is nonzero and names one of the variables `1..=n`.
pub open spec fn all_valid(n: int, m: Seq<i32>) -> bool {
    forall|i: int| 0 <= i < m.len() ==> valid_lit(n, #[trigger] m[i] as int)
}

/// What a clause over the variables `1..=n` must satisfy to be stored: at least two
/// literals, each valid, no variable twice.
pub open spec fn valid_clause(n: int, m: Seq<i32>) -> bool {
    &&& m.len() >= 2
    &&& all_valid(n, m)
    &&& distinct_vars(m)
}

/// Every clause of the formula can be stored.
pub open spec fn valid_formula(n: int, cs: Seq<Vec<i32>>) -> bool {
    forall|k: int| 0 <= k < cs.len() ==> valid_clause(n, (#[trigger] cs[k])@)
}

/// The spans lie back to back, in order, and cover `0..len`.
pub open spec fn tiled(spans: Seq<Clause>, len: nat) -> bool {
    &&& spans.len() == 0 ==> len == 0
    &&& spans.len() > 0 ==> spans.first().start == 0 && spans.last().end == len
    &&& forall|i: int, j: int|
        #![trigger spans[i], spans[j]]
        0 <= i && j == i + 1 && j < spans.len() ==> spans[i].end == spans[j].start
}

/// Tells whether `clause` can be stored in a solver over the variables `1..=n`.  `seen`
/// has an entry for each variable and one more at 0; all are `false` before the call and
/// after it.
pub(crate) fn clause_is_valid(n: usize, clause: &Vec<i32>, seen: &mut Vec<bool>) -> (ok: bool)
    requires
        old(seen)@.len() == n + 1,
        forall|v: int| 0 <= v <= n ==> !old(seen)@[v],
    ensures
        ok == valid_clause(n as int, clause@),
        final(seen)@.len() == n + 1,
        forall|v: int| 0 <= v <= n ==> !final(seen)@[v],
{
    let len = clause.len();
    let mut ok = len >= 2;
    let mut marked: usize = 0;
    while ok && marked < len
        invariant
            marked <= len,
            len == clause@.len(),
            seen@.len() == n + 1,
            ok ==> len >= 2,
            ok ==> all_valid(n as int, clause@.take(marked as int)),
            ok ==> distinct_vars(clause@.take(marked as int)),
            !ok ==> !valid_clause(n as int, clause@),
            forall|t: int| 0 <= t < marked ==> valid_lit(n as int, #[trigger] clause@[t] as int),
            forall|v: int|
                0 <= v <= n ==> (#[trigger] seen@[v] <==> exists|t: int|
                    0 <= t < marked && spec_var(#[trigger] clause@[t] as int) == v),
        decreases len - marked + (if ok { 1int } else { 0int }),
    {
        let l = clause[marked];
        let v = var(l);
        if l == 0 || v > n {
            ok = false;
        } else if seen[v] {
            ok = false;
        } else {
            seen[v] = true;
            marked += 1;
        }
    }
    proof {
        if ok {
            assert(clause@.take(marked as int) =~= clause@);
        }
    }
    let mut t: usize = 0;
    while t < marked
        invariant
            t <= marked <= len,
            len == clause@.len(),
            seen@.len() == n + 1,
            forall|t: int| 0 <= t < marked ==> valid_lit(n as int, #[trigger] clause@[t] as int),
            forall|v: int|
                0 <= v <= n && #[trigger] seen@[v] ==> exists|u: int|
                    t <= u < marked && spec_var(#[trigger] clause@[u] as int) == v,
        decreases marked - t,
    {
        let v = var(clause[t]);
        seen[v] = false;
        t += 1;
    }
    ok
}

} // verus!
