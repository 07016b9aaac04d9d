//! Literals: a nonzero signed integer names a variable by its magnitude and a polarity by
//! its sign.

use vstd::prelude::*;

verus! {

/// The largest number of variables a formula may have: every literal and its negation
/// must be an `i32`.
pub const MAX_VARS: usize = 0x7fff_ffff;

/// The variable that `lit` speaks of.
pub open spec fn spec_var(lit: int) -> int {
    if lit < 0 {
        -lit
    } else {
        lit
    }
}

/// The literal of the same variable and the opposite polarity.
pub open spec fn spec_negate(lit: int) -> int {
    -lit
}

/// The index of the watcher list that belongs to `lit`, among `2 * n + 1`.
pub open spec fn spec_slot(n: int, lit: int) -> int {
    n + lit
}

/// A literal of a formula over the variables `1..=n`.
pub open spec fn valid_lit(n: int, lit: int) -> bool {
    lit != 0 && -n <= lit <= n
}

/// The variable that `lit` speaks of.
pub fn var(lit: i32) -> (v: usize)
    ensures
        v == spec_var(lit as int),
{
    if lit < 0 {
        (-(lit as i64)) as usize
    } else {
        lit as usize
    }
}

/// Whether `lit` asks its variable to be true.
pub fn polarity(lit: i32) -> (positive: bool)
    ensures
        positive == (lit > 0),
{
    lit > 0
}

/// The literal of the same variable and the opposite polarity.
pub fn negate(lit: i32) -> (neg: i32)
    requires
        lit != i32::MIN,
    ensures
        neg == spec_negate(lit as int),
{
    -lit
}

/// The index of the watcher list that belongs to `lit`.
pub fn slot(n: usize, lit: i32) -> (s: usize)
    requires
        n <= MAX_VARS,
        -n <= lit <= n,
    ensures
        s == spec_slot(n as int, lit as int),
{
    if lit < 0 {
        n - var(lit)
    } else {
        n + var(lit)
    }
}

/// The valid literals and the watcher lists but the middle one correspond one to one, and
/// negation maps each valid literal to another valid literal of the same variable, and
/// back.
pub proof fn lemma_encoding(n: int, a: int, b: int)
    requires
        valid_lit(n, a),
        valid_lit(n, b),
    ensures
        0 <= spec_slot(n, a) <= 2 * n,
        spec_slot(n, a) != n,
        spec_slot(n, a) == spec_slot(n, b) <==> a == b,
        spec_slot(n, a) + spec_slot(n, spec_negate(a)) == 2 * n,
        valid_lit(n, spec_negate(a)),
        spec_negate(spec_negate(a)) == a,
        spec_var(spec_negate(a)) == spec_var(a),
        1 <= spec_var(a) <= n,
        spec_var(a) == spec_var(b) <==> a == b || a == spec_negate(b),
{
}

} // verus!
