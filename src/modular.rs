//! Residue arithmetic modulo `n`, on reduced operands.
use vstd::prelude::*;
use vstd::arithmetic::div_mod::lemma_mod_add_multiples_vanish;
use crate::natural::Natural;
use crate::natural;

verus! {

/// `(a + b) mod n`.
pub open spec fn addm(a: int, b: int, n: int) -> int {
    (a + b) % n
}

/// `(a - b) mod n`, in `[0, n)`.
pub open spec fn subm(a: int, b: int, n: int) -> int {
    (a - b) % n
}

/// `(a * b) mod n`.
pub open spec fn mulm(a: int, b: int, n: int) -> int {
    (a * b) % n
}

/// `(a + b) mod n`.
pub fn add_mod(a: &Natural, b: &Natural, n: &Natural) -> (r: Natural)
    requires
        n@ > 0,
    ensures
        r@ == addm(a@ as int, b@ as int, n@ as int),
        r@ < n@,
{
    let s = natural::add(a, b);
    natural::rem(&s, n)
}

/// `(a - b) mod n` for a reduced `b`.
pub fn sub_mod(a: &Natural, b: &Natural, n: &Natural) -> (r: Natural)
    requires
        n@ > 0,
        b@ < n@,
    ensures
        r@ == subm(a@ as int, b@ as int, n@ as int),
        r@ < n@,
{
    let s = natural::add(a, n);
    let t = natural::sub(&s, b);
    let r = natural::rem(&t, n);
    proof {
        lemma_mod_add_multiples_vanish(a@ as int - b@ as int, n@ as int);
    }
    r
}

/// `(a * b) mod n`.
pub fn mul_mod(a: &Natural, b: &Natural, n: &Natural) -> (r: Natural)
    requires
        n@ > 0,
    ensures
        r@ == mulm(a@ as int, b@ as int, n@ as int),
        r@ < n@,
{
    let s = natural::mul(a, b);
    natural::rem(&s, n)
}

} // verus!
