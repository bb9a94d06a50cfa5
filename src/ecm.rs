//! Lenstra's elliptic curve factorization with Suyama's parameterization,
//! Montgomery curves and a two-stage continuation.
use vstd::prelude::*;
use vstd::arithmetic::div_mod::lemma_mul_mod_noop_left;
use vstd::arithmetic::div_mod::lemma_mul_mod_noop_right;
use vstd::arithmetic::div_mod::lemma_sub_mod_noop_right;
use vstd::arithmetic::div_mod::lemma_small_mod;
use vstd::arithmetic::div_mod::lemma_fundamental_div_mod;
use crate::modular::addm;
use crate::modular::subm;
use crate::modular::mulm;
use crate::modular::add_mod;
use crate::modular::sub_mod;
use crate::modular::mul_mod;
use crate::natural;
use crate::natural::Natural;
use crate::natural::gcd;
use crate::natural::divides;
use crate::natural::is_prime;
use crate::natural::passes_prime_test;
use rug::rand::RandState;
use crate::point::Point;
use crate::point::Pt;
use crate::point::dbl;
use crate::point::diff_add;
use crate::point::scalar_mul;

verus! {

/// Error occurred during factorization.
#[derive(Debug, Clone, Copy, PartialEq, Eq, Structural)]
pub enum Error {
    /// Bounds should be even integers.
    BoundsNotEven,
    /// The bounds are too small to run both stages.
    BoundsTooSmall,
    /// No curve within the budget gave a factor.
    ECMFailed,
    /// The number is prime.
    NumberIsPrime,
}

/// The stage-1 bound chosen for a number of `digits` decimal digits.
pub open spec fn b1_for_digits(digits: nat) -> nat {
    if 1 <= digits <= 15 {
        2000
    } else if 16 <= digits <= 20 {
        11000
    } else if 21 <= digits <= 25 {
        50000
    } else if 26 <= digits <= 30 {
        250000
    } else if 31 <= digits <= 35 {
        1000000
    } else if 36 <= digits <= 40 {
        3000000
    } else if 41 <= digits <= 45 {
        11000000
    } else if 46 <= digits <= 50 {
        44000000
    } else if 51 <= digits <= 55 {
        110000000
    } else if 56 <= digits <= 60 {
        260000000
    } else if 61 <= digits <= 65 {
        850000000
    } else {
        2900000000
    }
}

/// Selects the stage-1 bound from the number of decimal digits.
pub fn optimal_b1(digits: usize) -> (r: usize)
    ensures
        r == b1_for_digits(digits as nat),
{
    if 1 <= digits && digits <= 15 {
        2000
    } else if 16 <= digits && digits <= 20 {
        11000
    } else if 21 <= digits && digits <= 25 {
        50000
    } else if 26 <= digits && digits <= 30 {
        250000
    } else if 31 <= digits && digits <= 35 {
        1000000
    } else if 36 <= digits && digits <= 40 {
        3000000
    } else if 41 <= digits && digits <= 45 {
        11000000
    } else if 46 <= digits && digits <= 50 {
        44000000
    } else if 51 <= digits && digits <= 55 {
        110000000
    } else if 56 <= digits && digits <= 60 {
        260000000
    } else if 61 <= digits && digits <= 65 {
        850000000
    } else {
        2900000000
    }
}

/// A strictly increasing list of primes.
pub open spec fn ascending_primes(s: Seq<usize>) -> bool {
    &&& forall|i: int| 0 <= i < s.len() ==> is_prime(#[trigger] s[i] as nat)
    &&& forall|i: int, j: int| 0 <= i < j < s.len() ==> s[i] < s[j]
}

/// Relies on `primal::Sieve::new(limit)` and `Sieve::primes_from(0)`: the
/// primes in increasing order, all of those up to `limit` among them (the
/// sieve may reach past `limit`).
#[verifier::external_body]
fn sieve_primes(limit: usize) -> (r: Vec<usize>)
    ensures
        ascending_primes(r@),
        forall|p: nat| is_prime(p) && p <= limit ==> exists|i: int| 0 <= i < r@.len() && r@[i] == p,
{
    primal::Sieve::new(limit).primes_from(0).collect()
}

/// `b^e`.
pub open spec fn power(b: nat, e: nat) -> nat
    decreases e,
{
    if e == 0 {
        1
    } else {
        b * power(b, (e - 1) as nat)
    }
}

/// The largest power of `p` that does not exceed `bound` (1 when `p > bound`).
pub open spec fn largest_power(p: nat, bound: nat) -> nat
    decreases bound
    via largest_power_decreases
{
    if p < 2 || bound < p {
        1
    } else {
        p * largest_power(p, bound / p)
    }
}

/// The stage-1 multiplier: the product, over the listed primes `p <= b1`, of
/// the largest power of `p` not above `b1`.
pub open spec fn stage_one_exponent(ps: Seq<usize>, b1: nat) -> nat
    decreases ps.len(),
{
    if ps.len() == 0 {
        1
    } else {
        let p = ps.last() as nat;
        stage_one_exponent(ps.drop_last(), b1) * (if p <= b1 {
            largest_power(p, b1)
        } else {
            1
        })
    }
}

#[via_fn]
proof fn largest_power_decreases(p: nat, bound: nat) {
    if !(p < 2 || bound < p) {
        vstd::arithmetic::div_mod::lemma_div_decreases(bound as int, p as int);
    }
}

proof fn lemma_largest_power_bounds(p: nat, bound: nat)
    requires
        p >= 2,
    ensures
        1 <= largest_power(p, bound),
        bound >= 1 ==> largest_power(p, bound) <= bound,
    decreases bound,
{
    if bound >= p {
        let c = bound / p;
        vstd::arithmetic::div_mod::lemma_div_decreases(bound as int, p as int);
        lemma_largest_power_bounds(p, c);
        lemma_fundamental_div_mod(bound as int, p as int);
        let l = largest_power(p, c);
        if c == 0 {
            assert(p * c == 0) by (nonlinear_arith)
                requires
                    c == 0,
            ;
        }
        assert(1 <= p * l <= bound) by (nonlinear_arith)
            requires
                1 <= l <= c,
                p >= 2,
                bound == p * c + bound % p,
                bound % p >= 0,
        ;
    }
}

/// The largest power of `p` that does not exceed `bound`.
fn largest_power_below(p: usize, bound: usize) -> (r: usize)
    requires
        p >= 2,
    ensures
        r == largest_power(p as nat, bound as nat),
{
    let mut acc: usize = 1;
    let mut c: usize = bound;
    proof {
        lemma_largest_power_bounds(p as nat, bound as nat);
    }
    while c >= p
        invariant
            p >= 2,
            acc * largest_power(p as nat, c as nat) == largest_power(p as nat, bound as nat),
            acc >= 1,
            largest_power(p as nat, bound as nat) <= bound || bound == 0,
        decreases c,
    {
        proof {
            lemma_largest_power_bounds(p as nat, (c / p) as nat);
            assert(acc * p <= largest_power(p as nat, bound as nat)) by (nonlinear_arith)
                requires
                    acc * (p * largest_power(p as nat, (c / p) as nat)) == largest_power(p as nat, bound as nat),
                    largest_power(p as nat, (c / p) as nat) >= 1,
                    acc >= 1,
                    p >= 2,
            ;
            assert(acc * p * largest_power(p as nat, (c / p) as nat) == acc * (p * largest_power(p as nat, (c / p) as nat))) by (nonlinear_arith);
            assert(acc * p >= 1) by (nonlinear_arith)
                requires
                    acc >= 1,
                    p >= 2,
            ;
            vstd::arithmetic::div_mod::lemma_div_decreases(c as int, p as int);
        }
        acc = acc * p;
        c = c / p;
    }
    assert(acc * 1 == acc);
    acc
}

/// `k = prod p^floor(log_p b1)` over all primes `p <= m`.
pub open spec fn prime_power_product(m: nat, b1: nat) -> nat
    decreases m,
{
    if m < 2 {
        1
    } else {
        prime_power_product((m - 1) as nat, b1) * (if is_prime(m) {
            largest_power(m, b1)
        } else {
            1
        })
    }
}

/// Every prime up to `m` is listed.
pub open spec fn lists_primes_up_to(s: Seq<usize>, m: nat) -> bool {
    forall|p: nat| is_prime(p) && p <= m ==> exists|i: int| 0 <= i < s.len() && s[i] == p
}

/// An increasing list of exactly the primes up to `m` gives the stage-1
/// multiplier of all primes up to `m`.
proof fn lemma_exponent_of_all_primes(s: Seq<usize>, m: nat, b1: nat)
    requires
        ascending_primes(s),
        lists_primes_up_to(s, m),
        forall|i: int| 0 <= i < s.len() ==> #[trigger] s[i] <= m,
        m <= b1,
    ensures
        stage_one_exponent(s, b1) == prime_power_product(m, b1),
    decreases m,
{
    if m < 2 {
        if s.len() > 0 {
            assert(is_prime(s[0] as nat));
            assert(s[0] <= m);
        }
    } else if is_prime(m) {
        let i = choose|i: int| 0 <= i < s.len() && s[i] == m;
        let l = (s.len() - 1) as int;
        if i < l {
            assert(s[i] < s[l]);
            assert(s[l] <= m);
        }
        let t = s.drop_last();
        assert forall|a: int, b: int| 0 <= a < b < t.len() implies t[a] < t[b] by {
            assert(s[a] < s[b]);
        }
        assert forall|a: int| 0 <= a < t.len() implies is_prime(#[trigger] t[a] as nat) by {
            assert(is_prime(s[a] as nat));
        }
        assert forall|a: int| 0 <= a < t.len() implies #[trigger] t[a] <= (m - 1) as nat by {
            assert(s[a] < s[l]);
        }
        assert forall|p: nat| is_prime(p) && p <= (m - 1) as nat implies exists|j: int| 0 <= j < t.len() && t[j] == p by {
            let j = choose|j: int| 0 <= j < s.len() && s[j] == p;
            assert(j != l);
            assert(t[j] == p);
        }
        lemma_exponent_of_all_primes(t, (m - 1) as nat, b1);
    } else {
        assert forall|a: int| 0 <= a < s.len() implies #[trigger] s[a] <= (m - 1) as nat by {
            assert(is_prime(s[a] as nat));
            assert(s[a] <= m);
        }
        lemma_exponent_of_all_primes(s, (m - 1) as nat, b1);
        assert(prime_power_product(m, b1) == prime_power_product((m - 1) as nat, b1) * 1);
    }
}

/// With every prime up to `b1` listed, the multiplier over the list is the
/// multiplier of all primes up to `b1`; listed primes above `b1` add
/// nothing.
pub proof fn lemma_stage_one_exponent_complete(s: Seq<usize>, b1: nat)
    requires
        ascending_primes(s),
        lists_primes_up_to(s, b1),
    ensures
        stage_one_exponent(s, b1) == prime_power_product(b1, b1),
    decreases s.len(),
{
    if s.len() > 0 && s.last() > b1 {
        let t = s.drop_last();
        let l = (s.len() - 1) as int;
        assert forall|a: int, b: int| 0 <= a < b < t.len() implies t[a] < t[b] by {
            assert(s[a] < s[b]);
        }
        assert forall|a: int| 0 <= a < t.len() implies is_prime(#[trigger] t[a] as nat) by {
            assert(is_prime(s[a] as nat));
        }
        assert forall|p: nat| is_prime(p) && p <= b1 implies exists|j: int| 0 <= j < t.len() && t[j] == p by {
            let j = choose|j: int| 0 <= j < s.len() && s[j] == p;
            assert(j != l);
            assert(t[j] == p);
        }
        lemma_stage_one_exponent_complete(t, b1);
        assert(stage_one_exponent(s, b1) == stage_one_exponent(t, b1) * 1);
    } else {
        assert forall|a: int| 0 <= a < s.len() implies #[trigger] s[a] <= b1 by {
            let l = (s.len() - 1) as int;
            if a < l {
                assert(s[a] < s[l]);
            }
        }
        lemma_exponent_of_all_primes(s, b1, b1);
    }
}

/// The stage-1 multiplier for bound `b1` over the listed primes; with every
/// prime up to `b1` listed, `prod p^floor(log_p b1)` over the primes
/// `p <= b1`.
pub fn stage_one_multiplier(ps: &Vec<usize>, b1: usize) -> (r: Natural)
    requires
        ascending_primes(ps@),
    ensures
        r@ == stage_one_exponent(ps@, b1 as nat),
        lists_primes_up_to(ps@, b1 as nat) ==> r@ == prime_power_product(b1 as nat, b1 as nat),
{
    let mut k = Natural::from_u64(1);
    let mut i: usize = 0;
    while i < ps.len()
        invariant
            i <= ps.len(),
            ascending_primes(ps@),
            k@ == stage_one_exponent(ps@.subrange(0, i as int), b1 as nat),
        decreases ps.len() - i,
    {
        let p = ps[i];
        proof {
            assert(is_prime(ps@[i as int] as nat));
            assert(ps@.subrange(0, i as int + 1).drop_last() =~= ps@.subrange(0, i as int));
        }
        if p <= b1 {
            let e = largest_power_below(p, b1);
            let pe = Natural::from_u64(e as u64);
            k = natural::mul(&k, &pe);
        } else {
            assert(k@ * 1 == k@);
        }
        i = i + 1;
    }
    assert(ps@.subrange(0, ps.len() as int) =~= ps@);
    proof {
        if lists_primes_up_to(ps@, b1 as nat) {
            lemma_stage_one_exponent_complete(ps@, b1 as nat);
        }
    }
    k
}

/// `g` is a proper divisor found by gcd: strictly between 1 and `n`.
pub open spec fn proper(g: nat, n: nat) -> bool {
    1 < g < n
}

/// The gcd of `a` and `b` divides both.
pub proof fn lemma_gcd_divides(a: nat, b: nat)
    ensures
        divides(gcd(a, b), a),
        divides(gcd(a, b), b),
    decreases b,
{
    if b == 0 {
        assert(a * 1 == a);
        assert(a * 0 == 0);
    } else {
        let g = gcd(b, a % b);
        lemma_gcd_divides(b, a % b);
        let qb = choose|q: nat| #[trigger] (g * q) == b;
        let qr = choose|q: nat| #[trigger] (g * q) == a % b;
        lemma_fundamental_div_mod(a as int, b as int);
        let w = qb * (a / b) + qr;
        assert(g * w == a) by (nonlinear_arith)
            requires
                g * qb == b,
                g * qr == a % b,
                a == b * (a / b) + a % b,
                w == qb * (a / b) + qr,
        ;
    }
}

/// A residue has at most one inverse modulo `n`.
proof fn lemma_inverse_unique(a: int, i: int, j: int, n: int)
    requires
        n > 1,
        0 <= i < n,
        0 <= j < n,
        (a * i) % n == 1,
        (a * j) % n == 1,
    ensures
        i == j,
{
    lemma_mul_mod_noop_right(i, a * j, n);
    assert(i * 1 == i);
    lemma_small_mod(i as nat, n as nat);
    assert(i * (a * j) == (a * i) * j) by (nonlinear_arith);
    lemma_mul_mod_noop_left(a * i, j, n);
    assert(1 * j == j);
    lemma_small_mod(j as nat, n as nat);
}

/// The inverse of `a` modulo `n`, where one exists.
pub open spec fn inverse(a: int, n: int) -> int {
    choose|i: int| 0 <= i < n && #[trigger] mulm(a, i, n) == 1
}

/// `a^3 mod n`.
pub open spec fn cube_mod(a: int, n: int) -> int {
    mulm(mulm(a, a, n), a, n)
}

/// Suyama's `u = sigma^2 - 5`.
pub open spec fn suyama_u(n: int, sigma: int) -> int {
    subm(mulm(sigma, sigma, n), 5, n)
}

/// Suyama's `v = 4 sigma`.
pub open spec fn suyama_v(n: int, sigma: int) -> int {
    mulm(4, sigma, n)
}

/// The value `4 u^3 v` that the setup inverts.
pub open spec fn suyama_w(n: int, sigma: int) -> int {
    mulm(mulm(4, cube_mod(suyama_u(n, sigma), n), n), suyama_v(n, sigma), n)
}

/// The curve constant `c = (v - u)^3 (4u + v) / (4 u^3 v) - 2`.
pub open spec fn suyama_c(n: int, sigma: int) -> int {
    let u = suyama_u(n, sigma);
    let v = suyama_v(n, sigma);
    let t = mulm(cube_mod(subm(v, u, n), n), addm(mulm(4, u, n), v, n), n);
    subm(mulm(t, inverse(suyama_w(n, sigma), n), n), 2, n)
}

/// The starting point of the curve of `sigma`: `(u^3 : v^3)` with
/// `a24 = (c + 2) / 4`.
pub open spec fn suyama_point(n: int, sigma: int) -> Pt {
    Pt {
        x: cube_mod(suyama_u(n, sigma), n),
        z: cube_mod(suyama_v(n, sigma), n),
        a24: mulm(addm(suyama_c(n, sigma), 2, n), inverse(4, n), n),
        n,
    }
}

/// Once `4 u^3 v` has an inverse, `u^3 v` times that inverse is an inverse
/// of 4.
proof fn lemma_inverse_of_four(n: int, u3: int, v: int, inv: int)
    requires
        n > 1,
        mulm(mulm(mulm(4, u3, n), v, n), inv, n) == 1,
    ensures
        mulm(4, mulm(inv, mulm(u3, v, n), n), n) == 1,
{
    let a = ((4 * u3) % n) * v;
    lemma_mul_mod_noop_left(a, inv, n);
    assert(a * inv == ((4 * u3) % n) * (v * inv)) by (nonlinear_arith)
        requires
            a == ((4 * u3) % n) * v,
    ;
    lemma_mul_mod_noop_left(4 * u3, v * inv, n);
    let m = inv * ((u3 * v) % n);
    lemma_mul_mod_noop_right(4, m, n);
    assert(4 * m == (4 * inv) * ((u3 * v) % n)) by (nonlinear_arith)
        requires
            m == inv * ((u3 * v) % n),
    ;
    lemma_mul_mod_noop_right(4 * inv, u3 * v, n);
    lemma_mul_mod_noop_right(inv, u3 * v, n);
    lemma_mul_mod_noop_right(4, inv * (u3 * v), n);
    assert((4 * inv) * (u3 * v) == 4 * u3 * (v * inv)) by (nonlinear_arith);
}

/// Suyama's parameterization: the curve and starting point of `sigma`, or
/// the gcd of `4 u^3 v` and `n` when that value has no inverse.
pub fn suyama(n: &Natural, sigma: &Natural) -> (r: Result<Point, Natural>)
    requires
        n@ > 1,
    ensures
        gcd(suyama_w(n@ as int, sigma@ as int) as nat, n@) == 1 ==> (r matches Ok(p) && p.wf()
            && p@ == suyama_point(n@ as int, sigma@ as int)),
        gcd(suyama_w(n@ as int, sigma@ as int) as nat, n@) != 1 ==> (r matches Err(g) && g@ == gcd(
            suyama_w(n@ as int, sigma@ as int) as nat,
            n@,
        )),
{
    let ghost ni = n@ as int;
    let five = natural::rem(&Natural::from_u64(5), n);
    let two = natural::rem(&Natural::from_u64(2), n);
    let four = Natural::from_u64(4);
    let s2 = mul_mod(sigma, sigma, n);
    let u = sub_mod(&s2, &five, n);
    proof {
        lemma_sub_mod_noop_right(s2@ as int, 5, ni);
    }
    let v = mul_mod(&four, sigma, n);
    let u2 = mul_mod(&u, &u, n);
    let u3 = mul_mod(&u2, &u, n);
    let v2 = mul_mod(&v, &v, n);
    let v3 = mul_mod(&v2, &v, n);
    let fu3 = mul_mod(&four, &u3, n);
    let w = mul_mod(&fu3, &v, n);
    let inv = match natural::invert(&w, n) {
        Some(i) => i,
        None => {
            return Err(natural::gcd_of(&w, n));
        },
    };
    let u3v = mul_mod(&u3, &v, n);
    let inv4 = mul_mod(&inv, &u3v, n);
    proof {
        assert(mulm(w@ as int, inv@ as int, ni) == 1);
        lemma_inverse_of_four(ni, u3@ as int, v@ as int, inv@ as int);
        assert(mulm(4, inv4@ as int, ni) == 1);
        lemma_inverse_unique(w@ as int, inv@ as int, inverse(w@ as int, ni), ni);
        lemma_inverse_unique(4, inv4@ as int, inverse(4, ni), ni);
    }
    let dv = sub_mod(&v, &u, n);
    let dv2 = mul_mod(&dv, &dv, n);
    let dv3 = mul_mod(&dv2, &dv, n);
    let fu = mul_mod(&four, &u, n);
    let e = add_mod(&fu, &v, n);
    let t = mul_mod(&dv3, &e, n);
    let ti = mul_mod(&t, &inv, n);
    let c = sub_mod(&ti, &two, n);
    proof {
        lemma_sub_mod_noop_right(ti@ as int, 2, ni);
    }
    let c2 = add_mod(&c, &two, n);
    proof {
        vstd::arithmetic::div_mod::lemma_add_mod_noop_right(c@ as int, 2, ni);
    }
    let a24 = mul_mod(&c2, &inv4, n);
    Ok(Point { x_cord: u3, z_cord: v3, a_24: a24, modulus: n.clone() })
}

/// The stage-2 table: `table_point(q, i) = (2i) q`, built as `2q`, `4q`, then
/// `s[i] = s[i-1] + s[1]` with difference `s[i-2]`.
pub open spec fn table_point(q: Pt, i: nat) -> Pt
    decreases i,
{
    if i <= 1 {
        dbl(q)
    } else if i == 2 {
        dbl(dbl(q))
    } else {
        diff_add(table_point(q, (i - 1) as nat), table_point(q, 1), table_point(q, (i - 2) as nat))
    }
}

/// The pair `(t, r)` of stage 2 at window `j`: at first
/// `((b - 2d) q, b q)`; each window moves on to `(r, r + s[d])`, the sum
/// taken with difference `t`, so `r` steps forward by `2d`.
pub open spec fn window_pair(q: Pt, b: nat, d: nat, j: nat) -> (Pt, Pt)
    decreases j,
{
    if j == 0 {
        (scalar_mul(q, (b - 2 * d) as nat), scalar_mul(q, b))
    } else {
        let (t, r) = window_pair(q, b, d, (j - 1) as nat);
        (r, diff_add(r, table_point(q, d), t))
    }
}

/// The window that a prime `p > b` falls in: window `j` covers
/// `(b + 2dj, b + 2d(j+1)]`.
pub open spec fn window_of(p: int, b: int, d: int) -> int {
    (p - b - 1) / (2 * d)
}

/// `p` is visited by stage 2: above `b`, in a window that starts below `b2`.
pub open spec fn in_stage_two(p: int, b: int, b2: int, d: int) -> bool {
    p > b && b + 2 * d * window_of(p, b, d) < b2
}

/// The factor that prime `p` contributes to the stage-2 product:
/// `(r.x - s[delta].x)(r.z + s[delta].z) - r.x r.z + beta[delta]`, with `r`
/// the window's point, `delta = (p - start) / 2` and
/// `beta[delta] = s[delta].x s[delta].z`; it is
/// `r.x s[delta].z - s[delta].x r.z`, which vanishes modulo a prime factor
/// of `n` when `p q` is the identity there.
pub open spec fn prime_term(q: Pt, b: int, d: nat, p: int) -> int {
    let n = q.n;
    let j = window_of(p, b, d as int);
    let r = window_pair(q, b as nat, d, j as nat).1;
    let alpha = mulm(r.x, r.z, n);
    let delta = (p - (b + 2 * d * j)) / 2;
    let st = table_point(q, delta as nat);
    let beta = mulm(st.x, st.z, n);
    addm(subm(mulm(subm(r.x, st.x, n), addm(r.z, st.z, n), n), alpha, n), beta, n)
}

/// The stage-2 product over the listed primes that stage 2 visits.
pub open spec fn stage_two_product(q: Pt, b: int, b2: int, d: nat, ps: Seq<usize>) -> int
    decreases ps.len(),
{
    if ps.len() == 0 {
        1
    } else {
        let g = stage_two_product(q, b, b2, d, ps.drop_last());
        let p = ps.last() as int;
        if in_stage_two(p, b, b2, d as int) {
            mulm(g, prime_term(q, b, d, p), q.n)
        } else {
            g
        }
    }
}

/// The largest stage-1 bound that the search accepts.
pub const MAX_B1: usize = 0xffff_ffff;

/// The largest stage-2 bound that the search accepts.
pub const MAX_B2: usize = 0x7fff_ffff;

/// Stage 2, the improved standard continuation, from the stage-1 point `q`:
/// the product of the terms of the listed primes in the windows from
/// `b` on that start below `b2`.
pub fn stage_two(q: &Point, ps: &Vec<usize>, b: usize, b2: usize, d: usize) -> (g: Natural)
    requires
        q.wf(),
        q@.n > 1,
        ascending_primes(ps@),
        d >= 2,
        b > 2 * d,
        b % 2 == 1,
        b <= MAX_B1,
        b2 <= MAX_B2,
        d <= 0xffff,
    ensures
        g@ == stage_two_product(q@, b as int, b2 as int, d as nat, ps@),
{
    let n = &q.modulus;
    let two_d: usize = 2 * d;
    let s1 = q.double();
    let s2 = s1.double();
    let mut s: Vec<Point> = Vec::new();
    s.push(s1);
    s.push(s2);
    let mut i: usize = 2;
    while i < d
        invariant
            q.wf(),
            2 <= i <= d,
            s@.len() == i,
            forall|k: int| 0 <= k < i ==> (#[trigger] s@[k]).wf() && s@[k]@ == table_point(q@, (k + 1) as nat) && s@[k]@.n == q@.n,
        decreases d - i,
    {
        let nxt = s[i - 1].add(&s[0], &s[i - 2]);
        s.push(nxt);
        i = i + 1;
    }
    let mut beta: Vec<Natural> = Vec::new();
    let mut i: usize = 0;
    while i < d
        invariant
            q.wf(),
            n@ == q@.n,
            i <= d,
            s@.len() == d,
            beta@.len() == i,
            forall|k: int| 0 <= k < d ==> (#[trigger] s@[k]).wf() && s@[k]@ == table_point(q@, (k + 1) as nat) && s@[k]@.n == q@.n,
            forall|k: int| 0 <= k < i ==> (#[trigger] beta@[k])@ == mulm(s@[k]@.x, s@[k]@.z, q@.n),
        decreases d - i,
    {
        let bt = mul_mod(&s[i].x_cord, &s[i].z_cord, n);
        beta.push(bt);
        i = i + 1;
    }
    let sd = &s[d - 1];
    let mut t = q.mont_ladder(&Natural::from_u64((b - two_d) as u64));
    let mut r = q.mont_ladder(&Natural::from_u64(b as u64));
    let mut j_cur: usize = 0;
    let mut g = Natural::from_u64(1);
    let mut i: usize = 0;
    while i < ps.len()
        invariant
            q.wf(),
            n@ == q@.n,
            q@.n > 1,
            ascending_primes(ps@),
            d >= 2,
            b > 2 * d,
            b % 2 == 1,
            b <= MAX_B1,
            b2 <= MAX_B2,
            d <= 0xffff,
            two_d == 2 * d,
            i <= ps.len(),
            s@.len() == d,
            beta@.len() == d,
            forall|k: int| 0 <= k < d ==> (#[trigger] s@[k]).wf() && s@[k]@ == table_point(q@, (k + 1) as nat) && s@[k]@.n == q@.n,
            forall|k: int| 0 <= k < d ==> (#[trigger] beta@[k])@ == mulm(s@[k]@.x, s@[k]@.z, q@.n),
            sd == &s@[d - 1],
            t.wf(),
            r.wf(),
            t@.n == q@.n,
            r@.n == q@.n,
            (t@, r@) == window_pair(q@, b as nat, d as nat, j_cur as nat),
            forall|k: int| i <= k < ps@.len() && ps@[k] > b ==> j_cur <= window_of(#[trigger] ps@[k] as int, b as int, d as int),
            g@ == stage_two_product(q@, b as int, b2 as int, d as nat, ps@.subrange(0, i as int)),
        decreases ps.len() - i,
    {
        let p = ps[i];
        proof {
            assert(ps@.subrange(0, i as int + 1).drop_last() =~= ps@.subrange(0, i as int));
            assert(ps@.subrange(0, i as int + 1).last() == p);
        }
        if p > b {
            let jq = (p - b - 1) / two_d;
            proof {
                lemma_fundamental_div_mod((p - b - 1) as int, two_d as int);
                assert(two_d * jq <= p - b - 1) by (nonlinear_arith)
                    requires
                        (p - b - 1) as int == two_d * jq + (p - b - 1) as int % two_d as int,
                        (p - b - 1) as int % two_d as int >= 0,
                ;
            }
            let start = b + two_d * jq;
            if start < b2 {
                while j_cur < jq
                    invariant
                        q.wf(),
                        t.wf(),
                        r.wf(),
                        t@.n == q@.n,
                        r@.n == q@.n,
                        sd.wf(),
                        sd@ == table_point(q@, d as nat),
                        sd@.n == q@.n,
                        j_cur <= jq,
                        (t@, r@) == window_pair(q@, b as nat, d as nat, j_cur as nat),
                    decreases jq - j_cur,
                {
                    let nr = r.add(sd, &t);
                    t = r;
                    r = nr;
                    j_cur = j_cur + 1;
                }
                proof {
                    assert(is_prime(ps@[i as int] as nat));
                    assert((p as nat) % 2 != 0);
                    assert(p - start <= two_d) by (nonlinear_arith)
                        requires
                            (p - b - 1) as int == two_d * jq + (p - b - 1) as int % two_d as int,
                            ((p - b - 1) as int % two_d as int) < two_d,
                            start == b + two_d * jq,
                    ;
                    assert(two_d * jq == 2 * d * jq) by (nonlinear_arith)
                        requires
                            two_d == 2 * d,
                    ;
                    assert(two_d * jq == 2 * (d * jq)) by (nonlinear_arith)
                        requires
                            two_d == 2 * d,
                    ;
                    vstd::arithmetic::div_mod::lemma_mod_multiples_vanish((d * jq) as int, b as int, 2);
                    assert((start as int) % 2 == 1);
                    assert(p - start >= 2);
                }
                let delta = (p - start) / 2;
                let alpha = mul_mod(&r.x_cord, &r.z_cord, n);
                let st = &s[delta - 1];
                let e1 = sub_mod(&r.x_cord, &st.x_cord, n);
                let e2 = add_mod(&r.z_cord, &st.z_cord, n);
                let e3 = mul_mod(&e1, &e2, n);
                let e4 = sub_mod(&e3, &alpha, n);
                let f = add_mod(&e4, &beta[delta - 1], n);
                g = mul_mod(&g, &f, n);
                proof {
                    assert forall|k: int| i < k < ps@.len() && ps@[k] > b implies j_cur <= window_of(
                        #[trigger] ps@[k] as int,
                        b as int,
                        d as int,
                    ) by {
                        assert(ps@[i as int] < ps@[k]);
                        vstd::arithmetic::div_mod::lemma_div_is_ordered((p - b - 1) as int, ps@[k] - b - 1, two_d as int);
                    }
                }
            }
        }
        i = i + 1;
    }
    proof {
        assert(ps@.subrange(0, ps@.len() as int) =~= ps@);
    }
    g
}

/// What the curve of `sigma` yields: a proper divisor of `n` from the
/// setup, from stage 1 or from stage 2, or nothing.
pub open spec fn curve_outcome(n: nat, sigma: nat, k: nat, ps: Seq<usize>, b: nat, b2: nat, d: nat) -> Option<nat> {
    let w = suyama_w(n as int, sigma as int) as nat;
    if gcd(w, n) != 1 {
        if proper(gcd(w, n), n) {
            Some(gcd(w, n))
        } else {
            None
        }
    } else {
        let q = scalar_mul(suyama_point(n as int, sigma as int), k);
        let g1 = gcd(q.z as nat, n);
        if proper(g1, n) {
            Some(g1)
        } else if g1 == n {
            None
        } else {
            let g2 = gcd(stage_two_product(q, b as int, b2 as int, d, ps) as nat, n);
            if proper(g2, n) {
                Some(g2)
            } else {
                None
            }
        }
    }
}

/// Whatever a curve yields is a proper divisor of `n`.
pub proof fn lemma_curve_divides(n: nat, sigma: nat, k: nat, ps: Seq<usize>, b: nat, b2: nat, d: nat)
    ensures
        curve_outcome(n, sigma, k, ps, b, b2, d) matches Some(g) ==> proper(g, n) && divides(g, n),
{
    let w = suyama_w(n as int, sigma as int) as nat;
    lemma_gcd_divides(w, n);
    let q = scalar_mul(suyama_point(n as int, sigma as int), k);
    lemma_gcd_divides(q.z as nat, n);
    lemma_gcd_divides(stage_two_product(q, b as int, b2 as int, d, ps) as nat, n);
}

/// `g` when it is a proper divisor of `n`.
fn proper_or_none(g: Natural, n: &Natural) -> (r: Option<Natural>)
    ensures
        r matches Some(f) ==> f@ == g@,
        r is Some <==> proper(g@, n@),
{
    let one = Natural::from_u64(1);
    if natural::less(&one, &g) && natural::less(&g, n) {
        Some(g)
    } else {
        None
    }
}

/// Runs one curve, given by `sigma`, with stage-1 multiplier `k`, the
/// stage-2 primes `ps`, `b = B1 - 1`, `b2 = B2` and table size `d`.
pub fn ecm_curve(n: &Natural, sigma: &Natural, k: &Natural, ps: &Vec<usize>, b: usize, b2: usize, d: usize) -> (r: Option<Natural>)
    requires
        n@ > 1,
        k@ >= 1,
        ascending_primes(ps@),
        d >= 2,
        b > 2 * d,
        b % 2 == 1,
        b <= MAX_B1,
        b2 <= MAX_B2,
        d <= 0xffff,
    ensures
        r matches Some(g) ==> curve_outcome(n@, sigma@, k@, ps@, b as nat, b2 as nat, d as nat) == Some(g@),
        r is None ==> curve_outcome(n@, sigma@, k@, ps@, b as nat, b2 as nat, d as nat) is None,
{
    let p0 = match suyama(n, sigma) {
        Ok(p) => p,
        Err(g) => {
            return proper_or_none(g, n);
        },
    };
    let q = p0.mont_ladder(k);
    let g = natural::gcd_of(&q.z_cord, n);
    if natural::equal(&g, n) {
        return None;
    }
    let found = proper_or_none(g, n);
    if found.is_some() {
        return found;
    }
    let h = stage_two(&q, ps, b, b2, d);
    let g2 = natural::gcd_of(&h, n);
    proper_or_none(g2, n)
}

/// The number of rounds of the primality test.
pub const PRIME_REPS: u32 = 25;

/// The bounds leave room for both stages: with `d = floor(sqrt(b2))`,
/// `d >= 2` and `b1 - 1 > 2d`.
pub open spec fn bounds_fit(b1: nat, b2: nat) -> bool {
    4 <= b2 < (b1 / 2) * (b1 / 2)
}

/// `floor(sqrt(m))`.
fn floor_sqrt(m: usize) -> (d: usize)
    requires
        m <= MAX_B2,
    ensures
        d * d <= m < (d + 1) * (d + 1),
        d <= 0xffff,
{
    let mut d: u64 = 0;
    loop
        invariant
            d * d <= m,
            m <= MAX_B2,
            d <= 0xb505,
        ensures
            d * d <= m < (d + 1) * (d + 1),
            d <= 0xb505,
        decreases m - d * d,
    {
        let e = d + 1;
        proof {
            assert(e * e <= 0xb506 * 0xb506) by (nonlinear_arith)
                requires
                    e <= 0xb506,
            ;
        }
        if e * e > m as u64 {
            break;
        }
        proof {
            assert(e * e > d * d) by (nonlinear_arith)
                requires
                    e == d + 1,
            ;
            if e > 0xb505 {
                assert(e * e > MAX_B2) by (nonlinear_arith)
                    requires
                        e > 0xb505,
                ;
            }
        }
        d = e;
    }
    d as usize
}

proof fn lemma_bounds_fit(b1: nat, b2: nat, d: nat)
    requires
        b1 % 2 == 0,
        d * d <= b2 < (d + 1) * (d + 1),
    ensures
        bounds_fit(b1, b2) <==> (d >= 2 && b1 >= 2 * d + 2),
{
    let h = b1 / 2;
    assert(b1 == 2 * h);
    if h >= d + 1 {
        assert(h * h >= (d + 1) * (d + 1)) by (nonlinear_arith)
            requires
                h >= d + 1,
        ;
    } else {
        assert(h * h <= d * d) by (nonlinear_arith)
            requires
                h <= d,
        ;
    }
    if d >= 2 {
        assert(d * d >= 4) by (nonlinear_arith)
            requires
                d >= 2,
        ;
    } else {
        assert((d + 1) * (d + 1) <= 4) by (nonlinear_arith)
            requires
                d < 2,
        ;
    }
}

/// The stage-1 multiplier is at least 1.
proof fn lemma_exponent_positive(ps: Seq<usize>, b1: nat)
    requires
        ascending_primes(ps),
    ensures
        stage_one_exponent(ps, b1) >= 1,
    decreases ps.len(),
{
    if ps.len() > 0 {
        let q = ps.drop_last();
        assert forall|i: int, j: int| 0 <= i < j < q.len() implies q[i] < q[j] by {
            assert(ps[i] < ps[j]);
        }
        assert forall|i: int| 0 <= i < q.len() implies is_prime(#[trigger] q[i] as nat) by {
            assert(is_prime(ps[i] as nat));
        }
        lemma_exponent_positive(q, b1);
        let p = ps.last() as nat;
        assert(is_prime(ps[ps.len() - 1] as nat));
        lemma_largest_power_bounds(p, b1);
        let f = if p <= b1 {
            largest_power(p, b1)
        } else {
            1
        };
        assert(stage_one_exponent(q, b1) * f >= 1) by (nonlinear_arith)
            requires
                stage_one_exponent(q, b1) >= 1,
                f >= 1,
        ;
    }
}

/// Returns one proper divisor of `n`, found with Lenstra's two-stage
/// elliptic curve method on up to `max_curve` random curves drawn from
/// `rgen`. Odd bounds give `BoundsNotEven`; a number that passes the
/// primality test gives `NumberIsPrime`; bounds that leave no room for both
/// stages give `BoundsTooSmall`; otherwise the result is a divisor, or
/// `ECMFailed` when no curve gave one.
pub fn ecm_one_factor(n: &Natural, b1: usize, b2: usize, max_curve: usize, rgen: &mut RandState<'_>) -> (r: Result<Natural, Error>)
    requires
        n@ >= 2,
        b1 <= MAX_B1,
        b2 <= MAX_B2,
    ensures
        (b1 % 2 != 0 || b2 % 2 != 0) <==> r == Err::<Natural, Error>(Error::BoundsNotEven),
        b1 % 2 == 0 && b2 % 2 == 0 ==> (r == Err::<Natural, Error>(Error::NumberIsPrime) <==> passes_prime_test(n@, PRIME_REPS as nat)),
        b1 % 2 == 0 && b2 % 2 == 0 && is_prime(n@) ==> r == Err::<Natural, Error>(Error::NumberIsPrime),
        b1 % 2 == 0 && b2 % 2 == 0 && !passes_prime_test(n@, PRIME_REPS as nat) ==> (r == Err::<Natural, Error>(Error::BoundsTooSmall) <==> !bounds_fit(b1 as nat, b2 as nat)),
        b1 % 2 == 0 && b2 % 2 == 0 && !passes_prime_test(n@, PRIME_REPS as nat) && bounds_fit(b1 as nat, b2 as nat) ==> (
        r is Ok || r == Err::<Natural, Error>(Error::ECMFailed)),
        max_curve == 0 ==> r is Err,
        r matches Ok(f) ==> proper(f@, n@) && divides(f@, n@),
        r == Err::<Natural, Error>(Error::BoundsNotEven) || r == Err::<Natural, Error>(Error::NumberIsPrime) ==> *final(rgen) == *old(rgen),
{
    if b1 % 2 != 0 || b2 % 2 != 0 {
        return Err(Error::BoundsNotEven);
    }
    if natural::is_probably_prime(n, PRIME_REPS) {
        return Err(Error::NumberIsPrime);
    }
    let d = floor_sqrt(b2);
    proof {
        lemma_bounds_fit(b1 as nat, b2 as nat, d as nat);
    }
    if d < 2 || b1 < 2 * d + 2 {
        return Err(Error::BoundsTooSmall);
    }
    let two_d = 2 * d;
    let top = b2 + two_d;
    let limit = if b1 > top { b1 } else { top };
    let ps = sieve_primes(limit);
    let k = stage_one_multiplier(&ps, b1);
    proof {
        lemma_exponent_positive(ps@, b1 as nat);
    }
    let b = b1 - 1;
    let one = Natural::from_u64(1);
    let bound = natural::sub(n, &one);
    let mut curve: usize = 0;
    while curve < max_curve
        invariant
            n@ >= 2,
            b1 % 2 == 0,
            b2 % 2 == 0,
            !passes_prime_test(n@, PRIME_REPS as nat),
            !is_prime(n@),
            bounds_fit(b1 as nat, b2 as nat),
            bound@ == n@ - 1,
            k@ >= 1,
            ascending_primes(ps@),
            d >= 2,
            b > 2 * d,
            b % 2 == 1,
            b <= MAX_B1,
            b2 <= MAX_B2,
            d <= 0xffff,
        decreases max_curve - curve,
    {
        curve = curve + 1;
        let sigma = natural::random_below(&bound, rgen);
        match ecm_curve(n, &sigma, &k, &ps, b, b2, d) {
            Some(f) => {
                proof {
                    lemma_curve_divides(n@, sigma@, k@, ps@, b as nat, b2 as nat, d as nat);
                }
                return Ok(f);
            },
            None => {},
        }
    }
    Err(Error::ECMFailed)
}

/// The product of a list of numbers.
pub open spec fn flat_product(s: Seq<nat>) -> nat
    decreases s.len(),
{
    if s.len() == 0 {
        1
    } else {
        flat_product(s.drop_last()) * s.last()
    }
}

/// The values of a list of naturals.
pub open spec fn values(s: Seq<Natural>) -> Seq<nat> {
    s.map_values(|c: Natural| c@)
}

/// A key of a factorization: a prime, or a number that passed the
/// probabilistic test with `PRIME_REPS` rounds.
pub open spec fn certified(p: nat) -> bool {
    is_prime(p) || passes_prime_test(p, PRIME_REPS as nat)
}

/// The pairs `(p, e)` of a factorization as numbers.
pub open spec fn entries(fs: Seq<(Natural, usize)>) -> Seq<(nat, nat)> {
    fs.map_values(|e: (Natural, usize)| (e.0@, e.1 as nat))
}

/// `prod p^e` over the pairs.
pub open spec fn factor_product(s: Seq<(nat, nat)>) -> nat
    decreases s.len(),
{
    if s.len() == 0 {
        1
    } else {
        factor_product(s.drop_last()) * power(s.last().0, s.last().1)
    }
}

/// A well-formed factorization: distinct certified keys, each at least 2,
/// with positive multiplicities.
pub open spec fn factorization(s: Seq<(nat, nat)>) -> bool {
    &&& forall|i: int| 0 <= i < s.len() ==> certified(#[trigger] s[i].0) && s[i].0 >= 2 && s[i].1 >= 1
    &&& forall|i: int, j: int| 0 <= i < j < s.len() ==> #[trigger] s[i].0 != #[trigger] s[j].0
}

proof fn lemma_values_push(s: Seq<Natural>, c: Natural)
    ensures
        values(s.push(c)) == values(s).push(c@),
        flat_product(values(s.push(c))) == flat_product(values(s)) * c@,
{
    assert(values(s.push(c)) =~= values(s).push(c@));
    assert(values(s).push(c@).drop_last() =~= values(s));
}

proof fn lemma_values_pop(s: Seq<Natural>)
    requires
        s.len() > 0,
    ensures
        values(s.drop_last()) == values(s).drop_last(),
        flat_product(values(s)) == flat_product(values(s.drop_last())) * s.last()@,
{
    assert(values(s.drop_last()) =~= values(s).drop_last());
}

/// Raising the multiplicity of one key by 1 multiplies the product by that
/// key.
proof fn lemma_factor_product_bump(s: Seq<(nat, nat)>, i: int)
    requires
        0 <= i < s.len(),
    ensures
        factor_product(s.update(i, (s[i].0, s[i].1 + 1))) == factor_product(s) * s[i].0,
    decreases s.len(),
{
    let t = s.update(i, (s[i].0, s[i].1 + 1));
    let p = s[i].0;
    if i == s.len() - 1 {
        assert(t.drop_last() =~= s.drop_last());
        assert(power(p, s[i].1 + 1) == p * power(p, s[i].1));
        let a = factor_product(s.drop_last());
        assert(a * (p * power(p, s[i].1)) == a * power(p, s[i].1) * p) by (nonlinear_arith);
    } else {
        assert(t.drop_last() =~= s.drop_last().update(i, (s[i].0, s[i].1 + 1)));
        lemma_factor_product_bump(s.drop_last(), i);
        let a = factor_product(s.drop_last());
        let l = power(s.last().0, s.last().1);
        assert(a * p * l == a * l * p) by (nonlinear_arith);
    }
}

/// The 100,000th prime: trial division covers the first 100,000 primes.
pub const TRIAL_LIMIT: usize = 1_299_709;

/// Divides out every prime up to `TRIAL_LIMIT`: the primes found, with
/// repetition, and what is left.
pub fn trial_division(n: &Natural) -> (r: (Vec<Natural>, Natural))
    requires
        n@ >= 1,
    ensures
        flat_product(values(r.0@)) * r.1@ == n@,
        r.1@ >= 1,
        forall|i: int| 0 <= i < r.0@.len() ==> is_prime(#[trigger] r.0@[i]@) && r.0@[i]@ <= TRIAL_LIMIT && n@ % r.0@[i]@ == 0,
        forall|p: nat| is_prime(p) && p <= TRIAL_LIMIT ==> #[trigger] (r.1@ % p) != 0,
{
    let ps = sieve_primes(TRIAL_LIMIT);
    let zero = Natural::from_u64(0);
    let mut found: Vec<Natural> = Vec::new();
    let mut rest = n.clone();
    proof {
        assert(values(found@) =~= Seq::<nat>::empty());
        assert(flat_product(values(found@)) == 1);
    }
    let mut i: usize = 0;
    while i < ps.len() && ps[i] <= TRIAL_LIMIT
        invariant
            ascending_primes(ps@),
            zero@ == 0,
            i <= ps.len(),
            rest@ >= 1,
            flat_product(values(found@)) * rest@ == n@,
            forall|j: int| 0 <= j < found@.len() ==> is_prime(#[trigger] found@[j]@) && found@[j]@ <= TRIAL_LIMIT && n@ % found@[j]@ == 0,
            forall|j: int| 0 <= j < i ==> rest@ % (#[trigger] ps@[j] as nat) != 0,
        decreases ps.len() - i,
    {
        let p = ps[i];
        proof {
            assert(is_prime(ps@[i as int] as nat));
        }
        let pn = Natural::from_u64(p as u64);
        loop
            invariant
                ascending_primes(ps@),
                i < ps.len(),
                ps@[i as int] == p,
                p <= TRIAL_LIMIT,
                pn@ == p,
                is_prime(p as nat),
                zero@ == 0,
                rest@ >= 1,
                flat_product(values(found@)) * rest@ == n@,
                forall|j: int| 0 <= j < found@.len() ==> is_prime(#[trigger] found@[j]@) && found@[j]@ <= TRIAL_LIMIT && n@ % found@[j]@ == 0,
                forall|j: int| 0 <= j < i ==> rest@ % (#[trigger] ps@[j] as nat) != 0,
            ensures
                rest@ % (p as nat) != 0,
                rest@ >= 1,
                flat_product(values(found@)) * rest@ == n@,
                forall|j: int| 0 <= j < found@.len() ==> is_prime(#[trigger] found@[j]@) && found@[j]@ <= TRIAL_LIMIT && n@ % found@[j]@ == 0,
                forall|j: int| 0 <= j < i ==> rest@ % (#[trigger] ps@[j] as nat) != 0,
            decreases rest@,
        {
            let m = natural::rem(&rest, &pn);
            if !natural::equal(&m, &zero) {
                break;
            }
            let q = natural::div(&rest, &pn);
            let pc = pn.clone();
            proof {
                lemma_fundamental_div_mod(rest@ as int, p as int);
                assert(rest@ == p * q@);
                lemma_values_push(found@, pc);
                let f = flat_product(values(found@));
                assert(f * p * q@ == f * (p * q@)) by (nonlinear_arith);
                if q@ == 0 {
                    assert(p * q@ == 0) by (nonlinear_arith)
                        requires
                            q@ == 0,
                    ;
                }
                vstd::arithmetic::div_mod::lemma_div_decreases(rest@ as int, p as int);
                lemma_mul_mod_noop_right(f as int, rest@ as int, p as int);
                assert((f as int) * 0 == 0) by (nonlinear_arith);
                lemma_small_mod(0, p as nat);
                assert forall|j: int| 0 <= j < i implies q@ % (#[trigger] ps@[j] as nat) != 0 by {
                    let d = ps@[j] as int;
                    assert(is_prime(ps@[j] as nat));
                    lemma_mul_mod_noop_right(p as int, q@ as int, d);
                    if q@ % (d as nat) == 0 {
                        assert((p as int) * 0 == 0) by (nonlinear_arith);
                        lemma_small_mod(0, d as nat);
                    }
                }
            }
            found.push(pc);
            rest = q;
        }
        i = i + 1;
    }
    proof {
        assert forall|p: nat| is_prime(p) && p <= TRIAL_LIMIT implies #[trigger] (rest@ % p) != 0 by {
            let j = choose|j: int| 0 <= j < ps@.len() && ps@[j] == p;
            if j >= i {
                if j > i {
                    assert(ps@[i as int] < ps@[j]);
                }
            }
        }
    }
    (found, rest)
}

/// The sum of `c - 1` over a list; it bounds how often the list can still
/// be split.
pub open spec fn weight(s: Seq<nat>) -> nat
    decreases s.len(),
{
    if s.len() == 0 {
        0
    } else {
        weight(s.drop_last()) + (s.last() - 1) as nat
    }
}

/// Groups a list of keys into pairs `(key, multiplicity)`.
pub fn group_factors(found: &Vec<Natural>) -> (r: Vec<(Natural, usize)>)
    requires
        forall|i: int| 0 <= i < found@.len() ==> certified(#[trigger] found@[i]@) && found@[i]@ >= 2,
    ensures
        factorization(entries(r@)),
        factor_product(entries(r@)) == flat_product(values(found@)),
        found@.len() == 0 ==> r@.len() == 0,
        found@.len() == 1 ==> entries(r@) == seq![(found@[0]@, 1nat)],
{
    let mut r: Vec<(Natural, usize)> = Vec::new();
    let mut i: usize = 0;
    while i < found.len()
        invariant
            i <= found@.len(),
            forall|k: int| 0 <= k < found@.len() ==> certified(#[trigger] found@[k]@) && found@[k]@ >= 2,
            factorization(entries(r@)),
            factor_product(entries(r@)) == flat_product(values(found@.subrange(0, i as int))),
            forall|k: int| 0 <= k < r@.len() ==> (#[trigger] r@[k]).1 <= i,
            i == 0 ==> r@.len() == 0,
            i == 1 ==> entries(r@) == seq![(found@[0]@, 1nat)],
        decreases found@.len() - i,
    {
        let c = &found[i];
        proof {
            assert(found@.subrange(0, i as int + 1) =~= found@.subrange(0, i as int).push(found@[i as int]));
            lemma_values_push(found@.subrange(0, i as int), found@[i as int]);
        }
        let mut j: usize = 0;
        let mut hit = false;
        while j < r.len() && !hit
            invariant
                j <= r@.len(),
                hit ==> j < r@.len() && r@[j as int].0@ == c@,
                forall|k: int| 0 <= k < j ==> (#[trigger] r@[k]).0@ != c@,
            decreases r@.len() - j + (if hit { 0int } else { 1int }),
        {
            if natural::equal(&r[j].0, c) {
                hit = true;
            } else {
                j = j + 1;
            }
        }
        if hit {
            let e = r[j].1;
            let key = r[j].0.clone();
            proof {
                let s = entries(r@);
                assert(s[j as int] == (key@, e as nat));
                lemma_factor_product_bump(s, j as int);
            }
            let ghost before = r@;
            r.set(j, (key, e + 1));
            proof {
                assert(entries(r@) =~= entries(before).update(j as int, (key@, e as nat + 1)));
                let s = entries(r@);
                assert forall|a: int, b: int| 0 <= a < b < s.len() implies #[trigger] s[a].0 != #[trigger] s[b].0 by {
                    assert(entries(before)[a].0 != entries(before)[b].0);
                }
                assert(entries(before)[j as int].0 == c@);
                assert(factor_product(s) == factor_product(entries(before)) * c@);
            }
        } else {
            let ghost before = r@;
            r.push((c.clone(), 1));
            proof {
                assert(entries(r@) =~= entries(before).push((c@, 1nat)));
                if i == 0 {
                    assert(entries(before) =~= Seq::<(nat, nat)>::empty());
                    assert(entries(r@) =~= seq![(found@[0]@, 1nat)]);
                }
                let s = entries(r@);
                assert(s.drop_last() =~= entries(before));
                assert(power(c@, 1) == c@ * power(c@, 0));
                assert(power(c@, 0) == 1);
                assert(s.last() == (c@, 1nat));
                let pb = factor_product(entries(before));
                assert(pb * (c@ * power(c@, 0)) == pb * c@) by (nonlinear_arith)
                    requires
                        power(c@, 0) == 1,
                ;
                assert(factor_product(s) == factor_product(entries(before)) * c@);
                assert forall|a: int, b: int| 0 <= a < b < s.len() implies #[trigger] s[a].0 != #[trigger] s[b].0 by {
                    if b < s.len() - 1 {
                        assert(entries(before)[a].0 != entries(before)[b].0);
                    } else {
                        assert(before[a].0@ != c@);
                    }
                }
            }
        }
        i = i + 1;
    }
    proof {
        assert(found@.subrange(0, found@.len() as int) =~= found@);
    }
    r
}

/// Every number from 2 on has a prime factor.
pub proof fn lemma_prime_factor(x: nat) -> (p: nat)
    requires
        x >= 2,
    ensures
        is_prime(p),
        p <= x,
        x % p == 0,
    decreases x,
{
    if is_prime(x) {
        vstd::arithmetic::div_mod::lemma_mod_self_0(x as int);
        x
    } else {
        let d = choose|d: nat| 2 <= d < x && #[trigger] (x % d) == 0;
        let p = lemma_prime_factor(d);
        lemma_fundamental_div_mod(x as int, d as int);
        lemma_fundamental_div_mod(d as int, p as int);
        let m = x / d;
        let k = d / p;
        assert(x == p * (k * m)) by (nonlinear_arith)
            requires
                x == d * m + x % d,
                x % d == 0,
                d == p * k + d % p,
                d % p == 0,
        ;
        vstd::arithmetic::div_mod::lemma_mod_multiples_basic((k * m) as int, p as int);
        p
    }
}

/// Every prime factor of `n` is at most `TRIAL_LIMIT`.
pub open spec fn only_small_factors(n: nat) -> bool {
    forall|p: nat| is_prime(p) && #[trigger] (n % p) == 0 ==> p <= TRIAL_LIMIT
}

/// `n` has no prime factor up to `TRIAL_LIMIT`.
pub open spec fn no_small_factor(n: nat) -> bool {
    forall|p: nat| is_prime(p) && p <= TRIAL_LIMIT ==> #[trigger] (n % p) != 0
}

/// A product of factors of at least 2 is at least 1, and at least 2 when
/// there is a factor.
proof fn lemma_flat_product_bounds(s: Seq<nat>)
    requires
        forall|i: int| 0 <= i < s.len() ==> #[trigger] s[i] >= 2,
    ensures
        flat_product(s) >= 1,
        s.len() > 0 ==> flat_product(s) >= 2,
    decreases s.len(),
{
    if s.len() > 0 {
        let t = s.drop_last();
        assert forall|i: int| 0 <= i < t.len() implies #[trigger] t[i] >= 2 by {
            assert(s[i] >= 2);
        }
        lemma_flat_product_bounds(t);
        let a = flat_product(t);
        let l = s[s.len() - 1];
        assert(a * l >= 2) by (nonlinear_arith)
            requires
                a >= 1,
                l >= 2,
        ;
    }
}

/// When a prime is a product of factors of at least 2 and a rest, there is
/// one factor, the prime itself, and the rest is 1.
proof fn lemma_prime_split(s: Seq<nat>, rest: nat, n: nat)
    requires
        forall|i: int| 0 <= i < s.len() ==> #[trigger] s[i] >= 2,
        flat_product(s) * rest == n,
        is_prime(n),
        s.len() > 0,
    ensures
        s.len() == 1,
        s[0] == n,
        rest == 1,
{
    let t = s.drop_last();
    assert forall|i: int| 0 <= i < t.len() implies #[trigger] t[i] >= 2 by {
        assert(s[i] >= 2);
    }
    lemma_flat_product_bounds(t);
    let a = flat_product(t);
    let l = s[s.len() - 1];
    let m = a * rest;
    assert(n == l * m) by (nonlinear_arith)
        requires
            n == a * l * rest,
            m == a * rest,
    ;
    if m == 0 {
        assert(l * m == 0) by (nonlinear_arith)
            requires
                m == 0,
        ;
    }
    assert(l <= n) by (nonlinear_arith)
        requires
            n == l * m,
            m >= 1,
    ;
    if l < n {
        vstd::arithmetic::div_mod::lemma_mod_multiples_basic(m as int, l as int);
        assert(n % l == 0);
    }
    assert(m == 1) by (nonlinear_arith)
        requires
            n == l * m,
            l == n,
            n >= 2,
    ;
    assert(a == 1 && rest == 1) by (nonlinear_arith)
        requires
            a * rest == 1,
            a >= 1,
    ;
    if t.len() > 0 {
        lemma_flat_product_bounds(t);
    }
}

/// Factors `n` completely: trial division by the primes up to
/// `TRIAL_LIMIT`, then elliptic curves with bounds `b1`, `b2`, at most
/// `max_curve` curves per search, from a generator seeded with `seed`.
/// Every factor found is factored again until the test calls it prime, so
/// an error is returned when a search fails rather than a composite key.
pub fn ecm_with_params(n: &Natural, b1: usize, b2: usize, max_curve: usize, seed: usize) -> (r: Result<Vec<(Natural, usize)>, Error>)
    requires
        n@ >= 1,
        b1 <= MAX_B1,
        b2 <= MAX_B2,
    ensures
        r matches Ok(fs) ==> factorization(entries(fs@)) && factor_product(entries(fs@)) == n@,
        r matches Err(e) ==> e != Error::NumberIsPrime,
        b1 % 2 != 0 || b2 % 2 != 0 ==> (r matches Err(e) ==> e == Error::BoundsNotEven),
        b1 % 2 == 0 && b2 % 2 == 0 && bounds_fit(b1 as nat, b2 as nat) ==> (r matches Err(e) ==> e == Error::ECMFailed),
        n@ == 1 ==> (r matches Ok(fs) && fs@.len() == 0),
        only_small_factors(n@) ==> r is Ok,
        is_prime(n@) && (n@ <= TRIAL_LIMIT || (b1 % 2 == 0 && b2 % 2 == 0)) ==> (r matches Ok(fs) && entries(fs@) == seq![(n@, 1nat)]),
        no_small_factor(n@) && n@ > 1 && (b1 % 2 != 0 || b2 % 2 != 0) ==> r == Err::<Vec<(Natural, usize)>, Error>(Error::BoundsNotEven),
        no_small_factor(n@) && n@ > 1 && b1 % 2 == 0 && b2 % 2 == 0 && !passes_prime_test(n@, PRIME_REPS as nat)
            && !bounds_fit(b1 as nat, b2 as nat) ==> r == Err::<Vec<(Natural, usize)>, Error>(Error::BoundsTooSmall),
{
    let (mut found, rest) = trial_division(n);
    proof {
        assert forall|i: int| 0 <= i < found@.len() implies certified(#[trigger] found@[i]@) && found@[i]@ >= 2 by {
            assert(is_prime(found@[i]@));
        }
        let vs = values(found@);
        assert forall|i: int| 0 <= i < vs.len() implies #[trigger] vs[i] >= 2 by {
            assert(is_prime(found@[i]@));
        }
        lemma_flat_product_bounds(vs);
        let x = flat_product(vs);
        if n@ == 1 {
            assert(x == 1 && rest@ == 1) by (nonlinear_arith)
                requires
                    x * rest@ == 1,
                    x >= 1,
            ;
        }
        if found@.len() == 0 {
            assert(vs =~= Seq::<nat>::empty());
            assert(rest@ == n@);
        }
        if is_prime(n@) && found@.len() > 0 {
            lemma_prime_split(vs, rest@, n@);
        }
        if is_prime(n@) && n@ <= TRIAL_LIMIT && found@.len() == 0 {
            vstd::arithmetic::div_mod::lemma_mod_self_0(n@ as int);
            assert(rest@ % n@ != 0);
        }
        if only_small_factors(n@) && rest@ >= 2 {
            let p = lemma_prime_factor(rest@);
            lemma_fundamental_div_mod(rest@ as int, p as int);
            let k = rest@ / p;
            assert(n@ == p * (x * k)) by (nonlinear_arith)
                requires
                    n@ == x * rest@,
                    rest@ == p * k + rest@ % p,
                    rest@ % p == 0,
            ;
            vstd::arithmetic::div_mod::lemma_mod_multiples_basic((x * k) as int, p as int);
            assert(n@ % p == 0);
            assert(p <= TRIAL_LIMIT);
            assert(rest@ % p != 0);
        }
        if no_small_factor(n@) && found@.len() > 0 {
            assert(is_prime(found@[0]@) && found@[0]@ <= TRIAL_LIMIT && n@ % found@[0]@ == 0);
            assert(n@ % found@[0]@ != 0);
        }
    }
    let mut rng = natural::new_rand_state();
    natural::seed_rand_state(&mut rng, seed);
    let one = Natural::from_u64(1);
    let mut pending: Vec<Natural> = Vec::new();
    if !natural::equal(&rest, &one) {
        let ghost rv = rest@;
        pending.push(rest);
        proof {
            assert(pending@ =~= Seq::<Natural>::empty().push(pending@[0]));
            lemma_values_push(Seq::<Natural>::empty(), pending@[0]);
            assert(values(Seq::<Natural>::empty()) =~= Seq::<nat>::empty());
            let y = flat_product(values(pending@));
            assert(y == 1 * rv);
            let x = flat_product(values(found@));
            assert(x * y == x * rv) by (nonlinear_arith)
                requires
                    y == 1 * rv,
            ;
        }
    } else {
        proof {
            assert(values(pending@) =~= Seq::<nat>::empty());
            let x = flat_product(values(found@));
            let y = flat_product(values(pending@));
            assert(x * y == x * rest@) by (nonlinear_arith)
                requires
                    y == 1,
                    rest@ == 1,
            ;
        }
    }
    while pending.len() > 0
        invariant
            flat_product(values(found@)) * flat_product(values(pending@)) == n@,
            forall|i: int| 0 <= i < found@.len() ==> certified(#[trigger] found@[i]@) && found@[i]@ >= 2,
            forall|i: int| 0 <= i < pending@.len() ==> (#[trigger] pending@[i])@ >= 2,
            b1 <= MAX_B1,
            b2 <= MAX_B2,
            n@ == 1 ==> pending@.len() == 0 && found@.len() == 0,
            only_small_factors(n@) ==> pending@.len() == 0,
            is_prime(n@) && n@ <= TRIAL_LIMIT ==> pending@.len() == 0 && found@.len() == 1 && found@[0]@ == n@,
            is_prime(n@) && n@ > TRIAL_LIMIT && b1 % 2 == 0 && b2 % 2 == 0 ==> (pending@.len() == 1 && pending@[0]@ == n@
                && found@.len() == 0) || (pending@.len() == 0 && found@.len() == 1 && found@[0]@ == n@),
            no_small_factor(n@) && n@ > 1 && (b1 % 2 != 0 || b2 % 2 != 0 || (!passes_prime_test(n@, PRIME_REPS as nat)
                && !bounds_fit(b1 as nat, b2 as nat))) ==> pending@.len() == 1 && pending@[0]@ == n@ && found@.len() == 0,
        decreases weight(values(pending@)),
    {
        let ghost before = pending@;
        let c = pending.pop().unwrap();
        proof {
            lemma_values_pop(before);
            assert(values(before).drop_last() == values(pending@));
            assert(values(before).last() == c@);
            assert(weight(values(before)) == weight(values(pending@)) + (c@ - 1));
        }
        match ecm_one_factor(&c, b1, b2, max_curve, &mut rng) {
            Ok(f) => {
                let g = natural::div(&c, &f);
                proof {
                    let w = choose|q: nat| #[trigger] (f@ * q) == c@;
                    vstd::arithmetic::div_mod::lemma_div_multiples_vanish(w as int, f@ as int);
                    assert(g@ == w);
                    if w <= 1 {
                        assert(f@ * w <= f@) by (nonlinear_arith)
                            requires
                                w <= 1,
                        ;
                    }
                    let p0 = pending@;
                    lemma_values_push(p0, f);
                    lemma_values_push(p0.push(f), g);
                    let fp = flat_product(values(found@));
                    let pp = flat_product(values(p0));
                    assert(fp * (pp * f@ * g@) == fp * (pp * c@)) by (nonlinear_arith)
                        requires
                            f@ * g@ == c@,
                    ;
                    assert(values(p0.push(f).push(g)).drop_last() =~= values(p0.push(f)));
                    assert(values(p0.push(f)).drop_last() =~= values(p0));
                    assert(values(before).drop_last() =~= values(p0));
                    assert((f@ - 1) + (g@ - 1) < c@ - 1) by (nonlinear_arith)
                        requires
                            f@ * g@ == c@,
                            f@ >= 2,
                            g@ >= 2,
                    ;
                    assert(values(p0.push(f).push(g)).last() == g@);
                    assert(values(p0.push(f)).last() == f@);
                    assert(weight(values(p0.push(f))) == weight(values(p0)) + (f@ - 1));
                    assert(weight(values(p0.push(f).push(g))) == weight(values(p0.push(f))) + (g@ - 1));
                }
                pending.push(f);
                pending.push(g);
            },
            Err(Error::NumberIsPrime) => {
                proof {
                    lemma_values_push(found@, c);
                    let fp = flat_product(values(found@));
                    let pp = flat_product(values(pending@));
                    assert(fp * (pp * c@) == (fp * c@) * pp) by (nonlinear_arith);
                    assert(values(before).drop_last() =~= values(pending@));
                }
                found.push(c);
            },
            Err(e) => {
                return Err(e);
            },
        }
    }
    proof {
        assert(values(pending@) =~= Seq::<nat>::empty());
        assert(flat_product(values(pending@)) == 1);
    }
    let fs = group_factors(&found);
    proof {
        let x = flat_product(values(found@));
        let y = flat_product(values(pending@));
        assert(x * y == x) by (nonlinear_arith)
            requires
                y == 1,
        ;
        assert(x == n@);
        assert(factor_product(entries(fs@)) == n@);
    }
    Ok(fs)
}

/// Factors `n` completely with the default bounds: `B1` chosen from the
/// number of decimal digits, `B2 = 100000`, 200 curves per search, seed
/// 1234.
pub fn ecm(n: &Natural) -> (r: Result<Vec<(Natural, usize)>, Error>)
    requires
        n@ >= 1,
    ensures
        r matches Ok(fs) ==> factorization(entries(fs@)) && factor_product(entries(fs@)) == n@,
        r matches Err(e) ==> e == Error::ECMFailed,
        n@ == 1 ==> (r matches Ok(fs) && fs@.len() == 0),
        only_small_factors(n@) ==> r is Ok,
        is_prime(n@) ==> (r matches Ok(fs) && entries(fs@) == seq![(n@, 1nat)]),
{
    let digits = natural::decimal_digits(n);
    let b1 = optimal_b1(digits);
    proof {
        assert(bounds_fit(b1 as nat, 100000)) by (nonlinear_arith)
            requires
                b1 >= 2000,
                b1 % 2 == 0,
        ;
    }
    ecm_with_params(n, b1, 100000, 200, 1234)
}

} // verus!
