//! Points of a Montgomery curve `b*y^2*z = x^3 + a*x^2*z + x*z^2` over the
//! residues modulo `n`, in projective XZ coordinates.
//!
//! `n` is usually composite, so the residues do not form a field; a value
//! without an inverse is what the factoring method looks for.
use vstd::prelude::*;
use vstd::arithmetic::power2::pow2;
use vstd::arithmetic::power2::lemma_pow2_unfold;
use vstd::arithmetic::power2::lemma_pow2_pos;
use vstd::arithmetic::power2::lemma2_to64;
use vstd::arithmetic::div_mod::lemma_div_denominator;
use vstd::arithmetic::div_mod::lemma_fundamental_div_mod;
use vstd::arithmetic::div_mod::lemma_basic_div;
use vstd::arithmetic::div_mod::lemma_mod_multiples_vanish;
use crate::natural;
use crate::natural::Natural;

verus! {

/// The mathematical content of a point: coordinates, curve constant
/// `a24 = (a + 2) / 4` and modulus.
pub struct Pt {
    pub x: int,
    pub z: int,
    pub a24: int,
    pub n: int,
}

/// Differential addition: `p + q` from `p`, `q` and `d = p - q`:
/// `u = (p.x - p.z)(q.x + q.z)`, `v = (p.x + p.z)(q.x - q.z)`,
/// `x' = d.z (u + v)^2`, `z' = d.x (u - v)^2`, all modulo `n`.
pub open spec fn diff_add(p: Pt, q: Pt, d: Pt) -> Pt {
    let n = p.n;
    let u = ((p.x - p.z) * (q.x + q.z)) % n;
    let v = ((p.x + p.z) * (q.x - q.z)) % n;
    Pt { x: (d.z * ((u + v) * (u + v))) % n, z: (d.x * ((u - v) * (u - v))) % n, a24: p.a24, n }
}

/// Doubling: `u = (x + z)^2`, `v = (x - z)^2`, `d = u - v`, `x' = u v`,
/// `z' = d (v + a24 d)`, all modulo `n`.
pub open spec fn dbl(p: Pt) -> Pt {
    let n = p.n;
    let u = ((p.x + p.z) * (p.x + p.z)) % n;
    let v = ((p.x - p.z) * (p.x - p.z)) % n;
    let d = u - v;
    Pt { x: (u * v) % n, z: (d * (v + p.a24 * d)) % n, a24: p.a24, n }
}

/// Adding `n` to a factor does not change a product modulo `n`.
proof fn lemma_shift_factor(a: int, b: int, n: int)
    requires
        n > 0,
    ensures
        ((a + n) * b) % n == (a * b) % n,
        (b * (a + n)) % n == (b * a) % n,
{
    assert((a + n) * b == n * b + a * b) by (nonlinear_arith);
    lemma_mod_multiples_vanish(b, a * b, n);
    assert(b * (a + n) == n * b + b * a) by (nonlinear_arith);
    lemma_mod_multiples_vanish(b, b * a, n);
}

/// The pair `(Q, R)` of the binary Montgomery ladder after it has read the
/// binary digits of `k`: `(p, 2p)` for `k = 1`; each further digit 1 maps
/// `(Q, R)` to `(R + Q, 2R)`, each digit 0 to `(2Q, Q + R)`, the sums taken
/// with difference `p`.
pub open spec fn ladder(p: Pt, k: nat) -> (Pt, Pt)
    decreases k,
{
    if k <= 1 {
        (p, dbl(p))
    } else {
        let (q, r) = ladder(p, k / 2);
        if k % 2 == 1 {
            (diff_add(r, q, p), dbl(r))
        } else {
            (dbl(q), diff_add(q, r, p))
        }
    }
}

/// `k * p` as the ladder computes it.
pub open spec fn scalar_mul(p: Pt, k: nat) -> Pt {
    ladder(p, k).0
}

/// Residues `a` and `b` agree modulo `n` (or are equal when `n` is 0).
pub open spec fn congruent(a: int, b: int, n: int) -> bool {
    if n == 0 {
        a == b
    } else {
        a % n == b % n
    }
}

/// Two points on the same curve with the same affine X coordinate:
/// `x1 / z1 == x2 / z2`, written without inverses.
pub open spec fn same_point(p: Pt, q: Pt) -> bool {
    p.a24 == q.a24 && p.n == q.n && congruent(p.x * q.z, q.x * p.z, p.n)
}

/// A point in Montgomery form, with its curve.
#[derive(Debug)]
pub struct Point {
    /// X coordinate of the point
    pub x_cord: Natural,
    /// Z coordinate of the point
    pub z_cord: Natural,
    /// The curve parameter `(a + 2) / 4`
    pub a_24: Natural,
    /// The modulus
    pub modulus: Natural,
}

impl Clone for Point {
    fn clone(&self) -> (r: Point)
        ensures
            r@ == self@,
    {
        Point {
            x_cord: self.x_cord.clone(),
            z_cord: self.z_cord.clone(),
            a_24: self.a_24.clone(),
            modulus: self.modulus.clone(),
        }
    }
}

impl View for Point {
    type V = Pt;

    open spec fn view(&self) -> Pt {
        Pt { x: self.x_cord@ as int, z: self.z_cord@ as int, a24: self.a_24@ as int, n: self.modulus@ as int }
    }
}

/// A point whose values are residues of a positive modulus.
pub open spec fn reduced(p: Pt) -> bool {
    p.n > 0 && 0 <= p.x < p.n && 0 <= p.z < p.n && 0 <= p.a24 < p.n
}

impl Point {
    /// The coordinates and curve constant are residues of a positive
    /// modulus.
    pub open spec fn wf(&self) -> bool {
        reduced(self@)
    }

    /// The point `(x_cord : z_cord)` on the curve given by `a_24`, each value
    /// reduced modulo `modulus`.
    pub fn new(x_cord: Natural, z_cord: Natural, a_24: Natural, modulus: Natural) -> (r: Point)
        requires
            modulus@ > 0,
        ensures
            r.wf(),
            r@ == (Pt {
                x: (x_cord@ % modulus@) as int,
                z: (z_cord@ % modulus@) as int,
                a24: (a_24@ % modulus@) as int,
                n: modulus@ as int,
            }),
    {
        let x = natural::rem(&x_cord, &modulus);
        let z = natural::rem(&z_cord, &modulus);
        let a = natural::rem(&a_24, &modulus);
        Point { x_cord: x, z_cord: z, a_24: a, modulus }
    }

    /// `self + q`, where `diff == self - q`; six multiplications.
    pub fn add(&self, q: &Point, diff: &Point) -> (r: Point)
        requires
            self.wf(),
            q.wf(),
            diff.wf(),
            q@.n == self@.n,
            diff@.n == self@.n,
        ensures
            r.wf(),
            r@ == diff_add(self@, q@, diff@),
    {
        let n = &self.modulus;
        let ghost ni = self@.n;
        let a = natural::sub(&natural::add(&self.x_cord, n), &self.z_cord);
        let b = natural::add(&q.x_cord, &q.z_cord);
        let u = natural::rem(&natural::mul(&a, &b), n);
        let c = natural::add(&self.x_cord, &self.z_cord);
        let e = natural::sub(&natural::add(&q.x_cord, n), &q.z_cord);
        let v = natural::rem(&natural::mul(&c, &e), n);
        let s = natural::add(&u, &v);
        let x = natural::rem(&natural::mul(&diff.z_cord, &natural::mul(&s, &s)), n);
        let t = natural::sub(&natural::add(&u, n), &v);
        let z = natural::rem(&natural::mul(&diff.x_cord, &natural::mul(&t, &t)), n);
        proof {
            let (px, pz, qx, qz) = (self@.x, self@.z, q@.x, q@.z);
            lemma_shift_factor(px - pz, qx + qz, ni);
            lemma_shift_factor(qx - qz, px + pz, ni);
            let w = u@ - v@;
            assert((w + ni) * (w + ni) == w * w + ni * (2 * w + ni)) by (nonlinear_arith);
            assert(diff@.x * (w * w + ni * (2 * w + ni)) == ni * (diff@.x * (2 * w + ni)) + diff@.x * (w * w))
                by (nonlinear_arith);
            lemma_mod_multiples_vanish(diff@.x * (2 * w + ni), diff@.x * (w * w), ni);
        }
        Point { x_cord: x, z_cord: z, a_24: self.a_24.clone(), modulus: self.modulus.clone() }
    }

    /// `2 * self`.
    pub fn double(&self) -> (r: Point)
        requires
            self.wf(),
        ensures
            r.wf(),
            r@ == dbl(self@),
    {
        let n = &self.modulus;
        let ghost ni = self@.n;
        let s = natural::add(&self.x_cord, &self.z_cord);
        let u = natural::rem(&natural::mul(&s, &s), n);
        let t = natural::sub(&natural::add(&self.x_cord, n), &self.z_cord);
        let v = natural::rem(&natural::mul(&t, &t), n);
        let x = natural::rem(&natural::mul(&u, &v), n);
        let d = natural::sub(&natural::add(&u, n), &v);
        let f = natural::add(&v, &natural::mul(&self.a_24, &d));
        let z = natural::rem(&natural::mul(&d, &f), n);
        proof {
            let (px, pz, a) = (self@.x, self@.z, self@.a24);
            let w = px - pz;
            assert((w + ni) * (w + ni) == w * w + ni * (2 * w + ni)) by (nonlinear_arith);
            lemma_mod_multiples_vanish(2 * w + ni, w * w, ni);
            let e = u@ - v@;
            let g = v@ + a * e;
            assert((e + ni) * (v@ + a * (e + ni)) == e * g + ni * (g + a * e + a * ni)) by (nonlinear_arith)
                requires
                    g == v@ + a * e,
            ;
            assert(e * g + ni * (g + a * e + a * ni) == ni * (g + a * e + a * ni) + e * g) by (nonlinear_arith);
            lemma_mod_multiples_vanish(g + a * e + a * ni, e * g, ni);
        }
        Point { x_cord: x, z_cord: z, a_24: self.a_24.clone(), modulus: self.modulus.clone() }
    }

    /// `k * self` by the Montgomery ladder, for `k >= 1`.
    pub fn mont_ladder(&self, k: &Natural) -> (r: Point)
        requires
            self.wf(),
            k@ >= 1,
        ensures
            r.wf(),
            r@ == scalar_mul(self@, k@),
            r@.n == self@.n,
    {
        let len = k.limb_count();
        proof {
            if len == 0 {
                lemma2_to64();
            }
            lemma_pow2_pos(64 * len as nat);
            lemma_basic_div(k@ as int, pow2(64 * len as nat) as int);
        }
        // Find the leading binary digit, at `64 w + b`.
        let mut w: usize = len - 1;
        let mut b: u64 = 63;
        loop
            invariant
                len == k.num_limbs(),
                w < len,
                b < 64,
                k@ >= 1,
                k@ / pow2((64 * w + b + 1) as nat) == 0,
            ensures
                w < len,
                b < 64,
                k@ / pow2((64 * w + b) as nat) == 1,
            decreases 64 * w + b,
        {
            let bit = k.bit_at(w, b);
            proof {
                lemma_next_prefix(k@, (64 * w + b) as nat);
            }
            if bit {
                break;
            }
            if b == 0 {
                if w == 0 {
                    proof {
                        lemma2_to64();
                        assert(k@ / pow2(0) == k@ / 1);
                    }
                }
                w = w - 1;
                b = 63;
            } else {
                b = b - 1;
            }
        }
        let mut q = self.clone();
        let mut r = self.double();
        while w > 0 || b > 0
            invariant
                self.wf(),
                q.wf(),
                r.wf(),
                q@.n == self@.n,
                r@.n == self@.n,
                len == k.num_limbs(),
                w < len,
                b < 64,
                k@ / pow2((64 * w + b) as nat) >= 1,
                (q@, r@) == ladder(self@, k@ / pow2((64 * w + b) as nat)),
            decreases 64 * w + b,
        {
            if b == 0 {
                w = w - 1;
                b = 63;
            } else {
                b = b - 1;
            }
            let bit = k.bit_at(w, b);
            proof {
                lemma_next_prefix(k@, (64 * w + b) as nat);
            }
            if bit {
                q = r.add(&q, self);
                r = r.double();
            } else {
                r = q.add(&r, self);
                q = q.double();
            }
        }
        proof {
            lemma2_to64();
            assert(k@ / pow2((64 * w + b) as nat) == k@ / 1);
        }
        q
    }
}

impl PartialEq for Point {
    /// Two points are equal when they lie on the same curve and have the same
    /// affine X coordinate.
    fn eq(&self, other: &Point) -> (r: bool) {
        if !natural::equal(&self.a_24, &other.a_24) || !natural::equal(&self.modulus, &other.modulus) {
            return false;
        }
        let a = natural::mul(&self.x_cord, &other.z_cord);
        let b = natural::mul(&other.x_cord, &self.z_cord);
        let zero = Natural::from_u64(0);
        if natural::equal(&self.modulus, &zero) {
            natural::equal(&a, &b)
        } else {
            let ra = natural::rem(&a, &self.modulus);
            let rb = natural::rem(&b, &self.modulus);
            natural::equal(&ra, &rb)
        }
    }
}

impl vstd::std_specs::cmp::PartialEqSpecImpl for Point {
    open spec fn obeys_eq_spec() -> bool {
        true
    }

    open spec fn eq_spec(&self, other: &Point) -> bool {
        same_point(self@, other@)
    }
}

/// Every point of the ladder for `p` lies on the curve of `p`.
proof fn lemma_ladder_curve(p: Pt, k: nat)
    ensures
        ladder(p, k).0.a24 == p.a24,
        ladder(p, k).0.n == p.n,
        ladder(p, k).1.a24 == p.a24,
        ladder(p, k).1.n == p.n,
    decreases k,
{
    if k > 1 {
        lemma_ladder_curve(p, k / 2);
    }
}

/// Differential addition does not depend on the order of its two summands.
pub proof fn lemma_diff_add_symmetric(p: Pt, q: Pt, d: Pt)
    requires
        p.a24 == q.a24,
        p.n == q.n,
        p.n > 0,
    ensures
        diff_add(p, q, d) == diff_add(q, p, d),
{
    let n = p.n;
    assert((p.x - p.z) * (q.x + q.z) == (q.x + q.z) * (p.x - p.z)) by (nonlinear_arith);
    assert((p.x + p.z) * (q.x - q.z) == (q.x - q.z) * (p.x + p.z)) by (nonlinear_arith);
    let u = ((p.x - p.z) * (q.x + q.z)) % n;
    let v = ((p.x + p.z) * (q.x - q.z)) % n;
    assert((u - v) * (u - v) == (v - u) * (v - u)) by (nonlinear_arith);
}

/// The second point of the ladder pair is always the next multiple:
/// `ladder(p, k) == (k p, (k + 1) p)`.
pub proof fn lemma_ladder_pair(p: Pt, k: nat)
    requires
        k >= 1,
        p.n > 0,
    ensures
        ladder(p, k).1 == scalar_mul(p, k + 1),
    decreases k,
{
    if k == 1 {
        assert((k + 1) / 2 == 1);
    } else if k % 2 == 0 {
        let m = k / 2;
        lemma_ladder_curve(p, m);
        let (q, r) = ladder(p, m);
        assert((k + 1) / 2 == m);
        lemma_diff_add_symmetric(q, r, p);
    } else {
        let m = k / 2;
        lemma_ladder_pair(p, m);
        assert((k + 1) / 2 == m + 1);
    }
}

/// The ladder multiplies by 1 and by 2 as expected: `1 p == p` and
/// `2 p` is the doubling of `p`.
pub proof fn lemma_ladder_small(p: Pt)
    ensures
        scalar_mul(p, 1) == p,
        scalar_mul(p, 2) == dbl(p),
{
    assert(2nat / 2 == 1);
}

/// Multiples add up: `(2k) p == 2 (k p)` and
/// `(2k + 1) p == (k + 1) p + k p` with difference `p`.
pub proof fn lemma_ladder_sums(p: Pt, k: nat)
    requires
        k >= 1,
        p.n > 0,
    ensures
        scalar_mul(p, 2 * k) == dbl(scalar_mul(p, k)),
        scalar_mul(p, 2 * k + 1) == diff_add(scalar_mul(p, k + 1), scalar_mul(p, k), p),
{
    assert((2 * k) / 2 == k);
    assert((2 * k + 1) / 2 == k);
    lemma_ladder_pair(p, k);
}

/// The prefix of `k` above digit `j` is twice the prefix above `j + 1`,
/// plus digit `j`.
proof fn lemma_next_prefix(k: nat, j: nat)
    ensures
        k / pow2(j + 1) == (k / pow2(j)) / 2,
        k / pow2(j) == 2 * (k / pow2(j + 1)) + (k / pow2(j)) % 2,
{
    lemma_pow2_unfold(j + 1);
    lemma_pow2_pos(j);
    lemma_div_denominator(k as int, pow2(j) as int, 2);
    lemma_fundamental_div_mod((k / pow2(j)) as int, 2);
}

} // verus!
