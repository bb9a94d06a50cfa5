//! Arbitrary-precision natural numbers.
//!
//! A `Natural` holds its value as little-endian 64-bit limbs; its meaning is
//! the spec function `limbs_value`. The arithmetic itself is carried out by
//! GMP through `rug::Integer`: each operation converts the limbs, makes one
//! call and converts the result back.
use vstd::prelude::*;
use vstd::arithmetic::power2::pow2;
use vstd::arithmetic::power2::lemma_pow2_adds;
use vstd::arithmetic::power2::lemma2_to64;
use vstd::arithmetic::power2::lemma2_to64_rest;
use vstd::arithmetic::power2::lemma_pow2_pos;
use vstd::arithmetic::div_mod::lemma_div_denominator;
use vstd::arithmetic::div_mod::lemma_hoist_over_denominator;
use vstd::arithmetic::div_mod::lemma_basic_div;
use vstd::arithmetic::div_mod::lemma_mod_multiples_vanish;
use vstd::bits::lemma_u64_shr_is_div;
use rug::integer::IsPrime;
use rug::integer::Order;
use rug::rand::RandState;
use rug::Integer;

verus! {

/// The number of values held by one limb.
pub open spec fn limb_base() -> nat {
    0x1_0000_0000_0000_0000nat
}

/// The value of little-endian limbs.
pub open spec fn limbs_value(s: Seq<u64>) -> nat
    decreases s.len(),
{
    if s.len() == 0 {
        0
    } else {
        s[0] as nat + limb_base() * limbs_value(s.drop_first())
    }
}

/// Little-endian limbs stay below `2^(64 * len)`.
pub proof fn lemma_limbs_value_bound(s: Seq<u64>)
    ensures
        limbs_value(s) < pow2(64 * s.len()),
    decreases s.len(),
{
    if s.len() == 0 {
        lemma2_to64();
    } else {
        let t = s.drop_first();
        lemma_limbs_value_bound(t);
        lemma_pow2_adds(64, 64 * t.len());
        lemma2_to64_rest();
        let v = limbs_value(t);
        let p = pow2(64 * t.len());
        assert(s[0] as nat + limb_base() * v < limb_base() * p) by (nonlinear_arith)
            requires
                (s[0] as nat) < limb_base(),
                v < p,
        ;
        assert(64 * s.len() == 64 + 64 * t.len());
    }
}

/// Binary digit `i` of little-endian limbs is digit `i mod 64` of limb
/// `i / 64`.
pub proof fn lemma_limbs_bit(s: Seq<u64>, i: nat)
    requires
        i < 64 * s.len(),
    ensures
        (limbs_value(s) / pow2(i)) % 2 == (s[(i / 64) as int] as nat / pow2(i % 64)) % 2,
    decreases s.len(),
{
    let t = s.drop_first();
    let v = limbs_value(t);
    let s0 = s[0] as nat;
    lemma2_to64_rest();
    assert(limbs_value(s) == s0 + pow2(64) * v);
    if i >= 64 {
        let j = (i - 64) as nat;
        lemma_pow2_adds(64, j);
        lemma_pow2_pos(j);
        lemma_pow2_pos(64);
        lemma_div_denominator(limbs_value(s) as int, pow2(64) as int, pow2(j) as int);
        lemma_hoist_over_denominator(s0 as int, v as int, pow2(64));
        lemma_basic_div(s0 as int, pow2(64) as int);
        assert(limbs_value(s) / pow2(64) == v);
        lemma_limbs_bit(t, j);
        assert(j / 64 == i / 64 - 1);
        assert(j % 64 == i % 64);
    } else {
        let e = (64 - i) as nat;
        lemma_pow2_adds(i, e);
        lemma_pow2_pos(i);
        lemma_pow2_adds(1, (e - 1) as nat);
        lemma2_to64();
        let c = pow2((e - 1) as nat) * v;
        assert(pow2(64) * v == (2 * c) * pow2(i)) by (nonlinear_arith)
            requires
                pow2(64) == pow2(i) * pow2(e),
                pow2(e) == pow2(1) * pow2((e - 1) as nat),
                pow2(1) == 2,
                c == pow2((e - 1) as nat) * v,
        ;
        lemma_hoist_over_denominator(s0 as int, (2 * c) as int, pow2(i));
        lemma_mod_multiples_vanish(c as int, (s0 / pow2(i)) as int, 2);
        assert(i / 64 == 0);
        assert(i % 64 == i);
    }
}

/// Greatest common divisor, with `gcd(a, 0) == a`.
pub open spec fn gcd(a: nat, b: nat) -> nat
    decreases b,
{
    if b == 0 {
        a
    } else {
        gcd(b, a % b)
    }
}

/// `d` divides `a`.
pub open spec fn divides(d: nat, a: nat) -> bool {
    exists|q: nat| #[trigger] (d * q) == a
}

/// `p` is a prime number.
pub open spec fn is_prime(p: nat) -> bool {
    p >= 2 && forall|d: nat| 2 <= d < p ==> #[trigger] (p % d) != 0
}

/// What GMP's probabilistic primality test answers for `n` with `reps`
/// rounds: `true` for "prime" or "probably prime".
pub uninterp spec fn passes_prime_test(n: nat, reps: nat) -> bool;

#[verifier::external_type_specification]
#[verifier::external_body]
pub struct ExRandState<'a>(RandState<'a>);

/// A natural number of any size.
#[derive(Debug)]
pub struct Natural {
    limbs: Vec<u64>,
}

impl View for Natural {
    type V = nat;

    closed spec fn view(&self) -> nat {
        limbs_value(self.limbs@)
    }
}

impl Clone for Natural {
    fn clone(&self) -> (r: Natural)
        ensures
            r@ == self@,
    {
        let r = Natural { limbs: self.limbs.clone() };
        proof {
            assert(r.limbs@ =~= self.limbs@);
        }
        r
    }
}

impl PartialEq for Natural {
    /// Equality of values.
    fn eq(&self, other: &Natural) -> (r: bool) {
        equal(self, other)
    }
}

impl vstd::std_specs::cmp::PartialEqSpecImpl for Natural {
    open spec fn obeys_eq_spec() -> bool {
        true
    }

    open spec fn eq_spec(&self, other: &Natural) -> bool {
        self@ == other@
    }
}

impl Natural {
    /// The natural number `v`.
    pub fn from_u64(v: u64) -> (r: Natural)
        ensures
            r@ == v as nat,
    {
        let r = Natural { limbs: vec![v] };
        proof {
            reveal_with_fuel(limbs_value, 2);
            assert(r.limbs@.drop_first() =~= Seq::<u64>::empty());
        }
        r
    }

    /// The natural number `v`.
    pub fn from_u128(v: u128) -> (r: Natural)
        ensures
            r@ == v as nat,
    {
        let lo = (v % 0x1_0000_0000_0000_0000u128) as u64;
        let hi = (v / 0x1_0000_0000_0000_0000u128) as u64;
        let r = Natural { limbs: vec![lo, hi] };
        proof {
            reveal_with_fuel(limbs_value, 3);
            assert(r.limbs@.drop_first() =~= seq![hi]);
            assert(r.limbs@.drop_first().drop_first() =~= Seq::<u64>::empty());
            assert(v == lo + 0x1_0000_0000_0000_0000u128 * hi);
        }
        r
    }

    /// The number whose little-endian 64-bit limbs are `limbs`.
    pub fn from_limbs(limbs: Vec<u64>) -> (r: Natural)
        ensures
            r@ == limbs_value(limbs@),
    {
        Natural { limbs }
    }

    /// The little-endian 64-bit limbs of the value.
    pub fn to_limbs(&self) -> (r: Vec<u64>)
        ensures
            limbs_value(r@) == self@,
    {
        let r = self.limbs.clone();
        proof {
            assert(r@ =~= self.limbs@);
        }
        r
    }

    /// The number of limbs; the value is below `2^(64 * limbs)`.
    pub fn limb_count(&self) -> (r: usize)
        ensures
            self@ < pow2(64 * r as nat),
            r == self.num_limbs(),
    {
        proof {
            lemma_limbs_value_bound(self.limbs@);
        }
        self.limbs.len()
    }

    /// The number of limbs.
    pub closed spec fn num_limbs(&self) -> nat {
        self.limbs@.len()
    }

    /// Binary digit `b` of limb `w`: the digit of weight `2^(64 w + b)`.
    pub fn bit_at(&self, w: usize, b: u64) -> (r: bool)
        requires
            w < self.num_limbs(),
            b < 64,
        ensures
            r == ((self@ / pow2((64 * w + b) as nat)) % 2 == 1),
    {
        let limb = self.limbs[w];
        let shifted = limb >> b;
        proof {
            let i = (64 * w + b) as nat;
            assert(i / 64 == w);
            assert(i % 64 == b);
            lemma_limbs_bit(self.limbs@, i);
            lemma_u64_shr_is_div(limb, b);
            assert((shifted & 1) == shifted % 2) by (bit_vector);
        }
        (shifted & 1) == 1
    }

    /// Relies on `rug::Integer::to_u128`: the value when it fits in a `u128`.
    #[verifier::external_body]
    pub fn to_u128(&self) -> (r: Option<u128>)
        ensures
            r == (if self@ < 0x1_0000_0000_0000_0000_0000_0000_0000_0000nat {
                Some(self@ as u128)
            } else {
                None
            }),
    {
        Integer::from_digits(&self.limbs[..], Order::Lsf).to_u128()
    }
}

/// Relies on `Integer + Integer`.
#[verifier::external_body]
pub(crate) fn add(a: &Natural, b: &Natural) -> (r: Natural)
    ensures
        r@ == a@ + b@,
{
    let s = Integer::from_digits(&a.limbs[..], Order::Lsf) + Integer::from_digits(&b.limbs[..], Order::Lsf);
    Natural { limbs: s.to_digits::<u64>(Order::Lsf) }
}

/// Relies on `Integer - Integer`.
#[verifier::external_body]
pub(crate) fn sub(a: &Natural, b: &Natural) -> (r: Natural)
    requires
        b@ <= a@,
    ensures
        r@ == a@ - b@,
{
    let s = Integer::from_digits(&a.limbs[..], Order::Lsf) - Integer::from_digits(&b.limbs[..], Order::Lsf);
    Natural { limbs: s.to_digits::<u64>(Order::Lsf) }
}

/// Relies on `Integer * Integer`.
#[verifier::external_body]
pub(crate) fn mul(a: &Natural, b: &Natural) -> (r: Natural)
    ensures
        r@ == a@ * b@,
{
    let s = Integer::from_digits(&a.limbs[..], Order::Lsf) * Integer::from_digits(&b.limbs[..], Order::Lsf);
    Natural { limbs: s.to_digits::<u64>(Order::Lsf) }
}

/// Relies on `Integer / Integer`, which rounds towards zero.
#[verifier::external_body]
pub(crate) fn div(a: &Natural, b: &Natural) -> (r: Natural)
    requires
        b@ > 0,
    ensures
        r@ == a@ / b@,
{
    let s = Integer::from_digits(&a.limbs[..], Order::Lsf) / Integer::from_digits(&b.limbs[..], Order::Lsf);
    Natural { limbs: s.to_digits::<u64>(Order::Lsf) }
}

/// Relies on `Integer % Integer`, whose sign is that of the dividend.
#[verifier::external_body]
pub(crate) fn rem(a: &Natural, b: &Natural) -> (r: Natural)
    requires
        b@ > 0,
    ensures
        r@ == a@ % b@,
{
    let s = Integer::from_digits(&a.limbs[..], Order::Lsf) % Integer::from_digits(&b.limbs[..], Order::Lsf);
    Natural { limbs: s.to_digits::<u64>(Order::Lsf) }
}

/// Relies on `Integer::gcd`; the gcd of 0 and 0 is 0.
#[verifier::external_body]
pub(crate) fn gcd_of(a: &Natural, b: &Natural) -> (r: Natural)
    ensures
        r@ == gcd(a@, b@),
{
    let s = Integer::from_digits(&a.limbs[..], Order::Lsf).gcd(&Integer::from_digits(&b.limbs[..], Order::Lsf));
    Natural { limbs: s.to_digits::<u64>(Order::Lsf) }
}

/// Relies on `Integer::invert`: an inverse exists exactly when the modulus
/// is not zero and the gcd is 1.
#[verifier::external_body]
pub(crate) fn invert(a: &Natural, m: &Natural) -> (r: Option<Natural>)
    requires
        m@ > 1,
    ensures
        r is Some <==> gcd(a@, m@) == 1,
        r matches Some(i) ==> i@ < m@ && (a@ * i@) % m@ == 1,
{
    match Integer::from_digits(&a.limbs[..], Order::Lsf).invert(&Integer::from_digits(&m.limbs[..], Order::Lsf)) {
        Ok(i) => Some(Natural { limbs: i.to_digits::<u64>(Order::Lsf) }),
        Err(_) => None,
    }
}

/// Relies on `Integer == Integer`.
#[verifier::external_body]
pub(crate) fn equal(a: &Natural, b: &Natural) -> (r: bool)
    ensures
        r == (a@ == b@),
{
    Integer::from_digits(&a.limbs[..], Order::Lsf) == Integer::from_digits(&b.limbs[..], Order::Lsf)
}

/// Relies on `Integer < Integer`.
#[verifier::external_body]
pub(crate) fn less(a: &Natural, b: &Natural) -> (r: bool)
    ensures
        r == (a@ < b@),
{
    Integer::from_digits(&a.limbs[..], Order::Lsf) < Integer::from_digits(&b.limbs[..], Order::Lsf)
}

/// The number of decimal digits of `v` (1 for 0).
pub open spec fn decimal_len(v: nat) -> nat
    decreases v,
{
    if v < 10 {
        1
    } else {
        1 + decimal_len(v / 10)
    }
}

/// Relies on `Integer::to_string_radix(10)`, which writes the digits of a
/// non-negative value without sign or leading zeros.
#[verifier::external_body]
pub(crate) fn decimal_digits(a: &Natural) -> (r: usize)
    ensures
        r == decimal_len(a@),
{
    Integer::from_digits(&a.limbs[..], Order::Lsf).to_string_radix(10).len()
}

/// Relies on `RandState::new`: GMP's default generator.
#[verifier::external_body]
pub(crate) fn new_rand_state() -> (r: RandState<'static>) {
    RandState::new()
}

/// Relies on `RandState::seed`.
#[verifier::external_body]
pub(crate) fn seed_rand_state(rng: &mut RandState<'static>, seed: usize) {
    rng.seed(&Integer::from(seed))
}

/// Relies on `Integer::is_probably_prime`, which never answers "no" for a
/// prime; it passes `reps` on as a C `int`.
#[verifier::external_body]
pub(crate) fn is_probably_prime(a: &Natural, reps: u32) -> (r: bool)
    requires
        reps <= 0x7fff_ffff,
    ensures
        r == passes_prime_test(a@, reps as nat),
        is_prime(a@) ==> r,
{
    match Integer::from_digits(&a.limbs[..], Order::Lsf).is_probably_prime(reps) {
        IsPrime::No => false,
        IsPrime::Probably => true,
        IsPrime::Yes => true,
    }
}

/// Relies on `Integer::random_below`: a value drawn below `bound`.
#[verifier::external_body]
pub(crate) fn random_below(bound: &Natural, rng: &mut RandState<'_>) -> (r: Natural)
    requires
        bound@ > 0,
    ensures
        r@ < bound@,
{
    let s = Integer::from_digits(&bound.limbs[..], Order::Lsf).random_below(rng);
    Natural { limbs: s.to_digits::<u64>(Order::Lsf) }
}

} // verus!
