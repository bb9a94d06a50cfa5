use ecm::ecm::ecm;
use ecm::ecm::ecm_one_factor;
use ecm::ecm::ecm_with_params;
use ecm::ecm::optimal_b1;
use ecm::ecm::trial_division;
use ecm::ecm::group_factors;
use ecm::ecm::suyama;
use ecm::ecm::Error;
use ecm::natural::Natural;
use rug::rand::RandState;
use std::collections::HashMap;

fn big(v: u128) -> Natural {
    Natural::from_u128(v)
}

fn as_map(fs: Vec<(Natural, usize)>) -> HashMap<u128, usize> {
    fs.into_iter().map(|(p, e)| (p.to_u128().unwrap(), e)).collect()
}

fn factor(v: u128) -> HashMap<u128, usize> {
    as_map(ecm(&big(v)).unwrap())
}

#[test]
fn sympy_1() {
    assert_eq!(
        factor(398883434337287),
        HashMap::from([(99476569, 1), (4009823, 1)])
    );
}

#[test]
fn sympy_2() {
    assert_eq!(
        factor(46167045131415113),
        HashMap::from([(43, 1), (2634823, 1), (407485517, 1)])
    );
}

#[test]
fn sympy_3() {
    assert_eq!(
        factor(64211816600515193),
        HashMap::from([(281719, 1), (359641, 1), (633767, 1)])
    );
}

#[test]
fn sympy_4() {
    assert_eq!(
        factor(168541512131094651323),
        HashMap::from([(79, 1), (113, 1), (11011069, 1), (1714635721, 1)])
    );
}

#[test]
fn sympy_5() {
    assert_eq!(
        factor(631211032315670776841),
        HashMap::from([(9312934919, 1), (67777885039, 1)])
    );
}

#[test]
fn sympy_6() {
    assert_eq!(
        factor(4132846513818654136451),
        HashMap::from([(47, 1), (160343, 1), (2802377, 1), (195692803, 1)])
    );
}

#[test]
fn sympy_7() {
    assert_eq!(
        factor(4516511326451341281684513),
        HashMap::from([(3, 2), (39869, 1), (131743543, 1), (95542348571, 1)])
    );
}

#[test]
fn sympy_9() {
    assert_eq!(
        factor(4269021180054189416198169786894227),
        HashMap::from([
            (184039, 1),
            (241603, 1),
            (333331, 1),
            (477973, 1),
            (618619, 1),
            (974123, 1),
        ])
    );
}

#[test]
fn same_factors() {
    assert_eq!(factor(7853316850129), HashMap::from([(2802377, 2)]));
}

#[test]
fn small_prime() {
    assert_eq!(factor(17), HashMap::from([(17, 1)]));
}

#[test]
fn big_prime() {
    assert_eq!(
        factor(21472883178031195225853317139),
        HashMap::from([(21472883178031195225853317139, 1)])
    );
}

#[test]
fn one_has_no_factors() {
    assert_eq!(factor(1), HashMap::new());
}

#[test]
fn factors_multiply_back() {
    let n: u128 = 2 * 2 * 2 * 3 * 3 * 1299709 * 1299721;
    let fs = factor(n);
    let mut prod: u128 = 1;
    for (p, e) in &fs {
        prod *= p.pow(*e as u32);
    }
    assert_eq!(prod, n);
    assert_eq!(fs, HashMap::from([(2, 3), (3, 2), (1299709, 1), (1299721, 1)]));
}

#[test]
fn same_seed_same_result() {
    let n = big(398883434337287);
    let a = as_map(ecm_with_params(&n, 2000, 100000, 200, 77).unwrap());
    let b = as_map(ecm_with_params(&n, 2000, 100000, 200, 77).unwrap());
    assert_eq!(a, b);
}

#[test]
fn odd_bounds_are_rejected() {
    let mut rng = RandState::new();
    let n = big(398883434337287);
    assert_eq!(ecm_one_factor(&n, 2001, 100000, 10, &mut rng), Err(Error::BoundsNotEven));
    assert_eq!(ecm_one_factor(&n, 2000, 100001, 10, &mut rng), Err(Error::BoundsNotEven));
    assert_eq!(ecm_with_params(&n, 2001, 100000, 10, 1), Err(Error::BoundsNotEven));
}

#[test]
fn prime_is_signalled() {
    let mut rng = RandState::new();
    assert_eq!(ecm_one_factor(&big(99476569), 2000, 100000, 10, &mut rng), Err(Error::NumberIsPrime));
    assert_eq!(ecm_one_factor(&big(2), 2000, 100000, 10, &mut rng), Err(Error::NumberIsPrime));
}

#[test]
fn small_bounds_are_rejected() {
    let mut rng = RandState::new();
    let n = big(398883434337287);
    // floor(sqrt(2)) < 2
    assert_eq!(ecm_one_factor(&n, 2000, 2, 10, &mut rng), Err(Error::BoundsTooSmall));
    // B1 - 1 = 599 is below 2 floor(sqrt(100000)) = 632
    assert_eq!(ecm_one_factor(&n, 600, 100000, 10, &mut rng), Err(Error::BoundsTooSmall));
    assert_eq!(ecm_with_params(&n, 600, 100000, 10, 1), Err(Error::BoundsTooSmall));
}

#[test]
fn no_curves_no_factor() {
    let mut rng = RandState::new();
    let n = big(398883434337287);
    assert_eq!(ecm_one_factor(&n, 2000, 100000, 0, &mut rng), Err(Error::ECMFailed));
}

#[test]
fn one_factor_divides() {
    let mut rng = RandState::new();
    rng.seed(&rug::Integer::from(1234));
    let n: u128 = 398883434337287;
    let f = ecm_one_factor(&big(n), 2000, 100000, 200, &mut rng).unwrap().to_u128().unwrap();
    assert!(f == 4009823 || f == 99476569);
}

#[test]
fn b1_table() {
    assert_eq!(optimal_b1(1), 2000);
    assert_eq!(optimal_b1(15), 2000);
    assert_eq!(optimal_b1(16), 11000);
    assert_eq!(optimal_b1(25), 50000);
    assert_eq!(optimal_b1(26), 250000);
    assert_eq!(optimal_b1(35), 1000000);
    assert_eq!(optimal_b1(40), 3000000);
    assert_eq!(optimal_b1(45), 11000000);
    assert_eq!(optimal_b1(50), 44000000);
    assert_eq!(optimal_b1(55), 110000000);
    assert_eq!(optimal_b1(60), 260000000);
    assert_eq!(optimal_b1(65), 850000000);
    assert_eq!(optimal_b1(66), 2900000000);
    assert_eq!(optimal_b1(100), 2900000000);
}

#[test]
fn trial_division_peels_small_primes() {
    let (found, rest) = trial_division(&big(2 * 2 * 7 * 1299709 * 1299721));
    let found: Vec<u128> = found.into_iter().map(|p| p.to_u128().unwrap()).collect();
    assert_eq!(found, vec![2, 2, 7, 1299709]);
    assert_eq!(rest.to_u128(), Some(1299721));
}

#[test]
fn trial_division_leaves_no_small_factor() {
    let n: u128 = 3 * 3 * 3 * 1299709 * 1299709 * 1299721;
    let (found, rest) = trial_division(&big(n));
    assert_eq!(found.len(), 5);
    let r = rest.to_u128().unwrap();
    assert_eq!(r, 1299721);
    for p in [2u128, 3, 5, 7, 1299709] {
        assert_ne!(r % p, 0);
    }
}

#[test]
fn smooth_number_is_factored_without_curves() {
    let n: u128 = 2u128.pow(20) * 3u128.pow(7) * 1299709;
    // odd bounds: no curve search is needed, so they are never looked at
    let fs = as_map(ecm_with_params(&big(n), 2001, 100001, 0, 1).unwrap());
    assert_eq!(fs, HashMap::from([(2, 20), (3, 7), (1299709, 1)]));
}

#[test]
fn lone_residual_with_odd_bounds() {
    let n: u128 = 1299721 * 1299743;
    assert_eq!(ecm_with_params(&big(n), 2000, 100001, 10, 1), Err(Error::BoundsNotEven));
}

#[test]
fn grouping_counts_repeats() {
    let fs = group_factors(&vec![big(3), big(5), big(3), big(3)]);
    let pairs: Vec<(u128, usize)> = fs.into_iter().map(|(p, e)| (p.to_u128().unwrap(), e)).collect();
    assert_eq!(pairs, vec![(3, 3), (5, 1)]);
}

#[test]
fn suyama_setup_on_small_modulus() {
    // sigma = 6 modulo 101: u = 31, v = 24, u^3 = 97, v^3 = 88
    let p = suyama(&big(101), &big(6)).ok().unwrap();
    assert_eq!(p.x_cord.to_u128(), Some(97));
    assert_eq!(p.z_cord.to_u128(), Some(88));
    // c = (v - u)^3 (4u + v) / (4 u^3 v) - 2 = 5 and a24 = (c + 2) / 4 = 27
    assert_eq!(p.a_24.to_u128(), Some(27));
    assert_eq!(p.modulus.to_u128(), Some(101));
}

#[test]
fn suyama_degenerate_sigma_gives_gcd() {
    // sigma = 0: v = 0, so 4 u^3 v = 0 and its gcd with n is n itself
    let g = suyama(&big(91), &big(0)).err().unwrap();
    assert_eq!(g.to_u128(), Some(91));
}
