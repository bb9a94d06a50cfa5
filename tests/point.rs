use ecm::natural::Natural;
use ecm::point::Point;
use rug::Integer;

fn num(v: u64) -> Natural {
    Natural::from_u64(v)
}

fn pt(x: u64, z: u64, a_24: u64, modulus: u64) -> Point {
    Point::new(num(x), num(z), num(a_24), num(modulus))
}

#[test]
fn test_point_add() {
    let p1 = pt(11, 16, 7, 29);
    let p2 = pt(13, 10, 7, 29);
    let p3 = p2.add(&p1, &p1);

    assert_eq!(p3.x_cord, num(23));
    assert_eq!(p3.z_cord, num(17));
}

#[test]
fn test_point_double() {
    let p1 = pt(11, 16, 7, 29);
    let p2 = p1.double();

    assert_eq!(p2.x_cord, num(13));
    assert_eq!(p2.z_cord, num(10));
}

#[test]
fn test_point_mont_ladder() {
    let p1 = pt(11, 16, 7, 29);
    let p3 = p1.mont_ladder(&num(3));

    assert_eq!(p3.x_cord, num(23));
    assert_eq!(p3.z_cord, num(17));
}

fn a_24_mod_101() -> u64 {
    let modulus = Integer::from(101);
    let a = Integer::from(10);
    let a_24: Integer = (a + Integer::from(2)) * Integer::from(4).invert(&modulus).unwrap();
    a_24.to_u64().unwrap()
}

#[test]
fn test_point() {
    let a_24 = a_24_mod_101();
    let p = |x: u64, z: u64| pt(x, z, a_24, 101);

    let p1 = p(10, 17);
    let p2 = p1.double();
    assert_eq!(p2, p(68, 56));
    let p4 = p2.double();
    assert_eq!(p4, p(22, 64));
    let p8 = p4.double();
    assert_eq!(p8, p(71, 95));
    let p16 = p8.double();
    assert_eq!(p16, p(5, 16));
    let p32 = p16.double();
    assert_eq!(p32, p(33, 96));

    // p3 = p2 + p1
    let p3 = p2.add(&p1, &p1);
    assert_eq!(p3, p(1, 61));
    // p5 = p3 + p2 or p4 + p1
    let p5 = p3.add(&p2, &p1);
    assert_eq!(p5, p(49, 90));
    assert_eq!(p5, p4.add(&p1, &p3));
    // p6 = 2*p3
    let p6 = p3.double();
    assert_eq!(p6, p(87, 43));
    assert_eq!(p6, p4.add(&p2, &p2));
    // p7 = p5 + p2
    let p7 = p5.add(&p2, &p3);
    assert_eq!(p7, p(69, 23));
    assert_eq!(p7, p4.add(&p3, &p1));
    assert_eq!(p7, p6.add(&p1, &p5));
    // p9 = p5 + p4
    let p9 = p5.add(&p4, &p1);
    assert_eq!(p9, p(56, 99));
    assert_eq!(p9, p6.add(&p3, &p3));
    assert_eq!(p9, p7.add(&p2, &p5));
    assert_eq!(p9, p8.add(&p1, &p7));

    assert_eq!(p5, p1.mont_ladder(&num(5)));
    assert_eq!(p9, p1.mont_ladder(&num(9)));
    assert_eq!(p16, p1.mont_ladder(&num(16)));
    assert_eq!(p9, p3.mont_ladder(&num(3)));
}

#[test]
fn ladder_of_one_is_the_point() {
    let p1 = pt(10, 17, a_24_mod_101(), 101);
    let q = p1.mont_ladder(&num(1));
    assert_eq!(q.x_cord, num(10));
    assert_eq!(q.z_cord, num(17));
}

#[test]
fn ladder_of_two_is_the_double() {
    let p1 = pt(10, 17, a_24_mod_101(), 101);
    let d = p1.double();
    let l = p1.mont_ladder(&num(2));
    assert_eq!(l.x_cord, d.x_cord);
    assert_eq!(l.z_cord, d.z_cord);
}

#[test]
fn ladder_multiples_add_up() {
    let p1 = pt(10, 17, a_24_mod_101(), 101);
    for k in 1u64..12 {
        let pk = p1.mont_ladder(&num(k));
        let pk1 = p1.mont_ladder(&num(k + 1));
        let even = p1.mont_ladder(&num(2 * k));
        let odd = p1.mont_ladder(&num(2 * k + 1));
        let dk = pk.double();
        assert_eq!(even.x_cord, dk.x_cord);
        assert_eq!(even.z_cord, dk.z_cord);
        let s = pk1.add(&pk, &p1);
        assert_eq!(odd.x_cord, s.x_cord);
        assert_eq!(odd.z_cord, s.z_cord);
    }
}

#[test]
fn new_reduces_coordinates() {
    let p = pt(40, 45, 36, 29);
    assert_eq!(p.x_cord, num(11));
    assert_eq!(p.z_cord, num(16));
    assert_eq!(p.a_24, num(7));
}

#[test]
fn points_on_other_curves_differ() {
    let p = pt(10, 17, 3, 101);
    let q = pt(10, 17, 4, 101);
    assert_ne!(p, q);
    let r = pt(20, 34, 3, 101);
    assert_eq!(p, r);
}
