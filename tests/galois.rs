use qr_generator::galois::{GaloisField, PolyWithinGF};
use qr_generator::int_mod::IntMod;
use qr_generator::polynomial::Polynomial;
use qr_generator::ring::{Field, Ring};

type GF9 = GaloisField<3, 2, 17, 3>;
type GF9Element = PolyWithinGF<3, 2, 17, 3>;
// not the QR prime polynomial
type GF256 = GaloisField<2, 8, 283, 2>;
type Element3 = Polynomial<IntMod<3>>;
type Element2 = Polynomial<IntMod<2>>;

fn poly3(c: &[u32]) -> Element3 {
    Element3::from(c.iter().map(|&x| IntMod::<3>::from(x)).collect::<Vec<IntMod<3>>>())
}

fn poly2(c: &[u32]) -> Element2 {
    Element2::from(c.iter().map(|&x| IntMod::<2>::from(x)).collect::<Vec<IntMod<2>>>())
}

#[test]
fn test_addition_in_GF9() {
    // (x + 2) + (x + 1) = 2x
    let lhs = GF9Element::new(poly3(&[2, 1]));
    let rhs = GF9Element::new(poly3(&[1, 1]));
    let result = GF9Element::new(poly3(&[0, 2]));
    assert_eq!(lhs.add(&rhs), result);
}

#[test]
fn test_multiplication_in_GF9() {
    // (x + 2)(x + 1) = x  (x^2 + 2 reduced by x^2 + 2x + 2)
    let lhs = GF9::make_polynomial(poly3(&[2, 1]));
    let rhs = GF9::make_polynomial(poly3(&[1, 1]));
    let result = GF9::make_polynomial(poly3(&[0, 1]));
    assert_eq!(lhs.mul(&rhs), result);
}

#[test]
fn test_inverse_in_GF256() {
    // inv(x^6 + x^4 + x + 1) = x^7 + x^6 + x^3 + x, prime x^8 + x^4 + x^3 + x + 1
    let test = GF256::make_polynomial(poly2(&[1, 1, 0, 0, 1, 0, 1]));
    let rhs = GF256::make_polynomial(poly2(&[0, 1, 0, 1, 0, 0, 1, 1]));
    assert_eq!(test.inv(), rhs);
}

#[test]
fn test_there_are_eight_nonzero_elements_in_GF9() {
    assert_eq!(GF9::enumerate_nonzero().len(), 8);
}

#[test]
fn test_that_all_elements_starts_with_primitive() {
    assert_eq!(GF9::all_elements().next().unwrap(), GF9::make_polynomial(Element3::one()));
}

#[test]
fn nonzero_elements_are_distinct_powers_of_alpha() {
    let elements = GF9::enumerate_nonzero();
    assert_eq!(elements.len(), (GF9::order() - 1) as usize);
    assert_eq!(elements[0], GF9Element::one());
    for i in 0..elements.len() {
        for j in 0..i {
            assert_ne!(elements[i], elements[j]);
        }
    }
    let alpha = GF9::alpha_poly();
    assert_eq!(elements[elements.len() - 1].mul(&alpha), GF9Element::one());
}

#[test]
fn qr_field_enumerates_255_elements() {
    type QR = GaloisField<2, 8, 285, 2>;
    let elements = QR::enumerate_nonzero();
    assert_eq!(elements.len(), 255);
    assert_eq!(elements[1].value, 2);
    assert_eq!(elements[8].value, 29);
    assert_eq!(elements[254].mul(&QR::alpha_poly()).value, 1);
}

#[test]
fn enumerator_stops_after_returning_to_one() {
    let mut walk = GF9::all_elements();
    let mut count = 0;
    while walk.next().is_some() {
        count += 1;
    }
    assert_eq!(count, 8);
    assert!(walk.next().is_none());
}

#[test]
fn division_and_subtraction_in_gf256() {
    type QR = GaloisField<2, 8, 285, 2>;
    let a = QR::make_polynomial(Element2::from_number(0x53));
    let b = QR::make_polynomial(Element2::from_number(0xCA));
    let q = a.div(&b);
    assert_eq!(q.mul(&b), a);
    assert_eq!(a.sub(&a), PolyWithinGF::zero());
    assert_eq!(a.add(&b).value, 0x53 ^ 0xCA);
    assert_eq!(QR::order(), 256);
    assert_eq!(a.poly(), Element2::from_number(0x53));
    assert_eq!(a.scalar_mul(3), a);
    assert_eq!(a.scalar_mul(2), PolyWithinGF::zero());
}

#[test]
fn reduction_by_the_prime_polynomial() {
    // x^8 = x^4 + x^3 + x^2 + 1 modulo the QR prime polynomial
    type QR = GaloisField<2, 8, 285, 2>;
    let x8 = QR::make_polynomial(Element2::from_number(256));
    assert_eq!(x8.value, 29);
    assert_eq!(QR::prime_poly(), Element2::from_number(285));
}

#[test]
fn every_nonzero_element_of_GF9_times_its_inverse_is_one() {
    for elem in GF9::enumerate_nonzero() {
        assert_eq!(elem.mul(&elem.inv()), GF9Element::one());
    }
    // 2 is its own inverse in F_3
    let two = GF9Element::new(poly3(&[2]));
    assert_eq!(two.inv(), two);
}

#[test]
fn every_nonzero_element_of_GF256_times_its_inverse_is_one() {
    type QR = GaloisField<2, 8, 285, 2>;
    for elem in QR::enumerate_nonzero() {
        assert_eq!(elem.mul(&elem.inv()).value, 1);
    }
}
