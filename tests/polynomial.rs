use qr_generator::int_mod::IntMod;
use qr_generator::polynomial::Polynomial;
use qr_generator::ring::Ring;

type IM2 = IntMod<2>;
type IM3 = IntMod<3>;
type IM929 = IntMod<929>;

#[test]
fn addition_when_coeffs_are_integer() {
    // (x^2 + 2x + 3) + (2x^3 + 4x^2 + 5) = (2x^3 + 5x^2 + 2x + 8)
    let lhs = Polynomial::<u32> { coefficients: vec![3, 2, 1] };
    let rhs = Polynomial::<u32> { coefficients: vec![5, 0, 4, 2] };
    let sum = Polynomial::<u32> { coefficients: vec![8, 2, 5, 2] };
    assert_eq!(lhs.add(&rhs), sum);
}

#[test]
fn addition_when_coeffs_are_mod_2() {
    // (x^2 + x + 1) + (x^3 + x^2 + x) = (x^3 + 1)
    let lhs = Polynomial::<IM2> { coefficients: vec![IM2::from(1), IM2::from(1), IM2::from(1)] };
    let rhs = Polynomial::<IM2> { coefficients: vec![IM2::from(0), IM2::from(1), IM2::from(1), IM2::from(1)] };
    let sum = Polynomial::<IM2> { coefficients: vec![IM2::from(1), IM2::from(0), IM2::from(0), IM2::from(1)] };
    assert_eq!(lhs.add(&rhs), sum);
}

#[test]
fn scalar_multiplication_over_integer() {
    // (2x^2 + 3x + 4) * 7 = (14x^2 + 21x + 28)
    let lhs = Polynomial::<u32> { coefficients: vec![4, 3, 2] };
    let product = Polynomial::<u32> { coefficients: vec![28, 21, 14] };
    assert_eq!(lhs.scale(&7), product);
}

#[test]
fn scalar_multiplication_over_mod_3() {
    // (x^2 + 2x + 1) * 2 = (2x^2 + x + 2)
    let lhs = Polynomial::<IM3> { coefficients: vec![IM3::from(1), IM3::from(2), IM3::from(1)] };
    let product = Polynomial::<IM3> { coefficients: vec![IM3::from(2), IM3::from(1), IM3::from(2)] };
    assert_eq!(lhs.scale(&IM3::from(2)), product);
}

#[test]
fn multiplication_by_x() {
    // (3x^3 + 8x + 2) * x = (3x^4 + 8x^2 + 2x)
    let lhs = Polynomial::<u32> { coefficients: vec![2, 8, 0, 3] };
    let rhs = Polynomial::<u32> { coefficients: vec![0, 1] };
    let product = Polynomial::<u32> { coefficients: vec![0, 2, 8, 0, 3] };
    assert_eq!(lhs.mul(&rhs), product);
}

#[test]
fn multiplication_by_scalar_polynomial() {
    // (3x^3 + 8x + 2) * 2 = (6x^3 + 16x + 4)
    let lhs = Polynomial::<u32> { coefficients: vec![2, 8, 0, 3] };
    let rhs = Polynomial::<u32> { coefficients: vec![2] };
    let product = Polynomial::<u32> { coefficients: vec![4, 16, 0, 6] };
    assert_eq!(lhs.mul(&rhs), product);
}

#[test]
fn multiplication_by_complex_poly() {
    // (x^2 + 2x - 1) * (2x^2 - 3x + 6) = (2x^4 + x^3 - 2x^2 + 15x - 6)
    let lhs = Polynomial::<i64> { coefficients: vec![-1, 2, 1] };
    let rhs = Polynomial::<i64> { coefficients: vec![6, -3, 2] };
    let product = Polynomial::<i64> { coefficients: vec![-6, 15, -2, 1, 2] };
    assert_eq!(lhs.mul(&rhs), product);
}

#[test]
fn full_division() {
    // (x^3 - 2x^2 - 4) / (x - 3) = (x^2 + x + 3), rem 5
    let top = Polynomial::<i64> { coefficients: vec![-4, 0, -2, 1] };
    let bot = Polynomial::<i64> { coefficients: vec![-3, 1] };
    let quot = Polynomial::<i64> { coefficients: vec![3, 1, 1] };
    let rem = Polynomial::<i64> { coefficients: vec![5] };
    assert_eq!(top.full_divide(&bot), (quot, rem));
}

#[test]
fn modulus_within_modulus_929_reed_solomon_example() {
    // (3x^6 + 2x^5 + x^4) % (x - 3)(x - 3^2)(x - 3^3)(x - 3^4) = 547x^3 + 738x^2 + 442x + 455
    let lhs = Polynomial::<IM929> {
        coefficients: [0, 0, 0, 0, 1, 2, 3].iter().map(|&c| IM929::from(c)).collect(),
    };
    let zero = IM929::from(0);
    let one = IM929::from(1);
    let three = IM929::from(3);
    let nine = three.mul(&three);
    let twenty_seven = nine.mul(&three);
    let eighty_one = twenty_seven.mul(&three);
    let factors = [
        vec![zero.sub(&three), one],
        vec![zero.sub(&nine), one],
        vec![zero.sub(&twenty_seven), one],
        vec![zero.sub(&eighty_one), one],
    ];
    let mut rhs = Polynomial::<IM929> { coefficients: factors[0].clone() };
    for f in factors.iter().skip(1) {
        rhs = rhs.mul(&Polynomial::<IM929> { coefficients: f.clone() });
    }
    let result = Polynomial::<IM929> {
        coefficients: [455, 442, 738, 547].iter().map(|&c| IM929::from(c)).collect(),
    };
    assert_eq!(lhs.full_divide(&rhs).1, result);
}

#[test]
fn convert_byte_to_8_bit_polynomial() {
    // 173 = 10101101
    let test = Polynomial::<IM2>::from_number(173);
    let zero = IM2::from(0);
    let one = IM2::from(1);
    let expected = Polynomial::<IM2>::from(vec![one, zero, one, one, zero, one, zero, one]);
    assert_eq!(test, expected);
}

#[test]
fn convert_8_bit_polynomial_to_byte() {
    // 173 = 10101101
    let zero = IM2::from(0);
    let one = IM2::from(1);
    let test = Polynomial::<IM2>::from(vec![one, zero, one, one, zero, one, zero, one]);
    assert_eq!(test.to_number(), 173);
}

#[test]
fn addition_is_commutative_and_associative_with_zero_identity() {
    let a = Polynomial::<IM3> { coefficients: vec![IM3::from(1), IM3::from(2)] };
    let b = Polynomial::<IM3> { coefficients: vec![IM3::from(2), IM3::from(1), IM3::from(1)] };
    let c = Polynomial::<IM3> { coefficients: vec![IM3::from(0), IM3::from(0), IM3::from(2)] };
    assert_eq!(a.add(&b), b.add(&a));
    assert_eq!(a.add(&b).add(&c), a.add(&b.add(&c)));
    assert_eq!(a.add(&Polynomial::zero()), a);
    assert_eq!(Polynomial::zero().add(&a), a);
    // the x^1 terms cancel: (1 + 2x) + (2 + x + x^2) = x^2
    assert_eq!(a.add(&b), Polynomial::<IM3> { coefficients: vec![IM3::from(0), IM3::from(0), IM3::from(1)] });
}

#[test]
fn sum_is_trimmed() {
    let a = Polynomial::<IM3> { coefficients: vec![IM3::from(1), IM3::from(2)] };
    let b = Polynomial::<IM3> { coefficients: vec![IM3::from(1), IM3::from(1)] };
    assert_eq!(a.add(&b), Polynomial::<IM3> { coefficients: vec![IM3::from(2)] });
    assert_eq!(a.sub(&a), Polynomial::zero());
}

#[test]
fn division_identity_and_remainder_degree() {
    type IM7 = IntMod<7>;
    let a = Polynomial::<IM7> { coefficients: [3, 0, 5, 1, 6].iter().map(|&c| IM7::from(c)).collect() };
    let b = Polynomial::<IM7> { coefficients: [2, 3, 4].iter().map(|&c| IM7::from(c)).collect() };
    let (q, r) = a.full_divide(&b);
    assert!(r.degree() < b.degree());
    assert_eq!(q.mul(&b).add(&r), a);
}

#[test]
fn evaluation_by_horner() {
    let p = Polynomial::<u32> { coefficients: vec![1, 2, 3] };
    assert_eq!(p.evaluate(&2), 17);
    assert_eq!(Polynomial::<u32>::zero().evaluate(&5), 0);
}

#[test]
fn zero_one_and_their_tests() {
    let mut p = Polynomial::<u32>::one();
    assert!(p.is_one());
    assert!(!p.is_zero());
    p.set_zero();
    assert!(p.is_zero());
    p.set_one();
    assert_eq!(p, Polynomial::<u32> { coefficients: vec![1] });
    let mut q = Polynomial::<u32> { coefficients: vec![4, 0, 0] };
    q.reduce();
    assert_eq!(q.degree(), 1);
    assert!(Polynomial::<u32> { coefficients: vec![0, 0] }.is_zero());
}
