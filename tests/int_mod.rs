use qr_generator::int_mod::IntMod;
use qr_generator::ring::{Field, Ring};

#[test]
fn initialise_above_bounds() {
    let test_int = IntMod::<5>::from(8);
    assert_eq!(test_int.value, 3);

    let test_int = IntMod::<7>::from(18);
    assert_eq!(test_int.value, 4);
}

#[test]
fn addition_within_bounds() {
    let lhs = IntMod::<7>::from(3);
    let rhs = IntMod::<7>::from(2);
    assert_eq!(lhs.add(&rhs).value, 5);
}

#[test]
fn addition_using_refs() {
    let lhs = IntMod::<7>::from(3);
    let rhs = IntMod::<7>::from(2);
    assert_eq!((&lhs).add(&rhs).value, 5);
}

#[test]
fn addition_over_bounds() {
    let lhs = IntMod::<7>::from(3);
    let rhs = IntMod::<7>::from(6);
    assert_eq!(lhs.add(&rhs).value, 2);
}

#[test]
fn subtraction() {
    let lhs = IntMod::<11>::from(3);
    let rhs = IntMod::<11>::from(6);
    assert_eq!(lhs.sub(&rhs).value, 8);
}

#[test]
fn multiplication() {
    let lhs = IntMod::<7>::from(3);
    let rhs = IntMod::<7>::from(5);
    assert_eq!(lhs.mul(&rhs).value, 1);
}

#[test]
fn test_from() {
    let int_mod = IntMod::<5>::from(7);
    assert_eq!(int_mod.to_u32(), 2);
}

#[test]
fn test_inverse() {
    let int_mod = IntMod::<5>::from(4);
    assert_eq!(int_mod.inverse().unwrap(), IntMod::<5>::from(4));
    let int_mod = IntMod::<7>::from(4);
    assert_eq!(int_mod.inverse().unwrap(), IntMod::<7>::from(2));
    let int_mod = IntMod::<7>::from(3);
    assert_eq!(int_mod.inverse().unwrap(), IntMod::<7>::from(5));
}

#[test]
fn every_unit_times_its_inverse_is_one() {
    for a in 1..13u32 {
        let x = IntMod::<13>::from(a);
        let inv = x.inverse().unwrap();
        assert_eq!(x.mul(&inv).value, 1);
    }
}

#[test]
fn adding_then_subtracting_gives_back_the_start() {
    for a in 0..11u32 {
        for b in 0..11u32 {
            let x = IntMod::<11>::from(a);
            let y = IntMod::<11>::from(b);
            assert_eq!(x.add(&y).sub(&y), x);
        }
    }
}

#[test]
fn non_units_have_no_inverse() {
    assert!(IntMod::<12>::from(4).inverse().is_none());
    assert!(IntMod::<7>::from(0).inverse().is_none());
    assert_eq!(IntMod::<12>::from(5).inverse().unwrap().value, 5);
}

#[test]
fn division_multiplies_by_the_inverse() {
    let a = IntMod::<7>::from(3);
    let b = IntMod::<7>::from(5);
    assert_eq!(a.div(&b).value, 2);
}

#[test]
fn remainder_in_a_field_is_zero() {
    assert_eq!(IntMod::<7>::from(3).rem(IntMod::<7>::from(2)).value, 0);
}
