use quack::arithmetic::field::MODULUS;
use quack::arithmetic::ModularInteger;

#[test]
fn the_modulus_is_the_largest_prime_below_two_to_the_sixteen() {
    assert_eq!(MODULUS, 65521);
    assert_eq!(ModularInteger::new(7).modulus(), 65521);
    for d in 2..256u32 {
        assert_ne!(65521 % d, 0);
    }
}

#[test]
fn construction_reduces_into_the_field() {
    assert_eq!(ModularInteger::new(0).value(), 0);
    assert_eq!(ModularInteger::new(65520).value(), 65520);
    assert_eq!(ModularInteger::new(65521).value(), 0);
    assert_eq!(ModularInteger::new(65535).value(), 14);
}

#[test]
fn addition_wraps_at_the_modulus() {
    let a = ModularInteger::new(65520);
    let b = ModularInteger::new(2);
    assert_eq!(a + b, 1);
    assert_eq!(ModularInteger::new(40000) + ModularInteger::new(30000), 4479);
}

#[test]
fn subtraction_wraps_below_zero() {
    assert_eq!(ModularInteger::new(1) - ModularInteger::new(2), 65520);
    assert_eq!(ModularInteger::new(500) - ModularInteger::new(499), 1);
    assert_eq!(ModularInteger::new(0) - ModularInteger::new(0), 0);
}

#[test]
fn multiplication_uses_a_wider_intermediate() {
    // 65520 is -1 in the field, so its square is 1.
    assert_eq!(ModularInteger::new(65520) * ModularInteger::new(65520), 1);
    assert_eq!(ModularInteger::new(300) * ModularInteger::new(300), 24479);
    assert_eq!(ModularInteger::new(12345) * ModularInteger::new(0), 0);
}

#[test]
fn negation_of_zero_is_zero() {
    assert_eq!(-ModularInteger::new(0), 0);
    assert_eq!(-ModularInteger::new(1), 65520);
    assert_eq!(-ModularInteger::new(65520), 1);
}

#[test]
fn powers_by_repeated_squaring() {
    assert_eq!(ModularInteger::new(2).pow(0), 1);
    assert_eq!(ModularInteger::new(2).pow(1), 2);
    assert_eq!(ModularInteger::new(2).pow(16), 15);
    assert_eq!(ModularInteger::new(0).pow(0), 1);
    assert_eq!(ModularInteger::new(0).pow(5), 0);
    // Fermat: a^(p-1) = 1 for a nonzero a.
    assert_eq!(ModularInteger::new(12345).pow(65520), 1);
}

#[test]
fn the_inverse_times_the_element_is_one() {
    assert_eq!(ModularInteger::new(1).inv(), 1);
    assert_eq!(ModularInteger::new(2).inv(), 32761);
    for v in [3u16, 255, 256, 4096, 32760, 65519, 65520] {
        let a = ModularInteger::new(v);
        assert_eq!(a * a.inv(), 1);
    }
}

#[test]
fn elements_compare_by_residue() {
    assert_eq!(ModularInteger::new(65522), ModularInteger::new(1));
    assert_ne!(ModularInteger::new(1), ModularInteger::new(2));
    assert!(ModularInteger::new(65521).is_zero());
    assert!(!ModularInteger::new(1).is_zero());
}
