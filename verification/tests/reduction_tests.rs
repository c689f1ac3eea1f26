//! Agreement of the three reduction strategies on the benchmark moduli, and
//! the reducers' construction behaviour.

use integer_au::barrett::Barrett;
use integer_au::error::ArithError;
use integer_au::integer_au::IntegerAU;
use integer_au::montgomery::Montgomery;

fn check_reduction_equivalence(prime_str: &str, pairs: usize) {
    let p = IntegerAU::from_decimal(prime_str).unwrap();
    let barrett = Barrett::new(p.clone()).unwrap();
    let montgomery = Montgomery::new(&p).unwrap();

    for _ in 0..pairs {
        let x = IntegerAU::random_below(&p);
        let y = IntegerAU::random_below(&p);
        let product = x.mul(&y);

        let naive = product.modulo(&p).unwrap();
        let reduced_barrett = barrett.reduce(&product);
        let xm = montgomery.to_mont(&x);
        let ym = montgomery.to_mont(&y);
        let t = montgomery.redc(&xm.mul(&ym));
        let reduced_montgomery = montgomery.from_mont(&t);

        assert_eq!(
            naive, reduced_barrett,
            "barrett reduction mismatches naive reduction"
        );
        assert_eq!(
            naive, reduced_montgomery,
            "montgomery reduction mismatches naive reduction"
        );
    }
}

#[test]
fn test_reduction_equivalence_31_bit() {
    check_reduction_equivalence("2013265921", 1000);
}

#[test]
fn test_reduction_equivalence_64_bit() {
    check_reduction_equivalence("18446744069414584321", 1000);
}

#[test]
fn test_reduction_equivalence_127_bit() {
    check_reduction_equivalence("170141183460469231731687303715884105727", 1000);
}

#[test]
fn test_reduction_equivalence_129_bit() {
    check_reduction_equivalence("340282366920938463463374607431768211507", 1000);
}

#[test]
fn test_reduction_equivalence_255_bit() {
    check_reduction_equivalence(
        "57896044618658097711785492504343953926634992332820282019728792003956564819949",
        1000,
    );
}

#[test]
fn test_barrett_reduce_exact_values() {
    let p = IntegerAU::from_u64(7);
    let barrett = Barrett::new(p).unwrap();
    let x = IntegerAU::from_u64(30);
    assert_eq!(barrett.reduce(&x), IntegerAU::from_u64(2));
    let y = IntegerAU::from_u64(6);
    assert_eq!(barrett.reduce(&y), IntegerAU::from_u64(6));
    let z = IntegerAU::from_u64(49);
    assert_eq!(barrett.reduce(&z), IntegerAU::from_u64(0));
}

#[test]
fn test_barrett_new_zero_modulus() {
    let zero = IntegerAU::from_u64(0);
    assert!(matches!(Barrett::new(zero), Err(ArithError::DivideByZero)));
}

#[test]
fn test_montgomery_even_modulus() {
    // Construction over an even modulus has no inverse for R - p mod R.
    for even in [0u64, 2, 6, 1024, 18446744073709551614] {
        let p = IntegerAU::from_u64(even);
        assert!(
            matches!(Montgomery::new(&p), Err(ArithError::NoInverse)),
            "expected NoInverse for modulus {}",
            even
        );
    }
}

#[test]
fn test_montgomery_round_trip_values() {
    let p = IntegerAU::from_u64(97);
    let montgomery = Montgomery::new(&p).unwrap();
    for v in [0u64, 1, 5, 42, 96] {
        let x = IntegerAU::from_u64(v);
        let xm = montgomery.to_mont(&x);
        let back = montgomery.from_mont(&xm);
        assert_eq!(back, x, "Montgomery round trip failed for {}", v);
    }
}

#[test]
fn test_montgomery_reduce_naive() {
    let p = IntegerAU::from_u64(97);
    let montgomery = Montgomery::new(&p).unwrap();
    assert_eq!(
        montgomery.reduce_naive(&IntegerAU::from_u64(200)),
        IntegerAU::from_u64(6)
    );
    assert_eq!(
        montgomery.reduce_naive(&IntegerAU::from_u64(96)),
        IntegerAU::from_u64(96)
    );
    assert_eq!(
        montgomery.reduce_naive(&IntegerAU::from_u64(97)),
        IntegerAU::from_u64(0)
    );
}
