//! The decimal boundary, the random sampler, and the error conditions.

use integer_au::error::ArithError;
use integer_au::integer_au::IntegerAU;

#[test]
fn test_decimal_round_trip() {
    let cases = vec![
        "0",
        "1",
        "9",
        "10",
        "18446744073709551615",
        "18446744073709551616",
        "34893458934589345893458934",
        "57896044618658097711785492504343953926634992332820282019728792003956564819949",
    ];
    for s in cases {
        let x = IntegerAU::from_decimal(s).unwrap();
        assert_eq!(x.to_decimal(), s, "Failed decimal round trip for {}", s);
        let y = IntegerAU::from_decimal(&x.to_decimal()).unwrap();
        assert_eq!(y, x);
    }
}

#[test]
fn test_decimal_leading_zeros() {
    let x = IntegerAU::from_decimal("007").unwrap();
    assert_eq!(x, IntegerAU::from_u64(7));
    assert_eq!(x.to_decimal(), "7");
    let z = IntegerAU::from_decimal("000").unwrap();
    assert_eq!(z.to_decimal(), "0");
}

#[test]
fn test_decimal_parse_error() {
    assert!(matches!(
        IntegerAU::from_decimal(""),
        Err(ArithError::ParseError)
    ));
    assert!(matches!(
        IntegerAU::from_decimal("12a3"),
        Err(ArithError::ParseError)
    ));
    assert!(matches!(
        IntegerAU::from_decimal("-5"),
        Err(ArithError::ParseError)
    ));
    assert!(matches!(
        IntegerAU::from_decimal(" 5"),
        Err(ArithError::ParseError)
    ));
}

#[test]
fn test_error_variants() {
    let small = IntegerAU::from_u64(5);
    let large = IntegerAU::from_u64(10);
    let zero = IntegerAU::from_u64(0);

    assert!(matches!(small.sub(&large), Err(ArithError::Underflow)));
    assert!(matches!(large.div(&zero), Err(ArithError::DivideByZero)));
    assert!(matches!(large.modulo(&zero), Err(ArithError::DivideByZero)));
    assert!(matches!(zero.div(&zero), Err(ArithError::DivideByZero)));
}

#[test]
fn test_random_below_bound() {
    let uppers = vec![
        "1",
        "2",
        "17",
        "18446744073709551616",
        "340282366920938463463374607431768211507",
    ];
    for upper_str in uppers {
        let upper = IntegerAU::from_decimal(upper_str).unwrap();
        for _ in 0..200 {
            let sample = IntegerAU::random_below(&upper);
            assert_eq!(
                sample.cmp(&upper),
                std::cmp::Ordering::Less,
                "sample not below {}",
                upper_str
            );
            assert!(
                sample.bit_len() <= upper.bit_len(),
                "sample has more bits than the bound {}",
                upper_str
            );
        }
    }

    // A bound of one admits only zero.
    let one = IntegerAU::from_u64(1);
    for _ in 0..10 {
        assert_eq!(IntegerAU::random_below(&one), IntegerAU::from_u64(0));
    }
}

#[test]
fn test_canonical_form_outputs() {
    // No operation output keeps a trailing zero limb, except the single
    // limb of zero.
    let a = IntegerAU {
        limbs: vec![1, 0xFFFFFFFFFFFFFFFF],
    };
    let b = IntegerAU {
        limbs: vec![1, 0xFFFFFFFFFFFFFFFF],
    };
    let diff = a.sub(&b).unwrap();
    assert_eq!(diff.limbs, vec![0]);

    let x = IntegerAU::from_u64(3);
    let y = IntegerAU::from_u64(0);
    assert_eq!(x.mul(&y).limbs, vec![0]);

    let t = IntegerAU {
        limbs: vec![5, 7, 0],
    }
    .trim();
    assert_eq!(t.limbs, vec![5, 7]);
    let tz = IntegerAU {
        limbs: vec![0, 0, 0],
    }
    .trim();
    assert_eq!(tz.limbs, vec![0]);
}

#[test]
fn test_bitxor_values() {
    let a = IntegerAU::from_u64(0b1100);
    let b = IntegerAU::from_u64(0b1010);
    assert_eq!(a.bitxor(&b), IntegerAU::from_u64(0b0110));
    let c = IntegerAU {
        limbs: vec![0xFFFFFFFFFFFFFFFF, 1],
    };
    let d = IntegerAU {
        limbs: vec![0xFFFFFFFFFFFFFFFF, 1],
    };
    assert_eq!(c.bitxor(&d).limbs, vec![0]);
}
