//! Tests of the integer engine against num-bigint as an independent
//! arbitrary-precision reference, plus fixed limb-level cases.

use integer_au::error::ArithError;
use integer_au::integer_au::IntegerAU;
use num_bigint::BigUint;
use rand::RngExt;
use std::str::FromStr;

fn from_big(v: &BigUint) -> IntegerAU {
    IntegerAU::from_decimal(&v.to_string()).unwrap()
}

fn to_big(v: &IntegerAU) -> BigUint {
    BigUint::from_str(&v.to_decimal()).unwrap()
}

#[test]
fn test_addition() {
    let test_cases = vec![
        // Small numbers
        ("0", "0"),
        ("1", "1"),
        ("42", "58"),
        // Numbers that require carrying
        ("18446744073709551615", "1"),
        ("18446744073709551615", "2"),
        // Large numbers
        ("34893458934589345893458934", "89345893458934589345893458"),
        // Powers of 2
        ("18446744073709551616", "18446744073709551616"),
    ];

    for (a_str, b_str) in test_cases {
        let a_big = BigUint::from_str(a_str).unwrap();
        let b_big = BigUint::from_str(b_str).unwrap();
        let expected = &a_big + &b_big;

        let a = from_big(&a_big);
        let b = from_big(&b_big);
        let result = a.add(&b);

        assert_eq!(
            to_big(&result),
            expected,
            "Failed addition test: {} + {}",
            a_str,
            b_str
        );
    }
}

#[test]
fn test_subtraction() {
    let test_cases = vec![
        ("1", "1"),
        ("42", "12"),
        ("100", "1"),
        ("18446744073709551616", "1"),
        ("18446744073709551616", "18446744073709551615"),
        ("89345893458934589345893458", "34893458934589345893458934"),
    ];

    for (a_str, b_str) in test_cases {
        let a_big = BigUint::from_str(a_str).unwrap();
        let b_big = BigUint::from_str(b_str).unwrap();

        if a_big >= b_big {
            let expected = &a_big - &b_big;

            let a = from_big(&a_big);
            let b = from_big(&b_big);
            let result = a.sub(&b).unwrap();

            assert_eq!(
                to_big(&result),
                expected,
                "Failed subtraction test: {} - {}",
                a_str,
                b_str
            );
        }
    }
}

#[test]
#[should_panic]
fn test_subtraction_underflow() {
    let a = IntegerAU { limbs: vec![5] };
    let b = IntegerAU { limbs: vec![10] };
    let _ = a.sub(&b).unwrap();
}

#[test]
fn test_multiplication() {
    let test_cases = vec![
        ("0", "0"),
        ("1", "1"),
        ("42", "58"),
        ("18446744073709551616", "2"),
        ("18446744073709551615", "18446744073709551615"),
        ("34893458934589345893458934", "2"),
        ("34893458934589345893458934", "89345893458934589345893458"),
    ];

    for (a_str, b_str) in test_cases {
        let a_big = BigUint::from_str(a_str).unwrap();
        let b_big = BigUint::from_str(b_str).unwrap();
        let expected = &a_big * &b_big;

        let a = from_big(&a_big);
        let b = from_big(&b_big);
        let result = a.mul(&b);

        assert_eq!(
            to_big(&result),
            expected,
            "Failed multiplication test: {} * {}",
            a_str,
            b_str
        );
    }
}

#[test]
fn test_ordering() {
    let test_cases = vec![
        ("0", "0", std::cmp::Ordering::Equal),
        ("1", "0", std::cmp::Ordering::Greater),
        ("0", "1", std::cmp::Ordering::Less),
        (
            "18446744073709551615",
            "18446744073709551616",
            std::cmp::Ordering::Less,
        ),
        (
            "34893458934589345893458934",
            "89345893458934589345893458",
            std::cmp::Ordering::Less,
        ),
        (
            "89345893458934589345893458",
            "34893458934589345893458934",
            std::cmp::Ordering::Greater,
        ),
    ];

    for (a_str, b_str, expected) in test_cases {
        let a = IntegerAU::from_decimal(a_str).unwrap();
        let b = IntegerAU::from_decimal(b_str).unwrap();

        assert_eq!(
            a.cmp(&b),
            expected,
            "Failed ordering test: {} vs {}",
            a_str,
            b_str
        );
    }
}

#[test]
fn test_modulo() {
    let test_cases = vec![
        ("10", "3", "1"),
        ("7", "4", "3"),
        ("18446744073709551615", "18446744073709551614", "1"),
        ("18446744073709551615", "2", "1"),
        (
            "34893458934589345893458934",
            "89345893458934589345893458",
            "34893458934589345893458934",
        ),
    ];

    for (a_str, m_str, expected_str) in test_cases {
        let expected = BigUint::from_str(expected_str).unwrap();

        let a = IntegerAU::from_decimal(a_str).unwrap();
        let m = IntegerAU::from_decimal(m_str).unwrap();
        let result = a.modulo(&m).unwrap();

        assert_eq!(
            to_big(&result),
            expected,
            "Failed modulo test: {} mod {}",
            a_str,
            m_str
        );
    }

    // Random test cases
    let mut rng = rand::rng();

    for _ in 0..1000 {
        let a_limbs = rng.random_range(1..=4);
        let m_limbs = rng.random_range(1..=4);

        let mut a_vec: Vec<u64> = Vec::with_capacity(a_limbs);
        let mut m_vec: Vec<u64> = Vec::with_capacity(m_limbs);

        for _ in 0..a_limbs {
            a_vec.push(rng.random::<u64>());
        }
        for _ in 0..m_limbs {
            m_vec.push(rng.random::<u64>());
        }

        // Ensure modulus is not zero by setting at least one bit
        if m_vec.iter().all(|&x| x == 0) {
            m_vec[0] = 1;
        }

        // Remove leading zeros
        while a_vec.len() > 1 && a_vec[a_vec.len() - 1] == 0 {
            a_vec.pop();
        }
        while m_vec.len() > 1 && m_vec[m_vec.len() - 1] == 0 {
            m_vec.pop();
        }

        let a = IntegerAU {
            limbs: a_vec.clone(),
        };
        let m = IntegerAU {
            limbs: m_vec.clone(),
        };

        let mut a_big = BigUint::from(0u64);
        let mut m_big = BigUint::from(0u64);

        for &limb in a_vec.iter().rev() {
            a_big <<= 64;
            a_big += limb;
        }
        for &limb in m_vec.iter().rev() {
            m_big <<= 64;
            m_big += limb;
        }

        let expected = &a_big % &m_big;
        let result = a.modulo(&m).unwrap();

        assert_eq!(
            to_big(&result),
            expected,
            "Failed random modulo test: \na: {:?} \nm: {:?}",
            a_vec,
            m_vec
        );
    }
}

#[test]
fn test_bitwise_operations() {
    let test_cases = vec![
        ("15", "7"),
        ("255", "15"),
        ("18446744073709551615", "18446744073709551614"),
    ];

    for (a_str, b_str) in test_cases {
        let a_big = BigUint::from_str(a_str).unwrap();
        let b_big = BigUint::from_str(b_str).unwrap();

        let a = from_big(&a_big);
        let b = from_big(&b_big);

        let and_result = a.bitand(&b);
        assert_eq!(
            to_big(&and_result),
            &a_big & &b_big,
            "Failed AND test: {} & {}",
            a_str,
            b_str
        );
    }
}

#[test]
fn test_shifts() {
    let test_cases = vec![
        ("15", 2),
        ("255", 4),
        ("18446744073709551615", 1),
        ("18446744073709551615", 64),
    ];

    for (a_str, shift) in test_cases {
        let a_big = BigUint::from_str(a_str).unwrap();
        let a = from_big(&a_big);

        let shl_result = a.shl(shift);
        assert_eq!(
            to_big(&shl_result),
            &a_big << shift,
            "Failed left shift test: {} << {}",
            a_str,
            shift
        );

        let shr_result = a.shr(shift);
        assert_eq!(
            to_big(&shr_result),
            &a_big >> shift,
            "Failed right shift test: {} >> {}",
            a_str,
            shift
        );
    }
}

#[test]
fn test_edge_cases() {
    // Test shifting by more than total bits
    let a = IntegerAU {
        limbs: vec![0xFFFFFFFFFFFFFFFF],
    };
    assert_eq!(a.shl(128).limbs, vec![0, 0, 0xFFFFFFFFFFFFFFFF]);
    assert_eq!(a.shr(128).limbs, vec![0]);

    // Test shifting by exactly one word
    let b = IntegerAU {
        limbs: vec![0xFFFFFFFFFFFFFFFF, 0xFFFFFFFFFFFFFFFF],
    };
    assert_eq!(
        b.shl(64).limbs,
        vec![0, 0xFFFFFFFFFFFFFFFF, 0xFFFFFFFFFFFFFFFF]
    );
    assert_eq!(b.shr(64).limbs, vec![0xFFFFFFFFFFFFFFFF]);
}

#[test]
fn test_bit_len() {
    let test_cases = vec![
        (vec![0], 0),
        (vec![1], 1),
        (vec![2], 2),
        (vec![0xFF], 8),
        (vec![0xFFFF], 16),
        (vec![0xFFFFFFFF], 32),
        (vec![0xFFFFFFFFFFFFFFFF], 64),
        (vec![0, 1], 65),
        (vec![0, 0xFF], 72),
        (vec![0xFFFFFFFFFFFFFFFF, 0xFFFFFFFFFFFFFFFF], 128),
    ];

    for (limbs, expected_bits) in test_cases {
        let num = IntegerAU {
            limbs: limbs.clone(),
        };
        assert_eq!(
            num.bit_len(),
            expected_bits,
            "Failed for number with limbs {:?}",
            limbs
        );
    }
}

#[test]
fn test_random_bit_len() {
    let mut rng = rand::rng();

    for _ in 0..1000 {
        let num_limbs = rng.random_range(1..=4);
        let mut limbs: Vec<u64> = Vec::with_capacity(num_limbs);

        for _ in 0..num_limbs - 1 {
            limbs.push(rng.random::<u64>());
        }

        let msb_bits = rng.random_range(1..=64);
        let msb = if msb_bits == 64 {
            0xFFFFFFFFFFFFFFFF
        } else {
            (1u64 << msb_bits) - 1
        };
        limbs.push(msb);

        let num = IntegerAU {
            limbs: limbs.clone(),
        };
        let expected_bits = (num_limbs - 1) * 64 + msb_bits;

        assert_eq!(
            num.bit_len(),
            expected_bits,
            "Failed for random number with limbs {:?}, expected {} bits",
            limbs,
            expected_bits
        );
    }
}

#[test]
fn test_basic_division() {
    let test_cases = vec![
        ("10", "2", "5"),
        ("100", "10", "10"),
        ("7", "2", "3"),
        ("0", "5", "0"),
        ("5", "10", "0"),
        ("42", "42", "1"),
    ];

    for (a_str, b_str, expected_str) in test_cases {
        let a = IntegerAU::from_decimal(a_str).unwrap();
        let b = IntegerAU::from_decimal(b_str).unwrap();
        let expected = IntegerAU::from_decimal(expected_str).unwrap();

        assert_eq!(a.div(&b).unwrap(), expected);
    }
}

#[test]
fn test_large_numbers() {
    let test_cases = vec![
        ("18446744073709551616", "2", "9223372036854775808"),
        ("18446744073709551615", "4294967295", "4294967297"),
    ];

    for (a_str, b_str, expected_str) in test_cases {
        let a = IntegerAU::from_decimal(a_str).unwrap();
        let b = IntegerAU::from_decimal(b_str).unwrap();
        let expected = IntegerAU::from_decimal(expected_str).unwrap();

        assert_eq!(a.div(&b).unwrap(), expected);
    }
}

#[test]
#[should_panic]
fn test_division_by_zero() {
    let a = IntegerAU::from_decimal("42").unwrap();
    let zero = IntegerAU::from_decimal("0").unwrap();
    let _ = a.div(&zero).unwrap();
}

#[test]
fn test_division_with_remainder() {
    let test_cases = vec![("100", "3"), ("1000", "7"), ("12345", "67")];

    for (a_str, b_str) in test_cases {
        let a_big = BigUint::from_str(a_str).unwrap();
        let b_big = BigUint::from_str(b_str).unwrap();
        let expected = &a_big / &b_big;

        let a = from_big(&a_big);
        let b = from_big(&b_big);
        let result = a.div(&b).unwrap();

        assert_eq!(
            from_big(&expected),
            result,
            "Failed division test: {} / {}",
            a_str,
            b_str
        );
    }
}

#[test]
fn test_random_division() {
    let mut rng = rand::rng();

    for _ in 0..100 {
        let a: u64 = rng.random_range(1..=1000000);
        let b: u64 = rng.random_range(1..=1000000);

        let a_int = IntegerAU::from_u64(a);
        let b_int = IntegerAU::from_u64(b);

        let expected = a / b;
        let result = a_int.div(&b_int).unwrap();

        assert_eq!(
            result,
            IntegerAU::from_u64(expected),
            "Failed random division test: {} / {}",
            a,
            b
        );
    }
}

#[test]
fn test_bitor_basic() {
    let test_cases = vec![
        (vec![0], vec![0], vec![0]),
        (vec![1], vec![0], vec![1]),
        (vec![0xFF], vec![0xF0], vec![0xFF]),
        (vec![0xF0], vec![0x0F], vec![0xFF]),
        (vec![0xFFFF], vec![0xFF00], vec![0xFFFF]),
    ];

    for (a_limbs, b_limbs, expected) in test_cases {
        let a = IntegerAU {
            limbs: a_limbs.clone(),
        };
        let b = IntegerAU {
            limbs: b_limbs.clone(),
        };
        let result = a.bitor(&b);
        assert_eq!(result.limbs, expected);

        // Test that originals are unchanged
        assert_eq!(a.limbs, a_limbs);
        assert_eq!(b.limbs, b_limbs);
    }
}

#[test]
fn test_bitor_different_lengths() {
    let a = IntegerAU {
        limbs: vec![0xFFFF, 0xFFFF],
    };
    let b = IntegerAU {
        limbs: vec![0xFFFF],
    };
    let result = a.bitor(&b);
    assert_eq!(result.limbs, vec![0xFFFF, 0xFFFF]);

    let c = IntegerAU { limbs: vec![0] };
    let d = IntegerAU {
        limbs: vec![0xFFFF, 0xFFFF],
    };
    let result2 = c.bitor(&d);
    assert_eq!(result2.limbs, vec![0xFFFF, 0xFFFF]);
}

#[test]
fn test_bitor_large_numbers() {
    let a = IntegerAU {
        limbs: vec![0xFFFFFFFFFFFFFFFF, 0xFFFFFFFFFFFFFFFF],
    };
    let b = IntegerAU {
        limbs: vec![0xFFFFFFFFFFFFFFFF, 0],
    };
    let result = a.bitor(&b);
    assert_eq!(result.limbs, vec![0xFFFFFFFFFFFFFFFF, 0xFFFFFFFFFFFFFFFF]);
}

#[test]
fn test_bitor_all_variants() {
    let a = IntegerAU { limbs: vec![0xF0] };
    let b = IntegerAU { limbs: vec![0x0F] };
    let expected = vec![0xFF];

    assert_eq!(a.bitor(&b).limbs, expected);
    assert_eq!(a.clone().bitor(&b.clone()).limbs, expected);
    assert_eq!(a.bitor(&b.clone()).limbs, expected);
    assert_eq!(a.clone().bitor(&b).limbs, expected);
}

#[test]
fn test_bitor_with_zero() {
    let zero = IntegerAU { limbs: vec![0] };
    let a = IntegerAU {
        limbs: vec![0xFFFF],
    };

    assert_eq!(a.bitor(&zero).limbs, vec![0xFFFF]);
    assert_eq!(zero.bitor(&a).limbs, vec![0xFFFF]);

    assert_eq!(zero.bitor(&zero).limbs, vec![0]);
}

#[test]
fn test_random_arith_oracle() {
    // Addition, subtraction, multiplication, division and modulo all agree
    // with num-bigint on operands spanning one to four
    // limbs, including values adjacent to the limb boundary.
    let mut rng = rand::rng();
    let mut specials: Vec<BigUint> = vec![
        BigUint::from_str("18446744073709551615").unwrap(),
        BigUint::from_str("18446744073709551616").unwrap(),
    ];

    for trial in 0..1000 {
        let (a_big, b_big) = if trial < specials.len() {
            (specials.remove(0), BigUint::from(3u64))
        } else {
            let a_limbs = rng.random_range(1..=4);
            let b_limbs = rng.random_range(1..=4);
            let mut a_big = BigUint::from(0u64);
            let mut b_big = BigUint::from(0u64);
            for _ in 0..a_limbs {
                a_big <<= 64;
                a_big += rng.random::<u64>();
            }
            for _ in 0..b_limbs {
                b_big <<= 64;
                b_big += rng.random::<u64>();
            }
            (a_big, b_big)
        };

        let a = from_big(&a_big);
        let b = from_big(&b_big);

        assert_eq!(to_big(&a.add(&b)), &a_big + &b_big);
        assert_eq!(to_big(&a.mul(&b)), &a_big * &b_big);
        if a_big >= b_big {
            assert_eq!(to_big(&a.sub(&b).unwrap()), &a_big - &b_big);
        } else {
            assert_eq!(to_big(&b.sub(&a).unwrap()), &b_big - &a_big);
        }
        if b_big > BigUint::from(0u64) {
            assert_eq!(to_big(&a.div(&b).unwrap()), &a_big / &b_big);
            assert_eq!(to_big(&a.modulo(&b).unwrap()), &a_big % &b_big);
        }
    }
}

#[test]
fn test_shift_round_trip() {
    // (x << s) >> s == x for s below and far above the bit length.
    let cases = vec![
        ("1", 1),
        ("18446744073709551615", 64),
        ("34893458934589345893458934", 13),
        ("340282366920938463463374607431768211507", 129),
    ];
    for (s_str, shift) in cases {
        let x = IntegerAU::from_decimal(s_str).unwrap();
        let back = x.shl(shift).shr(shift);
        assert_eq!(back, x, "Failed shift round trip: {} by {}", s_str, shift);
    }

    // Right shift at or past the bit length gives the canonical zero.
    let x = IntegerAU::from_decimal("18446744073709551615").unwrap();
    assert_eq!(x.shr(64).limbs, vec![0]);
    assert_eq!(x.shr(1000).limbs, vec![0]);
}
