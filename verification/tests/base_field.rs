use field_ntt::base::badd;
use field_ntt::base::bdiv;
use field_ntt::base::binv;
use field_ntt::base::bmul;
use field_ntt::base::bneg;
use field_ntt::base::bsub;
use field_ntt::base::is_power_of_two;
use field_ntt::base::mod_exp;
use field_ntt::base::ordered_root;
use field_ntt::base::PRIME;
use field_ntt::base::ROOT_GENERATOR;
use field_ntt::base::TWO_POW_32;
use field_ntt::FieldError;

#[test]
fn add_reduces_large_operands() {
    assert_eq!(badd(PRIME - 1, PRIME - 2), 18446744069414584318);
    assert_eq!(badd(0, 0), 0);
    assert_eq!(badd(PRIME - 1, 1), 0);
}

#[test]
fn add_commutes_on_samples() {
    let pairs = [(3u64, 5u64), (PRIME - 1, 12345), (0, PRIME - 7)];
    for (a, b) in pairs {
        assert_eq!(badd(a, b), badd(b, a));
    }
}

#[test]
fn add_associates_on_samples() {
    let triples = [(3u64, 5u64, 7u64), (PRIME - 1, PRIME - 2, PRIME - 3)];
    for (a, b, c) in triples {
        assert_eq!(badd(badd(a, b), c), badd(a, badd(b, c)));
    }
}

#[test]
fn negation_cancels() {
    assert_eq!(bneg(7), 18446744069414584314);
    assert_eq!(bneg(0), 0);
    for a in [0u64, 1, 7, PRIME - 1] {
        assert_eq!(badd(a, bneg(a)), 0);
    }
}

#[test]
fn sub_wraps_into_range() {
    assert_eq!(bsub(3, 5), 18446744069414584319);
    assert_eq!(bsub(5, 3), 2);
    assert_eq!(bsub(0, PRIME - 1), 1);
}

#[test]
fn mul_reduces_through_wide_product() {
    assert_eq!(bmul(PRIME - 1, PRIME - 2), 2);
    assert_eq!(bmul(0, PRIME - 1), 0);
    assert_eq!(bmul(1, 987654321), 987654321);
}

#[test]
fn mod_exp_matches_known_power() {
    assert_eq!(mod_exp(7, 20), 79792266297612001);
    assert_eq!(mod_exp(2, 64), 4294967295);
}

#[test]
fn mod_exp_zero_exponent_is_one() {
    assert_eq!(mod_exp(0, 0), 1);
    assert_eq!(mod_exp(5, 0), 1);
    assert_eq!(mod_exp(PRIME - 1, 0), 1);
}

#[test]
fn mod_exp_successor_multiplies_once_more() {
    for (x, m) in [(7u64, 11u64), (PRIME - 2, 3), (123456789, 0)] {
        assert_eq!(mod_exp(x, m + 1), bmul(mod_exp(x, m), x));
    }
}

#[test]
fn inverse_of_known_value() {
    assert_eq!(binv(5), Ok(14757395255531667457));
}

#[test]
fn inverse_times_value_is_one() {
    for a in [1u64, 2, 5, 1234567890123, PRIME - 1] {
        let v = binv(a).unwrap();
        assert_eq!(bmul(a, v), 1);
    }
}

#[test]
fn inverse_of_zero_fails() {
    assert_eq!(binv(0), Err(FieldError::DivisionByZero));
}

#[test]
fn division_matches_inverse_multiplication() {
    assert_eq!(bdiv(10, 4), Ok(9223372034707292163));
    for (a, b) in [(10u64, 4u64), (PRIME - 1, 3), (0, 9)] {
        assert_eq!(bdiv(a, b).unwrap(), bmul(a, binv(b).unwrap()));
    }
}

#[test]
fn division_by_zero_fails() {
    assert_eq!(bdiv(10, 0), Err(FieldError::DivisionByZero));
}

#[test]
fn power_of_two_test_agrees_with_structure() {
    assert!(is_power_of_two(1));
    assert!(is_power_of_two(2));
    assert!(is_power_of_two(4294967296));
    assert!(!is_power_of_two(0));
    assert!(!is_power_of_two(3));
    assert!(!is_power_of_two(6));
}

#[test]
fn ordered_root_known_values() {
    assert_eq!(ordered_root(1), Ok(1));
    assert_eq!(ordered_root(2), Ok(18446744069414584320));
    assert_eq!(ordered_root(4), Ok(281474976710656));
    assert_eq!(ordered_root(8), Ok(18446744069397807105));
    assert_eq!(ordered_root(16), Ok(17293822564807737345));
    assert_eq!(ordered_root(TWO_POW_32), Ok(ROOT_GENERATOR));
}

#[test]
fn ordered_root_orders_are_exact() {
    for n in [1u64, 2, 4, 8, 16, 1024, TWO_POW_32] {
        let r = ordered_root(n).unwrap();
        assert_eq!(mod_exp(r, n), 1);
        if n > 1 {
            assert_ne!(mod_exp(r, n / 2), 1);
        }
    }
}

#[test]
fn ordered_root_rejects_invalid_orders() {
    assert_eq!(ordered_root(0), Err(FieldError::OrderedRootError));
    assert_eq!(ordered_root(3), Err(FieldError::OrderedRootError));
    assert_eq!(ordered_root(8589934592), Err(FieldError::OrderedRootError));
}
