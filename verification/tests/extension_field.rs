use field_ntt::base::PRIME;
use field_ntt::fext::fadd;
use field_ntt::fext::fdiv;
use field_ntt::fext::felt_one_val;
use field_ntt::fext::felt_zero_val;
use field_ntt::fext::finv;
use field_ntt::fext::fmul;
use field_ntt::fext::fneg;
use field_ntt::fext::fpow;
use field_ntt::fext::fsub;
use field_ntt::fext::Felt;
use field_ntt::FieldError;

fn felt(c0: u64, c1: u64, c2: u64) -> Felt {
    Felt { c0, c1, c2 }
}

#[test]
fn extension_add_is_componentwise() {
    let a = felt(PRIME - 1, 2, 3);
    let b = felt(5, PRIME - 2, 7);
    assert_eq!(fadd(&a, &b), felt(4, 0, 10));
}

#[test]
fn extension_add_commutes_on_samples() {
    let a = felt(PRIME - 1, 2, 3);
    let b = felt(5, PRIME - 2, 7);
    assert_eq!(fadd(&a, &b), fadd(&b, &a));
}

#[test]
fn extension_add_associates_on_samples() {
    let a = felt(PRIME - 1, 2, 3);
    let b = felt(5, PRIME - 2, 7);
    let c = felt(11, 13, PRIME - 17);
    assert_eq!(fadd(&fadd(&a, &b), &c), fadd(&a, &fadd(&b, &c)));
}

#[test]
fn extension_negation_cancels() {
    let a = felt(PRIME - 1, 0, 12345);
    assert_eq!(fadd(&a, &fneg(&a)), felt_zero_val());
}

#[test]
fn extension_sub_is_componentwise() {
    let a = felt(1, 5, 9);
    let b = felt(2, 3, 9);
    assert_eq!(fsub(&a, &b), felt(PRIME - 1, 2, 0));
}

#[test]
fn extension_mul_known_product() {
    let a = felt(2, 3, 4);
    let b = felt(5, 6, 7);
    assert_eq!(fmul(&a, &b), felt(18446744069414584286, 44, 80));
}

#[test]
fn extension_mul_by_one_is_identity() {
    let a = felt(2, 3, 4);
    assert_eq!(fmul(&a, &felt_one_val()), a);
    assert_eq!(fmul(&felt_one_val(), &a), a);
}

#[test]
fn extension_pow_known_value() {
    let a = felt(2, 3, 4);
    assert_eq!(
        fpow(&a, 5),
        felt(18446744069414583882, 18446744069414575114, 18446744069414579484)
    );
}

#[test]
fn extension_pow_zero_exponent_is_one() {
    assert_eq!(fpow(&felt(9, 9, 9), 0), felt_one_val());
    assert_eq!(fpow(&felt_zero_val(), 0), felt_one_val());
}

#[test]
fn extension_pow_successor_multiplies_once_more() {
    let x = felt(2, 3, 4);
    for m in [0u64, 1, 6, 11] {
        assert_eq!(fpow(&x, m + 1), fmul(&fpow(&x, m), &x));
    }
}

#[test]
fn extension_inverse_times_value_is_one() {
    for a in [felt(2, 3, 4), felt(1, 0, 0), felt(0, 1, 0), felt(PRIME - 1, 7, 0)] {
        let v = finv(&a).unwrap();
        assert_eq!(fmul(&a, &v), felt_one_val());
    }
}

#[test]
fn extension_inverse_of_zero_fails() {
    assert_eq!(finv(&felt_zero_val()), Err(FieldError::InverseOfZero));
}

#[test]
fn extension_division_matches_inverse_multiplication() {
    let a = felt(10, 20, 30);
    let b = felt(2, 3, 4);
    let i = finv(&b).unwrap();
    assert_eq!(fdiv(&a, &b).unwrap(), fmul(&a, &i));
}

#[test]
fn extension_division_by_zero_fails() {
    let a = felt(10, 20, 30);
    assert_eq!(fdiv(&a, &felt_zero_val()), Err(FieldError::InverseOfZero));
}
