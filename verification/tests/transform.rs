use field_ntt::base::badd;
use field_ntt::base::binv;
use field_ntt::base::bmul;
use field_ntt::base::ordered_root;
use field_ntt::base::PRIME;
use field_ntt::ntt::bit_reverse_permute;
use field_ntt::ntt::radix2_ntt_inplace;
use field_ntt::ntt::transform;
use field_ntt::ntt::transform_with_root;
use field_ntt::FieldError;

#[test]
fn transform_of_length_four_known_answer() {
    let mut v: Vec<u64> = vec![1, 2, 3, 4];
    assert_eq!(transform(&mut v), Ok(()));
    assert_eq!(v, vec![10, 18446181119461163007, 18446744069414584319, 562949953421310]);
}

#[test]
fn transform_of_length_eight_known_answer() {
    let mut v: Vec<u64> = vec![5, 1, 4, 1, 5, 9, 2, 6];
    assert_eq!(transform(&mut v), Ok(()));
    assert_eq!(
        v,
        vec![
            33,
            568447645776640,
            844424930131972,
            18446189915638069249,
            18446744069414584320,
            557452261065984,
            18445899644484452357,
            18446172323284256769,
        ]
    );
}

#[test]
fn transform_of_length_one_is_identity() {
    let mut v: Vec<u64> = vec![42];
    assert_eq!(transform(&mut v), Ok(()));
    assert_eq!(v, vec![42]);
}

#[test]
fn explicit_root_kernel_known_answer() {
    let root = ordered_root(4).unwrap();
    let mut v: Vec<u64> = vec![0, 1, 0, 0];
    radix2_ntt_inplace(&mut v, root);
    assert_eq!(v, vec![1, 281474976710656, 18446744069414584320, 18446462594437873665]);
}

#[test]
fn explicit_and_derived_roots_agree() {
    let root = ordered_root(8).unwrap();
    let mut a: Vec<u64> = vec![5, 1, 4, 1, 5, 9, 2, 6];
    let mut b = a.clone();
    assert_eq!(transform(&mut a), Ok(()));
    assert_eq!(transform_with_root(&mut b, root), Ok(()));
    assert_eq!(a, b);
}

#[test]
fn transform_is_linear() {
    let x: Vec<u64> = vec![1, 2, 3, 4];
    let y: Vec<u64> = vec![10, 20, 30, 40];
    let mut sum: Vec<u64> = Vec::new();
    for i in 0..4 {
        let s = x[i] + y[i];
        sum.push(s % PRIME);
    }
    let mut tx = x.clone();
    let mut ty = y.clone();
    let mut tsum = sum.clone();
    assert_eq!(transform(&mut tx), Ok(()));
    assert_eq!(transform(&mut ty), Ok(()));
    assert_eq!(transform(&mut tsum), Ok(()));
    for i in 0..4 {
        assert_eq!(tsum[i], badd(tx[i], ty[i]));
    }
}

#[test]
fn transform_of_all_ones_is_pulse() {
    let mut v: Vec<u64> = vec![1; 8];
    assert_eq!(transform(&mut v), Ok(()));
    assert_eq!(v, vec![8, 0, 0, 0, 0, 0, 0, 0]);
}

#[test]
fn bit_reversal_twice_restores_order() {
    let orig: Vec<u64> = vec![10, 11, 12, 13, 14, 15, 16, 17];
    let mut v = orig.clone();
    bit_reverse_permute(&mut v, 3);
    assert_ne!(v, orig);
    bit_reverse_permute(&mut v, 3);
    assert_eq!(v, orig);
}

#[test]
fn round_trip_restores_input() {
    for n in [1usize, 2, 4, 8, 16] {
        let orig: Vec<u64> = (0..n as u64).map(|i| i * i + 7).collect();
        let mut v = orig.clone();
        assert_eq!(transform(&mut v), Ok(()));
        let root = ordered_root(n as u64).unwrap();
        let rinv = binv(root).unwrap();
        assert_eq!(transform_with_root(&mut v, rinv), Ok(()));
        let ninv = binv(n as u64).unwrap();
        for x in v.iter_mut() {
            *x = bmul(*x, ninv);
        }
        assert_eq!(v, orig);
    }
}

#[test]
fn empty_input_is_rejected_unchanged() {
    let mut v: Vec<u64> = Vec::new();
    assert_eq!(transform(&mut v), Err(FieldError::InvalidLength));
    assert!(v.is_empty());
    let mut w: Vec<u64> = Vec::new();
    assert_eq!(transform_with_root(&mut w, 5), Err(FieldError::InvalidLength));
    assert!(w.is_empty());
}

#[test]
fn non_power_of_two_length_is_rejected_unchanged() {
    let mut v: Vec<u64> = vec![1, 2, 3];
    assert_eq!(transform(&mut v), Err(FieldError::InvalidLength));
    assert_eq!(v, vec![1, 2, 3]);
    let mut w: Vec<u64> = vec![4, 5, 6];
    assert_eq!(transform_with_root(&mut w, 9), Err(FieldError::InvalidLength));
    assert_eq!(w, vec![4, 5, 6]);
}
