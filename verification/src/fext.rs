//! Arithmetic in the cubic extension of the base field.
//!
//! An element is a triple of canonical base-field coefficients, read as a
//! polynomial of degree at most two modulo the fixed irreducible polynomial
//! x^3 - x + 1: products are reduced with x^3 = x - 1. Addition, negation
//! and subtraction work coefficient by coefficient; inversion solves the
//! linear system given by multiplication and verifies its answer by a
//! multiplication, so a successful inverse is guaranteed to be one.
use vstd::prelude::*;
use vstd::arithmetic::div_mod::lemma_add_mod_noop;
use vstd::arithmetic::div_mod::lemma_mul_mod_noop_left;
use vstd::arithmetic::div_mod::lemma_small_mod;
use vstd::arithmetic::div_mod::lemma_sub_mod_noop;
use vstd::arithmetic::mul::lemma_mul_basics;
use crate::base::badd;
use crate::base::bmul;
use crate::base::bneg;
use crate::base::bsub;
use crate::base::in_field;
use crate::base::mod_exp;
use crate::base::pow_mod;
use crate::base::modulus;
use crate::base::PRIME;
use crate::FieldError;

verus! {

/// An element of the degree-three extension field: coefficients of
/// 1, x and x^2, each a canonical base-field residue.
#[derive(Clone, Copy, Debug, PartialEq, Eq, Structural)]
pub struct Felt {
    pub c0: u64,
    pub c1: u64,
    pub c2: u64,
}

/// True when every coefficient is a canonical residue.
pub open spec fn felt_wf(a: Felt) -> bool {
    in_field(a.c0) && in_field(a.c1) && in_field(a.c2)
}

/// The additive identity.
pub open spec fn felt_zero() -> Felt {
    Felt { c0: 0, c1: 0, c2: 0 }
}

/// The multiplicative identity.
pub open spec fn felt_one() -> Felt {
    Felt { c0: 1, c1: 0, c2: 0 }
}

/// Coefficientwise modular addition.
pub open spec fn fadd_spec(a: Felt, b: Felt) -> Felt {
    Felt {
        c0: (((a.c0 + b.c0) % modulus()) as u64),
        c1: (((a.c1 + b.c1) % modulus()) as u64),
        c2: (((a.c2 + b.c2) % modulus()) as u64),
    }
}

/// Coefficientwise modular subtraction.
pub open spec fn fsub_spec(a: Felt, b: Felt) -> Felt {
    Felt {
        c0: (((a.c0 - b.c0) % modulus()) as u64),
        c1: (((a.c1 - b.c1) % modulus()) as u64),
        c2: (((a.c2 - b.c2) % modulus()) as u64),
    }
}

/// Coefficientwise modular negation.
pub open spec fn fneg_spec(a: Felt) -> Felt {
    Felt {
        c0: (((0 - a.c0) % modulus()) as u64),
        c1: (((0 - a.c1) % modulus()) as u64),
        c2: (((0 - a.c2) % modulus()) as u64),
    }
}

/// Polynomial product reduced with x^3 = x - 1: the convolution terms of
/// degree three fold back into degrees zero and one, those of degree four
/// into degrees one and two.
pub open spec fn fmul_spec(a: Felt, b: Felt) -> Felt {
    let d0 = a.c0 * b.c0;
    let d1 = a.c0 * b.c1 + a.c1 * b.c0;
    let d2 = a.c0 * b.c2 + a.c1 * b.c1 + a.c2 * b.c0;
    let d3 = a.c1 * b.c2 + a.c2 * b.c1;
    let d4 = a.c2 * b.c2;
    Felt {
        c0: (((d0 - d3) % modulus()) as u64),
        c1: (((d1 + d3 - d4) % modulus()) as u64),
        c2: (((d2 + d4) % modulus()) as u64),
    }
}

/// The extension-field zero, as an executable value.
pub fn felt_zero_val() -> (r: Felt)
    ensures
        r == felt_zero(),
        felt_wf(r),
{
    Felt { c0: 0, c1: 0, c2: 0 }
}

/// The extension-field one, as an executable value.
pub fn felt_one_val() -> (r: Felt)
    ensures
        r == felt_one(),
        felt_wf(r),
{
    Felt { c0: 1, c1: 0, c2: 0 }
}

/// Addition in the extension field.
pub fn fadd(a: &Felt, b: &Felt) -> (r: Felt)
    requires
        felt_wf(*a),
        felt_wf(*b),
    ensures
        felt_wf(r),
        r == fadd_spec(*a, *b),
{
    Felt { c0: badd(a.c0, b.c0), c1: badd(a.c1, b.c1), c2: badd(a.c2, b.c2) }
}

/// Subtraction in the extension field.
pub fn fsub(a: &Felt, b: &Felt) -> (r: Felt)
    requires
        felt_wf(*a),
        felt_wf(*b),
    ensures
        felt_wf(r),
        r == fsub_spec(*a, *b),
{
    Felt { c0: bsub(a.c0, b.c0), c1: bsub(a.c1, b.c1), c2: bsub(a.c2, b.c2) }
}

/// Negation in the extension field.
pub fn fneg(a: &Felt) -> (r: Felt)
    requires
        felt_wf(*a),
    ensures
        felt_wf(r),
        r == fneg_spec(*a),
{
    Felt { c0: bneg(a.c0), c1: bneg(a.c1), c2: bneg(a.c2) }
}

/// Multiplication in the extension field: convolution of the coefficients,
/// then reduction with x^3 = x - 1.
pub fn fmul(a: &Felt, b: &Felt) -> (r: Felt)
    requires
        felt_wf(*a),
        felt_wf(*b),
    ensures
        felt_wf(r),
        r == fmul_spec(*a, *b),
{
    let ghost m = modulus();
    let d0 = bmul(a.c0, b.c0);
    let d1 = badd(bmul(a.c0, b.c1), bmul(a.c1, b.c0));
    let d2 = badd(badd(bmul(a.c0, b.c2), bmul(a.c1, b.c1)), bmul(a.c2, b.c0));
    let d3 = badd(bmul(a.c1, b.c2), bmul(a.c2, b.c1));
    let d4 = bmul(a.c2, b.c2);
    let r0 = bsub(d0, d3);
    let r1 = bsub(badd(d1, d3), d4);
    let r2 = badd(d2, d4);
    proof {
        let p0 = a.c0 as int * b.c0 as int;
        let p1 = a.c0 as int * b.c1 as int + a.c1 as int * b.c0 as int;
        let p2 = a.c0 as int * b.c2 as int + a.c1 as int * b.c1 as int + a.c2 as int
            * b.c0 as int;
        let p3 = a.c1 as int * b.c2 as int + a.c2 as int * b.c1 as int;
        let p4 = a.c2 as int * b.c2 as int;
        lemma_add_mod_noop(a.c0 as int * b.c1 as int, a.c1 as int * b.c0 as int, m);
        lemma_add_mod_noop(a.c0 as int * b.c2 as int, a.c1 as int * b.c1 as int, m);
        lemma_add_mod_noop(
            a.c0 as int * b.c2 as int + a.c1 as int * b.c1 as int,
            a.c2 as int * b.c0 as int,
            m,
        );
        lemma_add_mod_noop(a.c1 as int * b.c2 as int, a.c2 as int * b.c1 as int, m);
        lemma_sub_mod_noop(p0, p3, m);
        lemma_add_mod_noop(p1, p3, m);
        lemma_sub_mod_noop(p1 + p3, p4, m);
        lemma_add_mod_noop(p2, p4, m);
    }
    Felt { c0: r0, c1: r1, c2: r2 }
}

/// Square-and-multiply over the extension field, written as a tail
/// recursion: the accumulator gathers the factor for every set bit of the
/// remaining exponent while the base squares.
pub open spec fn fpow_helper(acc: Felt, base: Felt, e: nat) -> Felt
    decreases e,
{
    if e == 0 {
        acc
    } else if e % 2 == 1 {
        fpow_helper(fmul_spec(acc, base), fmul_spec(base, base), e / 2)
    } else {
        fpow_helper(acc, fmul_spec(base, base), e / 2)
    }
}

/// x^n in the extension field: the empty product is the multiplicative
/// identity, and each further power multiplies by the base once more.
pub open spec fn fpow_spec(x: Felt, n: nat) -> Felt
    decreases n,
{
    if n == 0 {
        felt_one()
    } else {
        fmul_spec(fpow_spec(x, (n - 1) as nat), x)
    }
}

/// Exponentiation in the extension field, by square and multiply; the
/// zeroth power of anything is the multiplicative identity.
pub fn fpow(x: &Felt, n: u64) -> (r: Felt)
    requires
        felt_wf(*x),
    ensures
        felt_wf(r),
        r == fpow_spec(*x, n as nat),
{
    let mut acc = felt_one_val();
    let mut base = *x;
    let mut e = n;
    while e != 0
        invariant
            felt_wf(acc),
            felt_wf(base),
            fpow_helper(acc, base, e as nat) == fpow_helper(felt_one(), *x, n as nat),
        decreases e,
    {
        if e % 2 == 1 {
            acc = fmul(&acc, &base);
        }
        base = fmul(&base, &base);
        e = e / 2;
    }
    proof {
        lemma_fpow_helper_accumulates(felt_one(), *x, n as nat);
        lemma_fpow_spec_wf(*x, n as nat);
        lemma_fmul_commutative(felt_one(), fpow_spec(*x, n as nat));
        lemma_fmul_identity(fpow_spec(*x, n as nat));
    }
    acc
}

/// Every power of an element is made of canonical coefficients.
proof fn lemma_fpow_spec_wf(x: Felt, n: nat)
    ensures
        felt_wf(fpow_spec(x, n)),
    decreases n,
{
    if n > 0 {
        lemma_fpow_spec_wf(x, (n - 1) as nat);
    }
}

/// Powers of a square are the even powers.
proof fn lemma_fpow_spec_square(x: Felt, n: nat)
    ensures
        fpow_spec(fmul_spec(x, x), n) == fpow_spec(x, 2 * n),
    decreases n,
{
    if n > 0 {
        lemma_fpow_spec_square(x, (n - 1) as nat);
        assert(2 * ((n - 1) as nat) == (2 * n - 2) as nat);
        lemma_fmul_associative(fpow_spec(x, (2 * n - 2) as nat), x, x);
        assert(fpow_spec(x, (2 * n - 1) as nat) == fmul_spec(
            fpow_spec(x, (2 * n - 2) as nat),
            x,
        ));
        assert(fpow_spec(x, 2 * n) == fmul_spec(fpow_spec(x, (2 * n - 1) as nat), x));
    }
}

/// The square-and-multiply schedule accumulates exactly the power it is
/// run for.
proof fn lemma_fpow_helper_accumulates(acc: Felt, base: Felt, e: nat)
    requires
        felt_wf(acc),
    ensures
        fpow_helper(acc, base, e) == fmul_spec(acc, fpow_spec(base, e)),
    decreases e,
{
    if e == 0 {
        lemma_fmul_identity(acc);
    } else if e % 2 == 1 {
        lemma_fpow_helper_accumulates(fmul_spec(acc, base), fmul_spec(base, base), e / 2);
        lemma_fpow_spec_square(base, e / 2);
        assert(2 * (e / 2) == e - 1);
        lemma_fmul_associative(acc, base, fpow_spec(base, (e - 1) as nat));
        lemma_fmul_commutative(base, fpow_spec(base, (e - 1) as nat));
    } else {
        lemma_fpow_helper_accumulates(acc, fmul_spec(base, base), e / 2);
        lemma_fpow_spec_square(base, e / 2);
        assert(2 * (e / 2) == e);
    }
}

/// Multiplication by the extension-field zero yields zero, so zero can
/// never pass the inverse check.
proof fn lemma_fmul_zero_left(b: Felt)
    ensures
        fmul_spec(felt_zero(), b) == felt_zero(),
{
    lemma_mul_basics(b.c0 as int);
    lemma_mul_basics(b.c1 as int);
    lemma_mul_basics(b.c2 as int);
    assert(0int % modulus() == 0) by {
        lemma_small_mod(0, PRIME as nat);
    }
}

/// The inverse candidate by Cramer's rule: the first column of the
/// adjugate of the multiplication matrix of `a`, scaled by the inverse of
/// its determinant, every step reduced into the field.
pub open spec fn finv_candidate(a: Felt) -> Felt {
    let m = modulus();
    let s = (a.c0 + a.c2) % m;
    let c00 = ((s * s) % m - (a.c1 * ((a.c1 - a.c2) % m)) % m) % m;
    let c01 = (0 - ((a.c0 * a.c1) % m + (a.c2 * a.c2) % m) % m) % m;
    let c02 = ((a.c1 * a.c1) % m - ((a.c0 * a.c2) % m + (a.c2 * a.c2) % m) % m) % m;
    let det = (((a.c0 * c00) % m - (a.c2 * c01) % m) % m - (a.c1 * c02) % m) % m;
    let dinv = pow_mod(det, (PRIME - 2) as nat);
    Felt {
        c0: (((c00 * dinv) % m) as u64),
        c1: (((c01 * dinv) % m) as u64),
        c2: (((c02 * dinv) % m) as u64),
    }
}

/// The inverse as a total function of the input: the Cramer candidate
/// exactly when its product with the argument is one, and the failure kind
/// otherwise. For every nonzero element the determinant is a nonzero
/// residue (the reduction polynomial is irreducible) and the candidate
/// passes the product check; that fact is beyond this proof, so the
/// condition is carried in the specification rather than asserted. The
/// zero element always lands in the error branch, which is proved.
pub open spec fn finv_spec(a: Felt) -> Result<Felt, FieldError> {
    if fmul_spec(a, finv_candidate(a)) == felt_one() {
        Ok(finv_candidate(a))
    } else {
        Err(FieldError::InverseOfZero)
    }
}

/// Multiplicative inverse in the extension field. The candidate comes from
/// solving the three-by-three linear system of multiplication by Cramer's
/// rule; it is then checked by an actual multiplication, so a returned
/// value is always a true inverse. The result is pinned, in every branch,
/// to `finv_spec`: a body that fails where `finv_spec` succeeds does not
/// meet this contract. The extension-field zero is rejected.
pub fn finv(a: &Felt) -> (r: Result<Felt, FieldError>)
    requires
        felt_wf(*a),
    ensures
        r == finv_spec(*a),
        *a == felt_zero() ==> (r matches Err(e) && e == FieldError::InverseOfZero),
        r matches Err(e) ==> e == FieldError::InverseOfZero,
        r matches Ok(v) ==> felt_wf(v) && v == finv_candidate(*a) && fmul_spec(*a, v)
            == felt_one() && *a != felt_zero(),
{
    let s = badd(a.c0, a.c2);
    let c00 = bsub(bmul(s, s), bmul(a.c1, bsub(a.c1, a.c2)));
    let c01 = bneg(badd(bmul(a.c0, a.c1), bmul(a.c2, a.c2)));
    let c02 = bsub(bmul(a.c1, a.c1), badd(bmul(a.c0, a.c2), bmul(a.c2, a.c2)));
    let det = bsub(bsub(bmul(a.c0, c00), bmul(a.c2, c01)), bmul(a.c1, c02));
    let dinv = mod_exp(det, PRIME - 2);
    let cand = Felt { c0: bmul(c00, dinv), c1: bmul(c01, dinv), c2: bmul(c02, dinv) };
    proof {
        assert(cand == finv_candidate(*a));
    }
    let check = fmul(a, &cand);
    let one = felt_one_val();
    if check == one {
        proof {
            if *a == felt_zero() {
                lemma_fmul_zero_left(cand);
            }
        }
        Ok(cand)
    } else {
        Err(FieldError::InverseOfZero)
    }
}

/// Division as a total function of its inputs: the product of `a` with the
/// inverse of `b` where that inverse exists, and the inverse's own failure
/// otherwise.
pub open spec fn fdiv_spec(a: Felt, b: Felt) -> Result<Felt, FieldError> {
    match finv_spec(b) {
        Ok(w) => Ok(fmul_spec(a, w)),
        Err(e) => Err(e),
    }
}

/// Division in the extension field: the product of `a` with the inverse of
/// `b`, pinned in every branch to `fdiv_spec`, so it agrees with
/// multiplication by `finv`'s result bit for bit; it fails exactly as the
/// inverse of `b` does.
pub fn fdiv(a: &Felt, b: &Felt) -> (r: Result<Felt, FieldError>)
    requires
        felt_wf(*a),
        felt_wf(*b),
    ensures
        r == fdiv_spec(*a, *b),
        *b == felt_zero() ==> (r matches Err(e) && e == FieldError::InverseOfZero),
        r matches Err(e) ==> e == FieldError::InverseOfZero,
        r matches Ok(v) ==> felt_wf(v) && *b != felt_zero() && v == fmul_spec(
            *a,
            finv_candidate(*b),
        ) && fmul_spec(*b, finv_candidate(*b)) == felt_one(),
{
    match finv(b) {
        Ok(i) => Ok(fmul(a, &i)),
        Err(e) => Err(e),
    }
}

/// Extension-field addition commutes, coefficient by coefficient.
pub proof fn lemma_fadd_commutative(a: Felt, b: Felt)
    ensures
        fadd_spec(a, b) == fadd_spec(b, a),
{
}

/// Extension-field addition associates, coefficient by coefficient.
pub proof fn lemma_fadd_associative(a: Felt, b: Felt, c: Felt)
    requires
        felt_wf(a),
        felt_wf(b),
        felt_wf(c),
    ensures
        fadd_spec(fadd_spec(a, b), c) == fadd_spec(a, fadd_spec(b, c)),
{
    crate::base::lemma_badd_associative(a.c0, b.c0, c.c0);
    crate::base::lemma_badd_associative(a.c1, b.c1, c.c1);
    crate::base::lemma_badd_associative(a.c2, b.c2, c.c2);
}

/// An extension element and its negation sum to the extension-field zero.
pub proof fn lemma_fadd_negation(a: Felt)
    requires
        felt_wf(a),
    ensures
        fadd_spec(a, fneg_spec(a)) == felt_zero(),
{
    crate::base::lemma_badd_negation(a.c0);
    crate::base::lemma_badd_negation(a.c1);
    crate::base::lemma_badd_negation(a.c2);
}

/// The zeroth extension-field power of anything is the multiplicative
/// identity.
pub proof fn lemma_fpow_zero_exponent(x: Felt)
    ensures
        fpow_spec(x, 0) == felt_one(),
{
}

/// The constant-coefficient part of a reduced product, before reduction
/// modulo the prime.
spec fn raw0(x0: int, x1: int, x2: int, y0: int, y1: int, y2: int) -> int {
    x0 * y0 - (x1 * y2 + x2 * y1)
}

/// The linear coefficient of a reduced product, before reduction modulo
/// the prime.
spec fn raw1(x0: int, x1: int, x2: int, y0: int, y1: int, y2: int) -> int {
    x0 * y1 + x1 * y0 + x1 * y2 + x2 * y1 - x2 * y2
}

/// The quadratic coefficient of a reduced product, before reduction modulo
/// the prime.
spec fn raw2(x0: int, x1: int, x2: int, y0: int, y1: int, y2: int) -> int {
    x0 * y2 + x1 * y1 + x2 * y0 + x2 * y2
}

/// The product's coefficients are the raw coefficients reduced into the
/// field.
proof fn lemma_fmul_raw(a: Felt, b: Felt)
    ensures
        fmul_spec(a, b).c0 == raw0(
            a.c0 as int,
            a.c1 as int,
            a.c2 as int,
            b.c0 as int,
            b.c1 as int,
            b.c2 as int,
        ) % modulus(),
        fmul_spec(a, b).c1 == raw1(
            a.c0 as int,
            a.c1 as int,
            a.c2 as int,
            b.c0 as int,
            b.c1 as int,
            b.c2 as int,
        ) % modulus(),
        fmul_spec(a, b).c2 == raw2(
            a.c0 as int,
            a.c1 as int,
            a.c2 as int,
            b.c0 as int,
            b.c1 as int,
            b.c2 as int,
        ) % modulus(),
{
}

/// Extension-field multiplication commutes.
pub proof fn lemma_fmul_commutative(a: Felt, b: Felt)
    ensures
        fmul_spec(a, b) == fmul_spec(b, a),
{
    lemma_fmul_raw(a, b);
    lemma_fmul_raw(b, a);
    assert(forall|x0: int, x1: int, x2: int, y0: int, y1: int, y2: int|
        raw0(x0, x1, x2, y0, y1, y2) == raw0(y0, y1, y2, x0, x1, x2) && raw1(
            x0,
            x1,
            x2,
            y0,
            y1,
            y2,
        ) == raw1(y0, y1, y2, x0, x1, x2) && raw2(x0, x1, x2, y0, y1, y2) == raw2(
            y0,
            y1,
            y2,
            x0,
            x1,
            x2,
        )) by (nonlinear_arith);
}

/// The multiplicative identity is neutral on both sides.
pub proof fn lemma_fmul_identity(a: Felt)
    requires
        felt_wf(a),
    ensures
        fmul_spec(a, felt_one()) == a,
        fmul_spec(felt_one(), a) == a,
{
    lemma_mul_basics(a.c0 as int);
    lemma_mul_basics(a.c1 as int);
    lemma_mul_basics(a.c2 as int);
    lemma_small_mod(a.c0 as nat, PRIME as nat);
    lemma_small_mod(a.c1 as nat, PRIME as nat);
    lemma_small_mod(a.c2 as nat, PRIME as nat);
}


/// Reducing the inputs of a three-term linear combination modulo `m` does
/// not change the combination modulo `m`.
proof fn lemma_lin3_mod(x0: int, x1: int, x2: int, k0: int, k1: int, k2: int, m: int)
    requires
        m > 0,
    ensures
        ((x0 % m) * k0 + (x1 % m) * k1 + (x2 % m) * k2) % m == (x0 * k0 + x1 * k1 + x2 * k2)
            % m,
{
    lemma_mul_mod_noop_left(x0, k0, m);
    lemma_mul_mod_noop_left(x1, k1, m);
    lemma_mul_mod_noop_left(x2, k2, m);
    lemma_add_mod_noop((x0 % m) * k0, (x1 % m) * k1, m);
    lemma_add_mod_noop(x0 * k0, x1 * k1, m);
    lemma_add_mod_noop((x0 % m) * k0 + (x1 % m) * k1, (x2 % m) * k2, m);
    lemma_add_mod_noop(x0 * k0 + x1 * k1, x2 * k2, m);
}

/// Each raw coefficient, taken modulo the prime, is unchanged when its
/// left factor's coefficients are first reduced.
proof fn lemma_raw_mod_left(x0: int, x1: int, x2: int, y0: int, y1: int, y2: int)
    ensures
        raw0(x0 % modulus(), x1 % modulus(), x2 % modulus(), y0, y1, y2) % modulus()
            == raw0(x0, x1, x2, y0, y1, y2) % modulus(),
        raw1(x0 % modulus(), x1 % modulus(), x2 % modulus(), y0, y1, y2) % modulus()
            == raw1(x0, x1, x2, y0, y1, y2) % modulus(),
        raw2(x0 % modulus(), x1 % modulus(), x2 % modulus(), y0, y1, y2) % modulus()
            == raw2(x0, x1, x2, y0, y1, y2) % modulus(),
{
    let m = modulus();
    assert(forall|u0: int, u1: int, u2: int|
        raw0(u0, u1, u2, y0, y1, y2) == u0 * y0 + u1 * (-y2) + u2 * (-y1) && raw1(
            u0,
            u1,
            u2,
            y0,
            y1,
            y2,
        ) == u0 * y1 + u1 * (y0 + y2) + u2 * (y1 - y2) && raw2(u0, u1, u2, y0, y1, y2) == u0
            * y2 + u1 * y1 + u2 * (y0 + y2)) by (nonlinear_arith);
    lemma_lin3_mod(x0, x1, x2, y0, -y2, -y1, m);
    lemma_lin3_mod(x0, x1, x2, y1, y0 + y2, y1 - y2, m);
    lemma_lin3_mod(x0, x1, x2, y2, y1, y0 + y2, m);
}

/// Each raw coefficient, taken modulo the prime, is unchanged when its
/// right factor's coefficients are first reduced.
proof fn lemma_raw_mod_right(x0: int, x1: int, x2: int, y0: int, y1: int, y2: int)
    ensures
        raw0(x0, x1, x2, y0 % modulus(), y1 % modulus(), y2 % modulus()) % modulus()
            == raw0(x0, x1, x2, y0, y1, y2) % modulus(),
        raw1(x0, x1, x2, y0 % modulus(), y1 % modulus(), y2 % modulus()) % modulus()
            == raw1(x0, x1, x2, y0, y1, y2) % modulus(),
        raw2(x0, x1, x2, y0 % modulus(), y1 % modulus(), y2 % modulus()) % modulus()
            == raw2(x0, x1, x2, y0, y1, y2) % modulus(),
{
    let m = modulus();
    assert(forall|u0: int, u1: int, u2: int|
        raw0(x0, x1, x2, u0, u1, u2) == u0 * x0 + u1 * (-x2) + u2 * (-x1) && raw1(
            x0,
            x1,
            x2,
            u0,
            u1,
            u2,
        ) == u0 * x1 + u1 * (x0 + x2) + u2 * (x1 - x2) && raw2(x0, x1, x2, u0, u1, u2) == u0
            * x2 + u1 * x1 + u2 * (x0 + x2)) by (nonlinear_arith);
    lemma_lin3_mod(y0, y1, y2, x0, -x2, -x1, m);
    lemma_lin3_mod(y0, y1, y2, x1, x0 + x2, x1 - x2, m);
    lemma_lin3_mod(y0, y1, y2, x2, x1, x0 + x2, m);
}

/// Extension-field multiplication associates: both groupings expand to one
/// sum of triple products, and reducing the intermediate product modulo
/// the prime does not disturb the final residues.
#[verifier::rlimit(50)]
pub proof fn lemma_fmul_associative(a: Felt, b: Felt, c: Felt)
    ensures
        fmul_spec(fmul_spec(a, b), c) == fmul_spec(a, fmul_spec(b, c)),
{
    broadcast use vstd::arithmetic::mul::lemma_mul_is_commutative;

    let m = modulus();
    let a0 = a.c0 as int;
    let a1 = a.c1 as int;
    let a2 = a.c2 as int;
    let b0 = b.c0 as int;
    let b1 = b.c1 as int;
    let b2 = b.c2 as int;
    let c0 = c.c0 as int;
    let c1 = c.c1 as int;
    let c2 = c.c2 as int;
    let u0 = raw0(a0, a1, a2, b0, b1, b2);
    let u1 = raw1(a0, a1, a2, b0, b1, b2);
    let u2 = raw2(a0, a1, a2, b0, b1, b2);
    let v0 = raw0(b0, b1, b2, c0, c1, c2);
    let v1 = raw1(b0, b1, b2, c0, c1, c2);
    let v2 = raw2(b0, b1, b2, c0, c1, c2);
    assert((0 + a0 * b0 - a1 * b2 - a2 * b1) * c0 == 0 + a0 * b0 * c0 - a1 * b2 * c0 - a2 * b1 * c0) by (nonlinear_arith);
    assert((0 + a0 * b0 - a1 * b2 - a2 * b1) * c1 == 0 + a0 * b0 * c1 - a1 * b2 * c1 - a2 * b1 * c1) by (nonlinear_arith);
    assert((0 + a0 * b0 - a1 * b2 - a2 * b1) * c2 == 0 + a0 * b0 * c2 - a1 * b2 * c2 - a2 * b1 * c2) by (nonlinear_arith);
    assert((0 + a0 * b1 + a1 * b0 + a1 * b2 + a2 * b1 - a2 * b2) * c0 == 0 + a0 * b1 * c0 + a1 * b0 * c0 + a1 * b2 * c0 + a2 * b1 * c0 - a2 * b2 * c0) by (nonlinear_arith);
    assert((0 + a0 * b1 + a1 * b0 + a1 * b2 + a2 * b1 - a2 * b2) * c1 == 0 + a0 * b1 * c1 + a1 * b0 * c1 + a1 * b2 * c1 + a2 * b1 * c1 - a2 * b2 * c1) by (nonlinear_arith);
    assert((0 + a0 * b1 + a1 * b0 + a1 * b2 + a2 * b1 - a2 * b2) * c2 == 0 + a0 * b1 * c2 + a1 * b0 * c2 + a1 * b2 * c2 + a2 * b1 * c2 - a2 * b2 * c2) by (nonlinear_arith);
    assert((0 + a0 * b2 + a1 * b1 + a2 * b0 + a2 * b2) * c0 == 0 + a0 * b2 * c0 + a1 * b1 * c0 + a2 * b0 * c0 + a2 * b2 * c0) by (nonlinear_arith);
    assert((0 + a0 * b2 + a1 * b1 + a2 * b0 + a2 * b2) * c1 == 0 + a0 * b2 * c1 + a1 * b1 * c1 + a2 * b0 * c1 + a2 * b2 * c1) by (nonlinear_arith);
    assert((0 + a0 * b2 + a1 * b1 + a2 * b0 + a2 * b2) * c2 == 0 + a0 * b2 * c2 + a1 * b1 * c2 + a2 * b0 * c2 + a2 * b2 * c2) by (nonlinear_arith);
    assert((0 + b0 * c0 - b1 * c2 - b2 * c1) * a0 == 0 + a0 * b0 * c0 - a0 * b1 * c2 - a0 * b2 * c1) by (nonlinear_arith);
    assert((0 + b0 * c0 - b1 * c2 - b2 * c1) * a1 == 0 + a1 * b0 * c0 - a1 * b1 * c2 - a1 * b2 * c1) by (nonlinear_arith);
    assert((0 + b0 * c0 - b1 * c2 - b2 * c1) * a2 == 0 + a2 * b0 * c0 - a2 * b1 * c2 - a2 * b2 * c1) by (nonlinear_arith);
    assert((0 + b0 * c1 + b1 * c0 + b1 * c2 + b2 * c1 - b2 * c2) * a0 == 0 + a0 * b0 * c1 + a0 * b1 * c0 + a0 * b1 * c2 + a0 * b2 * c1 - a0 * b2 * c2) by (nonlinear_arith);
    assert((0 + b0 * c1 + b1 * c0 + b1 * c2 + b2 * c1 - b2 * c2) * a1 == 0 + a1 * b0 * c1 + a1 * b1 * c0 + a1 * b1 * c2 + a1 * b2 * c1 - a1 * b2 * c2) by (nonlinear_arith);
    assert((0 + b0 * c1 + b1 * c0 + b1 * c2 + b2 * c1 - b2 * c2) * a2 == 0 + a2 * b0 * c1 + a2 * b1 * c0 + a2 * b1 * c2 + a2 * b2 * c1 - a2 * b2 * c2) by (nonlinear_arith);
    assert((0 + b0 * c2 + b1 * c1 + b2 * c0 + b2 * c2) * a0 == 0 + a0 * b0 * c2 + a0 * b1 * c1 + a0 * b2 * c0 + a0 * b2 * c2) by (nonlinear_arith);
    assert((0 + b0 * c2 + b1 * c1 + b2 * c0 + b2 * c2) * a1 == 0 + a1 * b0 * c2 + a1 * b1 * c1 + a1 * b2 * c0 + a1 * b2 * c2) by (nonlinear_arith);
    assert((0 + b0 * c2 + b1 * c1 + b2 * c0 + b2 * c2) * a2 == 0 + a2 * b0 * c2 + a2 * b1 * c1 + a2 * b2 * c0 + a2 * b2 * c2) by (nonlinear_arith);
    assert(raw0(u0, u1, u2, c0, c1, c2) == raw0(a0, a1, a2, v0, v1, v2));
    assert(raw1(u0, u1, u2, c0, c1, c2) == raw1(a0, a1, a2, v0, v1, v2));
    assert(raw2(u0, u1, u2, c0, c1, c2) == raw2(a0, a1, a2, v0, v1, v2));
    lemma_fmul_raw(a, b);
    lemma_fmul_raw(b, c);
    lemma_fmul_raw(fmul_spec(a, b), c);
    lemma_fmul_raw(a, fmul_spec(b, c));
    lemma_raw_mod_left(u0, u1, u2, c0, c1, c2);
    lemma_raw_mod_right(a0, a1, a2, v0, v1, v2);
}


/// Raising the exponent by one multiplies the extension-field power by
/// the base once more.
pub proof fn lemma_fpow_successor(x: Felt, m: nat)
    ensures
        fpow_spec(x, m + 1) == fmul_spec(fpow_spec(x, m), x),
{
}

/// An extension element has at most one inverse: two products that both
/// give the identity force the factors to agree.
pub proof fn lemma_finv_unique(b: Felt, w1: Felt, w2: Felt)
    requires
        felt_wf(w1),
        felt_wf(w2),
        fmul_spec(b, w1) == felt_one(),
        fmul_spec(b, w2) == felt_one(),
    ensures
        w1 == w2,
{
    lemma_fmul_identity(w1);
    lemma_fmul_associative(w1, b, w2);
    lemma_fmul_commutative(w1, b);
    lemma_fmul_commutative(felt_one(), w2);
    lemma_fmul_identity(w2);
}

} // verus!
