//! Arithmetic in the prime field of order `PRIME` = 2^64 - 2^32 + 1.
//!
//! Every element is carried as a canonical residue: a `u64` strictly below
//! `PRIME`. Each operation states its result as integer arithmetic reduced
//! modulo `PRIME`.
use vstd::prelude::*;
use vstd::arithmetic::div_mod::lemma_mod_multiples_vanish;
use vstd::arithmetic::div_mod::lemma_mul_mod_noop_general;
use vstd::arithmetic::power::lemma_pow0;
use vstd::arithmetic::power::lemma_pow1;
use vstd::arithmetic::power::lemma_pow_adds;
use vstd::arithmetic::power::lemma_pow_mod_noop;
use vstd::arithmetic::power::lemma_pow_multiplies;
use vstd::arithmetic::power::pow;
use vstd::arithmetic::div_mod::lemma_add_mod_noop;
use vstd::arithmetic::div_mod::lemma_add_mod_noop_right;
use vstd::arithmetic::div_mod::lemma_div_by_multiple;
use vstd::arithmetic::div_mod::lemma_fundamental_div_mod_converse;
use vstd::arithmetic::div_mod::lemma_small_mod;
use vstd::arithmetic::power2::lemma2_to64;
use vstd::arithmetic::power2::lemma_pow2_adds;
use vstd::arithmetic::power2::lemma_pow2_strictly_increases;
use vstd::arithmetic::power2::lemma_pow2_subtracts;
use vstd::arithmetic::power2::lemma_pow2_unfold;
use vstd::arithmetic::power2::pow2;
use crate::FieldError;

verus! {

/// The prime modulus 2^64 - 2^32 + 1.
pub const PRIME: u64 = 18446744069414584321;

/// The order of the largest two-power subgroup of the multiplicative group:
/// 2^32 divides PRIME - 1, and no higher power of two does.
pub const TWO_POW_32: u64 = 4294967296;

/// A fixed element of multiplicative order exactly 2^32; every root of unity
/// of two-power order is one of its powers.
pub const ROOT_GENERATOR: u64 = 1753635133440165772;

/// The modulus as a mathematical integer.
pub open spec fn modulus() -> int {
    PRIME as int
}

/// True of a canonical residue.
pub open spec fn in_field(x: u64) -> bool {
    x < PRIME
}

/// x^e reduced into the canonical range [0, PRIME).
pub open spec fn pow_mod(x: int, e: nat) -> int {
    pow(x, e) % modulus()
}

/// Addition in the base field.
pub fn badd(a: u64, b: u64) -> (r: u64)
    requires
        in_field(a),
        in_field(b),
    ensures
        in_field(r),
        r == (a + b) % modulus(),
{
    let s: u128 = a as u128 + b as u128;
    let m: u128 = s % (PRIME as u128);
    m as u64
}

/// Subtraction in the base field.
pub fn bsub(a: u64, b: u64) -> (r: u64)
    requires
        in_field(a),
        in_field(b),
    ensures
        in_field(r),
        r == (a - b) % modulus(),
{
    let s: u128 = a as u128 + PRIME as u128 - b as u128;
    let m: u128 = s % (PRIME as u128);
    proof {
        lemma_mod_multiples_vanish(1, a - b, modulus());
    }
    m as u64
}

/// Negation in the base field.
pub fn bneg(a: u64) -> (r: u64)
    requires
        in_field(a),
    ensures
        in_field(r),
        r == (0 - a) % modulus(),
{
    let s: u64 = (PRIME - a) % PRIME;
    proof {
        lemma_mod_multiples_vanish(1, 0 - a, modulus());
    }
    s
}

/// The product of two 64-bit values fits a 128-bit intermediate.
proof fn lemma_mul_fits_u128(a: int, b: int)
    by (nonlinear_arith)
    requires
        0 <= a < 18446744073709551616int,
        0 <= b < 18446744073709551616int,
    ensures
        a * b < 340282366920938463463374607431768211456int,
{
}

/// Multiplication in the base field, through a 128-bit intermediate product.
pub fn bmul(a: u64, b: u64) -> (r: u64)
    requires
        in_field(a),
        in_field(b),
    ensures
        in_field(r),
        r == (a * b) % modulus(),
{
    proof {
        lemma_mul_fits_u128(a as int, b as int);
    }
    let p: u128 = a as u128 * b as u128;
    let m: u128 = p % (PRIME as u128);
    m as u64
}

/// Square-and-multiply exponentiation modulo `PRIME`. The base need not be
/// canonical: it is reduced first, which leaves the result unchanged.
pub fn mod_exp(base: u64, exp: u64) -> (r: u64)
    ensures
        in_field(r),
        r == pow_mod(base as int, exp as nat),
{
    let mut b: u64 = base % PRIME;
    let mut e: u64 = exp;
    let mut acc: u64 = 1;
    proof {
        lemma_pow_mod_noop(base as int, exp as nat, modulus());
    }
    while e != 0
        invariant
            in_field(b),
            in_field(acc),
            (acc * pow(b as int, e as nat)) % modulus() == pow_mod(base as int, exp as nat),
        decreases e,
    {
        let ghost acc0 = acc;
        let ghost b0 = b;
        let ghost e0 = e as nat;
        if e % 2 == 1 {
            acc = bmul(acc, b);
        }
        b = bmul(b, b);
        e = e / 2;
        proof {
            lemma_step_invariant(acc0 as int, b0 as int, e0, acc as int, b as int, e as nat);
        }
    }
    proof {
        lemma_pow0(b as int);
    }
    acc
}

/// One halving step of square-and-multiply keeps the loop relation
/// `acc * b^e` fixed modulo `PRIME`.
proof fn lemma_step_invariant(acc0: int, b0: int, e0: nat, acc1: int, b1: int, e1: nat)
    requires
        0 <= acc0 < modulus(),
        0 <= b0 < modulus(),
        e0 > 0,
        e1 == e0 / 2,
        b1 == (b0 * b0) % modulus(),
        acc1 == if e0 % 2 == 1 {
            (acc0 * b0) % modulus()
        } else {
            acc0
        },
    ensures
        (acc1 * pow(b1, e1)) % modulus() == (acc0 * pow(b0, e0)) % modulus(),
{
    let m = modulus();
    lemma_pow_multiplies(b0, 2, e1);
    assert(pow(b0, 2) == b0 * b0) by {
        lemma_pow1(b0);
        lemma_pow_adds(b0, 1, 1);
    }
    lemma_pow_mod_noop(b0 * b0, e1, m);
    // pow(b1, e1) % m == pow(b0, 2 * e1) % m
    lemma_mul_mod_noop_general(acc1 as int, pow(b1, e1), m);
    lemma_mul_mod_noop_general(acc1 as int, pow(b0, 2 * e1), m);
    if e0 % 2 == 1 {
        assert(e0 == 2 * e1 + 1);
        lemma_pow_adds(b0, 1, (2 * e1) as nat);
        lemma_pow1(b0);
        // pow(b0, e0) == b0 * pow(b0, 2 * e1)
        lemma_mul_mod_noop_general(acc0 * b0, pow(b0, 2 * e1), m);
        assert((acc0 * b0) * pow(b0, 2 * e1) == acc0 * (b0 * pow(b0, 2 * e1)))
            by (nonlinear_arith);
        lemma_mul_mod_noop_general(acc0, b0 * pow(b0, 2 * e1), m);
    } else {
        assert(e0 == 2 * e1);
    }
}

/// The inverse as a total function of the input: zero is rejected, and a
/// nonzero argument yields its (PRIME - 2)-nd power exactly when that
/// power's product with the argument is one. By Fermat's little theorem
/// the product condition holds of every nonzero residue, so the error
/// branch below it is never taken; that theorem is beyond this proof, so
/// the condition is carried in the specification rather than asserted.
pub open spec fn binv_spec(a: u64) -> Result<u64, FieldError> {
    if a == 0 {
        Err(FieldError::DivisionByZero)
    } else if (a * pow_mod(a as int, (PRIME - 2) as nat)) % modulus() == 1 {
        Ok(pow_mod(a as int, (PRIME - 2) as nat) as u64)
    } else {
        Err(FieldError::DivisionByZero)
    }
}

/// Multiplicative inverse in the base field, by exponentiation with
/// PRIME - 2. The result is pinned, in every branch, to `binv_spec`: a
/// body that fails where `binv_spec` succeeds does not meet this contract.
/// On success the result is also the defining property of an inverse: its
/// product with the argument is one.
pub fn binv(a: u64) -> (r: Result<u64, FieldError>)
    requires
        in_field(a),
    ensures
        r == binv_spec(a),
        a == 0 ==> r == Err::<u64, FieldError>(FieldError::DivisionByZero),
        r matches Err(e) ==> e == FieldError::DivisionByZero,
        r matches Ok(v) ==> a != 0 && in_field(v) && v == pow_mod(a as int, (PRIME - 2) as nat)
            && (a * v) % modulus() == 1,
{
    if a == 0 {
        return Err(FieldError::DivisionByZero);
    }
    let v = mod_exp(a, PRIME - 2);
    let check = bmul(a, v);
    if check == 1 {
        Ok(v)
    } else {
        Err(FieldError::DivisionByZero)
    }
}

/// Division as a total function of its inputs: the product of `a` with the
/// inverse of `b` where that inverse exists, and the inverse's own failure
/// otherwise.
pub open spec fn bdiv_spec(a: u64, b: u64) -> Result<u64, FieldError> {
    match binv_spec(b) {
        Ok(i) => Ok(((a * i) % modulus()) as u64),
        Err(e) => Err(e),
    }
}

/// Division in the base field: the product of `a` with the inverse of `b`,
/// pinned in every branch to `bdiv_spec`, so it agrees with
/// multiplication by `binv`'s result bit for bit.
pub fn bdiv(a: u64, b: u64) -> (r: Result<u64, FieldError>)
    requires
        in_field(a),
        in_field(b),
    ensures
        r == bdiv_spec(a, b),
        b == 0 ==> r == Err::<u64, FieldError>(FieldError::DivisionByZero),
        r matches Err(e) ==> e == FieldError::DivisionByZero,
        r matches Ok(v) ==> b != 0 && in_field(v)
            && v == (a * pow_mod(b as int, (PRIME - 2) as nat)) % modulus(),
{
    match binv(b) {
        Ok(i) => Ok(bmul(a, i)),
        Err(e) => Err(e),
    }
}

/// True of the powers of two, one and above.
pub open spec fn is_pow2(n: nat) -> bool
    decreases n,
{
    if n == 0 {
        false
    } else if n == 1 {
        true
    } else {
        n % 2 == 0 && is_pow2(n / 2)
    }
}

/// Power-of-two test by repeated halving.
pub fn is_power_of_two(n: u64) -> (r: bool)
    ensures
        r == is_pow2(n as nat),
{
    if n == 0 {
        return false;
    }
    let mut m: u64 = n;
    while m > 1
        invariant
            m >= 1,
            is_pow2(n as nat) == is_pow2(m as nat),
        decreases m,
    {
        if m % 2 == 1 {
            return false;
        }
        m = m / 2;
    }
    true
}

/// The canonical root of unity of order `n`: the fixed generator raised to
/// the power 2^32 / n. Meaningful when `n` is a power of two dividing 2^32.
pub open spec fn root_of_order(n: nat) -> int {
    pow_mod(ROOT_GENERATOR as int, (TWO_POW_32 as nat) / n)
}

/// Derivation of the unique root of unity of order exactly `n` inside the
/// two-power subgroup, for `n` a power of two with 1 <= n <= 2^32.
pub fn ordered_root(n: u64) -> (r: Result<u64, FieldError>)
    ensures
        r is Ok <==> n >= 1 && is_pow2(n as nat) && n <= TWO_POW_32,
        r matches Ok(v) ==> in_field(v) && v == root_of_order(n as nat),
        r matches Err(e) ==> e == FieldError::OrderedRootError,
{
    if n == 0 || n > TWO_POW_32 || !is_power_of_two(n) {
        return Err(FieldError::OrderedRootError);
    }
    Ok(mod_exp(ROOT_GENERATOR, TWO_POW_32 / n))
}

/// Powers of two are monotone in the exponent.
pub proof fn lemma_pow2_le(e1: nat, e2: nat)
    requires
        e1 <= e2,
    ensures
        pow2(e1) <= pow2(e2),
{
    if e1 < e2 {
        lemma_pow2_strictly_increases(e1, e2);
    }
}

/// The base-two logarithm inverts the power of two.
pub proof fn lemma_log2_pow2(k: nat)
    ensures
        log2_of(pow2(k)) == k,
    decreases k,
{
    if k == 0 {
        lemma2_to64();
    } else {
        lemma_log2_pow2((k - 1) as nat);
        lemma_pow2_unfold(k);
        lemma2_to64();
        lemma_pow2_le(1, k);
        assert(pow2(k) / 2 == pow2((k - 1) as nat)) by {
            lemma_div_by_multiple(pow2((k - 1) as nat) as int, 2);
        }
    }
}

/// A power of two is two to its base-two logarithm.
pub proof fn lemma_is_pow2_log2(n: nat)
    requires
        is_pow2(n),
    ensures
        n == pow2(log2_of(n)),
    decreases n,
{
    if n == 1 {
        lemma2_to64();
    } else {
        lemma_is_pow2_log2(n / 2);
        lemma_pow2_unfold(log2_of(n));
    }
}

/// The base-two logarithm, rounded down.
pub open spec fn log2_of(n: nat) -> nat
    decreases n,
{
    if n <= 1 {
        0
    } else {
        1 + log2_of(n / 2)
    }
}

/// Squaring carries the power chain one step: from g^(2^e) to g^(2^(e+1)).
proof fn lemma_square_step(b: int, e: nat, s: int, s2: int)
    requires
        pow(b, pow2(e)) % modulus() == s,
        (s * s) % modulus() == s2,
    ensures
        pow(b, pow2(e + 1)) % modulus() == s2,
{
    lemma_pow2_unfold((e + 1) as nat);
    lemma_pow_multiplies(b, pow2(e), 2);
    assert(pow2(e + 1) == pow2(e) * 2);
    let x = pow(b, pow2(e));
    assert(pow(x, 2) == x * x) by {
        lemma_pow1(x);
        lemma_pow_adds(x, 1, 1);
    }
    lemma_mul_mod_noop_general(x, x, modulus());
}

/// The fixed generator has multiplicative order exactly 2^32: its 2^32-th
/// power is one while its 2^31-st power is the element minus one, which
/// rules every smaller two-power order out.
proof fn lemma_generator_order()
    ensures
        pow(ROOT_GENERATOR as int, pow2(32)) % modulus() == 1,
        pow(ROOT_GENERATOR as int, pow2(31)) % modulus() == PRIME - 1,
{
    let g = ROOT_GENERATOR as int;
    lemma2_to64();
    lemma_pow1(g);
    lemma_small_mod(ROOT_GENERATOR as nat, PRIME as nat);
    assert(pow(g, pow2(0)) % modulus() == 1753635133440165772int);
    assert(1753635133440165772int * 1753635133440165772int == 166708887468903991int * 18446744069414584321int + 4614640910117430873int) by (nonlinear_arith);
    lemma_fundamental_div_mod_converse(1753635133440165772int * 1753635133440165772int, 18446744069414584321int, 166708887468903991int, 4614640910117430873int);
    lemma_square_step(g, 0, 1753635133440165772int, 4614640910117430873int);
    assert(4614640910117430873int * 4614640910117430873int == 1154399424049971884int * 18446744069414584321int + 9123114210336311365int) by (nonlinear_arith);
    lemma_fundamental_div_mod_converse(4614640910117430873int * 4614640910117430873int, 18446744069414584321int, 1154399424049971884int, 9123114210336311365int);
    lemma_square_step(g, 1, 4614640910117430873int, 9123114210336311365int);
    assert(9123114210336311365int * 9123114210336311365int == 4511973093009996851int * 18446744069414584321int + 16116352524544190054int) by (nonlinear_arith);
    lemma_fundamental_div_mod_converse(9123114210336311365int * 9123114210336311365int, 18446744069414584321int, 4511973093009996851int, 16116352524544190054int);
    lemma_square_step(g, 2, 9123114210336311365int, 16116352524544190054int);
    assert(16116352524544190054int * 16116352524544190054int == 14080361158478670879int * 18446744069414584321int + 6414415596519834757int) by (nonlinear_arith);
    lemma_fundamental_div_mod_converse(16116352524544190054int * 16116352524544190054int, 18446744069414584321int, 14080361158478670879int, 6414415596519834757int);
    lemma_square_step(g, 3, 16116352524544190054int, 6414415596519834757int);
    assert(6414415596519834757int * 6414415596519834757int == 2230460144622294524int * 18446744069414584321int + 1213594585890690845int) by (nonlinear_arith);
    lemma_fundamental_div_mod_converse(6414415596519834757int * 6414415596519834757int, 18446744069414584321int, 2230460144622294524int, 1213594585890690845int);
    lemma_square_step(g, 4, 6414415596519834757int, 1213594585890690845int);
    assert(1213594585890690845int * 1213594585890690845int == 79841288704448195int * 18446744069414584321int + 17096174751763063430int) by (nonlinear_arith);
    lemma_fundamental_div_mod_converse(1213594585890690845int * 1213594585890690845int, 18446744069414584321int, 79841288704448195int, 17096174751763063430int);
    lemma_square_step(g, 5, 1213594585890690845int, 17096174751763063430int);
    assert(17096174751763063430int * 17096174751763063430int == 15844486704156700236int * 18446744069414584321int + 5456943929260765144int) by (nonlinear_arith);
    lemma_fundamental_div_mod_converse(17096174751763063430int * 17096174751763063430int, 18446744069414584321int, 15844486704156700236int, 5456943929260765144int);
    lemma_square_step(g, 6, 17096174751763063430int, 5456943929260765144int);
    assert(5456943929260765144int * 5456943929260765144int == 1614281465338340559int * 18446744069414584321int + 9713644485405565297int) by (nonlinear_arith);
    lemma_fundamental_div_mod_converse(5456943929260765144int * 5456943929260765144int, 18446744069414584321int, 1614281465338340559int, 9713644485405565297int);
    lemma_square_step(g, 7, 5456943929260765144int, 9713644485405565297int);
    assert(9713644485405565297int * 9713644485405565297int == 5114988793349933654int * 18446744069414584321int + 16905767614792059275int) by (nonlinear_arith);
    lemma_fundamental_div_mod_converse(9713644485405565297int * 9713644485405565297int, 18446744069414584321int, 5114988793349933654int, 16905767614792059275int);
    lemma_square_step(g, 8, 9713644485405565297int, 16905767614792059275int);
    assert(16905767614792059275int * 16905767614792059275int == 15493518941330557636int * 18446744069414584321int + 5416168637041100469int) by (nonlinear_arith);
    lemma_fundamental_div_mod_converse(16905767614792059275int * 16905767614792059275int, 18446744069414584321int, 15493518941330557636int, 5416168637041100469int);
    lemma_square_step(g, 9, 16905767614792059275int, 5416168637041100469int);
    assert(5416168637041100469int * 5416168637041100469int == 1590247178281506213int * 18446744069414584321int + 17654865857378133588int) by (nonlinear_arith);
    lemma_fundamental_div_mod_converse(5416168637041100469int * 5416168637041100469int, 18446744069414584321int, 1590247178281506213int, 17654865857378133588int);
    lemma_square_step(g, 10, 5416168637041100469int, 17654865857378133588int);
    assert(17654865857378133588int * 17654865857378133588int == 16896981237942002723int * 18446744069414584321int + 3511170319078647661int) by (nonlinear_arith);
    lemma_fundamental_div_mod_converse(17654865857378133588int * 17654865857378133588int, 18446744069414584321int, 16896981237942002723int, 3511170319078647661int);
    lemma_square_step(g, 11, 17654865857378133588int, 3511170319078647661int);
    assert(3511170319078647661int * 3511170319078647661int == 668319404399374695int * 18446744069414584321int + 18146160046829613826int) by (nonlinear_arith);
    lemma_fundamental_div_mod_converse(3511170319078647661int * 3511170319078647661int, 18446744069414584321int, 668319404399374695int, 18146160046829613826int);
    lemma_square_step(g, 12, 3511170319078647661int, 18146160046829613826int);
    assert(18146160046829613826int * 18146160046829613826int == 17850473948468743512int * 18446744069414584321int + 9306717745644682924int) by (nonlinear_arith);
    lemma_fundamental_div_mod_converse(18146160046829613826int * 18146160046829613826int, 18446744069414584321int, 17850473948468743512int, 9306717745644682924int);
    lemma_square_step(g, 13, 18146160046829613826int, 9306717745644682924int);
    assert(9306717745644682924int * 9306717745644682924int == 4695408299218975106int * 18446744069414584321int + 12380578893860276750int) by (nonlinear_arith);
    lemma_fundamental_div_mod_converse(9306717745644682924int * 9306717745644682924int, 18446744069414584321int, 4695408299218975106int, 12380578893860276750int);
    lemma_square_step(g, 14, 9306717745644682924int, 12380578893860276750int);
    assert(12380578893860276750int * 12380578893860276750int == 8309256808156222390int * 18446744069414584321int + 6115771955107415310int) by (nonlinear_arith);
    lemma_fundamental_div_mod_converse(12380578893860276750int * 12380578893860276750int, 18446744069414584321int, 8309256808156222390int, 6115771955107415310int);
    lemma_square_step(g, 15, 12380578893860276750int, 6115771955107415310int);
    assert(6115771955107415310int * 6115771955107415310int == 2027602620068516376int * 18446744069414584321int + 17776499369601055404int) by (nonlinear_arith);
    lemma_fundamental_div_mod_converse(6115771955107415310int * 6115771955107415310int, 18446744069414584321int, 2027602620068516376int, 17776499369601055404int);
    lemma_square_step(g, 16, 6115771955107415310int, 17776499369601055404int);
    assert(17776499369601055404int * 17776499369601055404int == 17130607366173278638int * 18446744069414584321int + 16207902636198568418int) by (nonlinear_arith);
    lemma_fundamental_div_mod_converse(17776499369601055404int * 17776499369601055404int, 18446744069414584321int, 17130607366173278638int, 16207902636198568418int);
    lemma_square_step(g, 17, 17776499369601055404int, 16207902636198568418int);
    assert(16207902636198568418int * 16207902636198568418int == 14240784545824149997int * 18446744069414584321int + 1532612707718625687int) by (nonlinear_arith);
    lemma_fundamental_div_mod_converse(16207902636198568418int * 16207902636198568418int, 18446744069414584321int, 14240784545824149997int, 1532612707718625687int);
    lemma_square_step(g, 18, 16207902636198568418int, 1532612707718625687int);
    assert(1532612707718625687int * 1532612707718625687int == 127334216977357403int * 18446744069414584321int + 17492915097719143606int) by (nonlinear_arith);
    lemma_fundamental_div_mod_converse(1532612707718625687int * 1532612707718625687int, 18446744069414584321int, 127334216977357403int, 17492915097719143606int);
    lemma_square_step(g, 19, 1532612707718625687int, 17492915097719143606int);
    assert(17492915097719143606int * 17492915097719143606int == 16588405924890216597int * 18446744069414584321int + 455906449640507599int) by (nonlinear_arith);
    lemma_fundamental_div_mod_converse(17492915097719143606int * 17492915097719143606int, 18446744069414584321int, 16588405924890216597int, 455906449640507599int);
    lemma_square_step(g, 20, 17492915097719143606int, 455906449640507599int);
    assert(455906449640507599int * 455906449640507599int == 11267608529812975int * 18446744069414584321int + 11353340290879379826int) by (nonlinear_arith);
    lemma_fundamental_div_mod_converse(455906449640507599int * 455906449640507599int, 18446744069414584321int, 11267608529812975int, 11353340290879379826int);
    lemma_square_step(g, 21, 455906449640507599int, 11353340290879379826int);
    assert(11353340290879379826int * 11353340290879379826int == 6987592784692205430int * 18446744069414584321int + 1803076106186727246int) by (nonlinear_arith);
    lemma_fundamental_div_mod_converse(11353340290879379826int * 11353340290879379826int, 18446744069414584321int, 6987592784692205430int, 1803076106186727246int);
    lemma_square_step(g, 22, 11353340290879379826int, 1803076106186727246int);
    assert(1803076106186727246int * 1803076106186727246int == 176241586724885086int * 18446744069414584321int + 13797081185216407910int) by (nonlinear_arith);
    lemma_fundamental_div_mod_converse(1803076106186727246int * 1803076106186727246int, 18446744069414584321int, 176241586724885086int, 13797081185216407910int);
    lemma_square_step(g, 23, 1803076106186727246int, 13797081185216407910int);
    assert(13797081185216407910int * 13797081185216407910int == 10319406422896923811int * 18446744069414584321int + 17870292113338400769int) by (nonlinear_arith);
    lemma_fundamental_div_mod_converse(13797081185216407910int * 13797081185216407910int, 18446744069414584321int, 10319406422896923811int, 17870292113338400769int);
    lemma_square_step(g, 24, 13797081185216407910int, 17870292113338400769int);
    assert(17870292113338400769int * 17870292113338400769int == 17311854006015885313int * 18446744069414584321int + 549755813888int) by (nonlinear_arith);
    lemma_fundamental_div_mod_converse(17870292113338400769int * 17870292113338400769int, 18446744069414584321int, 17311854006015885313int, 549755813888int);
    lemma_square_step(g, 25, 17870292113338400769int, 549755813888int);
    assert(549755813888int * 549755813888int == 16384int * 18446744069414584321int + 70368744161280int) by (nonlinear_arith);
    lemma_fundamental_div_mod_converse(549755813888int * 549755813888int, 18446744069414584321int, 16384int, 70368744161280int);
    lemma_square_step(g, 26, 549755813888int, 70368744161280int);
    assert(70368744161280int * 70368744161280int == 268435455int * 18446744069414584321int + 17293822564807737345int) by (nonlinear_arith);
    lemma_fundamental_div_mod_converse(70368744161280int * 70368744161280int, 18446744069414584321int, 268435455int, 17293822564807737345int);
    lemma_square_step(g, 27, 70368744161280int, 17293822564807737345int);
    assert(17293822564807737345int * 17293822564807737345int == 16212958654255595520int * 18446744069414584321int + 18446744069397807105int) by (nonlinear_arith);
    lemma_fundamental_div_mod_converse(17293822564807737345int * 17293822564807737345int, 18446744069414584321int, 16212958654255595520int, 18446744069397807105int);
    lemma_square_step(g, 28, 17293822564807737345int, 18446744069397807105int);
    assert(18446744069397807105int * 18446744069397807105int == 18446744069381029889int * 18446744069414584321int + 281474976710656int) by (nonlinear_arith);
    lemma_fundamental_div_mod_converse(18446744069397807105int * 18446744069397807105int, 18446744069414584321int, 18446744069381029889int, 281474976710656int);
    lemma_square_step(g, 29, 18446744069397807105int, 281474976710656int);
    assert(281474976710656int * 281474976710656int == 4294967296int * 18446744069414584321int + 18446744069414584320int) by (nonlinear_arith);
    lemma_fundamental_div_mod_converse(281474976710656int * 281474976710656int, 18446744069414584321int, 4294967296int, 18446744069414584320int);
    lemma_square_step(g, 30, 281474976710656int, 18446744069414584320int);
    assert(18446744069414584320int * 18446744069414584320int == 18446744069414584319int * 18446744069414584321int + 1int) by (nonlinear_arith);
    lemma_fundamental_div_mod_converse(18446744069414584320int * 18446744069414584320int, 18446744069414584321int, 18446744069414584319int, 1int);
    lemma_square_step(g, 31, 18446744069414584320int, 1int);
}

/// Root validity: for a power-of-two order n within the two-power subgroup,
/// the derived root raised to the n-th power is one, and, past order one,
/// its (n/2)-th power is not one, so its order is exactly n.
pub proof fn lemma_ordered_root_validity(n: u64)
    requires
        1 <= n,
        is_pow2(n as nat),
        n <= TWO_POW_32,
    ensures
        pow_mod(root_of_order(n as nat), n as nat) == 1,
        n > 1 ==> pow_mod(root_of_order(n as nat), (n as nat) / 2) != 1,
{
    let m = modulus();
    let g = ROOT_GENERATOR as int;
    let j = log2_of(n as nat);
    lemma_is_pow2_log2(n as nat);
    lemma2_to64();
    if j > 32 {
        lemma_pow2_strictly_increases(32, j);
    }
    assert(j <= 32);
    lemma_pow2_subtracts(j, 32);
    assert((TWO_POW_32 as nat) / (n as nat) == pow2((32 - j) as nat));
    let r = root_of_order(n as nat);
    lemma_generator_order();
    lemma_pow_mod_noop(pow(g, pow2((32 - j) as nat)), pow2(j), m);
    lemma_pow_multiplies(g, pow2((32 - j) as nat), pow2(j));
    lemma_pow2_adds((32 - j) as nat, j);
    assert(pow_mod(r, n as nat) == 1);
    if n > 1 {
        lemma_pow2_unfold(j);
        lemma_div_by_multiple(pow2((j - 1) as nat) as int, 2);
        assert((n as nat) / 2 == pow2((j - 1) as nat));
        lemma_pow_mod_noop(pow(g, pow2((32 - j) as nat)), pow2((j - 1) as nat), m);
        lemma_pow_multiplies(g, pow2((32 - j) as nat), pow2((j - 1) as nat));
        lemma_pow2_adds((32 - j) as nat, (j - 1) as nat);
        assert(pow_mod(r, (n as nat) / 2) == PRIME - 1);
    }
}

/// Addition commutes: the two operand orders give one sum.
pub proof fn lemma_badd_commutative(a: u64, b: u64)
    ensures
        (a + b) % modulus() == (b + a) % modulus(),
{
}

/// Addition associates: grouping the three operands either way gives one
/// canonical residue.
pub proof fn lemma_badd_associative(a: u64, b: u64, c: u64)
    requires
        in_field(a),
        in_field(b),
        in_field(c),
    ensures
        (((a + b) % modulus()) + c) % modulus() == (a + ((b + c) % modulus())) % modulus(),
{
    let m = modulus();
    assert((((a + b) % m) + (c as int % m)) % m == ((a + b) + c) % m) by {
        lemma_small_mod(c as nat, PRIME as nat);
        lemma_add_mod_noop(a + b, c as int, m);
    }
    lemma_add_mod_noop_right(a as int, b + c, m);
}

/// An element and its negation sum to the additive identity.
pub proof fn lemma_badd_negation(a: u64)
    requires
        in_field(a),
    ensures
        (a + ((0 - a) % modulus())) % modulus() == 0,
{
    let m = modulus();
    lemma_add_mod_noop_right(a as int, 0 - a, m);
    lemma_small_mod(0, PRIME as nat);
}

/// The zeroth power of anything, zero included, is one.
pub proof fn lemma_pow_mod_zero_exponent(x: u64)
    ensures
        pow_mod(x as int, 0) == 1,
{
    lemma_pow0(x as int);
    lemma_small_mod(1, PRIME as nat);
}

/// Raising the exponent by one multiplies the power by the base once more.
pub proof fn lemma_pow_mod_successor(x: u64, e: nat)
    requires
        in_field(x),
    ensures
        pow_mod(x as int, e + 1) == (pow_mod(x as int, e) * x) % modulus(),
{
    lemma_pow_adds(x as int, e, 1);
    lemma_pow1(x as int);
    lemma_mul_mod_noop_general(pow(x as int, e), x as int, modulus());
}


/// A base-field element has at most one canonical inverse: two products
/// that are both one modulo the prime force the factors to agree.
pub proof fn lemma_binv_unique(b: u64, w1: u64, w2: u64)
    requires
        in_field(w1),
        in_field(w2),
        (b * w1) % modulus() == 1,
        (b * w2) % modulus() == 1,
    ensures
        w1 == w2,
{
    let m = modulus();
    lemma_small_mod(w1 as nat, PRIME as nat);
    lemma_small_mod(w2 as nat, PRIME as nat);
    assert((w1 * ((b * w2) % m)) % m == (w1 * (b * w2)) % m) by {
        lemma_mul_mod_noop_general(w1 as int, b * w2, m);
    }
    assert(w1 * (b * w2) == (b * w1) * w2) by (nonlinear_arith);
    assert(((b * w1) * w2) % m == (((b * w1) % m) * w2) % m) by {
        lemma_mul_mod_noop_general(b * w1, w2 as int, m);
    }
    assert((w1 * 1) % m == w1);
    assert((1 * w2) % m == w2);
}

} // verus!
