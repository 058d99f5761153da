//! The in-place radix-2 number-theoretic transform over the base field.
//!
//! The kernel first reorders its input by the bit-reversal permutation, then
//! runs the butterfly stages with a running twiddle factor per block. Its
//! result is stated stage by stage: `ntt_spec` is the permutation followed by
//! every butterfly stage in order of doubling length.
use vstd::prelude::*;
use vstd::arithmetic::div_mod::lemma_add_mod_noop;
use vstd::arithmetic::div_mod::lemma_add_mod_noop_right;
use vstd::arithmetic::div_mod::lemma_mul_mod_noop_left;
use vstd::arithmetic::div_mod::lemma_sub_mod_noop;
use vstd::arithmetic::div_mod::lemma_div_by_multiple;
use vstd::arithmetic::div_mod::lemma_div_multiples_vanish_fancy;
use vstd::arithmetic::div_mod::lemma_fundamental_div_mod;
use vstd::arithmetic::div_mod::lemma_mod_bound;
use vstd::arithmetic::div_mod::lemma_mod_mod;
use vstd::arithmetic::div_mod::lemma_mod_multiples_basic;
use vstd::arithmetic::div_mod::lemma_mod_multiples_vanish;
use vstd::arithmetic::div_mod::lemma_mul_mod_noop_general;
use vstd::arithmetic::div_mod::lemma_small_mod;
use vstd::arithmetic::div_mod::lemma_sub_mod_noop_right;
use vstd::arithmetic::power::pow;
use vstd::arithmetic::power2::lemma2_to64;
use vstd::arithmetic::power2::lemma2_to64_rest;
use vstd::arithmetic::power2::lemma_pow2_adds;
use vstd::arithmetic::power2::lemma_pow2_pos;
use vstd::arithmetic::power2::lemma_pow2_strictly_increases;
use vstd::arithmetic::power2::lemma_pow2_unfold;
use vstd::arithmetic::power2::pow2;
use crate::base::badd;
use crate::base::bmul;
use crate::base::bsub;
use crate::base::in_field;
use crate::base::is_pow2;
use crate::base::lemma_is_pow2_log2;
use crate::base::lemma_log2_pow2;
use crate::base::lemma_pow2_le;
use crate::base::log2_of;
use crate::base::is_power_of_two;
use crate::base::mod_exp;
use crate::base::modulus;
use crate::base::ordered_root;
use crate::base::pow_mod;
use crate::base::root_of_order;
use crate::base::PRIME;
use crate::base::TWO_POW_32;
use crate::FieldError;

verus! {

/// True when every entry of the sequence is a canonical residue.
pub open spec fn all_in_field(s: Seq<u64>) -> bool {
    forall|i: int| 0 <= i < s.len() ==> in_field(#[trigger] s[i])
}

/// The value of `x` with its low `k` bits reversed (higher bits dropped).
pub open spec fn rev_bits(x: nat, k: nat) -> nat
    decreases k,
{
    if k == 0 {
        0
    } else {
        rev_bits(x / 2, (k - 1) as nat) + (x % 2) * pow2((k - 1) as nat)
    }
}

proof fn lemma_rev_bits_zero(k: nat)
    ensures
        rev_bits(0, k) == 0,
    decreases k,
{
    if k > 0 {
        lemma_rev_bits_zero((k - 1) as nat);
        assert(rev_bits(0, k) == rev_bits(0, (k - 1) as nat) + (0nat % 2) * pow2((k - 1) as nat));
        assert((0nat % 2) * pow2((k - 1) as nat) == 0) by {
            vstd::arithmetic::mul::lemma_mul_basics(pow2((k - 1) as nat) as int);
        }
    }
}

proof fn lemma_rev_bits_bound(x: nat, k: nat)
    ensures
        rev_bits(x, k) < pow2(k),
    decreases k,
{
    if k == 0 {
        lemma2_to64();
    } else {
        let km1 = (k - 1) as nat;
        lemma_rev_bits_bound(x / 2, km1);
        lemma_pow2_unfold(k);
        if x % 2 == 0 {
            assert((x % 2) * pow2(km1) == 0);
        } else {
            assert((x % 2) * pow2(km1) == pow2(km1));
        }
    }
}

/// Attaching a bit above the top of `x` reverses to that bit below the
/// reversal of `x`.
proof fn lemma_rev_bits_compose(x: nat, b: nat, k: nat)
    requires
        k >= 1,
        x < pow2((k - 1) as nat),
        b < 2,
    ensures
        rev_bits(x + b * pow2((k - 1) as nat), k) == 2 * rev_bits(x, (k - 1) as nat) + b,
    decreases k,
{
    let km1 = (k - 1) as nat;
    let y = x + b * pow2(km1);
    if k == 1 {
        lemma2_to64();
        assert(x == 0);
        assert(y == b);
        assert(rev_bits(y, 1) == rev_bits(y / 2, 0) + (y % 2) * pow2(0));
    } else {
        let km2 = (k - 2) as nat;
        lemma_pow2_unfold(km1);
        assert(pow2(km1) == 2 * pow2(km2));
        assert(y == 2 * (b * pow2(km2)) + x) by {
            assert(b * (2 * pow2(km2)) == 2 * (b * pow2(km2)));
        }
        assert(y == 2 * (b * pow2(km2) + x / 2) + x % 2);
        assert(y / 2 == b * pow2(km2) + x / 2) by {
            lemma_div_multiples_vanish_fancy((b * pow2(km2) + x / 2) as int, (x % 2) as int, 2);
        }
        assert(y % 2 == x % 2) by {
            lemma_mod_multiples_vanish((b * pow2(km2)) as int, x as int, 2);
        }
        assert(x / 2 < pow2(km2));
        lemma_rev_bits_compose(x / 2, b, km1);
        assert(rev_bits(y, k) == rev_bits(y / 2, km1) + (y % 2) * pow2(km1));
        assert(rev_bits(x, km1) == rev_bits(x / 2, km2) + (x % 2) * pow2(km2));
        assert((x % 2) * pow2(km1) == 2 * ((x % 2) * pow2(km2))) by {
            assert(forall|c: nat, d: nat| #[trigger] (c * (2 * d)) == 2 * (c * d))
                by (nonlinear_arith);
        }
    }
}

/// Reversing the low `k` bits twice is the identity on values below 2^k.
proof fn lemma_rev_bits_involution(x: nat, k: nat)
    requires
        x < pow2(k),
    ensures
        rev_bits(rev_bits(x, k), k) == x,
    decreases k,
{
    if k == 0 {
        lemma2_to64();
    } else {
        let km1 = (k - 1) as nat;
        lemma_pow2_unfold(k);
        lemma_rev_bits_bound(x / 2, km1);
        lemma_rev_bits_compose(rev_bits(x / 2, km1), x % 2, k);
        lemma_rev_bits_involution(x / 2, km1);
    }
}

/// The bit-reversal permutation: entry `i` holds the entry whose index has
/// the reversed bits of `i`.
pub open spec fn bit_rev_permuted(s: Seq<u64>, k: nat) -> Seq<u64> {
    Seq::new(s.len(), |i: int| s[rev_bits(i as nat, k) as int])
}

/// Applying the bit-reversal permutation of a power-of-two length twice
/// restores the original order.
pub proof fn lemma_bit_reversal_involution(s: Seq<u64>, k: nat)
    requires
        s.len() == pow2(k),
    ensures
        bit_rev_permuted(bit_rev_permuted(s, k), k) == s,
{
    let u = bit_rev_permuted(bit_rev_permuted(s, k), k);
    assert forall|i: int| 0 <= i < s.len() implies u[i] == s[i] by {
        lemma_rev_bits_bound(i as nat, k);
        lemma_rev_bits_involution(i as nat, k);
    }
    assert(u =~= s);
}

/// 2^e as a machine integer.
fn pow2_u64(e: u64) -> (r: u64)
    requires
        e <= 63,
    ensures
        r == pow2(e as nat),
{
    let mut r: u64 = 1;
    let mut i: u64 = 0;
    proof {
        lemma2_to64();
    }
    while i < e
        invariant
            i <= e,
            e <= 63,
            r == pow2(i as nat),
        decreases e - i,
    {
        proof {
            lemma_pow2_unfold((i + 1) as nat);
            if i < 62 {
                lemma_pow2_strictly_increases(i as nat, 62);
            }
            lemma2_to64();
            lemma2_to64_rest();
        }
        r = r * 2;
        i = i + 1;
    }
    r
}

/// The low `k` bits of `x`, reversed.
fn rev_bits_exec(x: u64, k: u64) -> (r: u64)
    requires
        k <= 63,
    ensures
        r == rev_bits(x as nat, k as nat),
        r < pow2(k as nat),
    decreases k,
{
    if k == 0 {
        proof {
            lemma2_to64();
        }
        0
    } else {
        let rest = rev_bits_exec(x / 2, k - 1);
        let p = pow2_u64(k - 1);
        proof {
            lemma_pow2_unfold(k as nat);
            if k - 1 < 62 {
                lemma_pow2_strictly_increases((k - 1) as nat, 62);
            }
            lemma2_to64();
            lemma2_to64_rest();
        }
        if x % 2 == 1 {
            rest + p
        } else {
            rest
        }
    }
}

/// In-place bit-reversal permutation of a buffer of length 2^k: positions
/// `i` and `rev_bits(i, k)` are swapped once per unordered pair.
pub fn bit_reverse_permute(a: &mut Vec<u64>, k: u64)
    requires
        old(a)@.len() == pow2(k as nat),
        k <= 63,
    ensures
        final(a)@ == bit_rev_permuted(old(a)@, k as nat),
{
    let n = a.len();
    proof {
        lemma_pow2_pos(k as nat);
        assert forall|m: int|
            0 <= m < n implies a@[m] == (if m < 1 || rev_bits(m as nat, k as nat) < 1 {
            old(a)@[rev_bits(m as nat, k as nat) as int]
        } else {
            old(a)@[m]
        }) by {
            lemma_rev_bits_zero(k as nat);
            lemma_rev_bits_involution(m as nat, k as nat);
        }
    }
    let mut i: usize = 1;
    while i < n
        invariant
            1 <= i <= n,
            a@.len() == n,
            n == pow2(k as nat),
            k <= 63,
            old(a)@.len() == n,
            forall|m: int|
                0 <= m < n ==> a@[m] == (if m < i || rev_bits(m as nat, k as nat) < i {
                    old(a)@[rev_bits(m as nat, k as nat) as int]
                } else {
                    old(a)@[m]
                }),
        decreases n - i,
    {
        let j64 = rev_bits_exec(i as u64, k);
        let j = j64 as usize;
        let ghost prev = a@;
        proof {
            lemma_rev_bits_involution(i as nat, k as nat);
        }
        if i < j {
            let ai = a[i];
            let aj = a[j];
            a[i] = aj;
            a[j] = ai;
        }
        proof {
            assert forall|m: int|
                0 <= m < n implies a@[m] == (if m < i + 1 || rev_bits(m as nat, k as nat) < i + 1 {
                old(a)@[rev_bits(m as nat, k as nat) as int]
            } else {
                old(a)@[m]
            }) by {
                lemma_rev_bits_involution(m as nat, k as nat);
                lemma_rev_bits_bound(m as nat, k as nat);
                if m == i {
                    if i < j {
                        assert(a@[m] == prev[j as int]);
                    }
                } else if m == j && i < j {
                    assert(a@[m] == prev[i as int]);
                }
            }
        }
        i = i + 1;
    }
    proof {
        assert forall|m: int| 0 <= m < n implies a@[m] == bit_rev_permuted(old(a)@, k as nat)[m]
        by {
            lemma_rev_bits_bound(m as nat, k as nat);
        }
        assert(a@ =~= bit_rev_permuted(old(a)@, k as nat));
    }
}

/// One butterfly stage over blocks of `len` entries with twiddle step
/// `step`: entry `t` at offset `off` of its block pairs with the entry
/// `len / 2` away, through the twiddle `step^off`.
pub open spec fn butterfly_stage(s: Seq<u64>, len: nat, step: int) -> Seq<u64> {
    Seq::new(
        s.len(),
        |t: int|
            {
                let off = t % (len as int);
                let half = len as int / 2;
                if off < half {
                    ((s[t] + s[t + half] * pow_mod(step, off as nat)) % modulus()) as u64
                } else {
                    ((s[t - half] - s[t] * pow_mod(step, (off - half) as nat)) % modulus()) as u64
                }
            },
    )
}

/// The first `m` butterfly stages over a buffer of length 2^k: stage number
/// `j` works on blocks of length 2^j with twiddle step `root^(2^(k-j))`.
pub open spec fn stages_upto(s: Seq<u64>, root: u64, k: nat, m: nat) -> Seq<u64>
    decreases m,
{
    if m == 0 {
        s
    } else {
        butterfly_stage(
            stages_upto(s, root, k, (m - 1) as nat),
            pow2(m),
            pow_mod(root as int, pow2((k - m) as nat)),
        )
    }
}

/// The forward transform of a buffer of length 2^k with the given root:
/// the bit-reversal permutation followed by every butterfly stage.
pub open spec fn ntt_spec(s: Seq<u64>, root: u64, k: nat) -> Seq<u64> {
    stages_upto(bit_rev_permuted(s, k), root, k, k)
}

/// A block start strictly inside the buffer leaves room for a whole block.
proof fn lemma_block_bound(i: int, n: int, len: int)
    requires
        len > 0,
        i % len == 0,
        n % len == 0,
        0 <= i < n,
    ensures
        i + len <= n,
{
    lemma_fundamental_div_mod(i, len);
    lemma_fundamental_div_mod(n, len);
    let q = i / len;
    let qq = n / len;
    assert(q < qq) by (nonlinear_arith)
        requires
            i == len * q,
            n == len * qq,
            i < n,
            len > 0,
    ;
    assert(len * q + len <= len * qq) by (nonlinear_arith)
        requires
            q < qq,
            len > 0,
    ;
}

/// Adding an in-block offset to a block start leaves exactly that offset
/// modulo the block length.
proof fn lemma_mod_offset(i: int, j: int, len: int)
    requires
        len > 0,
        0 <= i,
        i % len == 0,
        0 <= j < len,
    ensures
        (i + j) % len == j,
{
    lemma_fundamental_div_mod(i, len);
    lemma_mod_multiples_vanish(i / len, j, len);
    lemma_small_mod(j as nat, len as nat);
}

/// In-place radix-2 decimation-in-time transform with an explicit root:
/// bit-reversal permutation, then butterfly stages of doubling length, the
/// running twiddle advancing once per butterfly inside each block.
pub fn radix2_ntt_inplace(a: &mut Vec<u64>, root: u64)
    requires
        is_pow2(old(a)@.len() as nat),
        all_in_field(old(a)@),
    ensures
        final(a)@ == ntt_spec(old(a)@, root, log2_of(old(a)@.len() as nat)),
        all_in_field(final(a)@),
{
    let n = a.len();
    let mut k: u64 = 0;
    let mut m: usize = 1;
    proof {
        lemma_is_pow2_log2(n as nat);
        lemma2_to64();
    }
    while m < n
        invariant
            m == pow2(k as nat),
            1 <= m <= n,
            k <= 63,
            n == pow2(log2_of(n as nat)),
        decreases n - m,
    {
        proof {
            if k as nat >= log2_of(n as nat) {
                lemma_pow2_le(log2_of(n as nat), k as nat);
            }
            lemma_pow2_le((k + 1) as nat, log2_of(n as nat));
            lemma_pow2_unfold((k + 1) as nat);
            if k + 1 >= 64 {
                lemma_pow2_le(64, (k + 1) as nat);
                lemma2_to64_rest();
            }
        }
        m = m * 2;
        k = k + 1;
    }
    proof {
        assert(pow2(k as nat) == n as nat);
        lemma_log2_pow2(k as nat);
        assert(k == log2_of(n as nat));
        if k >= 64 {
            lemma_pow2_le(64, k as nat);
            lemma2_to64_rest();
        }
        assert(k <= 63);
    }
    bit_reverse_permute(a, k);
    let ghost s0 = a@;
    proof {
        assert forall|t: int| 0 <= t < n implies in_field(#[trigger] a@[t]) by {
            lemma_rev_bits_bound(t as nat, k as nat);
        }
    }
    let mut st: u64 = 1;
    while st <= k
        invariant
            1 <= st <= k + 1,
            a@.len() == n,
            s0.len() == n,
            n == pow2(k as nat),
            k <= 63,
            a@ == stages_upto(s0, root, k as nat, (st - 1) as nat),
            all_in_field(a@),
        decreases k + 1 - st,
    {
        let l64 = pow2_u64(st);
        proof {
            lemma_pow2_le(st as nat, k as nat);
        }
        let len: usize = l64 as usize;
        let half: usize = len / 2;
        proof {
            lemma_pow2_unfold(st as nat);
            lemma_pow2_pos((st - 1) as nat);
            lemma_pow2_adds(st as nat, (k - st) as nat);
            lemma_mod_multiples_basic(pow2((k - st) as nat) as int, len as int);
            lemma_div_by_multiple(pow2((k - st) as nat) as int, len as int);
            vstd::arithmetic::mul::lemma_mul_is_commutative(
                len as int,
                pow2((k - st) as nat) as int,
            );
            assert(n as int == pow2((k - st) as nat) as int * len as int);
            assert(n % len == 0);
            assert(n / len == pow2((k - st) as nat));
            assert(half == pow2((st - 1) as nat));
        }
        let wlen: u64 = mod_exp(root, (n / len) as u64);
        let ghost prev = a@;
        let ghost next = butterfly_stage(prev, len as nat, wlen as int);
        let mut i: usize = 0;
        while i < n
            invariant
                0 <= i <= n,
                i % len == 0,
                n % len == 0,
                a@.len() == n,
                prev.len() == n,
                len == pow2(st as nat),
                half == len / 2,
                len == 2 * half,
                1 <= half,
                len <= n,
                wlen == pow_mod(root as int, pow2((k - st) as nat)),
                in_field(wlen),
                1 <= st <= k,
                next == butterfly_stage(prev, len as nat, wlen as int),
                all_in_field(prev),
                all_in_field(a@),
                forall|t: int| 0 <= t < i ==> a@[t] == next[t],
                forall|t: int| i <= t < n ==> a@[t] == prev[t],
            decreases n - i,
        {
            proof {
                lemma_block_bound(i as int, n as int, len as int);
            }
            let mut w: u64 = 1;
            let mut j: usize = 0;
            proof {
                vstd::arithmetic::power::lemma_pow0(wlen as int);
                lemma_small_mod(1, PRIME as nat);
            }
            while j < half
                invariant
                    0 <= j <= half,
                    i + len <= n,
                    i % len == 0,
                    a@.len() == n,
                    prev.len() == n,
                    half == len / 2,
                    len == 2 * half,
                    1 <= half,
                    w == pow_mod(wlen as int, j as nat),
                    in_field(w),
                    in_field(wlen),
                    next == butterfly_stage(prev, len as nat, wlen as int),
                    all_in_field(prev),
                    all_in_field(a@),
                    forall|t: int| 0 <= t < i ==> a@[t] == next[t],
                    forall|t: int| i <= t < i + j ==> a@[t] == next[t],
                    forall|t: int| i + j <= t < i + half ==> a@[t] == prev[t],
                    forall|t: int| i + half <= t < i + half + j ==> a@[t] == next[t],
                    forall|t: int| i + half + j <= t < n ==> a@[t] == prev[t],
                decreases half - j,
            {
                let u = a[i + j];
                let c = a[i + j + half];
                let v = bmul(c, w);
                let x = badd(u, v);
                let y = bsub(u, v);
                a[i + j] = x;
                a[i + j + half] = y;
                proof {
                    let pm = pow_mod(wlen as int, j as nat);
                    lemma_mod_offset(i as int, j as int, len as int);
                    lemma_mod_offset(i as int, (j + half) as int, len as int);
                    lemma_add_mod_noop_right(u as int, c as int * pm, modulus());
                    lemma_sub_mod_noop_right(u as int, c as int * pm, modulus());
                    assert(x == next[i + j]);
                    assert(y == next[i + j + half]);
                }
                let ghost wold = w;
                w = bmul(w, wlen);
                proof {
                    lemma_mul_mod_noop_general(pow(wlen as int, j as nat), wlen as int, modulus());
                    assert(pow(wlen as int, (j + 1) as nat) == pow(wlen as int, j as nat) * (
                    wlen as int)) by {
                        vstd::arithmetic::power::lemma_pow1(wlen as int);
                        vstd::arithmetic::power::lemma_pow_adds(wlen as int, j as nat, 1);
                    }
                    assert(w == pow_mod(wlen as int, (j + 1) as nat));
                }
                j = j + 1;
            }
            i = i + len;
            proof {
                lemma_mod_multiples_vanish(1, (i - len) as int, len as int);
            }
        }
        proof {
            assert(a@ =~= next);
            assert(a@ == stages_upto(s0, root, k as nat, st as nat));
        }
        st = st + 1;
    }
}

/// Forward transform with a caller-supplied root. The length is validated
/// before any mutation: on a length that is zero or not a power of two the
/// buffer is left untouched.
pub fn transform_with_root(a: &mut Vec<u64>, root: u64) -> (r: Result<(), FieldError>)
    requires
        all_in_field(old(a)@),
    ensures
        r is Ok <==> is_pow2(old(a)@.len() as nat),
        r matches Err(e) ==> e == FieldError::InvalidLength && final(a)@ == old(a)@,
        r is Ok ==> final(a)@ == ntt_spec(old(a)@, root, log2_of(old(a)@.len() as nat))
            && all_in_field(final(a)@),
{
    let n = a.len();
    if !is_power_of_two(n as u64) {
        return Err(FieldError::InvalidLength);
    }
    radix2_ntt_inplace(a, root);
    Ok(())
}

/// Forward transform with a self-derived root: the root of unity of order
/// exactly the length. Fails on a length that is zero or not a power of two,
/// or beyond the largest two-power subgroup order; the buffer is then left
/// untouched.
pub fn transform(a: &mut Vec<u64>) -> (r: Result<(), FieldError>)
    requires
        all_in_field(old(a)@),
    ensures
        r is Ok <==> is_pow2(old(a)@.len() as nat) && old(a)@.len() <= TWO_POW_32 as nat,
        !is_pow2(old(a)@.len() as nat) ==> r == Err::<(), FieldError>(FieldError::InvalidLength),
        is_pow2(old(a)@.len() as nat) && old(a)@.len() > TWO_POW_32 as nat ==> r == Err::<
            (),
            FieldError,
        >(FieldError::OrderedRootError),
        r is Err ==> final(a)@ == old(a)@,
        r is Ok ==> final(a)@ == ntt_spec(
            old(a)@,
            root_of_order(old(a)@.len() as nat) as u64,
            log2_of(old(a)@.len() as nat),
        ) && all_in_field(final(a)@),
{
    let n = a.len();
    if !is_power_of_two(n as u64) {
        return Err(FieldError::InvalidLength);
    }
    let root = match ordered_root(n as u64) {
        Ok(r0) => r0,
        Err(_) => {
            return Err(FieldError::OrderedRootError);
        },
    };
    radix2_ntt_inplace(a, root);
    Ok(())
}

/// Elementwise modular addition of two sequences of equal length.
pub open spec fn seq_add_mod(x: Seq<u64>, y: Seq<u64>) -> Seq<u64> {
    Seq::new(x.len(), |i: int| (((x[i] + y[i]) % modulus()) as u64))
}

/// The upper butterfly output is linear in its two inputs.
proof fn lemma_butterfly_linear_top(a1: int, a2: int, b1: int, b2: int, pw: int, m: int)
    requires
        m > 0,
    ensures
        (((a1 + a2) % m) + ((b1 + b2) % m) * pw) % m == (((a1 + b1 * pw) % m) + ((a2 + b2 * pw)
            % m)) % m,
{
    lemma_add_mod_noop_right((a1 + a2) % m, ((b1 + b2) % m) * pw, m);
    lemma_mul_mod_noop_left(b1 + b2, pw, m);
    lemma_add_mod_noop(a1 + a2, (b1 + b2) * pw, m);
    assert((b1 + b2) * pw == b1 * pw + b2 * pw) by (nonlinear_arith);
    lemma_add_mod_noop(a1 + b1 * pw, a2 + b2 * pw, m);
}

/// The lower butterfly output is linear in its two inputs.
proof fn lemma_butterfly_linear_bottom(a1: int, a2: int, b1: int, b2: int, pw: int, m: int)
    requires
        m > 0,
    ensures
        (((a1 + a2) % m) - ((b1 + b2) % m) * pw) % m == (((a1 - b1 * pw) % m) + ((a2 - b2 * pw)
            % m)) % m,
{
    lemma_sub_mod_noop_right((a1 + a2) % m, ((b1 + b2) % m) * pw, m);
    lemma_mul_mod_noop_left(b1 + b2, pw, m);
    lemma_sub_mod_noop(a1 + a2, (b1 + b2) * pw, m);
    assert((b1 + b2) * pw == b1 * pw + b2 * pw) by (nonlinear_arith);
    lemma_add_mod_noop(a1 - b1 * pw, a2 - b2 * pw, m);
}

/// One butterfly stage commutes with elementwise addition.
proof fn lemma_stage_linear(x: Seq<u64>, y: Seq<u64>, len: nat, step: int)
    requires
        x.len() == y.len(),
        len >= 2,
        len % 2 == 0,
        x.len() % len == 0,
    ensures
        butterfly_stage(seq_add_mod(x, y), len, step) == seq_add_mod(
            butterfly_stage(x, len, step),
            butterfly_stage(y, len, step),
        ),
{
    let s = seq_add_mod(x, y);
    let lhs = butterfly_stage(s, len, step);
    let rhs = seq_add_mod(butterfly_stage(x, len, step), butterfly_stage(y, len, step));
    let m = modulus();
    assert forall|t: int| 0 <= t < x.len() implies lhs[t] == rhs[t] by {
        let l = len as int;
        let off = t % l;
        let half = l / 2;
        lemma_fundamental_div_mod(t, l);
        lemma_mod_bound(t, l);
        lemma_mod_multiples_basic(t / l, l);
        vstd::arithmetic::mul::lemma_mul_is_commutative(l, t / l);
        lemma_block_bound(l * (t / l), x.len() as int, l);
        if off < half {
            let pw = pow_mod(step, off as nat);
            lemma_butterfly_linear_top(
                x[t] as int,
                y[t] as int,
                x[t + half] as int,
                y[t + half] as int,
                pw,
                m,
            );
        } else {
            let pw = pow_mod(step, (off - half) as nat);
            lemma_butterfly_linear_bottom(
                x[t - half] as int,
                y[t - half] as int,
                x[t] as int,
                y[t] as int,
                pw,
                m,
            );
        }
    }
    assert(lhs =~= rhs);
}

/// Every prefix of the butterfly stages commutes with elementwise addition.
proof fn lemma_stages_linear(x: Seq<u64>, y: Seq<u64>, root: u64, k: nat, m: nat)
    requires
        m <= k,
        x.len() == pow2(k),
        y.len() == pow2(k),
    ensures
        stages_upto(seq_add_mod(x, y), root, k, m) == seq_add_mod(
            stages_upto(x, root, k, m),
            stages_upto(y, root, k, m),
        ),
    decreases m,
{
    if m > 0 {
        lemma_stages_linear(x, y, root, k, (m - 1) as nat);
        lemma_stages_len(x, root, k, (m - 1) as nat);
        lemma_stages_len(y, root, k, (m - 1) as nat);
        lemma_pow2_unfold(m);
        lemma_pow2_pos((m - 1) as nat);
        lemma_pow2_adds(m, (k - m) as nat);
        vstd::arithmetic::mul::lemma_mul_is_commutative(pow2(m) as int, pow2((k - m) as nat) as int);
        lemma_mod_multiples_basic(pow2((k - m) as nat) as int, pow2(m) as int);
        lemma_stage_linear(
            stages_upto(x, root, k, (m - 1) as nat),
            stages_upto(y, root, k, (m - 1) as nat),
            pow2(m),
            pow_mod(root as int, pow2((k - m) as nat)),
        );
    }
}

/// Butterfly stages keep the sequence length.
proof fn lemma_stages_len(x: Seq<u64>, root: u64, k: nat, m: nat)
    ensures
        stages_upto(x, root, k, m).len() == x.len(),
    decreases m,
{
    if m > 0 {
        lemma_stages_len(x, root, k, (m - 1) as nat);
    }
}

/// The bit-reversal permutation commutes with elementwise addition.
proof fn lemma_perm_linear(x: Seq<u64>, y: Seq<u64>, k: nat)
    requires
        x.len() == pow2(k),
        y.len() == pow2(k),
    ensures
        bit_rev_permuted(seq_add_mod(x, y), k) == seq_add_mod(
            bit_rev_permuted(x, k),
            bit_rev_permuted(y, k),
        ),
{
    let lhs = bit_rev_permuted(seq_add_mod(x, y), k);
    let rhs = seq_add_mod(bit_rev_permuted(x, k), bit_rev_permuted(y, k));
    assert forall|t: int| 0 <= t < x.len() implies lhs[t] == rhs[t] by {
        lemma_rev_bits_bound(t as nat, k);
    }
    assert(lhs =~= rhs);
}

/// Transform linearity: transforming the elementwise sum of two sequences
/// of one power-of-two length with one root equals the elementwise sum of
/// their transforms.
pub proof fn lemma_transform_linear(x: Seq<u64>, y: Seq<u64>, root: u64, k: nat)
    requires
        x.len() == pow2(k),
        y.len() == pow2(k),
    ensures
        ntt_spec(seq_add_mod(x, y), root, k) == seq_add_mod(
            ntt_spec(x, root, k),
            ntt_spec(y, root, k),
        ),
{
    lemma_perm_linear(x, y, k);
    lemma_stages_linear(bit_rev_permuted(x, k), bit_rev_permuted(y, k), root, k, k);
}

/// The all-ones sequence of the given length.
pub open spec fn all_ones(n: nat) -> Seq<u64> {
    Seq::new(n, |i: int| 1u64)
}

/// After `m` butterfly stages, the transform of the all-ones input is the
/// block pattern: the first entry of every block of length 2^m holds the
/// block length reduced into the field, every other entry is zero.
proof fn lemma_stages_ones(root: u64, k: nat, m: nat)
    requires
        m <= k,
    ensures
        stages_upto(all_ones(pow2(k)), root, k, m) == Seq::new(
            pow2(k),
            |t: int|
                if t % (pow2(m) as int) == 0 {
                    ((pow2(m) as int % modulus()) as u64)
                } else {
                    0u64
                },
        ),
    decreases m,
{
    let n = pow2(k) as int;
    let pattern = Seq::new(
        pow2(k),
        |t: int|
            if t % (pow2(m) as int) == 0 {
                ((pow2(m) as int % modulus()) as u64)
            } else {
                0u64
            },
    );
    if m == 0 {
        lemma2_to64();
        lemma_small_mod(1, PRIME as nat);
        assert forall|t: int| 0 <= t < n implies all_ones(pow2(k))[t] == pattern[t] by {
            assert(t % 1int == 0);
        }
        assert(stages_upto(all_ones(pow2(k)), root, k, 0) =~= pattern);
    } else {
        lemma_stages_ones(root, k, (m - 1) as nat);
        let prev = stages_upto(all_ones(pow2(k)), root, k, (m - 1) as nat);
        let step = pow_mod(root as int, pow2((k - m) as nat));
        let next = butterfly_stage(prev, pow2(m), step);
        let l = pow2(m) as int;
        let lm = pow2((m - 1) as nat) as int;
        let pm = modulus();
        lemma_pow2_unfold(m);
        lemma_pow2_pos((m - 1) as nat);
        assert(l == 2 * lm);
        lemma_div_by_multiple(lm, 2);
        assert(l / 2 == lm);
        lemma_pow2_adds(m, (k - m) as nat);
        vstd::arithmetic::mul::lemma_mul_is_commutative(l, pow2((k - m) as nat) as int);
        lemma_mod_multiples_basic(pow2((k - m) as nat) as int, l);
        assert(n % l == 0);
        assert(prev.len() == n);
        assert forall|t: int| 0 <= t < n implies next[t] == pattern[t] by {
            let off = t % l;
            lemma_mod_bound(t, l);
            lemma_mod_multiples_basic(t / l, l);
            vstd::arithmetic::mul::lemma_mul_is_commutative(l, t / l);
            lemma_fundamental_div_mod(t, l);
            lemma_block_bound(l * (t / l), n, l);
            vstd::arithmetic::mul::lemma_mul_is_commutative(lm, 2);
            lemma_mod_mod(t, lm, 2);
            assert(t % lm == off % lm);
            vstd::arithmetic::power::lemma_pow0(step);
            lemma_small_mod(1, PRIME as nat);
            vstd::arithmetic::mul::lemma_mul_basics(step);
            lemma_small_mod(0, PRIME as nat);
            if off < lm {
                assert((t + lm) % lm == t % lm) by {
                    lemma_mod_multiples_vanish(1, t, lm);
                }
                if off == 0 {
                    lemma_small_mod(0, lm as nat);
                    let av = (lm % pm) as u64;
                    assert(prev[t] == av);
                    assert(prev[t + lm] == av);
                    assert(next[t] == ((av + av * pow_mod(step, 0)) % pm) as u64);
                    assert(pow_mod(step, 0) == 1);
                    assert(av * 1int == av as int);
                    assert((av + av) % pm == (lm + lm) % pm) by {
                        lemma_add_mod_noop(lm, lm, pm);
                    }
                } else {
                    lemma_small_mod(off as nat, lm as nat);
                    assert(prev[t] == 0u64);
                    assert(prev[t + lm] == 0u64);
                    assert((0u64 as int) * pow_mod(step, off as nat) == 0) by {
                        vstd::arithmetic::mul::lemma_mul_basics(pow_mod(step, off as nat));
                    }
                    assert(next[t] == ((0int + 0int) % pm) as u64);
                }
            } else {
                assert((t - lm) % lm == t % lm) by {
                    lemma_mod_multiples_vanish(-1, t, lm);
                }
                if off == lm {
                    lemma_small_mod(0, lm as nat);
                    assert(off % lm == 0) by {
                        lemma_mod_multiples_basic(1, lm);
                    }
                    let av = (lm % pm) as u64;
                    assert(prev[t - lm] == av);
                    assert(prev[t] == av);
                    assert(next[t] == ((av - av * pow_mod(step, 0)) % pm) as u64);
                    assert(pow_mod(step, 0) == 1);
                    assert(av * 1int == av as int);
                } else {
                    assert(off % lm == off - lm) by {
                        lemma_mod_multiples_vanish(-1, off, lm);
                        lemma_small_mod((off - lm) as nat, lm as nat);
                    }
                    assert(prev[t - lm] == 0u64);
                    assert(prev[t] == 0u64);
                    assert((0u64 as int) * pow_mod(step, (off - lm) as nat) == 0) by {
                        vstd::arithmetic::mul::lemma_mul_basics(
                            pow_mod(step, (off - lm) as nat),
                        );
                    }
                    assert(next[t] == ((0int - 0int) % pm) as u64);
                }
            }
        }
        assert(next =~= pattern);
    }
}

/// Transforming the all-ones sequence of a power-of-two length, with any
/// root, yields the length reduced into the field in the first entry and
/// zero everywhere else.
pub proof fn lemma_transform_all_ones(root: u64, k: nat)
    ensures
        ntt_spec(all_ones(pow2(k)), root, k) == Seq::new(
            pow2(k),
            |t: int|
                if t == 0 {
                    ((pow2(k) as int % modulus()) as u64)
                } else {
                    0u64
                },
        ),
{
    let n = pow2(k) as int;
    let ones = all_ones(pow2(k));
    assert forall|t: int| 0 <= t < n implies bit_rev_permuted(ones, k)[t] == ones[t] by {
        lemma_rev_bits_bound(t as nat, k);
    }
    assert(bit_rev_permuted(ones, k) =~= ones);
    lemma_stages_ones(root, k, k);
    let pattern = Seq::new(
        pow2(k),
        |t: int|
            if t == 0 {
                ((pow2(k) as int % modulus()) as u64)
            } else {
                0u64
            },
    );
    assert forall|t: int| 0 <= t < n implies stages_upto(ones, root, k, k)[t] == pattern[t] by {
        lemma_small_mod(t as nat, pow2(k));
        if t == 0 {
            lemma_small_mod(0, pow2(k));
        }
    }
    assert(ntt_spec(ones, root, k) =~= pattern);
}

} // verus!
