//! Arithmetic modulo the small primes of Falcon's key generation, in Montgomery
//! representation with R = 2^31, and on big integers written in 31-bit limbs.

use vstd::arithmetic::div_mod::{
    lemma_add_mod_noop, lemma_fundamental_div_mod_converse, lemma_mod_multiples_basic, lemma_mod_pos_bound,
    lemma_mul_mod_noop_left, lemma_mul_mod_noop_right,
};
use vstd::arithmetic::power2::pow2;
use vstd::prelude::*;

verus! {

/// A prime of the size Falcon works with: odd, between 2^30 and 2^31.
pub open spec fn is_small_prime(p: u32) -> bool {
    p % 2 == 1 && 0x4000_0000 < p < 0x8000_0000
}

/// `p0i` is `-1/p` modulo 2^31.
pub open spec fn is_ninv31(p: u32, p0i: u32) -> bool {
    p0i < 0x8000_0000 && (p as int * p0i as int) % 0x8000_0000 == 0x7fff_ffff
}

/// A prime with its entries as Falcon's tables keep them: the prime, a primitive root of
/// unity of order 2048 modulo it, and `2^31` divided, modulo it, by the product of the
/// primes before it.
#[allow(non_camel_case_types)]
#[derive(Clone, Copy, Debug)]
pub struct small_prime {
    pub p: u32,
    pub g: u32,
    pub s: u32,
}

/// The average and the deviation of a Gaussian distribution, scaled to integers.
#[allow(non_camel_case_types)]
#[derive(Clone, Copy, Debug)]
pub struct C2RustUnnamed {
    pub avg: i32,
    pub std: i32,
}

/// The state of Falcon's pseudo-random generator: a buffer of output with the position
/// in it, the ChaCha20 state, and the kind of generator.
#[allow(non_camel_case_types)]
#[derive(Clone, Copy)]
pub struct prng {
    pub buf: [u8; 512],
    pub ptr: usize,
    pub state: [u8; 256],
    pub type_0: i32,
}

/// What Falcon's Gaussian sampler works with: its generator and the smallest deviation,
/// a floating-point number held as its 64 bits.
#[allow(non_camel_case_types)]
#[derive(Clone, Copy)]
pub struct sampler_context {
    pub p: prng,
    pub sigma_min: u64,
}

/// `x` taken modulo `p`, for `-p < x < p`.
pub fn modp_set(x: i32, p: u32) -> (r: u32)
    requires
        is_small_prime(p),
        -(p as int) < x < p,
    ensures
        r == (if x < 0 {
            x + p
        } else {
            x as int
        }),
        r < p,
{
    let w: u32 = x as u32;
    let r = w.wrapping_add(p & 0u32.wrapping_sub(w >> 31u32));
    assert(r as i64 == (if x < 0i32 { (x as i64).wrapping_add(p as i64) } else { x as i64 })) by (bit_vector)
        requires
            w == x as u32,
            r == w.wrapping_add(p & 0u32.wrapping_sub(w >> 31u32)),
            p < 0x8000_0000u32,
            -(p as i64) < (x as i64),
            (x as i64) < (p as i64),
    ;
    r
}

/// The representative of `x` (taken modulo `p`) between `-p/2` and `p/2`.
pub fn modp_norm(x: u32, p: u32) -> (r: i32)
    requires
        is_small_prime(p),
        x < p,
    ensures
        r == (if x < (p + 1) / 2 {
            x as int
        } else {
            x - p
        }),
{
    let half = p.wrapping_add(1) >> 1u32;
    let mask = (x.wrapping_sub(half) >> 31u32).wrapping_sub(1);
    let r = x.wrapping_sub(p & mask) as i32;
    assert(r as i64 == (if x < half { x as i64 } else { (x as i64).wrapping_sub(p as i64) })) by (bit_vector)
        requires
            half == p.wrapping_add(1) >> 1u32,
            mask == (x.wrapping_sub(half) >> 31u32).wrapping_sub(1),
            r == x.wrapping_sub(p & mask) as i32,
            p < 0x8000_0000u32,
            x < p,
    ;
    assert(half as u64 == (p as u64).wrapping_add(1u64) / 2u64) by (bit_vector)
        requires
            half == p.wrapping_add(1) >> 1u32,
            p < 0x8000_0000u32,
    ;
    r
}

/// `R` modulo `p`: 2^31 - p.
pub fn modp_r(p: u32) -> (r: u32)
    requires
        is_small_prime(p),
    ensures
        r == 0x8000_0000 - p,
        r < p,
        r as int == 0x8000_0000int % (p as int),
{
    proof {
        lemma_fundamental_div_mod_converse(0x8000_0000int, p as int, 1, 0x8000_0000int - p);
    }
    0x8000_0000u32 - p
}

/// `a + b` modulo `p`.
pub fn modp_add(a: u32, b: u32, p: u32) -> (r: u32)
    requires
        is_small_prime(p),
        a < p,
        b < p,
    ensures
        r == (a + b) % (p as int),
        r < p,
{
    let d = a.wrapping_add(b).wrapping_sub(p);
    let r = d.wrapping_add(p & 0u32.wrapping_sub(d >> 31u32));
    assert(r as u64 == (if (a as u64).wrapping_add(b as u64) >= p as u64 {
        (a as u64).wrapping_add(b as u64).wrapping_sub(p as u64)
    } else {
        (a as u64).wrapping_add(b as u64)
    })) by (bit_vector)
        requires
            d == a.wrapping_add(b).wrapping_sub(p),
            r == d.wrapping_add(p & 0u32.wrapping_sub(d >> 31u32)),
            p < 0x8000_0000u32,
            a < p,
            b < p,
    ;
    proof {
        if a + b >= p {
            lemma_fundamental_div_mod_converse(a + b, p as int, 1, a + b - p);
        } else {
            lemma_fundamental_div_mod_converse(a + b, p as int, 0, a + b);
        }
    }
    r
}

/// `a - b` modulo `p`.
pub fn modp_sub(a: u32, b: u32, p: u32) -> (r: u32)
    requires
        is_small_prime(p),
        a < p,
        b < p,
    ensures
        r == (a - b) % (p as int),
        r < p,
{
    let d = a.wrapping_sub(b);
    let r = d.wrapping_add(p & 0u32.wrapping_sub(d >> 31u32));
    assert(r as u64 == (if a >= b {
        (a as u64).wrapping_sub(b as u64)
    } else {
        (a as u64).wrapping_add(p as u64).wrapping_sub(b as u64)
    }))
        by (bit_vector)
        requires
            d == a.wrapping_sub(b),
            r == d.wrapping_add(p & 0u32.wrapping_sub(d >> 31u32)),
            p < 0x8000_0000u32,
            a < p,
            b < p,
    ;
    proof {
        if a >= b {
            lemma_fundamental_div_mod_converse(a - b, p as int, 0, a - b);
        } else {
            lemma_fundamental_div_mod_converse(a - b, p as int, -1, a - b + p);
        }
    }
    r
}

/// Modulo an odd number, halving is unique: equal doubles come from equal numbers.
proof fn lemma_cancel_two(u: int, v: int, p: int)
    requires
        p > 0,
        p % 2 == 1,
        (2 * u) % p == (2 * v) % p,
    ensures
        u % p == v % p,
{
    let d = u - v;
    vstd::arithmetic::div_mod::lemma_sub_mod_noop(2 * u, 2 * v, p);
    vstd::arithmetic::div_mod::lemma_small_mod(0, p as nat);
    assert(2 * u - 2 * v == 2 * d);
    assert((2 * d) % p == 0);
    let t = (2 * d) / p;
    vstd::arithmetic::div_mod::lemma_fundamental_div_mod(2 * d, p);
    assert(2 * d == t * p) by (nonlinear_arith)
        requires
            2 * d == p * ((2 * d) / p) + (2 * d) % p,
            (2 * d) % p == 0,
            t == (2 * d) / p,
    ;
    // `t` is even: an odd `t` times an odd `p` is odd
    assert(t % 2 == 0) by {
        if t % 2 != 0 {
            let a = t / 2;
            let b = p / 2;
            vstd::arithmetic::div_mod::lemma_fundamental_div_mod(t, 2);
            vstd::arithmetic::div_mod::lemma_fundamental_div_mod(p, 2);
            assert(t * p == 2 * (2 * a * b + a + b) + 1) by (nonlinear_arith)
                requires
                    t == 2 * a + 1,
                    p == 2 * b + 1,
            ;
            lemma_fundamental_div_mod_converse(t * p, 2, 2 * a * b + a + b, 1);
            lemma_fundamental_div_mod_converse(2 * d, 2, d, 0);
        }
    }
    let h = t / 2;
    assert(d == h * p) by (nonlinear_arith)
        requires
            2 * d == t * p,
            t % 2 == 0,
            h == t / 2,
    ;
    lemma_mod_multiples_basic(h, p);
    vstd::arithmetic::div_mod::lemma_sub_mod_noop(u, v, p);
    assert(u == v + h * p);
    assert((v + h * p) % p == v % p) by {
        vstd::arithmetic::div_mod::lemma_mod_multiples_vanish(h, v, p);
        assert(p * h + v == v + h * p) by (nonlinear_arith);
    }
}

/// Modulo an odd number, equal multiples of `2^k` come from equal numbers.
pub(crate) proof fn lemma_cancel_pow2(u: int, v: int, p: int, k: nat)
    requires
        p > 0,
        p % 2 == 1,
        (u * pow2(k)) % p == (v * pow2(k)) % p,
    ensures
        u % p == v % p,
    decreases k,
{
    if k == 0 {
        vstd::arithmetic::power2::lemma2_to64();
    } else {
        vstd::arithmetic::power2::lemma_pow2_unfold(k);
        assert(u * pow2(k) == 2 * (u * pow2((k - 1) as nat))) by (nonlinear_arith)
            requires
                pow2(k) == 2 * pow2((k - 1) as nat),
        ;
        assert(v * pow2(k) == 2 * (v * pow2((k - 1) as nat))) by (nonlinear_arith)
            requires
                pow2(k) == 2 * pow2((k - 1) as nat),
        ;
        lemma_cancel_two(u * pow2((k - 1) as nat), v * pow2((k - 1) as nat), p);
        lemma_cancel_pow2(u, v, p, (k - 1) as nat);
    }
}

/// Montgomery reduction: adding the multiple `((z * p0i) mod R) * p` of `p` to `z` makes
/// it a multiple of `R`, and the quotient is below `2p` and is `z / R` modulo `p`.
proof fn lemma_monty(z: int, p: int, p0i: int)
    requires
        0 < p < 0x8000_0000,
        0 <= p0i < 0x8000_0000,
        (p * p0i) % 0x8000_0000 == 0x7fff_ffff,
        0 <= z < p * p,
    ensures
        ({
            let w = ((z * p0i) % 0x8000_0000) * p;
            &&& 0 <= w < 0x8000_0000 * p
            &&& (z + w) % 0x8000_0000 == 0
            &&& ((z + w) / 0x8000_0000) * 0x8000_0000 == z + w
            &&& 0 <= (z + w) / 0x8000_0000 < 2 * p
            &&& ((z + w) / 0x8000_0000 * 0x8000_0000) % p == z % p
        }),
{
    let r = 0x8000_0000int;
    let m = (z * p0i) % r;
    let w = m * p;
    assert(z * p0i >= 0) by (nonlinear_arith)
        requires
            z >= 0,
            p0i >= 0,
    ;
    lemma_mod_pos_bound(z * p0i, r);
    assert(0 <= w < r * p) by (nonlinear_arith)
        requires
            0 <= m < r,
            p > 0,
            w == m * p,
    ;
    lemma_mul_mod_noop_left(z * p0i, p, r);
    assert(z * p0i * p == z * (p * p0i)) by (nonlinear_arith);
    lemma_mul_mod_noop_right(z, p * p0i, r);
    assert(w % r == (z * (r - 1)) % r);
    lemma_add_mod_noop(z, w, r);
    lemma_add_mod_noop(z, z * (r - 1), r);
    assert(z + z * (r - 1) == z * r) by (nonlinear_arith);
    lemma_mod_multiples_basic(z, r);
    assert((z + w) % r == 0);
    let q = (z + w) / r;
    lemma_fundamental_div_mod_converse(z + w, r, q, 0);
    assert(q * r == z + w) by (nonlinear_arith)
        requires
            z + w == r * ((z + w) / r) + (z + w) % r,
            (z + w) % r == 0,
            q == (z + w) / r,
    ;
    assert(0 <= q < 2 * p) by (nonlinear_arith)
        requires
            q * r == z + w,
            0 <= z < p * p,
            0 <= w < r * p,
            0 < p < r,
            r > 0,
    ;
    assert((w % p) == 0) by {
        lemma_mod_multiples_basic(m, p);
    }
    lemma_add_mod_noop(z, w, p);
    assert(((z % p) + (w % p)) % p == (z + w) % p);
    assert((z % p) % p == z % p) by {
        lemma_mod_pos_bound(z, p);
        vstd::arithmetic::div_mod::lemma_small_mod((z % p) as nat, p as nat);
    }
    assert(q * r % p == z % p);
    assert(0 <= w < 0x8000_0000 * p);
    assert((z + w) / 0x8000_0000 == q);
}

/// `a * b / R` modulo `p`: the Montgomery product, for `p0i` the value of `-1/p` modulo R.
pub fn modp_montymul(a: u32, b: u32, p: u32, p0i: u32) -> (r: u32)
    requires
        is_small_prime(p),
        is_ninv31(p, p0i),
        a < p,
        b < p,
    ensures
        r < p,
        (r * 0x8000_0000int) % (p as int) == (a * b) % (p as int),
{
    proof {
        assert(a * b < 0x4000_0000_0000_0000int) by (nonlinear_arith)
            requires
                a < 0x8000_0000int,
                b < 0x8000_0000int,
        ;
    }
    let z: u64 = a as u64 * b as u64;
    proof {
        assert(z < p * p) by (nonlinear_arith)
            requires
                z == a * b,
                a < p,
                b < p,
        ;
        lemma_monty(z as int, p as int, p0i as int);
    }
    let m: u64 = z.wrapping_mul(p0i as u64) & 0x7fff_ffff;
    proof {
        assert(m == z.wrapping_mul(p0i as u64) % 0x8000_0000u64) by (bit_vector)
            requires
                m == z.wrapping_mul(p0i as u64) & 0x7fff_ffff,
        ;
        assert(z * p0i >= 0) by (nonlinear_arith)
            requires
                z >= 0,
                p0i >= 0,
        ;
        vstd::arithmetic::div_mod::lemma_mod_mod(z * p0i, 0x8000_0000int, 0x2_0000_0000int);
        assert(m == (z * p0i) % 0x8000_0000int);
    }
    let w: u64 = m * p as u64;
    let sum: u64 = z + w;
    let q: u64 = sum >> 31u64;
    proof {
        assert(q == sum / 0x8000_0000u64) by (bit_vector)
            requires
                q == sum >> 31u64,
        ;
    }
    let d: u32 = (q as u32).wrapping_sub(p);
    let r = d.wrapping_add(p & 0u32.wrapping_sub(d >> 31u32));
    let qq = q as u32;
    assert(r as u64 == (if qq >= p { (qq as u64).wrapping_sub(p as u64) } else { qq as u64 }))
        by (bit_vector)
        requires
            d == qq.wrapping_sub(p),
            r == d.wrapping_add(p & 0u32.wrapping_sub(d >> 31u32)),
            p < 0x8000_0000u32,
            (qq as u64) < 2u64.wrapping_mul(p as u64),
    ;
    proof {
        let R = 0x8000_0000int;
        if qq >= p {
            lemma_fundamental_div_mod_converse(qq as int, p as int, 1, qq - p);
        } else {
            lemma_fundamental_div_mod_converse(qq as int, p as int, 0, qq as int);
        }
        assert(r as int == (qq as int) % (p as int));
        lemma_mul_mod_noop_left(qq as int, R, p as int);
        lemma_mul_mod_noop_left(r as int, R, p as int);
    }
    r
}

/// A Montgomery square of `2^x` modulo `p` is `2^(2x - 31)` modulo `p`.
proof fn lemma_monty_square(z: int, r: int, p: int, x: nat)
    requires
        p > 0,
        p % 2 == 1,
        z == pow2(x) as int % p,
        (r * 0x8000_0000int) % p == (z * z) % p,
        2 * x >= 31,
        0 <= r < p,
    ensures
        r == pow2((2 * x - 31) as nat) as int % p,
{
    let e = (2 * x - 31) as nat;
    vstd::arithmetic::power2::lemma2_to64();
    vstd::arithmetic::power2::lemma_pow2_adds(x, x);
    vstd::arithmetic::power2::lemma_pow2_adds(e, 31);
    assert(x + x == e + 31);
    vstd::arithmetic::div_mod::lemma_mul_mod_noop(pow2(x) as int, pow2(x) as int, p);
    assert((r * pow2(31)) % p == (pow2(e) as int * pow2(31)) % p);
    lemma_cancel_pow2(r, pow2(e) as int, p, 31);
    vstd::arithmetic::div_mod::lemma_small_mod(r as nat, p as nat);
}

/// `R^2` modulo `p`, that is 2^62 modulo `p`.
pub fn modp_r2(p: u32, p0i: u32) -> (r: u32)
    requires
        is_small_prime(p),
        is_ninv31(p, p0i),
    ensures
        r < p,
        r as int == pow2(62) as int % (p as int),
{
    proof {
        vstd::arithmetic::power2::lemma2_to64();
    }
    let z0 = modp_r(p);
    let z1 = modp_add(z0, z0, p);
    proof {
        vstd::arithmetic::div_mod::lemma_add_mod_noop(pow2(31) as int, pow2(31) as int, p as int);
        vstd::arithmetic::div_mod::lemma_small_mod(z0 as nat, p as nat);
        assert(z1 as int == pow2(32) as int % (p as int));
    }
    let z2 = modp_montymul(z1, z1, p, p0i);
    proof {
        lemma_monty_square(z1 as int, z2 as int, p as int, 32);
    }
    let z3 = modp_montymul(z2, z2, p, p0i);
    proof {
        lemma_monty_square(z2 as int, z3 as int, p as int, 33);
    }
    let z4 = modp_montymul(z3, z3, p, p0i);
    proof {
        lemma_monty_square(z3 as int, z4 as int, p as int, 35);
    }
    let z5 = modp_montymul(z4, z4, p, p0i);
    proof {
        lemma_monty_square(z4 as int, z5 as int, p as int, 39);
    }
    let z6 = modp_montymul(z5, z5, p, p0i);
    proof {
        lemma_monty_square(z5 as int, z6 as int, p as int, 47);
    }
    assert(p & 1u32 == 1u32) by (bit_vector)
        requires
            p % 2u32 == 1u32,
    ;
    let r = z6.wrapping_add(p & 0u32.wrapping_sub(z6 & 1u32)) >> 1u32;
    assert(2u64.wrapping_mul(r as u64) == (if z6 & 1u32 == 1u32 {
        (z6 as u64).wrapping_add(p as u64)
    } else {
        z6 as u64
    }) && r < p) by (bit_vector)
        requires
            r == z6.wrapping_add(p & 0u32.wrapping_sub(z6 & 1u32)) >> 1u32,
            z6 < p,
            p < 0x8000_0000u32,
            p & 1u32 == 1u32,
    ;
    proof {
        let pi = p as int;
        vstd::arithmetic::power2::lemma_pow2_unfold(63);
        if z6 & 1u32 == 1u32 {
            assert((2 * r) as int == z6 + pi);
            vstd::arithmetic::div_mod::lemma_mod_multiples_vanish(1, z6 as int, pi);
        }
        assert((2 * r as int) % pi == (z6 as int) % pi);
        vstd::arithmetic::div_mod::lemma_small_mod(z6 as nat, p as nat);
        vstd::arithmetic::div_mod::lemma_mod_mod(pow2(63) as int, pi, 1);
        assert((2 * r as int) % pi == (2 * pow2(62) as int) % pi);
        lemma_cancel_two(r as int, pow2(62) as int, pi);
        vstd::arithmetic::div_mod::lemma_small_mod(r as nat, p as nat);
    }
    r
}

/// The number that 31-bit limbs stand for, least significant limb first.
pub open spec fn zint_value(limbs: Seq<u32>) -> nat
    decreases limbs.len(),
{
    if limbs.len() == 0 {
        0
    } else {
        zint_value(limbs.drop_last()) + limbs.last() as nat * pow2((31 * (limbs.len() - 1)) as nat)
    }
}

/// Every limb takes at most 31 bits.
pub open spec fn limbs_ok(limbs: Seq<u32>) -> bool {
    forall|i: int| 0 <= i < limbs.len() ==> #[trigger] limbs[i] < 0x8000_0000
}

/// One more limb adds its value at its place.
proof fn lemma_zint_take(limbs: Seq<u32>, u: int)
    requires
        0 <= u < limbs.len(),
    ensures
        zint_value(limbs.take(u + 1)) == zint_value(limbs.take(u)) + limbs[u] as nat * pow2(
            (31 * u) as nat,
        ),
{
    assert(limbs.take(u + 1).drop_last() =~= limbs.take(u));
}

/// Limbs of 31 bits stand for a number below `2^(31 len)`.
proof fn lemma_zint_bound(limbs: Seq<u32>)
    requires
        limbs_ok(limbs),
    ensures
        zint_value(limbs) < pow2((31 * limbs.len()) as nat),
    decreases limbs.len(),
{
    if limbs.len() > 0 {
        let n = (limbs.len() - 1) as nat;
        let init = limbs.drop_last();
        assert(limbs_ok(init)) by {
            assert forall|i: int| 0 <= i < init.len() implies #[trigger] init[i] < 0x8000_0000 by {
                assert(init[i] == limbs[i]);
            }
        }
        lemma_zint_bound(init);
        vstd::arithmetic::power2::lemma2_to64();
        vstd::arithmetic::power2::lemma_pow2_adds(31 * n, 31);
        assert(31 * n + 31 == 31 * limbs.len());
        let big = pow2(31 * n);
        assert(zint_value(init) + limbs.last() as nat * big < big * 0x8000_0000) by (nonlinear_arith)
            requires
                zint_value(init) < big,
                limbs.last() < 0x8000_0000,
        ;
    } else {
        vstd::arithmetic::power2::lemma2_to64();
    }
}

/// Multiplies the big integer `m` by `x`, in place, and returns the carry out of its top
/// limb.
pub fn zint_mul_small(m: &mut [u32], x: u32) -> (cc: u32)
    requires
        limbs_ok(old(m)@),
        x < 0x8000_0000,
    ensures
        final(m)@.len() == old(m)@.len(),
        limbs_ok(final(m)@),
        cc < 0x8000_0000,
        zint_value(final(m)@) + cc as nat * pow2((31 * old(m)@.len()) as nat) == zint_value(old(m)@) * x,
{
    let ghost start = m@;
    let mut cc: u32 = 0;
    let mut u: usize = 0;
    proof {
        vstd::arithmetic::power2::lemma2_to64();
        assert(m@.take(0) =~= Seq::<u32>::empty());
        assert(start.take(0) =~= Seq::<u32>::empty());
        assert(zint_value(Seq::<u32>::empty()) == 0);
    }
    while u < m.len()
        invariant
            m@.len() == start.len(),
            u <= m@.len(),
            cc < 0x8000_0000,
            x < 0x8000_0000,
            limbs_ok(start),
            forall|j: int| 0 <= j < u ==> #[trigger] m@[j] < 0x8000_0000,
            forall|j: int| u <= j < m@.len() ==> #[trigger] m@[j] == start[j],
            zint_value(m@.take(u as int)) + cc as nat * pow2((31 * u) as nat) == zint_value(start.take(u as int)) * x,
        decreases m@.len() - u,
    {
        let mw = m[u];
        assert(mw < 0x8000_0000);
        proof {
            assert(mw * x + cc < 0x4000_0000_0000_0000int) by (nonlinear_arith)
                requires
                    mw < 0x8000_0000,
                    x < 0x8000_0000,
                    cc < 0x8000_0000,
            ;
        }
        let z: u64 = mw as u64 * x as u64 + cc as u64;
        let limb: u32 = (z & 0x7fff_ffff) as u32;
        let next: u32 = (z >> 31u64) as u32;
        proof {
            lemma_split_u64(z);
        }
        let ghost before = m@;
        m[u] = limb;
        proof {
            let P = pow2((31 * u) as nat) as int;
            let A = zint_value(before.take(u as int)) as int;
            let S = zint_value(start.take(u as int)) as int;
            let xi = x as int;
            assert(A + cc * P == S * xi);
            lemma_zint_take(m@, u as int);
            lemma_zint_take(start, u as int);
            assert(m@.take(u as int) =~= before.take(u as int));
            assert(start[u as int] == mw);
            vstd::arithmetic::power2::lemma2_to64();
            vstd::arithmetic::power2::lemma_pow2_adds((31 * u) as nat, 31);
            assert(31 * u + 31 == 31 * (u + 1));
            let Q = pow2((31 * (u + 1)) as nat) as int;
            vstd::arithmetic::power2::lemma2_to64();
            assert(Q == P * 0x8000_0000);
            assert(A + limb * P + next * Q == S * xi + mw * xi * P) by (nonlinear_arith)
                requires
                    limb + 0x8000_0000 * next == mw * xi + cc,
                    Q == P * 0x8000_0000,
                    A + cc * P == S * xi,
            ;
            assert(S * xi + mw * xi * P == (S + mw * P) * xi) by (nonlinear_arith);
            assert(zint_value(m@.take(u + 1)) == A + limb * P);
            assert(zint_value(start.take(u + 1)) == S + mw * P);
        }
        cc = next;
        u = u + 1;
    }
    proof {
        assert(m@.take(m@.len() as int) =~= m@);
        assert(start.take(start.len() as int) =~= start);
    }
    cc
}

/// Adds `y * s` to the big integer in the first `y.len()` limbs of `x`, writing the carry
/// into the limb after them.
pub fn zint_add_mul_small(x: &mut [u32], y: &[u32], s: u32)
    requires
        old(x)@.len() == y@.len() + 1,
        limbs_ok(old(x)@.take(y@.len() as int)),
        limbs_ok(y@),
        s < 0x8000_0000,
    ensures
        final(x)@.len() == old(x)@.len(),
        limbs_ok(final(x)@),
        zint_value(final(x)@) == zint_value(old(x)@.take(y@.len() as int)) + zint_value(y@) * s,
{
    let ghost start = x@;
    let len = y.len();
    let mut cc: u32 = 0;
    let mut u: usize = 0;
    proof {
        vstd::arithmetic::power2::lemma2_to64();
        assert(x@.take(0) =~= Seq::<u32>::empty());
        assert(start.take(0) =~= Seq::<u32>::empty());
        assert(y@.take(0) =~= Seq::<u32>::empty());
        assert(zint_value(Seq::<u32>::empty()) == 0);
    }
    while u < len
        invariant
            len == y@.len(),
            x@.len() == start.len(),
            start.len() == len + 1,
            u <= len,
            cc < 0x8000_0000,
            s < 0x8000_0000,
            limbs_ok(start.take(len as int)),
            limbs_ok(y@),
            forall|j: int| 0 <= j < u ==> #[trigger] x@[j] < 0x8000_0000,
            forall|j: int| u <= j < x@.len() ==> #[trigger] x@[j] == start[j],
            zint_value(x@.take(u as int)) + cc as nat * pow2((31 * u) as nat) == zint_value(
                start.take(u as int),
            ) + zint_value(y@.take(u as int)) * s,
        decreases len - u,
    {
        let xw = x[u];
        let yw = y[u];
        assert(xw < 0x8000_0000) by {
            assert(start.take(len as int)[u as int] == start[u as int]);
        }
        assert(yw < 0x8000_0000);
        proof {
            assert(yw * s + xw + cc < 0x4000_0000_0000_0000int) by (nonlinear_arith)
                requires
                    yw < 0x8000_0000,
                    s < 0x8000_0000,
                    xw < 0x8000_0000,
                    cc < 0x8000_0000,
            ;
        }
        let z: u64 = yw as u64 * s as u64 + xw as u64 + cc as u64;
        let limb: u32 = (z & 0x7fff_ffff) as u32;
        let next: u32 = (z >> 31u64) as u32;
        proof {
            lemma_split_u64(z);
        }
        let ghost before = x@;
        x[u] = limb;
        proof {
            let P = pow2((31 * u) as nat) as int;
            let A = zint_value(before.take(u as int)) as int;
            let S = zint_value(start.take(u as int)) as int;
            let Y = zint_value(y@.take(u as int)) as int;
            let si = s as int;
            lemma_zint_take(x@, u as int);
            lemma_zint_take(start, u as int);
            lemma_zint_take(y@, u as int);
            assert(x@.take(u as int) =~= before.take(u as int));
            assert(start[u as int] == xw);
            vstd::arithmetic::power2::lemma_pow2_adds((31 * u) as nat, 31);
            assert(31 * u + 31 == 31 * (u + 1));
            let Q = pow2((31 * (u + 1)) as nat) as int;
            vstd::arithmetic::power2::lemma2_to64();
            assert(Q == P * 0x8000_0000);
            assert(A + limb * P + next * Q == (S + xw * P) + (Y + yw * P) * si) by (nonlinear_arith)
                requires
                    limb + 0x8000_0000 * next == yw * si + xw + cc,
                    Q == P * 0x8000_0000,
                    A + cc * P == S + Y * si,
            ;
        }
        cc = next;
        u = u + 1;
    }
    let ghost filled = x@;
    x[len] = cc;
    proof {
        lemma_zint_take(x@, len as int);
        assert(x@.take(len as int) =~= filled.take(len as int));
        assert(x@.take(len as int + 1) =~= x@);
        assert(y@.take(len as int) =~= y@);
        assert(limbs_ok(x@)) by {
            assert forall|j: int| 0 <= j < x@.len() implies #[trigger] x@[j] < 0x8000_0000 by {
                if j < len {
                    assert(x@[j] == filled[j]);
                }
            }
        }
    }
}

/// Subtracts the big integer `b` from `a` when `ctl` is one, leaving `a` alone when it is
/// zero; either way returns the borrow, one exactly when `a` is below `b`.
pub fn zint_sub(a: &mut [u32], b: &[u32], ctl: u32) -> (r: u32)
    requires
        old(a)@.len() == b@.len(),
        limbs_ok(old(a)@),
        limbs_ok(b@),
        ctl <= 1,
    ensures
        final(a)@.len() == old(a)@.len(),
        limbs_ok(final(a)@),
        r == (if zint_value(old(a)@) < zint_value(b@) {
            1u32
        } else {
            0u32
        }),
        ctl == 1 ==> zint_value(final(a)@) + zint_value(b@) == zint_value(old(a)@) + r as nat * pow2(
            (31 * b@.len()) as nat,
        ),
        ctl == 0 ==> final(a)@ == old(a)@,
{
    let ghost start = a@;
    let ghost mut diff: Seq<u32> = Seq::empty();
    let len = b.len();
    let mut cc: u32 = 0;
    let mask: u32 = 0u32.wrapping_sub(ctl);
    let mut u: usize = 0;
    proof {
        vstd::arithmetic::power2::lemma2_to64();
        assert(start.take(0) =~= Seq::<u32>::empty());
        assert(b@.take(0) =~= Seq::<u32>::empty());
        assert(zint_value(Seq::<u32>::empty()) == 0);
    }
    while u < len
        invariant
            len == b@.len(),
            a@.len() == len,
            start.len() == len,
            u <= len,
            cc <= 1,
            ctl <= 1,
            mask == 0u32.wrapping_sub(ctl),
            limbs_ok(start),
            limbs_ok(b@),
            diff.len() == u,
            limbs_ok(diff),
            zint_value(diff) + zint_value(b@.take(u as int)) == zint_value(start.take(u as int))
                + cc as nat * pow2((31 * u) as nat),
            ctl == 1 ==> a@.take(u as int) == diff,
            forall|j: int| u <= j < len ==> #[trigger] a@[j] == start[j],
            ctl == 0 ==> a@ == start,
        decreases len - u,
    {
        let aw = a[u];
        let bw = b[u];
        assert(aw < 0x8000_0000 && bw < 0x8000_0000);
        let w = aw.wrapping_sub(bw).wrapping_sub(cc);
        let next = w >> 31u32;
        let limb = w & 0x7fff_ffff;
        let nw = aw ^ ((limb ^ aw) & mask);
        assert(limb as u64 + bw as u64 + cc as u64 == aw as u64 + 0x8000_0000u64 * (next as u64)
            && limb < 0x8000_0000u32 && next <= 1u32 && (ctl == 1u32 ==> nw == limb) && (ctl
            == 0u32 ==> nw == aw)) by (bit_vector)
            requires
                aw < 0x8000_0000u32,
                bw < 0x8000_0000u32,
                cc <= 1u32,
                ctl <= 1u32,
                mask == 0u32.wrapping_sub(ctl),
                w == aw.wrapping_sub(bw).wrapping_sub(cc),
                next == w >> 31u32,
                limb == w & 0x7fff_ffff,
                nw == aw ^ ((limb ^ aw) & mask),
        ;
        let ghost before = a@;
        a[u] = nw;
        proof {
            let P = pow2((31 * u) as nat) as int;
            let D = zint_value(diff) as int;
            let B = zint_value(b@.take(u as int)) as int;
            let S = zint_value(start.take(u as int)) as int;
            let nd = diff.push(limb);
            assert(nd.take(u as int) =~= diff);
            lemma_zint_take(nd, u as int);
            assert(nd.take(u + 1) =~= nd);
            lemma_zint_take(b@, u as int);
            lemma_zint_take(start, u as int);
            assert(start[u as int] == aw);
            vstd::arithmetic::power2::lemma_pow2_adds((31 * u) as nat, 31);
            assert(31 * u + 31 == 31 * (u + 1));
            let Q = pow2((31 * (u + 1)) as nat) as int;
            vstd::arithmetic::power2::lemma2_to64();
            assert(Q == P * 0x8000_0000);
            assert(D + limb * P + B + bw * P == S + aw * P + next * Q) by (nonlinear_arith)
                requires
                    limb + bw + cc == aw + 0x8000_0000 * next,
                    Q == P * 0x8000_0000,
                    D + B == S + cc * P,
            ;
            assert(limbs_ok(nd)) by {
                assert forall|j: int| 0 <= j < nd.len() implies #[trigger] nd[j] < 0x8000_0000 by {
                    if j < u {
                        assert(nd[j] == diff[j]);
                    }
                }
            }
            if ctl == 1 {
                assert(a@.take(u + 1) =~= nd);
            } else {
                assert(a@ =~= start);
            }
            diff = nd;
        }
        cc = next;
        u = u + 1;
    }
    proof {
        assert(b@.take(len as int) =~= b@);
        assert(start.take(len as int) =~= start);
        let P = pow2((31 * len) as nat) as int;
        lemma_zint_bound(diff);
        lemma_zint_bound(b@);
        if ctl == 1 {
            assert(a@.take(len as int) =~= a@);
        }
        assert(limbs_ok(a@)) by {
            if ctl == 1 {
                assert(a@ == diff);
            }
        }
    }
    cc
}

/// Negates the big integer `a` modulo `2^(31 len)` when `ctl` is one, leaving it alone
/// when `ctl` is zero.
pub fn zint_negate(a: &mut [u32], ctl: u32)
    requires
        limbs_ok(old(a)@),
        ctl <= 1,
    ensures
        final(a)@.len() == old(a)@.len(),
        limbs_ok(final(a)@),
        ctl == 1 ==> zint_value(final(a)@) == (pow2((31 * old(a)@.len()) as nat) - zint_value(old(a)@)) % (pow2(
            (31 * old(a)@.len()) as nat,
        ) as int),
        ctl == 0 ==> final(a)@ == old(a)@,
{
    let ghost start = a@;
    let len = a.len();
    let mut cc: u32 = ctl;
    let m: u32 = 0u32.wrapping_sub(ctl) >> 1u32;
    let mut u: usize = 0;
    proof {
        vstd::arithmetic::power2::lemma2_to64();
        assert(a@.take(0) =~= Seq::<u32>::empty());
        assert(start.take(0) =~= Seq::<u32>::empty());
        assert(zint_value(Seq::<u32>::empty()) == 0);
    }
    while u < len
        invariant
            len == a@.len(),
            start.len() == len,
            u <= len,
            cc <= 1,
            ctl <= 1,
            m == 0u32.wrapping_sub(ctl) >> 1u32,
            limbs_ok(start),
            forall|j: int| 0 <= j < u ==> #[trigger] a@[j] < 0x8000_0000,
            forall|j: int| u <= j < len ==> #[trigger] a@[j] == start[j],
            ctl == 1 ==> zint_value(a@.take(u as int)) + cc as nat * pow2((31 * u) as nat) == pow2(
                (31 * u) as nat,
            ) - zint_value(start.take(u as int)),
            ctl == 0 ==> cc == 0 && a@ == start,
        decreases len - u,
    {
        let aw = a[u];
        assert(aw < 0x8000_0000);
        let w = (aw ^ m).wrapping_add(cc);
        let limb = w & 0x7fff_ffff;
        let next = w >> 31u32;
        assert(limb < 0x8000_0000u32 && next <= 1u32 && (ctl == 1u32 ==> limb as u64 + 0x8000_0000u64 * (
        next as u64) == 0x7fff_ffffu64 - aw as u64 + cc as u64) && (ctl == 0u32 && cc == 0u32 ==> limb
            == aw && next == 0u32)) by (bit_vector)
            requires
                aw < 0x8000_0000u32,
                cc <= 1u32,
                ctl <= 1u32,
                m == 0u32.wrapping_sub(ctl) >> 1u32,
                w == (aw ^ m).wrapping_add(cc),
                limb == w & 0x7fff_ffff,
                next == w >> 31u32,
        ;
        let ghost before = a@;
        a[u] = limb;
        proof {
            if ctl == 1 {
                let P = pow2((31 * u) as nat) as int;
                let D = zint_value(before.take(u as int)) as int;
                let S = zint_value(start.take(u as int)) as int;
                assert(a@.take(u as int) =~= before.take(u as int));
                lemma_zint_take(a@, u as int);
                lemma_zint_take(start, u as int);
                assert(start[u as int] == aw);
                vstd::arithmetic::power2::lemma_pow2_adds((31 * u) as nat, 31);
                assert(31 * u + 31 == 31 * (u + 1));
                let Q = pow2((31 * (u + 1)) as nat) as int;
                vstd::arithmetic::power2::lemma2_to64();
                assert(Q == P * 0x8000_0000);
                assert(D + limb * P + next * Q == Q - (S + aw * P)) by (nonlinear_arith)
                    requires
                        limb + 0x8000_0000 * next == 0x7fff_ffff - aw + cc,
                        Q == P * 0x8000_0000,
                        D + cc * P == P - S,
                ;
            } else {
                assert(a@ =~= start);
            }
        }
        cc = next;
        u = u + 1;
    }
    proof {
        assert(a@.take(len as int) =~= a@);
        assert(start.take(len as int) =~= start);
        if ctl == 1 {
            let P = pow2((31 * len) as nat) as int;
            let D = zint_value(a@) as int;
            let S = zint_value(start) as int;
            lemma_zint_bound(a@);
            lemma_zint_bound(start);
            vstd::arithmetic::power2::lemma_pow2_pos((31 * len) as nat);
            if S == 0 {
                assert(cc == 1 && D == 0);
                vstd::arithmetic::div_mod::lemma_mod_self_0(P);
            } else {
                assert(cc == 0);
                vstd::arithmetic::div_mod::lemma_small_mod((P - S) as nat, P as nat);
            }
        }
    }
}

/// A 64-bit product plus carry below `2^62` is its high part times `2^31` plus its low 31
/// bits.
proof fn lemma_split_u64(z: u64)
    by (bit_vector)
    requires
        z < 0x4000_0000_0000_0000u64,
    ensures
        ((z & 0x7fff_ffff) as u32) as u64 + 0x8000_0000u64 * (((z >> 31u64) as u32) as u64) == z,
        ((z & 0x7fff_ffff) as u32) < 0x8000_0000u32,
        ((z >> 31u64) as u32) < 0x8000_0000u32,
{
}

/// A signed 64-bit value is its carry `z >> 31` times `2^31` plus its low 31 bits.
proof fn lemma_split_i64(z: i64)
    by (bit_vector)
    ensures
        (z >> 31i64) * 0x8000_0000 + ((z & 0x7fff_ffff) as u32) == z,
        ((z & 0x7fff_ffff) as u32) < 0x8000_0000u32,
{
}

/// The sign bit of a carry, and its low 31 or 32 bits as a word.
proof fn lemma_top_word(c: i64)
    by (bit_vector)
    ensures
        ((c as u64 >> 63u64) as u32) == (if c < 0 {
            1u32
        } else {
            0u32
        }),
        c >= 0 && c < 0x8000_0000 ==> ((c & 0x7fff_ffff) as u32) == c,
        c < 0 && c >= -0x8000_0000 ==> ((c & 0x7fff_ffff) as u32) == c + 0x8000_0000,
        ((c & 0x7fff_ffff) as u32) < 0x8000_0000u32,
        c >= 0 && c < 0x1_0000_0000 ==> (c as u32) == c,
        c < 0 && c >= -0x8000_0000 ==> (c as u32) % 0x8000_0000 == c + 0x8000_0000,
{
}

/// A factor within `2^31` as a 32-bit word: itself, or itself plus `2^32` when negative.
proof fn lemma_word_of(x: i64)
    by (bit_vector)
    requires
        -0x8000_0000i64 <= x <= 0x8000_0000i64,
    ensures
        x < 0 ==> (x as u32) as i64 == x + 0x1_0000_0000i64,
        x >= 0 ==> (x as u32) as i64 == x,
{
}

/// Keeping the low 31 bits of a word is taking it modulo `2^31`.
proof fn lemma_mask_mod(v: u32)
    by (bit_vector)
    ensures
        v & 0x7fff_ffff == v % 0x8000_0000u32,
        v < 0x8000_0000u32 ==> v & 0x7fff_ffff == v,
{
}

/// One step of a subtraction with borrow on 31-bit limbs: when the difference cannot
/// exceed `2^31`, the top bit is the borrow and the low bits the limb.
proof fn lemma_sub_word(aw: u32, mw: u32, cc: u32)
    by (bit_vector)
    requires
        mw < 0x8000_0000u32,
        cc <= 1u32,
    ensures
        aw.wrapping_sub(mw).wrapping_sub(cc) >> 31u32 <= 1u32,
        aw.wrapping_sub(mw).wrapping_sub(cc) & 0x7fff_ffff < 0x8000_0000u32,
        aw.wrapping_sub(mw).wrapping_sub(cc) & 0x7fff_ffff == (aw & 0x7fff_ffff).wrapping_sub(mw).wrapping_sub(cc)
            & 0x7fff_ffff,
        aw < mw + cc + 0x8000_0000 ==> (aw.wrapping_sub(mw).wrapping_sub(cc) >> 31u32) == (if aw < mw + cc {
            1u32
        } else {
            0u32
        }),
        aw < mw + cc + 0x8000_0000 ==> (aw.wrapping_sub(mw).wrapping_sub(cc) & 0x7fff_ffff) + mw + cc == aw
            + 0x8000_0000 * (aw.wrapping_sub(mw).wrapping_sub(cc) >> 31u32),
{
}

/// Comparing numbers digit by digit from the top: with lower parts below `p`, the one
/// with the smaller top digit is smaller, and on equal top digits the lower parts decide.
proof fn lemma_compare_step(sa: int, sm: int, aw: int, mw: int, p: int)
    requires
        0 <= sa < p,
        0 <= sm < p,
        aw >= 0,
        mw >= 0,
    ensures
        (sa + aw * p < sm + mw * p) == (aw < mw || (aw == mw && sa < sm)),
{
    if aw < mw {
        assert(aw * p + p <= mw * p) by (nonlinear_arith)
            requires
                p > 0,
                aw + 1 <= mw,
        ;
    } else if aw > mw {
        assert(mw * p + p <= aw * p) by (nonlinear_arith)
            requires
                p > 0,
                mw + 1 <= aw,
        ;
    }
}

/// A number is its lower limbs, below `2^(31 (len - 1))`, plus its top limb at its place.
proof fn lemma_zint_top(limbs: Seq<u32>)
    requires
        limbs.len() > 0,
        limbs_ok(limbs.drop_last()),
    ensures
        zint_value(limbs) == zint_value(limbs.drop_last()) + limbs.last() as nat * pow2(
            (31 * (limbs.len() - 1)) as nat,
        ),
        zint_value(limbs.drop_last()) < pow2((31 * (limbs.len() - 1)) as nat),
{
    lemma_zint_bound(limbs.drop_last());
}

/// The limbs with the top one cut to 31 bits.
pub open spec fn top_masked(limbs: Seq<u32>) -> Seq<u32> {
    limbs.update(limbs.len() - 1, limbs.last() % 0x8000_0000)
}

/// Finishes a reduction modulo `m`. With `neg` one, `a`, its top limb cut to 31 bits,
/// holds `2^(31 len)` plus a value that is at least `-m` and negative; with `neg` zero it
/// holds a value below `2m`, and its top limb may take 32 bits. Afterwards `a` holds that
/// value modulo `m`.
pub fn zint_finish_mod(a: &mut [u32], m: &[u32], neg: u32)
    requires
        old(a)@.len() == m@.len(),
        m@.len() > 0,
        limbs_ok(m@),
        m@.last() < 0x7fff_ffff,
        neg <= 1,
        limbs_ok(old(a)@.drop_last()),
        neg == 1 ==> zint_value(top_masked(old(a)@)) + zint_value(m@) >= pow2((31 * m@.len()) as nat),
        neg == 0 ==> zint_value(old(a)@) < 2 * zint_value(m@),
    ensures
        final(a)@.len() == old(a)@.len(),
        limbs_ok(final(a)@),
        neg == 1 ==> zint_value(final(a)@) + pow2((31 * m@.len()) as nat) == zint_value(top_masked(old(a)@))
            + zint_value(m@),
        neg == 0 ==> zint_value(final(a)@) == zint_value(old(a)@) % zint_value(m@),
{
    let ghost start = a@;
    let len = a.len();
    let ghost top = (len - 1) as int;
    let ghost startm = top_masked(start);
    let ghost PT = pow2((31 * top) as nat) as int;
    proof {
        vstd::arithmetic::power2::lemma2_to64();
        vstd::arithmetic::power2::lemma_pow2_pos((31 * top) as nat);
        assert(start.drop_last() =~= start.take(top));
        assert(m@.drop_last() =~= m@.take(top));
        assert(startm.take(top) =~= start.take(top));
        assert(limbs_ok(m@.drop_last())) by {
            assert forall|j: int| 0 <= j < m@.drop_last().len() implies #[trigger] m@.drop_last()[j]
                < 0x8000_0000 by {
                assert(m@.drop_last()[j] == m@[j]);
            }
        }
        assert(limbs_ok(startm)) by {
            assert forall|j: int| 0 <= j < startm.len() implies #[trigger] startm[j] < 0x8000_0000 by {
                if j < top {
                    assert(startm[j] == start.take(top)[j]);
                }
            }
        }
        lemma_zint_top(start);
        lemma_zint_top(m@);
        // the top limb of `a` exceeds that of `m` by less than 2^31
        if neg == 0 {
            let at = start.last() as int;
            let mt = m@.last() as int;
            assert(at * PT <= zint_value(start));
            assert(zint_value(m@) < (mt + 1) * PT) by (nonlinear_arith)
                requires
                    zint_value(m@) == zint_value(m@.drop_last()) + mt * PT,
                    zint_value(m@.drop_last()) < PT,
            ;
            assert(at < 2 * mt + 2) by (nonlinear_arith)
                requires
                    at * PT <= zint_value(start),
                    zint_value(start) < 2 * zint_value(m@),
                    zint_value(m@) < (mt + 1) * PT,
                    PT > 0,
            ;
        }
    }
    let mut cc: u32 = 0;
    let mut u: usize = 0;
    proof {
        assert(start.take(0) =~= Seq::<u32>::empty());
        assert(m@.take(0) =~= Seq::<u32>::empty());
        assert(zint_value(Seq::<u32>::empty()) == 0);
    }
    while u < len
        invariant
            len == a@.len(),
            len == m@.len(),
            a@ == start,
            top == len - 1,
            u <= len,
            cc <= 1,
            limbs_ok(m@),
            m@.last() < 0x7fff_ffff,
            limbs_ok(start.take(top)),
            neg == 0 ==> start[top] < 2 * (m@[top] as int) + 2,
            neg <= 1,
            neg == 0 ==> cc == (if zint_value(start.take(u as int)) < zint_value(m@.take(u as int)) {
                1u32
            } else {
                0u32
            }),
        decreases len - u,
    {
        let aw = a[u];
        let mw = m[u];
        let w = aw.wrapping_sub(mw).wrapping_sub(cc);
        let next = w >> 31u32;
        proof {
            lemma_sub_word(aw, mw, cc);
            if neg == 0 {
                if u < top {
                    assert(start.take(top)[u as int] == start[u as int]);
                }
                assert(aw < mw + cc + 0x8000_0000int);
                let P = pow2((31 * u) as nat) as int;
                lemma_zint_take(start, u as int);
                lemma_zint_take(m@, u as int);
                assert(limbs_ok(start.take(u as int))) by {
                    assert forall|j: int| 0 <= j < u implies #[trigger] start.take(u as int)[j] < 0x8000_0000 by {
                        assert(start.take(top)[j] == start[j]);
                    }
                }
                assert(limbs_ok(m@.take(u as int))) by {
                    assert forall|j: int| 0 <= j < u implies #[trigger] m@.take(u as int)[j] < 0x8000_0000 by {
                        assert(m@[j] < 0x8000_0000);
                    }
                }
                lemma_zint_bound(start.take(u as int));
                lemma_zint_bound(m@.take(u as int));
                lemma_compare_step(
                    zint_value(start.take(u as int)) as int,
                    zint_value(m@.take(u as int)) as int,
                    aw as int,
                    mw as int,
                    P,
                );
            }
        }
        cc = next;
        u = u + 1;
    }
    let ghost less = cc == 1;
    proof {
        assert(start.take(len as int) =~= start);
        assert(m@.take(len as int) =~= m@);
        if neg == 0 && less {
            let at = start.last() as int;
            let mt = m@.last() as int;
            assert(zint_value(m@) < (mt + 1) * PT) by (nonlinear_arith)
                requires
                    zint_value(m@) == zint_value(m@.drop_last()) + mt * PT,
                    zint_value(m@.drop_last()) < PT,
            ;
            assert(at < mt + 1) by (nonlinear_arith)
                requires
                    at * PT <= zint_value(start),
                    zint_value(start) < zint_value(m@),
                    zint_value(m@) < (mt + 1) * PT,
                    PT > 0,
            ;
        }
    }
    let xm: u32 = 0u32.wrapping_sub(neg) >> 1u32;
    let ym: u32 = 0u32.wrapping_sub(neg | 1u32.wrapping_sub(cc));
    assert((neg == 1u32 ==> xm == 0x7fff_ffffu32 && ym == 0xffff_ffffu32) && (neg == 0u32 ==> xm == 0u32 && (
    cc == 0u32 ==> ym == 0xffff_ffffu32) && (cc == 1u32 ==> ym == 0u32))) by (bit_vector)
        requires
            neg <= 1u32,
            cc <= 1u32,
            xm == 0u32.wrapping_sub(neg) >> 1u32,
            ym == 0u32.wrapping_sub(neg | 1u32.wrapping_sub(cc)),
    ;
    cc = neg;
    u = 0;
    let ghost mut gc: int = neg as int;
    proof {
        assert(a@.take(0) =~= Seq::<u32>::empty());
        assert(startm.take(0) =~= Seq::<u32>::empty());
    }
    while u < len
        invariant
            len == a@.len(),
            len == m@.len(),
            start.len() == len,
            startm == top_masked(start),
            limbs_ok(startm),
            top == len - 1,
            u <= len,
            cc <= 1,
            neg <= 1,
            limbs_ok(m@),
            m@.last() < 0x7fff_ffff,
            limbs_ok(start.take(top)),
            neg == 0 ==> start[top] < 2 * (m@[top] as int) + 2,
            neg == 0 ==> less == (zint_value(start) < zint_value(m@)),
            neg == 1 ==> xm == 0x7fff_ffffu32 && ym == 0xffff_ffffu32,
            neg == 0 ==> xm == 0u32,
            neg == 0 && !less ==> ym == 0xffff_ffffu32,
            neg == 0 && less ==> ym == 0u32 && cc == 0 && a@ == start && start[top] <= m@[top],
            forall|j: int| 0 <= j < u ==> #[trigger] a@[j] < 0x8000_0000,
            forall|j: int| u <= j < len ==> #[trigger] a@[j] == start[j],
            neg == 1 ==> 0 <= gc <= 1 && (u <= top ==> gc == cc) && zint_value(a@.take(u as int)) + pow2(
                (31 * u) as nat,
            ) == zint_value(startm.take(u as int)) + zint_value(m@.take(u as int)) + gc * pow2((31 * u) as nat),
            neg == 0 && !less ==> zint_value(a@.take(u as int)) + zint_value(m@.take(u as int)) == zint_value(
                start.take(u as int),
            ) + cc as nat * pow2((31 * u) as nat),
        decreases len - u,
    {
        let aw = a[u];
        let mword = m[u];
        let mw = (mword ^ xm) & ym;
        assert(mw < 0x8000_0000u32 && (xm == 0x7fff_ffffu32 && ym == 0xffff_ffffu32 ==> mw == 0x7fff_ffffu32
            - mword) && (xm == 0u32 && ym == 0xffff_ffffu32 ==> mw == mword) && (ym == 0u32 ==> mw == 0u32))
            by (bit_vector)
            requires
                mword < 0x8000_0000u32,
                xm <= 0x7fff_ffffu32,
                mw == (mword ^ xm) & ym,
        ;
        let w = aw.wrapping_sub(mw).wrapping_sub(cc);
        let limb = w & 0x7fff_ffff;
        let next = w >> 31u32;
        let ghost awm = aw & 0x7fff_ffff;
        let ghost wm = awm.wrapping_sub(mw).wrapping_sub(cc);
        let ghost nx = wm >> 31u32;
        proof {
            lemma_sub_word(aw, mw, cc);
            lemma_sub_word(awm, mw, cc);
            lemma_mask_mod(aw);
            if u < top {
                assert(start.take(top)[u as int] == start[u as int]);
            }
            if neg == 0 {
                assert(aw < mw + cc + 0x8000_0000int);
            }
        }
        let ghost before = a@;
        a[u] = limb;
        proof {
            let P = pow2((31 * u) as nat) as int;
            let D = zint_value(before.take(u as int)) as int;
            let S = zint_value(start.take(u as int)) as int;
            let Sm = zint_value(startm.take(u as int)) as int;
            let M = zint_value(m@.take(u as int)) as int;
            assert(a@.take(u as int) =~= before.take(u as int));
            lemma_zint_take(a@, u as int);
            lemma_zint_take(start, u as int);
            lemma_zint_take(startm, u as int);
            lemma_zint_take(m@, u as int);
            assert(start[u as int] == aw);
            assert(startm[u as int] == awm) by {
                if u == top {
                    assert(aw & 0x7fff_ffff == aw % 0x8000_0000);
                } else {
                    assert(aw < 0x8000_0000);
                }
            }
            vstd::arithmetic::power2::lemma_pow2_adds((31 * u) as nat, 31);
            assert(31 * u + 31 == 31 * (u + 1));
            let Q = pow2((31 * (u + 1)) as nat) as int;
            vstd::arithmetic::power2::lemma2_to64();
            assert(Q == P * 0x8000_0000);
            if neg == 1 {
                assert(D + limb * P + Q == (Sm + awm * P) + (M + mword * P) + nx * Q) by (nonlinear_arith)
                    requires
                        limb + mw + cc == awm + 0x8000_0000 * nx,
                        mw == 0x7fff_ffff - mword,
                        Q == P * 0x8000_0000,
                        D + P == Sm + M + cc * P,
                ;
                gc = nx as int;
                assert(u + 1 <= top ==> nx == next);
            } else if !less {
                assert(D + limb * P + (M + mword * P) == (S + aw * P) + next * Q) by (nonlinear_arith)
                    requires
                        limb + mw + cc == aw + 0x8000_0000 * next,
                        mw == mword,
                        Q == P * 0x8000_0000,
                        D + M == S + cc * P,
                ;
            } else {
                assert(aw < 0x8000_0000) by {
                    if u == top {
                        assert(start[top] <= m@[top]);
                    }
                }
                assert(limb == aw && next == 0);
                assert(a@ =~= start);
            }
        }
        cc = next;
        u = u + 1;
    }
    proof {
        assert(a@.take(len as int) =~= a@);
        assert(start.take(len as int) =~= start);
        assert(startm.take(len as int) =~= startm);
        assert(m@.take(len as int) =~= m@);
        let P = pow2((31 * len) as nat) as int;
        let D = zint_value(a@) as int;
        let S = zint_value(start) as int;
        let M = zint_value(m@) as int;
        assert(limbs_ok(a@));
        lemma_zint_bound(a@);
        lemma_zint_bound(m@);
        lemma_zint_bound(startm);
        if neg == 1 {
            assert(gc == 0);
        } else if !less {
            assert(cc == 0);
            vstd::arithmetic::div_mod::lemma_fundamental_div_mod_converse(S, M, 1, S - M);
        } else {
            vstd::arithmetic::div_mod::lemma_small_mod(S as nat, M as nat);
        }
    }
}

/// The absolute value of `v`.
pub open spec fn abs_int(v: int) -> int {
    if v < 0 {
        -v
    } else {
        v
    }
}

/// A small signed factor pair, as Falcon's reductions use: `|x| + |y| <= 2^31`.
pub open spec fn factors_ok(x: i64, y: i64) -> bool {
    abs_int(x as int) + abs_int(y as int) <= 0x8000_0000
}

/// What `zint_co_reduce` divides by `2^31`: `a * x + b * y`.
pub open spec fn co_combo(a: Seq<u32>, b: Seq<u32>, x: i64, y: i64) -> int {
    zint_value(a) * x + zint_value(b) * y
}

/// `co_combo` is an exact multiple of `2^31` whose quotient lies in
/// `[-2^(31 len - 1), 2^(31 len - 1))`.
pub open spec fn co_fits(v: int, len: nat) -> bool {
    &&& v % 0x8000_0000 == 0
    &&& -0x4000_0000 * pow2(31 * len) <= v < 0x4000_0000 * pow2(31 * len)
}

/// One limb more of a linear combination: the limb it gives and the carry it passes on.
proof fn lemma_co_step(v: int, c: int, p: int, wa: int, wb: int, x: int, y: int, limb: int, c2: int, a: int, b: int)
    requires
        v + c * p == a * x + b * y,
        c2 * 0x8000_0000 + limb == wa * x + wb * y + c,
    ensures
        v + limb * p + c2 * (p * 0x8000_0000) == (a + wa * p) * x + (b + wb * p) * y,
{
    assert(v + limb * p + c2 * (p * 0x8000_0000) == v + p * (c2 * 0x8000_0000 + limb)) by (nonlinear_arith);
    assert(p * (wa * x + wb * y + c) == wa * p * x + wb * p * y + c * p) by (nonlinear_arith);
    assert((a + wa * p) * x + (b + wb * p) * y == a * x + b * y + wa * p * x + wb * p * y) by (nonlinear_arith);
}

/// Limbs times a small factor pair stay within `2^62 - 2^31`.
proof fn lemma_co_bound(wa: int, wb: int, x: int, y: int)
    requires
        0 <= wa < 0x8000_0000,
        0 <= wb < 0x8000_0000,
        abs_int(x) + abs_int(y) <= 0x8000_0000,
    ensures
        abs_int(wa * x) <= 0x3fff_ffff_8000_0000,
        abs_int(wb * y) <= 0x3fff_ffff_8000_0000,
        abs_int(wa * x + wb * y) <= 0x3fff_ffff_8000_0000,
{
    assert(abs_int(wa * x) <= (0x7fff_ffff) * abs_int(x)) by (nonlinear_arith)
        requires
            0 <= wa < 0x8000_0000,
    ;
    assert(abs_int(wb * y) <= (0x7fff_ffff) * abs_int(y)) by (nonlinear_arith)
        requires
            0 <= wb < 0x8000_0000,
    ;
    assert(0x7fff_ffff * abs_int(x) + 0x7fff_ffff * abs_int(y) <= 0x3fff_ffff_8000_0000) by (nonlinear_arith)
        requires
            abs_int(x) + abs_int(y) <= 0x8000_0000,
            abs_int(x) >= 0,
            abs_int(y) >= 0,
    ;
}

/// The carry out of a value within `2^62` is within `2^31`.
proof fn lemma_co_carry(z: int, limb: int, c2: int)
    requires
        abs_int(z) <= 0x4000_0000_0000_0000,
        0 <= limb < 0x8000_0000,
        c2 * 0x8000_0000 + limb == z,
    ensures
        abs_int(c2) <= 0x8000_0000,
{
}

/// The end of a reduction: the limbs made, the lowest of which drops, with the last carry
/// as top limb in 31 bits, stand for the exact quotient, as two's complement when
/// negative.
proof fn lemma_co_finish(
    sa: Seq<u32>,
    sb: Seq<u32>,
    x: i64,
    y: i64,
    out: Seq<u32>,
    mid: Seq<u32>,
    fin: Seq<u32>,
    c: int,
    t: u32,
)
    requires
        out.len() == sa.len(),
        out.len() > 0,
        mid.len() == out.len(),
        limbs_ok(out),
        zint_value(out) + c * pow2((31 * out.len()) as nat) == co_combo(sa, sb, x, y),
        mid.take(out.len() - 1) == out.drop_first(),
        fin == mid.update(out.len() - 1, t),
        co_fits(co_combo(sa, sb, x, y), out.len()),
        c >= 0 && c < 0x8000_0000 ==> t == c,
        c < 0 && c >= -0x8000_0000 ==> t == c + 0x8000_0000,
        t < 0x8000_0000,
    ensures
        limbs_ok(fin),
        (c < 0) == (co_combo(sa, sb, x, y) < 0),
        c >= 0 ==> zint_value(fin) == co_combo(sa, sb, x, y) / 0x8000_0000,
        c < 0 ==> zint_value(fin) == co_combo(sa, sb, x, y) / 0x8000_0000 + pow2((31 * out.len()) as nat) && 0 < -(
        co_combo(sa, sb, x, y) / 0x8000_0000) < pow2((31 * out.len()) as nat),
{
    let len = out.len();
    let v = co_combo(sa, sb, x, y);
    let n = pow2((31 * len) as nat) as int;
    let pt = pow2((31 * (len - 1)) as nat) as int;
    vstd::arithmetic::power2::lemma2_to64();
    vstd::arithmetic::power2::lemma_pow2_adds(31, (31 * (len - 1)) as nat);
    assert(31 + 31 * (len - 1) == 31 * len);
    assert(n == 0x8000_0000 * pt);
    vstd::arithmetic::power2::lemma_pow2_pos((31 * (len - 1)) as nat);
    lemma_zint_front(out);
    let rest = out.drop_first();
    assert(limbs_ok(rest)) by {
        assert forall|j: int| 0 <= j < rest.len() implies #[trigger] rest[j] < 0x8000_0000 by {
            assert(rest[j] == out[j + 1]);
        }
    }
    lemma_zint_bound(rest);
    let w = zint_value(rest) as int;
    let low = out[0] as int;
    assert(v == 0x8000_0000 * (w + c * pt) + low) by (nonlinear_arith)
        requires
            v == low + 0x8000_0000 * w + c * n,
            n == 0x8000_0000 * pt,
    ;
    vstd::arithmetic::div_mod::lemma_fundamental_div_mod_converse(v, 0x8000_0000, w + c * pt, low);
    let q = v / 0x8000_0000;
    assert(q == w + c * pt);
    assert(-0x4000_0000 * pt <= q < 0x4000_0000 * pt) by (nonlinear_arith)
        requires
            v == 0x8000_0000 * q,
            -0x4000_0000 * n <= v < 0x4000_0000 * n,
            n == 0x8000_0000 * pt,
    ;
    assert(-0x4000_0000 <= c < 0x4000_0000) by (nonlinear_arith)
        requires
            q == w + c * pt,
            0 <= w < pt,
            -0x4000_0000 * pt <= q < 0x4000_0000 * pt,
    ;
    if c >= 0 {
        assert(q >= 0) by (nonlinear_arith)
            requires
                q == w + c * pt,
                w >= 0,
                c >= 0,
                pt > 0,
        ;
    } else {
        assert(q < 0) by (nonlinear_arith)
            requires
                q == w + c * pt,
                w < pt,
                pt > 0,
                c <= -1,
        ;
    }
    assert(fin.drop_last() =~= rest);
    assert(limbs_ok(fin)) by {
        assert forall|j: int| 0 <= j < fin.len() implies #[trigger] fin[j] < 0x8000_0000 by {
            if j < len - 1 {
                assert(fin[j] == rest[j]);
            }
        }
    }
    lemma_zint_top(fin);
    assert(fin.last() == t);
    if c < 0 {
        assert(w + t * pt == q + n) by (nonlinear_arith)
            requires
                t == c + 0x8000_0000,
                q == w + c * pt,
                n == 0x8000_0000 * pt,
        ;
    } else {
        assert(w + t * pt == q);
    }
}

/// Replaces `a` and `b` by `(a xa + b xb) / 2^31` and `(a ya + b yb) / 2^31`, both exact,
/// each negated when negative; returns which were negated: one for `a`, two for `b`.
pub fn zint_co_reduce(a: &mut [u32], b: &mut [u32], xa: i64, xb: i64, ya: i64, yb: i64) -> (r: u32)
    requires
        old(a)@.len() == old(b)@.len(),
        old(a)@.len() > 0,
        limbs_ok(old(a)@),
        limbs_ok(old(b)@),
        factors_ok(xa, xb),
        factors_ok(ya, yb),
        co_fits(co_combo(old(a)@, old(b)@, xa, xb), old(a)@.len()),
        co_fits(co_combo(old(a)@, old(b)@, ya, yb), old(a)@.len()),
    ensures
        final(a)@.len() == old(a)@.len(),
        final(b)@.len() == old(b)@.len(),
        limbs_ok(final(a)@),
        limbs_ok(final(b)@),
        zint_value(final(a)@) == abs_int(co_combo(old(a)@, old(b)@, xa, xb) / 0x8000_0000),
        zint_value(final(b)@) == abs_int(co_combo(old(a)@, old(b)@, ya, yb) / 0x8000_0000),
        r == (if co_combo(old(a)@, old(b)@, xa, xb) < 0 {
            1u32
        } else {
            0u32
        }) + (if co_combo(old(a)@, old(b)@, ya, yb) < 0 {
            2u32
        } else {
            0u32
        }),
{
    let ghost sa = a@;
    let ghost sb = b@;
    let len = a.len();
    let mut cca: i64 = 0;
    let mut ccb: i64 = 0;
    let ghost mut outa: Seq<u32> = Seq::empty();
    let ghost mut outb: Seq<u32> = Seq::empty();
    let mut u: usize = 0;
    proof {
        vstd::arithmetic::power2::lemma2_to64();
        assert(sa.take(0) =~= Seq::<u32>::empty());
        assert(sb.take(0) =~= Seq::<u32>::empty());
        assert(zint_value(Seq::<u32>::empty()) == 0);
    }
    while u < len
        invariant
            len == a@.len(),
            len == b@.len(),
            len == sa.len(),
            len == sb.len(),
            u <= len,
            limbs_ok(sa),
            limbs_ok(sb),
            factors_ok(xa, xb),
            factors_ok(ya, yb),
            abs_int(cca as int) <= 0x8000_0000,
            abs_int(ccb as int) <= 0x8000_0000,
            outa.len() == u,
            outb.len() == u,
            limbs_ok(outa),
            limbs_ok(outb),
            u > 0 ==> a@.take(u - 1) == outa.drop_first() && b@.take(u - 1) == outb.drop_first(),
            forall|j: int| u <= j < len ==> #[trigger] a@[j] == sa[j],
            forall|j: int| u <= j < len ==> #[trigger] b@[j] == sb[j],
            zint_value(outa) + cca * pow2((31 * u) as nat) == zint_value(sa.take(u as int)) * xa + zint_value(
                sb.take(u as int),
            ) * xb,
            zint_value(outb) + ccb * pow2((31 * u) as nat) == zint_value(sa.take(u as int)) * ya + zint_value(
                sb.take(u as int),
            ) * yb,
        decreases len - u,
    {
        let wa = a[u];
        let wb = b[u];
        assert(wa < 0x8000_0000 && wb < 0x8000_0000);
        proof {
            lemma_co_bound(wa as int, wb as int, xa as int, xb as int);
            lemma_co_bound(wa as int, wb as int, ya as int, yb as int);
        }
        let za: i64 = wa as i64 * xa + wb as i64 * xb + cca;
        let zb: i64 = wa as i64 * ya + wb as i64 * yb + ccb;
        let la: u32 = (za & 0x7fff_ffff) as u32;
        let lb: u32 = (zb & 0x7fff_ffff) as u32;
        let na: i64 = za >> 31i64;
        let nb: i64 = zb >> 31i64;
        proof {
            lemma_split_i64(za);
            lemma_split_i64(zb);
        }
        let ghost before_a = a@;
        let ghost before_b = b@;
        if u > 0 {
            a[u - 1] = la;
            b[u - 1] = lb;
        }
        proof {
            let P = pow2((31 * u) as nat) as int;
            vstd::arithmetic::power2::lemma2_to64();
            vstd::arithmetic::power2::lemma_pow2_adds((31 * u) as nat, 31);
            assert(31 * u + 31 == 31 * (u + 1));
            assert(pow2((31 * (u + 1)) as nat) == P * 0x8000_0000);
            lemma_zint_take(sa, u as int);
            lemma_zint_take(sb, u as int);
            assert(sa[u as int] == wa && sb[u as int] == wb);
            lemma_co_carry(za as int, la as int, na as int);
            lemma_co_carry(zb as int, lb as int, nb as int);
            lemma_co_step(
                zint_value(outa) as int,
                cca as int,
                P,
                wa as int,
                wb as int,
                xa as int,
                xb as int,
                la as int,
                na as int,
                zint_value(sa.take(u as int)) as int,
                zint_value(sb.take(u as int)) as int,
            );
            lemma_co_step(
                zint_value(outb) as int,
                ccb as int,
                P,
                wa as int,
                wb as int,
                ya as int,
                yb as int,
                lb as int,
                nb as int,
                zint_value(sa.take(u as int)) as int,
                zint_value(sb.take(u as int)) as int,
            );
            let oa = outa.push(la);
            let ob = outb.push(lb);
            assert(oa.drop_last() =~= outa);
            assert(ob.drop_last() =~= outb);
            assert(zint_value(oa) == zint_value(outa) + la * P);
            assert(zint_value(ob) == zint_value(outb) + lb * P);
            assert(limbs_ok(oa)) by {
                assert forall|j: int| 0 <= j < oa.len() implies #[trigger] oa[j] < 0x8000_0000 by {
                    if j < u {
                        assert(oa[j] == outa[j]);
                    }
                }
            }
            assert(limbs_ok(ob)) by {
                assert forall|j: int| 0 <= j < ob.len() implies #[trigger] ob[j] < 0x8000_0000 by {
                    if j < u {
                        assert(ob[j] == outb[j]);
                    }
                }
            }
            if u > 0 {
                assert(oa.drop_first() =~= outa.drop_first().push(la));
                assert(ob.drop_first() =~= outb.drop_first().push(lb));
                assert(a@.take(u as int) =~= before_a.take(u - 1).push(la));
                assert(b@.take(u as int) =~= before_b.take(u - 1).push(lb));
                assert(a@.take(u as int) =~= oa.drop_first());
                assert(b@.take(u as int) =~= ob.drop_first());
            } else {
                assert(a@.take(0) =~= oa.drop_first());
                assert(b@.take(0) =~= ob.drop_first());
            }
            outa = oa;
            outb = ob;
        }
        cca = na;
        ccb = nb;
        u = u + 1;
    }
    proof {
        assert(sa.take(len as int) =~= sa);
        assert(sb.take(len as int) =~= sb);
    }
    let ta: u32 = (cca & 0x7fff_ffff) as u32;
    let tb: u32 = (ccb & 0x7fff_ffff) as u32;
    let nega: u32 = (cca as u64 >> 63u64) as u32;
    let negb: u32 = (ccb as u64 >> 63u64) as u32;
    proof {
        lemma_top_word(cca);
        lemma_top_word(ccb);
    }
    let ghost mida = a@;
    let ghost midb = b@;
    a[len - 1] = ta;
    b[len - 1] = tb;
    proof {
        lemma_co_finish(sa, sb, xa, xb, outa, mida, a@, cca as int, ta);
        lemma_co_finish(sa, sb, ya, yb, outb, midb, b@, ccb as int, tb);
    }
    let ghost fina = a@;
    let ghost finb = b@;
    zint_negate(a, nega);
    zint_negate(b, negb);
    proof {
        let N = pow2((31 * len) as nat) as int;
        let qa = co_combo(sa, sb, xa, xb) / 0x8000_0000;
        let qb = co_combo(sa, sb, ya, yb) / 0x8000_0000;
        if nega == 1 {
            assert(N - zint_value(fina) == -qa);
            vstd::arithmetic::div_mod::lemma_small_mod((-qa) as nat, N as nat);
        }
        if negb == 1 {
            assert(N - zint_value(finb) == -qb);
            vstd::arithmetic::div_mod::lemma_small_mod((-qb) as nat, N as nat);
        }
    }
    assert(nega | (negb << 1u32) == nega + 2 * negb) by (bit_vector)
        requires
            nega <= 1u32,
            negb <= 1u32,
    ;
    nega | (negb << 1u32)
}

/// Montgomery's choice of factor: with `f` the low 31 bits of `(a0 xa + b0 xb) m0i`,
/// computed on 32-bit words, and `m0 m0i` one less than a multiple of `2^31`,
/// `a0 xa + b0 xb + m0 f` is a multiple of `2^31`.
proof fn lemma_low_word_vanishes(a0: u32, b0: u32, m0: u32, m0i: u32, xa: i64, xb: i64, xa32: u32, xb32: u32, s32: u32, f: u32)
    requires
        -0x8000_0000 <= xa <= 0x8000_0000,
        -0x8000_0000 <= xb <= 0x8000_0000,
        xa < 0 ==> xa32 == xa + 0x1_0000_0000,
        xa >= 0 ==> xa32 == xa,
        xb < 0 ==> xb32 == xb + 0x1_0000_0000,
        xb >= 0 ==> xb32 == xb,
        s32 == vstd::wrapping::u32_specs::wrapping_add(
            vstd::wrapping::u32_specs::wrapping_mul(a0, xa32),
            vstd::wrapping::u32_specs::wrapping_mul(b0, xb32),
        ),
        f == vstd::wrapping::u32_specs::wrapping_mul(s32, m0i) % 0x8000_0000,
        (m0 as int * m0i as int) % 0x8000_0000 == 0x7fff_ffff,
    ensures
        (a0 * xa + b0 * xb + m0 * f) % 0x8000_0000 == 0,
{
    let h: int = 0x8000_0000;
    let w: int = 0x1_0000_0000;
    let sum = a0 * xa + b0 * xb;
    let p = a0 * xa32;
    let q = b0 * xb32;
    // the words stand for the factors modulo 2^32, hence modulo 2^31
    let ka: int = if xa < 0 { 2 } else { 0 };
    let kb: int = if xb < 0 { 2 } else { 0 };
    assert(p == a0 * xa + (a0 * ka) * h) by (nonlinear_arith)
        requires
            p == a0 * xa32,
            xa32 == xa + ka * h,
    ;
    assert(q == b0 * xb + (b0 * kb) * h) by (nonlinear_arith)
        requires
            q == b0 * xb32,
            xb32 == xb + kb * h,
    ;
    assert((p + q) == sum + (a0 * ka + b0 * kb) * h);
    vstd::arithmetic::div_mod::lemma_mod_multiples_vanish(a0 * ka + b0 * kb, sum, h);
    assert((p + q) % h == sum % h);
    // the 32-bit sum of products is that sum modulo 2^32
    let pw = p % w;
    let qw = q % w;
    assert(vstd::wrapping::u32_specs::wrapping_mul(a0, xa32) == pw);
    assert(vstd::wrapping::u32_specs::wrapping_mul(b0, xb32) == qw);
    vstd::arithmetic::div_mod::lemma_mod_bound(p, w);
    vstd::arithmetic::div_mod::lemma_mod_bound(q, w);
    if pw + qw > 0xffff_ffff {
        vstd::arithmetic::div_mod::lemma_fundamental_div_mod_converse(pw + qw, w, 1, pw + qw - w);
    } else {
        vstd::arithmetic::div_mod::lemma_small_mod((pw + qw) as nat, w as nat);
    }
    assert(s32 == (pw + qw) % w);
    vstd::arithmetic::div_mod::lemma_add_mod_noop(p, q, w);
    assert(s32 == (p + q) % w);
    vstd::arithmetic::div_mod::lemma_mod_mod(p + q, h, 2);
    assert((s32 as int) % h == sum % h);
    // f is s32 m0i modulo 2^31
    vstd::arithmetic::div_mod::lemma_mod_mod(s32 * m0i, h, 2);
    assert(f == (s32 * m0i) % h);
    // m0 f is -sum modulo 2^31
    vstd::arithmetic::div_mod::lemma_mul_mod_noop_right(m0 as int, s32 * m0i, h);
    assert((m0 * f) % h == (m0 * (s32 * m0i)) % h);
    assert(m0 * (s32 * m0i) == (m0 * m0i) * s32) by (nonlinear_arith);
    vstd::arithmetic::div_mod::lemma_mul_mod_noop((m0 * m0i) as int, s32 as int, h);
    assert(((m0 * m0i) * s32) % h == ((h - 1) * ((s32 as int) % h)) % h);
    vstd::arithmetic::div_mod::lemma_mul_mod_noop_right(h - 1, s32 as int, h);
    vstd::arithmetic::div_mod::lemma_mul_mod_noop_right(h - 1, sum, h);
    assert(((h - 1) * ((s32 as int) % h)) % h == ((h - 1) * (sum % h)) % h);
    assert((h - 1) * sum == sum * h + (-sum)) by (nonlinear_arith);
    vstd::arithmetic::div_mod::lemma_mod_multiples_vanish(sum, -sum, h);
    assert((m0 * f) % h == (-sum) % h);
    // so the whole is a multiple of 2^31
    vstd::arithmetic::div_mod::lemma_add_mod_noop(sum, m0 * f, h);
    vstd::arithmetic::div_mod::lemma_add_mod_noop(sum, -sum, h);
    assert((sum + (-sum)) % h == 0);
}

/// The end of a modular reduction: the limbs made, the lowest of which is zero, with the
/// last carry as top limb, stand for the exact quotient, its top limb cut to 31 bits and
/// offset by `2^(31 len)` when negative.
proof fn lemma_mod_finish(out: Seq<u32>, mid: Seq<u32>, sigma: int, c: int, top: u32)
    requires
        out.len() > 0,
        mid.len() == out.len(),
        limbs_ok(out),
        out[0] == 0,
        zint_value(out) + c * pow2((31 * out.len()) as nat) == sigma,
        mid.drop_last() == out.drop_first(),
        mid.last() == top,
        c >= 0 ==> top == c,
        c < 0 ==> top % 0x8000_0000 == c + 0x8000_0000,
        -0x8000_0000 <= c,
    ensures
        sigma % 0x8000_0000 == 0,
        limbs_ok(mid.drop_last()),
        c >= 0 ==> zint_value(mid) == sigma / 0x8000_0000,
        c < 0 ==> zint_value(top_masked(mid)) == sigma / 0x8000_0000 + pow2((31 * out.len()) as nat),
        (c < 0) == (sigma < 0),
{
    let len = out.len();
    let n = pow2((31 * len) as nat) as int;
    let pt = pow2((31 * (len - 1)) as nat) as int;
    vstd::arithmetic::power2::lemma2_to64();
    vstd::arithmetic::power2::lemma_pow2_adds(31, (31 * (len - 1)) as nat);
    assert(31 + 31 * (len - 1) == 31 * len);
    assert(n == 0x8000_0000 * pt);
    vstd::arithmetic::power2::lemma_pow2_pos((31 * (len - 1)) as nat);
    lemma_zint_front(out);
    let rest = out.drop_first();
    assert(limbs_ok(rest)) by {
        assert forall|j: int| 0 <= j < rest.len() implies #[trigger] rest[j] < 0x8000_0000 by {
            assert(rest[j] == out[j + 1]);
        }
    }
    lemma_zint_bound(rest);
    let w = zint_value(rest) as int;
    assert(sigma == 0x8000_0000 * (w + c * pt)) by (nonlinear_arith)
        requires
            sigma == 0 + 0x8000_0000 * w + c * n,
            n == 0x8000_0000 * pt,
    ;
    vstd::arithmetic::div_mod::lemma_fundamental_div_mod_converse(sigma, 0x8000_0000, w + c * pt, 0);
    let q = sigma / 0x8000_0000;
    assert(q == w + c * pt);
    if c >= 0 {
        assert(q >= 0) by (nonlinear_arith)
            requires
                q == w + c * pt,
                w >= 0,
                c >= 0,
                pt > 0,
        ;
    } else {
        assert(q < 0) by (nonlinear_arith)
            requires
                q == w + c * pt,
                w < pt,
                pt > 0,
                c <= -1,
        ;
    }
    assert(mid.drop_last() == rest);
    let tm = top_masked(mid);
    assert(tm.drop_last() =~= rest);
    lemma_zint_top(mid);
    lemma_zint_top(tm);
    assert(tm.last() == top % 0x8000_0000);
    if c < 0 {
        assert(w + (c + 0x8000_0000) * pt == q + n) by (nonlinear_arith)
            requires
                q == w + c * pt,
                n == 0x8000_0000 * pt,
        ;
    }
}

/// One limb more of a linear combination with a multiple of the modulus added.
proof fn lemma_co_step3(
    v: int,
    c: int,
    p: int,
    wa: int,
    wb: int,
    wm: int,
    x: int,
    y: int,
    f: int,
    limb: int,
    c2: int,
    a: int,
    b: int,
    mm: int,
)
    requires
        v + c * p == a * x + b * y + mm * f,
        c2 * 0x8000_0000 + limb == wa * x + wb * y + wm * f + c,
    ensures
        v + limb * p + c2 * (p * 0x8000_0000) == (a + wa * p) * x + (b + wb * p) * y + (mm + wm * p) * f,
{
    assert(v + limb * p + c2 * (p * 0x8000_0000) == v + p * (c2 * 0x8000_0000 + limb)) by (nonlinear_arith);
    let t1 = wa * x;
    let t2 = wb * y;
    let t3 = wm * f;
    vstd::arithmetic::mul::lemma_mul_is_distributive_add(p, t1 + t2 + t3, c);
    vstd::arithmetic::mul::lemma_mul_is_distributive_add(p, t1 + t2, t3);
    vstd::arithmetic::mul::lemma_mul_is_distributive_add(p, t1, t2);
    assert(p * t1 == wa * p * x) by (nonlinear_arith)
        requires
            t1 == wa * x,
    ;
    assert(p * t2 == wb * p * y) by (nonlinear_arith)
        requires
            t2 == wb * y,
    ;
    assert(p * t3 == wm * p * f) by (nonlinear_arith)
        requires
            t3 == wm * f,
    ;
    assert(p * c == c * p) by (nonlinear_arith);
    assert((a + wa * p) * x + (b + wb * p) * y + (mm + wm * p) * f == a * x + b * y + mm * f + wa * p * x + wb * p
        * y + wm * p * f) by (nonlinear_arith);
}

/// A combination of two numbers at most `m` with a small factor pair, plus `m` times a
/// 31-bit number, lies between `-m 2^31` and `m 2^31 + m (2^31 - 1)`.
proof fn lemma_mod_bounds(sa: Seq<u32>, sb: Seq<u32>, m: Seq<u32>, x: i64, y: i64, f: u32)
    requires
        zint_value(sa) <= zint_value(m),
        zint_value(sb) <= zint_value(m),
        factors_ok(x, y),
        f < 0x8000_0000,
    ensures
        -zint_value(m) * 0x8000_0000 <= co_combo(sa, sb, x, y) + zint_value(m) * f <= zint_value(m) * 0x8000_0000
            + zint_value(m) * 0x7fff_ffff,
{
    let a = zint_value(sa) as int;
    let b = zint_value(sb) as int;
    let mm = zint_value(m) as int;
    let xi = x as int;
    let yi = y as int;
    assert(abs_int(a * xi) <= mm * abs_int(xi)) by (nonlinear_arith)
        requires
            0 <= a <= mm,
    ;
    assert(abs_int(b * yi) <= mm * abs_int(yi)) by (nonlinear_arith)
        requires
            0 <= b <= mm,
    ;
    assert(mm * abs_int(xi) + mm * abs_int(yi) <= mm * 0x8000_0000) by (nonlinear_arith)
        requires
            abs_int(xi) + abs_int(yi) <= 0x8000_0000,
            mm >= 0,
    ;
    assert(0 <= mm * f <= mm * 0x7fff_ffff) by (nonlinear_arith)
        requires
            0 <= f < 0x8000_0000,
            mm >= 0,
    ;
}

/// The last carry of a reduction whose sum lies within those bounds is at least `-2^31`
/// and below `2^32`.
proof fn lemma_carry_range(out: Seq<u32>, c: int, sigma: int, mm: int)
    requires
        limbs_ok(out),
        zint_value(out) + c * pow2((31 * out.len()) as nat) == sigma,
        0 < mm < pow2((31 * out.len()) as nat),
        -mm * 0x8000_0000 <= sigma <= mm * 0x8000_0000 + mm * 0x7fff_ffff,
    ensures
        -0x8000_0000 <= c < 0x1_0000_0000,
{
    let n = pow2((31 * out.len()) as nat) as int;
    lemma_zint_bound(out);
    assert(-0x8000_0000 <= c < 0x1_0000_0000) by (nonlinear_arith)
        requires
            0 <= sigma - c * n < n,
            0 < mm < n,
            -mm * 0x8000_0000 <= sigma <= mm * 0x8000_0000 + mm * 0x7fff_ffff,
    ;
}

/// The quotient by `2^31` of such a sum, when exact, lies between `-m` and `2m`.
proof fn lemma_quotient_bounds(sigma: int, mm: int)
    requires
        sigma % 0x8000_0000 == 0,
        mm >= 1,
        -mm * 0x8000_0000 <= sigma <= mm * 0x8000_0000 + mm * 0x7fff_ffff,
    ensures
        sigma == 0x8000_0000 * (sigma / 0x8000_0000),
        -mm <= sigma / 0x8000_0000 < 2 * mm,
{
    vstd::arithmetic::div_mod::lemma_fundamental_div_mod(sigma, 0x8000_0000);
    let t = sigma / 0x8000_0000;
    assert(-mm <= t < 2 * mm) by (nonlinear_arith)
        requires
            sigma == 0x8000_0000 * t,
            -mm * 0x8000_0000 <= sigma <= mm * 0x8000_0000 + mm * 0x7fff_ffff,
            mm >= 1,
    ;
}

/// What finishing the reduction gives is below `m` and is `combo / 2^31` modulo `m`,
/// for `sigma` the exact multiple `combo + m f` of `2^31`.
proof fn lemma_mod_result(mid: Seq<u32>, fin: Seq<u32>, m: Seq<u32>, sigma: int, combo: int, f: int, neg: u32)
    requires
        sigma == combo + zint_value(m) * f,
        sigma == 0x8000_0000 * (sigma / 0x8000_0000),
        -zint_value(m) <= sigma / 0x8000_0000 < 2 * zint_value(m),
        neg <= 1,
        limbs_ok(fin),
        neg == 0 ==> sigma / 0x8000_0000 >= 0 && zint_value(mid) == sigma / 0x8000_0000 && zint_value(fin)
            == zint_value(mid) % zint_value(m),
        neg == 1 ==> sigma / 0x8000_0000 < 0 && zint_value(top_masked(mid)) == sigma / 0x8000_0000 + pow2(
            (31 * m.len()) as nat,
        ) && zint_value(fin) + pow2((31 * m.len()) as nat) == zint_value(top_masked(mid)) + zint_value(m),
    ensures
        zint_value(fin) < zint_value(m),
        (zint_value(fin) * 0x8000_0000 - combo) % (zint_value(m) as int) == 0,
{
    let mm = zint_value(m) as int;
    let t = sigma / 0x8000_0000;
    let r = zint_value(fin) as int;
    if neg == 1 {
        assert(r == t + mm);
        assert(r * 0x8000_0000 - combo == mm * (f + 0x8000_0000)) by (nonlinear_arith)
            requires
                r == t + mm,
                sigma == 0x8000_0000 * t,
                sigma == combo + mm * f,
        ;
        vstd::arithmetic::div_mod::lemma_mod_multiples_basic(f + 0x8000_0000, mm);
        assert((mm * (f + 0x8000_0000)) % mm == 0) by (nonlinear_arith)
            requires
                ((f + 0x8000_0000) * mm) % mm == 0,
        ;
    } else {
        vstd::arithmetic::div_mod::lemma_fundamental_div_mod(t, mm);
        vstd::arithmetic::div_mod::lemma_mod_bound(t, mm);
        let q = t / mm;
        assert(r * 0x8000_0000 - combo == mm * (f - q * 0x8000_0000)) by (nonlinear_arith)
            requires
                t == mm * q + r,
                sigma == 0x8000_0000 * t,
                sigma == combo + mm * f,
        ;
        vstd::arithmetic::div_mod::lemma_mod_multiples_basic(f - q * 0x8000_0000, mm);
        assert((mm * (f - q * 0x8000_0000)) % mm == 0) by (nonlinear_arith)
            requires
                ((f - q * 0x8000_0000) * mm) % mm == 0,
        ;
    }
}

/// Replaces `a` and `b`, both below the odd `m`, by `(a xa + b xb) / 2^31` and
/// `(a ya + b yb) / 2^31` modulo `m`, for `m0i` the value of `-1/m` modulo `2^31`.
pub fn zint_co_reduce_mod(
    a: &mut [u32],
    b: &mut [u32],
    m: &[u32],
    m0i: u32,
    xa: i64,
    xb: i64,
    ya: i64,
    yb: i64,
)
    requires
        old(a)@.len() == m@.len(),
        old(b)@.len() == m@.len(),
        m@.len() > 0,
        limbs_ok(old(a)@),
        limbs_ok(old(b)@),
        limbs_ok(m@),
        m@.last() < 0x7fff_ffff,
        is_ninv31(m@[0], m0i),
        zint_value(old(a)@) <= zint_value(m@),
        zint_value(old(b)@) <= zint_value(m@),
        factors_ok(xa, xb),
        factors_ok(ya, yb),
    ensures
        final(a)@.len() == old(a)@.len(),
        final(b)@.len() == old(b)@.len(),
        limbs_ok(final(a)@),
        limbs_ok(final(b)@),
        zint_value(final(a)@) < zint_value(m@),
        zint_value(final(b)@) < zint_value(m@),
        (zint_value(final(a)@) * 0x8000_0000 - co_combo(old(a)@, old(b)@, xa, xb)) % (zint_value(m@) as int) == 0,
        (zint_value(final(b)@) * 0x8000_0000 - co_combo(old(a)@, old(b)@, ya, yb)) % (zint_value(m@) as int) == 0,
{
    let ghost sa = a@;
    let ghost sb = b@;
    let len = m.len();
    let a0 = a[0];
    let b0 = b[0];
    let m0 = m[0];
    let xa32 = xa as u32;
    let xb32 = xb as u32;
    let ya32 = ya as u32;
    let yb32 = yb as u32;
    let sfa = a0.wrapping_mul(xa32).wrapping_add(b0.wrapping_mul(xb32));
    let sfb = a0.wrapping_mul(ya32).wrapping_add(b0.wrapping_mul(yb32));
    let fa: u32 = sfa.wrapping_mul(m0i) & 0x7fff_ffff;
    let fb: u32 = sfb.wrapping_mul(m0i) & 0x7fff_ffff;
    proof {
        let pa = sfa.wrapping_mul(m0i);
        let pb = sfb.wrapping_mul(m0i);
        lemma_mask_mod(pa);
        lemma_mask_mod(pb);
        assert(-0x8000_0000 <= xa <= 0x8000_0000 && -0x8000_0000 <= xb <= 0x8000_0000);
        assert(-0x8000_0000 <= ya <= 0x8000_0000 && -0x8000_0000 <= yb <= 0x8000_0000);
        lemma_word_of(xa);
        lemma_word_of(xb);
        lemma_word_of(ya);
        lemma_word_of(yb);
        lemma_low_word_vanishes(a0, b0, m0, m0i, xa, xb, xa32, xb32, sfa, fa);
        lemma_low_word_vanishes(a0, b0, m0, m0i, ya, yb, ya32, yb32, sfb, fb);
        assert(sa[0] == a0 && sb[0] == b0 && m@[0] == m0);
    }
    let mut cca: i64 = 0;
    let mut ccb: i64 = 0;
    let ghost mut outa: Seq<u32> = Seq::empty();
    let ghost mut outb: Seq<u32> = Seq::empty();
    let mut u: usize = 0;
    proof {
        vstd::arithmetic::power2::lemma2_to64();
        assert(sa.take(0) =~= Seq::<u32>::empty());
        assert(sb.take(0) =~= Seq::<u32>::empty());
        assert(m@.take(0) =~= Seq::<u32>::empty());
        assert(zint_value(Seq::<u32>::empty()) == 0);
    }
    while u < len
        invariant
            len == a@.len(),
            len == b@.len(),
            len == m@.len(),
            len == sa.len(),
            len == sb.len(),
            u <= len,
            limbs_ok(sa),
            limbs_ok(sb),
            limbs_ok(m@),
            factors_ok(xa, xb),
            factors_ok(ya, yb),
            fa < 0x8000_0000,
            fb < 0x8000_0000,
            sa[0] == a0,
            sb[0] == b0,
            m@[0] == m0,
            (a0 * xa + b0 * xb + m0 * fa) % 0x8000_0000 == 0,
            (a0 * ya + b0 * yb + m0 * fb) % 0x8000_0000 == 0,
            abs_int(cca as int) <= 0x1_0000_0000,
            abs_int(ccb as int) <= 0x1_0000_0000,
            u == 0 ==> cca == 0 && ccb == 0,
            outa.len() == u,
            outb.len() == u,
            limbs_ok(outa),
            limbs_ok(outb),
            u > 0 ==> outa[0] == 0 && outb[0] == 0,
            u > 0 ==> a@.take(u - 1) == outa.drop_first() && b@.take(u - 1) == outb.drop_first(),
            forall|j: int| u <= j < len ==> #[trigger] a@[j] == sa[j],
            forall|j: int| u <= j < len ==> #[trigger] b@[j] == sb[j],
            zint_value(outa) + cca * pow2((31 * u) as nat) == zint_value(sa.take(u as int)) * xa + zint_value(
                sb.take(u as int),
            ) * xb + zint_value(m@.take(u as int)) * fa,
            zint_value(outb) + ccb * pow2((31 * u) as nat) == zint_value(sa.take(u as int)) * ya + zint_value(
                sb.take(u as int),
            ) * yb + zint_value(m@.take(u as int)) * fb,
        decreases len - u,
    {
        let wa = a[u];
        let wb = b[u];
        let mw = m[u];
        assert(wa < 0x8000_0000 && wb < 0x8000_0000 && mw < 0x8000_0000);
        proof {
            lemma_co_bound(wa as int, wb as int, xa as int, xb as int);
            lemma_co_bound(wa as int, wb as int, ya as int, yb as int);
            assert(mw * fa <= 0x3fff_ffff_0000_0001) by (nonlinear_arith)
                requires
                    mw < 0x8000_0000,
                    fa < 0x8000_0000,
            ;
            assert(mw * fb <= 0x3fff_ffff_0000_0001) by (nonlinear_arith)
                requires
                    mw < 0x8000_0000,
                    fb < 0x8000_0000,
            ;
        }
        let za: i64 = wa as i64 * xa + wb as i64 * xb + mw as i64 * fa as i64 + cca;
        let zb: i64 = wa as i64 * ya + wb as i64 * yb + mw as i64 * fb as i64 + ccb;
        let la: u32 = (za & 0x7fff_ffff) as u32;
        let lb: u32 = (zb & 0x7fff_ffff) as u32;
        let na: i64 = za >> 31i64;
        let nb: i64 = zb >> 31i64;
        proof {
            lemma_split_i64(za);
            lemma_split_i64(zb);
        }
        let ghost before_a = a@;
        let ghost before_b = b@;
        if u > 0 {
            a[u - 1] = la;
            b[u - 1] = lb;
        }
        proof {
            let P = pow2((31 * u) as nat) as int;
            vstd::arithmetic::power2::lemma2_to64();
            vstd::arithmetic::power2::lemma_pow2_adds((31 * u) as nat, 31);
            assert(31 * u + 31 == 31 * (u + 1));
            assert(pow2((31 * (u + 1)) as nat) == P * 0x8000_0000);
            lemma_zint_take(sa, u as int);
            lemma_zint_take(sb, u as int);
            lemma_zint_take(m@, u as int);
            assert(sa[u as int] == wa && sb[u as int] == wb);
            assert(abs_int(na as int) <= 0x1_0000_0000) by (nonlinear_arith)
                requires
                    na * 0x8000_0000 + la == za,
                    0 <= la < 0x8000_0000,
                    -0x3fff_ffff_8000_0000 - 0x1_0000_0000 <= za <= 0x3fff_ffff_8000_0000 + 0x3fff_ffff_0000_0001
                        + 0x1_0000_0000,
            ;
            assert(abs_int(nb as int) <= 0x1_0000_0000) by (nonlinear_arith)
                requires
                    nb * 0x8000_0000 + lb == zb,
                    0 <= lb < 0x8000_0000,
                    -0x3fff_ffff_8000_0000 - 0x1_0000_0000 <= zb <= 0x3fff_ffff_8000_0000 + 0x3fff_ffff_0000_0001
                        + 0x1_0000_0000,
            ;
            if u == 0 {
                vstd::arithmetic::div_mod::lemma_fundamental_div_mod_converse(za as int, 0x8000_0000, na as int, la as int);
                vstd::arithmetic::div_mod::lemma_fundamental_div_mod_converse(zb as int, 0x8000_0000, nb as int, lb as int);
                assert(la == 0 && lb == 0);
            }
            let MU = zint_value(m@.take(u as int)) as int;
            lemma_co_step3(
                zint_value(outa) as int,
                cca as int,
                P,
                wa as int,
                wb as int,
                mw as int,
                xa as int,
                xb as int,
                fa as int,
                la as int,
                na as int,
                zint_value(sa.take(u as int)) as int,
                zint_value(sb.take(u as int)) as int,
                MU,
            );
            lemma_co_step3(
                zint_value(outb) as int,
                ccb as int,
                P,
                wa as int,
                wb as int,
                mw as int,
                ya as int,
                yb as int,
                fb as int,
                lb as int,
                nb as int,
                zint_value(sa.take(u as int)) as int,
                zint_value(sb.take(u as int)) as int,
                MU,
            );
            let oa = outa.push(la);
            let ob = outb.push(lb);
            assert(oa.drop_last() =~= outa);
            assert(ob.drop_last() =~= outb);
            assert(zint_value(oa) == zint_value(outa) + la * P);
            assert(zint_value(ob) == zint_value(outb) + lb * P);
            assert(limbs_ok(oa)) by {
                assert forall|j: int| 0 <= j < oa.len() implies #[trigger] oa[j] < 0x8000_0000 by {
                    if j < u {
                        assert(oa[j] == outa[j]);
                    }
                }
            }
            assert(limbs_ok(ob)) by {
                assert forall|j: int| 0 <= j < ob.len() implies #[trigger] ob[j] < 0x8000_0000 by {
                    if j < u {
                        assert(ob[j] == outb[j]);
                    }
                }
            }
            if u > 0 {
                assert(oa[0] == outa[0] && ob[0] == outb[0]);
                assert(oa.drop_first() =~= outa.drop_first().push(la));
                assert(ob.drop_first() =~= outb.drop_first().push(lb));
                assert(a@.take(u as int) =~= before_a.take(u - 1).push(la));
                assert(b@.take(u as int) =~= before_b.take(u - 1).push(lb));
                assert(a@.take(u as int) =~= oa.drop_first());
                assert(b@.take(u as int) =~= ob.drop_first());
            } else {
                assert(a@.take(0) =~= oa.drop_first());
                assert(b@.take(0) =~= ob.drop_first());
            }
            outa = oa;
            outb = ob;
        }
        cca = na;
        ccb = nb;
        u = u + 1;
    }
    proof {
        assert(sa.take(len as int) =~= sa);
        assert(sb.take(len as int) =~= sb);
        assert(m@.take(len as int) =~= m@);
    }
    let ghost sigma_a = co_combo(sa, sb, xa, xb) + zint_value(m@) * fa;
    let ghost sigma_b = co_combo(sa, sb, ya, yb) + zint_value(m@) * fb;
    proof {
        lemma_zint_bound(m@);
        lemma_zint_front(m@);
        assert(m0 > 0) by {
            if m0 == 0 {
                assert(m0 as int * m0i as int == 0) by (nonlinear_arith)
                    requires
                        m0 == 0,
                ;
                vstd::arithmetic::div_mod::lemma_small_mod(0, 0x8000_0000);
            }
        }
        lemma_mod_bounds(sa, sb, m@, xa, xb, fa);
        lemma_mod_bounds(sa, sb, m@, ya, yb, fb);
        lemma_carry_range(outa, cca as int, sigma_a, zint_value(m@) as int);
        lemma_carry_range(outb, ccb as int, sigma_b, zint_value(m@) as int);
    }
    let ta: u32 = cca as u32;
    let tb: u32 = ccb as u32;
    let nega: u32 = (cca as u64 >> 63u64) as u32;
    let negb: u32 = (ccb as u64 >> 63u64) as u32;
    proof {
        lemma_top_word(cca);
        lemma_top_word(ccb);
    }
    a[len - 1] = ta;
    b[len - 1] = tb;
    proof {
        assert(a@.drop_last() =~= outa.drop_first());
        assert(b@.drop_last() =~= outb.drop_first());
        lemma_mod_finish(outa, a@, sigma_a, cca as int, ta);
        lemma_mod_finish(outb, b@, sigma_b, ccb as int, tb);
        lemma_quotient_bounds(sigma_a, zint_value(m@) as int);
        lemma_quotient_bounds(sigma_b, zint_value(m@) as int);
    }
    let ghost mida = a@;
    let ghost midb = b@;
    zint_finish_mod(a, m, nega);
    zint_finish_mod(b, m, negb);
    proof {
        lemma_mod_result(mida, a@, m@, sigma_a, co_combo(sa, sb, xa, xb), fa as int, nega);
        lemma_mod_result(midb, b@, m@, sigma_b, co_combo(sa, sb, ya, yb), fb as int, negb);
    }
}

/// The limb of `p / 2` made of the limb `pw` of `p` and the lowest bit `b` of the limbs
/// above it; and the three-way comparison of two limbs as a word.
proof fn lemma_half_limb(pw: u32, b: u32, wx: u32, r: u32)
    by (bit_vector)
    requires
        pw < 0x8000_0000u32,
        wx < 0x8000_0000u32,
        b <= 1u32,
        r == 0u32 || r == 1u32 || r == 0xffff_ffffu32,
    ensures
        ((pw >> 1u32) | (b << 30u32)) == pw / 2 + b * 0x4000_0000,
        ((pw >> 1u32) | (b << 30u32)) < 0x8000_0000u32,
        pw & 1u32 == pw % 2,
        ({
            let wp = (pw >> 1u32) | (b << 30u32);
            let cc0 = wp.wrapping_sub(wx);
            let cc = (0u32.wrapping_sub(cc0) >> 31u32) | (0u32.wrapping_sub(cc0 >> 31u32));
            let r2 = r | (cc & (r & 1u32).wrapping_sub(1u32));
            &&& (r == 0u32 && wp > wx ==> r2 == 1u32)
            &&& (r == 0u32 && wp < wx ==> r2 == 0xffff_ffffu32)
            &&& (r == 0u32 && wp == wx ==> r2 == 0u32)
            &&& (r != 0u32 ==> r2 == r)
        }),
        r >> 31u32 == (if r == 0xffff_ffffu32 { 1u32 } else { 0u32 }),
{
}

/// Reads `x`, a number below `p`, as signed: when it exceeds half of `p`, it is replaced
/// by `x - p`, as two's complement on its limbs; else it is left alone.
#[verifier::spinoff_prover]
pub fn zint_norm_zero(x: &mut [u32], p: &[u32])
    requires
        old(x)@.len() == p@.len(),
        limbs_ok(old(x)@),
        limbs_ok(p@),
        zint_value(old(x)@) < zint_value(p@),
    ensures
        final(x)@.len() == old(x)@.len(),
        limbs_ok(final(x)@),
        zint_value(old(x)@) > zint_value(p@) / 2 ==> zint_value(final(x)@) + zint_value(p@) == zint_value(old(x)@)
            + pow2((31 * p@.len()) as nat),
        zint_value(old(x)@) <= zint_value(p@) / 2 ==> final(x)@ == old(x)@,
{
    let len = p.len();
    let mut r: u32 = 0;
    let mut bb: u32 = 0;
    let mut u: usize = len;
    proof {
        assert(x@.skip(len as int) =~= Seq::<u32>::empty());
        assert(p@.skip(len as int) =~= Seq::<u32>::empty());
        assert(zint_value(Seq::<u32>::empty()) == 0);
    }
    while u > 0
        invariant
            len == x@.len(),
            len == p@.len(),
            u <= len,
            limbs_ok(x@),
            limbs_ok(p@),
            bb == zint_value(p@.skip(u as int)) % 2,
            r == 0u32 || r == 1u32 || r == 0xffff_ffffu32,
            r == 0u32 <==> zint_value(p@.skip(u as int)) / 2 == zint_value(x@.skip(u as int)),
            r == 1u32 <==> zint_value(p@.skip(u as int)) / 2 > zint_value(x@.skip(u as int)),
            r == 0xffff_ffffu32 <==> zint_value(p@.skip(u as int)) / 2 < zint_value(x@.skip(u as int)),
        decreases u,
    {
        u = u - 1;
        let wx = x[u];
        let pw = p[u];
        let wp = (pw >> 1u32) | (bb << 30u32);
        let cc0 = wp.wrapping_sub(wx);
        let cc = (0u32.wrapping_sub(cc0) >> 31u32) | (0u32.wrapping_sub(cc0 >> 31u32));
        let nr = r | (cc & (r & 1u32).wrapping_sub(1u32));
        proof {
            assert(wx < 0x8000_0000 && pw < 0x8000_0000);
            lemma_half_limb(pw, bb, wx, r);
            let xs = x@.skip(u as int);
            let ps = p@.skip(u as int);
            lemma_zint_front(xs);
            lemma_zint_front(ps);
            assert(xs.drop_first() =~= x@.skip(u + 1));
            assert(ps.drop_first() =~= p@.skip(u + 1));
            assert(xs[0] == wx && ps[0] == pw);
            vstd::arithmetic::power2::lemma2_to64();
            let hs = (zint_value(p@.skip(u + 1)) / 2) as int;
            let xv = zint_value(x@.skip(u + 1)) as int;
            let pv = zint_value(p@.skip(u + 1)) as int;
            // the half of the longer suffix is this limb of the half above the old one
            assert(zint_value(ps) / 2 == wp + 0x8000_0000 * hs) by {
                assert(pv == 2 * hs + bb);
                assert(zint_value(ps) == pw + 0x8000_0000 * pv);
                assert(pw + 0x8000_0000 * pv == 2 * (pw / 2 + bb * 0x4000_0000 + 0x8000_0000 * hs) + pw % 2)
                    by (nonlinear_arith)
                    requires
                        pv == 2 * hs + bb,
                        pw == 2 * (pw / 2) + pw % 2,
                ;
                vstd::arithmetic::div_mod::lemma_fundamental_div_mod_converse(
                    zint_value(ps) as int,
                    2,
                    pw / 2 + bb * 0x4000_0000 + 0x8000_0000 * hs,
                    (pw % 2) as int,
                );
            }
            lemma_zint_bound(p@.skip(u + 1));
            lemma_zint_bound(x@.skip(u + 1));
            assert(limbs_ok(p@.skip(u + 1))) by {
                assert forall|j: int| 0 <= j < p@.skip(u + 1).len() implies #[trigger] p@.skip(u + 1)[j] < 0x8000_0000 by {
                    assert(p@.skip(u + 1)[j] == p@[u + 1 + j]);
                }
            }
            assert(limbs_ok(x@.skip(u + 1))) by {
                assert forall|j: int| 0 <= j < x@.skip(u + 1).len() implies #[trigger] x@.skip(u + 1)[j] < 0x8000_0000 by {
                    assert(x@.skip(u + 1)[j] == x@[u + 1 + j]);
                }
            }
            lemma_compare_step(wp as int, wx as int, hs, xv, 0x8000_0000);
            lemma_compare_step(wx as int, wp as int, xv, hs, 0x8000_0000);
            assert(zint_value(ps) % 2 == pw % 2) by {
                vstd::arithmetic::div_mod::lemma_mod_multiples_vanish(0x4000_0000 * pv, pw as int, 2);
                assert(pw + 0x8000_0000 * pv == 2 * (0x4000_0000 * pv) + pw);
            }
            let hn = wp as int + 0x8000_0000 * hs;
            let xn = wx as int + 0x8000_0000 * xv;
            assert(zint_value(xs) == xn);
            assert(zint_value(ps) / 2 == hn);
            assert((nr == 0u32) == (hn == xn));
            assert((nr == 1u32) == (hn > xn));
            assert((nr == 0xffff_ffffu32) == (hn < xn));
        }
        bb = pw & 1u32;
        r = nr;
    }
    proof {
        assert(x@.skip(0) =~= x@);
        assert(p@.skip(0) =~= p@);
        lemma_half_limb(0, 0, 0, r);
    }
    let _ = zint_sub(x, p, r >> 31u32);
}

/// The product of the first `n` primes of `primes`.
pub open spec fn primes_product(primes: Seq<small_prime>, n: nat) -> nat
    decreases n,
{
    if n == 0 {
        1
    } else {
        primes_product(primes, (n - 1) as nat) * primes[n - 1].p as nat
    }
}

/// The first `n` entries of a table of primes are as the CRT rebuild needs them: each
/// prime of the size Falcon uses, with `s` below it and equal, modulo it, to `2^31`
/// divided by the product of the primes before it.
pub open spec fn crt_table_ok(primes: Seq<small_prime>, n: nat) -> bool {
    &&& n <= primes.len()
    &&& forall|u: int|
        0 <= u < n ==> is_small_prime(#[trigger] primes[u].p) && primes[u].s < primes[u].p && (primes[u].s as int
            * primes_product(primes, u as nat)) % (primes[u].p as int) == 0x8000_0000int % (primes[u].p as int)
}

/// `v` is what the residues `res` stand for modulo the first `n` primes of the table: it
/// is below their product and has those residues.
pub open spec fn crt_holds(v: nat, res: Seq<u32>, primes: Seq<small_prime>, n: nat) -> bool {
    &&& v < primes_product(primes, n)
    &&& forall|j: int| 0 <= j < n ==> v % (primes[j].p as nat) == #[trigger] res[j]
}

/// The product of the primes before a prime is a positive multiple of each of them.
proof fn lemma_primes_product(primes: Seq<small_prime>, n: nat)
    requires
        crt_table_ok(primes, n),
    ensures
        primes_product(primes, n) > 0,
        forall|j: int| 0 <= j < n ==> #[trigger] (primes_product(primes, n) % (primes[j].p as nat)) == 0,
    decreases n,
{
    if n > 0 {
        let m = (n - 1) as nat;
        assert(crt_table_ok(primes, m));
        lemma_primes_product(primes, m);
        let q = primes_product(primes, m);
        let pl = primes[m as int].p as nat;
        assert(is_small_prime(primes[m as int].p));
        assert(q * pl > 0) by (nonlinear_arith)
            requires
                q > 0,
                pl > 0,
        ;
        assert forall|j: int| 0 <= j < n implies #[trigger] (primes_product(primes, n) % (primes[j].p as nat)) == 0 by {
            let pj = primes[j].p as int;
            assert(is_small_prime(primes[j].p));
            if j == m {
                vstd::arithmetic::div_mod::lemma_mod_multiples_basic(q as int, pj);
                assert(q * pl == q * pj);
            } else {
                assert(q % (pj as nat) == 0);
                vstd::arithmetic::div_mod::lemma_fundamental_div_mod(q as int, pj);
                let t = q as int / pj;
                assert(q * pl == (t * pl) * pj) by (nonlinear_arith)
                    requires
                        q == pj * t,
                ;
                vstd::arithmetic::div_mod::lemma_mod_multiples_basic(t * pl, pj);
            }
        }
    }
}

/// One step of the CRT rebuild: with `xr` the residue `r` minus `x`, divided by the
/// product `pr` of the primes before `p`, modulo `p`, adding `pr xr` to `x` keeps its
/// residues modulo those primes and gives it residue `r` modulo `p`.
proof fn lemma_crt_step(x: nat, res: Seq<u32>, primes: Seq<small_prime>, u: nat, xq: nat, d: nat, xr: nat)
    requires
        crt_table_ok(primes, u + 1),
        crt_holds(x, res, primes, u),
        res.len() > u,
        res[u as int] < primes[u as int].p,
        xq == x % (primes[u as int].p as nat),
        d as int == (res[u as int] - xq) % (primes[u as int].p as int),
        xr < primes[u as int].p,
        (xr * 0x8000_0000int) % (primes[u as int].p as int) == (primes[u as int].s * d) % (primes[u as int].p as int),
    ensures
        crt_holds(x + primes_product(primes, u) * xr, res, primes, u + 1),
{
    let p = primes[u as int].p as int;
    let s = primes[u as int].s as int;
    let pr = primes_product(primes, u) as int;
    let r = res[u as int] as int;
    let xi = x as int;
    let xri = xr as int;
    let di = d as int;
    assert(is_small_prime(primes[u as int].p));
    assert(crt_table_ok(primes, u));
    lemma_primes_product(primes, u);
    // xr pr is r - x modulo p
    assert((s * pr) % p == 0x8000_0000int % p);
    vstd::arithmetic::div_mod::lemma_mul_mod_noop_left(xri * 0x8000_0000, pr, p);
    vstd::arithmetic::div_mod::lemma_mul_mod_noop_left(s * di, pr, p);
    assert(((xri * 0x8000_0000) * pr) % p == ((s * di) * pr) % p);
    assert((s * di) * pr == (s * pr) * di) by (nonlinear_arith);
    vstd::arithmetic::div_mod::lemma_mul_mod_noop_left(s * pr, di, p);
    vstd::arithmetic::div_mod::lemma_mul_mod_noop_left(0x8000_0000int, di, p);
    assert(((xri * 0x8000_0000) * pr) == (xri * pr) * pow2(31)) by {
        vstd::arithmetic::power2::lemma2_to64();
        assert((xri * 0x8000_0000) * pr == (xri * pr) * 0x8000_0000) by (nonlinear_arith);
    }
    assert((0x8000_0000int * di) == di * pow2(31)) by {
        vstd::arithmetic::power2::lemma2_to64();
        assert(0x8000_0000int * di == di * 0x8000_0000int) by (nonlinear_arith);
    }
    lemma_cancel_pow2(xri * pr, di, p, 31);
    assert((xri * pr) % p == di % p);
    // so the new value has residue r modulo p
    let xn = xi + pr * xri;
    vstd::arithmetic::div_mod::lemma_add_mod_noop(xi, pr * xri, p);
    assert(pr * xri == xri * pr) by (nonlinear_arith);
    vstd::arithmetic::div_mod::lemma_mod_bound(r - xq, p);
    vstd::arithmetic::div_mod::lemma_small_mod(d as nat, p as nat);
    vstd::arithmetic::div_mod::lemma_add_mod_noop(xq as int, di, p);
    vstd::arithmetic::div_mod::lemma_mod_twice(xi, p);
    assert((xq as int + di) % p == (xq as int + (r - xq) % p) % p);
    vstd::arithmetic::div_mod::lemma_add_mod_noop(xq as int, r - xq, p);
    vstd::arithmetic::div_mod::lemma_mod_twice(r - xq, p);
    vstd::arithmetic::div_mod::lemma_small_mod(r as nat, p as nat);
    assert(xn % p == r);
    // and keeps its residues modulo the primes before
    assert forall|j: int| 0 <= j < u + 1 implies (xn as nat) % (primes[j].p as nat) == #[trigger] res[j] by {
        if j < u {
            let pj = primes[j].p as int;
            assert(is_small_prime(primes[j].p));
            assert(pr % pj == 0);
            vstd::arithmetic::div_mod::lemma_fundamental_div_mod(pr, pj);
            let t = pr / pj;
            assert(pr * xri == pj * (t * xri)) by (nonlinear_arith)
                requires
                    pr == pj * t,
            ;
            vstd::arithmetic::div_mod::lemma_mod_multiples_vanish(t * xri, xi, pj);
        }
    }
    // and stays below the product with p
    assert(xn < pr * p) by (nonlinear_arith)
        requires
            xn == xi + pr * xri,
            xi < pr,
            0 <= xri < p,
            pr > 0,
    ;
    assert(primes_product(primes, u + 1) == pr * p);
}

/// The `k`-th big integer of `xx`: `xlen` limbs from `k xstride` on.
pub open spec fn slot(xx: Seq<u32>, k: int, xstride: int, xlen: int) -> Seq<u32> {
    xx.subrange(k * xstride, k * xstride + xlen)
}

/// Position `i` lies in the `k`-th big integer.
pub open spec fn in_slot(i: int, k: int, xstride: int, xlen: int) -> bool {
    k * xstride <= i < k * xstride + xlen
}

/// The big integers lie apart and inside the buffer.
pub(crate) proof fn lemma_slots_apart(k: int, k2: int, xstride: int, xlen: int, num: int)
    requires
        0 <= k < num,
        0 <= k2 < num,
        k != k2,
        0 < xlen <= xstride,
    ensures
        forall|i: int| in_slot(i, k, xstride, xlen) ==> !#[trigger] in_slot(i, k2, xstride, xlen),
        k * xstride + xlen <= num * xstride,
{
    assert((k + 1) * xstride == k * xstride + xstride) by (nonlinear_arith);
    assert((k2 + 1) * xstride == k2 * xstride + xstride) by (nonlinear_arith);
    if k < k2 {
        assert((k + 1) * xstride <= k2 * xstride) by (nonlinear_arith)
            requires
                k + 1 <= k2,
                xstride >= 0,
        ;
    } else {
        assert((k2 + 1) * xstride <= k * xstride) by (nonlinear_arith)
            requires
                k2 + 1 <= k,
                xstride >= 0,
        ;
    }
    assert((k + 1) * xstride <= num * xstride) by (nonlinear_arith)
        requires
            k + 1 <= num,
            xstride >= 0,
    ;
}

/// What the rebuild has made of the `k`-th big integer once `u` primes are in: its first
/// `u` limbs stand for its first `u` residues, and the residues after them are untouched.
pub open spec fn rebuilt_up_to(xx: Seq<u32>, orig: Seq<u32>, primes: Seq<small_prime>, k: int, xstride: int, xlen: int, u: int) -> bool {
    &&& limbs_ok(slot(xx, k, xstride, xlen).take(u))
    &&& crt_holds(zint_value(slot(xx, k, xstride, xlen).take(u)), slot(orig, k, xstride, xlen), primes, u as nat)
    &&& forall|j: int| u <= j < xlen ==> #[trigger] xx[k * xstride + j] == orig[k * xstride + j]
}

/// What `f`, on `n` limbs and read as signed modulo `pp`, stands for, taken back between
/// zero and `pp`: `f` itself up to half of `pp`, else `f + pp`, less `2^(31 n)`.
pub open spec fn unsigned_of(f: nat, pp: nat, n: nat) -> nat {
    if f <= pp / 2 {
        f
    } else {
        (f + pp - pow2(31 * n)) as nat
    }
}

/// `f`, on `n` limbs, is `v` read as signed modulo `pp`: `v` itself up to half of `pp`,
/// `v - pp` as two's complement above.
pub open spec fn signed_value(f: nat, v: nat, pp: nat, n: nat) -> bool {
    &&& v <= pp / 2 ==> f == v
    &&& v > pp / 2 ==> f + pp == v + pow2(31 * n)
}

/// The `n` limbs of `xx` from `start` on.
pub(crate) fn read_limbs(xx: &[u32], start: usize, n: usize) -> (r: Vec<u32>)
    requires
        start + n <= xx@.len(),
    ensures
        r@ == xx@.subrange(start as int, start + n),
{
    let mut r: Vec<u32> = Vec::new();
    let total = xx.len();
    let mut j: usize = 0;
    while j < n
        invariant
            j <= n,
            total == xx@.len(),
            start + n <= xx@.len(),
            r@ == xx@.subrange(start as int, start + j),
        decreases n - j,
    {
        r.push(xx[start + j]);
        j = j + 1;
    }
    r
}

/// Writes the limbs `v` into `xx` from `start` on, leaving the rest alone.
pub(crate) fn write_limbs(xx: &mut [u32], start: usize, v: &[u32])
    requires
        start + v@.len() <= old(xx)@.len(),
    ensures
        final(xx)@.len() == old(xx)@.len(),
        final(xx)@.subrange(start as int, start + v@.len()) == v@,
        forall|i: int|
            0 <= i < old(xx)@.len() && !(start <= i < start + v@.len()) ==> #[trigger] final(xx)@[i] == old(xx)@[i],
{
    let total = xx.len();
    let mut j: usize = 0;
    while j < v.len()
        invariant
            j <= v@.len(),
            total == xx@.len(),
            start + v@.len() <= xx@.len(),
            xx@.len() == old(xx)@.len(),
            forall|t: int| 0 <= t < j ==> #[trigger] xx@[start + t] == v@[t],
            forall|i: int|
                0 <= i < old(xx)@.len() && !(start <= i < start + j) ==> #[trigger] xx@[i] == old(xx)@[i],
        decreases v@.len() - j,
    {
        xx[start + j] = v[j];
        j = j + 1;
    }
    assert(xx@.subrange(start as int, start + v@.len()) =~= v@) by {
        assert forall|t: int| 0 <= t < v@.len() implies xx@.subrange(start as int, start + v@.len())[t] == v@[t] by {
            assert(xx@[start + t] == v@[t]);
        }
    }
}

/// The `k`-th big integer lies inside the first `num xstride` positions.
proof fn lemma_slot_inside(k: int, xs: int, xl: int, num: int)
    requires
        0 <= k < num,
        0 < xl <= xs,
    ensures
        0 <= k * xs,
        k * xs + xl <= num * xs,
{
    assert(0 <= k * xs) by (nonlinear_arith)
        requires
            0 <= k,
            0 < xs,
    ;
    assert(k * xs + xl <= num * xs) by (nonlinear_arith)
        requires
            0 <= k < num,
            0 < xl <= xs,
    ;
}

/// Writing inside the `k`-th big integer leaves the others, and every position outside
/// them all, as they were.
proof fn lemma_other_slots_kept(before: Seq<u32>, after: Seq<u32>, k: int, w: int, xs: int, xl: int, num: int)
    requires
        after.len() == before.len(),
        0 <= k < num,
        0 < xl <= xs,
        0 <= w <= xl,
        num * xs <= before.len(),
        forall|i: int| 0 <= i < before.len() && !(k * xs <= i < k * xs + w) ==> #[trigger] after[i] == before[i],
    ensures
        forall|k2: int| 0 <= k2 < num && k2 != k ==> #[trigger] slot(after, k2, xs, xl) == slot(before, k2, xs, xl),
        forall|i: int|
            0 <= i < before.len() && (forall|k2: int| 0 <= k2 < num ==> !#[trigger] in_slot(i, k2, xs, xl)) ==> after[i]
                == before[i],
        forall|j: int| w <= j < xl ==> #[trigger] after[k * xs + j] == before[k * xs + j],
{
    lemma_slot_inside(k, xs, xl, num);
    assert forall|k2: int| 0 <= k2 < num && k2 != k implies #[trigger] slot(after, k2, xs, xl) == slot(before, k2, xs, xl) by {
        lemma_slots_apart(k, k2, xs, xl, num);
        lemma_slot_inside(k2, xs, xl, num);
        assert forall|t: int| 0 <= t < xl implies slot(after, k2, xs, xl)[t] == slot(before, k2, xs, xl)[t] by {
            assert(in_slot(k2 * xs + t, k2, xs, xl));
            assert(!in_slot(k2 * xs + t, k, xs, xl));
        }
        assert(slot(after, k2, xs, xl) =~= slot(before, k2, xs, xl));
    }
    assert forall|i: int|
        0 <= i < before.len() && (forall|k2: int| 0 <= k2 < num ==> !#[trigger] in_slot(i, k2, xs, xl)) implies after[i]
        == before[i] by {
        assert(!in_slot(i, k, xs, xl));
    }
}

/// A big integer whose limbs did not move stays as rebuilt as it was.
proof fn lemma_rebuilt_kept(
    before: Seq<u32>,
    after: Seq<u32>,
    orig: Seq<u32>,
    primes: Seq<small_prime>,
    k: int,
    xs: int,
    xl: int,
    num: int,
    u: int,
)
    requires
        0 <= k < num,
        0 < xl <= xs,
        0 <= u,
        num * xs <= before.len(),
        after.len() == before.len(),
        slot(after, k, xs, xl) == slot(before, k, xs, xl),
        rebuilt_up_to(before, orig, primes, k, xs, xl, u),
    ensures
        rebuilt_up_to(after, orig, primes, k, xs, xl, u),
{
    lemma_slot_inside(k, xs, xl, num);
    assert forall|j: int| u <= j < xl implies #[trigger] after[k * xs + j] == orig[k * xs + j] by {
        assert(slot(after, k, xs, xl)[j] == after[k * xs + j]);
        assert(slot(before, k, xs, xl)[j] == before[k * xs + j]);
        assert(before[k * xs + j] == orig[k * xs + j]);
    }
}

/// Rebuilds `num` big integers of `xlen` limbs each, the `k`-th from `k xstride` on in
/// `xx`, from their residues modulo the first `xlen` primes of the table, which stand in
/// place of their limbs. With `normalize_signed` nonzero each is then read as signed: when
/// it exceeds half of the product of the primes, the product is taken off, as two's
/// complement on its limbs.
#[verifier::spinoff_prover]
pub fn zint_rebuild_CRT(
    xx: &mut [u32],
    xlen: usize,
    xstride: usize,
    num: usize,
    primes: &[small_prime],
    normalize_signed: i32,
)
    requires
        0 < xlen <= xstride,
        crt_table_ok(primes@, xlen as nat),
        num * xstride <= old(xx)@.len(),
        forall|k: int, u: int|
            0 <= k < num && 0 <= u < xlen ==> #[trigger] slot(old(xx)@, k, xstride as int, xlen as int)[u]
                < primes@[u].p,
    ensures
        final(xx)@.len() == old(xx)@.len(),
        forall|k: int| 0 <= k < num ==> limbs_ok(#[trigger] slot(final(xx)@, k, xstride as int, xlen as int)),
        normalize_signed == 0 ==> forall|k: int|
            0 <= k < num ==> crt_holds(
                zint_value(#[trigger] slot(final(xx)@, k, xstride as int, xlen as int)),
                slot(old(xx)@, k, xstride as int, xlen as int),
                primes@,
                xlen as nat,
            ),
        normalize_signed != 0 ==> forall|k: int|
            0 <= k < num ==> crt_holds(
                unsigned_of(
                    zint_value(#[trigger] slot(final(xx)@, k, xstride as int, xlen as int)),
                    primes_product(primes@, xlen as nat),
                    xlen as nat,
                ),
                slot(old(xx)@, k, xstride as int, xlen as int),
                primes@,
                xlen as nat,
            ),
        forall|i: int|
            0 <= i < old(xx)@.len() && (forall|k: int| 0 <= k < num ==> !#[trigger] in_slot(i, k, xstride as int, xlen as int))
                ==> final(xx)@[i] == old(xx)@[i],
{
    let ghost orig = xx@;
    let ghost xs = xstride as int;
    let ghost xl = xlen as int;
    let total = xx.len();
    let mut tmp: Vec<u32> = Vec::new();
    tmp.push(primes[0].p);
    proof {
        assert(is_small_prime(primes@[0].p));
        assert(zint_value(tmp@) == primes@[0].p) by {
            lemma_zint_single(tmp@);
        }
        assert(primes_product(primes@, 0) == 1);
        assert(primes_product(primes@, 1) == primes_product(primes@, 0) * primes@[0].p as nat);
        assert forall|k: int| 0 <= k < num implies #[trigger] rebuilt_up_to(xx@, orig, primes@, k, xs, xl, 1) by {
            lemma_slot_inside(k, xs, xl, num as int);
            let sl = slot(xx@, k, xs, xl);
            assert(sl[0] < primes@[0].p);
            let h = sl.take(1);
            lemma_zint_single(h);
            vstd::arithmetic::div_mod::lemma_small_mod(sl[0] as nat, primes@[0].p as nat);
            assert(limbs_ok(h));
        }
    }
    let mut u: usize = 1;
    while u < xlen
        invariant
            1 <= u <= xlen,
            0 < xlen <= xstride,
            xs == xstride,
            xl == xlen,
            crt_table_ok(primes@, xlen as nat),
            num * xstride <= orig.len(),
            total == orig.len(),
            xx@.len() == orig.len(),
            forall|k: int, j: int| 0 <= k < num && 0 <= j < xlen ==> #[trigger] slot(orig, k, xs, xl)[j] < primes@[j].p,
            tmp@.len() == u,
            limbs_ok(tmp@),
            zint_value(tmp@) == primes_product(primes@, u as nat),
            forall|k: int| 0 <= k < num ==> #[trigger] rebuilt_up_to(xx@, orig, primes@, k, xs, xl, u as int),
            forall|i: int|
                0 <= i < orig.len() && (forall|k: int| 0 <= k < num ==> !#[trigger] in_slot(i, k, xs, xl)) ==> xx@[i]
                    == orig[i],
        decreases xlen - u,
    {
        let p = primes[u].p;
        let s = primes[u].s;
        proof {
            assert(is_small_prime(primes@[u as int].p));
        }
        let p0i = modp_ninv31(p);
        let r2 = modp_r2(p, p0i);
        let mut k: usize = 0;
        while k < num
            invariant
                1 <= u < xlen,
                0 < xlen <= xstride,
                xs == xstride,
                xl == xlen,
                k <= num,
                crt_table_ok(primes@, xlen as nat),
                num * xstride <= orig.len(),
                total == orig.len(),
                xx@.len() == orig.len(),
                forall|k2: int, j: int|
                    0 <= k2 < num && 0 <= j < xlen ==> #[trigger] slot(orig, k2, xs, xl)[j] < primes@[j].p,
                tmp@.len() == u,
                limbs_ok(tmp@),
                zint_value(tmp@) == primes_product(primes@, u as nat),
                p == primes@[u as int].p,
                s == primes@[u as int].s,
                is_small_prime(p),
                is_ninv31(p, p0i),
                r2 as int == pow2(62) as int % (p as int),
                forall|k2: int| 0 <= k2 < k ==> #[trigger] rebuilt_up_to(xx@, orig, primes@, k2, xs, xl, u + 1),
                forall|k2: int| k <= k2 < num ==> #[trigger] rebuilt_up_to(xx@, orig, primes@, k2, xs, xl, u as int),
                forall|i: int|
                    0 <= i < orig.len() && (forall|k2: int| 0 <= k2 < num ==> !#[trigger] in_slot(i, k2, xs, xl))
                        ==> xx@[i] == orig[i],
            decreases num - k,
        {
            proof {
                lemma_slot_inside(k as int, xs, xl, num as int);
            }
            let base = k * xstride;
            let xp = xx[base + u];
            let head0 = read_limbs(xx, base, u + 1);
            let ghost before = xx@;
            proof {
                crt_update_facts(before, orig, primes@, k as int, xs, xl, u as int, head0@, xp);
            }
            let mut head = head0;
            let xq = zint_mod_small_unsigned(vstd::slice::slice_subrange(head.as_slice(), 0, u), p, p0i, r2);
            let d = modp_sub(xp, xq, p);
            let xr = modp_montymul(s, d, p, p0i);
            proof {
                assert(primes@[u as int].s < p);
                assert(head@.take(u as int) == head@.subrange(0, u as int));
                lemma_crt_step(
                    zint_value(head@.take(u as int)),
                    slot(orig, k as int, xs, xl),
                    primes@,
                    u as nat,
                    xq as nat,
                    d as nat,
                    xr as nat,
                );
            }
            zint_add_mul_small(head.as_mut_slice(), tmp.as_slice(), xr);
            write_limbs(xx, base, head.as_slice());
            proof {
                lemma_other_slots_kept(before, xx@, k as int, u + 1, xs, xl, num as int);
                lemma_slot_rebuilt(before, xx@, orig, primes@, k as int, xs, xl, u as int, head@);
                assert forall|k2: int| 0 <= k2 < k + 1 implies #[trigger] rebuilt_up_to(xx@, orig, primes@, k2, xs, xl, u + 1) by {
                    if k2 != k {
                        lemma_rebuilt_kept(before, xx@, orig, primes@, k2, xs, xl, num as int, u + 1);
                    }
                }
                assert forall|k2: int| k + 1 <= k2 < num implies #[trigger] rebuilt_up_to(xx@, orig, primes@, k2, xs, xl, u as int) by {
                    lemma_rebuilt_kept(before, xx@, orig, primes@, k2, xs, xl, num as int, u as int);
                }
            }
            k = k + 1;
        }
        let ghost told = tmp@;
        let cc = zint_mul_small(tmp.as_mut_slice(), p);
        let ghost tmul = tmp@;
        tmp.push(cc);
        proof {
            assert(tmp@.drop_last() =~= tmul);
            assert(zint_value(tmp@) == zint_value(tmul) + cc as nat * pow2((31 * u) as nat));
            assert(primes_product(primes@, (u + 1) as nat) == primes_product(primes@, u as nat) * p);
            assert(limbs_ok(tmp@)) by {
                assert forall|j: int| 0 <= j < tmp@.len() implies #[trigger] tmp@[j] < 0x8000_0000 by {
                    if j < u {
                        assert(tmp@[j] == tmul[j]);
                    }
                }
            }
        }
        u = u + 1;
    }
    proof {
        assert forall|k: int| 0 <= k < num implies limbs_ok(#[trigger] slot(xx@, k, xs, xl)) && crt_holds(
            zint_value(slot(xx@, k, xs, xl)),
            slot(orig, k, xs, xl),
            primes@,
            xlen as nat,
        ) by {
            lemma_slot_inside(k, xs, xl, num as int);
            assert(rebuilt_up_to(xx@, orig, primes@, k, xs, xl, xl));
            assert(slot(xx@, k, xs, xl).take(xl) =~= slot(xx@, k, xs, xl));
        }
    }
    if normalize_signed != 0 {
        let ghost rebuilt = xx@;
        let mut k: usize = 0;
        while k < num
            invariant
                0 < xlen <= xstride,
                xs == xstride,
                xl == xlen,
                k <= num,
                num * xstride <= orig.len(),
                total == orig.len(),
                xx@.len() == orig.len(),
                rebuilt.len() == orig.len(),
                tmp@.len() == xlen,
                limbs_ok(tmp@),
                zint_value(tmp@) == primes_product(primes@, xlen as nat),
                forall|k2: int|
                    0 <= k2 < num ==> limbs_ok(#[trigger] slot(rebuilt, k2, xs, xl)) && crt_holds(
                        zint_value(slot(rebuilt, k2, xs, xl)),
                        slot(orig, k2, xs, xl),
                        primes@,
                        xlen as nat,
                    ),
                forall|k2: int| 0 <= k2 < num ==> limbs_ok(#[trigger] slot(xx@, k2, xs, xl)),
                forall|k2: int| k <= k2 < num ==> #[trigger] slot(xx@, k2, xs, xl) == slot(rebuilt, k2, xs, xl),
                forall|k2: int|
                    0 <= k2 < k ==> signed_value(
                        zint_value(#[trigger] slot(xx@, k2, xs, xl)),
                        zint_value(slot(rebuilt, k2, xs, xl)),
                        primes_product(primes@, xlen as nat),
                        xlen as nat,
                    ),
                forall|i: int|
                    0 <= i < orig.len() && (forall|k2: int| 0 <= k2 < num ==> !#[trigger] in_slot(i, k2, xs, xl))
                        ==> xx@[i] == orig[i],
            decreases num - k,
        {
            proof {
                lemma_slot_inside(k as int, xs, xl, num as int);
            }
            let base = k * xstride;
            let mut cur = read_limbs(xx, base, xlen);
            let ghost before = xx@;
            proof {
                assert(cur@ == slot(xx@, k as int, xs, xl));
            }
            zint_norm_zero(cur.as_mut_slice(), tmp.as_slice());
            write_limbs(xx, base, cur.as_slice());
            proof {
                lemma_other_slots_kept(before, xx@, k as int, xl, xs, xl, num as int);
                assert(slot(xx@, k as int, xs, xl) =~= cur@);
                assert forall|k2: int| 0 <= k2 < num implies limbs_ok(#[trigger] slot(xx@, k2, xs, xl)) by {
                    if k2 != k {
                        assert(slot(xx@, k2, xs, xl) == slot(before, k2, xs, xl));
                    }
                }
                assert forall|k2: int| k + 1 <= k2 < num implies #[trigger] slot(xx@, k2, xs, xl) == slot(rebuilt, k2, xs, xl) by {
                    assert(slot(xx@, k2, xs, xl) == slot(before, k2, xs, xl));
                    assert(slot(before, k2, xs, xl) == slot(rebuilt, k2, xs, xl));
                }
                assert forall|k2: int| 0 <= k2 < k + 1 implies signed_value(
                    zint_value(#[trigger] slot(xx@, k2, xs, xl)),
                    zint_value(slot(rebuilt, k2, xs, xl)),
                    primes_product(primes@, xlen as nat),
                    xlen as nat,
                ) by {
                    if k2 != k {
                        assert(slot(xx@, k2, xs, xl) == slot(before, k2, xs, xl));
                    } else {
                        assert(slot(before, k as int, xs, xl) == slot(rebuilt, k as int, xs, xl));
                    }
                }
            }
            k = k + 1;
        }
        proof {
            assert forall|k: int| 0 <= k < num implies crt_holds(
                unsigned_of(
                    zint_value(#[trigger] slot(xx@, k, xs, xl)),
                    primes_product(primes@, xlen as nat),
                    xlen as nat,
                ),
                slot(orig, k, xs, xl),
                primes@,
                xlen as nat,
            ) by {
                let v = zint_value(slot(rebuilt, k, xs, xl));
                let f = zint_value(slot(xx@, k, xs, xl));
                let pp = primes_product(primes@, xlen as nat);
                lemma_zint_bound(tmp@);
                assert(crt_holds(v, slot(orig, k, xs, xl), primes@, xlen as nat));
                assert(signed_value(f, v, pp, xlen as nat));
                assert(unsigned_of(f, pp, xlen as nat) == v);
            }
        }
    }
}

/// A single limb stands for itself.
proof fn lemma_zint_single(s: Seq<u32>)
    requires
        s.len() == 1,
    ensures
        zint_value(s) == s[0],
{
    assert(s.drop_last() =~= Seq::<u32>::empty());
    assert(zint_value(Seq::<u32>::empty()) == 0);
    vstd::arithmetic::power2::lemma2_to64();
    assert(pow2(0) == 1);
    assert(zint_value(s) == zint_value(s.drop_last()) + s.last() as nat * pow2((31 * (s.len() - 1)) as nat));
    assert(31 * (s.len() - 1) == 0);
    assert(s.last() == s[0]);
    assert(s.last() as nat * 1 == s.last() as nat);
}

/// What the rebuild reads of the `k`-th big integer before its step `u`: its first `u + 1`
/// limbs, of which the last is still its residue modulo the next prime.
proof fn crt_update_facts(
    before: Seq<u32>,
    orig: Seq<u32>,
    primes: Seq<small_prime>,
    k: int,
    xs: int,
    xl: int,
    u: int,
    head: Seq<u32>,
    xp: u32,
)
    requires
        0 <= k,
        0 < xl <= xs,
        1 <= u < xl,
        k * xs + xl <= before.len(),
        before.len() == orig.len(),
        head == before.subrange(k * xs, k * xs + u + 1),
        xp == before[k * xs + u],
        rebuilt_up_to(before, orig, primes, k, xs, xl, u),
    ensures
        head.len() == u + 1,
        head.take(u) == slot(before, k, xs, xl).take(u),
        limbs_ok(head.take(u)),
        crt_holds(zint_value(head.take(u)), slot(orig, k, xs, xl), primes, u as nat),
        xp == slot(orig, k, xs, xl)[u],
{
    assert(head.take(u) =~= slot(before, k, xs, xl).take(u));
    assert(before[k * xs + u] == orig[k * xs + u]);
}

/// After step `u` of the rebuild writes the new limbs `head` of the `k`-th big integer,
/// that integer is rebuilt one prime further.
proof fn lemma_slot_rebuilt(
    before: Seq<u32>,
    after: Seq<u32>,
    orig: Seq<u32>,
    primes: Seq<small_prime>,
    k: int,
    xs: int,
    xl: int,
    u: int,
    head: Seq<u32>,
)
    requires
        0 <= k,
        0 < xl <= xs,
        1 <= u < xl,
        k * xs + xl <= before.len(),
        after.len() == before.len(),
        head.len() == u + 1,
        limbs_ok(head),
        crt_holds(zint_value(head), slot(orig, k, xs, xl), primes, (u + 1) as nat),
        after.subrange(k * xs, k * xs + head.len()) == head,
        forall|j: int| u + 1 <= j < xl ==> #[trigger] after[k * xs + j] == before[k * xs + j],
        rebuilt_up_to(before, orig, primes, k, xs, xl, u),
    ensures
        rebuilt_up_to(after, orig, primes, k, xs, xl, u + 1),
{
    let nsl = slot(after, k, xs, xl);
    assert(nsl.take(u + 1) =~= head) by {
        assert forall|t: int| 0 <= t < u + 1 implies nsl.take(u + 1)[t] == head[t] by {
            assert(after.subrange(k * xs, k * xs + head.len())[t] == head[t]);
        }
    }
    assert forall|j: int| u + 1 <= j < xl implies #[trigger] after[k * xs + j] == orig[k * xs + j] by {
        assert(after[k * xs + j] == before[k * xs + j]);
    }
}

/// The bits of one step of the binary GCD on low words: which word takes the other off,
/// which is doubled, and what the masks made of those choices keep.
proof fn lemma_gcd_step_bits(oa: u32, ob: u32, rt: u32, x: u32, y: u64, z: i64, c: u32)
    by (bit_vector)
    requires
        oa <= 1u32,
        ob <= 1u32,
        rt <= 1u32,
        c <= 1u32,
    ensures
        (oa & ob & rt) == (if oa == 1u32 && ob == 1u32 && rt == 1u32 {
            1u32
        } else {
            0u32
        }),
        (oa & ob & !rt) == (if oa == 1u32 && ob == 1u32 && rt == 0u32 {
            1u32
        } else {
            0u32
        }),
        ((oa & ob & rt) | (oa ^ 1u32)) == (if oa == 0u32 || (ob == 1u32 && rt == 1u32) {
            1u32
        } else {
            0u32
        }),
        x & 0u32.wrapping_sub(c) == (if c == 1u32 {
            x
        } else {
            0u32
        }),
        x & c.wrapping_sub(1u32) == (if c == 1u32 {
            0u32
        } else {
            x
        }),
        y & 0u64.wrapping_sub(c as u64) == (if c == 1u32 {
            y
        } else {
            0u64
        }),
        y & (c as u64).wrapping_sub(1u64) == (if c == 1u32 {
            0u64
        } else {
            y
        }),
        z & ((-(c as int)) as i64) == (if c == 1u32 {
            z
        } else {
            0i64
        }),
        z & (((c as int) - 1) as i64) == (if c == 1u32 {
            0i64
        } else {
            z
        }),
{
}

/// Low zero bits through a step of the binary GCD: a multiple of `2^i` whose bit `i` is
/// clear is a multiple of `2^(i+1)`; twice a multiple of `2^i`, and the difference of two
/// odd multiples of it, are too, also taken modulo `2^32`.
proof fn lemma_low_zero(al: int, bl: int, i: nat)
    requires
        i < 31,
        al % pow2(i) as int == 0,
        bl % pow2(i) as int == 0,
    ensures
        (al / pow2(i) as int) % 2 == 0 ==> al % pow2(i + 1) as int == 0,
        ((2 * al) % 0x1_0000_0000) % pow2(i + 1) as int == 0,
        (al / pow2(i) as int) % 2 == 1 && (bl / pow2(i) as int) % 2 == 1 ==> ((al - bl) % 0x1_0000_0000) % pow2(
            i + 1,
        ) as int == 0,
{
    let t = pow2(i) as int;
    let t2 = pow2(i + 1) as int;
    vstd::arithmetic::power2::lemma_pow2_pos(i);
    vstd::arithmetic::power2::lemma_pow2_unfold(i + 1);
    assert(t2 == 2 * t);
    vstd::arithmetic::power2::lemma_pow2_adds(i + 1, (31 - i) as nat);
    vstd::arithmetic::power2::lemma2_to64();
    assert(pow2(32) == 0x1_0000_0000);
    let w2 = pow2((31 - i) as nat) as int;
    vstd::arithmetic::power2::lemma_pow2_pos((31 - i) as nat);
    assert(t2 * w2 == 0x1_0000_0000);
    vstd::arithmetic::div_mod::lemma_fundamental_div_mod(al, t);
    vstd::arithmetic::div_mod::lemma_fundamental_div_mod(bl, t);
    let qa = al / t;
    let qb = bl / t;
    assert(al == t * qa);
    assert(bl == t * qb);
    vstd::arithmetic::div_mod::lemma_fundamental_div_mod(qa, 2);
    vstd::arithmetic::div_mod::lemma_fundamental_div_mod(qb, 2);
    if qa % 2 == 0 {
        assert(al == t2 * (qa / 2)) by (nonlinear_arith)
            requires
                al == t * qa,
                qa == 2 * (qa / 2),
                t2 == 2 * t,
        ;
        vstd::arithmetic::div_mod::lemma_mod_multiples_basic(qa / 2, t2);
        assert((qa / 2) * t2 == t2 * (qa / 2)) by (nonlinear_arith);
    }
    assert(2 * al == t2 * qa) by (nonlinear_arith)
        requires
            al == t * qa,
            t2 == 2 * t,
    ;
    vstd::arithmetic::div_mod::lemma_mod_mod(2 * al, t2, w2);
    vstd::arithmetic::div_mod::lemma_mod_multiples_basic(qa, t2);
    assert(qa * t2 == t2 * qa) by (nonlinear_arith);
    if qa % 2 == 1 && qb % 2 == 1 {
        assert(al - bl == t2 * (qa / 2 - qb / 2)) by (nonlinear_arith)
            requires
                al == t * qa,
                bl == t * qb,
                qa == 2 * (qa / 2) + 1,
                qb == 2 * (qb / 2) + 1,
                t2 == 2 * t,
        ;
        vstd::arithmetic::div_mod::lemma_mod_mod(al - bl, t2, w2);
        vstd::arithmetic::div_mod::lemma_mod_multiples_basic(qa / 2 - qb / 2, t2);
        assert((qa / 2 - qb / 2) * t2 == t2 * (qa / 2 - qb / 2)) by (nonlinear_arith);
    }
}

/// A value within one modulus of the range of 32-bit words, brought back into it.
proof fn lemma_wrap32(v: int)
    requires
        -0x1_0000_0000 < v < 0x2_0000_0000,
    ensures
        (if v >= 0x1_0000_0000 {
            v - 0x1_0000_0000
        } else if v < 0 {
            v + 0x1_0000_0000
        } else {
            v
        }) == v % 0x1_0000_0000,
{
    if v >= 0x1_0000_0000 {
        vstd::arithmetic::div_mod::lemma_fundamental_div_mod_converse(v, 0x1_0000_0000, 1, v - 0x1_0000_0000);
    } else if v < 0 {
        vstd::arithmetic::div_mod::lemma_fundamental_div_mod_converse(v, 0x1_0000_0000, -1, v + 0x1_0000_0000);
    } else {
        vstd::arithmetic::div_mod::lemma_small_mod(v as nat, 0x1_0000_0000);
    }
}

/// The state of the binary GCD on low words: the low words `a` and `b`, the
/// approximations of their high parts, and the factor pairs `(pa, pb)` and `(qa, qb)`
/// by which the starting words combine into them.
pub type GcdState = (u32, u32, u64, u64, int, int, int, int);

/// Step `i` of the binary GCD on low words. When bit `i` of `a` is clear, `a` is even at
/// this place: its high part halves while `b` doubles. When both bits are set, the one
/// with the larger high part takes the other off and then counts as even. When only
/// `b`'s bit is clear, `b` is even: its high part halves while `a` doubles.
pub open spec fn gcd_step(s: GcdState, i: nat) -> GcdState {
    let (a_lo, b_lo, a_hi, b_hi, pa, pb, qa, qb) = s;
    let w = 0x1_0000_0000int;
    if (a_lo as nat / pow2(i)) % 2 == 0 {
        (a_lo, ((2 * b_lo) % w) as u32, a_hi / 2, b_hi, pa, pb, 2 * qa, 2 * qb)
    } else if (b_lo as nat / pow2(i)) % 2 == 1 && b_hi < a_hi {
        (((a_lo - b_lo) % w) as u32, ((2 * b_lo) % w) as u32, ((a_hi - b_hi) / 2) as u64, b_hi, pa - qa, pb - qb, 2 * qa, 2 * qb)
    } else if (b_lo as nat / pow2(i)) % 2 == 1 {
        (((2 * a_lo) % w) as u32, ((b_lo - a_lo) % w) as u32, a_hi, ((b_hi - a_hi) / 2) as u64, 2 * pa, 2 * pb, qa - pa, qb - pb)
    } else {
        (((2 * a_lo) % w) as u32, b_lo, a_hi, b_hi / 2, 2 * pa, 2 * pb, qa, qb)
    }
}

/// The first `n` steps of the binary GCD on low words from the state `s`.
pub open spec fn gcd_run(s: GcdState, n: nat) -> GcdState
    decreases n,
{
    if n == 0 {
        s
    } else {
        gcd_step(gcd_run(s, (n - 1) as nat), (n - 1) as nat)
    }
}

/// The comparison and the halvings of the high words in a step of the binary GCD: the
/// top bit of the mixed difference tells whether `b_hi` is below `a_hi`, and a mask
/// made of a choice bit picks `x` or its half.
proof fn lemma_gcd_hi_bits(a_hi: u64, b_hi: u64, x: u64, c: u32)
    by (bit_vector)
    requires
        c <= 1u32,
    ensures
        ((b_hi.wrapping_sub(a_hi) ^ ((a_hi ^ b_hi) & (a_hi ^ b_hi.wrapping_sub(a_hi)))) >> 63u64) as u32 == (if b_hi
            < a_hi {
            1u32
        } else {
            0u32
        }),
        x ^ ((x ^ (x >> 1u64)) & 0u64.wrapping_sub(c as u64)) == (if c == 1u32 {
            x / 2
        } else {
            x
        }),
        x ^ ((x ^ (x >> 1u64)) & (c as u64).wrapping_sub(1u64)) == (if c == 1u32 {
            x
        } else {
            x / 2
        }),
{
}

/// Thirty-one steps of the binary GCD on the low words `a_lo0` and `b_lo0` of two numbers,
/// guided by approximations `a_hi0` and `b_hi0` of their high parts: the factor pairs by
/// which the numbers combine into multiples of `2^31`.
#[verifier::rlimit(60)]
#[verifier::spinoff_prover]
fn bezout_factors(a_lo0: u32, b_lo0: u32, a_hi0: u64, b_hi0: u64) -> (r: (i64, i64, i64, i64))
    ensures
        ({
            let f = gcd_run((a_lo0, b_lo0, a_hi0, b_hi0, 1, 0, 0, 1), 31);
            r.0 == f.4 && r.1 == f.5 && r.2 == f.6 && r.3 == f.7
        }),
        factors_ok(r.0, r.1),
        factors_ok(r.2, r.3),
        (r.0 * a_lo0 + r.1 * b_lo0) % 0x8000_0000 == 0,
        (r.2 * a_lo0 + r.3 * b_lo0) % 0x8000_0000 == 0,
{
    let mut a_lo = a_lo0;
    let mut b_lo = b_lo0;
    let mut a_hi = a_hi0;
    let mut b_hi = b_hi0;
    let mut pa: i64 = 1;
    let mut pb: i64 = 0;
    let mut qa: i64 = 0;
    let mut qb: i64 = 1;
    let mut i: u32 = 0;
    proof {
        vstd::arithmetic::power2::lemma2_to64();
        vstd::arithmetic::div_mod::lemma_small_mod(a_lo0 as nat, 0x1_0000_0000);
        vstd::arithmetic::div_mod::lemma_small_mod(b_lo0 as nat, 0x1_0000_0000);
    }
    while i < 31
        invariant
            i <= 31,
            abs_int(pa as int) + abs_int(pb as int) <= pow2(i as nat),
            abs_int(qa as int) + abs_int(qb as int) <= pow2(i as nat),
            a_lo as int == (pa * a_lo0 + pb * b_lo0) % 0x1_0000_0000,
            b_lo as int == (qa * a_lo0 + qb * b_lo0) % 0x1_0000_0000,
            a_lo as int % pow2(i as nat) as int == 0,
            b_lo as int % pow2(i as nat) as int == 0,
            (a_lo, b_lo, a_hi, b_hi, pa as int, pb as int, qa as int, qb as int) == gcd_run(
                (a_lo0, b_lo0, a_hi0, b_hi0, 1, 0, 0, 1),
                i as nat,
            ),
        decreases 31 - i,
    {
        let ghost st: GcdState = (a_lo, b_lo, a_hi, b_hi, pa as int, pb as int, qa as int, qb as int);
        let ghost (ah0, bh0) = (a_hi, b_hi);
        let ghost al = a_lo as int;
        let ghost bl = b_lo as int;
        let ghost ga = pa * a_lo0 + pb * b_lo0;
        let ghost gb = qa * a_lo0 + qb * b_lo0;
        let ghost (pa0, pb0, qa0, qb0) = (pa as int, pb as int, qa as int, qb as int);
        proof {
            vstd::arithmetic::power2::lemma2_to64();
            vstd::arithmetic::power2::lemma_pow2_unfold((i + 1) as nat);
            vstd::arithmetic::power2::lemma_pow2_strictly_increases(i as nat, 31);
        }
        let rz = b_hi.wrapping_sub(a_hi);
        let rt = ((rz ^ ((a_hi ^ b_hi) & (a_hi ^ rz))) >> 63u64) as u32;
        let oa = (a_lo >> i) & 1;
        let ob = (b_lo >> i) & 1;
        proof {
            lemma_gcd_hi_bits(a_hi, b_hi, 0, 0);
            assert(rt <= 1);
            vstd::bits::lemma_u32_shr_is_div(a_lo, i);
            vstd::bits::lemma_u32_shr_is_div(b_lo, i);
            vstd::bits::lemma_low_bits_mask_values();
            vstd::bits::lemma_u32_low_bits_mask_is_mod(a_lo >> i, 1);
            vstd::bits::lemma_u32_low_bits_mask_is_mod(b_lo >> i, 1);
            assert(oa as int == (al / pow2(i as nat) as int) % 2);
            assert(ob as int == (bl / pow2(i as nat) as int) % 2);
        }
        let cab = oa & ob & rt;
        let cba = oa & ob & !rt;
        let ca = cab | (oa ^ 1);
        proof {
            lemma_gcd_step_bits(oa, ob, rt, 0, 0, 0, 0);
            lemma_gcd_step_bits(oa, ob, rt, b_lo, b_hi, qa, cab);
            lemma_gcd_step_bits(oa, ob, rt, b_lo, b_hi, qb, cab);
        }
        a_lo = a_lo.wrapping_sub(b_lo & 0u32.wrapping_sub(cab));
        a_hi = a_hi.wrapping_sub(b_hi & 0u64.wrapping_sub(cab as u64));
        pa = pa - (qa & -(cab as i64));
        pb = pb - (qb & -(cab as i64));
        let ghost ah1 = a_hi;
        proof {
            lemma_gcd_step_bits(oa, ob, rt, a_lo, a_hi, pa, cba);
            lemma_gcd_step_bits(oa, ob, rt, a_lo, a_hi, pb, cba);
        }
        b_lo = b_lo.wrapping_sub(a_lo & 0u32.wrapping_sub(cba));
        b_hi = b_hi.wrapping_sub(a_hi & 0u64.wrapping_sub(cba as u64));
        qa = qa - (pa & -(cba as i64));
        qb = qb - (pb & -(cba as i64));
        let ghost bh1 = b_hi;
        proof {
            lemma_gcd_hi_bits(0, 0, a_hi, ca);
            lemma_gcd_step_bits(oa, ob, rt, a_lo, a_hi, pa, ca);
            lemma_gcd_step_bits(oa, ob, rt, a_lo, a_hi, pb, ca);
        }
        a_lo = a_lo.wrapping_add(a_lo & ca.wrapping_sub(1));
        pa = pa + (pa & (ca as i64 - 1));
        pb = pb + (pb & (ca as i64 - 1));
        a_hi = a_hi ^ ((a_hi ^ (a_hi >> 1u64)) & 0u64.wrapping_sub(ca as u64));
        proof {
            lemma_gcd_hi_bits(0, 0, b_hi, ca);
            lemma_gcd_step_bits(oa, ob, rt, b_lo, b_hi, qa, ca);
            lemma_gcd_step_bits(oa, ob, rt, b_lo, b_hi, qb, ca);
        }
        b_lo = b_lo.wrapping_add(b_lo & 0u32.wrapping_sub(ca));
        qa = qa + (qa & -(ca as i64));
        qb = qb + (qb & -(ca as i64));
        b_hi = b_hi ^ ((b_hi ^ (b_hi >> 1u64)) & (ca as u64).wrapping_sub(1));
        proof {
            lemma_low_zero(al, bl, i as nat);
            lemma_low_zero(bl, al, i as nat);
            let w: int = 0x1_0000_0000;
            lemma_wrap32(2 * al);
            lemma_wrap32(2 * bl);
            lemma_wrap32(al - bl);
            lemma_wrap32(bl - al);
            vstd::arithmetic::div_mod::lemma_mul_mod_noop_right(2, ga, w);
            vstd::arithmetic::div_mod::lemma_mul_mod_noop_right(2, gb, w);
            vstd::arithmetic::div_mod::lemma_sub_mod_noop(ga, gb, w);
            vstd::arithmetic::div_mod::lemma_sub_mod_noop(gb, ga, w);
            if oa == 0 {
                assert(a_lo as int == al);
                assert(b_lo as int == (2 * bl) % w);
                assert(qa * a_lo0 + qb * b_lo0 == 2 * gb) by (nonlinear_arith)
                    requires
                        qa == 2 * qa0,
                        qb == 2 * qb0,
                        gb == qa0 * a_lo0 + qb0 * b_lo0,
                ;
            } else if ob == 1 && rt == 1 {
                assert(a_lo as int == (al - bl) % w);
                assert(b_lo as int == (2 * bl) % w);
                assert(pa * a_lo0 + pb * b_lo0 == ga - gb) by (nonlinear_arith)
                    requires
                        pa == pa0 - qa0,
                        pb == pb0 - qb0,
                        ga == pa0 * a_lo0 + pb0 * b_lo0,
                        gb == qa0 * a_lo0 + qb0 * b_lo0,
                ;
                assert(qa * a_lo0 + qb * b_lo0 == 2 * gb) by (nonlinear_arith)
                    requires
                        qa == 2 * qa0,
                        qb == 2 * qb0,
                        gb == qa0 * a_lo0 + qb0 * b_lo0,
                ;
            } else if ob == 1 {
                assert(b_lo as int == (bl - al) % w);
                assert(a_lo as int == (2 * al) % w);
                assert(qa * a_lo0 + qb * b_lo0 == gb - ga) by (nonlinear_arith)
                    requires
                        qa == qa0 - pa0,
                        qb == qb0 - pb0,
                        ga == pa0 * a_lo0 + pb0 * b_lo0,
                        gb == qa0 * a_lo0 + qb0 * b_lo0,
                ;
                assert(pa * a_lo0 + pb * b_lo0 == 2 * ga) by (nonlinear_arith)
                    requires
                        pa == 2 * pa0,
                        pb == 2 * pb0,
                        ga == pa0 * a_lo0 + pb0 * b_lo0,
                ;
            } else {
                assert(a_lo as int == (2 * al) % w);
                assert(b_lo as int == bl);
                assert(pa * a_lo0 + pb * b_lo0 == 2 * ga) by (nonlinear_arith)
                    requires
                        pa == 2 * pa0,
                        pb == 2 * pb0,
                        ga == pa0 * a_lo0 + pb0 * b_lo0,
                ;
            }
            // the step the spec describes
            if oa == 0 {
                assert(a_hi == ah0 / 2 && b_hi == bh0);
            } else if ob == 1 && rt == 1 {
                assert(ah1 == ah0 - bh0);
                assert(a_hi == (ah0 - bh0) / 2 && b_hi == bh0);
            } else if ob == 1 {
                assert(bh1 == bh0 - ah0);
                assert(a_hi == ah0 && b_hi == (bh0 - ah0) / 2);
            } else {
                assert(a_hi == ah0 && b_hi == bh0 / 2);
            }
            assert((a_lo, b_lo, a_hi, b_hi, pa as int, pb as int, qa as int, qb as int) == gcd_step(st, i as nat));
        }
        i = i + 1;
    }
    proof {
        vstd::arithmetic::power2::lemma2_to64();
        vstd::arithmetic::div_mod::lemma_mod_mod(pa * a_lo0 + pb * b_lo0, 0x8000_0000, 2);
        vstd::arithmetic::div_mod::lemma_mod_mod(qa * a_lo0 + qb * b_lo0, 0x8000_0000, 2);
    }
    (pa, pb, qa, qb)
}

/// The lowest limb plus `2^31` times the number the other limbs stand for.
proof fn lemma_zint_front(limbs: Seq<u32>)
    requires
        limbs.len() > 0,
    ensures
        zint_value(limbs) == limbs[0] as nat + pow2(31) * zint_value(limbs.drop_first()),
    decreases limbs.len(),
{
    let n = limbs.len();
    vstd::arithmetic::power2::lemma2_to64();
    if n == 1 {
        assert(limbs.drop_last() =~= Seq::<u32>::empty());
        assert(limbs.drop_first() =~= Seq::<u32>::empty());
        assert(zint_value(Seq::<u32>::empty()) == 0);
        assert(zint_value(limbs) == zint_value(limbs.drop_last()) + limbs.last() as nat * pow2(0));
    } else {
        let init = limbs.drop_last();
        let rest = limbs.drop_first();
        lemma_zint_front(init);
        assert(init.drop_first() =~= rest.drop_last());
        assert(rest.last() == limbs.last());
        assert(init[0] == limbs[0]);
        vstd::arithmetic::power2::lemma_pow2_adds(31, (31 * (n - 2)) as nat);
        assert(31 + 31 * (n - 2) == 31 * (n - 1));
        let a = zint_value(rest.drop_last());
        let big = pow2((31 * (n - 2)) as nat);
        let l = limbs.last() as nat;
        assert(zint_value(limbs) == zint_value(init) + l * pow2((31 * (n - 1)) as nat));
        assert(zint_value(init) == limbs[0] as nat + pow2(31) * a);
        assert(zint_value(rest) == a + l * big);
        assert(pow2(31) * (a + l * big) == pow2(31) * a + l * (pow2(31) * big)) by (nonlinear_arith);
    }
}

/// A 31-bit limb read as a signed value: bit 30 is the sign.
pub open spec fn signed31(w: u32) -> int {
    if w >= 0x4000_0000 {
        w - 0x8000_0000
    } else {
        w as int
    }
}

/// The one-limb big integer `x` as a plain signed integer.
pub fn zint_one_to_plain(x: &[u32]) -> (r: i32)
    requires
        x@.len() > 0,
        x@[0] < 0x8000_0000,
    ensures
        r == signed31(x@[0]),
{
    let w = x[0];
    proof {
        crate::poly::lemma_small_poly_bits(0, 0, w);
    }
    let w = w | ((w & 0x4000_0000) << 1u32);
    w as i32
}

/// The sign word of a big integer read as signed: all 31 bits set when bit 30 of its top
/// limb is set, else zero.
pub open spec fn sign_limb(y: Seq<u32>) -> u32 {
    if y.last() >= 0x4000_0000 {
        0x7fff_ffff
    } else {
        0
    }
}

/// The big integer `y` read as signed, in two's complement on its `31 len` bits: bit 30
/// of its top limb is the sign.
pub open spec fn zint_signed(y: Seq<u32>) -> int {
    if y.len() > 0 && y.last() >= 0x4000_0000 {
        zint_value(y) - pow2((31 * y.len()) as nat)
    } else {
        zint_value(y) as int
    }
}

/// The first `m` limbs of the signed big integer `y` extended by its sign.
pub open spec fn sign_extended(y: Seq<u32>, m: int) -> Seq<u32> {
    Seq::new(
        m as nat,
        |t: int|
            if t < y.len() {
                y[t]
            } else {
                sign_limb(y)
            },
    )
}

/// A number is its first `m` limbs plus `2^(31 m)` times the rest.
proof fn lemma_zint_split(y: Seq<u32>, m: int)
    requires
        0 <= m <= y.len(),
    ensures
        zint_value(y) == zint_value(y.take(m)) + pow2((31 * m) as nat) * zint_value(y.skip(m)),
    decreases m,
{
    vstd::arithmetic::power2::lemma2_to64();
    if m == 0 {
        assert(y.take(0) =~= Seq::<u32>::empty());
        assert(y.skip(0) =~= y);
        assert(zint_value(Seq::<u32>::empty()) == 0);
        assert(pow2(0) * zint_value(y) == zint_value(y));
    } else {
        lemma_zint_split(y, m - 1);
        let s = y.skip(m - 1);
        lemma_zint_front(s);
        assert(s.drop_first() =~= y.skip(m));
        lemma_zint_take(y, m - 1);
        assert(y.take(m - 1) =~= y.take(m).take(m - 1));
        assert(y.take(m).take(m - 1) =~= y.take(m - 1));
        let a = pow2((31 * (m - 1)) as nat);
        vstd::arithmetic::power2::lemma_pow2_adds((31 * (m - 1)) as nat, 31);
        assert(31 * (m - 1) + 31 == 31 * m);
        let r = zint_value(y.skip(m));
        assert(s[0] == y[m - 1]);
        assert(zint_value(s) == y[m - 1] as nat + pow2(31) * r);
        assert(zint_value(y) == zint_value(y.take(m - 1)) + a * zint_value(s));
        assert(zint_value(y.take(m)) == zint_value(y.take(m - 1)) + y[m - 1] as nat * a);
        assert(pow2((31 * m) as nat) == a * pow2(31));
        assert(a * (y[m - 1] as nat + pow2(31) * r) == y[m - 1] as nat * a + (a * pow2(31)) * r) by (nonlinear_arith);
        assert((a * pow2(31)) * r == pow2((31 * m) as nat) * r);
        assert(zint_value(y) == zint_value(y.take(m)) + pow2((31 * m) as nat) * zint_value(y.skip(m)));
    }
}

/// Sign extension keeps a signed big integer modulo `2^(31 m)`, with 31-bit limbs.
proof fn lemma_sign_extended(y: Seq<u32>, m: int)
    requires
        y.len() > 0,
        limbs_ok(y),
        m >= 0,
    ensures
        limbs_ok(sign_extended(y, m)),
        (zint_value(sign_extended(y, m)) - zint_signed(y)) % (pow2((31 * m) as nat) as int) == 0,
    decreases m,
{
    let n = y.len() as int;
    let ext = sign_extended(y, m);
    let big = pow2((31 * m) as nat) as int;
    vstd::arithmetic::power2::lemma_pow2_pos((31 * m) as nat);
    assert(limbs_ok(ext)) by {
        assert forall|i: int| 0 <= i < ext.len() implies #[trigger] ext[i] < 0x8000_0000 by {
            if i < n {
                assert(y[i] < 0x8000_0000);
            }
        }
    }
    if m <= n {
        assert(ext =~= y.take(m));
        lemma_zint_split(y, m);
        let r = zint_value(y.skip(m)) as int;
        if y.last() >= 0x4000_0000 {
            vstd::arithmetic::power2::lemma_pow2_adds((31 * m) as nat, (31 * (n - m)) as nat);
            assert(31 * m + 31 * (n - m) == 31 * n);
            let rest = pow2((31 * (n - m)) as nat) as int;
            assert(zint_signed(y) == zint_value(y) - big * rest);
            assert(zint_value(ext) == zint_value(y) - big * r);
            assert(big * rest - big * r == big * (rest - r)) by (nonlinear_arith);
            assert(zint_value(ext) - zint_signed(y) == big * (rest - r));
            lemma_mod_multiples_basic(rest - r, big);
            assert((rest - r) * big == big * (rest - r)) by (nonlinear_arith);
        } else {
            assert(zint_value(ext) == zint_value(y) - big * r);
            assert(-(big * r) == big * (-r)) by (nonlinear_arith);
            assert(zint_value(ext) - zint_signed(y) == big * (-r));
            lemma_mod_multiples_basic(-r, big);
            assert((-r) * big == big * (-r)) by (nonlinear_arith);
        }
    } else {
        lemma_sign_extended_value(y, m);
        if y.last() >= 0x4000_0000 {
            assert(zint_value(ext) - zint_signed(y) == big);
            vstd::arithmetic::div_mod::lemma_mod_self_0(big);
        } else {
            assert(zint_value(ext) - zint_signed(y) == 0);
            vstd::arithmetic::div_mod::lemma_small_mod(0, big as nat);
        }
    }
}

/// Past its own length, sign extension of a negative number adds `2^(31 m) - 2^(31 len)`.
proof fn lemma_sign_extended_value(y: Seq<u32>, m: int)
    requires
        y.len() > 0,
        m >= y.len(),
    ensures
        zint_value(sign_extended(y, m)) == zint_value(y) + (if y.last() >= 0x4000_0000 {
            pow2((31 * m) as nat) - pow2((31 * y.len()) as nat)
        } else {
            0
        }),
    decreases m,
{
    let n = y.len() as int;
    if m == n {
        assert(sign_extended(y, m) =~= y);
    } else {
        lemma_sign_extended_value(y, m - 1);
        let ext = sign_extended(y, m);
        assert(ext.drop_last() =~= sign_extended(y, m - 1));
        vstd::arithmetic::power2::lemma2_to64();
        vstd::arithmetic::power2::lemma_pow2_adds((31 * (m - 1)) as nat, 31);
        assert(31 * (m - 1) + 31 == 31 * m);
        let a = pow2((31 * (m - 1)) as nat) as int;
        assert(ext.last() == sign_limb(y));
        assert(zint_value(ext) == zint_value(ext.drop_last()) + ext.last() as nat * pow2((31 * (m - 1)) as nat));
        assert(pow2((31 * m) as nat) == a * 0x8000_0000);
        assert(0x7fff_ffff * a + a == a * 0x8000_0000) by (nonlinear_arith);
    }
}

/// The bits that shift one limb of a scaled big integer: the low 31 bits of `wy 2^scl`,
/// with the bits `tw` carried in from the limb below, and the bits carried out; and the
/// sign word of a top limb.
proof fn lemma_shift_limb(wy: u32, scl: u32, tw: u32, top: u32)
    by (bit_vector)
    requires
        wy < 0x8000_0000u32,
        scl < 31u32,
        tw < (1u32 << scl),
        top < 0x8000_0000u32,
    ensures
        (((wy << scl) & 0x7fff_ffffu32) | tw) == ((wy << scl) & 0x7fff_ffffu32) + tw,
        ((wy << scl) & 0x7fff_ffffu32) + tw < 0x8000_0000u32,
        (wy >> 31u32.wrapping_sub(scl)) < (1u32 << scl),
        (((wy << scl) & 0x7fff_ffffu32) as u64) + 0x8000_0000u64 * ((wy >> 31u32.wrapping_sub(scl)) as u64) == (
        wy as u64) << (scl as u64),
        (0u32.wrapping_sub(top >> 30u32) >> 1u32) == (if top >= 0x4000_0000u32 {
            0x7fff_ffffu32
        } else {
            0u32
        }),
{
}

/// The next limb of `y` as extended by its sign, shifted: `wys` is the low 31 bits of
/// `wy 2^scl` plus the carried bits `tw`, and `hi` the bits carried out.
proof fn lemma_scaled_limb(y: Seq<u32>, v: int, wy: u32, scl: u32, tw: u32, wys: u32, hi: u32)
    requires
        y.len() > 0,
        limbs_ok(y),
        v >= 0,
        wy == sign_extended(y, v + 1)[v],
        scl < 31,
        tw < pow2(scl as nat),
        wys == ((wy << scl) & 0x7fff_ffff) | tw,
        hi == wy >> 31u32.wrapping_sub(scl),
    ensures
        wys < 0x8000_0000,
        hi < pow2(scl as nat),
        wys - tw + 0x8000_0000 * hi == wy * pow2(scl as nat),
        zint_value(sign_extended(y, v + 1)) == zint_value(sign_extended(y, v)) + wy * pow2((31 * v) as nat),
{
    let ext = sign_extended(y, v + 1);
    assert(ext.drop_last() =~= sign_extended(y, v));
    assert(wy < 0x8000_0000) by {
        if v < y.len() {
            assert(y[v] < 0x8000_0000);
        }
    }
    vstd::arithmetic::power2::lemma_pow2_strictly_increases(scl as nat, 31);
    vstd::arithmetic::power2::lemma2_to64();
    vstd::bits::lemma_u32_shl_is_mul(1, scl);
    assert(wy * pow2(scl as nat) <= u64::MAX) by (nonlinear_arith)
        requires
            wy < 0x8000_0000,
            pow2(scl as nat) < 0x8000_0000,
    ;
    vstd::bits::lemma_u64_shl_is_mul(wy as u64, scl as u64);
    lemma_shift_limb(wy, scl, tw, 0);
}

/// Subtracts from `x` the signed big integer `y` times `2^(31 sch + scl)`, modulo
/// `2^(31 len)` for `len` the length of `x`.
pub fn zint_sub_scaled(x: &mut [u32], y: &[u32], sch: u32, scl: u32)
    requires
        limbs_ok(old(x)@),
        limbs_ok(y@),
        scl < 31,
    ensures
        final(x)@.len() == old(x)@.len(),
        limbs_ok(final(x)@),
        y@.len() == 0 ==> final(x)@ == old(x)@,
        y@.len() > 0 ==> (zint_value(final(x)@) - zint_value(old(x)@) + zint_signed(y@) * pow2(
            (31 * sch + scl) as nat,
        )) % (pow2((31 * old(x)@.len()) as nat) as int) == 0,
{
    let xlen = x.len();
    let ylen = y.len();
    if ylen == 0 {
        return;
    }
    let ghost start = x@;
    let ysign = 0u32.wrapping_sub(y[ylen - 1] >> 30u32) >> 1u32;
    let mut tw: u32 = 0;
    let mut cc: u32 = 0;
    let mut u: usize = sch as usize;
    proof {
        vstd::arithmetic::power2::lemma2_to64();
        vstd::bits::lemma_u32_shl_is_mul(1, 0);
        assert(y@[ylen - 1] < 0x8000_0000);
        lemma_shift_limb(0, 0, 0, y[ylen - 1]);
        vstd::arithmetic::power2::lemma_pow2_pos(scl as nat);
        assert(sign_extended(y@, 0) =~= Seq::<u32>::empty());
        assert(zint_value(Seq::<u32>::empty()) == 0);
        assert(zint_value(sign_extended(y@, 0)) == 0);
        let pz = pow2(scl as nat) as int;
        let pb = pow2((31 * sch) as nat) as int;
        assert((0 * pz - 0 * pow2(0)) * pb == 0) by (nonlinear_arith);
        if u <= xlen {
            assert(x@.take(u as int) =~= start.take(u as int));
        }
    }
    while u < xlen
        invariant
            xlen == x@.len(),
            xlen == start.len(),
            ylen == y@.len(),
            ylen > 0,
            sch <= u,
            u <= xlen || u == sch,
            scl < 31,
            limbs_ok(start),
            limbs_ok(y@),
            limbs_ok(x@),
            ysign == sign_limb(y@),
            tw < pow2(scl as nat),
            cc <= 1,
            forall|j: int| 0 <= j < xlen && (j < sch || j >= u) ==> #[trigger] x@[j] == start[j],
            u <= xlen ==> zint_value(x@.take(u as int)) - cc * pow2((31 * u) as nat) == zint_value(start.take(u as int))
                - (zint_value(sign_extended(y@, u - sch)) * pow2(scl as nat) - tw * pow2((31 * (u - sch)) as nat))
                * pow2((31 * sch) as nat),
        decreases xlen - u,
    {
        let v = u - sch as usize;
        let wy = if v < ylen {
            y[v]
        } else {
            ysign
        };
        let wys = ((wy << scl) & 0x7fff_ffff) | tw;
        let hi = wy >> 31u32.wrapping_sub(scl);
        let xw = x[u];
        let w = xw.wrapping_sub(wys).wrapping_sub(cc);
        let ghost before = x@;
        proof {
            lemma_scaled_limb(y@, v as int, wy, scl, tw, wys, hi);
            lemma_sub_word(xw, wys, cc);
            assert(xw < 0x8000_0000);
        }
        x[u] = w & 0x7fff_ffff;
        let ncc = w >> 31u32;
        proof {
            let nx = x@;
            lemma_zint_take(nx, u as int);
            lemma_zint_take(start, u as int);
            assert(nx.take(u as int) =~= before.take(u as int));
            assert(start[u as int] == xw);
            let a = pow2((31 * u) as nat) as int;
            let b = pow2((31 * sch) as nat) as int;
            let c = pow2((31 * v) as nat) as int;
            let d = pow2(scl as nat) as int;
            vstd::arithmetic::power2::lemma2_to64();
            vstd::arithmetic::power2::lemma_pow2_adds((31 * v) as nat, (31 * sch) as nat);
            assert(31 * v + 31 * sch == 31 * u);
            vstd::arithmetic::power2::lemma_pow2_adds((31 * u) as nat, 31);
            vstd::arithmetic::power2::lemma_pow2_adds((31 * v) as nat, 31);
            assert(31 * u + 31 == 31 * (u + 1));
            assert(31 * v + 31 == 31 * (v + 1));
            let pm = zint_value(sign_extended(y@, v as int)) as int;
            let pm1 = zint_value(sign_extended(y@, v + 1)) as int;
            let vx = zint_value(before.take(u as int)) as int;
            let sx = zint_value(start.take(u as int)) as int;
            let nl = (w & 0x7fff_ffff) as int;
            assert(nl + wys + cc == xw + 0x8000_0000 * ncc);
            assert(vx - cc * a == sx - (pm * d - tw * c) * b);
            assert(pm1 == pm + wy * c);
            assert(wys - tw + 0x8000_0000 * hi == wy * d);
            assert(a == c * b);
            assert(nl * a == xw * a + 0x8000_0000 * (ncc * a) - wys * a - cc * a) by (nonlinear_arith)
                requires
                    nl + wys + cc == xw + 0x8000_0000 * ncc,
            ;
            assert(ncc * (a * 0x8000_0000) == 0x8000_0000 * (ncc * a)) by (nonlinear_arith);
            let hc = hi * (c * 0x8000_0000);
            assert((pm1 * d - hc) * b == pm1 * d * b - hc * b) by (nonlinear_arith);
            assert(pm1 * d * b == pm * d * b + wy * (c * d * b)) by (nonlinear_arith)
                requires
                    pm1 == pm + wy * c,
            ;
            assert((pm * d - tw * c) * b == pm * d * b - tw * (c * b)) by (nonlinear_arith);
            assert((c * b) * (tw + wy * d - 0x8000_0000 * hi) == tw * (c * b) + wy * (c * d * b) - hc * b)
                by (nonlinear_arith)
                requires
                    hc == hi * (c * 0x8000_0000),
            ;
            assert((pm1 * d - hc) * b == (pm * d - tw * c) * b + (c * b) * (tw + wy * d - 0x8000_0000 * hi));
            assert(tw + wy * d - 0x8000_0000 * hi == wys);
            assert((c * b) * wys == wys * a) by (nonlinear_arith)
                requires
                    a == c * b,
            ;
            assert((vx + nl * a) - ncc * (a * 0x8000_0000) == (sx + xw * a) - (pm1 * d - hc) * b);
        }
        tw = hi;
        cc = ncc;
        u = u + 1;
    }
    proof {
        let n = xlen as int;
        let big = pow2((31 * n) as nat) as int;
        vstd::arithmetic::power2::lemma_pow2_pos((31 * n) as nat);
        if (sch as int) < n {
            assert(u == xlen);
            assert(x@.take(n) =~= x@);
            assert(start.take(n) =~= start);
            let m = n - sch;
            lemma_sign_extended(y@, m);
            let e = zint_value(sign_extended(y@, m)) * pow2(scl as nat) - tw * pow2((31 * m) as nat);
            assert(zint_value(x@) + (-(cc as int)) * big == zint_value(start) + (-1) * e * pow2((31 * sch) as nat))
                by (nonlinear_arith)
                requires
                    zint_value(x@) - cc * big == zint_value(start) - e * pow2((31 * sch) as nat),
            ;
            assert(m + sch == n);
            lemma_scaled_finish(
                zint_value(x@) as int,
                zint_value(start) as int,
                -(cc as int),
                zint_value(sign_extended(y@, m)) as int,
                zint_signed(y@),
                -1,
                tw as int,
                m as nat,
                sch as nat,
                scl as nat,
            );
            let ps = pow2((31 * sch + scl) as nat) as int;
            assert((-1) * zint_signed(y@) * ps == -(zint_signed(y@) * ps)) by (nonlinear_arith);
            assert(31 * (m as nat + sch as nat) == 31 * n);
        } else {
            assert(x@ =~= start);
            lemma_scaled_vanish(zint_signed(y@), n as nat, sch as nat, scl as nat);
        }
    }
}

/// A signed carry word: the low 31 bits of a value within `2^62` in size, and the value
/// shifted down by 31 bits, which fits a signed 32-bit word.
proof fn lemma_carry_word(v: i64)
    by (bit_vector)
    requires
        -0x4000_0000_0000_0000i64 <= v < 0x4000_0000_0000_0000i64,
    ensures
        ((v as u64) as u32) & 0x7fff_ffffu32 == ((v & 0x7fff_ffffi64) as u32),
        ((((v as u64) >> 31u64) as u32) as i32) as i64 == v >> 31i64,
        -0x8000_0000i64 <= v >> 31i64 < 0x8000_0000i64,
{
}

/// Adds to `x` the signed big integer `y` times `k 2^(31 sch + scl)`, modulo
/// `2^(31 len)` for `len` the length of `x`.
pub fn zint_add_scaled_mul_small(x: &mut [u32], y: &[u32], k: i32, sch: u32, scl: u32)
    requires
        limbs_ok(old(x)@),
        limbs_ok(y@),
        scl < 31,
    ensures
        final(x)@.len() == old(x)@.len(),
        limbs_ok(final(x)@),
        y@.len() == 0 ==> final(x)@ == old(x)@,
        y@.len() > 0 ==> (zint_value(final(x)@) - zint_value(old(x)@) - k * zint_signed(y@) * pow2(
            (31 * sch + scl) as nat,
        )) % (pow2((31 * old(x)@.len()) as nat) as int) == 0,
{
    let xlen = x.len();
    let ylen = y.len();
    if ylen == 0 {
        return;
    }
    let ghost start = x@;
    let ysign = 0u32.wrapping_sub(y[ylen - 1] >> 30u32) >> 1u32;
    let mut tw: u32 = 0;
    let mut cc: i32 = 0;
    let mut u: usize = sch as usize;
    proof {
        vstd::arithmetic::power2::lemma2_to64();
        vstd::bits::lemma_u32_shl_is_mul(1, 0);
        assert(y@[ylen - 1] < 0x8000_0000);
        lemma_shift_limb(0, 0, 0, y[ylen - 1]);
        vstd::arithmetic::power2::lemma_pow2_pos(scl as nat);
        assert(sign_extended(y@, 0) =~= Seq::<u32>::empty());
        assert(zint_value(Seq::<u32>::empty()) == 0);
        assert(zint_value(sign_extended(y@, 0)) == 0);
        let pz = pow2(scl as nat) as int;
        let pb = pow2((31 * sch) as nat) as int;
        assert(k * ((0 * pz - 0 * pow2(0)) * pb) == 0) by (nonlinear_arith);
    }
    while u < xlen
        invariant
            xlen == x@.len(),
            xlen == start.len(),
            ylen == y@.len(),
            ylen > 0,
            sch <= u,
            u <= xlen || u == sch,
            scl < 31,
            limbs_ok(start),
            limbs_ok(y@),
            limbs_ok(x@),
            ysign == sign_limb(y@),
            tw < pow2(scl as nat),
            forall|j: int| 0 <= j < xlen && (j < sch || j >= u) ==> #[trigger] x@[j] == start[j],
            u <= xlen ==> zint_value(x@.take(u as int)) + cc * pow2((31 * u) as nat) == zint_value(start.take(u as int))
                + k * ((zint_value(sign_extended(y@, u - sch)) * pow2(scl as nat) - tw * pow2((31 * (u - sch)) as nat))
                * pow2((31 * sch) as nat)),
        decreases xlen - u,
    {
        let v = u - sch as usize;
        let wy = if v < ylen {
            y[v]
        } else {
            ysign
        };
        let wys = ((wy << scl) & 0x7fff_ffff) | tw;
        let hi = wy >> 31u32.wrapping_sub(scl);
        let xw = x[u];
        proof {
            lemma_scaled_limb(y@, v as int, wy, scl, tw, wys, hi);
            assert(xw < 0x8000_0000);
            assert(-0x4000_0000_0000_0000 + 0x8000_0000 <= wys * k <= 0x3fff_ffff_0000_0001) by (nonlinear_arith)
                requires
                    0 <= wys < 0x8000_0000,
                    -0x8000_0000 <= k < 0x8000_0000,
            ;
        }
        let zs: i64 = wys as i64 * k as i64 + xw as i64 + cc as i64;
        let z = zs as u64;
        let ghost before = x@;
        proof {
            lemma_carry_word(zs);
            lemma_split_i64(zs);
        }
        x[u] = (z as u32) & 0x7fff_ffff;
        let ccu = (z >> 31u64) as u32;
        let ncc = ccu as i32;
        proof {
            let nx = x@;
            lemma_zint_take(nx, u as int);
            lemma_zint_take(start, u as int);
            assert(nx.take(u as int) =~= before.take(u as int));
            assert(start[u as int] == xw);
            let a = pow2((31 * u) as nat) as int;
            let b = pow2((31 * sch) as nat) as int;
            let c = pow2((31 * v) as nat) as int;
            let d = pow2(scl as nat) as int;
            vstd::arithmetic::power2::lemma2_to64();
            vstd::arithmetic::power2::lemma_pow2_adds((31 * v) as nat, (31 * sch) as nat);
            assert(31 * v + 31 * sch == 31 * u);
            vstd::arithmetic::power2::lemma_pow2_adds((31 * u) as nat, 31);
            vstd::arithmetic::power2::lemma_pow2_adds((31 * v) as nat, 31);
            assert(31 * u + 31 == 31 * (u + 1));
            assert(31 * v + 31 == 31 * (v + 1));
            let pm = zint_value(sign_extended(y@, v as int)) as int;
            let pm1 = zint_value(sign_extended(y@, v + 1)) as int;
            let vx = zint_value(before.take(u as int)) as int;
            let sx = zint_value(start.take(u as int)) as int;
            let nl = x@[u as int] as int;
            assert(nl + 0x8000_0000 * ncc == wys * k + xw + cc);
            assert(vx + cc * a == sx + k * ((pm * d - tw * c) * b));
            assert(pm1 == pm + wy * c);
            assert(wys - tw + 0x8000_0000 * hi == wy * d);
            assert(a == c * b);
            let hc = hi * (c * 0x8000_0000);
            assert(nl * a + ncc * (a * 0x8000_0000) == (nl + 0x8000_0000 * ncc) * a) by (nonlinear_arith);
            assert((wys * k + xw + cc) * a == k * (wys * a) + xw * a + cc * a) by (nonlinear_arith);
            assert((pm1 * d - hc) * b == pm1 * d * b - hc * b) by (nonlinear_arith);
            assert(pm1 * d * b == pm * d * b + wy * (c * d * b)) by (nonlinear_arith)
                requires
                    pm1 == pm + wy * c,
            ;
            assert((pm * d - tw * c) * b == pm * d * b - tw * (c * b)) by (nonlinear_arith);
            assert((c * b) * (tw + wy * d - 0x8000_0000 * hi) == tw * (c * b) + wy * (c * d * b) - hc * b)
                by (nonlinear_arith)
                requires
                    hc == hi * (c * 0x8000_0000),
            ;
            assert(tw + wy * d - 0x8000_0000 * hi == wys);
            assert((c * b) * wys == wys * a) by (nonlinear_arith)
                requires
                    a == c * b,
            ;
            assert((pm1 * d - hc) * b == (pm * d - tw * c) * b + wys * a);
            assert(k * ((pm1 * d - hc) * b) == k * ((pm * d - tw * c) * b) + k * (wys * a)) by (nonlinear_arith)
                requires
                    (pm1 * d - hc) * b == (pm * d - tw * c) * b + wys * a,
            ;
            assert((vx + nl * a) + ncc * (a * 0x8000_0000) == (sx + xw * a) + k * ((pm1 * d - hc) * b));
        }
        cc = ncc;
        tw = hi;
        u = u + 1;
    }
    proof {
        let n = xlen as int;
        let big = pow2((31 * n) as nat) as int;
        vstd::arithmetic::power2::lemma_pow2_pos((31 * n) as nat);
        if (sch as int) < n {
            assert(u == xlen);
            assert(x@.take(n) =~= x@);
            assert(start.take(n) =~= start);
            let m = n - sch;
            lemma_sign_extended(y@, m);
            let e = zint_value(sign_extended(y@, m)) * pow2(scl as nat) - tw * pow2((31 * m) as nat);
            assert(k * (e * pow2((31 * sch) as nat)) == k * e * pow2((31 * sch) as nat)) by (nonlinear_arith);
            assert(m + sch == n);
            lemma_scaled_finish(
                zint_value(x@) as int,
                zint_value(start) as int,
                cc as int,
                zint_value(sign_extended(y@, m)) as int,
                zint_signed(y@),
                k as int,
                tw as int,
                m as nat,
                sch as nat,
                scl as nat,
            );
            assert(31 * (m as nat + sch as nat) == 31 * n);
        } else {
            assert(x@ =~= start);
            let ps = pow2((31 * sch + scl) as nat) as int;
            lemma_scaled_vanish(-(k * zint_signed(y@)), n as nat, sch as nat, scl as nat);
            assert(0 - k * zint_signed(y@) * ps == (-(k * zint_signed(y@))) * ps) by (nonlinear_arith);
        }
    }
}

/// What the scaled addition and subtraction leave: from
/// `x2 + c 2^(31 (m + sch)) = x + k (p 2^scl - tw 2^(31 m)) 2^(31 sch)` with `p` equal
/// to `ys` modulo `2^(31 m)`, `x2` is `x + k ys 2^(31 sch + scl)` modulo `2^(31 (m + sch))`.
proof fn lemma_scaled_finish(x2: int, x: int, c: int, p: int, ys: int, k: int, tw: int, m: nat, sch: nat, scl: nat)
    requires
        (p - ys) % (pow2(31 * m) as int) == 0,
        x2 + c * pow2(31 * (m + sch)) == x + k * (p * pow2(scl) - tw * pow2(31 * m)) * pow2(31 * sch),
    ensures
        (x2 - x - k * ys * pow2(31 * sch + scl)) % (pow2(31 * (m + sch)) as int) == 0,
{
    let pm = pow2(31 * m) as int;
    let ps = pow2(31 * sch) as int;
    let pl = pow2(scl) as int;
    let big = pow2(31 * (m + sch)) as int;
    vstd::arithmetic::power2::lemma_pow2_pos(31 * m);
    vstd::arithmetic::power2::lemma_pow2_adds(31 * m, 31 * sch);
    vstd::arithmetic::power2::lemma_pow2_adds(31 * sch, scl);
    assert(31 * m + 31 * sch == 31 * (m + sch));
    vstd::arithmetic::div_mod::lemma_fundamental_div_mod(p - ys, pm);
    let j = (p - ys) / pm;
    assert(p - ys == pm * j);
    let q = k * j * pl - k * tw - c;
    vstd::arithmetic::power2::lemma_pow2_pos(31 * (m + sch));
    let pp = p * pl;
    let tp = tw * pm;
    assert(k * (pp - tp) * ps == k * pp * ps - k * tp * ps) by (nonlinear_arith);
    assert(k * pp * ps == k * p * pl * ps) by (nonlinear_arith)
        requires
            pp == p * pl,
    ;
    assert(k * tp * ps == k * tw * (pm * ps)) by (nonlinear_arith)
        requires
            tp == tw * pm,
    ;
    assert(k * (p * pl - tw * pm) * ps == k * p * pl * ps - k * tw * (pm * ps));
    assert(k * ys * (ps * pl) == k * ys * pl * ps) by (nonlinear_arith);
    assert(k * p * pl * ps - k * ys * pl * ps == k * (p - ys) * pl * ps) by (nonlinear_arith);
    assert(k * (p - ys) * pl * ps == k * j * pl * (pm * ps)) by (nonlinear_arith)
        requires
            p - ys == pm * j,
    ;
    assert(k * j * pl * big - k * tw * big - c * big == big * q) by (nonlinear_arith)
        requires
            q == k * j * pl - k * tw - c,
    ;
    assert(x2 - x - k * ys * pow2(31 * sch + scl) == big * q);
    lemma_mod_multiples_basic(q, big);
    assert(q * big == big * q) by (nonlinear_arith);
}

/// A multiple of `2^(31 sch + scl)` vanishes modulo `2^(31 n)` when `sch >= n`.
proof fn lemma_scaled_vanish(v: int, n: nat, sch: nat, scl: nat)
    requires
        sch >= n,
    ensures
        (v * pow2(31 * sch + scl)) % (pow2(31 * n) as int) == 0,
{
    let d = (31 * sch + scl - 31 * n) as nat;
    vstd::arithmetic::power2::lemma_pow2_adds(31 * n, d);
    assert(31 * n + d == 31 * sch + scl);
    vstd::arithmetic::power2::lemma_pow2_pos(31 * n);
    lemma_mod_multiples_basic(v * pow2(d), pow2(31 * n) as int);
    assert((v * pow2(d)) * pow2(31 * n) == v * pow2(31 * sch + scl)) by (nonlinear_arith)
        requires
            pow2(31 * sch + scl) == pow2(31 * n) * pow2(d),
    ;
}

/// Every limb zero stands for zero.
proof fn lemma_zint_zeros(limbs: Seq<u32>)
    requires
        forall|i: int| 0 <= i < limbs.len() ==> #[trigger] limbs[i] == 0,
    ensures
        zint_value(limbs) == 0,
    decreases limbs.len(),
{
    if limbs.len() > 0 {
        let init = limbs.drop_last();
        assert forall|i: int| 0 <= i < init.len() implies #[trigger] init[i] == 0 by {
            assert(init[i] == limbs[i]);
        }
        lemma_zint_zeros(init);
    }
}

/// A number whose top limb is below `2^30` is below `2^(31 len - 1)`.
proof fn lemma_zint_half(limbs: Seq<u32>)
    requires
        limbs.len() > 0,
        limbs_ok(limbs),
        limbs.last() < 0x4000_0000,
    ensures
        zint_value(limbs) < pow2((31 * limbs.len() - 1) as nat),
        2 * pow2((31 * limbs.len() - 1) as nat) == pow2((31 * limbs.len()) as nat),
{
    let n = limbs.len();
    let init = limbs.drop_last();
    assert(limbs_ok(init)) by {
        assert forall|i: int| 0 <= i < init.len() implies #[trigger] init[i] < 0x8000_0000 by {
            assert(init[i] == limbs[i]);
        }
    }
    lemma_zint_top(limbs);
    vstd::arithmetic::power2::lemma2_to64();
    vstd::arithmetic::power2::lemma_pow2_adds(30, (31 * (n - 1)) as nat);
    assert(30 + 31 * (n - 1) == 31 * n - 1);
    vstd::arithmetic::power2::lemma_pow2_unfold((31 * n) as nat);
    let big = pow2((31 * (n - 1)) as nat);
    assert(zint_value(init) + limbs.last() as nat * big < 0x4000_0000 * big) by (nonlinear_arith)
        requires
            zint_value(init) < big,
            limbs.last() < 0x4000_0000,
    ;
}

/// The parity of a number is that of its lowest limb.
proof fn lemma_zint_parity(limbs: Seq<u32>)
    requires
        limbs.len() > 0,
    ensures
        zint_value(limbs) % 2 == limbs[0] % 2,
        zint_value(limbs) % 0x8000_0000 == limbs[0] as int % 0x8000_0000,
{
    lemma_zint_front(limbs);
    vstd::arithmetic::power2::lemma2_to64();
    let r = zint_value(limbs.drop_first()) as int;
    assert(pow2(31) * r == 2 * (0x4000_0000 * r));
    vstd::arithmetic::div_mod::lemma_mod_multiples_vanish(0x4000_0000 * r, limbs[0] as int, 2);
    vstd::arithmetic::div_mod::lemma_mod_multiples_vanish(r, limbs[0] as int, 0x8000_0000);
}

/// The product of two odd numbers is odd.
proof fn lemma_odd_product(x: int, y: int)
    requires
        x > 0,
        y > 0,
        x % 2 == 1,
        y % 2 == 1,
    ensures
        x * y > 0,
        (x * y) % 2 == 1,
{
    vstd::arithmetic::div_mod::lemma_fundamental_div_mod(x, 2);
    vstd::arithmetic::div_mod::lemma_fundamental_div_mod(y, 2);
    let a = x / 2;
    let b = y / 2;
    assert(x * y == 2 * (2 * a * b + a + b) + 1) by (nonlinear_arith)
        requires
            x == 2 * a + 1,
            y == 2 * b + 1,
    ;
    assert(x * y > 0) by (nonlinear_arith)
        requires
            x > 0,
            y > 0,
    ;
    lemma_fundamental_div_mod_converse(x * y, 2, 2 * a * b + a + b, 1);
}

/// A combination of two numbers with a small factor pair is at most `2^31` times the
/// larger of them in size.
proof fn lemma_combo_size(a: int, b: int, x: i64, y: i64, h: int)
    requires
        0 <= a < h,
        0 <= b < h,
        factors_ok(x, y),
    ensures
        -0x8000_0000 * h < a * x + b * y < 0x8000_0000 * h,
        abs_int(a * x + b * y) <= 0x8000_0000 * (if a < b {
            b
        } else {
            a
        }),
{
    let m = if a < b {
        b
    } else {
        a
    };
    let sx = abs_int(x as int);
    let sy = abs_int(y as int);
    assert(-(a * sx) <= a * x <= a * sx) by (nonlinear_arith)
        requires
            0 <= a,
            sx == abs_int(x as int),
    ;
    assert(-(b * sy) <= b * y <= b * sy) by (nonlinear_arith)
        requires
            0 <= b,
            sy == abs_int(y as int),
    ;
    assert(a * sx + b * sy <= (sx + sy) * m) by (nonlinear_arith)
        requires
            0 <= a <= m,
            0 <= b <= m,
            0 <= sx,
            0 <= sy,
    ;
    assert((sx + sy) * m <= 0x8000_0000 * m) by (nonlinear_arith)
        requires
            sx + sy <= 0x8000_0000,
            0 <= m,
    ;
    assert(0x8000_0000 * m < 0x8000_0000 * h) by (nonlinear_arith)
        requires
            m < h,
    ;
}

/// A combination of two numbers is, modulo `2^31`, that of their lowest limbs.
proof fn lemma_combo_low(a: Seq<u32>, b: Seq<u32>, x: i64, y: i64)
    requires
        a.len() > 0,
        b.len() > 0,
    ensures
        co_combo(a, b, x, y) % 0x8000_0000 == (x * a[0] + y * b[0]) % 0x8000_0000,
{
    lemma_zint_front(a);
    lemma_zint_front(b);
    vstd::arithmetic::power2::lemma2_to64();
    let ra = zint_value(a.drop_first()) as int;
    let rb = zint_value(b.drop_first()) as int;
    let k = ra * x + rb * y;
    assert(co_combo(a, b, x, y) == 0x8000_0000 * k + (a[0] * x + b[0] * y)) by (nonlinear_arith)
        requires
            zint_value(a) == a[0] + 0x8000_0000 * ra,
            zint_value(b) == b[0] + 0x8000_0000 * rb,
            k == ra * x + rb * y,
            co_combo(a, b, x, y) == zint_value(a) * x + zint_value(b) * y,
    ;
    vstd::arithmetic::div_mod::lemma_mod_multiples_vanish(k, a[0] * x + b[0] * y, 0x8000_0000);
    assert(a[0] * x + b[0] * y == x * a[0] + y * b[0]) by (nonlinear_arith);
}

/// One reduction step of the extended binary GCD keeps `x u - y v = a` modulo `x y`: `a`
/// becomes `(a fa + b fb) / 2^31` exactly, while `u` and `v` become the same combinations
/// of theirs divided by `2^31` modulo `y` and `x`.
proof fn lemma_bezout_step(
    x: int,
    y: int,
    a: int,
    b: int,
    u0: int,
    u1: int,
    v0: int,
    v1: int,
    fa: int,
    fb: int,
    a2: int,
    u2: int,
    v2: int,
)
    requires
        x > 0,
        y > 0,
        (x * y) % 2 == 1,
        (x * u0 - y * v0 - a) % (x * y) == 0,
        (x * u1 - y * v1 - b) % (x * y) == 0,
        a2 * 0x8000_0000 == a * fa + b * fb,
        (u2 * 0x8000_0000 - (u0 * fa + u1 * fb)) % y == 0,
        (v2 * 0x8000_0000 - (v0 * fa + v1 * fb)) % x == 0,
    ensures
        (x * u2 - y * v2 - a2) % (x * y) == 0,
{
    let m = x * y;
    assert(m > 0) by (nonlinear_arith)
        requires
            x > 0,
            y > 0,
            m == x * y,
    ;
    let e0 = x * u0 - y * v0 - a;
    let e1 = x * u1 - y * v1 - b;
    let e2 = u2 * 0x8000_0000 - (u0 * fa + u1 * fb);
    let e3 = v2 * 0x8000_0000 - (v0 * fa + v1 * fb);
    vstd::arithmetic::div_mod::lemma_fundamental_div_mod(e0, m);
    vstd::arithmetic::div_mod::lemma_fundamental_div_mod(e1, m);
    vstd::arithmetic::div_mod::lemma_fundamental_div_mod(e2, y);
    vstd::arithmetic::div_mod::lemma_fundamental_div_mod(e3, x);
    let k0 = e0 / m;
    let k1 = e1 / m;
    let k2 = e2 / y;
    let k3 = e3 / x;
    let d = x * u2 - y * v2 - a2;
    let kk = fa * k0 + fb * k1 + k2 - k3;
    let cu = u2 * 0x8000_0000;
    let cv = v2 * 0x8000_0000;
    assert(d * 0x8000_0000 == x * cu - y * cv - a2 * 0x8000_0000) by (nonlinear_arith)
        requires
            d == x * u2 - y * v2 - a2,
            cu == u2 * 0x8000_0000,
            cv == v2 * 0x8000_0000,
    ;
    assert(cu == u0 * fa + u1 * fb + y * k2);
    assert(cv == v0 * fa + v1 * fb + x * k3);
    let xu0 = x * u0;
    let xu1 = x * u1;
    let yv0 = y * v0;
    let yv1 = y * v1;
    assert(x * cu == fa * xu0 + fb * xu1 + (x * y) * k2) by {
        vstd::arithmetic::mul::lemma_mul_is_distributive_add(x, u0 * fa + u1 * fb, y * k2);
        vstd::arithmetic::mul::lemma_mul_is_distributive_add(x, u0 * fa, u1 * fb);
        vstd::arithmetic::mul::lemma_mul_is_associative(x, y, k2);
        vstd::arithmetic::mul::lemma_mul_is_associative(x, u0, fa);
        vstd::arithmetic::mul::lemma_mul_is_associative(x, u1, fb);
        vstd::arithmetic::mul::lemma_mul_is_commutative(xu0, fa);
        vstd::arithmetic::mul::lemma_mul_is_commutative(xu1, fb);
    }
    assert(y * cv == fa * yv0 + fb * yv1 + (x * y) * k3) by {
        vstd::arithmetic::mul::lemma_mul_is_distributive_add(y, v0 * fa + v1 * fb, x * k3);
        vstd::arithmetic::mul::lemma_mul_is_distributive_add(y, v0 * fa, v1 * fb);
        vstd::arithmetic::mul::lemma_mul_is_associative(y, x, k3);
        vstd::arithmetic::mul::lemma_mul_is_commutative(y, x);
        vstd::arithmetic::mul::lemma_mul_is_associative(y, v0, fa);
        vstd::arithmetic::mul::lemma_mul_is_associative(y, v1, fb);
        vstd::arithmetic::mul::lemma_mul_is_commutative(yv0, fa);
        vstd::arithmetic::mul::lemma_mul_is_commutative(yv1, fb);
    }
    assert(fa * e0 == fa * xu0 - fa * yv0 - a * fa) by (nonlinear_arith)
        requires
            e0 == xu0 - yv0 - a,
    ;
    assert(fb * e1 == fb * xu1 - fb * yv1 - b * fb) by (nonlinear_arith)
        requires
            e1 == xu1 - yv1 - b,
    ;
    assert((x * y) * k2 - (x * y) * k3 == (x * y) * (k2 - k3)) by (nonlinear_arith);
    assert(x * cu - y * cv - (a * fa + b * fb) == fa * e0 + fb * e1 + (x * y) * (k2 - k3));
    assert(fa * e0 + fb * e1 == m * (fa * k0 + fb * k1)) by (nonlinear_arith)
        requires
            e0 == m * k0,
            e1 == m * k1,
    ;
    assert(m * (fa * k0 + fb * k1) + m * (k2 - k3) == m * kk) by (nonlinear_arith)
        requires
            kk == fa * k0 + fb * k1 + k2 - k3,
    ;
    assert(d * 0x8000_0000 == m * kk);
    lemma_mod_multiples_basic(kk, m);
    assert(kk * m == m * kk) by (nonlinear_arith);
    vstd::arithmetic::power2::lemma2_to64();
    vstd::arithmetic::div_mod::lemma_small_mod(0, m as nat);
    assert(0 * pow2(31) == 0);
    lemma_cancel_pow2(d, 0, m, 31);
}

/// A pair of limbs counts as nonzero for the high words: their OR lies in `[1, 2^31]`,
/// which for 31-bit limbs is being nonzero.
pub open spec fn limbs_live(aw: u32, bw: u32) -> bool {
    1 <= (aw | bw) <= 0x8000_0000
}

/// The highest place below `n` where the limbs of `a` and `b` count as nonzero, or -1.
pub open spec fn top_live(a: Seq<u32>, b: Seq<u32>, n: int) -> int
    decreases n,
{
    if n <= 0 {
        -1
    } else if limbs_live(a[n - 1], b[n - 1]) {
        n - 1
    } else {
        top_live(a, b, n - 1)
    }
}

/// The high word of `a` taken at place `t`: its limbs `t` and `t - 1` side by side, or its
/// lowest limb alone when `t` is below one.
pub open spec fn top_word(a: Seq<u32>, t: int) -> int {
    if t >= 1 {
        a[t] * 0x8000_0000 + a[t - 1]
    } else if a.len() > 0 {
        a[0] as int
    } else {
        0
    }
}

/// The highest nonzero place lies below `n`, holds nonzero limbs, and has none above it.
proof fn lemma_top_live(a: Seq<u32>, b: Seq<u32>, n: int)
    ensures
        -1 <= top_live(a, b, n) < if n > 0 {
            n
        } else {
            0
        },
        top_live(a, b, n) >= 0 ==> limbs_live(a[top_live(a, b, n)], b[top_live(a, b, n)]),
        forall|t: int| top_live(a, b, n) < t < n ==> !limbs_live(#[trigger] a[t], b[t]),
    decreases n,
{
    if n > 0 && !limbs_live(a[n - 1], b[n - 1]) {
        lemma_top_live(a, b, n - 1);
    }
}

/// The bits of the high-word scan: the mask that tells a nonzero pair of limbs, picking a
/// word by a mask, and putting the two top limbs side by side.
proof fn lemma_top_word_bits(x: u32, s: u32, w: u32, c: u32, m: u32, a0: u32, a1: u32)
    by (bit_vector)
    requires
        c == 0u32 || c == 0xffff_ffffu32,
    ensures
        (x.wrapping_add(0x7fff_ffffu32) >> 31u32).wrapping_sub(1u32) == (if 1u32 <= x && x <= 0x8000_0000u32 {
            0u32
        } else {
            0xffff_ffffu32
        }),
        s ^ ((s ^ w) & c) == (if c == 0xffff_ffffu32 {
            w
        } else {
            s
        }),
        (c & m) == (if c == 0xffff_ffffu32 {
            m
        } else {
            0u32
        }),
        (a1 | (a0 & c)) == (if c == 0xffff_ffffu32 {
            a1 | a0
        } else {
            a1
        }),
        (a0 & !c) == (if c == 0xffff_ffffu32 {
            0u32
        } else {
            a0
        }),
        (a0 | a0) == a0,
        ((a0 as u64) << 31u64).wrapping_add(a1 as u64) == a0 as u64 * 0x8000_0000u64 + a1 as u64,
{
}

/// The high words that guide one round of the extended binary GCD: for the highest place
/// where `a` or `b` has a nonzero limb, the limbs there and just below it, side by side,
/// of `a` and of `b` (their lowest limbs when that place is the lowest, or there is none).
fn bezout_top_words(a: &[u32], b: &[u32]) -> (r: (u64, u64))
    requires
        a@.len() == b@.len(),
    ensures
        r.0 as int == top_word(a@, top_live(a@, b@, a@.len() as int)),
        r.1 as int == top_word(b@, top_live(a@, b@, a@.len() as int)),
{
    let mut c0: u32 = 0xffff_ffff;
    let mut c1: u32 = 0xffff_ffff;
    let mut a0: u32 = 0;
    let mut a1: u32 = 0;
    let mut b0: u32 = 0;
    let mut b1: u32 = 0;
    let len = a.len();
    let ghost jt = top_live(a@, b@, len as int);
    proof {
        lemma_top_live(a@, b@, len as int);
    }
    let mut j: usize = len;
    while j > 0
        invariant
            j <= len,
            len == a@.len(),
            a@.len() == b@.len(),
            jt == top_live(a@, b@, len as int),
            -1 <= jt < len,
            jt >= 0 ==> limbs_live(a@[jt], b@[jt]),
            forall|t: int| jt < t < len ==> !limbs_live(#[trigger] a@[t], b@[t]),
            c0 == (if jt < j {
                0xffff_ffffu32
            } else {
                0u32
            }),
            c1 == (if jt < j + 1 {
                0xffff_ffffu32
            } else {
                0u32
            }),
            a0 as int == (if j == len {
                0
            } else if jt < j {
                a@[j as int] as int
            } else {
                a@[jt] as int
            }),
            b0 as int == (if j == len {
                0
            } else if jt < j {
                b@[j as int] as int
            } else {
                b@[jt] as int
            }),
            a1 as int == (if j == len {
                0
            } else if jt < j + 1 {
                a@[j as int] as int
            } else {
                a@[jt - 1] as int
            }),
            b1 as int == (if j == len {
                0
            } else if jt < j + 1 {
                b@[j as int] as int
            } else {
                b@[jt - 1] as int
            }),
        decreases j,
    {
        j = j - 1;
        let aw = a[j];
        let bw = b[j];
        proof {
            lemma_top_word_bits(aw | bw, a0, aw, c0, 0, 0, 0);
            lemma_top_word_bits(0, a1, aw, c1, 0, 0, 0);
            lemma_top_word_bits(0, b0, bw, c0, 0, 0, 0);
            lemma_top_word_bits(0, b1, bw, c1, 0, 0, 0);
            lemma_top_word_bits(
                0,
                0,
                0,
                c0,
                ((aw | bw).wrapping_add(0x7fff_ffff) >> 31u32).wrapping_sub(1),
                0,
                0,
            );
            if jt < j + 1 {
                if jt < j {
                    assert(!limbs_live(a@[j as int], b@[j as int]));
                }
            }
        }
        a0 = a0 ^ ((a0 ^ aw) & c0);
        a1 = a1 ^ ((a1 ^ aw) & c1);
        b0 = b0 ^ ((b0 ^ bw) & c0);
        b1 = b1 ^ ((b1 ^ bw) & c1);
        c1 = c0;
        c0 = c0 & (((aw | bw).wrapping_add(0x7fff_ffff) >> 31u32).wrapping_sub(1));
    }
    proof {
        lemma_top_word_bits(0, 0, 0, c1, 0, a0, a1);
        lemma_top_word_bits(0, 0, 0, c1, 0, b0, b1);
    }
    a1 = a1 | (a0 & c1);
    a0 = a0 & !c1;
    b1 = b1 | (b0 & c1);
    b0 = b0 & !c1;
    proof {
        lemma_top_word_bits(0, 0, 0, 0, 0, a0, a1);
        lemma_top_word_bits(0, 0, 0, 0, 0, b0, b1);
    }
    let a_hi = ((a0 as u64) << 31u64).wrapping_add(a1 as u64);
    let b_hi = ((b0 as u64) << 31u64).wrapping_add(b1 as u64);
    (a_hi, b_hi)
}

/// The bits of the final test of the extended binary GCD.
proof fn lemma_bezout_bits(rc: u32, w: u32, x0: u32, y0: u32)
    by (bit_vector)
    ensures
        ((rc | w) == 0u32) == (rc == 0u32 && w == 0u32),
        ((w ^ 1u32) == 0u32) == (w == 1u32),
        (rc < 0x8000_0000u32 && w < 0x8000_0000u32) ==> (rc | w) < 0x8000_0000u32,
        (x0 % 2u32 == 1u32 && y0 % 2u32 == 1u32) ==> (1u32.wrapping_sub((rc | 0u32.wrapping_sub(rc)) >> 31u32) & x0
            & y0) == (if rc == 0u32 {
            1u32
        } else {
            0u32
        }),
{
}

/// One side of a round of the extended binary GCD: with the factor pair `(p, q)` negated
/// when it makes the combination negative, the new `a2`, `u2` and `v2` keep
/// `x u - y v = a` modulo `x y`, and `a2` stays below `h`.
proof fn lemma_bezout_side(
    x: int,
    y: int,
    a: int,
    b: int,
    u0: int,
    u1: int,
    v0: int,
    v1: int,
    p: i64,
    q: i64,
    fp: i64,
    fq: i64,
    a2: int,
    u2: int,
    v2: int,
    h: int,
)
    requires
        x > 0,
        y > 0,
        (x * y) % 2 == 1,
        0 <= a < h,
        0 <= b < h,
        factors_ok(p, q),
        (x * u0 - y * v0 - a) % (x * y) == 0,
        (x * u1 - y * v1 - b) % (x * y) == 0,
        (a * p + b * q) % 0x8000_0000 == 0,
        a2 == abs_int((a * p + b * q) / 0x8000_0000),
        fp == (if a * p + b * q < 0 {
            -p
        } else {
            p as int
        }),
        fq == (if a * p + b * q < 0 {
            -q
        } else {
            q as int
        }),
        (u2 * 0x8000_0000 - (u0 * fp + u1 * fq)) % y == 0,
        (v2 * 0x8000_0000 - (v0 * fp + v1 * fq)) % x == 0,
    ensures
        (x * u2 - y * v2 - a2) % (x * y) == 0,
        0 <= a2 < h,
{
    let c = a * p + b * q;
    lemma_combo_size(a, b, p, q, h);
    vstd::arithmetic::div_mod::lemma_fundamental_div_mod(c, 0x8000_0000);
    let t = c / 0x8000_0000;
    assert(c == 0x8000_0000 * t);
    if c < 0 {
        assert(a * fp + b * fq == -c) by (nonlinear_arith)
            requires
                fp == -p,
                fq == -q,
                c == a * p + b * q,
        ;
    }
    assert(a2 * 0x8000_0000 == a * fp + b * fq);
    lemma_bezout_step(x, y, a, b, u0, u1, v0, v1, fp as int, fq as int, a2, u2, v2);
}

/// Solves `x u - y v = 1` for odd `x` and `y`, both below `2^(31 len - 1)`, with
/// `0 <= u < y` and `0 <= v < x`, by the extended binary GCD. Returns 1 on success; 0 when
/// `x` or `y` is even (or empty) or when they are not coprime, and then `u` and `v` hold
/// nothing of use. Odd coprime numbers below `2^62` (all those on one or two limbs)
/// always succeed, whatever the count of limbs.
#[verifier::rlimit(100)]
#[verifier::spinoff_prover]
pub fn zint_bezout(u: &mut [u32], v: &mut [u32], x: &[u32], y: &[u32]) -> (r: i32)
    requires
        old(u)@.len() == x@.len(),
        old(v)@.len() == x@.len(),
        y@.len() == x@.len(),
        x@.len() < 0x400_0000,
        limbs_ok(x@),
        limbs_ok(y@),
        x@.len() > 0 ==> x@.last() < 0x4000_0000 && y@.last() < 0x4000_0000,
    ensures
        final(u)@.len() == old(u)@.len(),
        final(v)@.len() == old(v)@.len(),
        r == 0 || r == 1,
        x@.len() == 0 || x@[0] % 2 == 0 || y@[0] % 2 == 0 ==> r == 0,
        r == 1 ==> ({
            &&& limbs_ok(final(u)@)
            &&& limbs_ok(final(v)@)
            &&& zint_value(final(u)@) < zint_value(y@)
            &&& zint_value(final(v)@) < zint_value(x@)
            &&& (zint_value(x@) * zint_value(final(u)@) - zint_value(y@) * zint_value(final(v)@) - 1) % (
            zint_value(x@) * zint_value(y@)) as int == 0
            &&& zint_value(y@) > 1 ==> zint_value(x@) * zint_value(final(u)@) - zint_value(y@) * zint_value(final(v)@)
                == 1
        }),
        x@.len() > 0 && x@[0] % 2 == 1 && y@[0] % 2 == 1 && zint_value(x@) < pow2(62) && zint_value(y@)
            < pow2(62) && coprime(zint_value(x@) as int, zint_value(y@) as int) ==> r == 1,
{
    let len = x.len();
    if len == 0 {
        return 0;
    }
    if x[0] % 2 == 0 || y[0] % 2 == 0 {
        return 0;
    }
    let x0i = modp_ninv31(x[0]);
    let y0i = modp_ninv31(y[0]);
    let mut a = read_limbs(x, 0, len);
    let mut b = read_limbs(y, 0, len);
    let mut u0: Vec<u32> = Vec::new();
    let mut v0: Vec<u32> = Vec::new();
    u0.push(1);
    v0.push(0);
    let mut k: usize = 1;
    while k < len
        invariant
            1 <= k <= len,
            u0@.len() == k,
            v0@.len() == k,
            u0@[0] == 1,
            forall|i: int| 1 <= i < k ==> #[trigger] u0@[i] == 0,
            forall|i: int| 0 <= i < k ==> #[trigger] v0@[i] == 0,
        decreases len - k,
    {
        u0.push(0);
        v0.push(0);
        k = k + 1;
    }
    let mut u1 = read_limbs(y, 0, len);
    let mut v1 = read_limbs(x, 0, len);
    v1.set(0, x[0] - 1);
    let ghost xv = zint_value(x@) as int;
    let ghost yv = zint_value(y@) as int;
    let ghost h = pow2((31 * len - 1) as nat) as int;
    assert(a@ =~= x@);
    assert(b@ =~= y@);
    assert(u1@ =~= y@);
    proof {
        lemma_zint_parity(x@);
        lemma_zint_parity(y@);
        lemma_odd_product(xv, yv);
        lemma_zint_half(x@);
        lemma_zint_half(y@);
        lemma_zint_front(u0@);
        assert forall|i: int| 0 <= i < u0@.drop_first().len() implies #[trigger] u0@.drop_first()[i] == 0 by {
            assert(u0@[i + 1] == 0);
        }
        lemma_zint_zeros(u0@.drop_first());
        assert(pow2(31) * 0 == 0);
        lemma_zint_zeros(v0@);
        lemma_zint_front(v1@);
        lemma_zint_front(x@);
        assert(v1@.drop_first() =~= x@.drop_first());
        assert(zint_value(v1@) == xv - 1);
        assert(zint_value(u0@) == 1);
        vstd::arithmetic::div_mod::lemma_small_mod(0, (xv * yv) as nat);
        assert(xv * 1 - yv * 0 - xv == 0);
        assert(xv * yv - yv * (xv - 1) - yv == 0) by (nonlinear_arith);
        assert(limbs_ok(v1@)) by {
            assert forall|i: int| 0 <= i < v1@.len() implies #[trigger] v1@[i] < 0x8000_0000 by {
                assert(x@[i] < 0x8000_0000);
            }
        }
        assert(limbs_ok(u0@));
        assert(limbs_ok(v0@));
    }
    let mut num: u32 = 62 * (len as u32) + 30;
    let ghost num_init = num;
    let ghost mut started = false;
    let ghost small = xv < pow2(62) && yv < pow2(62);
    let ghost mut rounds: nat = 0;
    proof {
        lemma_zint_parity(x@);
        vstd::arithmetic::power2::lemma2_to64();
        assert(xv * yv * pow2(0) <= xv * yv);
        assert(gcd_progress(xv, yv, xv, yv, 0));
    }
    while num >= 30
        invariant
            len == x@.len(),
            len == y@.len(),
            len > 0,
            a@.len() == len,
            b@.len() == len,
            u0@.len() == len,
            u1@.len() == len,
            v0@.len() == len,
            v1@.len() == len,
            limbs_ok(x@),
            limbs_ok(y@),
            x@.last() < 0x4000_0000,
            y@.last() < 0x4000_0000,
            is_ninv31(x@[0], x0i),
            is_ninv31(y@[0], y0i),
            limbs_ok(a@),
            limbs_ok(b@),
            limbs_ok(u0@),
            limbs_ok(u1@),
            limbs_ok(v0@),
            limbs_ok(v1@),
            xv == zint_value(x@),
            yv == zint_value(y@),
            xv > 0,
            yv > 0,
            (xv * yv) % 2 == 1,
            h == pow2((31 * len - 1) as nat),
            2 * h == pow2((31 * len) as nat),
            zint_value(a@) < h,
            zint_value(b@) < h,
            zint_value(u0@) <= yv,
            zint_value(u1@) <= yv,
            zint_value(v0@) <= xv,
            zint_value(v1@) <= xv,
            started ==> zint_value(u0@) < yv && zint_value(v0@) < xv,
            !started ==> num == num_init,
            num_init >= 30,
            (xv * zint_value(u0@) - yv * zint_value(v0@) - zint_value(a@)) % (xv * yv) == 0,
            (xv * zint_value(u1@) - yv * zint_value(v1@) - zint_value(b@)) % (xv * yv) == 0,
            small == (xv < pow2(62) && yv < pow2(62)),
            num + 30 * rounds == num_init,
            small ==> gcd_progress(zint_value(a@) as int, zint_value(b@) as int, xv, yv, 31 * rounds),
        decreases num,
    {
        let (a_hi, b_hi) = bezout_top_words(a.as_slice(), b.as_slice());
        let (pa, pb, qa, qb) = bezout_factors(a[0], b[0], a_hi, b_hi);
        let ghost (sa, sb, su0, su1, sv0, sv1) = (a@, b@, u0@, u1@, v0@, v1@);
        let ghost av = zint_value(a@) as int;
        let ghost bv = zint_value(b@) as int;
        proof {
            lemma_combo_low(a@, b@, pa, pb);
            lemma_combo_low(a@, b@, qa, qb);
            lemma_combo_size(av, bv, pa, pb, h);
            lemma_combo_size(av, bv, qa, qb, h);
            assert(-0x4000_0000 * pow2((31 * len) as nat) == -0x8000_0000 * h);
        }
        let rr = zint_co_reduce(a.as_mut_slice(), b.as_mut_slice(), pa, pb, qa, qb);
        let ra = rr % 2;
        let rb = rr / 2;
        let pa2 = pa + pa;
        let pb2 = pb + pb;
        let qa2 = qa + qa;
        let qb2 = qb + qb;
        proof {
            lemma_gcd_step_bits(0, 0, 0, 0, 0, pa2, ra);
            lemma_gcd_step_bits(0, 0, 0, 0, 0, pb2, ra);
            lemma_gcd_step_bits(0, 0, 0, 0, 0, qa2, rb);
            lemma_gcd_step_bits(0, 0, 0, 0, 0, qb2, rb);
        }
        let fpa = pa - (pa2 & -(ra as i64));
        let fpb = pb - (pb2 & -(ra as i64));
        let fqa = qa - (qa2 & -(rb as i64));
        let fqb = qb - (qb2 & -(rb as i64));
        zint_co_reduce_mod(u0.as_mut_slice(), u1.as_mut_slice(), y, y0i, fpa, fpb, fqa, fqb);
        zint_co_reduce_mod(v0.as_mut_slice(), v1.as_mut_slice(), x, x0i, fpa, fpb, fqa, fqb);
        proof {
            lemma_bezout_side(
                xv,
                yv,
                av,
                bv,
                zint_value(su0) as int,
                zint_value(su1) as int,
                zint_value(sv0) as int,
                zint_value(sv1) as int,
                pa,
                pb,
                fpa,
                fpb,
                zint_value(a@) as int,
                zint_value(u0@) as int,
                zint_value(v0@) as int,
                h,
            );
            lemma_bezout_side(
                xv,
                yv,
                av,
                bv,
                zint_value(su0) as int,
                zint_value(su1) as int,
                zint_value(sv0) as int,
                zint_value(sv1) as int,
                qa,
                qb,
                fqa,
                fqb,
                zint_value(b@) as int,
                zint_value(u1@) as int,
                zint_value(v1@) as int,
                h,
            );
            if small {
                lemma_bezout_round_exact(sa, sb, a_hi, b_hi, pa, pb, qa, qb, xv, yv, 31 * rounds);
            }
            started = true;
            rounds = rounds + 1;
        }
        num = num - 30;
    }
    let mut rc: u32 = a[0] ^ 1;
    proof {
        lemma_bezout_bits(0, a[0], 0, 0);
    }
    let mut j: usize = 1;
    while j < len
        invariant
            1 <= j <= len,
            a@.len() == len,
            (rc == 0) == (a@[0] == 1 && forall|t: int| 1 <= t < j ==> #[trigger] a@[t] == 0),
        decreases len - j,
    {
        proof {
            lemma_bezout_bits(rc, a[j as int], 0, 0);
        }
        rc = rc | a[j];
        proof {
            if rc == 0 {
                assert forall|t: int| 1 <= t < j + 1 implies #[trigger] a@[t] == 0 by {
                    if t < j {
                    }
                }
            }
        }
        j = j + 1;
    }
    let res = 1u32.wrapping_sub((rc | 0u32.wrapping_sub(rc)) >> 31u32) & x[0] & y[0];
    proof {
        if small && coprime(xv, yv) {
            lemma_zint_half(x@);
            lemma_zint_half(y@);
            lemma_bezout_rounds(len as nat, rounds, xv, yv);
            lemma_bezout_done(zint_value(a@) as int, zint_value(b@) as int, xv, yv, 31 * rounds);
            lemma_zint_one(a@);
            assert(a@[0] == 1 && forall|t: int| 1 <= t < len ==> #[trigger] a@[t] == 0);
        }
        lemma_bezout_bits(rc, 0, x[0], y[0]);
        if rc == 0 {
            lemma_zint_front(a@);
            lemma_zint_zeros(a@.drop_first());
            assert(zint_value(a@) == 1);
        }
    }
    write_limbs(u, 0, u0.as_slice());
    write_limbs(v, 0, v0.as_slice());
    assert(u@ =~= u0@) by {
        assert(u@.subrange(0, len as int) == u0@);
    }
    assert(v@ =~= v0@) by {
        assert(v@.subrange(0, len as int) == v0@);
    }
    proof {
        if rc == 0 && yv > 1 {
            lemma_bezout_exact(xv, yv, zint_value(u0@) as int, zint_value(v0@) as int);
        }
    }
    res as i32
}

/// `d` divides `n`.
pub open spec fn divides(d: int, n: int) -> bool {
    n % d == 0
}

/// No number above one divides both `x` and `y`.
pub open spec fn coprime(x: int, y: int) -> bool {
    forall|d: int| #![trigger divides(d, x), divides(d, y)] d > 1 ==> !(divides(d, x) && divides(d, y))
}

/// One step of the binary GCD on the numbers themselves: an even `a` halves; with both
/// odd, `a` takes `b` off and halves when `b` is below it, else `b` takes `a` off and
/// halves; an even `b` halves.
pub open spec fn gcd_exact_step(ab: (int, int)) -> (int, int) {
    let (a, b) = ab;
    if a % 2 == 0 {
        (a / 2, b)
    } else if b % 2 == 1 && b < a {
        ((a - b) / 2, b)
    } else if b % 2 == 1 {
        (a, (b - a) / 2)
    } else {
        (a, b / 2)
    }
}

/// The first `n` steps of the binary GCD on the numbers themselves.
pub open spec fn gcd_exact_run(ab: (int, int), n: nat) -> (int, int)
    decreases n,
{
    if n == 0 {
        ab
    } else {
        gcd_exact_step(gcd_exact_run(ab, (n - 1) as nat))
    }
}

/// Where the binary GCD of `x` and `y` stands after `k` steps at `(a, b)`: `a` is
/// positive, neither has grown, one of them is odd, what divides both divides `x` and
/// `y`, and each step has at least halved the product.
pub open spec fn gcd_progress(a: int, b: int, x: int, y: int, k: nat) -> bool {
    &&& 1 <= a <= x
    &&& 0 <= b <= y
    &&& (a % 2 == 1 || b % 2 == 1)
    &&& forall|d: int|
        #![trigger divides(d, a), divides(d, b)]
        d > 1 && divides(d, a) && divides(d, b) ==> divides(d, x) && divides(d, y)
    &&& a * b * pow2(k) <= x * y
}

/// What divides `p` and `q` divides `cp p + cq q`.
proof fn lemma_divides_combo(d: int, p: int, q: int, cp: int, cq: int)
    requires
        d > 1,
        divides(d, p),
        divides(d, q),
    ensures
        divides(d, cp * p + cq * q),
{
    vstd::arithmetic::div_mod::lemma_fundamental_div_mod(p, d);
    vstd::arithmetic::div_mod::lemma_fundamental_div_mod(q, d);
    let k = cp * (p / d) + cq * (q / d);
    assert(cp * p + cq * q == d * k + 0) by (nonlinear_arith)
        requires
            p == d * (p / d) + p % d,
            q == d * (q / d) + q % d,
            p % d == 0,
            q % d == 0,
            k == cp * (p / d) + cq * (q / d),
    ;
    vstd::arithmetic::div_mod::lemma_mod_multiples_vanish(k, 0, d);
}

/// A step of the binary GCD keeps its progress and counts one more halving.
proof fn lemma_gcd_exact_step(a: int, b: int, x: int, y: int, k: nat)
    requires
        gcd_progress(a, b, x, y, k),
    ensures
        gcd_progress(gcd_exact_step((a, b)).0, gcd_exact_step((a, b)).1, x, y, k + 1),
{
    let (a2, b2) = gcd_exact_step((a, b));
    let pk = pow2(k);
    vstd::arithmetic::power2::lemma_pow2_unfold(k + 1);
    vstd::arithmetic::power2::lemma_pow2_pos(k);
    assert(a2 * b2 * 2 <= a * b) by {
        if a % 2 == 0 {
            assert(a2 * b2 * 2 == a * b) by (nonlinear_arith)
                requires
                    a == 2 * a2,
                    b2 == b,
            ;
        } else if b % 2 == 1 && b < a {
            assert(a2 * b2 * 2 <= a * b) by (nonlinear_arith)
                requires
                    a - b == 2 * a2,
                    b2 == b,
                    b >= 0,
            ;
        } else if b % 2 == 1 {
            assert(a2 * b2 * 2 <= a * b) by (nonlinear_arith)
                requires
                    b - a == 2 * b2,
                    a2 == a,
                    a >= 0,
            ;
        } else {
            assert(a2 * b2 * 2 == a * b) by (nonlinear_arith)
                requires
                    b == 2 * b2,
                    a2 == a,
            ;
        }
    }
    assert(a2 * b2 * pow2(k + 1) <= x * y) by (nonlinear_arith)
        requires
            a2 * b2 * 2 <= a * b,
            a * b * pk <= x * y,
            pow2(k + 1) == 2 * pk,
            pk > 0,
    ;
    assert forall|d: int|
        #![trigger divides(d, a2), divides(d, b2)]
        d > 1 && divides(d, a2) && divides(d, b2) implies divides(d, x) && divides(d, y) by {
        if a % 2 == 0 {
            lemma_divides_combo(d, a2, b2, 2, 0);
            assert(2 * a2 + 0 * b2 == a);
        } else if b % 2 == 1 && b < a {
            lemma_divides_combo(d, a2, b2, 2, 1);
            assert(2 * a2 + 1 * b2 == a);
        } else if b % 2 == 1 {
            lemma_divides_combo(d, a2, b2, 1, 2);
            assert(1 * a2 + 2 * b2 == b);
        } else {
            lemma_divides_combo(d, a2, b2, 0, 2);
            assert(0 * a2 + 2 * b2 == b);
        }
        assert(divides(d, a) && divides(d, b));
    }
}

/// Steps of the binary GCD keep its progress, one halving each.
proof fn lemma_gcd_exact_run(a: int, b: int, x: int, y: int, k: nat, n: nat)
    requires
        gcd_progress(a, b, x, y, k),
    ensures
        gcd_progress(gcd_exact_run((a, b), n).0, gcd_exact_run((a, b), n).1, x, y, k + n),
    decreases n,
{
    if n > 0 {
        lemma_gcd_exact_run(a, b, x, y, k, (n - 1) as nat);
        let e = gcd_exact_run((a, b), (n - 1) as nat);
        lemma_gcd_exact_step(e.0, e.1, x, y, (k + n - 1) as nat);
    }
}

/// Two numbers congruent modulo `m` give congruent combinations.
proof fn lemma_lin_mod(x: int, y: int, x2: int, y2: int, cx: int, cy: int, m: int)
    requires
        m > 0,
        x % m == x2 % m,
        y % m == y2 % m,
    ensures
        (cx * x + cy * y) % m == (cx * x2 + cy * y2) % m,
{
    vstd::arithmetic::div_mod::lemma_fundamental_div_mod(x, m);
    vstd::arithmetic::div_mod::lemma_fundamental_div_mod(x2, m);
    vstd::arithmetic::div_mod::lemma_fundamental_div_mod(y, m);
    vstd::arithmetic::div_mod::lemma_fundamental_div_mod(y2, m);
    let dx = x / m - x2 / m;
    let dy = y / m - y2 / m;
    assert(x - x2 == m * dx) by (nonlinear_arith)
        requires
            x == m * (x / m) + x % m,
            x2 == m * (x2 / m) + x2 % m,
            x % m == x2 % m,
            dx == x / m - x2 / m,
    ;
    assert(y - y2 == m * dy) by (nonlinear_arith)
        requires
            y == m * (y / m) + y % m,
            y2 == m * (y2 / m) + y2 % m,
            y % m == y2 % m,
            dy == y / m - y2 / m,
    ;
    let k = cx * dx + cy * dy;
    assert(cx * x + cy * y == m * k + (cx * x2 + cy * y2)) by (nonlinear_arith)
        requires
            x - x2 == m * dx,
            y - y2 == m * dy,
            k == cx * dx + cy * dy,
    ;
    vstd::arithmetic::div_mod::lemma_mod_multiples_vanish(k, cx * x2 + cy * y2, m);
}

/// A low word that agrees with `g 2^i` below bit 31 has, at bit `i < 31`, the parity of `g`.
proof fn lemma_low_bit(lo: int, g: int, i: nat)
    requires
        0 <= lo,
        i < 31,
        lo % 0x8000_0000 == (g * pow2(i)) % 0x8000_0000,
    ensures
        (lo / pow2(i) as int) % 2 == g % 2,
{
    let m = 0x8000_0000int;
    let pi = pow2(i) as int;
    let pr = pow2((30 - i) as nat) as int;
    vstd::arithmetic::power2::lemma2_to64();
    vstd::arithmetic::power2::lemma_pow2_adds(i, (30 - i) as nat);
    vstd::arithmetic::power2::lemma_pow2_pos(i);
    assert(pi * pr * 2 == m);
    vstd::arithmetic::div_mod::lemma_fundamental_div_mod(lo, m);
    vstd::arithmetic::div_mod::lemma_fundamental_div_mod(g * pi, m);
    let t = lo / m - (g * pi) / m;
    assert(lo == pi * (g + 2 * (pr * t))) by (nonlinear_arith)
        requires
            lo == m * (lo / m) + lo % m,
            g * pi == m * ((g * pi) / m) + (g * pi) % m,
            lo % m == (g * pi) % m,
            t == lo / m - (g * pi) / m,
            m == pi * pr * 2,
    ;
    vstd::arithmetic::div_mod::lemma_div_multiples_vanish(g + 2 * (pr * t), pi);
    vstd::arithmetic::div_mod::lemma_mod_multiples_vanish(pr * t, g, 2);
}

/// A step of the binary GCD on low words, started from the numbers themselves as their
/// high words, is the step on the numbers: the high words stay the numbers, the low words
/// agree with them times `2^i` below bit 31, and the factors combine the starting numbers
/// into them times `2^i`.
proof fn lemma_gcd_step_exact(s: GcdState, i: nat, x: int, y: int)
    requires
        i < 31,
        s.0 as int % 0x8000_0000 == (s.2 * pow2(i)) % 0x8000_0000,
        s.1 as int % 0x8000_0000 == (s.3 * pow2(i)) % 0x8000_0000,
        s.4 * x + s.5 * y == s.2 * pow2(i),
        s.6 * x + s.7 * y == s.3 * pow2(i),
    ensures
        ({
            let t = gcd_step(s, i);
            let e = gcd_exact_step((s.2 as int, s.3 as int));
            &&& t.2 as int == e.0
            &&& t.3 as int == e.1
            &&& t.0 as int % 0x8000_0000 == (e.0 * pow2(i + 1)) % 0x8000_0000
            &&& t.1 as int % 0x8000_0000 == (e.1 * pow2(i + 1)) % 0x8000_0000
            &&& t.4 * x + t.5 * y == e.0 * pow2(i + 1)
            &&& t.6 * x + t.7 * y == e.1 * pow2(i + 1)
        }),
{
    let (a_lo, b_lo, a_hi, b_hi, pa, pb, qa, qb) = s;
    let ga = a_hi as int;
    let gb = b_hi as int;
    let m = 0x8000_0000int;
    let w = 0x1_0000_0000int;
    let pi = pow2(i) as int;
    vstd::arithmetic::power2::lemma2_to64();
    vstd::arithmetic::power2::lemma_pow2_unfold(i + 1);
    let p2 = pow2(i + 1) as int;
    assert(p2 == 2 * pi);
    lemma_low_bit(a_lo as int, ga, i);
    lemma_low_bit(b_lo as int, gb, i);
    assert(w == m * 2);
    let t = gcd_step(s, i);
    let e = gcd_exact_step((ga, gb));
    // the low words: a combination of the old ones, taken modulo 2^32
    let (cax, cay, cbx, cby) = if ga % 2 == 0 {
        (1int, 0int, 0int, 2int)
    } else if gb % 2 == 1 && gb < ga {
        (1int, -1int, 0int, 2int)
    } else if gb % 2 == 1 {
        (2int, 0int, -1int, 1int)
    } else {
        (2int, 0int, 0int, 1int)
    };
    let na = cax * a_lo + cay * b_lo;
    let nb = cbx * a_lo + cby * b_lo;
    assert(e.0 * p2 == cax * (ga * pi) + cay * (gb * pi)) by (nonlinear_arith)
        requires
            p2 == 2 * pi,
            ga % 2 == 0 ==> e.0 == ga / 2 && cax == 1 && cay == 0,
            ga % 2 == 1 && gb % 2 == 1 && gb < ga ==> e.0 == (ga - gb) / 2 && cax == 1 && cay == -1,
            ga % 2 == 1 && !(gb % 2 == 1 && gb < ga) ==> e.0 == ga && cax == 2 && cay == 0,
            ga % 2 == 0 || ga % 2 == 1,
            gb % 2 == 0 || gb % 2 == 1,
    ;
    assert(e.1 * p2 == cbx * (ga * pi) + cby * (gb * pi)) by (nonlinear_arith)
        requires
            p2 == 2 * pi,
            ga % 2 == 0 ==> e.1 == gb && cbx == 0 && cby == 2,
            ga % 2 == 1 && gb % 2 == 1 && gb < ga ==> e.1 == gb && cbx == 0 && cby == 2,
            ga % 2 == 1 && gb % 2 == 1 && !(gb < ga) ==> e.1 == (gb - ga) / 2 && cbx == -1 && cby == 1,
            ga % 2 == 1 && gb % 2 == 0 ==> e.1 == gb / 2 && cbx == 0 && cby == 1,
            ga % 2 == 0 || ga % 2 == 1,
            gb % 2 == 0 || gb % 2 == 1,
    ;
    lemma_lin_mod(a_lo as int, b_lo as int, ga * pi, gb * pi, cax, cay, m);
    lemma_lin_mod(a_lo as int, b_lo as int, ga * pi, gb * pi, cbx, cby, m);
    vstd::arithmetic::div_mod::lemma_mod_mod(na, m, 2);
    vstd::arithmetic::div_mod::lemma_mod_mod(nb, m, 2);
    vstd::arithmetic::div_mod::lemma_mod_bound(na, w);
    vstd::arithmetic::div_mod::lemma_mod_bound(nb, w);
    vstd::arithmetic::div_mod::lemma_small_mod(a_lo as nat, w as nat);
    vstd::arithmetic::div_mod::lemma_small_mod(b_lo as nat, w as nat);
    assert(t.0 as int == na % w);
    assert(t.1 as int == nb % w);
    // the factors
    assert(t.4 == cax * pa + cay * qa && t.5 == cax * pb + cay * qb);
    assert(t.6 == cbx * pa + cby * qa && t.7 == cbx * pb + cby * qb);
    lemma_combo_factors(x, y, pa, pb, qa, qb, cax, cay);
    lemma_combo_factors(x, y, pa, pb, qa, qb, cbx, cby);
}

/// Runs of the binary GCD on low words that start from numbers below `2^62`, with their
/// lowest 31 bits as low words and the numbers themselves as high words, are runs of
/// the binary GCD on the numbers; the factors combine the numbers into the results
/// times `2^n`.
proof fn lemma_gcd_run_exact(x: int, y: int, n: nat)
    requires
        0 <= x < pow2(62),
        0 <= y < pow2(62),
        n <= 31,
    ensures
        ({
            let s = gcd_run(((x % 0x8000_0000) as u32, (y % 0x8000_0000) as u32, x as u64, y as u64, 1, 0, 0, 1), n);
            let e = gcd_exact_run((x, y), n);
            &&& s.2 as int == e.0
            &&& s.3 as int == e.1
            &&& s.0 as int % 0x8000_0000 == (e.0 * pow2(n)) % 0x8000_0000
            &&& s.1 as int % 0x8000_0000 == (e.1 * pow2(n)) % 0x8000_0000
            &&& s.4 * x + s.5 * y == e.0 * pow2(n)
            &&& s.6 * x + s.7 * y == e.1 * pow2(n)
        }),
    decreases n,
{
    vstd::arithmetic::power2::lemma2_to64();
    vstd::arithmetic::power2::lemma_pow2_strictly_increases(62, 64);
    if n == 0 {
        vstd::arithmetic::div_mod::lemma_mod_mod(x, 0x8000_0000, 1);
        vstd::arithmetic::div_mod::lemma_mod_mod(y, 0x8000_0000, 1);
    } else {
        lemma_gcd_run_exact(x, y, (n - 1) as nat);
        let s0 = ((x % 0x8000_0000) as u32, (y % 0x8000_0000) as u32, x as u64, y as u64, 1int, 0int, 0int, 1int);
        lemma_gcd_step_exact(gcd_run(s0, (n - 1) as nat), (n - 1) as nat, x, y);
    }
}

/// Combining factor pairs combines what they make of `x` and `y` alike.
proof fn lemma_combo_factors(x: int, y: int, pa: int, pb: int, qa: int, qb: int, c: int, d: int)
    ensures
        (c * pa + d * qa) * x + (c * pb + d * qb) * y == c * (pa * x + pb * y) + d * (qa * x + qb * y),
{
    vstd::arithmetic::mul::lemma_mul_is_distributive_add_other_way(x, c * pa, d * qa);
    vstd::arithmetic::mul::lemma_mul_is_distributive_add_other_way(y, c * pb, d * qb);
    vstd::arithmetic::mul::lemma_mul_is_associative(c, pa, x);
    vstd::arithmetic::mul::lemma_mul_is_associative(d, qa, x);
    vstd::arithmetic::mul::lemma_mul_is_associative(c, pb, y);
    vstd::arithmetic::mul::lemma_mul_is_associative(d, qb, y);
    vstd::arithmetic::mul::lemma_mul_is_distributive_add(c, pa * x, pb * y);
    vstd::arithmetic::mul::lemma_mul_is_distributive_add(d, qa * x, qb * y);
}

/// Limbs that stand for zero are all zero.
proof fn lemma_zint_zero_limbs(limbs: Seq<u32>)
    requires
        zint_value(limbs) == 0,
    ensures
        forall|i: int| 0 <= i < limbs.len() ==> #[trigger] limbs[i] == 0,
    decreases limbs.len(),
{
    if limbs.len() > 0 {
        let init = limbs.drop_last();
        let p = pow2((31 * (limbs.len() - 1)) as nat);
        vstd::arithmetic::power2::lemma_pow2_pos((31 * (limbs.len() - 1)) as nat);
        assert(limbs.last() as nat * p == 0);
        assert(limbs.last() == 0) by (nonlinear_arith)
            requires
                limbs.last() as nat * p == 0,
                p > 0,
        ;
        lemma_zint_zero_limbs(init);
        assert forall|i: int| 0 <= i < limbs.len() implies #[trigger] limbs[i] == 0 by {
            if i < init.len() {
                assert(limbs[i] == init[i]);
            }
        }
    }
}

/// A number below `2^62` has no limb set from its third one on.
proof fn lemma_small_limbs(limbs: Seq<u32>)
    requires
        zint_value(limbs) < pow2(62),
    ensures
        forall|t: int| 2 <= t < limbs.len() ==> #[trigger] limbs[t] == 0,
{
    if limbs.len() > 2 {
        lemma_zint_split(limbs, 2);
        let rest = limbs.skip(2);
        if zint_value(rest) > 0 {
            assert(pow2(62) * zint_value(rest) >= pow2(62)) by (nonlinear_arith)
                requires
                    zint_value(rest) >= 1,
            ;
        }
        lemma_zint_zero_limbs(rest);
        assert forall|t: int| 2 <= t < limbs.len() implies #[trigger] limbs[t] == 0 by {
            assert(limbs[t] == rest[t - 2]);
        }
    }
}

/// For numbers below `2^62` the high words that guide a round of the extended binary
/// GCD are the numbers themselves.
proof fn lemma_top_word_small(a: Seq<u32>, b: Seq<u32>)
    requires
        a.len() == b.len(),
        a.len() > 0,
        limbs_ok(a),
        limbs_ok(b),
        zint_value(a) < pow2(62),
        zint_value(b) < pow2(62),
    ensures
        top_word(a, top_live(a, b, a.len() as int)) == zint_value(a),
        top_word(b, top_live(a, b, a.len() as int)) == zint_value(b),
{
    let n = a.len() as int;
    let tl = top_live(a, b, n);
    lemma_top_live(a, b, n);
    lemma_small_limbs(a);
    lemma_small_limbs(b);
    lemma_bezout_bits(0, 0, 0, 0);
    if tl >= 2 {
        assert(a[tl] == 0 && b[tl] == 0);
    }
    if n > 1 && tl <= 0 {
        assert(!limbs_live(a[1], b[1]));
        lemma_bezout_bits(a[1], b[1], 0, 0);
        assert(a[1] == 0 && b[1] == 0);
    }
    lemma_zint_front(a);
    lemma_zint_front(b);
    if n == 1 {
        assert(a.drop_first() =~= Seq::<u32>::empty());
        assert(b.drop_first() =~= Seq::<u32>::empty());
        assert(zint_value(Seq::<u32>::empty()) == 0);
    } else {
        let a1 = a.drop_first();
        let b1 = b.drop_first();
        lemma_zint_front(a1);
        lemma_zint_front(b1);
        assert forall|i: int| 0 <= i < a1.drop_first().len() implies #[trigger] a1.drop_first()[i] == 0 by {
            assert(a1.drop_first()[i] == a[i + 2]);
        }
        assert forall|i: int| 0 <= i < b1.drop_first().len() implies #[trigger] b1.drop_first()[i] == 0 by {
            assert(b1.drop_first()[i] == b[i + 2]);
        }
        lemma_zint_zeros(a1.drop_first());
        lemma_zint_zeros(b1.drop_first());
        vstd::arithmetic::power2::lemma2_to64();
        assert(zint_value(a1) == a[1]);
        assert(zint_value(b1) == b[1]);
    }
}

/// Limbs that stand for one are a one followed by zeros.
proof fn lemma_zint_one(limbs: Seq<u32>)
    requires
        limbs.len() > 0,
        zint_value(limbs) == 1,
    ensures
        limbs[0] == 1,
        forall|t: int| 1 <= t < limbs.len() ==> #[trigger] limbs[t] == 0,
{
    lemma_zint_front(limbs);
    let rest = limbs.drop_first();
    vstd::arithmetic::power2::lemma2_to64();
    if zint_value(rest) > 0 {
        assert(pow2(31) * zint_value(rest) >= pow2(31)) by (nonlinear_arith)
            requires
                zint_value(rest) >= 1,
        ;
    }
    lemma_zint_zero_limbs(rest);
    assert forall|t: int| 1 <= t < limbs.len() implies #[trigger] limbs[t] == 0 by {
        assert(limbs[t] == rest[t - 1]);
    }
}

/// For numbers below `2^62`, a round of the extended binary GCD is 31 steps of the binary
/// GCD on the numbers themselves: the combinations that the factors make, divided by
/// `2^31`, are the numbers after those steps, and the progress goes on.
proof fn lemma_bezout_round_exact(
    sa: Seq<u32>,
    sb: Seq<u32>,
    a_hi: u64,
    b_hi: u64,
    pa: i64,
    pb: i64,
    qa: i64,
    qb: i64,
    x: int,
    y: int,
    k: nat,
)
    requires
        sa.len() == sb.len(),
        sa.len() > 0,
        limbs_ok(sa),
        limbs_ok(sb),
        x < pow2(62),
        y < pow2(62),
        gcd_progress(zint_value(sa) as int, zint_value(sb) as int, x, y, k),
        a_hi as int == top_word(sa, top_live(sa, sb, sa.len() as int)),
        b_hi as int == top_word(sb, top_live(sa, sb, sa.len() as int)),
        ({
            let f = gcd_run((sa[0], sb[0], a_hi, b_hi, 1, 0, 0, 1), 31);
            pa == f.4 && pb == f.5 && qa == f.6 && qb == f.7
        }),
    ensures
        ({
            let e = gcd_exact_run((zint_value(sa) as int, zint_value(sb) as int), 31);
            &&& abs_int(co_combo(sa, sb, pa, pb) / 0x8000_0000) == e.0
            &&& abs_int(co_combo(sa, sb, qa, qb) / 0x8000_0000) == e.1
            &&& gcd_progress(e.0, e.1, x, y, k + 31)
        }),
{
    let av = zint_value(sa) as int;
    let bv = zint_value(sb) as int;
    lemma_top_word_small(sa, sb);
    lemma_zint_parity(sa);
    lemma_zint_parity(sb);
    vstd::arithmetic::div_mod::lemma_small_mod(sa[0] as nat, 0x8000_0000);
    vstd::arithmetic::div_mod::lemma_small_mod(sb[0] as nat, 0x8000_0000);
    assert(sa[0] as int == av % 0x8000_0000);
    assert(sb[0] as int == bv % 0x8000_0000);
    lemma_gcd_run_exact(av, bv, 31);
    lemma_gcd_exact_run(av, bv, x, y, k, 31);
    let e = gcd_exact_run((av, bv), 31);
    vstd::arithmetic::power2::lemma2_to64();
    vstd::arithmetic::mul::lemma_mul_is_commutative(av, pa as int);
    vstd::arithmetic::mul::lemma_mul_is_commutative(bv, pb as int);
    vstd::arithmetic::mul::lemma_mul_is_commutative(av, qa as int);
    vstd::arithmetic::mul::lemma_mul_is_commutative(bv, qb as int);
    assert(co_combo(sa, sb, pa, pb) == 0x8000_0000 * e.0);
    assert(co_combo(sa, sb, qa, qb) == 0x8000_0000 * e.1);
    vstd::arithmetic::div_mod::lemma_div_multiples_vanish(e.0, 0x8000_0000);
    vstd::arithmetic::div_mod::lemma_div_multiples_vanish(e.1, 0x8000_0000);
}

/// Once the binary GCD of coprime `x` and `y` has halved their product past one, `a`
/// holds their GCD: one.
proof fn lemma_bezout_done(a: int, b: int, x: int, y: int, k: nat)
    requires
        gcd_progress(a, b, x, y, k),
        coprime(x, y),
        x * y < pow2(k),
    ensures
        a == 1,
        b == 0,
{
    vstd::arithmetic::power2::lemma_pow2_pos(k);
    if a * b >= 1 {
        assert(a * b * pow2(k) >= pow2(k)) by (nonlinear_arith)
            requires
                a * b >= 1,
                pow2(k) > 0,
        ;
    }
    assert(a * b >= 0) by (nonlinear_arith)
        requires
            a >= 1,
            b >= 0,
    ;
    if b != 0 {
        assert(a * b >= 1) by (nonlinear_arith)
            requires
                a >= 1,
                b >= 1,
        ;
    }
    if a > 1 {
        vstd::arithmetic::div_mod::lemma_mod_self_0(a);
        vstd::arithmetic::div_mod::lemma_small_mod(0, a as nat);
        assert(divides(a, a) && divides(a, b));
        assert(divides(a, x) && divides(a, y));
    }
}

/// The rounds of the extended binary GCD make enough steps: with `30 r > 62 len`, `31 r`
/// halvings bring the product of numbers below `2^(31 len - 1)` and below `2^62` under one.
proof fn lemma_bezout_rounds(len: nat, r: nat, x: int, y: int)
    requires
        len >= 1,
        30 * r > 62 * len,
        0 <= x < pow2(62),
        0 <= y < pow2(62),
        x < pow2((31 * len - 1) as nat),
        y < pow2((31 * len - 1) as nat),
    ensures
        x * y < pow2(31 * r),
{
    let e: nat = if len == 1 {
        30
    } else {
        62
    };
    assert(x < pow2(e) && y < pow2(e));
    assert(x * y < pow2(e) * pow2(e)) by (nonlinear_arith)
        requires
            0 <= x < pow2(e),
            0 <= y < pow2(e),
    ;
    vstd::arithmetic::power2::lemma_pow2_adds(e, e);
    assert(e + e < 31 * r);
    vstd::arithmetic::power2::lemma_pow2_strictly_increases(e + e, 31 * r);
}

/// Within their bounds, a solution of `x u - y v = 1` modulo `x y` is an exact one once
/// `y` exceeds one.
proof fn lemma_bezout_exact(x: int, y: int, u: int, v: int)
    requires
        x > 0,
        y > 1,
        0 <= u < y,
        0 <= v < x,
        (x * u - y * v - 1) % (x * y) == 0,
    ensures
        x * u - y * v == 1,
{
    let m = x * y;
    let d = x * u - y * v;
    assert(0 <= x * u < m) by (nonlinear_arith)
        requires
            x > 0,
            0 <= u < y,
            m == x * y,
    ;
    assert(0 <= y * v <= m - y) by (nonlinear_arith)
        requires
            y > 0,
            0 <= v < x,
            m == x * y,
    ;
    assert(m > 0);
    assert((d - 1) % m == 0);
    vstd::arithmetic::div_mod::lemma_fundamental_div_mod(d - 1, m);
    let q = (d - 1) / m;
    assert(d - 1 == m * q);
    assert(y - m <= d < m);
    if q > 0 {
        assert(m * q >= m) by (nonlinear_arith)
            requires
                q >= 1,
                m > 0,
        ;
    } else if q < 0 {
        assert(m * q <= -m) by (nonlinear_arith)
            requires
                q <= -1,
                m > 0,
        ;
    } else {
        assert(m * q == 0) by (nonlinear_arith)
            requires
                q == 0,
        ;
    }
}

/// The big integer `d` modulo `p`, for `R2` the value of 2^62 modulo `p`.
pub fn zint_mod_small_unsigned(d: &[u32], p: u32, p0i: u32, r2: u32) -> (r: u32)
    requires
        is_small_prime(p),
        is_ninv31(p, p0i),
        r2 as int == pow2(62) as int % (p as int),
        limbs_ok(d@),
    ensures
        r < p,
        r as int == zint_value(d@) as int % (p as int),
{
    let mut x: u32 = 0;
    let mut u: usize = d.len();
    proof {
        assert(d@.skip(u as int) =~= Seq::<u32>::empty());
        vstd::arithmetic::div_mod::lemma_small_mod(0, p as nat);
    }
    while u > 0
        invariant
            u <= d@.len(),
            is_small_prime(p),
            is_ninv31(p, p0i),
            r2 as int == pow2(62) as int % (p as int),
            limbs_ok(d@),
            x < p,
            x as int == zint_value(d@.skip(u as int)) as int % (p as int),
        decreases u,
    {
        u = u - 1;
        assert(r2 < p) by {
            vstd::arithmetic::div_mod::lemma_mod_pos_bound(pow2(62) as int, p as int);
        }
        let xr = modp_montymul(x, r2, p, p0i);
        let dw = d[u];
        let w0 = dw.wrapping_sub(p);
        let w = w0.wrapping_add(p & 0u32.wrapping_sub(w0 >> 31u32));
        assert(w as u64 == (if dw >= p { (dw as u64).wrapping_sub(p as u64) } else { dw as u64 }))
            by (bit_vector)
            requires
                w0 == dw.wrapping_sub(p),
                w == w0.wrapping_add(p & 0u32.wrapping_sub(w0 >> 31u32)),
                dw < 0x8000_0000u32,
                p < 0x8000_0000u32,
        ;
        proof {
            let pi = p as int;
            if dw >= p {
                lemma_fundamental_div_mod_converse(dw as int, pi, 1, dw - p);
            } else {
                lemma_fundamental_div_mod_converse(dw as int, pi, 0, dw as int);
            }
        }
        let nx = modp_add(xr, w, p);
        proof {
            let pi = p as int;
            let z = zint_value(d@.skip(u + 1)) as int;
            let P = pow2(31) as int;
            vstd::arithmetic::power2::lemma2_to64();
            vstd::arithmetic::power2::lemma_pow2_adds(31, 31);
            // the Montgomery product by R2 multiplies by 2^31
            vstd::arithmetic::div_mod::lemma_mul_mod_noop_right(x as int, pow2(62) as int, pi);
            assert(x as int * pow2(62) as int == (x as int * P) * P) by (nonlinear_arith)
                requires
                    pow2(62) == P * P,
            ;
            assert((xr as int * P) % pi == ((x as int * P) * P) % pi);
            lemma_cancel_pow2(xr as int, x as int * P, pi, 31);
            // and `x` is `z` modulo `p`
            vstd::arithmetic::div_mod::lemma_mul_mod_noop_left(z, P, pi);
            vstd::arithmetic::div_mod::lemma_small_mod(xr as nat, p as nat);
            assert(xr as int == (z * P) % pi);
            // so the new value is `dw + 2^31 z` modulo `p`
            vstd::arithmetic::div_mod::lemma_add_mod_noop(z * P, dw as int, pi);
            lemma_zint_front(d@.skip(u as int));
            assert(d@.skip(u as int).drop_first() =~= d@.skip(u + 1));
            assert(d@.skip(u as int)[0] == dw);
            assert(zint_value(d@.skip(u as int)) as int == dw + P * z);
            assert(dw + P * z == z * P + dw) by (nonlinear_arith);
        }
        x = nx;
    }
    proof {
        assert(d@.skip(0) =~= d@);
    }
    x
}

/// The big integer `d`, read as a signed number (its top bit, bit 30 of its last limb,
/// counting `-2^(31 len)`), modulo `p`; `rx` is 2^(31 len) modulo `p`.
pub fn zint_mod_small_signed(d: &[u32], p: u32, p0i: u32, r2: u32, rx: u32) -> (r: u32)
    requires
        is_small_prime(p),
        is_ninv31(p, p0i),
        r2 as int == pow2(62) as int % (p as int),
        rx as int == pow2((31 * d@.len()) as nat) as int % (p as int),
        limbs_ok(d@),
    ensures
        r < p,
        d@.len() == 0 ==> r == 0,
        d@.len() > 0 ==> r as int == (zint_value(d@) - (if d@.last() >= 0x4000_0000 {
            pow2((31 * d@.len()) as nat) as int
        } else {
            0
        })) % (p as int),
{
    if d.len() == 0 {
        return 0;
    }
    let z = zint_mod_small_unsigned(d, p, p0i, r2);
    let top = d[d.len() - 1];
    let sub = rx & 0u32.wrapping_sub(top >> 30u32);
    assert(sub == (if top >= 0x4000_0000u32 { rx } else { 0u32 })) by (bit_vector)
        requires
            sub == rx & 0u32.wrapping_sub(top >> 30u32),
            top < 0x8000_0000u32,
    ;
    assert(rx < p) by {
        vstd::arithmetic::div_mod::lemma_mod_pos_bound(pow2((31 * d@.len()) as nat) as int, p as int);
    }
    let r = modp_sub(z, sub, p);
    proof {
        let pi = p as int;
        let big = pow2((31 * d@.len()) as nat) as int;
        let neg = if top >= 0x4000_0000 { big } else { 0 };
        vstd::arithmetic::div_mod::lemma_sub_mod_noop(zint_value(d@) as int, neg, pi);
        if top < 0x4000_0000 {
            vstd::arithmetic::div_mod::lemma_small_mod(0, p as nat);
        }
        vstd::arithmetic::div_mod::lemma_small_mod(z as nat, p as nat);
        vstd::arithmetic::div_mod::lemma_small_mod(sub as nat, p as nat);
    }
    r
}

/// One step of Newton's iteration for `1/p` modulo 2^32 doubles the number of low bits
/// (`b` of them, then `2b`) in which `p * y` is one.
proof fn lemma_newton_step(p: u32, y: u32, b: nat)
    requires
        b == 8 || b == 16,
        ((p as int * y as int) % 0x1_0000_0000) % (pow2(b) as int) == 1,
    ensures
        ({
            let u = ((p as int * y as int) % 0x1_0000_0000) as u32;
            let y2 = ((y as int * ((2 - u as int) % 0x1_0000_0000)) % 0x1_0000_0000) as u32;
            ((p as int * y2 as int) % 0x1_0000_0000) % (pow2(2 * b) as int) == 1
        }),
{
    let w = 0x1_0000_0000int;
    let pi = p as int;
    let yi = y as int;
    let u = (pi * yi) % w;
    let f = (2 - u) % w;
    let y2 = (yi * f) % w;
    let m = pow2(b) as int;
    let mm = pow2(2 * b) as int;
    vstd::arithmetic::power2::lemma2_to64();
    vstd::arithmetic::power2::lemma_pow2_adds(b, b);
    assert(mm == m * m);
    vstd::arithmetic::power2::lemma_pow2_adds(2 * b, (32 - 2 * b) as nat);
    assert(w == mm * pow2((32 - 2 * b) as nat));
    assert(pi * yi >= 0) by (nonlinear_arith)
        requires
            pi >= 0,
            yi >= 0,
    ;
    lemma_mod_pos_bound(pi * yi, w);
    // u is one plus a multiple of 2^b
    let t = u / m;
    vstd::arithmetic::div_mod::lemma_fundamental_div_mod(u, m);
    assert(u == m * t + 1);
    // p * y2 is u * (2 - u) modulo 2^32
    vstd::arithmetic::div_mod::lemma_mul_mod_noop_right(pi, yi * f, w);
    assert(pi * (yi * f) == (pi * yi) * f) by (nonlinear_arith);
    vstd::arithmetic::div_mod::lemma_mul_mod_noop_left(pi * yi, f, w);
    vstd::arithmetic::div_mod::lemma_mul_mod_noop_right(u, 2 - u, w);
    assert((pi * y2) % w == (u * (2 - u)) % w);
    // u * (2 - u) is one less a multiple of 2^(2b)
    assert(u * (2 - u) == 1 - (t * t) * mm) by (nonlinear_arith)
        requires
            u == m * t + 1,
            mm == m * m,
    ;
    vstd::arithmetic::div_mod::lemma_mod_mod(u * (2 - u), mm, pow2((32 - 2 * b) as nat) as int);
    vstd::arithmetic::div_mod::lemma_mod_mod(pi * y2, mm, pow2((32 - 2 * b) as nat) as int);
    vstd::arithmetic::div_mod::lemma_mod_multiples_vanish(-(t * t), 1, mm);
    assert(mm * -(t * t) + 1 == 1 - (t * t) * mm) by (nonlinear_arith);
    vstd::arithmetic::div_mod::lemma_small_mod(1, mm as nat);
    assert(y2 as u32 as int == y2);
}

/// `-1/p` modulo 2^31, for odd `p`, by Newton's iteration.
pub fn modp_ninv31(p: u32) -> (r: u32)
    requires
        p % 2 == 1,
    ensures
        is_ninv31(p, r),
{
    let y0: u32 = 2u32.wrapping_sub(p);
    let y1 = y0.wrapping_mul(2u32.wrapping_sub(p.wrapping_mul(y0)));
    let y2 = y1.wrapping_mul(2u32.wrapping_sub(p.wrapping_mul(y1)));
    let y3 = y2.wrapping_mul(2u32.wrapping_sub(p.wrapping_mul(y2)));
    let y4 = y3.wrapping_mul(2u32.wrapping_sub(p.wrapping_mul(y3)));
    let r = 0x7fff_ffffu32 & 0u32.wrapping_sub(y4);
    // the first three steps, each doubling the number of correct low bits
    assert(p.wrapping_mul(y2) & 0xffu32 == 1u32 && p.wrapping_mul(y2) & 0xffu32 == p.wrapping_mul(y2) % 256u32)
        by (bit_vector)
        requires
            p % 2u32 == 1u32,
            y0 == 2u32.wrapping_sub(p),
            y1 == y0.wrapping_mul(2u32.wrapping_sub(p.wrapping_mul(y0))),
            y2 == y1.wrapping_mul(2u32.wrapping_sub(p.wrapping_mul(y1))),
    ;
    proof {
        let w = 0x1_0000_0000int;
        vstd::arithmetic::power2::lemma2_to64();
        // the last two steps, where the bit-level view is too costly, in integers
        assert(p.wrapping_mul(y2) as int == (p as int * y2 as int) % w);
        assert((p.wrapping_mul(y2) & 0xffu32) as int == (p.wrapping_mul(y2) as int) % 256);
        assert(2u32.wrapping_sub(p.wrapping_mul(y2)) as int == (2 - (p as int * y2 as int) % w) % w);
        lemma_newton_step(p, y2, 8);
        assert(p.wrapping_mul(y3) as int == (p as int * y3 as int) % w);
        assert(2u32.wrapping_sub(p.wrapping_mul(y3)) as int == (2 - (p as int * y3 as int) % w) % w);
        lemma_newton_step(p, y3, 16);
        assert(p.wrapping_mul(y4) as int == (p as int * y4 as int) % w);
    }
    assert(p.wrapping_mul(y4) == 1u32) by {
        let v = p.wrapping_mul(y4);
        vstd::arithmetic::power2::lemma2_to64();
        vstd::arithmetic::div_mod::lemma_small_mod(v as nat, 0x1_0000_0000nat);
    }
    proof {
        let w = 0x1_0000_0000int;
        let h = 0x8000_0000int;
        let pi = p as int;
        let yi = y4 as int;
        let neg = 0u32.wrapping_sub(y4);
        assert(r == neg % 0x8000_0000u32 && r < 0x8000_0000u32) by (bit_vector)
            requires
                r == 0x7fff_ffffu32 & neg,
        ;
        assert(neg as int == (w - yi) % w);
        vstd::arithmetic::div_mod::lemma_mod_mod(w - yi, h, 2);
        vstd::arithmetic::div_mod::lemma_mod_multiples_vanish(2, -yi, h);
        assert(r as int == (-yi) % h);
        vstd::arithmetic::div_mod::lemma_mul_mod_noop_right(pi, -yi, h);
        // p * y4 is one more than a multiple of 2^32
        let k = (pi * yi) / w;
        vstd::arithmetic::div_mod::lemma_fundamental_div_mod(pi * yi, w);
        assert((pi * yi) % w == 1);
        assert(pi * (-yi) == h * (-2 * k - 1) + (h - 1)) by (nonlinear_arith)
            requires
                pi * yi == w * k + 1,
                w == 2 * h,
        ;
        lemma_fundamental_div_mod_converse(pi * (-yi), h, -2 * k - 1, h - 1);
    }
    r
}

/// Equal numbers modulo `p` stay equal when multiplied by the same number.
proof fn lemma_mul_congruent(x: int, x2: int, y: int, p: int)
    requires
        p > 0,
        x % p == x2 % p,
    ensures
        (x * y) % p == (x2 * y) % p,
{
    lemma_mul_mod_noop_left(x, y, p);
    lemma_mul_mod_noop_left(x2, y, p);
}

/// One square-and-multiply step of a Montgomery exponentiation by the plain number `b`:
/// from `z 2^(31 e) = 2^31 b^e` the square `z1` has this for `2e`, and `z2`, its
/// Montgomery product with `b`, for `2e + 1` (all modulo `p`).
proof fn lemma_div_step(z: int, z1: int, z2: int, b: int, p: int, e: nat)
    requires
        p > 0,
        p % 2 == 1,
        (z * pow2(31 * e)) % p == (0x8000_0000 * vstd::arithmetic::power::pow(b, e)) % p,
        (z1 * 0x8000_0000) % p == (z * z) % p,
        (z2 * 0x8000_0000) % p == (z1 * b) % p,
    ensures
        (z1 * pow2(31 * (2 * e))) % p == (0x8000_0000 * vstd::arithmetic::power::pow(b, 2 * e)) % p,
        (z2 * pow2(31 * (2 * e + 1))) % p == (0x8000_0000 * vstd::arithmetic::power::pow(b, 2 * e + 1)) % p,
{
    let pp = pow2(31 * e) as int;
    let q = vstd::arithmetic::power::pow(b, e);
    let q2 = vstd::arithmetic::power::pow(b, 2 * e);
    let big = pow2(31 * (2 * e)) as int;
    vstd::arithmetic::power2::lemma2_to64();
    vstd::arithmetic::power2::lemma_pow2_adds(31 * e, 31 * e);
    assert(31 * e + 31 * e == 31 * (2 * e));
    assert(big == pp * pp);
    vstd::arithmetic::power::lemma_pow_adds(b, e, e);
    assert(e + e == 2 * e);
    assert(q2 == q * q);
    // (z1 big) 2^31 = (z1 2^31) pp pp = z z pp pp = (z pp)(z pp) = (2^31 q)(2^31 q)
    assert((z1 * big) * 0x8000_0000 == (z1 * 0x8000_0000) * big) by (nonlinear_arith);
    lemma_mul_congruent(z1 * 0x8000_0000, z * z, big, p);
    assert((z * z) * big == (z * pp) * (z * pp)) by (nonlinear_arith)
        requires
            big == pp * pp,
    ;
    lemma_mul_congruent(z * pp, 0x8000_0000 * q, z * pp, p);
    lemma_mul_congruent(z * pp, 0x8000_0000 * q, 0x8000_0000 * q, p);
    assert((z * pp) * (0x8000_0000 * q) == (0x8000_0000 * q) * (z * pp)) by (nonlinear_arith);
    assert((0x8000_0000 * q) * (0x8000_0000 * q) == (0x8000_0000 * q2) * 0x8000_0000) by (nonlinear_arith)
        requires
            q2 == q * q,
    ;
    assert(((z1 * big) * pow2(31)) % p == ((0x8000_0000 * q2) * pow2(31)) % p);
    lemma_cancel_pow2(z1 * big, 0x8000_0000 * q2, p, 31);
    // (z2 2^(31 (2e + 1))) = (z2 2^31) big = z1 b big = b (z1 big) = b 2^31 q2
    vstd::arithmetic::power2::lemma_pow2_adds(31 * (2 * e), 31);
    assert(31 * (2 * e) + 31 == 31 * (2 * e + 1));
    assert(z2 * pow2(31 * (2 * e + 1)) == (z2 * 0x8000_0000) * big) by (nonlinear_arith)
        requires
            pow2(31 * (2 * e + 1)) == big * 0x8000_0000,
    ;
    lemma_mul_congruent(z2 * 0x8000_0000, z1 * b, big, p);
    assert((z1 * b) * big == (z1 * big) * b) by (nonlinear_arith);
    lemma_mul_congruent(z1 * big, 0x8000_0000 * q2, b, p);
    vstd::arithmetic::power::lemma_pow_adds(b, 2 * e, 1);
    vstd::arithmetic::power::lemma_pow1(b);
    assert((0x8000_0000 * q2) * b == 0x8000_0000 * vstd::arithmetic::power::pow(b, 2 * e + 1)) by (nonlinear_arith)
        requires
            vstd::arithmetic::power::pow(b, 2 * e + 1) == q2 * b,
    ;
}

/// The quotient `a / b` modulo the prime `p`, as `a b^(p - 2)`, by Montgomery
/// exponentiation, for `r` the value of 2^31 modulo `p`. On plain numbers the result
/// times `2^(31 (p - 1))` is `a b^(p - 2)` modulo `p`; for `a` and `b` in Montgomery
/// representation this makes it the plain quotient.
#[verifier::spinoff_prover]
pub fn modp_div(a: u32, b: u32, p: u32, p0i: u32, r: u32) -> (res: u32)
    requires
        is_small_prime(p),
        is_ninv31(p, p0i),
        a < p,
        b < p,
        r as int == 0x8000_0000int % (p as int),
    ensures
        res < p,
        (res * pow2((31 * (p - 1)) as nat)) % (p as int) == (a * vstd::arithmetic::power::pow(b as int, (p - 2) as nat))
            % (p as int),
{
    let e = p - 2;
    let mut z = r;
    let mut k: u32 = 31;
    proof {
        vstd::arithmetic::power2::lemma2_to64();
        vstd::arithmetic::div_mod::lemma_mod_pos_bound(0x8000_0000int, p as int);
        vstd::arithmetic::div_mod::lemma_basic_div(e as int, pow2(31) as int);
        vstd::arithmetic::power::lemma_pow0(b as int);
        assert((z * pow2(0)) % (p as int) == (0x8000_0000 * vstd::arithmetic::power::pow(b as int, 0)) % (p as int)) by {
            vstd::arithmetic::div_mod::lemma_mod_twice(0x8000_0000, p as int);
        }
    }
    while k > 0
        invariant
            k <= 31,
            e == p - 2,
            is_small_prime(p),
            is_ninv31(p, p0i),
            b < p,
            z < p,
            (z * pow2((31 * (e as nat / pow2(k as nat))) as nat)) % (p as int) == (0x8000_0000 * vstd::arithmetic::power::pow(
                b as int,
                e as nat / pow2(k as nat),
            )) % (p as int),
        decreases k,
    {
        let ghost ez: nat = e as nat / pow2(k as nat);
        k = k - 1;
        let z1 = modp_montymul(z, z, p, p0i);
        let z2 = modp_montymul(z1, b, p, p0i);
        let bit = (e >> k) & 1;
        proof {
            lemma_div_step(z as int, z1 as int, z2 as int, b as int, p as int, ez);
            vstd::arithmetic::power2::lemma2_to64();
            vstd::arithmetic::power2::lemma_pow2_pos(k as nat);
            vstd::arithmetic::power2::lemma_pow2_unfold((k + 1) as nat);
            vstd::bits::lemma_u32_shr_is_div(e, k);
            vstd::bits::lemma_low_bits_mask_values();
            vstd::bits::lemma_u32_low_bits_mask_is_mod(e >> k, 1);
            let ek = e as nat / pow2(k as nat);
            vstd::arithmetic::div_mod::lemma_div_denominator(e as int, pow2(k as nat) as int, 2);
            vstd::arithmetic::div_mod::lemma_fundamental_div_mod(ek as int, 2);
            assert(pow2(k as nat) * 2 == pow2((k + 1) as nat));
            assert(ez == (ek as int) / 2);
            assert((e >> k) == ek);
            assert(bit == ek % 2);
            assert(ek == 2 * ez + bit);
        }
        if bit == 1 {
            z = z2;
        } else {
            z = z1;
        }
    }
    let zf = modp_montymul(z, 1, p, p0i);
    let res = modp_montymul(a, zf, p, p0i);
    proof {
        let pe = pow2((31 * e) as nat) as int;
        let pi = p as int;
        let be = vstd::arithmetic::power::pow(b as int, e as nat);
        vstd::arithmetic::power2::lemma2_to64();
        assert(e as nat / pow2(0) == e as nat);
        vstd::arithmetic::power2::lemma_pow2_adds(31, (31 * e) as nat);
        assert(31 + 31 * e == 31 * (p - 1));
        // res 2^31 2^31 pe = a zf 2^31 pe = a z pe = a 2^31 be
        assert((res * pow2((31 * (p - 1)) as nat)) * 0x8000_0000 == (res * 0x8000_0000) * (0x8000_0000 * pe))
            by (nonlinear_arith)
            requires
                pow2((31 * (p - 1)) as nat) == 0x8000_0000 * pe,
        ;
        lemma_mul_congruent(res * 0x8000_0000, a * zf, 0x8000_0000 * pe, pi);
        assert((a * zf) * (0x8000_0000 * pe) == (zf * 0x8000_0000) * (a * pe)) by (nonlinear_arith);
        lemma_mul_congruent(zf * 0x8000_0000, z * 1, a * pe, pi);
        assert((z * 1) * (a * pe) == (z * pe) * a) by (nonlinear_arith);
        lemma_mul_congruent(z * pe, 0x8000_0000 * be, a as int, pi);
        assert((0x8000_0000 * be) * a == (a * be) * 0x8000_0000) by (nonlinear_arith);
        lemma_cancel_pow2(res * pow2((31 * (p - 1)) as nat), a * be, pi, 31);
    }
    res
}

/// A Montgomery product of `2^a` and `2^b` modulo `p` is `2^(a + b - 31)` modulo `p`.
proof fn lemma_monty_pow(z: int, w: int, r: int, p: int, a: nat, b: nat)
    requires
        p > 0,
        p % 2 == 1,
        z == pow2(a) as int % p,
        w == pow2(b) as int % p,
        (r * 0x8000_0000int) % p == (z * w) % p,
        a + b >= 31,
        0 <= r < p,
    ensures
        r == pow2((a + b - 31) as nat) as int % p,
{
    let e = (a + b - 31) as nat;
    vstd::arithmetic::power2::lemma2_to64();
    vstd::arithmetic::power2::lemma_pow2_adds(a, b);
    vstd::arithmetic::power2::lemma_pow2_adds(e, 31);
    assert(a + b == e + 31);
    vstd::arithmetic::div_mod::lemma_mul_mod_noop(pow2(a) as int, pow2(b) as int, p);
    assert((r * pow2(31)) % p == (pow2(e) as int * pow2(31)) % p);
    lemma_cancel_pow2(r, pow2(e) as int, p, 31);
    vstd::arithmetic::div_mod::lemma_small_mod(r as nat, p as nat);
}

/// `R^x` modulo `p`, that is 2^(31 x) modulo `p`, for `R2` the value of 2^62 modulo `p`.
#[verifier::spinoff_prover]
pub fn modp_rx(x: u32, p: u32, p0i: u32, r2: u32) -> (r: u32)
    requires
        is_small_prime(p),
        is_ninv31(p, p0i),
        r2 as int == pow2(62) as int % (p as int),
        1 <= x <= 0x8000_0000,
    ensures
        r < p,
        r as int == pow2((31 * x) as nat) as int % (p as int),
{
    let x = x - 1;
    let mut r = r2;
    let mut z = modp_r(p);
    let mut i: u32 = 0;
    proof {
        vstd::arithmetic::power2::lemma2_to64();
        vstd::arithmetic::div_mod::lemma_mod_pos_bound(pow2(62) as int, p as int);
        vstd::bits::lemma_u32_shl_is_mul(1, 0);
        vstd::arithmetic::div_mod::lemma_small_mod(0, 1);
        assert(x as nat % pow2(0) == 0) by {
            vstd::arithmetic::div_mod::lemma_mod_self_0(1);
            assert(x as nat % 1 == 0);
        }
    }
    while (1u32 << i) <= x
        invariant
            i <= 31,
            x < 0x8000_0000,
            is_small_prime(p),
            is_ninv31(p, p0i),
            r < p,
            z < p,
            r as int == pow2((31 * (pow2(i as nat) + 1)) as nat) as int % (p as int),
            z as int == pow2((31 * (1 + x as nat % pow2(i as nat))) as nat) as int % (p as int),
            (1u32 << i) == pow2(i as nat),
        decreases 32 - i,
    {
        let ghost low = x as nat % pow2(i as nat);
        let ghost step = pow2(i as nat);
        proof {
            vstd::arithmetic::power2::lemma2_to64();
            // the loop goes on only while 2^i is at most x, which is below 2^31
            assert(i < 31);
            vstd::arithmetic::power2::lemma_pow2_pos(i as nat);
            vstd::arithmetic::div_mod::lemma_mod_breakdown(x as int, step as int, 2);
            vstd::arithmetic::power2::lemma_pow2_unfold((i + 1) as nat);
            assert(step * 2 == pow2((i + 1) as nat));
            vstd::bits::lemma_u32_shr_is_div(x, i);
        }
        let bit = x & (1u32 << i);
        assert((bit != 0u32) == ((x >> i) & 1u32 == 1u32)) by (bit_vector)
            requires
                bit == x & (1u32 << i),
                i < 32u32,
        ;
        assert(((x >> i) & 1u32) == (x >> i) % 2u32) by (bit_vector);
        let ghost newlow: nat = if bit != 0 { low + step } else { low };
        proof {
            assert((x >> i) as nat == x as nat / step);
            assert(((x >> i) % 2u32) as nat == (x as nat / step) % 2);
            let q = (x as nat / step) % 2;
            assert(x as nat % pow2((i + 1) as nat) == step * q + low);
            vstd::arithmetic::mul::lemma_mul_basics(step as int);
            if bit != 0 {
                assert(q == 1);
                assert(step * q == step);
            } else {
                assert(q == 0);
                assert(step * q == 0);
            }
            assert(newlow == x as nat % pow2((i + 1) as nat));
        }
        if bit != 0 {
            let nz = modp_montymul(z, r, p, p0i);
            proof {
                lemma_monty_pow(
                    z as int,
                    r as int,
                    nz as int,
                    p as int,
                    (31 * (1 + low)) as nat,
                    (31 * (step + 1)) as nat,
                );
                assert(31 * (1 + low) + 31 * (step + 1) - 31 == 31 * (1 + newlow));
            }
            z = nz;
        }
        let nr = modp_montymul(r, r, p, p0i);
        proof {
            lemma_monty_pow(
                r as int,
                r as int,
                nr as int,
                p as int,
                (31 * (step + 1)) as nat,
                (31 * (step + 1)) as nat,
            );
            assert(31 * (step + 1) + 31 * (step + 1) - 31 == 31 * (2 * step + 1));
        }
        r = nr;
        proof {
            if i + 1 <= 31 {
                vstd::bits::lemma_u32_shl_is_mul(1, (i + 1) as u32);
            }
        }
        i = i + 1;
    }
    proof {
        vstd::arithmetic::div_mod::lemma_small_mod(x as nat, pow2(i as nat));
        assert(31 * (1 + x) == 31 * (x + 1));
    }
    z
}

} // verus!
