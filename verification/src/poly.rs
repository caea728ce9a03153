//! Polynomial helpers of Falcon's key generation that work on plain integers: small
//! polynomials with 8-bit coefficients, one-limb big integers, and residues modulo the
//! small primes.

use vstd::arithmetic::power2::pow2;
use vstd::prelude::*;

use crate::modp::{
    in_slot, is_ninv31, is_small_prime, limbs_ok, modp_montymul, signed31, slot, zint_add_scaled_mul_small,
    zint_one_to_plain, zint_signed, zint_value,
};

verus! {

/// The sum of the squares of the first `k` coefficients of `f`.
pub open spec fn sqnorm_prefix(f: Seq<i8>, k: int) -> int
    decreases k,
{
    if k <= 0 {
        0
    } else {
        sqnorm_prefix(f, k - 1) + f[k - 1] * f[k - 1]
    }
}

/// The squares of coefficients add up to more with each coefficient.
proof fn lemma_sqnorm_grows(f: Seq<i8>, j: int, k: int)
    requires
        0 <= j <= k,
    ensures
        0 <= sqnorm_prefix(f, j) <= sqnorm_prefix(f, k),
    decreases k - j,
{
    if j < k {
        lemma_sqnorm_grows(f, j, k - 1);
        assert(f[k - 1] * f[k - 1] >= 0) by (nonlinear_arith);
    } else {
        lemma_sqnorm_nonneg(f, k);
    }
}

/// A sum of squares is not negative.
proof fn lemma_sqnorm_nonneg(f: Seq<i8>, k: int)
    ensures
        sqnorm_prefix(f, k) >= 0,
    decreases k,
{
    if k > 0 {
        lemma_sqnorm_nonneg(f, k - 1);
        assert(f[k - 1] * f[k - 1] >= 0) by (nonlinear_arith);
    }
}

/// The bits that the squared norm and the one-limb conversion rest on: an OR of words
/// has its top bit set when one of them has; a word whose top bit is set turns the
/// result into all ones; and bit 30 of a 31-bit limb extends into its sign.
pub(crate) proof fn lemma_small_poly_bits(ng: u32, s: u32, w: u32)
    by (bit_vector)
    requires
        w < 0x8000_0000u32,
    ensures
        ((ng | s) < 0x8000_0000u32) == (ng < 0x8000_0000u32 && s < 0x8000_0000u32),
        (s | 0u32.wrapping_sub(ng >> 31u32)) == (if ng < 0x8000_0000u32 {
            s
        } else {
            0xffff_ffffu32
        }),
        (w | ((w & 0x4000_0000u32) << 1u32)) as i32 == (if w >= 0x4000_0000u32 {
            (w as int - 0x8000_0000) as i32
        } else {
            w as i32
        }),
{
}

/// The squared norm of the small polynomial `f` of degree `2^logn`: the sum of the
/// squares of its coefficients, or `2^32 - 1` when that sum reaches `2^31`.
pub fn poly_small_sqnorm(f: &[i8], logn: u32) -> (r: u32)
    requires
        logn < 32,
        pow2(logn as nat) <= f@.len(),
    ensures
        r == (if sqnorm_prefix(f@, pow2(logn as nat) as int) < 0x8000_0000 {
            sqnorm_prefix(f@, pow2(logn as nat) as int)
        } else {
            0xffff_ffff
        }),
{
    let flen = f.len();
    proof {
        vstd::arithmetic::power2::lemma_pow2_pos(logn as nat);
        vstd::bits::lemma_usize_shl_is_mul(1, logn as usize);
    }
    let n: usize = 1usize << (logn as usize);
    let mut s: u32 = 0;
    let mut ng: u32 = 0;
    let mut u: usize = 0;
    while u < n
        invariant
            n == pow2(logn as nat),
            n <= f@.len(),
            u <= n,
            ng < 0x8000_0000 <==> sqnorm_prefix(f@, u as int) < 0x8000_0000,
            sqnorm_prefix(f@, u as int) < 0x8000_0000 ==> s == sqnorm_prefix(f@, u as int),
        decreases n - u,
    {
        let z = f[u] as i32;
        proof {
            assert(z * z <= 0x4000) by (nonlinear_arith)
                requires
                    -128 <= z <= 127,
            ;
            assert(z * z >= 0) by (nonlinear_arith);
            lemma_sqnorm_grows(f@, u as int, u + 1);
            lemma_small_poly_bits(ng, s.wrapping_add((z * z) as u32), 0);
        }
        let ghost old_ng = ng;
        s = s.wrapping_add((z * z) as u32);
        ng = ng | s;
        proof {
            let prev = sqnorm_prefix(f@, u as int);
            let next = sqnorm_prefix(f@, u + 1);
            assert(next == prev + z * z);
            if prev < 0x8000_0000 {
                assert(s == next);
            } else {
                assert(old_ng >= 0x8000_0000);
            }
        }
        u = u + 1;
    }
    proof {
        lemma_small_poly_bits(ng, s, 0);
    }
    s | 0u32.wrapping_sub(ng >> 31u32)
}

/// Reads the `2^logn` one-limb big integers of `s` as signed values into the small
/// polynomial `d`; fails, returning 0, when one of them lies outside `[-lim, lim]`, and
/// returns 1 otherwise.
pub fn poly_big_to_small(d: &mut [i8], s: &[u32], lim: i32, logn: u32) -> (r: i32)
    requires
        logn < 32,
        lim > i32::MIN,
        pow2(logn as nat) <= old(d)@.len(),
        pow2(logn as nat) <= s@.len(),
        forall|u: int| 0 <= u < pow2(logn as nat) ==> #[trigger] s@[u] < 0x8000_0000,
    ensures
        final(d)@.len() == old(d)@.len(),
        r == 0 || r == 1,
        r == 1 <==> forall|u: int|
            0 <= u < pow2(logn as nat) ==> -lim <= #[trigger] signed31(s@[u]) <= lim,
        r == 1 ==> forall|u: int| 0 <= u < pow2(logn as nat) ==> #[trigger] final(d)@[u] == signed31(s@[u]) as i8,
        forall|u: int| pow2(logn as nat) <= u < old(d)@.len() ==> #[trigger] final(d)@[u] == old(d)@[u],
{
    let dlen = d.len();
    proof {
        vstd::arithmetic::power2::lemma_pow2_pos(logn as nat);
        vstd::bits::lemma_usize_shl_is_mul(1, logn as usize);
    }
    let n: usize = 1usize << (logn as usize);
    let mut u: usize = 0;
    while u < n
        invariant
            n == pow2(logn as nat),
            n <= d@.len(),
            n <= s@.len(),
            d@.len() == old(d)@.len(),
            u <= n,
            lim > i32::MIN,
            forall|t: int| 0 <= t < n ==> #[trigger] s@[t] < 0x8000_0000,
            forall|t: int| 0 <= t < u ==> -lim <= #[trigger] signed31(s@[t]) <= lim,
            forall|t: int| 0 <= t < u ==> #[trigger] d@[t] == signed31(s@[t]) as i8,
            forall|t: int| n <= t < d@.len() ==> #[trigger] d@[t] == old(d)@[t],
        decreases n - u,
    {
        let z = zint_one_to_plain(vstd::slice::slice_subrange(s, u, u + 1));
        assert(s@.subrange(u as int, u + 1)[0] == s@[u as int]);
        if z < -lim || z > lim {
            return 0;
        }
        d[u] = z as i8;
        u = u + 1;
    }
    1
}

/// Replaces the first half of the residues in `f`, a polynomial of degree `2^logn` modulo
/// `p` in NTT representation, by the products of neighbouring pairs: the residues of
/// `f(x) f(-x)` at the squares of the points. `r2` is 2^62 modulo `p`.
pub fn modp_poly_rec_res(f: &mut [u32], logn: u32, p: u32, p0i: u32, r2: u32)
    requires
        1 <= logn < 32,
        pow2(logn as nat) <= old(f)@.len(),
        is_small_prime(p),
        is_ninv31(p, p0i),
        r2 as int == pow2(62) as int % (p as int),
        forall|u: int| 0 <= u < pow2(logn as nat) ==> #[trigger] old(f)@[u] < p,
    ensures
        final(f)@.len() == old(f)@.len(),
        forall|u: int|
            0 <= u < pow2((logn - 1) as nat) ==> #[trigger] final(f)@[u] as int == (old(f)@[2 * u] as int * old(
                f,
            )@[2 * u + 1] as int) % (p as int),
        forall|u: int| pow2((logn - 1) as nat) <= u < old(f)@.len() ==> #[trigger] final(f)@[u] == old(f)@[u],
{
    let flen = f.len();
    proof {
        vstd::arithmetic::power2::lemma_pow2_pos((logn - 1) as nat);
        vstd::arithmetic::power2::lemma_pow2_strictly_increases((logn - 1) as nat, logn as nat);
        vstd::arithmetic::power2::lemma_pow2_unfold(logn as nat);
        vstd::bits::lemma_usize_shl_is_mul(1, (logn - 1) as usize);
        vstd::arithmetic::power2::lemma2_to64();
        vstd::arithmetic::div_mod::lemma_mod_pos_bound(pow2(62) as int, p as int);
    }
    let hn: usize = 1usize << ((logn - 1) as usize);
    let ghost start = f@;
    let mut u: usize = 0;
    while u < hn
        invariant
            hn == pow2((logn - 1) as nat),
            2 * hn <= start.len(),
            flen == start.len(),
            f@.len() == start.len(),
            u <= hn,
            is_small_prime(p),
            is_ninv31(p, p0i),
            r2 < p,
            r2 as int == pow2(62) as int % (p as int),
            forall|t: int| 0 <= t < 2 * hn ==> #[trigger] start[t] < p,
            forall|t: int| 0 <= t < u ==> #[trigger] f@[t] as int == (start[2 * t] as int * start[2 * t + 1] as int) % (
            p as int),
            forall|t: int| u <= t < f@.len() ==> #[trigger] f@[t] == start[t],
        decreases hn - u,
    {
        let w0 = f[2 * u];
        let w1 = f[2 * u + 1];
        assert(w0 == start[2 * u as int] && w1 == start[2 * u + 1]);
        let t = modp_montymul(w0, w1, p, p0i);
        let r = modp_montymul(t, r2, p, p0i);
        proof {
            lemma_rec_res_step(w0 as int, w1 as int, t as int, r as int, r2 as int, p as int);
        }
        f[u] = r;
        u = u + 1;
    }
}

/// Two Montgomery products, the second with 2^62, give the plain product modulo `p`.
proof fn lemma_rec_res_step(w0: int, w1: int, t: int, r: int, r2: int, p: int)
    requires
        p > 1,
        p % 2 == 1,
        0 <= r < p,
        (t * 0x8000_0000) % p == (w0 * w1) % p,
        (r * 0x8000_0000) % p == (t * r2) % p,
        r2 == pow2(62) as int % p,
    ensures
        r == (w0 * w1) % p,
{
    vstd::arithmetic::power2::lemma2_to64();
    vstd::arithmetic::power2::lemma2_to64_rest();
    // r 2^31 = t 2^62 = (t 2^31) 2^31 = w0 w1 2^31, all modulo p
    vstd::arithmetic::div_mod::lemma_mul_mod_noop_right(t, pow2(62) as int, p);
    assert(pow2(62) == 0x8000_0000 * 0x8000_0000) by {
        vstd::arithmetic::power2::lemma_pow2_adds(31, 31);
    }
    assert(t * pow2(62) as int == (t * 0x8000_0000) * 0x8000_0000) by (nonlinear_arith)
        requires
            pow2(62) == 0x8000_0000 * 0x8000_0000,
    ;
    vstd::arithmetic::div_mod::lemma_mul_mod_noop_left(t * 0x8000_0000, 0x8000_0000, p);
    vstd::arithmetic::div_mod::lemma_mul_mod_noop_left(w0 * w1, 0x8000_0000, p);
    assert((r * pow2(31)) % p == ((w0 * w1) * pow2(31)) % p);
    crate::modp::lemma_cancel_pow2(r, w0 * w1, p, 31);
    vstd::arithmetic::div_mod::lemma_small_mod(r as nat, p as nat);
}

/// The signed values of the `n` big integers of `f`, one every `stride` words.
pub open spec fn signed_values(f: Seq<u32>, n: int, stride: int, len: int) -> Seq<int> {
    Seq::new(n as nat, |v: int| zint_signed(slot(f, v, stride, len)))
}

/// What row `u` of the product of `k` and `fv` modulo `x^n + 1` gives coefficient `i`:
/// `k[u] fv[i - u]`, or `-k[u] fv[i - u + n]` when the index wraps around.
pub open spec fn negacyclic_term(k: Seq<i32>, fv: Seq<int>, n: int, i: int, u: int) -> int {
    if u <= i {
        k[u] * fv[i - u]
    } else {
        -(k[u] * fv[i - u + n])
    }
}

/// Coefficient `i` of the product of `k` and `fv` modulo `x^n + 1`, from the first `rows`
/// coefficients of `k`.
pub open spec fn negacyclic_partial(k: Seq<i32>, fv: Seq<int>, n: int, i: int, rows: int) -> int
    decreases rows,
{
    if rows <= 0 {
        0
    } else {
        negacyclic_partial(k, fv, n, i, rows - 1) + negacyclic_term(k, fv, n, i, rows - 1)
    }
}

/// The column of row `u` that lands on coefficient `i` modulo `x^n + 1`.
pub open spec fn column_of(n: int, i: int, u: int) -> int {
    if u <= i {
        i - u
    } else {
        i - u + n
    }
}

/// Where coefficient `i` stands after row `u` has gone up to column `v`.
pub open spec fn subtracted_so_far(k: Seq<i32>, fv: Seq<int>, n: int, i: int, u: int, v: int) -> int {
    negacyclic_partial(k, fv, n, i, u) + (if column_of(n, i, u) < v {
        negacyclic_term(k, fv, n, i, u)
    } else {
        0
    })
}

/// Writing one big integer back leaves the others, and everything outside them, alone.
proof fn lemma_slot_written(
    before: Seq<u32>,
    after: Seq<u32>,
    xi: int,
    w: Seq<u32>,
    stride: int,
    len: int,
    n: int,
)
    requires
        0 <= xi < n,
        0 < len <= stride,
        n * stride <= before.len(),
        after.len() == before.len(),
        w.len() == len,
        after.subrange(xi * stride, xi * stride + len) == w,
        forall|t: int|
            0 <= t < before.len() && !(xi * stride <= t < xi * stride + len) ==> #[trigger] after[t] == before[t],
    ensures
        slot(after, xi, stride, len) == w,
        forall|j: int| 0 <= j < n && j != xi ==> #[trigger] slot(after, j, stride, len) == slot(before, j, stride, len),
        forall|t: int|
            0 <= t < before.len() && (forall|j: int| 0 <= j < n ==> !#[trigger] in_slot(t, j, stride, len))
                ==> after[t] == before[t],
{
    assert forall|j: int| 0 <= j < n && j != xi implies #[trigger] slot(after, j, stride, len) == slot(
        before,
        j,
        stride,
        len,
    ) by {
        crate::modp::lemma_slots_apart(j, xi, stride, len, n);
        assert forall|t: int| 0 <= t < len implies slot(after, j, stride, len)[t] == slot(before, j, stride, len)[t] by {
            assert(in_slot(j * stride + t, j, stride, len));
            assert(!in_slot(j * stride + t, xi, stride, len));
        }
        assert(slot(after, j, stride, len) =~= slot(before, j, stride, len));
    }
    assert forall|t: int|
        0 <= t < before.len() && (forall|j: int| 0 <= j < n ==> !#[trigger] in_slot(t, j, stride, len)) implies after[t]
        == before[t] by {
        assert(!in_slot(t, xi, stride, len));
    }
}

/// Subtracts from the polynomial `fx` the product of `f` and the small polynomial `k`
/// modulo `x^n + 1`, scaled by `2^(31 sch + scl)`, for `n = 2^logn`. Both hold big
/// integers, one every `fx_stride` (`f_stride`) words, each taken modulo `2^(31 fx_len)`
/// (read as signed on `f_len` limbs).
#[verifier::rlimit(40)]
pub fn poly_sub_scaled(
    fx: &mut [u32],
    fx_len: usize,
    fx_stride: usize,
    f: &[u32],
    f_len: usize,
    f_stride: usize,
    k: &[i32],
    sch: u32,
    scl: u32,
    logn: u32,
)
    requires
        logn < 32,
        0 < fx_len <= fx_stride,
        0 < f_len <= f_stride,
        pow2(logn as nat) * fx_stride <= old(fx)@.len(),
        pow2(logn as nat) * f_stride <= f@.len(),
        pow2(logn as nat) <= k@.len(),
        scl < 31,
        forall|u: int| 0 <= u < pow2(logn as nat) ==> #[trigger] k@[u] > i32::MIN,
        forall|j: int| 0 <= j < pow2(logn as nat) ==> limbs_ok(#[trigger] slot(old(fx)@, j, fx_stride as int, fx_len as int)),
        forall|j: int| 0 <= j < pow2(logn as nat) ==> limbs_ok(#[trigger] slot(f@, j, f_stride as int, f_len as int)),
    ensures
        final(fx)@.len() == old(fx)@.len(),
        forall|i: int|
            0 <= i < pow2(logn as nat) ==> limbs_ok(#[trigger] slot(final(fx)@, i, fx_stride as int, fx_len as int)),
        forall|i: int|
            0 <= i < pow2(logn as nat) ==> (zint_value(#[trigger] slot(final(fx)@, i, fx_stride as int, fx_len as int))
                - zint_value(slot(old(fx)@, i, fx_stride as int, fx_len as int)) + negacyclic_partial(
                k@,
                signed_values(f@, pow2(logn as nat) as int, f_stride as int, f_len as int),
                pow2(logn as nat) as int,
                i,
                pow2(logn as nat) as int,
            ) * pow2((31 * sch + scl) as nat)) % (pow2((31 * fx_len) as nat) as int) == 0,
        forall|t: int|
            0 <= t < old(fx)@.len() && (forall|j: int|
                0 <= j < pow2(logn as nat) ==> !#[trigger] in_slot(t, j, fx_stride as int, fx_len as int))
                ==> final(fx)@[t] == old(fx)@[t],
{
    let fxl = fx.len();
    let fl = f.len();
    proof {
        vstd::arithmetic::power2::lemma2_to64();
        if logn < 31 {
            vstd::arithmetic::power2::lemma_pow2_strictly_increases(logn as nat, 31);
        }
        vstd::arithmetic::power2::lemma_pow2_pos(logn as nat);
        assert(pow2(logn as nat) <= pow2(logn as nat) * fx_stride) by (nonlinear_arith)
            requires
                fx_stride >= 1,
        ;
        vstd::bits::lemma_usize_shl_is_mul(1, logn as usize);
    }
    let n: usize = 1usize << (logn as usize);
    let ghost start = fx@;
    let ghost fv = signed_values(f@, n as int, f_stride as int, f_len as int);
    let ghost ps = pow2((31 * sch + scl) as nat) as int;
    let ghost m = pow2((31 * fx_len) as nat) as int;
    proof {
        vstd::arithmetic::power2::lemma_pow2_pos((31 * fx_len) as nat);
        assert forall|i: int| 0 <= i < n implies (zint_value(slot(fx@, i, fx_stride as int, fx_len as int)) - zint_value(
            slot(start, i, fx_stride as int, fx_len as int),
        ) + negacyclic_partial(k@, fv, n as int, i, 0) * ps) % m == 0 by {
            assert(negacyclic_partial(k@, fv, n as int, i, 0) * ps == 0);
            vstd::arithmetic::div_mod::lemma_small_mod(0, m as nat);
        }
    }
    let mut u: usize = 0;
    while u < n
        invariant
            n == pow2(logn as nat),
            n <= 0x8000_0000,
            fxl == fx@.len(),
            fl == f@.len(),
            fx@.len() == start.len(),
            0 < fx_len <= fx_stride,
            0 < f_len <= f_stride,
            n * fx_stride <= start.len(),
            n * f_stride <= f@.len(),
            n <= k@.len(),
            scl < 31,
            m > 0,
            m == pow2((31 * fx_len) as nat),
            ps == pow2((31 * sch + scl) as nat),
            fv == signed_values(f@, n as int, f_stride as int, f_len as int),
            u <= n,
            forall|t: int| 0 <= t < n ==> #[trigger] k@[t] > i32::MIN,
            forall|j: int| 0 <= j < n ==> limbs_ok(#[trigger] slot(f@, j, f_stride as int, f_len as int)),
            forall|j: int| 0 <= j < n ==> limbs_ok(#[trigger] slot(fx@, j, fx_stride as int, fx_len as int)),
            forall|i: int|
                0 <= i < n ==> (zint_value(#[trigger] slot(fx@, i, fx_stride as int, fx_len as int)) - zint_value(
                    slot(start, i, fx_stride as int, fx_len as int),
                ) + negacyclic_partial(k@, fv, n as int, i, u as int) * ps) % m == 0,
            forall|t: int|
                0 <= t < start.len() && (forall|j: int| 0 <= j < n ==> !#[trigger] in_slot(t, j, fx_stride as int, fx_len as int))
                    ==> fx@[t] == start[t],
        decreases n - u,
    {
        let mut kf: i32 = -k[u];
        let mut xi: usize = u;
        let mut v: usize = 0;
        while v < n
            invariant
                n == pow2(logn as nat),
                n <= 0x8000_0000,
                fxl == fx@.len(),
                fl == f@.len(),
                fx@.len() == start.len(),
                0 < fx_len <= fx_stride,
                0 < f_len <= f_stride,
                n * fx_stride <= start.len(),
                n * f_stride <= f@.len(),
                n <= k@.len(),
                scl < 31,
                m > 0,
                m == pow2((31 * fx_len) as nat),
                ps == pow2((31 * sch + scl) as nat),
                fv == signed_values(f@, n as int, f_stride as int, f_len as int),
                u < n,
                v <= n,
                xi < n,
                xi as int == (if u + v < n { u + v } else { u + v - n }),
                kf as int == (if u + v < n { -k@[u as int] } else { k@[u as int] as int }),
                forall|t: int| 0 <= t < n ==> #[trigger] k@[t] > i32::MIN,
                forall|j: int| 0 <= j < n ==> limbs_ok(#[trigger] slot(f@, j, f_stride as int, f_len as int)),
                forall|j: int| 0 <= j < n ==> limbs_ok(#[trigger] slot(fx@, j, fx_stride as int, fx_len as int)),
                forall|i: int|
                    0 <= i < n ==> (zint_value(#[trigger] slot(fx@, i, fx_stride as int, fx_len as int)) - zint_value(
                        slot(start, i, fx_stride as int, fx_len as int),
                    ) + subtracted_so_far(k@, fv, n as int, i, u as int, v as int) * ps) % m == 0,
                forall|t: int|
                    0 <= t < start.len() && (forall|j: int|
                        0 <= j < n ==> !#[trigger] in_slot(t, j, fx_stride as int, fx_len as int)) ==> fx@[t] == start[t],
            decreases n - v,
        {
            proof {
                crate::modp::lemma_slots_apart(xi as int, if xi == 0 { 1 } else { 0 }, fx_stride as int, fx_len as int, n + 1);
                crate::modp::lemma_slots_apart(v as int, if v == 0 { 1 } else { 0 }, f_stride as int, f_len as int, n + 1);
                assert(xi * fx_stride + fx_len <= n * fx_stride) by (nonlinear_arith)
                    requires
                        xi < n,
                        fx_len <= fx_stride,
                ;
                assert(v * f_stride + f_len <= n * f_stride) by (nonlinear_arith)
                    requires
                        v < n,
                        f_len <= f_stride,
                ;
            }
            let base = xi * fx_stride;
            let ghost before = fx@;
            let mut cur = crate::modp::read_limbs(fx, base, fx_len);
            let fs = vstd::slice::slice_subrange(f, v * f_stride, v * f_stride + f_len);
            assert(cur@ == slot(before, xi as int, fx_stride as int, fx_len as int));
            assert(fs@ == slot(f@, v as int, f_stride as int, f_len as int));
            let ghost old_cur = cur@;
            zint_add_scaled_mul_small(cur.as_mut_slice(), fs, kf, sch, scl);
            crate::modp::write_limbs(fx, base, cur.as_slice());
            proof {
                lemma_slot_written(before, fx@, xi as int, cur@, fx_stride as int, fx_len as int, n as int);
                let i0 = xi as int;
                assert(column_of(n as int, i0, u as int) == v);
                let ku = k@[u as int] as int;
                let fw = fv[v as int];
                assert((-ku) * fw == -(ku * fw)) by (nonlinear_arith);
                if u + v < n {
                    assert(i0 - u == v);
                    assert(negacyclic_term(k@, fv, n as int, i0, u as int) == ku * fw);
                } else {
                    assert(i0 - u + n == v);
                    assert(negacyclic_term(k@, fv, n as int, i0, u as int) == -(ku * fw));
                }
                assert(kf * fv[v as int] == -negacyclic_term(k@, fv, n as int, i0, u as int));
                assert forall|i: int|
                    0 <= i < n implies (zint_value(#[trigger] slot(fx@, i, fx_stride as int, fx_len as int)) - zint_value(
                    slot(start, i, fx_stride as int, fx_len as int),
                ) + subtracted_so_far(k@, fv, n as int, i, u as int, v + 1) * ps) % m == 0 by {
                    if i == i0 {
                        let a2 = zint_value(cur@) as int;
                        let a1 = zint_value(old_cur) as int;
                        let b = zint_value(slot(start, i, fx_stride as int, fx_len as int)) as int;
                        let s = subtracted_so_far(k@, fv, n as int, i, u as int, v as int);
                        let t = negacyclic_term(k@, fv, n as int, i, u as int);
                        assert(subtracted_so_far(k@, fv, n as int, i, u as int, v + 1) == s + t);
                        assert(fs@.len() > 0);
                        assert(zint_signed(fs@) == fv[v as int]);
                        lemma_sum_of_multiples(a1 - b + s * ps, a2 - a1 - kf * fv[v as int] * ps, m);
                        assert(kf * fv[v as int] * ps == -(t * ps)) by (nonlinear_arith)
                            requires
                                kf * fv[v as int] == -t,
                        ;
                        assert((s + t) * ps == s * ps + t * ps) by (nonlinear_arith);
                    } else {
                        assert(column_of(n as int, i, u as int) != v);
                    }
                }
            }
            if u + v == n - 1 {
                xi = 0;
                kf = -kf;
            } else {
                xi = xi + 1;
            }
            v = v + 1;
        }
        proof {
            assert forall|i: int|
                0 <= i < n implies (zint_value(#[trigger] slot(fx@, i, fx_stride as int, fx_len as int)) - zint_value(
                slot(start, i, fx_stride as int, fx_len as int),
            ) + negacyclic_partial(k@, fv, n as int, i, u + 1) * ps) % m == 0 by {
                assert(column_of(n as int, i, u as int) < n);
                assert(subtracted_so_far(k@, fv, n as int, i, u as int, n as int) == negacyclic_partial(
                    k@,
                    fv,
                    n as int,
                    i,
                    u + 1,
                ));
            }
        }
        u = u + 1;
    }
}

/// Two multiples of `m` add up to one.
proof fn lemma_sum_of_multiples(a: int, b: int, m: int)
    requires
        m > 0,
        a % m == 0,
        b % m == 0,
    ensures
        (a + b) % m == 0,
{
    vstd::arithmetic::div_mod::lemma_add_mod_noop(a, b, m);
    vstd::arithmetic::div_mod::lemma_small_mod(0, m as nat);
}

/// The coefficients of a small polynomial as 32-bit numbers.
pub open spec fn widened(f: Seq<i8>) -> Seq<i32> {
    Seq::new(f.len(), |j: int| f[j] as i32)
}

/// The coefficients of a small polynomial as integers.
pub open spec fn coefficients(f: Seq<i8>) -> Seq<int> {
    Seq::new(f.len(), |j: int| f[j] as int)
}

/// Coefficient `i` of `f G - g F` modulo `x^n + 1`.
pub open spec fn ntru_coefficient(f: Seq<i8>, g: Seq<i8>, big_f: Seq<i8>, big_g: Seq<i8>, n: int, i: int) -> int {
    negacyclic_partial(widened(f), coefficients(big_g), n, i, n) - negacyclic_partial(
        widened(g),
        coefficients(big_f),
        n,
        i,
        n,
    )
}

/// The modulus of Falcon's NTRU equation.
pub const FALCON_Q: i64 = 12289;

/// Whether `f G - g F = q` modulo `x^n + 1`, for `n = 2^logn` and `q` Falcon's modulus
/// 12289: the equation that the solved `F` and `G` must meet with `f` and `g`.
pub fn ntru_equation_holds(logn: u32, f: &[i8], g: &[i8], big_f: &[i8], big_g: &[i8]) -> (r: bool)
    requires
        logn <= 10,
        pow2(logn as nat) <= f@.len(),
        pow2(logn as nat) <= g@.len(),
        pow2(logn as nat) <= big_f@.len(),
        pow2(logn as nat) <= big_g@.len(),
    ensures
        r <==> forall|i: int|
            0 <= i < pow2(logn as nat) ==> #[trigger] ntru_coefficient(f@, g@, big_f@, big_g@, pow2(logn as nat) as int, i)
                == (if i == 0 {
                FALCON_Q as int
            } else {
                0
            }),
{
    proof {
        vstd::arithmetic::power2::lemma2_to64();
        if logn < 10 {
            vstd::arithmetic::power2::lemma_pow2_strictly_increases(logn as nat, 10);
        }
        vstd::arithmetic::power2::lemma_pow2_pos(logn as nat);
        vstd::bits::lemma_usize_shl_is_mul(1, logn as usize);
    }
    let n: usize = 1usize << (logn as usize);
    let ghost nn = n as int;
    let ghost (wf, wg, cf, cg) = (widened(f@), widened(g@), coefficients(big_f@), coefficients(big_g@));
    let mut i: usize = 0;
    while i < n
        invariant
            n == pow2(logn as nat),
            nn == n,
            n <= 1024,
            n <= f@.len(),
            n <= g@.len(),
            n <= big_f@.len(),
            n <= big_g@.len(),
            wf == widened(f@),
            wg == widened(g@),
            cf == coefficients(big_f@),
            cg == coefficients(big_g@),
            i <= n,
            forall|t: int|
                0 <= t < i ==> #[trigger] ntru_coefficient(f@, g@, big_f@, big_g@, nn, t) == (if t == 0 {
                    FALCON_Q as int
                } else {
                    0
                }),
        decreases n - i,
    {
        let mut acc: i64 = 0;
        let mut u: usize = 0;
        while u < n
            invariant
                n == pow2(logn as nat),
                nn == n,
                n <= 1024,
                n <= f@.len(),
                n <= g@.len(),
                n <= big_f@.len(),
                n <= big_g@.len(),
                wf == widened(f@),
                wg == widened(g@),
                cf == coefficients(big_f@),
                cg == coefficients(big_g@),
                i < n,
                u <= n,
                acc == negacyclic_partial(wf, cg, nn, i as int, u as int) - negacyclic_partial(wg, cf, nn, i as int, u as int),
                -0x8000 * u <= acc <= 0x8000 * u,
            decreases n - u,
        {
            let j = if u <= i {
                i - u
            } else {
                i + n - u
            };
            proof {
                let fu = f@[u as int] as int;
                let gu = g@[u as int] as int;
                let bg = big_g@[j as int] as int;
                let bf = big_f@[j as int] as int;
                assert(-0x4000 <= fu * bg <= 0x4000) by (nonlinear_arith)
                    requires
                        -128 <= fu <= 127,
                        -128 <= bg <= 127,
                ;
                assert(-0x4000 <= gu * bf <= 0x4000) by (nonlinear_arith)
                    requires
                        -128 <= gu <= 127,
                        -128 <= bf <= 127,
                ;
                assert(wf[u as int] == f@[u as int] && wg[u as int] == g@[u as int]);
                assert(cg[j as int] == big_g@[j as int] && cf[j as int] == big_f@[j as int]);
            }
            let a = f[u] as i64 * big_g[j] as i64;
            let b = g[u] as i64 * big_f[j] as i64;
            proof {
                let tf = negacyclic_term(wf, cg, nn, i as int, u as int);
                let tg = negacyclic_term(wg, cf, nn, i as int, u as int);
                assert(a as int == wf[u as int] * cg[j as int]);
                assert(b as int == wg[u as int] * cf[j as int]);
                if u <= i {
                    assert(j as int == i - u);
                    assert(tf - tg == a - b);
                } else {
                    assert(j as int == i - u + nn);
                    assert(tf - tg == -(a - b));
                }
                assert(negacyclic_partial(wf, cg, nn, i as int, u + 1) == negacyclic_partial(wf, cg, nn, i as int, u as int)
                    + tf);
                assert(negacyclic_partial(wg, cf, nn, i as int, u + 1) == negacyclic_partial(wg, cf, nn, i as int, u as int)
                    + tg);
            }
            if u <= i {
                acc = acc + (a - b);
            } else {
                acc = acc - (a - b);
            }
            u = u + 1;
        }
        let want: i64 = if i == 0 {
            FALCON_Q
        } else {
            0
        };
        assert(acc == ntru_coefficient(f@, g@, big_f@, big_g@, nn, i as int));
        if acc != want {
            return false;
        }
        i = i + 1;
    }
    true
}

} // verus!
