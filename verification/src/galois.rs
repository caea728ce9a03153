//! Arithmetic in the finite field GF(2^8) with field polynomial
//! x^8 + x^4 + x^3 + x^2 + 1 (0x11d).

use vstd::prelude::*;

verus! {

/// Carry-less product of two bytes: a polynomial over GF(2) of degree at most 14.
pub open spec fn clmul(a: u8, b: u8) -> u16 {
    let x = a as u16;
    (if b & 1u8 != 0 { x } else { 0u16 }) ^ (if b & 2u8 != 0 { x << 1u16 } else { 0u16 }) ^ (if b
        & 4u8 != 0 {
        x << 2u16
    } else {
        0u16
    }) ^ (if b & 8u8 != 0 { x << 3u16 } else { 0u16 }) ^ (if b & 16u8 != 0 {
        x << 4u16
    } else {
        0u16
    }) ^ (if b & 32u8 != 0 { x << 5u16 } else { 0u16 }) ^ (if b & 64u8 != 0 {
        x << 6u16
    } else {
        0u16
    }) ^ (if b & 128u8 != 0 { x << 7u16 } else { 0u16 })
}

/// Remainder of a polynomial of degree at most 14 modulo the field polynomial,
/// using the residues of x^8 .. x^14.
pub open spec fn reduce(p: u16) -> u8 {
    (p & 0xffu16) as u8 ^ (if p & 0x100u16 != 0 { 0x1du8 } else { 0u8 }) ^ (if p & 0x200u16 != 0 {
        0x3au8
    } else {
        0u8
    }) ^ (if p & 0x400u16 != 0 { 0x74u8 } else { 0u8 }) ^ (if p & 0x800u16 != 0 {
        0xe8u8
    } else {
        0u8
    }) ^ (if p & 0x1000u16 != 0 { 0xcdu8 } else { 0u8 }) ^ (if p & 0x2000u16 != 0 {
        0x87u8
    } else {
        0u8
    }) ^ (if p & 0x4000u16 != 0 { 0x13u8 } else { 0u8 })
}

/// Product of two field elements.
#[verifier::opaque]
pub open spec fn gf_mul(a: u8, b: u8) -> u8 {
    reduce(clmul(a, b))
}

/// `a` raised to the power `n`.
pub open spec fn gf_pow(a: u8, n: nat) -> u8
    decreases n,
{
    if n == 0 {
        1
    } else {
        gf_mul(gf_pow(a, (n - 1) as nat), a)
    }
}

/// The multiplicative inverse of a non-zero element, `b^254`.
pub open spec fn gf_inv(b: u8) -> u8 {
    gf_pow(b, 254)
}

proof fn bv_mul_commutative(a: u8, b: u8)
    by (bit_vector)
    ensures
        reduce(clmul(a, b)) == reduce(clmul(b, a)),
{
}

proof fn bv_mul_distributive(a: u8, b: u8, c: u8)
    by (bit_vector)
    ensures
        reduce(clmul(a, b ^ c)) == reduce(clmul(a, b)) ^ reduce(clmul(a, c)),
{
}

proof fn bv_mul_one_zero(y: u8)
    by (bit_vector)
    ensures
        reduce(clmul(y, 1u8)) == y,
        reduce(clmul(1u8, y)) == y,
        reduce(clmul(y, 0u8)) == 0u8,
        reduce(clmul(0u8, y)) == 0u8,
        reduce(clmul(1u8, 2u8)) == 2u8,
        reduce(clmul(2u8, 2u8)) == 4u8,
        reduce(clmul(4u8, 2u8)) == 8u8,
        reduce(clmul(8u8, 2u8)) == 16u8,
        reduce(clmul(16u8, 2u8)) == 32u8,
        reduce(clmul(32u8, 2u8)) == 64u8,
        reduce(clmul(64u8, 2u8)) == 128u8,
{
}

proof fn bv_assoc_x(a: u8, b: u8)
    by (bit_vector)
    ensures
        reduce(clmul(reduce(clmul(a, b)), 2u8)) == reduce(clmul(a, reduce(clmul(b, 2u8)))),
{
}

/// Multiplication is commutative.
pub proof fn lemma_mul_commutative(a: u8, b: u8)
    ensures
        gf_mul(a, b) == gf_mul(b, a),
{
    reveal(gf_mul);
    bv_mul_commutative(a, b);
}

/// Multiplication distributes over addition (xor).
pub proof fn lemma_mul_distributive(a: u8, b: u8, c: u8)
    ensures
        gf_mul(a, b ^ c) == gf_mul(a, b) ^ gf_mul(a, c),
{
    reveal(gf_mul);
    bv_mul_distributive(a, b, c);
}

/// One is the multiplicative identity and zero annihilates.
pub proof fn lemma_mul_one_zero(y: u8)
    ensures
        gf_mul(y, 1u8) == y,
        gf_mul(1u8, y) == y,
        gf_mul(y, 0u8) == 0u8,
        gf_mul(0u8, y) == 0u8,
{
    reveal(gf_mul);
    bv_mul_one_zero(y);
}

proof fn lemma_assoc_x(a: u8, b: u8)
    ensures
        gf_mul(gf_mul(a, b), 2u8) == gf_mul(a, gf_mul(b, 2u8)),
{
    reveal(gf_mul);
    bv_assoc_x(a, b);
}

proof fn lemma_x_powers()
    ensures
        gf_mul(1u8, 2u8) == 2u8,
        gf_mul(2u8, 2u8) == 4u8,
        gf_mul(4u8, 2u8) == 8u8,
        gf_mul(8u8, 2u8) == 16u8,
        gf_mul(16u8, 2u8) == 32u8,
        gf_mul(32u8, 2u8) == 64u8,
        gf_mul(64u8, 2u8) == 128u8,
{
    reveal(gf_mul);
    bv_mul_one_zero(0u8);
}

spec fn assoc_at(a: u8, b: u8, c: u8) -> bool {
    gf_mul(gf_mul(a, b), c) == gf_mul(a, gf_mul(b, c))
}

proof fn lemma_assoc_double(a: u8, b: u8, c: u8, d: u8)
    requires
        assoc_at(a, b, c),
        gf_mul(gf_mul(a, b), c) == gf_mul(a, gf_mul(b, c)),
        d == gf_mul(c, 2u8),
    ensures
        assoc_at(a, b, d),
{
    let p = gf_mul(a, b);
    // (p * c) * x == p * (c * x), and likewise with b in place of p
    lemma_assoc_x(p, c);
    lemma_assoc_x(b, c);
    lemma_assoc_x(a, gf_mul(b, c));
}

proof fn lemma_assoc_bits(a: u8, b: u8)
    ensures
        assoc_at(a, b, 0u8),
        assoc_at(a, b, 1u8),
        assoc_at(a, b, 2u8),
        assoc_at(a, b, 4u8),
        assoc_at(a, b, 8u8),
        assoc_at(a, b, 16u8),
        assoc_at(a, b, 32u8),
        assoc_at(a, b, 64u8),
        assoc_at(a, b, 128u8),
{
    lemma_mul_one_zero(gf_mul(a, b));
    lemma_mul_one_zero(b);
    lemma_mul_one_zero(a);
    lemma_x_powers();
    lemma_assoc_double(a, b, 1u8, 2u8);
    lemma_assoc_double(a, b, 2u8, 4u8);
    lemma_assoc_double(a, b, 4u8, 8u8);
    lemma_assoc_double(a, b, 8u8, 16u8);
    lemma_assoc_double(a, b, 16u8, 32u8);
    lemma_assoc_double(a, b, 32u8, 64u8);
    lemma_assoc_double(a, b, 64u8, 128u8);
}

proof fn lemma_assoc_sum(a: u8, b: u8, c: u8, r: u8)
    requires
        assoc_at(a, b, c),
        assoc_at(a, b, r),
    ensures
        assoc_at(a, b, c ^ r),
{
    lemma_mul_distributive(gf_mul(a, b), c, r);
    lemma_mul_distributive(b, c, r);
    lemma_mul_distributive(a, gf_mul(b, c), gf_mul(b, r));
}

/// Multiplication is associative.
pub proof fn lemma_mul_associative(a: u8, b: u8, c: u8)
    ensures
        gf_mul(gf_mul(a, b), c) == gf_mul(a, gf_mul(b, c)),
{
    lemma_assoc_bits(a, b);
    let c0 = c & 1u8;
    let c1 = c & 2u8;
    let c2 = c & 4u8;
    let c3 = c & 8u8;
    let c4 = c & 16u8;
    let c5 = c & 32u8;
    let c6 = c & 64u8;
    let c7 = c & 128u8;
    assert(c == c0 ^ (c1 ^ (c2 ^ (c3 ^ (c4 ^ (c5 ^ (c6 ^ c7)))))) && (c0 == 0u8 || c0 == 1u8) && (c1 == 0u8 || c1
        == 2u8) && (c2 == 0u8 || c2 == 4u8) && (c3 == 0u8 || c3 == 8u8) && (c4 == 0u8 || c4 == 16u8) && (c5 == 0u8
        || c5 == 32u8) && (c6 == 0u8 || c6 == 64u8) && (c7 == 0u8 || c7 == 128u8)) by (bit_vector)
        requires
            c0 == c & 1u8,
            c1 == c & 2u8,
            c2 == c & 4u8,
            c3 == c & 8u8,
            c4 == c & 16u8,
            c5 == c & 32u8,
            c6 == c & 64u8,
            c7 == c & 128u8,
    ;
    lemma_assoc_sum(a, b, c6, c7);
    lemma_assoc_sum(a, b, c5, c6 ^ c7);
    lemma_assoc_sum(a, b, c4, c5 ^ (c6 ^ c7));
    lemma_assoc_sum(a, b, c3, c4 ^ (c5 ^ (c6 ^ c7)));
    lemma_assoc_sum(a, b, c2, c3 ^ (c4 ^ (c5 ^ (c6 ^ c7))));
    lemma_assoc_sum(a, b, c1, c2 ^ (c3 ^ (c4 ^ (c5 ^ (c6 ^ c7)))));
    lemma_assoc_sum(a, b, c0, c1 ^ (c2 ^ (c3 ^ (c4 ^ (c5 ^ (c6 ^ c7))))));
}

proof fn bv_order(
    a: u8,
    s1: u8,
    s2: u8,
    s3: u8,
    s4: u8,
    s5: u8,
    s6: u8,
    s7: u8,
    p1: u8,
    p2: u8,
    p3: u8,
    p4: u8,
    p5: u8,
    p6: u8,
    p7: u8,
)
    by (bit_vector)
    requires
        a != 0u8,
        s1 == reduce(clmul(a, a)),
        s2 == reduce(clmul(s1, s1)),
        s3 == reduce(clmul(s2, s2)),
        s4 == reduce(clmul(s3, s3)),
        s5 == reduce(clmul(s4, s4)),
        s6 == reduce(clmul(s5, s5)),
        s7 == reduce(clmul(s6, s6)),
        p1 == reduce(clmul(a, s1)),
        p2 == reduce(clmul(p1, s2)),
        p3 == reduce(clmul(p2, s3)),
        p4 == reduce(clmul(p3, s4)),
        p5 == reduce(clmul(p4, s5)),
        p6 == reduce(clmul(p5, s6)),
        p7 == reduce(clmul(p6, s7)),
    ensures
        p7 == 1u8,
{
}

/// Powers add: `a^(m + n) == a^m * a^n`.
pub proof fn lemma_pow_add(a: u8, m: nat, n: nat)
    ensures
        gf_pow(a, m + n) == gf_mul(gf_pow(a, m), gf_pow(a, n)),
    decreases n,
{
    if n == 0 {
        lemma_mul_one_zero(gf_pow(a, m));
    } else {
        lemma_pow_add(a, m, (n - 1) as nat);
        assert(gf_pow(a, m + n) == gf_mul(gf_pow(a, (m + n - 1) as nat), a));
        lemma_mul_associative(gf_pow(a, m), gf_pow(a, (n - 1) as nat), a);
    }
}

/// Every non-zero element has multiplicative order dividing 255: `a^255 == 1`.
pub proof fn lemma_pow_order(a: u8)
    requires
        a != 0,
    ensures
        gf_pow(a, 255) == 1,
{
    lemma_mul_one_zero(a);
    assert(gf_pow(a, 1) == a) by {
        reveal_with_fuel(gf_pow, 2);
    }
    lemma_pow_add(a, 1, 1);
    lemma_pow_add(a, 2, 2);
    lemma_pow_add(a, 4, 4);
    lemma_pow_add(a, 8, 8);
    lemma_pow_add(a, 16, 16);
    lemma_pow_add(a, 32, 32);
    lemma_pow_add(a, 64, 64);
    lemma_pow_add(a, 1, 2);
    lemma_pow_add(a, 3, 4);
    lemma_pow_add(a, 7, 8);
    lemma_pow_add(a, 15, 16);
    lemma_pow_add(a, 31, 32);
    lemma_pow_add(a, 63, 64);
    lemma_pow_add(a, 127, 128);
    reveal(gf_mul);
    bv_order(
        a,
        gf_pow(a, 2),
        gf_pow(a, 4),
        gf_pow(a, 8),
        gf_pow(a, 16),
        gf_pow(a, 32),
        gf_pow(a, 64),
        gf_pow(a, 128),
        gf_pow(a, 3),
        gf_pow(a, 7),
        gf_pow(a, 15),
        gf_pow(a, 31),
        gf_pow(a, 63),
        gf_pow(a, 127),
        gf_pow(a, 255),
    );
}

/// Zero raised to a positive power is zero.
pub proof fn lemma_pow_zero(n: nat)
    requires
        n > 0,
    ensures
        gf_pow(0u8, n) == 0,
{
    lemma_mul_one_zero(gf_pow(0u8, (n - 1) as nat));
}

/// For a non-zero base only the exponent modulo 255 matters.
pub proof fn lemma_pow_mod(a: u8, n: nat)
    requires
        a != 0,
    ensures
        gf_pow(a, n) == gf_pow(a, n % 255),
    decreases n,
{
    if n >= 255 {
        lemma_pow_mod(a, (n - 255) as nat);
        lemma_pow_add(a, (n - 255) as nat, 255);
        lemma_pow_order(a);
        lemma_mul_one_zero(gf_pow(a, (n - 255) as nat));
        assert((n - 255) as nat % 255 == n % 255) by (nonlinear_arith)
            requires
                n >= 255,
        ;
    } else {
        assert(n % 255 == n);
    }
}

/// `gf_inv(b)` is the inverse of every non-zero `b`.
pub proof fn lemma_inverse(b: u8)
    requires
        b != 0,
    ensures
        gf_mul(gf_inv(b), b) == 1,
        gf_mul(b, gf_inv(b)) == 1,
{
    lemma_pow_order(b);
    lemma_mul_commutative(gf_inv(b), b);
}

/// Division undoes multiplication: `(a / b) * b == a` for every non-zero `b`.
pub proof fn lemma_div_mul(a: u8, b: u8)
    requires
        b != 0,
    ensures
        gf_mul(gf_mul(a, gf_inv(b)), b) == a,
{
    lemma_inverse(b);
    lemma_mul_associative(a, gf_inv(b), b);
    lemma_mul_one_zero(a);
}

/// Multiplication undoes division: `(a * b) / b == a` for every non-zero `b`.
pub proof fn lemma_mul_div(a: u8, b: u8)
    requires
        b != 0,
    ensures
        gf_mul(gf_mul(a, b), gf_inv(b)) == a,
{
    lemma_inverse(b);
    lemma_mul_associative(a, b, gf_inv(b));
    lemma_mul_one_zero(a);
}

/// Add two elements.
pub fn add(a: u8, b: u8) -> (r: u8)
    ensures
        r == a ^ b,
{
    a ^ b
}

/// Multiply two elements.
pub fn mul(a: u8, b: u8) -> (r: u8)
    ensures
        r == gf_mul(a, b),
{
    let x = a as u16;
    // carry-less product
    let p: u16 = (if b & 1u8 != 0 { x } else { 0u16 }) ^ (if b & 2u8 != 0 {
        x << 1u16
    } else {
        0u16
    }) ^ (if b & 4u8 != 0 { x << 2u16 } else { 0u16 }) ^ (if b & 8u8 != 0 {
        x << 3u16
    } else {
        0u16
    }) ^ (if b & 16u8 != 0 { x << 4u16 } else { 0u16 }) ^ (if b & 32u8 != 0 {
        x << 5u16
    } else {
        0u16
    }) ^ (if b & 64u8 != 0 { x << 6u16 } else { 0u16 }) ^ (if b & 128u8 != 0 {
        x << 7u16
    } else {
        0u16
    });
    // reduction modulo the field polynomial
    let low: u8 = #[verifier::truncate] ((p & 0xffu16) as u8);
    let r: u8 = low ^ (if p & 0x100u16 != 0 { 0x1du8 } else { 0u8 }) ^ (if p & 0x200u16 != 0 {
        0x3au8
    } else {
        0u8
    }) ^ (if p & 0x400u16 != 0 { 0x74u8 } else { 0u8 }) ^ (if p & 0x800u16 != 0 {
        0xe8u8
    } else {
        0u8
    }) ^ (if p & 0x1000u16 != 0 { 0xcdu8 } else { 0u8 }) ^ (if p & 0x2000u16 != 0 {
        0x87u8
    } else {
        0u8
    }) ^ (if p & 0x4000u16 != 0 { 0x13u8 } else { 0u8 });
    proof {
        reveal(gf_mul);
    }
    r
}

/// Divide one element by another. `b`, the divisor, may not be 0: then there is no result.
pub fn div(a: u8, b: u8) -> (r: Option<u8>)
    ensures
        b == 0 ==> r is None,
        b != 0 ==> r == Some(gf_mul(a, gf_inv(b))),
{
    if b == 0 {
        return None;
    }
    if a == 0 {
        proof {
            lemma_mul_one_zero(gf_inv(b));
        }
        return Some(0);
    }
    let inv = exp(b, 254);
    Some(self::mul(a, inv))
}

/// Compute a^n.
pub fn exp(a: u8, n: usize) -> (r: u8)
    ensures
        r == gf_pow(a, n as nat),
{
    if n == 0 {
        1
    } else if a == 0 {
        proof {
            lemma_pow_zero(n as nat);
        }
        0
    } else {
        // the multiplicative group has order 255
        let k = n % 255;
        let mut r: u8 = 1;
        let mut i: usize = 0;
        while i < k
            invariant
                i <= k,
                r == gf_pow(a, i as nat),
            decreases k - i,
        {
            r = self::mul(r, a);
            i = i + 1;
        }
        proof {
            lemma_pow_mod(a, n as nat);
        }
        r
    }
}

/// Multiply every byte of `input` by `c`, writing the products to `out`.
pub fn mul_slice(c: u8, input: &[u8], out: &mut [u8])
    requires
        input@.len() == old(out)@.len(),
    ensures
        final(out)@.len() == input@.len(),
        forall|i: int| 0 <= i < input@.len() ==> #[trigger] final(out)@[i] == gf_mul(c, input@[i]),
{
    let n = input.len();
    let mut i: usize = 0;
    while i < n
        invariant
            n == input@.len(),
            out@.len() == n,
            i <= n,
            forall|j: int| 0 <= j < i ==> #[trigger] out@[j] == gf_mul(c, input@[j]),
        decreases n - i,
    {
        out[i] = self::mul(c, input[i]);
        i = i + 1;
    }
}

/// Add the products of every byte of `input` with `c` into `out`.
pub fn mul_slice_xor(c: u8, input: &[u8], out: &mut [u8])
    requires
        input@.len() == old(out)@.len(),
    ensures
        final(out)@.len() == input@.len(),
        forall|i: int|
            0 <= i < input@.len() ==> #[trigger] final(out)@[i] == old(out)@[i] ^ gf_mul(
                c,
                input@[i],
            ),
{
    let n = input.len();
    let mut i: usize = 0;
    while i < n
        invariant
            n == input@.len(),
            out@.len() == n,
            i <= n,
            forall|j: int| 0 <= j < i ==> #[trigger] out@[j] == old(out)@[j] ^ gf_mul(c, input@[j]),
            forall|j: int| i <= j < n ==> #[trigger] out@[j] == old(out)@[j],
        decreases n - i,
    {
        out[i] = out[i] ^ self::mul(c, input[i]);
        i = i + 1;
    }
}

} // verus!
