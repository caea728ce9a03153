use orion_utils::modp::{
    modp_add, modp_div, modp_montymul, modp_ninv31, modp_norm, modp_r, modp_r2, modp_rx, modp_set, modp_sub, zint_add_mul_small,
    small_prime, zint_add_scaled_mul_small, zint_bezout, zint_co_reduce, zint_co_reduce_mod, zint_finish_mod, zint_mod_small_signed,
    zint_mod_small_unsigned, zint_mul_small, zint_negate, zint_norm_zero, zint_rebuild_CRT, zint_sub,
    zint_sub_scaled,
};

const P: u32 = 2147473409;
const P0I: u32 = 2042615807;

#[test]
fn small_modular_operations() {
    assert_eq!(modp_set(-5, P), P - 5);
    assert_eq!(modp_set(5, P), 5);
    assert_eq!(modp_norm(5, P), 5);
    assert_eq!(modp_norm(P - 5, P), -5);
    assert_eq!(modp_r(P), (1u32 << 31) - P);
    assert_eq!(modp_add(P - 1, 3, P), 2);
    assert_eq!(modp_add(1, 3, P), 4);
    assert_eq!(modp_sub(1, 3, P), P - 2);
    assert_eq!(modp_sub(3, 1, P), 2);
}

#[test]
fn montgomery_product_divides_by_r() {
    assert_eq!(modp_montymul(123456789, 987654321, P, P0I), 588659901);
    assert_eq!(modp_r2(P, P0I), 104837121);
    // multiplying by R^2 then dividing by R gives R times the number
    let r = modp_r(P);
    assert_eq!(modp_montymul(1, modp_r2(P, P0I), P, P0I), r);
}

#[test]
fn big_integers_modulo_a_small_prime() {
    let r2 = modp_r2(P, P0I);
    assert_eq!(zint_mod_small_unsigned(&[5, 7, 1], P, P0I, r2), 104908799);
    assert_eq!(zint_mod_small_unsigned(&[], P, P0I, r2), 0);
    assert_eq!(zint_mod_small_signed(&[5, 7, 0x4000_0001], P, P0I, r2, 1838050828), 1333356794);
    assert_eq!(zint_mod_small_signed(&[], P, P0I, r2, 1), 0);
}

#[test]
fn big_integer_products_and_differences() {
    let mut m = [0x7fff_ffffu32, 3];
    assert_eq!(zint_mul_small(&mut m, 5), 0);
    assert_eq!(m, [2147483643, 19]);

    let mut x = [1u32, 2, 99];
    zint_add_mul_small(&mut x, &[0x7fff_ffff, 1], 3);
    assert_eq!(x, [2147483646, 7, 0]);

    let mut a = [5u32, 1];
    assert_eq!(zint_sub(&mut a, &[6, 0], 0), 0);
    assert_eq!(a, [5, 1]);
    assert_eq!(zint_sub(&mut a, &[6, 0], 1), 0);
    assert_eq!(a, [0x7fff_ffff, 0]);
    let mut c = [1u32, 0];
    assert_eq!(zint_sub(&mut c, &[2, 0], 1), 1);
    assert_eq!(c, [0x7fff_ffff, 0x7fff_ffff]);
}

#[test]
fn newton_iteration_finds_minus_the_inverse() {
    assert_eq!(modp_ninv31(P), P0I);
    assert_eq!(modp_ninv31(1), 0x7fff_ffff);
    let p0i = modp_ninv31(12289);
    assert_eq!((12289u64 * p0i as u64) % (1 << 31), 0x7fff_ffff);
}

#[test]
fn powers_of_the_montgomery_constant() {
    let r2 = modp_r2(P, P0I);
    assert_eq!(modp_rx(1, P, P0I, r2), 10239);
    assert_eq!(modp_rx(3, P, P0I, r2), 1838050828);
    assert_eq!(modp_rx(5, P, P0I, r2), 546337913);
}

#[test]
fn negation_is_modulo_the_width() {
    let mut a = [5u32, 0];
    zint_negate(&mut a, 1);
    assert_eq!(a, [0x7fff_fffb, 0x7fff_ffff]);
    zint_negate(&mut a, 0);
    assert_eq!(a, [0x7fff_fffb, 0x7fff_ffff]);
    zint_negate(&mut a, 1);
    assert_eq!(a, [5, 0]);
    let mut z = [0u32, 0];
    zint_negate(&mut z, 1);
    assert_eq!(z, [0, 0]);
}

#[test]
fn finishing_a_reduction_lands_below_the_modulus() {
    let m = [7u32, 1];
    let mut a = [10u32, 1];
    zint_finish_mod(&mut a, &m, 0);
    assert_eq!(a, [3, 0]);
    let mut b = [3u32, 0];
    zint_finish_mod(&mut b, &m, 0);
    assert_eq!(b, [3, 0]);
    // minus two, as two's complement, comes back as m - 2
    let mut c = [0x7fff_fffeu32, 0x7fff_ffff];
    zint_finish_mod(&mut c, &m, 1);
    assert_eq!(c, [5, 1]);
}

#[test]
fn co_reduction_divides_exactly_and_reports_signs() {
    let mut a = [0u32, 1];
    let mut b = [0u32, 2];
    let r = zint_co_reduce(&mut a, &mut b, 1, 1, 1, -1);
    assert_eq!(a, [3, 0]);
    assert_eq!(b, [1, 0]);
    assert_eq!(r, 2);
}

#[test]
fn modular_co_reduction_divides_by_the_word_modulo_m() {
    let m = [7u32, 1];
    let m0i = 1227133513;
    let mut a = [3u32, 0];
    let mut b = [5u32, 0];
    zint_co_reduce_mod(&mut a, &mut b, &m, m0i, 1, 2, -3, 1);
    assert_eq!(a, [920350136, 0]);
    assert_eq!(b, [1533916897, 0]);
}

fn crt_table() -> Vec<small_prime> {
    vec![
        small_prime { p: 2147473409, g: 383167813, s: 10239 },
        small_prime { p: 2147389441, g: 211808905, s: 471403745 },
        small_prime { p: 2147387393, g: 37672282, s: 1329335065 },
    ]
}

#[test]
fn signed_normalization_takes_off_the_modulus_above_half() {
    let p = [7u32, 1];
    let mut small = [3u32, 0];
    zint_norm_zero(&mut small, &p);
    assert_eq!(small, [3, 0]);
    // p / 2 is 2^30 + 3: one more is read as negative
    let mut big = [0x4000_0004u32, 0];
    zint_norm_zero(&mut big, &p);
    assert_eq!(big, [0x3fff_fffd, 0x7fff_ffff]);
    let mut half = [0x4000_0003u32, 0];
    zint_norm_zero(&mut half, &p);
    assert_eq!(half, [0x4000_0003, 0]);
}

#[test]
fn crt_rebuild_recovers_numbers_from_residues() {
    let primes = crt_table();
    let mut xx = [863380389u32, 795222749, 431649446, 99, 2147473404, 2147389436, 2147387388];
    zint_rebuild_CRT(&mut xx, 3, 4, 2, &primes, 0);
    assert_eq!(xx, [640742222, 57489047, 0, 99, 280817660, 280573728, 2147282952]);
}

#[test]
fn crt_rebuild_can_read_results_as_signed() {
    let primes = crt_table();
    let mut xx = [863380389u32, 795222749, 431649446, 2147473404, 2147389436, 2147387388, 1073736711, 1073694727, 1073693703];
    zint_rebuild_CRT(&mut xx, 3, 3, 3, &primes, 1);
    assert_eq!(&xx[0..3], &[640742222, 57489047, 0]);
    assert_eq!(&xx[3..6], &[2147483643, 2147483647, 2147483647]);
    assert_eq!(&xx[6..9], &[2007074822, 2007196783, 1073842171]);
}

fn limbs_value(limbs: &[u32]) -> u128 {
    let mut v: u128 = 0;
    for l in limbs.iter().rev() {
        v = (v << 31) + (*l as u128);
    }
    v
}

#[test]
fn bezout_solves_for_small_coprime_numbers() {
    let mut u = [0u32; 1];
    let mut v = [0u32; 1];
    assert_eq!(zint_bezout(&mut u, &mut v, &[7], &[5]), 1);
    assert_eq!((u[0], v[0]), (3, 4));
    assert_eq!(7 * u[0] - 5 * v[0], 1);
}

#[test]
fn bezout_solves_across_limbs() {
    let x = [0x1234_5679u32, 0x0000_1234];
    let y = [0x7654_3211u32, 0x0000_0987];
    let mut u = [0u32; 2];
    let mut v = [0u32; 2];
    assert_eq!(zint_bezout(&mut u, &mut v, &x, &y), 1);
    let (xv, yv, uv, vv) = (limbs_value(&x), limbs_value(&y), limbs_value(&u), limbs_value(&v));
    assert!(uv < yv && vv < xv);
    assert_eq!(xv * uv - yv * vv, 1);
}

#[test]
fn bezout_refuses_even_or_common_factors() {
    let mut u = [0u32; 1];
    let mut v = [0u32; 1];
    assert_eq!(zint_bezout(&mut u, &mut v, &[6], &[5]), 0);
    assert_eq!(zint_bezout(&mut u, &mut v, &[7], &[8]), 0);
    assert_eq!(zint_bezout(&mut u, &mut v, &[9], &[15]), 0);
    assert_eq!(zint_bezout(&mut [], &mut [], &[], &[]), 0);
}

#[test]
fn division_modulo_a_prime() {
    let p0i = modp_ninv31(P);
    let r = modp_r(P);
    assert_eq!(modp_div(6, 3, P, p0i, r), 2);
    assert_eq!(modp_div(1, 2, P, p0i, r), (P + 1) / 2);
    assert_eq!(modp_div(0, 5, P, p0i, r), 0);
    let q = modp_div(7, 11, P, p0i, r);
    assert_eq!((q as u64 * 11) % P as u64, 7);
}

#[test]
fn scaled_subtraction_shifts_and_extends_the_sign() {
    let mut x = [10u32, 0];
    zint_sub_scaled(&mut x, &[3], 0, 1);
    assert_eq!(x, [4, 0]);
    let mut x = [5u32, 0];
    zint_sub_scaled(&mut x, &[0x7fff_ffff], 1, 0);
    assert_eq!(x, [5, 1]);
    let mut x = [0u32, 0];
    zint_sub_scaled(&mut x, &[0x3fff_ffff], 0, 2);
    assert_eq!(x, [4, 2147483646]);
    let mut x = [0x1234567u32, 0x7654321, 0x1111];
    zint_sub_scaled(&mut x, &[0x3fff0000, 0x1234], 0, 7);
    assert_eq!(x, [0x1a34567, 0x75c28e1, 0x1111]);
    let mut x = [7u32, 8];
    zint_sub_scaled(&mut x, &[], 0, 0);
    assert_eq!(x, [7, 8]);
}

#[test]
fn scaled_multiply_add_with_a_signed_factor() {
    let mut x = [1u32, 0];
    zint_add_scaled_mul_small(&mut x, &[3], -2, 0, 3);
    assert_eq!(x, [2147483601, 2147483647]);
    let mut x = [0x1234567u32, 0x7654321, 0x1111];
    zint_add_scaled_mul_small(&mut x, &[0x7fff0000, 0x7fffffff], -0x7fffffff, 1, 30);
    assert_eq!(x, [0x1234567, 0x7654321, 0x7fff9111]);
    let mut x = [1u32, 2];
    zint_add_scaled_mul_small(&mut x, &[5], 9, 2, 0);
    assert_eq!(x, [1, 2]);
}
