use orion_utils::modp::{modp_ninv31, modp_r2, zint_one_to_plain};
use orion_utils::poly::{modp_poly_rec_res, ntru_equation_holds, poly_big_to_small, poly_small_sqnorm, poly_sub_scaled};

const P: u32 = 2147473409;

#[test]
fn one_limb_integers_read_as_signed() {
    assert_eq!(zint_one_to_plain(&[5]), 5);
    assert_eq!(zint_one_to_plain(&[0x3fff_ffff]), 0x3fff_ffff);
    assert_eq!(zint_one_to_plain(&[0x7fff_ffff]), -1);
    assert_eq!(zint_one_to_plain(&[0x4000_0000]), -0x4000_0000);
}

#[test]
fn squared_norm_adds_squares() {
    assert_eq!(poly_small_sqnorm(&[1, 2, -3, 4], 2), 30);
    assert_eq!(poly_small_sqnorm(&[-128, 127], 1), 128 * 128 + 127 * 127);
}

#[test]
fn squared_norm_saturates_at_two_to_the_31() {
    let mut f = vec![-128i8; 1 << 17];
    assert_eq!(poly_small_sqnorm(&f, 17), 0xffff_ffff);
    f[0] = 0;
    assert_eq!(poly_small_sqnorm(&f, 17), (1u32 << 31) - 128 * 128);
}

#[test]
fn big_to_small_checks_the_bound() {
    let mut d = [9i8; 5];
    assert_eq!(poly_big_to_small(&mut d, &[5, 0x7fff_fffb, 3, 0], 127, 2), 1);
    assert_eq!(d, [5, -5, 3, 0, 9]);
    let mut d = [0i8; 4];
    assert_eq!(poly_big_to_small(&mut d, &[5, 0x7fff_fffb, 3, 0x4000_0000], 127, 2), 0);
    assert_eq!(poly_big_to_small(&mut d, &[5, 0x7fff_fffb, 3, 0], 4, 2), 0);
}

#[test]
fn rec_res_multiplies_neighbouring_residues() {
    let p0i = modp_ninv31(P);
    let r2 = modp_r2(P, p0i);
    let mut f = [2u32, 3, 5, 7, 11];
    modp_poly_rec_res(&mut f, 2, P, p0i, r2);
    assert_eq!(f, [6, 35, 5, 7, 11]);
    let mut g = [P - 1, P - 1];
    modp_poly_rec_res(&mut g, 1, P, p0i, r2);
    assert_eq!(g, [1, P - 1]);
}

#[test]
fn sub_scaled_subtracts_the_negacyclic_product() {
    let mut fx = [10u32, 20];
    poly_sub_scaled(&mut fx, 1, 1, &[1, 2], 1, 1, &[3, 4], 0, 0, 1);
    assert_eq!(fx, [15, 10]);
}

#[test]
fn sub_scaled_reads_signed_coefficients_at_their_stride() {
    let mut fx = [5u32, 0, 9, 6, 0, 9];
    poly_sub_scaled(&mut fx, 2, 3, &[0x7fff_ffff, 2], 1, 1, &[1, 0], 0, 1, 1);
    assert_eq!(fx, [7, 0, 9, 2, 0, 9]);
}

#[test]
fn ntru_equation_is_checked_modulo_x_n_plus_one() {
    // 111 * 111 - 4 * 8 = 12289
    assert!(ntru_equation_holds(0, &[111], &[4], &[8], &[111]));
    assert!(ntru_equation_holds(1, &[111, 0], &[4, 0], &[8, 0], &[111, 0]));
    // x * (-x) = 1 modulo x^2 + 1
    assert!(ntru_equation_holds(1, &[0, 111], &[4, 0], &[8, 0], &[0, -111]));
    assert!(!ntru_equation_holds(1, &[0, 111], &[4, 0], &[8, 0], &[0, 111]));
    assert!(!ntru_equation_holds(1, &[111, 1], &[4, 0], &[8, 0], &[111, 0]));
}
