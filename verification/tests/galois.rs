use orion_utils::galois::{add, div, exp, mul, mul_slice, mul_slice_xor};

#[test]
fn add_is_xor() {
    assert_eq!(add(0b1010, 0b0110), 0b1100);
    assert_eq!(add(7, 7), 0);
}

#[test]
fn mul_reduces_by_field_polynomial() {
    assert_eq!(mul(2, 0x80), 0x1d);
    assert_eq!(mul(3, 7), 9);
    assert_eq!(mul(0x53, 0xca), 143);
    assert_eq!(mul(0, 0x99), 0);
    assert_eq!(mul(1, 0x99), 0x99);
}

#[test]
fn mul_is_commutative_on_samples() {
    for a in [0u8, 1, 2, 3, 0x53, 0xca, 0xff] {
        for b in [0u8, 1, 7, 0x80, 0xfe] {
            assert_eq!(mul(a, b), mul(b, a));
        }
    }
}

#[test]
fn exp_powers() {
    assert_eq!(exp(2, 8), 0x1d);
    assert_eq!(exp(2, 255), 1);
    assert_eq!(exp(5, 0), 1);
    assert_eq!(exp(0, 3), 0);
    assert_eq!(exp(3, 254), 244);
    assert_eq!(exp(3, 254 + 255), 244);
}

#[test]
fn div_inverts_mul() {
    assert_eq!(div(5, 7), Some(104));
    assert_eq!(mul(104, 7), 5);
    assert_eq!(div(0, 9), Some(0));
    assert_eq!(div(1, 3), Some(244));
    assert_eq!(div(9, 0), None);
    for a in [1u8, 2, 77, 255] {
        for b in [1u8, 3, 128, 200] {
            assert_eq!(div(mul(a, b), b), Some(a));
        }
    }
}

#[test]
fn slices_multiply_each_byte() {
    let input = [1u8, 2, 3, 0xff];
    let mut out = [0u8; 4];
    mul_slice(3, &input, &mut out);
    assert_eq!(out, [3, 6, 5, 28]);
    let mut acc = [1u8, 1, 1, 1];
    mul_slice_xor(3, &input, &mut acc);
    assert_eq!(acc, [2, 7, 4, 29]);
}
