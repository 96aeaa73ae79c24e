use neo_riscv_vm::modular::{integer_sqrt, mod_inverse, mod_pow};

#[test]
fn integer_sqrt_rounds_down() {
    assert_eq!(integer_sqrt(0), 0);
    assert_eq!(integer_sqrt(1), 1);
    assert_eq!(integer_sqrt(2), 1);
    assert_eq!(integer_sqrt(3), 1);
    assert_eq!(integer_sqrt(4), 2);
    assert_eq!(integer_sqrt(81), 9);
    assert_eq!(integer_sqrt(99), 9);
    assert_eq!(integer_sqrt(100), 10);
    assert_eq!(integer_sqrt(u64::MAX - 1), 4_294_967_295);
}

#[test]
fn mod_pow_raises_and_reduces() {
    assert_eq!(mod_pow(2, 10, 1000), Ok(24));
    assert_eq!(mod_pow(19, 2, 141), Ok(79));
    assert_eq!(mod_pow(5, 0, 1), Ok(1));
    assert_eq!(mod_pow(5, 3, 1), Ok(0));
    assert_eq!(mod_pow(-2, 3, 5), Ok(-3));
    assert_eq!(mod_pow(2, 3, -5), Ok(3));
    assert_eq!(mod_pow(i64::MAX, 2, i64::MAX), Ok(0));
    assert_eq!(mod_pow(i64::MIN, 3, 7), Ok(-1));
}

#[test]
fn mod_pow_inverts_for_exponent_minus_one() {
    assert_eq!(mod_pow(19, -1, 141), Ok(52));
    assert_eq!((19 * 52) % 141, 1);
    assert_eq!(mod_inverse(3, 7), Ok(5));
    assert_eq!(mod_inverse(3, -7), Ok(-5));
    assert_eq!(mod_inverse(-1, 3), Ok(1));
    assert_eq!(mod_inverse(5, 1), Ok(0));
}

#[test]
fn mod_pow_errors() {
    assert_eq!(mod_pow(2, 3, 0), Err("division by zero for MODPOW".to_string()));
    assert_eq!(mod_pow(2, -2, 7), Err("negative exponent for MODPOW".to_string()));
    assert_eq!(mod_pow(4, -1, 8), Err("value is not invertible for MODPOW".to_string()));
    assert_eq!(mod_inverse(0, 5), Err("value is not invertible for MODPOW".to_string()));
    assert_eq!(mod_inverse(2, 0), Err("value is not invertible for MODPOW".to_string()));
}
