use kcp_rs::fec::gf256::{add_slice, mul_add_slice, mul_slice};
use kcp_rs::fec::GF256;

#[test]
fn test_gf_add() {
    let a = GF256::new(0x53);
    let b = GF256::new(0xCA);
    let c = a.add(b);
    // Addition is xor
    assert_eq!(c.value(), 0x53 ^ 0xCA);
    // a + a = 0
    assert_eq!(a.add(a), GF256::new(0));
}

#[test]
fn test_gf_mul() {
    // 1 * x = x
    assert_eq!(GF256::new(1).mul(GF256::new(0x53)), GF256::new(0x53));
    // 0 * x = 0
    assert_eq!(GF256::new(0).mul(GF256::new(0x53)), GF256::new(0));
    // x * 0 = 0
    assert_eq!(GF256::new(0x53).mul(GF256::new(0)), GF256::new(0));

    // Dividing the product by one factor gives the other back
    let result = GF256::new(0x53).mul(GF256::new(0xCA));
    let back = result.div(GF256::new(0xCA)).unwrap();
    assert_eq!(back, GF256::new(0x53));
}

#[test]
fn test_gf_div() {
    let a = GF256::new(0x53);
    let b = GF256::new(0xCA);

    // Division by zero
    assert!(a.div(GF256::new(0)).is_none());

    // 0 / x = 0
    assert_eq!(GF256::new(0).div(b), Some(GF256::new(0)));

    // x / 1 = x
    assert_eq!(a.div(GF256::new(1)), Some(a));

    // x / x = 1
    assert_eq!(a.div(a), Some(GF256::new(1)));

    // (a * b) / b = a
    let product = a.mul(b);
    assert_eq!(product.div(b), Some(a));
}

#[test]
fn test_gf_inverse() {
    for i in 1..=255u8 {
        let x = GF256::new(i);
        let inv = x.inverse().unwrap();
        // x * x^(-1) = 1
        assert_eq!(x.mul(inv), GF256::new(1));
    }
}

#[test]
fn test_gf_pow() {
    let x = GF256::new(2);

    // x^0 = 1
    assert_eq!(x.pow(0), GF256::new(1));

    // x^1 = x
    assert_eq!(x.pow(1), x);

    // 2^8 reduces by the primitive polynomial: x^4 + x^3 + x^2 + 1 = 0x1D
    let result = x.pow(8);
    assert_eq!(result.value(), 0x1D);
}

#[test]
fn test_slice_operations() {
    let mut data = [0x53, 0xCA, 0x00, 0xFF];
    let original = data;

    // mul by 1 doesn't change
    mul_slice(&mut data, GF256::new(1));
    assert_eq!(data, original);

    // mul by 0 zeros everything
    mul_slice(&mut data, GF256::new(0));
    assert_eq!(data, [0, 0, 0, 0]);

    let mut dst = [0x00, 0xFF, 0x53, 0xCA];
    let src = [0xFF, 0xFF, 0x53, 0x00];
    add_slice(&mut dst, &src);
    assert_eq!(dst, [0xFF, 0x00, 0x00, 0xCA]);
}

#[test]
fn test_exp_log_tables() {
    // The powers of 2 run through every nonzero element: a table of logarithms built
    // from them inverts the table of powers
    let mut exp = [0u8; 255];
    let mut log = [0u8; 256];
    for i in 0..255usize {
        exp[i] = GF256::new(2).pow(i as u8).value();
        log[exp[i] as usize] = i as u8;
    }
    for i in 1..255 {
        let exp_val = exp[i];
        let log_val = log[exp_val as usize];
        assert_eq!(log_val as usize, i);
    }
}

#[test]
fn gf_known_products() {
    // x * x^7 = x^8 = 0x1D
    assert_eq!(GF256::new(0x02).mul(GF256::new(0x80)).value(), 0x1D);
    assert_eq!(GF256::new(0x53).mul(GF256::new(0xCA)).value(), 0x8F);
    assert_eq!(GF256::new(0x03).mul(GF256::new(0x03)).value(), 0x05);
}

#[test]
fn gf_field_laws_on_samples() {
    let samples = [0u8, 1, 2, 3, 0x1D, 0x53, 0x80, 0xCA, 0xFF];
    for &a in samples.iter() {
        for &b in samples.iter() {
            let x = GF256::new(a);
            let y = GF256::new(b);
            assert_eq!(x.mul(y), y.mul(x));
            for &c in samples.iter() {
                let z = GF256::new(c);
                assert_eq!(x.mul(y).mul(z), x.mul(y.mul(z)));
                assert_eq!(x.mul(y.add(z)), x.mul(y).add(x.mul(z)));
            }
        }
    }
}

#[test]
fn gf_sub_is_add_and_pow_of_zero() {
    assert_eq!(GF256::new(0x12).sub(GF256::new(0x34)), GF256::new(0x12 ^ 0x34));
    assert_eq!(GF256::new(0).pow(0), GF256::new(1));
    assert_eq!(GF256::new(0).pow(5), GF256::new(0));
    assert!(GF256::new(0).inverse().is_none());
}

#[test]
fn gf_mul_add_slice() {
    let mut dst = [1u8, 2, 3, 4];
    let src = [0x02u8, 0x80, 0x00, 0x01];
    mul_add_slice(&mut dst, &src, GF256::new(2));
    assert_eq!(dst, [1 ^ 0x04, 2 ^ 0x1D, 3, 4 ^ 0x02]);
    let mut data = [0x02u8, 0x80];
    mul_slice(&mut data, GF256::new(2));
    assert_eq!(data, [0x04, 0x1D]);
}
