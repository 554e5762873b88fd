//! Decimal text, against the standard library's formatting.
use mc_sim::binary64::Binary64;
use mc_sim::decimal;

fn text(x: f64, k: usize) -> String {
    let mut out = String::new();
    decimal::push_fixed(&mut out, Binary64::from_bits(x.to_bits()), k);
    out
}

fn agree(x: f64) {
    for k in 0..=9usize {
        assert_eq!(text(x, k), format!("{:.*}", k, x), "{x:e} with {k} digits");
    }
}

#[test]
fn text_agrees_on_edges() {
    for x in [
        0.0,
        1.0,
        0.5,
        1.5,
        2.5,
        0.125,
        0.375,
        0.25,
        0.75,
        1e-7,
        4.9e-7,
        5e-7,
        5.1e-7,
        5e-324,
        2.2250738585072014e-308,
        99.9999995,
        999999.9999999,
        4503599627370495.5,
        4503599627370496.0,
        9007199254740993.0,
        1e22,
        1e23,
        1.2345e100,
        f64::MAX,
        f64::INFINITY,
        f64::NAN,
    ] {
        agree(x);
        agree(-x);
    }
}

#[test]
fn text_agrees_on_arbitrary_encodings() {
    let mut s: u64 = 0x2545_f491_4f6c_dd1d;
    for _ in 0..3_000 {
        s ^= s << 13;
        s ^= s >> 7;
        s ^= s << 17;
        agree(f64::from_bits(s));
    }
}

#[test]
fn text_agrees_on_ordinary_numbers() {
    let mut s: u64 = 99;
    for _ in 0..20_000 {
        s ^= s << 13;
        s ^= s >> 7;
        s ^= s << 17;
        let e = 1023 - 24 + s % 80;
        agree(f64::from_bits((s & 0x800f_ffff_ffff_ffff) | (e << 52)));
        // halves and eighths, so that ties occur
        agree((s % 100_000) as f64 / 8.0);
    }
}

#[test]
fn text_of_given_numbers() {
    assert_eq!(text(100.0, 2), "100.00");
    assert_eq!(text(-0.0, 2), "-0.00");
    assert_eq!(text(0.125, 2), "0.12");
    assert_eq!(text(0.375, 2), "0.38");
    assert_eq!(text(1234567.0, 0), "1234567");
    assert_eq!(text(f64::NEG_INFINITY, 6), "-inf");
    assert_eq!(text(f64::NAN, 6), "NaN");
}
