//! Arithmetic on encodings against the machine's own binary64 arithmetic.
use mc_sim::binary64::Binary64;

fn of(x: f64) -> Binary64 {
    Binary64::from_bits(x.to_bits())
}

fn same(x: Binary64, y: f64) -> bool {
    if y.is_nan() {
        x.is_nan()
    } else {
        x.to_bits() == y.to_bits()
    }
}

const EDGES: [u64; 24] = [
    0x0000_0000_0000_0000,
    0x0000_0000_0000_0001,
    0x0000_0000_0000_0002,
    0x0000_0000_0000_0003,
    0x0008_0000_0000_0000,
    0x000f_ffff_ffff_ffff,
    0x0010_0000_0000_0000,
    0x0010_0000_0000_0001,
    0x001f_ffff_ffff_ffff,
    0x3ca0_0000_0000_0000,
    0x3cb0_0000_0000_0000,
    0x3fdf_ffff_ffff_ffff,
    0x3fe0_0000_0000_0000,
    0x3fef_ffff_ffff_ffff,
    0x3ff0_0000_0000_0000,
    0x3ff0_0000_0000_0001,
    0x4000_0000_0000_0000,
    0x4340_0000_0000_0000,
    0x433f_ffff_ffff_ffff,
    0x7fdf_ffff_ffff_ffff,
    0x7fe0_0000_0000_0000,
    0x7fef_ffff_ffff_ffff,
    0x7ff0_0000_0000_0000,
    0x7ff8_0000_0000_0000,
];

struct Stream(u64);

impl Stream {
    fn bits(&mut self) -> u64 {
        self.0 ^= self.0 << 13;
        self.0 ^= self.0 >> 7;
        self.0 ^= self.0 << 17;
        self.0
    }

    /// Numbers of ordinary size, so that sums and differences overlap.
    fn near(&mut self) -> f64 {
        let b = self.bits();
        let e = 1023 - 40 + b % 80;
        f64::from_bits((b & 0x800f_ffff_ffff_ffff) | (e << 52))
    }
}

fn agree(a: f64, b: f64) {
    let (x, y) = (of(a), of(b));
    assert!(same(x.add(y), a + b), "{a:e} + {b:e}");
    assert!(same(x.sub(y), a - b), "{a:e} - {b:e}");
    assert!(same(x.mul(y), a * b), "{a:e} * {b:e}");
    assert!(same(x.div(y), a / b), "{a:e} / {b:e}");
    assert_eq!(x.lt(y), a < b, "{a:e} < {b:e}");
}

#[test]
fn operations_agree_on_edges() {
    for a in EDGES {
        for b in EDGES {
            for s in [0u64, 1 << 63] {
                for t in [0u64, 1 << 63] {
                    agree(f64::from_bits(a | s), f64::from_bits(b | t));
                }
            }
        }
        for s in [0u64, 1 << 63] {
            let x = f64::from_bits(a | s);
            assert!(same(of(x).sqrt(), x.sqrt()), "sqrt {x:e}");
            assert_eq!(of(x).neg().to_bits(), (-x).to_bits());
            assert_eq!(of(x).abs().to_bits(), x.abs().to_bits());
        }
    }
}

#[test]
fn operations_agree_on_arbitrary_encodings() {
    let mut s = Stream(0x9e37_79b9_7f4a_7c15);
    for _ in 0..200_000 {
        let (a, b) = (f64::from_bits(s.bits()), f64::from_bits(s.bits()));
        agree(a, b);
        assert!(same(of(a).sqrt(), a.sqrt()), "sqrt {a:e}");
    }
}

#[test]
fn operations_agree_on_numbers_of_like_size() {
    let mut s = Stream(0x1234_5678_9abc_def1);
    for _ in 0..200_000 {
        let (a, b) = (s.near(), s.near());
        agree(a, b);
        agree(a, a);
        agree(a, -a);
        assert!(same(of(a.abs()).sqrt(), a.abs().sqrt()), "sqrt {a:e}");
    }
}

#[test]
fn whole_numbers_agree() {
    let mut s = Stream(42);
    let given = [0u64, 1, 2, 3, 252, 1 << 53, (1 << 53) + 1, (1 << 53) + 3, u64::MAX];
    for n in given {
        assert_eq!(Binary64::from_u64(n).to_bits(), (n as f64).to_bits(), "{n}");
    }
    for k in 0..100_000u32 {
        let n = s.bits() >> (k % 64);
        assert_eq!(Binary64::from_u64(n).to_bits(), (n as f64).to_bits(), "{n}");
    }
}

#[test]
fn whole_parts_agree() {
    let mut s = Stream(7);
    for a in EDGES {
        for t in [0u64, 1 << 63] {
            let x = f64::from_bits(a | t);
            assert_eq!(of(x).ceil_to_usize(), x.ceil() as usize, "ceil {x:e}");
            assert_eq!(of(x).round_to_usize(), x.round() as usize, "round {x:e}");
        }
    }
    for x in [0.5, 1.5, 2.5, 0.49999999999999994, 4503599627370495.5, 1.8446744073709552e19, 1e30] {
        assert_eq!(of(x).ceil_to_usize(), x.ceil() as usize, "ceil {x:e}");
        assert_eq!(of(x).round_to_usize(), x.round() as usize, "round {x:e}");
    }
    for _ in 0..100_000 {
        let x = s.near();
        assert_eq!(of(x).ceil_to_usize(), x.ceil() as usize, "ceil {x:e}");
        assert_eq!(of(x).round_to_usize(), x.round() as usize, "round {x:e}");
    }
}
