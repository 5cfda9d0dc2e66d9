//! The arithmetic of binary64 numbers, held against the machine's.
use brutal_quic::binary64::Binary64;

fn soft(x: f64) -> Binary64 {
    Binary64::from_bits(x.to_bits())
}

fn hard(x: Binary64) -> f64 {
    f64::from_bits(x.to_bits())
}

/// Bit patterns from a fixed linear congruential sequence.
struct Patterns(u64);

impl Patterns {
    fn draw(&mut self) -> u64 {
        self.0 = self.0.wrapping_mul(6364136223846793005).wrapping_add(1442695040888963407);
        self.0 ^ (self.0 >> 29)
    }
}

const SPECIAL: [u64; 18] = [
    0,
    0x8000_0000_0000_0000,
    1,
    2,
    3,
    0x000f_ffff_ffff_ffff,
    0x0010_0000_0000_0000,
    0x0010_0000_0000_0001,
    0x001f_ffff_ffff_ffff,
    0x0020_0000_0000_0000,
    0x3fef_ffff_ffff_ffff,
    0x3ff0_0000_0000_0000,
    0x3ff0_0000_0000_0001,
    0xc008_0000_0000_0000,
    0x7fef_ffff_ffff_ffff,
    0x7ff0_0000_0000_0000,
    0xfff0_0000_0000_0000,
    0x7ff8_0000_0000_0000,
];

fn pairs() -> Vec<(f64, f64)> {
    let mut patterns = Patterns(7);
    let mut values: Vec<(u64, u64)> = Vec::new();
    for a in SPECIAL {
        for b in SPECIAL {
            values.push((a, b));
        }
        values.push((a, patterns.draw()));
        values.push((patterns.draw(), a));
    }
    for _ in 0..3000 {
        values.push((patterns.draw(), patterns.draw()));
    }
    // Numbers of a similar size.
    for _ in 0..3000 {
        let a = 0x3fd0_0000_0000_0000 + patterns.draw() % 0x0080_0000_0000_0000;
        let b = 0x3fd0_0000_0000_0000 + patterns.draw() % 0x0080_0000_0000_0000;
        values.push((a, b));
    }
    // Numbers close to the lower end.
    for _ in 0..2000 {
        values.push((patterns.draw() % 0x0080_0000_0000_0000, patterns.draw() % 0x4000_0000_0000_0000));
    }
    values.into_iter().map(|(a, b)| (f64::from_bits(a), f64::from_bits(b))).collect()
}

fn same(soft: Binary64, exact: f64) -> bool {
    (hard(soft).is_nan() && exact.is_nan()) || soft.to_bits() == exact.to_bits()
}

#[test]
fn products_are_those_of_the_machine() {
    for (a, b) in pairs() {
        assert!(same(soft(a).multiply(soft(b)), a * b), "{a:e} * {b:e}");
    }
}

#[test]
fn quotients_are_those_of_the_machine() {
    for (a, b) in pairs() {
        assert!(same(soft(a).divide(soft(b)), a / b), "{a:e} / {b:e}");
    }
}

#[test]
fn sums_are_those_of_the_machine() {
    for (a, b) in pairs() {
        let (a, b) = (a.abs(), b.abs());
        assert!(same(soft(a).add(soft(b)), a + b), "{a:e} + {b:e}");
    }
}

#[test]
fn integers_are_converted_as_the_machine_does() {
    let mut patterns = Patterns(11);
    let mut integers: Vec<u128> = vec![0, 1, 2, 3, 7, 1 << 53, (1 << 53) + 1, (1 << 53) + 3];
    integers.push(u64::MAX as u128);
    integers.push(u64::MAX as u128 * 1_000_000_000);
    for _ in 0..2000 {
        let n = (patterns.draw() as u128) << 32 ^ patterns.draw() as u128;
        integers.push(n >> (patterns.draw() % 96));
    }
    for n in integers {
        assert_eq!(Binary64::from_integer(n).to_bits(), (n as f64).to_bits(), "{n}");
    }
}

#[test]
fn numbers_are_cut_as_the_machine_does() {
    let mut values: Vec<f64> = SPECIAL.iter().map(|bits| f64::from_bits(*bits)).collect();
    values.extend([0.5, 0.999, 1.5, 2.5, 1e18, 1.8e19, 1.9e19, 18446744073709551615.0, -0.5, 9007199254740993.0]);
    let mut patterns = Patterns(13);
    for _ in 0..3000 {
        values.push(f64::from_bits(0x3fe0_0000_0000_0000 + patterns.draw() % 0x0450_0000_0000_0000));
        values.push(f64::from_bits(patterns.draw()));
    }
    for x in values {
        assert_eq!(soft(x).to_u64(), x as u64, "{x:e}");
    }
}

#[test]
fn numbers_are_ordered_as_the_machine_does() {
    for (a, b) in pairs() {
        assert_eq!(soft(a).is_at_most(soft(b)), a <= b, "{a:e} {b:e}");
        assert_eq!(soft(a).equals(soft(b)), a == b, "{a:e} {b:e}");
        let greater = hard(soft(a).max(soft(b)));
        assert!(greater == a.max(b) || (greater.is_nan() && a.max(b).is_nan()), "{a:e} {b:e}");
    }
}
