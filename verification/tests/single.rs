//! The arithmetic of `Single` against the machine's own.

use msg_seedling::single::Single;

fn single(x: f32) -> Single {
    Single::from_bits(x.to_bits())
}

fn machine(x: Single) -> f32 {
    f32::from_bits(x.to_bits())
}

/// Both results are not numbers, or their bits agree.
fn same(ours: Single, theirs: f32) -> bool {
    let ours = machine(ours);
    (ours.is_nan() && theirs.is_nan()) || ours.to_bits() == theirs.to_bits()
}

struct Stream(u64);

impl Stream {
    fn next(&mut self) -> u32 {
        self.0 ^= self.0 << 13;
        self.0 ^= self.0 >> 7;
        self.0 ^= self.0 << 17;
        (self.0 >> 16) as u32
    }
}

const EDGES: [u32; 20] = [
    0x0000_0000,
    0x8000_0000,
    0x0000_0001,
    0x8000_0001,
    0x0000_0002,
    0x007f_ffff,
    0x0080_0000,
    0x0080_0001,
    0x3f80_0000,
    0xbf80_0000,
    0x3f80_0001,
    0x3f7f_ffff,
    0x4000_0000,
    0x3f00_0000,
    0x7f7f_ffff,
    0xff7f_ffff,
    0x7f80_0000,
    0xff80_0000,
    0x7fc0_0000,
    0xffc0_0001,
];

fn check_pair(a: u32, b: u32) {
    let (x, y) = (Single::from_bits(a), Single::from_bits(b));
    let (p, q) = (f32::from_bits(a), f32::from_bits(b));
    assert!(same(x.plus(y), p + q), "{p:e} + {q:e}");
    assert!(same(x.minus(y), p - q), "{p:e} - {q:e}");
    assert!(same(x.times(y), p * q), "{p:e} * {q:e}");
    assert!(same(x.over(y), p / q), "{p:e} / {q:e}");
    assert_eq!(x.is_less(y), p < q);
    assert_eq!(x.is_at_most(y), p <= q);
    assert_eq!(x.equals(y), p == q);
    assert_eq!(x == y, p == q);
    assert_eq!(x.total_place().cmp(&y.total_place()), p.total_cmp(&q));
    assert!(machine(x.max(y)) == p.max(q) || (p.is_nan() && q.is_nan()));
    assert!(machine(x.min(y)) == p.min(q) || (p.is_nan() && q.is_nan()));
}

fn check_one(a: u32) {
    let x = Single::from_bits(a);
    let p = f32::from_bits(a);
    assert!(same(x.sqrt(), p.sqrt()), "sqrt {p:e}");
    assert_eq!(x.is_nan(), p.is_nan());
    assert_eq!(x.is_finite(), p.is_finite());
    assert_eq!(x.is_infinite(), p.is_infinite());
    assert_eq!(x.is_negative(), p.is_sign_negative());
    assert_eq!(x.is_zero(), p == 0.0);
    assert!(same(x.abs(), p.abs()));
    assert!(same(x.negated(), -p));
    assert!(same(
        x.clamp(single(-1.0), single(2.0)),
        p.clamp(-1.0, 2.0)
    ));
}

#[test]
fn edge_patterns_agree_with_the_machine() {
    for a in EDGES {
        check_one(a);
        for b in EDGES {
            check_pair(a, b);
        }
    }
}

#[test]
fn arbitrary_patterns_agree_with_the_machine() {
    let mut stream = Stream(0x9e37_79b9_7f4a_7c15);
    for _ in 0..200_000 {
        let a = stream.next();
        let b = stream.next();
        check_one(a);
        check_pair(a, b);
    }
}

#[test]
fn nearby_magnitudes_agree_with_the_machine() {
    let mut stream = Stream(0x0123_4567_89ab_cdef);
    for _ in 0..200_000 {
        let a = stream.next();
        // The same exponent give or take a few, and either sign.
        let shift = (stream.next() % 61) as i64 - 30;
        let exponent = (((a >> 23) & 0xff) as i64 + shift).clamp(0, 254) as u32;
        let b = (stream.next() & 0x807f_ffff) | (exponent << 23);
        check_pair(a, b);
    }
}

#[test]
fn subnormal_patterns_agree_with_the_machine() {
    let mut stream = Stream(0xfeed_beef_dead_cafe);
    for _ in 0..100_000 {
        let a = stream.next() & 0x80ff_ffff;
        let b = stream.next() & 0x80ff_ffff;
        check_one(a);
        check_pair(a, b);
    }
}

#[test]
fn exact_values() {
    assert_eq!(single(0.5).times(single(0.8)).to_bits(), 0x3ecc_cccd);
    assert_eq!(single(0.1).plus(single(0.2)).to_bits(), 0x3e99_999a);
    assert_eq!(single(2.0).sqrt().to_bits(), 0x3fb5_04f3);
    assert_eq!(single(1.0).over(single(3.0)).to_bits(), 0x3eaa_aaab);
}

#[test]
fn neighbours_are_one_place_apart() {
    for bits in EDGES {
        let x = Single::from_bits(bits);
        let above = x.next_above();
        let below = x.next_below();
        if x.is_nan() {
            assert!(above.is_nan() && below.is_nan());
            continue;
        }
        if machine(x) == f32::INFINITY {
            assert_eq!(above, x);
            assert_eq!(machine(below), f32::MAX);
            continue;
        }
        if machine(x) == f32::NEG_INFINITY {
            assert_eq!(below, x);
            assert_eq!(machine(above), f32::MIN);
            continue;
        }
        assert!(machine(below) < machine(x) && machine(x) < machine(above));
        assert!(above.next_below().equals(x) && below.next_above().equals(x));
    }
    assert_eq!(single(0.0).next_above(), Single::from_bits(1));
    assert_eq!(single(-0.0).next_below(), Single::from_bits(0x8000_0001));
    assert_eq!(machine(single(1.0).next_above()), 1.0 + f32::EPSILON);
}
