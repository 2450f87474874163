use wayfrost::float::{F32, F64};

struct Stream(u64);

impl Stream {
    fn next(&mut self) -> u64 {
        self.0 = self.0.wrapping_mul(6364136223846793005).wrapping_add(1442695040888963407);
        let x = self.0;
        (x ^ (x >> 33)).wrapping_mul(0xff51afd7ed558ccd)
    }
}

fn doubles() -> Vec<f64> {
    let mut s = Stream(7);
    let mut all = vec![
        0.0, -0.0, 1.0, -1.0, 0.5, 0.45, 0.65, 1.5, 2.5, 1e300, -1e300, 1e-310, -1e-310,
        f64::MAX, f64::MIN, f64::MIN_POSITIVE, f64::from_bits(1), f64::from_bits(0xf_ffff_ffff_ffff),
        f64::INFINITY, f64::NEG_INFINITY, f64::NAN, 4503599627370496.5, 9007199254740993.0,
        0.1, 0.2, 0.3, 1920.0, 1080.0, 110.0, 3.0,
    ];
    for i in 0..220u64 {
        let bits = s.next();
        all.push(f64::from_bits(bits));
        // Close exponents, so that sums cancel and carry.
        all.push(f64::from_bits((bits >> 12) | ((1010 + i % 40) << 52) | (bits << 63)));
        all.push((bits % 4000) as f64 / 7.0);
    }
    all
}

fn singles() -> Vec<f32> {
    let mut s = Stream(11);
    let mut all = vec![
        0.0, -0.0, 1.0, -1.0, 0.5, 0.35, 255.0, 0.485, 0.229, f32::MAX, f32::MIN_POSITIVE,
        f32::from_bits(1), f32::from_bits(0x7f_ffff), f32::INFINITY, f32::NEG_INFINITY, f32::NAN,
        16777217.0, 960.0,
    ];
    for i in 0..220u64 {
        let bits = s.next() as u32;
        all.push(f32::from_bits(bits));
        all.push(f32::from_bits((bits >> 9) | ((120 + i as u32 % 20) << 23) | (bits << 31)));
        all.push((bits % 4000) as f32 / 7.0);
    }
    all
}

fn same64(a: F64, b: f64) -> bool {
    let r = f64::from_bits(a.bits);
    (r.is_nan() && b.is_nan()) || r.to_bits() == b.to_bits()
}

fn same32(a: F32, b: f32) -> bool {
    let r = f32::from_bits(a.bits);
    (r.is_nan() && b.is_nan()) || r.to_bits() == b.to_bits()
}

fn d(v: f64) -> F64 {
    F64 { bits: v.to_bits() }
}

fn s(v: f32) -> F32 {
    F32 { bits: v.to_bits() }
}

#[test]
fn double_arithmetic_is_that_of_the_machine() {
    let all = doubles();
    for &a in &all {
        for &b in &all {
            assert!(same64(d(a).plus(d(b)), a + b), "{a:e} + {b:e}");
            assert!(same64(d(a).minus(d(b)), a - b), "{a:e} - {b:e}");
            assert!(same64(d(a).times(d(b)), a * b), "{a:e} * {b:e}");
            assert!(same64(d(a).over(d(b)), a / b), "{a:e} / {b:e}");
        }
    }
}

#[test]
fn single_arithmetic_is_that_of_the_machine() {
    let all = singles();
    for &a in &all {
        for &b in &all {
            assert!(same32(s(a).plus(s(b)), a + b), "{a:e} + {b:e}");
            assert!(same32(s(a).minus(s(b)), a - b), "{a:e} - {b:e}");
            assert!(same32(s(a).times(s(b)), a * b), "{a:e} * {b:e}");
            assert!(same32(s(a).over(s(b)), a / b), "{a:e} / {b:e}");
        }
    }
}

#[test]
fn comparisons_are_those_of_the_machine() {
    let all = doubles();
    for &a in &all {
        for &b in &all {
            assert_eq!(d(a).less(d(b)), a < b);
            assert_eq!(d(a).at_most(d(b)), a <= b);
            assert_eq!(d(a).order_key().cmp(&d(b).order_key()), a.total_cmp(&b));
            let (lo, hi) = (f64::from_bits(d(a).min(d(b)).bits), f64::from_bits(d(a).max(d(b)).bits));
            assert!(lo == a.min(b) || (lo.is_nan() && a.min(b).is_nan()));
            assert!(hi == a.max(b) || (hi.is_nan() && a.max(b).is_nan()));
        }
        assert!(same64(d(a).abs(), a.abs()));
        assert!(same64(d(a).negated(), -a));
        assert_eq!(d(a).round_u32(), a.round() as u32);
        assert_eq!(d(a).trunc_i32(), a as i32);
    }
    for &a in &singles() {
        for &b in &singles() {
            assert_eq!(s(a).less(s(b)), a < b);
            assert_eq!(s(a).at_most(s(b)), a <= b);
        }
        assert!(same32(s(a).abs(), a.abs()));
        assert_eq!(s(a).round_u32(), a.round() as u32);
    }
}

#[test]
fn whole_numbers_convert_as_on_the_machine() {
    let mut st = Stream(3);
    let mut all = vec![0, 1, 2, 255, 1 << 24, (1 << 24) + 1, (1 << 53) + 1, u64::MAX, u32::MAX as u64];
    for i in 0..2000 {
        all.push(st.next() >> (i % 64));
    }
    for n in all {
        assert!(same64(F64::of_count(n), n as f64));
        assert!(same32(F32::of_count(n), n as f32));
    }
}

#[test]
fn rounding_edges() {
    for v in [0.5f64, 1.5, 2.5, 0.49999999999999994, 4294967294.5, 4294967295.5, -0.5, -3.0, 1e10] {
        assert_eq!(d(v).round_u32(), v.round() as u32);
        assert_eq!(d(v).trunc_i32(), v as i32);
    }
    for v in [2147483647.9f64, 2147483648.0, -2147483648.9, -2147483649.0] {
        assert_eq!(d(v).trunc_i32(), v as i32);
    }
}
