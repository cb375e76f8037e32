use byoh_core::calculator::format_value;
use byoh_core::num::Num;
use byoh_core::number::parse_number;
use byoh_core::single::Px;

struct Lcg(u64);

impl Lcg {
    fn next(&mut self) -> u64 {
        self.0 = self.0.wrapping_mul(6364136223846793005).wrapping_add(1442695040888963407);
        let x = self.0;
        (x >> 33) ^ x ^ (x << 17)
    }
}

fn patterns() -> Vec<u64> {
    let mut v = vec![
        0,
        1,
        1 << 63,
        (1 << 63) | 1,
        0x000f_ffff_ffff_ffff,
        0x0010_0000_0000_0000,
        0x0010_0000_0000_0001,
        0x7fef_ffff_ffff_ffff,
        0x7ff0_0000_0000_0000,
        0xfff0_0000_0000_0000,
        0x7ff8_0000_0000_0000,
        0xfff0_0000_0000_0001,
        0x3fe0_0000_0000_0000,
        0x4340_0000_0000_0000,
    ];
    for x in [1.0, -1.0, 0.1, 0.2, 0.3, 1e300, 1e-300, 3.6, 9.81, 1e22, 123456789.125, 2.5, -0.5] {
        v.push(f64::to_bits(x));
    }
    let mut g = Lcg(7);
    for _ in 0..200 {
        v.push(g.next());
    }
    // numbers of nearby exponents, where sums cancel
    for _ in 0..100 {
        let r = g.next();
        v.push((r & 0x800f_ffff_ffff_ffff) | ((1020 + (r >> 52) % 8) << 52));
    }
    v
}

fn same(got: Num, want: f64) -> bool {
    if want.is_nan() {
        f64::from_bits(got.bits).is_nan()
    } else {
        got.bits == want.to_bits()
    }
}

#[test]
fn arithmetic_is_that_of_the_hardware() {
    let all = patterns();
    for &a in &all {
        for &b in &all {
            let (x, y) = (f64::from_bits(a), f64::from_bits(b));
            let (p, q) = (Num { bits: a }, Num { bits: b });
            assert!(same(p.plus(q), x + y), "{a:x} + {b:x}");
            assert!(same(p.minus(q), x - y), "{a:x} - {b:x}");
            assert!(same(p.times(q), x * y), "{a:x} * {b:x}");
            assert!(same(p.over(q), x / y), "{a:x} / {b:x}");
            assert_eq!(p.lt(q), x < y);
            assert_eq!(p.le(q), x <= y);
            assert_eq!(p.equals(q), x == y);
        }
        let x = f64::from_bits(a);
        let p = Num { bits: a };
        assert_eq!(p.is_nan(), x.is_nan());
        assert_eq!(p.is_finite(), x.is_finite());
        assert_eq!(p.abs().bits, x.abs().to_bits());
        assert_eq!(p.neg().bits, (-x).to_bits());
        assert!(same(p.floor(), x.floor()), "{a:x}");
        assert!(same(p.ceil(), x.ceil()), "{a:x}");
        if x.is_finite() && x >= 0.0 {
            assert_eq!(p.whole_part(), x as u64, "{a:x}");
        }
    }
}

#[test]
fn integers_and_spans_are_those_of_the_hardware() {
    let mut g = Lcg(3);
    let mut v = vec![0u64, 1, 2, 9007199254740993, u64::MAX, 1 << 63, 999_999_999, 1_000_000_001];
    for i in 0..300 {
        v.push(g.next() >> (i % 64));
    }
    for x in v {
        assert_eq!(Num::of_u64(x).bits, (x as f64).to_bits());
        assert_eq!(Num::of_i64(x as i64).bits, (x as i64 as f64).to_bits());
        assert_eq!(Px::of_u64(x).bits, (x as f32).to_bits());
        let secs = std::time::Duration::from_nanos(x).as_secs_f64();
        assert_eq!(Num::of_nanos(x).bits, secs.to_bits(), "{x}");
    }
    assert_eq!(Num::of_i64(i64::MIN).bits, (i64::MIN as f64).to_bits());
}

#[test]
fn fixed_places_are_those_of_the_standard_library() {
    for a in patterns() {
        let x = f64::from_bits(a);
        let p = Num { bits: a };
        assert_eq!(format_value(p, "decimal1"), format!("{:.1}", x), "{a:x}");
        assert_eq!(format_value(p, "decimal2"), format!("{:.2}", x), "{a:x}");
        assert_eq!(format_value(p, "+decimal1"), format!("{:+.1}", x), "{a:x}");
        assert_eq!(format_value(p, "+decimal2"), format!("{:+.2}", x), "{a:x}");
        assert_eq!(format_value(p, "integer"), format!("{:.0}", x), "{a:x}");
        assert_eq!(format_value(p, "anything"), format!("{:.0}", x), "{a:x}");
    }
    for k in 0..4000i64 {
        let x = k as f64 / 8.0 - 250.0;
        let p = Num { bits: x.to_bits() };
        assert_eq!(format_value(p, "integer"), format!("{:.0}", x));
        assert_eq!(format_value(p, "decimal1"), format!("{:.1}", x));
        assert_eq!(format_value(p, "decimal2"), format!("{:.2}", x));
    }
}

#[test]
fn ties_go_to_the_even_digit() {
    let at = |x: f64, fmt: &str| format_value(Num { bits: x.to_bits() }, fmt);
    assert_eq!(at(0.5, "integer"), "0");
    assert_eq!(at(1.5, "integer"), "2");
    assert_eq!(at(2.5, "integer"), "2");
    assert_eq!(at(0.125, "decimal2"), "0.12");
    assert_eq!(at(0.375, "decimal2"), "0.38");
    assert_eq!(at(-0.04, "decimal1"), "-0.0");
    assert_eq!(at(f64::NAN, "+decimal1"), "NaN");
    assert_eq!(at(f64::INFINITY, "+decimal1"), "+inf");
    assert_eq!(at(1e300, "integer").len(), 301);
    assert_eq!(at(1e30, "time"), "5124095576030431:00:15");
}

fn read(s: &str) -> Option<u64> {
    let cs: Vec<char> = s.chars().collect();
    parse_number(&cs).map(|n| n.bits)
}

fn agrees(s: &str) {
    match s.parse::<f64>() {
        Ok(x) if x.is_nan() => assert!(f64::from_bits(read(s).unwrap()).is_nan(), "{s}"),
        Ok(x) => assert_eq!(read(s), Some(x.to_bits()), "{s}"),
        Err(_) => assert_eq!(read(s), None, "{s}"),
    }
}

#[test]
fn numbers_are_read_as_by_the_standard_library() {
    for s in [
        "0", "-0", "+0", "1", "12.5", ".5", "5.", ".", "", "+", "-", "e5", "1e", "1e+", "1e5", "1E-5",
        "1e400", "-1e400", "1e-400", "0e99999999999999999999", "1e99999999999999999999",
        "1e-99999999999999999999", "inf", "-INF", "Infinity", "nan", "+NaN", "infinit", "0x10",
        "1_000", "1 ", " 1", "1.2.3", "--1", "9007199254740993", "9007199254740992.5",
        "0.1", "0.21", "370.4", "1.105e6", "4.9e-324", "2.4703282292062327e-324",
        "2.4703282292062328e-324", "1.7976931348623157e308", "1.7976931348623159e308",
        "2.2250738585072011e-308", "123456789012345678901234567890", "0.000000000000000000000001",
        "8.5e15", "8.5e16", "123456789e-15", "123456789e-16", "1.0000000000000001110223024625157",
        "1.00000000000000011102230246251565404236316680908203125",
        "1.00000000000000011102230246251565404236316680908203124",
        "1.00000000000000011102230246251565404236316680908203126",
    ] {
        agrees(s);
    }
    let mut g = Lcg(11);
    for _ in 0..60 {
        let x = f64::from_bits(g.next());
        agrees(&format!("{x}"));
        agrees(&format!("{x:e}"));
        agrees(&format!("{}.{}e{}", g.next() % 100000, g.next(), (g.next() % 60) as i64 - 30));
    }
    let long = format!("0.{}1", "0".repeat(350));
    agrees(&long);
    agrees(&"7".repeat(400));
}

fn small_patterns() -> Vec<u32> {
    let mut v = vec![
        0,
        1,
        0x8000_0000,
        0x007f_ffff,
        0x0080_0000,
        0x7f7f_ffff,
        0x7f80_0000,
        0xff80_0000,
        0x7fc0_0000,
        0x3f80_0000,
        0x4b00_0000,
        0x4f80_0000,
        0x4f7f_ffff,
    ];
    for x in [8.0f32, 10.0, 12.0, 32.0, 40.0, 0.9, 0.1, 2.0, 100.0, 0.5, 57.35, 1234.5] {
        v.push(x.to_bits());
    }
    let mut g = Lcg(5);
    for _ in 0..200 {
        v.push(g.next() as u32);
    }
    for _ in 0..100 {
        let r = g.next() as u32;
        v.push((r & 0x807f_ffff) | ((120 + (r >> 23) % 16) << 23));
    }
    v
}

#[test]
fn lengths_are_those_of_the_hardware() {
    let same = |got: Px, want: f32| {
        if want.is_nan() {
            f32::from_bits(got.bits).is_nan()
        } else {
            got.bits == want.to_bits()
        }
    };
    let all = small_patterns();
    for &a in &all {
        for &b in &all {
            let (x, y) = (f32::from_bits(a), f32::from_bits(b));
            let (p, q) = (Px { bits: a }, Px { bits: b });
            assert!(same(p.plus(q), x + y), "{a:x} + {b:x}");
            assert!(same(p.minus(q), x - y), "{a:x} - {b:x}");
            assert!(same(p.times(q), x * y), "{a:x} * {b:x}");
            assert!(same(p.over(q), x / y), "{a:x} / {b:x}");
            assert_eq!(p.lt(q), x < y);
            assert_eq!(p.equals(q), x == y);
            if x != y {
                assert!(same(p.max(q), x.max(y)));
                assert!(same(p.min(q), x.min(y)));
            }
        }
        let x = f32::from_bits(a);
        assert_eq!(Px { bits: a }.ceiling(), x.ceil() as u32, "{a:x}");
        assert_eq!(Px { bits: a }.truncated(), x as u32, "{a:x}");
    }
    for b in patterns() {
        let x = f64::from_bits(b) as f32;
        assert!(same(Px::of_num(Num { bits: b }), x), "{b:x}");
    }
}
