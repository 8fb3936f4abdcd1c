use folding_order::double::Double;
use folding_order::render::append_fixed;

fn lib(x: f64) -> Double {
    Double { bits: x.to_bits() }
}

fn same(x: Double, y: f64) -> bool {
    if y.is_nan() {
        f64::from_bits(x.bits).is_nan()
    } else {
        x.bits == y.to_bits()
    }
}

fn samples() -> Vec<f64> {
    let mut v = vec![
        0.0,
        -0.0,
        1.0,
        -1.0,
        0.1,
        0.2,
        0.3,
        1.5,
        2.5,
        1e300,
        -1e300,
        1e-300,
        5e-324,
        -5e-324,
        f64::MAX,
        f64::MIN_POSITIVE,
        f64::INFINITY,
        f64::NEG_INFINITY,
        f64::NAN,
        f64::EPSILON,
        9007199254740993.0,
    ];
    let mut seed: u64 = 0x9E37_79B9_7F4A_7C15;
    for i in 0..200 {
        seed ^= seed << 13;
        seed ^= seed >> 7;
        seed ^= seed << 17;
        if i % 2 == 0 {
            v.push(f64::from_bits(seed));
        } else {
            // Numbers of similar size, so that sums cancel and round.
            let exponent = 1023 - 40 + (seed >> 52) % 80;
            v.push(f64::from_bits((seed & 0x800F_FFFF_FFFF_FFFF) | (exponent << 52)));
        }
    }
    v
}

#[test]
fn arithmetic_is_that_of_the_machine() {
    let v = samples();
    for &x in &v {
        for &y in &v {
            assert!(same(lib(x).plus(lib(y)), x + y), "{} + {}", x, y);
            assert!(same(lib(x).minus(lib(y)), x - y), "{} - {}", x, y);
            assert!(same(lib(x).times(lib(y)), x * y), "{} * {}", x, y);
            assert!(same(lib(x).over(lib(y)), x / y), "{} / {}", x, y);
            assert_eq!(lib(x).less(lib(y)), x < y);
            assert_eq!(lib(x).equal(lib(y)), x == y);
            if !(x == 0.0 && y == 0.0) {
                assert!(same(lib(x).larger(lib(y)), x.max(y)));
                assert!(same(lib(x).smaller(lib(y)), x.min(y)));
            }
        }
        assert!(same(lib(x).root(), x.sqrt()), "sqrt {}", x);
        assert!(same(lib(x).abs(), x.abs()));
        assert!(same(lib(x).negate(), -x));
        assert_eq!(lib(x).truncated(), x as u64);
        assert_eq!(lib(x).is_nan(), x.is_nan());
        assert!(same(lib(x).clamped(lib(0.0), lib(1.0)), x.clamp(0.0, 1.0)));
    }
}

#[test]
fn whole_numbers_and_fractions_convert() {
    for i in [0u64, 1, 2, 1000, (1 << 53) + 1, (1 << 53) + 3, u64::MAX, u64::MAX - 1024] {
        assert!(same(Double::whole(i), i as f64));
    }
    for i in [0i64, 1, -1, i64::MIN, i64::MAX, -12345] {
        assert!(same(Double::whole_signed(i), i as f64));
    }
    assert!(same(Double::ratio(95, 100), 0.95));
    assert!(same(Double::ratio(8, 10), 0.8));
    assert!(same(Double::ratio(4775, 10000), 0.4775));
    assert!(same(Double::ratio(1, 1000), 0.001));
    assert!(same(Double::ratio(0, 7), 0.0));
    assert!(same(Double::whole(2).root(), std::f64::consts::SQRT_2));
}

#[test]
fn fixed_places_are_those_of_the_standard_formatter() {
    let mut v = samples();
    for i in 0..2000 {
        v.push(i as f64 / 64.0);
        v.push(-(i as f64) / 1000.0);
    }
    for &x in &v {
        for places in [1u32, 2, 4, 6] {
            let mut s = String::new();
            append_fixed(&mut s, lib(x), places);
            assert_eq!(s, format!("{:.*}", places as usize, x));
        }
    }
}
