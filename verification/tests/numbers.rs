use optdbg::duration::Duration;
use optdbg::float::encoding::Float64;
use optdbg::text::decimal_text;

fn num(x: f64) -> Float64 {
    Float64::from_bits(x.to_bits())
}

fn native(x: Float64) -> f64 {
    f64::from_bits(x.to_bits())
}

/// Numbers of all sorts: edge cases, and bit patterns all over the range.
fn samples() -> Vec<f64> {
    let mut v = vec![
        0.0,
        -0.0,
        1.0,
        -1.0,
        0.1,
        0.2,
        0.3,
        2.0 / 3.0,
        1e-6,
        0.5,
        1.5,
        2.5,
        1e15,
        1e16,
        9007199254740991.0,
        9007199254740993.0,
        1e300,
        -1e300,
        f64::MAX,
        f64::MIN,
        f64::MIN_POSITIVE,
        f64::from_bits(1),
        f64::from_bits(0x000f_ffff_ffff_ffff),
        f64::INFINITY,
        f64::NEG_INFINITY,
        f64::NAN,
        25000000.0,
        123456.789,
    ];
    let mut seed: u64 = 0x9e37_79b9_7f4a_7c15;
    for _ in 0..60 {
        seed = seed.wrapping_mul(6364136223846793005).wrapping_add(1442695040888963407);
        v.push(f64::from_bits(seed));
        // Exponents near that of one.
        v.push(f64::from_bits((seed >> 12) | 0x3fd0_0000_0000_0000));
        v.push(-f64::from_bits((seed >> 12) | 0x4030_0000_0000_0000));
    }
    v
}

fn same(a: f64, b: f64) -> bool {
    (a.is_nan() && b.is_nan()) || a.to_bits() == b.to_bits()
}

#[test]
fn arithmetic_is_that_of_the_machine() {
    let v = samples();
    for a in &v {
        for b in &v {
            let (x, y) = (num(*a), num(*b));
            assert!(same(native(x.plus(y)), a + b), "{a:e} + {b:e}");
            assert!(same(native(x.minus(y)), a - b), "{a:e} - {b:e}");
            assert!(same(native(x.times(y)), a * b), "{a:e} * {b:e}");
            assert!(same(native(x.over(y)), a / b), "{a:e} / {b:e}");
        }
    }
}

#[test]
fn comparison_is_that_of_the_machine() {
    let v = samples();
    for a in &v {
        for b in &v {
            let (x, y) = (num(*a), num(*b));
            assert_eq!(x.lt(y), a < b);
            assert_eq!(x.le(y), a <= b);
            assert_eq!(x.num_eq(y), a == b);
            if a != b {
                assert!(same(native(x.max(y)), a.max(*b)));
                assert!(same(native(x.min(y)), a.min(*b)));
            }
        }
    }
}

#[test]
fn functions_of_one_number_are_those_of_the_machine() {
    for a in samples() {
        let x = num(a);
        assert!(same(native(x.sqrt()), a.sqrt()), "sqrt {a:e}");
        assert!(same(native(x.abs()), a.abs()));
        assert!(same(native(x.neg()), -a));
        assert!(same(native(x.signum()), a.signum()));
        assert_eq!(x.to_usize(), a as usize);
        assert_eq!(x.is_finite(), a.is_finite());
        assert_eq!(x.is_nan(), a.is_nan());
    }
}

#[test]
fn integers_are_rounded_as_by_the_machine() {
    let mut n: u64 = 1;
    for i in 0..400u64 {
        n = n.wrapping_mul(2862933555777941757).wrapping_add(3037000493);
        for k in [i, n, n >> 11, n >> 10, n >> 9, u64::MAX - i, (1 << 53) + i] {
            assert_eq!(native(Float64::from_u64(k)), k as f64);
        }
    }
}

#[test]
fn fixed_texts_are_those_of_the_formatter() {
    for a in samples() {
        for places in 1..6u32 {
            let mut out = String::from("=");
            num(a).push_fixed(&mut out, places);
            let expected = format!("={:.*}", places as usize, a);
            assert_eq!(out, expected);
        }
    }
    let mut out = String::new();
    num(2.675).push_fixed(&mut out, 2);
    out.push(' ');
    num(0.125).push_fixed(&mut out, 2);
    out.push(' ');
    num(-0.001).push_fixed(&mut out, 2);
    assert_eq!(out, format!("{:.2} {:.2} {:.2}", 2.675, 0.125, -0.001));
    assert_eq!(out, "2.67 0.12 -0.00");
}

#[test]
fn decimal_texts_are_those_of_the_formatter() {
    for n in [0u128, 1, 9, 10, 99, 100, 12345678901234567890, u128::MAX] {
        assert_eq!(decimal_text(n), n.to_string());
    }
}

#[test]
fn spans_convert_as_those_of_the_standard_library() {
    let mut n: u64 = 77;
    for i in 0..200u64 {
        n = n.wrapping_mul(6364136223846793005).wrapping_add(1442695040888963407);
        let secs = n >> (i % 64);
        let nanos = (n % 1_000_000_000) as u32;
        let ours = Duration::new(secs, nanos);
        let theirs = std::time::Duration::new(secs, nanos);
        assert_eq!(native(ours.as_secs_f64()), theirs.as_secs_f64());
        assert_eq!(ours.as_millis(), theirs.as_millis());
        assert_eq!(ours.as_nanos(), theirs.as_nanos());
        assert_eq!(ours.as_secs(), theirs.as_secs());
        assert_eq!(ours.subsec_nanos(), theirs.subsec_nanos());
        let part = (n >> 40) as u32 + 1;
        assert_eq!(ours.part(part).as_nanos(), (theirs / part).as_nanos());
    }
}

#[test]
fn seconds_become_spans_as_in_the_standard_library() {
    for a in samples() {
        let ours = Duration::try_from_secs_f64(num(a)).map(|d| d.as_nanos());
        let theirs = std::time::Duration::try_from_secs_f64(a).ok().map(|d| d.as_nanos());
        assert_eq!(ours, theirs, "{a:e}");
    }
    for a in [1e-9, 0.5e-9, 1.5e-9, 2.5e-9, 0.9999999999, 18446744073709551615.0, 1.8e19] {
        let ours = Duration::try_from_secs_f64(num(a)).map(|d| d.as_nanos());
        let theirs = std::time::Duration::try_from_secs_f64(a).ok().map(|d| d.as_nanos());
        assert_eq!(ours, theirs, "{a:e}");
    }
}

#[test]
fn spans_add_up_until_they_are_too_long() {
    let most = Duration::new(u64::MAX, 999_999_999);
    let nano = Duration::new(0, 1);
    assert!(most.checked_add(nano).is_none());
    assert_eq!(Duration::from_secs(1).checked_add(nano).unwrap().as_nanos(), 1_000_000_001);
    assert_eq!(Duration::from_secs(2).plus(Duration::from_millis(5)).as_millis(), 2005);
    assert!(nano.shorter(&most));
    assert!(!most.shorter(&nano));
    assert!(nano.same(&Duration::new(0, 1)));
}
