use cosmic_fancy_pants::binary64::Binary64;

fn f(v: f64) -> Binary64 {
    Binary64::from_bits(v.to_bits())
}

fn v(b: Binary64) -> f64 {
    f64::from_bits(b.to_bits())
}

/// A few hundred numbers of every size, sign and kind.
fn samples() -> Vec<f64> {
    let mut list = vec![
        0.0,
        -0.0,
        1.0,
        -1.0,
        0.5,
        0.1,
        1.0 / 3.0,
        2.0 / 3.0,
        1e-6,
        0.05,
        0.95,
        4096.0,
        1920.0,
        -2160.5,
        1.5,
        2.5,
        -2.5,
        0.49999999999999994,
        f64::MAX,
        f64::MIN,
        f64::MIN_POSITIVE,
        f64::EPSILON,
        5e-324,
        -5e-324,
        1e308,
        1e-310,
        f64::INFINITY,
        f64::NEG_INFINITY,
        f64::NAN,
        2147483647.0,
        -2147483648.0,
        2147483648.5,
        9007199254740993.0,
    ];
    let mut state: u64 = 0x9e37_79b9_7f4a_7c15;
    for k in 0..120 {
        state = state.wrapping_mul(6364136223846793005).wrapping_add(1442695040888963407);
        list.push(f64::from_bits(state));
        let small = (state >> 11) as f64 / (1u64 << 53) as f64;
        list.push(small);
        list.push(small * 4000.0 - 1000.0);
        if k % 3 == 0 {
            list.push(f64::from_bits(state & 0x800f_ffff_ffff_ffff));
        }
    }
    list
}

fn same(ours: Binary64, theirs: f64, what: &str, a: f64, b: f64) {
    if theirs.is_nan() {
        assert!(ours.is_nan(), "{what} of {a:e} and {b:e} should be no number");
    } else {
        assert_eq!(ours.to_bits(), theirs.to_bits(), "{what} of {a:e} and {b:e}: {:e} for {theirs:e}", v(ours));
    }
}

#[test]
fn sums_are_those_of_the_hardware() {
    let list = samples();
    for &a in &list {
        for &b in &list {
            same(f(a).plus(f(b)), a + b, "sum", a, b);
            same(f(a).minus(f(b)), a - b, "difference", a, b);
        }
    }
}

#[test]
fn products_are_those_of_the_hardware() {
    let list = samples();
    for &a in &list {
        for &b in &list {
            same(f(a).times(f(b)), a * b, "product", a, b);
        }
    }
}

#[test]
fn quotients_are_those_of_the_hardware() {
    let list = samples();
    for &a in &list {
        for &b in &list {
            same(f(a).over(f(b)), a / b, "quotient", a, b);
        }
    }
}

#[test]
fn comparisons_are_those_of_the_hardware() {
    let list = samples();
    for &a in &list {
        for &b in &list {
            assert_eq!(f(a).below(f(b)), a < b);
            assert_eq!(f(a).at_most(f(b)), a <= b);
            assert_eq!(f(a) == f(b), a == b);
            assert_eq!(f(a).precedes(f(b)), a.total_cmp(&b).is_lt());
            assert_eq!(v(f(a).least(f(b))).is_nan(), a.min(b).is_nan());
            if !a.min(b).is_nan() {
                assert_eq!(v(f(a).least(f(b))), a.min(b));
                assert_eq!(v(f(a).greatest(f(b))), a.max(b));
            }
        }
    }
}

#[test]
fn conversions_are_those_of_the_hardware() {
    for a in samples() {
        assert_eq!(f(a).round_i32(), a.round() as i32, "rounding {a:e}");
        assert_eq!(f(a).floor_i32(), a.floor() as i32, "flooring {a:e}");
        same(f(a).narrowed(), (a as f32) as f64, "single precision", a, a);
        same(f(a).negated(), -a, "negation", a, a);
        same(f(a).absolute(), a.abs(), "magnitude", a, a);
        assert_eq!(f(a).is_finite(), a.is_finite());
        assert_eq!(f(a).is_nan(), a.is_nan());
        if !a.is_nan() {
            same(f(a).bounded(f(0.05), f(0.95)), a.clamp(0.05, 0.95), "clamping", a, a);
        }
    }
}

#[test]
fn whole_numbers_are_those_of_the_hardware() {
    for k in [0, 1, -1, 2, 3, 48, 1919, -2160, i32::MAX, i32::MIN, 1 << 30] {
        assert_eq!(v(Binary64::whole(k)), k as f64);
    }
    for k in [0, 1, 7, 100, u32::MAX as u64, 1 << 53, (1 << 53) + 1, u64::MAX] {
        assert_eq!(v(Binary64::count(k)), k as f64);
    }
}

#[test]
fn operations_in_single_precision_are_those_of_the_hardware() {
    let list: Vec<f32> = samples().into_iter().map(|a| a as f32).filter(|a| a.is_finite()).collect();
    for &a in &list {
        for &b in &list {
            let (x, y) = (f(a as f64), f(b as f64));
            same(x.plus(y).narrowed(), (a + b) as f64, "single sum", a as f64, b as f64);
            same(x.times(y).narrowed(), (a * b) as f64, "single product", a as f64, b as f64);
            same(x.over(y).narrowed(), (a / b) as f64, "single quotient", a as f64, b as f64);
        }
    }
}
