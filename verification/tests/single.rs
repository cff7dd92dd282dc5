use chatbot::single::Single;

fn single(x: f32) -> Single {
    Single::from_bits(x.to_bits())
}

fn samples() -> Vec<f32> {
    let mut list = vec![
        0.0,
        -0.0,
        1.0,
        -1.0,
        0.35,
        0.355,
        0.125,
        0.375,
        0.005,
        0.015,
        0.025,
        0.5,
        1.5,
        2.5,
        0.25,
        0.75,
        -0.125,
        -0.001,
        9.95,
        9.995,
        99.995,
        1e10,
        -1e10,
        3.4028235e38,
        1.0e-45,
        1.17549435e-38,
        0.1,
        0.56,
        16777216.0,
        8388607.5,
        f32::INFINITY,
        f32::NEG_INFINITY,
        f32::NAN,
        -f32::NAN,
    ];
    // A fixed scatter over all bit patterns.
    let mut bits: u32 = 12345;
    let mut i: u32 = 0;
    while i < 400 {
        bits = bits.wrapping_mul(1664525).wrapping_add(1013904223);
        list.push(f32::from_bits(bits));
        i += 1;
    }
    // Halves, where rounding has to choose.
    let mut k: i32 = -40;
    while k < 40 {
        list.push(k as f32 / 16.0);
        list.push(k as f32 / 8.0);
        k += 1;
    }
    list
}

#[test]
fn fixed_decimals_are_what_formatting_says() {
    for x in samples() {
        assert_eq!(single(x).fixed(1), format!("{x:.1}"), "{x:?}");
        assert_eq!(single(x).fixed(2), format!("{x:.2}"), "{x:?}");
        assert_eq!(single(x).fixed(6), format!("{x:.6}"), "{x:?}");
    }
}

#[test]
fn comparison_is_what_floats_say() {
    let list = samples();
    for &a in list.iter().take(150) {
        for &b in list.iter().take(150) {
            assert_eq!(single(a).less(single(b)), a < b, "{a:?} {b:?}");
            assert_eq!(single(a).at_least(single(b)), a >= b, "{a:?} {b:?}");
        }
        assert_eq!(single(a).is_nan(), a.is_nan());
    }
}

#[test]
fn the_larger_of_two_is_what_floats_say() {
    let list = samples();
    for &a in list.iter().take(150) {
        for &b in list.iter().take(150) {
            let ours = f32::from_bits(single(a).max(single(b)).bits);
            let theirs = a.max(b);
            assert!(ours == theirs || (ours.is_nan() && theirs.is_nan()), "{a:?} {b:?}");
        }
    }
}

#[test]
fn zero_is_zero() {
    assert_eq!(Single::zero(), single(0.0));
}
