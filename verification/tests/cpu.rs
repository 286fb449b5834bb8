use mitos_system_monitor::cpu::{clamp_fraction, cpu_color, Color, CpuUsage};

fn usage(value: f32) -> CpuUsage {
    CpuUsage { bits: value.to_bits() }
}

const VALUES: [f32; 18] = [
    0.0,
    -0.0,
    -1.5,
    1e-45,
    9.999999,
    10.0,
    10.000001,
    49.999996,
    50.0,
    50.000004,
    85.0,
    85.00001,
    100.0,
    3200.0,
    f32::MAX,
    f32::MIN,
    f32::INFINITY,
    f32::NEG_INFINITY,
];

#[test]
fn readings_compare_as_singles_do() {
    for a in VALUES {
        for b in VALUES {
            assert_eq!(usage(a).exceeds(usage(b)), a > b, "{} {}", a, b);
            assert_eq!(
                usage(a).order_key().cmp(&usage(b).order_key()),
                a.partial_cmp(&b).unwrap(),
                "{} {}",
                a,
                b
            );
        }
        assert!(!usage(a).exceeds(usage(f32::NAN)));
        assert!(!usage(f32::NAN).exceeds(usage(a)));
        assert!(!usage(a).not_a_number());
    }
    assert!(usage(f32::NAN).not_a_number());
    assert!(usage(-f32::NAN).not_a_number());
}

#[test]
fn thresholds_are_exact() {
    for v in VALUES {
        assert_eq!(usage(v).above_ten(), v > 10.0, "{}", v);
        assert_eq!(usage(v).above_fifty(), v > 50.0, "{}", v);
        assert_eq!(usage(v).above_eighty_five(), v > 85.0, "{}", v);
    }
    assert!(!usage(f32::NAN).above_ten());
}

#[test]
fn readings_are_coloured() {
    let red = Color { r: 255, g: 85, b: 85 };
    let yellow = Color { r: 255, g: 255, b: 85 };
    let green = Color { r: 85, g: 255, b: 85 };
    assert_eq!(cpu_color(usage(85.1)), red);
    assert_eq!(cpu_color(usage(85.0)), yellow);
    assert_eq!(cpu_color(usage(50.5)), yellow);
    assert_eq!(cpu_color(usage(50.0)), green);
    assert_eq!(cpu_color(usage(0.0)), green);
    assert_eq!(cpu_color(usage(f32::NAN)), green);
}

#[test]
fn fractions_are_clamped() {
    let clamp = |v: f32| f32::from_bits(clamp_fraction(v.to_bits()));
    for v in [0.0f32, 0.25, 1.0, 1.0000001, 7.0, -0.5, f32::INFINITY, f32::NEG_INFINITY, 1e-40] {
        assert_eq!(clamp(v), v.clamp(0.0, 1.0));
    }
    assert_eq!(clamp_fraction((-0.0f32).to_bits()), (-0.0f32).to_bits());
    assert!(clamp(f32::NAN).is_nan());
}
