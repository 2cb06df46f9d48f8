use julia_render::{evaluate, frame_at, restrict, EscapeResult};

/// Breach flags of the orbit of `z <- z^2 + c` from `z0`: entry `i` tells
/// whether the magnitude exceeds 2 after update `i`.
fn orbit(c: (f64, f64), z0: (f64, f64), steps: usize) -> Vec<bool> {
    let mut z = z0;
    let mut flags = Vec::new();
    for _ in 0..steps {
        z = (z.0 * z.0 - z.1 * z.1 + c.0, 2.0 * z.0 * z.1 + c.1);
        flags.push((z.0 * z.0 + z.1 * z.1).sqrt() > 2.0);
    }
    flags
}

#[test]
fn cap_zero_is_bounded_without_looking() {
    assert_eq!(evaluate(&vec![true, true], 0), EscapeResult::Bounded);
    assert_eq!(evaluate(&vec![], 0), EscapeResult::Bounded);
}

#[test]
fn first_breach_is_reported() {
    let flags = vec![false, false, true, false, true];
    assert_eq!(evaluate(&flags, 5), EscapeResult::Escaped(2));
    assert_eq!(evaluate(&flags, 3), EscapeResult::Escaped(2));
    assert_eq!(evaluate(&flags, 2), EscapeResult::Bounded);
}

#[test]
fn short_orbit_without_breach_is_bounded() {
    assert_eq!(evaluate(&vec![false, false], 10), EscapeResult::Bounded);
}

#[test]
fn escape_kept_under_larger_caps() {
    let flags = vec![false, false, false, true, false, false, true];
    let first = evaluate(&flags, 4);
    assert_eq!(first, EscapeResult::Escaped(3));
    for cap in 5..10u32 {
        assert_eq!(evaluate(&flags, cap), first);
    }
}

#[test]
fn bounded_kept_under_smaller_caps() {
    let flags = vec![false, false, false, false, true];
    assert_eq!(evaluate(&flags, 4), EscapeResult::Bounded);
    for cap in 0..4u32 {
        assert_eq!(evaluate(&flags, cap), EscapeResult::Bounded);
    }
}

#[test]
fn julia_corner_sample_escapes_at_first_step() {
    // z0 = (-1.5, -1.0), c = (-0.8, 0.156): z1 = (0.45, 3.156), |z1| > 2.
    let flags = orbit((-0.8, 0.156), (-1.5, -1.0), 5);
    assert!(flags[0]);
    assert_eq!(evaluate(&flags, 5), EscapeResult::Escaped(0));
}

#[test]
fn julia_centre_sample_stays_bounded() {
    // z0 = 0, c = (-0.8, 0.156): z1 = c, z2 = (-0.184336, -0.0936), ... all small.
    let flags = orbit((-0.8, 0.156), (0.0, 0.0), 5);
    assert_eq!(flags, vec![false; 5]);
    assert_eq!(evaluate(&flags, 5), EscapeResult::Bounded);
}

#[test]
fn restrict_narrows_to_smaller_cap() {
    assert_eq!(restrict(EscapeResult::Escaped(3), 4), EscapeResult::Escaped(3));
    assert_eq!(restrict(EscapeResult::Escaped(3), 3), EscapeResult::Bounded);
    assert_eq!(restrict(EscapeResult::Bounded, 7), EscapeResult::Bounded);
}

#[test]
fn frame_from_full_evaluation_matches_direct_evaluation() {
    let orbits = vec![
        vec![false, false, true],
        vec![true],
        vec![false; 8],
        vec![false, false, false, false, false, true],
    ];
    let full: Vec<EscapeResult> = orbits.iter().map(|o| evaluate(o, 8)).collect();
    for cap in 0..=8u32 {
        let direct: Vec<EscapeResult> = orbits.iter().map(|o| evaluate(o, cap)).collect();
        assert_eq!(frame_at(&full, cap), direct);
    }
    assert_eq!(
        frame_at(&full, 3),
        vec![EscapeResult::Escaped(2), EscapeResult::Escaped(0), EscapeResult::Bounded, EscapeResult::Bounded]
    );
}
