use synesthesia::cymatics::{mode_from_bands, speed_tier, ColorScheme, SpeedTier};

/// The float half of the frequency-to-mode mapping: the two bands of `freq`.
fn bands(freq: f32) -> (i32, i32) {
    ((freq / 200.0).floor() as i32, (freq / 200.0 * 1.618).floor() as i32)
}

fn freq_to_mode(freq: f32) -> (i32, i32) {
    let (b, g) = bands(freq);
    mode_from_bands(b, g)
}

#[test]
fn presets_give_their_modes() {
    assert_eq!(freq_to_mode(150.0), (1, 2));
    assert_eq!(freq_to_mode(250.0), (2, 3));
    assert_eq!(freq_to_mode(440.0), (3, 4));
    assert_eq!(freq_to_mode(528.0), (3, 5));
    assert_eq!(freq_to_mode(600.0), (4, 5));
    assert_eq!(freq_to_mode(800.0), (5, 2));
    assert_eq!(freq_to_mode(900.0), (5, 3));
    assert_eq!(freq_to_mode(1000.0), (6, 4));
    assert_eq!(freq_to_mode(1200.0), (7, 5));
    assert_eq!(freq_to_mode(1800.0), (9, 5));
}

#[test]
fn mode_from_bands_edges() {
    assert_eq!(mode_from_bands(0, 0), (1, 1));
    assert_eq!(mode_from_bands(8, 4), (9, 5));
    assert_eq!(mode_from_bands(100, 5), (9, 1));
    assert_eq!(mode_from_bands(-1, -1), (0, 5));
    assert_eq!(mode_from_bands(-3, -7), (-2, 4));
    assert_eq!(mode_from_bands(i32::MIN, i32::MIN), (i32::MIN + 1, 3));
    assert_eq!(mode_from_bands(i32::MAX, i32::MAX), (9, 3));
}

#[test]
fn speed_tiers() {
    assert_eq!(speed_tier(1), SpeedTier::Slow);
    assert_eq!(speed_tier(2), SpeedTier::Normal);
    assert_eq!(speed_tier(4), SpeedTier::Normal);
    assert_eq!(speed_tier(5), SpeedTier::Fast);
    assert_eq!(speed_tier(32), SpeedTier::Fast);
    assert_eq!(speed_tier(0), SpeedTier::Normal);
}

#[test]
fn color_scheme_labels() {
    assert_eq!(ColorScheme::Phosphor.label(), "Phosphor");
    assert_eq!(ColorScheme::Sand.label(), "Sand");
    assert_eq!(ColorScheme::Neon.label(), "Neon");
    assert_eq!(ColorScheme::Mono.label(), "Mono");
}
