//! Cymatics: colour schemes and the frequency-to-mode mapping of the plate.
use vstd::prelude::*;

verus! {

/// Colour scheme of the sand grains.
#[derive(Debug, Clone, Copy, PartialEq, Eq, Structural)]
pub enum ColorScheme {
    /// Classic oscilloscope green on black.
    Phosphor,
    /// Warm sand tones on dark walnut.
    Sand,
    /// Rainbow / neon: speed maps through the hue wheel.
    Neon,
    /// Monochrome white on near-black.
    Mono,
}

impl ColorScheme {
    /// Name shown in the scheme picker.
    pub fn label(self) -> (r: &'static str)
        ensures
            r@ == (match self {
                ColorScheme::Phosphor => "Phosphor"@,
                ColorScheme::Sand => "Sand"@,
                ColorScheme::Neon => "Neon"@,
                ColorScheme::Mono => "Mono"@,
            }),
    {
        match self {
            ColorScheme::Phosphor => "Phosphor",
            ColorScheme::Sand => "Sand",
            ColorScheme::Neon => "Neon",
            ColorScheme::Mono => "Mono",
        }
    }
}

/// Largest band index that still raises the first mode number.
pub const MAX_BAND: i32 = 8;

/// Chladni mode (m, n) of a frequency that lies in 200 Hz band `band`
/// (`floor(f / 200)`) and in golden band `golden_band`
/// (`floor(f / 200 * 1.618)`): m grows with the band up to 9, n cycles
/// through 1..=5 with the golden band.
pub fn mode_from_bands(band: i32, golden_band: i32) -> (r: (i32, i32))
    ensures
        r.0 == 1 + (if band < MAX_BAND { band as int } else { MAX_BAND as int }),
        r.1 == 1 + (golden_band as int) % 5,
        1 <= r.1 <= 5,
{
    let m = 1 + if band < MAX_BAND {
        band
    } else {
        MAX_BAND
    };
    let g = golden_band as i64;
    let k: i64 = if g >= 0 {
        g % 5
    } else {
        let t = (-g) % 5;
        if t == 0 {
            0
        } else {
            5 - t
        }
    };
    assert(k == g % 5) by {
        if g < 0 {
            let t = (-g) % 5;
            let q = (-g) / 5;
            assert(-g == q * 5 + t);
            if t == 0 {
                assert(g == (-q) * 5);
            } else {
                assert(g == (-q - 1) * 5 + (5 - t));
            }
        }
    }
    (m, 1 + k as i32)
}

/// How the simulation-speed slider describes a number of steps per frame.
#[derive(Debug, Clone, Copy, PartialEq, Eq, Structural)]
pub enum SpeedTier {
    Slow,
    Normal,
    Fast,
}

/// Tier of `steps` physics steps per frame: one is slow, up to four normal,
/// more fast.
pub fn speed_tier(steps: usize) -> (t: SpeedTier)
    ensures
        t == (if steps == 1 {
            SpeedTier::Slow
        } else if steps <= 4 {
            SpeedTier::Normal
        } else {
            SpeedTier::Fast
        }),
{
    if steps == 1 {
        SpeedTier::Slow
    } else if steps <= 4 {
        SpeedTier::Normal
    } else {
        SpeedTier::Fast
    }
}

} // verus!
