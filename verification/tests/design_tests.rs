use high_shelf::biquad::Coefficients;
use high_shelf::design::design_high_shelf;
use high_shelf::error::Error;

const ONE: i64 = 1 << 32;

fn fixed(x: f64) -> i64 {
    (x * 4294967296.0).round() as i64
}

fn to_f64(v: i64) -> f64 {
    v as f64 / 4294967296.0
}

/// The shelving equations in double precision.
fn reference(sample_rate: f64, gain_db: f64, slope: f64, frequency: f64) -> [f64; 5] {
    let w = 2.0 * std::f64::consts::PI * frequency / sample_rate;
    let s = w.sin();
    let c = w.cos();
    let a = 10f64.powf(gain_db / 40.0);
    let alpha = s / 2.0 * ((a + 1.0 / a) * (1.0 / slope - 1.0) + 2.0).sqrt();
    let beta = 2.0 * a.sqrt() * alpha;
    let b0 = a * ((a + 1.0) + (a - 1.0) * c + beta);
    let b1 = -2.0 * a * ((a - 1.0) + (a + 1.0) * c);
    let b2 = a * ((a + 1.0) + (a - 1.0) * c - beta);
    let a0 = (a + 1.0) - (a - 1.0) * c + beta;
    let a1 = 2.0 * ((a - 1.0) - (a + 1.0) * c);
    let a2 = (a + 1.0) - (a - 1.0) * c - beta;
    [b0 / a0, b1 / a0, b2 / a0, a1 / a0, a2 / a0]
}

fn as_reals(c: &Coefficients) -> [f64; 5] {
    [to_f64(c.b0), to_f64(c.b1), to_f64(c.b2), to_f64(c.a1), to_f64(c.a2)]
}

#[test]
fn design_six_decibels_exact() {
    let c = design_high_shelf(48000, 6 * ONE, ONE, 8000 * ONE).unwrap();
    assert_eq!(
        c,
        Coefficients {
            b0: 6750272058,
            b1: -5363898450,
            b2: 1927116322,
            a1: -1861911890,
            a2: 880434524,
        }
    );
}

#[test]
fn design_attenuation_exact() {
    let c = design_high_shelf(44100, -12 * ONE, ONE / 2, 100 * ONE).unwrap();
    assert_eq!(
        c,
        Coefficients {
            b0: 1090289035,
            b1: -2134593198,
            b2: 1044736502,
            a1: -8498612998,
            a2: 4204078043,
        }
    );
}

#[test]
fn design_three_decibels_exact() {
    let c = design_high_shelf(96000, 3 * ONE, ONE, 1000 * ONE).unwrap();
    assert_eq!(
        c,
        Coefficients {
            b0: 6018481003,
            b1: -11526233508,
            b2: 5528557928,
            a1: -8156910273,
            a2: 3882748401,
        }
    );
}

#[test]
fn design_zero_gain_is_flat() {
    for (rate, slope, frequency) in [
        (48000u32, 1.0, 8000.0),
        (44100, 0.3, 50.0),
        (8000, 2.5, 3999.0),
        (192000, 0.01, 20.0),
        (48000, 300.0, 8000.0),
        (48000, 1e-9, 8000.0),
        (48000, 1e9, 8000.0),
    ] {
        let c = design_high_shelf(rate, 0, fixed(slope), fixed(frequency)).unwrap();
        assert_eq!(c.b0, ONE);
        assert_eq!(c.b1, c.a1);
        assert_eq!(c.b2, c.a2);
    }
}

#[test]
fn design_agrees_with_double_precision() {
    let cases = [
        (48000u32, 6.0, 1.0, 8000.0),
        (44100, -12.0, 0.5, 100.0),
        (96000, 3.0, 1.0, 1000.0),
        (192000, 24.0, 0.9, 20.0),
        (8000, -24.0, 0.25, 3999.0),
        (48000, 18.5, 0.7071, 12345.678),
        (22050, -3.25, 1.0, 11000.0),
    ];
    for (rate, gain, slope, frequency) in cases {
        let c = design_high_shelf(rate, fixed(gain), fixed(slope), fixed(frequency)).unwrap();
        let got = as_reals(&c);
        let want = reference(rate as f64, gain, slope, frequency);
        for i in 0..5 {
            assert!(
                (got[i] - want[i]).abs() < 1e-6,
                "coefficient {} of {:?}: {} against {}",
                i,
                (rate, gain, slope, frequency),
                got[i],
                want[i]
            );
        }
    }
}

#[test]
fn design_rejects_zero_sample_rate() {
    assert_eq!(design_high_shelf(0, 6 * ONE, ONE, 8000 * ONE), Err(Error::InvalidArgs));
}

#[test]
fn design_rejects_frequency_not_above_zero() {
    assert_eq!(design_high_shelf(48000, 6 * ONE, ONE, 0), Err(Error::InvalidArgs));
    assert_eq!(design_high_shelf(48000, 6 * ONE, ONE, -ONE), Err(Error::InvalidArgs));
}

#[test]
fn design_rejects_frequency_at_or_above_nyquist() {
    assert_eq!(design_high_shelf(48000, 6 * ONE, ONE, 24000 * ONE), Err(Error::InvalidArgs));
    assert_eq!(design_high_shelf(48000, 6 * ONE, ONE, 30000 * ONE), Err(Error::InvalidArgs));
    assert!(design_high_shelf(48000, 6 * ONE, ONE, 24000 * ONE - 1).is_ok());
}

#[test]
fn design_rejects_slope_not_above_zero() {
    assert_eq!(design_high_shelf(48000, 6 * ONE, 0, 8000 * ONE), Err(Error::InvalidArgs));
    assert_eq!(design_high_shelf(48000, 6 * ONE, -ONE, 8000 * ONE), Err(Error::InvalidArgs));
}

#[test]
fn design_takes_gains_far_beyond_the_usual() {
    let c = design_high_shelf(48000, 100 * ONE, ONE, 8000 * ONE).unwrap();
    assert_eq!(
        c,
        Coefficients {
            b0: 3718465910321,
            b1: -7095809057533,
            b2: 3392318211290,
            a1: 7416499073,
            a2: 3263597710,
        }
    );
    let c = design_high_shelf(48000, -100 * ONE, ONE, 8000 * ONE).unwrap();
    assert_eq!(
        c,
        Coefficients { b0: 4960847, b1: 8566333, b2: 3769577, a1: -8195925039, a2: 3918254502 }
    );
    let c = design_high_shelf(48000, 200 * ONE, ONE, 8000 * ONE).unwrap();
    assert_eq!(
        c,
        Coefficients {
            b0: 1281853695769283,
            b1: -2557087949516423,
            b2: 1275251301057008,
            a1: 8523399225,
            a2: 4228943348,
        }
    );
    assert!(design_high_shelf(48000, -361 * ONE, ONE, 8000 * ONE).is_ok());
}

#[test]
fn design_takes_every_positive_slope() {
    let c = design_high_shelf(48000, 0, 300 * ONE, 8000 * ONE).unwrap();
    assert_eq!(
        c,
        Coefficients {
            b0: 4294967296,
            b1: -4148302663,
            b2: 4001638010,
            a1: -4148302663,
            a2: 4001638010,
        }
    );
    let c = design_high_shelf(48000, 0, 1, 8000 * ONE).unwrap();
    assert_eq!(
        c,
        Coefficients { b0: 4294967296, b1: -107018, b2: -4294753262, a1: -107018, a2: -4294753262 }
    );
    let c = design_high_shelf(48000, 0, i64::MAX, 8000 * ONE).unwrap();
    assert_eq!(
        c,
        Coefficients {
            b0: 4294967296,
            b1: -4294910552,
            b2: 4294853787,
            a1: -4294910552,
            a2: 4294853787,
        }
    );
    let c = design_high_shelf(48000, 6 * ONE, ONE / 257, 8000 * ONE).unwrap();
    assert_eq!(
        c,
        Coefficients {
            b0: 6162214138,
            b1: -748794260,
            b2: -4950860370,
            a1: -259920830,
            a2: -3572486957,
        }
    );
    let c = design_high_shelf(48000, -300 * ONE, 1, 8000 * ONE).unwrap();
    assert_eq!(c, Coefficients { b0: 134, b1: 0, b2: -135, a1: -227018, a2: -4294740279 });
}

#[test]
fn design_rejects_an_amplitude_it_cannot_hold() {
    // 10^(gain/40) or its reciprocal is above 2^30.
    assert_eq!(design_high_shelf(48000, 362 * ONE, ONE, 8000 * ONE), Err(Error::InvalidArgs));
    assert_eq!(design_high_shelf(48000, -362 * ONE, ONE, 8000 * ONE), Err(Error::InvalidArgs));
    assert_eq!(design_high_shelf(48000, 400 * ONE, ONE, 8000 * ONE), Err(Error::InvalidArgs));
    assert_eq!(design_high_shelf(48000, -400 * ONE, ONE, 8000 * ONE), Err(Error::InvalidArgs));
    assert_eq!(design_high_shelf(48000, i64::MAX, ONE, 8000 * ONE), Err(Error::InvalidArgs));
    assert_eq!(design_high_shelf(48000, i64::MIN, ONE, 8000 * ONE), Err(Error::InvalidArgs));
}

#[test]
fn design_rejects_a_beta_it_cannot_hold() {
    assert_eq!(design_high_shelf(48000, 300 * ONE, 1, 8000 * ONE), Err(Error::InvalidArgs));
}

#[test]
fn design_rejects_a_coefficient_it_cannot_hold() {
    // b0 is near the square of the amplitude, which is above 2^31 here.
    assert_eq!(design_high_shelf(48000, 360 * ONE, ONE, 8000 * ONE), Err(Error::InvalidArgs));
    assert_eq!(design_high_shelf(48000, 361 * ONE, ONE, 8000 * ONE), Err(Error::InvalidArgs));
}

#[test]
fn design_rejects_a_slope_too_steep_for_the_gain() {
    // (A + 1/A) * (1/S - 1) + 2 is negative: the square root has no value.
    assert_eq!(design_high_shelf(192000, 24 * ONE, 2 * ONE, 20 * ONE), Err(Error::InvalidArgs));
    assert_eq!(design_high_shelf(48000, 6 * ONE, 257 * ONE, 8000 * ONE), Err(Error::InvalidArgs));
}

#[test]
fn design_accepts_the_extremes_of_rate_and_frequency() {
    assert!(design_high_shelf(u32::MAX, 6 * ONE, ONE, 1).is_ok());
    assert!(design_high_shelf(u32::MAX, 6 * ONE, ONE, u32::MAX as i64 * (ONE / 2) - 1).is_ok());
    assert!(design_high_shelf(1, 6 * ONE, ONE, 1).is_ok());
    assert!(design_high_shelf(1, 6 * ONE, ONE, ONE / 2 - 1).is_ok());
}
