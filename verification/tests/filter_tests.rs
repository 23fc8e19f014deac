use high_shelf::biquad::{Coefficients, History};
use high_shelf::design::design_high_shelf;
use high_shelf::error::Error;
use high_shelf::filter::{HighShelf2, HighShelf2Config};
use high_shelf::format::Format;
use high_shelf::frames::Frames;

const ONE: i64 = 1 << 32;

const SILENT: History = History { x1: 0, x2: 0, y1: 0, y2: 0 };

fn word(x: f32) -> i32 {
    x.to_bits() as i32
}

fn single(w: i32) -> f32 {
    f32::from_bits(w as u32)
}

fn sine(frequency: f64, amplitude: f64, count: usize) -> Vec<f64> {
    (0..count)
        .map(|i| amplitude * (2.0 * std::f64::consts::PI * frequency * i as f64 / 48000.0).sin())
        .collect()
}

fn rms(xs: &[f64]) -> f64 {
    (xs.iter().map(|x| x * x).sum::<f64>() / xs.len() as f64).sqrt()
}

fn six_decibels(format: Format, channels: u32) -> HighShelf2Config {
    HighShelf2Config::new(format, channels, 48000, 6 * ONE, ONE, 8000 * ONE)
}

/// Filters single-precision samples through a fresh mono filter.
fn filter_singles(config: &HighShelf2Config, xs: &[f64]) -> Vec<f64> {
    let mut filter = HighShelf2::new(config).unwrap();
    let input =
        Frames::wrap(xs.iter().map(|x| word(*x as f32)).collect(), Format::F32, 1).unwrap();
    let mut output = Frames::wrap(vec![0; xs.len()], Format::F32, 1).unwrap();
    filter.process_pcm_frames(&mut output, &input).unwrap();
    output.into_samples().iter().map(|w| single(*w) as f64).collect()
}

#[test]
fn config_keeps_what_it_is_given() {
    let config = HighShelf2Config::new(Format::S24, 2, 44100, -3 * ONE, ONE / 2, 5000 * ONE);
    assert_eq!(config.format(), Format::S24);
    assert_eq!(config.channels(), 2);
    assert_eq!(config.sample_rate(), 44100);
    assert_eq!(config.gain_db(), -3 * ONE);
    assert_eq!(config.shelf_slope(), ONE / 2);
    assert_eq!(config.frequency(), 5000 * ONE);
}

#[test]
fn config_setters_change_one_field() {
    let mut config = HighShelf2Config::new(Format::S24, 2, 44100, -3 * ONE, ONE / 2, 5000 * ONE);
    config.set_format(Format::F32);
    config.set_channels(6);
    config.set_sample_rate(96000);
    config.set_gain_db(12 * ONE);
    config.set_shelf_slope(ONE);
    config.set_frequency(100 * ONE);
    assert_eq!(config.format(), Format::F32);
    assert_eq!(config.channels(), 6);
    assert_eq!(config.sample_rate(), 96000);
    assert_eq!(config.gain_db(), 12 * ONE);
    assert_eq!(config.shelf_slope(), ONE);
    assert_eq!(config.frequency(), 100 * ONE);
}

#[test]
fn config_changed_after_construction_does_not_reach_the_filter() {
    let mut config = six_decibels(Format::S16, 1);
    let filter = HighShelf2::new(&config).unwrap();
    let before = filter.bq().coefficients();
    config.set_gain_db(-6 * ONE);
    config.set_channels(5);
    assert_eq!(filter.bq().coefficients(), before);
    assert_eq!(filter.bq().channels(), 1);
}

#[test]
fn new_filter_holds_the_design_and_is_silent() {
    let filter = HighShelf2::new(&six_decibels(Format::S16, 2)).unwrap();
    assert_eq!(
        filter.bq().coefficients(),
        design_high_shelf(48000, 6 * ONE, ONE, 8000 * ONE).unwrap()
    );
    assert_eq!(filter.bq().format(), Format::S16);
    assert_eq!(filter.bq().channels(), 2);
    assert_eq!(filter.bq().history(0), SILENT);
    assert_eq!(filter.bq().history(1), SILENT);
}

#[test]
fn latency_is_one() {
    for config in [
        six_decibels(Format::S16, 2),
        six_decibels(Format::F32, 1),
        HighShelf2Config::new(Format::U8, 7, 8000, -20 * ONE, ONE / 3, 100 * ONE),
    ] {
        let filter = HighShelf2::new(&config).unwrap();
        assert_eq!(filter.latency(), 1);
    }
}

#[test]
fn rejects_frequency_at_nyquist() {
    let config = HighShelf2Config::new(Format::S16, 1, 48000, 6 * ONE, ONE, 24000 * ONE);
    assert!(matches!(HighShelf2::new(&config), Err(Error::InvalidArgs)));
}

#[test]
fn rejects_invalid_configurations() {
    let good = six_decibels(Format::S16, 1);
    let mut config = good;
    config.set_channels(0);
    assert!(matches!(HighShelf2::new(&config), Err(Error::InvalidArgs)));
    let mut config = good;
    config.set_sample_rate(0);
    assert!(matches!(HighShelf2::new(&config), Err(Error::InvalidArgs)));
    let mut config = good;
    config.set_frequency(0);
    assert!(matches!(HighShelf2::new(&config), Err(Error::InvalidArgs)));
    let mut config = good;
    config.set_shelf_slope(0);
    assert!(matches!(HighShelf2::new(&config), Err(Error::InvalidArgs)));
    let mut config = good;
    config.set_shelf_slope(-ONE);
    assert!(matches!(HighShelf2::new(&config), Err(Error::InvalidArgs)));
    let mut config = good;
    config.set_gain_db(400 * ONE);
    assert!(matches!(HighShelf2::new(&config), Err(Error::InvalidArgs)));
    assert!(HighShelf2::new(&good).is_ok());
}

#[test]
fn accepts_every_moderate_configuration() {
    for rate in [1u32, 8000, 44100, 48000, 192000, u32::MAX] {
        for gain in [-48 * ONE, -12 * ONE - 1, 0, 1, 6 * ONE, 48 * ONE] {
            for slope in [1, ONE / 256, ONE / 3, ONE] {
                let nyquist = rate as i64 * (ONE / 2);
                for frequency in [1, nyquist / 3 + 1, nyquist - 1] {
                    let config =
                        HighShelf2Config::new(Format::S16, 1, rate, gain, slope, frequency);
                    assert!(
                        HighShelf2::new(&config).is_ok(),
                        "{:?}",
                        (rate, gain, slope, frequency)
                    );
                }
            }
        }
    }
}

#[test]
fn zero_gain_is_accepted_with_every_positive_slope() {
    for slope in [1, 2, 3, ONE / 256, ONE, 2 * ONE, 256 * ONE, 300 * ONE, i64::MAX] {
        for (rate, frequency) in [(44100u32, 1000 * ONE), (1, 1), (u32::MAX, 1), (8000, 4000 * ONE - 1)]
        {
            let config = HighShelf2Config::new(Format::F32, 3, rate, 0, slope, frequency);
            assert!(HighShelf2::new(&config).is_ok(), "{:?}", (slope, rate, frequency));
        }
    }
}

#[test]
fn zero_gain_with_a_steep_slope_passes_samples_through() {
    let config = HighShelf2Config::new(Format::S16, 1, 48000, 0, 300 * ONE, 8000 * ONE);
    let mut filter = HighShelf2::new(&config).unwrap();
    let words: Vec<i32> = vec![0, 100, -100, 32767, -32768, 5, 17, -32768, 32767];
    let mut frames = Frames::wrap(words.clone(), Format::S16, 1).unwrap();
    filter.process_pcm_frames_in_place(&mut frames).unwrap();
    assert_eq!(frames.into_samples(), words);
    // And again, with what the first call left in the filter.
    let mut frames = Frames::wrap(words.clone(), Format::S16, 1).unwrap();
    filter.process_pcm_frames_in_place(&mut frames).unwrap();
    assert_eq!(frames.into_samples(), words);
}

#[test]
fn zero_gain_keeps_the_signal_value_of_every_single() {
    let config = HighShelf2Config::new(Format::F32, 1, 48000, 0, ONE, 8000 * ONE);
    let mut filter = HighShelf2::new(&config).unwrap();
    let singles = [
        0.0f32, -0.0, 1.0, -1.0, 0.3, 1e-3, -1e-5, 1e-9, 1e-12, 1e-30, 5e4, -5e4,
        f32::MAX, f32::INFINITY, f32::NEG_INFINITY, f32::NAN, f32::MIN_POSITIVE,
    ];
    let words: Vec<i32> = singles.iter().map(|x| word(*x)).collect();
    for _ in 0..2 {
        let input = Frames::wrap(words.clone(), Format::F32, 1).unwrap();
        let mut output = Frames::wrap(vec![0; words.len()], Format::F32, 1).unwrap();
        filter.process_pcm_frames(&mut output, &input).unwrap();
        for i in 0..words.len() {
            assert_eq!(
                Format::F32.decode(output.sample(i)),
                Format::F32.decode(words[i]),
                "{}",
                singles[i]
            );
            if singles[i].is_finite() && singles[i].abs() <= 1.0 {
                assert!((single(output.sample(i)) - singles[i]).abs() <= 1e-9);
            }
        }
    }
}

#[test]
fn zero_gain_passes_samples_through() {
    for (rate, slope, frequency) in
        [(48000u32, ONE, 8000 * ONE), (44100, ONE / 3, 50 * ONE), (8000, 2 * ONE, 3999 * ONE)]
    {
        let config = HighShelf2Config::new(Format::S16, 1, rate, 0, slope, frequency);
        let mut filter = HighShelf2::new(&config).unwrap();
        let words: Vec<i32> = vec![0, 100, -100, 32767, -32768, 5, 17, -32768, 32767];
        let input = Frames::wrap(words.clone(), Format::S16, 1).unwrap();
        let mut output = Frames::wrap(vec![0; 9], Format::S16, 1).unwrap();
        filter.process_pcm_frames(&mut output, &input).unwrap();
        assert_eq!(output.into_samples(), words);
    }
}

#[test]
fn zero_gain_passes_every_format_through() {
    let cases: Vec<(Format, Vec<i32>)> = vec![
        (Format::U8, vec![0, 255, 128, 1, 77, 200]),
        (Format::S24, vec![-8388608, 8388607, 0, -1, 424242, 5]),
        (Format::S32, vec![i32::MIN, i32::MAX, 0, -1, 1, 123456789]),
        (Format::F32, vec![word(0.5), word(-0.25), word(1.0), word(-1.5), word(0.0), word(0.3)]),
    ];
    for (format, words) in cases {
        let config = HighShelf2Config::new(format, 2, 48000, 0, ONE, 8000 * ONE);
        let mut filter = HighShelf2::new(&config).unwrap();
        let input = Frames::wrap(words.clone(), format, 2).unwrap();
        let mut output = Frames::wrap(vec![0; 6], format, 2).unwrap();
        filter.process_pcm_frames(&mut output, &input).unwrap();
        assert_eq!(output.into_samples(), words);
    }
}

#[test]
fn process_rejects_mismatched_formats() {
    let mut filter = HighShelf2::new(&six_decibels(Format::S16, 1)).unwrap();
    filter
        .process_pcm_frames_in_place(&mut Frames::wrap(vec![500, -500], Format::S16, 1).unwrap())
        .unwrap();
    let history = filter.bq().history(0);
    let input = Frames::wrap(vec![1, 2, 3, 4], Format::S16, 1).unwrap();
    let mut output = Frames::wrap(vec![9, 9, 9, 9], Format::S32, 1).unwrap();
    assert_eq!(filter.process_pcm_frames(&mut output, &input), Err(Error::InvalidArgs));
    assert_eq!(output.into_samples(), vec![9, 9, 9, 9]);
    assert_eq!(filter.bq().history(0), history);
    // Both buffers agree with each other but not with the filter.
    let input = Frames::wrap(vec![1, 2, 3, 4], Format::S32, 1).unwrap();
    let mut output = Frames::wrap(vec![9, 9, 9, 9], Format::S32, 1).unwrap();
    assert_eq!(filter.process_pcm_frames(&mut output, &input), Err(Error::InvalidArgs));
    assert_eq!(output.into_samples(), vec![9, 9, 9, 9]);
    assert_eq!(filter.bq().history(0), history);
}

#[test]
fn process_rejects_mismatched_frame_counts() {
    let mut filter = HighShelf2::new(&six_decibels(Format::S16, 2)).unwrap();
    let input = Frames::wrap(vec![1, 2, 3, 4], Format::S16, 2).unwrap();
    let mut output = Frames::wrap(vec![9, 9, 9, 9, 9, 9], Format::S16, 2).unwrap();
    assert_eq!(filter.process_pcm_frames(&mut output, &input), Err(Error::InvalidArgs));
    assert_eq!(output.into_samples(), vec![9, 9, 9, 9, 9, 9]);
    let mut output = Frames::wrap(vec![9, 9], Format::S16, 2).unwrap();
    assert_eq!(filter.process_pcm_frames(&mut output, &input), Err(Error::InvalidArgs));
    assert_eq!(output.into_samples(), vec![9, 9]);
    assert_eq!(filter.bq().history(0), SILENT);
    assert_eq!(filter.bq().history(1), SILENT);
}

#[test]
fn process_rejects_mismatched_channel_counts() {
    let mut filter = HighShelf2::new(&six_decibels(Format::S16, 2)).unwrap();
    let input = Frames::wrap(vec![1, 2, 3, 4], Format::S16, 1).unwrap();
    let mut output = Frames::wrap(vec![9, 9, 9, 9], Format::S16, 1).unwrap();
    assert_eq!(filter.process_pcm_frames(&mut output, &input), Err(Error::InvalidArgs));
    assert_eq!(output.into_samples(), vec![9, 9, 9, 9]);
    let input = Frames::wrap(vec![1, 2, 3, 4], Format::S16, 2).unwrap();
    let mut output = Frames::wrap(vec![9, 9, 9, 9], Format::S16, 4).unwrap();
    assert_eq!(filter.process_pcm_frames(&mut output, &input), Err(Error::InvalidArgs));
    assert_eq!(output.into_samples(), vec![9, 9, 9, 9]);
    let mut frames = Frames::wrap(vec![1, 2, 3], Format::S16, 3).unwrap();
    assert_eq!(filter.process_pcm_frames_in_place(&mut frames), Err(Error::InvalidArgs));
    assert_eq!(frames.into_samples(), vec![1, 2, 3]);
    assert_eq!(filter.bq().history(0), SILENT);
}

#[test]
fn process_accepts_empty_buffers() {
    let mut filter = HighShelf2::new(&six_decibels(Format::S16, 2)).unwrap();
    let input = Frames::wrap(vec![], Format::S16, 2).unwrap();
    let mut output = Frames::wrap(vec![], Format::S16, 2).unwrap();
    assert_eq!(filter.process_pcm_frames(&mut output, &input), Ok(()));
    assert_eq!(filter.bq().history(0), SILENT);
}

#[test]
fn fresh_filters_agree_bit_for_bit() {
    let words: Vec<i32> = (0..200).map(|i: i32| (i * 7919 % 65536) - 32768).collect();
    let mut outputs = Vec::new();
    for _ in 0..2 {
        let mut filter = HighShelf2::new(&six_decibels(Format::S16, 2)).unwrap();
        let input = Frames::wrap(words.clone(), Format::S16, 2).unwrap();
        let mut output = Frames::wrap(vec![0; 200], Format::S16, 2).unwrap();
        filter.process_pcm_frames(&mut output, &input).unwrap();
        outputs.push((output.into_samples(), filter.bq().history(0), filter.bq().history(1)));
    }
    assert_eq!(outputs[0], outputs[1]);
}

#[test]
fn a_stream_may_be_cut_between_frames() {
    let words: Vec<i32> = (0..120).map(|i: i32| (i * 104729 % 65536) - 32768).collect();
    let mut whole = HighShelf2::new(&six_decibels(Format::S16, 2)).unwrap();
    let mut all = Frames::wrap(words.clone(), Format::S16, 2).unwrap();
    whole.process_pcm_frames_in_place(&mut all).unwrap();
    let mut cut = HighShelf2::new(&six_decibels(Format::S16, 2)).unwrap();
    let mut head = Frames::wrap(words[..46].to_vec(), Format::S16, 2).unwrap();
    let mut tail = Frames::wrap(words[46..].to_vec(), Format::S16, 2).unwrap();
    cut.process_pcm_frames_in_place(&mut head).unwrap();
    cut.process_pcm_frames_in_place(&mut tail).unwrap();
    let mut joined = head.into_samples();
    joined.extend(tail.into_samples());
    assert_eq!(joined, all.into_samples());
    assert_eq!(cut.bq().history(0), whole.bq().history(0));
    assert_eq!(cut.bq().history(1), whole.bq().history(1));
}

#[test]
fn in_place_equals_separate_zeroed_output() {
    let xs = sine(3000.0, 0.8, 96);
    let words: Vec<i32> = xs.iter().map(|x| word(*x as f32)).collect();
    let mut apart = HighShelf2::new(&six_decibels(Format::F32, 1)).unwrap();
    let input = Frames::wrap(words.clone(), Format::F32, 1).unwrap();
    let mut output = Frames::wrap(vec![0; 96], Format::F32, 1).unwrap();
    apart.process_pcm_frames(&mut output, &input).unwrap();
    let mut in_place = HighShelf2::new(&six_decibels(Format::F32, 1)).unwrap();
    let mut frames = Frames::wrap(words, Format::F32, 1).unwrap();
    in_place.process_pcm_frames_in_place(&mut frames).unwrap();
    assert_eq!(frames.into_samples(), output.into_samples());
    assert_eq!(in_place.bq().history(0), apart.bq().history(0));
}

#[test]
fn reinit_keeps_the_history() {
    let mut filter = HighShelf2::new(&six_decibels(Format::S32, 2)).unwrap();
    let mut frames = Frames::wrap(vec![1 << 30, -(1 << 29), 12345, 678910], Format::S32, 2).unwrap();
    filter.process_pcm_frames_in_place(&mut frames).unwrap();
    let first = filter.bq().history(0);
    let second = filter.bq().history(1);
    assert_ne!(first, SILENT);
    let mut config = six_decibels(Format::S32, 2);
    config.set_gain_db(3 * ONE);
    filter.reinit(&config).unwrap();
    assert_eq!(
        filter.bq().coefficients(),
        design_high_shelf(48000, 3 * ONE, ONE, 8000 * ONE).unwrap()
    );
    assert_eq!(filter.bq().history(0), first);
    assert_eq!(filter.bq().history(1), second);
}

#[test]
fn reinit_with_more_channels_keeps_the_old_ones() {
    let mut filter = HighShelf2::new(&six_decibels(Format::S32, 1)).unwrap();
    let mut frames = Frames::wrap(vec![1 << 30, -(1 << 29)], Format::S32, 1).unwrap();
    filter.process_pcm_frames_in_place(&mut frames).unwrap();
    let first = filter.bq().history(0);
    filter.reinit(&six_decibels(Format::S32, 3)).unwrap();
    assert_eq!(filter.bq().channels(), 3);
    assert_eq!(filter.bq().history(0), first);
    assert_eq!(filter.bq().history(1), SILENT);
    assert_eq!(filter.bq().history(2), SILENT);
}

#[test]
fn reinit_refuses_and_changes_nothing() {
    let mut filter = HighShelf2::new(&six_decibels(Format::S32, 1)).unwrap();
    let mut frames = Frames::wrap(vec![1 << 30, -(1 << 29)], Format::S32, 1).unwrap();
    filter.process_pcm_frames_in_place(&mut frames).unwrap();
    let history = filter.bq().history(0);
    let coefficients: Coefficients = filter.bq().coefficients();
    let mut config = six_decibels(Format::S16, 4);
    config.set_frequency(24000 * ONE);
    assert_eq!(filter.reinit(&config), Err(Error::InvalidArgs));
    assert_eq!(filter.bq().format(), Format::S32);
    assert_eq!(filter.bq().channels(), 1);
    assert_eq!(filter.bq().coefficients(), coefficients);
    assert_eq!(filter.bq().history(0), history);
}

#[test]
fn reinit_in_mid_stream_adds_no_discontinuity() {
    let xs = sine(1000.0, 0.5, 48);
    let words: Vec<i32> = xs.iter().map(|x| (x * 2147483647.0).round() as i32).collect();
    let mut quieter = six_decibels(Format::S32, 1);
    quieter.set_gain_db(3 * ONE);

    let mut filter = HighShelf2::new(&six_decibels(Format::S32, 1)).unwrap();
    let mut head = Frames::wrap(words[..12].to_vec(), Format::S32, 1).unwrap();
    filter.process_pcm_frames_in_place(&mut head).unwrap();
    filter.reinit(&quieter).unwrap();
    let mut tail = Frames::wrap(words[12..].to_vec(), Format::S32, 1).unwrap();
    filter.process_pcm_frames_in_place(&mut tail).unwrap();
    let before = head.sample(11) as f64 / 2147483648.0;
    let after = tail.sample(0) as f64 / 2147483648.0;
    // The input moves by less than 0.002 here, at the crest of the sine.
    assert!((after - before).abs() < 0.01, "step {}", after - before);

    // A filter that forgot its history would jump.
    let mut forgetful = HighShelf2::new(&quieter).unwrap();
    let mut tail = Frames::wrap(words[12..].to_vec(), Format::S32, 1).unwrap();
    forgetful.process_pcm_frames_in_place(&mut tail).unwrap();
    let jumped = tail.sample(0) as f64 / 2147483648.0;
    assert!((jumped - before).abs() > 0.1, "step {}", jumped - before);
}

#[test]
fn shelf_boosts_above_the_corner_more_than_below() {
    let config = six_decibels(Format::F32, 1);
    let low_in = sine(1000.0, 0.5, 48);
    let high_in = sine(10000.0, 0.5, 48);
    let low_out = filter_singles(&config, &low_in);
    let high_out = filter_singles(&config, &high_in);
    let low_gain = rms(&low_out) / rms(&low_in);
    let high_gain = rms(&high_out) / rms(&high_in);
    assert!(low_gain < high_gain, "{} against {}", low_gain, high_gain);
    assert!((low_gain - 1.0).abs() < 0.01, "{}", low_gain);
    assert!(high_gain > 1.5 && high_gain < 2.0, "{}", high_gain);
    let low_peak = low_out.iter().fold(0.0f64, |m, y| m.max(y.abs()));
    let high_peak = high_out.iter().fold(0.0f64, |m, y| m.max(y.abs()));
    assert!(low_peak < high_peak, "{} against {}", low_peak, high_peak);
}

#[test]
fn shelf_cuts_above_the_corner_with_negative_gain() {
    let mut config = six_decibels(Format::F32, 1);
    config.set_gain_db(-6 * ONE);
    let high_in = sine(10000.0, 0.5, 480);
    let high_out = filter_singles(&config, &high_in);
    let gain = rms(&high_out) / rms(&high_in);
    assert!(gain > 0.5 && gain < 0.7, "{}", gain);
}
