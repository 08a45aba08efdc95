use scoresynth::envelope::volume_multiplier;
use scoresynth::fixed::{Fx, FX_ONE};
use scoresynth::parse::{parse_fx_bytes, parse_fx_or_disable, parse_u64_bytes, pitch_to_frequency};
use scoresynth::warp::scale_time;
use scoresynth::wave::WaveForm;

fn fx(raw: i64) -> Fx {
    Fx { raw }
}

#[test]
fn square_halves() {
    let w = WaveForm::Square;
    assert_eq!(w.audio_at(fx(0)).raw, 0);
    assert_eq!(w.audio_at(fx(16384)).raw, 0);
    // the half-period boundary belongs to the high half
    assert_eq!(w.audio_at(fx(32768)).raw, FX_ONE);
    assert_eq!(w.audio_at(fx(49152)).raw, FX_ONE);
}

#[test]
fn triangle_ramps() {
    let w = WaveForm::Triangle;
    assert_eq!(w.audio_at(fx(0)).raw, 0);
    assert_eq!(w.audio_at(fx(16384)).raw, 32768);
    assert_eq!(w.audio_at(fx(32768)).raw, 65536);
    assert_eq!(w.audio_at(fx(49152)).raw, 32768);
}

#[test]
fn sawtooth_is_phase() {
    let w = WaveForm::SawTooth;
    assert_eq!(w.audio_at(fx(12345)).raw, 12345);
    assert_eq!(w.audio_at(fx(65536 + 12345)).raw, 12345);
    // negative phase wraps into [0, 1)
    assert_eq!(w.audio_at(fx(-16384)).raw, 49152);
}

#[test]
fn sine_peaks_and_zeroes() {
    let w = WaveForm::Sine;
    assert_eq!(w.audio_at(fx(0)).raw, 32768);
    assert_eq!(w.audio_at(fx(16384)).raw, 65536);
    assert_eq!(w.audio_at(fx(32768)).raw, 32768);
    assert_eq!(w.audio_at(fx(49152)).raw, 0);
}

#[test]
fn pulse_ratio_sets_high_share() {
    let w = WaveForm::Pulse(fx(16384)); // high for the last quarter
    assert_eq!(w.audio_at(fx(0)).raw, 0);
    assert_eq!(w.audio_at(fx(40000)).raw, 0);
    assert_eq!(w.audio_at(fx(49152)).raw, FX_ONE);
    assert_eq!(w.audio_at(fx(65535)).raw, FX_ONE);
}

#[test]
fn all_waveforms_periodic() {
    // advancing the virtual time by one period never changes the output
    let forms = [
        WaveForm::Square,
        WaveForm::Triangle,
        WaveForm::Sine,
        WaveForm::SawTooth,
        WaveForm::Noise,
        WaveForm::Pulse(fx(32768)),
        WaveForm::Harmonics(vec![fx(FX_ONE), fx(FX_ONE)]),
    ];
    for w in &forms {
        for t in [-200000i64, -1, 0, 1, 12345, 32768, 99999, 1000000] {
            let a = w.audio_at(fx(t)).raw;
            let b = w.audio_at(fx(t + FX_ONE)).raw;
            assert_eq!(a, b, "waveform not periodic at t={}", t);
        }
    }
}

#[test]
fn all_waveforms_stay_in_unit_range() {
    let forms = [
        WaveForm::Square,
        WaveForm::Triangle,
        WaveForm::Sine,
        WaveForm::SawTooth,
        WaveForm::Noise,
        WaveForm::Pulse(fx(100)),
        WaveForm::Pulse(fx(-50)),
        WaveForm::Pulse(fx(90000)),
        WaveForm::Harmonics(vec![fx(FX_ONE), fx(0), fx(3 * FX_ONE)]),
    ];
    for w in &forms {
        for k in 0..200i64 {
            let t = k * 3217 - 300000;
            let a = w.audio_at(fx(t)).raw;
            assert!(0 <= a && a <= FX_ONE, "out of range at t={}: {}", t, a);
        }
    }
}

#[test]
fn noise_is_deterministic_and_binary() {
    let w = WaveForm::Noise;
    for t in [0i64, 5000, 123456, -77777] {
        let a = w.audio_at(fx(t)).raw;
        let b = w.audio_at(fx(t)).raw;
        assert_eq!(a, b);
        assert!(a == 0 || a == FX_ONE);
    }
}

#[test]
fn harmonics_pair_is_average_of_sines() {
    let pair = WaveForm::Harmonics(vec![fx(FX_ONE), fx(FX_ONE)]);
    let sine = WaveForm::Sine;
    for t in [0i64, 1000, 16384, 30000, 50000, 123456] {
        let avg = (sine.audio_at(fx(t)).raw + sine.audio_at(fx(2 * t)).raw) / 2;
        assert_eq!(pair.audio_at(fx(t)).raw, avg, "at t={}", t);
    }
}

#[test]
fn flat_envelope_is_exactly_one() {
    // attack = decay = release = 0, sustain = 1
    for elapsed in [0i64, 1, 5000, 100000] {
        for until in [0i64, 1, 70000] {
            let m = volume_multiplier(fx(elapsed), fx(until), fx(0), fx(0), fx(FX_ONE), fx(0));
            assert_eq!(m.raw, FX_ONE);
        }
    }
}

#[test]
fn attack_ramp_is_linear() {
    // halfway through a 100 ms attack the multiplier is exactly one half
    let attack = fx(100 * FX_ONE);
    let m = volume_multiplier(fx(50 * FX_ONE), fx(500 * FX_ONE), attack, fx(0), fx(FX_ONE), fx(0));
    assert_eq!(m.raw, 32768);
}

#[test]
fn decay_reaches_sustain() {
    // past attack+decay the multiplier sits at the sustain level
    let m = volume_multiplier(
        fx(300 * FX_ONE),
        fx(500 * FX_ONE),
        fx(100 * FX_ONE),
        fx(100 * FX_ONE),
        fx(32768),
        fx(0),
    );
    assert_eq!(m.raw, 32768);
}

#[test]
fn release_fades_current_level() {
    // a quarter of the release span left fades the sustain to a quarter
    let m = volume_multiplier(
        fx(300 * FX_ONE),
        fx(25 * FX_ONE),
        fx(0),
        fx(0),
        fx(FX_ONE),
        fx(100 * FX_ONE),
    );
    assert_eq!(m.raw, 16384);
}

#[test]
fn constant_frequency_warp_is_product() {
    // no glide, no vibrato: virtual time is elapsed times frequency
    let r = scale_time(fx(2 * FX_ONE), fx(440 * FX_ONE), fx(440 * FX_ONE), None, fx(FX_ONE));
    assert_eq!(r.raw, 880 * FX_ONE);
    // a non-positive modulation frequency counts as no vibrato
    let r2 = scale_time(
        fx(2 * FX_ONE),
        fx(440 * FX_ONE),
        fx(440 * FX_ONE),
        Some(fx(0)),
        fx(FX_ONE),
    );
    assert_eq!(r2.raw, 880 * FX_ONE);
}

#[test]
fn glide_starts_at_zero() {
    let r = scale_time(fx(0), fx(220 * FX_ONE), fx(440 * FX_ONE), None, fx(FX_ONE));
    assert_eq!(r.raw, 0);
}

#[test]
fn glide_moves_between_frequencies() {
    // over one second from 220 Hz to 440 Hz the accumulated phase lies
    // strictly between the two constant-frequency extremes
    let r = scale_time(fx(FX_ONE), fx(220 * FX_ONE), fx(440 * FX_ONE), None, fx(FX_ONE));
    assert!(r.raw > 220 * FX_ONE, "phase {}", r.raw);
    assert!(r.raw < 440 * FX_ONE, "phase {}", r.raw);
}

#[test]
fn vibrato_at_start_adds_nothing() {
    // sin(0) is zero, so at the start the flat carrier term stands alone
    let r = scale_time(
        fx(0),
        fx(440 * FX_ONE),
        fx(440 * FX_ONE),
        Some(fx(5 * FX_ONE)),
        fx(2 * FX_ONE),
    );
    assert_eq!(r.raw, 880 * FX_ONE);
}

#[test]
fn pitch_names_map_to_table_frequencies() {
    assert_eq!(pitch_to_frequency(b"A4").unwrap().raw, 28835840);
    assert_eq!(pitch_to_frequency(b"A0").unwrap().raw, 1802240);
    assert_eq!(pitch_to_frequency(b"C#5").unwrap().raw, 72661600);
    assert_eq!(pitch_to_frequency(b"Ab8").unwrap().raw, 870953472);
    assert_eq!(pitch_to_frequency(b"Bb0").unwrap().raw, 1909407);
    // enharmonic spellings agree
    assert_eq!(
        pitch_to_frequency(b"A#3").unwrap().raw,
        pitch_to_frequency(b"Bb3").unwrap().raw
    );
}

#[test]
fn each_octave_doubles_exactly() {
    for name in ["A", "A#", "Bb", "B", "C", "C#", "Db", "D", "D#", "Eb", "E", "F", "F#", "Gb", "G", "G#", "Ab"] {
        for o in 0..8u8 {
            let low = format!("{}{}", name, o);
            let high = format!("{}{}", name, o + 1);
            let f_low = pitch_to_frequency(low.as_bytes()).unwrap().raw;
            let f_high = pitch_to_frequency(high.as_bytes()).unwrap().raw;
            assert_eq!(f_high, 2 * f_low, "octave doubling broke at {}", low);
        }
    }
}

#[test]
fn pitch_names_outside_table_are_rejected() {
    assert!(pitch_to_frequency(b"H4").is_err());
    assert!(pitch_to_frequency(b"Cb4").is_err());
    assert!(pitch_to_frequency(b"E#3").is_err());
    assert!(pitch_to_frequency(b"A9").is_err());
    assert!(pitch_to_frequency(b"A").is_err());
    assert!(pitch_to_frequency(b"").is_err());
}

#[test]
fn decimal_numbers_land_on_the_grid() {
    assert_eq!(parse_fx_bytes(b"1.5").unwrap().raw, 98304);
    assert_eq!(parse_fx_bytes(b"-0.25").unwrap().raw, -16384);
    assert_eq!(parse_fx_bytes(b"440").unwrap().raw, 440 * FX_ONE);
    assert_eq!(parse_fx_bytes(b"+2").unwrap().raw, 2 * FX_ONE);
    assert_eq!(parse_fx_bytes(b"1.").unwrap().raw, FX_ONE);
    assert_eq!(parse_fx_bytes(b".5").unwrap().raw, 32768);
    assert_eq!(parse_fx_bytes(b"3.141592").unwrap().raw, 205887);
    assert_eq!(parse_fx_bytes(b"0.000001").unwrap().raw, 0);
}

#[test]
fn malformed_decimals_are_rejected() {
    assert!(parse_fx_bytes(b"").is_none());
    assert!(parse_fx_bytes(b".").is_none());
    assert!(parse_fx_bytes(b"abc").is_none());
    assert!(parse_fx_bytes(b"1.2.3").is_none());
    assert!(parse_fx_bytes(b"--1").is_none());
    assert!(parse_fx_bytes(b"1e").is_none());
    assert!(parse_fx_bytes(b"e3").is_none());
    assert!(parse_fx_bytes(b"1e2.5").is_none());
}

#[test]
fn exponent_suffixes_scale_by_powers_of_ten() {
    assert_eq!(parse_fx_bytes(b"1e3").unwrap().raw, 1000 * FX_ONE);
    assert_eq!(parse_fx_bytes(b"1E2").unwrap().raw, 100 * FX_ONE);
    assert_eq!(parse_fx_bytes(b"1e+2").unwrap().raw, 100 * FX_ONE);
    assert_eq!(parse_fx_bytes(b"2.5e-2").unwrap().raw, 1638); // 0.025
    assert_eq!(parse_fx_bytes(b"-1.5e2").unwrap().raw, -150 * FX_ONE);
    assert_eq!(parse_fx_bytes(b"1e-30").unwrap().raw, 0);
    // far beyond the grid the value saturates at the rails
    assert_eq!(parse_fx_bytes(b"1e30").unwrap().raw, i64::MAX);
    assert_eq!(parse_fx_bytes(b"-1e30").unwrap().raw, i64::MIN);
    assert_eq!(parse_fx_bytes(b"0e30").unwrap().raw, 0);
}

#[test]
fn disable_words_switch_features_off() {
    for w in [&b"disable"[..], b"none", b"no", b"off"] {
        assert_eq!(parse_fx_or_disable(w).unwrap(), None);
    }
    assert_eq!(parse_fx_or_disable(b"2.5").unwrap().unwrap().raw, 163840);
    assert!(parse_fx_or_disable(b"maybe").is_err());
}

#[test]
fn whole_numbers_parse_to_u64() {
    assert_eq!(parse_u64_bytes(b"42"), Some(42));
    assert_eq!(parse_u64_bytes(b"0"), Some(0));
    assert_eq!(parse_u64_bytes(b"18446744073709551615"), Some(u64::MAX));
    assert_eq!(parse_u64_bytes(b"18446744073709551616"), None);
    assert_eq!(parse_u64_bytes(b""), None);
    assert_eq!(parse_u64_bytes(b"1.5"), None);
    assert_eq!(parse_u64_bytes(b"-1"), None);
}
