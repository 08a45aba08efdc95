use scoresynth::command::{classify_line, CommandKind, ParseMode, ParserState};
use scoresynth::fixed::FX_ONE;
use scoresynth::wave::WaveForm;

#[test]
fn fresh_state_has_documented_defaults() {
    let st = ParserState::new();
    assert!(matches!(st.default_note.wave_form, WaveForm::Square));
    assert_eq!(st.default_note.volume.raw, 16384); // 0.25
    assert_eq!(st.default_note.frequency.raw, 440 * FX_ONE);
    assert_eq!(st.default_note.duration.raw, 16384); // 0.25 beats
    assert_eq!(st.default_note.sustain.raw, FX_ONE);
    assert_eq!(st.meta.tempo.raw, 100 * FX_ONE);
    assert_eq!(st.meta.length.raw, 16 * FX_ONE);
    assert!(st.notes.is_empty());
    assert!(matches!(st.mode, ParseMode::Standard));
}

#[test]
fn meta_sets_tempo_and_length() {
    let mut st = ParserState::new();
    st.parse_line(b"META tempo=120 length=8").unwrap();
    assert_eq!(st.meta.tempo.raw, 120 * FX_ONE);
    assert_eq!(st.meta.length.raw, 8 * FX_ONE);
}

#[test]
fn blank_runs_and_tabs_separate_pieces() {
    let mut st = ParserState::new();
    st.parse_line(b"META  \t  tempo=90\t\tlength=4").unwrap();
    assert_eq!(st.meta.tempo.raw, 90 * FX_ONE);
    assert_eq!(st.meta.length.raw, 4 * FX_ONE);
}

#[test]
fn default_seeds_later_notes() {
    let mut st = ParserState::new();
    st.parse_line(b"DEFAULT volume=0.5 duration=1").unwrap();
    st.parse_line(b"NOTE").unwrap();
    assert_eq!(st.notes.len(), 1);
    assert_eq!(st.notes[0].volume.raw, 32768);
    assert_eq!(st.notes[0].duration.raw, FX_ONE);
}

#[test]
fn note_options_override_the_template_once() {
    let mut st = ParserState::new();
    st.parse_line(b"DEFAULT volume=0.5").unwrap();
    st.parse_line(b"NOTE volume=1").unwrap();
    st.parse_line(b"NOTE").unwrap();
    assert_eq!(st.notes[0].volume.raw, FX_ONE);
    assert_eq!(st.notes[1].volume.raw, 32768);
}

#[test]
fn note_time_is_relative_to_the_template() {
    let mut st = ParserState::new();
    st.parse_line(b"DEFAULT time=2").unwrap();
    st.parse_line(b"NOTE time=3").unwrap();
    assert_eq!(st.notes[0].time.raw, 5 * FX_ONE);
}

#[test]
fn pitch_option_sets_frequency() {
    let mut st = ParserState::new();
    st.parse_line(b"NOTE pitch=A4").unwrap();
    assert_eq!(st.notes[0].frequency.raw, 440 * FX_ONE);
}

#[test]
fn waveform_specifiers_parse_with_parameters() {
    let mut st = ParserState::new();
    st.parse_line(b"NOTE wave=pul(0.5)").unwrap();
    match &st.notes[0].wave_form {
        WaveForm::Pulse(r) => assert_eq!(r.raw, 32768),
        other => panic!("unexpected waveform {:?}", other),
    }
    st.parse_line(b"NOTE wave=har(1,2)").unwrap();
    match &st.notes[1].wave_form {
        WaveForm::Harmonics(ws) => {
            assert_eq!(ws.len(), 2);
            assert_eq!(ws[0].raw, FX_ONE);
            assert_eq!(ws[1].raw, 2 * FX_ONE);
        },
        other => panic!("unexpected waveform {:?}", other),
    }
}

#[test]
fn lfo_and_glide_options_toggle() {
    let mut st = ParserState::new();
    st.parse_line(b"NOTE lfo_pitch=5 glide_to=880").unwrap();
    assert_eq!(st.notes[0].lfo_pitch.unwrap().raw, 5 * FX_ONE);
    assert_eq!(st.notes[0].glide_to.unwrap().raw, 880 * FX_ONE);
    st.parse_line(b"NOTE lfo_pitch=off glide_to=none").unwrap();
    assert!(st.notes[1].lfo_pitch.is_none());
    assert!(st.notes[1].glide_to.is_none());
}

#[test]
fn envelope_options_accept_short_and_long_keys() {
    let mut st = ParserState::new();
    st.parse_line(b"NOTE a=10 d=20 s=0.5 r=30").unwrap();
    st.parse_line(b"NOTE attack=10 decay=20 sustain=0.5 release=30").unwrap();
    for n in &st.notes {
        assert_eq!(n.attack.raw, 10 * FX_ONE);
        assert_eq!(n.decay.raw, 20 * FX_ONE);
        assert_eq!(n.sustain.raw, 32768);
        assert_eq!(n.release.raw, 30 * FX_ONE);
    }
}

#[test]
fn malformed_command_is_rejected_whole() {
    let mut st = ParserState::new();
    // the first option would parse, the second does not: nothing changes
    assert!(st.parse_line(b"META tempo=120 length=abc").is_err());
    assert_eq!(st.meta.tempo.raw, 100 * FX_ONE);
    assert_eq!(st.meta.length.raw, 16 * FX_ONE);
    assert!(st.parse_line(b"NOTE wave=xyz").is_err());
    assert!(st.parse_line(b"NOTE volume").is_err()); // no value
    assert!(st.parse_line(b"NOTE pitch=J9").is_err());
    assert!(st.parse_line(b"NOTE wave=pul(1.5)").is_err()); // ratio outside (0,1)
    assert!(st.notes.is_empty());
}

#[test]
fn unknown_commands_and_keys_are_ignored() {
    let mut st = ParserState::new();
    st.parse_line(b"WOBBLE x=1").unwrap();
    st.parse_line(b"META tempo=120 color=blue").unwrap();
    assert_eq!(st.meta.tempo.raw, 120 * FX_ONE);
    st.parse_line(b"").unwrap();
    // a leading blank hides the command word
    st.parse_line(b" NOTE").unwrap();
    assert!(st.notes.is_empty());
}

#[test]
fn command_words_are_classified() {
    assert!(matches!(classify_line(b"META tempo=1"), CommandKind::Meta));
    assert!(matches!(classify_line(b"DEFAULT"), CommandKind::Default));
    assert!(matches!(classify_line(b"NOTE pitch=A4"), CommandKind::Note));
    assert!(matches!(classify_line(b"REPEAT n=2"), CommandKind::Repeat));
    assert!(matches!(classify_line(b"END_REPEAT"), CommandKind::EndRepeat));
    assert!(matches!(classify_line(b""), CommandKind::Blank));
    assert!(matches!(classify_line(b"  NOTE"), CommandKind::Blank));
    assert!(matches!(classify_line(b"WOBBLE x=1"), CommandKind::Unknown));
}

#[test]
fn repeat_emits_delayed_copies() {
    let mut st = ParserState::new();
    st.parse_line(b"REPEAT number=3 time=1.0").unwrap();
    st.parse_line(b"NOTE duration=0.5").unwrap();
    assert_eq!(st.notes.len(), 3);
    assert_eq!(st.notes[0].time.raw, 0);
    assert_eq!(st.notes[1].time.raw, FX_ONE);
    assert_eq!(st.notes[2].time.raw, 2 * FX_ONE);
    for n in &st.notes {
        assert_eq!(n.duration.raw, 32768);
        assert_eq!(n.volume.raw, 16384);
        assert!(matches!(n.wave_form, WaveForm::Square));
    }
}

#[test]
fn end_repeat_restores_single_notes() {
    let mut st = ParserState::new();
    st.parse_line(b"REPEAT n=4 time=0.5").unwrap();
    st.parse_line(b"NOTE").unwrap();
    assert_eq!(st.notes.len(), 4);
    st.parse_line(b"END_REPEAT").unwrap();
    st.parse_line(b"NOTE").unwrap();
    assert_eq!(st.notes.len(), 5);
}

#[test]
fn repeat_count_keys_are_aliases() {
    for key in ["n", "num", "number", "times"] {
        let mut st = ParserState::new();
        let line = format!("REPEAT {}=2", key);
        st.parse_line(line.as_bytes()).unwrap();
        st.parse_line(b"NOTE").unwrap();
        assert_eq!(st.notes.len(), 2, "key {}", key);
    }
}

#[test]
fn harmonic_weights_fall_back_to_zero() {
    // an unparsable weight contributes zero, as the score format promises
    let mut st = ParserState::new();
    st.parse_line(b"NOTE wave=har(1,zz,2)").unwrap();
    match &st.notes[0].wave_form {
        WaveForm::Harmonics(ws) => {
            assert_eq!(ws.len(), 3);
            assert_eq!(ws[0].raw, FX_ONE);
            assert_eq!(ws[1].raw, 0);
            assert_eq!(ws[2].raw, 2 * FX_ONE);
        },
        other => panic!("unexpected waveform {:?}", other),
    }
}
