use scoresynth::command::ParserState;
use scoresynth::fixed::{Fx, FX_ONE};
use scoresynth::note::{MetaData, Note};
use scoresynth::render::{all_notes_valid, is_sorted_by_time, render, sample_data, sort_notes};

fn fx(raw: i64) -> Fx {
    Fx { raw }
}

fn meta(tempo: i64, length: i64) -> MetaData {
    MetaData { tempo: fx(tempo * FX_ONE), length: fx(length * FX_ONE) }
}

#[test]
fn sample_bytes_scale_and_clip() {
    // silence sits at the bottom rail of the unipolar mapping
    assert_eq!(sample_data(fx(0)), (0, 128));
    // full scale reaches the top rail exactly
    assert_eq!(sample_data(fx(FX_ONE)), (255, 127));
    // half scale is the signed midpoint, as the truncating cast gives
    assert_eq!(sample_data(fx(32768)), (0, 0));
    // overload clips at the boundary value, it never wraps
    assert_eq!(sample_data(fx(2 * FX_ONE)), (255, 127));
    assert_eq!(sample_data(fx(100 * FX_ONE)), (255, 127));
    // negative accumulations clip at the bottom boundary
    assert_eq!(sample_data(fx(-FX_ONE)), (0, 128));
}

#[test]
fn empty_score_renders_exact_silence() {
    // 16 beats at tempo 100: 16 * 16000 * 60 / 100 samples
    let notes: Vec<Note> = Vec::new();
    let out = render(&notes, meta(100, 16));
    assert_eq!(out.len(), 2 * 153600);
    for pair in out.chunks(2) {
        assert_eq!(pair, &[0u8, 128u8]);
    }
}

#[test]
fn sample_count_follows_tempo_and_length() {
    let notes: Vec<Note> = Vec::new();
    assert_eq!(render(&notes, meta(120, 4)).len(), 2 * (4 * 16000 * 60 / 120));
    assert_eq!(render(&notes, meta(60, 1)).len(), 2 * 16000);
    // degenerate metadata yields no samples instead of failing
    assert_eq!(render(&notes, meta(0, 4)).len(), 0);
    assert_eq!(render(&notes, meta(-3, 4)).len(), 0);
}

fn base_note() -> Note {
    let mut st = ParserState::new();
    st.parse_line(b"NOTE duration=4 volume=0.75 s=1").unwrap();
    st.notes.pop().unwrap()
}

#[test]
fn two_simultaneous_notes_sum_then_clip() {
    let one = vec![base_note()];
    let two = vec![base_note(), base_note()];
    assert!(is_sorted_by_time(&one) && all_notes_valid(&one));
    assert!(is_sorted_by_time(&two) && all_notes_valid(&two));
    let m = meta(100, 1);
    let r1 = render(&one, m);
    let r2 = render(&two, m);
    assert_eq!(r1.len(), r2.len());
    let mut doubles_checked = 0u32;
    for i in 0..r1.len() / 2 {
        // recompute the single-note amplitude at this sample instant
        let t_s = fx((i as i64 * FX_ONE) / 16000);
        let amp = one[0].audio_at(t_s, m);
        assert_eq!((r1[2 * i], r1[2 * i + 1]), sample_data(amp));
        // the pair sums linearly before clipping
        assert_eq!((r2[2 * i], r2[2 * i + 1]), sample_data(amp.add(amp)));
        if amp.raw > 0 {
            doubles_checked += 1;
        }
    }
    assert!(doubles_checked > 0, "no audible sample was exercised");
}

#[test]
fn clipping_hits_the_boundary_exactly() {
    // 0.75 + 0.75 = 1.5 of full scale: the signed value would be 65534
    // above the rail, yet the sample is the exact boundary value
    assert_eq!(sample_data(fx(49152).add(fx(49152))), (255, 127));
    // one note alone stays below the rail
    assert_eq!(sample_data(fx(49152)), (255, 63));
}

#[test]
fn sorting_orders_by_start_and_keeps_notes() {
    let mut st = ParserState::new();
    st.parse_line(b"NOTE time=3 volume=0.3").unwrap();
    st.parse_line(b"DEFAULT time=0").unwrap();
    st.parse_line(b"NOTE time=1 volume=0.1").unwrap();
    st.parse_line(b"DEFAULT time=0").unwrap();
    st.parse_line(b"NOTE time=2 volume=0.2").unwrap();
    let sorted = sort_notes(&st.notes);
    assert_eq!(sorted.len(), 3);
    assert!(is_sorted_by_time(&sorted));
    let times: Vec<i64> = sorted.iter().map(|n| n.time.raw).collect();
    assert_eq!(times, vec![FX_ONE, 2 * FX_ONE, 3 * FX_ONE]);
    // volumes travel with their notes
    let volumes: Vec<i64> = sorted.iter().map(|n| n.volume.raw).collect();
    assert_eq!(volumes, vec![6553, 13107, 13107 + 6553]);
}

#[test]
fn rendering_a_note_is_envelope_times_wave_times_volume() {
    // a flat square note at full sustain: while the note is high the
    // accumulator is exactly its volume
    let mut st = ParserState::new();
    st.parse_line(b"NOTE duration=4 volume=0.25 frequency=1").unwrap();
    let m = meta(60, 1);
    let out = render(&st.notes, m);
    assert_eq!(out.len(), 2 * 16000);
    // at half a period of the 1 Hz square (t = 0.75 s) the wave is high
    let i = 12000usize;
    let t_s = fx((i as i64 * FX_ONE) / 16000);
    let amp = st.notes[0].audio_at(t_s, m);
    assert_eq!(amp.raw, 16384);
    assert_eq!((out[2 * i], out[2 * i + 1]), sample_data(amp));
    // at the first sample the square is low: silence from this note
    assert_eq!((out[0], out[1]), sample_data(fx(0)));
}

#[test]
fn notes_outside_their_window_are_silent() {
    let mut st = ParserState::new();
    st.parse_line(b"NOTE time=2 duration=0.1 volume=1 frequency=3").unwrap();
    let m = meta(60, 4);
    let out = render(&st.notes, m);
    // the note starts at beat 2 = 2 s: every earlier sample is silent
    for i in 0..32000usize {
        assert_eq!((out[2 * i], out[2 * i + 1]), (0, 128), "sample {}", i);
    }
    // and well after its end (beat 2.1 plus no release) it is silent again
    for i in 36000..40000usize {
        assert_eq!((out[2 * i], out[2 * i + 1]), (0, 128), "sample {}", i);
    }
}

#[test]
fn glide_changes_the_rendered_audio() {
    let mut plain = ParserState::new();
    plain.parse_line(b"NOTE duration=1 volume=0.5 frequency=220").unwrap();
    let mut gliding = ParserState::new();
    gliding
        .parse_line(b"NOTE duration=1 volume=0.5 frequency=220 glide_to=440")
        .unwrap();
    let m = meta(60, 1);
    let a = render(&plain.notes, m);
    let b = render(&gliding.notes, m);
    assert_eq!(a.len(), b.len());
    assert_ne!(a, b, "the glide left the output untouched");
}

#[test]
fn vibrato_changes_the_rendered_audio() {
    let mut plain = ParserState::new();
    plain.parse_line(b"NOTE duration=1 volume=0.5 frequency=220").unwrap();
    let mut wobbling = ParserState::new();
    wobbling
        .parse_line(b"NOTE duration=1 volume=0.5 frequency=220 lfo_pitch=6")
        .unwrap();
    let m = meta(60, 1);
    let a = render(&plain.notes, m);
    let b = render(&wobbling.notes, m);
    assert_eq!(a.len(), b.len());
    assert_ne!(a, b, "the vibrato left the output untouched");
}

#[test]
fn release_extends_the_audible_window() {
    let mut st = ParserState::new();
    st.parse_line(b"NOTE duration=1 volume=1 wave=saw frequency=1 r=500").unwrap();
    let m = meta(60, 4);
    let out = render(&st.notes, m);
    // the nominal span ends at beat 1 (one second), but the 500 ms
    // release tail keeps the note audible: some sample inside the tail
    // must differ from silence
    let mut tail_audible = false;
    for i in 16100..23900usize {
        if (out[2 * i], out[2 * i + 1]) != (0, 128) {
            tail_audible = true;
            break;
        }
    }
    assert!(tail_audible);
}
