//! Notes and score metadata.
//!
//! A [`Note`] is one scheduled sound event: a waveform choice, volume, base
//! frequency, optional glide target and vibrato frequency, a span in beats,
//! a start time in beats, and the envelope parameters in milliseconds.
//! [`Note::audio_at`] gives the note's amplitude contribution at an
//! absolute time under a tempo: envelope times oscillator times volume.
//! [`MetaData`] carries the global tempo (beats per minute) and rendered
//! length (beats).

use vstd::prelude::*;
use crate::fixed::{Fx, FX_ONE, fx_add, fx_sub, fx_mul, fx_div, fx_scale};
use crate::wave::{WaveForm, WaveSpec, wave_at, wf_valid};
use crate::warp::{scale_time, scale_time_at, opt_raw};
use crate::envelope::{volume_multiplier, envelope_at};

verus! {

/// One scheduled sound event.
#[derive(Clone, Debug)]
pub struct Note {
    pub wave_form: WaveForm,
    /// Amplitude scalar, nominally in `[0, 1]`.
    pub volume: Fx,
    /// Base frequency in hertz.
    pub frequency: Fx,
    /// Glide target frequency in hertz; absent means no glide.
    pub glide_to: Option<Fx>,
    /// Vibrato frequency in hertz; absent means no vibrato.
    pub lfo_pitch: Option<Fx>,
    /// Parsed but unused by the engine; kept for score round-trips.
    pub lfo_volume: Option<Fx>,
    /// Nominal span in beats.
    pub duration: Fx,
    /// Start time in beats from the score origin.
    pub time: Fx,
    /// Attack span in milliseconds.
    pub attack: Fx,
    /// Decay span in milliseconds.
    pub decay: Fx,
    /// Sustain level, nominally in `[0, 1]`.
    pub sustain: Fx,
    /// Release span in milliseconds.
    pub release: Fx,
}

/// The mathematical image of a note: every field as a raw Q16.16 integer.
#[verifier::ext_equal]
pub struct NoteV {
    pub wave_form: WaveSpec,
    pub volume: int,
    pub frequency: int,
    pub glide_to: Option<int>,
    pub lfo_pitch: Option<int>,
    pub lfo_volume: Option<int>,
    pub duration: int,
    pub time: int,
    pub attack: int,
    pub decay: int,
    pub sustain: int,
    pub release: int,
}

impl View for Note {
    type V = NoteV;

    open spec fn view(&self) -> NoteV {
        NoteV {
            wave_form: self.wave_form@,
            volume: self.volume.raw as int,
            frequency: self.frequency.raw as int,
            glide_to: opt_raw(self.glide_to),
            lfo_pitch: opt_raw(self.lfo_pitch),
            lfo_volume: opt_raw(self.lfo_volume),
            duration: self.duration.raw as int,
            time: self.time.raw as int,
            attack: self.attack.raw as int,
            decay: self.decay.raw as int,
            sustain: self.sustain.raw as int,
            release: self.release.raw as int,
        }
    }
}

/// Global tempo (beats per minute) and total rendered length (beats).
#[derive(Clone, Copy, Debug, PartialEq, Eq, Structural)]
pub struct MetaData {
    pub tempo: Fx,
    pub length: Fx,
}

/// The note template a score starts from, before any `DEFAULT` command.
pub open spec fn default_note() -> NoteV {
    NoteV {
        wave_form: WaveSpec::Square,
        volume: 16384,
        frequency: 28835840,
        glide_to: Option::None,
        lfo_pitch: Option::None,
        lfo_volume: Option::None,
        duration: 16384,
        time: 0,
        attack: 0,
        decay: 0,
        sustain: FX_ONE as int,
        release: 0,
    }
}

/// Beats to seconds under a tempo in beats per minute: `b * 60 / tempo`.
pub open spec fn beats_to_s(b: int, tempo: int) -> int {
    fx_div(fx_scale(b, 60), tempo)
}

/// Beats to milliseconds under a tempo: `b * 60000 / tempo`.
pub open spec fn beats_to_ms(b: int, tempo: int) -> int {
    fx_div(fx_scale(b, 60000), tempo)
}

/// The virtual time this note's oscillator consumes at absolute time `t`
/// seconds: elapsed time since the note's start, warped by its glide and
/// vibrato over its entire audible span in seconds — the nominal duration
/// converted at the tempo, plus the release tail.
pub open spec fn note_virtual_time(n: NoteV, t: int, tempo: int) -> int {
    let t_since_s = fx_sub(t, beats_to_s(n.time, tempo));
    let glide_end = match n.glide_to {
        Option::Some(g) => g,
        Option::None => n.frequency,
    };
    let span_s = fx_add(beats_to_s(n.duration, tempo), fx_div(n.release, 65536000));
    scale_time_at(t_since_s, n.frequency, glide_end, n.lfo_pitch, span_s)
}

/// The envelope multiplier of this note at absolute time `t` seconds: the
/// elapsed time is capped at the note's nominal end so the sustain value
/// holds through the release tail.
pub open spec fn note_envelope(n: NoteV, t: int, tempo: int) -> int {
    let end = fx_add(n.time, n.duration);
    let end_ms = beats_to_ms(end, tempo);
    let capped_ms = if t > beats_to_s(end, tempo) {
        end_ms
    } else {
        fx_scale(t, 1000)
    };
    let since_ms = fx_sub(capped_ms, beats_to_ms(n.time, tempo));
    let until_ms = fx_sub(fx_add(end_ms, n.release), fx_scale(t, 1000));
    envelope_at(since_ms, until_ms, n.attack, n.decay, n.sustain, n.release)
}

/// The amplitude this note contributes at absolute time `t` seconds:
/// oscillator output times note volume times envelope multiplier.
pub open spec fn note_amp(n: NoteV, t: int, tempo: int) -> int {
    fx_mul(fx_mul(wave_at(n.wave_form, note_virtual_time(n, t, tempo)), n.volume), note_envelope(
        n,
        t,
        tempo,
    ))
}

impl Note {
    /// The default note template: a quarter-beat square wave at 440 Hz,
    /// quarter volume, full sustain, no envelope ramps, no glide, no
    /// vibrato.
    pub fn new() -> (r: Note)
        ensures
            r@ == default_note(),
    {
        Note {
            wave_form: WaveForm::Square,
            volume: Fx { raw: 16384 },
            frequency: Fx { raw: 28835840 },
            glide_to: Option::None,
            lfo_pitch: Option::None,
            lfo_volume: Option::None,
            duration: Fx { raw: 16384 },
            time: Fx { raw: 0 },
            attack: Fx { raw: 0 },
            decay: Fx { raw: 0 },
            sustain: Fx { raw: FX_ONE },
            release: Fx { raw: 0 },
        }
    }

    /// A deep copy whose mathematical image is exactly this note's.
    pub fn duplicate(&self) -> (r: Note)
        ensures
            r@ == self@,
    {
        let r = Note {
            wave_form: self.wave_form.duplicate(),
            volume: self.volume,
            frequency: self.frequency,
            glide_to: self.glide_to,
            lfo_pitch: self.lfo_pitch,
            lfo_volume: self.lfo_volume,
            duration: self.duration,
            time: self.time,
            attack: self.attack,
            decay: self.decay,
            sustain: self.sustain,
            release: self.release,
        };
        proof {
            assert(r@ =~= self@);
        }
        r
    }

    /// The same note shifted later by a beat offset: every field unchanged
    /// but the start time.
    pub fn delayed_by(&self, time: Fx) -> (r: Note)
        ensures
            r@ == (NoteV { time: fx_add(self@.time, time.raw as int), ..self@ }),
    {
        let mut other = self.duplicate();
        other.time = self.time.add(time);
        proof {
            assert(other@ =~= (NoteV { time: fx_add(self@.time, time.raw as int), ..self@ }));
        }
        other
    }

    /// This note's amplitude contribution at absolute time `time` seconds
    /// under the score's tempo: the exact value of [`note_amp`].
    pub fn audio_at(&self, time: Fx, meta_data: MetaData) -> (r: Fx)
        requires
            wf_valid(self@.wave_form),
        ensures
            r.raw as int == note_amp(self@, time.raw as int, meta_data.tempo.raw as int),
    {
        let end = self.time.add(self.duration);
        let end_ms = end.scale(60000).div(meta_data.tempo);
        let end_s = end.scale(60).div(meta_data.tempo);
        let capped_ms = if time.raw > end_s.raw {
            end_ms
        } else {
            time.scale(1000)
        };
        let since_ms = capped_ms.sub(self.time.scale(60000).div(meta_data.tempo));
        let until_ms = end_ms.add(self.release).sub(time.scale(1000));
        let multiplier = volume_multiplier(
            since_ms,
            until_ms,
            self.attack,
            self.decay,
            self.sustain,
            self.release,
        );
        let t_since_s = time.sub(self.time.scale(60).div(meta_data.tempo));
        let glide_end = match self.glide_to {
            Option::Some(g) => g,
            Option::None => self.frequency,
        };
        let span_s = self.duration.scale(60).div(meta_data.tempo).add(
            self.release.div(Fx { raw: 65536000 }),
        );
        let virt = scale_time(t_since_s, self.frequency, glide_end, self.lfo_pitch, span_s);
        let wave = self.wave_form.audio_at(virt);
        wave.mul(self.volume).mul(multiplier)
    }
}

/// Without glide and without vibrato, a note's oscillator consumes
/// exactly the elapsed seconds times its frequency: the time warp reduces
/// to the constant-frequency product.
pub proof fn lemma_plain_note_virtual_time(n: NoteV, t: int, tempo: int)
    requires
        (n.glide_to is None),
        match n.lfo_pitch {
            Option::Some(l) => l <= 0,
            Option::None => true,
        },
    ensures
        note_virtual_time(n, t, tempo) == fx_mul(fx_sub(t, beats_to_s(n.time, tempo)), n.frequency),
{
}

impl MetaData {
    /// The default metadata: 100 beats per minute, 16 beats of output.
    pub fn new() -> (r: MetaData)
        ensures
            r.tempo.raw == 6553600,
            r.length.raw == 1048576,
    {
        MetaData { tempo: Fx { raw: 6553600 }, length: Fx { raw: 1048576 } }
    }
}

} // verus!
