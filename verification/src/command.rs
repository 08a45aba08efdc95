//! Command semantics: how score lines change the parser state.
//!
//! The parser keeps a mutable template note (seeded by `DEFAULT`
//! commands), the score metadata (`META`), the emitted notes (`NOTE`), and
//! a repetition mode (`REPEAT` / `END_REPEAT`). Options are applied left
//! to right; a command with any malformed option is rejected whole, so the
//! state never changes halfway. Under an active repetition mode each
//! `NOTE` emits several copies spaced by a fixed beat interval.

use vstd::prelude::*;
use crate::fixed::{Fx, FX_ONE, fx_add, fx_scale};
use crate::wave::wf_valid;
use crate::note::{Note, NoteV, MetaData};
use crate::render::{seq_views, notes_valid};
use crate::parse::{
    ParseError, is_blank, split_runs, split_single, piece_views, parse_fx_spec,
    parse_or_disable_spec, parse_u64_spec, pitch_freq_spec, waveform_spec,
};
use crate::warp::opt_raw;

verus! {

/// Parameters of an active repetition mode: the beat spacing between
/// copies and how many copies each `NOTE` emits.
#[derive(Clone, Copy, PartialEq, Eq, Structural, Debug)]
pub struct RepeatPM {
    pub time: Fx,
    pub number: u64,
}

impl RepeatPM {
    /// The spacing and count a `REPEAT` command starts from: one copy,
    /// one beat apart.
    pub fn new() -> (r: RepeatPM)
        ensures
            r.time.raw == FX_ONE,
            r.number == 1,
    {
        RepeatPM { time: Fx { raw: FX_ONE }, number: 1 }
    }
}

/// Whether `NOTE` commands emit one note or several delayed copies.
#[derive(Clone, Copy, PartialEq, Eq, Structural, Debug)]
pub enum ParseMode {
    Standard,
    Repeat(RepeatPM),
}

/// The key of a `key=value` piece: everything before the first `=`.
pub open spec fn kv_halves(piece: Seq<u8>) -> Seq<Seq<u8>> {
    split_single(piece, |c: u8| c == 61)
}

/// One `META` option applied to the metadata; `None` rejects the command.
pub open spec fn meta_step(m: MetaData, piece: Seq<u8>) -> Option<MetaData> {
    let hs = kv_halves(piece);
    if hs.len() < 2 {
        Option::None
    } else if hs[0] == seq![116u8, 101u8, 109u8, 112u8, 111u8] {
        match parse_fx_spec(hs[1]) {
            Option::Some(v) => Option::Some(MetaData { tempo: Fx { raw: v as i64 }, ..m }),
            Option::None => Option::None,
        }
    } else if hs[0] == seq![108u8, 101u8, 110u8, 103u8, 116u8, 104u8] {
        match parse_fx_spec(hs[1]) {
            Option::Some(v) => Option::Some(MetaData { length: Fx { raw: v as i64 }, ..m }),
            Option::None => Option::None,
        }
    } else {
        Option::Some(m)
    }
}

/// `META` options applied left to right, stopping at the first rejection.
pub open spec fn meta_fold(m: MetaData, ps: Seq<Seq<u8>>, k: nat) -> Option<MetaData>
    decreases k,
{
    if k == 0 {
        Option::Some(m)
    } else {
        match meta_fold(m, ps, (k - 1) as nat) {
            Option::Some(mm) => meta_step(mm, ps[k - 1]),
            Option::None => Option::None,
        }
    }
}

/// One `REPEAT` option applied to the repetition parameters. Counts above
/// the signed 64-bit range are rejected.
pub open spec fn repeat_step(p: RepeatPM, piece: Seq<u8>) -> Option<RepeatPM> {
    let hs = kv_halves(piece);
    if hs.len() < 2 {
        Option::None
    } else if hs[0] == seq![116u8, 105u8, 109u8, 101u8] {
        match parse_fx_spec(hs[1]) {
            Option::Some(v) => Option::Some(RepeatPM { time: Fx { raw: v as i64 }, ..p }),
            Option::None => Option::None,
        }
    } else if hs[0] == seq![110u8] || hs[0] == seq![110u8, 117u8, 109u8] || hs[0] == seq![
        110u8,
        117u8,
        109u8,
        98u8,
        101u8,
        114u8,
    ] || hs[0] == seq![116u8, 105u8, 109u8, 101u8, 115u8] {
        match parse_u64_spec(hs[1]) {
            Option::Some(v) => if v <= i64::MAX {
                Option::Some(RepeatPM { number: v as u64, ..p })
            } else {
                Option::None
            },
            Option::None => Option::None,
        }
    } else {
        Option::Some(p)
    }
}

/// `REPEAT` options applied left to right.
pub open spec fn repeat_fold(p: RepeatPM, ps: Seq<Seq<u8>>, k: nat) -> Option<RepeatPM>
    decreases k,
{
    if k == 0 {
        Option::Some(p)
    } else {
        match repeat_fold(p, ps, (k - 1) as nat) {
            Option::Some(pp) => repeat_step(pp, ps[k - 1]),
            Option::None => Option::None,
        }
    }
}

/// One note option applied to a note. For a `NOTE` command `base` holds
/// the template's start time, which a `time` option is added to; for
/// `DEFAULT` it is absent and `time` is set directly. `None` rejects the
/// command.
pub open spec fn note_step(n: NoteV, base: Option<int>, piece: Seq<u8>) -> Option<NoteV> {
    let hs = kv_halves(piece);
    if hs.len() < 2 {
        Option::None
    } else {
        let key = hs[0];
        let val = hs[1];
        if key == seq![119u8, 97u8, 118u8, 101u8] {
            match waveform_spec(val) {
                Option::Some(w) => Option::Some(NoteV { wave_form: w, ..n }),
                Option::None => Option::None,
            }
        } else if key == seq![118u8, 111u8, 108u8, 117u8, 109u8, 101u8] {
            match parse_fx_spec(val) {
                Option::Some(v) => Option::Some(NoteV { volume: v, ..n }),
                Option::None => Option::None,
            }
        } else if key == seq![102u8, 114u8, 101u8, 113u8, 117u8, 101u8, 110u8, 99u8, 121u8] {
            match parse_fx_spec(val) {
                Option::Some(v) => Option::Some(NoteV { frequency: v, ..n }),
                Option::None => Option::None,
            }
        } else if key == seq![112u8, 105u8, 116u8, 99u8, 104u8] {
            match pitch_freq_spec(val) {
                Option::Some(v) => Option::Some(NoteV { frequency: v, ..n }),
                Option::None => Option::None,
            }
        } else if key == seq![100u8, 117u8, 114u8, 97u8, 116u8, 105u8, 111u8, 110u8] {
            match parse_fx_spec(val) {
                Option::Some(v) => Option::Some(NoteV { duration: v, ..n }),
                Option::None => Option::None,
            }
        } else if key == seq![116u8, 105u8, 109u8, 101u8] {
            match parse_fx_spec(val) {
                Option::Some(v) => Option::Some(
                    NoteV {
                        time: match base {
                            Option::Some(b) => fx_add(v, b),
                            Option::None => v,
                        },
                        ..n
                    },
                ),
                Option::None => Option::None,
            }
        } else if key == seq![97u8] || key == seq![97u8, 116u8, 116u8, 97u8, 99u8, 107u8] {
            match parse_fx_spec(val) {
                Option::Some(v) => Option::Some(NoteV { attack: v, ..n }),
                Option::None => Option::None,
            }
        } else if key == seq![100u8] || key == seq![100u8, 101u8, 99u8, 97u8, 121u8] {
            match parse_fx_spec(val) {
                Option::Some(v) => Option::Some(NoteV { decay: v, ..n }),
                Option::None => Option::None,
            }
        } else if key == seq![115u8] || key == seq![
            115u8,
            117u8,
            115u8,
            116u8,
            97u8,
            105u8,
            110u8,
        ] {
            match parse_fx_spec(val) {
                Option::Some(v) => Option::Some(NoteV { sustain: v, ..n }),
                Option::None => Option::None,
            }
        } else if key == seq![114u8] || key == seq![
            114u8,
            101u8,
            108u8,
            101u8,
            97u8,
            115u8,
            101u8,
        ] {
            match parse_fx_spec(val) {
                Option::Some(v) => Option::Some(NoteV { release: v, ..n }),
                Option::None => Option::None,
            }
        } else if key == seq![108u8, 102u8, 111u8, 95u8, 112u8, 105u8, 116u8, 99u8, 104u8] || key
            == seq![
            108u8,
            102u8,
            111u8,
            95u8,
            102u8,
            114u8,
            101u8,
            113u8,
            117u8,
            101u8,
            110u8,
            99u8,
            121u8,
        ] {
            match parse_or_disable_spec(val) {
                Option::Some(o) => Option::Some(NoteV { lfo_pitch: o, ..n }),
                Option::None => Option::None,
            }
        } else if key == seq![
            108u8,
            102u8,
            111u8,
            95u8,
            118u8,
            111u8,
            108u8,
            117u8,
            109u8,
            101u8,
        ] {
            match parse_or_disable_spec(val) {
                Option::Some(o) => Option::Some(NoteV { lfo_volume: o, ..n }),
                Option::None => Option::None,
            }
        } else if key == seq![103u8, 108u8, 105u8, 100u8, 101u8, 95u8, 116u8, 111u8] {
            match parse_or_disable_spec(val) {
                Option::Some(o) => Option::Some(NoteV { glide_to: o, ..n }),
                Option::None => Option::None,
            }
        } else {
            Option::Some(n)
        }
    }
}

/// Note options applied left to right.
pub open spec fn note_fold(n: NoteV, base: Option<int>, ps: Seq<Seq<u8>>, k: nat) -> Option<NoteV>
    decreases k,
{
    if k == 0 {
        Option::Some(n)
    } else {
        match note_fold(n, base, ps, (k - 1) as nat) {
            Option::Some(nn) => note_step(nn, base, ps[k - 1]),
            Option::None => Option::None,
        }
    }
}

/// A note option never invalidates the waveform the engine will evaluate.
pub proof fn lemma_note_step_valid(n: NoteV, base: Option<int>, piece: Seq<u8>)
    requires
        wf_valid(n.wave_form),
        (note_step(n, base, piece) matches Option::Some(_)),
    ensures
        wf_valid(note_step(n, base, piece)->Some_0.wave_form),
{
}

/// Applying any run of note options keeps the waveform valid.
pub proof fn lemma_note_fold_valid(n: NoteV, base: Option<int>, ps: Seq<Seq<u8>>, k: nat)
    requires
        wf_valid(n.wave_form),
        (note_fold(n, base, ps, k) matches Option::Some(_)),
    ensures
        wf_valid(note_fold(n, base, ps, k)->Some_0.wave_form),
    decreases k,
{
    if k > 0 {
        match note_fold(n, base, ps, (k - 1) as nat) {
            Option::Some(nn) => {
                lemma_note_fold_valid(n, base, ps, (k - 1) as nat);
                lemma_note_step_valid(nn, base, ps[k - 1]);
            },
            Option::None => {},
        }
    }
}

/// A rejection at one option rejects the rest of the `META` fold.
proof fn lemma_meta_fold_none(m: MetaData, ps: Seq<Seq<u8>>, j: nat, k: nat)
    requires
        j <= k,
        (meta_fold(m, ps, j) is None),
    ensures
        (meta_fold(m, ps, k) is None),
    decreases k,
{
    if k > j {
        lemma_meta_fold_none(m, ps, j, (k - 1) as nat);
    }
}

/// A successful `REPEAT` fold never carries a count above the signed
/// range.
proof fn lemma_repeat_fold_bound(p: RepeatPM, ps: Seq<Seq<u8>>, k: nat)
    requires
        p.number <= i64::MAX,
        (repeat_fold(p, ps, k) matches Option::Some(_)),
    ensures
        repeat_fold(p, ps, k)->Some_0.number <= i64::MAX,
    decreases k,
{
    if k > 0 {
        match repeat_fold(p, ps, (k - 1) as nat) {
            Option::Some(_) => {
                lemma_repeat_fold_bound(p, ps, (k - 1) as nat);
                let hs = kv_halves(ps[k - 1]);
                if hs.len() >= 2 {
                    match parse_u64_spec(hs[1]) {
                        Option::Some(_) => {
                            crate::parse::lemma_digits_val_nonneg(hs[1], hs[1].len());
                        },
                        Option::None => {},
                    }
                }
            },
            Option::None => {},
        }
    }
}

/// A rejection at one option rejects the rest of the `REPEAT` fold.
proof fn lemma_repeat_fold_none(p: RepeatPM, ps: Seq<Seq<u8>>, j: nat, k: nat)
    requires
        j <= k,
        (repeat_fold(p, ps, j) is None),
    ensures
        (repeat_fold(p, ps, k) is None),
    decreases k,
{
    if k > j {
        lemma_repeat_fold_none(p, ps, j, (k - 1) as nat);
    }
}

/// A rejection at one option rejects the rest of the note fold.
proof fn lemma_note_fold_none(n: NoteV, base: Option<int>, ps: Seq<Seq<u8>>, j: nat, k: nat)
    requires
        j <= k,
        (note_fold(n, base, ps, j) is None),
    ensures
        (note_fold(n, base, ps, k) is None),
    decreases k,
{
    if k > j {
        lemma_note_fold_none(n, base, ps, j, (k - 1) as nat);
    }
}

/// Apply one `META` option: the exact relation of [`meta_step`].
fn apply_meta(m: MetaData, piece: &[u8]) -> (r: Result<MetaData, ParseError>)
    ensures
        (r matches Result::Ok(m2) ==> meta_step(m, piece@) == Option::Some(m2)),
        (r matches Result::Err(_) ==> (meta_step(m, piece@) is None)),
{
    proof {
        crate::parse::lemma_split_single_len(piece@, |c: u8| c == 61);
    }
    let halves = crate::parse::split_equals(piece);
    if halves.len() < 2 {
        return Result::Err(ParseError::MissingValue);
    }
    let key = halves[0].as_slice();
    let val = halves[1].as_slice();
    proof {
        assert(key@ == kv_halves(piece@)[0]);
        assert(val@ == kv_halves(piece@)[1]);
    }
    let kw_tempo: &[u8] = &[116u8, 101u8, 109u8, 112u8, 111u8];
    let kw_length: &[u8] = &[108u8, 101u8, 110u8, 103u8, 116u8, 104u8];
    proof {
        assert(kw_tempo@ =~= seq![116u8, 101u8, 109u8, 112u8, 111u8]);
        assert(kw_length@ =~= seq![108u8, 101u8, 110u8, 103u8, 116u8, 104u8]);
    }
    if crate::parse::bytes_eq(key, kw_tempo) {
        match crate::parse::parse_fx_bytes(val) {
            Option::Some(f) => Result::Ok(MetaData { tempo: f, ..m }),
            Option::None => Result::Err(ParseError::BadNumber),
        }
    } else if crate::parse::bytes_eq(key, kw_length) {
        match crate::parse::parse_fx_bytes(val) {
            Option::Some(f) => Result::Ok(MetaData { length: f, ..m }),
            Option::None => Result::Err(ParseError::BadNumber),
        }
    } else {
        Result::Ok(m)
    }
}

/// Apply one `REPEAT` option: the exact relation of [`repeat_step`].
fn apply_repeat(p: RepeatPM, piece: &[u8]) -> (r: Result<RepeatPM, ParseError>)
    ensures
        (r matches Result::Ok(p2) ==> repeat_step(p, piece@) == Option::Some(p2)),
        (r matches Result::Err(_) ==> (repeat_step(p, piece@) is None)),
{
    proof {
        crate::parse::lemma_split_single_len(piece@, |c: u8| c == 61);
    }
    let halves = crate::parse::split_equals(piece);
    if halves.len() < 2 {
        return Result::Err(ParseError::MissingValue);
    }
    let key = halves[0].as_slice();
    let val = halves[1].as_slice();
    proof {
        assert(key@ == kv_halves(piece@)[0]);
        assert(val@ == kv_halves(piece@)[1]);
    }
    let kw_time: &[u8] = &[116u8, 105u8, 109u8, 101u8];
    let kw_n: &[u8] = &[110u8];
    let kw_num: &[u8] = &[110u8, 117u8, 109u8];
    let kw_number: &[u8] = &[110u8, 117u8, 109u8, 98u8, 101u8, 114u8];
    let kw_times: &[u8] = &[116u8, 105u8, 109u8, 101u8, 115u8];
    proof {
        assert(kw_time@ =~= seq![116u8, 105u8, 109u8, 101u8]);
        assert(kw_n@ =~= seq![110u8]);
        assert(kw_num@ =~= seq![110u8, 117u8, 109u8]);
        assert(kw_number@ =~= seq![110u8, 117u8, 109u8, 98u8, 101u8, 114u8]);
        assert(kw_times@ =~= seq![116u8, 105u8, 109u8, 101u8, 115u8]);
    }
    if crate::parse::bytes_eq(key, kw_time) {
        match crate::parse::parse_fx_bytes(val) {
            Option::Some(f) => Result::Ok(RepeatPM { time: f, ..p }),
            Option::None => Result::Err(ParseError::BadNumber),
        }
    } else if crate::parse::bytes_eq(key, kw_n) || crate::parse::bytes_eq(key, kw_num)
        || crate::parse::bytes_eq(key, kw_number) || crate::parse::bytes_eq(key, kw_times) {
        match crate::parse::parse_u64_bytes(val) {
            Option::Some(v) => {
                if v <= i64::MAX as u64 {
                    Result::Ok(RepeatPM { number: v, ..p })
                } else {
                    Result::Err(ParseError::BadNumber)
                }
            },
            Option::None => Result::Err(ParseError::BadNumber),
        }
    } else {
        Result::Ok(p)
    }
}

/// Apply one note option: the exact relation of [`note_step`].
fn apply_note(n: Note, base: Option<Fx>, piece: &[u8]) -> (r: Result<Note, ParseError>)
    ensures
        (r matches Result::Ok(n2) ==> note_step(n@, opt_raw(base), piece@) == Option::Some(n2@)),
        (r matches Result::Err(_) ==> (note_step(n@, opt_raw(base), piece@) is None)),
{
    let ghost n0: NoteV = n@;
    proof {
        crate::parse::lemma_split_single_len(piece@, |c: u8| c == 61);
    }
    let halves = crate::parse::split_equals(piece);
    if halves.len() < 2 {
        return Result::Err(ParseError::MissingValue);
    }
    let key = halves[0].as_slice();
    let val = halves[1].as_slice();
    proof {
        assert(key@ == kv_halves(piece@)[0]);
        assert(val@ == kv_halves(piece@)[1]);
    }
    let kw_wave: &[u8] = &[119u8, 97u8, 118u8, 101u8];
    let kw_volume: &[u8] = &[118u8, 111u8, 108u8, 117u8, 109u8, 101u8];
    let kw_frequency: &[u8] = &[102u8, 114u8, 101u8, 113u8, 117u8, 101u8, 110u8, 99u8, 121u8];
    let kw_pitch: &[u8] = &[112u8, 105u8, 116u8, 99u8, 104u8];
    let kw_duration: &[u8] = &[100u8, 117u8, 114u8, 97u8, 116u8, 105u8, 111u8, 110u8];
    let kw_time: &[u8] = &[116u8, 105u8, 109u8, 101u8];
    let kw_a: &[u8] = &[97u8];
    let kw_attack: &[u8] = &[97u8, 116u8, 116u8, 97u8, 99u8, 107u8];
    let kw_d: &[u8] = &[100u8];
    let kw_decay: &[u8] = &[100u8, 101u8, 99u8, 97u8, 121u8];
    let kw_s: &[u8] = &[115u8];
    let kw_sustain: &[u8] = &[115u8, 117u8, 115u8, 116u8, 97u8, 105u8, 110u8];
    let kw_r: &[u8] = &[114u8];
    let kw_release: &[u8] = &[114u8, 101u8, 108u8, 101u8, 97u8, 115u8, 101u8];
    let kw_lfo_pitch: &[u8] = &[108u8, 102u8, 111u8, 95u8, 112u8, 105u8, 116u8, 99u8, 104u8];
    let kw_lfo_frequency: &[u8] = &[
        108u8,
        102u8,
        111u8,
        95u8,
        102u8,
        114u8,
        101u8,
        113u8,
        117u8,
        101u8,
        110u8,
        99u8,
        121u8,
    ];
    let kw_lfo_volume: &[u8] = &[108u8, 102u8, 111u8, 95u8, 118u8, 111u8, 108u8, 117u8, 109u8,
        101u8];
    let kw_glide_to: &[u8] = &[103u8, 108u8, 105u8, 100u8, 101u8, 95u8, 116u8, 111u8];
    proof {
        assert(kw_wave@ =~= seq![119u8, 97u8, 118u8, 101u8]);
        assert(kw_volume@ =~= seq![118u8, 111u8, 108u8, 117u8, 109u8, 101u8]);
        assert(kw_frequency@ =~= seq![102u8, 114u8, 101u8, 113u8, 117u8, 101u8, 110u8, 99u8, 121u8]);
        assert(kw_pitch@ =~= seq![112u8, 105u8, 116u8, 99u8, 104u8]);
        assert(kw_duration@ =~= seq![100u8, 117u8, 114u8, 97u8, 116u8, 105u8, 111u8, 110u8]);
        assert(kw_time@ =~= seq![116u8, 105u8, 109u8, 101u8]);
        assert(kw_a@ =~= seq![97u8]);
        assert(kw_attack@ =~= seq![97u8, 116u8, 116u8, 97u8, 99u8, 107u8]);
        assert(kw_d@ =~= seq![100u8]);
        assert(kw_decay@ =~= seq![100u8, 101u8, 99u8, 97u8, 121u8]);
        assert(kw_s@ =~= seq![115u8]);
        assert(kw_sustain@ =~= seq![115u8, 117u8, 115u8, 116u8, 97u8, 105u8, 110u8]);
        assert(kw_r@ =~= seq![114u8]);
        assert(kw_release@ =~= seq![114u8, 101u8, 108u8, 101u8, 97u8, 115u8, 101u8]);
        assert(kw_lfo_pitch@ =~= seq![108u8, 102u8, 111u8, 95u8, 112u8, 105u8, 116u8, 99u8, 104u8]);
        assert(kw_lfo_frequency@ =~= seq![
            108u8,
            102u8,
            111u8,
            95u8,
            102u8,
            114u8,
            101u8,
            113u8,
            117u8,
            101u8,
            110u8,
            99u8,
            121u8,
        ]);
        assert(kw_lfo_volume@ =~= seq![
            108u8,
            102u8,
            111u8,
            95u8,
            118u8,
            111u8,
            108u8,
            117u8,
            109u8,
            101u8,
        ]);
        assert(kw_glide_to@ =~= seq![103u8, 108u8, 105u8, 100u8, 101u8, 95u8, 116u8, 111u8]);
    }
    let mut n = n;
    if crate::parse::bytes_eq(key, kw_wave) {
        match crate::parse::waveform_parse(val) {
            Result::Ok(w) => {
                n.wave_form = w;
                proof {
                    assert(n@ =~= (NoteV { wave_form: w@, ..n0 }));
                }
                Result::Ok(n)
            },
            Result::Err(e) => Result::Err(e),
        }
    } else if crate::parse::bytes_eq(key, kw_volume) {
        match crate::parse::parse_fx_bytes(val) {
            Option::Some(f) => {
                n.volume = f;
                proof {
                    assert(n@ =~= (NoteV { volume: f.raw as int, ..n0 }));
                }
                Result::Ok(n)
            },
            Option::None => Result::Err(ParseError::BadNumber),
        }
    } else if crate::parse::bytes_eq(key, kw_frequency) {
        match crate::parse::parse_fx_bytes(val) {
            Option::Some(f) => {
                n.frequency = f;
                proof {
                    assert(n@ =~= (NoteV { frequency: f.raw as int, ..n0 }));
                }
                Result::Ok(n)
            },
            Option::None => Result::Err(ParseError::BadNumber),
        }
    } else if crate::parse::bytes_eq(key, kw_pitch) {
        match crate::parse::pitch_to_frequency(val) {
            Result::Ok(f) => {
                n.frequency = f;
                proof {
                    assert(n@ =~= (NoteV { frequency: f.raw as int, ..n0 }));
                }
                Result::Ok(n)
            },
            Result::Err(e) => Result::Err(e),
        }
    } else if crate::parse::bytes_eq(key, kw_duration) {
        match crate::parse::parse_fx_bytes(val) {
            Option::Some(f) => {
                n.duration = f;
                proof {
                    assert(n@ =~= (NoteV { duration: f.raw as int, ..n0 }));
                }
                Result::Ok(n)
            },
            Option::None => Result::Err(ParseError::BadNumber),
        }
    } else if crate::parse::bytes_eq(key, kw_time) {
        match crate::parse::parse_fx_bytes(val) {
            Option::Some(f) => {
                let t = match base {
                    Option::Some(b) => f.add(b),
                    Option::None => f,
                };
                n.time = t;
                proof {
                    assert(n@ =~= (NoteV { time: t.raw as int, ..n0 }));
                }
                Result::Ok(n)
            },
            Option::None => Result::Err(ParseError::BadNumber),
        }
    } else if crate::parse::bytes_eq(key, kw_a) || crate::parse::bytes_eq(key, kw_attack) {
        match crate::parse::parse_fx_bytes(val) {
            Option::Some(f) => {
                n.attack = f;
                proof {
                    assert(n@ =~= (NoteV { attack: f.raw as int, ..n0 }));
                }
                Result::Ok(n)
            },
            Option::None => Result::Err(ParseError::BadNumber),
        }
    } else if crate::parse::bytes_eq(key, kw_d) || crate::parse::bytes_eq(key, kw_decay) {
        match crate::parse::parse_fx_bytes(val) {
            Option::Some(f) => {
                n.decay = f;
                proof {
                    assert(n@ =~= (NoteV { decay: f.raw as int, ..n0 }));
                }
                Result::Ok(n)
            },
            Option::None => Result::Err(ParseError::BadNumber),
        }
    } else if crate::parse::bytes_eq(key, kw_s) || crate::parse::bytes_eq(key, kw_sustain) {
        match crate::parse::parse_fx_bytes(val) {
            Option::Some(f) => {
                n.sustain = f;
                proof {
                    assert(n@ =~= (NoteV { sustain: f.raw as int, ..n0 }));
                }
                Result::Ok(n)
            },
            Option::None => Result::Err(ParseError::BadNumber),
        }
    } else if crate::parse::bytes_eq(key, kw_r) || crate::parse::bytes_eq(key, kw_release) {
        match crate::parse::parse_fx_bytes(val) {
            Option::Some(f) => {
                n.release = f;
                proof {
                    assert(n@ =~= (NoteV { release: f.raw as int, ..n0 }));
                }
                Result::Ok(n)
            },
            Option::None => Result::Err(ParseError::BadNumber),
        }
    } else if crate::parse::bytes_eq(key, kw_lfo_pitch) || crate::parse::bytes_eq(
        key,
        kw_lfo_frequency,
    ) {
        match crate::parse::parse_fx_or_disable(val) {
            Result::Ok(o) => {
                n.lfo_pitch = o;
                proof {
                    assert(n@ =~= (NoteV { lfo_pitch: opt_raw(o), ..n0 }));
                }
                Result::Ok(n)
            },
            Result::Err(e) => Result::Err(e),
        }
    } else if crate::parse::bytes_eq(key, kw_lfo_volume) {
        match crate::parse::parse_fx_or_disable(val) {
            Result::Ok(o) => {
                n.lfo_volume = o;
                proof {
                    assert(n@ =~= (NoteV { lfo_volume: opt_raw(o), ..n0 }));
                }
                Result::Ok(n)
            },
            Result::Err(e) => Result::Err(e),
        }
    } else if crate::parse::bytes_eq(key, kw_glide_to) {
        match crate::parse::parse_fx_or_disable(val) {
            Result::Ok(o) => {
                n.glide_to = o;
                proof {
                    assert(n@ =~= (NoteV { glide_to: opt_raw(o), ..n0 }));
                }
                Result::Ok(n)
            },
            Result::Err(e) => Result::Err(e),
        }
    } else {
        Result::Ok(n)
    }
}

/// The notes a `NOTE` command emits under a repetition mode: `number`
/// copies, the `i`-th delayed by `i` times the beat spacing, all other
/// fields identical.
pub open spec fn repeat_seq(n: NoteV, time: int, number: nat) -> Seq<NoteV> {
    Seq::new(number, |i: int| (NoteV { time: fx_add(n.time, fx_scale(time, i)), ..n }))
}

/// The mathematical image of the parser state.
#[verifier::ext_equal]
pub struct StateV {
    pub default_note: NoteV,
    pub meta: MetaData,
    pub notes: Seq<NoteV>,
    pub mode: ParseMode,
}

/// The parser context threaded through every command: the current
/// template note, the metadata, the notes emitted so far, and the
/// repetition mode.
pub struct ParserState {
    pub default_note: Note,
    pub meta: MetaData,
    pub notes: Vec<Note>,
    pub mode: ParseMode,
}

impl View for ParserState {
    type V = StateV;

    open spec fn view(&self) -> StateV {
        StateV {
            default_note: self.default_note@,
            meta: self.meta,
            notes: seq_views(self.notes@),
            mode: self.mode,
        }
    }
}

/// What the parser guarantees of its state: the template's waveform and
/// every emitted note's waveform meet the engine's assumptions.
pub open spec fn state_valid(st: StateV) -> bool {
    wf_valid(st.default_note.wave_form) && notes_valid(st.notes) && (match st.mode {
        ParseMode::Repeat(p) => p.number <= i64::MAX,
        ParseMode::Standard => true,
    })
}

/// The state after one line, and whether the line was accepted. The first
/// piece names the command; a rejected command leaves the state unchanged.
/// Unknown commands and blank lines change nothing and are accepted.
pub open spec fn line_step(st: StateV, line: Seq<u8>) -> (StateV, bool) {
    let sp = split_runs(line, |c: u8| is_blank(c));
    let cmd = sp[0];
    let rest = sp.subrange(1, sp.len() as int);
    if cmd == seq![77u8, 69u8, 84u8, 65u8] {
        match meta_fold(st.meta, rest, rest.len()) {
            Option::Some(m) => (StateV { meta: m, ..st }, true),
            Option::None => (st, false),
        }
    } else if cmd == seq![68u8, 69u8, 70u8, 65u8, 85u8, 76u8, 84u8] {
        match note_fold(st.default_note, Option::None, rest, rest.len()) {
            Option::Some(n) => (StateV { default_note: n, ..st }, true),
            Option::None => (st, false),
        }
    } else if cmd == seq![78u8, 79u8, 84u8, 69u8] {
        match note_fold(st.default_note, Option::Some(st.default_note.time), rest, rest.len()) {
            Option::Some(n) => (
                StateV {
                    notes: match st.mode {
                        ParseMode::Standard => st.notes.push(n),
                        ParseMode::Repeat(p) => st.notes + repeat_seq(
                            n,
                            p.time.raw as int,
                            p.number as nat,
                        ),
                    },
                    ..st
                },
                true,
            ),
            Option::None => (st, false),
        }
    } else if cmd == seq![82u8, 69u8, 80u8, 69u8, 65u8, 84u8] {
        match repeat_fold(RepeatPM { time: Fx { raw: FX_ONE }, number: 1 }, rest, rest.len()) {
            Option::Some(p) => (StateV { mode: ParseMode::Repeat(p), ..st }, true),
            Option::None => (st, false),
        }
    } else if cmd == seq![69u8, 78u8, 68u8, 95u8, 82u8, 69u8, 80u8, 69u8, 65u8, 84u8] {
        (StateV { mode: ParseMode::Standard, ..st }, true)
    } else {
        (st, true)
    }
}

impl ParserState {
    /// The state a score starts from: the default template, the default
    /// metadata, no notes, no repetition.
    pub fn new() -> (r: ParserState)
        ensures
            r@.default_note == crate::note::default_note(),
            r@.meta.tempo.raw == 6553600,
            r@.meta.length.raw == 1048576,
            r@.notes == Seq::<NoteV>::empty(),
            r@.mode == ParseMode::Standard,
            state_valid(r@),
    {
        let r = ParserState {
            default_note: Note::new(),
            meta: MetaData::new(),
            notes: Vec::new(),
            mode: ParseMode::Standard,
        };
        proof {
            assert(seq_views(r.notes@) =~= Seq::<NoteV>::empty());
        }
        r
    }

    /// Apply one score line to the state: the exact transition of
    /// [`line_step`]. A rejected command returns its error and leaves the
    /// state untouched; every state the parser produces stays valid for
    /// the renderer.
    pub fn parse_line(&mut self, line: &[u8]) -> (r: Result<(), ParseError>)
        requires
            state_valid(old(self)@),
        ensures
            final(self)@ == line_step(old(self)@, line@).0,
            ((r is Ok) == line_step(old(self)@, line@).1),
            state_valid(final(self)@),
    {
        let ghost st0: StateV = self@;
        let ghost sp: Seq<Seq<u8>> = split_runs(line@, |c: u8| is_blank(c));
        proof {
            crate::parse::lemma_split_runs_len(line@, |c: u8| is_blank(c));
        }
        let ghost rest: Seq<Seq<u8>> = sp.subrange(1, sp.len() as int);
        let pieces = crate::parse::split_blank_runs(line);
        let cmd = pieces[0].as_slice();
        proof {
            assert(cmd@ == sp[0]);
        }
        let kw_meta: &[u8] = &[77u8, 69u8, 84u8, 65u8];
        let kw_default: &[u8] = &[68u8, 69u8, 70u8, 65u8, 85u8, 76u8, 84u8];
        let kw_note: &[u8] = &[78u8, 79u8, 84u8, 69u8];
        let kw_repeat: &[u8] = &[82u8, 69u8, 80u8, 69u8, 65u8, 84u8];
        let kw_end_repeat: &[u8] = &[69u8, 78u8, 68u8, 95u8, 82u8, 69u8, 80u8, 69u8, 65u8, 84u8];
        proof {
            assert(kw_meta@ =~= seq![77u8, 69u8, 84u8, 65u8]);
            assert(kw_default@ =~= seq![68u8, 69u8, 70u8, 65u8, 85u8, 76u8, 84u8]);
            assert(kw_note@ =~= seq![78u8, 79u8, 84u8, 69u8]);
            assert(kw_repeat@ =~= seq![82u8, 69u8, 80u8, 69u8, 65u8, 84u8]);
            assert(kw_end_repeat@ =~= seq![
                69u8,
                78u8,
                68u8,
                95u8,
                82u8,
                69u8,
                80u8,
                69u8,
                65u8,
                84u8,
            ]);
        }
        if crate::parse::bytes_eq(cmd, kw_meta) {
            let mut m = self.meta;
            let mut i: usize = 1;
            while i < pieces.len()
                invariant
                    1 <= i <= pieces@.len(),
                    self@ == st0,
                    st0 == old(self)@,
                    state_valid(st0),
                    sp == split_runs(line@, |c: u8| is_blank(c)),
                    sp[0] == seq![77u8, 69u8, 84u8, 65u8],
                    piece_views(pieces@) == sp,
                    rest == sp.subrange(1, sp.len() as int),
                    meta_fold(st0.meta, rest, (i - 1) as nat) == Option::Some(m),
                decreases pieces.len() - i,
            {
                proof {
                    assert(rest[i - 1] == sp[i as int]);
                    assert(pieces@[i as int]@ == sp[i as int]);
                }
                match apply_meta(m, pieces[i].as_slice()) {
                    Result::Ok(m2) => {
                        m = m2;
                    },
                    Result::Err(e) => {
                        proof {
                            lemma_meta_fold_none(st0.meta, rest, i as nat, rest.len());
                        }
                        return Result::Err(e);
                    },
                }
                i = i + 1;
            }
            self.meta = m;
            proof {
                assert(self@ =~= (StateV { meta: m, ..st0 }));
            }
            Result::Ok(())
        } else if crate::parse::bytes_eq(cmd, kw_default) {
            let mut n = self.default_note.duplicate();
            let mut i: usize = 1;
            while i < pieces.len()
                invariant
                    1 <= i <= pieces@.len(),
                    self@ == st0,
                    st0 == old(self)@,
                    state_valid(st0),
                    sp == split_runs(line@, |c: u8| is_blank(c)),
                    sp[0] == seq![68u8, 69u8, 70u8, 65u8, 85u8, 76u8, 84u8],
                    piece_views(pieces@) == sp,
                    rest == sp.subrange(1, sp.len() as int),
                    note_fold(st0.default_note, Option::None, rest, (i - 1) as nat)
                        == Option::Some(n@),
                decreases pieces.len() - i,
            {
                proof {
                    assert(rest[i - 1] == sp[i as int]);
                    assert(pieces@[i as int]@ == sp[i as int]);
                }
                match apply_note(n, Option::None, pieces[i].as_slice()) {
                    Result::Ok(n2) => {
                        n = n2;
                    },
                    Result::Err(e) => {
                        proof {
                            lemma_note_fold_none(
                                st0.default_note,
                                Option::None,
                                rest,
                                i as nat,
                                rest.len(),
                            );
                        }
                        return Result::Err(e);
                    },
                }
                i = i + 1;
            }
            proof {
                lemma_note_fold_valid(st0.default_note, Option::None, rest, rest.len());
            }
            self.default_note = n;
            proof {
                assert(self@ =~= (StateV { default_note: n@, ..st0 }));
            }
            Result::Ok(())
        } else if crate::parse::bytes_eq(cmd, kw_note) {
            let base = self.default_note.time;
            let mut n = self.default_note.duplicate();
            let mut i: usize = 1;
            while i < pieces.len()
                invariant
                    1 <= i <= pieces@.len(),
                    self@ == st0,
                    st0 == old(self)@,
                    state_valid(st0),
                    sp == split_runs(line@, |c: u8| is_blank(c)),
                    sp[0] == seq![78u8, 79u8, 84u8, 69u8],
                    piece_views(pieces@) == sp,
                    rest == sp.subrange(1, sp.len() as int),
                    base.raw as int == st0.default_note.time,
                    note_fold(st0.default_note, Option::Some(st0.default_note.time), rest, (i
                        - 1) as nat) == Option::Some(n@),
                decreases pieces.len() - i,
            {
                proof {
                    assert(rest[i - 1] == sp[i as int]);
                    assert(pieces@[i as int]@ == sp[i as int]);
                    assert(opt_raw(Option::Some(base)) == Option::Some(st0.default_note.time));
                }
                match apply_note(n, Option::Some(base), pieces[i].as_slice()) {
                    Result::Ok(n2) => {
                        n = n2;
                    },
                    Result::Err(e) => {
                        proof {
                            lemma_note_fold_none(
                                st0.default_note,
                                Option::Some(st0.default_note.time),
                                rest,
                                i as nat,
                                rest.len(),
                            );
                        }
                        return Result::Err(e);
                    },
                }
                i = i + 1;
            }
            proof {
                lemma_note_fold_valid(
                    st0.default_note,
                    Option::Some(st0.default_note.time),
                    rest,
                    rest.len(),
                );
            }
            let mode = self.mode;
            match mode {
                ParseMode::Standard => {
                    let ghost pre: Seq<NoteV> = seq_views(self.notes@);
                    self.notes.push(n);
                    proof {
                        assert(seq_views(self.notes@) =~= pre.push(n@));
                        assert(self@ =~= (StateV { notes: st0.notes.push(n@), ..st0 }));
                        assert forall|q: int|
                            0 <= q < self@.notes.len() implies wf_valid(
                            #[trigger] self@.notes[q].wave_form,
                        ) by {
                            if q < st0.notes.len() {
                                assert(self@.notes[q] == st0.notes[q]);
                            }
                        }
                    }
                    Result::Ok(())
                },
                ParseMode::Repeat(p) => {
                    let ghost nv: NoteV = n@;
                    let mut k: u64 = 0;
                    proof {
                        assert(seq_views(self.notes@) + repeat_seq(nv, p.time.raw as int, 0)
                            =~= seq_views(self.notes@));
                    }
                    while k < p.number
                        invariant
                            0 <= k <= p.number,
                            p.number <= i64::MAX,
                            nv == n@,
                            self@.meta == st0.meta,
                            self@.default_note == st0.default_note,
                            self@.mode == st0.mode,
                            seq_views(self.notes@) == st0.notes + repeat_seq(
                                nv,
                                p.time.raw as int,
                                k as nat,
                            ),
                            notes_valid(st0.notes),
                            wf_valid(nv.wave_form),
                        decreases p.number - k,
                    {
                        let copy = n.delayed_by(p.time.scale(k as i64));
                        let ghost pre: Seq<NoteV> = seq_views(self.notes@);
                        self.notes.push(copy);
                        proof {
                            assert(seq_views(self.notes@) =~= pre.push(copy@));
                            assert(copy@ == (NoteV {
                                time: fx_add(nv.time, fx_scale(p.time.raw as int, k as int)),
                                ..nv
                            }));
                            assert(st0.notes + repeat_seq(nv, p.time.raw as int, (k + 1) as nat)
                                =~= pre.push(copy@));
                        }
                        k = k + 1;
                    }
                    proof {
                        assert(self@ =~= (StateV {
                            notes: st0.notes + repeat_seq(nv, p.time.raw as int, p.number as nat),
                            ..st0
                        }));
                        assert forall|q: int|
                            0 <= q < self@.notes.len() implies wf_valid(
                            #[trigger] self@.notes[q].wave_form,
                        ) by {
                            if q < st0.notes.len() {
                                assert(self@.notes[q] == st0.notes[q]);
                            } else {
                                assert(self@.notes[q] == repeat_seq(
                                    nv,
                                    p.time.raw as int,
                                    p.number as nat,
                                )[q - st0.notes.len()]);
                            }
                        }
                    }
                    Result::Ok(())
                },
            }
        } else if crate::parse::bytes_eq(cmd, kw_repeat) {
            let mut pm = RepeatPM::new();
            let mut i: usize = 1;
            while i < pieces.len()
                invariant
                    1 <= i <= pieces@.len(),
                    self@ == st0,
                    st0 == old(self)@,
                    state_valid(st0),
                    sp == split_runs(line@, |c: u8| is_blank(c)),
                    sp[0] == seq![82u8, 69u8, 80u8, 69u8, 65u8, 84u8],
                    piece_views(pieces@) == sp,
                    rest == sp.subrange(1, sp.len() as int),
                    repeat_fold(
                        RepeatPM { time: Fx { raw: FX_ONE }, number: 1 },
                        rest,
                        (i - 1) as nat,
                    ) == Option::Some(pm),
                decreases pieces.len() - i,
            {
                proof {
                    assert(rest[i - 1] == sp[i as int]);
                    assert(pieces@[i as int]@ == sp[i as int]);
                }
                match apply_repeat(pm, pieces[i].as_slice()) {
                    Result::Ok(p2) => {
                        pm = p2;
                    },
                    Result::Err(e) => {
                        proof {
                            lemma_repeat_fold_none(
                                RepeatPM { time: Fx { raw: FX_ONE }, number: 1 },
                                rest,
                                i as nat,
                                rest.len(),
                            );
                        }
                        return Result::Err(e);
                    },
                }
                i = i + 1;
            }
            proof {
                lemma_repeat_fold_bound(
                    RepeatPM { time: Fx { raw: FX_ONE }, number: 1 },
                    rest,
                    rest.len(),
                );
            }
            self.mode = ParseMode::Repeat(pm);
            proof {
                assert(self@ =~= (StateV { mode: ParseMode::Repeat(pm), ..st0 }));
            }
            Result::Ok(())
        } else if crate::parse::bytes_eq(cmd, kw_end_repeat) {
            self.mode = ParseMode::Standard;
            proof {
                assert(self@ =~= (StateV { mode: ParseMode::Standard, ..st0 }));
            }
            Result::Ok(())
        } else {
            Result::Ok(())
        }
    }
}

/// What the first piece of a line names.
#[derive(Clone, Copy, PartialEq, Eq, Structural, Debug)]
pub enum CommandKind {
    Meta,
    Default,
    Note,
    Repeat,
    EndRepeat,
    /// An empty first piece: a blank line, or one starting with a blank.
    Blank,
    /// A non-empty command word the parser ignores.
    Unknown,
}

/// The classification of a line's command word.
pub open spec fn command_kind(line: Seq<u8>) -> CommandKind {
    let cmd = split_runs(line, |c: u8| is_blank(c))[0];
    if cmd == seq![77u8, 69u8, 84u8, 65u8] {
        CommandKind::Meta
    } else if cmd == seq![68u8, 69u8, 70u8, 65u8, 85u8, 76u8, 84u8] {
        CommandKind::Default
    } else if cmd == seq![78u8, 79u8, 84u8, 69u8] {
        CommandKind::Note
    } else if cmd == seq![82u8, 69u8, 80u8, 69u8, 65u8, 84u8] {
        CommandKind::Repeat
    } else if cmd == seq![69u8, 78u8, 68u8, 95u8, 82u8, 69u8, 80u8, 69u8, 65u8, 84u8] {
        CommandKind::EndRepeat
    } else if cmd.len() == 0 {
        CommandKind::Blank
    } else {
        CommandKind::Unknown
    }
}

/// Classify a line's command word, so a caller can report the commands the
/// parser ignores: the exact value of [`command_kind`].
pub fn classify_line(line: &[u8]) -> (r: CommandKind)
    ensures
        r == command_kind(line@),
{
    let ghost sp: Seq<Seq<u8>> = split_runs(line@, |c: u8| is_blank(c));
    proof {
        crate::parse::lemma_split_runs_len(line@, |c: u8| is_blank(c));
    }
    let pieces = crate::parse::split_blank_runs(line);
    let cmd = pieces[0].as_slice();
    proof {
        assert(cmd@ == sp[0]);
    }
    let kw_meta: &[u8] = &[77u8, 69u8, 84u8, 65u8];
    let kw_default: &[u8] = &[68u8, 69u8, 70u8, 65u8, 85u8, 76u8, 84u8];
    let kw_note: &[u8] = &[78u8, 79u8, 84u8, 69u8];
    let kw_repeat: &[u8] = &[82u8, 69u8, 80u8, 69u8, 65u8, 84u8];
    let kw_end_repeat: &[u8] = &[69u8, 78u8, 68u8, 95u8, 82u8, 69u8, 80u8, 69u8, 65u8, 84u8];
    proof {
        assert(kw_meta@ =~= seq![77u8, 69u8, 84u8, 65u8]);
        assert(kw_default@ =~= seq![68u8, 69u8, 70u8, 65u8, 85u8, 76u8, 84u8]);
        assert(kw_note@ =~= seq![78u8, 79u8, 84u8, 69u8]);
        assert(kw_repeat@ =~= seq![82u8, 69u8, 80u8, 69u8, 65u8, 84u8]);
        assert(kw_end_repeat@ =~= seq![
            69u8,
            78u8,
            68u8,
            95u8,
            82u8,
            69u8,
            80u8,
            69u8,
            65u8,
            84u8,
        ]);
    }
    if crate::parse::bytes_eq(cmd, kw_meta) {
        CommandKind::Meta
    } else if crate::parse::bytes_eq(cmd, kw_default) {
        CommandKind::Default
    } else if crate::parse::bytes_eq(cmd, kw_note) {
        CommandKind::Note
    } else if crate::parse::bytes_eq(cmd, kw_repeat) {
        CommandKind::Repeat
    } else if crate::parse::bytes_eq(cmd, kw_end_repeat) {
        CommandKind::EndRepeat
    } else if cmd.len() == 0 {
        CommandKind::Blank
    } else {
        CommandKind::Unknown
    }
}

/// Each repetition of a `NOTE` under `REPEAT` is the same note delayed by
/// a whole multiple of the beat spacing, with every other field identical.
pub proof fn lemma_repeat_expansion(n: NoteV, time: int, number: nat)
    ensures
        repeat_seq(n, time, number).len() == number,
        forall|i: int|
            0 <= i < number ==> #[trigger] repeat_seq(n, time, number)[i] == (NoteV {
                time: fx_add(n.time, fx_scale(time, i)),
                ..n
            }),
{
}

/// Three repetitions spaced one beat apart of a note starting at the
/// origin begin at beats zero, one, and two, otherwise unchanged.
pub proof fn lemma_repeat_three_at_beats(n: NoteV)
    requires
        n.time == 0,
    ensures
        repeat_seq(n, FX_ONE as int, 3).len() == 3,
        repeat_seq(n, FX_ONE as int, 3)[0] == n,
        repeat_seq(n, FX_ONE as int, 3)[1] == (NoteV { time: FX_ONE as int, ..n }),
        repeat_seq(n, FX_ONE as int, 3)[2] == (NoteV { time: 2 * FX_ONE as int, ..n }),
{
    assert(fx_scale(FX_ONE as int, 0) == 0);
    assert(fx_scale(FX_ONE as int, 1) == FX_ONE);
    assert(fx_scale(FX_ONE as int, 2) == 2 * FX_ONE);
    assert(repeat_seq(n, FX_ONE as int, 3)[0] =~= n);
}

} // verus!
