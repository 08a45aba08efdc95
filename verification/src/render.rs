//! The renderer: from a sorted note list and metadata to raw PCM bytes.
//!
//! For each output sample index the renderer converts the index to absolute
//! seconds and beats, sums the contribution of every note active at that
//! instant, and hard-clips the accumulated amplitude into a signed 16-bit
//! little-endian sample. Notes must be sorted by start time: the scan stops
//! at the first note that has not started yet, which is sound because no
//! later note can be active either. An empty score yields a buffer of
//! exactly the requested length filled with silence.

use vstd::prelude::*;
use vstd::arithmetic::div_mod::lemma_mod_bound;
use vstd::arithmetic::div_mod::lemma_div_pos_is_pos;
use vstd::arithmetic::div_mod::lemma_div_is_ordered;
use crate::fixed::{Fx, fx_add, fx_mul, fx_div, sat64};
use crate::note::{Note, NoteV, MetaData, note_amp};
use crate::wave::wf_valid;

verus! {

/// Samples per second of rendered audio.
pub const SAMPLES_PER_SECOND: u64 = 16000;

/// The views of a note list.
pub open spec fn seq_views(s: Seq<Note>) -> Seq<NoteV> {
    s.map_values(|n: Note| n@)
}

/// Notes ordered by non-decreasing start time.
pub open spec fn sorted_by_time(s: Seq<NoteV>) -> bool {
    forall|i: int, j: int| 0 <= i < j < s.len() ==> #[trigger] s[i].time <= #[trigger] s[j].time
}

/// Every note's waveform meets the engine's assumptions.
pub open spec fn notes_valid(s: Seq<NoteV>) -> bool {
    forall|i: int| 0 <= i < s.len() ==> wf_valid(#[trigger] s[i].wave_form)
}

/// The clipped signed 16-bit level of an accumulated amplitude: the
/// amplitude is scaled from `[0, 1]` onto the full signed range with the
/// quotient rounded toward zero, then hard-clipped at the representable
/// boundaries, never wrapped.
pub open spec fn sample_level(acc: int) -> int {
    let num = acc * 65535 - 2147483648;
    let a = if num >= 0 {
        num / 65536
    } else {
        -((-num) / 65536)
    };
    if a > 32767 {
        32767
    } else if a < -32768 {
        -32768
    } else {
        a
    }
}

/// The low little-endian byte of the two's-complement 16-bit sample.
pub open spec fn pcm_lo(acc: int) -> int {
    ((sample_level(acc) + 65536) % 65536) % 256
}

/// The high little-endian byte of the two's-complement 16-bit sample.
pub open spec fn pcm_hi(acc: int) -> int {
    ((sample_level(acc) + 65536) % 65536) / 256
}

/// The absolute time of a sample index in seconds (saturating far beyond
/// any realizable buffer).
pub open spec fn sample_seconds(i: int) -> int {
    sat64((i * 65536) / 16000)
}

/// Seconds to beats under a tempo: `t` times tempo-per-minute over sixty.
pub open spec fn seconds_to_beats(t_s: int, tempo: int) -> int {
    fx_mul(t_s, fx_div(tempo, 3932160))
}

/// The release tail of a note converted to beats at a tempo.
pub open spec fn release_beats(release: int, tempo: int) -> int {
    fx_div(fx_mul(release, tempo), 3932160000)
}

/// Whether a note sounds at a beat position: from its start until its
/// nominal end plus its release tail.
pub open spec fn note_active(n: NoteV, beat: int, tempo: int) -> bool {
    beat >= n.time && beat <= fx_add(fx_add(n.time, n.duration), release_beats(n.release, tempo))
}

/// The saturating sum of the contributions of the first `k` notes active
/// at the given instant.
pub open spec fn mix_at(notes: Seq<NoteV>, k: nat, t_s: int, beat: int, tempo: int) -> int
    decreases k,
{
    if k == 0 {
        0
    } else {
        let prev = mix_at(notes, (k - 1) as nat, t_s, beat, tempo);
        if note_active(notes[k - 1], beat, tempo) {
            fx_add(prev, note_amp(notes[k - 1], t_s, tempo))
        } else {
            prev
        }
    }
}

/// The accumulated amplitude of a whole note list at one instant.
pub open spec fn mix_all(notes: Seq<NoteV>, t_s: int, beat: int, tempo: int) -> int {
    mix_at(notes, notes.len(), t_s, beat, tempo)
}

/// How many samples a score of `length` beats yields at a tempo:
/// `length * 16000 * 60 / tempo`, clamped to zero for degenerate metadata.
pub open spec fn sample_count(length: int, tempo: int) -> int {
    if tempo <= 0 {
        0
    } else {
        let c = (length * 960000) / tempo;
        if c < 0 {
            0
        } else if c > u64::MAX {
            u64::MAX as int
        } else {
            c
        }
    }
}

/// The first `count` samples of the rendered byte stream: two
/// little-endian bytes per sample index.
pub open spec fn rendered_bytes(notes: Seq<NoteV>, tempo: int, count: nat) -> Seq<u8>
    decreases count,
{
    if count == 0 {
        Seq::empty()
    } else {
        let i = count - 1;
        let t_s = sample_seconds(i);
        let beat = seconds_to_beats(t_s, tempo);
        let acc = mix_all(notes, t_s, beat, tempo);
        rendered_bytes(notes, tempo, (count - 1) as nat) + seq![
            pcm_lo(acc) as u8,
            pcm_hi(acc) as u8,
        ]
    }
}

/// One accumulated amplitude turned into a clipped little-endian signed
/// 16-bit sample: exact evaluation of [`pcm_lo`] and [`pcm_hi`].
pub fn sample_data(amplitude: Fx) -> (r: (u8, u8))
    ensures
        r.0 as int == pcm_lo(amplitude.raw as int),
        r.1 as int == pcm_hi(amplitude.raw as int),
{
    proof {
        crate::fixed::lemma_mul_fits_i128(amplitude.raw as int, 65535);
        lemma_mod_bound(sample_level(amplitude.raw as int) + 65536, 65536);
        lemma_mod_bound((sample_level(amplitude.raw as int) + 65536) % 65536, 256);
        lemma_div_pos_is_pos((sample_level(amplitude.raw as int) + 65536) % 65536, 256);
        lemma_div_is_ordered((sample_level(amplitude.raw as int) + 65536) % 65536, 65535, 256);
    }
    let wide: i128 = amplitude.raw as i128 * 65535 - 2147483648;
    let a: i128 = if wide >= 0 {
        crate::fixed::ediv128(wide, 65536)
    } else {
        -crate::fixed::ediv128(-wide, 65536)
    };
    let level: i64 = if a > 32767 {
        32767
    } else if a < -32768 {
        -32768
    } else {
        a as i64
    };
    let wrapped: u64 = (level + 65536) as u64 % 65536;
    ((wrapped % 256) as u8, (wrapped / 256) as u8)
}

/// Beyond the first inactive note of a sorted list, no contribution is
/// added: the partial mix equals the full mix.
proof fn lemma_mix_inactive_suffix(
    notes: Seq<NoteV>,
    j: nat,
    k: nat,
    t_s: int,
    beat: int,
    tempo: int,
)
    requires
        sorted_by_time(notes),
        j <= k <= notes.len(),
        j < notes.len(),
        beat < notes[j as int].time,
    ensures
        mix_at(notes, k, t_s, beat, tempo) == mix_at(notes, j, t_s, beat, tempo),
    decreases k,
{
    if k > j {
        assert(notes[j as int].time <= notes[k - 1].time);
        lemma_mix_inactive_suffix(notes, j, (k - 1) as nat, t_s, beat, tempo);
    }
}

/// Render a sorted, valid note list into the little-endian 16-bit PCM
/// byte stream: exactly [`sample_count`] samples of [`rendered_bytes`].
pub fn render(notes: &Vec<Note>, meta: MetaData) -> (r: Vec<u8>)
    requires
        sorted_by_time(seq_views(notes@)),
        notes_valid(seq_views(notes@)),
    ensures
        r@ == rendered_bytes(
            seq_views(notes@),
            meta.tempo.raw as int,
            sample_count(meta.length.raw as int, meta.tempo.raw as int) as nat,
        ),
        r@.len() == 2 * sample_count(meta.length.raw as int, meta.tempo.raw as int),
{
    let ghost views: Seq<NoteV> = seq_views(notes@);
    let ghost tempo: int = meta.tempo.raw as int;
    let count: u64 = if meta.tempo.raw <= 0 {
        0
    } else {
        proof {
            crate::fixed::lemma_mul_fits_i128(meta.length.raw as int, 960000);
            crate::fixed::lemma_ediv_bounds(meta.length.raw as int * 960000, meta.tempo.raw as int);
        }
        let c: i128 = (meta.length.raw as i128 * 960000).checked_div_euclid(
            meta.tempo.raw as i128,
        ).unwrap();
        if c < 0 {
            0
        } else if c > u64::MAX as i128 {
            u64::MAX
        } else {
            c as u64
        }
    };
    let mut r: Vec<u8> = Vec::new();
    let mut i: u64 = 0;
    while i < count
        invariant
            0 <= i <= count,
            count == sample_count(meta.length.raw as int, meta.tempo.raw as int),
            views == seq_views(notes@),
            tempo == meta.tempo.raw as int,
            sorted_by_time(views),
            notes_valid(views),
            r@ == rendered_bytes(views, tempo, i as nat),
            r@.len() == 2 * i,
        decreases count - i,
    {
        proof {
            assert(0 <= i as int * 65536 <= 0x4000_0000_0000_0000_0000_0000_0000_0000)
                by (nonlinear_arith)
                requires
                    0 <= i <= u64::MAX,
            ;
            crate::fixed::lemma_ediv_bounds(i as int * 65536, 16000);
        }
        let t_s = Fx {
            raw: crate::fixed::clamp128(
                (i as i128 * 65536).checked_div_euclid(16000).unwrap(),
            ),
        };
        proof {
            assert(t_s.raw as int == sample_seconds(i as int));
        }
        let beat = t_s.mul(meta.tempo.div(Fx { raw: 3932160 }));
        let mut acc = Fx { raw: 0 };
        let mut j: usize = 0;
        while j < notes.len() && beat.raw >= notes[j].time.raw
            invariant
                0 <= j <= notes.len(),
                views == seq_views(notes@),
                tempo == meta.tempo.raw as int,
                sorted_by_time(views),
                notes_valid(views),
                beat.raw as int == seconds_to_beats(t_s.raw as int, tempo),
                acc.raw as int == mix_at(views, j as nat, t_s.raw as int, beat.raw as int, tempo),
            decreases notes.len() - j,
        {
            let n = &notes[j];
            proof {
                assert(views[j as int] == n@);
            }
            let relb = n.release.mul(meta.tempo).div(Fx { raw: 3932160000 });
            let limit = n.time.add(n.duration).add(relb);
            if beat.raw <= limit.raw {
                let amp = n.audio_at(t_s, meta);
                acc = acc.add(amp);
            }
            j = j + 1;
        }
        proof {
            if j < notes.len() {
                lemma_mix_inactive_suffix(
                    views,
                    j as nat,
                    views.len(),
                    t_s.raw as int,
                    beat.raw as int,
                    tempo,
                );
            }
            assert(acc.raw as int == mix_all(views, t_s.raw as int, beat.raw as int, tempo));
        }
        let (lo, hi) = sample_data(acc);
        r.push(lo);
        r.push(hi);
        proof {
            lemma_mod_bound(sample_level(acc.raw as int) + 65536, 65536);
            lemma_mod_bound((sample_level(acc.raw as int) + 65536) % 65536, 256);
            lemma_div_pos_is_pos((sample_level(acc.raw as int) + 65536) % 65536, 256);
            lemma_div_is_ordered((sample_level(acc.raw as int) + 65536) % 65536, 65535, 256);
            assert(r@ =~= rendered_bytes(views, tempo, (i + 1) as nat));
        }
        i = i + 1;
    }
    r
}

/// Inserting an element into a sequence adds exactly one occurrence of it
/// to the sequence's multiset.
proof fn lemma_insert_multiset(s: Seq<NoteV>, i: int, v: NoteV)
    requires
        0 <= i <= s.len(),
    ensures
        s.insert(i, v).to_multiset() =~= s.to_multiset().insert(v),
{
    broadcast use vstd::seq_lib::group_to_multiset_ensures;
    broadcast use vstd::multiset::group_multiset_axioms;

    let t = s.insert(i, v);
    s.insert_ensures(i, v);
    assert(t.remove(i) =~= s);
    assert(t[i] == v);
    assert(s.to_multiset() =~= t.to_multiset().remove(v));
    assert(t.contains(v)) by {
        assert(t[i] == v);
    }
    assert(t.to_multiset().count(v) > 0);
    assert forall|x: NoteV| t.to_multiset().count(x) == s.to_multiset().insert(v).count(x) by {
        if x == v {
            assert(s.to_multiset().count(v) == t.to_multiset().count(v) - 1);
        } else {
            assert(s.to_multiset().count(x) == t.to_multiset().count(x));
        }
    }
}

/// Order the notes of a score by non-decreasing start time. The result is
/// a permutation of the input: same notes, same multiplicities.
pub fn sort_notes(notes: &Vec<Note>) -> (r: Vec<Note>)
    ensures
        sorted_by_time(seq_views(r@)),
        seq_views(r@).to_multiset() == seq_views(notes@).to_multiset(),
        r@.len() == notes@.len(),
{
    let mut r: Vec<Note> = Vec::new();
    let mut idx: usize = 0;
    proof {
        assert(seq_views(notes@.subrange(0, 0)) =~= Seq::<NoteV>::empty());
        assert(seq_views(r@) =~= Seq::<NoteV>::empty());
    }
    while idx < notes.len()
        invariant
            idx <= notes.len(),
            r@.len() == idx,
            sorted_by_time(seq_views(r@)),
            seq_views(r@).to_multiset() == seq_views(notes@.subrange(0, idx as int)).to_multiset(),
        decreases notes.len() - idx,
    {
        let n = notes[idx].duplicate();
        let mut pos: usize = 0;
        while pos < r.len() && r[pos].time.raw <= n.time.raw
            invariant
                pos <= r.len(),
                n@ == notes@[idx as int]@,
                forall|q: int| 0 <= q < pos ==> #[trigger] seq_views(r@)[q].time <= n@.time,
            decreases r.len() - pos,
        {
            pos = pos + 1;
        }
        let ghost old_views: Seq<NoteV> = seq_views(r@);
        proof {
            lemma_insert_multiset(old_views, pos as int, n@);
            old_views.insert_ensures(pos as int, n@);
        }
        r.insert(pos, n);
        proof {
            assert(seq_views(r@) =~= old_views.insert(pos as int, n@));
            assert(sorted_by_time(seq_views(r@))) by {
                let nv = seq_views(r@);
                assert forall|a: int, b: int| 0 <= a < b < nv.len() implies nv[a].time
                    <= nv[b].time by {
                    if a < pos && b == pos {
                        assert(nv[a] == old_views[a]);
                    } else if a == pos && b > pos {
                        assert(nv[b] == old_views[b - 1]);
                        assert(old_views[pos as int].time > n@.time);
                        assert(old_views[pos as int].time <= old_views[b - 1].time);
                    } else if a < pos && b > pos {
                        assert(nv[a] == old_views[a]);
                        assert(nv[b] == old_views[b - 1]);
                    } else if b < pos {
                        assert(nv[a] == old_views[a]);
                        assert(nv[b] == old_views[b]);
                    }
                }
            }
            assert(notes@.subrange(0, idx as int + 1) =~= notes@.subrange(0, idx as int).push(
                notes@[idx as int],
            ));
            assert(seq_views(notes@.subrange(0, idx as int + 1)) =~= seq_views(
                notes@.subrange(0, idx as int),
            ).push(n@));
            broadcast use vstd::seq_lib::group_to_multiset_ensures;

            assert(seq_views(r@).to_multiset() =~= seq_views(
                notes@.subrange(0, idx as int + 1),
            ).to_multiset());
        }
        idx = idx + 1;
    }
    proof {
        assert(notes@.subrange(0, notes@.len() as int) =~= notes@);
    }
    r
}

/// A chain of adjacent bounds orders any two positions.
proof fn lemma_time_chain(s: Seq<NoteV>, i: int, j: int)
    requires
        forall|k: int| 0 <= k < s.len() - 1 ==> #[trigger] s[k].time <= s[k + 1].time,
        0 <= i <= j < s.len(),
    ensures
        s[i].time <= s[j].time,
    decreases j - i,
{
    if i < j {
        lemma_time_chain(s, i, j - 1);
        assert(s[j - 1].time <= s[j].time);
    }
}

/// Whether the notes are already ordered by start time.
pub fn is_sorted_by_time(notes: &Vec<Note>) -> (r: bool)
    ensures
        r == sorted_by_time(seq_views(notes@)),
{
    let ghost views: Seq<NoteV> = seq_views(notes@);
    let mut i: usize = 0;
    if notes.len() == 0 {
        return true;
    }
    while i + 1 < notes.len()
        invariant
            0 <= i < notes@.len(),
            views == seq_views(notes@),
            forall|k: int| 0 <= k < i ==> #[trigger] views[k].time <= views[k + 1].time,
        decreases notes.len() - i,
    {
        if notes[i].time.raw > notes[i + 1].time.raw {
            proof {
                assert(views[i as int].time > views[i as int + 1].time);
            }
            return false;
        }
        i = i + 1;
    }
    proof {
        assert forall|a: int, b: int| 0 <= a < b < views.len() implies views[a].time
            <= views[b].time by {
            lemma_time_chain(views, a, b);
        }
    }
    true
}

/// Whether every note's waveform meets the engine's assumptions, so the
/// renderer may be called on the list.
pub fn all_notes_valid(notes: &Vec<Note>) -> (r: bool)
    ensures
        r == notes_valid(seq_views(notes@)),
{
    let ghost views: Seq<NoteV> = seq_views(notes@);
    let mut i: usize = 0;
    while i < notes.len()
        invariant
            0 <= i <= notes@.len(),
            views == seq_views(notes@),
            forall|k: int| 0 <= k < i ==> wf_valid(#[trigger] views[k].wave_form),
        decreases notes.len() - i,
    {
        let ok = match &notes[i].wave_form {
            crate::wave::WaveForm::Harmonics(ws) => {
                let ghost wsm: Seq<int> = ws@.map_values(|w: Fx| w.raw as int);
                proof {
                    assert(views[i as int].wave_form == notes@[i as int]@.wave_form);
                    assert(views[i as int].wave_form == crate::wave::WaveSpec::Harmonics(wsm));
                }
                if ws.len() < 1 || ws.len() > 4096 {
                    false
                } else {
                    let mut j: usize = 0;
                    let mut good = true;
                    while j < ws.len()
                        invariant
                            0 <= j <= ws@.len(),
                            wsm == ws@.map_values(|w: Fx| w.raw as int),
                            good == (forall|q: int|
                                0 <= q < j ==> 0 <= #[trigger] wsm[q] <= 0x1_0000_0000),
                        decreases ws.len() - j,
                    {
                        proof {
                            assert(wsm[j as int] == ws@[j as int].raw as int);
                        }
                        if ws[j].raw < 0 || ws[j].raw > 0x1_0000_0000 {
                            good = false;
                        }
                        j = j + 1;
                    }
                    proof {
                        if good {
                            assert(wf_valid(views[i as int].wave_form));
                        } else {
                            assert(!wf_valid(views[i as int].wave_form));
                        }
                    }
                    good
                }
            },
            _ => true,
        };
        if !ok {
            proof {
                assert(views[i as int].wave_form == notes@[i as int]@.wave_form);
                assert(!wf_valid(views[i as int].wave_form));
            }
            return false;
        }
        proof {
            assert(views[i as int].wave_form == notes@[i as int]@.wave_form);
            assert(wf_valid(views[i as int].wave_form));
        }
        i = i + 1;
    }
    true
}

/// An empty note list mixes to silence at every instant.
pub proof fn lemma_empty_mix(t_s: int, beat: int, tempo: int)
    ensures
        mix_all(Seq::<NoteV>::empty(), t_s, beat, tempo) == 0,
{
}

/// Rendering an empty score gives exactly the requested number of samples,
/// each the silent level: the mix is zero before clipping at every index.
pub proof fn lemma_silent_render(tempo: int, count: nat)
    ensures
        rendered_bytes(Seq::<NoteV>::empty(), tempo, count).len() == 2 * count,
        forall|i: int|
            0 <= i < count ==> (#[trigger] (2 * i), rendered_bytes(
                Seq::<NoteV>::empty(),
                tempo,
                count,
            )[2 * i] == pcm_lo(0) as u8 && rendered_bytes(Seq::<NoteV>::empty(), tempo, count)[2 * i
                + 1] == pcm_hi(0) as u8).1,
    decreases count,
{
    if count > 0 {
        lemma_silent_render(tempo, (count - 1) as nat);
        let s = rendered_bytes(Seq::<NoteV>::empty(), tempo, count);
        let p = rendered_bytes(Seq::<NoteV>::empty(), tempo, (count - 1) as nat);
        assert(s == p + seq![pcm_lo(0) as u8, pcm_hi(0) as u8]);
        assert forall|i: int| 0 <= i < count implies #[trigger] s[2 * i] == pcm_lo(0) as u8 && s[2
            * i + 1] == pcm_hi(0) as u8 by {
            if i < count - 1 {
                assert(s[2 * i] == p[2 * i]);
                assert(s[2 * i + 1] == p[2 * i + 1]);
            } else {
                assert(2 * i == p.len());
                assert(s[2 * i] == pcm_lo(0) as u8);
                assert(s[2 * i + 1] == pcm_hi(0) as u8);
            }
        }
    }
}

/// A note without a release tail contributes nothing at any instant past
/// its nominal end: immediately after `start + duration` it is silent.
pub proof fn lemma_silent_after_end(n: NoteV, beat: int, tempo: int)
    requires
        n.release == 0,
        beat > fx_add(n.time, n.duration),
    ensures
        !note_active(n, beat, tempo),
{
    assert(fx_mul(0, tempo) == 0) by {
        assert(0 * tempo == 0);
        vstd::arithmetic::div_mod::lemma_div_of0(65536);
    }
    assert(release_beats(0, tempo) == 0) by {
        vstd::arithmetic::div_mod::lemma_div_of0(3932160000);
    }
}

/// Two identical notes starting together contribute exactly the
/// (saturating) double of one note's amplitude, active or not.
pub proof fn lemma_two_equal_notes_sum(n: NoteV, t_s: int, beat: int, tempo: int)
    ensures
        mix_all(seq![n, n], t_s, beat, tempo) == fx_add(
            mix_all(seq![n], t_s, beat, tempo),
            mix_all(seq![n], t_s, beat, tempo),
        ),
{
    reveal_with_fuel(mix_at, 3);
    assert(seq![n, n][0] == n);
    assert(seq![n, n][1] == n);
    assert(seq![n][0] == n);
    if !note_active(n, beat, tempo) {
        assert(fx_add(0, 0) == 0);
    }
}

/// An accumulated amplitude at or above the top of the nominal range
/// clips to the largest representable sample; one at or below zero sits at
/// the lowest. Clipping lands exactly on the boundary values.
pub proof fn lemma_hard_clip(acc: int)
    ensures
        acc >= 65537 ==> sample_level(acc) == 32767,
        acc <= 0 ==> sample_level(acc) == -32768,
        -32768 <= sample_level(acc) <= 32767,
{
    if acc >= 65537 {
        assert(65537 * 65535 <= acc * 65535) by (nonlinear_arith)
            requires
                acc >= 65537,
        ;
        lemma_div_is_ordered(65537int * 65535 - 2147483648, acc * 65535 - 2147483648, 65536);
        assert((65537int * 65535 - 2147483648) / 65536 == 32767);
    }
    if acc <= 0 {
        assert(acc * 65535 <= 0) by (nonlinear_arith)
            requires
                acc <= 0,
        ;
        let num = acc * 65535 - 2147483648;
        assert(num <= -2147483648);
        lemma_div_is_ordered(2147483648, -num, 65536);
        assert(2147483648int / 65536 == 32768);
    }
}

} // verus!
