//! The score command parser.
//!
//! A score is a sequence of text lines. Each line is split on blank runs
//! into pieces; the first piece names the command (`META`, `DEFAULT`,
//! `NOTE`, `REPEAT`, `END_REPEAT`) and the rest are `key=value` options.
//! The splitting itself is done by the `regex` crate behind thin trusted
//! wrappers whose contracts state the exact split ([`split_runs`],
//! [`split_single`]); everything after the split — number parsing, pitch
//! names, waveform specifiers, command semantics — is verified.
//!
//! A malformed option (no `=`, an unparsable number, a bad waveform or
//! pitch) rejects the whole command and leaves the parser state unchanged;
//! unrecognized commands and option keys are ignored.

use vstd::prelude::*;
use crate::fixed::{Fx, fx_mul, fx_scale, sat64};
use vstd::arithmetic::power2::pow2;

verus! {

/// Why a command was rejected.
#[derive(Clone, Copy, PartialEq, Eq, Structural, Debug)]
pub enum ParseError {
    /// An option piece has no `=` value.
    MissingValue,
    /// A numeric value does not parse.
    BadNumber,
    /// A waveform specifier is unknown or carries bad parameters.
    BadWaveForm,
    /// A pitch name is not in the note table.
    BadPitch,
}

/// The bytes the blank splitter separates on: space and tab.
pub open spec fn is_blank(c: u8) -> bool {
    c == 32 || c == 9
}

/// The bytes the waveform splitter separates on: parentheses and comma.
pub open spec fn is_wave_sep(c: u8) -> bool {
    c == 40 || c == 41 || c == 44
}

/// Split on maximal non-empty runs of separator bytes: the pieces between
/// runs, including an empty leading piece when the text starts with a
/// separator and an empty trailing piece when it ends with one.
pub open spec fn split_runs(s: Seq<u8>, sep: spec_fn(u8) -> bool) -> Seq<Seq<u8>>
    decreases s.len(),
{
    if s.len() == 0 {
        seq![Seq::empty()]
    } else {
        let rest = split_runs(s.drop_first(), sep);
        if !sep(s[0]) {
            seq![seq![s[0]] + rest[0]] + rest.drop_first()
        } else if s.len() > 1 && sep(s[1]) {
            rest
        } else {
            seq![Seq::<u8>::empty()] + rest
        }
    }
}

/// Split on every single separator byte: `n` separators give `n + 1`
/// pieces, empty pieces included.
pub open spec fn split_single(s: Seq<u8>, sep: spec_fn(u8) -> bool) -> Seq<Seq<u8>>
    decreases s.len(),
{
    if s.len() == 0 {
        seq![Seq::empty()]
    } else {
        let rest = split_single(s.drop_first(), sep);
        if !sep(s[0]) {
            seq![seq![s[0]] + rest[0]] + rest.drop_first()
        } else {
            seq![Seq::<u8>::empty()] + rest
        }
    }
}

/// A run split always yields at least one piece.
pub proof fn lemma_split_runs_len(s: Seq<u8>, sep: spec_fn(u8) -> bool)
    ensures
        split_runs(s, sep).len() >= 1,
    decreases s.len(),
{
    if s.len() > 0 {
        lemma_split_runs_len(s.drop_first(), sep);
    }
}

/// A single-byte split always yields at least one piece.
pub proof fn lemma_split_single_len(s: Seq<u8>, sep: spec_fn(u8) -> bool)
    ensures
        split_single(s, sep).len() >= 1,
    decreases s.len(),
{
    if s.len() > 0 {
        lemma_split_single_len(s.drop_first(), sep);
    }
}

/// The views of a piece list.
pub open spec fn piece_views(ps: Seq<Vec<u8>>) -> Seq<Seq<u8>> {
    ps.map_values(|p: Vec<u8>| p@)
}

/// Relies on `regex::bytes::Regex::new` and `Regex::split` with the
/// pattern `[ \t]+`: the pieces between maximal runs of spaces and tabs,
/// with an empty leading (trailing) piece when the haystack starts (ends)
/// with such a run, and a single empty piece for an empty haystack.
#[verifier::external_body]
pub(crate) fn split_blank_runs(s: &[u8]) -> (r: Vec<Vec<u8>>)
    ensures
        piece_views(r@) == split_runs(s@, |c: u8| is_blank(c)),
{
    let re = regex::bytes::Regex::new(r"[ \t]+").expect("valid pattern");
    re.split(s).map(|p| p.to_vec()).collect()
}

/// Relies on `regex::bytes::Regex::new` and `Regex::split` with the
/// pattern `[(,)]+`: the pieces between maximal runs of parentheses and
/// commas, with the same empty-piece rules as the blank splitter.
#[verifier::external_body]
pub(crate) fn split_wave_parts(s: &[u8]) -> (r: Vec<Vec<u8>>)
    ensures
        piece_views(r@) == split_runs(s@, |c: u8| is_wave_sep(c)),
{
    let re = regex::bytes::Regex::new(r"[(,)]+").expect("valid pattern");
    re.split(s).map(|p| p.to_vec()).collect()
}

/// Relies on `regex::bytes::Regex::new` and `Regex::split` with the
/// pattern `[=]`: the pieces around every single equals sign.
#[verifier::external_body]
pub(crate) fn split_equals(s: &[u8]) -> (r: Vec<Vec<u8>>)
    ensures
        piece_views(r@) == split_single(s@, |c: u8| c == 61),
{
    let re = regex::bytes::Regex::new(r"[=]").expect("valid pattern");
    re.split(s).map(|p| p.to_vec()).collect()
}

/// Byte-for-byte equality of two slices.
pub fn bytes_eq(a: &[u8], b: &[u8]) -> (r: bool)
    ensures
        r == (a@ == b@),
{
    if a.len() != b.len() {
        proof {
            assert(a@.len() != b@.len());
        }
        return false;
    }
    let mut i: usize = 0;
    while i < a.len()
        invariant
            i <= a.len(),
            a@.len() == b@.len(),
            forall|k: int| 0 <= k < i ==> a@[k] == b@[k],
        decreases a.len() - i,
    {
        if a[i] != b[i] {
            return false;
        }
        i = i + 1;
    }
    proof {
        assert(a@ =~= b@);
    }
    true
}

/// An ASCII decimal digit.
pub open spec fn is_digit(c: u8) -> bool {
    48 <= c <= 57
}

/// Every byte of the text is a digit.
pub open spec fn all_digits(s: Seq<u8>) -> bool {
    forall|i: int| 0 <= i < s.len() ==> is_digit(#[trigger] s[i])
}

/// The numeric value of the first `k` digit bytes.
pub open spec fn digits_val(s: Seq<u8>, k: nat) -> int
    decreases k,
{
    if k == 0 {
        0
    } else {
        digits_val(s, (k - 1) as nat) * 10 + (s[k - 1] - 48)
    }
}

/// A whole unsigned decimal number: at least one digit, nothing else, and
/// a value representable in 64 bits.
pub open spec fn parse_u64_spec(s: Seq<u8>) -> Option<int> {
    if s.len() >= 1 && all_digits(s) && digits_val(s, s.len()) <= u64::MAX {
        Option::Some(digits_val(s, s.len()))
    } else {
        Option::None
    }
}

/// A run of digit bytes always has a non-negative value.
pub proof fn lemma_digits_val_nonneg(s: Seq<u8>, k: nat)
    requires
        forall|i: int| 0 <= i < k ==> is_digit(#[trigger] s[i]),
        k <= s.len(),
    ensures
        digits_val(s, k) >= 0,
    decreases k,
{
    if k > 0 {
        lemma_digits_val_nonneg(s, (k - 1) as nat);
    }
}

/// Parse an unsigned 64-bit decimal number: the exact relation of
/// [`parse_u64_spec`].
pub fn parse_u64_bytes(s: &[u8]) -> (r: Option<u64>)
    ensures
        (r matches Option::Some(v) ==> parse_u64_spec(s@) == Option::Some(v as int)),
        (r is None ==> parse_u64_spec(s@) is None),
{
    if s.len() == 0 {
        return Option::None;
    }
    let mut acc: u128 = 0;
    let mut i: usize = 0;
    let ghost cap: int = 0x1_0000_0000_0000_0000;
    while i < s.len()
        invariant
            i <= s.len(),
            s@.len() >= 1,
            forall|k: int| 0 <= k < i ==> is_digit(#[trigger] s@[k]),
            acc as int == (if digits_val(s@, i as nat) <= cap {
                digits_val(s@, i as nat)
            } else {
                cap
            }),
            cap == 0x1_0000_0000_0000_0000,
        decreases s.len() - i,
    {
        let c = s[i];
        if c < 48 || c > 57 {
            return Option::None;
        }
        proof {
            lemma_digits_val_nonneg(s@, i as nat);
        }
        let next: u128 = acc * 10 + (c - 48) as u128;
        acc = if next > 0x1_0000_0000_0000_0000 {
            0x1_0000_0000_0000_0000
        } else {
            next
        };
        i = i + 1;
    }
    if acc > u64::MAX as u128 {
        Option::None
    } else {
        Option::Some(acc as u64)
    }
}

/// A small power of ten.
pub open spec fn pow10(n: nat) -> int
    decreases n,
{
    if n == 0 {
        1
    } else {
        10 * pow10((n - 1) as nat)
    }
}

/// The index of the first `.` in the text, or -1 when there is none.
pub open spec fn find_dot(s: Seq<u8>) -> int
    decreases s.len(),
{
    if s.len() == 0 {
        -1
    } else if s[0] == 46 {
        0
    } else {
        let p = find_dot(s.drop_first());
        if p < 0 {
            -1
        } else {
            p + 1
        }
    }
}

/// The raw Q16.16 contribution of the fraction digits: the value is read
/// to a millionth (the first six digits) and floored onto the grid.
pub open spec fn frac_raw(fr: Seq<u8>) -> int {
    let k: nat = if fr.len() < 6 {
        fr.len()
    } else {
        6
    };
    (digits_val(fr, k) * pow10((6 - k) as nat) * 65536) / 1000000
}

/// The index of the first exponent marker (`e` or `E`), or -1 when there
/// is none.
pub open spec fn find_exp(s: Seq<u8>) -> int
    decreases s.len(),
{
    if s.len() == 0 {
        -1
    } else if s[0] == 101 || s[0] == 69 {
        0
    } else {
        let p = find_exp(s.drop_first());
        if p < 0 {
            -1
        } else {
            p + 1
        }
    }
}

/// A signed decimal mantissa carried to the Q16.16 grid, saturating at the
/// representation limits. Accepted forms: an optional sign, then either
/// digits, digits `.` digits, digits `.`, or `.` digits.
pub open spec fn parse_mantissa_spec(s: Seq<u8>) -> Option<int> {
    let neg = s.len() >= 1 && s[0] == 45;
    let body = if s.len() >= 1 && (s[0] == 45 || s[0] == 43) {
        s.drop_first()
    } else {
        s
    };
    let d = find_dot(body);
    if d < 0 {
        if body.len() >= 1 && all_digits(body) {
            let mag = digits_val(body, body.len()) * 65536;
            Option::Some(
                sat64(
                    if neg {
                        -mag
                    } else {
                        mag
                    },
                ),
            )
        } else {
            Option::None
        }
    } else {
        let ip = body.subrange(0, d);
        let fr = body.subrange(d + 1, body.len() as int);
        if all_digits(ip) && all_digits(fr) && (ip.len() >= 1 || fr.len() >= 1) {
            let mag = digits_val(ip, ip.len()) * 65536 + frac_raw(fr);
            Option::Some(
                sat64(
                    if neg {
                        -mag
                    } else {
                        mag
                    },
                ),
            )
        } else {
            Option::None
        }
    }
}

/// A whole decimal exponent: an optional sign, then at least one digit.
pub open spec fn parse_exp_spec(s: Seq<u8>) -> Option<int> {
    let eneg = s.len() >= 1 && s[0] == 45;
    let ds = if s.len() >= 1 && (s[0] == 45 || s[0] == 43) {
        s.drop_first()
    } else {
        s
    };
    if ds.len() >= 1 && all_digits(ds) {
        Option::Some(
            if eneg {
                -digits_val(ds, ds.len())
            } else {
                digits_val(ds, ds.len())
            },
        )
    } else {
        Option::None
    }
}

/// A finished raw value scaled by a power of ten: positive exponents
/// multiply (saturating at the rails), negative ones divide with the
/// quotient rounded toward zero.
pub open spec fn apply_exp(m: int, e: int) -> int {
    if e >= 0 {
        sat64(m * pow10(e as nat))
    } else if m >= 0 {
        m / pow10((-e) as nat)
    } else {
        -((-m) / pow10((-e) as nat))
    }
}

/// A signed decimal number with an optional exponent suffix. The mantissa
/// is carried to the Q16.16 grid first and the power of ten is applied to
/// that grid value.
pub open spec fn parse_fx_spec(s: Seq<u8>) -> Option<int> {
    let ep = find_exp(s);
    if ep < 0 {
        parse_mantissa_spec(s)
    } else {
        match parse_mantissa_spec(s.subrange(0, ep)) {
            Option::Some(m) => match parse_exp_spec(s.subrange(ep + 1, s.len() as int)) {
                Option::Some(e) => Option::Some(apply_exp(m, e)),
                Option::None => Option::None,
            },
            Option::None => Option::None,
        }
    }
}

/// A scan that saw no `.` up to `i` pins down [`find_dot`].
proof fn lemma_find_dot_at(s: Seq<u8>, i: int)
    requires
        0 <= i <= s.len(),
        forall|k: int| 0 <= k < i ==> s[k] != 46,
        i < s.len() ==> s[i] == 46,
    ensures
        find_dot(s) == (if i < s.len() {
            i
        } else {
            -1
        }),
    decreases i,
{
    if i == 0 {
        if s.len() > 0 && s[0] != 46 {
            assert(i == s.len());  // contradiction with i == 0 < len and s[0] == 46 required
        }
    } else {
        assert(s[0] != 46);
        let t = s.drop_first();
        assert forall|k: int| 0 <= k < i - 1 implies t[k] != 46 by {
            assert(t[k] == s[k + 1]);
        }
        if i - 1 < t.len() {
            assert(t[i - 1] == s[i]);
        }
        lemma_find_dot_at(t, i - 1);
    }
}

/// The magnitude scan result: the exact prefix value, clamped high.
spec fn clamped_digits(s: Seq<u8>, k: nat) -> int {
    if digits_val(s, k) <= 0x8000_0000_0000_0000 {
        digits_val(s, k)
    } else {
        0x8000_0000_0000_0000
    }
}

/// Scan a digit run, accumulating its value clamped at `2^63`; `None` when
/// a non-digit appears or the run is empty.
fn scan_digits(s: &[u8], from: usize, to: usize) -> (r: Option<u128>)
    requires
        from <= to <= s@.len(),
    ensures
        (r matches Option::Some(v) ==> (all_digits(s@.subrange(from as int, to as int)) && v as int
            == clamped_digits(s@.subrange(from as int, to as int), (to - from) as nat)
            && v <= 0x8000_0000_0000_0000)),
        (r is None ==> !all_digits(s@.subrange(from as int, to as int))),
{
    let ghost sub: Seq<u8> = s@.subrange(from as int, to as int);
    let mut acc: u128 = 0;
    let mut i: usize = from;
    while i < to
        invariant
            from <= i <= to <= s@.len(),
            sub == s@.subrange(from as int, to as int),
            forall|k: int| 0 <= k < i - from ==> is_digit(#[trigger] sub[k]),
            acc as int == clamped_digits(sub, (i - from) as nat),
            acc <= 0x8000_0000_0000_0000,
        decreases to - i,
    {
        let c = s[i];
        if c < 48 || c > 57 {
            proof {
                assert(sub[i - from] == c);
            }
            return Option::None;
        }
        proof {
            assert(sub[i - from] == c);
            lemma_digits_val_nonneg(sub, (i - from) as nat);
        }
        let next: u128 = acc * 10 + (c - 48) as u128;
        acc = if next > 0x8000_0000_0000_0000 {
            0x8000_0000_0000_0000
        } else {
            next
        };
        i = i + 1;
    }
    Option::Some(acc)
}

/// Parse a signed decimal mantissa onto the Q16.16 grid: the exact
/// relation of [`parse_mantissa_spec`].
#[verifier::rlimit(50)]
fn parse_mantissa_bytes(s: &[u8]) -> (r: Option<Fx>)
    ensures
        (r matches Option::Some(f) ==> parse_mantissa_spec(s@) == Option::Some(f.raw as int)),
        (r is None ==> parse_mantissa_spec(s@) is None),
{
    let ghost whole: Seq<u8> = s@;
    let neg = s.len() >= 1 && s[0] == 45;
    let start: usize = if s.len() >= 1 && (s[0] == 45 || s[0] == 43) {
        1
    } else {
        0
    };
    let ghost body: Seq<u8> = s@.subrange(start as int, s@.len() as int);
    proof {
        if start == 1 {
            assert(body =~= whole.drop_first());
        } else {
            assert(body =~= whole);
        }
    }
    // find the first dot inside the body
    let mut i: usize = start;
    while i < s.len() && s[i] != 46
        invariant
            start <= i <= s@.len(),
            body == s@.subrange(start as int, s@.len() as int),
            forall|k: int| 0 <= k < i - start ==> body[k] != 46,
        decreases s.len() - i,
    {
        proof {
            assert(body[i - start] == s@[i as int]);
        }
        i = i + 1;
    }
    let has_dot = i < s.len();
    proof {
        if i < s@.len() {
            assert(body[i - start] == s@[i as int]);
        }
    }
    proof {
        lemma_find_dot_at(body, i - start);
        if has_dot {
            assert(find_dot(body) == i - start);
        } else {
            assert(find_dot(body) == -1);
        }
    }
    if !has_dot {
        if s.len() == start {
            return Option::None;
        }
        match scan_digits(s, start, s.len()) {
            Option::Some(v) => {
                proof {
                    assert(body =~= s@.subrange(start as int, s@.len() as int));
                }
                Option::Some(fx_of_magnitude(v, 0, neg, Ghost(digits_val(body, body.len()))))
            },
            Option::None => Option::None,
        }
    } else {
        let d = i;
        let ghost ip: Seq<u8> = body.subrange(0, d - start);
        let ghost fr: Seq<u8> = body.subrange(d - start + 1, body.len() as int);
        proof {
            assert(ip =~= s@.subrange(start as int, d as int));
            assert(fr =~= s@.subrange(d as int + 1, s@.len() as int));
        }
        let ipv = match scan_digits(s, start, d) {
            Option::Some(v) => v,
            Option::None => {
                return Option::None;
            },
        };
        // read at most the first six fraction digits, then check the rest
        let fr_end: usize = if s.len() - (d + 1) < 6 {
            s.len()
        } else {
            d + 7
        };
        let frv = match scan_digits(s, d + 1, fr_end) {
            Option::Some(v) => v,
            Option::None => {
                proof {
                    let short = s@.subrange(d as int + 1, fr_end as int);
                    assert(forall|k: int| 0 <= k < short.len() ==> short[k] == fr[k]);
                }
                return Option::None;
            },
        };
        match scan_digits(s, fr_end, s.len()) {
            Option::Some(_) => {},
            Option::None => {
                proof {
                    let tail = s@.subrange(fr_end as int, s@.len() as int);
                    assert(forall|k: int| 0 <= k < tail.len() ==> tail[k] == fr[k + (
                    fr_end - d - 1)]);
                }
                return Option::None;
            },
        }
        proof {
            let short = s@.subrange(d as int + 1, fr_end as int);
            let tail = s@.subrange(fr_end as int, s@.len() as int);
            assert(forall|k: int| 0 <= k < short.len() ==> short[k] == fr[k]);
            assert(forall|k: int| 0 <= k < tail.len() ==> tail[k] == fr[k + (fr_end - d - 1)]);
            assert(all_digits(fr)) by {
                assert(forall|k: int| 0 <= k < fr.len() ==> fr[k] == (if k < short.len() {
                    short[k]
                } else {
                    tail[k - short.len()]
                }));
            }
        }
        // scale the fraction digits up to six places
        let kf: usize = fr_end - (d + 1);
        let mut f6: u128 = frv;
        let mut j: usize = kf;
        proof {
            let short = s@.subrange(d as int + 1, fr_end as int);
            lemma_digits_val_agree(short, fr, kf as nat);
            lemma_digits_small_rec(fr, kf as nat, 6);
            lemma_pow10_bound(kf as nat);
            assert(digits_val(fr, kf as nat) <= pow10(kf as nat) - 1);
            assert(digits_val(short, kf as nat) <= 0x8000_0000_0000_0000);
            assert(frv as int == digits_val(short, kf as nat));
            assert(f6 as int == digits_val(fr, kf as nat));
            assert(digits_val(fr, kf as nat) * pow10(0) == digits_val(fr, kf as nat))
                by (nonlinear_arith)
                requires
                    pow10(0) == 1,
            ;
            assert(f6 as int == digits_val(fr, kf as nat) * pow10(0));
        }
        while j < 6
            invariant
                kf <= j <= 6,
                kf <= 6,
                kf <= fr.len(),
                all_digits(fr),
                f6 as int == digits_val(fr, kf as nat) * pow10((j - kf) as nat),
                0 <= f6 <= pow10(j as nat) - 1,
                pow10(j as nat) <= 1000000,
            decreases 6 - j,
        {
            proof {
                lemma_pow10_step(digits_val(fr, kf as nat), (j - kf) as nat);
                lemma_pow10_bound((j + 1) as nat);
                assert(pow10((j + 1) as nat) == 10 * pow10(j as nat));
            }
            f6 = f6 * 10;
            j = j + 1;
        }
        proof {
            lemma_pow10_bound(6);
        }
        if d == start && kf == 0 {
            return Option::None;
        }
        proof {
            assert(ip.len() >= 1 || fr.len() >= 1);
        }
        let fterm: u64 = ((f6 * 65536) / 1000000) as u64;
        proof {
            assert(frac_raw(fr) == fterm as int) by {
                assert((if fr.len() < 6 { fr.len() } else { 6nat }) == kf as nat);
                vstd::arithmetic::div_mod::lemma_div_pos_is_pos(
                    f6 as int * 65536,
                    1000000,
                );
                vstd::arithmetic::div_mod::lemma_div_is_ordered(
                    f6 as int * 65536,
                    999999000000int * 65536,
                    1000000,
                );
            }
            assert(fterm <= 65536 * 999999000000 / 1000000);
        }
        Option::Some(fx_of_magnitude(ipv, fterm, neg, Ghost(digits_val(ip, ip.len()))))
    }
}

/// A `k`-digit value is below ten to the `k`.
proof fn lemma_digits_small_rec(s: Seq<u8>, k: nat, cap: nat)
    requires
        k <= cap,
        k <= s.len(),
        forall|i: int| 0 <= i < s.len() ==> is_digit(#[trigger] s[i]),
    ensures
        0 <= digits_val(s, k) <= pow10(k) - 1,
    decreases k,
{
    if k > 0 {
        lemma_digits_small_rec(s, (k - 1) as nat, cap);
        assert(pow10(k) == 10 * pow10((k - 1) as nat));
    }
}

/// Two texts agreeing on their first `k` bytes have the same `k`-digit
/// value.
proof fn lemma_digits_val_agree(a: Seq<u8>, b: Seq<u8>, k: nat)
    requires
        k <= a.len(),
        k <= b.len(),
        forall|j: int| 0 <= j < k ==> a[j] == b[j],
    ensures
        digits_val(a, k) == digits_val(b, k),
    decreases k,
{
    if k > 0 {
        lemma_digits_val_agree(a, b, (k - 1) as nat);
    }
}

/// Multiplying a scaled value by ten advances the power of ten.
proof fn lemma_pow10_step(v: int, e: nat)
    ensures
        (v * pow10(e)) * 10 == v * pow10((e + 1) as nat),
{
    assert(pow10((e + 1) as nat) == 10 * pow10(e));
    assert((v * pow10(e)) * 10 == v * (10 * pow10(e))) by (nonlinear_arith);
}

/// Powers of ten up to the sixth stay at or below one million.
proof fn lemma_pow10_bound(e: nat)
    requires
        e <= 6,
    ensures
        1 <= pow10(e) <= 1000000,
{
    reveal_with_fuel(pow10, 8);
    if e == 0 {
    } else if e == 1 {
    } else if e == 2 {
    } else if e == 3 {
    } else if e == 4 {
    } else if e == 5 {
    } else {
        assert(e == 6);
    }
}

/// Assemble the signed, saturated raw value from a clamped integer part
/// and a fraction contribution.
fn fx_of_magnitude(ipv: u128, fterm: u64, neg: bool, Ghost(true_ip): Ghost<int>) -> (r: Fx)
    requires
        ipv as int == (if true_ip <= 0x8000_0000_0000_0000 {
            true_ip
        } else {
            0x8000_0000_0000_0000
        }),
        0 <= true_ip,
        fterm <= 65536,
    ensures
        r.raw as int == sat64(
            if neg {
                -(true_ip * 65536 + fterm)
            } else {
                true_ip * 65536 + fterm
            },
        ),
{
    let wide: i128 = ipv as i128 * 65536 + fterm as i128;
    proof {
        if true_ip > 0x8000_0000_0000_0000 {
            assert(true_ip * 65536 >= 0x8000_0000_0000_0000 * 65536) by (nonlinear_arith)
                requires
                    true_ip >= 0x8000_0000_0000_0000,
            ;
        }
    }
    if neg {
        Fx { raw: crate::fixed::clamp128(-wide) }
    } else {
        Fx { raw: crate::fixed::clamp128(wide) }
    }
}

/// The semitone offset of a plain note letter above the octave's `A`.
pub open spec fn letter_semi(l: u8) -> int {
    if l == 65 {
        0
    } else if l == 66 {
        2
    } else if l == 67 {
        3
    } else if l == 68 {
        5
    } else if l == 69 {
        7
    } else if l == 70 {
        8
    } else {
        10
    }
}

/// The semitone offset of a spelled note name within its octave: `0` for
/// no accidental, `35` (`#`) raises, `98` (`b`) lowers; only the spellings
/// of the pitch table are accepted.
pub open spec fn pitch_offset(l: u8, a: u8) -> Option<int> {
    if !(65 <= l <= 71) {
        Option::None
    } else if a == 0 {
        Option::Some(letter_semi(l))
    } else if a == 35 {
        if l == 65 || l == 67 || l == 68 || l == 70 || l == 71 {
            Option::Some(letter_semi(l) + 1)
        } else {
            Option::None
        }
    } else if a == 98 {
        if l == 65 {
            Option::Some(11)
        } else if l == 66 || l == 68 || l == 69 || l == 71 {
            Option::Some(letter_semi(l) - 1)
        } else {
            Option::None
        }
    } else {
        Option::None
    }
}

/// The Q16.16 frequency ratio of `k` semitones above a reference, from the
/// equal-tempered scale.
pub open spec fn ratio_semi(k: int) -> int {
    if k == 0 {
        65536
    } else if k == 1 {
        69433
    } else if k == 2 {
        73562
    } else if k == 3 {
        77936
    } else if k == 4 {
        82570
    } else if k == 5 {
        87480
    } else if k == 6 {
        92682
    } else if k == 7 {
        98193
    } else if k == 8 {
        104032
    } else if k == 9 {
        110218
    } else if k == 10 {
        116772
    } else {
        123715
    }
}

/// The raw frequency of a pitch name: a letter `A`-`G`, an optional `#` or
/// `b`, and an octave digit `0`-`8`. The reference `A` of octave zero is
/// 27.5 Hz; the semitone offset scales it by the equal-tempered ratio
/// once, and each octave then doubles exactly.
pub open spec fn pitch_freq_spec(s: Seq<u8>) -> Option<int> {
    let acc: u8 = if s.len() == 3 {
        s[1]
    } else {
        0
    };
    if (s.len() == 2 || s.len() == 3) && 48 <= s[s.len() - 1] <= 56 {
        match pitch_offset(s[0], acc) {
            Option::Some(k) => Option::Some(
                fx_scale(fx_mul(1802240, ratio_semi(k)), pow2((s[s.len() - 1] - 48) as nat) as int),
            ),
            Option::None => Option::None,
        }
    } else {
        Option::None
    }
}

/// Map a textual pitch name to its frequency: the exact relation of
/// [`pitch_freq_spec`]. Names outside the table are rejected.
pub fn pitch_to_frequency(s: &[u8]) -> (r: Result<Fx, ParseError>)
    ensures
        (r matches Result::Ok(f) ==> pitch_freq_spec(s@) == Option::Some(f.raw as int)),
        (r matches Result::Err(e) ==> (pitch_freq_spec(s@) is None
            && e == ParseError::BadPitch)),
{
    if s.len() != 2 && s.len() != 3 {
        return Result::Err(ParseError::BadPitch);
    }
    let l = s[0];
    let acc: u8 = if s.len() == 3 {
        s[1]
    } else {
        0
    };
    let oc = s[s.len() - 1];
    if oc < 48 || oc > 56 {
        return Result::Err(ParseError::BadPitch);
    }
    if l < 65 || l > 71 {
        return Result::Err(ParseError::BadPitch);
    }
    let k: i64 = if acc == 0 {
        letter_semi_exec(l)
    } else if acc == 35 {
        if l == 65 || l == 67 || l == 68 || l == 70 || l == 71 {
            letter_semi_exec(l) + 1
        } else {
            return Result::Err(ParseError::BadPitch);
        }
    } else if acc == 98 {
        if l == 65 {
            11
        } else if l == 66 || l == 68 || l == 69 || l == 71 {
            letter_semi_exec(l) - 1
        } else {
            return Result::Err(ParseError::BadPitch);
        }
    } else {
        return Result::Err(ParseError::BadPitch);
    };
    let octave: u8 = oc - 48;
    let ratio: i64 = if k == 0 {
        65536
    } else if k == 1 {
        69433
    } else if k == 2 {
        73562
    } else if k == 3 {
        77936
    } else if k == 4 {
        82570
    } else if k == 5 {
        87480
    } else if k == 6 {
        92682
    } else if k == 7 {
        98193
    } else if k == 8 {
        104032
    } else if k == 9 {
        110218
    } else if k == 10 {
        116772
    } else {
        123715
    };
    let anchor = Fx { raw: 1802240 }.mul(Fx { raw: ratio });
    proof {
        vstd::arithmetic::div_mod::lemma_div_pos_is_pos(1802240 * ratio, 65536);
        vstd::arithmetic::div_mod::lemma_div_is_ordered(
            1802240 * ratio,
            1802240int * 123715,
            65536,
        );
        assert(1802240int * 123715 / 65536 == 3402162);
    }
    let mut f: i64 = anchor.raw;
    let mut j: u8 = 0;
    proof {
        vstd::arithmetic::power2::lemma2_to64();
        assert(anchor.raw as int * pow2(0) == anchor.raw as int) by (nonlinear_arith)
            requires
                pow2(0) == 1,
        ;
    }
    while j < octave
        invariant
            0 <= j <= octave <= 8,
            0 <= anchor.raw <= 3402162,
            f as int == anchor.raw as int * pow2(j as nat),
            0 <= f <= 871081472,
        decreases octave - j,
    {
        proof {
            vstd::arithmetic::power2::lemma2_to64();
            vstd::arithmetic::power2::lemma_pow2_unfold((j + 1) as nat);
            assert(anchor.raw as int * pow2((j + 1) as nat) == (anchor.raw as int * pow2(
                j as nat,
            )) * 2) by (nonlinear_arith)
                requires
                    pow2((j + 1) as nat) == 2 * pow2(j as nat),
            ;
            assert(pow2((j + 1) as nat) <= pow2(8)) by {
                if ((j + 1) as nat) < 8 {
                    vstd::arithmetic::power2::lemma_pow2_strictly_increases((j + 1) as nat, 8);
                }
            }
            assert(0 <= anchor.raw as int * pow2((j + 1) as nat) <= 3402162 * 256)
                by (nonlinear_arith)
                requires
                    0 <= anchor.raw <= 3402162,
                    0 <= pow2((j + 1) as nat) <= 256,
            ;
        }
        f = f * 2;
        j = j + 1;
    }
    proof {
        assert(fx_scale(anchor.raw as int, pow2(octave as nat) as int) == f as int);
    }
    Result::Ok(Fx { raw: f })
}

/// The executable semitone offset of a plain note letter.
fn letter_semi_exec(l: u8) -> (r: i64)
    requires
        65 <= l <= 71,
    ensures
        r as int == letter_semi(l),
{
    if l == 65 {
        0
    } else if l == 66 {
        2
    } else if l == 67 {
        3
    } else if l == 68 {
        5
    } else if l == 69 {
        7
    } else if l == 70 {
        8
    } else {
        10
    }
}

/// A scan that saw no exponent marker up to `i` pins down [`find_exp`].
proof fn lemma_find_exp_at(s: Seq<u8>, i: int)
    requires
        0 <= i <= s.len(),
        forall|k: int| 0 <= k < i ==> s[k] != 101 && s[k] != 69,
        i < s.len() ==> (s[i] == 101 || s[i] == 69),
    ensures
        find_exp(s) == (if i < s.len() {
            i
        } else {
            -1
        }),
    decreases i,
{
    if i > 0 {
        let t = s.drop_first();
        assert forall|k: int| 0 <= k < i - 1 implies t[k] != 101 && t[k] != 69 by {
            assert(t[k] == s[k + 1]);
        }
        if i - 1 < t.len() {
            assert(t[i - 1] == s[i]);
        }
        lemma_find_exp_at(t, i - 1);
    }
}

/// Powers of ten are positive.
proof fn lemma_pow10_pos(e: nat)
    ensures
        pow10(e) >= 1,
    decreases e,
{
    if e > 0 {
        lemma_pow10_pos((e - 1) as nat);
    }
}

/// Powers of ten grow with the exponent.
proof fn lemma_pow10_mono(a: nat, b: nat)
    requires
        a <= b,
    ensures
        pow10(a) <= pow10(b),
    decreases b - a,
{
    if a < b {
        lemma_pow10_mono(a, (b - 1) as nat);
        lemma_pow10_pos((b - 1) as nat);
    }
}

/// Ten to the twentieth, pinned for the saturation arguments.
proof fn lemma_pow10_twenty()
    ensures
        pow10(20) == 100000000000000000000,
{
    reveal_with_fuel(pow10, 21);
}

/// Saturating before a further scaling by ten gives the same rail as
/// scaling first.
proof fn lemma_sat_mul10(y: int)
    ensures
        sat64(sat64(y) * 10) == sat64(y * 10),
{
}

/// Parse a decimal exponent, clamping the magnitude at one thousand
/// (beyond which only the sign of the scaling matters).
fn parse_exp_bytes(s: &[u8]) -> (r: Option<i64>)
    ensures
        (r matches Option::Some(ec) ==> (parse_exp_spec(s@) matches Option::Some(e) && ec as int
            == (if e > 1000 {
            1000int
        } else if e < -1000 {
            -1000int
        } else {
            e
        }))),
        (r is None ==> parse_exp_spec(s@) is None),
{
    let eneg = s.len() >= 1 && s[0] == 45;
    let start: usize = if s.len() >= 1 && (s[0] == 45 || s[0] == 43) {
        1
    } else {
        0
    };
    let ghost ds: Seq<u8> = s@.subrange(start as int, s@.len() as int);
    proof {
        if start == 1 {
            assert(ds =~= s@.drop_first());
        } else {
            assert(ds =~= s@);
        }
    }
    if s.len() == start {
        return Option::None;
    }
    let mut acc: u64 = 0;
    let mut i: usize = start;
    while i < s.len()
        invariant
            start <= i <= s@.len(),
            ds == s@.subrange(start as int, s@.len() as int),
            ds == (if s@.len() >= 1 && (s@[0] == 45 || s@[0] == 43) {
                s@.drop_first()
            } else {
                s@
            }),
            start == (if s@.len() >= 1 && (s@[0] == 45 || s@[0] == 43) {
                1int
            } else {
                0int
            }),
            forall|k: int| 0 <= k < i - start ==> is_digit(#[trigger] ds[k]),
            acc as int == (if digits_val(ds, (i - start) as nat) <= 1000 {
                digits_val(ds, (i - start) as nat)
            } else {
                1000int
            }),
        decreases s.len() - i,
    {
        let c = s[i];
        proof {
            assert(ds[i - start] == s@[i as int]);
        }
        if c < 48 || c > 57 {
            proof {
                assert(!is_digit(ds[i - start]));
            }
            return Option::None;
        }
        proof {
            lemma_digits_val_nonneg(ds, (i - start) as nat);
        }
        let next: u64 = acc * 10 + (c - 48) as u64;
        acc = if next > 1000 {
            1000
        } else {
            next
        };
        i = i + 1;
    }
    proof {
        assert(ds.len() >= 1);
        lemma_digits_val_nonneg(ds, ds.len());
    }
    if eneg {
        Option::Some(-(acc as i64))
    } else {
        Option::Some(acc as i64)
    }
}

/// Scale a finished grid value by a power of ten: the exact evaluation of
/// [`apply_exp`], fed the clamped exponent.
fn apply_exponent(m: Fx, ec: i64, Ghost(e): Ghost<int>) -> (r: Fx)
    requires
        -1000 <= ec <= 1000,
        ec as int == (if e > 1000 {
            1000int
        } else if e < -1000 {
            -1000int
        } else {
            e
        }),
    ensures
        r.raw as int == apply_exp(m.raw as int, e),
{
    proof {
        lemma_pow10_twenty();
    }
    if ec == 0 {
        proof {
            assert(m.raw as int * pow10(0) == m.raw as int) by (nonlinear_arith)
                requires
                    pow10(0) == 1,
            ;
        }
        m
    } else if ec > 0 {
        let steps: i64 = if ec > 20 {
            20
        } else {
            ec
        };
        let mut cur: i64 = m.raw;
        let mut j: i64 = 0;
        proof {
            assert(m.raw as int * pow10(0) == m.raw as int) by (nonlinear_arith)
                requires
                    pow10(0) == 1,
            ;
        }
        while j < steps
            invariant
                0 <= j <= steps <= 20,
                cur as int == sat64(m.raw as int * pow10(j as nat)),
            decreases steps - j,
        {
            proof {
                lemma_pow10_pos(j as nat);
                assert(pow10((j + 1) as nat) == 10 * pow10(j as nat));
                assert(m.raw as int * pow10((j + 1) as nat) == (m.raw as int * pow10(j as nat))
                    * 10) by (nonlinear_arith)
                    requires
                        pow10((j + 1) as nat) == 10 * pow10(j as nat),
                ;
                lemma_sat_mul10(m.raw as int * pow10(j as nat));
            }
            cur = if cur > 922337203685477580 {
                i64::MAX
            } else if cur < -922337203685477580 {
                i64::MIN
            } else {
                cur * 10
            };
            j = j + 1;
        }
        proof {
            if e > 20 {
                lemma_pow10_twenty();
                lemma_pow10_mono(20, e as nat);
                lemma_pow10_pos(e as nat);
                if m.raw >= 1 {
                    assert(m.raw as int * pow10(20) >= pow10(20)) by (nonlinear_arith)
                        requires
                            m.raw >= 1,
                            pow10(20) >= 0,
                    ;
                    assert(m.raw as int * pow10(e as nat) >= pow10(e as nat)) by (nonlinear_arith)
                        requires
                            m.raw >= 1,
                            pow10(e as nat) >= 0,
                    ;
                } else if m.raw <= -1 {
                    assert(m.raw as int * pow10(20) <= -pow10(20)) by (nonlinear_arith)
                        requires
                            m.raw <= -1,
                            pow10(20) >= 0,
                    ;
                    assert(m.raw as int * pow10(e as nat) <= -pow10(e as nat)) by (nonlinear_arith)
                        requires
                            m.raw <= -1,
                            pow10(e as nat) >= 0,
                    ;
                } else {
                    assert(m.raw as int * pow10(20) == 0) by (nonlinear_arith)
                        requires
                            m.raw == 0,
                    ;
                    assert(m.raw as int * pow10(e as nat) == 0) by (nonlinear_arith)
                        requires
                            m.raw == 0,
                    ;
                }
            }
        }
        Fx { raw: cur }
    } else {
        // a negative exponent divides the magnitude, rounding toward zero
        let steps: i64 = if ec < -20 {
            20
        } else {
            -ec
        };
        let mag0: u128 = if m.raw < 0 {
            (-(m.raw as i128)) as u128
        } else {
            m.raw as u128
        };
        let ghost am: int = if m.raw >= 0 {
            m.raw as int
        } else {
            -(m.raw as int)
        };
        let mut mag: u128 = mag0;
        let mut j: i64 = 0;
        proof {
            assert(am / pow10(0) == am);
        }
        while j < steps
            invariant
                0 <= j <= steps <= 20,
                0 <= am <= 0x8000_0000_0000_0000,
                mag as int == am / pow10(j as nat),
            decreases steps - j,
        {
            proof {
                lemma_pow10_pos(j as nat);
                assert(pow10((j + 1) as nat) == 10 * pow10(j as nat));
                vstd::arithmetic::div_mod::lemma_div_denominator(
                    am,
                    pow10(j as nat),
                    10,
                );
                assert(pow10(j as nat) * 10 == 10 * pow10(j as nat));
            }
            mag = mag / 10;
            j = j + 1;
        }
        proof {
            lemma_pow10_pos(steps as nat);
            vstd::arithmetic::div_mod::lemma_div_pos_is_pos(am, pow10(steps as nat));
            assert(pow10(1) == 10) by {
                reveal_with_fuel(pow10, 2);
            }
            lemma_pow10_mono(1, steps as nat);
            vstd::arithmetic::div_mod::lemma_div_is_ordered_by_denominator(
                am,
                10,
                pow10(steps as nat),
            );
            vstd::arithmetic::div_mod::lemma_div_is_ordered(am, 0x8000_0000_0000_0000, 10);
            assert(0x8000_0000_0000_0000int / 10 == 922337203685477580);
            if -e > 20 {
                lemma_pow10_twenty();
                lemma_pow10_mono(20, (-e) as nat);
                vstd::arithmetic::div_mod::lemma_basic_div(am, pow10(20));
                vstd::arithmetic::div_mod::lemma_basic_div(am, pow10((-e) as nat));
            }
        }
        if m.raw < 0 {
            Fx { raw: -(mag as i64) }
        } else {
            Fx { raw: mag as i64 }
        }
    }
}

/// Parse a signed decimal number onto the Q16.16 grid, with an optional
/// power-of-ten suffix: the exact relation of [`parse_fx_spec`].
pub fn parse_fx_bytes(s: &[u8]) -> (r: Option<Fx>)
    ensures
        (r matches Option::Some(f) ==> parse_fx_spec(s@) == Option::Some(f.raw as int)),
        (r is None ==> parse_fx_spec(s@) is None),
{
    let mut i: usize = 0;
    while i < s.len() && s[i] != 101 && s[i] != 69
        invariant
            0 <= i <= s@.len(),
            forall|k: int| 0 <= k < i ==> s@[k] != 101 && s@[k] != 69,
        decreases s.len() - i,
    {
        i = i + 1;
    }
    let has_exp = i < s.len();
    proof {
        lemma_find_exp_at(s@, i as int);
    }
    if !has_exp {
        parse_mantissa_bytes(s)
    } else {
        let mant = vstd::slice::slice_subrange(s, 0, i);
        let m = match parse_mantissa_bytes(mant) {
            Option::Some(f) => f,
            Option::None => {
                return Option::None;
            },
        };
        let etext = vstd::slice::slice_subrange(s, i + 1, s.len());
        match parse_exp_bytes(etext) {
            Option::Some(ec) => {
                let ghost e: int = parse_exp_spec(etext@)->Some_0;
                Option::Some(apply_exponent(m, ec, Ghost(e)))
            },
            Option::None => Option::None,
        }
    }
}

/// One of the words that switch an optional feature off.
pub open spec fn disable_word(s: Seq<u8>) -> bool {
    s == seq![100u8, 105u8, 115u8, 97u8, 98u8, 108u8, 101u8] || s == seq![110u8, 111u8, 110u8, 101u8]
        || s == seq![110u8, 111u8] || s == seq![111u8, 102u8, 102u8]
}

/// An optional value: a disable word, a number, or a rejection.
pub open spec fn parse_or_disable_spec(s: Seq<u8>) -> Option<Option<int>> {
    if disable_word(s) {
        Option::Some(Option::None)
    } else {
        match parse_fx_spec(s) {
            Option::Some(v) => Option::Some(Option::Some(v)),
            Option::None => Option::None,
        }
    }
}

/// The mathematical reading of an optional-value parse result.
pub open spec fn opt_result_view(r: Result<Option<Fx>, ParseError>) -> Option<Option<int>> {
    match r {
        Result::Ok(Option::None) => Option::Some(Option::None),
        Result::Ok(Option::Some(f)) => Option::Some(Option::Some(f.raw as int)),
        Result::Err(_) => Option::None,
    }
}

/// Whether the text is one of the disable words.
fn is_disable_word(s: &[u8]) -> (r: bool)
    ensures
        r == disable_word(s@),
{
    let w1: &[u8] = &[100u8, 105u8, 115u8, 97u8, 98u8, 108u8, 101u8];
    let w2: &[u8] = &[110u8, 111u8, 110u8, 101u8];
    let w3: &[u8] = &[110u8, 111u8];
    let w4: &[u8] = &[111u8, 102u8, 102u8];
    proof {
        assert(w1@ =~= seq![100u8, 105u8, 115u8, 97u8, 98u8, 108u8, 101u8]);
        assert(w2@ =~= seq![110u8, 111u8, 110u8, 101u8]);
        assert(w3@ =~= seq![110u8, 111u8]);
        assert(w4@ =~= seq![111u8, 102u8, 102u8]);
    }
    bytes_eq(s, w1) || bytes_eq(s, w2) || bytes_eq(s, w3) || bytes_eq(s, w4)
}

/// Parse an optional numeric value: the disable words yield `Ok(None)`, a
/// number yields `Ok(Some(..))`, anything else is rejected. The exact
/// relation of [`parse_or_disable_spec`].
pub fn parse_fx_or_disable(s: &[u8]) -> (r: Result<Option<Fx>, ParseError>)
    ensures
        opt_result_view(r) == parse_or_disable_spec(s@),
        (r matches Result::Err(e) ==> e == ParseError::BadNumber),
{
    if is_disable_word(s) {
        Result::Ok(Option::None)
    } else {
        match parse_fx_bytes(s) {
            Option::Some(f) => Result::Ok(Option::Some(f)),
            Option::None => Result::Err(ParseError::BadNumber),
        }
    }
}


/// The non-empty pieces of a split, in order.
pub open spec fn nonempty_pieces(ps: Seq<Seq<u8>>) -> Seq<Seq<u8>>
    decreases ps.len(),
{
    if ps.len() == 0 {
        Seq::empty()
    } else if ps[0].len() > 0 {
        seq![ps[0]] + nonempty_pieces(ps.drop_first())
    } else {
        nonempty_pieces(ps.drop_first())
    }
}

/// The harmonic weight a piece contributes: its parsed value, or zero when
/// it does not parse.
pub open spec fn weight_of(p: Seq<u8>) -> int {
    match parse_fx_spec(p) {
        Option::Some(v) => v,
        Option::None => 0,
    }
}

/// The waveform a specifier names: a three-letter kind, with a ratio in
/// `(0, 1)` for `pul` and a list of weights within the engine's bounds for
/// `har`. Anything else is rejected.
pub open spec fn waveform_spec(s: Seq<u8>) -> Option<crate::wave::WaveSpec> {
    let parts = nonempty_pieces(split_runs(s, |c: u8| is_wave_sep(c)));
    if parts.len() < 1 {
        Option::None
    } else if parts[0] == seq![115u8, 113u8, 117u8] {
        Option::Some(crate::wave::WaveSpec::Square)
    } else if parts[0] == seq![116u8, 114u8, 105u8] {
        Option::Some(crate::wave::WaveSpec::Triangle)
    } else if parts[0] == seq![115u8, 105u8, 110u8] {
        Option::Some(crate::wave::WaveSpec::Sine)
    } else if parts[0] == seq![115u8, 97u8, 119u8] {
        Option::Some(crate::wave::WaveSpec::SawTooth)
    } else if parts[0] == seq![110u8, 111u8, 105u8] {
        Option::Some(crate::wave::WaveSpec::Noise)
    } else if parts[0] == seq![112u8, 117u8, 108u8] {
        if parts.len() >= 2 {
            match parse_fx_spec(parts[1]) {
                Option::Some(v) => if 0 < v < 65536 {
                    Option::Some(crate::wave::WaveSpec::Pulse(v))
                } else {
                    Option::None
                },
                Option::None => Option::None,
            }
        } else {
            Option::None
        }
    } else if parts[0] == seq![104u8, 97u8, 114u8] {
        if 2 <= parts.len() && parts.len() - 1 <= 4096 {
            let ws = Seq::new((parts.len() - 1) as nat, |i: int| weight_of(parts[i + 1]));
            if forall|i: int| 0 <= i < ws.len() ==> 0 <= #[trigger] ws[i] <= 0x1_0000_0000 {
                Option::Some(crate::wave::WaveSpec::Harmonics(ws))
            } else {
                Option::None
            }
        } else {
            Option::None
        }
    } else {
        Option::None
    }
}

/// Parse a waveform specifier: the exact relation of [`waveform_spec`].
pub fn waveform_parse(s: &[u8]) -> (r: Result<crate::wave::WaveForm, ParseError>)
    ensures
        (r matches Result::Ok(w) ==> waveform_spec(s@) == Option::Some(w@)),
        (r matches Result::Err(e) ==> (waveform_spec(s@) is None
            && e == ParseError::BadWaveForm)),
{
    let ghost full: Seq<Seq<u8>> = split_runs(s@, |c: u8| is_wave_sep(c));
    let pieces = split_wave_parts(s);
    let mut parts: Vec<Vec<u8>> = Vec::new();
    let mut i: usize = 0;
    proof {
        assert(full.subrange(0, full.len() as int) =~= full);
        assert(piece_views(parts@) =~= Seq::<Seq<u8>>::empty());
        assert(piece_views(parts@) + nonempty_pieces(full.subrange(0, full.len() as int))
            =~= nonempty_pieces(full));
    }
    while i < pieces.len()
        invariant
            i <= pieces.len(),
            piece_views(pieces@) == full,
            nonempty_pieces(full) == piece_views(parts@) + nonempty_pieces(
                full.subrange(i as int, full.len() as int),
            ),
        decreases pieces.len() - i,
    {
        let ghost suffix = full.subrange(i as int, full.len() as int);
        proof {
            assert(suffix[0] == full[i as int]);
            assert(suffix.drop_first() =~= full.subrange(i as int + 1, full.len() as int));
            assert(full[i as int] == pieces@[i as int]@);
        }
        if pieces[i].len() > 0 {
            let p = clone_bytes(&pieces[i]);
            parts.push(p);
            proof {
                assert(piece_views(parts@) =~= piece_views(parts@.drop_last()).push(
                    pieces@[i as int]@,
                ));
                assert(piece_views(parts@.drop_last()).push(pieces@[i as int]@) + nonempty_pieces(
                    full.subrange(i as int + 1, full.len() as int),
                ) =~= piece_views(parts@.drop_last()) + (seq![pieces@[i as int]@]
                    + nonempty_pieces(full.subrange(i as int + 1, full.len() as int))));
            }
        }
        i = i + 1;
    }
    proof {
        assert(full.subrange(full.len() as int, full.len() as int) =~= Seq::<Seq<u8>>::empty());
        assert(piece_views(parts@) + Seq::<Seq<u8>>::empty() =~= piece_views(parts@));
        assert(piece_views(parts@) == nonempty_pieces(full));
    }
    let ghost pv: Seq<Seq<u8>> = piece_views(parts@);
    if parts.len() < 1 {
        return Result::Err(ParseError::BadWaveForm);
    }
    let kw_squ: &[u8] = &[115u8, 113u8, 117u8];
    let kw_tri: &[u8] = &[116u8, 114u8, 105u8];
    let kw_sin: &[u8] = &[115u8, 105u8, 110u8];
    let kw_saw: &[u8] = &[115u8, 97u8, 119u8];
    let kw_noi: &[u8] = &[110u8, 111u8, 105u8];
    let kw_pul: &[u8] = &[112u8, 117u8, 108u8];
    let kw_har: &[u8] = &[104u8, 97u8, 114u8];
    proof {
        assert(kw_squ@ =~= seq![115u8, 113u8, 117u8]);
        assert(kw_tri@ =~= seq![116u8, 114u8, 105u8]);
        assert(kw_sin@ =~= seq![115u8, 105u8, 110u8]);
        assert(kw_saw@ =~= seq![115u8, 97u8, 119u8]);
        assert(kw_noi@ =~= seq![110u8, 111u8, 105u8]);
        assert(kw_pul@ =~= seq![112u8, 117u8, 108u8]);
        assert(kw_har@ =~= seq![104u8, 97u8, 114u8]);
    }
    let head = &parts[0];
    if bytes_eq(head.as_slice(), kw_squ) {
        Result::Ok(crate::wave::WaveForm::Square)
    } else if bytes_eq(head.as_slice(), kw_tri) {
        Result::Ok(crate::wave::WaveForm::Triangle)
    } else if bytes_eq(head.as_slice(), kw_sin) {
        Result::Ok(crate::wave::WaveForm::Sine)
    } else if bytes_eq(head.as_slice(), kw_saw) {
        Result::Ok(crate::wave::WaveForm::SawTooth)
    } else if bytes_eq(head.as_slice(), kw_noi) {
        Result::Ok(crate::wave::WaveForm::Noise)
    } else if bytes_eq(head.as_slice(), kw_pul) {
        if parts.len() < 2 {
            return Result::Err(ParseError::BadWaveForm);
        }
        match parse_fx_bytes(parts[1].as_slice()) {
            Option::Some(v) => {
                if 0 < v.raw && v.raw < 65536 {
                    Result::Ok(crate::wave::WaveForm::Pulse(v))
                } else {
                    Result::Err(ParseError::BadWaveForm)
                }
            },
            Option::None => Result::Err(ParseError::BadWaveForm),
        }
    } else if bytes_eq(head.as_slice(), kw_har) {
        if parts.len() < 2 || parts.len() - 1 > 4096 {
            return Result::Err(ParseError::BadWaveForm);
        }
        let ghost ws: Seq<int> = Seq::new((pv.len() - 1) as nat, |k: int| weight_of(pv[k + 1]));
        let mut weights: Vec<Fx> = Vec::new();
        let mut j: usize = 1;
        proof {
            assert(weights@.map_values(|w: Fx| w.raw as int) =~= ws.subrange(0, 0));
        }
        while j < parts.len()
            invariant
                1 <= j <= parts.len(),
                pv == piece_views(parts@),
                pv == nonempty_pieces(split_runs(s@, |c: u8| is_wave_sep(c))),
                pv[0] == seq![104u8, 97u8, 114u8],
                2 <= parts@.len(),
                parts@.len() - 1 <= 4096,
                ws == Seq::new((pv.len() - 1) as nat, |k: int| weight_of(pv[k + 1])),
                weights@.map_values(|w: Fx| w.raw as int) == ws.subrange(0, j - 1),
                forall|k: int| 0 <= k < j - 1 ==> 0 <= #[trigger] ws[k] <= 0x1_0000_0000,
            decreases parts.len() - j,
        {
            let w: Fx = match parse_fx_bytes(parts[j].as_slice()) {
                Option::Some(f) => f,
                Option::None => Fx { raw: 0 },
            };
            proof {
                assert(pv[j as int] == parts@[j as int]@);
                assert(ws[j - 1] == weight_of(pv[j as int]));
                assert(w.raw as int == ws[j - 1]);
            }
            if w.raw < 0 || w.raw > 0x1_0000_0000 {
                proof {
                    assert(0 <= j - 1 < ws.len());
                    assert(ws[j - 1] == weight_of(pv[j as int]));
                    assert(!(0 <= ws[j - 1] <= 0x1_0000_0000));
                    assert(pv[0] == parts@[0]@);
                    let sparts = nonempty_pieces(split_runs(s@, |c: u8| is_wave_sep(c)));
                    assert(sparts == pv);
                    let specws = Seq::new(
                        (sparts.len() - 1) as nat,
                        |i: int| weight_of(sparts[i + 1]),
                    );
                    assert(specws[j - 1] == weight_of(sparts[j as int]));
                    assert(!(0 <= specws[j - 1] <= 0x1_0000_0000));
                    assert(waveform_spec(s@) is None);
                }
                return Result::Err(ParseError::BadWaveForm);
            }
            let ghost wpre: Seq<Fx> = weights@;
            weights.push(w);
            proof {
                assert(weights@ == wpre.push(w));
                assert(wpre.push(w).map_values(|x: Fx| x.raw as int) =~= wpre.map_values(
                    |x: Fx| x.raw as int,
                ).push(w.raw as int));
                assert(ws.subrange(0, j as int) =~= ws.subrange(0, j - 1).push(ws[j - 1]));
                assert(weights@.map_values(|x: Fx| x.raw as int) =~= ws.subrange(0, j as int));
            }
            j = j + 1;
        }
        proof {
            assert(ws.subrange(0, ws.len() as int) =~= ws);
            assert(weights@.map_values(|x: Fx| x.raw as int) == ws);
        }
        Result::Ok(crate::wave::WaveForm::Harmonics(weights))
    } else {
        Result::Err(ParseError::BadWaveForm)
    }
}

/// A copy of a byte list.
fn clone_bytes(v: &Vec<u8>) -> (r: Vec<u8>)
    ensures
        r@ == v@,
{
    let r = v.clone();
    proof {
        assert(r@ =~= v@);
    }
    r
}

} // verus!
