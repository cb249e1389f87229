//! The voice database: parsing of the `.voice` binary format and lookup
//! tables for segments, phonemes and the wavetable memory.

use vstd::prelude::*;
use vstd::utf8::{decode_utf8, valid_utf8};
use crate::text::{
    chars_eq, chars_of, copy_range, string_of, first_index_of, lemma_first_index_of, lemma_first_index_of_absent,
};

verus! {

/// The magic word that starts every voice file: `ODDVOICES` and three NULs.
pub open spec fn voice_magic() -> Seq<u8> {
    seq![79u8, 68u8, 68u8, 86u8, 79u8, 73u8, 67u8, 69u8, 83u8, 0u8, 0u8, 0u8]
}

/// The unsigned value of the four little-endian bytes at `pos`.
pub open spec fn le_u32_at(b: Seq<u8>, pos: int) -> int {
    b[pos] as int + 256 * (b[pos + 1] as int) + 65536 * (b[pos + 2] as int) + 16777216 * (
    b[pos + 3] as int)
}

/// The two's-complement `i32` stored little-endian at `pos`.
pub open spec fn le_i32_at(b: Seq<u8>, pos: int) -> i32 {
    let u = le_u32_at(b, pos);
    (if u >= 0x8000_0000 {
        u - 0x1_0000_0000
    } else {
        u
    }) as i32
}

/// The two's-complement `i16` stored little-endian at `pos`.
pub open spec fn le_i16_at(b: Seq<u8>, pos: int) -> i16 {
    let u = b[pos] as int + 256 * (b[pos + 1] as int);
    (if u >= 0x8000 {
        u - 0x1_0000
    } else {
        u
    }) as i16
}

/// The `i32` at `pos`, when four bytes remain there.
pub open spec fn stored_i32(b: Seq<u8>, pos: int) -> Option<i32> {
    if 0 <= pos && pos + 4 <= b.len() {
        Some(le_i32_at(b, pos))
    } else {
        None
    }
}

/// Distance from `pos` to the first NUL byte at or after it, if any.
pub open spec fn nul_distance(b: Seq<u8>, pos: int) -> Option<int>
    decreases b.len() - pos,
{
    if pos < 0 || pos >= b.len() {
        None
    } else if b[pos] == 0 {
        Some(0)
    } else {
        match nul_distance(b, pos + 1) {
            Some(d) => Some(d + 1),
            None => None,
        }
    }
}

/// The NUL-terminated string at `pos` (at most 256 bytes of UTF-8 before
/// its NUL) and the position after its NUL.
pub open spec fn stored_string(b: Seq<u8>, pos: int) -> Option<(Seq<char>, int)> {
    match nul_distance(b, pos) {
        Some(d) => {
            let bytes = b.subrange(pos, pos + d);
            if d <= 256 && valid_utf8(bytes) {
                Some((decode_utf8(bytes), pos + d + 1))
            } else {
                None
            }
        },
        None => None,
    }
}

/// The NUL lies inside the data, after `pos`.
pub proof fn lemma_nul_distance_bounds(b: Seq<u8>, pos: int)
    ensures
        nul_distance(b, pos) matches Some(d) ==> 0 <= d && 0 <= pos && pos + d < b.len() && b[pos + d]
            == 0 && forall|k: int| pos <= k < pos + d ==> b[k] != 0,
    decreases b.len() - pos,
{
    if 0 <= pos < b.len() && b[pos] != 0 {
        lemma_nul_distance_bounds(b, pos + 1);
    }
}

/// Reading a string moves forward, and stays inside the data.
pub proof fn lemma_stored_string_advances(b: Seq<u8>, pos: int)
    ensures
        stored_string(b, pos) matches Some((s, p)) ==> 0 <= pos < p <= b.len(),
{
    lemma_nul_distance_bounds(b, pos);
}

/// The phoneme names stored from `pos` up to the empty name that ends
/// them, and the position after that empty name.
pub open spec fn stored_phonemes(b: Seq<u8>, pos: int) -> Option<(Seq<Seq<char>>, int)>
    decreases b.len() - pos,
{
    match stored_string(b, pos) {
        None => None,
        Some((name, p)) => {
            if name.len() == 0 {
                Some((seq![], p))
            } else {
                proof {
                    lemma_stored_string_advances(b, pos);
                }
                match stored_phonemes(b, p) {
                    None => None,
                    Some((rest, q)) => Some((seq![name] + rest, q)),
                }
            }
        },
    }
}

/// The segment records stored from `pos`: each a name, a frame count and
/// a vowel flag. The second component is the position after the empty name
/// that ends the list, or `None` when the list breaks off; the records are
/// those read completely before that point.
pub open spec fn scan_segments(b: Seq<u8>, pos: int) -> (Seq<(Seq<char>, i32, bool)>, Option<int>)
    decreases b.len() - pos,
{
    match stored_string(b, pos) {
        None => (seq![], None),
        Some((name, p)) => {
            if name.len() == 0 {
                (seq![], Some(p))
            } else {
                match (stored_i32(b, p), stored_i32(b, p + 4)) {
                    (Some(frames), Some(vowel)) => {
                        proof {
                            lemma_stored_string_advances(b, pos);
                        }
                        let (rest, end) = scan_segments(b, p + 8);
                        (seq![(name, frames, vowel != 0)] + rest, end)
                    },
                    _ => (seq![], None),
                }
            }
        },
    }
}

/// The frame counts of segment records.
pub open spec fn frame_counts(recs: Seq<(Seq<char>, i32, bool)>) -> Seq<i32> {
    Seq::new(recs.len(), |k: int| recs[k].1)
}

/// The wavetable offset of segment `k`: the frames of the segments before
/// it, times the grain length.
pub open spec fn segment_start(frames: Seq<i32>, grain_length: int, k: int) -> int
    decreases k,
{
    if k <= 0 {
        0
    } else {
        segment_start(frames, grain_length, k - 1) + frames[k - 1] * grain_length
    }
}

/// Whether `x` fits in an `i32`.
pub open spec fn fits_i32(x: int) -> bool {
    i32::MIN <= x <= i32::MAX
}

/// Some running offset over the segments leaves the range of `i32`.
pub open spec fn offsets_overflow(frames: Seq<i32>, grain_length: int) -> bool {
    exists|j: int|
        0 <= j < frames.len() && !(fits_i32(#[trigger] frames[j] * grain_length) && fits_i32(
            segment_start(frames, grain_length, j + 1),
        ))
}

/// The header of a voice file: sample rate, grain length, the phoneme
/// names and the position where the segment list starts.
pub open spec fn voice_header(b: Seq<u8>) -> Option<(i32, i32, Seq<Seq<char>>, int)> {
    if b.len() < 12 || b.take(12) != voice_magic() {
        None
    } else {
        match (stored_i32(b, 12), stored_i32(b, 16)) {
            (Some(sample_rate), Some(grain_length)) => match stored_phonemes(b, 20) {
                Some((phonemes, p)) => Some((sample_rate, grain_length, phonemes, p)),
                None => None,
            },
            _ => None,
        }
    }
}

/// Loading the data performs arithmetic that leaves the range of `i32`: a
/// running wavetable offset overflows, or the total wavetable length is
/// negative.
pub open spec fn voice_load_overflows(b: Seq<u8>) -> bool {
    match voice_header(b) {
        None => false,
        Some((sample_rate, grain_length, phonemes, p)) => {
            let (recs, end) = scan_segments(b, p);
            let frames = frame_counts(recs);
            offsets_overflow(frames, grain_length as int) || (end is Some && segment_start(
                frames,
                grain_length as int,
                frames.len() as int,
            ) < 0)
        },
    }
}

/// The `n` samples stored at `pos`.
pub open spec fn stored_samples(b: Seq<u8>, pos: int, n: int) -> Seq<i16> {
    Seq::new(n as nat, |k: int| le_i16_at(b, pos + 2 * k))
}

/// What a voice holds.
pub struct VoiceView {
    pub init_started: bool,
    pub init_finished: bool,
    pub sample_rate: i32,
    pub grain_length: i32,
    pub silent_segment_index: i32,
    pub phonemes: Seq<Seq<char>>,
    pub segments: Seq<Seq<char>>,
    pub segments_num_frames: Seq<i32>,
    pub segments_is_vowel: Seq<bool>,
    pub segments_offset: Seq<i32>,
    pub wavetable: Seq<i16>,
}

/// The voice that a well-formed voice file describes: its phonemes and
/// segments followed by the implicit silence `_`, the segment offsets into
/// the wavetable, and the wavetable samples.
pub open spec fn loaded_voice(b: Seq<u8>) -> Option<VoiceView> {
    match voice_header(b) {
        None => None,
        Some((sample_rate, grain_length, phonemes, p)) => {
            let (recs, end) = scan_segments(b, p);
            match end {
                None => None,
                Some(q) => {
                    let n = recs.len() as int;
                    let total = segment_start(frame_counts(recs), grain_length as int, n);
                    if q + 2 * total <= b.len() {
                        Some(
                            VoiceView {
                                init_started: true,
                                init_finished: true,
                                sample_rate,
                                grain_length,
                                silent_segment_index: n as i32,
                                phonemes: phonemes.push(seq!['_']),
                                segments: Seq::new(recs.len(), |k: int| recs[k].0).push(seq!['_']),
                                segments_num_frames: Seq::new(recs.len(), |k: int| recs[k].1).push(
                                    0,
                                ),
                                segments_is_vowel: Seq::new(recs.len(), |k: int| recs[k].2).push(
                                    true,
                                ),
                                segments_offset: Seq::new(
                                    (n + 1) as nat,
                                    |k: int|
                                        segment_start(frame_counts(recs), grain_length as int, k)
                                            as i32,
                                ),
                                wavetable: stored_samples(b, q, total),
                            },
                        )
                    } else {
                        None
                    }
                },
            }
        },
    }
}

/// The samples that a loading attempt reads before it runs out of data,
/// when the segment list is complete but the wavetable is cut short.
pub open spec fn partial_wavetable(b: Seq<u8>) -> Option<Seq<i16>> {
    match voice_header(b) {
        None => None,
        Some((sample_rate, grain_length, phonemes, p)) => {
            let (recs, end) = scan_segments(b, p);
            match end {
                None => None,
                Some(q) => {
                    let total = segment_start(
                        frame_counts(recs),
                        grain_length as int,
                        recs.len() as int,
                    );
                    if q + 2 * total <= b.len() {
                        None
                    } else {
                        Some(stored_samples(b, q, (b.len() - q) / 2))
                    }
                },
            }
        },
    }
}

/// A zero byte at `i`, with none between `pos` and `i`, is the first NUL.
proof fn lemma_nul_distance_found(b: Seq<u8>, pos: int, i: int)
    requires
        0 <= pos <= i < b.len(),
        b[i] == 0,
        forall|k: int| pos <= k < i ==> b[k] != 0,
    ensures
        nul_distance(b, pos) == Some(i - pos),
    decreases i - pos,
{
    if pos < i {
        lemma_nul_distance_found(b, pos + 1, i);
    }
}

/// Decode a little-endian `i32`.
fn i32_from_le(b0: u8, b1: u8, b2: u8, b3: u8) -> (x: i32)
    ensures
        x == le_i32_at(seq![b0, b1, b2, b3], 0),
{
    let u: u32 = b0 as u32 + (b1 as u32) * 256 + (b2 as u32) * 65536 + (b3 as u32) * 16777216;
    if u >= 0x8000_0000 {
        let low = (u - 0x8000_0000) as i32;
        low - 0x7fff_ffff - 1
    } else {
        u as i32
    }
}

/// Decode a little-endian `i16`.
fn i16_from_le(b0: u8, b1: u8) -> (x: i16)
    ensures
        x == le_i16_at(seq![b0, b1], 0),
{
    let u: u16 = b0 as u16 + (b1 as u16) * 256;
    if u >= 0x8000 {
        let low = (u - 0x8000) as i16;
        low - 0x7fff - 1
    } else {
        u as i16
    }
}

/// Read a little-endian `i32` at `pos`.
fn read_i32_le(data: &[u8], pos: usize) -> (r: Option<i32>)
    ensures
        r == stored_i32(data@, pos as int),
{
    if pos <= data.len() && data.len() - pos >= 4 {
        let x = i32_from_le(data[pos], data[pos + 1], data[pos + 2], data[pos + 3]);
        assert(le_i32_at(data@, pos as int) == le_i32_at(
            seq![data@[pos as int], data@[pos + 1], data@[pos + 2], data@[pos + 3]],
            0,
        ));
        Some(x)
    } else {
        None
    }
}

/// Calls `String::from_utf8`: the string that `bytes` encode, when they are
/// valid UTF-8.
#[verifier::external_body]
fn utf8_string(bytes: Vec<u8>) -> (r: Option<String>)
    ensures
        r is Some == valid_utf8(bytes@),
        r is Some ==> r->0@ == decode_utf8(bytes@),
{
    String::from_utf8(bytes).ok()
}

/// Read the NUL-terminated string at `pos`; fail at the end of the data,
/// on more than 256 bytes before the NUL, or on invalid UTF-8.
fn read_string(data: &[u8], pos: usize) -> (r: Option<(String, usize)>)
    ensures
        match (r, stored_string(data@, pos as int)) {
            (Some((s, p)), Some((ss, sp))) => s@ == ss && p == sp,
            (None, None) => true,
            _ => false,
        },
{
    proof {
        lemma_nul_distance_bounds(data@, pos as int);
    }
    let mut i: usize = pos;
    loop
        invariant
            pos <= i,
            i - pos <= 256,
            forall|k: int| pos <= k < i ==> data@[k] != 0,
            nul_distance(data@, pos as int) matches Some(d) ==> 0 <= d && pos + d < data@.len()
                && data@[pos + d] == 0 && forall|k: int| pos <= k < pos + d ==> data@[k] != 0,
        ensures
            pos <= i < data.len(),
            i - pos <= 256,
            data@[i as int] == 0,
            forall|k: int| pos <= k < i ==> data@[k] != 0,
        decreases 257 - (i - pos),
    {
        if i >= data.len() {
            return None;
        }
        if data[i] == 0 {
            break;
        }
        if i - pos > 255 {
            return None;
        }
        i = i + 1;
    }
    proof {
        lemma_nul_distance_found(data@, pos as int, i as int);
    }
    let mut bytes: Vec<u8> = Vec::new();
    let mut k: usize = pos;
    while k < i
        invariant
            pos <= k <= i < data.len(),
            bytes@ == data@.subrange(pos as int, k as int),
        decreases i - k,
    {
        bytes.push(data[k]);
        k = k + 1;
        assert(bytes@ =~= data@.subrange(pos as int, k as int));
    }
    match utf8_string(bytes) {
        Some(s) => Some((s, i + 1)),
        None => None,
    }
}

/// The index of the first segment named `name`, as a list of at most one
/// entry.
pub open spec fn found_segment(segments: Seq<Seq<char>>, name: Seq<char>) -> Seq<i32> {
    match first_index_of(segments, name) {
        Some(i) => seq![i as i32],
        None => seq![],
    }
}

/// Diphthongs that end in a `j` glide.
pub open spec fn is_front_diphthong(p: Seq<char>) -> bool {
    p == seq!['a', 'I'] || p == seq!['e', 'I'] || p == seq!['O', 'I']
}

/// Diphthongs that end in a `w` glide.
pub open spec fn is_back_diphthong(p: Seq<char>) -> bool {
    p == seq!['a', 'U'] || p == seq!['o', 'U']
}

/// The segments for phoneme `p1` followed by `p2`: the monophone `p1` if
/// the database has it, then the diphone `p1 p2`; when that diphone is
/// missing, the glide of a diphthong and the transition from silence into
/// `p2` stand in for it.
pub open spec fn phoneme_pair_segments(segments: Seq<Seq<char>>, p1: Seq<char>, p2: Seq<char>) -> Seq<i32> {
    let mono = found_segment(segments, p1);
    match first_index_of(segments, p1 + p2) {
        Some(i) => mono + seq![i as i32],
        None => mono + (if is_front_diphthong(p1) {
            found_segment(segments, p1.push('j'))
        } else {
            seq![]
        }) + (if is_back_diphthong(p1) {
            found_segment(segments, p1.push('w'))
        } else {
            seq![]
        }) + found_segment(segments, seq!['_'] + p2),
    }
}

/// The phoneme after position `i`, or silence after the last one.
pub open spec fn next_phoneme(phonemes: Seq<Seq<char>>, i: int) -> Seq<char> {
    if i + 1 == phonemes.len() {
        seq!['_']
    } else {
        phonemes[i + 1]
    }
}

/// The segments of the first `k` phonemes, before silences are thinned out.
pub open spec fn raw_segments(segments: Seq<Seq<char>>, phonemes: Seq<Seq<char>>, k: int) -> Seq<i32>
    decreases k,
{
    if k <= 0 {
        seq![]
    } else {
        raw_segments(segments, phonemes, k - 1) + phoneme_pair_segments(
            segments,
            phonemes[k - 1],
            next_phoneme(phonemes, k - 1),
        )
    }
}

/// Whether entry `i` of `xs` survives the thinning of silences: a silent
/// segment is dropped at the start, at the end, and right after another.
pub open spec fn keeps_segment(xs: Seq<i32>, i: int, silent: i32) -> bool {
    let x = xs[i];
    let last = if i == 0 {
        -1i32
    } else {
        xs[i - 1]
    };
    !(x == silent && x == last) && !(x == silent && i == 0) && !(x == silent && i == xs.len() - 1)
}

/// The entries among the first `k` of `xs` that survive the thinning.
pub open spec fn thinned_segments(xs: Seq<i32>, silent: i32, k: int) -> Seq<i32>
    decreases k,
{
    if k <= 0 {
        seq![]
    } else {
        thinned_segments(xs, silent, k - 1) + (if keeps_segment(xs, k - 1, silent) {
            seq![xs[k - 1]]
        } else {
            seq![]
        })
    }
}

/// The segment indices for a phoneme sequence.
pub open spec fn phoneme_segments(v: VoiceView, phonemes: Seq<Seq<char>>) -> Seq<i32> {
    let raw = raw_segments(v.segments, phonemes, phonemes.len() as int);
    thinned_segments(raw, v.silent_segment_index, raw.len() as int)
}

/// `names`, `frames` and `vowels` as a list of segment records.
pub open spec fn records_of(names: Seq<Seq<char>>, frames: Seq<i32>, vowels: Seq<bool>) -> Seq<
    (Seq<char>, i32, bool),
> {
    Seq::new(names.len(), |k: int| (names[k], frames[k], vowels[k]))
}

/// Whether the data starts with the voice magic word.
fn has_voice_magic(data: &[u8]) -> (r: bool)
    ensures
        r == (data@.len() >= 12 && data@.take(12) == voice_magic()),
{
    if data.len() < 12 {
        return false;
    }
    let magic: [u8; 12] = [79, 68, 68, 86, 79, 73, 67, 69, 83, 0, 0, 0];
    let mut m: usize = 0;
    while m < 12
        invariant
            0 <= m <= 12,
            data.len() >= 12,
            magic@ == voice_magic(),
            forall|k: int| 0 <= k < m ==> data@[k] == voice_magic()[k],
        decreases 12 - m,
    {
        if data[m] != magic[m] {
            assert(data@.take(12)[m as int] != voice_magic()[m as int]);
            return false;
        }
        m = m + 1;
    }
    assert(data@.take(12) =~= voice_magic());
    true
}

/// The phoneme list ends inside the data.
proof fn lemma_stored_phonemes_bounded(b: Seq<u8>, pos: int)
    ensures
        stored_phonemes(b, pos) matches Some((ph, p)) ==> p <= b.len(),
    decreases b.len() - pos,
{
    lemma_stored_string_advances(b, pos);
    match stored_string(b, pos) {
        Some((name, p)) => {
            if name.len() != 0 {
                lemma_stored_phonemes_bounded(b, p);
            }
        },
        None => {},
    }
}

/// The segment list ends inside the data.
proof fn lemma_scan_segments_bounded(b: Seq<u8>, pos: int)
    ensures
        scan_segments(b, pos).1 matches Some(q) ==> 0 < q <= b.len(),
    decreases b.len() - pos,
{
    lemma_stored_string_advances(b, pos);
    match stored_string(b, pos) {
        Some((name, p)) => {
            if name.len() != 0 && stored_i32(b, p) is Some && stored_i32(b, p + 4) is Some {
                lemma_scan_segments_bounded(b, p + 8);
            }
        },
        None => {},
    }
}

/// Read the phoneme names from `start` up to the empty name that ends them.
fn read_phoneme_list(data: &[u8], start: usize) -> (r: Option<(Vec<String>, usize)>)
    requires
        start <= data.len(),
    ensures
        match (r, stored_phonemes(data@, start as int)) {
            (Some((v, p)), Some((sv, sp))) => v.deep_view() == sv && p == sp,
            (None, None) => true,
            _ => false,
        },
{
    let ghost b = data@;
    let mut names: Vec<String> = Vec::new();
    let mut pos = start;
    loop
        invariant
            b == data@,
            start <= pos <= data.len(),
            stored_phonemes(b, start as int) == match stored_phonemes(b, pos as int) {
                Some((rest, q)) => Some((names.deep_view() + rest, q)),
                None => None,
            },
        decreases data.len() - pos,
    {
        proof {
            lemma_stored_string_advances(b, pos as int);
        }
        let ghost acc0 = names.deep_view();
        match read_string(data, pos) {
            None => {
                return None;
            },
            Some((name, p)) => {
                if name.as_str().is_empty() {
                    assert(acc0 + seq![] =~= acc0);
                    return Some((names, p));
                }
                names.push(name);
                pos = p;
                proof {
                    assert(names.deep_view() =~= acc0.push(name@));
                    match stored_phonemes(b, pos as int) {
                        Some((rest, q)) => {
                            assert(acc0 + (seq![name@] + rest) =~= names.deep_view() + rest);
                        },
                        None => {},
                    }
                }
            },
        }
    }
}

/// Read the segment records from `start` up to the empty name that ends
/// them. The position after that name is `None` when the list breaks off;
/// the records are then those read completely before the break.
fn read_segment_list(data: &[u8], start: usize) -> (r: (Vec<String>, Vec<i32>, Vec<bool>, Option<usize>))
    requires
        start <= data.len(),
    ensures
        r.0.len() == r.1.len(),
        r.0.len() == r.2.len(),
        scan_segments(data@, start as int).0 == records_of(r.0.deep_view(), r.1@, r.2@),
        scan_segments(data@, start as int).1 == match r.3 {
            Some(q) => Some(q as int),
            None => None,
        },
{
    let ghost b = data@;
    let mut names: Vec<String> = Vec::new();
    let mut frames: Vec<i32> = Vec::new();
    let mut vowels: Vec<bool> = Vec::new();
    let mut pos = start;
    loop
        invariant
            b == data@,
            start <= pos <= data.len(),
            names.len() == frames.len(),
            names.len() == vowels.len(),
            scan_segments(b, start as int).0 == records_of(names.deep_view(), frames@, vowels@)
                + scan_segments(b, pos as int).0,
            scan_segments(b, start as int).1 == scan_segments(b, pos as int).1,
        decreases data.len() - pos,
    {
        proof {
            lemma_stored_string_advances(b, pos as int);
        }
        let ghost acc0 = records_of(names.deep_view(), frames@, vowels@);
        let (name, p) = match read_string(data, pos) {
            None => {
                assert(acc0 + seq![] =~= acc0);
                return (names, frames, vowels, None);
            },
            Some(x) => x,
        };
        if name.as_str().is_empty() {
            assert(acc0 + seq![] =~= acc0);
            return (names, frames, vowels, Some(p));
        }
        let f = match read_i32_le(data, p) {
            Some(x) => x,
            None => {
                assert(acc0 + seq![] =~= acc0);
                return (names, frames, vowels, None);
            },
        };
        let v = match read_i32_le(data, p + 4) {
            Some(x) => x,
            None => {
                assert(acc0 + seq![] =~= acc0);
                return (names, frames, vowels, None);
            },
        };
        names.push(name);
        frames.push(f);
        vowels.push(v != 0);
        pos = p + 8;
        proof {
            let rest = scan_segments(b, pos as int);
            assert(records_of(names.deep_view(), frames@, vowels@) =~= acc0.push((name@, f, v != 0)));
            assert(acc0 + (seq![(name@, f, v != 0)] + rest.0) =~= records_of(
                names.deep_view(),
                frames@,
                vowels@,
            ) + rest.0);
        }
    }
}

/// The running wavetable offsets of the segments and their total.
fn segment_offsets(frames: &Vec<i32>, grain_length: i32) -> (r: (Vec<i32>, i32))
    requires
        !offsets_overflow(frames@, grain_length as int),
    ensures
        r.0@ == Seq::new(frames.len() as nat, |k: int| segment_start(frames@, grain_length as int, k) as i32),
        r.1 == segment_start(frames@, grain_length as int, frames.len() as int),
{
    let ghost gl = grain_length as int;
    let mut offsets: Vec<i32> = Vec::new();
    let mut offset: i32 = 0;
    let mut j: usize = 0;
    while j < frames.len()
        invariant
            0 <= j <= frames.len(),
            gl == grain_length as int,
            !offsets_overflow(frames@, gl),
            offset == segment_start(frames@, gl, j as int),
            offsets@ == Seq::new(j as nat, |k: int| segment_start(frames@, gl, k) as i32),
        decreases frames.len() - j,
    {
        assert(fits_i32(frames@[j as int] * gl) && fits_i32(segment_start(frames@, gl, j + 1)));
        let size = frames[j] * grain_length;
        offsets.push(offset);
        offset = offset + size;
        j = j + 1;
        assert(offsets@ =~= Seq::new(j as nat, |k: int| segment_start(frames@, gl, k) as i32));
    }
    (offsets, offset)
}

/// Read `total` samples from `start`; the flag tells whether all were there.
fn read_samples(data: &[u8], start: usize, total: usize) -> (r: (Vec<i16>, bool))
    requires
        start <= data.len(),
    ensures
        r.1 == (start + 2 * total <= data.len()),
        r.1 ==> r.0@ == stored_samples(data@, start as int, total as int),
        !r.1 ==> r.0@ == stored_samples(data@, start as int, (data.len() - start) / 2),
{
    let ghost b = data@;
    let mut samples: Vec<i16> = Vec::new();
    let mut pos: usize = start;
    let mut k: usize = 0;
    while k < total
        invariant
            b == data@,
            start <= pos <= data.len(),
            pos == start + 2 * k,
            0 <= k <= total,
            samples@ == stored_samples(b, start as int, k as int),
        decreases total - k,
    {
        if data.len() - pos < 2 {
            assert(k == (b.len() - start) / 2);
            return (samples, false);
        }
        let x = i16_from_le(data[pos], data[pos + 1]);
        assert(le_i16_at(b, pos as int) == le_i16_at(seq![b[pos as int], b[pos + 1]], 0));
        samples.push(x);
        pos = pos + 2;
        k = k + 1;
        assert(samples@ =~= stored_samples(b, start as int, k as int));
    }
    (samples, true)
}

/// An OddVoices model: a database of wavetable memory and metadata.
///
/// Once initialized with `init_from_bytes`, the voice is read-only.
pub struct Voice {
    has_init_started: bool,
    has_init_finished: bool,
    sample_rate: i32,
    grain_length: i32,
    silent_segment_index: i32,
    phonemes: Vec<String>,
    segments: Vec<String>,
    segments_num_frames: Vec<i32>,
    segments_is_vowel: Vec<bool>,
    segments_offset: Vec<i32>,
    wavetable_memory: Vec<i16>,
}

impl View for Voice {
    type V = VoiceView;

    closed spec fn view(&self) -> VoiceView {
        VoiceView {
            init_started: self.has_init_started,
            init_finished: self.has_init_finished,
            sample_rate: self.sample_rate,
            grain_length: self.grain_length,
            silent_segment_index: self.silent_segment_index,
            phonemes: self.phonemes.deep_view(),
            segments: self.segments.deep_view(),
            segments_num_frames: self.segments_num_frames@,
            segments_is_vowel: self.segments_is_vowel@,
            segments_offset: self.segments_offset@,
            wavetable: self.wavetable_memory@,
        }
    }
}

/// The view of a voice that holds nothing yet.
pub open spec fn empty_voice() -> VoiceView {
    VoiceView {
        init_started: false,
        init_finished: false,
        sample_rate: 0,
        grain_length: 0,
        silent_segment_index: 0,
        phonemes: seq![],
        segments: seq![],
        segments_num_frames: seq![],
        segments_is_vowel: seq![],
        segments_offset: seq![],
        wavetable: seq![],
    }
}

/// The voice `v` after loading the data `b`: unchanged once initialization
/// has started or finished; otherwise the voice that `b` describes, or `v`
/// with the samples read before the data ran out, or `v` itself.
pub open spec fn voice_after_load(v: VoiceView, b: Seq<u8>) -> VoiceView {
    if v.init_started || v.init_finished {
        v
    } else {
        match loaded_voice(b) {
            Some(w) => w,
            None => match partial_wavetable(b) {
                Some(samples) => VoiceView { wavetable: samples, ..v },
                None => v,
            },
        }
    }
}

/// Position of the first name in `names` equal to `target`.
fn position_of(names: &Vec<String>, target: &[char]) -> (r: Option<usize>)
    ensures
        match r {
            Some(i) => first_index_of(names.deep_view(), target@) == Some(i as int),
            None => first_index_of(names.deep_view(), target@) is None,
        },
{
    let ghost v = names.deep_view();
    let mut i: usize = 0;
    while i < names.len()
        invariant
            0 <= i <= names.len(),
            v == names.deep_view(),
            forall|k: int| 0 <= k < i ==> v[k] != target@,
        decreases names.len() - i,
    {
        let name = chars_of(names[i].as_str());
        if chars_eq(&name, target) {
            proof {
                lemma_first_index_of(v, target@, i as int);
            }
            return Some(i);
        }
        i = i + 1;
    }
    proof {
        lemma_first_index_of_absent(v, target@);
    }
    None
}

impl Voice {
    /// Create a new uninitialized voice.
    pub fn new() -> (v: Self)
        ensures
            v@ == empty_voice(),
    {
        let v = Voice {
            has_init_started: false,
            has_init_finished: false,
            sample_rate: 0,
            grain_length: 0,
            silent_segment_index: 0,
            phonemes: Vec::new(),
            segments: Vec::new(),
            segments_num_frames: Vec::new(),
            segments_is_vowel: Vec::new(),
            segments_offset: Vec::new(),
            wavetable_memory: Vec::new(),
        };
        assert(v@.phonemes =~= seq![]);
        assert(v@.segments =~= seq![]);
        v
    }

    /// Return true if initialization of this voice has started, and it cannot be
    /// initialized again.
    pub fn has_init_started(&self) -> (b: bool)
        ensures
            b == self@.init_started,
    {
        self.has_init_started
    }

    /// Return true if initialization of this voice has completed, and it is safe
    /// to play a synth from it.
    pub fn has_init_finished(&self) -> (b: bool)
        ensures
            b == self@.init_finished,
    {
        self.has_init_finished
    }

    /// Return the sample rate of the voice's wavetable memory.
    pub fn sample_rate(&self) -> (r: i32)
        ensures
            r == self@.sample_rate,
    {
        self.sample_rate
    }

    /// Return the length in samples of each grain in wavetable memory.
    pub fn grain_length(&self) -> (r: i32)
        ensures
            r == self@.grain_length,
    {
        self.grain_length
    }

    /// Return a reference to the wavetable memory.
    pub fn wavetable_memory(&self) -> (r: &[i16])
        ensures
            r@ == self@.wavetable,
    {
        self.wavetable_memory.as_slice()
    }

    /// Return the number of phonemes.
    pub fn num_phonemes(&self) -> (n: usize)
        ensures
            n == self@.phonemes.len(),
    {
        self.phonemes.len()
    }

    /// Given a phoneme name, return the index of its first occurrence, or
    /// `None` if it is not present.
    pub fn phoneme_to_phoneme_index(&self, phoneme: &str) -> (r: Option<usize>)
        ensures
            match r {
                Some(i) => first_index_of(self@.phonemes, phoneme@) == Some(i as int),
                None => first_index_of(self@.phonemes, phoneme@) is None,
            },
    {
        let target = chars_of(phoneme);
        position_of(&self.phonemes, &target)
    }

    /// Given a phoneme index, return its name.
    pub fn phoneme_index_to_phoneme(&self, index: usize) -> (r: Option<&str>)
        ensures
            r is Some == (index < self@.phonemes.len()),
            r is Some ==> r->0@ == self@.phonemes[index as int],
    {
        if index < self.phonemes.len() {
            Some(self.phonemes[index].as_str())
        } else {
            None
        }
    }

    /// Return the number of segments in the voice.
    pub fn num_segments(&self) -> (n: usize)
        ensures
            n == self@.segments.len(),
    {
        self.segments.len()
    }

    /// Given a segment name, return the index of its first occurrence, or
    /// `None` if it is not present.
    pub fn segment_to_segment_index(&self, segment: &str) -> (r: Option<usize>)
        ensures
            match r {
                Some(i) => first_index_of(self@.segments, segment@) == Some(i as int),
                None => first_index_of(self@.segments, segment@) is None,
            },
    {
        let target = chars_of(segment);
        position_of(&self.segments, &target)
    }

    /// Given a segment index, return its name.
    pub fn segment_index_to_segment(&self, index: usize) -> (r: Option<&str>)
        ensures
            r is Some == (index < self@.segments.len()),
            r is Some ==> r->0@ == self@.segments[index as int],
    {
        if index < self.segments.len() {
            Some(self.segments[index].as_str())
        } else {
            None
        }
    }

    /// Given a segment index, return its number of frames (aka grains); 0
    /// for an index out of range.
    pub fn segment_num_frames(&self, index: usize) -> (r: i32)
        ensures
            r == (if index < self@.segments_num_frames.len() {
                self@.segments_num_frames[index as int]
            } else {
                0
            }),
    {
        if index >= self.segments_num_frames.len() {
            return 0;
        }
        self.segments_num_frames[index]
    }

    /// Return true if the segment is a vowel monophone; false for an index
    /// out of range.
    pub fn segment_is_vowel(&self, index: usize) -> (r: bool)
        ensures
            r == (index < self@.segments_is_vowel.len() && self@.segments_is_vowel[index as int]),
    {
        if index >= self.segments_is_vowel.len() {
            return false;
        }
        self.segments_is_vowel[index]
    }

    /// Return the offset of the segment into the wavetable memory; 0 for an
    /// index out of range.
    pub fn segment_offset(&self, index: usize) -> (r: i32)
        ensures
            r == (if index < self@.segments_offset.len() {
                self@.segments_offset[index as int]
            } else {
                0
            }),
    {
        if index >= self.segments_offset.len() {
            return 0;
        }
        self.segments_offset[index]
    }

    /// Initialize the voice from the contents of a `.voice` file (see
    /// `voice_after_load`). Do nothing if the voice has already been
    /// initialized, whatever the data hold. When the data is not a complete
    /// voice file the voice stays uninitialized; if the segment list is
    /// complete but the wavetable is cut short, the samples read so far are
    /// kept as the wavetable memory. For a voice not yet initialized, data
    /// whose wavetable offsets overflow `i32` are excluded (see
    /// `voice_load_overflows`).
    pub fn init_from_bytes(&mut self, data: &[u8])
        requires
            !(old(self)@.init_started || old(self)@.init_finished) ==> !voice_load_overflows(data@),
        ensures
            final(self)@ == voice_after_load(old(self)@, data@),
    {
        if self.has_init_started || self.has_init_finished {
            return;
        }
        let ghost b = data@;
        if !has_voice_magic(data) {
            return;
        }
        let sample_rate = match read_i32_le(data, 12) {
            Some(x) => x,
            None => {
                return;
            },
        };
        let grain_length = match read_i32_le(data, 16) {
            Some(x) => x,
            None => {
                return;
            },
        };
        let (mut phonemes, seg_start) = match read_phoneme_list(data, 20) {
            Some(x) => x,
            None => {
                return;
            },
        };
        let ghost header_phonemes = phonemes.deep_view();
        assert(voice_header(b) == Some((sample_rate, grain_length, header_phonemes, seg_start as int)));
        proof {
            lemma_stored_phonemes_bounded(b, 20);
        }
        let (mut segments, mut segments_num_frames, mut segments_is_vowel, end) = read_segment_list(
            data,
            seg_start,
        );
        let wave_start = match end {
            Some(q) => q,
            None => {
                return;
            },
        };
        let ghost recs = scan_segments(b, seg_start as int).0;
        assert(frame_counts(recs) =~= segments_num_frames@);
        let (mut segments_offset, total) = segment_offsets(&segments_num_frames, grain_length);
        let silent_segment_index = segments.len() as i32;
        proof {
            lemma_scan_segments_bounded(b, seg_start as int);
        }
        let (wavetable, complete) = read_samples(data, wave_start, total as usize);
        if !complete {
            self.wavetable_memory = wavetable;
            return;
        }
        let ghost ph0 = phonemes.deep_view();
        let ghost names0 = segments.deep_view();
        let u1 = string_of(&['_']);
        let u2 = string_of(&['_']);
        assert(u1@ =~= seq!['_']);
        assert(u2@ =~= seq!['_']);
        phonemes.push(u1);
        segments.push(u2);
        assert(phonemes.deep_view() =~= ph0.push(seq!['_']));
        assert(segments.deep_view() =~= names0.push(seq!['_']));
        assert(Seq::new(recs.len(), |k: int| recs[k].0) =~= names0);
        segments_num_frames.push(0);
        segments_is_vowel.push(true);
        segments_offset.push(total);
        self.sample_rate = sample_rate;
        self.grain_length = grain_length;
        self.silent_segment_index = silent_segment_index;
        self.phonemes = phonemes;
        self.segments = segments;
        self.segments_num_frames = segments_num_frames;
        self.segments_is_vowel = segments_is_vowel;
        self.segments_offset = segments_offset;
        self.wavetable_memory = wavetable;
        self.has_init_started = true;
        self.has_init_finished = true;
        proof {
            let v = loaded_voice(b)->0;
            assert(self@.phonemes =~= v.phonemes);
            assert(self@.segments =~= v.segments);
            assert(self@.segments_num_frames =~= v.segments_num_frames);
            assert(self@.segments_is_vowel =~= v.segments_is_vowel);
            assert(self@.segments_offset =~= v.segments_offset);
        }
    }

    /// Whether loading `data` would take a wavetable offset out of the range
    /// of `i32` (the data that `init_from_bytes` excludes).
    pub fn load_would_overflow(data: &[u8]) -> (r: bool)
        ensures
            r == voice_load_overflows(data@),
    {
        let ghost b = data@;
        if !has_voice_magic(data) {
            return false;
        }
        let (sample_rate, grain_length) = match (read_i32_le(data, 12), read_i32_le(data, 16)) {
            (Some(s), Some(g)) => (s, g),
            _ => {
                return false;
            },
        };
        let (phonemes, seg_start) = match read_phoneme_list(data, 20) {
            Some(x) => x,
            None => {
                return false;
            },
        };
        assert(voice_header(b) == Some((sample_rate, grain_length, phonemes.deep_view(), seg_start as int)));
        proof {
            lemma_stored_phonemes_bounded(b, 20);
        }
        let (_, frames, _, end) = read_segment_list(data, seg_start);
        let ghost gl = grain_length as int;
        let ghost recs = scan_segments(b, seg_start as int).0;
        assert(frame_counts(recs) =~= frames@);
        let mut offset: i64 = 0;
        let mut j: usize = 0;
        while j < frames.len()
            invariant
                0 <= j <= frames.len(),
                gl == grain_length as int,
                b == data@,
                recs == scan_segments(b, seg_start as int).0,
                frame_counts(recs) == frames@,
                voice_header(b) == Some((sample_rate, grain_length, phonemes.deep_view(), seg_start as int)),
                offset == segment_start(frames@, gl, j as int),
                fits_i32(offset as int),
                forall|k: int|
                    0 <= k < j ==> fits_i32(#[trigger] frames@[k] * gl) && fits_i32(
                        segment_start(frames@, gl, k + 1),
                    ),
            decreases frames.len() - j,
        {
            let f = frames[j];
            assert(-0x4000_0000_0000_0000 <= (f as int) * (grain_length as int) <= 0x4000_0000_0000_0000)
                by (nonlinear_arith)
                requires
                    i32::MIN <= f <= i32::MAX,
                    i32::MIN <= grain_length <= i32::MAX,
            ;
            let size = f as i64 * grain_length as i64;
            if size < i32::MIN as i64 || size > i32::MAX as i64 {
                assert(!fits_i32(frames@[j as int] * gl));
                assert(offsets_overflow(frames@, gl));
                assert(offsets_overflow(frame_counts(recs), gl));
                return true;
            }
            let next = offset + size;
            if next < i32::MIN as i64 || next > i32::MAX as i64 {
                assert(!fits_i32(segment_start(frames@, gl, j + 1)));
                assert(!(fits_i32(frames@[j as int] * gl) && fits_i32(segment_start(frames@, gl, j + 1))));
                assert(offsets_overflow(frames@, gl));
                assert(offsets_overflow(frame_counts(recs), gl));
                return true;
            }
            offset = next;
            j = j + 1;
        }
        end.is_some() && offset < 0
    }

    /// The segment indices for the segment named `name`, as a list of at
    /// most one entry.
    fn found_segment(&self, name: &[char], out: &mut Vec<i32>)
        ensures
            final(out)@ == old(out)@ + found_segment(self@.segments, name@),
    {
        match position_of(&self.segments, name) {
            Some(i) => {
                out.push(i as i32);
            },
            None => {},
        }
        assert(final(out)@ =~= old(out)@ + found_segment(self@.segments, name@));
    }

    /// Append the segments for phoneme `phoneme1` followed by `phoneme2`.
    fn append_pair_segments(&self, phoneme1: &[char], phoneme2: &[char], out: &mut Vec<i32>)
        ensures
            final(out)@ == old(out)@ + phoneme_pair_segments(self@.segments, phoneme1@, phoneme2@),
    {
        let ghost segs = self@.segments;
        let ghost before = out@;
        let ghost p1 = phoneme1@;
        let ghost p2 = phoneme2@;
        // The monophone, when the database has one.
        self.found_segment(phoneme1, out);
        let ghost after_mono = out@;
        assert(phoneme1@.subrange(0, phoneme1@.len() as int) =~= p1);
        assert(phoneme2@.subrange(0, phoneme2@.len() as int) =~= p2);
        let mut diphone = copy_range(phoneme1, 0, phoneme1.len());
        let mut extra = copy_range(phoneme2, 0, phoneme2.len());
        diphone.append(&mut extra);
        assert(diphone@ =~= p1 + p2);
        match position_of(&self.segments, &diphone) {
            Some(idx) => {
                out.push(idx as i32);
            },
            None => {
                let front = chars_eq(phoneme1, &['a', 'I']) || chars_eq(phoneme1, &['e', 'I'])
                    || chars_eq(phoneme1, &['O', 'I']);
                let ghost s0 = out@;
                if front {
                    let mut glide = copy_range(phoneme1, 0, phoneme1.len());
                    glide.push('j');
                    self.found_segment(&glide, out);
                }
                assert(out@ == s0 + (if is_front_diphthong(p1) {
                    found_segment(segs, p1.push('j'))
                } else {
                    seq![]
                })) by {
                    if !front {
                        assert(s0 + seq![] =~= s0);
                    }
                }
                let back = chars_eq(phoneme1, &['a', 'U']) || chars_eq(phoneme1, &['o', 'U']);
                let ghost s1 = out@;
                if back {
                    let mut glide = copy_range(phoneme1, 0, phoneme1.len());
                    glide.push('w');
                    self.found_segment(&glide, out);
                }
                assert(out@ == s1 + (if is_back_diphthong(p1) {
                    found_segment(segs, p1.push('w'))
                } else {
                    seq![]
                })) by {
                    if !back {
                        assert(s1 + seq![] =~= s1);
                    }
                }
                let mut transition = vec!['_'];
                let mut rest = copy_range(phoneme2, 0, phoneme2.len());
                transition.append(&mut rest);
                assert(transition@ =~= seq!['_'] + p2);
                self.found_segment(&transition, out);
            },
        }
        proof {
            let pair = phoneme_pair_segments(segs, p1, p2);
            assert(out@ =~= before + pair);
        }
    }

    /// Convert a list of phonemes to a list of segment indices.
    ///
    /// This implements the diphone concatenation logic:
    /// - Vowels are stored as monophones in the database
    /// - Consonant-vowel transitions are stored as diphones
    /// - Missing diphones fall back to segment-level substitution
    /// Silent segments are then thinned out: a silence in the first or the
    /// last place of the diphone list, or right after another silence, is
    /// dropped.
    pub fn convert_phonemes_to_segment_indices(&self, phonemes: &[&str]) -> (r: Vec<i32>)
        ensures
            r@ == phoneme_segments(self@, phonemes@.map_values(|p: &str| p@)),
    {
        let ghost ps = phonemes@.map_values(|p: &str| p@);
        let ghost segs = self@.segments;
        let mut segment_indices: Vec<i32> = Vec::new();
        let num_phonemes = phonemes.len();
        let mut i: usize = 0;
        while i < num_phonemes
            invariant
                0 <= i <= num_phonemes,
                num_phonemes == phonemes.len(),
                ps == phonemes@.map_values(|p: &str| p@),
                segs == self@.segments,
                segment_indices@ == raw_segments(segs, ps, i as int),
            decreases num_phonemes - i,
        {
            let ghost before = segment_indices@;
            let phoneme1 = chars_of(phonemes[i]);
            let phoneme2 = if i + 1 == num_phonemes {
                vec!['_']
            } else {
                chars_of(phonemes[i + 1])
            };
            assert(phoneme1@ == ps[i as int]);
            assert(phoneme2@ == next_phoneme(ps, i as int));
            self.append_pair_segments(&phoneme1, &phoneme2, &mut segment_indices);
            assert(segment_indices@ =~= raw_segments(segs, ps, i + 1));
            i = i + 1;
        }
        // Strip out repeated copies of the silent segment.
        let ghost xs = segment_indices@;
        let mut result: Vec<i32> = Vec::new();
        let mut last_segment_index: i32 = -1;
        let silent_idx = self.silent_segment_index;
        let n = segment_indices.len();
        let mut k: usize = 0;
        while k < n
            invariant
                0 <= k <= n,
                n == segment_indices.len(),
                xs == segment_indices@,
                silent_idx == self@.silent_segment_index,
                last_segment_index == (if k == 0 {
                    -1i32
                } else {
                    xs[k - 1]
                }),
                result@ == thinned_segments(xs, silent_idx, k as int),
            decreases n - k,
        {
            let x = segment_indices[k];
            if !(x == silent_idx && x == last_segment_index) && !(x == silent_idx && k == 0) && !(x
                == silent_idx && k == n - 1) {
                result.push(x);
            }
            last_segment_index = x;
            k = k + 1;
            assert(result@ =~= thinned_segments(xs, silent_idx, k as int));
        }
        result
    }

    /// Get the index of the silent segment, `_`.
    pub fn silent_segment_index(&self) -> (r: i32)
        ensures
            r == self@.silent_segment_index,
    {
        self.silent_segment_index
    }
}

/// A loaded voice is consistent: one frame count, vowel flag and offset per
/// segment; the last phoneme and the silent segment are `_`; each segment
/// starts where the one before it ends; the wavetable holds exactly the
/// frames of all segments.
pub proof fn law_loaded_voice_consistent(b: Seq<u8>)
    requires
        loaded_voice(b) is Some,
    ensures
        ({
            let v = loaded_voice(b)->0;
            let n = v.segments.len();
            &&& v.init_started && v.init_finished
            &&& v.segments_num_frames.len() == n
            &&& v.segments_is_vowel.len() == n
            &&& v.segments_offset.len() == n
            &&& n >= 1
            &&& v.silent_segment_index == (n - 1) as i32
            &&& v.segments[n - 1] == seq!['_']
            &&& v.segments_num_frames[n - 1] == 0
            &&& v.phonemes.last() == seq!['_']
            &&& (!voice_load_overflows(b) ==> forall|k: int|
                0 <= k < n - 1 ==> #[trigger] v.segments_offset[k + 1] == v.segments_offset[k]
                    + v.segments_num_frames[k] * v.grain_length)
            &&& (!voice_load_overflows(b) ==> v.wavetable.len() == v.segments_offset[n - 1])
        }),
{
    let v = loaded_voice(b)->0;
    let (sr, gl, ph, p) = voice_header(b)->0;
    let (recs, end) = scan_segments(b, p);
    let frames = frame_counts(recs);
    let n = recs.len() as int;
    if !voice_load_overflows(b) {
        assert forall|k: int| 0 <= k < n implies #[trigger] v.segments_offset[k + 1]
            == v.segments_offset[k] + v.segments_num_frames[k] * v.grain_length by {
            assert(!offsets_overflow(frames, gl as int));
            assert(fits_i32(frames[k] * gl) && fits_i32(segment_start(frames, gl as int, k + 1)));
            if k > 0 {
                assert(fits_i32(frames[k - 1] * gl) && fits_i32(segment_start(frames, gl as int, k)));
            }
        }
        if n > 0 {
            assert(fits_i32(frames[n - 1] * gl) && fits_i32(segment_start(frames, gl as int, n)));
        }
    }
}

/// Looking a name up and reading the name back at the index found gives
/// the name; a name that is absent occurs nowhere; the index found is the
/// first occurrence.
pub proof fn law_name_lookup_roundtrip(names: Seq<Seq<char>>, name: Seq<char>)
    ensures
        match first_index_of(names, name) {
            Some(i) => 0 <= i < names.len() && names[i] == name && forall|k: int|
                0 <= k < i ==> names[k] != name,
            None => forall|k: int| 0 <= k < names.len() ==> names[k] != name,
        },
{
    crate::text::lemma_first_index_of_found(names, name);
}

/// The segment list of a phoneme sequence never starts with the silent
/// segment and never holds it twice in a row.
pub proof fn law_silence_thinned(v: VoiceView, phonemes: Seq<Seq<char>>)
    ensures
        ({
            let r = phoneme_segments(v, phonemes);
            let s = v.silent_segment_index;
            &&& (r.len() > 0 ==> r[0] != s)
            &&& forall|k: int| 0 <= k < r.len() - 1 ==> !(#[trigger] r[k] == s && r[k + 1] == s)
        }),
{
    let raw = raw_segments(v.segments, phonemes, phonemes.len() as int);
    lemma_thinned_silence(raw, v.silent_segment_index, raw.len() as int);
}

/// Induction over the entries thinned so far.
proof fn lemma_thinned_silence(xs: Seq<i32>, s: i32, k: int)
    requires
        0 <= k <= xs.len(),
    ensures
        ({
            let r = thinned_segments(xs, s, k);
            &&& (r.len() > 0 ==> r[0] != s)
            &&& (r.len() == 0 ==> forall|i: int| 0 <= i < k ==> xs[i] == s)
            &&& (r.len() > 0 && r.last() == s ==> xs[k - 1] == s)
            &&& forall|j: int| 0 <= j < r.len() - 1 ==> !(#[trigger] r[j] == s && r[j + 1] == s)
        }),
    decreases k,
{
    if k > 0 {
        lemma_thinned_silence(xs, s, k - 1);
        let r0 = thinned_segments(xs, s, k - 1);
        let r = thinned_segments(xs, s, k);
        if keeps_segment(xs, k - 1, s) {
            assert(r =~= r0.push(xs[k - 1]));
            assert forall|j: int| 0 <= j < r.len() - 1 implies !(#[trigger] r[j] == s && r[j + 1]
                == s) by {
                if j < r0.len() - 1 {
                    assert(r[j] == r0[j] && r[j + 1] == r0[j + 1]);
                }
            }
        } else {
            assert(r =~= r0);
        }
    }
}


/// Once a voice is loaded, any later load leaves it exactly as it is.
pub proof fn law_reload_changes_nothing(v: VoiceView, b: Seq<u8>)
    requires
        v.init_finished,
    ensures
        voice_after_load(v, b) == v,
{
}

/// Starting from a fresh voice, the started and finished flags stay equal
/// through any sequence of loads, and both hold exactly when some load
/// succeeded.
pub proof fn law_init_flags_agree(v: VoiceView, b: Seq<u8>)
    requires
        v.init_started == v.init_finished,
    ensures
        voice_after_load(v, b).init_started == voice_after_load(v, b).init_finished,
        voice_after_load(v, b).init_finished == (v.init_finished || loaded_voice(b) is Some),
{
}

/// The voice `v` after loading the data `bs[0]`, `bs[1]`, ... in turn.
pub open spec fn voice_after_loads(v: VoiceView, bs: Seq<Seq<u8>>) -> VoiceView
    decreases bs.len(),
{
    if bs.len() == 0 {
        v
    } else {
        voice_after_load(voice_after_loads(v, bs.drop_last()), bs.last())
    }
}

/// A fresh voice, after any sequence of loads, has its started and
/// finished flags equal, and both hold exactly when some load was of data
/// that describe a complete voice.
pub proof fn law_init_flags_over_loads(bs: Seq<Seq<u8>>)
    ensures
        voice_after_loads(empty_voice(), bs).init_started == voice_after_loads(
            empty_voice(),
            bs,
        ).init_finished,
        voice_after_loads(empty_voice(), bs).init_finished == exists|i: int|
            0 <= i < bs.len() && (#[trigger] loaded_voice(bs[i])) is Some,
    decreases bs.len(),
{
    if bs.len() > 0 {
        let q = bs.drop_last();
        law_init_flags_over_loads(q);
        let v = voice_after_loads(empty_voice(), q);
        law_init_flags_agree(v, bs.last());
        if exists|i: int| 0 <= i < q.len() && (#[trigger] loaded_voice(q[i])) is Some {
            let i = choose|i: int| 0 <= i < q.len() && (#[trigger] loaded_voice(q[i])) is Some;
            assert(bs[i] == q[i]);
        }
        if exists|i: int| 0 <= i < bs.len() && (#[trigger] loaded_voice(bs[i])) is Some {
            let i = choose|i: int| 0 <= i < bs.len() && (#[trigger] loaded_voice(bs[i])) is Some;
            if i < q.len() {
                assert(q[i] == bs[i]);
            }
        }
        if loaded_voice(bs.last()) is Some {
            assert(loaded_voice(bs[bs.len() - 1]) is Some);
        }
    }
}

/// Without the diphone `p1 p2`, a back diphthong (aU or oU) is followed by
/// its `w` glide segment when the database has one: the segments are the
/// monophone `p1` (if present), the glide `p1 w`, then the transition
/// `_ p2` (if present).
pub proof fn law_back_diphthong_glide(segments: Seq<Seq<char>>, p1: Seq<char>, p2: Seq<char>, g: int)
    requires
        p1 == seq!['a', 'U'] || p1 == seq!['o', 'U'],
        first_index_of(segments, p1 + p2) is None,
        first_index_of(segments, p1 + seq!['w']) == Some(g),
    ensures
        phoneme_pair_segments(segments, p1, p2) == found_segment(segments, p1) + seq![g as i32]
            + found_segment(segments, seq!['_'] + p2),
{
    assert(p1.push('w') =~= p1 + seq!['w']);
    assert(!is_front_diphthong(p1));
    assert(found_segment(segments, p1) + Seq::<i32>::empty() =~= found_segment(segments, p1));
}

/// Without the diphone `p1 p2`, a front diphthong (aI, eI or OI) is
/// followed by its `j` glide segment when the database has one.
pub proof fn law_front_diphthong_glide(segments: Seq<Seq<char>>, p1: Seq<char>, p2: Seq<char>, g: int)
    requires
        p1 == seq!['a', 'I'] || p1 == seq!['e', 'I'] || p1 == seq!['O', 'I'],
        first_index_of(segments, p1 + p2) is None,
        first_index_of(segments, p1 + seq!['j']) == Some(g),
    ensures
        phoneme_pair_segments(segments, p1, p2) == found_segment(segments, p1) + seq![g as i32]
            + found_segment(segments, seq!['_'] + p2),
{
    assert(p1.push('j') =~= p1 + seq!['j']);
    assert(!is_back_diphthong(p1)) by {
        if p1 == seq!['a', 'I'] {
            assert(p1[1] != seq!['a', 'U'][1]);
        }
        if p1 == seq!['e', 'I'] || p1 == seq!['O', 'I'] {
            assert(p1[0] != 'a' && p1[0] != 'o');
        }
    }
}

/// Each wavetable sample is the two bytes at its place read as a
/// little-endian two's complement number: low byte plus 256 times high
/// byte, less 65536 when the high byte's top bit is set.
pub proof fn law_samples_twos_complement(b: Seq<u8>, pos: int, n: int)
    requires
        0 <= pos,
        0 <= n,
        pos + 2 * n <= b.len(),
    ensures
        forall|k: int|
            0 <= k < n ==> (#[trigger] stored_samples(b, pos, n)[k]) as int == b[pos + 2 * k] as int
                + 256 * (b[pos + 2 * k + 1] as int) - (if b[pos + 2 * k + 1] >= 128 {
                65536int
            } else {
                0int
            }),
{
    assert forall|k: int| 0 <= k < n implies (#[trigger] stored_samples(b, pos, n)[k]) as int
        == b[pos + 2 * k] as int + 256 * (b[pos + 2 * k + 1] as int) - (if b[pos + 2 * k + 1] >= 128 {
        65536int
    } else {
        0int
    }) by {
        let lo = b[pos + 2 * k] as int;
        let hi = b[pos + 2 * k + 1] as int;
        assert(stored_samples(b, pos, n)[k] == le_i16_at(b, pos + 2 * k));
        assert(hi >= 128 <==> lo + 256 * hi >= 0x8000);
    }
}

/// A loaded voice's wavetable is the samples stored after the segment
/// list, so each is read as `law_samples_twos_complement` says.
pub proof fn law_loaded_wavetable_is_stored(b: Seq<u8>)
    requires
        loaded_voice(b) is Some,
        !voice_load_overflows(b),
    ensures
        exists|q: int|
            0 <= q && q + 2 * loaded_voice(b)->0.wavetable.len() <= b.len()
                && #[trigger] stored_samples(b, q, loaded_voice(b)->0.wavetable.len() as int)
                == loaded_voice(b)->0.wavetable,
{
    let (sr, gl, ph, p) = voice_header(b)->0;
    let (recs, end) = scan_segments(b, p);
    let q = end->0;
    let total = segment_start(frame_counts(recs), gl as int, recs.len() as int);
    lemma_scan_segments_bounded(b, p);
    let w = loaded_voice(b)->0.wavetable;
    assert(total >= 0);
    assert(w == stored_samples(b, q, total));
    assert(w.len() == total);
    assert(stored_samples(b, q, w.len() as int) == w);
}

/// Every header and segment number is the four bytes at its place read as
/// a little-endian two's complement number: their unsigned value, less
/// 2^32 when the top bit of the last byte is set; it is present exactly
/// when the four bytes are.
pub proof fn law_stored_i32_twos_complement(b: Seq<u8>, pos: int)
    ensures
        stored_i32(b, pos) is Some <==> 0 <= pos && pos + 4 <= b.len(),
        stored_i32(b, pos) matches Some(x) ==> x as int == b[pos] as int + 256 * (b[pos + 1] as int)
            + 65536 * (b[pos + 2] as int) + 16777216 * (b[pos + 3] as int) - (if b[pos + 3] >= 128 {
            0x1_0000_0000int
        } else {
            0int
        }),
{
    if 0 <= pos && pos + 4 <= b.len() {
        let u = b[pos] as int + 256 * (b[pos + 1] as int) + 65536 * (b[pos + 2] as int) + 16777216 * (
        b[pos + 3] as int);
        assert(b[pos + 3] >= 128 <==> u >= 0x8000_0000);
    }
}

} // verus!
