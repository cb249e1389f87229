//! The integer side of segment scheduling: which queued segments a
//! syllable spans, where a frame of a segment sits in the wavetable, and
//! the segment list that a lyric sings.

use vstd::prelude::*;
use crate::deque::Deque;
use crate::g2p::{G2P, text_phonemes};
use crate::voice::{Voice, VoiceView, phoneme_segments};

verus! {

/// Whether the voice marks segment `s` as a vowel; false for an index out
/// of range.
pub open spec fn vowel_segment(v: VoiceView, s: i32) -> bool {
    0 <= s < v.segments_is_vowel.len() && v.segments_is_vowel[s as int]
}

/// `q` without the copies of `silent` at its front.
pub open spec fn after_leading_silence(q: Seq<i32>, silent: i32) -> Seq<i32>
    decreases q.len(),
{
    if q.len() > 0 && q[0] == silent {
        after_leading_silence(q.drop_first(), silent)
    } else {
        q
    }
}

/// Whether segment `s` is a vowel of `voice`.
fn is_vowel_segment(voice: &Voice, s: i32) -> (b: bool)
    ensures
        b == vowel_segment(voice@, s),
{
    s >= 0 && voice.segment_is_vowel(s as usize)
}

/// Remove the silent segments at the front of the queue.
pub fn drop_leading_silence(queue: &mut Deque<i32>, silent: i32)
    requires
        old(queue).wf(),
    ensures
        final(queue).wf(),
        final(queue)@ == after_leading_silence(old(queue)@, silent),
        final(queue).spec_capacity() == old(queue).spec_capacity(),
        final(queue).spec_no_value() == old(queue).spec_no_value(),
{
    let ghost goal = after_leading_silence(queue@, silent);
    let ghost cap = queue.spec_capacity();
    let ghost nv = queue.spec_no_value();
    while !queue.empty() && queue.front() == silent
        invariant
            queue.wf(),
            after_leading_silence(queue@, silent) == goal,
            queue.spec_capacity() == cap,
            queue.spec_no_value() == nv,
        decreases queue@.len(),
    {
        queue.pop_front();
    }
}

/// `n` is the number of segments of `q` before its first vowel.
pub open spec fn leading_consonants(v: VoiceView, q: Seq<i32>, n: int) -> bool {
    &&& 0 <= n <= q.len()
    &&& forall|k: int| 0 <= k < n ==> !vowel_segment(v, #[trigger] q[k])
    &&& n < q.len() ==> vowel_segment(v, q[n])
}

/// `n` segments of `q` from position `from` on are consonants (neither
/// silence nor vowels), and the run stops there: at the end of `q`, at a
/// silence or at a vowel.
pub open spec fn consonant_run(v: VoiceView, q: Seq<i32>, silent: i32, from: int, n: int) -> bool {
    &&& 0 <= n
    &&& forall|k: int|
        from <= k < from + n ==> k < q.len() && #[trigger] q[k] != silent && !vowel_segment(v, q[k])
    &&& from + n < q.len() ==> (q[from + n] == silent || vowel_segment(v, q[from + n]))
}

/// How the syllable at the front of a queue divides: `leading` consonants,
/// then its vowel, then a run of `run` consonants starting at
/// `leading + 1`, which either ends at a silence (`before_silence`) or is
/// shared with the next syllable.
pub struct SyllablePlan {
    pub leading: usize,
    pub run: usize,
    pub before_silence: bool,
}

impl SyllablePlan {
    /// The number of final consonants that belong to this syllable: the
    /// whole run before a silence, otherwise the first half of it.
    pub open spec fn spec_cluster(&self) -> nat {
        if self.before_silence {
            self.run as nat
        } else {
            (self.run / 2) as nat
        }
    }

    /// The number of final consonants that belong to this syllable.
    pub fn cluster(&self) -> (n: usize)
        ensures
            n == self.spec_cluster(),
    {
        if self.before_silence {
            self.run
        } else {
            self.run / 2
        }
    }
}

/// Divide the syllable at the front of the queue into its leading
/// consonants, its vowel and its final consonant run.
pub fn plan_syllable(queue: &Deque<i32>, voice: &Voice, silent: i32) -> (p: SyllablePlan)
    requires
        queue.wf(),
    ensures
        leading_consonants(voice@, queue@, p.leading as int),
        consonant_run(voice@, queue@, silent, p.leading + 1, p.run as int),
        p.before_silence == (p.leading + 1 + p.run < queue@.len() && queue@[p.leading + 1
            + p.run] == silent),
{
    let size = queue.size();
    let mut i: usize = 0;
    while i < size && !is_vowel_segment(voice, queue.get(i))
        invariant
            queue.wf(),
            size == queue@.len(),
            0 <= i <= size,
            forall|k: int| 0 <= k < i ==> !vowel_segment(voice@, #[trigger] queue@[k]),
        decreases size - i,
    {
        i = i + 1;
    }
    let leading = i;
    let mut n: usize = 0;
    let mut before_silence = false;
    if leading < size {
        let first = leading + 1;
        let mut stop = false;
        while !stop && first + n < size
            invariant
                queue.wf(),
                size == queue@.len(),
                leading < size,
                first == leading + 1,
                first + n <= size,
                forall|k: int|
                    first <= k < first + n ==> #[trigger] queue@[k] != silent && !vowel_segment(
                        voice@,
                        queue@[k],
                    ),
                stop ==> first + n < size && (queue@[first + n] == silent || vowel_segment(
                    voice@,
                    queue@[first + n],
                )),
                before_silence == (stop && queue@[first + n] == silent),
            decreases size - n, if stop {
                0int
            } else {
                1int
            },
        {
            let s = queue.get(first + n);
            if s == silent {
                before_silence = true;
                stop = true;
            } else if is_vowel_segment(voice, s) {
                stop = true;
            } else {
                n = n + 1;
            }
        }
    }
    SyllablePlan { leading, run: n, before_silence }
}

/// The frame of a segment with `frames` frames that position `frame_index`
/// falls on: the index wraps around the segment, and a negative index
/// means its first frame.
pub open spec fn frame_in_segment(frames: i32, frame_index: i32) -> int {
    if frame_index < 0 {
        0
    } else {
        (frame_index % frames) as int
    }
}

/// The frame count of segment `s`; 0 for an index out of range.
pub open spec fn segment_frames(v: VoiceView, s: i32) -> i32 {
    if 0 <= s < v.segments_num_frames.len() {
        v.segments_num_frames[s as int]
    } else {
        0
    }
}

/// The wavetable offset of segment `s`; 0 for an index out of range.
pub open spec fn segment_start_of(v: VoiceView, s: i32) -> i32 {
    if 0 <= s < v.segments_offset.len() {
        v.segments_offset[s as int]
    } else {
        0
    }
}

/// The wavetable position of frame `frame_index` of segment `s`, with the
/// offset, frame and grain length taken as `usize` values.
pub open spec fn frame_position(v: VoiceView, s: i32, frame_index: i32) -> int {
    let f = frame_in_segment(segment_frames(v, s), frame_index);
    (segment_start_of(v, s) as usize) + (f as usize) * (v.grain_length as usize)
}

/// The position in wavetable memory where frame `frame_index` of segment
/// `segment` starts; 0 for a segment without frames.
pub fn frame_offset(voice: &Voice, segment: i32, frame_index: i32) -> (r: usize)
    requires
        segment_frames(voice@, segment) != 0 ==> frame_position(voice@, segment, frame_index)
            <= usize::MAX,
    ensures
        r == (if segment_frames(voice@, segment) == 0 {
            0
        } else {
            frame_position(voice@, segment, frame_index)
        }),
{
    let frames = if segment >= 0 {
        voice.segment_num_frames(segment as usize)
    } else {
        0
    };
    if frames == 0 {
        return 0;
    }
    let frame = if frame_index < 0 {
        0
    } else {
        frame_index % frames
    };
    let start = if segment >= 0 {
        voice.segment_offset(segment as usize)
    } else {
        0
    };
    proof {
        assert(0 <= frame);
        assert((frame as usize) * (voice@.grain_length as usize) <= usize::MAX);
    }
    (start as usize) + (frame as usize) * (voice.grain_length() as usize)
}

/// Whether `frame_offset` can compute the position of frame `frame_index`
/// of segment `segment` without leaving the range of `usize`.
pub fn frame_offset_fits(voice: &Voice, segment: i32, frame_index: i32) -> (b: bool)
    ensures
        b == (segment_frames(voice@, segment) != 0 ==> frame_position(voice@, segment, frame_index)
            <= usize::MAX),
{
    let frames = if segment >= 0 {
        voice.segment_num_frames(segment as usize)
    } else {
        0
    };
    if frames == 0 {
        return true;
    }
    let frame = if frame_index < 0 {
        0
    } else {
        frame_index % frames
    };
    let start = if segment >= 0 {
        voice.segment_offset(segment as usize)
    } else {
        0
    };
    match (frame as usize).checked_mul(voice.grain_length() as usize) {
        None => false,
        Some(p) => p.checked_add(start as usize).is_some(),
    }
}

/// The segment indices that `voice` sings for `lyrics`.
pub fn lyrics_to_segments(g2p: &G2P, voice: &Voice, lyrics: &str) -> (r: Vec<i32>)
    ensures
        r@ == phoneme_segments(voice@, text_phonemes(lyrics@)),
{
    let phonemes = g2p.pronounce(lyrics);
    let mut names: Vec<&str> = Vec::new();
    let mut i: usize = 0;
    while i < phonemes.len()
        invariant
            0 <= i <= phonemes.len(),
            names@.len() == i,
            forall|k: int| 0 <= k < i ==> (#[trigger] names@[k])@ == phonemes@[k]@,
        decreases phonemes.len() - i,
    {
        names.push(phonemes[i].as_str());
        i = i + 1;
    }
    proof {
        assert(names@.map_values(|p: &str| p@) =~= phonemes.deep_view());
    }
    voice.convert_phonemes_to_segment_indices(names.as_slice())
}

/// Dropping the leading silence leaves a tail of the queue that does not
/// start with silence, and only silence was dropped; doing it again
/// changes nothing.
pub proof fn law_leading_silence_dropped(q: Seq<i32>, silent: i32)
    ensures
        ({
            let r = after_leading_silence(q, silent);
            &&& r.len() <= q.len()
            &&& r == q.skip(q.len() - r.len())
            &&& r.len() > 0 ==> r[0] != silent
            &&& forall|k: int| 0 <= k < q.len() - r.len() ==> q[k] == silent
            &&& after_leading_silence(r, silent) == r
        }),
    decreases q.len(),
{
    if q.len() > 0 && q[0] == silent {
        let t = q.drop_first();
        law_leading_silence_dropped(t, silent);
        let r = after_leading_silence(t, silent);
        assert(q.skip(q.len() - r.len()) =~= t.skip(t.len() - r.len()));
        assert forall|k: int| 0 <= k < q.len() - r.len() implies q[k] == silent by {
            if k > 0 {
                assert(q[k] == t[k - 1]);
            }
        }
    } else {
        assert(q.skip(0) =~= q);
    }
}

} // verus!
