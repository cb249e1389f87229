use plugovr::deque::Deque;
use plugovr::g2p::G2P;
use plugovr::schedule::{
    drop_leading_silence, frame_offset, frame_offset_fits, lyrics_to_segments, plan_syllable,
};
use plugovr::voice::Voice;

fn voice_bytes(grain_length: i32, phonemes: &[&str], segments: &[(&str, i32, bool)]) -> Vec<u8> {
    let mut b: Vec<u8> = b"ODDVOICES\0\0\0".to_vec();
    b.extend_from_slice(&16000i32.to_le_bytes());
    b.extend_from_slice(&grain_length.to_le_bytes());
    for p in phonemes {
        b.extend_from_slice(p.as_bytes());
        b.push(0);
    }
    b.push(0);
    let mut total: i32 = 0;
    for (name, frames, vowel) in segments {
        b.extend_from_slice(name.as_bytes());
        b.push(0);
        b.extend_from_slice(&frames.to_le_bytes());
        b.extend_from_slice(&(if *vowel { 1i32 } else { 0i32 }).to_le_bytes());
        total += frames * grain_length;
    }
    b.push(0);
    for k in 0..total {
        b.extend_from_slice(&(k as i16).to_le_bytes());
    }
    b
}

/// Segments: "_h" 0, "h{}" 1, "{}" 2, "{}_" 3, "{}l" 4, "l_" 5, silence 6.
fn voice() -> Voice {
    let data = voice_bytes(
        4,
        &["h", "{}", "l"],
        &[
            ("_h", 1, false),
            ("h{}", 2, false),
            ("{}", 3, true),
            ("{}_", 1, false),
            ("{}l", 2, false),
            ("l_", 1, false),
        ],
    );
    let mut v = Voice::new();
    v.init_from_bytes(&data);
    assert!(v.has_init_finished());
    v
}

fn queue(items: &[i32]) -> Deque<i32> {
    let mem: Box<[i32]> = vec![-1; 16].into_boxed_slice();
    let mut q = Deque::new(mem, 0, 0, -1);
    for x in items {
        q.push_back(*x);
    }
    q
}

fn contents(q: &Deque<i32>) -> Vec<i32> {
    (0..q.size()).map(|i| q.get(i)).collect()
}

#[test]
fn leading_silence_is_dropped() {
    let mut q = queue(&[6, 6, 1, 6, 2]);
    drop_leading_silence(&mut q, 6);
    assert_eq!(contents(&q), vec![1, 6, 2]);
    drop_leading_silence(&mut q, 6);
    assert_eq!(contents(&q), vec![1, 6, 2]);
    let mut all = queue(&[6, 6]);
    drop_leading_silence(&mut all, 6);
    assert!(all.empty());
    let mut none = queue(&[1, 2]);
    drop_leading_silence(&mut none, 6);
    assert_eq!(contents(&none), vec![1, 2]);
}

#[test]
fn syllable_before_silence_keeps_its_whole_run() {
    let v = voice();
    let q = queue(&[0, 1, 2, 4, 5, 6, 0]);
    let p = plan_syllable(&q, &v, 6);
    assert_eq!(p.leading, 2);
    assert_eq!(p.run, 2);
    assert!(p.before_silence);
    assert_eq!(p.cluster(), 2);
}

#[test]
fn syllable_before_a_vowel_shares_its_run() {
    let v = voice();
    let q = queue(&[1, 2, 4, 5, 3, 1, 2]);
    let p = plan_syllable(&q, &v, 6);
    assert_eq!(p.leading, 1);
    assert_eq!(p.run, 4);
    assert!(!p.before_silence);
    assert_eq!(p.cluster(), 2);
}

#[test]
fn syllable_without_vowel_spans_the_queue() {
    let v = voice();
    let q = queue(&[0, 1]);
    let p = plan_syllable(&q, &v, 6);
    assert_eq!(p.leading, 2);
    assert_eq!(p.run, 0);
    assert!(!p.before_silence);
    let empty = queue(&[]);
    let e = plan_syllable(&empty, &v, 6);
    assert_eq!((e.leading, e.run, e.before_silence), (0, 0, false));
}

#[test]
fn frame_offsets_wrap_within_the_segment() {
    let v = voice();
    // "{}" starts at (1 + 2) * 4 = 12 and has 3 frames of 4 samples.
    assert_eq!(frame_offset(&v, 2, 0), 12);
    assert_eq!(frame_offset(&v, 2, 1), 16);
    assert_eq!(frame_offset(&v, 2, 4), 16);
    assert_eq!(frame_offset(&v, 2, -3), 12);
    assert_eq!(frame_offset(&v, 6, 5), 0);
    assert_eq!(frame_offset(&v, -1, 5), 0);
    assert_eq!(frame_offset(&v, 99, 5), 0);
    assert!(frame_offset_fits(&v, 2, 4));
    assert!(frame_offset_fits(&v, 6, i32::MAX));
}

#[test]
fn lyrics_become_segment_indices() {
    let v = voice();
    let g2p = G2P::new();
    assert_eq!(lyrics_to_segments(&g2p, &v, "Hal"), vec![1, 2, 4, 5]);
    assert!(lyrics_to_segments(&g2p, &v, "").is_empty());
}

#[test]
fn a_negative_offset_taken_as_usize_can_overflow() {
    let data = voice_bytes(4, &[], &[("a", -1, false), ("b", 2, false)]);
    let mut v = Voice::new();
    v.init_from_bytes(&data);
    assert!(v.has_init_finished());
    assert_eq!(v.segment_offset(1), -4);
    assert!(frame_offset_fits(&v, 1, 0));
    assert_eq!(frame_offset(&v, 1, 0), (-4i32) as usize);
    assert!(!frame_offset_fits(&v, 1, 1));
}
