use plugovr::voice::Voice;

fn voice_bytes(
    sample_rate: i32,
    grain_length: i32,
    phonemes: &[&str],
    segments: &[(&str, i32, bool)],
    samples: &[i16],
) -> Vec<u8> {
    let mut b: Vec<u8> = b"ODDVOICES\0\0\0".to_vec();
    b.extend_from_slice(&sample_rate.to_le_bytes());
    b.extend_from_slice(&grain_length.to_le_bytes());
    for p in phonemes {
        b.extend_from_slice(p.as_bytes());
        b.push(0);
    }
    b.push(0);
    for (name, frames, vowel) in segments {
        b.extend_from_slice(name.as_bytes());
        b.push(0);
        b.extend_from_slice(&frames.to_le_bytes());
        b.extend_from_slice(&(if *vowel { 1i32 } else { 0i32 }).to_le_bytes());
    }
    b.push(0);
    for s in samples {
        b.extend_from_slice(&s.to_le_bytes());
    }
    b
}

/// Segments: "_h" 0, "ha" 1, "a" 2, "a_" 3, silence 4; grain length 2.
fn small_voice() -> Voice {
    let data = voice_bytes(
        16000,
        2,
        &["h", "a"],
        &[("_h", 1, false), ("ha", 2, false), ("a", 1, true), ("a_", 1, false)],
        &[1, 2, 3, 4, 5, 6, 7, 8, 9, 10],
    );
    let mut v = Voice::new();
    v.init_from_bytes(&data);
    v
}

#[test]
fn test_voice_new_uninitialized() {
    let voice = Voice::new();
    assert!(!voice.has_init_started());
    assert!(!voice.has_init_finished());
    assert_eq!(voice.sample_rate(), 0);
    assert_eq!(voice.grain_length(), 0);
    assert_eq!(voice.wavetable_memory().len(), 0);
}

#[test]
fn test_voice_phoneme_lookup_empty() {
    let voice = Voice::new();
    assert_eq!(voice.num_phonemes(), 0);
    assert_eq!(voice.phoneme_to_phoneme_index("a"), None);
    assert_eq!(voice.phoneme_index_to_phoneme(0), None);
}

#[test]
fn test_voice_segments_empty() {
    let voice = Voice::new();
    assert_eq!(voice.num_segments(), 0);
    assert_eq!(voice.segment_to_segment_index("a"), None);
    assert_eq!(voice.segment_index_to_segment(0), None);
}

#[test]
fn loading_fills_the_tables_and_adds_silence() {
    let v = small_voice();
    assert!(v.has_init_started());
    assert!(v.has_init_finished());
    assert_eq!(v.sample_rate(), 16000);
    assert_eq!(v.grain_length(), 2);
    assert_eq!(v.num_phonemes(), 3);
    assert_eq!(v.phoneme_index_to_phoneme(2), Some("_"));
    assert_eq!(v.phoneme_to_phoneme_index("a"), Some(1));
    assert_eq!(v.num_segments(), 5);
    assert_eq!(v.silent_segment_index(), 4);
    assert_eq!(v.segment_index_to_segment(4), Some("_"));
    assert_eq!(v.segment_to_segment_index("ha"), Some(1));
    assert_eq!(v.segment_to_segment_index("xx"), None);
    let i = v.segment_to_segment_index("a_").unwrap();
    assert_eq!(v.segment_index_to_segment(i), Some("a_"));
    assert_eq!(v.segment_num_frames(1), 2);
    assert_eq!(v.segment_num_frames(4), 0);
    assert_eq!(v.segment_num_frames(99), 0);
    assert!(v.segment_is_vowel(2));
    assert!(v.segment_is_vowel(4));
    assert!(!v.segment_is_vowel(0));
    assert!(!v.segment_is_vowel(99));
    assert_eq!(v.segment_offset(0), 0);
    assert_eq!(v.segment_offset(1), 2);
    assert_eq!(v.segment_offset(2), 6);
    assert_eq!(v.segment_offset(3), 8);
    assert_eq!(v.segment_offset(4), 10);
    assert_eq!(v.segment_offset(99), 0);
    assert_eq!(v.wavetable_memory(), &[1, 2, 3, 4, 5, 6, 7, 8, 9, 10]);
}

#[test]
fn a_second_load_is_ignored() {
    let mut v = small_voice();
    let other = voice_bytes(8000, 4, &[], &[], &[]);
    v.init_from_bytes(&other);
    assert_eq!(v.sample_rate(), 16000);
    assert_eq!(v.num_segments(), 5);
}

#[test]
fn bad_magic_or_short_data_leaves_the_voice_empty() {
    let mut data = voice_bytes(16000, 2, &["a"], &[("a", 1, true)], &[1, 2]);
    data[0] = b'X';
    let mut v = Voice::new();
    v.init_from_bytes(&data);
    assert!(!v.has_init_started());
    assert!(!v.has_init_finished());
    assert_eq!(v.num_segments(), 0);

    let mut w = Voice::new();
    w.init_from_bytes(b"ODDVOICES\0\0\0\x80\x3e");
    assert!(!w.has_init_started());
    assert_eq!(w.sample_rate(), 0);
}

#[test]
fn a_short_wavetable_keeps_the_samples_read() {
    let data = voice_bytes(16000, 2, &["a"], &[("a", 2, true)], &[7, 8, 9]);
    let mut v = Voice::new();
    v.init_from_bytes(&data);
    assert!(!v.has_init_finished());
    assert!(!v.has_init_started());
    assert_eq!(v.wavetable_memory(), &[7, 8, 9]);
    assert_eq!(v.num_segments(), 0);
}

#[test]
fn names_up_to_256_bytes_are_accepted() {
    let long = "x".repeat(256);
    let data = voice_bytes(16000, 2, &[&long], &[], &[]);
    let mut v = Voice::new();
    v.init_from_bytes(&data);
    assert!(v.has_init_finished());
    assert_eq!(v.phoneme_index_to_phoneme(0), Some(long.as_str()));

    let longer = "x".repeat(257);
    let data = voice_bytes(16000, 2, &[&longer], &[], &[]);
    let mut w = Voice::new();
    w.init_from_bytes(&data);
    assert!(!w.has_init_finished());
}

#[test]
fn names_must_be_utf8() {
    let mut data = voice_bytes(16000, 2, &["a"], &[], &[]);
    data[20] = 0xff;
    let mut v = Voice::new();
    v.init_from_bytes(&data);
    assert!(!v.has_init_finished());
}

#[test]
fn overflowing_offsets_are_detected() {
    let data = voice_bytes(16000, 65536, &[], &[("a", 65536, true)], &[]);
    assert!(Voice::load_would_overflow(&data));
    let ok = voice_bytes(16000, 2, &[], &[("a", 1, true)], &[0, 0]);
    assert!(!Voice::load_would_overflow(&ok));
    assert!(!Voice::load_would_overflow(b"not a voice"));
}

#[test]
fn phonemes_become_diphones() {
    let v = small_voice();
    assert_eq!(v.convert_phonemes_to_segment_indices(&["h", "a"]), vec![1, 2, 3]);
}

#[test]
fn missing_diphone_falls_back_to_silence_transition() {
    let v = small_voice();
    assert_eq!(v.convert_phonemes_to_segment_indices(&["a", "h"]), vec![2, 0]);
}

#[test]
fn silence_is_thinned() {
    let v = small_voice();
    assert_eq!(v.convert_phonemes_to_segment_indices(&["_", "a"]), vec![2, 3]);
    assert_eq!(
        v.convert_phonemes_to_segment_indices(&["a", "_", "a"]),
        vec![2, 3, 4, 2, 3]
    );
    assert_eq!(
        v.convert_phonemes_to_segment_indices(&["a", "_", "_", "a"]),
        vec![2, 3, 4, 2, 3]
    );
    assert!(v.convert_phonemes_to_segment_indices(&[]).is_empty());
}

#[test]
fn a_loaded_voice_ignores_even_overflowing_data() {
    let mut v = small_voice();
    let bad = voice_bytes(16000, 65536, &[], &[("a", 65536, true)], &[]);
    assert!(Voice::load_would_overflow(&bad));
    v.init_from_bytes(&bad);
    assert!(v.has_init_started());
    assert!(v.has_init_finished());
    assert_eq!(v.grain_length(), 2);
    assert_eq!(v.num_segments(), 5);
}

#[test]
fn flags_stay_equal_over_a_sequence_of_loads() {
    let mut v = Voice::new();
    v.init_from_bytes(b"garbage");
    assert_eq!(v.has_init_started(), v.has_init_finished());
    assert!(!v.has_init_finished());
    let good = voice_bytes(16000, 2, &["a"], &[("a", 1, true)], &[1, 2]);
    v.init_from_bytes(&good);
    assert!(v.has_init_started() && v.has_init_finished());
    v.init_from_bytes(b"garbage");
    assert!(v.has_init_started() && v.has_init_finished());
}
