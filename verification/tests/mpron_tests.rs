use plugovr::mpron::{build_dictionary, build_dictionary_from_bytes, lookup_static, parse_pronunciation};

#[test]
fn test_lookup_static_found() {
    let phonemes = lookup_static("hello");
    assert!(phonemes.is_some(), "hello should be in the dictionary");
}

#[test]
fn test_lookup_static_not_found() {
    let phonemes = lookup_static("xyznonexistentword999");
    assert!(phonemes.is_none());
}

#[test]
fn test_lookup_static_common_words() {
    assert!(lookup_static("the").is_some());
    assert!(lookup_static("a").is_some());
    assert!(lookup_static("world").is_some());
}

#[test]
fn test_parse_simple_word() {
    let phonemes = parse_pronunciation("/h/@/'l/oU/");
    assert_eq!(phonemes, vec!["h", "@", "l", "oU"]);
}

#[test]
fn test_parse_with_stress() {
    let phonemes = parse_pronunciation("/@/'b/aU/t");
    assert_eq!(phonemes, vec!["@", "b", "aU", "t"]);
}

#[test]
fn test_parse_diphthongs() {
    let phonemes = parse_pronunciation("/v//Oi//s");
    assert_eq!(phonemes, vec!["v", "OI", "s"]);
}

#[test]
fn test_parse_word_separator() {
    let phonemes = parse_pronunciation(",&/b/@/'l/oU/n/i/_/S//E/l");
    assert_eq!(
        phonemes,
        vec!["{}", "b", "@", "l", "oU", "n", "i", "_", "S", "E", "l"]
    );
}

#[test]
fn test_parse_ae() {
    let phonemes = parse_pronunciation("/k/&/t");
    assert_eq!(phonemes, vec!["k", "{}", "t"]);
}

#[test]
fn test_parse_shared_slash_convention() {
    let phonemes = parse_pronunciation("/T/I/N/k");
    assert_eq!(phonemes, vec!["T", "I", "N", "k"]);
}

#[test]
fn test_parse_bare_at() {
    let phonemes = parse_pronunciation("/h/@/'l/oU/");
    assert_eq!(phonemes, vec!["h", "@", "l", "oU"]);
}

#[test]
fn test_parse_mixed_bare_and_slashed() {
    let phonemes = parse_pronunciation("'/A/rd,v/A/rk");
    assert_eq!(phonemes, vec!["A", "r", "d", "v", "A", "r", "k"]);
}

#[test]
fn test_parse_exclamation() {
    let phonemes = parse_pronunciation("/!/");
    assert!(phonemes.is_empty());
}

#[test]
fn test_build_dictionary_from_str() {
    let content = "hello /h/@/'l/oU/\n";
    let dict = build_dictionary(content);
    assert_eq!(
        dict.get("hello"),
        Some(&vec!["h".to_string(), "@".to_string(), "l".to_string(), "oU".to_string()])
    );
}

#[test]
fn parse_bracket_schwa_and_greedy_pairs() {
    assert_eq!(parse_pronunciation("/[@]/tS/"), vec!["@", "tS"]);
    assert_eq!(parse_pronunciation("/ju/"), vec!["ju"]);
}

#[test]
fn lookup_static_gives_parsed_phonemes() {
    assert_eq!(
        lookup_static("hello"),
        Some(vec!["h".to_string(), "@".to_string(), "l".to_string(), "oU".to_string()])
    );
    assert_eq!(lookup_static("Hello"), None);
}

#[test]
fn build_dictionary_later_line_wins_and_pos_is_dropped() {
    let dict = build_dictionary("record/n /r/@/'k/O/rd\r\nrecord/v /r/I/'k/O/rd\n;;; comment x\nnospace\n  \nbad /!/\n");
    assert_eq!(dict.len(), 1);
    assert_eq!(
        dict.get("record"),
        Some(&vec!["r".to_string(), "I".to_string(), "k".to_string(), "O".to_string(), "r".to_string(), "d".to_string()])
    );
}

#[test]
fn build_dictionary_lowercases_words() {
    let dict = build_dictionary("Hello /h/@/'l/oU/");
    assert!(dict.contains_key("hello"));
    assert!(!dict.contains_key("Hello"));
}

#[test]
fn mpron_test_load_dictionary_empty_file() {
    let dict = build_dictionary_from_bytes(b"");
    assert!(dict.is_empty());
}

#[test]
fn mpron_test_load_dictionary_with_entries() {
    let mut data: Vec<u8> = Vec::new();
    data.extend_from_slice(b"hello /h/@/'l/oU/\n");
    data.extend_from_slice(b"world /w/@/r/ld\n");

    let dict = build_dictionary_from_bytes(&data);

    assert_eq!(
        dict.get("hello"),
        Some(&vec!["h".to_string(), "@".to_string(), "l".to_string(), "oU".to_string()])
    );
}

#[test]
fn test_load_dictionary_with_pos() {
    let mut data: Vec<u8> = Vec::new();
    data.extend_from_slice(b"record/n /r/@/'k/O/rd\n");
    data.extend_from_slice(b"record/v /r/I/'k/O/rd\n");

    let dict = build_dictionary_from_bytes(&data);
    assert!(dict.contains_key("record"));
}

#[test]
fn moby_bytes_are_windows_1252() {
    let dict = build_dictionary_from_bytes(b"caf\xe9 /k/&/'f/eI/\n");
    assert_eq!(
        dict.get("caf\u{e9}"),
        Some(&vec!["k".to_string(), "{}".to_string(), "f".to_string(), "eI".to_string()])
    );
}

#[test]
fn moby_bytes_with_a_utf8_mark_are_utf8() {
    let dict = build_dictionary_from_bytes(b"\xef\xbb\xbfcaf\xc3\xa9 /k/&/f/eI/\n");
    assert!(dict.contains_key("caf\u{e9}"));
}

#[test]
fn unknown_characters_are_skipped() {
    assert_eq!(parse_pronunciation("/Q/b/"), vec!["b"]);
    assert_eq!(parse_pronunciation("#k9"), vec!["k"]);
}
