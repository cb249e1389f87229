use plugovr::phonetics::{parse_dictionary, parse_dictionary_from_bytes, strip_stress_marker};

fn strings(v: &[&str]) -> Vec<String> {
    v.iter().map(|s| s.to_string()).collect()
}

#[test]
fn test_strip_stress_marker_no_marker() {
    assert_eq!(strip_stress_marker("AH"), "AH");
    assert_eq!(strip_stress_marker("NG"), "NG");
    assert_eq!(strip_stress_marker("EH"), "EH");
}

#[test]
fn test_strip_stress_marker_unstressed() {
    assert_eq!(strip_stress_marker("AH0"), "AH");
    assert_eq!(strip_stress_marker("AE0"), "AE");
    assert_eq!(strip_stress_marker("NG0"), "NG");
}

#[test]
fn test_strip_stress_marker_primary_stress() {
    assert_eq!(strip_stress_marker("AO1"), "AO");
    assert_eq!(strip_stress_marker("EH1"), "EH");
    assert_eq!(strip_stress_marker("IY1"), "IY");
}

#[test]
fn test_strip_stress_marker_secondary_stress() {
    assert_eq!(strip_stress_marker("AH2"), "AH");
    assert_eq!(strip_stress_marker("AO2"), "AO");
    assert_eq!(strip_stress_marker("EH2"), "EH");
}

#[test]
fn phonetics_test_load_dictionary_empty_file() {
    let dict = parse_dictionary_from_bytes(b"");
    assert!(dict.is_empty());
}

#[test]
fn phonetics_test_load_dictionary_with_entries() {
    let mut data: Vec<u8> = Vec::new();
    data.extend_from_slice(b"; Comment line\n");
    data.extend_from_slice(b"ABORT  AH0 B AO1 R T\n");
    data.extend_from_slice(b"TEST  T EH1 S T\n");
    data.extend_from_slice(b"\n");

    let dict = parse_dictionary_from_bytes(&data);

    assert_eq!(
        dict.get("abort"),
        Some(&vec!["AH".to_string(), "B".to_string(), "AO".to_string(), "R".to_string(), "T".to_string()])
    );
    assert_eq!(
        dict.get("test"),
        Some(&vec!["T".to_string(), "EH".to_string(), "S".to_string(), "T".to_string()])
    );
    assert!(dict.get("ABORT").is_none());
    assert!(dict.get("Abort").is_none());
    assert!(dict.get("abort").is_some());
}

#[test]
fn test_load_dictionary_single_phoneme() {
    let mut data: Vec<u8> = Vec::new();
    data.extend_from_slice(b"I  AY1\n");
    data.extend_from_slice(b"A  EY0\n");

    let dict = parse_dictionary_from_bytes(&data);

    assert_eq!(dict.get("i"), Some(&vec!["AY".to_string()]));
    assert_eq!(dict.get("a"), Some(&vec!["EY".to_string()]));
}

#[test]
fn test_load_dictionary_special_characters() {
    let mut data: Vec<u8> = Vec::new();
    data.extend_from_slice(b"O'Connor  AH1 K AA0 N ER0\n");
    data.extend_from_slice(b"D'Acosta  D AH0 AE1 K S AH0 T AH0\n");

    let dict = parse_dictionary_from_bytes(&data);

    assert!(dict.get("o'connor").is_some());
    assert!(dict.get("d'acosta").is_some());
}

#[test]
fn test_load_dictionary_ignored_entries() {
    let mut data: Vec<u8> = Vec::new();
    data.extend_from_slice(b"READ  R IH0 D\n");
    data.extend_from_slice(b"READ(1)  R EH1 D\n");

    let dict = parse_dictionary_from_bytes(&data);

    assert!(dict.get("read").is_some());
}

#[test]
fn stress_markers_are_stripped_in_order_zero_one_two() {
    assert_eq!(strip_stress_marker("AH10"), "AH");
    assert_eq!(strip_stress_marker("AH01"), "AH0");
    assert_eq!(strip_stress_marker("222"), "");
    assert_eq!(strip_stress_marker(""), "");
}

#[test]
fn later_lines_replace_earlier_ones_and_odd_lines_are_skipped() {
    let dict = parse_dictionary("READ  R IH0 D\r\nread  R EH1 D\nNOSPACE\n;COMMENT  X\nEMPTY   \n");
    assert_eq!(dict.len(), 1);
    assert_eq!(dict.get("read"), Some(&strings(&["R", "EH", "D"])));
}

#[test]
fn cmu_bytes_are_windows_1252() {
    let dict = parse_dictionary_from_bytes(b"CAF\xc9  K AE0 F EY1\n\x80URO  Y UH1 R OW0\n");
    assert_eq!(dict.get("caf\u{e9}"), Some(&strings(&["K", "AE", "F", "EY"])));
    assert_eq!(dict.get("\u{20ac}uro"), Some(&strings(&["Y", "UH", "R", "OW"])));
}
