use plugovr::voices::{voice_file_name, voice_names};

fn strings(v: &[&str]) -> Vec<String> {
    v.iter().map(|s| s.to_string()).collect()
}

#[test]
fn voice_files_end_in_dot_voice() {
    assert_eq!(voice_file_name("cicada"), "cicada.voice");
    assert_eq!(voice_file_name(""), ".voice");
}

#[test]
fn voice_names_are_stems_sorted_once_each() {
    let files = strings(&[
        "nancy.voice",
        "cicada.voice",
        "README.md",
        "cicada.voice",
        ".voice",
        "old.cicada.voice",
        "x.voices",
        "..voice",
        "voice",
    ]);
    assert_eq!(
        voice_names(&files),
        strings(&[".", "cicada", "nancy", "old.cicada"])
    );
    assert!(voice_names(&Vec::new()).is_empty());
}

#[test]
fn listing_order_does_not_matter() {
    let a = strings(&["b.voice", "a.voice", "c.txt", "a.voice"]);
    let b = strings(&["a.voice", "c.txt", "b.voice"]);
    assert_eq!(voice_names(&a), voice_names(&b));
    assert_eq!(voice_names(&a), strings(&["a", "b"]));
}

#[test]
fn a_named_voice_is_found_again_in_its_file() {
    let file = voice_file_name("nancy");
    assert_eq!(voice_names(&vec![file]), strings(&["nancy"]));
}
