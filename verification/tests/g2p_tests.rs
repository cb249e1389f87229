use plugovr::g2p::G2P;

fn strings(v: &[&str]) -> Vec<String> {
    v.iter().map(|s| s.to_string()).collect()
}

#[test]
fn test_g2p_hello() {
    let g2p = G2P::new();
    let phonemes = g2p.pronounce_word("hello");
    assert!(!phonemes.is_empty(), "hello should have phonemes");
}

#[test]
fn test_g2p_oov_fallback() {
    let g2p = G2P::new();
    let phonemes = g2p.pronounce_word("xyznonexistentword999");
    assert!(!phonemes.is_empty());
}

#[test]
fn test_g2p_explicit_phonetic() {
    let g2p = G2P::new();
    let phonemes = g2p.pronounce_word("/h/@/'l/oU/");
    assert_eq!(phonemes, vec!["h", "@", "l", "oU"]);
}

#[test]
fn test_g2p_dict_exception() {
    let g2p = G2P::new();
    let phonemes = g2p.pronounce_word("don't");
    assert!(!phonemes.is_empty(), "don't should be in exceptions");
}

#[test]
fn dictionary_word_is_pronounced_from_its_entry() {
    let g2p = G2P::default();
    assert_eq!(g2p.pronounce_word("hello"), strings(&["h", "@", "l", "oU"]));
    assert_eq!(g2p.pronounce_word("the"), strings(&["D", "@"]));
}

#[test]
fn exceptions_come_before_the_dictionary() {
    let g2p = G2P::new();
    assert_eq!(g2p.pronounce_word("and"), strings(&["{}", "n", "d"]));
    assert_eq!(g2p.pronounce_word("every"), strings(&["E", "v", "r", "i"]));
    assert_eq!(
        g2p.pronounce_word("oddvoices"),
        strings(&["A", "d", "v", "OI", "s", "E", "z"])
    );
}

#[test]
fn cot_caught_merger_turns_open_o_before_r_into_o_u() {
    let g2p = G2P::new();
    assert_eq!(
        g2p.pronounce_word("record"),
        strings(&["r", "I", "k", "oU", "r", "d"])
    );
}

#[test]
fn oov_guess_takes_letters_and_digraphs_and_drops_repeats() {
    let g2p = G2P::new();
    assert_eq!(g2p.pronounce_word("xyz"), strings(&["ks", "i", "z"]));
    assert_eq!(g2p.pronounce_word("shop"), strings(&["S", "A", "p"]));
    assert_eq!(g2p.pronounce_word("bb"), strings(&["b"]));
    assert_eq!(g2p.pronounce_word("don't"), strings(&["d", "A", "n", "t"]));
    assert!(g2p.pronounce_word("42").is_empty());
}

#[test]
fn adjacent_vowels_get_a_glide() {
    let g2p = G2P::new();
    assert_eq!(g2p.pronounce_word("/i/@/"), strings(&["i", "j", "@"]));
    assert_eq!(g2p.pronounce_word("/u/@/"), strings(&["u", "w", "@"]));
    assert_eq!(g2p.pronounce_word("/A/@/"), strings(&["A", "@"]));
}

#[test]
fn normalization_resolves_aliases_and_repeats() {
    let g2p = G2P::new();
    assert_eq!(g2p.pronounce_word("/t/t/"), strings(&["t"]));
    assert_eq!(g2p.pronounce_word("/k/O/t/"), strings(&["k", "A", "t"]));
}

#[test]
fn explicit_spelling_with_one_delimiter_is_empty() {
    let g2p = G2P::new();
    assert!(g2p.pronounce_word("/x").is_empty());
}

#[test]
fn pronounce_joins_the_words_of_a_text() {
    let g2p = G2P::new();
    assert_eq!(
        g2p.pronounce("Hello, world!"),
        strings(&["h", "@", "l", "oU", "w", "@", "r", "l", "d"])
    );
    assert!(g2p.pronounce("").is_empty());
    assert!(g2p.pronounce("  ,.!? ").is_empty());
}
