//! Grapheme-to-phoneme conversion: English text to X-SAMPA phoneme
//! sequences for the synthesizer, using the embedded dictionary, a few
//! corrected pronunciations and a letter-based guesser for other words.

use vstd::prelude::*;
use crate::mpron::{dictionary_lookup, lookup_chars, moby_pronunciation, parse_pronunciation_chars};
use crate::text::{
    append_all, ascii_lower, chars_eq, chars_of, copy_range, is1, is2, is_white_space, strings_of,
    to_ascii_lower, white_space, alphabetic, is_alphabetic,
};

verus! {

/// The vowel phonemes (used to find vowel-vowel diphones).
pub open spec fn is_vowel(p: Seq<char>) -> bool {
    if p.len() == 1 {
        p[0] == 'A' || p[0] == 'I' || p[0] == 'E' || p[0] == '@' || p[0] == 'u' || p[0] == 'U'
            || p[0] == 'i'
    } else if p.len() == 2 {
        (p[0] == '{' && p[1] == '}') || (p[0] == '@' && p[1] == '`') || (p[0] == 'o' && p[1] == 'U')
            || (p[0] == 'e' && p[1] == 'I') || (p[0] == 'a' && p[1] == 'I') || (p[0] == 'O' && p[1]
            == 'I') || (p[0] == 'a' && p[1] == 'U')
    } else {
        false
    }
}

fn vowel(p: &[char]) -> (r: bool)
    ensures
        r == is_vowel(p@),
{
    if p.len() == 1 {
        let c = p[0];
        c == 'A' || c == 'I' || c == 'E' || c == '@' || c == 'u' || c == 'U' || c == 'i'
    } else if p.len() == 2 {
        let a = p[0];
        let b = p[1];
        (a == '{' && b == '}') || (a == '@' && b == '`') || (a == 'o' && b == 'U') || (a == 'e'
            && b == 'I') || (a == 'a' && b == 'I') || (a == 'O' && b == 'I') || (a == 'a' && b
            == 'U')
    } else {
        false
    }
}

/// The glide consonant inserted after vowel `p` when another vowel follows.
pub open spec fn vv_glide(p: Seq<char>) -> Option<Seq<char>> {
    if p == seq!['i'] || p == seq!['a', 'I'] || p == seq!['e', 'I'] || p == seq!['O', 'I'] {
        Some(seq!['j'])
    } else if p == seq!['u'] || p == seq!['a', 'U'] || p == seq!['o', 'U'] {
        Some(seq!['w'])
    } else if p == seq!['@', '`'] {
        Some(seq!['r'])
    } else {
        None
    }
}

fn glide_after(p: &[char]) -> (r: Option<Vec<char>>)
    ensures
        r is Some == vv_glide(p@) is Some,
        r is Some ==> r->0@ == vv_glide(p@)->0,
{
    if is1(p, 'i') || is2(p, 'a', 'I') || is2(p, 'e', 'I') || is2(p, 'O', 'I') {
        Some(vec!['j'])
    } else if is1(p, 'u') || is2(p, 'a', 'U') || is2(p, 'o', 'U') {
        Some(vec!['w'])
    } else if is2(p, '@', '`') {
        Some(vec!['r'])
    } else {
        None
    }
}

/// Alternative phoneme symbols and the canonical phonemes they stand for.
pub open spec fn phoneme_alias(p: Seq<char>) -> Option<Seq<Seq<char>>> {
    if p == seq!['V'] {
        Some(seq![seq!['@']])
    } else if p == seq!['3', '`'] {
        Some(seq![seq!['@', '`']])
    } else if p == seq!['O'] {
        Some(seq![seq!['A']])
    } else if p == seq!['&'] || p == seq!['{'] {
        Some(seq![seq!['{', '}']])
    } else if p == seq!['O', 'r'] {
        Some(seq![seq!['o', 'U'], seq!['r']])
    } else if p == seq!['?'] || p == seq![' '] {
        Some(seq![seq!['_']])
    } else {
        None
    }
}

/// One phoneme as a one-element list.
fn single(p: Vec<char>) -> (r: Vec<Vec<char>>)
    ensures
        r.deep_view() == seq![p@],
{
    let ghost pv = p@;
    assert(p.deep_view() =~= pv);
    let r = vec![p];
    assert(r.deep_view() =~= seq![pv]);
    r
}

fn alias_of(p: &[char]) -> (r: Option<Vec<Vec<char>>>)
    ensures
        r is Some == phoneme_alias(p@) is Some,
        r is Some ==> r->0.deep_view() == phoneme_alias(p@)->0,
{
    let target: Vec<char> = if is1(p, 'V') {
        vec!['@']
    } else if is2(p, '3', '`') {
        vec!['@', '`']
    } else if is1(p, 'O') {
        vec!['A']
    } else if is1(p, '&') || is1(p, '{') {
        vec!['{', '}']
    } else if is2(p, 'O', 'r') {
        let mut r = single(vec!['o', 'U']);
        let rr = single(vec!['r']);
        append_all(&mut r, rr);
        assert(r.deep_view() =~~= seq![seq!['o', 'U'], seq!['r']]);
        return Some(r);
    } else if is1(p, '?') || is1(p, ' ') {
        vec!['_']
    } else {
        return None;
    };
    let r = single(target);
    assert(r.deep_view() =~~= phoneme_alias(p@)->0);
    Some(r)
}

/// Perform the cot-caught merger: /O/ becomes /A/, or /oU/ before /r/.
pub open spec fn cot_caught_merger(p: Seq<Seq<char>>) -> Seq<Seq<char>> {
    Seq::new(
        p.len(),
        |i: int|
            if p[i] == seq!['O'] {
                if i + 1 < p.len() && p[i + 1] == seq!['r'] {
                    seq!['o', 'U']
                } else {
                    seq!['A']
                }
            } else {
                p[i]
            },
    )
}

fn perform_cot_caught_merger(pronunciation: &mut Vec<Vec<char>>)
    ensures
        final(pronunciation).deep_view() == cot_caught_merger(old(pronunciation).deep_view()),
{
    let ghost p = pronunciation.deep_view();
    let len = pronunciation.len();
    assert forall|k: int| 0 <= k < len implies (#[trigger] pronunciation@[k])@ == p[k] by {
        assert(pronunciation@[k].deep_view() =~= pronunciation@[k]@);
    }
    let mut i: usize = 0;
    while i < len
        invariant
            0 <= i <= len,
            len == pronunciation.len(),
            p.len() == len,
            forall|k: int| 0 <= k < i ==> (#[trigger] pronunciation@[k])@ == cot_caught_merger(p)[k],
            forall|k: int| i <= k < len ==> (#[trigger] pronunciation@[k])@ == p[k],
        decreases len - i,
    {
        let is_o = is1(pronunciation[i].as_slice(), 'O');
        if is_o {
            let before_r = i + 1 < len && is1(pronunciation[i + 1].as_slice(), 'r');
            let replacement = if before_r {
                vec!['o', 'U']
            } else {
                vec!['A']
            };
            pronunciation.set(i, replacement);
        }
        i = i + 1;
    }
    assert forall|k: int| 0 <= k < len implies #[trigger] pronunciation.deep_view()[k] == cot_caught_merger(p)[k] by {
        assert(pronunciation@[k].deep_view() =~= pronunciation@[k]@);
    }
    assert(pronunciation.deep_view() =~= cot_caught_merger(p));
}

/// Insert glide consonants between adjacent vowels.
pub open spec fn fix_vv(p: Seq<Seq<char>>) -> Seq<Seq<char>>
    decreases p.len(),
{
    if p.len() == 0 {
        seq![]
    } else {
        let n = p.len() as int;
        let glide = if n >= 2 && is_vowel(p[n - 2]) && is_vowel(p[n - 1]) && vv_glide(p[n - 2]) is Some {
            seq![vv_glide(p[n - 2])->0]
        } else {
            seq![]
        };
        fix_vv(p.drop_last()) + glide + seq![p[n - 1]]
    }
}

fn fix_vv_diphones(pronunciation: &Vec<Vec<char>>) -> (r: Vec<Vec<char>>)
    ensures
        r.deep_view() == fix_vv(pronunciation.deep_view()),
{
    let ghost p = pronunciation.deep_view();
    let mut result: Vec<Vec<char>> = Vec::new();
    let mut prev_is_vowel = false;
    let mut i: usize = 0;
    while i < pronunciation.len()
        invariant
            0 <= i <= pronunciation.len(),
            p == pronunciation.deep_view(),
            result.deep_view() == fix_vv(p.take(i as int)),
            prev_is_vowel == (i > 0 && is_vowel(p[i - 1])),
        decreases pronunciation.len() - i,
    {
        let ghost before = result.deep_view();
        let phoneme = pronunciation[i].as_slice();
        assert(pronunciation[i as int].deep_view() =~= pronunciation[i as int]@);
        let is_v = vowel(phoneme);
        if prev_is_vowel && is_v {
            assert(pronunciation[i - 1].deep_view() =~= pronunciation[i - 1]@);
            match glide_after(pronunciation[i - 1].as_slice()) {
                Some(g) => {
                    let gg = single(g);
                    append_all(&mut result, gg);
                },
                None => {},
            }
        }
        let copy = copy_range(phoneme, 0, phoneme.len());
        let one = single(copy);
        append_all(&mut result, one);
        prev_is_vowel = is_v;
        proof {
            let q = p.take(i + 1);
            assert(q.drop_last() =~= p.take(i as int));
            assert(phoneme@.subrange(0, phoneme@.len() as int) =~= phoneme@);
            let n = q.len() as int;
            let glide = if n >= 2 && is_vowel(q[n - 2]) && is_vowel(q[n - 1]) && vv_glide(q[n - 2]) is Some {
                seq![vv_glide(q[n - 2])->0]
            } else {
                seq![]
            };
            assert(result.deep_view() =~= before + glide + seq![q[n - 1]]);
        }
        i = i + 1;
    }
    assert(p.take(p.len() as int) =~= p);
    result
}

/// A phoneme with its aliases resolved.
pub open spec fn resolve_alias(p: Seq<char>) -> Seq<Seq<char>> {
    match phoneme_alias(p) {
        Some(a) => a,
        None => seq![p],
    }
}

/// The phonemes with all aliases resolved.
pub open spec fn expand_aliases(p: Seq<Seq<char>>) -> Seq<Seq<char>>
    decreases p.len(),
{
    if p.len() == 0 {
        seq![]
    } else {
        expand_aliases(p.drop_last()) + resolve_alias(p.last())
    }
}

/// Whether entry `i` of `xs` is kept when repeats are dropped: it differs
/// from the entry before it (the first entry is compared with the empty
/// string), or it is a silence `_` and silences are kept.
pub open spec fn kept_after_previous(xs: Seq<Seq<char>>, i: int, keep_silence: bool) -> bool {
    let prev = if i == 0 {
        seq![]
    } else {
        xs[i - 1]
    };
    xs[i] != prev || (keep_silence && xs[i] == seq!['_'])
}

/// `xs` without immediate repeats.
pub open spec fn drop_repeats(xs: Seq<Seq<char>>, keep_silence: bool) -> Seq<Seq<char>>
    decreases xs.len(),
{
    if xs.len() == 0 {
        seq![]
    } else {
        drop_repeats(xs.drop_last(), keep_silence) + (if kept_after_previous(
            xs,
            xs.len() - 1,
            keep_silence,
        ) {
            seq![xs.last()]
        } else {
            seq![]
        })
    }
}

/// Canonicalize a pronunciation: resolve aliases and drop immediate
/// repeats of any phoneme but the silence `_`.
pub open spec fn normalized(p: Seq<Seq<char>>) -> Seq<Seq<char>> {
    drop_repeats(expand_aliases(p), true)
}

/// Drop immediate repeats from `xs`; silences are kept when `keep_silence`.
fn dedup(xs: &Vec<Vec<char>>, keep_silence: bool) -> (r: Vec<Vec<char>>)
    ensures
        r.deep_view() == drop_repeats(xs.deep_view(), keep_silence),
{
    let ghost v = xs.deep_view();
    let mut result: Vec<Vec<char>> = Vec::new();
    let mut i: usize = 0;
    while i < xs.len()
        invariant
            0 <= i <= xs.len(),
            v == xs.deep_view(),
            result.deep_view() == drop_repeats(v.take(i as int), keep_silence),
        decreases xs.len() - i,
    {
        let ghost before = result.deep_view();
        let p = xs[i].as_slice();
        assert(xs[i as int].deep_view() =~= xs[i as int]@);
        let same_as_prev = if i == 0 {
            p.len() == 0
        } else {
            assert(xs[i - 1].deep_view() =~= xs[i - 1]@);
            chars_eq(p, xs[i - 1].as_slice())
        };
        assert(same_as_prev == (v[i as int] == (if i == 0 { seq![] } else { v[i - 1] }))) by {
            if i == 0 && p.len() == 0 {
                assert(p@ =~= Seq::<char>::empty());
            }
        }
        let keep = !same_as_prev || (keep_silence && is1(p, '_'));
        if keep {
            let copy = copy_range(p, 0, p.len());
            assert(copy@ =~= p@);
            let one = single(copy);
            append_all(&mut result, one);
        }
        proof {
            let q = v.take(i + 1);
            assert(q.drop_last() =~= v.take(i as int));
            assert(kept_after_previous(q, i as int, keep_silence) == keep);
            if !keep {
                assert(before + seq![] =~= before);
            }
        }
        i = i + 1;
    }
    assert(v.take(v.len() as int) =~= v);
    result
}

/// Canonicalize pronunciation: apply aliases and deduplication.
fn normalize_pronunciation(pronunciation: &Vec<Vec<char>>) -> (r: Vec<Vec<char>>)
    ensures
        r.deep_view() == normalized(pronunciation.deep_view()),
{
    let ghost p = pronunciation.deep_view();
    let mut expanded: Vec<Vec<char>> = Vec::new();
    let mut i: usize = 0;
    while i < pronunciation.len()
        invariant
            0 <= i <= pronunciation.len(),
            p == pronunciation.deep_view(),
            expanded.deep_view() == expand_aliases(p.take(i as int)),
        decreases pronunciation.len() - i,
    {
        let ph = pronunciation[i].as_slice();
        assert(pronunciation[i as int].deep_view() =~= pronunciation[i as int]@);
        let resolved = match alias_of(ph) {
            Some(a) => a,
            None => {
                let copy = copy_range(ph, 0, ph.len());
                assert(copy@ =~= ph@);
                single(copy)
            },
        };
        append_all(&mut expanded, resolved);
        proof {
            assert(p.take(i + 1).drop_last() =~= p.take(i as int));
        }
        i = i + 1;
    }
    assert(p.take(p.len() as int) =~= p);
    dedup(&expanded, true)
}

/// Corrected pronunciations for a few words.
pub open spec fn dictionary_exception(word: Seq<char>) -> Option<Seq<Seq<char>>> {
    if word == seq!['a', 'n', 'd'] {
        Some(seq![seq!['{', '}'], seq!['n'], seq!['d']])
    } else if word == seq!['e', 'v', 'e', 'r', 'y'] {
        Some(seq![seq!['E'], seq!['v'], seq!['r'], seq!['i']])
    } else if word == seq!['o', 'd', 'd', 'v', 'o', 'i', 'c', 'e', 's'] {
        Some(seq![seq!['A'], seq!['d'], seq!['v'], seq!['O', 'I'], seq!['s'], seq!['E'], seq!['z']])
    } else if word == seq!['c', 'h', 'e', 's', 'n', 'o', 'k', 'o', 'v'] {
        Some(seq![seq!['t', 'S'], seq!['E'], seq!['z'], seq!['n'], seq!['o', 'U'], seq!['k'], seq!['A'], seq!['v']])
    } else {
        None
    }
}

fn exception_for(word: &[char]) -> (r: Option<Vec<Vec<char>>>)
    ensures
        r is Some == dictionary_exception(word@) is Some,
        r is Some ==> r->0.deep_view() == dictionary_exception(word@)->0,
{
    let w0: [char; 3] = ['a', 'n', 'd'];
    assert(w0@ =~= seq!['a', 'n', 'd']);
    let w1: [char; 5] = ['e', 'v', 'e', 'r', 'y'];
    assert(w1@ =~= seq!['e', 'v', 'e', 'r', 'y']);
    let w2: [char; 9] = ['o', 'd', 'd', 'v', 'o', 'i', 'c', 'e', 's'];
    assert(w2@ =~= seq!['o', 'd', 'd', 'v', 'o', 'i', 'c', 'e', 's']);
    let w3: [char; 9] = ['c', 'h', 'e', 's', 'n', 'o', 'k', 'o', 'v'];
    assert(w3@ =~= seq!['c', 'h', 'e', 's', 'n', 'o', 'k', 'o', 'v']);
    let v = if chars_eq(word, &w0) {
        vec![vec!['{', '}'], vec!['n'], vec!['d']]
    } else if chars_eq(word, &w1) {
        vec![vec!['E'], vec!['v'], vec!['r'], vec!['i']]
    } else if chars_eq(word, &w2) {
        vec![vec!['A'], vec!['d'], vec!['v'], vec!['O', 'I'], vec!['s'], vec!['E'], vec!['z']]
    } else if chars_eq(word, &w3) {
        vec![vec!['t', 'S'], vec!['E'], vec!['z'], vec!['n'], vec!['o', 'U'], vec!['k'], vec!['A'], vec!['v']]
    } else {
        return None;
    };
    assert(v.deep_view() =~~= dictionary_exception(word@)->0);
    Some(v)
}

/// The phoneme guessed for a letter pair.
pub open spec fn pair_guess(a: char, b: char) -> Option<Seq<char>> {
    match (a, b) {
        ('c', 'h') => Some(seq!['t', 'S']),
        ('s', 'h') => Some(seq!['S']),
        ('t', 'h') => Some(seq!['T']),
        ('n', 'g') => Some(seq!['N']),
        ('p', 'h') => Some(seq!['f']),
        ('w', 'h') => Some(seq!['w']),
        _ => None,
    }
}

/// The phoneme guessed for a single letter.
pub open spec fn letter_guess(c: char) -> Option<Seq<char>> {
    match c {
        'a' => Some(seq!['{', '}']),
        'b' => Some(seq!['b']),
        'c' => Some(seq!['k']),
        'd' => Some(seq!['d']),
        'e' => Some(seq!['E']),
        'f' => Some(seq!['f']),
        'g' => Some(seq!['g']),
        'h' => Some(seq!['h']),
        'i' => Some(seq!['I']),
        'j' => Some(seq!['d', 'Z']),
        'k' => Some(seq!['k']),
        'l' => Some(seq!['l']),
        'm' => Some(seq!['m']),
        'n' => Some(seq!['n']),
        'o' => Some(seq!['A']),
        'p' => Some(seq!['p']),
        'q' => Some(seq!['k']),
        'r' => Some(seq!['r']),
        's' => Some(seq!['s']),
        't' => Some(seq!['t']),
        'u' => Some(seq!['u']),
        'v' => Some(seq!['v']),
        'w' => Some(seq!['w']),
        'x' => Some(seq!['k', 's']),
        'y' => Some(seq!['i']),
        'z' => Some(seq!['z']),
        _ => None,
    }
}

fn guess_pair(a: char, b: char) -> (r: Option<Vec<char>>)
    ensures
        r is Some == pair_guess(a, b) is Some,
        r is Some ==> r->0@ == pair_guess(a, b)->0,
{
    match (a, b) {
        ('c', 'h') => Some(vec!['t', 'S']),
        ('s', 'h') => Some(vec!['S']),
        ('t', 'h') => Some(vec!['T']),
        ('n', 'g') => Some(vec!['N']),
        ('p', 'h') => Some(vec!['f']),
        ('w', 'h') => Some(vec!['w']),
        _ => None,
    }
}

fn guess_letter(c: char) -> (r: Option<Vec<char>>)
    ensures
        r is Some == letter_guess(c) is Some,
        r is Some ==> r->0@ == letter_guess(c)->0,
{
    match c {
        'a' => Some(vec!['{', '}']),
        'b' => Some(vec!['b']),
        'c' => Some(vec!['k']),
        'd' => Some(vec!['d']),
        'e' => Some(vec!['E']),
        'f' => Some(vec!['f']),
        'g' => Some(vec!['g']),
        'h' => Some(vec!['h']),
        'i' => Some(vec!['I']),
        'j' => Some(vec!['d', 'Z']),
        'k' => Some(vec!['k']),
        'l' => Some(vec!['l']),
        'm' => Some(vec!['m']),
        'n' => Some(vec!['n']),
        'o' => Some(vec!['A']),
        'p' => Some(vec!['p']),
        'q' => Some(vec!['k']),
        'r' => Some(vec!['r']),
        's' => Some(vec!['s']),
        't' => Some(vec!['t']),
        'u' => Some(vec!['u']),
        'v' => Some(vec!['v']),
        'w' => Some(vec!['w']),
        'x' => Some(vec!['k', 's']),
        'y' => Some(vec!['i']),
        'z' => Some(vec!['z']),
        _ => None,
    }
}

/// Phonemes guessed from spelling: letter pairs first, then single
/// letters; other characters are skipped.
pub open spec fn guessed_phonemes(s: Seq<char>) -> Seq<Seq<char>>
    decreases s.len(),
{
    if s.len() == 0 {
        seq![]
    } else if s.len() >= 2 && pair_guess(s[0], s[1]) is Some {
        seq![pair_guess(s[0], s[1])->0] + guessed_phonemes(s.skip(2))
    } else if letter_guess(s[0]) is Some {
        seq![letter_guess(s[0])->0] + guessed_phonemes(s.drop_first())
    } else {
        guessed_phonemes(s.drop_first())
    }
}

/// The pronunciation guessed for an out-of-vocabulary word: guesses from
/// its ASCII-lowercased spelling, without immediate repeats.
pub open spec fn oov_phonemes(word: Seq<char>) -> Seq<Seq<char>> {
    drop_repeats(guessed_phonemes(word.map_values(|c: char| ascii_lower(c))), false)
}

/// Out-of-vocabulary pronunciation guesser.
fn pronounce_oov(word: &[char]) -> (r: Vec<Vec<char>>)
    ensures
        r.deep_view() == oov_phonemes(word@),
{
    let mut chars: Vec<char> = Vec::new();
    let mut k: usize = 0;
    while k < word.len()
        invariant
            0 <= k <= word.len(),
            chars@ == word@.take(k as int).map_values(|c: char| ascii_lower(c)),
        decreases word.len() - k,
    {
        chars.push(to_ascii_lower(word[k]));
        k = k + 1;
        assert(chars@ =~= word@.take(k as int).map_values(|c: char| ascii_lower(c)));
    }
    let ghost lowered = word@.map_values(|c: char| ascii_lower(c));
    assert(word@.take(word.len() as int) =~= word@);
    let mut result: Vec<Vec<char>> = Vec::new();
    let mut i: usize = 0;
    assert(chars@.skip(0) =~= chars@);
    while i < chars.len()
        invariant
            0 <= i <= chars.len(),
            chars@ == lowered,
            guessed_phonemes(lowered) == result.deep_view() + guessed_phonemes(chars@.skip(i as int)),
        decreases chars.len() - i,
    {
        let ghost rest = chars@.skip(i as int);
        let ghost before = result.deep_view();
        let pair = if i + 1 < chars.len() {
            guess_pair(chars[i], chars[i + 1])
        } else {
            None
        };
        match pair {
            Some(p) => {
                let one = single(p);
                append_all(&mut result, one);
                assert(rest.skip(2) =~= chars@.skip(i + 2));
                i = i + 2;
            },
            None => {
                assert(!(rest.len() >= 2 && pair_guess(rest[0], rest[1]) is Some));
                match guess_letter(chars[i]) {
                    Some(p) => {
                        let one = single(p);
                        append_all(&mut result, one);
                    },
                    None => {
                        assert(before + seq![] =~= before);
                    },
                }
                assert(rest.drop_first() =~= chars@.skip(i + 1));
                i = i + 1;
            },
        }
        proof {
            assert(guessed_phonemes(lowered) =~= result.deep_view() + guessed_phonemes(chars@.skip(i as int)));
        }
    }
    assert(chars@.skip(i as int) =~= Seq::<char>::empty());
    assert(result.deep_view() + seq![] =~= result.deep_view());
    dedup(&result, false)
}

/// Sentence punctuation, kept as tokens of its own.
pub open spec fn is_sentence_punct(c: char) -> bool {
    c == ',' || c == '.' || c == '!' || c == '?'
}

/// Characters that belong to words.
pub open spec fn is_word_char(c: char) -> bool {
    alphabetic(c) || c == '\'' || c == '-'
}

/// The tokens completed after reading `s`, and the word in progress.
pub open spec fn token_scan(s: Seq<char>) -> (Seq<Seq<char>>, Seq<char>)
    decreases s.len(),
{
    if s.len() == 0 {
        (seq![], seq![])
    } else {
        let (words, cur) = token_scan(s.drop_last());
        let c = s.last();
        if is_word_char(c) {
            (words, cur.push(ascii_lower(c)))
        } else if white_space(c) || is_sentence_punct(c) {
            let w1 = if cur.len() > 0 {
                words.push(cur)
            } else {
                words
            };
            (
                if is_sentence_punct(c) {
                    w1.push(seq![c])
                } else {
                    w1
                },
                seq![],
            )
        } else {
            (words, cur)
        }
    }
}

/// The tokens of a text: words (letters, apostrophes and hyphens, in ASCII
/// lowercase) and sentence punctuation; white space separates words and
/// other characters are dropped.
pub open spec fn text_tokens(s: Seq<char>) -> Seq<Seq<char>> {
    let (words, cur) = token_scan(s);
    if cur.len() > 0 {
        words.push(cur)
    } else {
        words
    }
}

/// A sequence without the character `/`.
pub open spec fn has_no_slash(t: Seq<char>) -> bool {
    forall|k: int| 0 <= k < t.len() ==> t[k] != '/'
}

/// Tokenize a text into words and punctuation.
fn tokenize(text: &[char]) -> (words: Vec<Vec<char>>)
    ensures
        words.deep_view() == text_tokens(text@),
        forall|k: int| 0 <= k < words@.len() ==> #[trigger] words@[k]@.len() > 0 && has_no_slash(words@[k]@),
{
    let mut words: Vec<Vec<char>> = Vec::new();
    let mut current: Vec<char> = Vec::new();
    let mut i: usize = 0;
    while i < text.len()
        invariant
            0 <= i <= text.len(),
            token_scan(text@.take(i as int)) == (words.deep_view(), current@),
            has_no_slash(current@),
            forall|k: int| 0 <= k < words@.len() ==> #[trigger] words@[k]@.len() > 0 && has_no_slash(words@[k]@),
        decreases text.len() - i,
    {
        proof {
            assert(text@.take(i + 1).drop_last() =~= text@.take(i as int));
        }
        let ghost w0 = words.deep_view();
        let c = text[i];
        let alpha = is_alphabetic(c);
        if alpha || c == '\'' || c == '-' {
            let l = to_ascii_lower(c);
            current.push(l);
        } else if is_white_space(c) || c == ',' || c == '.' || c == '!' || c == '?' {
            if current.len() > 0 {
                let ghost cur0 = current@;
                assert(current.deep_view() =~= cur0);
                words.push(current);
                current = Vec::new();
                assert(words.deep_view() =~= w0.push(cur0));
            }
            let ghost w1 = words.deep_view();
            if c == ',' || c == '.' || c == '!' || c == '?' {
                let p = vec![c];
                assert(p.deep_view() =~= seq![c]);
                words.push(p);
                assert(words.deep_view() =~= w1.push(seq![c]));
            }
            current = Vec::new();
            assert(current@ =~= Seq::<char>::empty());
        }
        i = i + 1;
    }
    assert(text@.take(text.len() as int) =~= text@);
    if current.len() > 0 {
        let ghost w0 = words.deep_view();
        let ghost cur0 = current@;
        assert(current.deep_view() =~= cur0);
        words.push(current);
        assert(words.deep_view() =~= w0.push(cur0));
    }
    words
}

/// The pronunciation of a word before glides are inserted and aliases
/// resolved: an explicit `/phonemes/` spelling, a corrected pronunciation,
/// the dictionary pronunciation (after the cot-caught merger), or a guess.
pub open spec fn base_pronunciation(word: Seq<char>) -> Seq<Seq<char>> {
    if word.len() > 0 && word[0] == '/' {
        moby_pronunciation(word.subrange(1, word.len() - 1))
    } else {
        match dictionary_exception(word) {
            Some(e) => e,
            None => match dictionary_lookup(word) {
                Some(d) => cot_caught_merger(d),
                None => oov_phonemes(word),
            },
        }
    }
}

/// The X-SAMPA phonemes of a word.
pub open spec fn word_phonemes(word: Seq<char>) -> Seq<Seq<char>> {
    normalized(fix_vv(base_pronunciation(word)))
}

/// An explicit `/phonemes/` spelling has a closing character, and that
/// character is ASCII.
pub open spec fn explicit_spelling_ok(word: Seq<char>) -> bool {
    word.len() > 0 && word[0] == '/' ==> word.len() >= 2 && (word.last() as int) < 128
}

/// The phonemes of a word, from its characters.
fn pronounce_chars(word: &[char]) -> (r: Vec<Vec<char>>)
    requires
        explicit_spelling_ok(word@),
    ensures
        r.deep_view() == word_phonemes(word@),
{
    let base = if word.len() > 0 && word[0] == '/' {
        let inner = copy_range(word, 1, word.len() - 1);
        parse_pronunciation_chars(&inner)
    } else {
        match exception_for(word) {
            Some(e) => e,
            None => match lookup_chars(word) {
                Some(d) => {
                    let mut d = d;
                    perform_cot_caught_merger(&mut d);
                    d
                },
                None => pronounce_oov(word),
            },
        }
    };
    let fixed = fix_vv_diphones(&base);
    normalize_pronunciation(&fixed)
}

/// The phonemes of a list of words, one word after another.
pub open spec fn words_phonemes(ws: Seq<Seq<char>>) -> Seq<Seq<char>>
    decreases ws.len(),
{
    if ws.len() == 0 {
        seq![]
    } else {
        words_phonemes(ws.drop_last()) + word_phonemes(ws.last())
    }
}

/// The X-SAMPA phonemes of a text.
pub open spec fn text_phonemes(text: Seq<char>) -> Seq<Seq<char>> {
    words_phonemes(text_tokens(text))
}

/// Full grapheme-to-phoneme converter over the embedded dictionary.
/// It holds no state: every lookup goes to the embedded table, which holds
/// only a sample of Moby entries (see `lookup_static`); other words are
/// pronounced by the spelling-based guesser.
pub struct G2P;

impl Default for G2P {
    fn default() -> (g: Self)
        ensures
            g == G2P,
    {
        G2P
    }
}

impl G2P {
    /// Create a new converter.
    pub fn new() -> (g: Self)
        ensures
            g == G2P,
    {
        G2P
    }

    /// Pronounce a single word, returning X-SAMPA phonemes. A word that
    /// starts with `/` is an explicit Moby spelling (its first and last
    /// characters are the delimiters).
    pub fn pronounce_word(&self, word: &str) -> (phonemes: Vec<String>)
        requires
            explicit_spelling_ok(word@),
        ensures
            phonemes.deep_view() == word_phonemes(word@),
    {
        let w = chars_of(word);
        let r = pronounce_chars(&w);
        strings_of(&r)
    }

    /// Pronounce a text (any number of words).
    pub fn pronounce(&self, text: &str) -> (phonemes: Vec<String>)
        ensures
            phonemes.deep_view() == text_phonemes(text@),
    {
        let chars = chars_of(text);
        let words = tokenize(&chars);
        let ghost ws = words.deep_view();
        let mut result: Vec<Vec<char>> = Vec::new();
        let mut i: usize = 0;
        while i < words.len()
            invariant
                0 <= i <= words.len(),
                ws == words.deep_view(),
                forall|k: int| 0 <= k < words@.len() ==> #[trigger] words@[k]@.len() > 0 && has_no_slash(words@[k]@),
                result.deep_view() == words_phonemes(ws.take(i as int)),
            decreases words.len() - i,
        {
            let w = words[i].as_slice();
            assert(words[i as int]@[0] != '/');
            assert(words[i as int].deep_view() =~= words[i as int]@);
            let p = pronounce_chars(w);
            append_all(&mut result, p);
            assert(ws.take(i + 1).drop_last() =~= ws.take(i as int));
            i = i + 1;
        }
        assert(ws.take(ws.len() as int) =~= ws);
        strings_of(&result)
    }
}

/// After the cot-caught merger no `O` is left.
pub proof fn law_cot_caught_leaves_no_open_o(p: Seq<Seq<char>>)
    ensures
        forall|i: int| 0 <= i < p.len() ==> #[trigger] cot_caught_merger(p)[i] != seq!['O'],
{
    assert forall|i: int| 0 <= i < p.len() implies #[trigger] cot_caught_merger(p)[i] != seq!['O'] by {
        if p[i] == seq!['O'] {
            assert(seq!['o', 'U'] != seq!['O']) by {
                assert(seq!['o', 'U'].len() != seq!['O'].len());
            }
            assert(seq!['A'][0] != seq!['O'][0]);
        }
    }
}

/// `fix_vv` keeps the last phoneme last.
proof fn lemma_fix_vv_last(p: Seq<Seq<char>>)
    requires
        p.len() > 0,
    ensures
        fix_vv(p).len() > 0,
        fix_vv(p).last() == p.last(),
{
}

/// After glides are inserted, no vowel that takes a glide is directly
/// followed by another vowel.
pub proof fn law_fix_vv_separates_vowels(p: Seq<Seq<char>>)
    ensures
        forall|i: int|
            0 <= i < fix_vv(p).len() - 1 ==> !(is_vowel(#[trigger] fix_vv(p)[i]) && vv_glide(
                fix_vv(p)[i],
            ) is Some && is_vowel(fix_vv(p)[i + 1])),
    decreases p.len(),
{
    if p.len() > 0 {
        let q = p.drop_last();
        law_fix_vv_separates_vowels(q);
        let n = p.len() as int;
        let f0 = fix_vv(q);
        let glide = if n >= 2 && is_vowel(p[n - 2]) && is_vowel(p[n - 1]) && vv_glide(p[n - 2]) is Some {
            seq![vv_glide(p[n - 2])->0]
        } else {
            seq![]
        };
        let f = fix_vv(p);
        assert(f == f0 + glide + seq![p[n - 1]]);
        if n >= 2 {
            lemma_fix_vv_last(q);
            assert(q.last() == p[n - 2]);
        }
        assert forall|i: int| 0 <= i < f.len() - 1 implies !(is_vowel(#[trigger] f[i]) && vv_glide(
            f[i],
        ) is Some && is_vowel(f[i + 1])) by {
            if i < f0.len() - 1 {
                assert(f[i] == f0[i] && f[i + 1] == f0[i + 1]);
            } else if i == f0.len() - 1 {
                assert(f[i] == f0.last());
            }
        }
    }
}

/// Entries that survive the dropping of repeats.
proof fn lemma_drop_repeats(xs: Seq<Seq<char>>, keep_silence: bool)
    ensures
        drop_repeats(xs, keep_silence).len() <= xs.len(),
        forall|i: int|
            0 <= i < drop_repeats(xs, keep_silence).len() ==> exists|j: int|
                0 <= j < xs.len() && #[trigger] drop_repeats(xs, keep_silence)[i] == xs[j],
        drop_repeats(xs, keep_silence).len() > 0 ==> drop_repeats(xs, keep_silence).last() == xs.last(),
        drop_repeats(xs, keep_silence).len() == 0 ==> forall|i: int|
            0 <= i < xs.len() ==> xs[i] == Seq::<char>::empty(),
        drop_repeats(xs, keep_silence).len() > 0 ==> drop_repeats(xs, keep_silence)[0]
            != Seq::<char>::empty() || (keep_silence && drop_repeats(xs, keep_silence)[0] == seq!['_']),
        forall|i: int|
            0 <= i < drop_repeats(xs, keep_silence).len() - 1 ==> (#[trigger] drop_repeats(
                xs,
                keep_silence,
            )[i] != drop_repeats(xs, keep_silence)[i + 1] || (keep_silence && drop_repeats(
                xs,
                keep_silence,
            )[i + 1] == seq!['_'])),
    decreases xs.len(),
{
    if xs.len() > 0 {
        let q = xs.drop_last();
        lemma_drop_repeats(q, keep_silence);
        let r0 = drop_repeats(q, keep_silence);
        let r = drop_repeats(xs, keep_silence);
        let n = xs.len() as int;
        if kept_after_previous(xs, n - 1, keep_silence) {
            assert(r =~= r0.push(xs.last()));
            assert forall|i: int| 0 <= i < r.len() implies exists|j: int| 0 <= j < xs.len() && #[trigger] r[i] == xs[j] by {
                if i < r0.len() {
                    let j = choose|j: int| 0 <= j < q.len() && r0[i] == q[j];
                    assert(r[i] == xs[j]);
                } else {
                    assert(r[i] == xs[n - 1]);
                }
            }
            assert forall|i: int| 0 <= i < r.len() - 1 implies (#[trigger] r[i] != r[i + 1] || (keep_silence
                && r[i + 1] == seq!['_'])) by {
                if i < r0.len() - 1 {
                    assert(r[i] == r0[i] && r[i + 1] == r0[i + 1]);
                } else {
                    assert(r[i] == r0.last());
                    assert(r0.last() == q.last());
                    assert(q.last() == xs[n - 2]);
                }
            }
        } else {
            assert(r =~= r0);
            assert forall|i: int| 0 <= i < r.len() implies exists|j: int| 0 <= j < xs.len() && #[trigger] r[i] == xs[j] by {
                let j = choose|j: int| 0 <= j < q.len() && r0[i] == q[j];
                assert(r[i] == xs[j]);
            }
            if r.len() > 0 {
                assert(xs.last() == xs[n - 2]);
            } else {
                assert forall|i: int| 0 <= i < xs.len() implies xs[i] == Seq::<char>::empty() by {
                    if i < n - 1 {
                        assert(xs[i] == q[i]);
                    }
                }
            }
        }
    }
}

/// Canonical phonemes: no alias symbol is left, and no phoneme but the
/// silence `_` is directly repeated.
pub proof fn law_normalized_is_canonical(p: Seq<Seq<char>>)
    ensures
        forall|i: int| 0 <= i < normalized(p).len() ==> phoneme_alias(#[trigger] normalized(p)[i]) is None,
        forall|i: int|
            0 <= i < normalized(p).len() - 1 ==> (#[trigger] normalized(p)[i] != normalized(p)[i + 1]
                || normalized(p)[i] == seq!['_']),
{
    let e = expand_aliases(p);
    lemma_expanded_has_no_alias(p);
    lemma_drop_repeats(e, true);
}

/// Alias resolution leaves no alias symbol.
proof fn lemma_expanded_has_no_alias(p: Seq<Seq<char>>)
    ensures
        forall|i: int| 0 <= i < expand_aliases(p).len() ==> phoneme_alias(#[trigger] expand_aliases(p)[i]) is None,
    decreases p.len(),
{
    if p.len() > 0 {
        lemma_expanded_has_no_alias(p.drop_last());
        let e0 = expand_aliases(p.drop_last());
        let t = resolve_alias(p.last());
        assert forall|i: int| 0 <= i < t.len() implies phoneme_alias(#[trigger] t[i]) is None by {
            lemma_alias_targets_are_canonical(p.last(), i);
        }
        assert forall|i: int| 0 <= i < expand_aliases(p).len() implies phoneme_alias(
            #[trigger] expand_aliases(p)[i],
        ) is None by {
            if i < e0.len() {
                assert(expand_aliases(p)[i] == e0[i]);
            } else {
                assert(expand_aliases(p)[i] == t[i - e0.len()]);
            }
        }
    }
}

/// The phonemes an alias stands for are no aliases themselves.
proof fn lemma_alias_targets_are_canonical(p: Seq<char>, i: int)
    requires
        0 <= i < resolve_alias(p).len(),
    ensures
        phoneme_alias(resolve_alias(p)[i]) is None,
{
    let t = resolve_alias(p)[i];
    if phoneme_alias(p) is Some {
        assert(t == seq!['@'] || t == seq!['@', '`'] || t == seq!['A'] || t == seq!['{', '}'] || t
            == seq!['o', 'U'] || t == seq!['r'] || t == seq!['_']);
        assert(t.len() == 1 ==> t[0] != 'V' && t[0] != 'O' && t[0] != '&' && t[0] != '{' && t[0]
            != '?' && t[0] != ' ');
        assert(t.len() == 2 ==> t[0] != '3' && !(t[0] == 'O' && t[1] == 'r'));
    }
}

/// Resolving aliases changes nothing when no alias symbol is present.
proof fn lemma_expand_without_aliases(ys: Seq<Seq<char>>)
    requires
        forall|i: int| 0 <= i < ys.len() ==> phoneme_alias(#[trigger] ys[i]) is None,
    ensures
        expand_aliases(ys) == ys,
    decreases ys.len(),
{
    if ys.len() > 0 {
        let q = ys.drop_last();
        assert forall|i: int| 0 <= i < q.len() implies phoneme_alias(#[trigger] q[i]) is None by {
            assert(q[i] == ys[i]);
        }
        lemma_expand_without_aliases(q);
        assert(ys.last() == ys[ys.len() - 1]);
        assert(expand_aliases(ys) =~= ys);
    }
}

/// Dropping repeats changes nothing when there are none.
proof fn lemma_drop_repeats_without_repeats(ys: Seq<Seq<char>>)
    requires
        ys.len() > 0 ==> ys[0] != Seq::<char>::empty() || ys[0] == seq!['_'],
        forall|i: int| 0 <= i < ys.len() - 1 ==> (#[trigger] ys[i] != ys[i + 1] || ys[i + 1] == seq!['_']),
    ensures
        drop_repeats(ys, true) == ys,
    decreases ys.len(),
{
    if ys.len() > 0 {
        let q = ys.drop_last();
        assert forall|i: int| 0 <= i < q.len() - 1 implies (#[trigger] q[i] != q[i + 1] || q[i + 1] == seq!['_']) by {
            assert(q[i] == ys[i] && q[i + 1] == ys[i + 1]);
        }
        if q.len() > 0 {
            assert(q[0] == ys[0]);
        }
        lemma_drop_repeats_without_repeats(q);
        let n = ys.len() as int;
        if n >= 2 {
            assert(ys[n - 2] != ys[n - 1] || ys[n - 1] == seq!['_']);
        }
        assert(kept_after_previous(ys, n - 1, true));
        assert(drop_repeats(ys, true) =~= ys);
    }
}

/// Canonicalizing twice is the same as canonicalizing once.
pub proof fn law_normalized_idempotent(p: Seq<Seq<char>>)
    ensures
        normalized(normalized(p)) == normalized(p),
{
    let y = normalized(p);
    law_normalized_is_canonical(p);
    lemma_drop_repeats(expand_aliases(p), true);
    lemma_expand_without_aliases(y);
    assert forall|i: int| 0 <= i < y.len() - 1 implies (#[trigger] y[i] != y[i + 1] || y[i + 1] == seq!['_']) by {
        if y[i] == y[i + 1] {
            assert(y[i] == seq!['_']);
        }
    }
    lemma_drop_repeats_without_repeats(y);
}

/// A guessed pronunciation never repeats a phoneme directly.
pub proof fn law_oov_has_no_repeats(word: Seq<char>)
    ensures
        forall|i: int|
            0 <= i < oov_phonemes(word).len() - 1 ==> #[trigger] oov_phonemes(word)[i] != oov_phonemes(word)[i + 1],
{
    lemma_drop_repeats(guessed_phonemes(word.map_values(|c: char| ascii_lower(c))), false);
}

/// An explicit `/phonemes/` spelling is pronounced as its Moby parse,
/// with glides inserted and aliases resolved.
pub proof fn law_explicit_spelling(inner: Seq<char>, close: char)
    ensures
        word_phonemes(seq!['/'] + inner + seq![close]) == normalized(fix_vv(moby_pronunciation(inner))),
{
    let w = seq!['/'] + inner + seq![close];
    assert(w.subrange(1, w.len() - 1) =~= inner);
}

/// One guessing step on a spelling that starts with a letter pair.
proof fn lemma_pair_step(a: char, b: char, rest: Seq<char>, x: Seq<char>)
    requires
        pair_guess(a, b) == Some(x),
    ensures
        guessed_phonemes(seq![a, b] + rest) == seq![x] + guessed_phonemes(rest),
{
    let s = seq![a, b] + rest;
    assert(s[0] == a && s[1] == b);
    assert(s.skip(2) =~= rest);
}

/// The guesser reads each of the letter pairs `ch`, `sh`, `th`, `ng`, `ph`
/// and `wh` as one phoneme (tS, S, T, N, f and w), whatever follows.
pub proof fn law_letter_pairs_guessed(rest: Seq<char>)
    ensures
        guessed_phonemes(seq!['c', 'h'] + rest) == seq![seq!['t', 'S']] + guessed_phonemes(rest),
        guessed_phonemes(seq!['s', 'h'] + rest) == seq![seq!['S']] + guessed_phonemes(rest),
        guessed_phonemes(seq!['t', 'h'] + rest) == seq![seq!['T']] + guessed_phonemes(rest),
        guessed_phonemes(seq!['n', 'g'] + rest) == seq![seq!['N']] + guessed_phonemes(rest),
        guessed_phonemes(seq!['p', 'h'] + rest) == seq![seq!['f']] + guessed_phonemes(rest),
        guessed_phonemes(seq!['w', 'h'] + rest) == seq![seq!['w']] + guessed_phonemes(rest),
{
    lemma_pair_step('c', 'h', rest, seq!['t', 'S']);
    lemma_pair_step('s', 'h', rest, seq!['S']);
    lemma_pair_step('t', 'h', rest, seq!['T']);
    lemma_pair_step('n', 'g', rest, seq!['N']);
    lemma_pair_step('p', 'h', rest, seq!['f']);
    lemma_pair_step('w', 'h', rest, seq!['w']);
}

/// Reading word characters extends the word in progress with their ASCII
/// lowercase and completes no token.
proof fn lemma_scan_word_chars(p: Seq<char>, w: Seq<char>)
    requires
        forall|k: int| 0 <= k < w.len() ==> is_word_char(#[trigger] w[k]),
    ensures
        token_scan(p + w) == (token_scan(p).0, token_scan(p).1 + w.map_values(|c: char| ascii_lower(c))),
    decreases w.len(),
{
    if w.len() == 0 {
        assert(p + w =~= p);
        assert(token_scan(p).1 + w.map_values(|c: char| ascii_lower(c)) =~= token_scan(p).1);
    } else {
        let w0 = w.drop_last();
        assert forall|k: int| 0 <= k < w0.len() implies is_word_char(#[trigger] w0[k]) by {
            assert(w0[k] == w[k]);
        }
        lemma_scan_word_chars(p, w0);
        assert((p + w).drop_last() =~= p + w0);
        assert((p + w).last() == w.last());
        assert(is_word_char(w[w.len() - 1]));
        assert(w.map_values(|c: char| ascii_lower(c)) =~= w0.map_values(|c: char| ascii_lower(c)).push(
            ascii_lower(w.last()),
        ));
    }
}

/// White space separates words: two words of word characters (letters,
/// apostrophes, hyphens) with a white-space character between them are two
/// tokens, in ASCII lowercase, and the text is pronounced as the one word
/// after the other.
pub proof fn law_white_space_separates_words(w1: Seq<char>, c: char, w2: Seq<char>)
    requires
        w1.len() > 0,
        w2.len() > 0,
        forall|k: int| 0 <= k < w1.len() ==> is_word_char(#[trigger] w1[k]),
        forall|k: int| 0 <= k < w2.len() ==> is_word_char(#[trigger] w2[k]),
        white_space(c),
        !is_word_char(c),
        !is_sentence_punct(c),
    ensures
        text_tokens(w1 + seq![c] + w2) == seq![
            w1.map_values(|x: char| ascii_lower(x)),
            w2.map_values(|x: char| ascii_lower(x)),
        ],
        text_phonemes(w1 + seq![c] + w2) == word_phonemes(w1.map_values(|x: char| ascii_lower(x)))
            + word_phonemes(w2.map_values(|x: char| ascii_lower(x))),
{
    let l1 = w1.map_values(|x: char| ascii_lower(x));
    let l2 = w2.map_values(|x: char| ascii_lower(x));
    let e = Seq::<char>::empty();
    lemma_scan_word_chars(e, w1);
    assert(e + w1 =~= w1);
    assert(token_scan(w1) == (Seq::<Seq<char>>::empty(), l1));
    assert(token_scan(e) == (Seq::<Seq<char>>::empty(), e));
    assert(e + l1 =~= l1);
    let p = w1 + seq![c];
    assert(p.drop_last() =~= w1);
    assert(p.last() == c);
    assert(l1.len() > 0);
    assert(token_scan(p) == (seq![l1], e));
    lemma_scan_word_chars(p, w2);
    assert(p + w2 =~= w1 + seq![c] + w2);
    assert(e + l2 =~= l2);
    assert(l2.len() > 0);
    let ts = text_tokens(w1 + seq![c] + w2);
    assert(ts =~= seq![l1, l2]);
    assert(ts.drop_last() =~= seq![l1]);
    assert(seq![l1].drop_last() =~= Seq::<Seq<char>>::empty());
    assert(words_phonemes(seq![l1]) =~= word_phonemes(l1)) by {
        assert(words_phonemes(Seq::<Seq<char>>::empty()) == Seq::<Seq<char>>::empty());
    }
    assert(words_phonemes(ts) == words_phonemes(seq![l1]) + word_phonemes(l2));
}

/// One guessing step on a spelling that starts with a letter that forms
/// no letter pair with the next one.
proof fn lemma_letter_step(l: char, rest: Seq<char>, x: Seq<char>)
    requires
        letter_guess(l) == Some(x),
        rest.len() == 0 || pair_guess(l, rest[0]) is None,
    ensures
        guessed_phonemes(seq![l] + rest) == seq![x] + guessed_phonemes(rest),
{
    let s = seq![l] + rest;
    assert(s[0] == l);
    if s.len() >= 2 {
        assert(s[1] == rest[0]);
    }
    assert(s.drop_first() =~= rest);
}

/// The guesser reads each letter `a`..`z` as its phoneme, whatever follows,
/// as long as the next letter does not complete a letter pair (the second
/// letter of every pair is `h` or `g`).
pub proof fn law_single_letters_guessed(rest: Seq<char>)
    requires
        rest.len() == 0 || (rest[0] != 'h' && rest[0] != 'g'),
    ensures
        guessed_phonemes(seq!['a'] + rest) == seq![seq!['{', '}']] + guessed_phonemes(rest),
        guessed_phonemes(seq!['b'] + rest) == seq![seq!['b']] + guessed_phonemes(rest),
        guessed_phonemes(seq!['c'] + rest) == seq![seq!['k']] + guessed_phonemes(rest),
        guessed_phonemes(seq!['d'] + rest) == seq![seq!['d']] + guessed_phonemes(rest),
        guessed_phonemes(seq!['e'] + rest) == seq![seq!['E']] + guessed_phonemes(rest),
        guessed_phonemes(seq!['f'] + rest) == seq![seq!['f']] + guessed_phonemes(rest),
        guessed_phonemes(seq!['g'] + rest) == seq![seq!['g']] + guessed_phonemes(rest),
        guessed_phonemes(seq!['h'] + rest) == seq![seq!['h']] + guessed_phonemes(rest),
        guessed_phonemes(seq!['i'] + rest) == seq![seq!['I']] + guessed_phonemes(rest),
        guessed_phonemes(seq!['j'] + rest) == seq![seq!['d', 'Z']] + guessed_phonemes(rest),
        guessed_phonemes(seq!['k'] + rest) == seq![seq!['k']] + guessed_phonemes(rest),
        guessed_phonemes(seq!['l'] + rest) == seq![seq!['l']] + guessed_phonemes(rest),
        guessed_phonemes(seq!['m'] + rest) == seq![seq!['m']] + guessed_phonemes(rest),
        guessed_phonemes(seq!['n'] + rest) == seq![seq!['n']] + guessed_phonemes(rest),
        guessed_phonemes(seq!['o'] + rest) == seq![seq!['A']] + guessed_phonemes(rest),
        guessed_phonemes(seq!['p'] + rest) == seq![seq!['p']] + guessed_phonemes(rest),
        guessed_phonemes(seq!['q'] + rest) == seq![seq!['k']] + guessed_phonemes(rest),
        guessed_phonemes(seq!['r'] + rest) == seq![seq!['r']] + guessed_phonemes(rest),
        guessed_phonemes(seq!['s'] + rest) == seq![seq!['s']] + guessed_phonemes(rest),
        guessed_phonemes(seq!['t'] + rest) == seq![seq!['t']] + guessed_phonemes(rest),
        guessed_phonemes(seq!['u'] + rest) == seq![seq!['u']] + guessed_phonemes(rest),
        guessed_phonemes(seq!['v'] + rest) == seq![seq!['v']] + guessed_phonemes(rest),
        guessed_phonemes(seq!['w'] + rest) == seq![seq!['w']] + guessed_phonemes(rest),
        guessed_phonemes(seq!['x'] + rest) == seq![seq!['k', 's']] + guessed_phonemes(rest),
        guessed_phonemes(seq!['y'] + rest) == seq![seq!['i']] + guessed_phonemes(rest),
        guessed_phonemes(seq!['z'] + rest) == seq![seq!['z']] + guessed_phonemes(rest),
{
    lemma_letter_step('a', rest, seq!['{', '}']);
    lemma_letter_step('b', rest, seq!['b']);
    lemma_letter_step('c', rest, seq!['k']);
    lemma_letter_step('d', rest, seq!['d']);
    lemma_letter_step('e', rest, seq!['E']);
    lemma_letter_step('f', rest, seq!['f']);
    lemma_letter_step('g', rest, seq!['g']);
    lemma_letter_step('h', rest, seq!['h']);
    lemma_letter_step('i', rest, seq!['I']);
    lemma_letter_step('j', rest, seq!['d', 'Z']);
    lemma_letter_step('k', rest, seq!['k']);
    lemma_letter_step('l', rest, seq!['l']);
    lemma_letter_step('m', rest, seq!['m']);
    lemma_letter_step('n', rest, seq!['n']);
    lemma_letter_step('o', rest, seq!['A']);
    lemma_letter_step('p', rest, seq!['p']);
    lemma_letter_step('q', rest, seq!['k']);
    lemma_letter_step('r', rest, seq!['r']);
    lemma_letter_step('s', rest, seq!['s']);
    lemma_letter_step('t', rest, seq!['t']);
    lemma_letter_step('u', rest, seq!['u']);
    lemma_letter_step('v', rest, seq!['v']);
    lemma_letter_step('w', rest, seq!['w']);
    lemma_letter_step('x', rest, seq!['k', 's']);
    lemma_letter_step('y', rest, seq!['i']);
    lemma_letter_step('z', rest, seq!['z']);
}

/// Alias resolution, one phoneme at a time: each alternative symbol is
/// replaced by the phonemes it stands for (V by @, 3` by @`, O by A, & and
/// { by {}, Or by oU r, ? and space by the silence _), after whatever came
/// before.
pub proof fn law_aliases_resolved(p: Seq<Seq<char>>)
    ensures
        expand_aliases(p.push(seq!['V'])) == expand_aliases(p) + seq![seq!['@']],
        expand_aliases(p.push(seq!['3', '`'])) == expand_aliases(p) + seq![seq!['@', '`']],
        expand_aliases(p.push(seq!['O'])) == expand_aliases(p) + seq![seq!['A']],
        expand_aliases(p.push(seq!['&'])) == expand_aliases(p) + seq![seq!['{', '}']],
        expand_aliases(p.push(seq!['{'])) == expand_aliases(p) + seq![seq!['{', '}']],
        expand_aliases(p.push(seq!['O', 'r'])) == expand_aliases(p) + seq![seq!['o', 'U'], seq!['r']],
        expand_aliases(p.push(seq!['?'])) == expand_aliases(p) + seq![seq!['_']],
        expand_aliases(p.push(seq![' '])) == expand_aliases(p) + seq![seq!['_']],
        expand_aliases(p.push(seq!['t'])) == expand_aliases(p) + seq![seq!['t']],
{
    assert(p.push(seq!['V']).drop_last() =~= p);
    assert(p.push(seq!['3', '`']).drop_last() =~= p);
    assert(p.push(seq!['O']).drop_last() =~= p);
    assert(p.push(seq!['&']).drop_last() =~= p);
    assert(p.push(seq!['{']).drop_last() =~= p);
    assert(p.push(seq!['O', 'r']).drop_last() =~= p);
    assert(p.push(seq!['?']).drop_last() =~= p);
    assert(p.push(seq![' ']).drop_last() =~= p);
    assert(p.push(seq!['t']).drop_last() =~= p);
    assert(seq!['O', 'r'] != seq!['O']) by {
        assert(seq!['O', 'r'].len() != seq!['O'].len());
    }
    assert(seq!['O'] != seq!['V']) by {
        assert(seq!['O'][0] != seq!['V'][0]);
    }
    assert(seq!['&'] != seq!['V'] && seq!['&'] != seq!['O']) by {
        assert(seq!['&'][0] != seq!['V'][0]);
        assert(seq!['&'][0] != seq!['O'][0]);
    }
    assert(seq!['{'] != seq!['V'] && seq!['{'] != seq!['O'] && seq!['{'] != seq!['&']) by {
        assert(seq!['{'][0] != seq!['V'][0]);
        assert(seq!['{'][0] != seq!['O'][0]);
        assert(seq!['{'][0] != seq!['&'][0]);
    }
    assert(seq!['?'] != seq!['V'] && seq!['?'] != seq!['O'] && seq!['?'] != seq!['&']
        && seq!['?'] != seq!['{']) by {
        assert(seq!['?'][0] != seq!['V'][0]);
        assert(seq!['?'][0] != seq!['O'][0]);
        assert(seq!['?'][0] != seq!['&'][0]);
        assert(seq!['?'][0] != seq!['{'][0]);
    }
    assert(seq![' '] != seq!['V'] && seq![' '] != seq!['O'] && seq![' '] != seq!['&']
        && seq![' '] != seq!['{'] && seq![' '] != seq!['?']) by {
        assert(seq![' '][0] != seq!['V'][0]);
        assert(seq![' '][0] != seq!['O'][0]);
        assert(seq![' '][0] != seq!['&'][0]);
        assert(seq![' '][0] != seq!['{'][0]);
        assert(seq![' '][0] != seq!['?'][0]);
    }
    assert(phoneme_alias(seq!['t']) is None) by {
        let t = seq!['t'];
        assert(t != seq!['V'] && t != seq!['O'] && t != seq!['&'] && t != seq!['{'] && t
            != seq!['?'] && t != seq![' ']) by {
            assert(t[0] != seq!['V'][0] && t[0] != seq!['O'][0] && t[0] != seq!['&'][0] && t[0]
                != seq!['{'][0] && t[0] != seq!['?'][0] && t[0] != seq![' '][0]);
        }
        assert(t != seq!['3', '`'] && t != seq!['O', 'r']) by {
            assert(t.len() != seq!['3', '`'].len());
        }
    }
}

/// One step of glide insertion after the phonemes `p` and `a`.
proof fn lemma_vv_step(p: Seq<Seq<char>>, a: Seq<char>, b: Seq<char>)
    ensures
        fix_vv(p.push(a).push(b)) == fix_vv(p.push(a)) + (if is_vowel(a) && is_vowel(b) && vv_glide(
            a,
        ) is Some {
            seq![vv_glide(a)->0]
        } else {
            seq![]
        }) + seq![b],
{
    let q = p.push(a).push(b);
    assert(q.drop_last() =~= p.push(a));
    assert(q[q.len() - 2] == a);
}

/// Glide insertion between two vowels: after i, aI, eI and OI comes j,
/// after u, aU and oU comes w, after @` comes r; the vowels A, I, E, @, U
/// and {} take no glide; no glide stands next to a consonant.
pub proof fn law_vowel_glides(p: Seq<Seq<char>>)
    ensures
        fix_vv(p.push(seq!['i']).push(seq!['@'])) == fix_vv(p.push(seq!['i'])) + seq![seq!['j'], seq!['@']],
        fix_vv(p.push(seq!['a', 'I']).push(seq!['@'])) == fix_vv(p.push(seq!['a', 'I'])) + seq![seq!['j'], seq!['@']],
        fix_vv(p.push(seq!['e', 'I']).push(seq!['@'])) == fix_vv(p.push(seq!['e', 'I'])) + seq![seq!['j'], seq!['@']],
        fix_vv(p.push(seq!['O', 'I']).push(seq!['@'])) == fix_vv(p.push(seq!['O', 'I'])) + seq![seq!['j'], seq!['@']],
        fix_vv(p.push(seq!['u']).push(seq!['@'])) == fix_vv(p.push(seq!['u'])) + seq![seq!['w'], seq!['@']],
        fix_vv(p.push(seq!['a', 'U']).push(seq!['@'])) == fix_vv(p.push(seq!['a', 'U'])) + seq![seq!['w'], seq!['@']],
        fix_vv(p.push(seq!['o', 'U']).push(seq!['@'])) == fix_vv(p.push(seq!['o', 'U'])) + seq![seq!['w'], seq!['@']],
        fix_vv(p.push(seq!['@', '`']).push(seq!['@'])) == fix_vv(p.push(seq!['@', '`'])) + seq![seq!['r'], seq!['@']],
        fix_vv(p.push(seq!['A']).push(seq!['@'])) == fix_vv(p.push(seq!['A'])) + seq![seq!['@']],
        fix_vv(p.push(seq!['I']).push(seq!['@'])) == fix_vv(p.push(seq!['I'])) + seq![seq!['@']],
        fix_vv(p.push(seq!['E']).push(seq!['@'])) == fix_vv(p.push(seq!['E'])) + seq![seq!['@']],
        fix_vv(p.push(seq!['@']).push(seq!['@'])) == fix_vv(p.push(seq!['@'])) + seq![seq!['@']],
        fix_vv(p.push(seq!['U']).push(seq!['@'])) == fix_vv(p.push(seq!['U'])) + seq![seq!['@']],
        fix_vv(p.push(seq!['{', '}']).push(seq!['@'])) == fix_vv(p.push(seq!['{', '}'])) + seq![seq!['@']],
        fix_vv(p.push(seq!['i']).push(seq!['t'])) == fix_vv(p.push(seq!['i'])) + seq![seq!['t']],
        fix_vv(p.push(seq!['t']).push(seq!['i'])) == fix_vv(p.push(seq!['t'])) + seq![seq!['i']],
{
    lemma_vv_step(p, seq!['i'], seq!['@']);
    lemma_vv_step(p, seq!['a', 'I'], seq!['@']);
    lemma_vv_step(p, seq!['e', 'I'], seq!['@']);
    lemma_vv_step(p, seq!['O', 'I'], seq!['@']);
    lemma_vv_step(p, seq!['u'], seq!['@']);
    lemma_vv_step(p, seq!['a', 'U'], seq!['@']);
    lemma_vv_step(p, seq!['o', 'U'], seq!['@']);
    lemma_vv_step(p, seq!['@', '`'], seq!['@']);
    lemma_vv_step(p, seq!['A'], seq!['@']);
    lemma_vv_step(p, seq!['I'], seq!['@']);
    lemma_vv_step(p, seq!['E'], seq!['@']);
    lemma_vv_step(p, seq!['@'], seq!['@']);
    lemma_vv_step(p, seq!['U'], seq!['@']);
    lemma_vv_step(p, seq!['{', '}'], seq!['@']);
    lemma_vv_step(p, seq!['i'], seq!['t']);
    lemma_vv_step(p, seq!['t'], seq!['i']);
}

} // verus!
