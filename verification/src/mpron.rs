//! Parser for Moby Pronunciator II pronunciations.
//!
//! Key format details:
//! - Phonemes are enclosed in /slashes/, e.g. /eI/, /&/, /@/, /tS/
//! - Adjacent slash-delimited phonemes share a single / delimiter: /T/I/N/
//!   means /T/, /I/, /N/ (three separate phonemes)
//! - Double slashes //Oi// are used for the OI diphthong
//! - Single-char phonemes may appear bare (outside slashes): b, d, k, @
//! - Stress markers: ' (primary), , (secondary) are always dropped
//! - Underscore _ separates words in compound pronunciations

use vstd::prelude::*;
use vstd::hash_map::StringHashMap;
use crate::text::{
    append_all, chars_eq, chars_lt, chars_of, copy_range, find_char, first_index_of, rank_chars,
    string_of, strings_of, to_lowercase, trim, trimmed, lowercase_of, Rank,
    lemma_chars_lt_irreflexive, lemma_chars_lt_transitive,
};

verus! {

/// A pronunciation dictionary: word to phonemes.
pub type Dictionary = StringHashMap<Vec<String>>;

/// The X-SAMPA symbol of a one-character Moby identifier.
pub open spec fn single_to_xsampa(c: char) -> Option<Seq<char>> {
    match c {
        'x' => Some(seq!['x']),
        'y' => Some(seq!['y']),
        '&' => Some(seq!['{', '}']),
        '-' => Some(seq!['@']),
        '@' => Some(seq!['@']),
        'A' => Some(seq!['A']),
        'D' => Some(seq!['D']),
        'E' => Some(seq!['E']),
        'I' => Some(seq!['I']),
        'N' => Some(seq!['N']),
        'O' => Some(seq!['O']),
        'S' => Some(seq!['S']),
        'T' => Some(seq!['T']),
        'U' => Some(seq!['U']),
        'i' => Some(seq!['i']),
        'j' => Some(seq!['j']),
        'u' => Some(seq!['u']),
        'b' => Some(seq!['b']),
        'd' => Some(seq!['d']),
        'f' => Some(seq!['f']),
        'g' => Some(seq!['g']),
        'h' => Some(seq!['h']),
        'k' => Some(seq!['k']),
        'l' => Some(seq!['l']),
        'm' => Some(seq!['m']),
        'n' => Some(seq!['n']),
        'p' => Some(seq!['p']),
        'r' => Some(seq!['r']),
        's' => Some(seq!['s']),
        't' => Some(seq!['t']),
        'v' => Some(seq!['v']),
        'w' => Some(seq!['w']),
        'z' => Some(seq!['z']),
        _ => None,
    }
}

/// The X-SAMPA symbol of a two-character Moby identifier.
pub open spec fn pair_to_xsampa(a: char, b: char) -> Option<Seq<char>> {
    match (a, b) {
        ('O', 'i') => Some(seq!['O', 'I']),
        ('a', 'U') => Some(seq!['a', 'U']),
        ('a', 'I') => Some(seq!['a', 'I']),
        ('e', 'I') => Some(seq!['e', 'I']),
        ('o', 'U') => Some(seq!['o', 'U']),
        ('j', 'u') => Some(seq!['j', 'u']),
        ('t', 'S') => Some(seq!['t', 'S']),
        ('d', 'Z') => Some(seq!['d', 'Z']),
        _ => None,
    }
}

/// The X-SAMPA symbol that a bare Moby phoneme identifier stands for.
pub open spec fn naked_to_xsampa(id: Seq<char>) -> Option<Seq<char>> {
    if id.len() == 1 {
        single_to_xsampa(id[0])
    } else if id.len() == 2 {
        pair_to_xsampa(id[0], id[1])
    } else if id == seq!['[', '@', ']'] {
        Some(seq!['@'])
    } else {
        None
    }
}

/// The X-SAMPA symbols that Moby identifiers are mapped to.
pub open spec fn is_xsampa_symbol(p: Seq<char>) -> bool {
    ||| p == seq!['O', 'I']
    ||| p == seq!['a', 'U']
    ||| p == seq!['a', 'I']
    ||| p == seq!['e', 'I']
    ||| p == seq!['o', 'U']
    ||| p == seq!['j', 'u']
    ||| p == seq!['t', 'S']
    ||| p == seq!['d', 'Z']
    ||| p == seq!['@']
    ||| p == seq!['x']
    ||| p == seq!['y']
    ||| p == seq!['{', '}']
    ||| p == seq!['A']
    ||| p == seq!['D']
    ||| p == seq!['E']
    ||| p == seq!['I']
    ||| p == seq!['N']
    ||| p == seq!['O']
    ||| p == seq!['S']
    ||| p == seq!['T']
    ||| p == seq!['U']
    ||| p == seq!['i']
    ||| p == seq!['j']
    ||| p == seq!['u']
    ||| p == seq!['b']
    ||| p == seq!['d']
    ||| p == seq!['f']
    ||| p == seq!['g']
    ||| p == seq!['h']
    ||| p == seq!['k']
    ||| p == seq!['l']
    ||| p == seq!['m']
    ||| p == seq!['n']
    ||| p == seq!['p']
    ||| p == seq!['r']
    ||| p == seq!['s']
    ||| p == seq!['t']
    ||| p == seq!['v']
    ||| p == seq!['w']
    ||| p == seq!['z']
}

/// Every identifier maps into the X-SAMPA inventory.
pub proof fn lemma_naked_maps_into_inventory(id: Seq<char>)
    ensures
        naked_to_xsampa(id) is Some ==> is_xsampa_symbol(naked_to_xsampa(id)->0),
{
}

fn lookup_single(c: char) -> (r: Option<Vec<char>>)
    ensures
        r is Some == single_to_xsampa(c) is Some,
        r is Some ==> r->0@ == single_to_xsampa(c)->0,
{
    match c {
        'x' => Some(vec!['x']),
        'y' => Some(vec!['y']),
        '&' => Some(vec!['{', '}']),
        '-' => Some(vec!['@']),
        '@' => Some(vec!['@']),
        'A' => Some(vec!['A']),
        'D' => Some(vec!['D']),
        'E' => Some(vec!['E']),
        'I' => Some(vec!['I']),
        'N' => Some(vec!['N']),
        'O' => Some(vec!['O']),
        'S' => Some(vec!['S']),
        'T' => Some(vec!['T']),
        'U' => Some(vec!['U']),
        'i' => Some(vec!['i']),
        'j' => Some(vec!['j']),
        'u' => Some(vec!['u']),
        'b' => Some(vec!['b']),
        'd' => Some(vec!['d']),
        'f' => Some(vec!['f']),
        'g' => Some(vec!['g']),
        'h' => Some(vec!['h']),
        'k' => Some(vec!['k']),
        'l' => Some(vec!['l']),
        'm' => Some(vec!['m']),
        'n' => Some(vec!['n']),
        'p' => Some(vec!['p']),
        'r' => Some(vec!['r']),
        's' => Some(vec!['s']),
        't' => Some(vec!['t']),
        'v' => Some(vec!['v']),
        'w' => Some(vec!['w']),
        'z' => Some(vec!['z']),
        _ => None,
    }
}

fn lookup_pair(a: char, b: char) -> (r: Option<Vec<char>>)
    ensures
        r is Some == pair_to_xsampa(a, b) is Some,
        r is Some ==> r->0@ == pair_to_xsampa(a, b)->0,
{
    match (a, b) {
        ('O', 'i') => Some(vec!['O', 'I']),
        ('a', 'U') => Some(vec!['a', 'U']),
        ('a', 'I') => Some(vec!['a', 'I']),
        ('e', 'I') => Some(vec!['e', 'I']),
        ('o', 'U') => Some(vec!['o', 'U']),
        ('j', 'u') => Some(vec!['j', 'u']),
        ('t', 'S') => Some(vec!['t', 'S']),
        ('d', 'Z') => Some(vec!['d', 'Z']),
        _ => None,
    }
}

/// Look up a bare phoneme identifier in the X-SAMPA table.
fn lookup_phoneme(id: &[char]) -> (r: Option<Vec<char>>)
    ensures
        r is Some == naked_to_xsampa(id@) is Some,
        r is Some ==> r->0@ == naked_to_xsampa(id@)->0,
{
    if id.len() == 1 {
        lookup_single(id[0])
    } else if id.len() == 2 {
        lookup_pair(id[0], id[1])
    } else if chars_eq(id, &['[', '@', ']']) {
        Some(vec!['@'])
    } else {
        None
    }
}

/// Length of the longest identifier at the front of `s` (0 when none):
/// identifiers are matched greedily, longest first.
pub open spec fn identifier_len(s: Seq<char>) -> nat {
    if s.len() >= 3 && naked_to_xsampa(s.take(3)) is Some {
        3
    } else if s.len() >= 2 && naked_to_xsampa(s.take(2)) is Some {
        2
    } else if s.len() >= 1 && naked_to_xsampa(s.take(1)) is Some {
        1
    } else {
        0
    }
}

/// The X-SAMPA phonemes of a run of identifiers; characters that start no
/// identifier are skipped.
pub open spec fn split_identifiers(s: Seq<char>) -> Seq<Seq<char>>
    decreases s.len(),
{
    if s.len() == 0 {
        seq![]
    } else {
        let n = identifier_len(s);
        if n == 0 {
            split_identifiers(s.drop_first())
        } else {
            seq![naked_to_xsampa(s.take(n as int))->0] + split_identifiers(s.skip(n as int))
        }
    }
}

/// Primary and secondary stress markers.
pub open spec fn is_stress_mark(c: char) -> bool {
    c == '\'' || c == ','
}

/// `s` with its stress markers removed.
pub open spec fn without_stress_marks(s: Seq<char>) -> Seq<char>
    decreases s.len(),
{
    if s.len() == 0 {
        s
    } else if is_stress_mark(s.last()) {
        without_stress_marks(s.drop_last())
    } else {
        without_stress_marks(s.drop_last()).push(s.last())
    }
}

/// The phonemes of the content of a slash group.
pub open spec fn slash_group_phonemes(content: Seq<char>) -> Seq<Seq<char>> {
    split_identifiers(without_stress_marks(content))
}

/// A character that ends a slash group when it follows a closing slash.
pub open spec fn is_bare_marker(c: char) -> bool {
    c == '\'' || c == ',' || c == '_'
}

/// The phonemes of a character outside any slash group.
pub open spec fn bare_phonemes(c: char) -> Seq<Seq<char>> {
    if is_stress_mark(c) {
        seq![]
    } else if c == '_' {
        seq![seq!['_']]
    } else {
        match naked_to_xsampa(seq![c]) {
            Some(x) => seq![x],
            None => seq![],
        }
    }
}

/// The phonemes of `p[i..]`, when reading starts inside a slash group
/// (`in_slash`) that holds `cur` so far.
pub open spec fn parse_from(p: Seq<char>, i: int, in_slash: bool, cur: Seq<char>) -> Seq<Seq<char>>
    decreases p.len() - i,
{
    if i < 0 || i >= p.len() {
        if in_slash && cur.len() > 0 {
            slash_group_phonemes(cur)
        } else {
            seq![]
        }
    } else {
        let c = p[i];
        if c == '/' {
            if in_slash {
                let done = if cur.len() > 0 {
                    slash_group_phonemes(cur)
                } else {
                    seq![]
                };
                let closes = i + 1 >= p.len() || is_bare_marker(p[i + 1]);
                done + parse_from(p, i + 1, !closes, seq![])
            } else {
                parse_from(p, i + 1, true, seq![])
            }
        } else if in_slash {
            parse_from(p, i + 1, true, cur.push(c))
        } else {
            bare_phonemes(c) + parse_from(p, i + 1, false, cur)
        }
    }
}

/// The X-SAMPA phonemes of a Moby pronunciation string.
pub open spec fn moby_pronunciation(p: Seq<char>) -> Seq<Seq<char>> {
    parse_from(p, 0, false, seq![])
}

/// `s` with its stress markers removed.
fn remove_stress_marks(s: &[char]) -> (r: Vec<char>)
    ensures
        r@ == without_stress_marks(s@),
{
    let mut r: Vec<char> = Vec::new();
    let mut i: usize = 0;
    while i < s.len()
        invariant
            0 <= i <= s.len(),
            r@ == without_stress_marks(s@.take(i as int)),
        decreases s.len() - i,
    {
        assert(s@.take(i + 1).drop_last() =~= s@.take(i as int));
        let c = s[i];
        if c != '\'' && c != ',' {
            r.push(c);
        }
        i = i + 1;
    }
    assert(s@.take(s.len() as int) =~= s@);
    r
}

/// The longest identifier at position `i` of `s`: its length (0 when
/// none) and its X-SAMPA symbol.
fn identifier_at(s: &[char], i: usize) -> (r: (usize, Option<Vec<char>>))
    requires
        i < s.len(),
    ensures
        r.0 == identifier_len(s@.skip(i as int)),
        r.0 > 0 ==> r.1 is Some && r.1->0@ == naked_to_xsampa(s@.skip(i as int).take(r.0 as int))->0,
{
    let ghost rest = s@.skip(i as int);
    let mut n: usize = 3;
    while n > 0
        invariant
            0 <= n <= 3,
            i < s.len(),
            rest == s@.skip(i as int),
            forall|m: int| n < m <= 3 && m <= rest.len() ==> naked_to_xsampa(rest.take(m)) is None,
        decreases n,
    {
        if n <= s.len() - i {
            let id = copy_range(s, i, i + n);
            assert(id@ =~= rest.take(n as int));
            let x = lookup_phoneme(&id);
            if x.is_some() {
                return (n, x);
            }
        }
        n = n - 1;
    }
    (0, None)
}

/// Split the content of a slash group into X-SAMPA phonemes, matching
/// identifiers greedily (longest first) after dropping stress markers.
fn split_slash_content(content: &[char]) -> (r: Vec<Vec<char>>)
    ensures
        r.deep_view() == slash_group_phonemes(content@),
{
    let cleaned = remove_stress_marks(content);
    let mut result: Vec<Vec<char>> = Vec::new();
    let mut i: usize = 0;
    assert(cleaned@.skip(0) =~= cleaned@);
    while i < cleaned.len()
        invariant
            0 <= i <= cleaned.len(),
            split_identifiers(cleaned@) == result.deep_view() + split_identifiers(cleaned@.skip(i as int)),
        decreases cleaned.len() - i,
    {
        let ghost rest = cleaned@.skip(i as int);
        let ghost before = result.deep_view();
        let (n, x) = identifier_at(&cleaned, i);
        if n == 0 {
            assert(rest.drop_first() =~= cleaned@.skip(i + 1));
            i = i + 1;
        } else {
            let x = x.unwrap();
            assert(x.deep_view() =~= x@);
            result.push(x);
            assert(rest.skip(n as int) =~= cleaned@.skip(i + n));
            assert(result.deep_view() =~= before + seq![naked_to_xsampa(rest.take(n as int))->0]);
            i = i + n;
        }
    }
    assert(cleaned@.skip(i as int) =~= Seq::<char>::empty());
    assert(result.deep_view() + seq![] =~= result.deep_view());
    result
}

/// Parse a Moby pronunciation string into X-SAMPA phonemes.
pub fn parse_pronunciation(pron: &str) -> (phonemes: Vec<String>)
    ensures
        phonemes.deep_view() == moby_pronunciation(pron@),
{
    let chars = chars_of(pron);
    let r = parse_pronunciation_chars(&chars);
    strings_of(&r)
}

/// Parse the characters of a Moby pronunciation into X-SAMPA phonemes.
pub fn parse_pronunciation_chars(chars: &[char]) -> (r: Vec<Vec<char>>)
    ensures
        r.deep_view() == moby_pronunciation(chars@),
{
    let mut result: Vec<Vec<char>> = Vec::new();
    let mut i: usize = 0;
    let mut in_slash = false;
    let mut current: Vec<char> = Vec::new();
    while i < chars.len()
        invariant
            0 <= i <= chars.len(),
            moby_pronunciation(chars@) == result.deep_view() + parse_from(
                chars@,
                i as int,
                in_slash,
                current@,
            ),
        decreases chars.len() - i,
    {
        let ghost before = result.deep_view();
        let ghost i0 = i as int;
        let ghost slash0 = in_slash;
        let ghost cur0 = current@;
        let c = chars[i];
        if c == '/' {
            if in_slash {
                if current.len() > 0 {
                    let ph = split_slash_content(&current);
                    append_all(&mut result, ph);
                    current = Vec::new();
                }
                i = i + 1;
                if i >= chars.len() || chars[i] == '\'' || chars[i] == ',' || chars[i] == '_' {
                    in_slash = false;
                }
                proof {
                    let done = if cur0.len() > 0 {
                        slash_group_phonemes(cur0)
                    } else {
                        seq![]
                    };
                    assert(result.deep_view() =~= before + done);
                    assert(current@ =~= Seq::<char>::empty());
                }
            } else {
                in_slash = true;
                current = Vec::new();
                i = i + 1;
                assert(current@ =~= Seq::<char>::empty());
            }
        } else if in_slash {
            current.push(c);
            i = i + 1;
        } else {
            if c == '\'' || c == ',' {
            } else if c == '_' {
                let u = vec!['_'];
                assert(u.deep_view() =~= seq!['_']);
                result.push(u);
            } else {
                let one = vec![c];
                assert(one@ =~= seq![c]);
                match lookup_phoneme(&one) {
                    Some(x) => {
                        assert(x.deep_view() =~= x@);
                        result.push(x);
                    },
                    None => {},
                }
            }
            assert(result.deep_view() =~= before + bare_phonemes(c));
            i = i + 1;
        }
    }
    let ghost before = result.deep_view();
    if in_slash && current.len() > 0 {
        let ph = split_slash_content(&current);
        append_all(&mut result, ph);
    }
    assert(result.deep_view() =~= before + parse_from(chars@, i as int, in_slash, current@));
    result
}

/// Number of entries of the embedded dictionary.
pub const DICTIONARY_SIZE: usize = 5;

/// The embedded dictionary: (word, Moby pronunciation) pairs, sorted by word.
pub open spec fn dictionary_entries() -> Seq<(Seq<char>, Seq<char>)> {
    seq![
        (seq!['a'], seq!['/', '@', '/']),
        (seq!['h', 'e', 'l', 'l', 'o'], seq!['/', 'h', '/', '@', '/', '\'', 'l', '/', 'o', 'U', '/']),
        (seq!['r', 'e', 'c', 'o', 'r', 'd'], seq!['/', 'r', '/', 'I', '/', '\'', 'k', '/', 'O', '/', 'r', 'd']),
        (seq!['t', 'h', 'e'], seq!['D', '/', '@', '/']),
        (seq!['w', 'o', 'r', 'l', 'd'], seq!['/', 'w', '/', '@', '/', 'r', '/', 'l', 'd']),
    ]
}

/// Entry `i` of the embedded dictionary.
fn dictionary_entry(i: usize) -> (r: (Vec<char>, Vec<char>))
    requires
        i < DICTIONARY_SIZE,
    ensures
        r.0@ == dictionary_entries()[i as int].0,
        r.1@ == dictionary_entries()[i as int].1,
{
    match i {
        0 => (vec!['a'], vec!['/', '@', '/']),
        1 => (vec!['h', 'e', 'l', 'l', 'o'], vec!['/', 'h', '/', '@', '/', '\'', 'l', '/', 'o', 'U', '/']),
        2 => (vec!['r', 'e', 'c', 'o', 'r', 'd'], vec!['/', 'r', '/', 'I', '/', '\'', 'k', '/', 'O', '/', 'r', 'd']),
        3 => (vec!['t', 'h', 'e'], vec!['D', '/', '@', '/']),
        _ => (vec!['w', 'o', 'r', 'l', 'd'], vec!['/', 'w', '/', '@', '/', 'r', '/', 'l', 'd']),
    }
}

/// The embedded dictionary is strictly sorted by word.
pub proof fn lemma_dictionary_sorted()
    ensures
        dictionary_entries().len() == DICTIONARY_SIZE,
        forall|i: int, j: int|
            0 <= i < j < DICTIONARY_SIZE ==> chars_lt(
                #[trigger] dictionary_entries()[i].0,
                #[trigger] dictionary_entries()[j].0,
            ),
{
    let e = dictionary_entries();
    assert forall|i: int, j: int| 0 <= i < j < DICTIONARY_SIZE implies chars_lt(
        #[trigger] e[i].0,
        #[trigger] e[j].0,
    ) by {
        assert(e[i].0[0] != e[j].0[0]);
    }
}

/// The pronunciation that the embedded dictionary gives for `word`.
pub open spec fn dictionary_lookup(word: Seq<char>) -> Option<Seq<Seq<char>>> {
    if exists|i: int| 0 <= i < DICTIONARY_SIZE && #[trigger] dictionary_entries()[i].0 == word {
        let i = choose|i: int| 0 <= i < DICTIONARY_SIZE && #[trigger] dictionary_entries()[i].0 == word;
        Some(moby_pronunciation(dictionary_entries()[i].1))
    } else {
        None
    }
}

/// Look up a word in the embedded dictionary by binary search over its
/// sorted entries. Returns the X-SAMPA phoneme sequence, or `None` if the
/// word is not in the dictionary. The embedded table holds only a sample of
/// Moby entries (`a`, `hello`, `record`, `the`, `world`; see
/// `dictionary_entries`); every other word gives `None`.
pub fn lookup_static(word: &str) -> (r: Option<Vec<String>>)
    ensures
        r is Some == dictionary_lookup(word@) is Some,
        r is Some ==> r->0.deep_view() == dictionary_lookup(word@)->0,
{
    let w = chars_of(word);
    match lookup_chars(&w) {
        Some(ph) => Some(strings_of(&ph)),
        None => None,
    }
}

/// Binary search for `word` in the embedded dictionary.
pub fn lookup_chars(word: &[char]) -> (r: Option<Vec<Vec<char>>>)
    ensures
        r is Some == dictionary_lookup(word@) is Some,
        r is Some ==> r->0.deep_view() == dictionary_lookup(word@)->0,
{
    proof {
        lemma_dictionary_sorted();
    }
    let ghost e = dictionary_entries();
    let mut lo: usize = 0;
    let mut hi: usize = DICTIONARY_SIZE;
    while lo < hi
        invariant
            0 <= lo <= hi <= DICTIONARY_SIZE,
            e == dictionary_entries(),
            e.len() == DICTIONARY_SIZE,
            forall|i: int, j: int|
                0 <= i < j < DICTIONARY_SIZE ==> chars_lt(#[trigger] e[i].0, #[trigger] e[j].0),
            forall|i: int| 0 <= i < lo ==> (#[trigger] e[i]).0 != word@,
            forall|i: int| hi <= i < DICTIONARY_SIZE ==> (#[trigger] e[i]).0 != word@,
        decreases hi - lo,
    {
        let mid = lo + (hi - lo) / 2;
        let (key, pron) = dictionary_entry(mid);
        match rank_chars(word, &key) {
            Rank::Before => {
                assert forall|i: int| mid <= i < DICTIONARY_SIZE implies (#[trigger] e[i]).0
                    != word@ by {
                    if i > mid {
                        lemma_chars_lt_transitive(word@, e[mid as int].0, e[i].0);
                    }
                    lemma_chars_lt_irreflexive(word@);
                }
                hi = mid;
            },
            Rank::Same => {
                let ph = parse_pronunciation_chars(&pron);
                proof {
                    let k = choose|i: int| 0 <= i < DICTIONARY_SIZE && #[trigger] e[i].0 == word@;
                    if k != mid {
                        if k < mid {
                            assert(chars_lt(e[k].0, e[mid as int].0));
                        } else {
                            assert(chars_lt(e[mid as int].0, e[k].0));
                        }
                        lemma_chars_lt_irreflexive(word@);
                    }
                }
                return Some(ph);
            },
            Rank::After => {
                assert forall|i: int| 0 <= i <= mid implies (#[trigger] e[i]).0 != word@ by {
                    if i < mid {
                        lemma_chars_lt_transitive(e[i].0, e[mid as int].0, word@);
                    }
                    lemma_chars_lt_irreflexive(word@);
                }
                lo = mid + 1;
            },
        }
    }
    None
}

/// The lines of `s`: the pieces between line feeds. A line ending in a
/// carriage return keeps it (dictionary lines are trimmed before use).
pub open spec fn split_lines(s: Seq<char>) -> Seq<Seq<char>>
    decreases s.len(),
{
    if s.len() == 0 {
        seq![seq![]]
    } else {
        let r = split_lines(s.drop_last());
        if s.last() == '\n' {
            r.push(seq![])
        } else {
            r.update(r.len() - 1, r.last().push(s.last()))
        }
    }
}

/// The word of a dictionary line's word field: the part before any
/// part-of-speech suffix `/..`, in lowercase.
pub open spec fn headword(word_part: Seq<char>) -> Seq<char> {
    match first_index_of(word_part, '/') {
        Some(q) => lowercase_of(word_part.take(q)),
        None => lowercase_of(word_part),
    }
}

/// The (word, phonemes) entry that a line of the Moby dictionary defines:
/// none for blank lines, `;;;` comments, lines without a space and lines
/// whose pronunciation yields no phoneme.
pub open spec fn moby_entry(line: Seq<char>) -> Option<(Seq<char>, Seq<Seq<char>>)> {
    let t = trimmed(line);
    if t.len() == 0 || (t.len() >= 3 && t.take(3) == seq![';', ';', ';']) {
        None
    } else {
        match first_index_of(t, ' ') {
            None => None,
            Some(p) => {
                let phonemes = moby_pronunciation(trimmed(t.skip(p + 1)));
                if phonemes.len() == 0 {
                    None
                } else {
                    Some((headword(t.take(p)), phonemes))
                }
            },
        }
    }
}

/// The dictionary that a list of lines defines; a later line for a word
/// replaces an earlier one.
pub open spec fn moby_dictionary(lines: Seq<Seq<char>>) -> Map<Seq<char>, Seq<Seq<char>>>
    decreases lines.len(),
{
    if lines.len() == 0 {
        Map::empty()
    } else {
        let d = moby_dictionary(lines.drop_last());
        match moby_entry(lines.last()) {
            Some((w, p)) => d.insert(w, p),
            None => d,
        }
    }
}

/// The dictionary that Moby dictionary text defines.
pub open spec fn moby_dictionary_of(content: Seq<char>) -> Map<Seq<char>, Seq<Seq<char>>> {
    moby_dictionary(split_lines(content))
}

/// `d` holds the pronunciations of `m`, word for word.
pub open spec fn holds_dictionary(
    d: Map<Seq<char>, Vec<String>>,
    m: Map<Seq<char>, Seq<Seq<char>>>,
) -> bool {
    &&& d.dom() == m.dom()
    &&& forall|w: Seq<char>| #[trigger] d.contains_key(w) ==> d[w].deep_view() == m[w]
}

/// The entry of one dictionary line.
fn line_entry(line: &[char]) -> (r: Option<(String, Vec<String>)>)
    ensures
        match (r, moby_entry(line@)) {
            (Some((w, p)), Some((sw, sp))) => w@ == sw && p.deep_view() == sp,
            (None, None) => true,
            _ => false,
        },
{
    let t = trim(line);
    if t.len() == 0 {
        return None;
    }
    if t.len() >= 3 && t[0] == ';' && t[1] == ';' && t[2] == ';' {
        assert(t@.take(3) =~= seq![';', ';', ';']);
        return None;
    }
    assert(t.len() >= 3 ==> (t@.take(3) == seq![';', ';', ';'] ==> t@[0] == ';' && t@[1] == ';' && t@[2] == ';'));
    let space = find_char(&t, ' ');
    match space {
        None => None,
        Some(p) => {
            let rest = copy_range(&t, p + 1, t.len());
            assert(rest@ =~= t@.skip(p + 1));
            let pron = trim(&rest);
            let phonemes = parse_pronunciation_chars(&pron);
            if phonemes.len() == 0 {
                return None;
            }
            let word_part = copy_range(&t, 0, p);
            assert(word_part@ =~= t@.take(p as int));
            let head = match find_char(&word_part, '/') {
                Some(q) => {
                    let h = copy_range(&word_part, 0, q);
                    assert(h@ =~= word_part@.take(q as int));
                    h
                },
                None => word_part,
            };
            let head_str = string_of(&head);
            let word = to_lowercase(head_str.as_str());
            Some((word, strings_of(&phonemes)))
        },
    }
}

/// Build a dictionary from Moby Pronunciator II text: one entry per line,
/// `word[/pos] pronunciation`; a later line for a word replaces an earlier one.
pub fn build_dictionary(content: &str) -> (dict: Dictionary)
    ensures
        holds_dictionary(dict@, moby_dictionary_of(content@)),
{
    let chars = chars_of(content);
    let mut dict: Dictionary = StringHashMap::new();
    let mut line_start: usize = 0;
    let mut i: usize = 0;
    assert(chars@.take(0) =~= Seq::<char>::empty());
    while i < chars.len()
        invariant
            0 <= line_start <= i <= chars.len(),
            split_lines(chars@.take(i as int)).len() > 0,
            split_lines(chars@.take(i as int)).last() == chars@.subrange(line_start as int, i as int),
            holds_dictionary(dict@, moby_dictionary(split_lines(chars@.take(i as int)).drop_last())),
        decreases chars.len() - i,
    {
        let ghost before = split_lines(chars@.take(i as int));
        assert(chars@.take(i + 1).drop_last() =~= chars@.take(i as int));
        assert(chars@.take(i + 1).last() == chars@[i as int]);
        if chars[i] == '\n' {
            let line = copy_range(&chars, line_start, i);
            let entry = line_entry(&line);
            let ghost d0 = dict@;
            match entry {
                Some((w, p)) => {
                    dict.insert(w, p);
                },
                None => {},
            }
            proof {
                let after = split_lines(chars@.take(i + 1));
                assert(after == before.push(seq![]));
                assert(after.drop_last() =~= before);
                assert(before =~= before.drop_last().push(line@));
                let m = moby_dictionary(before);
                assert(moby_dictionary(before) == match moby_entry(line@) {
                    Some((w, p)) => moby_dictionary(before.drop_last()).insert(w, p),
                    None => moby_dictionary(before.drop_last()),
                });
                assert(dict@.dom() =~= m.dom());
            }
            line_start = i + 1;
        } else {
            proof {
                let after = split_lines(chars@.take(i + 1));
                assert(after.drop_last() =~= before.drop_last());
                assert(chars@.subrange(line_start as int, i + 1) =~= chars@.subrange(
                    line_start as int,
                    i as int,
                ).push(chars@[i as int]));
            }
        }
        i = i + 1;
    }
    let ghost all = split_lines(chars@.take(i as int));
    let line = copy_range(&chars, line_start, i);
    let entry = line_entry(&line);
    match entry {
        Some((w, p)) => {
            dict.insert(w, p);
        },
        None => {},
    }
    proof {
        assert(chars@.take(i as int) =~= chars@);
        assert(all =~= all.drop_last().push(line@));
        assert(dict@.dom() =~= moby_dictionary(all).dom());
    }
    dict
}

/// The text that `encoding_rs::WINDOWS_1252.decode` makes of `bytes`:
/// Windows-1252, or the encoding that a leading byte order mark names,
/// with malformed sequences replaced by U+FFFD.
pub uninterp spec fn windows_1252_text(bytes: Seq<u8>) -> Seq<char>;

/// Whether `b` starts with a UTF-8, UTF-16LE or UTF-16BE byte order mark.
pub open spec fn starts_with_bom(b: Seq<u8>) -> bool {
    ||| b.len() >= 3 && b[0] == 0xEF && b[1] == 0xBB && b[2] == 0xBF
    ||| b.len() >= 2 && b[0] == 0xFF && b[1] == 0xFE
    ||| b.len() >= 2 && b[0] == 0xFE && b[1] == 0xFF
}

/// The character that Windows-1252 gives byte `b`: the code point of the
/// same number, except in the range 0x80 to 0x9F.
pub open spec fn windows_1252_char(b: u8) -> char {
    match b {
        0x80 => '\u{20AC}',
        0x82 => '\u{201A}',
        0x83 => '\u{0192}',
        0x84 => '\u{201E}',
        0x85 => '\u{2026}',
        0x86 => '\u{2020}',
        0x87 => '\u{2021}',
        0x88 => '\u{02C6}',
        0x89 => '\u{2030}',
        0x8A => '\u{0160}',
        0x8B => '\u{2039}',
        0x8C => '\u{0152}',
        0x8E => '\u{017D}',
        0x91 => '\u{2018}',
        0x92 => '\u{2019}',
        0x93 => '\u{201C}',
        0x94 => '\u{201D}',
        0x95 => '\u{2022}',
        0x96 => '\u{2013}',
        0x97 => '\u{2014}',
        0x98 => '\u{02DC}',
        0x99 => '\u{2122}',
        0x9A => '\u{0161}',
        0x9B => '\u{203A}',
        0x9C => '\u{0153}',
        0x9E => '\u{017E}',
        0x9F => '\u{0178}',
        _ => b as char,
    }
}

/// Calls `encoding_rs::WINDOWS_1252.decode` and keeps the decoded text.
/// Without a byte order mark every byte becomes one character by the
/// Windows-1252 table (all 256 bytes are mapped); with one, the text is
/// only named (`windows_1252_text`). The call panics when the size of its
/// output buffer overflows `usize`, which the bound on the length excludes.
#[verifier::external_body]
pub(crate) fn decode_windows_1252(bytes: &[u8]) -> (text: String)
    requires
        bytes@.len() <= usize::MAX / 4,
    ensures
        text@ == windows_1252_text(bytes@),
        !starts_with_bom(bytes@) ==> text@ == bytes@.map_values(|b: u8| windows_1252_char(b)),
{
    let (decoded, _, _) = encoding_rs::WINDOWS_1252.decode(bytes);
    decoded.into_owned()
}

/// Build a dictionary from raw Moby Pronunciator II bytes (Windows-1252).
pub fn build_dictionary_from_bytes(data: &[u8]) -> (dict: Dictionary)
    requires
        data@.len() <= usize::MAX / 4,
    ensures
        holds_dictionary(dict@, moby_dictionary_of(windows_1252_text(data@))),
        !starts_with_bom(data@) ==> holds_dictionary(
            dict@,
            moby_dictionary_of(data@.map_values(|b: u8| windows_1252_char(b))),
        ),
{
    let text = decode_windows_1252(data);
    build_dictionary(text.as_str())
}

/// Each phoneme is an X-SAMPA symbol of the inventory or the pause `_`.
pub open spec fn known_phonemes(r: Seq<Seq<char>>) -> bool {
    forall|k: int| 0 <= k < r.len() ==> is_xsampa_symbol(#[trigger] r[k]) || r[k] == seq!['_']
}

proof fn lemma_known_concat(a: Seq<Seq<char>>, b: Seq<Seq<char>>)
    requires
        known_phonemes(a),
        known_phonemes(b),
    ensures
        known_phonemes(a + b),
{
    assert forall|k: int| 0 <= k < (a + b).len() implies is_xsampa_symbol(#[trigger] (a + b)[k])
        || (a + b)[k] == seq!['_'] by {
        if k < a.len() {
            assert((a + b)[k] == a[k]);
        } else {
            assert((a + b)[k] == b[k - a.len()]);
        }
    }
}

proof fn lemma_split_identifiers_known(s: Seq<char>)
    ensures
        known_phonemes(split_identifiers(s)),
    decreases s.len(),
{
    if s.len() > 0 {
        let n = identifier_len(s);
        if n == 0 {
            lemma_split_identifiers_known(s.drop_first());
        } else {
            lemma_split_identifiers_known(s.skip(n as int));
            lemma_naked_maps_into_inventory(s.take(n as int));
            lemma_known_concat(
                seq![naked_to_xsampa(s.take(n as int))->0],
                split_identifiers(s.skip(n as int)),
            );
        }
    }
}

proof fn lemma_parse_from_known(p: Seq<char>, i: int, in_slash: bool, cur: Seq<char>)
    ensures
        known_phonemes(parse_from(p, i, in_slash, cur)),
    decreases p.len() - i,
{
    if i < 0 || i >= p.len() {
        lemma_split_identifiers_known(without_stress_marks(cur));
    } else {
        let c = p[i];
        if c == '/' {
            if in_slash {
                lemma_split_identifiers_known(without_stress_marks(cur));
                let closes = i + 1 >= p.len() || is_bare_marker(p[i + 1]);
                lemma_parse_from_known(p, i + 1, !closes, seq![]);
                let done = if cur.len() > 0 {
                    slash_group_phonemes(cur)
                } else {
                    seq![]
                };
                lemma_known_concat(done, parse_from(p, i + 1, !closes, seq![]));
            } else {
                lemma_parse_from_known(p, i + 1, true, seq![]);
            }
        } else if in_slash {
            lemma_parse_from_known(p, i + 1, true, cur.push(c));
        } else {
            lemma_parse_from_known(p, i + 1, false, cur);
            lemma_naked_maps_into_inventory(seq![c]);
            lemma_known_concat(bare_phonemes(c), parse_from(p, i + 1, false, cur));
        }
    }
}

/// Whatever a pronunciation string holds, each phoneme parsed from it is an
/// X-SAMPA symbol of the inventory or the pause `_`.
pub proof fn law_parsed_phonemes_are_known(p: Seq<char>)
    ensures
        known_phonemes(moby_pronunciation(p)),
{
    lemma_parse_from_known(p, 0, false, seq![]);
}

/// A two-character identifier at the front of a run of identifiers is
/// read as one phoneme.
proof fn lemma_pair_identifier(x: Seq<char>, y: Seq<char>, rest: Seq<char>)
    requires
        x.len() == 2,
        x[0] != '[',
        pair_to_xsampa(x[0], x[1]) == Some(y),
    ensures
        split_identifiers(x + rest) == seq![y] + split_identifiers(rest),
{
    let s = x + rest;
    assert(s.take(2) =~= x);
    if s.len() >= 3 {
        assert(s.take(3)[0] == x[0]);
        assert(s.take(3) != seq!['[', '@', ']']);
    }
    assert(s.skip(2) =~= rest);
}

/// The two-character Moby identifiers: the diphthongs aU, aI, eI and oU and
/// the identifiers ju, tS and dZ stand for themselves, and Oi for OI, each
/// read as one phoneme whatever follows.
pub proof fn law_two_character_identifiers(rest: Seq<char>)
    ensures
        split_identifiers(seq!['a', 'U'] + rest) == seq![seq!['a', 'U']] + split_identifiers(rest),
        split_identifiers(seq!['a', 'I'] + rest) == seq![seq!['a', 'I']] + split_identifiers(rest),
        split_identifiers(seq!['e', 'I'] + rest) == seq![seq!['e', 'I']] + split_identifiers(rest),
        split_identifiers(seq!['o', 'U'] + rest) == seq![seq!['o', 'U']] + split_identifiers(rest),
        split_identifiers(seq!['j', 'u'] + rest) == seq![seq!['j', 'u']] + split_identifiers(rest),
        split_identifiers(seq!['t', 'S'] + rest) == seq![seq!['t', 'S']] + split_identifiers(rest),
        split_identifiers(seq!['d', 'Z'] + rest) == seq![seq!['d', 'Z']] + split_identifiers(rest),
        split_identifiers(seq!['O', 'i'] + rest) == seq![seq!['O', 'I']] + split_identifiers(rest),
{
    lemma_pair_identifier(seq!['a', 'U'], seq!['a', 'U'], rest);
    lemma_pair_identifier(seq!['a', 'I'], seq!['a', 'I'], rest);
    lemma_pair_identifier(seq!['e', 'I'], seq!['e', 'I'], rest);
    lemma_pair_identifier(seq!['o', 'U'], seq!['o', 'U'], rest);
    lemma_pair_identifier(seq!['j', 'u'], seq!['j', 'u'], rest);
    lemma_pair_identifier(seq!['t', 'S'], seq!['t', 'S'], rest);
    lemma_pair_identifier(seq!['d', 'Z'], seq!['d', 'Z'], rest);
    lemma_pair_identifier(seq!['O', 'i'], seq!['O', 'I'], rest);
}

/// A one-character identifier at the front of a run of identifiers, not
/// followed by a character that would make a two-character one, is read
/// as one phoneme.
proof fn lemma_single_identifier(c: char, y: Seq<char>, rest: Seq<char>)
    requires
        c != '[',
        single_to_xsampa(c) == Some(y),
        rest.len() == 0 || pair_to_xsampa(c, rest[0]) is None,
    ensures
        split_identifiers(seq![c] + rest) == seq![y] + split_identifiers(rest),
{
    let s = seq![c] + rest;
    assert(s.take(1) =~= seq![c]);
    if s.len() >= 2 {
        assert(s.take(2) =~= seq![c, rest[0]]);
    }
    if s.len() >= 3 {
        assert(s.take(3)[0] == c);
        assert(s.take(3) != seq!['[', '@', ']']);
    }
    assert(s.skip(1) =~= rest);
}

/// The one-character Moby identifiers and their X-SAMPA phonemes: & is
/// {}, - and @ are @, and every other one stands for itself; each is read
/// as one phoneme whatever follows, unless the next character completes a
/// two-character identifier (whose second characters are i, U, I, u, S
/// and Z).
pub proof fn law_single_character_identifiers(rest: Seq<char>)
    requires
        rest.len() == 0 || (rest[0] != 'i' && rest[0] != 'U' && rest[0] != 'I' && rest[0] != 'u'
            && rest[0] != 'S' && rest[0] != 'Z'),
    ensures
        split_identifiers(seq!['x'] + rest) == seq![seq!['x']] + split_identifiers(rest),
        split_identifiers(seq!['y'] + rest) == seq![seq!['y']] + split_identifiers(rest),
        split_identifiers(seq!['&'] + rest) == seq![seq!['{', '}']] + split_identifiers(rest),
        split_identifiers(seq!['-'] + rest) == seq![seq!['@']] + split_identifiers(rest),
        split_identifiers(seq!['@'] + rest) == seq![seq!['@']] + split_identifiers(rest),
        split_identifiers(seq!['A'] + rest) == seq![seq!['A']] + split_identifiers(rest),
        split_identifiers(seq!['D'] + rest) == seq![seq!['D']] + split_identifiers(rest),
        split_identifiers(seq!['E'] + rest) == seq![seq!['E']] + split_identifiers(rest),
        split_identifiers(seq!['I'] + rest) == seq![seq!['I']] + split_identifiers(rest),
        split_identifiers(seq!['N'] + rest) == seq![seq!['N']] + split_identifiers(rest),
        split_identifiers(seq!['O'] + rest) == seq![seq!['O']] + split_identifiers(rest),
        split_identifiers(seq!['S'] + rest) == seq![seq!['S']] + split_identifiers(rest),
        split_identifiers(seq!['T'] + rest) == seq![seq!['T']] + split_identifiers(rest),
        split_identifiers(seq!['U'] + rest) == seq![seq!['U']] + split_identifiers(rest),
        split_identifiers(seq!['i'] + rest) == seq![seq!['i']] + split_identifiers(rest),
        split_identifiers(seq!['j'] + rest) == seq![seq!['j']] + split_identifiers(rest),
        split_identifiers(seq!['u'] + rest) == seq![seq!['u']] + split_identifiers(rest),
        split_identifiers(seq!['b'] + rest) == seq![seq!['b']] + split_identifiers(rest),
        split_identifiers(seq!['d'] + rest) == seq![seq!['d']] + split_identifiers(rest),
        split_identifiers(seq!['f'] + rest) == seq![seq!['f']] + split_identifiers(rest),
        split_identifiers(seq!['g'] + rest) == seq![seq!['g']] + split_identifiers(rest),
        split_identifiers(seq!['h'] + rest) == seq![seq!['h']] + split_identifiers(rest),
        split_identifiers(seq!['k'] + rest) == seq![seq!['k']] + split_identifiers(rest),
        split_identifiers(seq!['l'] + rest) == seq![seq!['l']] + split_identifiers(rest),
        split_identifiers(seq!['m'] + rest) == seq![seq!['m']] + split_identifiers(rest),
        split_identifiers(seq!['n'] + rest) == seq![seq!['n']] + split_identifiers(rest),
        split_identifiers(seq!['p'] + rest) == seq![seq!['p']] + split_identifiers(rest),
        split_identifiers(seq!['r'] + rest) == seq![seq!['r']] + split_identifiers(rest),
        split_identifiers(seq!['s'] + rest) == seq![seq!['s']] + split_identifiers(rest),
        split_identifiers(seq!['t'] + rest) == seq![seq!['t']] + split_identifiers(rest),
        split_identifiers(seq!['v'] + rest) == seq![seq!['v']] + split_identifiers(rest),
        split_identifiers(seq!['w'] + rest) == seq![seq!['w']] + split_identifiers(rest),
        split_identifiers(seq!['z'] + rest) == seq![seq!['z']] + split_identifiers(rest),
{
    lemma_single_identifier('x', seq!['x'], rest);
    lemma_single_identifier('y', seq!['y'], rest);
    lemma_single_identifier('&', seq!['{', '}'], rest);
    lemma_single_identifier('-', seq!['@'], rest);
    lemma_single_identifier('@', seq!['@'], rest);
    lemma_single_identifier('A', seq!['A'], rest);
    lemma_single_identifier('D', seq!['D'], rest);
    lemma_single_identifier('E', seq!['E'], rest);
    lemma_single_identifier('I', seq!['I'], rest);
    lemma_single_identifier('N', seq!['N'], rest);
    lemma_single_identifier('O', seq!['O'], rest);
    lemma_single_identifier('S', seq!['S'], rest);
    lemma_single_identifier('T', seq!['T'], rest);
    lemma_single_identifier('U', seq!['U'], rest);
    lemma_single_identifier('i', seq!['i'], rest);
    lemma_single_identifier('j', seq!['j'], rest);
    lemma_single_identifier('u', seq!['u'], rest);
    lemma_single_identifier('b', seq!['b'], rest);
    lemma_single_identifier('d', seq!['d'], rest);
    lemma_single_identifier('f', seq!['f'], rest);
    lemma_single_identifier('g', seq!['g'], rest);
    lemma_single_identifier('h', seq!['h'], rest);
    lemma_single_identifier('k', seq!['k'], rest);
    lemma_single_identifier('l', seq!['l'], rest);
    lemma_single_identifier('m', seq!['m'], rest);
    lemma_single_identifier('n', seq!['n'], rest);
    lemma_single_identifier('p', seq!['p'], rest);
    lemma_single_identifier('r', seq!['r'], rest);
    lemma_single_identifier('s', seq!['s'], rest);
    lemma_single_identifier('t', seq!['t'], rest);
    lemma_single_identifier('v', seq!['v'], rest);
    lemma_single_identifier('w', seq!['w'], rest);
    lemma_single_identifier('z', seq!['z'], rest);
}

} // verus!
