//! CMU Pronouncing Dictionary reading: word-to-phoneme lines with stress
//! markers (0, 1, 2 suffixes) that are stripped for synthesis.

use vstd::prelude::*;
use vstd::hash_map::StringHashMap;
use crate::mpron::{
    Dictionary, decode_windows_1252, holds_dictionary, split_lines, starts_with_bom, windows_1252_char,
    windows_1252_text,
};
use crate::text::{
    chars_of, copy_range, find_char, first_index_of, is_white_space, lowercase_of, string_of,
    strings_of, to_lowercase, trim, trimmed, white_space,
};

verus! {

/// `s` without the copies of `c` at its end.
pub open spec fn trim_end_char(s: Seq<char>, c: char) -> Seq<char>
    decreases s.len(),
{
    if s.len() > 0 && s.last() == c {
        trim_end_char(s.drop_last(), c)
    } else {
        s
    }
}

/// A phoneme without its stress marker: trailing `0`s are removed, then
/// trailing `1`s, then trailing `2`s.
pub open spec fn without_stress_marker(p: Seq<char>) -> Seq<char> {
    trim_end_char(trim_end_char(trim_end_char(p, '0'), '1'), '2')
}

/// The length of `s` without the copies of `c` at its end.
fn trimmed_len(s: &[char], len: usize, c: char) -> (n: usize)
    requires
        len <= s.len(),
    ensures
        n <= len,
        s@.take(n as int) == trim_end_char(s@.take(len as int), c),
{
    let mut n = len;
    while n > 0 && s[n - 1] == c
        invariant
            n <= len <= s.len(),
            trim_end_char(s@.take(len as int), c) == trim_end_char(s@.take(n as int), c),
        decreases n,
    {
        assert(s@.take(n as int).drop_last() =~= s@.take(n - 1));
        n = n - 1;
    }
    n
}

/// Strip the stress marker (0, 1, or 2) from a phoneme.
///
/// Examples: "AH0" -> "AH", "AE1" -> "AE", "NG" -> "NG" (no marker).
pub fn strip_stress_marker(phoneme: &str) -> (r: String)
    ensures
        r@ == without_stress_marker(phoneme@),
{
    let p = chars_of(phoneme);
    let r = strip_chars(&p);
    string_of(&r)
}

/// Strip the stress marker from the characters of a phoneme.
fn strip_chars(p: &[char]) -> (r: Vec<char>)
    ensures
        r@ == without_stress_marker(p@),
{
    assert(p@.take(p.len() as int) =~= p@);
    let n0 = trimmed_len(p, p.len(), '0');
    let n1 = trimmed_len(p, n0, '1');
    let n2 = trimmed_len(p, n1, '2');
    copy_range(p, 0, n2)
}

/// The white-space separated pieces completed after reading `s`, and the
/// piece in progress.
pub open spec fn field_scan(s: Seq<char>) -> (Seq<Seq<char>>, Seq<char>)
    decreases s.len(),
{
    if s.len() == 0 {
        (seq![], seq![])
    } else {
        let (fields, cur) = field_scan(s.drop_last());
        if white_space(s.last()) {
            (
                if cur.len() > 0 {
                    fields.push(cur)
                } else {
                    fields
                },
                seq![],
            )
        } else {
            (fields, cur.push(s.last()))
        }
    }
}

/// The non-empty white-space separated pieces of `s` (as
/// `str::split_whitespace`).
pub open spec fn fields(s: Seq<char>) -> Seq<Seq<char>> {
    let (f, cur) = field_scan(s);
    if cur.len() > 0 {
        f.push(cur)
    } else {
        f
    }
}

/// The (word, phonemes) entry of a line of the CMU dictionary: none for
/// `;` comments, blank lines, lines without a space and lines without
/// phonemes.
pub open spec fn cmu_entry(line: Seq<char>) -> Option<(Seq<char>, Seq<Seq<char>>)> {
    if (line.len() > 0 && line[0] == ';') || trimmed(line).len() == 0 {
        None
    } else {
        match first_index_of(line, ' ') {
            None => None,
            Some(p) => {
                let ph = fields(trimmed(line.skip(p + 1)));
                if ph.len() == 0 {
                    None
                } else {
                    Some(
                        (
                            lowercase_of(line.take(p)),
                            ph.map_values(|x: Seq<char>| without_stress_marker(x)),
                        ),
                    )
                }
            },
        }
    }
}

/// The dictionary that a list of CMU lines defines; a later line for a
/// word replaces an earlier one.
pub open spec fn cmu_dictionary(lines: Seq<Seq<char>>) -> Map<Seq<char>, Seq<Seq<char>>>
    decreases lines.len(),
{
    if lines.len() == 0 {
        Map::empty()
    } else {
        let d = cmu_dictionary(lines.drop_last());
        match cmu_entry(lines.last()) {
            Some((w, p)) => d.insert(w, p),
            None => d,
        }
    }
}

/// Split `s` at white space into its non-empty pieces, each with its
/// stress marker removed.
fn stripped_fields(s: &[char]) -> (r: Vec<Vec<char>>)
    ensures
        r.deep_view() == fields(s@).map_values(|x: Seq<char>| without_stress_marker(x)),
{
    let mut raw: Vec<Vec<char>> = Vec::new();
    let mut current: Vec<char> = Vec::new();
    let mut i: usize = 0;
    while i < s.len()
        invariant
            0 <= i <= s.len(),
            field_scan(s@.take(i as int)) == (raw.deep_view(), current@),
        decreases s.len() - i,
    {
        assert(s@.take(i + 1).drop_last() =~= s@.take(i as int));
        let c = s[i];
        if is_white_space(c) {
            if current.len() > 0 {
                let ghost r0 = raw.deep_view();
                let ghost c0 = current@;
                assert(current.deep_view() =~= c0);
                raw.push(current);
                assert(raw.deep_view() =~= r0.push(c0));
            }
            current = Vec::new();
            assert(current@ =~= Seq::<char>::empty());
        } else {
            current.push(c);
        }
        i = i + 1;
    }
    assert(s@.take(s.len() as int) =~= s@);
    if current.len() > 0 {
        let ghost r0 = raw.deep_view();
        let ghost c0 = current@;
        assert(current.deep_view() =~= c0);
        raw.push(current);
        assert(raw.deep_view() =~= r0.push(c0));
    }
    let ghost f = raw.deep_view();
    let mut r: Vec<Vec<char>> = Vec::new();
    let mut k: usize = 0;
    while k < raw.len()
        invariant
            0 <= k <= raw.len(),
            f == raw.deep_view(),
            r.deep_view() == f.take(k as int).map_values(|x: Seq<char>| without_stress_marker(x)),
        decreases raw.len() - k,
    {
        assert(raw[k as int].deep_view() =~= raw[k as int]@);
        let x = strip_chars(raw[k].as_slice());
        let ghost r0 = r.deep_view();
        assert(x.deep_view() =~= x@);
        r.push(x);
        assert(r.deep_view() =~= r0.push(without_stress_marker(f[k as int])));
        assert(f.take(k + 1) =~= f.take(k as int).push(f[k as int]));
        k = k + 1;
        assert(r.deep_view() =~= f.take(k as int).map_values(|x: Seq<char>| without_stress_marker(x)));
    }
    assert(f.take(f.len() as int) =~= f);
    r
}

/// The entry of one CMU dictionary line.
fn cmu_line_entry(line: &[char]) -> (r: Option<(String, Vec<String>)>)
    ensures
        match (r, cmu_entry(line@)) {
            (Some((w, p)), Some((sw, sp))) => w@ == sw && p.deep_view() == sp,
            (None, None) => true,
            _ => false,
        },
{
    if line.len() > 0 && line[0] == ';' {
        return None;
    }
    let t = trim(line);
    if t.len() == 0 {
        return None;
    }
    match find_char(line, ' ') {
        None => None,
        Some(p) => {
            let rest = copy_range(line, p + 1, line.len());
            assert(rest@ =~= line@.skip(p + 1));
            let rest_t = trim(&rest);
            let ph = stripped_fields(&rest_t);
            let ghost fs = fields(trimmed(line@.skip(p + 1)));
            assert(ph.deep_view().len() == fs.len());
            if ph.len() == 0 {
                return None;
            }
            let ghost words_seq = fs.map_values(|x: Seq<char>| without_stress_marker(x));
            let word_part = copy_range(line, 0, p);
            assert(word_part@ =~= line@.take(p as int));
            let word_str = string_of(&word_part);
            let word = to_lowercase(word_str.as_str());
            let phs = strings_of(&ph);
            assert(cmu_entry(line@) == Some((lowercase_of(line@.take(p as int)), words_seq)));
            Some((word, phs))
        },
    }
}

/// Build a dictionary from CMU Pronouncing Dictionary text: lines
/// `WORD  PH1 PH2 ...`; `;` starts a comment line. Words are lowercased,
/// stress markers stripped, and a later line for a word replaces an
/// earlier one.
pub fn parse_dictionary(content: &str) -> (dict: Dictionary)
    ensures
        holds_dictionary(dict@, cmu_dictionary(split_lines(content@))),
{
    let chars = chars_of(content);
    let mut dict: Dictionary = StringHashMap::new();
    let mut line_start: usize = 0;
    let mut i: usize = 0;
    assert(chars@.take(0) =~= Seq::<char>::empty());
    while i < chars.len()
        invariant
            0 <= line_start <= i <= chars.len(),
            split_lines(chars@.take(i as int)).len() > 0,
            split_lines(chars@.take(i as int)).last() == chars@.subrange(line_start as int, i as int),
            holds_dictionary(dict@, cmu_dictionary(split_lines(chars@.take(i as int)).drop_last())),
        decreases chars.len() - i,
    {
        let ghost before = split_lines(chars@.take(i as int));
        assert(chars@.take(i + 1).drop_last() =~= chars@.take(i as int));
        assert(chars@.take(i + 1).last() == chars@[i as int]);
        if chars[i] == '\n' {
            let line = copy_range(&chars, line_start, i);
            let entry = cmu_line_entry(&line);
            match entry {
                Some((w, p)) => {
                    dict.insert(w, p);
                },
                None => {},
            }
            proof {
                let after = split_lines(chars@.take(i + 1));
                assert(after == before.push(seq![]));
                assert(after.drop_last() =~= before);
                assert(before =~= before.drop_last().push(line@));
                let m = cmu_dictionary(before);
                assert(dict@.dom() =~= m.dom());
            }
            line_start = i + 1;
        } else {
            proof {
                let after = split_lines(chars@.take(i + 1));
                assert(after.drop_last() =~= before.drop_last());
                assert(chars@.subrange(line_start as int, i + 1) =~= chars@.subrange(
                    line_start as int,
                    i as int,
                ).push(chars@[i as int]));
            }
        }
        i = i + 1;
    }
    let ghost all = split_lines(chars@.take(i as int));
    let line = copy_range(&chars, line_start, i);
    let entry = cmu_line_entry(&line);
    match entry {
        Some((w, p)) => {
            dict.insert(w, p);
        },
        None => {},
    }
    proof {
        assert(chars@.take(i as int) =~= chars@);
        assert(all =~= all.drop_last().push(line@));
        assert(dict@.dom() =~= cmu_dictionary(all).dom());
    }
    dict
}

/// Build a dictionary from the raw bytes of a CMU dictionary file, which
/// are decoded as Windows-1252 text.
pub fn parse_dictionary_from_bytes(data: &[u8]) -> (dict: Dictionary)
    requires
        data@.len() <= usize::MAX / 4,
    ensures
        holds_dictionary(dict@, cmu_dictionary(split_lines(windows_1252_text(data@)))),
        !starts_with_bom(data@) ==> holds_dictionary(
            dict@,
            cmu_dictionary(split_lines(data@.map_values(|b: u8| windows_1252_char(b)))),
        ),
{
    let text = decode_windows_1252(data);
    parse_dictionary(text.as_str())
}

/// A stress digit of the CMU dictionary.
pub open spec fn is_stress_digit(c: char) -> bool {
    c == '0' || c == '1' || c == '2'
}

/// A phoneme that ends in no stress digit is unchanged, and one that ends
/// in a single stress digit loses exactly that digit.
pub proof fn law_stress_marker_removed(base: Seq<char>, d: char)
    requires
        base.len() == 0 || !is_stress_digit(base.last()),
        is_stress_digit(d),
    ensures
        without_stress_marker(base) == base,
        without_stress_marker(base.push(d)) == base,
{
    let p = base.push(d);
    assert(p.drop_last() =~= base);
    assert(trim_end_char(base, '0') == base);
    assert(trim_end_char(base, '1') == base);
    assert(trim_end_char(base, '2') == base);
    if d == '0' {
        assert(trim_end_char(p, '0') == trim_end_char(base, '0'));
    } else if d == '1' {
        assert(trim_end_char(p, '0') == p);
        assert(trim_end_char(p, '1') == trim_end_char(base, '1'));
    } else {
        assert(trim_end_char(p, '0') == p);
        assert(trim_end_char(p, '1') == p);
        assert(trim_end_char(p, '2') == trim_end_char(base, '2'));
    }
}

} // verus!
