//! Voice files by name: the file name that holds a voice, and the sorted
//! list of voices that a directory listing offers.

use vstd::prelude::*;
use crate::text::{
    chars_of, string_of, chars_lt, lemma_chars_lt_irreflexive, lemma_chars_lt_transitive, Rank,
    rank_chars,
};

verus! {

/// The extension of voice files, without its dot.
pub open spec fn voice_extension() -> Seq<char> {
    seq!['v', 'o', 'i', 'c', 'e']
}

/// The file name that holds voice `name`: the name followed by `.voice`.
pub open spec fn voice_file(name: Seq<char>) -> Seq<char> {
    name + seq!['.'] + voice_extension()
}

/// The file name that holds voice `voice_name`.
pub fn voice_file_name(voice_name: &str) -> (r: String)
    ensures
        r@ == voice_file(voice_name@),
{
    let mut v = chars_of(voice_name);
    v.push('.');
    v.push('v');
    v.push('o');
    v.push('i');
    v.push('c');
    v.push('e');
    assert(v@ =~= voice_file(voice_name@));
    string_of(v.as_slice())
}

/// The position of the last `.` in `s`, if any.
pub open spec fn last_dot(s: Seq<char>) -> Option<int>
    decreases s.len(),
{
    if s.len() == 0 {
        None
    } else if s.last() == '.' {
        Some(s.len() - 1)
    } else {
        last_dot(s.drop_last())
    }
}

/// The voice that a file named `file` holds: the part of the name before
/// its last dot, where the part after it is `voice`. A name whose only dot
/// leads it has no extension.
pub open spec fn voice_stem(file: Seq<char>) -> Option<Seq<char>> {
    match last_dot(file) {
        Some(p) => if p > 0 && file.skip(p + 1) == voice_extension() {
            Some(file.take(p))
        } else {
            None
        },
        None => None,
    }
}

/// Some file of `files` holds voice `name`.
pub open spec fn offers_voice(files: Seq<Seq<char>>, name: Seq<char>) -> bool {
    exists|i: int| 0 <= i < files.len() && #[trigger] voice_stem(files[i]) == Some(name)
}

/// Each name comes strictly before the next.
pub open spec fn strictly_sorted(s: Seq<Seq<char>>) -> bool {
    forall|i: int, j: int| 0 <= i < j < s.len() ==> chars_lt(#[trigger] s[i], #[trigger] s[j])
}

/// The last dot of `s[..n]` is the last one before `n`.
proof fn lemma_last_dot_scan(s: Seq<char>, n: int)
    requires
        0 <= n <= s.len(),
        forall|k: int| n <= k < s.len() ==> s[k] != '.',
    ensures
        last_dot(s) == last_dot(s.take(n)),
    decreases s.len() - n,
{
    if n < s.len() {
        assert(s.drop_last() =~= s.take(s.len() - 1));
        assert(s.take(s.len() - 1).take(n) =~= s.take(n));
        lemma_last_dot_scan(s.take(s.len() - 1), n);
    } else {
        assert(s.take(n) =~= s);
    }
}

/// The voice that a file named `file` holds, if any.
fn stem_of(file: &[char]) -> (r: Option<Vec<char>>)
    ensures
        match r {
            Some(v) => voice_stem(file@) == Some(v@),
            None => voice_stem(file@) is None,
        },
{
    let mut n: usize = file.len();
    while n > 0 && file[n - 1] != '.'
        invariant
            0 <= n <= file.len(),
            forall|k: int| n <= k < file.len() ==> file@[k] != '.',
        decreases n,
    {
        n = n - 1;
    }
    proof {
        lemma_last_dot_scan(file@, n as int);
        if n > 0 {
            assert(file@.take(n as int).last() == '.');
            assert(last_dot(file@) == Some(n - 1));
        } else {
            assert(file@.take(0) =~= Seq::<char>::empty());
        }
    }
    if n < 2 {
        return None;
    }
    let p = n - 1;
    if file.len() - n != 5 || file[n] != 'v' || file[n + 1] != 'o' || file[n + 2] != 'i'
        || file[n + 3] != 'c' || file[n + 4] != 'e' {
        proof {
            if file@.skip(p + 1) == voice_extension() {
                assert(file@.skip(p + 1).len() == 5);
                assert(file@.skip(p + 1)[0] == file@[n as int]);
                assert(file@.skip(p + 1)[1] == file@[n + 1]);
                assert(file@.skip(p + 1)[2] == file@[n + 2]);
                assert(file@.skip(p + 1)[3] == file@[n + 3]);
                assert(file@.skip(p + 1)[4] == file@[n + 4]);
            }
        }
        return None;
    }
    assert(file@.skip(p + 1) =~= voice_extension());
    let mut stem: Vec<char> = Vec::new();
    let mut k: usize = 0;
    while k < p
        invariant
            0 <= k <= p,
            p < file.len(),
            stem@ == file@.take(k as int),
        decreases p - k,
    {
        stem.push(file[k]);
        k = k + 1;
        assert(stem@ =~= file@.take(k as int));
    }
    Some(stem)
}

/// Insert `name` into the sorted list `names`, unless it is there already.
fn insert_sorted(names: &mut Vec<String>, name: Vec<char>)
    requires
        strictly_sorted(old(names).deep_view()),
    ensures
        strictly_sorted(final(names).deep_view()),
        forall|x: Seq<char>|
            #[trigger] final(names).deep_view().contains(x) <==> (old(names).deep_view().contains(x)
                || x == name@),
{
    let ghost before = names.deep_view();
    let mut j: usize = 0;
    let mut found = false;
    let mut stop = false;
    while !stop && j < names.len()
        invariant
            names.deep_view() == before,
            0 <= j <= names.len(),
            forall|k: int| 0 <= k < j ==> chars_lt(#[trigger] before[k], name@),
            stop ==> j < names.len() && (found ==> before[j as int] == name@) && (!found
                ==> chars_lt(name@, before[j as int])),
            found ==> stop,
        decreases names.len() - j, if stop {
            0int
        } else {
            1int
        },
    {
        let here = chars_of(names[j].as_str());
        assert(here@ == before[j as int]);
        match rank_chars(&here, &name) {
            Rank::Before => {
                j = j + 1;
            },
            Rank::Same => {
                found = true;
                stop = true;
            },
            Rank::After => {
                stop = true;
            },
        }
    }
    if found {
        proof {
            assert forall|x: Seq<char>| #[trigger] names.deep_view().contains(x) <==> (
            before.contains(x) || x == name@) by {
                if x == name@ {
                    assert(before[j as int] == x);
                }
            }
        }
        return;
    }
    let s = string_of(name.as_slice());
    names.insert(j, s);
    proof {
        let after = names.deep_view();
        assert(after =~= before.insert(j as int, name@));
        assert forall|a: int, b: int| 0 <= a < b < after.len() implies chars_lt(
            #[trigger] after[a],
            #[trigger] after[b],
        ) by {
            if b == j {
                assert(after[a] == before[a]);
            } else if a == j {
                assert(after[b] == before[b - 1]);
                if b - 1 > j {
                    assert(chars_lt(before[j as int], before[b - 1]));
                    lemma_chars_lt_transitive(name@, before[j as int], before[b - 1]);
                }
            } else if a < j && b > j {
                assert(after[a] == before[a]);
                assert(after[b] == before[b - 1]);
                assert(chars_lt(before[a], before[b - 1]));
            } else if b < j {
                assert(after[a] == before[a]);
                assert(after[b] == before[b]);
            } else {
                assert(after[a] == before[a - 1]);
                assert(after[b] == before[b - 1]);
            }
        }
        assert forall|x: Seq<char>| #[trigger] after.contains(x) <==> (before.contains(x) || x
            == name@) by {
            if after.contains(x) {
                let k = choose|k: int| 0 <= k < after.len() && after[k] == x;
                if k < j {
                    assert(before[k] == x);
                } else if k > j {
                    assert(before[k - 1] == x);
                }
            }
            if before.contains(x) {
                let k = choose|k: int| 0 <= k < before.len() && before[k] == x;
                if k < j {
                    assert(after[k] == x);
                } else {
                    assert(after[k + 1] == x);
                }
            }
            if x == name@ {
                assert(after[j as int] == x);
            }
        }
    }
}

/// The voices offered by a directory holding the files `files`: each
/// name once, in sorted order.
pub fn voice_names(files: &Vec<String>) -> (names: Vec<String>)
    ensures
        strictly_sorted(names.deep_view()),
        forall|x: Seq<char>| #[trigger]
            names.deep_view().contains(x) <==> offers_voice(files.deep_view(), x),
{
    let ghost fs = files.deep_view();
    let mut names: Vec<String> = Vec::new();
    let mut i: usize = 0;
    while i < files.len()
        invariant
            0 <= i <= files.len(),
            fs == files.deep_view(),
            strictly_sorted(names.deep_view()),
            forall|x: Seq<char>| #[trigger]
                names.deep_view().contains(x) <==> offers_voice(fs.take(i as int), x),
        decreases files.len() - i,
    {
        let file = chars_of(files[i].as_str());
        assert(file@ == fs[i as int]);
        let ghost old_names = names.deep_view();
        let stem = stem_of(&file);
        match stem {
            Some(s) => {
                insert_sorted(&mut names, s);
            },
            None => {},
        }
        proof {
            let t = fs.take(i + 1);
            assert forall|x: Seq<char>| #[trigger] names.deep_view().contains(x) <==> offers_voice(
                t,
                x,
            ) by {
                if offers_voice(t, x) {
                    let k = choose|k: int| 0 <= k < t.len() && #[trigger] voice_stem(t[k]) == Some(x);
                    if k < i {
                        assert(fs.take(i as int)[k] == t[k]);
                        assert(offers_voice(fs.take(i as int), x));
                    }
                }
                if offers_voice(fs.take(i as int), x) {
                    let k = choose|k: int|
                        0 <= k < i && #[trigger] voice_stem(fs.take(i as int)[k]) == Some(x);
                    assert(t[k] == fs.take(i as int)[k]);
                    assert(offers_voice(t, x));
                }
                if stem is Some && x == stem->0@ {
                    assert(t[i as int] == fs[i as int]);
                    assert(voice_stem(t[i as int]) == Some(x));
                    assert(offers_voice(t, x));
                }
            }
        }
        i = i + 1;
    }
    assert(fs.take(files.len() as int) =~= fs);
    names
}

/// A voice with a name resolves to a file whose stem is that name again.
pub proof fn law_voice_file_roundtrip(name: Seq<char>)
    requires
        name.len() > 0,
    ensures
        voice_stem(voice_file(name)) == Some(name),
{
    let f = voice_file(name);
    let n = name.len() as int;
    lemma_last_dot_scan(f, n + 1);
    assert(f.take(n + 1).last() == '.');
    assert(f.skip(n + 1) =~= voice_extension());
    assert(f.take(n) =~= name);
}

/// A listed voice resolves to the very file it was found in.
pub proof fn law_voice_stem_names_its_file(file: Seq<char>)
    requires
        voice_stem(file) is Some,
    ensures
        voice_file(voice_stem(file)->0) == file,
{
    let p = last_dot(file)->0;
    lemma_last_dot_is_dot(file);
    assert(file =~= file.take(p) + seq!['.'] + file.skip(p + 1));
}

/// Where `last_dot` finds a position, a dot stands there.
proof fn lemma_last_dot_is_dot(s: Seq<char>)
    ensures
        last_dot(s) is Some ==> 0 <= last_dot(s)->0 < s.len() && s[last_dot(s)->0] == '.',
    decreases s.len(),
{
    if s.len() > 0 && s.last() != '.' {
        lemma_last_dot_is_dot(s.drop_last());
    }
}

/// Two strictly sorted lists that hold the same names are the same list.
proof fn lemma_sorted_unique(a: Seq<Seq<char>>, b: Seq<Seq<char>>)
    requires
        strictly_sorted(a),
        strictly_sorted(b),
        forall|x: Seq<char>| a.contains(x) <==> b.contains(x),
    ensures
        a == b,
    decreases a.len(),
{
    if a.len() == 0 {
        if b.len() > 0 {
            assert(b.contains(b[0]));
        }
        assert(a =~= b);
    } else {
        assert(a.contains(a[0]));
        let kb = choose|k: int| 0 <= k < b.len() && b[k] == a[0];
        assert(b.contains(b[0]));
        let ka = choose|k: int| 0 <= k < a.len() && a[k] == b[0];
        if a[0] != b[0] {
            assert(kb > 0 && ka > 0);
            assert(chars_lt(b[0], b[kb]));
            assert(chars_lt(a[0], a[ka]));
            lemma_chars_lt_transitive(a[0], b[0], a[0]);
            lemma_chars_lt_irreflexive(a[0]);
        }
        let a1 = a.drop_first();
        let b1 = b.drop_first();
        assert forall|x: Seq<char>| a1.contains(x) <==> b1.contains(x) by {
            if a1.contains(x) {
                let k = choose|k: int| 0 <= k < a1.len() && a1[k] == x;
                assert(a[k + 1] == x);
                assert(chars_lt(a[0], x));
                lemma_chars_lt_irreflexive(x);
                assert(b.contains(x));
                let j = choose|j: int| 0 <= j < b.len() && b[j] == x;
                assert(j > 0);
                assert(b1[j - 1] == x);
            }
            if b1.contains(x) {
                let k = choose|k: int| 0 <= k < b1.len() && b1[k] == x;
                assert(b[k + 1] == x);
                assert(chars_lt(b[0], x));
                lemma_chars_lt_irreflexive(x);
                assert(a.contains(x));
                let j = choose|j: int| 0 <= j < a.len() && a[j] == x;
                assert(j > 0);
                assert(a1[j - 1] == x);
            }
        }
        assert forall|i: int, j: int| 0 <= i < j < a1.len() implies chars_lt(#[trigger] a1[i], #[trigger] a1[j]) by {
            assert(a1[i] == a[i + 1] && a1[j] == a[j + 1]);
        }
        assert forall|i: int, j: int| 0 <= i < j < b1.len() implies chars_lt(#[trigger] b1[i], #[trigger] b1[j]) by {
            assert(b1[i] == b[i + 1] && b1[j] == b[j + 1]);
        }
        lemma_sorted_unique(a1, b1);
        assert(a =~= seq![a[0]] + a1);
        assert(b =~= seq![b[0]] + b1);
    }
}

/// The voice list does not depend on the order or repetition in which the
/// directory lists its files: two listings that offer the same voices give
/// the same list (each as `voice_names` describes its result).
pub proof fn law_voice_list_ignores_listing_order(
    files1: Seq<Seq<char>>,
    files2: Seq<Seq<char>>,
    names1: Seq<Seq<char>>,
    names2: Seq<Seq<char>>,
)
    requires
        strictly_sorted(names1),
        strictly_sorted(names2),
        forall|x: Seq<char>| #[trigger] names1.contains(x) <==> offers_voice(files1, x),
        forall|x: Seq<char>| #[trigger] names2.contains(x) <==> offers_voice(files2, x),
        forall|x: Seq<char>| #[trigger] offers_voice(files1, x) <==> offers_voice(files2, x),
    ensures
        names1 == names2,
{
    assert forall|x: Seq<char>| names1.contains(x) <==> names2.contains(x) by {
        assert(names1.contains(x) <==> offers_voice(files1, x));
        assert(names2.contains(x) <==> offers_voice(files2, x));
    }
    lemma_sorted_unique(names1, names2);
}

} // verus!
