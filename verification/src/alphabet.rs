//! The alphabet model: which alphabets a call works with, and where a
//! character sits inside one of them.

use vstd::prelude::*;

verus! {

/// The built-in consonant and vowel alphabets, used when the caller supplies none.
pub open spec fn default_alphabets() -> Seq<Seq<char>> {
    seq!["bcdfglmnprstvz"@, "aeiou"@]
}

/// The alphabets a call works with: the caller's list when it is present and
/// non-empty, the built-in pair otherwise.
pub open spec fn resolved_alphabets(opt: Option<Seq<Seq<char>>>) -> Seq<Seq<char>> {
    match opt {
        Some(s) => if s.len() > 0 {
            s
        } else {
            default_alphabets()
        },
        None => default_alphabets(),
    }
}

/// An optional list of alphabet strings, read as sequences of characters.
pub open spec fn view_alphabets(opt: &Option<Vec<String>>) -> Option<Seq<Seq<char>>> {
    match opt {
        Some(v) => Some(v.deep_view()),
        None => None,
    }
}

/// Position of the first occurrence of `c` in `a`, or -1 when `c` is absent.
pub open spec fn first_pos(a: Seq<char>, c: char) -> int
    decreases a.len(),
{
    if a.len() == 0 {
        -1
    } else if a[0] == c {
        0
    } else {
        let r = first_pos(a.drop_first(), c);
        if r < 0 {
            -1
        } else {
            r + 1
        }
    }
}

/// The characters of `a` are pairwise distinct.
pub open spec fn distinct_chars(a: Seq<char>) -> bool {
    forall|i: int, j: int| 0 <= i < j < a.len() ==> a[i] != a[j]
}

/// Every alphabet of the set has pairwise distinct characters.
pub open spec fn distinct_alphabets(alphas: Seq<Seq<char>>) -> bool {
    forall|k: int| 0 <= k < alphas.len() ==> distinct_chars(#[trigger] alphas[k])
}

/// The built-in alphabets are well formed: both are non-empty with pairwise
/// distinct characters, and the first is longer than one character, so every
/// value is representable under the defaults.
pub proof fn lemma_default_alphabets_wf()
    ensures
        default_alphabets().len() == 2,
        forall|j: int|
            0 <= j < default_alphabets().len() ==> (#[trigger] default_alphabets()[j]).len() > 0,
        exists|j: int|
            0 <= j < default_alphabets().len() && (#[trigger] default_alphabets()[j]).len() != 1,
        distinct_alphabets(default_alphabets()),
{
    reveal_strlit("bcdfglmnprstvz");
    reveal_strlit("aeiou");
    assert(default_alphabets()[0].len() == 14);
    assert(default_alphabets()[1].len() == 5);
    assert(distinct_chars(default_alphabets()[0]));
    assert(distinct_chars(default_alphabets()[1]));
}

/// `first_pos` stays within bounds, lands on `c` when it is non-negative, and
/// is -1 exactly when `c` does not occur.
pub proof fn lemma_first_pos_props(a: Seq<char>, c: char)
    ensures
        -1 <= first_pos(a, c) < a.len(),
        first_pos(a, c) >= 0 ==> a[first_pos(a, c)] == c,
        first_pos(a, c) == -1 ==> forall|i: int| 0 <= i < a.len() ==> a[i] != c,
        first_pos(a, c) >= 0 ==> forall|i: int| 0 <= i < first_pos(a, c) ==> a[i] != c,
    decreases a.len(),
{
    if a.len() != 0 && a[0] != c {
        lemma_first_pos_props(a.drop_first(), c);
        let df = a.drop_first();
        let p = first_pos(a, c);
        if p == -1 {
            assert forall|i: int| 0 <= i < a.len() implies a[i] != c by {
                if i > 0 {
                    assert(df[i - 1] == a[i]);
                }
            }
        } else {
            assert(df[p - 1] == a[p]);
            assert forall|i: int| 0 <= i < p implies a[i] != c by {
                if i > 0 {
                    assert(df[i - 1] == a[i]);
                }
            }
        }
    }
}

/// When nothing before position `j` matches `a[j]`, the first occurrence of
/// `a[j]` is position `j` itself.
pub proof fn lemma_first_pos_at(a: Seq<char>, j: int)
    requires
        0 <= j < a.len(),
        forall|i: int| 0 <= i < j ==> a[i] != a[j],
    ensures
        first_pos(a, a[j]) == j,
    decreases j,
{
    if j > 0 {
        assert(a.drop_first()[j - 1] == a[j]);
        assert(forall|i: int| 0 <= i < j - 1 ==> a.drop_first()[i] == a[i + 1]);
        lemma_first_pos_at(a.drop_first(), j - 1);
    }
}

/// Relies on `str::chars`: the characters of a string slice, in order.
#[verifier::external_body]
pub(crate) fn chars_of(s: &str) -> (r: Vec<char>)
    ensures
        r@ == s@,
{
    s.chars().collect()
}

/// Relies on `String`'s `FromIterator<char>`: collecting characters yields the
/// string made of exactly those characters, in order.
#[verifier::external_body]
pub(crate) fn string_of(chars: Vec<char>) -> (r: String)
    ensures
        r@ == chars@,
{
    chars.into_iter().collect()
}

/// First occurrence of `c` in `a`, as `decode` and `is_valid` look it up.
pub(crate) fn find_char(a: &Vec<char>, c: char) -> (r: Option<usize>)
    ensures
        match r {
            Some(p) => p == first_pos(a@, c),
            None => first_pos(a@, c) == -1,
        },
{
    proof {
        lemma_first_pos_props(a@, c);
    }
    let mut i: usize = 0;
    while i < a.len()
        invariant
            0 <= i <= a.len(),
            forall|k: int| 0 <= k < i ==> a@[k] != c,
            -1 <= first_pos(a@, c) < a@.len(),
            first_pos(a@, c) >= 0 ==> a@[first_pos(a@, c)] == c,
        decreases a.len() - i,
    {
        if a[i] == c {
            proof {
                lemma_first_pos_at(a@, i as int);
            }
            return Some(i);
        }
        i += 1;
    }
    None
}

fn default_alphabet_vecs() -> (r: Vec<Vec<char>>)
    ensures
        r.deep_view() == default_alphabets(),
{
    let mut out: Vec<Vec<char>> = Vec::new();
    let consonants = chars_of("bcdfglmnprstvz");
    let vowels = chars_of("aeiou");
    assert(consonants.deep_view() =~= consonants@);
    assert(vowels.deep_view() =~= vowels@);
    out.push(consonants);
    out.push(vowels);
    assert(out.deep_view() =~~= default_alphabets());
    out
}

/// The alphabets resolved from an optional caller-supplied list, each string
/// decomposed into its characters.
pub(crate) fn get_alphabets(alphabets: &Option<Vec<String>>) -> (r: Vec<Vec<char>>)
    ensures
        r.deep_view() == resolved_alphabets(view_alphabets(alphabets)),
        r.len() >= 1,
{
    let r = match alphabets {
        Some(list) => {
            if list.len() == 0 {
                default_alphabet_vecs()
            } else {
                let mut out: Vec<Vec<char>> = Vec::new();
                let mut i: usize = 0;
                while i < list.len()
                    invariant
                        0 <= i <= list.len(),
                        out@.len() == i as int,
                        out.deep_view() =~~= list.deep_view().take(i as int),
                    decreases list.len() - i,
                {
                    let a = chars_of(list[i].as_str());
                    assert(a.deep_view() =~= a@);
                    out.push(a);
                    assert(out.deep_view() =~~= list.deep_view().take(i as int + 1));
                    i += 1;
                }
                assert(out.deep_view() =~~= list.deep_view());
                out
            }
        },
        None => default_alphabet_vecs(),
    };
    assert(r.deep_view().len() == r@.len());
    assert(default_alphabets().len() == 2);
    r
}


} // verus!
