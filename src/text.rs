//! Character-level helpers on strings, with their mathematical models.
use vstd::prelude::*;

verus! {

/// Views of a list of string pairs, as pairs of character sequences.
pub open spec fn pairs_view(v: Seq<(String, String)>) -> Seq<(Seq<char>, Seq<char>)> {
    v.map_values(|e: (String, String)| (e.0@, e.1@))
}

/// `key` occurs in `s` as a contiguous run of characters.
pub open spec fn is_substring(key: Seq<char>, s: Seq<char>) -> bool {
    exists|i: int| 0 <= i && i + key.len() <= s.len() && #[trigger] s.subrange(i, i + key.len()) == key
}

/// `key` occurs in `s` starting at position `i`.
pub open spec fn occurs_at(key: Seq<char>, s: Seq<char>, i: int) -> bool {
    0 <= i && i + key.len() <= s.len() && forall|j: int| 0 <= j < key.len() ==> s[i + j] == key[j]
}

/// Code point of `c` with ASCII letters lower-cased.
pub open spec fn lower_code(c: char) -> u32 {
    if 'A' <= c && c <= 'Z' {
        ((c as u32) + 32) as u32
    } else {
        c as u32
    }
}

/// One character with an ASCII capital letter lower-cased.
pub open spec fn lower_char(c: char) -> char {
    if 'A' <= c && c <= 'Z' {
        ((c as u32) + 32) as char
    } else {
        c
    }
}

/// `s` with its ASCII letters lower-cased.
pub open spec fn ascii_lower(s: Seq<char>) -> Seq<char> {
    s.map_values(|c: char| lower_char(c))
}

/// `r` is `s` with its ASCII letters lower-cased.
pub open spec fn is_ascii_lower_of(r: Seq<char>, s: Seq<char>) -> bool {
    r.len() == s.len() && forall|i: int| 0 <= i < s.len() ==> r[i] as u32 == lower_code(s[i])
}

/// Two names that are equal once ASCII letters are lower-cased.
pub open spec fn same_name(a: Seq<char>, b: Seq<char>) -> bool {
    a.len() == b.len() && forall|i: int| 0 <= i < a.len() ==> lower_code(a[i]) == lower_code(b[i])
}

/// Position of the first `sep` in `s`, if any.
pub open spec fn first_index_of(s: Seq<char>, sep: char) -> Option<int> {
    if exists|i: int| 0 <= i < s.len() && s[i] == sep {
        Some(choose|i: int| 0 <= i < s.len() && s[i] == sep && forall|j: int| 0 <= j < i ==> s[j] != sep)
    } else {
        None
    }
}

proof fn lemma_occurs_at_iff_subrange(key: Seq<char>, s: Seq<char>, i: int)
    requires
        0 <= i && i + key.len() <= s.len(),
    ensures
        occurs_at(key, s, i) <==> s.subrange(i, i + key.len()) == key,
{
    if occurs_at(key, s, i) {
        assert(s.subrange(i, i + key.len()) =~= key);
    }
}

fn occurs_at_exec(s: &str, n: usize, key: &str, m: usize, i: usize) -> (r: bool)
    requires
        n == s@.len(),
        m == key@.len(),
        i + m <= n,
    ensures
        r == occurs_at(key@, s@, i as int),
{
    let mut j: usize = 0;
    while j < m
        invariant
            n == s@.len(),
            m == key@.len(),
            i + m <= n,
            j <= m,
            forall|k: int| 0 <= k < j ==> s@[i + k] == key@[k],
        decreases m - j,
    {
        if s.get_char(i + j) != key.get_char(j) {
            return false;
        }
        j = j + 1;
    }
    true
}

/// Whether `key` occurs in `s`.
pub fn contains_str(s: &str, key: &str) -> (r: bool)
    ensures
        r == is_substring(key@, s@),
{
    let n = s.unicode_len();
    let m = key.unicode_len();
    if m > n {
        proof {
            assert forall|i: int| 0 <= i && i + key@.len() <= s@.len() implies
                #[trigger] s@.subrange(i, i + key@.len()) != key@ by {}
        }
        return false;
    }
    let mut i: usize = 0;
    while i <= n - m
        invariant
            n == s@.len(),
            m == key@.len(),
            m <= n,
            i <= n - m + 1,
            forall|k: int| 0 <= k < i ==> #[trigger] s@.subrange(k, k + key@.len()) != key@,
        decreases n - m + 1 - i,
    {
        if occurs_at_exec(s, n, key, m, i) {
            proof {
                lemma_occurs_at_iff_subrange(key@, s@, i as int);
            }
            return true;
        }
        proof {
            lemma_occurs_at_iff_subrange(key@, s@, i as int);
        }
        i = i + 1;
    }
    proof {
        assert forall|k: int| 0 <= k && k + key@.len() <= s@.len() implies
            #[trigger] s@.subrange(k, k + key@.len()) != key@ by {}
    }
    false
}

fn lower_code_exec(c: char) -> (r: u32)
    ensures
        r == lower_code(c),
{
    if 'A' <= c && c <= 'Z' {
        (c as u32) + 32
    } else {
        c as u32
    }
}

/// Whether two names agree once ASCII letters are lower-cased.
pub fn eq_ignore_ascii_case(a: &str, b: &str) -> (r: bool)
    ensures
        r == same_name(a@, b@),
{
    let n = a.unicode_len();
    let m = b.unicode_len();
    if n != m {
        return false;
    }
    let mut i: usize = 0;
    while i < n
        invariant
            n == a@.len(),
            n == b@.len(),
            i <= n,
            forall|k: int| 0 <= k < i ==> lower_code(a@[k]) == lower_code(b@[k]),
        decreases n - i,
    {
        if lower_code_exec(a.get_char(i)) != lower_code_exec(b.get_char(i)) {
            return false;
        }
        i = i + 1;
    }
    true
}

/// Splits `s` at its first `sep`: the part before it and the part after it.
pub fn split_once_char(s: &str, sep: char) -> (r: Option<(String, String)>)
    ensures
        match first_index_of(s@, sep) {
            None => r is None,
            Some(i) => r is Some && (r->0).0@ == s@.subrange(0, i) && (r->0).1@ == s@.subrange(i + 1, s@.len() as int),
        },
{
    let n = s.unicode_len();
    let mut i: usize = 0;
    while i < n
        invariant
            n == s@.len(),
            i <= n,
            forall|j: int| 0 <= j < i ==> s@[j] != sep,
        decreases n - i,
    {
        if s.get_char(i) == sep {
            let before = String::from_str(s.substring_char(0, i));
            let after = String::from_str(s.substring_char(i + 1, n));
            proof {
                let k = choose|k: int| 0 <= k < s@.len() && s@[k] == sep && forall|j: int| 0 <= j < k ==> s@[j] != sep;
                assert(first_index_of(s@, sep) == Some(k));
                if k < i { assert(s@[k] != sep); }
                if k > i { assert(s@[i as int] != sep); }
            }
            return Some((before, after));
        }
        i = i + 1;
    }
    None
}

} // verus!
