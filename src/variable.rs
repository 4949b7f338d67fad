//! The `%NAME%` reference grammar and case-insensitive variable names.
use vstd::prelude::*;

verus! {

/// A character that may appear inside a `%NAME%` reference.
pub open spec fn is_name_char(c: char) -> bool {
    ('a' <= c && c <= 'z') || ('A' <= c && c <= 'Z') || ('0' <= c && c <= '9') || c == '-'
}

/// The first index at or after `k` that does not hold a name character.
pub open spec fn name_run_end(s: Seq<char>, k: int) -> int
    decreases s.len() - k,
{
    if k < 0 || k >= s.len() {
        k
    } else if is_name_char(s[k]) {
        name_run_end(s, k + 1)
    } else {
        k
    }
}

/// A reference `%NAME%` (one or more name characters) starts at index `i`.
pub open spec fn token_at(s: Seq<char>, i: int) -> bool {
    0 <= i < s.len() && s[i] == '%' && name_run_end(s, i + 1) > i + 1 && name_run_end(s, i + 1)
        < s.len() && s[name_run_end(s, i + 1)] == '%'
}

/// The name referenced by the token that starts at `i`.
pub open spec fn token_name(s: Seq<char>, i: int) -> Seq<char> {
    s.subrange(i + 1, name_run_end(s, i + 1))
}

/// No reference token starts at or after index `i`.
pub open spec fn token_free_from(s: Seq<char>, i: int) -> bool {
    forall|k: int| i <= k < s.len() ==> !token_at(s, k)
}

/// `s` holds no reference token.
pub open spec fn token_free(s: Seq<char>) -> bool {
    token_free_from(s, 0)
}

pub open spec fn is_ascii_upper(c: char) -> bool {
    'A' <= c && c <= 'Z'
}

pub open spec fn is_ascii_lower(c: char) -> bool {
    'a' <= c && c <= 'z'
}

/// Two characters are equal up to ASCII case.
pub open spec fn chars_match(a: char, b: char) -> bool {
    a == b || (is_ascii_upper(a) && is_ascii_lower(b) && b as u32 == a as u32 + 32) || (
    is_ascii_lower(a) && is_ascii_upper(b) && a as u32 == b as u32 + 32)
}

/// Two variable names are equal up to ASCII case, as the store compares them.
pub open spec fn names_match(a: Seq<char>, b: Seq<char>) -> bool {
    a.len() == b.len() && forall|i: int| 0 <= i < a.len() ==> chars_match(#[trigger] a[i], b[i])
}

pub proof fn lemma_names_match_symmetric(a: Seq<char>, b: Seq<char>)
    requires
        names_match(a, b),
    ensures
        names_match(b, a),
{
    assert forall|i: int| 0 <= i < b.len() implies chars_match(#[trigger] b[i], a[i]) by {
        assert(chars_match(a[i], b[i]));
    }
}

pub proof fn lemma_names_match_transitive(a: Seq<char>, b: Seq<char>, c: Seq<char>)
    requires
        names_match(a, b),
        names_match(b, c),
    ensures
        names_match(a, c),
{
    assert forall|i: int| 0 <= i < a.len() implies chars_match(#[trigger] a[i], c[i]) by {
        assert(chars_match(a[i], b[i]));
        assert(chars_match(b[i], c[i]));
    }
}

pub fn name_char(c: char) -> (r: bool)
    ensures
        r == is_name_char(c),
{
    ('a' <= c && c <= 'z') || ('A' <= c && c <= 'Z') || ('0' <= c && c <= '9') || c == '-'
}

fn char_matches(a: char, b: char) -> (r: bool)
    ensures
        r == chars_match(a, b),
{
    if a == b {
        return true;
    }
    let x = a as u32;
    let y = b as u32;
    ('A' <= a && a <= 'Z' && 'a' <= b && b <= 'z' && y == x + 32) || ('a' <= a && a <= 'z' && 'A'
        <= b && b <= 'Z' && x == y + 32)
}

/// Compares two variable names up to ASCII case.
pub fn same_name(a: &str, b: &str) -> (r: bool)
    ensures
        r == names_match(a@, b@),
{
    let n = a.unicode_len();
    if n != b.unicode_len() {
        return false;
    }
    let mut i: usize = 0;
    while i < n
        invariant
            n == a@.len() == b@.len(),
            i <= n,
            forall|k: int| 0 <= k < i ==> chars_match(#[trigger] a@[k], b@[k]),
        decreases n - i,
    {
        if !char_matches(a.get_char(i), b.get_char(i)) {
            return false;
        }
        i += 1;
    }
    true
}

proof fn lemma_run_end_bounds(s: Seq<char>, k: int)
    requires
        0 <= k <= s.len(),
    ensures
        k <= name_run_end(s, k) <= s.len(),
        forall|j: int| k <= j < name_run_end(s, k) ==> is_name_char(#[trigger] s[j]),
        name_run_end(s, k) < s.len() ==> !is_name_char(s[name_run_end(s, k)]),
    decreases s.len() - k,
{
    if k < s.len() && is_name_char(s[k]) {
        lemma_run_end_bounds(s, k + 1);
    }
}

/// The end of the run of name characters that starts at `start`.
pub fn scan_name(s: &str, start: usize) -> (e: usize)
    requires
        start <= s@.len(),
    ensures
        e as int == name_run_end(s@, start as int),
        start <= e <= s@.len(),
{
    let n = s.unicode_len();
    let mut j = start;
    proof {
        lemma_run_end_bounds(s@, start as int);
    }
    while j < n && name_char(s.get_char(j))
        invariant
            n == s@.len(),
            start <= j <= n,
            name_run_end(s@, start as int) == name_run_end(s@, j as int),
        decreases n - j,
    {
        j += 1;
    }
    j
}

/// Whether a reference token starts at index `i`; if so, where its closing `%` stands.
pub fn token_end(s: &str, i: usize) -> (r: Option<usize>)
    requires
        i < s@.len(),
    ensures
        r is Some <==> token_at(s@, i as int),
        r matches Some(e) ==> e as int == name_run_end(s@, i + 1),
{
    if s.get_char(i) != '%' {
        return None;
    }
    let n = s.unicode_len();
    let e = scan_name(s, i + 1);
    if e > i + 1 && e < n && s.get_char(e) == '%' {
        Some(e)
    } else {
        None
    }
}

} // verus!
