//! Character-level string helpers shared by the parser and the renderer.

use vstd::prelude::*;

verus! {

/// The first position at or after `from` holding `c`, if any.
pub open spec fn spec_find(s: Seq<char>, from: int, c: char) -> Option<int>
    decreases s.len() - from,
{
    if from < 0 || from >= s.len() {
        None
    } else if s[from] == c {
        Some(from)
    } else {
        spec_find(s, from + 1, c)
    }
}

/// What a successful or failed search means, position by position.
pub proof fn lemma_spec_find(s: Seq<char>, from: int, c: char)
    requires
        0 <= from <= s.len(),
    ensures
        match spec_find(s, from, c) {
            Some(j) => from <= j < s.len() && s[j] == c && (forall|m: int|
                from <= m < j ==> s[m] != c),
            None => forall|m: int| from <= m < s.len() ==> s[m] != c,
        },
    decreases s.len() - from,
{
    if from < s.len() && s[from] != c {
        lemma_spec_find(s, from + 1, c);
    }
}

/// A position with `c`, with none before it, is the one found.
pub proof fn lemma_find_exact(s: Seq<char>, from: int, c: char, j: int)
    requires
        0 <= from <= j < s.len(),
        s[j] == c,
        forall|m: int| from <= m < j ==> s[m] != c,
    ensures
        spec_find(s, from, c) == Some(j),
    decreases j - from,
{
    if s[from] != c {
        lemma_find_exact(s, from + 1, c, j);
    }
}

/// When no position holds `c`, the search fails.
pub proof fn lemma_find_none(s: Seq<char>, from: int, c: char)
    requires
        0 <= from <= s.len(),
        forall|m: int| from <= m < s.len() ==> s[m] != c,
    ensures
        spec_find(s, from, c) is None,
    decreases s.len() - from,
{
    if from < s.len() {
        lemma_find_none(s, from + 1, c);
    }
}

/// The characters of a string slice, in order.
pub fn str_chars(s: &str) -> (v: Vec<char>)
    ensures
        v@ == s@,
{
    let n = s.unicode_len();
    let mut v: Vec<char> = Vec::new();
    let mut i: usize = 0;
    while i < n
        invariant
            0 <= i <= n,
            n == s@.len(),
            v@ =~= s@.take(i as int),
        decreases n - i,
    {
        v.push(s.get_char(i));
        proof {
            assert(v@ =~= s@.take(i as int + 1));
        }
        i += 1;
    }
    proof {
        assert(v@ =~= s@);
    }
    v
}

/// The elements of `v` from position `from` on.
pub fn skip_chars(v: &Vec<char>, from: usize) -> (r: Vec<char>)
    requires
        from <= v@.len(),
    ensures
        r@ == v@.skip(from as int),
{
    let mut r: Vec<char> = Vec::new();
    let mut i: usize = from;
    while i < v.len()
        invariant
            from <= i <= v@.len(),
            r@ =~= v@.subrange(from as int, i as int),
        decreases v@.len() - i,
    {
        r.push(v[i]);
        proof {
            assert(r@ =~= v@.subrange(from as int, i as int + 1));
        }
        i += 1;
    }
    proof {
        assert(r@ =~= v@.skip(from as int));
    }
    r
}

/// Relies on `String`'s `FromIterator` over `char`: collecting an iterator
/// of characters yields the string of exactly those characters, in order.
#[verifier::external_body]
pub(crate) fn chars_to_string(v: &Vec<char>) -> (s: String)
    ensures
        s@ == v@,
{
    v.iter().collect()
}

} // verus!
