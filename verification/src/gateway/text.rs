//! Character-level helpers on string slices, shared by the gateway modules.

use vstd::prelude::*;

verus! {

/// Whether `p` is a prefix of `s`.
pub open spec fn has_prefix(s: Seq<char>, p: Seq<char>) -> bool {
    p.len() <= s.len() && s.subrange(0, p.len() as int) == p
}

/// The characters of `s`, in order.
pub(crate) fn chars_of(s: &str) -> (v: Vec<char>)
    ensures
        v@ == s@,
{
    let mut v: Vec<char> = Vec::new();
    for c in it: s.chars()
        invariant
            v@ == it.seq().take(it.index() as int),
    {
        v.push(c);
    }
    v
}

/// Whether the characters `s[from..to]` start with `p`.
pub(crate) fn prefix_at(s: &Vec<char>, from: usize, to: usize, p: &[char]) -> (r: bool)
    requires
        from <= to <= s@.len(),
    ensures
        r == has_prefix(s@.subrange(from as int, to as int), p@),
{
    let ghost t = s@.subrange(from as int, to as int);
    if p.len() > to - from {
        return false;
    }
    let mut i: usize = 0;
    while i < p.len()
        invariant
            i <= p@.len(),
            p@.len() <= to - from,
            from <= to <= s@.len(),
            t == s@.subrange(from as int, to as int),
            forall|j: int| 0 <= j < i ==> t[j] == p@[j],
        decreases p@.len() - i,
    {
        if s[from + i] != p[i] {
            assert(t.subrange(0, p@.len() as int)[i as int] != p@[i as int]);
            return false;
        }
        i = i + 1;
    }
    assert(t.subrange(0, p@.len() as int) =~= p@);
    true
}

/// Whether the characters of `s` are exactly `p`.
pub(crate) fn equals_chars(s: &Vec<char>, p: &[char]) -> (r: bool)
    ensures
        r == (s@ == p@),
{
    if s.len() != p.len() {
        return false;
    }
    let r = prefix_at(s, 0, s.len(), p);
    assert(s@.subrange(0, s@.len() as int) =~= s@);
    r
}

/// Whether two string slices hold the same characters.
pub(crate) fn str_equals(a: &str, b: &str) -> (r: bool)
    ensures
        r == (a@ == b@),
{
    let va = chars_of(a);
    let vb = chars_of(b);
    equals_chars(&va, vb.as_slice())
}

} // verus!
