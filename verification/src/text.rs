//! Text as sequences of characters: the few steps between `str`, `String`
//! and `Vec<char>` that the parsers and writers share.

use vstd::prelude::*;

verus! {

/// `String::push` appends one character.
pub assume_specification[ String::push ](s: &mut String, c: char)
    ensures
        final(s)@ == old(s)@.push(c),
;

/// The characters of `s`.
pub fn chars_of(s: &str) -> (v: Vec<char>)
    ensures
        v@ == s@,
{
    let mut v: Vec<char> = Vec::new();
    for c in it: s.chars()
        invariant
            v@ == it.seq().take(it.index() as int),
            it.seq() == s@,
    {
        v.push(c);
    }
    v
}

/// The characters `v[from..to]` as a string.
pub fn string_of(v: &Vec<char>, from: usize, to: usize) -> (s: String)
    requires
        from <= to <= v.len(),
    ensures
        s@ == v@.subrange(from as int, to as int),
{
    let mut s = String::new();
    let mut i: usize = from;
    while i < to
        invariant
            from <= i <= to <= v.len(),
            s@ == v@.subrange(from as int, i as int),
        decreases to - i,
    {
        s.push(v[i]);
        assert(v@.subrange(from as int, i + 1) =~= v@.subrange(from as int, i as int).push(
            v[i as int],
        ));
        i = i + 1;
    }
    s
}

/// Appends the characters of `v` to `out`.
pub fn push_chars(out: &mut String, v: &Vec<char>)
    ensures
        final(out)@ == old(out)@ + v@,
{
    let mut i: usize = 0;
    while i < v.len()
        invariant
            i <= v.len(),
            out@ == old(out)@ + v@.take(i as int),
        decreases v.len() - i,
    {
        out.push(v[i]);
        assert(v@.take(i + 1) =~= v@.take(i as int).push(v[i as int]));
        assert(old(out)@ + v@.take(i + 1) =~= (old(out)@ + v@.take(i as int)).push(v[i as int]));
        i = i + 1;
    }
    assert(v@.take(i as int) =~= v@);
}

/// Whether `label` stands in `s` at `at`.
pub fn matches_at(s: &Vec<char>, at: usize, label: &Vec<char>) -> (r: bool)
    requires
        at <= s.len(),
    ensures
        r == (at + label.len() <= s.len() && s@.subrange(at as int, at + label.len()) == label@),
{
    if label.len() > s.len() - at {
        return false;
    }
    let mut i: usize = 0;
    while i < label.len()
        invariant
            i <= label.len(),
            at + label.len() <= s.len(),
            s@.subrange(at as int, at + i) == label@.take(i as int),
        decreases label.len() - i,
    {
        if s[at + i] != label[i] {
            proof {
                let whole = s@.subrange(at as int, at + label.len());
                if whole == label@ {
                    assert(whole[i as int] == label@[i as int]);
                }
            }
            return false;
        }
        assert(s@.subrange(at as int, at + i + 1) =~= s@.subrange(at as int, at + i).push(
            s[at + i],
        ));
        assert(label@.take(i + 1) =~= label@.take(i as int).push(label[i as int]));
        i = i + 1;
    }
    assert(label@.take(i as int) =~= label@);
    true
}

/// Whether `c` occurs in `s[from..to]`.
pub fn contains_char(s: &Vec<char>, from: usize, to: usize, c: char) -> (r: bool)
    requires
        from <= to <= s.len(),
    ensures
        r == s@.subrange(from as int, to as int).contains(c),
{
    let ghost part = s@.subrange(from as int, to as int);
    let mut i: usize = from;
    while i < to
        invariant
            from <= i <= to <= s.len(),
            part == s@.subrange(from as int, to as int),
            forall|p: int| 0 <= p < i - from ==> part[p] != c,
        decreases to - i,
    {
        if s[i] == c {
            assert(part[i - from] == c);
            return true;
        }
        i = i + 1;
    }
    false
}

} // verus!
