//! Conversions between strings and character vectors, and token matching.
use vstd::prelude::*;

verus! {

/// Trusted: `String::push` appends the given character to the end of the
/// string and changes nothing else.
pub assume_specification[ String::push ](s: &mut String, c: char)
    ensures
        final(s)@ == old(s)@.push(c),
;

/// The characters of `s`, in order.
pub fn chars_of(s: &str) -> (v: Vec<char>)
    ensures
        v@ == s@,
{
    let mut v: Vec<char> = Vec::new();
    let it = s.chars();
    for c in iter: it
        invariant
            v@ == iter.seq().take(iter.index() as int),
    {
        v.push(c);
    }
    v
}

/// The string made of `chars[from..to]`.
pub fn string_of(chars: &[char], from: usize, to: usize) -> (s: String)
    requires
        from <= to <= chars@.len(),
    ensures
        s@ == chars@.subrange(from as int, to as int),
{
    let mut s = String::new();
    let mut i: usize = from;
    while i < to
        invariant
            from <= i <= to <= chars@.len(),
            s@ == chars@.subrange(from as int, i as int),
        decreases to - i,
    {
        s.push(chars[i]);
        i += 1;
    }
    s
}

/// Whether `token` stands in `text` at offset `at`.
pub open spec fn token_at(text: Seq<char>, at: int, token: Seq<char>) -> bool {
    &&& 0 <= at
    &&& at + token.len() <= text.len()
    &&& text.subrange(at, at + token.len()) == token
}

/// Decides [`token_at`].
pub fn matches_at(text: &[char], at: usize, token: &[char]) -> (found: bool)
    ensures
        found == token_at(text@, at as int, token@),
{
    if at > text.len() || token.len() > text.len() - at {
        return false;
    }
    let mut i: usize = 0;
    while i < token.len()
        invariant
            at + token@.len() <= text@.len() <= usize::MAX,
            i <= token@.len(),
            text@.subrange(at as int, at + i) == token@.take(i as int),
        decreases token.len() - i,
    {
        if text[at + i] != token[i] {
            assert(text@.subrange(at as int, at + token@.len())[i as int] != token@[i as int]);
            return false;
        }
        assert(text@.subrange(at as int, at + i + 1) == text@.subrange(at as int, at + i).push(
            text@[at + i],
        ));
        assert(token@.take(i + 1) == token@.take(i as int).push(token@[i as int]));
        i += 1;
    }
    assert(token@.take(token@.len() as int) == token@);
    true
}

/// Whether two character sequences are the same.
pub fn same_chars(a: &[char], b: &[char]) -> (same: bool)
    ensures
        same == (a@ == b@),
{
    if a.len() != b.len() {
        return false;
    }
    let found = matches_at(a, 0, b);
    assert(a@.subrange(0, a@.len() as int) == a@);
    found
}

} // verus!
