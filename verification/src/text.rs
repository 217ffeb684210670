//! Going between strings and their characters.

use vstd::prelude::*;

verus! {

/// Appends `c` to `s`: `String::push` of the standard library, which adds the
/// character at the end of the string and leaves the rest as it is.
#[verifier::external_body]
pub(crate) fn string_push(s: &mut String, c: char)
    ensures
        final(s)@ == old(s)@.push(c),
{
    s.push(c)
}

/// The character at position `k` of `chars`.
pub fn char_at(chars: &[char], k: usize) -> (c: char)
    requires
        k < chars@.len(),
    ensures
        c == chars@[k as int],
{
    chars[k]
}

/// The characters of `s`, in order.
pub fn str_chars(s: &str) -> (chars: Vec<char>)
    ensures
        chars@ == s@,
{
    let mut chars: Vec<char> = Vec::new();
    for c in it: s.chars()
        invariant
            it.seq() == s@,
            chars@ == s@.take(it.index() as int),
    {
        chars.push(c);
    }
    chars
}

/// The string made of `chars`, in order.
pub fn string_from_chars(chars: &[char]) -> (s: String)
    ensures
        s@ == chars@,
{
    let mut s = String::new();
    let mut k: usize = 0;
    while k < chars.len()
        invariant
            k <= chars.len(),
            s@ == chars@.take(k as int),
        decreases chars.len() - k,
    {
        string_push(&mut s, chars[k]);
        k = k + 1;
        proof {
            assert(chars@.take(k as int) =~= chars@.take(k - 1).push(chars@[k - 1]));
        }
    }
    proof {
        assert(chars@.take(k as int) =~= chars@);
    }
    s
}

} // verus!
