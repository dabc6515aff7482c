//! Reading the characters of a string and building one.

use vstd::prelude::*;
use crate::list::reversed;

verus! {

/// Relies on `String::push`: appends one character at the end.
#[verifier::external_body]
pub(crate) fn push_char(s: &mut String, c: char)
    ensures
        final(s)@ == old(s)@.push(c),
{
    s.push(c);
}

/// Appends the characters of `chars`, last one first.
pub(crate) fn push_reversed(s: &mut String, chars: &Vec<char>)
    ensures
        final(s)@ == old(s)@ + reversed(chars@),
{
    let mut i: usize = chars.len();
    while i > 0
        invariant
            i <= chars@.len(),
            s@ == old(s)@ + reversed(chars@).subrange(0, chars@.len() - i),
        decreases i,
    {
        i -= 1;
        push_char(s, chars[i]);
        assert(reversed(chars@).subrange(0, chars@.len() - i) =~= reversed(chars@).subrange(
            0,
            chars@.len() - i - 1,
        ).push(chars@[i as int]));
    }
    assert(reversed(chars@).subrange(0, chars@.len() as int) =~= reversed(chars@));
}

/// The characters of `s`, in order.
pub(crate) fn chars_of(s: &String) -> (r: Vec<char>)
    ensures
        r@ == s@,
{
    let mut out: Vec<char> = Vec::new();
    for c in it: s.as_str().chars()
        invariant
            out@ == it.seq().subrange(0, it.index() as int),
    {
        out.push(c);
    }
    assert(out@ =~= s@);
    out
}

} // verus!
