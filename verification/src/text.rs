//! Small helpers for building output strings character by character.

use vstd::prelude::*;

verus! {

/// A sequence of `n` copies of the character `c`.
pub open spec fn repeat_char(c: char, n: nat) -> Seq<char>
    decreases n,
{
    if n == 0 {
        Seq::empty()
    } else {
        repeat_char(c, (n - 1) as nat).push(c)
    }
}

pub proof fn lemma_repeat_char_concat(c: char, m: nat, n: nat)
    ensures
        repeat_char(c, m + n) == repeat_char(c, m) + repeat_char(c, n),
    decreases n,
{
    if n == 0 {
        assert(repeat_char(c, m + n) =~= repeat_char(c, m) + repeat_char(c, n));
    } else {
        lemma_repeat_char_concat(c, m, (n - 1) as nat);
        assert(repeat_char(c, m + n) =~= repeat_char(c, m) + repeat_char(c, n));
    }
}

/// Relies on `String::push`: appends one character at the end of the string.
#[verifier::external_body]
pub(crate) fn push_char(s: &mut String, c: char)
    ensures
        final(s)@ == old(s)@.push(c),
{
    s.push(c);
}

/// Appends `n` copies of `c` at the end of `s`.
pub fn push_repeated(s: &mut String, c: char, n: usize)
    ensures
        final(s)@ == old(s)@ + repeat_char(c, n as nat),
{
    let mut i: usize = 0;
    while i < n
        invariant
            i <= n,
            s@ == old(s)@ + repeat_char(c, i as nat),
        decreases n - i,
    {
        push_char(s, c);
        proof {
            assert(old(s)@ + repeat_char(c, (i + 1) as nat) =~= (old(s)@ + repeat_char(
                c,
                i as nat,
            )).push(c));
        }
        i = i + 1;
    }
}

} // verus!
