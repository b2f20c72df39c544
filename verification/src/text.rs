//! Plain text: where a character first stands in it, and how it grows.

use vstd::prelude::*;

verus! {

/// How many characters of `s` stand before the first `c`; the length of `s`
/// where it holds no `c`.
pub open spec fn offset_of(s: Seq<char>, c: char) -> nat
    decreases s.len(),
{
    if s.len() == 0 || s[0] == c {
        0
    } else {
        1 + offset_of(s.skip(1), c)
    }
}

/// `offset_of` is a position in `s` or its length, no `c` stands before it, and
/// a `c` stands at it where it is a position.
pub proof fn lemma_offset_of(s: Seq<char>, c: char)
    ensures
        offset_of(s, c) <= s.len(),
        forall|i: int| 0 <= i < offset_of(s, c) ==> s[i] != c,
        offset_of(s, c) < s.len() ==> s[offset_of(s, c) as int] == c,
    decreases s.len(),
{
    if s.len() != 0 && s[0] != c {
        let t = s.skip(1);
        lemma_offset_of(t, c);
        assert forall|i: int| 0 <= i < offset_of(s, c) implies s[i] != c by {
            if i > 0 {
                assert(s[i] == t[i - 1]);
            }
        }
    }
}

/// A text without any `c` has its length as the offset of `c`.
pub proof fn lemma_offset_of_absent(s: Seq<char>, c: char)
    requires
        !s.contains(c),
    ensures
        offset_of(s, c) == s.len(),
{
    lemma_offset_of(s, c);
    if offset_of(s, c) < s.len() {
        assert(s.contains(c));
    }
}

/// Where `c` stands at position `k` of `s` and nowhere before it, `k` is the
/// offset of `c`.
pub proof fn lemma_offset_of_first(s: Seq<char>, c: char, k: int)
    requires
        0 <= k < s.len(),
        s[k] == c,
        forall|i: int| 0 <= i < k ==> s[i] != c,
    ensures
        offset_of(s, c) == k,
{
    lemma_offset_of(s, c);
}

/// Appends `c` to `s` by a call of `String::push`.
///
/// Not proved, but taken from the documentation of `String::push`: after the
/// call the string holds what it held before, and `c` behind it.
#[verifier::external_body]
pub(crate) fn push_char(s: &mut String, c: char)
    ensures
        final(s)@ == old(s)@.push(c),
{
    s.push(c)
}

} // verus!
