//! Replaces placeholders in a text by values that a resolver supplies.
//!
//! Two dialects are read: the POSIX style of `$name` and `${name}` in
//! [`posix`], and the `%name%` of the MS-Windows command prompt in [`mswin`].
//! A resolver is any function from a name to an optional value. What it
//! returns is put in as it is: no value is read again for placeholders.

pub mod mswin;
pub mod posix;
pub mod template;
pub mod text;
mod writer;

pub use template::Dialect;

use template::{answers_as, rendering, renders, Lookup, Piece};
use vstd::prelude::*;

verus! {

/// The pieces of the source text `s`, as `dialect` reads it.
pub open spec fn pieces(dialect: Dialect, s: Seq<char>) -> Seq<Piece> {
    match dialect {
        Dialect::Posix => posix::pieces(s),
        Dialect::Mswin => mswin::pieces(s),
    }
}

/// The text that the source text `s`, read in `dialect`, becomes under the
/// lookup `r`.
pub open spec fn expansion(dialect: Dialect, s: Seq<char>, r: Lookup) -> Seq<char> {
    rendering(dialect, pieces(dialect, s), r)
}

/// A text that holds none of `$`, `%` and the backslash comes out as it went
/// in, in both dialects and whatever the lookup.
pub proof fn lemma_plain_text_unchanged(dialect: Dialect, s: Seq<char>, r: Lookup)
    requires
        !s.contains('$'),
        !s.contains('%'),
        !s.contains('\\'),
    ensures
        expansion(dialect, s, r) == s,
{
    match dialect {
        Dialect::Posix => posix::lemma_plain_text_unchanged(s, r),
        Dialect::Mswin => mswin::lemma_plain_text_unchanged(s, r),
    }
}

/// Replaces the placeholders of `src`, read in `dialect`, by what `mapfn`
/// returns for their names: [`posix::substitute`] or [`mswin::substitute`].
pub fn substitute<F>(dialect: Dialect, src: &str, mapfn: F) -> (dst: String) where
    F: Fn(&str) -> Option<String>,

    requires
        forall|name: &str|
            pieces(dialect, src@).contains(Piece::Variable(name@)) ==> call_requires(
                mapfn,
                (name,),
            ),
    ensures
        exists|outs: Seq<Seq<char>>|
            renders(mapfn, dialect, pieces(dialect, src@), outs) && dst@ == outs.flatten(),
        forall|r: Lookup| answers_as(mapfn, r) ==> dst@ == expansion(dialect, src@, r),
        !src@.contains('$') && !src@.contains('%') && !src@.contains('\\') ==> dst@ == src@,
{
    match dialect {
        Dialect::Posix => posix::substitute(src, mapfn),
        Dialect::Mswin => mswin::substitute(src, mapfn),
    }
}

} // verus!
