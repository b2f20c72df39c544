//! Substitution in the style of the MS-Windows command prompt: `%name%`.

use crate::template::{
    answers_as, lemma_literals_first, lemma_renders_literals, lemma_renders_pure,
    lemma_rendering_concat, lemma_rendering_literals, lemma_rendering_one, literals, rendering,
    renders, Dialect, Lookup, Piece,
};
use crate::text::{
    lemma_offset_of, lemma_offset_of_absent, lemma_offset_of_first, offset_of, push_char,
};
use crate::writer::Writer;
use vstd::prelude::*;

verus! {

/// The pieces of a source text, read from left to right.
///
/// Every `%` is a boundary. A first one opens a span and the next one closes
/// it, and the text between the two is a placeholder's name, whatever it
/// holds. What stands outside the spans is literal, character by character. A
/// `%` that no other follows closes nothing: it is a literal, and so is all
/// that stands behind it.
pub open spec fn pieces(s: Seq<char>) -> Seq<Piece>
    decreases s.len(),
{
    if s.len() == 0 {
        Seq::empty()
    } else if s[0] != '%' {
        seq![Piece::Literal(seq![s[0]])] + pieces(s.skip(1))
    } else {
        let t = s.skip(1);
        let k = offset_of(t, '%') as int;
        if k < t.len() {
            seq![Piece::Variable(t.take(k))] + pieces(t.skip(k + 1))
        } else {
            seq![Piece::Literal(seq!['%']), Piece::Literal(t)]
        }
    }
}

/// The text that the source text `s` becomes under the lookup `r`.
pub open spec fn expansion(s: Seq<char>, r: Lookup) -> Seq<char> {
    rendering(Dialect::Mswin, pieces(s), r)
}

/// A text that holds no `%` has no placeholder: its pieces are its characters.
pub proof fn lemma_pieces_plain(s: Seq<char>)
    requires
        !s.contains('%'),
    ensures
        pieces(s) == literals(s),
    decreases s.len(),
{
    if s.len() == 0 {
        assert(pieces(s) =~= literals(s));
    } else {
        let tail = s.skip(1);
        assert(s.contains(s[0]));
        assert forall|c: char| tail.contains(c) implies s.contains(c) by {
            let i = choose|i: int| 0 <= i < tail.len() && tail[i] == c;
            assert(s[i + 1] == c);
        }
        lemma_pieces_plain(tail);
        lemma_literals_first(s);
    }
}

/// Between a `%` and the next one stands a placeholder's name, whatever it
/// holds, and reading goes on behind the second `%`.
pub proof fn lemma_pieces_span(name: Seq<char>, rest: Seq<char>)
    requires
        !name.contains('%'),
    ensures
        pieces(seq!['%'] + name + seq!['%'] + rest) == seq![Piece::Variable(name)] + pieces(rest),
{
    let s = seq!['%'] + name + seq!['%'] + rest;
    let t = s.skip(1);
    let k = name.len() as int;
    assert(s[0] == '%');
    assert(t =~= name + seq!['%'] + rest);
    assert(t[k] == '%');
    assert forall|i: int| 0 <= i < k implies t[i] != '%' by {
        assert(t[i] == name[i]);
        assert(name.contains(name[i]));
    }
    lemma_offset_of_first(t, '%', k);
    assert(t.take(k) =~= name);
    assert(t.skip(k + 1) =~= rest);
}

/// A `%` that no other follows is a literal, and so is all that stands behind
/// it.
pub proof fn lemma_pieces_open_span(tail: Seq<char>)
    requires
        !tail.contains('%'),
    ensures
        pieces(seq!['%'] + tail) == seq![Piece::Literal(seq!['%']), Piece::Literal(tail)],
{
    let s = seq!['%'] + tail;
    assert(s[0] == '%');
    assert(s.skip(1) =~= tail);
    lemma_offset_of_absent(tail, '%');
}

/// A text without placeholders comes out as it went in, whatever the lookup.
pub proof fn lemma_plain_text_unchanged(s: Seq<char>, r: Lookup)
    requires
        !s.contains('%'),
    ensures
        expansion(s, r) == s,
{
    lemma_pieces_plain(s);
    lemma_rendering_literals(Dialect::Mswin, s, r);
}

/// `%name%` comes out as the value of `name`, and as it went in where `name`
/// has no value.
pub proof fn lemma_single_placeholder(name: Seq<char>, r: Lookup)
    requires
        !name.contains('%'),
    ensures
        expansion(seq!['%'] + name + seq!['%'], r) == match r(name) {
            Some(value) => value,
            None => seq!['%'] + name + seq!['%'],
        },
{
    let none = Seq::<char>::empty();
    lemma_pieces_span(name, none);
    assert(seq!['%'] + name + seq!['%'] + none =~= seq!['%'] + name + seq!['%']);
    assert(pieces(none) =~= Seq::<Piece>::empty());
    assert(seq![Piece::Variable(name)] + pieces(none) =~= seq![Piece::Variable(name)]);
    lemma_rendering_one(Dialect::Mswin, Piece::Variable(name), r);
}

/// Text without `%` is literal wherever it stands before a `%`: the pieces of
/// what follows come behind its characters.
pub proof fn lemma_pieces_after_plain(head: Seq<char>, rest: Seq<char>)
    requires
        !head.contains('%'),
    ensures
        pieces(head + rest) == literals(head) + pieces(rest),
    decreases head.len(),
{
    let s = head + rest;
    if head.len() == 0 {
        assert(s =~= rest);
        assert(literals(head) + pieces(rest) =~= pieces(rest));
    } else {
        let shorter = head.skip(1);
        assert(head.contains(head[0]));
        assert(s[0] == head[0]);
        assert forall|c: char| shorter.contains(c) implies head.contains(c) by {
            let i = choose|i: int| 0 <= i < shorter.len() && shorter[i] == c;
            assert(head[i + 1] == c);
        }
        lemma_pieces_after_plain(shorter, rest);
        assert(s.skip(1) =~= shorter + rest);
        lemma_literals_first(head);
        assert(literals(head) + pieces(rest) =~= seq![Piece::Literal(seq![head[0]])] + (literals(
            shorter,
        ) + pieces(rest)));
    }
}

/// A text with a single `%` comes out as it went in, whatever the lookup: the
/// span that the `%` opens is never closed, and nothing is looked up.
pub proof fn lemma_open_span_unchanged(head: Seq<char>, tail: Seq<char>, r: Lookup)
    requires
        !head.contains('%'),
        !tail.contains('%'),
    ensures
        expansion(head + seq!['%'] + tail, r) == head + seq!['%'] + tail,
{
    let percent = Piece::Literal(seq!['%']);
    let behind = Piece::Literal(tail);
    lemma_pieces_after_plain(head, seq!['%'] + tail);
    lemma_pieces_open_span(tail);
    assert(seq![percent, behind] =~= seq![percent] + seq![behind]);
    lemma_rendering_concat(Dialect::Mswin, literals(head), seq![percent, behind], r);
    lemma_rendering_concat(Dialect::Mswin, seq![percent], seq![behind], r);
    lemma_rendering_literals(Dialect::Mswin, head, r);
    lemma_rendering_one(Dialect::Mswin, percent, r);
    lemma_rendering_one(Dialect::Mswin, behind, r);
    assert(head + seq!['%'] + tail =~= head + (seq!['%'] + tail));
}

/// The pieces that are still to come when the scanner has `rest` before it
/// and, where `active`, stands in a span of which it has read `name`.
spec fn ahead(active: bool, name: Seq<char>, rest: Seq<char>) -> Seq<Piece> {
    if active {
        let k = offset_of(rest, '%') as int;
        if k < rest.len() {
            seq![Piece::Variable(name + rest.take(k))] + pieces(rest.skip(k + 1))
        } else {
            seq![Piece::Literal(seq!['%']), Piece::Literal(name + rest)]
        }
    } else {
        pieces(rest)
    }
}

/// One character outside a span.
proof fn lemma_step_outside(rest: Seq<char>)
    requires
        rest.len() > 0,
    ensures
        rest[0] == '%' ==> pieces(rest) == ahead(true, Seq::empty(), rest.skip(1)),
        rest[0] != '%' ==> pieces(rest) == seq![Piece::Literal(seq![rest[0]])] + pieces(
            rest.skip(1),
        ),
{
    let t = rest.skip(1);
    if rest[0] == '%' {
        let k = offset_of(t, '%') as int;
        lemma_offset_of(t, '%');
        if k < t.len() {
            assert(t.take(k) =~= Seq::<char>::empty() + t.take(k));
        } else {
            assert(t =~= Seq::<char>::empty() + t);
        }
    }
}

/// One character in a span.
proof fn lemma_step_inside(name: Seq<char>, rest: Seq<char>)
    requires
        rest.len() > 0,
    ensures
        rest[0] == '%' ==> ahead(true, name, rest) == seq![Piece::Variable(name)] + pieces(
            rest.skip(1),
        ),
        rest[0] != '%' ==> ahead(true, name, rest) == ahead(
            true,
            name.push(rest[0]),
            rest.skip(1),
        ),
{
    let t = rest.skip(1);
    if rest[0] == '%' {
        assert(name + rest.take(0) =~= name);
    } else {
        let k = offset_of(t, '%') as int;
        lemma_offset_of(t, '%');
        if k < t.len() {
            assert(name + rest.take(k + 1) =~= name.push(rest[0]) + t.take(k));
            assert(rest.skip(k + 2) =~= t.skip(k + 1));
        } else {
            assert(name + rest =~= name.push(rest[0]) + t);
        }
    }
}

/// Replaces the placeholders of `src` by what `mapfn` returns for their names.
///
/// The source is read once, from left to right, as [`pieces`] describes it, and
/// `mapfn` is called once for each placeholder, in their order. A value that it
/// returns stands in the output in place of the placeholder and its two `%`;
/// where it returns `None` the placeholder stays as it was written. No value
/// is read again for placeholders.
///
/// `mapfn` has to accept the names that stand in `src`, and no others. The
/// first clause holds for every resolver. The second says what it comes to for
/// a resolver that is a pure query, and the third for a source in which the
/// resolver has no say.
pub fn substitute<F>(src: &str, mapfn: F) -> (dst: String) where F: Fn(&str) -> Option<String>
    requires
        forall|name: &str|
            pieces(src@).contains(Piece::Variable(name@)) ==> call_requires(mapfn, (name,)),
    ensures
        exists|outs: Seq<Seq<char>>|
            renders(mapfn, Dialect::Mswin, pieces(src@), outs) && dst@ == outs.flatten(),
        forall|r: Lookup| answers_as(mapfn, r) ==> dst@ == expansion(src@, r),
        !src@.contains('%') ==> dst@ == src@,
{
    let mut out = Writer::new(Dialect::Mswin, &mapfn);
    let mut element = String::new();
    let mut active = false;
    proof {
        assert(src@.skip(0) =~= src@);
        assert(pieces(src@) =~= out.pieces@ + pieces(src@));
    }
    for ch in it: src.chars()
        invariant
            it.seq() == src@,
            forall|name: &str|
                pieces(src@).contains(Piece::Variable(name@)) ==> call_requires(mapfn, (name,)),
            out.wf(),
            out.mapfn == &mapfn,
            out.dialect == Dialect::Mswin,
            pieces(src@) == out.pieces@ + ahead(active, element@, src@.skip(it.index() as int)),
            !active ==> element@.len() == 0,
    {
        let ghost rest = src@.skip(it.index() as int);
        let ghost tail = src@.skip(it.index() + 1);
        let ghost done = out.pieces@;
        proof {
            assert(rest[0] == ch);
            assert(rest.skip(1) =~= tail);
            assert(element@.len() == 0 ==> element@ =~= Seq::empty());
            lemma_step_outside(rest);
            lemma_step_inside(element@, rest);
            // The name that ends here, if one does, is a piece of the source.
            let at = done.len() as int;
            assert(pieces(src@)[at] == (done + ahead(active, element@, rest))[at]);
        }
        if active {
            if ch == '%' {
                out.variable(element.as_str());
                element = String::new();
                active = false;
            } else {
                push_char(&mut element, ch);
            }
        } else if ch == '%' {
            active = true;
        } else {
            out.literal(ch);
        }
        proof {
            assert(pieces(src@) =~= out.pieces@ + ahead(active, element@, tail));
        }
    }
    proof {
        let end = src@.skip(src@.len() as int);
        assert(end.len() == 0);
        assert(element@ + end =~= element@);
    }
    if active {
        out.literal('%');
        out.literal_text(element.as_str());
    }
    proof {
        assert(pieces(src@) =~= out.pieces@);
        assert forall|r: Lookup| answers_as(mapfn, r) implies out.text@ == expansion(src@, r) by {
            lemma_renders_pure(mapfn, Dialect::Mswin, pieces(src@), out.texts@, r);
        }
        if !src@.contains('%') {
            lemma_pieces_plain(src@);
            lemma_renders_literals(mapfn, Dialect::Mswin, src@, out.texts@);
        }
    }
    out.text
}

} // verus!
