//! The model that both dialects share: a source text read as a sequence of
//! pieces, and the text that a resolver makes of those pieces.

use vstd::prelude::*;
use vstd::seq_lib::lemma_flatten_concat;

verus! {

/// One element of a source text, as a scanner reads it.
pub enum Piece {
    /// Text that goes to the output as it is.
    Literal(Seq<char>),
    /// A placeholder with the given name, which the resolver is asked for once.
    Variable(Seq<char>),
}

/// The placeholder syntax that a source text is written in.
#[derive(Clone, Copy, Debug, PartialEq, Eq, Structural)]
pub enum Dialect {
    /// `$name` and `${name}`, with backslash escapes.
    Posix,
    /// `%name%`.
    Mswin,
}

/// A resolver as a mathematical function: from a name to its value, if it has one.
pub type Lookup = spec_fn(Seq<char>) -> Option<Seq<char>>;

/// A resolver's answer, as plain text.
pub open spec fn answer_view(answer: Option<String>) -> Option<Seq<char>> {
    match answer {
        Some(value) => Some(value@),
        None => None,
    }
}

/// The executable resolver `mapfn` is a pure query that `r` describes: whatever
/// it returns for a name is what `r` gives for that name.
pub open spec fn answers_as<F: Fn(&str) -> Option<String>>(mapfn: F, r: Lookup) -> bool {
    forall|name: &str, answer: Option<String>| #[trigger]
        call_ensures(mapfn, (name,), answer) ==> answer_view(answer) == r(name@)
}

impl Dialect {
    /// What a placeholder named `name` becomes, given the resolver's answer for
    /// it. A value replaces the placeholder in both dialects. Without a value the
    /// POSIX placeholder vanishes, and the MSWIN placeholder stays as it was
    /// written, between its two `%`.
    pub open spec fn shown(self, name: Seq<char>, answer: Option<Seq<char>>) -> Seq<char> {
        match answer {
            Some(value) => value,
            None => match self {
                Dialect::Posix => Seq::empty(),
                Dialect::Mswin => seq!['%'] + name + seq!['%'],
            },
        }
    }
}

/// The text that one piece becomes under the lookup `r`.
pub open spec fn piece_text(dialect: Dialect, piece: Piece, r: Lookup) -> Seq<char> {
    match piece {
        Piece::Literal(text) => text,
        Piece::Variable(name) => dialect.shown(name, r(name)),
    }
}

/// The text that a sequence of pieces becomes under the lookup `r`: the texts
/// of the pieces, one after the other.
pub open spec fn rendering(dialect: Dialect, pieces: Seq<Piece>, r: Lookup) -> Seq<char> {
    pieces.map_values(|piece: Piece| piece_text(dialect, piece, r)).flatten()
}

/// `out` is a text that the executable resolver `mapfn` can make of `piece`: the
/// text itself for a literal, and for a placeholder what the dialect shows
/// for some answer that a call of `mapfn` on the placeholder's name can return.
pub open spec fn written_as<F: Fn(&str) -> Option<String>>(
    mapfn: F,
    dialect: Dialect,
    piece: Piece,
    out: Seq<char>,
) -> bool {
    match piece {
        Piece::Literal(text) => out == text,
        Piece::Variable(name) => exists|asked: &str, answer: Option<String>|
            asked@ == name && #[trigger] call_ensures(mapfn, (asked,), answer) && out
                == dialect.shown(name, answer_view(answer)),
    }
}

/// `outs` holds one text for each of `pieces`, in order, each of them a text
/// that `mapfn` can make of its piece.
pub open spec fn renders<F: Fn(&str) -> Option<String>>(
    mapfn: F,
    dialect: Dialect,
    pieces: Seq<Piece>,
    outs: Seq<Seq<char>>,
) -> bool {
    &&& outs.len() == pieces.len()
    &&& forall|i: int|
        0 <= i < pieces.len() ==> written_as(mapfn, dialect, #[trigger] pieces[i], outs[i])
}

/// The pieces of a text that holds no placeholder: each character, as a literal.
pub open spec fn literals(s: Seq<char>) -> Seq<Piece> {
    s.map_values(|c: char| Piece::Literal(seq![c]))
}

/// Rendering goes piece by piece: the rendering of two sequences of pieces, one
/// after the other, is the two renderings, one after the other.
pub proof fn lemma_rendering_concat(dialect: Dialect, a: Seq<Piece>, b: Seq<Piece>, r: Lookup)
    ensures
        rendering(dialect, a + b, r) == rendering(dialect, a, r) + rendering(dialect, b, r),
{
    let f = |piece: Piece| piece_text(dialect, piece, r);
    assert((a + b).map_values(f) =~= a.map_values(f) + b.map_values(f));
    lemma_flatten_concat(a.map_values(f), b.map_values(f));
}

/// A single piece renders as its own text.
pub proof fn lemma_rendering_one(dialect: Dialect, piece: Piece, r: Lookup)
    ensures
        rendering(dialect, seq![piece], r) == piece_text(dialect, piece, r),
{
    let f = |piece: Piece| piece_text(dialect, piece, r);
    let texts = seq![piece].map_values(f);
    assert(texts =~= seq![piece_text(dialect, piece, r)]);
    texts.lemma_flatten_one_element();
}

/// The pieces of a text without placeholders start with its first character.
pub proof fn lemma_literals_first(s: Seq<char>)
    requires
        s.len() > 0,
    ensures
        literals(s) == seq![Piece::Literal(seq![s[0]])] + literals(s.skip(1)),
{
    let tail = s.skip(1);
    assert(forall|i: int| 0 <= i < tail.len() ==> literals(tail)[i] == literals(s)[i + 1]);
    assert(literals(s) =~= seq![Piece::Literal(seq![s[0]])] + literals(tail));
}

/// Literal pieces render as the characters they stand for, under every lookup.
pub proof fn lemma_rendering_literals(dialect: Dialect, s: Seq<char>, r: Lookup)
    ensures
        rendering(dialect, literals(s), r) == s,
    decreases s.len(),
{
    let f = |piece: Piece| piece_text(dialect, piece, r);
    if s.len() == 0 {
        assert(literals(s).map_values(f) =~= Seq::<Seq<char>>::empty());
        assert(rendering(dialect, literals(s), r) =~= s);
    } else {
        let tail = s.skip(1);
        lemma_literals_first(s);
        lemma_rendering_concat(dialect, seq![Piece::Literal(seq![s[0]])], literals(tail), r);
        lemma_rendering_one(dialect, Piece::Literal(seq![s[0]]), r);
        lemma_rendering_literals(dialect, tail, r);
        assert(seq![s[0]] + tail =~= s);
    }
}

/// Whatever a resolver makes of literal pieces is the characters they stand
/// for: no call of the resolver has a part in it.
pub proof fn lemma_renders_literals<F: Fn(&str) -> Option<String>>(
    mapfn: F,
    dialect: Dialect,
    s: Seq<char>,
    outs: Seq<Seq<char>>,
)
    requires
        renders(mapfn, dialect, literals(s), outs),
    ensures
        outs.flatten() == s,
    decreases s.len(),
{
    if s.len() == 0 {
        assert(outs.flatten() =~= s);
    } else {
        let tail = s.skip(1);
        let rest = outs.drop_first();
        assert(literals(s)[0] == Piece::Literal(seq![s[0]]));
        assert(written_as(mapfn, dialect, literals(s)[0], outs[0]));
        assert forall|i: int| 0 <= i < literals(tail).len() implies written_as(
            mapfn,
            dialect,
            #[trigger] literals(tail)[i],
            rest[i],
        ) by {
            assert(literals(tail)[i] == literals(s)[i + 1]);
            assert(written_as(mapfn, dialect, literals(s)[i + 1], outs[i + 1]));
        }
        lemma_renders_literals(mapfn, dialect, tail, rest);
        assert(seq![s[0]] + tail =~= s);
    }
}

/// Under a pure resolver there is one text only that it can make of given
/// pieces: their rendering under the lookup that describes it.
pub proof fn lemma_renders_pure<F: Fn(&str) -> Option<String>>(
    mapfn: F,
    dialect: Dialect,
    pieces: Seq<Piece>,
    outs: Seq<Seq<char>>,
    r: Lookup,
)
    requires
        renders(mapfn, dialect, pieces, outs),
        answers_as(mapfn, r),
    ensures
        outs.flatten() == rendering(dialect, pieces, r),
{
    let f = |piece: Piece| piece_text(dialect, piece, r);
    assert forall|i: int| 0 <= i < pieces.len() implies outs[i] == f(pieces[i]) by {
        assert(written_as(mapfn, dialect, pieces[i], outs[i]));
    }
    assert(outs =~= pieces.map_values(f));
}

/// One more piece and a text that `mapfn` can make of it: the texts still go
/// with the pieces, and the new text comes last in the whole.
pub proof fn lemma_renders_push<F: Fn(&str) -> Option<String>>(
    mapfn: F,
    dialect: Dialect,
    pieces: Seq<Piece>,
    outs: Seq<Seq<char>>,
    piece: Piece,
    out: Seq<char>,
)
    requires
        renders(mapfn, dialect, pieces, outs),
        written_as(mapfn, dialect, piece, out),
    ensures
        renders(mapfn, dialect, pieces.push(piece), outs.push(out)),
        outs.push(out).flatten() == outs.flatten() + out,
{
    outs.lemma_flatten_push(out);
    assert forall|i: int| 0 <= i < pieces.push(piece).len() implies written_as(
        mapfn,
        dialect,
        #[trigger] pieces.push(piece)[i],
        outs.push(out)[i],
    ) by {
        if i < pieces.len() {
            assert(written_as(mapfn, dialect, pieces[i], outs[i]));
        }
    }
}

} // verus!
