//! Substitution in the POSIX style: `$name` and `${name}`, with a backslash
//! to take the next character literally.

use crate::template::{
    answers_as, lemma_literals_first, lemma_renders_literals, lemma_renders_pure,
    lemma_rendering_concat, lemma_rendering_literals, lemma_rendering_one, literals, rendering,
    renders, Dialect, Lookup, Piece,
};
use crate::text::{lemma_offset_of, lemma_offset_of_first, offset_of, push_char};
use crate::writer::Writer;
use vstd::prelude::*;

verus! {

/// A character that can open a bare name: an ASCII letter or the underscore.
pub open spec fn is_name_start(c: char) -> bool {
    ('A' <= c && c <= 'Z') || ('a' <= c && c <= 'z') || c == '_'
}

/// A character that can go on a bare name: one that can open it, or an ASCII
/// digit.
pub open spec fn is_name_char(c: char) -> bool {
    is_name_start(c) || ('0' <= c && c <= '9')
}

/// How many characters at the start of `s` can go on a bare name.
pub open spec fn name_run(s: Seq<char>) -> nat
    decreases s.len(),
{
    if s.len() > 0 && is_name_char(s[0]) {
        1 + name_run(s.skip(1))
    } else {
        0
    }
}

/// The length of the bare name that `s` starts with: 0 where its first
/// character cannot open one.
pub open spec fn bare_name_len(s: Seq<char>) -> nat {
    if s.len() > 0 && is_name_start(s[0]) {
        name_run(s)
    } else {
        0
    }
}

/// `name` can be written in the bare form: it is not empty, its first
/// character can open a name and the others can go on one.
pub open spec fn is_bare_name(name: Seq<char>) -> bool {
    &&& name.len() > 0
    &&& is_name_start(name[0])
    &&& forall|i: int| 0 <= i < name.len() ==> is_name_char(#[trigger] name[i])
}

/// The placeholder at the start of `t`, the text that follows a `$`: its name,
/// and how many characters of `t` it takes.
///
/// After `{` the name is all that stands before the next `}`, whatever it
/// holds, and the placeholder takes both braces with it. Otherwise the name is
/// the bare name that `t` starts with, which is empty where the first
/// character cannot open one. There is no placeholder (`None`) where `t` is
/// empty, or opens a brace that is never closed.
pub open spec fn placeholder(t: Seq<char>) -> Option<(Seq<char>, int)> {
    if t.len() == 0 {
        None
    } else if t[0] == '{' {
        let k = offset_of(t.skip(1), '}') as int;
        if k < t.len() - 1 {
            Some((t.subrange(1, 1 + k), k + 2))
        } else {
            None
        }
    } else {
        let n = bare_name_len(t) as int;
        Some((t.take(n), n))
    }
}

/// The pieces of a source text, read from left to right.
///
/// * A backslash makes the character after it a literal; a backslash that ends
///   the text is dropped.
/// * A `$` opens a placeholder, as [`placeholder`] reads it. Reading goes on
///   behind the placeholder, so that the character which ended a bare name is
///   read again as ordinary text. A `$` with no placeholder behind it ends the
///   pieces: what follows it, if anything, is an unclosed brace and is dropped.
/// * Any other character is a literal.
pub open spec fn pieces(s: Seq<char>) -> Seq<Piece>
    decreases s.len(),
    via pieces_decreases
{
    if s.len() == 0 {
        Seq::empty()
    } else if s[0] == '\\' {
        if s.len() == 1 {
            Seq::empty()
        } else {
            seq![Piece::Literal(seq![s[1]])] + pieces(s.skip(2))
        }
    } else if s[0] == '$' {
        match placeholder(s.skip(1)) {
            Some((name, n)) => seq![Piece::Variable(name)] + pieces(s.skip(1 + n)),
            None => Seq::empty(),
        }
    } else {
        seq![Piece::Literal(seq![s[0]])] + pieces(s.skip(1))
    }
}

#[via_fn]
proof fn pieces_decreases(s: Seq<char>) {
    if s.len() > 0 && s[0] == '$' {
        lemma_placeholder_fits(s.skip(1));
    }
}

/// The text that the source text `s` becomes under the lookup `r`.
pub open spec fn expansion(s: Seq<char>, r: Lookup) -> Seq<char> {
    rendering(Dialect::Posix, pieces(s), r)
}

/// No more characters can go on a name than there are.
pub proof fn lemma_name_run(s: Seq<char>)
    ensures
        name_run(s) <= s.len(),
        forall|i: int| 0 <= i < name_run(s) ==> is_name_char(#[trigger] s[i]),
        name_run(s) < s.len() ==> !is_name_char(s[name_run(s) as int]),
    decreases s.len(),
{
    if s.len() > 0 && is_name_char(s[0]) {
        let t = s.skip(1);
        lemma_name_run(t);
        assert forall|i: int| 0 <= i < name_run(s) implies is_name_char(#[trigger] s[i]) by {
            if i > 0 {
                assert(s[i] == t[i - 1]);
            }
        }
    }
}

/// A placeholder takes no more characters than there are.
pub proof fn lemma_placeholder_fits(t: Seq<char>)
    ensures
        match placeholder(t) {
            Some((name, n)) => 0 <= n <= t.len(),
            None => true,
        },
{
    lemma_name_run(t);
}

/// A run of name characters ends where `rest` begins, if `rest` does not go on
/// with one.
proof fn lemma_name_run_before(name: Seq<char>, rest: Seq<char>)
    requires
        forall|i: int| 0 <= i < name.len() ==> is_name_char(#[trigger] name[i]),
        rest.len() == 0 || !is_name_char(rest[0]),
    ensures
        name_run(name + rest) == name.len(),
    decreases name.len(),
{
    let s = name + rest;
    if name.len() == 0 {
        assert(s =~= rest);
    } else {
        assert(s[0] == name[0]);
        let shorter = name.skip(1);
        assert forall|i: int| 0 <= i < shorter.len() implies is_name_char(
            #[trigger] shorter[i],
        ) by {
            assert(shorter[i] == name[i + 1]);
        }
        lemma_name_run_before(shorter, rest);
        assert(s.skip(1) =~= shorter + rest);
    }
}

/// A text that holds neither `$` nor a backslash has no placeholder: its pieces
/// are its characters.
pub proof fn lemma_pieces_plain(s: Seq<char>)
    requires
        !s.contains('$'),
        !s.contains('\\'),
    ensures
        pieces(s) == literals(s),
    decreases s.len(),
{
    if s.len() == 0 {
        assert(pieces(s) =~= literals(s));
    } else {
        let tail = s.skip(1);
        assert(s.contains(s[0]));
        assert forall|c: char| tail.contains(c) implies s.contains(c) by {
            let i = choose|i: int| 0 <= i < tail.len() && tail[i] == c;
            assert(s[i + 1] == c);
        }
        lemma_pieces_plain(tail);
        lemma_literals_first(s);
    }
}

/// A backslash makes a literal of the character behind it, whichever it is,
/// and reading goes on behind that character.
pub proof fn lemma_pieces_escaped(c: char, rest: Seq<char>)
    ensures
        pieces(seq!['\\', c] + rest) == seq![Piece::Literal(seq![c])] + pieces(rest),
{
    let s = seq!['\\', c] + rest;
    assert(s[0] == '\\' && s[1] == c);
    assert(s.skip(2) =~= rest);
}

/// A bare name behind a `$` is a placeholder of that name, and reading goes on
/// behind it, provided that what follows does not go on with the name.
pub proof fn lemma_pieces_bare(name: Seq<char>, rest: Seq<char>)
    requires
        is_bare_name(name),
        rest.len() == 0 || !is_name_char(rest[0]),
    ensures
        pieces(seq!['$'] + name + rest) == seq![Piece::Variable(name)] + pieces(rest),
{
    let s = seq!['$'] + name + rest;
    let t = s.skip(1);
    assert(s[0] == '$');
    assert(t =~= name + rest);
    assert(t[0] == name[0]);
    lemma_name_run_before(name, rest);
    assert(t.take(name.len() as int) =~= name);
    assert(s.skip(1 + name.len() as int) =~= rest);
}

/// Between `${` and the next `}` stands a placeholder's name, whatever it
/// holds, and reading goes on behind the closing brace.
pub proof fn lemma_pieces_braced(name: Seq<char>, rest: Seq<char>)
    requires
        !name.contains('}'),
    ensures
        pieces(seq!['$', '{'] + name + seq!['}'] + rest) == seq![Piece::Variable(name)] + pieces(
            rest,
        ),
{
    let s = seq!['$', '{'] + name + seq!['}'] + rest;
    let t = s.skip(1);
    let body = t.skip(1);
    let k = name.len() as int;
    assert(s[0] == '$' && t[0] == '{');
    assert(body =~= name + seq!['}'] + rest);
    assert(body[k] == '}');
    assert forall|i: int| 0 <= i < k implies body[i] != '}' by {
        assert(body[i] == name[i]);
        assert(name.contains(name[i]));
    }
    lemma_offset_of_first(body, '}', k);
    assert(t.subrange(1, 1 + k) =~= name);
    assert(s.skip(1 + (k + 2)) =~= rest);
}

/// A text without placeholders and escapes comes out as it went in, whatever
/// the lookup.
pub proof fn lemma_plain_text_unchanged(s: Seq<char>, r: Lookup)
    requires
        !s.contains('$'),
        !s.contains('\\'),
    ensures
        expansion(s, r) == s,
{
    lemma_pieces_plain(s);
    lemma_rendering_literals(Dialect::Posix, s, r);
}

/// `$name` comes out as the value of `name`, and as nothing where `name` has no
/// value.
pub proof fn lemma_bare_placeholder(name: Seq<char>, r: Lookup)
    requires
        is_bare_name(name),
    ensures
        expansion(seq!['$'] + name, r) == match r(name) {
            Some(value) => value,
            None => Seq::empty(),
        },
{
    let none = Seq::<char>::empty();
    lemma_pieces_bare(name, none);
    assert(seq!['$'] + name + none =~= seq!['$'] + name);
    assert(pieces(none) =~= Seq::<Piece>::empty());
    assert(seq![Piece::Variable(name)] + pieces(none) =~= seq![Piece::Variable(name)]);
    lemma_rendering_one(Dialect::Posix, Piece::Variable(name), r);
}

/// `${name}` comes out as the value of `name`, whatever characters the name
/// holds but `}`, and as nothing where `name` has no value.
pub proof fn lemma_braced_placeholder(name: Seq<char>, r: Lookup)
    requires
        !name.contains('}'),
    ensures
        expansion(seq!['$', '{'] + name + seq!['}'], r) == match r(name) {
            Some(value) => value,
            None => Seq::empty(),
        },
{
    let none = Seq::<char>::empty();
    lemma_pieces_braced(name, none);
    assert(seq!['$', '{'] + name + seq!['}'] + none =~= seq!['$', '{'] + name + seq!['}']);
    assert(pieces(none) =~= Seq::<Piece>::empty());
    assert(seq![Piece::Variable(name)] + pieces(none) =~= seq![Piece::Variable(name)]);
    lemma_rendering_one(Dialect::Posix, Piece::Variable(name), r);
}

/// A name that can be written bare means the same between braces: `${name}`
/// and `$name` come out alike.
pub proof fn lemma_braced_as_bare(name: Seq<char>, r: Lookup)
    requires
        is_bare_name(name),
    ensures
        expansion(seq!['$', '{'] + name + seq!['}'], r) == expansion(seq!['$'] + name, r),
{
    assert(!name.contains('}')) by {
        if name.contains('}') {
            let i = choose|i: int| 0 <= i < name.len() && name[i] == '}';
            assert(is_name_char(name[i]));
        }
    }
    lemma_braced_placeholder(name, r);
    lemma_bare_placeholder(name, r);
}

/// Behind a backslash a `$` opens nothing: `\$` and the text `tail` behind it
/// come out as `$` and `tail`, whatever the lookup, where `tail` holds no
/// placeholder or escape of its own.
pub proof fn lemma_escaped_sigil(tail: Seq<char>, r: Lookup)
    requires
        !tail.contains('$'),
        !tail.contains('\\'),
    ensures
        expansion(seq!['\\', '$'] + tail, r) == seq!['$'] + tail,
{
    let dollar = Piece::Literal(seq!['$']);
    lemma_pieces_escaped('$', tail);
    lemma_rendering_concat(Dialect::Posix, seq![dollar], pieces(tail), r);
    lemma_rendering_one(Dialect::Posix, dollar, r);
    lemma_plain_text_unchanged(tail, r);
}

/// A backslash behind a backslash is a backslash and no escape: `\\$name` comes
/// out as `\` and the value of `name`.
pub proof fn lemma_escaped_backslash(name: Seq<char>, r: Lookup)
    requires
        is_bare_name(name),
    ensures
        expansion(seq!['\\', '\\', '$'] + name, r) == seq!['\\'] + match r(name) {
            Some(value) => value,
            None => Seq::empty(),
        },
{
    let backslash = Piece::Literal(seq!['\\']);
    let placeholder = seq!['$'] + name;
    lemma_pieces_escaped('\\', placeholder);
    assert(seq!['\\', '\\'] + placeholder =~= seq!['\\', '\\', '$'] + name);
    lemma_rendering_concat(Dialect::Posix, seq![backslash], pieces(placeholder), r);
    lemma_rendering_one(Dialect::Posix, backslash, r);
    lemma_bare_placeholder(name, r);
}

/// Where the scanner stands between two characters.
#[derive(Clone, Copy)]
enum Mode {
    /// In ordinary text.
    Plain,
    /// Behind a backslash.
    Escaped,
    /// Behind a `$`.
    Sigil,
    /// In a bare name, of which one character at least was read.
    Bare,
    /// Behind `${`, before the closing brace.
    Braced,
}

/// What follows a `$`, as pieces, where `t` is the text behind it.
spec fn after_sigil(t: Seq<char>) -> Seq<Piece> {
    match placeholder(t) {
        Some((name, n)) => seq![Piece::Variable(name)] + pieces(t.skip(n)),
        None => Seq::empty(),
    }
}

/// The pieces that are still to come when the scanner stands in `mode`, has
/// read `name` of a placeholder's name, and has `rest` before it.
spec fn ahead(mode: Mode, name: Seq<char>, rest: Seq<char>) -> Seq<Piece> {
    match mode {
        Mode::Plain => pieces(rest),
        Mode::Escaped => if rest.len() == 0 {
            Seq::empty()
        } else {
            seq![Piece::Literal(seq![rest[0]])] + pieces(rest.skip(1))
        },
        Mode::Sigil => after_sigil(rest),
        Mode::Bare => {
            let n = name_run(rest) as int;
            seq![Piece::Variable(name + rest.take(n))] + pieces(rest.skip(n))
        },
        Mode::Braced => {
            let k = offset_of(rest, '}') as int;
            if k < rest.len() {
                seq![Piece::Variable(name + rest.take(k))] + pieces(rest.skip(k + 1))
            } else {
                Seq::empty()
            }
        },
    }
}

/// One character of ordinary text: what it adds to the pieces, and the text
/// behind it.
proof fn lemma_step_plain(rest: Seq<char>)
    requires
        rest.len() > 0,
    ensures
        rest[0] == '\\' ==> pieces(rest) == ahead(Mode::Escaped, Seq::empty(), rest.skip(1)),
        rest[0] == '$' ==> pieces(rest) == ahead(Mode::Sigil, Seq::empty(), rest.skip(1)),
        rest[0] != '\\' && rest[0] != '$' ==> pieces(rest) == seq![Piece::Literal(seq![rest[0]])]
            + pieces(rest.skip(1)),
{
    let t = rest.skip(1);
    if rest[0] == '\\' {
        if rest.len() > 1 {
            assert(t.skip(1) =~= rest.skip(2));
        }
    } else if rest[0] == '$' {
        match placeholder(t) {
            Some((name, n)) => {
                lemma_placeholder_fits(t);
                assert(t.skip(n) =~= rest.skip(1 + n));
            },
            None => {},
        }
    }
}

/// One character behind a `$`.
proof fn lemma_step_sigil(rest: Seq<char>)
    requires
        rest.len() > 0,
    ensures
        rest[0] == '{' ==> after_sigil(rest) == ahead(Mode::Braced, Seq::empty(), rest.skip(1)),
        rest[0] != '{' && is_name_start(rest[0]) ==> after_sigil(rest) == ahead(
            Mode::Bare,
            seq![rest[0]],
            rest.skip(1),
        ),
        rest[0] != '{' && !is_name_start(rest[0]) ==> after_sigil(rest) == seq![
            Piece::Variable(Seq::empty()),
        ] + pieces(rest),
{
    let t = rest.skip(1);
    if rest[0] == '{' {
        let k = offset_of(t, '}') as int;
        lemma_offset_of(t, '}');
        if k < t.len() {
            assert(rest.subrange(1, 1 + k) =~= Seq::<char>::empty() + t.take(k));
            assert(rest.skip(k + 2) =~= t.skip(k + 1));
        }
    } else if is_name_start(rest[0]) {
        let n = name_run(t) as int;
        lemma_name_run(t);
        assert(rest.take(n + 1) =~= seq![rest[0]] + t.take(n));
        assert(rest.skip(n + 1) =~= t.skip(n));
    } else {
        assert(rest.take(0) =~= Seq::<char>::empty());
        assert(rest.skip(0) =~= rest);
    }
}

/// One character in a bare name.
proof fn lemma_step_bare(name: Seq<char>, rest: Seq<char>)
    requires
        rest.len() > 0,
    ensures
        is_name_char(rest[0]) ==> ahead(Mode::Bare, name, rest) == ahead(
            Mode::Bare,
            name.push(rest[0]),
            rest.skip(1),
        ),
        !is_name_char(rest[0]) ==> ahead(Mode::Bare, name, rest) == seq![Piece::Variable(name)]
            + pieces(rest),
{
    let t = rest.skip(1);
    if is_name_char(rest[0]) {
        let n = name_run(t) as int;
        lemma_name_run(t);
        assert(name + rest.take(n + 1) =~= name.push(rest[0]) + t.take(n));
        assert(rest.skip(n + 1) =~= t.skip(n));
    } else {
        assert(name + rest.take(0) =~= name);
        assert(rest.skip(0) =~= rest);
    }
}

/// One character between braces.
proof fn lemma_step_braced(name: Seq<char>, rest: Seq<char>)
    requires
        rest.len() > 0,
    ensures
        rest[0] == '}' ==> ahead(Mode::Braced, name, rest) == seq![Piece::Variable(name)] + pieces(
            rest.skip(1),
        ),
        rest[0] != '}' ==> ahead(Mode::Braced, name, rest) == ahead(
            Mode::Braced,
            name.push(rest[0]),
            rest.skip(1),
        ),
{
    let t = rest.skip(1);
    if rest[0] == '}' {
        assert(name + rest.take(0) =~= name);
    } else {
        let k = offset_of(t, '}') as int;
        lemma_offset_of(t, '}');
        if k < t.len() {
            assert(name + rest.take(k + 1) =~= name.push(rest[0]) + t.take(k));
            assert(rest.skip(k + 2) =~= t.skip(k + 1));
        }
    }
}

/// Tells whether `c` can open a bare name.
fn opens_name(c: char) -> (yes: bool)
    ensures
        yes == is_name_start(c),
{
    (c >= 'A' && c <= 'Z') || (c >= 'a' && c <= 'z') || c == '_'
}

/// Tells whether `c` can go on a bare name.
fn extends_name(c: char) -> (yes: bool)
    ensures
        yes == is_name_char(c),
{
    opens_name(c) || (c >= '0' && c <= '9')
}

/// Replaces the placeholders of `src` by what `mapfn` returns for their names.
///
/// The source is read once, from left to right, as [`pieces`] describes it, and
/// `mapfn` is called once for each placeholder, in their order. A value that it
/// returns stands in the output in place of the placeholder; where it returns
/// `None` the placeholder leaves nothing behind. No value is read again for
/// placeholders.
///
/// `mapfn` has to accept the names that stand in `src`, and no others. The
/// first clause holds for every resolver. The second says what it comes to for
/// a resolver that is a pure query, and the third for a source in which the
/// resolver has no say.
pub fn substitute<F>(src: &str, mapfn: F) -> (dst: String) where F: Fn(&str) -> Option<String>
    requires
        forall|name: &str|
            pieces(src@).contains(Piece::Variable(name@)) ==> call_requires(mapfn, (name,)),
    ensures
        exists|outs: Seq<Seq<char>>|
            renders(mapfn, Dialect::Posix, pieces(src@), outs) && dst@ == outs.flatten(),
        forall|r: Lookup| answers_as(mapfn, r) ==> dst@ == expansion(src@, r),
        !src@.contains('$') && !src@.contains('\\') ==> dst@ == src@,
{
    let mut out = Writer::new(Dialect::Posix, &mapfn);
    let mut varname = String::new();
    let mut mode = Mode::Plain;
    proof {
        assert(src@.skip(0) =~= src@);
        assert(pieces(src@) =~= out.pieces@ + pieces(src@));
    }
    for ch in it: src.chars()
        invariant
            it.seq() == src@,
            forall|name: &str|
                pieces(src@).contains(Piece::Variable(name@)) ==> call_requires(mapfn, (name,)),
            out.wf(),
            out.mapfn == &mapfn,
            out.dialect == Dialect::Posix,
            pieces(src@) == out.pieces@ + ahead(mode, varname@, src@.skip(it.index() as int)),
            mode is Plain || mode is Escaped || mode is Sigil ==> varname@.len() == 0,
    {
        let ghost rest = src@.skip(it.index() as int);
        let ghost tail = src@.skip(it.index() + 1);
        let ghost done = out.pieces@;
        proof {
            assert(rest[0] == ch);
            assert(rest.skip(1) =~= tail);
            assert(varname@.len() == 0 ==> varname@ =~= Seq::empty());
            lemma_step_plain(rest);
            lemma_step_sigil(rest);
            lemma_step_bare(varname@, rest);
            lemma_step_braced(varname@, rest);
            // The name that ends here, if one does, is a piece of the source.
            let at = done.len() as int;
            assert(pieces(src@)[at] == (done + ahead(mode, varname@, rest))[at]);
        }
        // Whether `ch` is still to be read as ordinary text.
        let mut pending = false;
        match mode {
            Mode::Plain | Mode::Escaped => {
                pending = true;
            },
            Mode::Braced => {
                if ch == '}' {
                    out.variable(varname.as_str());
                    varname = String::new();
                    mode = Mode::Plain;
                } else {
                    push_char(&mut varname, ch);
                }
            },
            Mode::Sigil => {
                if ch == '{' {
                    mode = Mode::Braced;
                } else if opens_name(ch) {
                    push_char(&mut varname, ch);
                    mode = Mode::Bare;
                } else {
                    out.variable(varname.as_str());
                    mode = Mode::Plain;
                    pending = true;
                }
            },
            Mode::Bare => {
                if extends_name(ch) {
                    push_char(&mut varname, ch);
                } else {
                    out.variable(varname.as_str());
                    varname = String::new();
                    mode = Mode::Plain;
                    pending = true;
                }
            },
        }
        proof {
            assert(mode is Bare && varname@.len() == 1 ==> varname@ =~= seq![ch]);
            let next = if pending { rest } else { tail };
            assert(pieces(src@) =~= out.pieces@ + ahead(mode, varname@, next));
        }
        if pending {
            match mode {
                Mode::Escaped => {
                    out.literal(ch);
                    mode = Mode::Plain;
                },
                _ => {
                    if ch == '\\' {
                        mode = Mode::Escaped;
                    } else if ch == '$' {
                        mode = Mode::Sigil;
                    } else {
                        out.literal(ch);
                    }
                },
            }
        }
        proof {
            assert(pieces(src@) =~= out.pieces@ + ahead(mode, varname@, tail));
        }
    }
    proof {
        let end = src@.skip(src@.len() as int);
        assert(end.len() == 0);
        assert(end.take(0) =~= end);
        assert(end.skip(0) =~= end);
        assert(varname@ + end =~= varname@);
        assert(pieces(src@) =~= if mode is Bare {
            out.pieces@.push(Piece::Variable(varname@))
        } else {
            out.pieces@
        });
        assert(mode is Bare ==> pieces(src@)[out.pieces@.len() as int] == Piece::Variable(
            varname@,
        ));
    }
    if let Mode::Bare = mode {
        out.variable(varname.as_str());
    }
    proof {
        assert forall|r: Lookup| answers_as(mapfn, r) implies out.text@ == expansion(src@, r) by {
            lemma_renders_pure(mapfn, Dialect::Posix, pieces(src@), out.texts@, r);
        }
        if !src@.contains('$') && !src@.contains('\\') {
            lemma_pieces_plain(src@);
            lemma_renders_literals(mapfn, Dialect::Posix, src@, out.texts@);
        }
    }
    out.text
}

} // verus!
