//! The output of a scan while it is written.

use crate::template::{answer_view, lemma_renders_push, renders, written_as, Dialect, Piece};
use crate::text::push_char;
use vstd::prelude::*;

verus! {

/// The text that a scan has put out so far, with the resolver that it asks
/// and a record of the pieces that the text was made of.
pub(crate) struct Writer<'a, F: Fn(&str) -> Option<String>> {
    /// The resolver that is asked for the value of each placeholder.
    pub mapfn: &'a F,
    /// The dialect that says what stands for a placeholder without value.
    pub dialect: Dialect,
    /// The output so far.
    pub text: String,
    /// The pieces that were written, in order.
    pub pieces: Ghost<Seq<Piece>>,
    /// What was put out for each of the pieces.
    pub texts: Ghost<Seq<Seq<char>>>,
}

impl<'a, F: Fn(&str) -> Option<String>> Writer<'a, F> {
    /// The text is what the resolver made of the pieces, one after the other.
    pub(crate) open spec fn wf(&self) -> bool {
        &&& renders(*self.mapfn, self.dialect, self.pieces@, self.texts@)
        &&& self.text@ == self.texts@.flatten()
    }

    /// `self` has gone on from `before` by the one piece `piece`.
    pub(crate) open spec fn follows(&self, before: &Self, piece: Piece) -> bool {
        &&& self.wf()
        &&& self.mapfn == before.mapfn
        &&& self.dialect == before.dialect
        &&& self.pieces@ == before.pieces@.push(piece)
    }

    /// A writer that has written nothing yet.
    pub(crate) fn new(dialect: Dialect, mapfn: &'a F) -> (out: Self)
        ensures
            out.wf(),
            out.mapfn == mapfn,
            out.dialect == dialect,
            out.pieces@ == Seq::<Piece>::empty(),
    {
        Writer {
            mapfn,
            dialect,
            text: String::new(),
            pieces: Ghost(Seq::empty()),
            texts: Ghost(Seq::empty()),
        }
    }

    /// Writes the character `c` as it is.
    pub(crate) fn literal(&mut self, c: char)
        requires
            old(self).wf(),
        ensures
            final(self).follows(old(self), Piece::Literal(seq![c])),
    {
        push_char(&mut self.text, c);
        let ghost text = seq![c];
        assert(self.text@ =~= old(self).text@ + text);
        self.note(Ghost(Piece::Literal(text)), Ghost(text));
    }

    /// Writes the text `s` as it is.
    pub(crate) fn literal_text(&mut self, s: &str)
        requires
            old(self).wf(),
        ensures
            final(self).follows(old(self), Piece::Literal(s@)),
    {
        self.text.append(s);
        self.note(Ghost(Piece::Literal(s@)), Ghost(s@));
    }

    /// Asks the resolver for `name` and writes what the dialect shows for its
    /// answer.
    pub(crate) fn variable(&mut self, name: &str)
        requires
            old(self).wf(),
            call_requires(*old(self).mapfn, (name,)),
        ensures
            final(self).follows(old(self), Piece::Variable(name@)),
    {
        let answer = (self.mapfn)(name);
        let ghost shown = self.dialect.shown(name@, answer_view(answer));
        let ghost before = self.text@;
        match answer {
            Some(value) => {
                self.text.append(value.as_str());
            },
            None => {
                match self.dialect {
                    Dialect::Posix => {},
                    Dialect::Mswin => {
                        push_char(&mut self.text, '%');
                        self.text.append(name);
                        push_char(&mut self.text, '%');
                    },
                }
            },
        }
        assert(self.text@ =~= before + shown);
        self.note(Ghost(Piece::Variable(name@)), Ghost(shown));
    }

    /// Records a piece, after its text `out` has gone to the end of the text.
    fn note(&mut self, Ghost(piece): Ghost<Piece>, Ghost(out): Ghost<Seq<char>>)
        requires
            renders(*old(self).mapfn, old(self).dialect, old(self).pieces@, old(self).texts@),
            written_as(*old(self).mapfn, old(self).dialect, piece, out),
            old(self).text@ == old(self).texts@.flatten() + out,
        ensures
            final(self).follows(old(self), piece),
            final(self).text == old(self).text,
    {
        proof {
            lemma_renders_push(
                *self.mapfn,
                self.dialect,
                self.pieces@,
                self.texts@,
                piece,
                out,
            );
        }
        self.pieces = Ghost(self.pieces@.push(piece));
        self.texts = Ghost(self.texts@.push(out));
    }
}

} // verus!
