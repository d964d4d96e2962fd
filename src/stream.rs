//! The stream driver: runs a parser over a buffer and, when the parser asks
//! for more items, fetches them from a data source and runs it again from
//! the same logical position.
use vstd::prelude::*;

use crate::buffer::{window, Buffer, DataSource, SourceError};
use crate::input::{Input, ParseResult};
use crate::parsers::Parser;

verus! {

/// Why a stream-level parse produced no value.
#[derive(Debug, PartialEq, Eq)]
pub enum StreamError<E> {
    /// The parser failed; the items up to the failure are consumed.
    ParseError(E),
    /// No more items will arrive, and the parser still needs this many more.
    Incomplete(usize),
    /// No items are left and none will arrive.
    EndOfInput,
    /// The data source failed.
    IoError(SourceError),
}

/// `w` starts with the items of `w0`.
pub open spec fn extends(w: Seq<u8>, w0: Seq<u8>) -> bool {
    w.len() >= w0.len() && w.subrange(0, w0.len() as int) == w0
}

/// How many items a fetch asks for: `n`, or one when `n` is 0.
pub open spec fn wanted(n: usize) -> nat {
    if n == 0 {
        1
    } else {
        n as nat
    }
}

/// How many items the driver fetches after its first attempt on the window
/// `w0` with end flag `end0`: one for an empty window, what the parser asks
/// for on a request for more items, and none otherwise.
pub open spec fn first_request<P: Parser>(p: P, w0: Seq<u8>, end0: bool) -> nat {
    if end0 {
        0
    } else if w0.len() == 0 {
        1
    } else {
        match p.outcome(w0, Input { pos: 0, end: end0 }) {
            ParseResult::Incomplete(_, n) => wanted(n),
            _ => 0,
        }
    }
}

proof fn lemma_extends_refl(a: Seq<u8>)
    ensures
        extends(a, a),
{
    assert(a.subrange(0, a.len() as int) =~= a);
}

proof fn lemma_extends_trans(a: Seq<u8>, b: Seq<u8>, c: Seq<u8>)
    requires
        extends(a, b),
        extends(b, c),
    ensures
        extends(a, c),
{
    assert(a.subrange(0, c.len() as int) =~= b.subrange(0, c.len() as int));
}

/// A buffer fed from a data source.
#[derive(Debug)]
pub struct Source<B, S> {
    buffer: B,
    source: S,
    /// Set the first time the source yields nothing.
    end: bool,
}

impl<B: Buffer<u8>, S: DataSource<Item = u8>> Source<B, S> {
    pub closed spec fn spec_buffer(&self) -> B {
        self.buffer
    }

    pub closed spec fn spec_source(&self) -> S {
        self.source
    }

    /// True once the driver has asserted end of input.
    pub closed spec fn spec_end(&self) -> bool {
        self.end
    }

    pub open spec fn wf(&self) -> bool {
        self.spec_buffer().wf()
    }

    /// The items the next parse will see.
    pub open spec fn spec_window(&self) -> Seq<u8> {
        window(self.spec_buffer().items(), self.spec_buffer().used())
    }

    /// A driver over `buffer`, filled from `source`.
    pub fn new(source: S, buffer: B) -> (r: Self)
        requires
            buffer.wf(),
        ensures
            r.wf(),
            r.spec_buffer() == buffer,
            !r.spec_end(),
    {
        Source { buffer, source, end: false }
    }

    /// The buffer.
    pub fn buffer(&self) -> (r: &B)
        ensures
            *r == self.spec_buffer(),
    {
        &self.buffer
    }

    /// True once the source has yielded nothing and end of input is set.
    pub fn is_end(&self) -> (r: bool)
        ensures
            r == self.spec_end(),
    {
        self.end
    }

    /// Makes room for `n` more items and fills until at least `n` (at least
    /// one) arrived, or until the source hands out nothing, which sets end of
    /// input. Each fill asks the source for as many items as the free tail
    /// of the buffer holds.
    pub fn fetch(&mut self, n: usize) -> (r: Result<(), SourceError>)
        requires
            old(self).wf(),
            !old(self).spec_end(),
        ensures
            final(self).wf(),
            extends(final(self).spec_window(), old(self).spec_window()),
            r is Ok && !final(self).spec_end() ==> final(self).spec_window().len() >= old(
                self,
            ).spec_window().len() + wanted(n),
            final(self).spec_end() ==> r is Ok && final(self).spec_source().last().len() == 0,
            r is Err ==> !final(self).spec_end(),
    {
        let ghost w0 = self.spec_window();
        proof {
            lemma_extends_refl(w0);
        }
        self.buffer.request_space(n);
        let want: usize = if n == 0 {
            1
        } else {
            n
        };
        let mut got: usize = 0;
        while got < want
            invariant
                self.wf(),
                !self.end,
                want == wanted(n),
                w0 == old(self).spec_window(),
                self.spec_window().len() == w0.len() + got,
                extends(self.spec_window(), w0),
            decreases usize::MAX - got,
        {
            let ghost before = self.spec_window();
            let ghost bb = self.buffer;
            proof {
                bb.lemma_wf();
            }
            match self.buffer.fill(&mut self.source) {
                Ok(k) => {
                    proof {
                        self.buffer.lemma_wf();
                        let wa = self.spec_window();
                        let u = bb.used() as int;
                        assert(self.buffer.items() == bb.items() + self.source.last());
                        assert(wa =~= before + self.source.last()) by {
                            assert forall|j: int| 0 <= j < wa.len() implies wa[j] == (before
                                + self.source.last())[j] by {
                                assert(wa[j] == self.buffer.items()[u + j]);
                            }
                        }
                        assert(wa.subrange(0, before.len() as int) =~= before);
                        lemma_extends_trans(wa, before, w0);
                    }
                    if k == 0 {
                        self.end = true;
                        return Ok(());
                    }
                    got = got + k;
                },
                Err(e) => {
                    return Err(e);
                },
            }
        }
        Ok(())
    }

    /// Parses one value from the stream.
    ///
    /// The parser runs on the unconsumed items. A value or an error commits
    /// what the parser consumed. A request for `n` more items fetches them
    /// (see [`Source::fetch`]; one item when the buffer is empty) and runs the
    /// parser again from the same logical position; once the source has
    /// handed out nothing, end of input is set and a further request is final.
    pub fn parse<P: Parser>(&mut self, p: P) -> (r: Result<P::Output, StreamError<P::Error>>)
        requires
            old(self).wf(),
        ensures
            final(self).wf(),
            old(self).spec_window().len() > 0 ==> match p.outcome(
                old(self).spec_window(),
                Input { pos: 0, end: old(self).spec_end() },
            ) {
                ParseResult::Data(c, v) => (r matches Ok(x) && x.deep_view() == v
                    && final(self).spec_window() == old(self).spec_window().skip(c.pos as int)),
                ParseResult::Error(c, e) => (r matches Err(StreamError::ParseError(x)) && x == e
                    && final(self).spec_window() == old(self).spec_window().skip(c.pos as int)),
                ParseResult::Incomplete(_, n) => old(self).spec_end() ==> (r matches Err(
                    StreamError::Incomplete(x),
                ) && x == n),
            },
            old(self).spec_end() && old(self).spec_window().len() == 0 ==> r matches Err(
                StreamError::EndOfInput,
            ),
            r matches Ok(v) ==> exists|w: Seq<u8>, c: Input|
                #![auto]
                extends(w, old(self).spec_window()) && (final(self).spec_end() || w.len()
                    >= old(self).spec_window().len() + first_request(
                    p,
                    old(self).spec_window(),
                    old(self).spec_end(),
                )) && p.outcome(w, Input { pos: 0, end: final(self).spec_end() })
                    == ParseResult::<_, P::Error>::Data(c, v.deep_view())
                    && final(self).spec_window() == w.skip(c.pos as int),
            r matches Err(StreamError::ParseError(e)) ==> exists|w: Seq<u8>, c: Input|
                #![auto]
                extends(w, old(self).spec_window()) && (final(self).spec_end() || w.len()
                    >= old(self).spec_window().len() + first_request(
                    p,
                    old(self).spec_window(),
                    old(self).spec_end(),
                )) && p.outcome(w, Input { pos: 0, end: final(self).spec_end() })
                    == ParseResult::<<P::Output as DeepView>::V, P::Error>::Error(c, e)
                    && final(self).spec_window() == w.skip(c.pos as int),
            r matches Err(StreamError::Incomplete(n)) ==> final(self).spec_end() && extends(
                final(self).spec_window(),
                old(self).spec_window(),
            ) && ({
                let o = p.outcome(final(self).spec_window(), Input { pos: 0, end: true });
                o is Incomplete && o->Incomplete_1 == n
            }),
            r matches Err(StreamError::EndOfInput) ==> final(self).spec_end()
                && final(self).spec_window().len() == 0 && old(self).spec_window().len() == 0,
            r matches Err(StreamError::IoError(_)) ==> !old(self).spec_end() && extends(
                final(self).spec_window(),
                old(self).spec_window(),
            ),
    {
        let ghost w0 = self.spec_window();
        let ghost e0 = self.end;
        let ghost mut first: bool = true;
        proof {
            lemma_extends_refl(w0);
        }
        loop
            invariant
                self.wf(),
                w0 == old(self).spec_window(),
                e0 == old(self).spec_end(),
                extends(self.spec_window(), w0),
                e0 ==> self.end,
                first ==> self.spec_window() == w0 && self.end == e0,
                !first ==> !e0 && (self.end || self.spec_window().len() >= w0.len()
                    + first_request(p, w0, e0)),
                !first ==> (w0.len() == 0 || p.outcome(w0, Input { pos: 0, end: e0 }) is Incomplete),
            decreases (if self.end {
                0int
            } else {
                1int
            }), usize::MAX - self.spec_window().len(),
        {
            proof {
                self.buffer.lemma_wf();
            }
            let empty = self.buffer.is_empty();
            if empty && !self.end {
                let ghost before = self.spec_window();
                match self.fetch(1) {
                    Ok(()) => {},
                    Err(e) => {
                        proof {
                            lemma_extends_trans(self.spec_window(), before, w0);
                        }
                        return Err(StreamError::IoError(e));
                    },
                }
                proof {
                    lemma_extends_trans(self.spec_window(), before, w0);
                    self.buffer.lemma_wf();
                    first = false;
                }
            } else if empty {
                return Err(StreamError::EndOfInput);
            } else {
                let w = self.buffer.window();
                let i = Input { pos: 0, end: self.end };
                match p.parse(w, i) {
                    ParseResult::Data(c, v) => {
                        let ghost wv = w@;
                        self.buffer.consume(c.pos);
                        assert(self.spec_window() =~= wv.skip(c.pos as int));
                        return Ok(v);
                    },
                    ParseResult::Error(c, e) => {
                        let ghost wv = w@;
                        self.buffer.consume(c.pos);
                        assert(self.spec_window() =~= wv.skip(c.pos as int));
                        return Err(StreamError::ParseError(e));
                    },
                    ParseResult::Incomplete(c, n) => {
                        if self.end {
                            return Err(StreamError::Incomplete(n));
                        }
                        let ghost before = self.spec_window();
                        match self.fetch(n) {
                            Ok(()) => {},
                            Err(e) => {
                                proof {
                                    lemma_extends_trans(self.spec_window(), before, w0);
                                }
                                return Err(StreamError::IoError(e));
                            },
                        }
                        proof {
                            lemma_extends_trans(self.spec_window(), before, w0);
                            self.buffer.lemma_wf();
                            first = false;
                        }
                    },
                }
            }
        }
    }
}

} // verus!
