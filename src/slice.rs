//! A stream over an in-memory slice: all items are present and no more will
//! arrive.
use vstd::prelude::*;
use vstd::slice::slice_subrange;

use crate::input::{Input, ParseResult};
use crate::parsers::Parser;
use crate::stream::StreamError;

verus! {

/// A stream over an immutable slice, with end of input set from the start.
#[derive(Debug, PartialEq, Eq, Hash)]
pub struct SliceStream<'i, I> {
    pos: usize,
    slice: &'i [I],
}

impl<'i, I> SliceStream<'i, I> {
    #[verifier::type_invariant]
    closed spec fn inv(self) -> bool {
        self.pos <= self.slice@.len()
    }

    /// The items not consumed yet.
    pub closed spec fn remaining(self) -> Seq<I> {
        self.slice@.subrange(self.pos as int, self.slice@.len() as int)
    }

    /// A stream over all of `slice`.
    pub fn new(slice: &'i [I]) -> (r: Self)
        ensures
            r.remaining() == slice@,
    {
        let r = SliceStream { pos: 0, slice };
        assert(r.remaining() =~= slice@);
        r
    }

    /// The number of items not consumed yet.
    pub fn len(&self) -> (r: usize)
        ensures
            r == self.remaining().len(),
    {
        proof {
            use_type_invariant(self);
        }
        self.slice.len() - self.pos
    }

    /// True when every item has been consumed.
    pub fn is_empty(&self) -> (r: bool)
        ensures
            r == (self.remaining().len() == 0),
    {
        self.len() == 0
    }
}

/// A stream over all of `slice`.
pub fn into_stream<'i, I>(slice: &'i [I]) -> (r: SliceStream<'i, I>)
    ensures
        r.remaining() == slice@,
{
    SliceStream::new(slice)
}

impl<'i> SliceStream<'i, u8> {
    /// Parses one value from the remaining items, at end of input. A value
    /// or an error consumes what the parser consumed; a request for more
    /// items is final, since no more will arrive, and carries the number of
    /// items missing.
    pub fn parse<P: Parser>(&mut self, p: P) -> (r: Result<P::Output, StreamError<P::Error>>)
        ensures
            old(self).remaining().len() == 0 ==> (r matches Err(StreamError::EndOfInput)
                && final(self).remaining() == old(self).remaining()),
            old(self).remaining().len() > 0 ==> match p.outcome(
                old(self).remaining(),
                Input { pos: 0, end: true },
            ) {
                ParseResult::Data(c, v) => (r matches Ok(x) && x.deep_view() == v
                    && final(self).remaining() == old(self).remaining().skip(c.pos as int)),
                ParseResult::Error(c, e) => (r matches Err(StreamError::ParseError(x)) && x == e
                    && final(self).remaining() == old(self).remaining().skip(c.pos as int)),
                ParseResult::Incomplete(_, n) => (r matches Err(StreamError::Incomplete(x)) && x
                    == n && final(self).remaining() == old(self).remaining()),
            },
    {
        proof {
            use_type_invariant(&*self);
        }
        if self.is_empty() {
            return Err(StreamError::EndOfInput);
        }
        let w = slice_subrange(self.slice, self.pos, self.slice.len());
        match p.parse(w, Input { pos: 0, end: true }) {
            ParseResult::Data(c, v) => {
                let ghost before = self.remaining();
                self.pos = self.pos + c.pos;
                assert(self.remaining() =~= before.skip(c.pos as int));
                Ok(v)
            },
            ParseResult::Error(c, e) => {
                let ghost before = self.remaining();
                self.pos = self.pos + c.pos;
                assert(self.remaining() =~= before.skip(c.pos as int));
                Err(StreamError::ParseError(e))
            },
            ParseResult::Incomplete(_, n) => Err(StreamError::Incomplete(n)),
        }
    }
}

} // verus!
