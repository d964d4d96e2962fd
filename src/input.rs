//! The cursor over a buffer and the three-state parse outcome.
use vstd::prelude::*;

verus! {

/// A cursor: an offset into an item buffer owned by the caller, and whether
/// the caller has declared that no further items will ever arrive.
#[derive(Clone, Copy, Debug, PartialEq, Eq, Structural)]
pub struct Input {
    /// Offset of the first unconsumed item.
    pub pos: usize,
    /// True once no further items will be appended to the buffer.
    pub end: bool,
}

/// A saved cursor position, restored with [`Input::restore`].
#[derive(Clone, Copy, Debug, PartialEq, Eq, Structural)]
pub struct Mark {
    pub pos: usize,
}

/// The outcome of one parse step. Each variant carries the cursor as it
/// stands after the step, so a caller can see how much was consumed even
/// when the step failed.
#[derive(Debug, PartialEq, Eq)]
pub enum ParseResult<T, E> {
    /// The step succeeded with a value.
    Data(Input, T),
    /// The step failed with an error value.
    Error(Input, E),
    /// The step needs at least this many more items before it can decide.
    Incomplete(Input, usize),
}

impl Input {
    /// A cursor at the start of a buffer.
    pub fn new(end: bool) -> (r: Input)
        ensures
            r == (Input { pos: 0, end }),
    {
        Input { pos: 0, end }
    }

    /// A cursor at a given offset.
    pub fn at(pos: usize, end: bool) -> (r: Input)
        ensures
            r == (Input { pos, end }),
    {
        Input { pos, end }
    }

    pub open spec fn spec_mark(self) -> Mark {
        Mark { pos: self.pos }
    }

    pub open spec fn spec_restore(self, m: Mark) -> Input {
        Input { pos: m.pos, end: self.end }
    }

    /// Snapshot of the current position.
    pub fn mark(&self) -> (m: Mark)
        ensures
            m == self.spec_mark(),
    {
        Mark { pos: self.pos }
    }

    /// Moves the cursor back to a saved position; the end flag is kept.
    pub fn restore(self, m: Mark) -> (r: Input)
        ensures
            r == self.spec_restore(m),
    {
        Input { pos: m.pos, end: self.end }
    }

    /// True once the caller has declared that no more items will arrive.
    pub fn is_end(&self) -> (r: bool)
        ensures
            r == self.end,
    {
        self.end
    }

    /// The offset of the first unconsumed item.
    pub fn position(&self) -> (r: usize)
        ensures
            r == self.pos,
    {
        self.pos
    }

    /// Succeeds with a value at this position.
    pub fn ret<T, E>(self, t: T) -> (r: ParseResult<T, E>)
        ensures
            r == ParseResult::<T, E>::Data(self, t),
    {
        ParseResult::Data(self, t)
    }

    /// Fails with an error value at this position.
    pub fn err<T, E>(self, e: E) -> (r: ParseResult<T, E>)
        ensures
            r == ParseResult::<T, E>::Error(self, e),
    {
        ParseResult::Error(self, e)
    }

    /// Asks for at least `n` more items.
    pub fn incomplete<T, E>(self, n: usize) -> (r: ParseResult<T, E>)
        ensures
            r == ParseResult::<T, E>::Incomplete(self, n),
    {
        ParseResult::Incomplete(self, n)
    }
}

impl<T, E> ParseResult<T, E> {
    /// The cursor after the step.
    pub open spec fn spec_input(self) -> Input {
        match self {
            ParseResult::Data(i, _) => i,
            ParseResult::Error(i, _) => i,
            ParseResult::Incomplete(i, _) => i,
        }
    }

    /// The cursor after the step.
    pub fn input(&self) -> (r: Input)
        ensures
            r == self.spec_input(),
    {
        match self {
            ParseResult::Data(i, _) => *i,
            ParseResult::Error(i, _) => *i,
            ParseResult::Incomplete(i, _) => *i,
        }
    }

    /// True for a successful step.
    pub fn is_data(&self) -> (r: bool)
        ensures
            r == self is Data,
    {
        matches!(self, ParseResult::Data(_, _))
    }

    /// True for a failed step.
    pub fn is_error(&self) -> (r: bool)
        ensures
            r == self is Error,
    {
        matches!(self, ParseResult::Error(_, _))
    }

    /// True for a step that asked for more items.
    pub fn is_incomplete(&self) -> (r: bool)
        ensures
            r == self is Incomplete,
    {
        matches!(self, ParseResult::Incomplete(_, _))
    }

    /// Replaces the cursor, keeping the tag and the payload.
    pub open spec fn with_input(self, i: Input) -> Self {
        match self {
            ParseResult::Data(_, t) => ParseResult::Data(i, t),
            ParseResult::Error(_, e) => ParseResult::Error(i, e),
            ParseResult::Incomplete(_, n) => ParseResult::Incomplete(i, n),
        }
    }
}

impl<T: DeepView, E> ParseResult<T, E> {
    /// The outcome with its value replaced by the value's mathematical model.
    pub open spec fn deep(self) -> ParseResult<T::V, E> {
        match self {
            ParseResult::Data(i, t) => ParseResult::Data(i, t.deep_view()),
            ParseResult::Error(i, e) => ParseResult::Error(i, e),
            ParseResult::Incomplete(i, n) => ParseResult::Incomplete(i, n),
        }
    }
}

} // verus!
