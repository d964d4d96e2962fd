//! The parser interface and the leaf parsers that read single items or runs
//! of items.
use vstd::prelude::*;
use vstd::slice::{slice_subrange, slice_to_vec};

use crate::ascii::CharClass;
use crate::input::{Input, ParseResult};

verus! {

/// Errors reported by the leaf parsers of this crate.
#[derive(Clone, Copy, Debug, PartialEq, Eq, Structural)]
pub enum ParseError {
    /// A specific item was expected.
    Expected(u8),
    /// The next item did not satisfy the parser's predicate.
    Unexpected,
    /// A number did not fit its integer type.
    Overflow,
}

/// A parser: a deterministic step from a cursor over a buffer to an outcome.
///
/// `outcome` is the mathematical meaning of the parser; `parse` computes it.
/// A parser never moves the cursor backwards past where it started, never
/// past the end of the buffer, and never changes the end-of-input flag.
pub trait Parser {
    type Output: DeepView;
    type Error;

    spec fn outcome(&self, buf: Seq<u8>, i: Input) -> ParseResult<
        <Self::Output as DeepView>::V,
        Self::Error,
    >;

    /// The cursor law at the level of `outcome`: from a cursor inside the
    /// buffer, the outcome's cursor is no earlier, still inside the buffer,
    /// and keeps the end-of-input flag.
    proof fn lemma_outcome(&self, buf: Seq<u8>, i: Input)
        requires
            i.pos <= buf.len() <= usize::MAX,
        ensures
            i.pos <= self.outcome(buf, i).spec_input().pos <= buf.len(),
            self.outcome(buf, i).spec_input().end == i.end,
    ;

    fn parse(&self, buf: &[u8], i: Input) -> (r: ParseResult<Self::Output, Self::Error>)
        requires
            i.pos <= buf@.len(),
        ensures
            r.deep() == self.outcome(buf@, i),
            i.pos <= r.spec_input().pos <= buf@.len(),
            r.spec_input().end == i.end,
    ;
}

/// The cursor moved forward by `n` items.
pub open spec fn advance(i: Input, n: int) -> Input {
    Input { pos: (i.pos + n) as usize, end: i.end }
}

/// Matches any single item.
#[derive(Clone, Copy, Debug)]
pub struct Any;

/// Matches exactly the given item.
#[derive(Clone, Copy, Debug)]
pub struct Token {
    pub t: u8,
}

/// Matches the next `n` items, whatever they are.
#[derive(Clone, Copy, Debug)]
pub struct Take {
    pub n: usize,
}

/// Matches a single item of a character class.
#[derive(Clone, Copy, Debug)]
pub struct Satisfy {
    pub class: CharClass,
}

/// Always fails with the given error, consuming nothing.
#[derive(Clone, Copy, Debug)]
pub struct Fail<E> {
    pub e: E,
}

/// A parser that matches any single item.
pub fn any() -> (r: Any) {
    Any
}

/// A parser that matches the item `t`.
pub fn token(t: u8) -> (r: Token)
    ensures
        r.t == t,
{
    Token { t }
}

/// A parser that matches the next `n` items.
pub fn take(n: usize) -> (r: Take)
    ensures
        r.n == n,
{
    Take { n }
}

/// A parser that matches one item of `class`.
pub fn satisfy(class: CharClass) -> (r: Satisfy)
    ensures
        r.class == class,
{
    Satisfy { class }
}

/// A parser that always fails with `e`.
pub fn fail<E: Copy>(e: E) -> (r: Fail<E>)
    ensures
        r.e == e,
{
    Fail { e }
}

impl Parser for Any {
    type Output = u8;
    type Error = ParseError;

    open spec fn outcome(&self, buf: Seq<u8>, i: Input) -> ParseResult<u8, ParseError> {
        if i.pos < buf.len() {
            ParseResult::Data(advance(i, 1), buf[i.pos as int])
        } else {
            ParseResult::Incomplete(i, 1)
        }
    }

    proof fn lemma_outcome(&self, buf: Seq<u8>, i: Input) {
    }

    fn parse(&self, buf: &[u8], i: Input) -> (r: ParseResult<u8, ParseError>) {
        if i.pos < buf.len() {
            ParseResult::Data(Input { pos: i.pos + 1, end: i.end }, buf[i.pos])
        } else {
            ParseResult::Incomplete(i, 1)
        }
    }
}

impl Parser for Token {
    type Output = u8;
    type Error = ParseError;

    open spec fn outcome(&self, buf: Seq<u8>, i: Input) -> ParseResult<u8, ParseError> {
        if i.pos >= buf.len() {
            ParseResult::Incomplete(i, 1)
        } else if buf[i.pos as int] == self.t {
            ParseResult::Data(advance(i, 1), self.t)
        } else {
            ParseResult::Error(i, ParseError::Expected(self.t))
        }
    }

    proof fn lemma_outcome(&self, buf: Seq<u8>, i: Input) {
    }

    fn parse(&self, buf: &[u8], i: Input) -> (r: ParseResult<u8, ParseError>) {
        if i.pos >= buf.len() {
            ParseResult::Incomplete(i, 1)
        } else if buf[i.pos] == self.t {
            ParseResult::Data(Input { pos: i.pos + 1, end: i.end }, self.t)
        } else {
            ParseResult::Error(i, ParseError::Expected(self.t))
        }
    }
}

impl Parser for Take {
    type Output = Vec<u8>;
    type Error = ParseError;

    open spec fn outcome(&self, buf: Seq<u8>, i: Input) -> ParseResult<Seq<u8>, ParseError> {
        if i.pos + self.n <= buf.len() {
            ParseResult::Data(advance(i, self.n as int), buf.subrange(i.pos as int, i.pos + self.n))
        } else {
            ParseResult::Incomplete(i, (i.pos + self.n - buf.len()) as usize)
        }
    }

    proof fn lemma_outcome(&self, buf: Seq<u8>, i: Input) {
    }

    fn parse(&self, buf: &[u8], i: Input) -> (r: ParseResult<Vec<u8>, ParseError>) {
        let avail = buf.len() - i.pos;
        if self.n <= avail {
            let v = slice_to_vec(slice_subrange(buf, i.pos, i.pos + self.n));
            assert(v.deep_view() =~= buf@.subrange(i.pos as int, i.pos + self.n));
            ParseResult::Data(Input { pos: i.pos + self.n, end: i.end }, v)
        } else {
            ParseResult::Incomplete(i, self.n - avail)
        }
    }
}

impl Parser for Satisfy {
    type Output = u8;
    type Error = ParseError;

    open spec fn outcome(&self, buf: Seq<u8>, i: Input) -> ParseResult<u8, ParseError> {
        if i.pos >= buf.len() {
            ParseResult::Incomplete(i, 1)
        } else if self.class.spec_contains(buf[i.pos as int]) {
            ParseResult::Data(advance(i, 1), buf[i.pos as int])
        } else {
            ParseResult::Error(i, ParseError::Unexpected)
        }
    }

    proof fn lemma_outcome(&self, buf: Seq<u8>, i: Input) {
    }

    fn parse(&self, buf: &[u8], i: Input) -> (r: ParseResult<u8, ParseError>) {
        if i.pos >= buf.len() {
            ParseResult::Incomplete(i, 1)
        } else if self.class.contains(buf[i.pos]) {
            ParseResult::Data(Input { pos: i.pos + 1, end: i.end }, buf[i.pos])
        } else {
            ParseResult::Error(i, ParseError::Unexpected)
        }
    }
}

impl<E: Copy> Parser for Fail<E> {
    type Output = ();
    type Error = E;

    open spec fn outcome(&self, buf: Seq<u8>, i: Input) -> ParseResult<(), E> {
        ParseResult::Error(i, self.e)
    }

    proof fn lemma_outcome(&self, buf: Seq<u8>, i: Input) {
    }

    fn parse(&self, buf: &[u8], i: Input) -> (r: ParseResult<(), E>) {
        ParseResult::Error(i, self.e)
    }
}

/// Matches a fixed sequence of items.
#[derive(Debug)]
pub struct Str {
    pub s: Vec<u8>,
}

/// Matches the longest run of items of a class, possibly empty.
#[derive(Clone, Copy, Debug)]
pub struct TakeWhile {
    pub class: CharClass,
}

/// Matches the longest run of items of a class, at least one.
#[derive(Clone, Copy, Debug)]
pub struct TakeWhile1 {
    pub class: CharClass,
}

/// Runs `first`, then `second` on what remains, keeping the second value.
#[derive(Clone, Copy, Debug)]
pub struct Then<P, Q> {
    pub first: P,
    pub second: Q,
}

/// Runs `p`, replacing any error it reports with `e`.
#[derive(Clone, Copy, Debug)]
pub struct MapErr<P, E> {
    pub p: P,
    pub e: E,
}

/// A parser that matches the items of `s` in order.
pub fn string(s: &[u8]) -> (r: Str)
    ensures
        r.s@ == s@,
{
    Str { s: slice_to_vec(s) }
}

/// A parser that matches the longest run of items of `class`.
pub fn take_while(class: CharClass) -> (r: TakeWhile)
    ensures
        r.class == class,
{
    TakeWhile { class }
}

/// A parser that matches the longest non-empty run of items of `class`.
pub fn take_while1(class: CharClass) -> (r: TakeWhile1)
    ensures
        r.class == class,
{
    TakeWhile1 { class }
}

/// Sequencing: `second` runs on the remainder of a successful `first`; an
/// error or a request for more items from `first` short-circuits.
pub fn then<P: Parser, Q: Parser<Error = P::Error>>(first: P, second: Q) -> (r: Then<P, Q>)
    ensures
        r.first == first,
        r.second == second,
{
    Then { first, second }
}

/// Replaces the error of `p` with `e`.
pub fn map_err<P: Parser, E: Copy>(p: P, e: E) -> (r: MapErr<P, E>)
    ensures
        r.p == p,
        r.e == e,
{
    MapErr { p, e }
}

/// Matching `s` from its `k`th item on, the first `k` having matched.
pub open spec fn string_from(buf: Seq<u8>, i: Input, s: Seq<u8>, k: nat) -> ParseResult<
    Seq<u8>,
    ParseError,
>
    decreases s.len() - k,
{
    if k >= s.len() {
        ParseResult::Data(advance(i, s.len() as int), s)
    } else if i.pos + k >= buf.len() {
        ParseResult::Incomplete(i, (s.len() - k) as usize)
    } else if buf[i.pos + k] != s[k as int] {
        ParseResult::Error(advance(i, k as int), ParseError::Expected(s[k as int]))
    } else {
        string_from(buf, i, s, k + 1)
    }
}

proof fn lemma_string_from(buf: Seq<u8>, i: Input, s: Seq<u8>, k: nat)
    requires
        i.pos + k <= buf.len() <= usize::MAX,
    ensures
        i.pos <= string_from(buf, i, s, k).spec_input().pos <= buf.len(),
        string_from(buf, i, s, k).spec_input().end == i.end,
    decreases s.len() - k,
{
    if k < s.len() && i.pos + k < buf.len() && buf[i.pos + k] == s[k as int] {
        lemma_string_from(buf, i, s, k + 1);
    }
}

/// The number of consecutive items of `class` from `pos` on.
pub open spec fn run_len(buf: Seq<u8>, class: CharClass, pos: int) -> nat
    decreases buf.len() - pos,
{
    if 0 <= pos < buf.len() && class.spec_contains(buf[pos]) {
        1 + run_len(buf, class, pos + 1)
    } else {
        0
    }
}

/// The outcome of taking the run of `class` at `i`: when the run reaches the
/// end of the buffer before the end of input, more items could extend it.
pub open spec fn take_run(buf: Seq<u8>, i: Input, class: CharClass) -> ParseResult<
    Seq<u8>,
    ParseError,
> {
    let e = i.pos + run_len(buf, class, i.pos as int);
    if e >= buf.len() && !i.end {
        ParseResult::Incomplete(i, 1)
    } else {
        ParseResult::Data(advance(i, run_len(buf, class, i.pos as int) as int), buf.subrange(i.pos as int, e))
    }
}

/// A run stays inside the buffer, and every item in it belongs to the class.
pub proof fn lemma_run_len(buf: Seq<u8>, class: CharClass, pos: int)
    requires
        0 <= pos <= buf.len(),
    ensures
        pos + run_len(buf, class, pos) <= buf.len(),
        forall|k: int|
            pos <= k < pos + run_len(buf, class, pos) ==> class.spec_contains(#[trigger] buf[k]),
    decreases buf.len() - pos,
{
    if pos < buf.len() {
        lemma_run_len(buf, class, pos + 1);
    }
}

/// Exec form of the run: the end offset of the run of `class` at `start`.
fn run_end(buf: &[u8], start: usize, class: CharClass) -> (e: usize)
    requires
        start <= buf@.len(),
    ensures
        e == start + run_len(buf@, class, start as int),
        e <= buf@.len(),
{
    let mut j = start;
    while j < buf.len() && class.contains(buf[j])
        invariant
            start <= j <= buf@.len(),
            run_len(buf@, class, start as int) == (j - start) + run_len(buf@, class, j as int),
        decreases buf@.len() - j,
    {
        j = j + 1;
    }
    proof {
        lemma_run_len(buf@, class, start as int);
    }
    j
}

fn take_run_exec(buf: &[u8], i: Input, class: CharClass) -> (r: ParseResult<Vec<u8>, ParseError>)
    requires
        i.pos <= buf@.len(),
    ensures
        r.deep() == take_run(buf@, i, class),
        i.pos <= r.spec_input().pos <= buf@.len(),
        r.spec_input().end == i.end,
{
    let e = run_end(buf, i.pos, class);
    if e >= buf.len() && !i.end {
        ParseResult::Incomplete(i, 1)
    } else {
        let v = slice_to_vec(slice_subrange(buf, i.pos, e));
        assert(v.deep_view() =~= buf@.subrange(i.pos as int, e as int));
        ParseResult::Data(Input { pos: e, end: i.end }, v)
    }
}

impl Parser for Str {
    type Output = Vec<u8>;
    type Error = ParseError;

    open spec fn outcome(&self, buf: Seq<u8>, i: Input) -> ParseResult<Seq<u8>, ParseError> {
        string_from(buf, i, self.s@, 0)
    }

    proof fn lemma_outcome(&self, buf: Seq<u8>, i: Input) {
        lemma_string_from(buf, i, self.s@, 0);
    }

    fn parse(&self, buf: &[u8], i: Input) -> (r: ParseResult<Vec<u8>, ParseError>) {
        let n = self.s.len();
        let blen = buf.len();
        let mut k: usize = 0;
        while k < n
            invariant
                n == self.s@.len(),
                blen == buf@.len(),
                i.pos <= buf@.len(),
                k <= n,
                i.pos + k <= buf@.len(),
                string_from(buf@, i, self.s@, 0) == string_from(buf@, i, self.s@, k as nat),
                forall|j: int| 0 <= j < k ==> buf@[i.pos + j] == self.s@[j],
            decreases n - k,
        {
            if i.pos + k >= blen {
                return ParseResult::Incomplete(i, n - k);
            }
            if buf[i.pos + k] != self.s[k] {
                return ParseResult::Error(Input { pos: i.pos + k, end: i.end }, ParseError::Expected(self.s[k]));
            }
            k = k + 1;
        }
        assert(i.pos + n <= buf@.len());
        let stop = i.pos + k;
        let v = slice_to_vec(slice_subrange(buf, i.pos, stop));
        assert(v.deep_view() =~= self.s@);
        ParseResult::Data(Input { pos: stop, end: i.end }, v)
    }
}

impl Parser for TakeWhile {
    type Output = Vec<u8>;
    type Error = ParseError;

    open spec fn outcome(&self, buf: Seq<u8>, i: Input) -> ParseResult<Seq<u8>, ParseError> {
        take_run(buf, i, self.class)
    }

    proof fn lemma_outcome(&self, buf: Seq<u8>, i: Input) {
        lemma_run_len(buf, self.class, i.pos as int);
    }

    fn parse(&self, buf: &[u8], i: Input) -> (r: ParseResult<Vec<u8>, ParseError>) {
        take_run_exec(buf, i, self.class)
    }
}

impl Parser for TakeWhile1 {
    type Output = Vec<u8>;
    type Error = ParseError;

    open spec fn outcome(&self, buf: Seq<u8>, i: Input) -> ParseResult<Seq<u8>, ParseError> {
        if i.pos >= buf.len() {
            ParseResult::Incomplete(i, 1)
        } else if !self.class.spec_contains(buf[i.pos as int]) {
            ParseResult::Error(i, ParseError::Unexpected)
        } else {
            take_run(buf, i, self.class)
        }
    }

    proof fn lemma_outcome(&self, buf: Seq<u8>, i: Input) {
        lemma_run_len(buf, self.class, i.pos as int);
    }

    fn parse(&self, buf: &[u8], i: Input) -> (r: ParseResult<Vec<u8>, ParseError>) {
        if i.pos >= buf.len() {
            ParseResult::Incomplete(i, 1)
        } else if !self.class.contains(buf[i.pos]) {
            ParseResult::Error(i, ParseError::Unexpected)
        } else {
            take_run_exec(buf, i, self.class)
        }
    }
}

impl<P: Parser, Q: Parser<Error = P::Error>> Parser for Then<P, Q> {
    type Output = Q::Output;
    type Error = P::Error;

    open spec fn outcome(&self, buf: Seq<u8>, i: Input) -> ParseResult<
        <Q::Output as DeepView>::V,
        P::Error,
    > {
        match self.first.outcome(buf, i) {
            ParseResult::Data(c, _) => self.second.outcome(buf, c),
            ParseResult::Error(c, e) => ParseResult::Error(c, e),
            ParseResult::Incomplete(c, n) => ParseResult::Incomplete(c, n),
        }
    }

    proof fn lemma_outcome(&self, buf: Seq<u8>, i: Input) {
        self.first.lemma_outcome(buf, i);
        if let ParseResult::Data(c, _) = self.first.outcome(buf, i) {
            self.second.lemma_outcome(buf, c);
        }
    }

    fn parse(&self, buf: &[u8], i: Input) -> (r: ParseResult<Q::Output, P::Error>) {
        match self.first.parse(buf, i) {
            ParseResult::Data(c, _) => self.second.parse(buf, c),
            ParseResult::Error(c, e) => ParseResult::Error(c, e),
            ParseResult::Incomplete(c, n) => ParseResult::Incomplete(c, n),
        }
    }
}

impl<P: Parser, E: Copy> Parser for MapErr<P, E> {
    type Output = P::Output;
    type Error = E;

    open spec fn outcome(&self, buf: Seq<u8>, i: Input) -> ParseResult<
        <P::Output as DeepView>::V,
        E,
    > {
        match self.p.outcome(buf, i) {
            ParseResult::Data(c, v) => ParseResult::Data(c, v),
            ParseResult::Error(c, _) => ParseResult::Error(c, self.e),
            ParseResult::Incomplete(c, n) => ParseResult::Incomplete(c, n),
        }
    }

    proof fn lemma_outcome(&self, buf: Seq<u8>, i: Input) {
        self.p.lemma_outcome(buf, i);
    }

    fn parse(&self, buf: &[u8], i: Input) -> (r: ParseResult<P::Output, E>) {
        match self.p.parse(buf, i) {
            ParseResult::Data(c, v) => ParseResult::Data(c, v),
            ParseResult::Error(c, _) => ParseResult::Error(c, self.e),
            ParseResult::Incomplete(c, n) => ParseResult::Incomplete(c, n),
        }
    }
}

} // verus!
