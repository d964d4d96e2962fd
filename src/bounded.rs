//! Repetition bounded by a (min, max) count, shared by `many`, `skip_many`,
//! `sep_by` and `many_till`.
use vstd::prelude::*;

use crate::input::{Input, ParseResult};
use crate::parsers::Parser;

verus! {

/// A repetition bound: at least `min` and at most `max` successes, both
/// inclusive. An unbounded shape has `max == usize::MAX`.
#[derive(Clone, Copy, Debug, PartialEq, Eq, Structural)]
pub struct Bound {
    pub min: usize,
    pub max: usize,
}

impl Bound {
    pub open spec fn wf(self) -> bool {
        self.min <= self.max
    }

    /// Exactly `n` repetitions.
    pub fn exact(n: usize) -> (r: Bound)
        ensures
            r == (Bound { min: n, max: n }),
            r.wf(),
    {
        Bound { min: n, max: n }
    }

    /// At least `n` repetitions, with no upper bound.
    pub fn at_least(n: usize) -> (r: Bound)
        ensures
            r == (Bound { min: n, max: usize::MAX }),
            r.wf(),
    {
        Bound { min: n, max: usize::MAX }
    }

    /// Fewer than `n` repetitions (at most none when `n` is 0).
    pub fn at_most(n: usize) -> (r: Bound)
        ensures
            r == (Bound { min: 0, max: if n == 0 { 0 } else { (n - 1) as usize } }),
            r.wf(),
    {
        Bound { min: 0, max: if n == 0 { 0 } else { n - 1 } }
    }

    /// The closed-open count range `[start, end)`. The empty range `0..0`
    /// allows no repetition; any other empty range allows no count at all
    /// and is refused.
    pub fn range(start: usize, end: usize) -> (r: Bound)
        requires
            start <= end,
            start < end || start == 0,
        ensures
            r == (Bound { min: start, max: if end == 0 { 0 } else { (end - 1) as usize } }),
            r.wf(),
    {
        Bound { min: start, max: if end == 0 { 0 } else { end - 1 } }
    }

    /// Any number of repetitions.
    pub fn full() -> (r: Bound)
        ensures
            r == (Bound { min: 0, max: usize::MAX }),
            r.wf(),
    {
        Bound { min: 0, max: usize::MAX }
    }
}

/// A description of a repetition count that turns a parser into its
/// bounded repetition. Implemented by [`Bound`], by `usize` (exactly that
/// many) and by `Range<usize>` (the closed-open count range).
pub trait BoundedMany: Sized {
    /// Whether the description admits at least one count.
    spec fn valid(&self) -> bool;

    spec fn spec_bound(&self) -> Bound;

    /// The repetition of `f` within this bound, as a parser.
    fn many<P: Parser>(self, f: P) -> (r: Many<P>)
        requires
            self.valid(),
        ensures
            r.bound == self.spec_bound(),
            r.bound.wf(),
            r.p == f,
    ;
}

impl BoundedMany for Bound {
    open spec fn valid(&self) -> bool {
        self.wf()
    }

    open spec fn spec_bound(&self) -> Bound {
        *self
    }

    fn many<P: Parser>(self, f: P) -> (r: Many<P>) {
        Many { bound: self, p: f }
    }
}

impl BoundedMany for usize {
    open spec fn valid(&self) -> bool {
        true
    }

    open spec fn spec_bound(&self) -> Bound {
        Bound { min: *self, max: *self }
    }

    fn many<P: Parser>(self, f: P) -> (r: Many<P>) {
        Many { bound: Bound::exact(self), p: f }
    }
}

impl BoundedMany for core::ops::Range<usize> {
    open spec fn valid(&self) -> bool {
        self.start <= self.end && (self.start < self.end || self.start == 0)
    }

    open spec fn spec_bound(&self) -> Bound {
        Bound { min: self.start, max: if self.end == 0 { 0 } else { (self.end - 1) as usize } }
    }

    fn many<P: Parser>(self, f: P) -> (r: Many<P>) {
        Many { bound: Bound::range(self.start, self.end), p: f }
    }
}

/// One less, floored at zero.
pub open spec fn dec(n: usize) -> usize {
    if n == 0 {
        0
    } else {
        (n - 1) as usize
    }
}

/// Puts `v` in front of the values of a successful outcome.
pub open spec fn prepend<V, E>(v: V, r: ParseResult<Seq<V>, E>) -> ParseResult<Seq<V>, E> {
    match r {
        ParseResult::Data(c, vs) => ParseResult::Data(c, seq![v] + vs),
        _ => r,
    }
}

/// Puts `acc` in front of the values of a successful outcome.
pub open spec fn join<V, E>(acc: Seq<V>, r: ParseResult<Seq<V>, E>) -> ParseResult<Seq<V>, E> {
    match r {
        ParseResult::Data(c, vs) => ParseResult::Data(c, acc + vs),
        _ => r,
    }
}

/// Drops the value of a successful outcome.
pub open spec fn discard<V, E>(r: ParseResult<V, E>) -> ParseResult<(), E> {
    match r {
        ParseResult::Data(c, _) => ParseResult::Data(c, ()),
        ParseResult::Error(c, e) => ParseResult::Error(c, e),
        ParseResult::Incomplete(c, n) => ParseResult::Incomplete(c, n),
    }
}

/// What a repetition does when an attempt at `i` did not succeed: with the
/// minimum met, an error (or a request for more items at end of input)
/// stops the repetition at `i`; otherwise the outcome is passed on.
pub open spec fn stop_or_fail<V, W, E>(r: ParseResult<W, E>, i: Input, min: usize) -> ParseResult<
    Seq<V>,
    E,
> {
    match r {
        ParseResult::Data(c, _) => ParseResult::Data(c, Seq::empty()),
        ParseResult::Error(c, e) => if min == 0 {
            ParseResult::Data(i, Seq::empty())
        } else {
            ParseResult::Error(c, e)
        },
        ParseResult::Incomplete(c, n) => if i.end && min == 0 {
            ParseResult::Data(i, Seq::empty())
        } else {
            ParseResult::Incomplete(c, n)
        },
    }
}

/// The repetition law: attempt `p` at most `max` times, stopping early on
/// the first attempt that does not succeed.
pub open spec fn many_run<P: Parser>(p: P, buf: Seq<u8>, i: Input, min: usize, max: usize) -> ParseResult<
    Seq<<P::Output as DeepView>::V>,
    P::Error,
>
    decreases max,
{
    if max == 0 {
        ParseResult::Data(i, Seq::empty())
    } else {
        match p.outcome(buf, i) {
            ParseResult::Data(c, v) => prepend(v, many_run(p, buf, c, dec(min), (max - 1) as usize)),
            r => stop_or_fail(r, i, min),
        }
    }
}

/// The cursor law for a repetition, from the law of its element parser.
pub proof fn lemma_many_run_cursor<P: Parser>(p: P, buf: Seq<u8>, i: Input, min: usize, max: usize)
    requires
        i.pos <= buf.len() <= usize::MAX,
    ensures
        i.pos <= many_run(p, buf, i, min, max).spec_input().pos <= buf.len(),
        many_run(p, buf, i, min, max).spec_input().end == i.end,
    decreases max,
{
    if max > 0 {
        p.lemma_outcome(buf, i);
        if let ParseResult::Data(c, v) = p.outcome(buf, i) {
            lemma_many_run_cursor(p, buf, c, dec(min), (max - 1) as usize);
        }
    }
}

proof fn lemma_join_prepend<V, E>(acc: Seq<V>, v: V, r: ParseResult<Seq<V>, E>)
    ensures
        join(acc, prepend(v, r)) == join(acc.push(v), r),
{
    if let ParseResult::Data(c, vs) = r {
        assert(acc + (seq![v] + vs) =~= acc.push(v) + vs);
    }
}

proof fn lemma_join_empty<V, E>(acc: Seq<V>, c: Input)
    ensures
        join(acc, ParseResult::<Seq<V>, E>::Data(c, Seq::empty())) == ParseResult::<Seq<V>, E>::Data(c, acc),
{
    assert(acc + Seq::<V>::empty() =~= acc);
}

/// Applies `p` repeatedly within `bound`, collecting the values.
///
/// Each attempt starts from a mark. A success counts towards both bounds and
/// the repetition stops without a further attempt once `max` is reached. A
/// failed attempt with the minimum met restores the mark and ends the
/// repetition successfully; before the minimum it is passed on where it
/// happened. A request for more items is passed on, unless end of input is
/// set and the minimum is met, in which case it ends the repetition like an
/// error.
pub fn many<P: Parser>(buf: &[u8], i: Input, bound: Bound, p: P) -> (r: ParseResult<
    Vec<P::Output>,
    P::Error,
>)
    requires
        i.pos <= buf@.len(),
        bound.wf(),
    ensures
        r.deep() == many_run(p, buf@, i, bound.min, bound.max),
        i.pos <= r.spec_input().pos <= buf@.len(),
        r.spec_input().end == i.end,
{
    run_many(buf, i, bound, &p)
}

fn run_many<P: Parser>(buf: &[u8], i: Input, bound: Bound, p: &P) -> (r: ParseResult<
    Vec<P::Output>,
    P::Error,
>)
    requires
        i.pos <= buf@.len(),
    ensures
        r.deep() == many_run(*p, buf@, i, bound.min, bound.max),
        i.pos <= r.spec_input().pos <= buf@.len(),
        r.spec_input().end == i.end,
{
    let mut acc: Vec<P::Output> = Vec::new();
    let mut cur = i;
    let mut min = bound.min;
    let mut max = bound.max;
    proof {
        assert(acc.deep_view() =~= Seq::<<P::Output as DeepView>::V>::empty());
        assert(join(acc.deep_view(), many_run(*p, buf@, cur, min, max)) == many_run(*p, buf@, cur, min, max)) by {
            if let ParseResult::Data(c, vs) = many_run(*p, buf@, cur, min, max) {
                assert(acc.deep_view() + vs =~= vs);
            }
        }
    }
    loop
        invariant
            i.pos <= cur.pos <= buf@.len(),
            cur.end == i.end,
            many_run(*p, buf@, i, bound.min, bound.max) == join(
                acc.deep_view(),
                many_run(*p, buf@, cur, min, max),
            ),
        decreases max,
    {
        if max == 0 {
            proof {
                lemma_join_empty::<_, P::Error>(acc.deep_view(), cur);
            }
            return ParseResult::Data(cur, acc);
        }
        let m = cur.mark();
        match p.parse(buf, cur) {
            ParseResult::Data(c, v) => {
                let ghost old_acc = acc.deep_view();
                let ghost vv = v.deep_view();
                acc.push(v);
                proof {
                    assert(acc.deep_view() =~= old_acc.push(vv));
                    lemma_join_prepend(old_acc, vv, many_run(*p, buf@, c, dec(min), (max - 1) as usize));
                }
                min = if min == 0 {
                    0
                } else {
                    min - 1
                };
                max = max - 1;
                cur = c;
            },
            ParseResult::Error(c, e) => {
                if min == 0 {
                    proof {
                        lemma_join_empty::<_, P::Error>(acc.deep_view(), cur);
                    }
                    return ParseResult::Data(c.restore(m), acc);
                } else {
                    return ParseResult::Error(c, e);
                }
            },
            ParseResult::Incomplete(c, n) => {
                if cur.end && min == 0 {
                    proof {
                        lemma_join_empty::<_, P::Error>(acc.deep_view(), cur);
                    }
                    return ParseResult::Data(c.restore(m), acc);
                } else {
                    return ParseResult::Incomplete(c, n);
                }
            },
        }
    }
}

/// The repetition of a parser within a bound, as a parser of its own.
#[derive(Clone, Copy, Debug)]
pub struct Many<P> {
    pub bound: Bound,
    pub p: P,
}

impl<P: Parser> Parser for Many<P> {
    type Output = Vec<P::Output>;
    type Error = P::Error;

    open spec fn outcome(&self, buf: Seq<u8>, i: Input) -> ParseResult<
        Seq<<P::Output as DeepView>::V>,
        P::Error,
    > {
        many_run(self.p, buf, i, self.bound.min, self.bound.max)
    }

    proof fn lemma_outcome(&self, buf: Seq<u8>, i: Input) {
        lemma_many_run_cursor(self.p, buf, i, self.bound.min, self.bound.max);
    }

    fn parse(&self, buf: &[u8], i: Input) -> (r: ParseResult<Vec<P::Output>, P::Error>) {
        run_many(buf, i, self.bound, &self.p)
    }
}

proof fn lemma_discard_prepend<V, E>(v: V, r: ParseResult<Seq<V>, E>)
    ensures
        discard(prepend(v, r)) == discard(r),
{
}

/// Applies `p` repeatedly within `bound`, dropping the values. Consumption
/// and stopping points are those of [`many`].
pub fn skip_many<P: Parser>(buf: &[u8], i: Input, bound: Bound, p: P) -> (r: ParseResult<(), P::Error>)
    requires
        i.pos <= buf@.len(),
        bound.wf(),
    ensures
        r == discard(many_run(p, buf@, i, bound.min, bound.max)),
        i.pos <= r.spec_input().pos <= buf@.len(),
        r.spec_input().end == i.end,
{
    let mut cur = i;
    let mut min = bound.min;
    let mut max = bound.max;
    loop
        invariant
            i.pos <= cur.pos <= buf@.len(),
            cur.end == i.end,
            discard(many_run(p, buf@, i, bound.min, bound.max)) == discard(
                many_run(p, buf@, cur, min, max),
            ),
        decreases max,
    {
        if max == 0 {
            return ParseResult::Data(cur, ());
        }
        let m = cur.mark();
        match p.parse(buf, cur) {
            ParseResult::Data(c, v) => {
                proof {
                    lemma_discard_prepend(
                        v.deep_view(),
                        many_run(p, buf@, c, dec(min), (max - 1) as usize),
                    );
                }
                min = if min == 0 {
                    0
                } else {
                    min - 1
                };
                max = max - 1;
                cur = c;
            },
            ParseResult::Error(c, e) => {
                if min == 0 {
                    return ParseResult::Data(c.restore(m), ());
                } else {
                    return ParseResult::Error(c, e);
                }
            },
            ParseResult::Incomplete(c, n) => {
                if cur.end && min == 0 {
                    return ParseResult::Data(c.restore(m), ());
                } else {
                    return ParseResult::Incomplete(c, n);
                }
            },
        }
    }
}

/// The unit repeated by `sep_by`: the element alone on the first iteration
/// (`item` false), the separator followed by the element afterwards.
#[derive(Debug)]
pub struct SepByInnerParserCtor<F, S> {
    pub item: bool,
    pub f: F,
    pub sep: S,
}

impl<F: Parser, S: Parser<Error = F::Error>> Parser for SepByInnerParserCtor<F, S> {
    type Output = F::Output;
    type Error = F::Error;

    open spec fn outcome(&self, buf: Seq<u8>, i: Input) -> ParseResult<
        <F::Output as DeepView>::V,
        F::Error,
    > {
        if self.item {
            match self.sep.outcome(buf, i) {
                ParseResult::Data(c, _) => self.f.outcome(buf, c),
                ParseResult::Error(c, e) => ParseResult::Error(c, e),
                ParseResult::Incomplete(c, n) => ParseResult::Incomplete(c, n),
            }
        } else {
            self.f.outcome(buf, i)
        }
    }

    proof fn lemma_outcome(&self, buf: Seq<u8>, i: Input) {
        if self.item {
            self.sep.lemma_outcome(buf, i);
            if let ParseResult::Data(c, _) = self.sep.outcome(buf, i) {
                self.f.lemma_outcome(buf, c);
            }
        } else {
            self.f.lemma_outcome(buf, i);
        }
    }

    fn parse(&self, buf: &[u8], i: Input) -> (r: ParseResult<F::Output, F::Error>) {
        if self.item {
            match self.sep.parse(buf, i) {
                ParseResult::Data(c, _) => self.f.parse(buf, c),
                ParseResult::Error(c, e) => ParseResult::Error(c, e),
                ParseResult::Incomplete(c, n) => ParseResult::Incomplete(c, n),
            }
        } else {
            self.f.parse(buf, i)
        }
    }
}

/// The separated repetition law: the first element alone, then the
/// (separator, element) unit under the repetition law, with the counts
/// measured in elements.
pub open spec fn sep_run<F: Parser, S: Parser<Error = F::Error>>(
    f: F,
    sep: S,
    buf: Seq<u8>,
    i: Input,
    min: usize,
    max: usize,
) -> ParseResult<Seq<<F::Output as DeepView>::V>, F::Error> {
    if max == 0 {
        ParseResult::Data(i, Seq::empty())
    } else {
        match f.outcome(buf, i) {
            ParseResult::Data(c, v) => prepend(
                v,
                many_run(
                    SepByInnerParserCtor { item: true, f, sep },
                    buf,
                    c,
                    dec(min),
                    (max - 1) as usize,
                ),
            ),
            r => stop_or_fail(r, i, min),
        }
    }
}

/// Applies `f` repeatedly within `bound`, with `sep` between elements. A
/// separator or element that fails after the minimum is met stops the
/// repetition before that separator.
pub fn sep_by<F: Parser, S: Parser<Error = F::Error>>(
    buf: &[u8],
    i: Input,
    bound: Bound,
    f: F,
    sep: S,
) -> (r: ParseResult<Vec<F::Output>, F::Error>)
    requires
        i.pos <= buf@.len(),
        bound.wf(),
    ensures
        r.deep() == sep_run(f, sep, buf@, i, bound.min, bound.max),
        i.pos <= r.spec_input().pos <= buf@.len(),
        r.spec_input().end == i.end,
{
    if bound.max == 0 {
        let out: Vec<F::Output> = Vec::new();
        assert(out.deep_view() =~= Seq::<<F::Output as DeepView>::V>::empty());
        return ParseResult::Data(i, out);
    }
    let ghost (gf, gs) = (f, sep);
    let mut unit = SepByInnerParserCtor { item: false, f, sep };
    let m = i.mark();
    match unit.parse(buf, i) {
        ParseResult::Data(c, v) => {
            unit.item = true;
            let min = if bound.min == 0 {
                0
            } else {
                bound.min - 1
            };
            let rest = run_many(buf, c, Bound { min, max: bound.max - 1 }, &unit);
            assert(unit == SepByInnerParserCtor { item: true, f: gf, sep: gs });
            match rest {
                ParseResult::Data(c2, vs) => {
                    let ghost old_vs = vs.deep_view();
                    let ghost vv = v.deep_view();
                    let mut vs = vs;
                    vs.insert(0, v);
                    assert(vs.deep_view() =~= seq![vv] + old_vs);
                    ParseResult::Data(c2, vs)
                },
                ParseResult::Error(c2, e) => ParseResult::Error(c2, e),
                ParseResult::Incomplete(c2, n) => ParseResult::Incomplete(c2, n),
            }
        },
        ParseResult::Error(c, e) => {
            if bound.min == 0 {
                let out: Vec<F::Output> = Vec::new();
                assert(out.deep_view() =~= Seq::<<F::Output as DeepView>::V>::empty());
                ParseResult::Data(c.restore(m), out)
            } else {
                ParseResult::Error(c, e)
            }
        },
        ParseResult::Incomplete(c, n) => {
            if i.end && bound.min == 0 {
                let out: Vec<F::Output> = Vec::new();
                assert(out.deep_view() =~= Seq::<<F::Output as DeepView>::V>::empty());
                ParseResult::Data(c.restore(m), out)
            } else {
                ParseResult::Incomplete(c, n)
            }
        },
    }
}

/// Whether `many_till` attempts an element at `i`: always before the
/// minimum is met, and afterwards only when the end parser did not match
/// and the maximum is not reached.
pub open spec fn till_tries_element<N: Parser>(end: N, buf: Seq<u8>, i: Input, min: usize, max: usize) -> bool {
    if min > 0 && max > 0 {
        true
    } else {
        match end.outcome(buf, i) {
            ParseResult::Data(_, _) => false,
            ParseResult::Error(_, _) => max > 0,
            ParseResult::Incomplete(_, _) => i.end && max > 0,
        }
    }
}

/// The law of `many_till`: once the minimum is met, `end` is attempted
/// before each element and a match ends the repetition, consuming it. A
/// failed `end` is undone and an element attempted instead, unless the
/// maximum is reached, where the failure of `end` is the outcome. A failed
/// element is the outcome as it stands.
pub open spec fn till_run<P: Parser, N: Parser<Error = P::Error>>(
    p: P,
    end: N,
    buf: Seq<u8>,
    i: Input,
    min: usize,
    max: usize,
) -> ParseResult<Seq<<P::Output as DeepView>::V>, P::Error>
    decreases max,
{
    if till_tries_element(end, buf, i, min, max) {
        match p.outcome(buf, i) {
            ParseResult::Data(c, v) => prepend(
                v,
                till_run(p, end, buf, c, dec(min), (max - 1) as usize),
            ),
            ParseResult::Error(c, e) => ParseResult::Error(c, e),
            ParseResult::Incomplete(c, n) => ParseResult::Incomplete(c, n),
        }
    } else {
        match end.outcome(buf, i) {
            ParseResult::Data(c, _) => ParseResult::Data(c, Seq::empty()),
            ParseResult::Error(c, e) => ParseResult::Error(c, e),
            ParseResult::Incomplete(c, n) => ParseResult::Incomplete(c, n),
        }
    }
}

/// Applies `p` within `bound` until `end` matches, collecting the values of
/// `p` and consuming the match of `end`.
pub fn many_till<P: Parser, N: Parser<Error = P::Error>>(
    buf: &[u8],
    i: Input,
    bound: Bound,
    p: P,
    end: N,
) -> (r: ParseResult<Vec<P::Output>, P::Error>)
    requires
        i.pos <= buf@.len(),
        bound.wf(),
    ensures
        r.deep() == till_run(p, end, buf@, i, bound.min, bound.max),
        i.pos <= r.spec_input().pos <= buf@.len(),
        r.spec_input().end == i.end,
{
    let mut acc: Vec<P::Output> = Vec::new();
    let mut cur = i;
    let mut min = bound.min;
    let mut max = bound.max;
    proof {
        assert(acc.deep_view() =~= Seq::<<P::Output as DeepView>::V>::empty());
        assert(join(acc.deep_view(), till_run(p, end, buf@, cur, min, max)) == till_run(
            p,
            end,
            buf@,
            cur,
            min,
            max,
        )) by {
            if let ParseResult::Data(c, vs) = till_run(p, end, buf@, cur, min, max) {
                assert(acc.deep_view() + vs =~= vs);
            }
        }
    }
    loop
        invariant
            i.pos <= cur.pos <= buf@.len(),
            cur.end == i.end,
            till_run(p, end, buf@, i, bound.min, bound.max) == join(
                acc.deep_view(),
                till_run(p, end, buf@, cur, min, max),
            ),
        decreases max,
    {
        if min == 0 || max == 0 {
            match end.parse(buf, cur) {
                ParseResult::Data(c, _) => {
                    proof {
                        lemma_join_empty::<_, P::Error>(acc.deep_view(), c);
                    }
                    return ParseResult::Data(c, acc);
                },
                ParseResult::Error(c, e) => {
                    if max == 0 {
                        return ParseResult::Error(c, e);
                    }
                },
                ParseResult::Incomplete(c, n) => {
                    if !cur.end || max == 0 {
                        return ParseResult::Incomplete(c, n);
                    }
                },
            }
        }
        match p.parse(buf, cur) {
            ParseResult::Data(c, v) => {
                let ghost old_acc = acc.deep_view();
                let ghost vv = v.deep_view();
                acc.push(v);
                proof {
                    assert(acc.deep_view() =~= old_acc.push(vv));
                    lemma_join_prepend(
                        old_acc,
                        vv,
                        till_run(p, end, buf@, c, dec(min), (max - 1) as usize),
                    );
                }
                min = if min == 0 {
                    0
                } else {
                    min - 1
                };
                max = max - 1;
                cur = c;
            },
            ParseResult::Error(c, e) => {
                return ParseResult::Error(c, e);
            },
            ParseResult::Incomplete(c, n) => {
                return ParseResult::Incomplete(c, n);
            },
        }
    }
}

/// An optional parser: with none, it succeeds with `None` and consumes
/// nothing; with one, it runs it and wraps its value in `Some`.
#[derive(Debug)]
pub struct MaybeAParser<P>(pub Option<P>);

impl<P: Parser> MaybeAParser<P> {
    /// Wraps a parser.
    pub fn parser(p: P) -> (r: MaybeAParser<P>)
        ensures
            r.0 == Some(p),
    {
        MaybeAParser(Some(p))
    }

    /// The empty optional parser.
    pub fn none() -> (r: MaybeAParser<P>)
        ensures
            r.0.is_none(),
    {
        MaybeAParser(None)
    }
}

impl<P: Parser> Parser for MaybeAParser<P> {
    type Output = Option<P::Output>;
    type Error = P::Error;

    open spec fn outcome(&self, buf: Seq<u8>, i: Input) -> ParseResult<
        Option<<P::Output as DeepView>::V>,
        P::Error,
    > {
        match self.0 {
            Some(p) => match p.outcome(buf, i) {
                ParseResult::Data(c, v) => ParseResult::Data(c, Some(v)),
                ParseResult::Error(c, e) => ParseResult::Error(c, e),
                ParseResult::Incomplete(c, n) => ParseResult::Incomplete(c, n),
            },
            None => ParseResult::Data(i, None),
        }
    }

    proof fn lemma_outcome(&self, buf: Seq<u8>, i: Input) {
        if let Some(p) = self.0 {
            p.lemma_outcome(buf, i);
        }
    }

    fn parse(&self, buf: &[u8], i: Input) -> (r: ParseResult<Option<P::Output>, P::Error>) {
        match &self.0 {
            Some(p) => match p.parse(buf, i) {
                ParseResult::Data(c, v) => ParseResult::Data(c, Some(v)),
                ParseResult::Error(c, e) => ParseResult::Error(c, e),
                ParseResult::Incomplete(c, n) => ParseResult::Incomplete(c, n),
            },
            None => ParseResult::Data(i, None),
        }
    }
}

/// A repetition within a well-formed bound that succeeds has at least `min`
/// and at most `max` values: it never stops short of the minimum without
/// reporting an error or a request for more items, and never goes past the
/// maximum.
pub proof fn lemma_many_within_bound<P: Parser>(p: P, buf: Seq<u8>, i: Input, bound: Bound)
    requires
        bound.wf(),
    ensures
        many_run(p, buf, i, bound.min, bound.max) is Data ==> {
            let vs = many_run(p, buf, i, bound.min, bound.max)->Data_1;
            bound.min <= vs.len() <= bound.max
        },
    decreases bound.max,
{
    if bound.max > 0 {
        if let ParseResult::Data(c, v) = p.outcome(buf, i) {
            let b2 = Bound { min: dec(bound.min), max: (bound.max - 1) as usize };
            lemma_many_within_bound(p, buf, c, b2);
        }
    }
}

/// A separated repetition within a well-formed bound that succeeds has
/// between `min` and `max` elements; separators are not counted.
pub proof fn lemma_sep_by_within_bound<F: Parser, S: Parser<Error = F::Error>>(
    f: F,
    sep: S,
    buf: Seq<u8>,
    i: Input,
    bound: Bound,
)
    requires
        bound.wf(),
    ensures
        sep_run(f, sep, buf, i, bound.min, bound.max) is Data ==> {
            let vs = sep_run(f, sep, buf, i, bound.min, bound.max)->Data_1;
            bound.min <= vs.len() <= bound.max
        },
{
    if bound.max > 0 {
        if let ParseResult::Data(c, v) = f.outcome(buf, i) {
            let b2 = Bound { min: dec(bound.min), max: (bound.max - 1) as usize };
            lemma_many_within_bound(SepByInnerParserCtor { item: true, f, sep }, buf, c, b2);
        }
    }
}

/// A `many_till` within a well-formed bound that succeeds has between `min`
/// and `max` elements.
pub proof fn lemma_many_till_within_bound<P: Parser, N: Parser<Error = P::Error>>(
    p: P,
    end: N,
    buf: Seq<u8>,
    i: Input,
    bound: Bound,
)
    requires
        bound.wf(),
    ensures
        till_run(p, end, buf, i, bound.min, bound.max) is Data ==> {
            let vs = till_run(p, end, buf, i, bound.min, bound.max)->Data_1;
            bound.min <= vs.len() <= bound.max
        },
    decreases bound.max,
{
    if till_tries_element(end, buf, i, bound.min, bound.max) {
        if let ParseResult::Data(c, v) = p.outcome(buf, i) {
            let b2 = Bound { min: dec(bound.min), max: (bound.max - 1) as usize };
            lemma_many_till_within_bound(p, end, buf, c, b2);
        }
    }
}

} // verus!
