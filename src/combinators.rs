//! Choice, look-ahead and the common repetition shapes.
use vstd::prelude::*;
use vstd::slice::{slice_subrange, slice_to_vec};

use crate::bounded::{self, discard, many_run, sep_run, till_run, Bound};
use crate::input::{Input, Mark, ParseResult};
use crate::parsers::Parser;

verus! {

/// The choice law: `f`, or else `g` from the same position. An error from
/// `f` is undone before `g` runs. A request for more items from `f` is
/// passed on from the starting position unless end of input is set, since
/// with more items `f` might still succeed; at end of input `g` runs.
pub open spec fn or_run<F: Parser, G: Parser<Output = F::Output, Error = F::Error>>(
    f: F,
    g: G,
    buf: Seq<u8>,
    i: Input,
) -> ParseResult<<F::Output as DeepView>::V, F::Error> {
    match f.outcome(buf, i) {
        ParseResult::Data(c, v) => ParseResult::Data(c, v),
        ParseResult::Error(_, _) => g.outcome(buf, i),
        ParseResult::Incomplete(_, n) => if i.end {
            g.outcome(buf, i)
        } else {
            ParseResult::Incomplete(i, n)
        },
    }
}

/// The option law: choice between `f` and a success with `default` that
/// consumes nothing.
pub open spec fn option_run<F: Parser>(f: F, default: <F::Output as DeepView>::V, buf: Seq<u8>, i: Input) -> ParseResult<
    <F::Output as DeepView>::V,
    F::Error,
> {
    match f.outcome(buf, i) {
        ParseResult::Data(c, v) => ParseResult::Data(c, v),
        ParseResult::Error(_, _) => ParseResult::Data(i, default),
        ParseResult::Incomplete(_, n) => if i.end {
            ParseResult::Data(i, default)
        } else {
            ParseResult::Incomplete(i, n)
        },
    }
}

/// The outcome of `f` with the cursor put back where it started.
pub open spec fn look_ahead_run<F: Parser>(f: F, buf: Seq<u8>, i: Input) -> ParseResult<
    <F::Output as DeepView>::V,
    F::Error,
> {
    f.outcome(buf, i).with_input(i)
}

/// The outcome of `f` with, on success, the items it consumed.
pub open spec fn matched_by_run<F: Parser>(f: F, buf: Seq<u8>, i: Input) -> ParseResult<
    (Seq<u8>, <F::Output as DeepView>::V),
    F::Error,
> {
    match f.outcome(buf, i) {
        ParseResult::Data(c, v) => ParseResult::Data(c, (buf.subrange(i.pos as int, c.pos as int), v)),
        ParseResult::Error(c, e) => ParseResult::Error(c, e),
        ParseResult::Incomplete(c, n) => ParseResult::Incomplete(c, n),
    }
}

/// Applies `p` exactly `num` times, collecting the values.
pub fn count<P: Parser>(buf: &[u8], i: Input, num: usize, p: P) -> (r: ParseResult<
    Vec<P::Output>,
    P::Error,
>)
    requires
        i.pos <= buf@.len(),
    ensures
        r.deep() == many_run(p, buf@, i, num, num),
{
    bounded::many(buf, i, Bound::exact(num), p)
}

/// Tries `f`; on an error, or on a request for more items at end of input,
/// succeeds with `default` without consuming anything. Other requests for
/// more items are passed on.
pub fn option<F: Parser>(buf: &[u8], i: Input, f: F, default: F::Output) -> (r: ParseResult<
    F::Output,
    F::Error,
>)
    requires
        i.pos <= buf@.len(),
    ensures
        r.deep() == option_run(f, default.deep_view(), buf@, i),
{
    let m = i.mark();
    match f.parse(buf, i) {
        ParseResult::Data(c, v) => ParseResult::Data(c, v),
        ParseResult::Error(c, _) => ParseResult::Data(c.restore(m), default),
        ParseResult::Incomplete(c, n) => {
            let c = c.restore(m);
            if c.is_end() {
                ParseResult::Data(c, default)
            } else {
                ParseResult::Incomplete(c, n)
            }
        },
    }
}

/// Tries `f`, and `g` from the same position when `f` fails.
pub fn or<F: Parser, G: Parser<Output = F::Output, Error = F::Error>>(
    buf: &[u8],
    i: Input,
    f: F,
    g: G,
) -> (r: ParseResult<F::Output, F::Error>)
    requires
        i.pos <= buf@.len(),
    ensures
        r.deep() == or_run(f, g, buf@, i),
{
    let m = i.mark();
    match f.parse(buf, i) {
        ParseResult::Data(c, v) => ParseResult::Data(c, v),
        ParseResult::Error(c, _) => g.parse(buf, c.restore(m)),
        ParseResult::Incomplete(c, n) => {
            let c = c.restore(m);
            if c.is_end() {
                g.parse(buf, c)
            } else {
                ParseResult::Incomplete(c, n)
            }
        },
    }
}

/// Applies `f` any number of times, collecting the values.
pub fn many<P: Parser>(buf: &[u8], i: Input, f: P) -> (r: ParseResult<Vec<P::Output>, P::Error>)
    requires
        i.pos <= buf@.len(),
    ensures
        r.deep() == many_run(f, buf@, i, 0, usize::MAX),
{
    bounded::many(buf, i, Bound::full(), f)
}

/// Applies `f` at least once, collecting the values.
pub fn many1<P: Parser>(buf: &[u8], i: Input, f: P) -> (r: ParseResult<Vec<P::Output>, P::Error>)
    requires
        i.pos <= buf@.len(),
    ensures
        r.deep() == many_run(f, buf@, i, 1, usize::MAX),
{
    bounded::many(buf, i, Bound::at_least(1), f)
}

/// Applies `p` any number of times with `sep` between the elements.
pub fn sep_by<F: Parser, S: Parser<Error = F::Error>>(buf: &[u8], i: Input, p: F, sep: S) -> (r: ParseResult<
    Vec<F::Output>,
    F::Error,
>)
    requires
        i.pos <= buf@.len(),
    ensures
        r.deep() == sep_run(p, sep, buf@, i, 0, usize::MAX),
{
    bounded::sep_by(buf, i, Bound::full(), p, sep)
}

/// Applies `p` at least once with `sep` between the elements.
pub fn sep_by1<F: Parser, S: Parser<Error = F::Error>>(buf: &[u8], i: Input, p: F, sep: S) -> (r: ParseResult<
    Vec<F::Output>,
    F::Error,
>)
    requires
        i.pos <= buf@.len(),
    ensures
        r.deep() == sep_run(p, sep, buf@, i, 1, usize::MAX),
{
    bounded::sep_by(buf, i, Bound::at_least(1), p, sep)
}

/// Applies `p` until `end` matches, collecting the values of `p` and
/// consuming the match of `end`.
pub fn many_till<P: Parser, N: Parser<Error = P::Error>>(buf: &[u8], i: Input, p: P, end: N) -> (r: ParseResult<
    Vec<P::Output>,
    P::Error,
>)
    requires
        i.pos <= buf@.len(),
    ensures
        r.deep() == till_run(p, end, buf@, i, 0, usize::MAX),
{
    bounded::many_till(buf, i, Bound::full(), p, end)
}

/// Applies `f` any number of times, dropping the values.
pub fn skip_many<P: Parser>(buf: &[u8], i: Input, f: P) -> (r: ParseResult<(), P::Error>)
    requires
        i.pos <= buf@.len(),
    ensures
        r == discard(many_run(f, buf@, i, 0, usize::MAX)),
{
    bounded::skip_many(buf, i, Bound::full(), f)
}

/// Applies `f` at least once, dropping the values.
pub fn skip_many1<P: Parser>(buf: &[u8], i: Input, f: P) -> (r: ParseResult<(), P::Error>)
    requires
        i.pos <= buf@.len(),
    ensures
        r == discard(many_run(f, buf@, i, 1, usize::MAX)),
{
    bounded::skip_many(buf, i, Bound::at_least(1), f)
}

/// Runs `f` and, on success, also returns the items it consumed.
pub fn matched_by<F: Parser>(buf: &[u8], i: Input, f: F) -> (r: ParseResult<
    (Vec<u8>, F::Output),
    F::Error,
>)
    requires
        i.pos <= buf@.len(),
    ensures
        r.deep() == matched_by_run(f, buf@, i),
{
    match f.parse(buf, i) {
        ParseResult::Data(c, v) => {
            let items = slice_to_vec(slice_subrange(buf, i.pos, c.pos));
            assert(items.deep_view() =~= buf@.subrange(i.pos as int, c.pos as int));
            ParseResult::Data(c, (items, v))
        },
        ParseResult::Error(c, e) => ParseResult::Error(c, e),
        ParseResult::Incomplete(c, n) => ParseResult::Incomplete(c, n),
    }
}

/// Runs `f` and puts the cursor back where it started, whatever the
/// outcome, reporting the value, the error or the request of `f`.
pub fn look_ahead<F: Parser>(buf: &[u8], i: Input, f: F) -> (r: ParseResult<F::Output, F::Error>)
    requires
        i.pos <= buf@.len(),
    ensures
        r.deep() == look_ahead_run(f, buf@, i),
{
    let m = i.mark();
    match f.parse(buf, i) {
        ParseResult::Data(c, t) => ParseResult::Data(c.restore(m), t),
        ParseResult::Error(c, e) => ParseResult::Error(c.restore(m), e),
        ParseResult::Incomplete(c, n) => ParseResult::Incomplete(c.restore(m), n),
    }
}

/// Look-ahead consumes nothing: whatever `f` does, the cursor after
/// `look_ahead(f)` is the cursor before it.
pub proof fn lemma_look_ahead_keeps_position<F: Parser>(f: F, buf: Seq<u8>, i: Input)
    ensures
        look_ahead_run(f, buf, i).spec_input() == i,
{
}

/// Restoring a mark is exact and idempotent: restoring, then marking and
/// restoring again at once, gives the same cursor, so any parser run after
/// it has the same outcome.
pub proof fn lemma_restore_idempotent<P: Parser>(p: P, buf: Seq<u8>, i: Input, m: Mark)
    ensures
        i.spec_restore(m).pos == m.pos,
        i.spec_restore(m).end == i.end,
        ({
            let j = i.spec_restore(m);
            let k = j.spec_restore(j.spec_mark());
            k == j && p.outcome(buf, k) == p.outcome(buf, j)
        }),
{
}

} // verus!
