//! Item buffers filled from a data source: a fixed-size window and a
//! growable one.
use vstd::prelude::*;
use vstd::slice::{slice_subrange, slice_to_vec};

verus! {

/// The capacity of a [`FixedSizeBuffer`] made with [`FixedSizeBuffer::new`].
pub const DEFAULT_BUFFER_SIZE: usize = 6144;

/// A failure reported by a data source.
#[derive(Clone, Copy, Debug, PartialEq, Eq, Structural)]
pub struct SourceError;

/// Something that hands out items on request.
///
/// `last_max()` and `last()` record the most recent request: how many items
/// were asked for, and what was handed out. Their default bodies only let
/// an implementation outside verified code compile; `read`'s contract can
/// be met only by an implementation that defines both.
pub trait DataSource {
    type Item;

    closed spec fn last_max(&self) -> usize {
        0
    }

    closed spec fn last(&self) -> Seq<Self::Item> {
        Seq::empty()
    }

    /// Hands out at most `max` items. An empty result means that nothing is
    /// available now, for the moment or for good.
    fn read(&mut self, max: usize) -> (r: Result<Vec<Self::Item>, SourceError>)
        ensures
            final(self).last_max() == max,
            r matches Ok(v) ==> v@.len() <= max && final(self).last() == v@,
    ;
}

/// A contiguous item store with a populated length and a consumed offset.
///
/// The model is `items()`, every populated item whether consumed or not,
/// `used()`, how many of them are consumed, and `spec_capacity()`. Parsers see
/// the window `items()[used()..]`.
pub trait Buffer<I: Copy> {
    spec fn items(&self) -> Seq<I>;

    spec fn used(&self) -> nat;

    spec fn spec_capacity(&self) -> nat;

    spec fn wf(&self) -> bool;

    /// A well-formed buffer has `used <= populated <= capacity`.
    proof fn lemma_wf(&self)
        requires
            self.wf(),
        ensures
            self.used() <= self.items().len() <= self.spec_capacity() <= usize::MAX,
    ;

    /// Asks `s` for as many items as the free tail holds and appends what it
    /// hands out. Returns how many items were appended.
    fn fill<S: DataSource<Item = I>>(&mut self, s: &mut S) -> (r: Result<usize, SourceError>)
        requires
            old(self).wf(),
        ensures
            final(self).wf(),
            final(self).used() <= final(self).items().len() <= final(self).spec_capacity(),
            final(self).used() == old(self).used(),
            final(self).spec_capacity() == old(self).spec_capacity(),
            final(s).last_max() == old(self).spec_capacity() - old(self).items().len(),
            r matches Ok(n) ==> final(self).items() == old(self).items() + final(s).last() && n
                == final(s).last().len(),
            r is Err ==> final(self).items() == old(self).items(),
    ;

    /// Appends `v` after the populated items. Returns how many were appended.
    fn append(&mut self, v: Vec<I>) -> (n: usize)
        requires
            old(self).wf(),
            old(self).items().len() + v@.len() <= old(self).spec_capacity(),
        ensures
            final(self).wf(),
            final(self).items() == old(self).items() + v@,
            n == v@.len(),
            final(self).used() == old(self).used(),
            final(self).spec_capacity() == old(self).spec_capacity(),
    ;

    /// Tries to make room for `n` more items after the populated region,
    /// moving the unconsumed items to the front only when the tail is too
    /// short. The unconsumed items are kept, in order.
    fn request_space(&mut self, n: usize)
        requires
            old(self).wf(),
        ensures
            final(self).wf(),
            final(self).used() <= final(self).items().len() <= final(self).spec_capacity(),
            window(final(self).items(), final(self).used()) == window(
                old(self).items(),
                old(self).used(),
            ),
            final(self).spec_capacity() >= old(self).spec_capacity(),
    ;

    /// Marks `n` more items as consumed.
    fn consume(&mut self, n: usize)
        requires
            old(self).wf(),
            old(self).used() + n <= old(self).items().len(),
        ensures
            final(self).wf(),
            final(self).used() <= final(self).items().len() <= final(self).spec_capacity(),
            final(self).items() == old(self).items(),
            final(self).used() == old(self).used() + n,
            final(self).spec_capacity() == old(self).spec_capacity(),
    ;

    /// The number of unconsumed items.
    fn len(&self) -> (r: usize)
        requires
            self.wf(),
        ensures
            r == self.items().len() - self.used(),
    ;

    /// True when no unconsumed item is left.
    fn is_empty(&self) -> (r: bool)
        requires
            self.wf(),
        ensures
            r == (self.items().len() == self.used()),
    ;

    /// The most items the buffer can hold now.
    fn capacity(&self) -> (r: usize)
        requires
            self.wf(),
        ensures
            r == self.spec_capacity(),
    ;

    /// The unconsumed items.
    fn window(&self) -> (r: &[I])
        requires
            self.wf(),
        ensures
            r@ == window(self.items(), self.used()),
    ;
}

/// The unconsumed part of a buffer's items.
pub open spec fn window<I>(items: Seq<I>, used: nat) -> Seq<I> {
    items.subrange(used as int, items.len() as int)
}

/// A buffer whose capacity is fixed when it is made: a bounded sliding
/// window over the data.
#[derive(Debug)]
pub struct FixedSizeBuffer<I: Copy> {
    /// The populated items, consumed or not.
    buffer: Vec<I>,
    /// How many of the populated items are consumed.
    used: usize,
    /// The most items the buffer holds.
    size: usize,
}

impl<I: Copy> FixedSizeBuffer<I> {
    /// A fixed-size buffer of the default size.
    pub fn new() -> (r: Self)
        ensures
            r.wf(),
            r.items() == Seq::<I>::empty(),
            r.used() == 0,
            r.spec_capacity() == DEFAULT_BUFFER_SIZE,
    {
        Self::with_size(DEFAULT_BUFFER_SIZE)
    }

    /// A fixed-size buffer holding at most `size` items.
    pub fn with_size(size: usize) -> (r: Self)
        requires
            size > 0,
        ensures
            r.wf(),
            r.items() == Seq::<I>::empty(),
            r.used() == 0,
            r.spec_capacity() == size,
    {
        FixedSizeBuffer { buffer: Vec::with_capacity(size), used: 0, size }
    }
}

impl<I: Copy> Buffer<I> for FixedSizeBuffer<I> {
    closed spec fn items(&self) -> Seq<I> {
        self.buffer@
    }

    closed spec fn used(&self) -> nat {
        self.used as nat
    }

    closed spec fn spec_capacity(&self) -> nat {
        self.size as nat
    }

    closed spec fn wf(&self) -> bool {
        self.used <= self.buffer@.len() <= self.size
    }

    proof fn lemma_wf(&self) {
    }

    fn fill<S: DataSource<Item = I>>(&mut self, s: &mut S) -> (r: Result<usize, SourceError>) {
        let free = self.size - self.buffer.len();
        match s.read(free) {
            Ok(v) => Ok(self.append(v)),
            Err(e) => Err(e),
        }
    }

    fn append(&mut self, v: Vec<I>) -> (n: usize) {
        let mut v = v;
        let n = v.len();
        self.buffer.append(&mut v);
        n
    }

    fn request_space(&mut self, n: usize)
        ensures
            old(self).spec_capacity() - old(self).items().len() < n ==> final(self).used() == 0,
            old(self).spec_capacity() - old(self).items().len() >= n ==> final(self).items()
                == old(self).items() && final(self).used() == old(self).used(),
            final(self).spec_capacity() == old(self).spec_capacity(),
    {
        if self.size - self.buffer.len() < n {
            let rest = self.buffer.split_off(self.used);
            self.buffer = rest;
            self.used = 0;
        }
    }

    fn consume(&mut self, n: usize) {
        self.used = self.used + n;
    }

    fn len(&self) -> (r: usize) {
        self.buffer.len() - self.used
    }

    fn is_empty(&self) -> (r: bool) {
        self.buffer.len() == self.used
    }

    fn capacity(&self) -> (r: usize) {
        self.size
    }

    fn window(&self) -> (r: &[I]) {
        slice_subrange(self.buffer.as_slice(), self.used, self.buffer.len())
    }
}

/// A buffer that grows to fit the requested amount of data, up to an
/// optional limit, and never shrinks.
#[derive(Debug)]
pub struct GrowingBuffer<I: Copy> {
    /// The populated items, consumed or not.
    buffer: Vec<I>,
    /// How many of the populated items are consumed.
    used: usize,
    /// The most items the buffer holds now.
    cap: usize,
    /// Growth is refused once the capacity exceeds this; 0 means no limit.
    limit: usize,
}

impl<I: Copy> GrowingBuffer<I> {
    pub closed spec fn spec_limit(&self) -> usize {
        self.limit
    }

    /// An empty buffer with no limit on its growth.
    pub fn new() -> (r: Self)
        ensures
            r.wf(),
            r.items() == Seq::<I>::empty(),
            r.used() == 0,
            r.spec_capacity() == 0,
            r.spec_limit() == 0,
    {
        Self::with_limit(0)
    }

    /// An empty buffer that stops growing once its capacity exceeds
    /// `limit`; a limit of 0 means no limit.
    pub fn with_limit(limit: usize) -> (r: Self)
        ensures
            r.wf(),
            r.items() == Seq::<I>::empty(),
            r.used() == 0,
            r.spec_capacity() == 0,
            r.spec_limit() == limit,
    {
        GrowingBuffer { buffer: Vec::new(), used: 0, cap: 0, limit }
    }
}

impl<I: Copy> Buffer<I> for GrowingBuffer<I> {
    closed spec fn items(&self) -> Seq<I> {
        self.buffer@
    }

    closed spec fn used(&self) -> nat {
        self.used as nat
    }

    closed spec fn spec_capacity(&self) -> nat {
        self.cap as nat
    }

    closed spec fn wf(&self) -> bool {
        self.used <= self.buffer@.len() <= self.cap
    }

    proof fn lemma_wf(&self) {
    }

    fn fill<S: DataSource<Item = I>>(&mut self, s: &mut S) -> (r: Result<usize, SourceError>) {
        let free = self.cap - self.buffer.len();
        match s.read(free) {
            Ok(v) => Ok(self.append(v)),
            Err(e) => Err(e),
        }
    }

    fn append(&mut self, v: Vec<I>) -> (n: usize) {
        let mut v = v;
        let n = v.len();
        self.buffer.append(&mut v);
        n
    }

    fn request_space(&mut self, n: usize)
        ensures
            final(self).spec_limit() == old(self).spec_limit(),
            (old(self).spec_limit() == 0 || old(self).spec_capacity() <= old(self).spec_limit())
                && n + old(self).spec_capacity() <= usize::MAX ==> final(self).spec_capacity()
                - final(self).items().len() >= n,
            old(self).spec_limit() != 0 && old(self).spec_capacity() > old(self).spec_limit()
                ==> final(self).spec_capacity() == old(self).spec_capacity(),
            old(self).spec_capacity() - old(self).items().len() >= n ==> final(self).items()
                == old(self).items() && final(self).used() == old(self).used()
                && final(self).spec_capacity() == old(self).spec_capacity(),
            n + (old(self).items().len() - old(self).used()) <= old(self).spec_capacity()
                ==> final(self).spec_capacity() == old(self).spec_capacity(),
            n + (old(self).items().len() - old(self).used()) > old(self).spec_capacity() && (
            old(self).spec_limit() == 0 || old(self).spec_capacity() <= old(self).spec_limit())
                && n + old(self).spec_capacity() <= usize::MAX ==> final(self).spec_capacity()
                == old(self).spec_capacity() + n,
    {
        if self.limit != 0 && self.cap > self.limit {
            return ;
        }
        let unconsumed = self.buffer.len() - self.used;
        if n > self.cap - unconsumed {
            if n > usize::MAX - self.cap {
                return ;
            }
            self.cap = self.cap + n;
        }
        if self.cap - self.buffer.len() < n {
            let rest = self.buffer.split_off(self.used);
            self.buffer = rest;
            self.used = 0;
        }
    }

    fn consume(&mut self, n: usize) {
        self.used = self.used + n;
    }

    fn len(&self) -> (r: usize) {
        self.buffer.len() - self.used
    }

    fn is_empty(&self) -> (r: bool) {
        self.buffer.len() == self.used
    }

    fn capacity(&self) -> (r: usize) {
        self.cap
    }

    fn window(&self) -> (r: &[I]) {
        slice_subrange(self.buffer.as_slice(), self.used, self.buffer.len())
    }
}

/// An in-memory source that hands out a list of chunks in order, one chunk
/// (or the part of it that fits) per read, and nothing once they are spent.
pub struct ChunkSource<I: Copy> {
    chunks: Vec<Vec<I>>,
    /// Index of the chunk being handed out.
    next: usize,
    /// How much of that chunk has been handed out.
    offset: usize,
    /// The size of the most recent request.
    asked: Ghost<usize>,
    /// The items handed out by the most recent request.
    given: Ghost<Seq<I>>,
}

impl<I: Copy> ChunkSource<I> {
    #[verifier::type_invariant]
    closed spec fn inv(self) -> bool {
        self.next <= self.chunks@.len() && (self.next < self.chunks@.len() ==> self.offset
            <= self.chunks@[self.next as int]@.len())
    }

    /// The part of the current chunk not handed out yet; empty once every
    /// chunk is spent.
    pub closed spec fn head(self) -> Seq<I> {
        if self.next < self.chunks@.len() {
            let c = self.chunks@[self.next as int]@;
            c.subrange(self.offset as int, c.len() as int)
        } else {
            Seq::empty()
        }
    }

    /// The chunks after the current one.
    pub closed spec fn later(self) -> Seq<Seq<I>> {
        if self.next < self.chunks@.len() {
            self.chunks@.subrange(self.next + 1, self.chunks@.len() as int).map_values(
                |c: Vec<I>| c@,
            )
        } else {
            Seq::empty()
        }
    }

    /// A source that hands out `chunks` in order.
    pub fn new(chunks: Vec<Vec<I>>) -> (r: Self)
        ensures
            chunks@.len() == 0 ==> r.head() == Seq::<I>::empty() && r.later() == Seq::<
                Seq<I>,
            >::empty(),
            chunks@.len() > 0 ==> r.head() == chunks@[0]@ && r.later() == chunks@.subrange(
                1,
                chunks@.len() as int,
            ).map_values(|c: Vec<I>| c@),
    {
        let r = ChunkSource {
            chunks,
            next: 0,
            offset: 0,
            asked: Ghost(0),
            given: Ghost(Seq::empty()),
        };
        proof {
            if r.chunks@.len() > 0 {
                assert(r.head() =~= r.chunks@[0]@);
            }
        }
        r
    }

    /// Moves on to the next chunk.
    fn advance(&mut self)
        requires
            old(self).next < old(self).chunks@.len(),
        ensures
            final(self).head() == (if old(self).later().len() > 0 {
                old(self).later()[0]
            } else {
                Seq::<I>::empty()
            }),
            final(self).later() == (if old(self).later().len() > 0 {
                old(self).later().skip(1)
            } else {
                Seq::<Seq<I>>::empty()
            }),
            final(self).asked == old(self).asked,
            final(self).given == old(self).given,
    {
        proof {
            use_type_invariant(&*self);
        }
        let ghost old_later = self.later();
        let total = self.chunks.len();
        assert(self.next < total);
        self.offset = 0;
        self.next = self.next + 1;
        proof {
            if self.next < self.chunks@.len() {
                let c = self.chunks@[self.next as int]@;
                assert(self.head() =~= c);
                assert(old_later[0] == c);
                assert(self.later() =~= old_later.skip(1));
            } else {
                assert(old_later.len() == 0);
            }
        }
    }
}

impl<I: Copy> DataSource for ChunkSource<I> {
    type Item = I;

    closed spec fn last_max(&self) -> usize {
        self.asked@
    }

    closed spec fn last(&self) -> Seq<I> {
        self.given@
    }

    /// Hands out the first `max` items of the current chunk, all of them if
    /// it has no more; a chunk handed out in full gives way to the next one.
    fn read(&mut self, max: usize) -> (r: Result<Vec<I>, SourceError>)
        ensures
            r matches Ok(v) && v@ == old(self).head().take(
                if old(self).head().len() < max {
                    old(self).head().len() as int
                } else {
                    max as int
                },
            ),
            old(self).head().len() > max ==> final(self).head() == old(self).head().skip(
                max as int,
            ) && final(self).later() == old(self).later(),
            old(self).head().len() <= max ==> final(self).head() == (if old(self).later().len()
                > 0 {
                old(self).later()[0]
            } else {
                Seq::<I>::empty()
            }) && final(self).later() == (if old(self).later().len() > 0 {
                old(self).later().skip(1)
            } else {
                Seq::<Seq<I>>::empty()
            }),
    {
        proof {
            use_type_invariant(&*self);
        }
        self.asked = Ghost(max);
        if self.next >= self.chunks.len() {
            let out: Vec<I> = Vec::new();
            self.given = Ghost(out@);
            assert(out@ =~= self.head().take(0));
            return Ok(out);
        }
        let ghost h = self.head();
        let len = self.chunks[self.next].len();
        if self.offset >= len {
            let out: Vec<I> = Vec::new();
            self.given = Ghost(out@);
            assert(out@ =~= h.take(0));
            self.advance();
            return Ok(out);
        }
        let avail = len - self.offset;
        let n = if avail < max {
            avail
        } else {
            max
        };
        let out = slice_to_vec(slice_subrange(self.chunks[self.next].as_slice(), self.offset, self.offset + n));
        assert(out@ =~= h.take(n as int));
        self.given = Ghost(out@);
        if self.offset + n == len {
            self.advance();
        } else {
            self.offset = self.offset + n;
            assert(self.head() =~= h.skip(n as int));
        }
        Ok(out)
    }
}

} // verus!
