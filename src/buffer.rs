//! The storage of a ring and the handle that hands out grants into it.
use core::task::Waker;

use critical_section::CriticalSection;
use embassy_sync::waitqueue::WakerRegistration;
use vstd::prelude::*;

use crate::book::{Book, GrantRange};
use crate::grant::{GrantRead, GrantWrite, SplitGrantRead};
use crate::Error;

verus! {

/// The witness of critical_section that interrupts and other tasks are held
/// off. Only carried through: no logic reads it.
#[verifier::external_type_specification]
#[verifier::external_body]
pub struct ExCriticalSection<'cs>(CriticalSection<'cs>);

/// embassy_sync's single-slot waker registration. Opaque.
#[verifier::external_type_specification]
#[verifier::external_body]
pub struct ExWakerRegistration(WakerRegistration);

/// core's task waker. Opaque.
#[verifier::external_type_specification]
#[verifier::external_body]
pub struct ExWaker(Waker);

/// Whether a waker registration holds a waker, as
/// `WakerRegistration::occupied` reports it.
pub uninterp spec fn waker_occupied(r: WakerRegistration) -> bool;

/// Relies on embassy_sync's `WakerRegistration::occupied`: whether a waker is
/// registered.
pub assume_specification[ WakerRegistration::occupied ](r: &WakerRegistration) -> (b: bool)
    ensures
        b == waker_occupied(*r),
;

/// Relies on embassy_sync's `WakerRegistration::new`: an empty slot.
pub assume_specification[ WakerRegistration::new ]() -> (r: WakerRegistration)
    ensures
        !waker_occupied(r),
;

/// Relies on embassy_sync's `WakerRegistration::wake`: wakes the registered
/// waker, if any, and empties the slot.
pub assume_specification[ WakerRegistration::wake ](r: &mut WakerRegistration)
    ensures
        !waker_occupied(*final(r)),
;

/// Relies on embassy_sync's `WakerRegistration::register`: stores the waker
/// (waking the one it replaces), so the slot is occupied afterwards.
pub assume_specification[ WakerRegistration::register ](r: &mut WakerRegistration, w: &Waker)
    ensures
        waker_occupied(*final(r)),
;

/// Relies on `IndexMut<Range<usize>>` of slices: `s[start..end]`, borrowed in
/// place.
#[verifier::external_body]
pub(crate) fn slice_range_mut(s: &mut [u8], start: usize, end: usize) -> (r: &mut [u8])
    requires
        start <= end <= old(s)@.len(),
    ensures
        r@ == old(s)@.subrange(start as int, end as int),
        final(r)@.len() == r@.len(),
        final(s)@ == old(s)@.subrange(0, start as int) + final(r)@ + old(s)@.subrange(
            end as int,
            old(s)@.len() as int,
        ),
{
    &mut s[start..end]
}

/// The storage of a ring of `N` bytes: the bytes, the bookkeeper and the slot
/// of the one task that waits on the ring.
pub struct Buffer<const N: usize> {
    book: Book,
    waker: WakerRegistration,
    buf: [u8; N],
}

impl<const N: usize> Buffer<N> {
    pub closed spec fn book_view(&self) -> Book {
        self.book
    }

    /// A task waiting on the ring is registered.
    pub closed spec fn waiter_registered(&self) -> bool {
        waker_occupied(self.waker)
    }

    pub closed spec fn bytes(&self) -> Seq<u8> {
        self.buf@
    }

    /// An empty ring.
    pub fn new() -> (r: Self)
        ensures
            r.book_view() == Book::new_spec(),
            r.bytes().len() == N,
            !r.waiter_registered(),
    {
        Self {
            book: Book::new(),
            waker: WakerRegistration::new(),
            buf: vstd::array::array_fill_for_copy_types(0u8),
        }
    }
}

/// What a ring is: its bookkeeper and its bytes.
pub struct RingView {
    pub book: Book,
    pub bytes: Seq<u8>,
}

impl RingView {
    pub open spec fn capacity(self) -> nat {
        self.bytes.len()
    }

    pub open spec fn wf(self) -> bool {
        self.book.wf(self.capacity())
    }

    /// The committed bytes not yet consumed, oldest first.
    pub open spec fn contents(self) -> Seq<u8> {
        let b = self.book;
        if b.inverted() {
            self.bytes.subrange(b.read as int, b.last as int) + self.bytes.subrange(
                0,
                b.write as int,
            )
        } else {
            self.bytes.subrange(b.read as int, b.write as int)
        }
    }

    /// `g` is the outstanding write grant.
    pub open spec fn write_grant_is(self, g: GrantRange) -> bool {
        &&& self.book.write_in_progress
        &&& g.start == self.book.write_grant_start()
        &&& g.start + g.len == self.book.reserve
    }

    /// `g` lies within the outstanding read grant.
    pub open spec fn read_grant_is(self, g: GrantRange) -> bool {
        &&& self.book.read_in_progress
        &&& g.start == self.book.read
        &&& g.len <= self.book.contiguous_len()
    }

    /// `a` and `b` are the two parts of the outstanding split read grant.
    pub open spec fn split_grant_is(self, a: GrantRange, b: GrantRange) -> bool {
        &&& self.read_grant_is(a)
        &&& b.start == 0
        &&& b.len > 0 ==> {
            &&& self.book.inverted()
            &&& a.len == self.book.last - self.book.read
            &&& b.len <= self.book.write
        }
    }

    /// The bytes of `g`.
    pub open spec fn region(self, g: GrantRange) -> Seq<u8> {
        self.bytes.subrange(g.start as int, g.start + g.len)
    }
}

/// The handle through which grants are acquired. It owns its storage and is
/// reached through `&mut`, each time inside a critical section; an interrupt
/// handler and a task share it by keeping it behind a critical-section mutex.
pub struct Ring<const N: usize> {
    buffer: Buffer<N>,
}

impl<const N: usize> View for Ring<N> {
    type V = RingView;

    closed spec fn view(&self) -> RingView {
        RingView { book: self.buffer.book, bytes: self.buffer.buf@ }
    }
}

/// Bytes outside the outstanding write grant are all that `contents` reads.
proof fn lemma_contents_outside_write_grant(a: RingView, b: RingView)
    requires
        a.wf(),
        a.book == b.book,
        a.book.write_in_progress,
        a.bytes.len() == b.bytes.len(),
        forall|i: int|
            0 <= i < a.bytes.len() && !(a.book.write_grant_start() <= i < a.book.reserve)
                ==> a.bytes[i] == b.bytes[i],
    ensures
        a.contents() == b.contents(),
{
    let k = a.book;
    if k.inverted() {
        assert(a.bytes.subrange(k.read as int, k.last as int) =~= b.bytes.subrange(
            k.read as int,
            k.last as int,
        ));
        assert(a.bytes.subrange(0, k.write as int) =~= b.bytes.subrange(0, k.write as int));
    } else {
        assert(a.bytes.subrange(k.read as int, k.write as int) =~= b.bytes.subrange(
            k.read as int,
            k.write as int,
        ));
    }
}

proof fn lemma_acquire_read_contents(a: RingView, b: RingView)
    requires
        a.wf(),
        b.bytes == a.bytes,
        b.book == a.book.after_acquire_read() || b.book == a.book,
    ensures
        b.contents() == a.contents(),
        a.book.write == a.book.read_start() <==> a.contents().len() == 0,
        b.book == a.book.after_acquire_read() && a.book.write != a.book.read_start() ==> ({
            let g = GrantRange { start: b.book.read as usize, len: b.book.contiguous_len() as usize };
            &&& b.region(g) == a.contents().take(g.len as int)
            &&& 0 < g.len <= a.contents().len()
        }),
{
    let k = a.book;
    if k.read == k.last && k.write < k.read {
        assert(a.bytes.subrange(k.read as int, k.last as int) =~= Seq::<u8>::empty());
        assert(a.contents() =~= a.bytes.subrange(0, k.write as int));
    }
    if b.book == a.book.after_acquire_read() && a.book.write != a.book.read_start() {
        let g = GrantRange { start: b.book.read as usize, len: b.book.contiguous_len() as usize };
        assert(b.region(g) =~= a.contents().take(g.len as int));
    }
}

proof fn lemma_commit_write_contents(a: RingView, b: RingView, g: GrantRange, used: nat)
    requires
        a.wf(),
        a.write_grant_is(g),
        used <= g.len,
        b.bytes == a.bytes,
        b.book == a.book.after_commit_write(a.capacity(), used),
    ensures
        b.contents() == a.contents() + a.region(g).take(used as int),
{
    let k = a.book;
    if used == 0 {
        assert(a.region(g).take(0) =~= Seq::<u8>::empty());
        assert(b.contents() =~= a.contents());
    } else if k.reserve >= k.write {
        assert(b.contents() =~= a.contents() + a.region(g).take(used as int));
    } else {
        assert(b.book.last == k.write);
        assert(b.contents() =~= a.contents() + a.region(g).take(used as int));
    }
}

/// A read grant covers the oldest readable bytes.
pub(crate) proof fn lemma_read_region(v: RingView, g: GrantRange)
    requires
        v.wf(),
        v.read_grant_is(g),
    ensures
        g.start + g.len <= v.capacity(),
        v.region(g) == v.contents().take(g.len as int),
        g.len <= v.contents().len(),
{
    assert(v.region(g) =~= v.contents().take(g.len as int));
}

/// A split read grant covers the oldest readable bytes, high part first.
pub(crate) proof fn lemma_split_region(v: RingView, a: GrantRange, b: GrantRange)
    requires
        v.wf(),
        v.split_grant_is(a, b),
    ensures
        a.start + a.len <= v.capacity(),
        b.start + b.len <= v.capacity(),
        v.region(a) + v.region(b) == v.contents().take(a.len + b.len),
        a.len + b.len <= v.contents().len(),
{
    lemma_read_region(v, a);
    assert(v.region(a) + v.region(b) =~= v.contents().take(a.len + b.len));
}

/// What a producer or a consumer does to the queued bytes of a ring, as the
/// grants' contracts state it.
pub enum Transfer {
    /// The producer committed the first `used` bytes of a write grant over
    /// `region`; the rest of the region is left behind.
    Commit(Seq<u8>, nat),
    /// The consumer consumed this many of the oldest bytes.
    Consume(nat),
}

/// The number of bytes a transfer takes out of `queued`.
pub open spec fn taken(queued: Seq<u8>, t: Transfer) -> nat {
    match t {
        Transfer::Commit(_, _) => 0,
        Transfer::Consume(n) => if n <= queued.len() {
            n
        } else {
            queued.len()
        },
    }
}

/// The queued bytes after one transfer.
pub open spec fn queued_after_one(queued: Seq<u8>, t: Transfer) -> Seq<u8> {
    match t {
        Transfer::Commit(region, used) => queued + region.take(used as int),
        Transfer::Consume(_) => queued.skip(taken(queued, t) as int),
    }
}

/// The queued bytes after the transfers `ts`.
pub open spec fn queued_after(queued: Seq<u8>, ts: Seq<Transfer>) -> Seq<u8>
    decreases ts.len(),
{
    if ts.len() == 0 {
        queued
    } else {
        queued_after(queued_after_one(queued, ts[0]), ts.drop_first())
    }
}

/// The bytes the consumer was handed, in order.
pub open spec fn delivered(queued: Seq<u8>, ts: Seq<Transfer>) -> Seq<u8>
    decreases ts.len(),
{
    if ts.len() == 0 {
        Seq::empty()
    } else {
        queued.take(taken(queued, ts[0]) as int) + delivered(
            queued_after_one(queued, ts[0]),
            ts.drop_first(),
        )
    }
}

/// The bytes the producer committed, in order: of each write grant, only its
/// committed prefix.
pub open spec fn committed(ts: Seq<Transfer>) -> Seq<u8>
    decreases ts.len(),
{
    if ts.len() == 0 {
        Seq::empty()
    } else {
        match ts[0] {
            Transfer::Commit(region, used) => region.take(used as int) + committed(
                ts.drop_first(),
            ),
            Transfer::Consume(_) => committed(ts.drop_first()),
        }
    }
}

/// Bytes come out in the order they went in: what the consumer was handed,
/// followed by what is still queued, is what was queued at the start followed
/// by everything committed. From an empty ring, the bytes read out are a
/// prefix of the bytes written, so the part of a write grant after its committed
/// prefix is never delivered.
pub proof fn lemma_fifo(queued: Seq<u8>, ts: Seq<Transfer>)
    ensures
        delivered(queued, ts) + queued_after(queued, ts) == queued + committed(ts),
        queued.len() == 0 ==> delivered(queued, ts) == committed(ts).take(
            delivered(queued, ts).len() as int,
        ),
    decreases ts.len(),
{
    if ts.len() > 0 {
        let next = queued_after_one(queued, ts[0]);
        lemma_fifo(next, ts.drop_first());
        let k = taken(queued, ts[0]);
        match ts[0] {
            Transfer::Commit(region, used) => {
                let w = region.take(used as int);
                assert(queued.take(0) =~= Seq::<u8>::empty());
                assert(delivered(queued, ts) =~= delivered(next, ts.drop_first()));
                assert(committed(ts) == w + committed(ts.drop_first()));
                assert((queued + w) + committed(ts.drop_first()) =~= queued + (w + committed(
                    ts.drop_first(),
                )));
            },
            Transfer::Consume(_) => {
                let d = delivered(next, ts.drop_first());
                let a = queued_after(next, ts.drop_first());
                assert(delivered(queued, ts) == queued.take(k as int) + d);
                assert(committed(ts) == committed(ts.drop_first()));
                assert(queued =~= queued.take(k as int) + queued.skip(k as int));
                assert((queued.take(k as int) + d) + a =~= queued.take(k as int) + (d + a));
                assert(queued.take(k as int) + (queued.skip(k as int) + committed(ts.drop_first()))
                    =~= queued + committed(ts.drop_first()));
            },
        }
    }
    if queued.len() == 0 {
        let d = delivered(queued, ts);
        assert(queued + committed(ts) =~= committed(ts));
        assert(d =~= committed(ts).take(d.len() as int));
    }
}

/// A ring's storage holds `N` bytes.
pub proof fn lemma_ring_capacity<const N: usize>(r: Ring<N>)
    ensures
        r@.capacity() == N,
{
}

impl<const N: usize> Ring<N> {
    /// A task waiting on the ring is registered in its single waiter slot.
    pub closed spec fn waiter_registered(&self) -> bool {
        waker_occupied(self.buffer.waker)
    }

    pub fn new(buffer: Buffer<N>) -> (r: Self)
        requires
            buffer.book_view() == Book::new_spec(),
            buffer.bytes().len() == N,
        ensures
            r@.wf(),
            r@.book == Book::new_spec(),
            r@.capacity() == N,
            r@.contents() == Seq::<u8>::empty(),
            r.waiter_registered() == buffer.waiter_registered(),
    {
        Ring { buffer }
    }

    pub fn capacity(&self) -> (r: usize)
        ensures
            r == N,
    {
        N
    }

    /// The bookkeeper, copied out.
    pub fn book(&self) -> (r: Book)
        ensures
            r == self@.book,
    {
        self.buffer.book
    }
    /// Hands out a write grant of exactly `size` bytes.
    pub fn grant_exact(&mut self, _cs: CriticalSection, size: usize) -> (r: Result<GrantWrite, Error>)
        requires
            old(self)@.wf(),
        ensures
            final(self).waiter_registered() == old(self).waiter_registered(),
            final(self)@.wf(),
            final(self)@.bytes == old(self)@.bytes,
            final(self)@.contents() == old(self)@.contents(),
            match r {
                Ok(g) => {
                    &&& !old(self)@.book.write_in_progress
                    &&& old(self)@.book.write_fit(N as nat, size as nat) == Some(g@.start as nat)
                    &&& g@.len == size
                    &&& final(self)@.book == old(self)@.book.after_acquire_write(
                        g@.start as nat,
                        size as nat,
                    )
                    &&& final(self)@.write_grant_is(g@)
                },
                Err(Error::GrantInProgress) => {
                    &&& old(self)@.book.write_in_progress
                    &&& final(self)@ == old(self)@
                },
                Err(Error::InsufficientSize) => {
                    &&& !old(self)@.book.write_in_progress
                    &&& old(self)@.book.write_fit(N as nat, size as nat) is None
                    &&& final(self)@ == old(self)@
                },
            },
    {
        let capacity = N;
        match self.buffer.book.acquire_write_exact(capacity, size) {
            Ok(range) => Ok(GrantWrite::from_range(range)),
            Err(e) => Err(e),
        }
    }

    /// Hands out a write grant over the largest region available without
    /// waiting (see `Book::remaining_fit`).
    pub fn grant_max_remaining(&mut self, _cs: CriticalSection) -> (r: Result<GrantWrite, Error>)
        requires
            old(self)@.wf(),
        ensures
            final(self).waiter_registered() == old(self).waiter_registered(),
            final(self)@.wf(),
            final(self)@.bytes == old(self)@.bytes,
            final(self)@.contents() == old(self)@.contents(),
            match r {
                Ok(g) => {
                    &&& !old(self)@.book.write_in_progress
                    &&& old(self)@.book.remaining_fit(N as nat) == Some(
                        (g@.start as nat, g@.len as nat),
                    )
                    &&& g@.len > 0
                    &&& final(self)@.book == old(self)@.book.after_acquire_write(
                        g@.start as nat,
                        g@.len as nat,
                    )
                    &&& final(self)@.write_grant_is(g@)
                },
                Err(Error::GrantInProgress) => {
                    &&& old(self)@.book.write_in_progress
                    &&& final(self)@ == old(self)@
                },
                Err(Error::InsufficientSize) => {
                    &&& !old(self)@.book.write_in_progress
                    &&& old(self)@.book.remaining_fit(N as nat) is None
                    &&& final(self)@ == old(self)@
                },
            },
    {
        let capacity = N;
        match self.buffer.book.acquire_write_remaining(capacity) {
            Ok(range) => Ok(GrantWrite::from_range(range)),
            Err(e) => Err(e),
        }
    }

    /// Hands out a read grant over the oldest bytes that are readable in one
    /// piece.
    pub fn read(&mut self, _cs: CriticalSection) -> (r: Result<GrantRead, Error>)
        requires
            old(self)@.wf(),
        ensures
            final(self).waiter_registered() == old(self).waiter_registered(),
            final(self)@.wf(),
            final(self)@.bytes == old(self)@.bytes,
            final(self)@.contents() == old(self)@.contents(),
            match r {
                Ok(g) => {
                    &&& !old(self)@.book.read_in_progress
                    &&& old(self)@.contents().len() > 0
                    &&& final(self)@.book == old(self)@.book.after_acquire_read()
                    &&& g@.start == final(self)@.book.read
                    &&& g@.len == final(self)@.book.contiguous_len()
                    &&& 0 < g@.len <= old(self)@.contents().len()
                    &&& final(self)@.read_grant_is(g@)
                    &&& final(self)@.region(g@) == old(self)@.contents().take(g@.len as int)
                },
                Err(Error::GrantInProgress) => {
                    &&& old(self)@.book.read_in_progress
                    &&& final(self)@ == old(self)@
                },
                Err(Error::InsufficientSize) => {
                    &&& !old(self)@.book.read_in_progress
                    &&& old(self)@.contents().len() == 0
                    &&& final(self)@ == old(self)@
                },
            },
    {
        let capacity = N;
        let ghost before = self@;
        let r = self.buffer.book.acquire_read(capacity);
        proof {
            lemma_acquire_read_contents(before, self@);
        }
        match r {
            Ok(range) => Ok(GrantRead::from_range(range)),
            Err(e) => Err(e),
        }
    }

    /// Wakes the task waiting on this ring, if any.
    pub fn wake(&mut self, _cs: CriticalSection)
        ensures
            final(self)@ == old(self)@,
            !final(self).waiter_registered(),
    {
        self.buffer.waker.wake();
    }

    /// Whether a task waiting on this ring is registered.
    pub fn has_waiter(&self) -> (r: bool)
        ensures
            r == self.waiter_registered(),
    {
        self.buffer.waker.occupied()
    }

    /// Registers `waker` as the task waiting on this ring, replacing (and
    /// waking) the one registered before.
    pub fn register_waker(&mut self, _cs: CriticalSection, waker: &Waker)
        ensures
            final(self)@ == old(self)@,
            final(self).waiter_registered(),
    {
        self.buffer.waker.register(waker);
    }

    /// The bytes of `g`.
    pub(crate) fn region_bytes(&self, g: GrantRange) -> (r: &[u8])
        requires
            g.start + g.len <= self@.capacity(),
        ensures
            r@ == self@.region(g),
    {
        let all: &[u8] = vstd::array::array_as_slice(&self.buffer.buf);
        vstd::slice::slice_subrange(all, g.start, g.start + g.len)
    }

    /// The bytes of the outstanding write grant `g`, to be filled in place.
    pub(crate) fn region_bytes_mut(&mut self, g: GrantRange) -> (r: &mut [u8])
        requires
            old(self)@.wf(),
            old(self)@.write_grant_is(g),
        ensures
            final(self).waiter_registered() == old(self).waiter_registered(),
            r@ == old(self)@.region(g),
            final(r)@.len() == g.len,
            final(self)@.wf(),
            final(self)@.book == old(self)@.book,
            final(self)@.bytes.len() == old(self)@.bytes.len(),
            final(self)@.region(g) == final(r)@,
            final(self)@.contents() == old(self)@.contents(),
    {
        let all: &mut [u8] = &mut self.buffer.buf;
        let r = slice_range_mut(all, g.start, g.start + g.len);
        proof {
            let before = old(self)@;
            let after = RingView { book: before.book, bytes: before.bytes.subrange(0, g.start as int) + final(r)@ + before.bytes.subrange(g.start + g.len, before.bytes.len() as int) };
            assert(after.region(g) =~= final(r)@);
            assert forall|i: int|
                0 <= i < before.bytes.len() && !(before.book.write_grant_start() <= i < before.book.reserve)
                    implies before.bytes[i] == after.bytes[i] by {}
            lemma_contents_outside_write_grant(before, after);
        }
        r
    }

    /// Commits the first `used` bytes of the outstanding write grant `g`.
    pub(crate) fn commit_write(&mut self, g: GrantRange, used: usize)
        requires
            old(self)@.wf(),
            old(self)@.write_grant_is(g),
            used <= g.len,
        ensures
            final(self).waiter_registered() == old(self).waiter_registered(),
            final(self)@.wf(),
            final(self)@.bytes == old(self)@.bytes,
            final(self)@.book == old(self)@.book.after_commit_write(N as nat, used as nat),
            final(self)@.contents() == old(self)@.contents() + old(self)@.region(g).take(used as int),
    {
        let capacity = N;
        let ghost before = self@;
        self.buffer.book.commit_write_exact(capacity, g.len, used);
        proof {
            lemma_commit_write_contents(before, self@, g, used as nat);
        }
    }

    /// Gives the outstanding write grant back unused.
    pub(crate) fn release_write(&mut self)
        requires
            old(self)@.wf(),
            old(self)@.book.write_in_progress,
        ensures
            final(self).waiter_registered() == old(self).waiter_registered(),
            final(self)@.wf(),
            final(self)@.bytes == old(self)@.bytes,
            final(self)@.book == old(self)@.book.after_release_write(),
            final(self)@.contents() == old(self)@.contents(),
    {
        self.buffer.book.release_write();
    }

    /// Consumes the first `used` bytes of the outstanding read grant `g`.
    pub(crate) fn commit_read(&mut self, g: GrantRange, used: usize)
        requires
            old(self)@.wf(),
            old(self)@.read_grant_is(g),
            used <= g.len,
        ensures
            final(self).waiter_registered() == old(self).waiter_registered(),
            final(self)@.wf(),
            final(self)@.bytes == old(self)@.bytes,
            final(self)@.book == old(self)@.book.after_commit_read(used as nat),
            final(self)@.contents() == old(self)@.contents().skip(used as int),
    {
        let capacity = N;
        let ghost before = self@;
        self.buffer.book.commit_read(capacity, g.len, used);
        proof {
            assert(self@.contents() =~= before.contents().skip(used as int));
        }
    }

    /// Gives the outstanding read grant back without consuming anything.
    pub(crate) fn release_read(&mut self)
        requires
            old(self)@.wf(),
            old(self)@.book.read_in_progress,
        ensures
            final(self).waiter_registered() == old(self).waiter_registered(),
            final(self)@.wf(),
            final(self)@.bytes == old(self)@.bytes,
            final(self)@.book == (Book { read_in_progress: false, ..old(self)@.book }),
            final(self)@.contents() == old(self)@.contents(),
    {
        self.buffer.book.release_read();
    }
    /// Hands out a read grant over all readable bytes, in up to two parts.
    pub fn split_read(&mut self, _cs: CriticalSection) -> (r: Result<SplitGrantRead, Error>)
        requires
            old(self)@.wf(),
        ensures
            final(self).waiter_registered() == old(self).waiter_registered(),
            final(self)@.wf(),
            final(self)@.bytes == old(self)@.bytes,
            final(self)@.contents() == old(self)@.contents(),
            match r {
                Ok(g) => {
                    &&& !old(self)@.book.read_in_progress
                    &&& old(self)@.contents().len() > 0
                    &&& final(self)@.book == old(self)@.book.after_acquire_read()
                    &&& final(self)@.split_grant_is(g@.0, g@.1)
                    &&& final(self)@.region(g@.0) + final(self)@.region(g@.1) == old(
                        self,
                    )@.contents()
                },
                Err(Error::GrantInProgress) => {
                    &&& old(self)@.book.read_in_progress
                    &&& final(self)@ == old(self)@
                },
                Err(Error::InsufficientSize) => {
                    &&& !old(self)@.book.read_in_progress
                    &&& old(self)@.contents().len() == 0
                    &&& final(self)@ == old(self)@
                },
            },
    {
        let capacity = N;
        let ghost before = self@;
        let r = self.buffer.book.acquire_read_split(capacity);
        proof {
            lemma_acquire_read_contents(before, self@);
        }
        match r {
            Ok((a, b)) => {
                proof {
                    lemma_split_region(self@, a, b);
                    assert(self@.contents().take(a.len + b.len) =~= self@.contents());
                }
                Ok(SplitGrantRead::from_ranges(a, b))
            },
            Err(e) => Err(e),
        }
    }

    /// Consumes the first `used` bytes of the outstanding split read grant
    /// `(a, b)`.
    pub(crate) fn commit_read_split(&mut self, a: GrantRange, b: GrantRange, used: usize)
        requires
            old(self)@.wf(),
            old(self)@.split_grant_is(a, b),
            used <= a.len + b.len,
        ensures
            final(self).waiter_registered() == old(self).waiter_registered(),
            final(self)@.wf(),
            final(self)@.bytes == old(self)@.bytes,
            final(self)@.book == if used <= a.len {
                old(self)@.book.after_commit_read(used as nat)
            } else {
                Book { read: (used - a.len) as usize, read_in_progress: false, ..old(self)@.book }
            },
            final(self)@.contents() == old(self)@.contents().skip(used as int),
    {
        let capacity = N;
        let ghost before = self@;
        self.buffer.book.commit_read_split(capacity, a.len, used);
        proof {
            assert(self@.contents() =~= before.contents().skip(used as int));
        }
    }
    /// The bytes of the outstanding read grant `g`, to be changed in place.
    pub(crate) fn read_region_bytes_mut(&mut self, g: GrantRange) -> (r: &mut [u8])
        requires
            old(self)@.wf(),
            old(self)@.read_grant_is(g),
        ensures
            final(self).waiter_registered() == old(self).waiter_registered(),
            r@ == old(self)@.region(g),
            final(r)@.len() == g.len,
            final(self)@.wf(),
            final(self)@.book == old(self)@.book,
            final(self)@.bytes.len() == old(self)@.bytes.len(),
            final(self)@.region(g) == final(r)@,
            final(self)@.contents() == final(r)@ + old(self)@.contents().skip(g.len as int),
    {
        proof {
            lemma_read_region(self@, g);
        }
        let all: &mut [u8] = &mut self.buffer.buf;
        let r = slice_range_mut(all, g.start, g.start + g.len);
        proof {
            let before = old(self)@;
            let after = RingView {
                book: before.book,
                bytes: before.bytes.subrange(0, g.start as int) + final(r)@ + before.bytes.subrange(
                    g.start + g.len,
                    before.bytes.len() as int,
                ),
            };
            assert(after.region(g) =~= final(r)@);
            assert(after.contents() =~= final(r)@ + before.contents().skip(g.len as int));
        }
        r
    }
}

} // verus!
