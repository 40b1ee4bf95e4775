//! Grants: tokens for the outstanding write or read region of a ring.
use critical_section::CriticalSection;
use vstd::prelude::*;

use crate::book::GrantRange;
use crate::buffer::{lemma_read_region, lemma_split_region, Ring};

verus! {

/// The right to fill a region of a ring and commit it.
///
/// A grant is given back by `commit` or `release`; until then no other write
/// grant is handed out. Giving it back without writing is `release`, or a
/// commit of zero bytes, and leaves the cursors as they were.
pub struct GrantWrite {
    range: GrantRange,
}

impl View for GrantWrite {
    type V = GrantRange;

    closed spec fn view(&self) -> GrantRange {
        self.range
    }
}

impl GrantWrite {
    pub(crate) fn from_range(range: GrantRange) -> (g: Self)
        ensures
            g@ == range,
    {
        GrantWrite { range }
    }

    /// The size of the granted region.
    pub fn len(&self) -> (r: usize)
        ensures
            r == self@.len,
    {
        self.range.len
    }

    /// The granted region, as it is now.
    pub fn buf<'r, const N: usize>(&self, ring: &'r Ring<N>) -> (r: &'r [u8])
        requires
            ring@.wf(),
            ring@.write_grant_is(self@),
        ensures
            r@ == ring@.region(self@),
    {
        ring.region_bytes(self.range)
    }

    /// The granted region, to be filled in place. Whatever is written there
    /// stays unreadable until it is committed.
    pub fn buf_mut<'r, const N: usize>(&self, ring: &'r mut Ring<N>) -> (r: &'r mut [u8])
        requires
            old(ring)@.wf(),
            old(ring)@.write_grant_is(self@),
        ensures
            final(ring).waiter_registered() == old(ring).waiter_registered(),
            r@ == old(ring)@.region(self@),
            final(r)@.len() == self@.len,
            final(ring)@.wf(),
            final(ring)@.book == old(ring)@.book,
            final(ring)@.write_grant_is(self@),
            final(ring)@.region(self@) == final(r)@,
            final(ring)@.contents() == old(ring)@.contents(),
    {
        ring.region_bytes_mut(self.range)
    }

    /// Makes the first `used` bytes of the region readable, after all bytes
    /// committed before, and wakes the waiting task if anything was
    /// committed. The rest of the region is never delivered.
    pub fn commit<const N: usize>(self, ring: &mut Ring<N>, cs: CriticalSection, used: usize)
        requires
            old(ring)@.wf(),
            old(ring)@.write_grant_is(self@),
            used <= self@.len,
        ensures
            used > 0 ==> !final(ring).waiter_registered(),
            used == 0 ==> final(ring).waiter_registered() == old(ring).waiter_registered(),
            final(ring)@.wf(),
            final(ring)@.bytes == old(ring)@.bytes,
            final(ring)@.book == old(ring)@.book.after_commit_write(N as nat, used as nat),
            final(ring)@.contents() == old(ring)@.contents() + old(ring)@.region(self@).take(
                used as int,
            ),
    {
        ring.commit_write(self.range, used);
        if used > 0 {
            ring.wake(cs);
        }
    }

    /// Gives the region back without making anything readable.
    pub fn release<const N: usize>(self, ring: &mut Ring<N>, _cs: CriticalSection)
        requires
            old(ring)@.wf(),
            old(ring)@.write_grant_is(self@),
        ensures
            final(ring).waiter_registered() == old(ring).waiter_registered(),
            final(ring)@.wf(),
            final(ring)@.bytes == old(ring)@.bytes,
            final(ring)@.book == old(ring)@.book.after_release_write(),
            final(ring)@.contents() == old(ring)@.contents(),
    {
        ring.release_write();
    }
}

/// The right to read a region of a ring and consume it.
///
/// A grant is given back by `commit` or `release`; until then no other read
/// grant is handed out.
pub struct GrantRead {
    range: GrantRange,
}

impl View for GrantRead {
    type V = GrantRange;

    closed spec fn view(&self) -> GrantRange {
        self.range
    }
}

impl GrantRead {
    pub(crate) fn from_range(range: GrantRange) -> (g: Self)
        ensures
            g@ == range,
    {
        GrantRead { range }
    }

    /// The size of the granted region.
    pub fn len(&self) -> (r: usize)
        ensures
            r == self@.len,
    {
        self.range.len
    }

    /// The granted bytes: the oldest readable bytes of the ring.
    pub fn buf<'r, const N: usize>(&self, ring: &'r Ring<N>) -> (r: &'r [u8])
        requires
            ring@.wf(),
            ring@.read_grant_is(self@),
        ensures
            r@ == ring@.region(self@),
            r@ == ring@.contents().take(self@.len as int),
    {
        proof {
            lemma_read_region(ring@, self@);
        }
        ring.region_bytes(self.range)
    }

    pub(crate) fn range(&self) -> (r: GrantRange)
        ensures
            r == self@,
    {
        self.range
    }

    /// Narrows the grant to its first `len` bytes.
    pub(crate) fn shrink(&mut self, len: usize)
        requires
            len <= old(self)@.len,
        ensures
            final(self)@ == (GrantRange { len, ..old(self)@ }),
    {
        self.range.len = len;
    }

    /// Consumes the first `used` bytes of the region and wakes the waiting
    /// task.
    pub fn commit<const N: usize>(self, ring: &mut Ring<N>, cs: CriticalSection, used: usize)
        requires
            old(ring)@.wf(),
            old(ring)@.read_grant_is(self@),
            used <= self@.len,
        ensures
            !final(ring).waiter_registered(),
            final(ring)@.wf(),
            final(ring)@.bytes == old(ring)@.bytes,
            final(ring)@.book == old(ring)@.book.after_commit_read(used as nat),
            final(ring)@.contents() == old(ring)@.contents().skip(used as int),
    {
        ring.commit_read(self.range, used);
        ring.wake(cs);
    }

    /// Gives the region back without consuming anything.
    pub fn release<const N: usize>(self, ring: &mut Ring<N>, _cs: CriticalSection)
        requires
            old(ring)@.wf(),
            old(ring)@.read_grant_is(self@),
        ensures
            final(ring).waiter_registered() == old(ring).waiter_registered(),
            final(ring)@.wf(),
            final(ring)@.bytes == old(ring)@.bytes,
            final(ring)@.book == (crate::book::Book { read_in_progress: false, ..old(ring)@.book }),
            final(ring)@.contents() == old(ring)@.contents(),
    {
        ring.release_read();
    }
}

/// The right to read all readable bytes of a ring, as up to two regions.
pub struct SplitGrantRead {
    first: GrantRange,
    second: GrantRange,
}

impl View for SplitGrantRead {
    type V = (GrantRange, GrantRange);

    closed spec fn view(&self) -> (GrantRange, GrantRange) {
        (self.first, self.second)
    }
}

impl SplitGrantRead {
    pub(crate) fn from_ranges(first: GrantRange, second: GrantRange) -> (g: Self)
        ensures
            g@ == (first, second),
    {
        SplitGrantRead { first, second }
    }

    /// The total size of the two parts.
    pub fn len(&self) -> (r: usize)
        requires
            self@.0.len + self@.1.len <= usize::MAX,
        ensures
            r == self@.0.len + self@.1.len,
    {
        self.first.len + self.second.len
    }

    /// The two parts, oldest first.
    pub fn bufs<'r, const N: usize>(&self, ring: &'r Ring<N>) -> (r: (&'r [u8], &'r [u8]))
        requires
            ring@.wf(),
            ring@.split_grant_is(self@.0, self@.1),
        ensures
            r.0@ == ring@.region(self@.0),
            r.1@ == ring@.region(self@.1),
            r.0@ + r.1@ == ring@.contents().take(self@.0.len + self@.1.len),
    {
        proof {
            lemma_split_region(ring@, self@.0, self@.1);
        }
        (ring.region_bytes(self.first), ring.region_bytes(self.second))
    }

    /// Consumes the first `used` bytes of the two parts and wakes the waiting
    /// task.
    pub fn commit<const N: usize>(self, ring: &mut Ring<N>, cs: CriticalSection, used: usize)
        requires
            old(ring)@.wf(),
            old(ring)@.split_grant_is(self@.0, self@.1),
            used <= self@.0.len + self@.1.len,
        ensures
            !final(ring).waiter_registered(),
            final(ring)@.wf(),
            final(ring)@.bytes == old(ring)@.bytes,
            final(ring)@.book == if used <= self@.0.len {
                old(ring)@.book.after_commit_read(used as nat)
            } else {
                crate::book::Book {
                    read: (used - self@.0.len) as usize,
                    read_in_progress: false,
                    ..old(ring)@.book
                }
            },
            final(ring)@.contents() == old(ring)@.contents().skip(used as int),
    {
        ring.commit_read_split(self.first, self.second, used);
        ring.wake(cs);
    }

    /// Gives both parts back without consuming anything.
    pub fn release<const N: usize>(self, ring: &mut Ring<N>, _cs: CriticalSection)
        requires
            old(ring)@.wf(),
            old(ring)@.split_grant_is(self@.0, self@.1),
        ensures
            final(ring).waiter_registered() == old(ring).waiter_registered(),
            final(ring)@.wf(),
            final(ring)@.bytes == old(ring)@.bytes,
            final(ring)@.book == (crate::book::Book { read_in_progress: false, ..old(ring)@.book }),
            final(ring)@.contents() == old(ring)@.contents(),
    {
        ring.release_read();
    }
}

} // verus!
