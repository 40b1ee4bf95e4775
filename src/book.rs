//! The bookkeeper: the cursors of the ring and the rules that hand out and
//! take back grants. It owns no storage.
use vstd::prelude::*;

use crate::Error;

verus! {

/// A contiguous range of the storage, `[start, start + len)`.
#[derive(Debug, Clone, Copy, PartialEq, Eq, Structural)]
pub struct GrantRange {
    pub start: usize,
    pub len: usize,
}

impl GrantRange {
    pub fn from_range(range: core::ops::Range<usize>) -> (r: Self)
        requires
            range.start <= range.end,
        ensures
            r.start == range.start,
            r.start + r.len == range.end,
    {
        let start = range.start;
        let len = range.end - range.start;
        GrantRange { start, len }
    }

    pub fn to_range(self) -> (r: core::ops::Range<usize>)
        requires
            self.start + self.len <= usize::MAX,
        ensures
            r.start == self.start,
            r.end == self.start + self.len,
    {
        self.start..(self.start + self.len)
    }

    pub fn to_len(self) -> (r: usize)
        ensures
            r == self.len,
    {
        self.len
    }
}

fn err_in_progress() -> (r: Result<(), Error>)
    ensures
        r == Err::<(), Error>(Error::GrantInProgress),
{
    Err(Error::GrantInProgress)
}

/// The cursors of a ring of `capacity` bytes.
///
/// While `write >= read` the ring is in normal form and the readable bytes are
/// `[read, write)`. While `write < read` it is inverted: the producer has
/// wrapped to the front, the readable bytes are `[read, last)` followed by
/// `[0, write)`, and `[last, capacity)` is skipped.
///
/// All `capacity` bytes are usable. A grant that restarts at the front must
/// end strictly before `read`, so an inverted ring never has `write == read`,
/// which would read as empty.
#[derive(Debug, Clone, Copy, PartialEq, Eq, Structural)]
pub struct Book {
    /// Where the next committed byte goes.
    pub write: usize,
    /// Where the next read starts.
    pub read: usize,
    /// The end of the readable high part while inverted.
    pub last: usize,
    /// The value `write` takes when the outstanding write grant is committed
    /// in full.
    pub reserve: usize,
    pub read_in_progress: bool,
    pub write_in_progress: bool,
}

impl Book {
    pub open spec fn inverted(&self) -> bool {
        self.write < self.read
    }

    /// Where the outstanding write grant starts: at `write`, or at the front
    /// when the grant was placed there by wrapping.
    pub open spec fn write_grant_start(&self) -> nat {
        if self.reserve >= self.write {
            self.write as nat
        } else {
            0
        }
    }

    /// The size of the outstanding write grant.
    pub open spec fn write_grant_len(&self) -> nat {
        (self.reserve - self.write_grant_start()) as nat
    }

    /// The number of bytes readable in one piece from `read`.
    pub open spec fn contiguous_len(&self) -> nat {
        if self.inverted() {
            (self.last - self.read) as nat
        } else {
            (self.write - self.read) as nat
        }
    }

    /// The invariant of the cursors of a ring of `capacity` bytes.
    pub open spec fn wf(&self, capacity: nat) -> bool {
        &&& self.write <= capacity
        &&& self.read <= capacity
        &&& self.last <= capacity
        &&& self.reserve <= capacity
        &&& self.inverted() ==> self.read <= self.last
        &&& !self.inverted() ==> self.write <= self.last
        &&& !self.write_in_progress ==> self.reserve == self.write
        &&& self.write_in_progress ==> if self.reserve >= self.write {
            self.inverted() ==> self.reserve < self.read
        } else {
            !self.inverted() && self.reserve < self.read
        }
    }

    /// Where a write grant of `size` bytes is placed, if it fits.
    pub open spec fn write_fit(&self, capacity: nat, size: nat) -> Option<nat> {
        if self.inverted() {
            if self.write + size < self.read {
                Some(self.write as nat)
            } else {
                None
            }
        } else if self.write + size <= capacity {
            Some(self.write as nat)
        } else if size < self.read {
            Some(0)
        } else {
            None
        }
    }

    /// The state after a write grant of `size` bytes was placed at `start`.
    pub open spec fn after_acquire_write(self, start: nat, size: nat) -> Book {
        Book { reserve: (start + size) as usize, write_in_progress: true, ..self }
    }

    /// The state after the outstanding write grant is given back unused:
    /// `reserve` returns to `write`, so nothing is left of the grant.
    pub open spec fn after_release_write(self) -> Book {
        Book { reserve: self.write, write_in_progress: false, ..self }
    }

    /// The state after the first `used` bytes of the outstanding write grant
    /// are committed. Committing nothing is a release.
    pub open spec fn after_commit_write(self, capacity: nat, used: nat) -> Book {
        if used == 0 {
            self.after_release_write()
        } else {
            let new_write = self.write_grant_start() + used;
            let last = if new_write < self.write && self.write != capacity {
                self.write as nat
            } else if new_write > self.last {
                capacity
            } else {
                self.last as nat
            };
            Book {
                write: new_write as usize,
                last: last as usize,
                reserve: new_write as usize,
                write_in_progress: false,
                ..self
            }
        }
    }

    /// `read` once a drained high part has been left: back at the front.
    pub open spec fn read_start(&self) -> nat {
        if self.read == self.last && self.write < self.read {
            0
        } else {
            self.read as nat
        }
    }

    /// The largest region a write grant can take right now without waiting,
    /// as `(start, len)`: the rest of the gap before `read` while inverted,
    /// else the rest of the storage after `write`, else the front up to just
    /// before `read`.
    pub open spec fn remaining_fit(&self, capacity: nat) -> Option<(nat, nat)> {
        if self.inverted() {
            if self.write + 1 < self.read {
                Some((self.write as nat, (self.read - self.write - 1) as nat))
            } else {
                None
            }
        } else if self.write < capacity {
            Some((self.write as nat, (capacity - self.write) as nat))
        } else if 1 < self.read {
            Some((0, (self.read - 1) as nat))
        } else {
            None
        }
    }

    /// The state once a read grant was handed out.
    pub open spec fn after_acquire_read(self) -> Book {
        Book { read: self.read_start() as usize, read_in_progress: true, ..self }
    }

    /// The state after the first `used` bytes of the read grant are consumed.
    pub open spec fn after_commit_read(self, used: nat) -> Book {
        Book { read: (self.read + used) as usize, read_in_progress: false, ..self }
    }

    /// The cursors of an empty ring.
    pub open spec fn new_spec() -> Book {
        Book {
            write: 0,
            read: 0,
            last: 0,
            reserve: 0,
            read_in_progress: false,
            write_in_progress: false,
        }
    }

    pub fn new() -> (r: Self)
        ensures
            r == Book::new_spec(),
    {
        Self {
            write: 0,
            last: 0,
            read: 0,
            reserve: 0,
            read_in_progress: false,
            write_in_progress: false,
        }
    }

    fn sm_acq_write(&mut self) -> (r: Result<(), Error>)
        ensures
            r is Ok <==> !old(self).write_in_progress,
            r is Err ==> r == Err::<(), Error>(Error::GrantInProgress) && *final(self) == *old(self),
            r is Ok ==> *final(self) == (Book { write_in_progress: true, ..*old(self) }),
    {
        if !self.write_in_progress {
            self.write_in_progress = true;
            Ok(())
        } else {
            err_in_progress()
        }
    }

    fn sm_rel_write(&mut self)
        ensures
            *final(self) == (Book { write_in_progress: false, ..*old(self) }),
    {
        self.write_in_progress = false;
    }

    fn sm_acq_read(&mut self) -> (r: Result<(), Error>)
        ensures
            r is Ok <==> !old(self).read_in_progress,
            r is Err ==> r == Err::<(), Error>(Error::GrantInProgress) && *final(self) == *old(self),
            r is Ok ==> *final(self) == (Book { read_in_progress: true, ..*old(self) }),
    {
        if !self.read_in_progress {
            self.read_in_progress = true;
            Ok(())
        } else {
            err_in_progress()
        }
    }

    fn sm_rel_read(&mut self)
        ensures
            *final(self) == (Book { read_in_progress: false, ..*old(self) }),
    {
        self.read_in_progress = false;
    }
    pub fn release_write(&mut self)
        requires
            old(self).write_in_progress,
        ensures
            *final(self) == old(self).after_release_write(),
    {
        self.reserve = self.write;
        self.sm_rel_write();
    }

    pub fn release_read(&mut self)
        requires
            old(self).read_in_progress,
        ensures
            *final(self) == (Book { read_in_progress: false, ..*old(self) }),
    {
        self.sm_rel_read();
    }

    /// Hands out a write grant of exactly `size` bytes.
    pub fn acquire_write_exact(&mut self, capacity: usize, size: usize) -> (r: Result<
        GrantRange,
        Error,
    >)
        requires
            old(self).wf(capacity as nat),
        ensures
            final(self).wf(capacity as nat),
            match r {
                Ok(g) => {
                    &&& !old(self).write_in_progress
                    &&& old(self).write_fit(capacity as nat, size as nat) == Some(g.start as nat)
                    &&& g.len == size
                    &&& *final(self) == old(self).after_acquire_write(g.start as nat, size as nat)
                },
                Err(Error::GrantInProgress) => {
                    &&& old(self).write_in_progress
                    &&& *final(self) == *old(self)
                },
                Err(Error::InsufficientSize) => {
                    &&& !old(self).write_in_progress
                    &&& old(self).write_fit(capacity as nat, size as nat) is None
                    &&& *final(self) == *old(self)
                },
            },
    {
        match self.sm_acq_write() {
            Ok(()) => {},
            Err(e) => return Err(e),
        }
        let max = capacity;
        let inverted = self.write < self.read;
        let start: usize;
        if inverted {
            if size < self.read - self.write {
                // inverted, room is still available before `read`
                start = self.write;
            } else {
                self.sm_rel_write();
                return Err(Error::InsufficientSize);
            }
        } else if size <= max - self.write {
            start = self.write;
        } else if size < self.read {
            // Restart at the front. The comparison is strict: an inverted ring
            // must never have `write == read`, which would read as empty.
            start = 0;
        } else {
            self.sm_rel_write();
            return Err(Error::InsufficientSize);
        }
        self.reserve = start + size;
        Ok(GrantRange::from_range(start..(start + size)))
    }

    /// Commits the first `used` bytes of the outstanding write grant of `size`
    /// bytes, making them readable.
    pub fn commit_write_exact(&mut self, capacity: usize, size: usize, used: usize)
        requires
            old(self).wf(capacity as nat),
            old(self).write_in_progress,
            size == old(self).write_grant_len(),
            used <= size,
        ensures
            final(self).wf(capacity as nat),
            *final(self) == old(self).after_commit_write(capacity as nat, used as nat),
    {
        if used == 0 {
            self.release_write();
            return ;
        }
        let max = capacity;
        self.reserve = self.reserve - (size - used);
        let new_write = self.reserve;
        if new_write < self.write && self.write != max {
            // The grant wrapped to the front and skips the end of the storage:
            // the readable high part now ends where `write` was.
            self.last = self.write;
        } else if new_write > self.last {
            // Passing the old end of the high part unlocks the rest of it.
            self.last = max;
        }
        self.write = new_write;
        self.sm_rel_write();
    }

    /// Hands out a write grant over the largest region available without
    /// waiting.
    pub fn acquire_write_remaining(&mut self, capacity: usize) -> (r: Result<GrantRange, Error>)
        requires
            old(self).wf(capacity as nat),
        ensures
            final(self).wf(capacity as nat),
            match r {
                Ok(g) => {
                    &&& !old(self).write_in_progress
                    &&& old(self).remaining_fit(capacity as nat) == Some((g.start as nat, g.len as nat))
                    &&& g.len > 0
                    &&& old(self).write_fit(capacity as nat, g.len as nat) == Some(g.start as nat)
                    &&& *final(self) == old(self).after_acquire_write(g.start as nat, g.len as nat)
                },
                Err(Error::GrantInProgress) => {
                    &&& old(self).write_in_progress
                    &&& *final(self) == *old(self)
                },
                Err(Error::InsufficientSize) => {
                    &&& !old(self).write_in_progress
                    &&& old(self).remaining_fit(capacity as nat) is None
                    &&& *final(self) == *old(self)
                },
            },
    {
        match self.sm_acq_write() {
            Ok(()) => {},
            Err(e) => return Err(e),
        }
        let max = capacity;
        let start: usize;
        let size: usize;
        if self.write < self.read {
            if self.write + 1 < self.read {
                start = self.write;
                size = self.read - self.write - 1;
            } else {
                self.sm_rel_write();
                return Err(Error::InsufficientSize);
            }
        } else if self.write < max {
            start = self.write;
            size = max - self.write;
        } else if 1 < self.read {
            start = 0;
            size = self.read - 1;
        } else {
            self.sm_rel_write();
            return Err(Error::InsufficientSize);
        }
        self.reserve = start + size;
        Ok(GrantRange::from_range(start..(start + size)))
    }

    /// Hands out a read grant over the bytes readable in one piece.
    pub fn acquire_read(&mut self, capacity: usize) -> (r: Result<GrantRange, Error>)
        requires
            old(self).wf(capacity as nat),
        ensures
            final(self).wf(capacity as nat),
            match r {
                Ok(g) => {
                    &&& !old(self).read_in_progress
                    &&& old(self).write != old(self).read_start()
                    &&& *final(self) == old(self).after_acquire_read()
                    &&& g.start == final(self).read
                    &&& g.len == final(self).contiguous_len()
                    &&& g.len > 0
                },
                Err(Error::GrantInProgress) => {
                    &&& old(self).read_in_progress
                    &&& *final(self) == *old(self)
                },
                Err(Error::InsufficientSize) => {
                    &&& !old(self).read_in_progress
                    &&& old(self).write == old(self).read_start()
                    &&& *final(self) == *old(self)
                },
            },
    {
        match self.sm_acq_read() {
            Ok(()) => {},
            Err(e) => return Err(e),
        }
        // Leave a drained high part: reading goes on at the front.
        let start = if self.read == self.last && self.write < self.read {
            0
        } else {
            self.read
        };
        if self.write == start {
            self.sm_rel_read();
            return Err(Error::InsufficientSize);
        }
        self.read = start;
        let end = if self.write > self.read {
            self.write
        } else {
            self.last
        };
        Ok(GrantRange::from_range(start..end))
    }

    /// Consumes the first `used` bytes of the outstanding read grant of `size`
    /// bytes.
    pub fn commit_read(&mut self, capacity: usize, size: usize, used: usize)
        requires
            old(self).wf(capacity as nat),
            old(self).read_in_progress,
            used <= size <= old(self).contiguous_len(),
        ensures
            final(self).wf(capacity as nat),
            *final(self) == old(self).after_commit_read(used as nat),
    {
        self.read = self.read + used;
        self.sm_rel_read();
    }
    /// Hands out a read grant over all readable bytes, as the part from `read`
    /// and, while inverted, the part at the front.
    pub fn acquire_read_split(&mut self, capacity: usize) -> (r: Result<
        (GrantRange, GrantRange),
        Error,
    >)
        requires
            old(self).wf(capacity as nat),
        ensures
            final(self).wf(capacity as nat),
            match r {
                Ok((a, b)) => {
                    &&& !old(self).read_in_progress
                    &&& old(self).write != old(self).read_start()
                    &&& *final(self) == old(self).after_acquire_read()
                    &&& a.start == final(self).read
                    &&& a.len == final(self).contiguous_len()
                    &&& a.len > 0
                    &&& b.start == 0
                    &&& b.len == (if final(self).inverted() {
                        final(self).write
                    } else {
                        0
                    })
                },
                Err(Error::GrantInProgress) => {
                    &&& old(self).read_in_progress
                    &&& *final(self) == *old(self)
                },
                Err(Error::InsufficientSize) => {
                    &&& !old(self).read_in_progress
                    &&& old(self).write == old(self).read_start()
                    &&& *final(self) == *old(self)
                },
            },
    {
        match self.acquire_read(capacity) {
            Ok(first) => {
                let second_len = if self.write < self.read {
                    self.write
                } else {
                    0
                };
                Ok((first, GrantRange { start: 0, len: second_len }))
            },
            Err(e) => Err(e),
        }
    }

    /// Consumes the first `used` bytes of an outstanding split read grant
    /// whose part from `read` is `first_len` bytes long.
    pub fn commit_read_split(&mut self, capacity: usize, first_len: usize, used: usize)
        requires
            old(self).wf(capacity as nat),
            old(self).read_in_progress,
            first_len <= old(self).contiguous_len(),
            used <= first_len || ({
                &&& old(self).inverted()
                &&& first_len == old(self).last - old(self).read
                &&& used - first_len <= old(self).write
            }),
        ensures
            final(self).wf(capacity as nat),
            *final(self) == if used <= first_len {
                old(self).after_commit_read(used as nat)
            } else {
                Book { read: (used - first_len) as usize, read_in_progress: false, ..*old(self) }
            },
    {
        if used <= first_len {
            self.read = self.read + used;
        } else {
            // The high part is consumed whole: go on at the front.
            self.read = used - first_len;
        }
        self.sm_rel_read();
    }
}

/// One call a producer or a consumer makes on the bookkeeper.
pub enum BookOp {
    AcquireWrite(nat),
    AcquireWriteRemaining,
    /// Commit this many bytes of the outstanding write grant (cut to its size).
    CommitWrite(nat),
    ReleaseWrite,
    AcquireRead,
    /// Consume this many bytes of the outstanding read grant (cut to its size).
    CommitRead(nat),
    ReleaseRead,
}

/// The bookkeeper together with the number of write and read grants handed
/// out and not yet committed or released.
pub struct Tally {
    pub book: Book,
    pub writes_out: nat,
    pub reads_out: nat,
}

/// What one call does, as the operations' contracts state it. A commit or a
/// release is only made by the holder of a grant, so without one it does
/// nothing.
pub open spec fn step(t: Tally, capacity: nat, op: BookOp) -> Tally {
    let b = t.book;
    match op {
        BookOp::AcquireWrite(size) => match b.write_fit(capacity, size) {
            Some(start) if !b.write_in_progress => Tally {
                book: b.after_acquire_write(start, size),
                writes_out: t.writes_out + 1,
                ..t
            },
            _ => t,
        },
        BookOp::AcquireWriteRemaining => match b.remaining_fit(capacity) {
            Some((start, len)) if !b.write_in_progress => Tally {
                book: b.after_acquire_write(start, len),
                writes_out: t.writes_out + 1,
                ..t
            },
            _ => t,
        },
        BookOp::CommitWrite(used) => if t.writes_out > 0 {
            let used = if used <= b.write_grant_len() {
                used
            } else {
                b.write_grant_len()
            };
            Tally {
                book: b.after_commit_write(capacity, used),
                writes_out: (t.writes_out - 1) as nat,
                ..t
            }
        } else {
            t
        },
        BookOp::ReleaseWrite => if t.writes_out > 0 {
            Tally { book: b.after_release_write(), writes_out: (t.writes_out - 1) as nat, ..t }
        } else {
            t
        },
        BookOp::AcquireRead => if !b.read_in_progress && b.write != b.read_start() {
            Tally { book: b.after_acquire_read(), reads_out: t.reads_out + 1, ..t }
        } else {
            t
        },
        BookOp::CommitRead(used) => if t.reads_out > 0 {
            let used = if used <= b.contiguous_len() {
                used
            } else {
                b.contiguous_len()
            };
            Tally {
                book: b.after_commit_read(used),
                reads_out: (t.reads_out - 1) as nat,
                ..t
            }
        } else {
            t
        },
        BookOp::ReleaseRead => if t.reads_out > 0 {
            Tally {
                book: Book { read_in_progress: false, ..b },
                reads_out: (t.reads_out - 1) as nat,
                ..t
            }
        } else {
            t
        },
    }
}

/// The calls of `ops`, in order, from `t`.
pub open spec fn run(t: Tally, capacity: nat, ops: Seq<BookOp>) -> Tally
    decreases ops.len(),
{
    if ops.len() == 0 {
        t
    } else {
        run(step(t, capacity, ops[0]), capacity, ops.drop_first())
    }
}

/// The invariant that ties the flags to the grants that are out.
pub open spec fn tally_ok(t: Tally, capacity: nat) -> bool {
    &&& capacity <= usize::MAX
    &&& t.book.wf(capacity)
    &&& t.writes_out <= 1
    &&& t.reads_out <= 1
    &&& t.book.write_in_progress <==> t.writes_out == 1
    &&& t.book.read_in_progress <==> t.reads_out == 1
}

proof fn lemma_step_ok(t: Tally, capacity: nat, op: BookOp)
    requires
        tally_ok(t, capacity),
    ensures
        tally_ok(step(t, capacity, op), capacity),
{
    let b = t.book;
    match op {
        BookOp::AcquireWrite(size) => {},
        BookOp::AcquireWriteRemaining => {
            if let Some((start, len)) = b.remaining_fit(capacity) {
                assert(b.write_fit(capacity, len) == Some(start));
            }
        },
        BookOp::CommitWrite(used) => {},
        BookOp::ReleaseWrite => {},
        BookOp::AcquireRead => {},
        BookOp::CommitRead(used) => {},
        BookOp::ReleaseRead => {},
    }
}

proof fn lemma_run_ok(t: Tally, capacity: nat, ops: Seq<BookOp>)
    requires
        tally_ok(t, capacity),
    ensures
        tally_ok(run(t, capacity, ops), capacity),
    decreases ops.len(),
{
    if ops.len() > 0 {
        lemma_step_ok(t, capacity, ops[0]);
        lemma_run_ok(step(t, capacity, ops[0]), capacity, ops.drop_first());
    }
}

/// After any sequence of calls on a new bookkeeper, every cursor lies in
/// `[0, capacity]` and the cursors keep their invariant.
pub proof fn lemma_cursors_in_range(capacity: nat, ops: Seq<BookOp>)
    requires
        capacity <= usize::MAX,
    ensures
        ({
            let b = run(Tally { book: Book::new_spec(), writes_out: 0, reads_out: 0 }, capacity, ops).book;
            &&& b.write <= capacity
            &&& b.read <= capacity
            &&& b.last <= capacity
            &&& b.reserve <= capacity
            &&& b.wf(capacity)
        }),
{
    lemma_run_ok(Tally { book: Book::new_spec(), writes_out: 0, reads_out: 0 }, capacity, ops);
}

/// After any sequence of calls on a new bookkeeper, each in-progress flag is
/// set exactly while a grant of its kind is out, so both are clear whenever
/// no grant is out.
pub proof fn lemma_flags_follow_grants(capacity: nat, ops: Seq<BookOp>)
    requires
        capacity <= usize::MAX,
    ensures
        ({
            let t = run(Tally { book: Book::new_spec(), writes_out: 0, reads_out: 0 }, capacity, ops);
            &&& t.book.write_in_progress <==> t.writes_out > 0
            &&& t.book.read_in_progress <==> t.reads_out > 0
            &&& t.writes_out <= 1
            &&& t.reads_out <= 1
        }),
{
    lemma_run_ok(Tally { book: Book::new_spec(), writes_out: 0, reads_out: 0 }, capacity, ops);
}

/// A grant given back unused leaves the bookkeeper as it was before it was
/// handed out. For a read grant this holds unless acquiring it left a drained
/// high part (`read == last` while inverted), which moves `read` to the front.
pub proof fn lemma_release_restores(b: Book, capacity: nat, size: nat)
    requires
        b.wf(capacity),
    ensures
        !b.write_in_progress && b.write_fit(capacity, size) is Some ==> b.after_acquire_write(
            b.write_fit(capacity, size)->0,
            size,
        ).after_release_write() == b,
        !b.write_in_progress && b.write_fit(capacity, size) is Some ==> b.after_acquire_write(
            b.write_fit(capacity, size)->0,
            size,
        ).after_commit_write(capacity, 0) == b,
        !b.read_in_progress && b.read_start() == b.read ==> (Book {
            read_in_progress: false,
            ..b.after_acquire_read()
        }) == b,
{
}

} // verus!
