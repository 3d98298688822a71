//! The region of a file that holds a blob, and the loop of partial reads or
//! writes that moves it.
//!
//! The calls on the file are the caller's. What is decided here is where the
//! next call stands in the file, which part of the buffer it gets, and what
//! its outcome means.

use vstd::prelude::*;

verus! {

/// A failure to move a region.
#[derive(Debug, Clone, Copy, PartialEq, Eq)]
pub enum RegionError {
    /// The file ended before the region was read in full.
    ShortRead,
    /// A write took no byte while some were still due.
    ShortWrite,
    /// A call reported more bytes than it was given.
    IoError,
}

/// A window of `len` bytes that starts `offset` bytes into a file.
#[derive(Debug, Clone, Copy, PartialEq, Eq)]
pub struct Window {
    offset: u64,
    len: usize,
}

impl Window {
    /// The window ends at a position that a file can have.
    #[verifier::type_invariant]
    pub open spec fn wf(&self) -> bool {
        self.start() + self.size() <= u64::MAX
    }

    /// Where the window starts.
    pub closed spec fn start(&self) -> int {
        self.offset as int
    }

    /// How many bytes the window has.
    pub closed spec fn size(&self) -> int {
        self.len as int
    }

    /// The window of `len` bytes at `offset`, unless it would end beyond
    /// the largest file position.
    pub fn new(offset: u64, len: usize) -> (w: Option<Window>)
        ensures
            w is Some <==> offset + len <= u64::MAX,
            w matches Some(window) ==> window.start() == offset && window.size() == len,
    {
        if len as u64 <= u64::MAX - offset {
            Some(Window { offset, len })
        } else {
            None
        }
    }

    /// Where the window starts.
    pub fn offset(&self) -> (offset: u64)
        ensures
            offset == self.start(),
    {
        self.offset
    }

    /// How many bytes the window has.
    pub fn len(&self) -> (len: usize)
        ensures
            len == self.size(),
    {
        self.len
    }

    /// The position just after the window.
    pub fn end(&self) -> (end: u64)
        ensures
            end == self.start() + self.size(),
    {
        proof {
            use_type_invariant(self);
        }
        self.offset + self.len as u64
    }

    /// Whether a file of `file_len` bytes holds the whole window.
    pub fn fits(&self, file_len: u64) -> (ok: bool)
        ensures
            ok == (self.start() + self.size() <= file_len),
    {
        self.end() <= file_len
    }
}

/// Which way the bytes go.
#[derive(Debug, Clone, Copy, PartialEq, Eq)]
pub enum Direction {
    /// From the file into the buffer.
    Read,
    /// From the buffer into the file.
    Write,
}

/// What the caller does next.
#[derive(Debug, Clone, Copy, PartialEq, Eq)]
pub enum Step {
    /// One call at `position` in the file, on the bytes `from..to` of the buffer.
    Call { position: u64, from: usize, to: usize },
    /// Nothing: the whole window has been moved.
    Finished,
}

/// The progress of moving a window through calls that may each move less
/// than they were given.
#[derive(Debug, Clone, Copy, PartialEq, Eq)]
pub struct Transfer {
    window: Window,
    direction: Direction,
    done: usize,
}

impl Transfer {
    /// No more has been moved than the window holds.
    #[verifier::type_invariant]
    pub open spec fn wf(&self) -> bool {
        self.window().wf() && 0 <= self.moved() <= self.window().size()
    }

    /// The window that is moved.
    pub closed spec fn window(&self) -> Window {
        self.window
    }

    /// Which way the bytes go.
    pub closed spec fn direction(&self) -> Direction {
        self.direction
    }

    /// How many bytes have been moved.
    pub closed spec fn moved(&self) -> int {
        self.done as int
    }

    /// What is to be done next: a call for all that is left, where it
    /// stands in the file, or nothing.
    pub open spec fn step(&self) -> Step {
        if self.moved() < self.window().size() {
            Step::Call {
                position: (self.window().start() + self.moved()) as u64,
                from: self.moved() as usize,
                to: self.window().size() as usize,
            }
        } else {
            Step::Finished
        }
    }

    /// A transfer of `window` in the given direction, with nothing moved yet.
    pub fn new(window: Window, direction: Direction) -> (t: Transfer)
        ensures
            t.window() == window,
            t.direction() == direction,
            t.moved() == 0,
    {
        proof {
            use_type_invariant(&window);
        }
        Transfer { window, direction, done: 0 }
    }

    /// What the caller does next.
    pub fn next(&self) -> (step: Step)
        ensures
            step == self.step(),
    {
        proof {
            use_type_invariant(self);
            use_type_invariant(&self.window);
        }
        if self.done < self.window.len() {
            Step::Call {
                position: self.window.offset() + self.done as u64,
                from: self.done,
                to: self.window.len(),
            }
        } else {
            Step::Finished
        }
    }

    /// Whether a call that moved `count` bytes did what it was asked: it
    /// moved something, and no more than was left.
    pub open spec fn accepts(&self, count: usize) -> bool {
        0 < count <= self.window().size() - self.moved()
    }

    /// What is wrong with a call that moved `count` bytes and is not accepted.
    pub open spec fn refusal(&self, count: usize) -> RegionError {
        if count > 0 {
            RegionError::IoError
        } else {
            match self.direction() {
                Direction::Read => RegionError::ShortRead,
                Direction::Write => RegionError::ShortWrite,
            }
        }
    }

    /// Takes in the outcome of the call that `next` asked for: it moved
    /// `count` bytes. A call that moved nothing ends the transfer as short,
    /// one that moved more than it was given as failed.
    pub fn advance(&mut self, count: usize) -> (r: Result<(), RegionError>)
        ensures
            final(self).window() == old(self).window(),
            final(self).direction() == old(self).direction(),
            match r {
                Ok(()) => old(self).accepts(count) && final(self).moved() == old(self).moved()
                    + count,
                Err(e) => !old(self).accepts(count) && final(self).moved() == old(self).moved()
                    && e == old(self).refusal(count),
            },
    {
        proof {
            use_type_invariant(&*self);
        }
        let left = self.window.len() - self.done;
        if count == 0 {
            match self.direction {
                Direction::Read => Err(RegionError::ShortRead),
                Direction::Write => Err(RegionError::ShortWrite),
            }
        } else if count > left {
            Err(RegionError::IoError)
        } else {
            self.done = self.done + count;
            Ok(())
        }
    }
}

/// Every call that a transfer asks for lies inside its window and reaches
/// the end of it.
pub proof fn lemma_calls_stay_in_window(transfer: Transfer)
    requires
        transfer.wf(),
    ensures
        match transfer.step() {
            Step::Call { position, from, to } => {
                &&& from == transfer.moved()
                &&& to == transfer.window().size()
                &&& from < to
                &&& position == transfer.window().start() + from
                &&& position + (to - from) == transfer.window().start() + transfer.window().size()
            },
            Step::Finished => transfer.moved() == transfer.window().size(),
        },
{
}

/// The sum of `counts`.
pub open spec fn total(counts: Seq<nat>) -> nat
    decreases counts.len(),
{
    if counts.len() == 0 {
        0
    } else {
        total(counts.drop_last()) + counts.last()
    }
}

/// The content of a file after a call wrote `chunk` at `position`, where
/// the file holds that range already.
pub open spec fn write_at(image: Seq<u8>, position: int, chunk: Seq<u8>) -> Seq<u8> {
    Seq::new(
        image.len(),
        |i: int|
            if position <= i < position + chunk.len() {
                chunk[i - position]
            } else {
                image[i]
            },
    )
}

/// The content of a file after the calls of a transfer that writes `bytes`
/// at `offset`, where the calls moved `counts[0]`, `counts[1]`, ... bytes:
/// each call stands where the one before it ended, as `Transfer::step` has it.
pub open spec fn after_writes(image: Seq<u8>, offset: int, bytes: Seq<u8>, counts: Seq<nat>) -> Seq<
    u8,
>
    decreases counts.len(),
{
    if counts.len() == 0 {
        image
    } else {
        let done = total(counts.drop_last()) as int;
        write_at(
            after_writes(image, offset, bytes, counts.drop_last()),
            offset + done,
            bytes.subrange(done, done + counts.last()),
        )
    }
}

/// What a transfer that reads at `offset` has in its buffer after calls
/// that moved `counts[0]`, `counts[1]`, ... bytes.
pub open spec fn after_reads(image: Seq<u8>, offset: int, counts: Seq<nat>) -> Seq<u8>
    decreases counts.len(),
{
    if counts.len() == 0 {
        Seq::empty()
    } else {
        let done = total(counts.drop_last()) as int;
        after_reads(image, offset, counts.drop_last()) + image.subrange(
            offset + done,
            offset + done + counts.last(),
        )
    }
}

/// Region isolation. However the calls of a write transfer split the
/// bytes, the file keeps its length and every byte before and after the
/// window, and what has been moved stands in the window.
pub proof fn lemma_region_isolated(image: Seq<u8>, offset: int, bytes: Seq<u8>, counts: Seq<nat>)
    requires
        0 <= offset,
        offset + bytes.len() <= image.len(),
        total(counts) <= bytes.len(),
    ensures
        after_writes(image, offset, bytes, counts).len() == image.len(),
        forall|i: int|
            0 <= i < offset || offset + total(counts) <= i < image.len() ==> after_writes(
                image,
                offset,
                bytes,
                counts,
            )[i] == image[i],
        after_writes(image, offset, bytes, counts).subrange(offset, offset + total(counts))
            == bytes.take(total(counts) as int),
    decreases counts.len(),
{
    if counts.len() > 0 {
        lemma_region_isolated(image, offset, bytes, counts.drop_last());
        let done = total(counts.drop_last()) as int;
        let before = after_writes(image, offset, bytes, counts.drop_last());
        let after = after_writes(image, offset, bytes, counts);
        assert forall|i: int| 0 <= i < total(counts) implies after[offset + i] == bytes[i] by {
            if i < done {
                assert(before.subrange(offset, offset + done)[i] == bytes.take(done)[i]);
            }
        }
        assert(after.subrange(offset, offset + total(counts)) =~= bytes.take(
            total(counts) as int,
        ));
    } else {
        assert(image.subrange(offset, offset) =~= bytes.take(0));
    }
}

/// However the calls of a read transfer split the window, the buffer
/// holds the bytes of the window that have been moved.
pub proof fn lemma_reads_fill_window(image: Seq<u8>, offset: int, counts: Seq<nat>)
    requires
        0 <= offset,
        offset + total(counts) <= image.len(),
    ensures
        after_reads(image, offset, counts) == image.subrange(offset, offset + total(counts)),
    decreases counts.len(),
{
    if counts.len() > 0 {
        lemma_reads_fill_window(image, offset, counts.drop_last());
        assert(after_reads(image, offset, counts) =~= image.subrange(
            offset,
            offset + total(counts),
        ));
    } else {
        assert(image.subrange(offset, offset) =~= Seq::<u8>::empty());
    }
}

} // verus!
