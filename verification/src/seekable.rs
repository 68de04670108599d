//! Slice-backed readers and writers with a cursor and checked seeking.
use vstd::prelude::*;

use crate::error::SeekableError;

verus! {

/// A seek target, relative to the start, the end or the current position.
#[derive(Clone, Copy, Debug, PartialEq, Eq)]
pub enum SeekFrom {
    /// An absolute position.
    Start(u64),
    /// The length of the buffer plus this offset.
    End(i64),
    /// The current position plus this offset.
    Current(i64),
}

/// The position a seek asks for, given the buffer length and the current
/// position (possibly negative or past the end).
pub open spec fn seek_target(pos: SeekFrom, len: int, current: int) -> int {
    match pos {
        SeekFrom::Start(offset) => offset as int,
        SeekFrom::End(offset) => len + offset,
        SeekFrom::Current(offset) => current + offset,
    }
}

/// Computes the position a seek asks for, when it lies within `0..=len`.
fn checked_seek_target(pos: SeekFrom, len: usize, current: usize) -> (r: Option<usize>)
    requires
        current <= len,
    ensures
        match r {
            Some(t) => t == seek_target(pos, len as int, current as int) && t <= len,
            None => !(0 <= seek_target(pos, len as int, current as int) <= len as int),
        },
{
    let target: i128 = match pos {
        SeekFrom::Start(offset) => offset as i128,
        SeekFrom::End(offset) => len as i128 + offset as i128,
        SeekFrom::Current(offset) => current as i128 + offset as i128,
    };
    if target < 0 || target > len as i128 {
        None
    } else {
        Some(target as usize)
    }
}

/// A reader over an immutable byte slice, with a cursor.
pub struct InputSeekable<'a> {
    buf: &'a [u8],
    idx: usize,
}

impl<'a> InputSeekable<'a> {
    /// The bytes being read.
    pub closed spec fn contents(&self) -> Seq<u8> {
        self.buf@
    }

    /// The cursor.
    pub closed spec fn position(&self) -> int {
        self.idx as int
    }

    /// The cursor lies within the buffer.
    pub closed spec fn wf(&self) -> bool {
        self.idx <= self.buf@.len()
    }

    /// Creates a reader positioned at the start of `buf`.
    pub fn new(buf: &'a [u8]) -> (r: Self)
        ensures
            r.wf(),
            r.contents() == buf@,
            r.position() == 0,
    {
        InputSeekable { buf, idx: 0 }
    }

    /// The cursor.
    pub fn pos(&self) -> (p: usize)
        ensures
            p == self.position(),
    {
        self.idx
    }

    /// The cursor of a well-formed reader lies within its contents.
    pub proof fn lemma_position(&self)
        requires
            self.wf(),
        ensures
            0 <= self.position() <= self.contents().len(),
    {
    }

    /// Reads the byte at the cursor and advances past it; `None` at the end.
    pub fn read_byte(&mut self) -> (r: Option<u8>)
        requires
            old(self).wf(),
        ensures
            final(self).wf(),
            final(self).contents() == old(self).contents(),
            if old(self).position() < old(self).contents().len() {
                &&& r == Some(old(self).contents()[old(self).position()])
                &&& final(self).position() == old(self).position() + 1
            } else {
                &&& r is None
                &&& final(self).position() == old(self).position()
            },
    {
        if self.idx < self.buf.len() {
            let b = self.buf[self.idx];
            self.idx = self.idx + 1;
            Some(b)
        } else {
            None
        }
    }

    /// Reads up to `out.len()` bytes from the cursor into the start of `out`;
    /// returns how many were read (zero at the end of the buffer).
    pub fn read(&mut self, out: &mut [u8]) -> (n: usize)
        requires
            old(self).wf(),
        ensures
            final(self).wf(),
            final(self).contents() == old(self).contents(),
            n == vstd::math::min(
                old(out)@.len() as int,
                old(self).contents().len() - old(self).position(),
            ),
            final(self).position() == old(self).position() + n,
            final(out)@.len() == old(out)@.len(),
            final(out)@.take(n as int) == old(self).contents().subrange(
                old(self).position(),
                old(self).position() + n,
            ),
            final(out)@.skip(n as int) == old(out)@.skip(n as int),
    {
        let remaining = self.buf.len() - self.idx;
        let n = if out.len() < remaining {
            out.len()
        } else {
            remaining
        };
        let base = self.idx;
        let buf = self.buf;
        let blen = buf.len();
        let mut i: usize = 0;
        while i < n
            invariant
                i <= n,
                n <= out@.len(),
                base + n <= blen,
                blen == buf@.len(),
                buf@ == old(self).buf@,
                base == old(self).idx,
                out@.len() == old(out)@.len(),
                forall|j: int| 0 <= j < i ==> out@[j] == buf@[base + j],
                forall|j: int| i <= j < out@.len() ==> out@[j] == old(out)@[j],
            decreases n - i,
        {
            out[i] = buf[base + i];
            i += 1;
        }
        proof {
            assert(out@.take(n as int) =~= self.buf@.subrange(self.idx as int, self.idx + n));
            assert(out@.skip(n as int) =~= old(out)@.skip(n as int));
        }
        self.idx = self.idx + n;
        n
    }

    /// Moves the cursor. Positions before the start or past the end of the
    /// buffer are rejected and leave the cursor unchanged.
    pub fn seek(&mut self, pos: SeekFrom) -> (r: Result<u64, SeekableError>)
        requires
            old(self).wf(),
        ensures
            final(self).wf(),
            final(self).contents() == old(self).contents(),
            ({
                let t = seek_target(pos, old(self).contents().len() as int, old(self).position());
                if 0 <= t <= old(self).contents().len() {
                    r == Ok::<u64, SeekableError>(t as u64) && final(self).position() == t
                } else {
                    r == Err::<u64, SeekableError>(SeekableError::OutOfBounds) && final(self).position()
                        == old(self).position()
                }
            }),
    {
        match checked_seek_target(pos, self.buf.len(), self.idx) {
            Some(t) => {
                self.idx = t;
                Ok(t as u64)
            },
            None => Err(SeekableError::OutOfBounds),
        }
    }
}

/// A writer into a mutable byte slice, with a cursor. Writes never extend
/// past the end of the slice.
pub struct OutputSeekable<'a> {
    buf: &'a mut [u8],
    idx: usize,
}

impl<'a> OutputSeekable<'a> {
    /// The bytes of the backing slice.
    pub closed spec fn contents(&self) -> Seq<u8> {
        self.buf@
    }

    /// The cursor.
    pub closed spec fn position(&self) -> int {
        self.idx as int
    }

    /// The cursor lies within the buffer.
    pub closed spec fn wf(&self) -> bool {
        self.idx <= self.buf@.len()
    }

    /// Creates a writer positioned at the start of `buf`.
    pub fn new(buf: &'a mut [u8]) -> (r: Self)
        ensures
            r.wf(),
            r.contents() == old(buf)@,
            r.position() == 0,
    {
        OutputSeekable { buf, idx: 0 }
    }

    /// The cursor.
    pub fn pos(&self) -> (p: usize)
        ensures
            p == self.position(),
    {
        self.idx
    }

    /// The cursor of a well-formed writer lies within its buffer.
    pub proof fn lemma_position(&self)
        requires
            self.wf(),
        ensures
            0 <= self.position() <= self.contents().len(),
    {
    }

    /// The backing slice.
    pub fn as_slice(&self) -> (s: &[u8])
        ensures
            s@ == self.contents(),
    {
        self.buf
    }

    /// Writes all of `data` at the cursor and advances it. Fails, writing
    /// nothing, when `data` does not fit before the end of the slice.
    pub fn write(&mut self, data: &[u8]) -> (r: Result<usize, SeekableError>)
        requires
            old(self).wf(),
        ensures
            final(self).wf(),
            final(self).contents().len() == old(self).contents().len(),
            if data@.len() <= old(self).contents().len() - old(self).position() {
                &&& r == Ok::<usize, SeekableError>(data@.len() as usize)
                &&& final(self).position() == old(self).position() + data@.len()
                &&& final(self).contents() == old(self).contents().take(old(self).position())
                    + data@ + old(self).contents().skip(old(self).position() + data@.len())
            } else {
                &&& r == Err::<usize, SeekableError>(SeekableError::OutOfBounds)
                &&& *final(self) == *old(self)
            },
    {
        if data.len() > self.buf.len() - self.idx {
            return Err(SeekableError::OutOfBounds);
        }
        let len = data.len();
        let start = self.idx;
        let blen = self.buf.len();
        let mut i: usize = 0;
        while i < len
            invariant
                i <= len,
                len == data@.len(),
                start + len <= blen,
                blen == self.buf@.len(),
                self.idx == start,
                self.buf@.len() == old(self).buf@.len(),
                forall|j: int| 0 <= j < start ==> self.buf@[j] == old(self).buf@[j],
                forall|j: int| 0 <= j < i ==> self.buf@[start + j] == data@[j],
                forall|j: int| start + i <= j < self.buf@.len() ==> self.buf@[j] == old(self).buf@[j],
            decreases len - i,
        {
            self.buf[start + i] = data[i];
            i += 1;
        }
        proof {
            assert(self.buf@ =~= old(self).buf@.take(start as int) + data@ + old(self).buf@.skip(
                start + len,
            ));
        }
        self.idx = start + len;
        Ok(len)
    }

    /// Moves the cursor. Positions before the start or past the end of the
    /// slice are rejected and leave the cursor unchanged.
    pub fn seek(&mut self, pos: SeekFrom) -> (r: Result<u64, SeekableError>)
        requires
            old(self).wf(),
        ensures
            final(self).wf(),
            final(self).contents() == old(self).contents(),
            ({
                let t = seek_target(pos, old(self).contents().len() as int, old(self).position());
                if 0 <= t <= old(self).contents().len() {
                    r == Ok::<u64, SeekableError>(t as u64) && final(self).position() == t
                } else {
                    r == Err::<u64, SeekableError>(SeekableError::OutOfBounds) && final(self).position()
                        == old(self).position()
                }
            }),
    {
        match checked_seek_target(pos, self.buf.len(), self.idx) {
            Some(t) => {
                self.idx = t;
                Ok(t as u64)
            },
            None => Err(SeekableError::OutOfBounds),
        }
    }
}

} // verus!
