//! The bytes of a snapshot, with a read and write position.
use vstd::prelude::*;

use crate::engine::EngineError;

verus! {

/// A snapshot of the in-memory engine: an encoding of every table, read and
/// written from a position as a file is.
#[derive(Debug)]
pub struct MemorySnapshot {
    data: Vec<u8>,
    pos: usize,
}

/// The bytes after writing `buf` at `pos` over `data`, which is first
/// padded with zeros up to `pos`.
pub open spec fn written(data: Seq<u8>, pos: int, buf: Seq<u8>) -> Seq<u8> {
    let n = if pos + buf.len() > data.len() {
        pos + buf.len()
    } else {
        data.len() as int
    };
    Seq::new(
        n as nat,
        |i: int|
            if pos <= i < pos + buf.len() {
                buf[i - pos]
            } else if i < data.len() {
                data[i]
            } else {
                0u8
            },
    )
}

impl MemorySnapshot {
    /// The bytes held.
    pub closed spec fn data(&self) -> Seq<u8> {
        self.data@
    }

    /// The read and write position.
    pub closed spec fn position(&self) -> nat {
        self.pos as nat
    }

    /// An empty snapshot at position zero.
    pub fn new() -> (r: MemorySnapshot)
        ensures
            r.data().len() == 0,
            r.position() == 0,
    {
        MemorySnapshot { data: Vec::new(), pos: 0 }
    }

    /// A snapshot of `data`, at position zero.
    pub fn from_bytes(data: Vec<u8>) -> (r: MemorySnapshot)
        ensures
            r.data() == data@,
            r.position() == 0,
    {
        MemorySnapshot { data, pos: 0 }
    }

    /// The bytes held, given up.
    pub fn into_bytes(self) -> (r: Vec<u8>)
        ensures
            r@ == self.data(),
    {
        self.data
    }

    /// The number of bytes held.
    pub fn size(&self) -> (r: u64)
        ensures
            r == self.data().len() as u64,
    {
        self.data.len() as u64
    }

    /// Fills `buf` from the position on and moves past what was read; fails
    /// when fewer bytes than `buf` holds are left.
    pub fn read_exact(&mut self, buf: &mut Vec<u8>) -> (r: Result<(), EngineError>)
        ensures
            old(self).position() + old(buf)@.len() <= old(self).data().len() ==> {
                &&& r is Ok
                &&& final(buf)@ == old(self).data().subrange(
                    old(self).position() as int,
                    (old(self).position() + old(buf)@.len()) as int,
                )
                &&& final(self).data() == old(self).data()
                &&& final(self).position() == old(self).position() + old(buf)@.len()
            },
            old(self).position() + old(buf)@.len() > old(self).data().len() ==> {
                &&& r matches Err(EngineError::UnexpectedEof)
                &&& *final(self) == *old(self)
                &&& final(buf)@ == old(buf)@
            },
    {
        if self.pos > self.data.len() || buf.len() > self.data.len() - self.pos {
            return Err(EngineError::UnexpectedEof);
        }
        let start = self.pos;
        let n = self.data.len();
        let mut i: usize = 0;
        while i < buf.len()
            invariant
                start == self.pos,
                n == self.data@.len(),
                start + buf@.len() <= self.data@.len(),
                buf@.len() == old(buf)@.len(),
                i <= buf@.len(),
                forall|j: int| 0 <= j < i ==> buf@[j] == self.data@[start + j],
            decreases buf@.len() - i,
        {
            buf.set(i, self.data[start + i]);
            i = i + 1;
        }
        assert(buf@ =~= self.data@.subrange(start as int, start + buf@.len()));
        self.pos = start + buf.len();
        Ok(())
    }

    /// Writes `buf` at the position, padding with zeros up to it, and moves
    /// past what was written.
    pub fn write_all(&mut self, buf: &[u8]) -> (r: Result<(), EngineError>)
        requires
            old(self).position() + buf@.len() <= usize::MAX,
        ensures
            r is Ok,
            final(self).data() == written(old(self).data(), old(self).position() as int, buf@),
            final(self).position() == old(self).position() + buf@.len(),
    {
        let ghost d0 = self.data@;
        let pos = self.pos;
        while self.data.len() < pos
            invariant
                self.pos == pos,
                d0.len() <= self.data@.len(),
                self.data@.len() <= pos || self.data@.len() == d0.len(),
                forall|j: int| 0 <= j < self.data@.len() ==> #[trigger] self.data@[j] == if j < d0.len() {
                    d0[j]
                } else {
                    0u8
                },
            decreases pos - self.data@.len(),
        {
            self.data.push(0u8);
        }
        let mut i: usize = 0;
        while i < buf.len()
            invariant
                self.pos == pos,
                pos + buf@.len() <= usize::MAX,
                i <= buf@.len(),
                d0.len() <= self.data@.len(),
                pos <= self.data@.len(),
                self.data@.len() == if pos + i > d0.len() && pos + i > pos {
                    pos + i
                } else if pos > d0.len() {
                    pos as int
                } else {
                    d0.len() as int
                },
                forall|j: int|
                    0 <= j < self.data@.len() ==> #[trigger] self.data@[j] == if pos <= j < pos + i {
                        buf@[j - pos]
                    } else if j < d0.len() {
                        d0[j]
                    } else {
                        0u8
                    },
            decreases buf@.len() - i,
        {
            if pos + i < self.data.len() {
                self.data.set(pos + i, buf[i]);
            } else {
                self.data.push(buf[i]);
            }
            i = i + 1;
        }
        assert(self.data@ =~= written(d0, pos as int, buf@));
        self.pos = pos + buf.len();
        Ok(())
    }

    /// Moves the position back to the start.
    pub fn rewind(&mut self) -> (r: Result<(), EngineError>)
        ensures
            r is Ok,
            final(self).data() == old(self).data(),
            final(self).position() == 0,
    {
        self.pos = 0;
        Ok(())
    }

    /// Drops every byte; the position stays.
    pub fn clean(&mut self) -> (r: Result<(), EngineError>)
        ensures
            r is Ok,
            final(self).data().len() == 0,
            final(self).position() == old(self).position(),
    {
        self.data.clear();
        Ok(())
    }
}

} // verus!
