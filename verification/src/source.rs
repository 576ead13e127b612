//! Where the lexer gets its bytes from.
use vstd::prelude::*;

verus! {

/// Why a source could not be read.
#[derive(Clone, Debug, PartialEq, Eq)]
pub struct SourceError {
    pub message: String,
}

/// A stream of bytes that is read front to back, some bytes at a time.
pub trait ByteSource {
    /// The bytes that the source has yet to hand out.
    spec fn remaining(&self) -> Seq<u8>;

    /// Whether reading from the source never fails.
    spec fn reliable(&self) -> bool;

    /// Moves the next bytes of the stream to the front of `buf` and returns
    /// their number, which is 0 only when the stream is at its end or `buf`
    /// has no room. A failed read takes nothing from the stream.
    fn read(&mut self, buf: &mut Vec<u8>) -> (count: Result<usize, SourceError>)
        ensures
            final(buf).len() == old(buf).len(),
            final(self).reliable() == old(self).reliable(),
            old(self).reliable() ==> count is Ok,
            match count {
                Ok(n) => {
                    &&& n <= old(buf).len()
                    &&& n <= old(self).remaining().len()
                    &&& n == 0 ==> old(self).remaining().len() == 0 || old(buf).len() == 0
                    &&& final(buf)@.take(n as int) == old(self).remaining().take(n as int)
                    &&& final(self).remaining() == old(self).remaining().skip(n as int)
                },
                Err(_) => final(self).remaining() == old(self).remaining(),
            },
    ;
}

/// A source that hands out bytes held in memory.
pub struct MemorySource {
    data: Vec<u8>,
    offset: usize,
}

impl MemorySource {
    /// A source that will hand out `data`.
    pub fn new(data: Vec<u8>) -> (source: MemorySource)
        ensures
            source.remaining() == data@,
            source.reliable(),
    {
        let source = MemorySource { data, offset: 0 };
        assert(source.data@.skip(0) =~= source.data@);
        source
    }
}

impl ByteSource for MemorySource {
    closed spec fn remaining(&self) -> Seq<u8> {
        if self.offset <= self.data.len() {
            self.data@.skip(self.offset as int)
        } else {
            Seq::empty()
        }
    }

    open spec fn reliable(&self) -> bool {
        true
    }

    fn read(&mut self, buf: &mut Vec<u8>) -> (count: Result<usize, SourceError>) {
        let ghost before = self.remaining();
        if self.offset >= self.data.len() {
            assert(before.len() == 0);
            assert(before.skip(0) =~= before);
            assert(buf@.take(0) =~= before.take(0));
            return Ok(0);
        }
        let left: usize = self.data.len() - self.offset;
        let count: usize = if left < buf.len() { left } else { buf.len() };
        let mut i: usize = 0;
        while i < count
            invariant
                i <= count,
                count <= buf.len(),
                buf.len() == old(buf).len(),
                self.offset + count <= self.data.len(),
                self.offset == old(self).offset,
                self.data == old(self).data,
                forall|j: int| 0 <= j < i ==> buf@[j] == self.data@[self.offset + j],
            decreases count - i,
        {
            let byte: u8 = self.data[self.offset + i];
            buf.set(i, byte);
            i += 1;
        }
        self.offset += count;
        assert(buf@.take(count as int) =~= before.take(count as int));
        assert(self.remaining() =~= before.skip(count as int));
        Ok(count)
    }
}

} // verus!
