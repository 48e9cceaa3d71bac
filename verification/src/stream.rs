use vstd::prelude::*;
use crate::error::ElfError;
use crate::util::overlay;
use crate::util::ByteStream;
use crate::util::ReadExt;
use crate::util::SeekExt;
use crate::util::WriteExt;

verus! {

/// A cursor that reads from borrowed bytes.
#[derive(Debug, Clone, Copy)]
pub struct Reader<'a> {
    pub data: &'a [u8],
    pub pos: u64,
}

impl<'a> Reader<'a> {
    /// A reader at the start of `data`.
    pub fn new(data: &'a [u8]) -> (r: Reader<'a>)
        ensures
            r.data@ == data@,
            r.pos == 0,
    {
        Reader { data, pos: 0 }
    }
}

impl<'a> ByteStream for Reader<'a> {
    open spec fn bytes(&self) -> Seq<u8> {
        self.data@
    }

    open spec fn cursor(&self) -> nat {
        self.pos as nat
    }

    proof fn lemma_held_in_memory(&self) {
        assert(self.data@.len() == self.data.len());
    }
}

impl<'a> SeekExt for Reader<'a> {
    fn stream_position(&self) -> (pos: u64) {
        self.pos
    }

    fn seek(&mut self, pos: u64) {
        self.pos = pos;
    }
}

impl<'a> ReadExt for Reader<'a> {
    fn read_exact(&mut self, count: usize) -> (r: Result<Vec<u8>, ElfError>) {
        let len: usize = self.data.len();
        if self.pos > len as u64 {
            return Err(ElfError::TruncatedInput);
        }
        let start: usize = self.pos as usize;
        if count > len - start {
            return Err(ElfError::TruncatedInput);
        }
        let mut out: Vec<u8> = Vec::new();
        let mut i: usize = 0;
        while i < count
            invariant
                i <= count,
                start + count <= len,
                len == self.data@.len(),
                out@ == self.data@.subrange(start as int, start + i),
            decreases count - i,
        {
            out.push(self.data[start + i]);
            i += 1;
        }
        self.pos = (start + count) as u64;
        Ok(out)
    }
}

/// A growable image with a cursor, for writing at any place.
#[derive(Debug, Clone)]
pub struct Cursor {
    pub data: Vec<u8>,
    pub pos: u64,
}

impl Cursor {
    /// A cursor at the start of `data`.
    pub fn new(data: Vec<u8>) -> (c: Cursor)
        ensures
            c.data@ == data@,
            c.pos == 0,
    {
        Cursor { data, pos: 0 }
    }

    /// The image that was written.
    pub fn into_inner(self) -> (data: Vec<u8>)
        ensures
            data@ == self.data@,
    {
        self.data
    }
}

impl ByteStream for Cursor {
    open spec fn bytes(&self) -> Seq<u8> {
        self.data@
    }

    open spec fn cursor(&self) -> nat {
        self.pos as nat
    }

    proof fn lemma_held_in_memory(&self) {
        assert(self.data@.len() == self.data.len());
    }
}

impl SeekExt for Cursor {
    fn stream_position(&self) -> (pos: u64) {
        self.pos
    }

    fn seek(&mut self, pos: u64) {
        self.pos = pos;
    }
}

impl WriteExt for Cursor {
    fn write_all(&mut self, bytes: &[u8]) -> (r: Result<usize, ElfError>) {
        let count: usize = bytes.len();
        if self.pos > usize::MAX as u64 {
            return Err(ElfError::OffsetOverflow);
        }
        let start: usize = self.pos as usize;
        if count > usize::MAX - start {
            return Err(ElfError::OffsetOverflow);
        }
        let ghost before = self.data@;
        while self.data.len() < start
            invariant
                before.len() <= self.data@.len() || self.data@ == before,
                self.data@.len() <= start || self.data@ == before,
                forall|j: int| 0 <= j < before.len() ==> self.data@[j] == before[j],
                forall|j: int| before.len() <= j < self.data@.len() ==> self.data@[j] == 0u8,
            decreases start - self.data@.len(),
        {
            self.data.push(0u8);
        }
        let ghost padded = self.data@;
        let mut i: usize = 0;
        while i < count
            invariant
                i <= count,
                count == bytes@.len(),
                start + count <= usize::MAX,
                start <= padded.len(),
                self.data@ == overlay(padded, start as nat, bytes@.take(i as int)),
            decreases count - i,
        {
            if start + i < self.data.len() {
                self.data.set(start + i, bytes[i]);
            } else {
                self.data.push(bytes[i]);
            }
            i += 1;
            assert(self.data@ =~= overlay(padded, start as nat, bytes@.take(i as int)));
        }
        assert(bytes@.take(count as int) =~= bytes@);
        assert(self.data@ =~= overlay(before, start as nat, bytes@));
        self.pos = (start + count) as u64;
        Ok(count)
    }
}

impl ByteStream for Vec<u8> {
    open spec fn bytes(&self) -> Seq<u8> {
        self@
    }

    open spec fn cursor(&self) -> nat {
        self@.len()
    }

    proof fn lemma_held_in_memory(&self) {
        assert(self@.len() == self.len());
    }
}

impl WriteExt for Vec<u8> {
    /// Appends `bytes`.
    fn write_all(&mut self, bytes: &[u8]) -> (r: Result<usize, ElfError>)
        ensures
            r is Ok ==> final(self)@ == old(self)@ + bytes@,
    {
        let count: usize = bytes.len();
        if count > usize::MAX - self.len() {
            return Err(ElfError::OffsetOverflow);
        }
        let ghost before = self@;
        let mut i: usize = 0;
        while i < count
            invariant
                i <= count,
                count == bytes@.len(),
                self@ == before + bytes@.take(i as int),
            decreases count - i,
        {
            self.push(bytes[i]);
            i += 1;
            assert(self@ =~= before + bytes@.take(i as int));
        }
        assert(bytes@.take(count as int) =~= bytes@);
        assert(self@ =~= overlay(before, before.len(), bytes@));
        Ok(count)
    }
}

} // verus!
