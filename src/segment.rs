//! Entry handles and the write position of a segment file.
use vstd::prelude::*;

verus! {

/// Identifies a segment (or manifest) file.
pub type FileId = u64;

/// Segment id 0 is reserved as "unset" and never names a file.
pub const INVALID_FILE_ID: FileId = 0;

/// Locates one framed entry: its segment, byte offset and byte length.
#[derive(Debug, Clone, Copy, PartialEq, Eq, Structural)]
pub struct EntryHandle {
    pub file_id: FileId,
    pub offset: u64,
    pub length: u64,
}

/// The bookkeeping of one append-only segment file: its id and the tail
/// offset where the next append lands. The file itself is written by the
/// caller; the tail only moves forward.
#[derive(Debug)]
pub struct LogFile {
    id: FileId,
    offset: u64,
}

impl LogFile {
    /// The segment's id.
    pub closed spec fn id(&self) -> FileId {
        self.id
    }

    /// The segment's tail offset.
    pub closed spec fn tail(&self) -> u64 {
        self.offset
    }

    /// A fresh, empty segment.
    pub fn new(id: FileId) -> (r: LogFile)
        ensures
            r.id() == id,
            r.tail() == 0,
    {
        LogFile { id, offset: 0 }
    }

    pub fn get_offset(&self) -> (r: u64)
        ensures
            r == self.tail(),
    {
        self.offset
    }

    pub fn get_file_id(&self) -> (r: FileId)
        ensures
            r == self.id(),
    {
        self.id
    }

    /// Moves the tail past `n` bytes that were written at it.
    pub fn advance(&mut self, n: u64)
        requires
            old(self).tail() + n <= u64::MAX,
        ensures
            final(self).id() == old(self).id(),
            final(self).tail() == old(self).tail() + n,
    {
        self.offset = self.offset + n;
    }

    /// Records a frame of `length` bytes written in full at the tail, and
    /// returns the handle that denotes exactly those bytes.
    pub fn append(&mut self, length: u64) -> (r: EntryHandle)
        requires
            old(self).tail() + length <= u64::MAX,
        ensures
            final(self).id() == old(self).id(),
            final(self).tail() == old(self).tail() + length,
            r == (EntryHandle { file_id: old(self).id(), offset: old(self).tail(), length }),
    {
        let origin = self.offset;
        self.offset = self.offset + length;
        EntryHandle { file_id: self.id, offset: origin, length: self.offset - origin }
    }
}

} // verus!
