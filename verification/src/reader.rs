//! Reading a file by position.

use crate::file_map::FileEntry;
use crate::storage::ReadRequest;
use vstd::prelude::*;

verus! {

/// A reader of the file that `entry` tells of, in the relation `oid`.
#[derive(Clone, Copy, Debug)]
pub struct BlockReader {
    pub entry: FileEntry,
    pub oid: u32,
}

impl BlockReader {
    /// The read of `len` bytes from the position `pos` on. Positions are
    /// counted in a `usize`, to which both numbers are cut.
    pub fn read_byte_range(&self, pos: u64, len: u64) -> (request: ReadRequest)
        requires
            (pos as usize) + (len as usize) <= usize::MAX,
        ensures
            request.relation_oid == self.oid,
            request.staring_block == self.entry.staring_block,
            request.range.start == pos as usize,
            request.range.end == (pos as usize) + (len as usize),
    {
        let start: usize = pos as usize;
        let count: usize = len as usize;
        ReadRequest {
            relation_oid: self.oid,
            staring_block: self.entry.staring_block,
            range: start..start + count,
        }
    }

    /// How many bytes the file holds.
    pub fn size(&self) -> (size: u64)
        ensures
            size == self.entry.total_bytes,
    {
        self.entry.total_bytes as u64
    }
}

} // verus!
