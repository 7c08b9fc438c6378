//! Writing a file buffer by buffer.

use crate::file_map::FileEntry;
use crate::payload::{concat, slices_view};
use crate::storage::{AppendView, BlockAppend};
use vstd::prelude::*;

verus! {

/// A writer of a file in the relation `oid`; `entry` tells of what has been
/// written.
#[derive(Debug)]
pub struct BlockWriter {
    pub entry: FileEntry,
    pub oid: u32,
}

impl BlockWriter {
    /// The writer of the empty list with the given header block, which has
    /// been created in the relation.
    pub fn new(relation_oid: u32, header_blockno: u32) -> (writer: BlockWriter)
        ensures
            writer.oid == relation_oid,
            writer.entry == (FileEntry { staring_block: header_blockno, total_bytes: 0 }),
    {
        BlockWriter {
            oid: relation_oid,
            entry: FileEntry { staring_block: header_blockno, total_bytes: 0 },
        }
    }

    /// The append of `buffer` to the file.
    pub fn write_all<'a>(&self, buffer: &'a [u8]) -> (append: BlockAppend<'a>)
        ensures
            append@ == (AppendView { chunks: seq![buffer@], position: 0 }),
    {
        let mut chunks: Vec<&'a [u8]> = Vec::new();
        chunks.push(buffer);
        proof {
            assert(slices_view(chunks@) =~= seq![buffer@]);
        }
        BlockAppend::new(chunks)
    }

    /// Takes note of `append`, of which all has been performed, in the entry.
    pub fn written(&mut self, append: BlockAppend<'_>)
        requires
            append@.done(),
            old(self).entry.total_bytes + concat(append@.chunks).len() <= usize::MAX,
        ensures
            final(self).oid == old(self).oid,
            final(self).entry.staring_block == old(self).entry.staring_block,
            final(self).entry.total_bytes == old(self).entry.total_bytes + concat(
                append@.chunks,
            ).len(),
    {
        let len: usize = append.total_len();
        self.entry.total_bytes = self.entry.total_bytes + len;
    }
}

} // verus!
