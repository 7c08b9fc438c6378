//! Uploading an object part by part.

use crate::file_write::{FileWrite, FileWriteView};
use crate::path::path_text;
use crate::payload::{chunks, concat, lemma_concat_one, payload_chunks, slices_view};
use object_store::path::Path;
use object_store::PutPayload;
use vstd::prelude::*;

verus! {

/// What an upload has come to.
pub struct UploadView {
    pub relation_oid: u32,
    pub location: Seq<char>,
    /// The bytes of the parts so far, until the upload is completed or aborted.
    pub buffer: Option<Seq<u8>>,
}

impl UploadView {
    /// The upload after a part with the given chunks has arrived: its bytes
    /// follow those of the parts before. Where the upload is closed, the part
    /// goes nowhere.
    pub open spec fn with_part(self, chunks: Seq<Seq<u8>>) -> UploadView {
        match self.buffer {
            Some(bytes) => UploadView { buffer: Some(bytes + concat(chunks)), ..self },
            None => self,
        }
    }

    /// The upload once it has been completed or aborted.
    pub open spec fn closed(self) -> UploadView {
        UploadView { buffer: None, ..self }
    }
}

/// An upload of an object in parts, which are held back until it is completed.
#[derive(Debug)]
pub struct BlockMultipartWrite {
    inner: Option<Vec<u8>>,
    relation_oid: u32,
    location: Path,
}

impl View for BlockMultipartWrite {
    type V = UploadView;

    closed spec fn view(&self) -> UploadView {
        UploadView {
            relation_oid: self.relation_oid,
            location: path_text(self.location),
            buffer: match self.inner {
                Some(data) => Some(data@),
                None => None,
            },
        }
    }
}

impl BlockMultipartWrite {
    /// An upload without parts yet.
    pub fn new(relation_oid: u32, location: Path) -> (upload: BlockMultipartWrite)
        ensures
            upload@ == (UploadView {
                relation_oid,
                location: path_text(location),
                buffer: Some(Seq::empty()),
            }),
    {
        BlockMultipartWrite { inner: Some(Vec::new()), relation_oid, location }
    }

    /// Whether the upload has been neither completed nor aborted.
    pub fn is_open(&self) -> (open: bool)
        ensures
            open == (self@.buffer is Some),
    {
        self.inner.is_some()
    }

    /// Appends the bytes of `data` to those of the parts before.
    pub fn put_part(&mut self, data: &PutPayload)
        requires
            old(self)@.buffer is Some,
        ensures
            final(self)@ == old(self)@.with_part(payload_chunks(*data)),
            final(self)@ == (UploadView {
                buffer: Some(old(self)@.buffer->0 + concat(payload_chunks(*data))),
                ..old(self)@
            }),
            final(self)@.buffer is Some,
    {
        let ghost all = payload_chunks(*data);
        let ghost before = self@.buffer->0;
        let slices = chunks(data);
        let mut buffer = self.inner.take().unwrap();
        let mut i: usize = 0;
        proof {
            assert(all.take(0) =~= Seq::empty());
            assert(before + concat(all.take(0)) =~= before);
        }
        while i < slices.len()
            invariant
                all == slices_view(slices@),
                i <= slices.len(),
                buffer@ == before + concat(all.take(i as int)),
            decreases slices.len() - i,
        {
            proof {
                assert(all.take(i + 1).drop_last() =~= all.take(i as int));
                assert(all.take(i + 1).last() == slices@[i as int]@);
            }
            buffer.extend_from_slice(slices[i]);
            i = i + 1;
            proof {
                assert(buffer@ =~= before + concat(all.take(i as int)));
            }
        }
        proof {
            assert(all.take(all.len() as int) =~= all);
        }
        self.inner = Some(buffer);
    }

    /// Takes in a part that was handed over earlier, whenever it arrives: as
    /// [`BlockMultipartWrite::put_part`] while the upload is open. A part that
    /// arrives after the upload was closed changes nothing.
    pub fn part_arrived(&mut self, data: &PutPayload)
        ensures
            final(self)@ == old(self)@.with_part(payload_chunks(*data)),
            old(self)@.buffer is None ==> final(self)@ == old(self)@,
            old(self)@.buffer matches Some(bytes) ==> final(self)@ == (UploadView {
                buffer: Some(bytes + concat(payload_chunks(*data))),
                ..old(self)@
            }),
    {
        if self.is_open() {
            self.put_part(data);
        }
    }

    /// Closes the upload and plans the write of the object, whose bytes are
    /// those of its parts. They are moved to `data` until they are written.
    pub fn complete<'a>(&mut self, data: &'a mut Vec<u8>) -> (write: FileWrite<'a>)
        requires
            old(self)@.buffer is Some,
        ensures
            write@ == FileWriteView::start(
                old(self)@.relation_oid,
                old(self)@.location,
                seq![old(self)@.buffer->0],
            ),
            write@.relation_oid == old(self)@.relation_oid,
            write@.location == old(self)@.location,
            write@.chunks == seq![old(self)@.buffer->0],
            write@.block is None,
            write@.position == 0,
            final(data)@ == old(self)@.buffer->0,
            final(self)@ == old(self)@.closed(),
            final(self)@ == (UploadView { buffer: None, ..old(self)@ }),
    {
        *data = self.inner.take().unwrap();
        let bytes: &'a [u8] = data.as_slice();
        let mut slices: Vec<&'a [u8]> = Vec::new();
        slices.push(bytes);
        proof {
            assert(slices_view(slices@) =~= seq![bytes@]);
            lemma_concat_one(bytes@);
        }
        FileWrite::new(self.relation_oid, self.location.clone(), slices, bytes.len())
    }

    /// Closes the upload and drops its parts.
    pub fn abort(&mut self)
        requires
            old(self)@.buffer is Some,
        ensures
            final(self)@ == old(self)@.closed(),
            final(self)@ == (UploadView { buffer: None, ..old(self)@ }),
    {
        let _ = self.inner.take();
    }
}

} // verus!
