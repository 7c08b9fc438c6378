//! Writing an object: its bytes go to a new linked block list, and once they
//! are flushed the store maps the object's location to the list.

use crate::file_map::FileEntry;
use crate::options::{PutResult, StoreError, STORE_NAME};
use crate::path::path_text;
use crate::payload::{concat, slices_view};
use crate::storage::{append_script, BlockAppend, StorageAction, StorageOp};
use crate::store::BlockObjectStore;
use object_store::path::Path;
use vstd::prelude::*;

verus! {

/// The operations that write `chunks` to a new list in the relation.
pub open spec fn file_script(relation_oid: u32, chunks: Seq<Seq<u8>>) -> Seq<StorageOp> {
    seq![StorageOp::Create { relation_oid }] + append_script(chunks)
}

/// How far the write of an object has come.
pub struct FileWriteView {
    pub relation_oid: u32,
    pub location: Seq<char>,
    /// The bytes of the object, chunk by chunk.
    pub chunks: Seq<Seq<u8>>,
    /// The header block of the new list, once it has been created.
    pub block: Option<u32>,
    /// How many operations of the script have been performed.
    pub position: nat,
}

impl FileWriteView {
    pub open spec fn start(relation_oid: u32, location: Seq<char>, chunks: Seq<Seq<u8>>) -> Self {
        FileWriteView { relation_oid, location, chunks, block: None, position: 0 }
    }

    pub open spec fn script(self) -> Seq<StorageOp> {
        file_script(self.relation_oid, self.chunks)
    }

    pub open spec fn done(self) -> bool {
        self.position == self.script().len()
    }

    /// The file that holds the object in the end.
    pub open spec fn entry(self) -> FileEntry {
        FileEntry {
            staring_block: self.block->0,
            total_bytes: concat(self.chunks).len() as usize,
        }
    }
}

/// The write of an object, under way.
#[derive(Debug)]
pub struct FileWrite<'a> {
    relation_oid: u32,
    location: Path,
    total_bytes: usize,
    block: Option<u32>,
    append: BlockAppend<'a>,
}

impl<'a> View for FileWrite<'a> {
    type V = FileWriteView;

    closed spec fn view(&self) -> FileWriteView {
        FileWriteView {
            relation_oid: self.relation_oid,
            location: path_text(self.location),
            chunks: self.append@.chunks,
            block: self.block,
            position: if self.block is Some {
                self.append@.position + 1
            } else {
                0
            },
        }
    }
}

impl<'a> FileWrite<'a> {
    #[verifier::type_invariant]
    spec fn well_formed(self) -> bool {
        &&& self.total_bytes == concat(self.append@.chunks).len()
        &&& self.block is None ==> self.append@.position == 0
    }

    /// The write of an object of which nothing has been performed.
    pub fn new(
        relation_oid: u32,
        location: Path,
        chunks: Vec<&'a [u8]>,
        total_bytes: usize,
    ) -> (write: FileWrite<'a>)
        requires
            total_bytes == concat(slices_view(chunks@)).len(),
        ensures
            write@ == FileWriteView::start(
                relation_oid,
                path_text(location),
                slices_view(chunks@),
            ),
            write@.relation_oid == relation_oid,
            write@.location == path_text(location),
            write@.chunks.len() == chunks@.len(),
            forall|i: int| 0 <= i < chunks@.len() ==> #[trigger] write@.chunks[i] == chunks@[i]@,
            write@.block is None,
            write@.position == 0,
    {
        FileWrite {
            relation_oid,
            location,
            total_bytes,
            block: None,
            append: BlockAppend::new(chunks),
        }
    }

    /// The relation in which the object is written.
    pub fn oid(&self) -> (oid: u32)
        ensures
            oid == self@.relation_oid,
    {
        self.relation_oid
    }

    /// The operation to be performed next; none when all have been.
    pub fn action(&self) -> (action: Option<StorageAction<'a>>)
        ensures
            self@.position <= self@.script().len(),
            action is None <==> self@.done(),
            action matches Some(a) ==> a@ == self@.script()[self@.position as int],
            self@.position <= self@.chunks.len() + 2,
            match action {
                Some(StorageAction::Create { relation_oid }) => self@.position == 0 && relation_oid
                    == self@.relation_oid,
                Some(StorageAction::Write { bytes }) => 0 < self@.position <= self@.chunks.len()
                    && bytes@ == self@.chunks[self@.position - 1],
                Some(StorageAction::Flush) => self@.position == self@.chunks.len() + 1,
                None => self@.position == self@.chunks.len() + 2,
            },
    {
        match self.block {
            None => Some(StorageAction::Create { relation_oid: self.relation_oid }),
            Some(_) => self.append.action(),
        }
    }

    /// Takes note that the list has been created, with the given header block.
    pub fn created(self, header_blockno: u32) -> (write: FileWrite<'a>)
        requires
            self@.position == 0,
        ensures
            write@ == (FileWriteView { block: Some(header_blockno), position: 1, ..self@ }),
    {
        proof {
            use_type_invariant(&self);
        }
        FileWrite {
            relation_oid: self.relation_oid,
            location: self.location,
            total_bytes: self.total_bytes,
            block: Some(header_blockno),
            append: self.append,
        }
    }

    /// Takes note of how the next operation on the list went. A failure ends
    /// the write.
    pub fn advance<E>(self, outcome: Result<(), E>) -> (result: Result<
        FileWrite<'a>,
        StoreError<E>,
    >)
        requires
            0 < self@.position < self@.script().len(),
        ensures
            match outcome {
                Ok(_) => result matches Ok(write) && write@ == (FileWriteView {
                    position: self@.position + 1,
                    ..self@
                }),
                Err(e) => result matches Err(StoreError::Generic { store, source }) && store@
                    == "BlockObjectStore"@ && source == e,
            },
    {
        proof {
            use_type_invariant(&self);
        }
        match self.append.advance(outcome) {
            Ok(append) => Ok(
                FileWrite {
                    relation_oid: self.relation_oid,
                    location: self.location,
                    total_bytes: self.total_bytes,
                    block: self.block,
                    append,
                },
            ),
            Err(source) => Err(StoreError::Generic { store: STORE_NAME, source }),
        }
    }

    /// Maps the location of the object to the file that holds it, when all has
    /// been performed. The store is that of the relation in which it was.
    pub fn finish(self, store: &mut BlockObjectStore) -> (result: PutResult)
        requires
            self@.done(),
            self@.relation_oid == old(store).relation_oid(),
        ensures
            final(store)@ == old(store)@.insert(self@.location, self@.entry()),
            self@.entry().total_bytes == concat(self@.chunks).len(),
            final(store)@.contains_key(self@.location),
            self@.block == Some(final(store)@[self@.location].staring_block),
            final(store)@[self@.location].total_bytes == concat(self@.chunks).len(),
            final(store)@ == old(store)@.insert(self@.location, final(store)@[self@.location]),
            final(store).relation_oid() == old(store).relation_oid(),
            result.e_tag is None,
            result.version is None,
    {
        proof {
            use_type_invariant(&self);
        }
        store.record(
            self.location,
            FileEntry { staring_block: self.block.unwrap(), total_bytes: self.total_bytes },
        );
        PutResult { e_tag: None, version: None }
    }
}

} // verus!
