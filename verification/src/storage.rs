//! The work on linked block lists that writing and reading call for.
//!
//! The lists themselves are kept elsewhere. What is decided here is which
//! operation comes next, and what follows from how it went.

use crate::payload::{
    bytes_contents, bytes_from_vec, checked_total_len, concat, copy_from_slice, slices_view,
};
use bytes::Bytes;
use std::ops::Range;
use vstd::prelude::*;

verus! {

/// An operation on a linked block list.
pub enum StorageOp {
    /// Create an empty list in the relation; the following operations go to it.
    Create { relation_oid: u32 },
    /// Append the bytes to the list.
    Write { bytes: Seq<u8> },
    /// Flush the list.
    Flush,
}

/// An operation to be performed on a linked block list.
#[derive(Clone, Copy, Debug)]
pub enum StorageAction<'a> {
    Create { relation_oid: u32 },
    Write { bytes: &'a [u8] },
    Flush,
}

impl<'a> View for StorageAction<'a> {
    type V = StorageOp;

    open spec fn view(&self) -> StorageOp {
        match *self {
            StorageAction::Create { relation_oid } => StorageOp::Create { relation_oid },
            StorageAction::Write { bytes } => StorageOp::Write { bytes: bytes@ },
            StorageAction::Flush => StorageOp::Flush,
        }
    }
}

/// The operations that append `chunks` to a list: one write for each chunk,
/// then a flush.
pub open spec fn append_script(chunks: Seq<Seq<u8>>) -> Seq<StorageOp> {
    chunks.map_values(|c: Seq<u8>| StorageOp::Write { bytes: c }).push(StorageOp::Flush)
}

/// How far an append has come.
pub struct AppendView {
    /// The chunks to be appended.
    pub chunks: Seq<Seq<u8>>,
    /// How many operations of the script have been performed.
    pub position: nat,
}

impl AppendView {
    pub open spec fn script(self) -> Seq<StorageOp> {
        append_script(self.chunks)
    }

    pub open spec fn done(self) -> bool {
        self.position == self.script().len()
    }
}

/// An append to a linked block list, under way.
#[derive(Debug)]
pub struct BlockAppend<'a> {
    chunks: Vec<&'a [u8]>,
    next: usize,
    flushed: bool,
}

impl<'a> View for BlockAppend<'a> {
    type V = AppendView;

    closed spec fn view(&self) -> AppendView {
        AppendView {
            chunks: slices_view(self.chunks@),
            position: if self.flushed {
                (self.next + 1) as nat
            } else {
                self.next as nat
            },
        }
    }
}

impl<'a> BlockAppend<'a> {
    #[verifier::type_invariant]
    spec fn well_formed(self) -> bool {
        &&& self.next <= self.chunks@.len()
        &&& self.flushed ==> self.next == self.chunks@.len()
    }

    /// An append of `chunks`, of which nothing has been performed.
    pub fn new(chunks: Vec<&'a [u8]>) -> (append: BlockAppend<'a>)
        ensures
            append@ == (AppendView { chunks: slices_view(chunks@), position: 0 }),
            append@.chunks.len() == chunks@.len(),
            forall|i: int| 0 <= i < chunks@.len() ==> #[trigger] append@.chunks[i] == chunks@[i]@,
    {
        BlockAppend { chunks, next: 0, flushed: false }
    }

    /// The operation to be performed next; none when all have been.
    pub fn action(&self) -> (action: Option<StorageAction<'a>>)
        ensures
            self@.position <= self@.script().len(),
            action is None <==> self@.done(),
            action matches Some(a) ==> a@ == self@.script()[self@.position as int],
            self@.position <= self@.chunks.len() + 1,
            match action {
                Some(StorageAction::Write { bytes }) => self@.position < self@.chunks.len() && bytes@
                    == self@.chunks[self@.position as int],
                Some(StorageAction::Flush) => self@.position == self@.chunks.len(),
                Some(StorageAction::Create { .. }) => false,
                None => self@.position == self@.chunks.len() + 1,
            },
    {
        proof {
            use_type_invariant(self);
        }
        if self.next < self.chunks.len() {
            Some(StorageAction::Write { bytes: self.chunks[self.next] })
        } else if !self.flushed {
            Some(StorageAction::Flush)
        } else {
            None
        }
    }

    /// How many bytes the chunks have together.
    pub fn total_len(&self) -> (len: usize)
        requires
            concat(self@.chunks).len() <= usize::MAX,
        ensures
            len == concat(self@.chunks).len(),
    {
        checked_total_len(&self.chunks).unwrap()
    }

    /// Takes note of how the next operation went. A failure ends the append.
    pub fn advance<E>(self, outcome: Result<(), E>) -> (result: Result<BlockAppend<'a>, E>)
        requires
            self@.position < self@.script().len(),
        ensures
            match outcome {
                Ok(_) => result matches Ok(append) && append@ == (AppendView {
                    position: self@.position + 1,
                    ..self@
                }),
                Err(source) => result == Err::<BlockAppend<'a>, E>(source),
            },
    {
        proof {
            use_type_invariant(&self);
        }
        match outcome {
            Ok(_) => {
                if self.next < self.chunks.len() {
                    Ok(BlockAppend { chunks: self.chunks, next: self.next + 1, flushed: false })
                } else {
                    Ok(BlockAppend { chunks: self.chunks, next: self.next, flushed: true })
                }
            },
            Err(source) => Err(source),
        }
    }
}

/// A linked block list that is to be marked as deleted.
#[derive(Clone, Copy, Debug, PartialEq, Eq, Structural)]
pub struct DeleteRequest {
    pub relation_oid: u32,
    /// The header block of the list.
    pub staring_block: u32,
}

/// A read from a linked block list, to be performed.
#[derive(Debug)]
pub struct ReadRequest {
    pub relation_oid: u32,
    /// The header block of the list.
    pub staring_block: u32,
    /// The positions to be read, of the bytes of the list.
    pub range: Range<usize>,
}

/// The bytes that a read found: a view of the page that holds all of them, or
/// a copy when they lie on several pages.
#[derive(Debug)]
pub enum RangeData<'a> {
    OnePage(&'a [u8]),
    MultiPage(Vec<u8>),
}

impl<'a> View for RangeData<'a> {
    type V = Seq<u8>;

    open spec fn view(&self) -> Seq<u8> {
        match *self {
            RangeData::OnePage(page) => page@,
            RangeData::MultiPage(copy) => copy@,
        }
    }
}

impl<'a> RangeData<'a> {
    /// The bytes in a buffer of their own, copied from the page if need be.
    pub fn into_bytes(self) -> (buffer: Bytes)
        ensures
            bytes_contents(buffer) == self@,
            match self {
                RangeData::OnePage(page) => bytes_contents(buffer) == page@,
                RangeData::MultiPage(copy) => bytes_contents(buffer) == copy@,
            },
    {
        match self {
            RangeData::OnePage(page) => copy_from_slice(page),
            RangeData::MultiPage(copy) => bytes_from_vec(copy),
        }
    }
}

} // verus!
