//! The object store: the map from locations to files, and what each request
//! makes of it.

use crate::file_map::{
    empty_map, entries, entries_view, get, insert, map_contents, no_files, remove, FileEntry,
};
use crate::file_write::{FileWrite, FileWriteView};
use crate::listing::{
    ascending, children, groups, is_child, lemma_kept_enumerates, lemma_steps_group, lies_under,
    list_entries, list_entries_with_delimiter, lists, prefix_or_root, prefix_text, texts, under,
    ListResult, ObjectMeta,
};
use crate::multipart::{BlockMultipartWrite, UploadView};
use crate::options::{
    can_resolve, debug_text, mode_text, refusal, refusal_text, resolve, resolved, text_of, update_text,
    GetRange, PutMode, StoreError, STORE_NAME,
};
use crate::path::path_text;
use crate::payload::{
    bytes_contents, checked_total_len, chunks, concat, content_length, payload_chunks,
};
use crate::storage::{DeleteRequest, RangeData, ReadRequest};
use bytes::Bytes;
use object_store::path::Path;
use object_store::PutPayload;
use rustc_hash::FxHashMap;
use std::ops::Range;
use vstd::prelude::*;

verus! {

/// An object store that keeps its objects in linked block lists of a relation.
#[derive(Debug)]
pub struct BlockObjectStore {
    fs_map: FxHashMap<Path, FileEntry>,
    relation_oid: u32,
}

impl View for BlockObjectStore {
    type V = Map<Seq<char>, FileEntry>;

    /// The files of the store, by the texts of the locations of their objects.
    closed spec fn view(&self) -> Map<Seq<char>, FileEntry> {
        map_contents(self.fs_map)
    }
}

impl BlockObjectStore {
    /// The relation that holds the lists.
    pub closed spec fn relation_oid(&self) -> u32 {
        self.relation_oid
    }

    /// A store without objects.
    pub fn new(relation_oid: u32) -> (store: BlockObjectStore)
        ensures
            store@ == no_files(),
            store@ == Map::<Seq<char>, FileEntry>::empty(),
            store.relation_oid() == relation_oid,
    {
        BlockObjectStore { relation_oid, fs_map: empty_map() }
    }

    /// Maps `location` to `file`.
    pub fn record(&mut self, location: Path, file: FileEntry)
        ensures
            final(self)@ == old(self)@.insert(path_text(location), file),
            final(self).relation_oid() == old(self).relation_oid(),
    {
        insert(&mut self.fs_map, location, file);
    }

    /// The name of the store.
    pub fn display(&self) -> (name: String)
        ensures
            name@ == "BlockObjectStore"@,
    {
        STORE_NAME.to_owned()
    }

    /// The relation that holds the lists.
    pub fn oid(&self) -> (oid: u32)
        ensures
            oid == self.relation_oid(),
    {
        self.relation_oid
    }

    /// The file at `location`, if there is one.
    pub fn entry(&self, location: &Path) -> (file: Option<FileEntry>)
        ensures
            file == if self@.contains_key(path_text(*location)) {
                Some(self@[path_text(*location)])
            } else {
                None
            },
    {
        get(&self.fs_map, location)
    }

    /// The write of `payload` to `location`. The one mode that the store does
    /// is `Overwrite`.
    pub fn put_opts<'a, E>(
        &self,
        location: &Path,
        payload: &'a PutPayload,
        mode: &PutMode,
    ) -> (result: Result<FileWrite<'a>, StoreError<E>>)
        requires
            *mode is Overwrite ==> concat(payload_chunks(*payload)).len() <= usize::MAX,
        ensures
            result is Ok <==> *mode is Overwrite,
            match result {
                Ok(write) => write@ == FileWriteView::start(
                    self.relation_oid(),
                    path_text(*location),
                    payload_chunks(*payload),
                ),
                Err(StoreError::NotSupported { source }) => source@ == refusal_text(
                    mode_text(*mode),
                ),
                Err(_) => false,
            },
            result matches Ok(write) ==> {
                &&& write@.relation_oid == self.relation_oid()
                &&& write@.location == path_text(*location)
                &&& write@.chunks == payload_chunks(*payload)
                &&& write@.block is None
                &&& write@.position == 0
            },
            result matches Err(StoreError::NotSupported { source }) ==> match *mode {
                PutMode::Overwrite => false,
                PutMode::Create => source@ == "Create"@ + " is not supported, only Overwrite"@,
                PutMode::Update(v) => source@ == update_text(text_of(v.e_tag), text_of(v.version))
                    + " is not supported, only Overwrite"@,
            },
    {
        match mode {
            PutMode::Overwrite => Ok(
                FileWrite::new(
                    self.relation_oid,
                    location.clone(),
                    chunks(payload),
                    content_length(payload),
                ),
            ),
            _ => Err(StoreError::NotSupported { source: refusal(debug_text(mode)) }),
        }
    }

    /// As [`BlockObjectStore::put_opts`], but for nothing where the length of
    /// the payload cannot be counted in a `usize`.
    pub fn put_opts_checked<'a, E>(
        &self,
        location: &Path,
        payload: &'a PutPayload,
        mode: &PutMode,
    ) -> (result: Option<Result<FileWrite<'a>, StoreError<E>>>)
        ensures
            result is None <==> *mode is Overwrite && concat(payload_chunks(*payload)).len()
                > usize::MAX,
            result matches Some(r) ==> (r is Ok <==> *mode is Overwrite),
            match result {
                Some(Ok(write)) => write@ == FileWriteView::start(
                    self.relation_oid(),
                    path_text(*location),
                    payload_chunks(*payload),
                ),
                Some(Err(StoreError::NotSupported { source })) => source@ == refusal_text(
                    mode_text(*mode),
                ),
                Some(Err(_)) => false,
                None => true,
            },
            result matches Some(Ok(write)) ==> {
                &&& write@.relation_oid == self.relation_oid()
                &&& write@.location == path_text(*location)
                &&& write@.chunks == payload_chunks(*payload)
                &&& write@.block is None
                &&& write@.position == 0
            },
            result matches Some(Err(StoreError::NotSupported { source })) ==> match *mode {
                PutMode::Overwrite => false,
                PutMode::Create => source@ == "Create"@ + " is not supported, only Overwrite"@,
                PutMode::Update(v) => source@ == update_text(text_of(v.e_tag), text_of(v.version))
                    + " is not supported, only Overwrite"@,
            },
    {
        if matches!(mode, PutMode::Overwrite) && checked_total_len(&chunks(payload)).is_none() {
            return None;
        }
        Some(self.put_opts(location, payload, mode))
    }

    /// The upload of an object to `location` in parts.
    pub fn put_multipart_opts(&self, location: &Path) -> (upload: BlockMultipartWrite)
        ensures
            upload@ == (UploadView {
                relation_oid: self.relation_oid(),
                location: path_text(*location),
                buffer: Some(Seq::empty()),
            }),
    {
        BlockMultipartWrite::new(self.relation_oid, location.clone())
    }

    /// The read of the object at `location`, or of a range of it.
    pub fn get_opts(&self, location: &Path, range: Option<GetRange>) -> (request: GetRequest)
        requires
            self@.contains_key(path_text(*location)),
            can_resolve(range, self@[path_text(*location)].total_bytes),
        ensures
            ({
                let file = self@[path_text(*location)];
                &&& request.read.relation_oid == self.relation_oid()
                &&& request.read.staring_block == file.staring_block
                &&& (request.read.range.start as int, request.read.range.end as int) == resolved(
                    range,
                    file.total_bytes,
                )
                &&& request.meta.describes(path_text(*location), file)
                &&& path_text(request.meta.location) == path_text(*location)
                &&& request.meta.size == file.total_bytes
                &&& request.meta.last_modified == 0
                &&& request.meta.e_tag is None
                &&& request.meta.version is None
                &&& match range {
                    None => request.read.range.start == 0 && request.read.range.end
                        == file.total_bytes,
                    Some(GetRange::Offset(start)) => request.read.range.start == start
                        && request.read.range.end == file.total_bytes,
                    Some(GetRange::Suffix(n)) => request.read.range.start + n == file.total_bytes
                        && request.read.range.end == file.total_bytes,
                    Some(GetRange::Bounded(asked)) => request.read.range == asked,
                }
            }),
    {
        let file = get(&self.fs_map, location).unwrap();
        GetRequest {
            read: ReadRequest {
                relation_oid: self.relation_oid,
                staring_block: file.staring_block,
                range: resolve(range, file.total_bytes),
            },
            meta: ObjectMeta::of(location.clone(), file),
        }
    }

    /// Describes the objects under `prefix`, or all, in no particular order.
    pub fn list(&self, prefix: Option<&Path>) -> (metas: Vec<ObjectMeta>)
        ensures
            lists(metas@, under(self@, prefix_text(prefix))),
            prefix matches Some(p) ==> lists(metas@, under(self@, path_text(*p))),
            prefix is None ==> lists(metas@, under(self@, Seq::empty())),
    {
        let prefix = prefix_or_root(prefix);
        let found = entries(&self.fs_map);
        let metas = list_entries(&found, &prefix);
        proof {
            lemma_kept_enumerates(
                entries_view(found@),
                self@,
                |t: Seq<char>| lies_under(t, path_text(prefix)),
            );
        }
        metas
    }

    /// Describes the children of `prefix`, in no particular order, and groups
    /// the objects deeper under it by the child on the way to them. The prefix
    /// itself is no group.
    pub fn list_with_delimiter(&self, prefix: Option<&Path>) -> (result: ListResult)
        ensures
            lists(result.objects@, children(self@, prefix_text(prefix))),
            ascending(texts(result.common_prefixes@)),
            texts(result.common_prefixes@).to_set() == groups(self@, prefix_text(prefix)),
            !texts(result.common_prefixes@).contains(prefix_text(prefix)),
            prefix matches Some(p) ==> {
                &&& lists(result.objects@, children(self@, path_text(*p)))
                &&& texts(result.common_prefixes@).to_set() == groups(self@, path_text(*p))
                &&& !texts(result.common_prefixes@).contains(path_text(*p))
            },
            prefix is None ==> {
                &&& lists(result.objects@, children(self@, Seq::empty()))
                &&& texts(result.common_prefixes@).to_set() == groups(self@, Seq::empty())
                &&& !texts(result.common_prefixes@).contains(Seq::empty())
            },
    {
        let prefix = prefix_or_root(prefix);
        let found = entries(&self.fs_map);
        let result = list_entries_with_delimiter(&found, &prefix);
        proof {
            lemma_kept_enumerates(
                entries_view(found@),
                self@,
                |t: Seq<char>| is_child(t, path_text(prefix)),
            );
            lemma_steps_group(entries_view(found@), self@, path_text(prefix));
        }
        result
    }

    /// The list that has to be marked as deleted before the object at
    /// `location` is taken out of the store.
    pub fn delete_target(&self, location: &Path) -> (request: DeleteRequest)
        requires
            self@.contains_key(path_text(*location)),
        ensures
            request == (DeleteRequest {
                relation_oid: self.relation_oid(),
                staring_block: self@[path_text(*location)].staring_block,
            }),
    {
        let file = get(&self.fs_map, location).unwrap();
        DeleteRequest { relation_oid: self.relation_oid, staring_block: file.staring_block }
    }

    /// Takes the object at `location` out of the store.
    pub fn delete(&mut self, location: &Path)
        requires
            old(self)@.contains_key(path_text(*location)),
        ensures
            final(self)@ == old(self)@.remove(path_text(*location)),
            final(self).relation_oid() == old(self).relation_oid(),
    {
        remove(&mut self.fs_map, location);
    }
}

/// A read on behalf of a get, to be performed, and what is known of the object.
#[derive(Debug)]
pub struct GetRequest {
    pub read: ReadRequest,
    pub meta: ObjectMeta,
}

/// What a get found.
#[derive(Debug)]
pub struct GetResult {
    pub payload: Bytes,
    pub meta: ObjectMeta,
    /// The positions that `payload` was read from.
    pub range: Range<usize>,
}

impl GetRequest {
    /// The result of the get, when the read found `data`.
    pub fn found(self, data: RangeData<'_>) -> (result: GetResult)
        ensures
            bytes_contents(result.payload) == data@,
            match data {
                RangeData::OnePage(page) => bytes_contents(result.payload) == page@,
                RangeData::MultiPage(copy) => bytes_contents(result.payload) == copy@,
            },
            data@.len() == self.read.range.end - self.read.range.start ==> bytes_contents(
                result.payload,
            ).len() == result.range.end - result.range.start,
            result.meta == self.meta,
            result.range == self.read.range,
    {
        GetResult { payload: data.into_bytes(), meta: self.meta, range: self.read.range }
    }
}

} // verus!
