# block_object_store

An object store that keeps each object in a linked list of storage blocks of a
database relation.

- `src/` is the verified library: the map from locations to files, puts, gets,
  uploads in parts, deletes and listings, and the laws that hold of them, one
  by one (`laws`) and across a run of writes and deletes (`history`). It
  performs no I/O. A write hands out the operations on its list one by one; a
  read is handed out as a request.
- `app/` performs the operations. It implements the `ObjectStore` and
  `MultipartUpload` traits of the `object_store` crate over any type that
  implements `LinkedBytesList`, and the `VortexReadAt` and `VortexWrite` traits
  of the `vortex-io` crate for single files.
- `tests/` runs the library against lists in memory.

Locations are `object_store::path::Path` values. The contracts speak of them by
their text (`path::path_text`), of payloads by their chunks
(`payload::payload_chunks`), and of the map by its contents
(`file_map::map_contents`).
