//! What holds of the store as a whole.
//!
//! The linked block lists of the database are modelled as a map to bytes from
//! the relations and header blocks of the lists. What an operation makes of
//! that map is [`performed`].

use crate::file_map::FileEntry;
use crate::file_write::{file_script, FileWriteView};
use crate::listing::{
    ascending, children, groups, is_child, is_nested, lies_under, lists, parts_under, step_towards,
    texts, under, ListResult, ObjectMeta,
};
use crate::multipart::UploadView;
use crate::options::{can_resolve, resolved, GetRange};
use crate::path::{
    head_len, lemma_precedes_irreflexive, parts_of, path_text, rest_after, text_precedes,
};
use crate::payload::{concat, lemma_concat_add, lemma_concat_one};
use crate::storage::{append_script, StorageOp};
use vstd::prelude::*;

verus! {

/// The lists after one operation. A list is created in the relation that the
/// operation names, with the header block of `list`; all others go to `list`.
pub open spec fn performed(
    blocks: Map<(u32, u32), Seq<u8>>,
    list: (u32, u32),
    op: StorageOp,
) -> Map<(u32, u32), Seq<u8>> {
    match op {
        StorageOp::Create { relation_oid } => blocks.insert((relation_oid, list.1), Seq::empty()),
        StorageOp::Write { bytes } => blocks.insert(list, blocks[list] + bytes),
        StorageOp::Flush => blocks,
    }
}

/// The lists after some operations on `list`.
pub open spec fn performed_all(
    blocks: Map<(u32, u32), Seq<u8>>,
    list: (u32, u32),
    ops: Seq<StorageOp>,
) -> Map<(u32, u32), Seq<u8>>
    decreases ops.len(),
{
    if ops.len() == 0 {
        blocks
    } else {
        performed(performed_all(blocks, list, ops.drop_last()), list, ops.last())
    }
}

/// What a read of the given positions finds in a file of the relation.
pub open spec fn read(
    blocks: Map<(u32, u32), Seq<u8>>,
    relation_oid: u32,
    file: FileEntry,
    positions: (int, int),
) -> Seq<u8> {
    blocks[(relation_oid, file.staring_block)].subrange(positions.0, positions.1)
}

proof fn lemma_performed_add(
    blocks: Map<(u32, u32), Seq<u8>>,
    list: (u32, u32),
    a: Seq<StorageOp>,
    b: Seq<StorageOp>,
)
    ensures
        performed_all(blocks, list, a + b) == performed_all(
            performed_all(blocks, list, a),
            list,
            b,
        ),
    decreases b.len(),
{
    if b.len() == 0 {
        assert(a + b =~= a);
    } else {
        assert((a + b).drop_last() =~= a + b.drop_last());
        lemma_performed_add(blocks, list, a, b.drop_last());
    }
}

/// Operations change no list but the one that they go to.
pub proof fn lemma_performed_elsewhere(
    blocks: Map<(u32, u32), Seq<u8>>,
    list: (u32, u32),
    ops: Seq<StorageOp>,
)
    requires
        forall|i: int|
            0 <= i < ops.len() ==> ((#[trigger] ops[i]) matches StorageOp::Create { relation_oid }
                ==> relation_oid == list.0),
    ensures
        performed_all(blocks, list, ops).remove(list) == blocks.remove(list),
    decreases ops.len(),
{
    if ops.len() > 0 {
        let before = ops.drop_last();
        assert forall|i: int| 0 <= i < before.len() implies ((
        #[trigger] before[i]) matches StorageOp::Create { relation_oid } ==> relation_oid
            == list.0) by {
            assert(before[i] == ops[i]);
        }
        lemma_performed_elsewhere(blocks, list, before);
        let last = ops[ops.len() - 1];
        assert(performed_all(blocks, list, ops).remove(list) =~= performed_all(
            blocks,
            list,
            before,
        ).remove(list));
    }
}

proof fn lemma_performed_writes(
    blocks: Map<(u32, u32), Seq<u8>>,
    list: (u32, u32),
    chunks: Seq<Seq<u8>>,
)
    requires
        blocks.contains_key(list),
    ensures
        performed_all(
            blocks,
            list,
            chunks.map_values(|c: Seq<u8>| StorageOp::Write { bytes: c }),
        ) == blocks.insert(list, blocks[list] + concat(chunks)),
    decreases chunks.len(),
{
    let writes = chunks.map_values(|c: Seq<u8>| StorageOp::Write { bytes: c });
    if chunks.len() == 0 {
        assert(blocks[list] + concat(chunks) =~= blocks[list]);
        assert(blocks.insert(list, blocks[list]) =~= blocks);
    } else {
        lemma_performed_writes(blocks, list, chunks.drop_last());
        assert(writes.drop_last() =~= chunks.drop_last().map_values(
            |c: Seq<u8>| StorageOp::Write { bytes: c },
        ));
        assert(blocks[list] + concat(chunks.drop_last()) + chunks.last() =~= blocks[list] + concat(
            chunks,
        ));
        assert(blocks.insert(list, blocks[list] + concat(chunks.drop_last())).insert(
            list,
            blocks[list] + concat(chunks),
        ) =~= blocks.insert(list, blocks[list] + concat(chunks)));
    }
}

/// An append adds the bytes of its chunks, in order, to the end of its list,
/// and changes no other list.
pub proof fn law_append_adds_its_chunks(
    blocks: Map<(u32, u32), Seq<u8>>,
    list: (u32, u32),
    chunks: Seq<Seq<u8>>,
)
    requires
        blocks.contains_key(list),
    ensures
        performed_all(blocks, list, append_script(chunks)) == blocks.insert(
            list,
            blocks[list] + concat(chunks),
        ),
{
    let writes = chunks.map_values(|c: Seq<u8>| StorageOp::Write { bytes: c });
    lemma_performed_writes(blocks, list, chunks);
    assert(append_script(chunks).drop_last() =~= writes);
}

/// The write of an object leaves a list of the relation that holds the
/// object's bytes and nothing else, and changes no other list.
pub proof fn law_file_holds_the_object(
    blocks: Map<(u32, u32), Seq<u8>>,
    relation_oid: u32,
    block: u32,
    chunks: Seq<Seq<u8>>,
)
    ensures
        performed_all(blocks, (relation_oid, block), file_script(relation_oid, chunks))
            == blocks.insert((relation_oid, block), concat(chunks)),
{
    let list = (relation_oid, block);
    let create = seq![StorageOp::Create { relation_oid }];
    let created = blocks.insert(list, Seq::empty());
    lemma_performed_add(blocks, list, create, append_script(chunks));
    assert(performed_all(blocks, list, create) == created) by {
        reveal_with_fuel(performed_all, 2);
    }
    law_append_adds_its_chunks(created, list, chunks);
    assert(Seq::<u8>::empty() + concat(chunks) =~= concat(chunks));
    assert(created.insert(list, concat(chunks)) =~= blocks.insert(list, concat(chunks)));
}

/// Whether `found` is what a get of the given range owes of an object: all of
/// it, the part from an offset on, the last bytes, or the positions asked for.
pub open spec fn is_owed(found: Seq<u8>, object: Seq<u8>, range: Option<GetRange>) -> bool {
    match range {
        None => found == object,
        Some(GetRange::Offset(start)) => start <= object.len() ==> found == object.skip(
            start as int,
        ),
        Some(GetRange::Suffix(n)) => found == object.skip(object.len() - n),
        Some(GetRange::Bounded(p)) => p.start <= p.end <= object.len() ==> found
            == object.subrange(p.start as int, p.end as int),
    }
}

/// A read of the positions that a range stands for finds what is owed.
pub proof fn lemma_read_is_owed(object: Seq<u8>, range: Option<GetRange>)
    requires
        object.len() <= usize::MAX,
        can_resolve(range, object.len() as usize),
    ensures
        is_owed(
            object.subrange(
                resolved(range, object.len() as usize).0,
                resolved(range, object.len() as usize).1,
            ),
            object,
            range,
        ),
{
    assert(object.subrange(0, object.len() as int) =~= object);
}

/// A get from the store of a relation finds what the last put to its location
/// wrote in that relation.
pub proof fn law_get_finds_what_put_wrote(
    relation_oid: u32,
    files: Map<Seq<char>, FileEntry>,
    blocks: Map<(u32, u32), Seq<u8>>,
    write: FileWriteView,
    range: Option<GetRange>,
)
    requires
        write.relation_oid == relation_oid,
        write.block is Some,
        concat(write.chunks).len() <= usize::MAX,
        can_resolve(range, concat(write.chunks).len() as usize),
    ensures
        ({
            let object = concat(write.chunks);
            let files_after = files.insert(write.location, write.entry());
            let blocks_after = performed_all(
                blocks,
                (write.relation_oid, write.block->0),
                write.script(),
            );
            let file = files_after[write.location];
            let found = read(blocks_after, relation_oid, file, resolved(range, file.total_bytes));
            &&& files_after.contains_key(write.location)
            &&& file.total_bytes == object.len()
            &&& is_owed(found, object, range)
        }),
{
    let object = concat(write.chunks);
    law_file_holds_the_object(blocks, relation_oid, write.block->0, write.chunks);
    lemma_read_is_owed(object, range);
}

/// A put leaves every other object of the store as it was: the location of
/// each is mapped to the same file, and the file, unless its block has been
/// handed out again, holds the same bytes. The lists of other relations stay
/// as they were.
pub proof fn law_put_keeps_other_objects(
    relation_oid: u32,
    files: Map<Seq<char>, FileEntry>,
    blocks: Map<(u32, u32), Seq<u8>>,
    write: FileWriteView,
    other: Seq<char>,
    positions: (int, int),
)
    requires
        write.relation_oid == relation_oid,
        write.block is Some,
        files.contains_key(other),
        other != write.location,
        files[other].staring_block != write.block->0,
    ensures
        ({
            let files_after = files.insert(write.location, write.entry());
            let blocks_after = performed_all(
                blocks,
                (write.relation_oid, write.block->0),
                write.script(),
            );
            &&& files_after.contains_key(other)
            &&& files_after[other] == files[other]
            &&& read(blocks_after, relation_oid, files_after[other], positions) == read(
                blocks,
                relation_oid,
                files[other],
                positions,
            )
            &&& forall|list: (u32, u32)|
                list.0 != relation_oid ==> blocks_after.contains_key(list) == blocks.contains_key(
                    list,
                ) && #[trigger] blocks_after[list] == blocks[list]
        }),
{
    law_file_holds_the_object(blocks, relation_oid, write.block->0, write.chunks);
}

/// The bytes that an upload holds after the given parts, each of them a run of
/// chunks.
pub open spec fn uploaded(parts: Seq<Seq<Seq<u8>>>) -> Seq<u8>
    decreases parts.len(),
{
    if parts.len() == 0 {
        Seq::empty()
    } else {
        uploaded(parts.drop_last()) + concat(parts.last())
    }
}

/// The chunks of all parts.
pub open spec fn all_chunks(parts: Seq<Seq<Seq<u8>>>) -> Seq<Seq<u8>>
    decreases parts.len(),
{
    if parts.len() == 0 {
        Seq::empty()
    } else {
        all_chunks(parts.drop_last()) + parts.last()
    }
}

/// The upload after the given parts have arrived, one after the other.
pub open spec fn parts_arrived(upload: UploadView, parts: Seq<Seq<Seq<u8>>>) -> UploadView
    decreases parts.len(),
{
    if parts.len() == 0 {
        upload
    } else {
        parts_arrived(upload, parts.drop_last()).with_part(parts.last())
    }
}

/// A part counts when it arrives, not when it is handed over. What an upload
/// writes when it is completed are the parts that have arrived by then, in the
/// order in which they arrived. Parts that arrive later change nothing.
pub proof fn law_parts_count_when_they_arrive(
    upload: UploadView,
    in_time: Seq<Seq<Seq<u8>>>,
    late: Seq<Seq<Seq<u8>>>,
)
    requires
        upload.buffer == Some(Seq::<u8>::empty()),
    ensures
        parts_arrived(upload, in_time) == (UploadView {
            buffer: Some(uploaded(in_time)),
            ..upload
        }),
        parts_arrived(parts_arrived(upload, in_time).closed(), late) == upload.closed(),
    decreases in_time.len() + late.len(),
{
    if in_time.len() > 0 {
        law_parts_count_when_they_arrive(upload, in_time.drop_last(), late);
    }
    if late.len() > 0 {
        law_parts_count_when_they_arrive(upload, in_time, late.drop_last());
    }
}

/// An upload in parts stores what one put of all the parts' chunks stores: the
/// lists hold the same, and the location is mapped to the same file.
pub proof fn law_upload_stores_what_put_stores(
    files: Map<Seq<char>, FileEntry>,
    blocks: Map<(u32, u32), Seq<u8>>,
    relation_oid: u32,
    block: u32,
    location: Seq<char>,
    parts: Seq<Seq<Seq<u8>>>,
)
    ensures
        ({
            let list = (relation_oid, block);
            let upload = FileWriteView {
                block: Some(block),
                ..FileWriteView::start(relation_oid, location, seq![uploaded(parts)])
            };
            let put = FileWriteView {
                block: Some(block),
                ..FileWriteView::start(relation_oid, location, all_chunks(parts))
            };
            &&& performed_all(blocks, list, upload.script()) == performed_all(
                blocks,
                list,
                put.script(),
            )
            &&& files.insert(location, upload.entry()) == files.insert(location, put.entry())
            &&& concat(upload.chunks) == concat(put.chunks)
        }),
{
    lemma_uploaded(parts);
    lemma_concat_one(uploaded(parts));
    law_file_holds_the_object(blocks, relation_oid, block, seq![uploaded(parts)]);
    law_file_holds_the_object(blocks, relation_oid, block, all_chunks(parts));
}

proof fn lemma_uploaded(parts: Seq<Seq<Seq<u8>>>)
    ensures
        uploaded(parts) == concat(all_chunks(parts)),
    decreases parts.len(),
{
    if parts.len() > 0 {
        lemma_uploaded(parts.drop_last());
        lemma_concat_add(all_chunks(parts.drop_last()), parts.last());
    }
}

/// The lists after a writer of `list` has written the buffers, one after the
/// other.
pub open spec fn buffers_written(
    blocks: Map<(u32, u32), Seq<u8>>,
    list: (u32, u32),
    buffers: Seq<Seq<u8>>,
) -> Map<(u32, u32), Seq<u8>>
    decreases buffers.len(),
{
    if buffers.len() == 0 {
        blocks
    } else {
        performed_all(
            buffers_written(blocks, list, buffers.drop_last()),
            list,
            append_script(seq![buffers.last()]),
        )
    }
}

/// The length that a writer has noted after it has written the buffers.
pub open spec fn length_written(buffers: Seq<Seq<u8>>) -> nat
    decreases buffers.len(),
{
    if buffers.len() == 0 {
        0
    } else {
        length_written(buffers.drop_last()) + concat(seq![buffers.last()]).len()
    }
}

/// A reader finds in a file what a writer of the same relation wrote to its
/// list, which was created empty: as many bytes as the writer noted, and at
/// each position the byte that was written there.
pub proof fn law_reader_finds_what_writer_wrote(
    blocks: Map<(u32, u32), Seq<u8>>,
    oid: u32,
    file: FileEntry,
    buffers: Seq<Seq<u8>>,
    pos: int,
    len: int,
)
    requires
        blocks.contains_key((oid, file.staring_block)),
        blocks[(oid, file.staring_block)].len() == 0,
        file.total_bytes == length_written(buffers),
        0 <= pos,
        0 <= len,
        pos + len <= file.total_bytes,
    ensures
        file.total_bytes == concat(buffers).len(),
        read(
            buffers_written(blocks, (oid, file.staring_block), buffers),
            oid,
            file,
            (pos, pos + len),
        ) == concat(buffers).subrange(pos, pos + len),
{
    let list = (oid, file.staring_block);
    lemma_buffers_written(blocks, list, buffers);
    assert(blocks[list] + concat(buffers) =~= concat(buffers));
}

proof fn lemma_buffers_written(
    blocks: Map<(u32, u32), Seq<u8>>,
    list: (u32, u32),
    buffers: Seq<Seq<u8>>,
)
    requires
        blocks.contains_key(list),
    ensures
        buffers_written(blocks, list, buffers) == blocks.insert(
            list,
            blocks[list] + concat(buffers),
        ),
        length_written(buffers) == concat(buffers).len(),
    decreases buffers.len(),
{
    if buffers.len() == 0 {
        assert(blocks[list] + concat(buffers) =~= blocks[list]);
        assert(blocks.insert(list, blocks[list]) =~= blocks);
    } else {
        let before = buffers_written(blocks, list, buffers.drop_last());
        lemma_buffers_written(blocks, list, buffers.drop_last());
        law_append_adds_its_chunks(before, list, seq![buffers.last()]);
        lemma_concat_one(buffers.last());
        assert(blocks[list] + concat(buffers.drop_last()) + buffers.last() =~= blocks[list]
            + concat(buffers));
        assert(before.insert(list, blocks[list] + concat(buffers)) =~= blocks.insert(
            list,
            blocks[list] + concat(buffers),
        ));
    }
}

/// What a listing under a prefix shows after a put: the object too, where its
/// location lies under the prefix, by itself or by the group on the way to it.
pub proof fn law_put_is_listed(
    files: Map<Seq<char>, FileEntry>,
    location: Seq<char>,
    file: FileEntry,
    prefix: Seq<char>,
)
    ensures
        under(files.insert(location, file), prefix) == if lies_under(location, prefix) {
            under(files, prefix).insert(location, file)
        } else {
            under(files, prefix)
        },
        children(files.insert(location, file), prefix) == if is_child(location, prefix) {
            children(files, prefix).insert(location, file)
        } else {
            children(files, prefix)
        },
        groups(files.insert(location, file), prefix) == if is_nested(location, prefix) {
            groups(files, prefix).insert(step_towards(location, prefix))
        } else {
            groups(files, prefix)
        },
{
    let after = files.insert(location, file);
    if lies_under(location, prefix) {
        assert(under(after, prefix) =~= under(files, prefix).insert(location, file));
    } else {
        assert(under(after, prefix) =~= under(files, prefix));
    }
    if is_child(location, prefix) {
        assert(children(after, prefix) =~= children(files, prefix).insert(location, file));
    } else {
        assert(children(after, prefix) =~= children(files, prefix));
    }
    let expected = if is_nested(location, prefix) {
        groups(files, prefix).insert(step_towards(location, prefix))
    } else {
        groups(files, prefix)
    };
    assert forall|c: Seq<char>| #[trigger] expected.contains(c) implies groups(
        after,
        prefix,
    ).contains(c) by {
        if is_nested(location, prefix) && c == step_towards(location, prefix) {
            assert(after.contains_key(location));
        } else {
            let k = choose|k: Seq<char>| #[trigger]
                files.contains_key(k) && is_nested(k, prefix) && step_towards(k, prefix) == c;
            assert(after.contains_key(k));
        }
    }
    assert forall|c: Seq<char>| #[trigger]
        groups(after, prefix).contains(c) implies expected.contains(c) by {
        let k = choose|k: Seq<char>| #[trigger]
            after.contains_key(k) && is_nested(k, prefix) && step_towards(k, prefix) == c;
        assert(k == location || files.contains_key(k));
    }
    assert(groups(after, prefix) =~= expected);
}

/// What a listing under a prefix shows after a delete: no longer the object,
/// all others, and the groups on the way to the others. A group that led to
/// the object alone is gone.
pub proof fn law_deleted_is_not_listed(
    files: Map<Seq<char>, FileEntry>,
    location: Seq<char>,
    prefix: Seq<char>,
)
    ensures
        under(files.remove(location), prefix) == under(files, prefix).remove(location),
        children(files.remove(location), prefix) == children(files, prefix).remove(location),
        groups(files.remove(location), prefix) == Set::new(
            |c: Seq<char>|
                exists|k: Seq<char>| #[trigger]
                    files.contains_key(k) && k != location && is_nested(k, prefix) && step_towards(
                        k,
                        prefix,
                    ) == c,
        ),
{
    let after = files.remove(location);
    assert(under(after, prefix) =~= under(files, prefix).remove(location));
    assert(children(after, prefix) =~= children(files, prefix).remove(location));
    let expected = Set::new(
        |c: Seq<char>|
            exists|k: Seq<char>| #[trigger]
                files.contains_key(k) && k != location && is_nested(k, prefix) && step_towards(
                    k,
                    prefix,
                ) == c,
    );
    assert forall|c: Seq<char>| #[trigger] expected.contains(c) implies groups(
        after,
        prefix,
    ).contains(c) by {
        let k = choose|k: Seq<char>| #[trigger]
            files.contains_key(k) && k != location && is_nested(k, prefix) && step_towards(
                k,
                prefix,
            ) == c;
        assert(after.contains_key(k));
    }
    assert forall|c: Seq<char>| #[trigger]
        groups(after, prefix).contains(c) implies expected.contains(c) by {
        let k = choose|k: Seq<char>| #[trigger]
            after.contains_key(k) && is_nested(k, prefix) && step_towards(k, prefix) == c;
        assert(files.contains_key(k));
    }
    assert(groups(after, prefix) =~= expected);
}

/// Where the head of a text ends.
pub proof fn lemma_head_len(text: Seq<char>)
    ensures
        head_len(text) <= text.len(),
        head_len(text) < text.len() ==> text[head_len(text) as int] == '/',
        forall|i: int| 0 <= i < head_len(text) ==> #[trigger] text[i] != '/',
    decreases text.len(),
{
    if text.len() > 0 && text[0] != '/' {
        let rest = text.skip(1);
        lemma_head_len(rest);
        assert forall|i: int| 0 <= i < head_len(text) implies #[trigger] text[i] != '/' by {
            if i > 0 {
                assert(rest[i - 1] == text[i]);
            }
        }
    }
}

/// The head of a text ends at the first delimiter.
pub proof fn lemma_head_len_is(text: Seq<char>, n: int)
    requires
        0 <= n < text.len(),
        text[n] == '/',
        forall|i: int| 0 <= i < n ==> #[trigger] text[i] != '/',
    ensures
        head_len(text) == n,
{
    lemma_head_len(text);
    if head_len(text) < n {
        assert(text[head_len(text) as int] != '/');
    }
}

/// A location lies under a prefix if it goes on after the prefix, and after a
/// delimiter unless the prefix is empty. The prefix itself does not, nor does
/// a location that only starts with the same characters.
pub proof fn law_lies_under_by_parts(text: Seq<char>, prefix: Seq<char>)
    ensures
        lies_under(text, prefix) <==> if prefix.len() == 0 {
            text.len() > 0
        } else {
            text.len() > prefix.len() + 1 && prefix.is_prefix_of(text) && text[prefix.len() as int]
                == '/'
        },
{
    match rest_after(text, prefix) {
        Some(rest) => {
            assert(parts_of(rest).len() > 0 <==> rest.len() > 0);
        },
        None => {},
    }
    if prefix.len() == 0 {
        assert(prefix.is_prefix_of(text));
    }
}

/// Each location under a prefix is either a child of it or deeper under it.
pub proof fn law_listing_splits(files: Map<Seq<char>, FileEntry>, prefix: Seq<char>)
    ensures
        forall|k: Seq<char>| #[trigger]
            under(files, prefix).contains_key(k) <==> children(files, prefix).contains_key(k) || (
            files.contains_key(k) && is_nested(k, prefix)),
        forall|k: Seq<char>| #[trigger]
            children(files, prefix).contains_key(k) ==> !is_nested(k, prefix) && children(
                files,
                prefix,
            )[k] == under(files, prefix)[k],
        forall|k: Seq<char>| #[trigger]
            files.contains_key(k) && is_nested(k, prefix) ==> groups(files, prefix).contains(
                step_towards(k, prefix),
            ),
{
}

proof fn lemma_step(text: Seq<char>, prefix: Seq<char>)
    requires
        is_nested(text, prefix),
    ensures
        lies_under(text, step_towards(text, prefix)),
        forall|i: int|
            0 <= i < parts_under(text, prefix)[0].len() ==> #[trigger] parts_under(
                text,
                prefix,
            )[0][i] != '/',
{
    let rest = rest_after(text, prefix)->0;
    let n = head_len(rest) as int;
    let step = step_towards(text, prefix);
    lemma_head_len(rest);
    assert(parts_of(rest).len() > 1);
    assert(n < rest.len());
    assert(parts_of(rest.skip(n + 1)).len() > 0);
    assert(rest.skip(n + 1).len() > 0);
    assert(parts_of(rest)[0] == rest.take(n));
    let offset = text.len() - rest.len();
    assert(rest =~= text.skip(offset));
    assert(step =~= text.take(offset + n));
    assert(text[offset + n] == rest[n]);
    law_lies_under_by_parts(text, step);
}

/// A group that a listing names stands for the objects under it: an object
/// lies under the group's prefix if and only if it is one of those that the
/// listing left out in its favour. There is such an object. A listing never
/// names its own prefix as a group.
pub proof fn law_group_stands_for_its_objects(
    files: Map<Seq<char>, FileEntry>,
    prefix: Seq<char>,
    group: Seq<char>,
)
    requires
        groups(files, prefix).contains(group),
        !groups(files, prefix).contains(prefix),
    ensures
        exists|k: Seq<char>| under(files, group).contains_key(k),
        forall|k: Seq<char>| #[trigger]
            under(files, group).contains_key(k) <==> files.contains_key(k) && is_nested(k, prefix)
                && step_towards(k, prefix) == group,
{
    let witness = choose|k: Seq<char>| #[trigger]
        files.contains_key(k) && is_nested(k, prefix) && step_towards(k, prefix) == group;
    lemma_step(witness, prefix);
    assert(under(files, group).contains_key(witness));
    let part = parts_under(witness, prefix)[0];
    assert forall|k: Seq<char>| #[trigger]
        under(files, group).contains_key(k) <==> files.contains_key(k) && is_nested(k, prefix)
            && step_towards(k, prefix) == group by {
        if files.contains_key(k) && lies_under(k, group) {
            law_lies_under_by_parts(k, group);
            let n = part.len() as int;
            let offset = group.len() - n;
            let rest = k.skip(offset);
            assert(prefix.is_prefix_of(k)) by {
                assert(k.take(prefix.len() as int) =~= prefix);
            }
            assert(rest_after(k, prefix) == Some(rest)) by {
                if prefix.len() == 0 {
                    assert(k.skip(0) =~= rest);
                } else {
                    assert(k[prefix.len() as int] == group[prefix.len() as int]);
                    assert(k.skip(prefix.len() as int).skip(1) =~= rest);
                }
            }
            assert forall|i: int| 0 <= i < n implies #[trigger] rest[i] == part[i] by {
                assert(k[offset + i] == group[offset + i]);
            }
            lemma_head_len_is(rest, n);
            assert(rest.take(n) =~= part);
            assert(rest.skip(n + 1).len() > 0);
            assert(parts_of(rest.skip(n + 1)).len() > 0);
            assert(parts_of(rest)[0] == part);
        }
        if files.contains_key(k) && is_nested(k, prefix) && step_towards(k, prefix) == group {
            lemma_step(k, prefix);
        }
    }
}

/// Whether two descriptions say the same of the same location.
pub open spec fn alike(a: ObjectMeta, b: ObjectMeta) -> bool {
    &&& path_text(a.location) == path_text(b.location)
    &&& a.last_modified == b.last_modified
    &&& a.size == b.size
    &&& a.e_tag == b.e_tag
    &&& a.version == b.version
}

/// Whether `meta` is among `metas`.
pub open spec fn is_among(meta: ObjectMeta, metas: Seq<ObjectMeta>) -> bool {
    exists|j: int| 0 <= j < metas.len() && alike(meta, #[trigger] metas[j])
}

/// Whether the object lies under one of the prefixes.
pub open spec fn is_grouped(meta: ObjectMeta, prefixes: Seq<Seq<char>>) -> bool {
    exists|n: int|
        0 <= n < prefixes.len() && lies_under(path_text(meta.location), #[trigger] prefixes[n])
}

/// Whether one of the objects lies under the prefix.
pub open spec fn groups_one(prefix: Seq<char>, metas: Seq<ObjectMeta>) -> bool {
    exists|i: int|
        0 <= i < metas.len() && lies_under(path_text((#[trigger] metas[i]).location), prefix)
}

/// Of one store and prefix, the listing with groups splits the listing
/// without. Each object of the latter is an object of the former or lies under
/// a group of it, never both, and never under two groups. Each object of the
/// former is one of the latter, and each of its groups has an object of the
/// latter under it. What is required is what
/// [`crate::store::BlockObjectStore::list`] and
/// [`crate::store::BlockObjectStore::list_with_delimiter`] ensure.
pub proof fn law_groups_split_the_listing(
    files: Map<Seq<char>, FileEntry>,
    prefix: Seq<char>,
    listed: Seq<ObjectMeta>,
    result: ListResult,
)
    requires
        lists(listed, under(files, prefix)),
        lists(result.objects@, children(files, prefix)),
        ascending(texts(result.common_prefixes@)),
        texts(result.common_prefixes@).to_set() == groups(files, prefix),
        !texts(result.common_prefixes@).contains(prefix),
    ensures
        forall|i: int|
            0 <= i < listed.len() ==> (is_among(#[trigger] listed[i], result.objects@)
                <==> !is_grouped(listed[i], texts(result.common_prefixes@))),
        forall|i: int, m: int, n: int|
            0 <= i < listed.len() && 0 <= m < result.common_prefixes@.len() && 0 <= n
                < result.common_prefixes@.len() && lies_under(
                path_text((#[trigger] listed[i]).location),
                #[trigger] texts(result.common_prefixes@)[m],
            ) && lies_under(
                path_text(listed[i].location),
                #[trigger] texts(result.common_prefixes@)[n],
            ) ==> m == n,
        forall|j: int|
            0 <= j < result.objects@.len() ==> is_among(#[trigger] result.objects@[j], listed),
        forall|n: int|
            0 <= n < result.common_prefixes@.len() ==> groups_one(
                #[trigger] texts(result.common_prefixes@)[n],
                listed,
            ),
{
    let objects = result.objects@;
    let named = texts(result.common_prefixes@);
    let all = under(files, prefix);
    assert(!groups(files, prefix).contains(prefix)) by {
        assert(!named.to_set().contains(prefix));
    }
    assert forall|n: int| 0 <= n < named.len() implies groups(files, prefix).contains(
        #[trigger] named[n],
    ) by {
        assert(named.to_set().contains(named[n]));
    }
    assert forall|i: int, n: int| 0 <= i < listed.len() && 0 <= n < named.len() implies (lies_under(
        path_text((#[trigger] listed[i]).location),
        #[trigger] named[n],
    ) <==> is_nested(path_text(listed[i].location), prefix) && step_towards(
        path_text(listed[i].location),
        prefix,
    ) == named[n]) by {
        let text = path_text(listed[i].location);
        law_group_stands_for_its_objects(files, prefix, named[n]);
        assert(all.contains_key(text));
        assert(under(files, named[n]).contains_key(text) <==> lies_under(text, named[n]));
    }
    assert forall|i: int| 0 <= i < listed.len() implies (is_among(#[trigger] listed[i], objects)
        <==> !is_grouped(listed[i], named)) by {
        let text = path_text(listed[i].location);
        assert(all.contains_key(text));
        if is_child(text, prefix) {
            assert(children(files, prefix).contains_key(text));
            let j = choose|j: int|
                0 <= j < objects.len() && path_text((#[trigger] objects[j]).location) == text;
            assert(alike(listed[i], objects[j]));
        } else {
            let step = step_towards(text, prefix);
            assert(files.contains_key(text) && is_nested(text, prefix));
            assert(groups(files, prefix).contains(step));
            assert(named.to_set().contains(step));
            let n = choose|n: int| 0 <= n < named.len() && named[n] == step;
            assert(lies_under(text, named[n]));
            if is_among(listed[i], objects) {
                let j = choose|j: int|
                    0 <= j < objects.len() && alike(listed[i], #[trigger] objects[j]);
                assert(children(files, prefix).contains_key(path_text(objects[j].location)));
            }
        }
    }
    law_ascending_texts_differ(named);
    assert forall|j: int| 0 <= j < objects.len() implies is_among(
        #[trigger] objects[j],
        listed,
    ) by {
        let text = path_text(objects[j].location);
        assert(children(files, prefix).contains_key(text));
        assert(all.contains_key(text));
        let i = choose|i: int|
            0 <= i < listed.len() && path_text((#[trigger] listed[i]).location) == text;
        assert(alike(objects[j], listed[i]));
    }
    assert forall|n: int| 0 <= n < named.len() implies groups_one(#[trigger] named[n], listed) by {
        law_group_stands_for_its_objects(files, prefix, named[n]);
        let text = choose|k: Seq<char>| under(files, named[n]).contains_key(k);
        assert(files.contains_key(text) && is_nested(text, prefix));
        assert(all.contains_key(text));
        let i = choose|i: int|
            0 <= i < listed.len() && path_text((#[trigger] listed[i]).location) == text;
        assert(lies_under(path_text(listed[i].location), named[n]));
    }
}

/// In an ascending sequence no text occurs twice.
pub proof fn law_ascending_texts_differ(all: Seq<Seq<char>>)
    requires
        ascending(all),
    ensures
        all.no_duplicates(),
{
    assert forall|i: int, j: int| 0 <= i < all.len() && 0 <= j < all.len() && i
        != j implies all[i] != all[j] by {
        lemma_precedes_irreflexive(all[i]);
        if i < j {
            assert(text_precedes(all[i], all[j]));
        } else {
            assert(text_precedes(all[j], all[i]));
        }
    }
}

} // verus!
