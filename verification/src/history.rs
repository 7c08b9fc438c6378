//! What holds of a store across a run of writes and deletes.

use crate::file_map::{no_files, FileEntry};
use crate::file_write::FileWriteView;
use crate::laws::{
    is_owed, law_file_holds_the_object, law_parts_count_when_they_arrive,
    lemma_performed_elsewhere, lemma_read_is_owed, parts_arrived, performed_all, read, uploaded,
};
use crate::multipart::UploadView;
use crate::options::{can_resolve, resolved, GetRange};
use crate::payload::{concat, lemma_concat_one};
use vstd::prelude::*;

verus! {

/// A store together with the linked block lists of the database.
pub struct StoreState {
    /// The relation of the store.
    pub relation_oid: u32,
    /// The files of the store, by location.
    pub files: Map<Seq<char>, FileEntry>,
    /// The lists, by relation and header block.
    pub blocks: Map<(u32, u32), Seq<u8>>,
}

/// What happens to a store.
pub enum StoreEvent {
    /// A put, or the completion of an upload, is performed to its end and
    /// recorded.
    Written { write: FileWriteView },
    /// A put, or the completion of an upload, fails after some of its
    /// operations.
    Failed { write: FileWriteView },
    /// An object is deleted.
    Deleted { location: Seq<char> },
}

impl StoreEvent {
    /// Whether this writes or deletes the object at the location.
    pub open spec fn changes(self, location: Seq<char>) -> bool {
        match self {
            StoreEvent::Written { write } => write.location == location,
            StoreEvent::Failed { .. } => false,
            StoreEvent::Deleted { location: deleted } => deleted == location,
        }
    }
}

impl StoreState {
    /// The list of the file at the location.
    pub open spec fn list_of(self, location: Seq<char>) -> (u32, u32) {
        (self.relation_oid, self.files[location].staring_block)
    }

    /// The objects of the store: the stored bytes, by location.
    pub open spec fn objects(self) -> Map<Seq<char>, Seq<u8>> {
        Map::new(
            |k: Seq<char>| self.files.contains_key(k),
            |k: Seq<char>| self.blocks[self.list_of(k)],
        )
    }

    /// Whether each file has a list of its own, of the length that it notes.
    pub open spec fn consistent(self) -> bool {
        &&& forall|k: Seq<char>| #[trigger]
            self.files.contains_key(k) ==> self.blocks.contains_key(self.list_of(k))
                && self.blocks[self.list_of(k)].len() == self.files[k].total_bytes
        &&& forall|k: Seq<char>, m: Seq<char>| #[trigger]
            self.files.contains_key(k) && #[trigger] self.files.contains_key(m) && k != m
                ==> self.files[k].staring_block != self.files[m].staring_block
    }

    /// Whether the block is the header of no file of the store.
    pub open spec fn is_fresh(self, block: u32) -> bool {
        forall|k: Seq<char>| #[trigger]
            self.files.contains_key(k) ==> self.files[k].staring_block != block
    }

    /// Whether the event can happen: a new list has a header block that is in
    /// use by no file, and what is deleted is there.
    pub open spec fn allows(self, event: StoreEvent) -> bool {
        match event {
            StoreEvent::Written { write } => {
                &&& write.relation_oid == self.relation_oid
                &&& write.block is Some
                &&& self.is_fresh(write.block->0)
                &&& concat(write.chunks).len() <= usize::MAX
            },
            StoreEvent::Failed { write } => {
                &&& write.relation_oid == self.relation_oid
                &&& write.position <= write.script().len()
                &&& write.block is None ==> write.position == 0
                &&& write.block is Some ==> self.is_fresh(write.block->0)
            },
            StoreEvent::Deleted { location } => self.files.contains_key(location),
        }
    }

    /// The state after the event. Of a list that has been deleted nothing is
    /// known.
    pub open spec fn after(self, event: StoreEvent) -> StoreState {
        match event {
            StoreEvent::Written { write } => StoreState {
                files: self.files.insert(write.location, write.entry()),
                blocks: performed_all(
                    self.blocks,
                    (write.relation_oid, write.block->0),
                    write.script(),
                ),
                ..self
            },
            StoreEvent::Failed { write } => StoreState {
                blocks: performed_all(
                    self.blocks,
                    (write.relation_oid, write.block->0),
                    write.script().take(write.position as int),
                ),
                ..self
            },
            StoreEvent::Deleted { location } => StoreState {
                files: self.files.remove(location),
                blocks: self.blocks.remove(self.list_of(location)),
                ..self
            },
        }
    }

    /// The state after the events, one after the other.
    pub open spec fn after_all(self, events: Seq<StoreEvent>) -> StoreState
        decreases events.len(),
    {
        if events.len() == 0 {
            self
        } else {
            self.after_all(events.drop_last()).after(events.last())
        }
    }

    /// Whether the events can happen, one after the other.
    pub open spec fn allows_all(self, events: Seq<StoreEvent>) -> bool
        decreases events.len(),
    {
        events.len() > 0 ==> {
            &&& self.allows_all(events.drop_last())
            &&& self.after_all(events.drop_last()).allows(events.last())
        }
    }
}

/// What an event makes of the objects of a store.
pub open spec fn objects_after(
    objects: Map<Seq<char>, Seq<u8>>,
    event: StoreEvent,
) -> Map<Seq<char>, Seq<u8>> {
    match event {
        StoreEvent::Written { write } => objects.insert(write.location, concat(write.chunks)),
        StoreEvent::Failed { .. } => objects,
        StoreEvent::Deleted { location } => objects.remove(location),
    }
}

/// What some events make of the objects of a store, one after the other.
pub open spec fn objects_after_all(
    objects: Map<Seq<char>, Seq<u8>>,
    events: Seq<StoreEvent>,
) -> Map<Seq<char>, Seq<u8>>
    decreases events.len(),
{
    if events.len() == 0 {
        objects
    } else {
        objects_after(objects_after_all(objects, events.drop_last()), events.last())
    }
}

/// A store without objects is consistent.
pub proof fn law_new_store_is_consistent(relation_oid: u32, blocks: Map<(u32, u32), Seq<u8>>)
    ensures
        ({
            let created = StoreState { relation_oid, files: no_files(), blocks };
            &&& created.consistent()
            &&& created.objects() == Map::<Seq<char>, Seq<u8>>::empty()
        }),
{
    let created = StoreState { relation_oid, files: no_files(), blocks };
    assert(created.objects() =~= Map::empty());
}

/// An event leaves a consistent store consistent. A write that is recorded
/// replaces the whole object at its location, a write that fails changes no
/// object, and a delete takes one object out. No other object changes.
pub proof fn law_event_changes_one_object(state: StoreState, event: StoreEvent)
    requires
        state.consistent(),
        state.allows(event),
    ensures
        state.after(event).consistent(),
        state.after(event).objects() == objects_after(state.objects(), event),
        state.after(event).relation_oid == state.relation_oid,
{
    let after = state.after(event);
    match event {
        StoreEvent::Written { write } => {
            law_file_holds_the_object(
                state.blocks,
                write.relation_oid,
                write.block->0,
                write.chunks,
            );
        },
        StoreEvent::Failed { write } => {
            let ops = write.script().take(write.position as int);
            let list = (write.relation_oid, write.block->0);
            lemma_performed_elsewhere(state.blocks, list, ops);
            assert forall|k: Seq<char>| #[trigger]
                state.files.contains_key(k) && write.block is Some implies after.blocks.contains_key(
                state.list_of(k),
            ) && after.blocks[state.list_of(k)] == state.blocks[state.list_of(k)] by {
                let other = state.list_of(k);
                assert(other != list);
                assert(after.blocks.remove(list).contains_key(other));
                assert(after.blocks.remove(list)[other] == state.blocks.remove(list)[other]);
            }
        },
        StoreEvent::Deleted { .. } => {},
    }
    assert(after.objects() =~= objects_after(state.objects(), event));
}

/// What holds of one event holds of a run of them.
pub proof fn law_run_changes_its_objects(state: StoreState, events: Seq<StoreEvent>)
    requires
        state.consistent(),
        state.allows_all(events),
    ensures
        state.after_all(events).consistent(),
        state.after_all(events).objects() == objects_after_all(state.objects(), events),
        state.after_all(events).relation_oid == state.relation_oid,
    decreases events.len(),
{
    if events.len() > 0 {
        law_run_changes_its_objects(state, events.drop_last());
        law_event_changes_one_object(state.after_all(events.drop_last()), events.last());
    }
}

proof fn lemma_run_keeps(
    objects: Map<Seq<char>, Seq<u8>>,
    events: Seq<StoreEvent>,
    location: Seq<char>,
)
    requires
        objects.contains_key(location),
        forall|i: int| 0 <= i < events.len() ==> !(#[trigger] events[i]).changes(location),
    ensures
        objects_after_all(objects, events).contains_key(location),
        objects_after_all(objects, events)[location] == objects[location],
    decreases events.len(),
{
    if events.len() > 0 {
        let before = events.drop_last();
        assert forall|i: int| 0 <= i < before.len() implies !(#[trigger] before[i]).changes(
            location,
        ) by {
            assert(before[i] == events[i]);
        }
        lemma_run_keeps(objects, before, location);
        assert(!events[events.len() - 1].changes(location));
    }
}

/// A get finds what a put wrote, also after any puts, completed uploads and
/// deletes of other objects, and writes that failed: the file is there, it is
/// as long as the object, and a read of the range asked for finds what is owed
/// of the object.
pub proof fn law_get_finds_what_put_wrote_across_a_run(
    state: StoreState,
    write: FileWriteView,
    events: Seq<StoreEvent>,
    range: Option<GetRange>,
)
    requires
        state.consistent(),
        state.allows(StoreEvent::Written { write }),
        state.after(StoreEvent::Written { write }).allows_all(events),
        forall|i: int| 0 <= i < events.len() ==> !(#[trigger] events[i]).changes(write.location),
        can_resolve(range, concat(write.chunks).len() as usize),
    ensures
        ({
            let object = concat(write.chunks);
            let end = state.after(StoreEvent::Written { write }).after_all(events);
            let file = end.files[write.location];
            let positions = resolved(range, file.total_bytes);
            &&& end.files.contains_key(write.location)
            &&& file.total_bytes == object.len()
            &&& range is None ==> positions == (0int, object.len() as int)
            &&& is_owed(read(end.blocks, end.relation_oid, file, positions), object, range)
        }),
{
    let put = StoreEvent::Written { write };
    let end = state.after(put).after_all(events);
    law_event_changes_one_object(state, put);
    law_run_changes_its_objects(state.after(put), events);
    lemma_run_keeps(state.after(put).objects(), events, write.location);
    assert(end.objects().contains_key(write.location));
    assert(end.blocks[end.list_of(write.location)] == concat(write.chunks));
    lemma_read_is_owed(concat(write.chunks), range);
}

/// The object of a completed upload holds the parts that had arrived by then,
/// in the order in which they arrived, and nothing of those that arrive later:
/// these find the upload closed and leave it as it is.
pub proof fn law_completed_upload_stores_the_parts_in_time(
    state: StoreState,
    upload: UploadView,
    in_time: Seq<Seq<Seq<u8>>>,
    late: Seq<Seq<Seq<u8>>>,
    block: u32,
)
    requires
        state.consistent(),
        state.relation_oid == upload.relation_oid,
        state.is_fresh(block),
        upload.buffer == Some(Seq::<u8>::empty()),
        uploaded(in_time).len() <= usize::MAX,
    ensures
        ({
            let full = parts_arrived(upload, in_time);
            let write = FileWriteView {
                block: Some(block),
                ..FileWriteView::start(full.relation_oid, full.location, seq![full.buffer->0])
            };
            let after = state.after(StoreEvent::Written { write });
            &&& full.buffer == Some(uploaded(in_time))
            &&& after.objects() == state.objects().insert(upload.location, uploaded(in_time))
            &&& after.files[upload.location].total_bytes == uploaded(in_time).len()
            &&& parts_arrived(full.closed(), late) == full.closed()
        }),
{
    let full = parts_arrived(upload, in_time);
    law_parts_count_when_they_arrive(upload, in_time, late);
    let write = FileWriteView {
        block: Some(block),
        ..FileWriteView::start(full.relation_oid, full.location, seq![full.buffer->0])
    };
    lemma_concat_one(uploaded(in_time));
    law_event_changes_one_object(state, StoreEvent::Written { write });
}

/// To delete an object leaves every other object as it was: its location is
/// mapped to the same file, and a read of the file finds the same bytes.
pub proof fn law_delete_keeps_other_objects(
    state: StoreState,
    location: Seq<char>,
    other: Seq<char>,
    positions: (int, int),
)
    requires
        state.consistent(),
        state.files.contains_key(location),
        state.files.contains_key(other),
        other != location,
    ensures
        ({
            let after = state.after(StoreEvent::Deleted { location });
            &&& !after.files.contains_key(location)
            &&& after.files.contains_key(other)
            &&& after.files[other] == state.files[other]
            &&& read(after.blocks, after.relation_oid, after.files[other], positions) == read(
                state.blocks,
                state.relation_oid,
                state.files[other],
                positions,
            )
        }),
{
}

/// Of two puts to one location the later one counts: the objects are those
/// after the later put alone. Which blocks the lists were given does not
/// matter.
pub proof fn law_put_replaces(
    state: StoreState,
    first: FileWriteView,
    second: FileWriteView,
    alone: FileWriteView,
)
    requires
        state.consistent(),
        state.allows(StoreEvent::Written { write: first }),
        state.after(StoreEvent::Written { write: first }).allows(
            StoreEvent::Written { write: second },
        ),
        state.allows(StoreEvent::Written { write: alone }),
        first.location == second.location,
        alone.location == second.location,
        alone.chunks == second.chunks,
    ensures
        state.after(StoreEvent::Written { write: first }).after(
            StoreEvent::Written { write: second },
        ).objects() == state.after(StoreEvent::Written { write: alone }).objects(),
{
    let between = state.after(StoreEvent::Written { write: first });
    law_event_changes_one_object(state, StoreEvent::Written { write: first });
    law_event_changes_one_object(between, StoreEvent::Written { write: second });
    law_event_changes_one_object(state, StoreEvent::Written { write: alone });
    assert(between.after(StoreEvent::Written { write: second }).objects() =~= state.after(
        StoreEvent::Written { write: alone },
    ).objects());
}

/// Puts to two locations leave the same objects in either order. Which blocks
/// the lists were given does not matter.
pub proof fn law_puts_commute(
    state: StoreState,
    a: FileWriteView,
    b_after_a: FileWriteView,
    b: FileWriteView,
    a_after_b: FileWriteView,
)
    requires
        state.consistent(),
        state.allows(StoreEvent::Written { write: a }),
        state.after(StoreEvent::Written { write: a }).allows(
            StoreEvent::Written { write: b_after_a },
        ),
        state.allows(StoreEvent::Written { write: b }),
        state.after(StoreEvent::Written { write: b }).allows(
            StoreEvent::Written { write: a_after_b },
        ),
        a.location != b.location,
        a.location == a_after_b.location,
        a.chunks == a_after_b.chunks,
        b.location == b_after_a.location,
        b.chunks == b_after_a.chunks,
    ensures
        state.after(StoreEvent::Written { write: a }).after(
            StoreEvent::Written { write: b_after_a },
        ).objects() == state.after(StoreEvent::Written { write: b }).after(
            StoreEvent::Written { write: a_after_b },
        ).objects(),
{
    let with_a = state.after(StoreEvent::Written { write: a });
    let with_b = state.after(StoreEvent::Written { write: b });
    law_event_changes_one_object(state, StoreEvent::Written { write: a });
    law_event_changes_one_object(with_a, StoreEvent::Written { write: b_after_a });
    law_event_changes_one_object(state, StoreEvent::Written { write: b });
    law_event_changes_one_object(with_b, StoreEvent::Written { write: a_after_b });
    assert(with_a.after(StoreEvent::Written { write: b_after_a }).objects() =~= with_b.after(
        StoreEvent::Written { write: a_after_b },
    ).objects());
}

/// To delete an object that was put where none had been restores the files of
/// the store and its objects.
pub proof fn law_delete_undoes_put(state: StoreState, write: FileWriteView)
    requires
        state.consistent(),
        state.allows(StoreEvent::Written { write }),
        !state.files.contains_key(write.location),
    ensures
        ({
            let after = state.after(StoreEvent::Written { write }).after(
                StoreEvent::Deleted { location: write.location },
            );
            &&& after.files == state.files
            &&& after.objects() == state.objects()
        }),
{
    let put = StoreEvent::Written { write };
    let delete = StoreEvent::Deleted { location: write.location };
    law_event_changes_one_object(state, put);
    law_event_changes_one_object(state.after(put), delete);
    assert(state.after(put).after(delete).files =~= state.files);
    assert(state.after(put).after(delete).objects() =~= state.objects());
}

} // verus!
