use block_object_store::file_map::FileEntry;
use block_object_store::file_write::FileWrite;
use block_object_store::multipart::BlockMultipartWrite;
use block_object_store::options::{GetRange, PutMode, PutResult, StoreError, UpdateVersion};
use block_object_store::storage::{DeleteRequest, RangeData, StorageAction};
use block_object_store::store::{BlockObjectStore, GetResult};
use bytes::Bytes;
use object_store::path::Path;
use object_store::PutPayload;
use std::collections::HashMap;
use std::ops::Range;

/// Linked block lists in memory, by relation and header block. An operation
/// can be made to fail by its number.
struct Lists {
    lists: HashMap<(u32, u32), Vec<u8>>,
    log: Vec<String>,
    next_block: u32,
    fail_at: Option<usize>,
}

impl Lists {
    fn new() -> Lists {
        Lists { lists: HashMap::new(), log: Vec::new(), next_block: 100, fail_at: None }
    }

    fn attempt(&mut self, what: String) -> Result<(), String> {
        let number = self.log.len();
        self.log.push(what);
        if self.fail_at == Some(number) {
            Err(format!("operation {}", number))
        } else {
            Ok(())
        }
    }

    fn run(
        &mut self,
        write: FileWrite<'_>,
        store: &mut BlockObjectStore,
    ) -> Result<PutResult, StoreError<String>> {
        let mut write = write;
        let relation_oid = write.oid();
        assert_eq!(relation_oid, store.oid());
        let mut list: (u32, u32) = (0, 0);
        while let Some(action) = write.action() {
            write = match action {
                StorageAction::Create { relation_oid } => {
                    self.log.push(format!("create {}", relation_oid));
                    list = (relation_oid, self.next_block);
                    self.next_block += 10;
                    self.lists.insert(list, Vec::new());
                    write.created(list.1)
                }
                StorageAction::Write { bytes } => {
                    let outcome = self.attempt(format!("write {}", bytes.len()));
                    self.lists.get_mut(&list).unwrap().extend_from_slice(bytes);
                    write.advance(outcome)?
                }
                StorageAction::Flush => {
                    let outcome = self.attempt(String::from("flush"));
                    write.advance(outcome)?
                }
            };
        }
        Ok(write.finish(store))
    }

    fn put(&mut self, store: &mut BlockObjectStore, location: &str, payload: PutPayload) {
        let location = Path::from(location);
        let write = store.put_opts::<String>(&location, &payload, &PutMode::Overwrite).unwrap();
        self.run(write, store).unwrap();
    }

    fn get(&self, store: &BlockObjectStore, location: &str, range: Option<GetRange>) -> GetResult {
        let request = store.get_opts(&Path::from(location), range);
        let list = &self.lists[&(request.read.relation_oid, request.read.staring_block)];
        let found = &list[request.read.range.clone()];
        let data = if found.len() <= 4 {
            RangeData::OnePage(found)
        } else {
            RangeData::MultiPage(found.to_vec())
        };
        request.found(data)
    }
}

fn payload(chunks: &[&'static [u8]]) -> PutPayload {
    chunks.iter().map(|c| Bytes::from_static(c)).collect()
}

#[test]
fn new_store_is_empty() {
    let store = BlockObjectStore::new(7);
    assert_eq!(store.oid(), 7);
    assert_eq!(store.entry(&Path::from("a")), None);
    assert!(store.list(None).is_empty());
    assert_eq!(store.display(), "BlockObjectStore");
}

#[test]
fn put_creates_writes_each_chunk_flushes_and_records() {
    let mut store = BlockObjectStore::new(7);
    let mut lists = Lists::new();
    let data = payload(&[b"abc", b"", b"defg"]);
    let location = Path::from("dir/file");
    let write = store.put_opts::<String>(&location, &data, &PutMode::Overwrite).unwrap();
    assert_eq!(store.entry(&location), None);
    let result = lists.run(write, &mut store).unwrap();
    assert!(result.e_tag.is_none() && result.version.is_none());
    assert_eq!(lists.log, ["create 7", "write 3", "write 0", "write 4", "flush"]);
    assert_eq!(
        store.entry(&location),
        Some(FileEntry { staring_block: 100, total_bytes: 7 })
    );
    assert_eq!(lists.lists[&(7, 100)], b"abcdefg");
}

#[test]
fn put_of_an_empty_payload_only_flushes() {
    let mut store = BlockObjectStore::new(1);
    let mut lists = Lists::new();
    lists.put(&mut store, "a", PutPayload::new());
    assert_eq!(lists.log, ["create 1", "flush"]);
    assert_eq!(
        store.entry(&Path::from("a")),
        Some(FileEntry { staring_block: 100, total_bytes: 0 })
    );
}

#[test]
fn put_refuses_other_modes() {
    let store = BlockObjectStore::new(1);
    let data = payload(&[b"x"]);
    match store.put_opts::<String>(&Path::from("a"), &data, &PutMode::Create) {
        Err(StoreError::NotSupported { source }) => {
            assert_eq!(source, "Create is not supported, only Overwrite")
        }
        _ => panic!("refused"),
    }
    let version = UpdateVersion { e_tag: Some(String::from("t\"1")), version: None };
    let expected = format!(
        "{:?} is not supported, only Overwrite",
        object_store::PutMode::Update(object_store::UpdateVersion {
            e_tag: Some(String::from("t\"1")),
            version: None,
        })
    );
    assert_eq!(
        expected,
        "Update(UpdateVersion { e_tag: Some(\"t\\\"1\"), version: None }) is not supported, only Overwrite"
    );
    match store.put_opts::<String>(&Path::from("a"), &data, &PutMode::Update(version)) {
        Err(StoreError::NotSupported { source }) => assert_eq!(source, expected),
        _ => panic!("refused"),
    }
    match store.put_opts_checked::<String>(&Path::from("a"), &data, &PutMode::Create) {
        Some(Err(StoreError::NotSupported { .. })) => {}
        _ => panic!("refused"),
    }
}

#[test]
fn checked_put_counts_the_payload() {
    let store = BlockObjectStore::new(1);
    let data = payload(&[b"x", b"yz"]);
    let write = store
        .put_opts_checked::<String>(&Path::from("a"), &data, &PutMode::Overwrite)
        .unwrap()
        .unwrap();
    assert!(matches!(write.action(), Some(StorageAction::Create { relation_oid: 1 })));
}

#[test]
fn failed_write_leaves_the_store_unchanged() {
    for fail_at in 1..4 {
        let mut store = BlockObjectStore::new(1);
        let mut lists = Lists::new();
        lists.fail_at = Some(fail_at);
        let data = payload(&[b"ab", b"c"]);
        let location = Path::from("a");
        let write = store.put_opts::<String>(&location, &data, &PutMode::Overwrite).unwrap();
        match lists.run(write, &mut store) {
            Err(StoreError::Generic { store, source }) => {
                assert_eq!(store, "BlockObjectStore");
                assert_eq!(source, format!("operation {}", fail_at));
            }
            _ => panic!("failed"),
        }
        assert_eq!(lists.log.len(), fail_at + 1);
        assert_eq!(store.entry(&location), None);
    }
}

#[test]
fn get_finds_what_put_wrote() {
    let mut store = BlockObjectStore::new(3);
    let mut lists = Lists::new();
    lists.put(&mut store, "other", payload(&[b"zzz"]));
    lists.put(&mut store, "a/b", payload(&[b"0123", b"456789"]));
    let ranges: Vec<(Option<GetRange>, Range<usize>, &[u8])> = vec![
        (None, 0..10, b"0123456789"),
        (Some(GetRange::Offset(7)), 7..10, b"789"),
        (Some(GetRange::Offset(10)), 10..10, b""),
        (Some(GetRange::Suffix(6)), 4..10, b"456789"),
        (Some(GetRange::Suffix(10)), 0..10, b"0123456789"),
        (Some(GetRange::Suffix(0)), 10..10, b""),
        (Some(GetRange::Bounded(2..5)), 2..5, b"234"),
    ];
    for (range, positions, expected) in ranges {
        let result = lists.get(&store, "a/b", range);
        assert_eq!(result.payload, expected);
        assert_eq!(result.range, positions);
        assert_eq!(result.meta.location, Path::from("a/b"));
        assert_eq!(result.meta.size, 10);
        assert!(result.meta.e_tag.is_none() && result.meta.version.is_none());
    }
    assert_eq!(lists.get(&store, "other", None).payload, b"zzz".as_slice());
}

#[test]
fn get_asks_for_the_list_of_the_file() {
    let mut store = BlockObjectStore::new(3);
    store.record(Path::from("f"), FileEntry { staring_block: 42, total_bytes: 9 });
    let request = store.get_opts(&Path::from("f"), Some(GetRange::Bounded(3..30)));
    assert_eq!(request.read.relation_oid, 3);
    assert_eq!(request.read.staring_block, 42);
    assert_eq!(request.read.range, 3..30);
    assert_eq!(request.meta.last_modified, 0);
    let never = object_store::ObjectMeta {
        location: Path::from("f"),
        last_modified: Default::default(),
        size: 9,
        e_tag: None,
        version: None,
    };
    assert_eq!(never.last_modified.timestamp(), 0);
}

#[test]
fn stores_of_two_relations_do_not_meet() {
    let mut lists = Lists::new();
    let mut left = BlockObjectStore::new(3);
    let mut right = BlockObjectStore::new(4);
    lists.put(&mut left, "a", payload(&[b"left"]));
    lists.next_block = 100;
    lists.put(&mut right, "a", payload(&[b"the right"]));
    assert_eq!(left.entry(&Path::from("a")).unwrap().staring_block, 100);
    assert_eq!(right.entry(&Path::from("a")).unwrap().staring_block, 100);
    assert_eq!(lists.get(&left, "a", None).payload, b"left".as_slice());
    assert_eq!(lists.get(&right, "a", None).payload, b"the right".as_slice());
}

#[test]
fn write_goes_to_the_relation_of_the_store() {
    let store = BlockObjectStore::new(9);
    let data = payload(&[b"x"]);
    let write = store.put_opts::<String>(&Path::from("a"), &data, &PutMode::Overwrite).unwrap();
    assert_eq!(write.oid(), 9);
    let mut upload = store.put_multipart_opts(&Path::from("a"));
    let mut data = Vec::new();
    assert_eq!(upload.complete(&mut data).oid(), 9);
}

#[test]
fn later_put_replaces() {
    let mut store = BlockObjectStore::new(3);
    let mut lists = Lists::new();
    lists.put(&mut store, "a", payload(&[b"first"]));
    lists.put(&mut store, "a", payload(&[b"second!"]));
    assert_eq!(lists.get(&store, "a", None).payload, b"second!".as_slice());
    assert_eq!(store.list(None).len(), 1);
}

#[test]
fn delete_takes_the_object_out() {
    let mut store = BlockObjectStore::new(3);
    store.record(Path::from("a"), FileEntry { staring_block: 1, total_bytes: 10 });
    store.record(Path::from("b"), FileEntry { staring_block: 2, total_bytes: 20 });
    let target = store.delete_target(&Path::from("a"));
    assert_eq!(target, DeleteRequest { relation_oid: 3, staring_block: 1 });
    assert!(store.entry(&Path::from("a")).is_some());
    store.delete(&Path::from("a"));
    assert_eq!(store.entry(&Path::from("a")), None);
    assert_eq!(
        store.entry(&Path::from("b")),
        Some(FileEntry { staring_block: 2, total_bytes: 20 })
    );
    assert_eq!(store.oid(), 3);
}

#[test]
fn upload_in_parts_stores_what_one_put_stores() {
    let mut store = BlockObjectStore::new(5);
    let mut lists = Lists::new();
    let location = Path::from("up/load");
    let mut upload: BlockMultipartWrite = store.put_multipart_opts(&location);
    assert!(upload.is_open());
    upload.put_part(&payload(&[b"ab", b"c"]));
    upload.put_part(&payload(&[]));
    upload.put_part(&payload(&[b"defgh"]));
    let mut data = vec![9];
    lists.run(upload.complete(&mut data), &mut store).unwrap();
    assert!(!upload.is_open());
    assert_eq!(data, b"abcdefgh");
    assert_eq!(lists.log, ["create 5", "write 8", "flush"]);
    assert_eq!(
        store.entry(&location),
        Some(FileEntry { staring_block: 100, total_bytes: 8 })
    );
    lists.put(&mut store, "one", payload(&[b"ab", b"c", b"defgh"]));
    assert_eq!(
        lists.get(&store, "up/load", None).payload,
        lists.get(&store, "one", None).payload
    );
    assert_eq!(
        store.entry(&Path::from("one")),
        Some(FileEntry { staring_block: 110, total_bytes: 8 })
    );
}

#[test]
fn upload_without_parts_stores_an_empty_object() {
    let mut store = BlockObjectStore::new(5);
    let mut lists = Lists::new();
    let mut upload = store.put_multipart_opts(&Path::from("e"));
    let mut data = Vec::new();
    lists.run(upload.complete(&mut data), &mut store).unwrap();
    assert_eq!(lists.log, ["create 5", "write 0", "flush"]);
    assert_eq!(
        store.entry(&Path::from("e")),
        Some(FileEntry { staring_block: 100, total_bytes: 0 })
    );
}

#[test]
fn failed_upload_is_closed_and_not_recorded() {
    let mut store = BlockObjectStore::new(5);
    let mut lists = Lists::new();
    lists.fail_at = Some(1);
    let mut upload = store.put_multipart_opts(&Path::from("e"));
    upload.put_part(&payload(&[b"abc"]));
    let mut data = Vec::new();
    match lists.run(upload.complete(&mut data), &mut store) {
        Err(StoreError::Generic { source, .. }) => assert_eq!(source, "operation 1"),
        _ => panic!("failed"),
    }
    assert!(!upload.is_open());
    assert_eq!(store.entry(&Path::from("e")), None);
}

#[test]
fn aborted_upload_is_closed() {
    let store = BlockObjectStore::new(5);
    let mut upload = store.put_multipart_opts(&Path::from("e"));
    upload.put_part(&payload(&[b"abc"]));
    upload.abort();
    assert!(!upload.is_open());
    assert_eq!(store.entry(&Path::from("e")), None);
}

#[test]
fn part_counts_when_it_arrives() {
    let mut store = BlockObjectStore::new(5);
    let mut lists = Lists::new();
    let location = Path::from("p");
    let mut upload = store.put_multipart_opts(&location);
    let first = payload(&[b"one"]);
    let second = payload(&[b"two"]);
    let late = payload(&[b"late"]);
    upload.part_arrived(&second);
    upload.part_arrived(&first);
    let mut data = Vec::new();
    lists.run(upload.complete(&mut data), &mut store).unwrap();
    let operations = lists.log.len();
    upload.part_arrived(&late);
    assert!(!upload.is_open());
    assert_eq!(lists.log.len(), operations);
    assert_eq!(store.list(None).len(), 1);
    assert_eq!(lists.get(&store, "p", None).payload, b"twoone".as_slice());
    let mut aborted = store.put_multipart_opts(&location);
    aborted.abort();
    aborted.part_arrived(&late);
    assert!(!aborted.is_open());
}

#[test]
fn get_finds_what_put_wrote_across_a_run() {
    let mut store = BlockObjectStore::new(3);
    let mut lists = Lists::new();
    lists.put(&mut store, "d", payload(&[b"gone"]));
    lists.put(&mut store, "a", payload(&[b"kept ", b"bytes"]));
    lists.put(&mut store, "b", payload(&[b"other"]));
    let mut upload = store.put_multipart_opts(&Path::from("c"));
    upload.put_part(&payload(&[b"uploaded"]));
    let mut data = Vec::new();
    lists.run(upload.complete(&mut data), &mut store).unwrap();
    let target = store.delete_target(&Path::from("d"));
    lists.lists.remove(&(target.relation_oid, target.staring_block));
    store.delete(&Path::from("d"));
    lists.next_block = target.staring_block;
    lists.fail_at = Some(lists.log.len() + 1);
    let failing = payload(&[b"never"]);
    let write = store.put_opts::<String>(&Path::from("a"), &failing, &PutMode::Overwrite).unwrap();
    assert!(lists.run(write, &mut store).is_err());
    lists.fail_at = None;
    let found = lists.get(&store, "a", None);
    assert_eq!(found.payload, b"kept bytes".as_slice());
    assert_eq!(found.range, 0..10);
    assert_eq!(found.meta.size, 10);
    assert_eq!(lists.get(&store, "a", Some(GetRange::Suffix(5))).payload, b"bytes".as_slice());
    assert_eq!(store.list(None).len(), 3);
}

#[test]
fn puts_to_two_locations_commute() {
    let mut lists = Lists::new();
    let mut forward = BlockObjectStore::new(1);
    lists.put(&mut forward, "l", payload(&[b"left"]));
    lists.put(&mut forward, "m", payload(&[b"middle"]));
    let mut backward = BlockObjectStore::new(2);
    lists.put(&mut backward, "m", payload(&[b"middle"]));
    lists.put(&mut backward, "l", payload(&[b"left"]));
    for location in ["l", "m"] {
        assert_eq!(
            lists.get(&forward, location, None).payload,
            lists.get(&backward, location, None).payload
        );
    }
}

#[test]
fn delete_undoes_put() {
    let mut store = BlockObjectStore::new(3);
    let mut lists = Lists::new();
    lists.put(&mut store, "stays", payload(&[b"here"]));
    lists.put(&mut store, "goes", payload(&[b"away"]));
    store.delete(&Path::from("goes"));
    assert_eq!(store.entry(&Path::from("goes")), None);
    assert_eq!(store.list(None).len(), 1);
    assert_eq!(lists.get(&store, "stays", None).payload, b"here".as_slice());
}
