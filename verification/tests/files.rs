use block_object_store::file_map::FileEntry;
use block_object_store::options::{refusal, resolve, GetRange};
use block_object_store::payload::checked_total_len;
use block_object_store::reader::BlockReader;
use block_object_store::storage::{BlockAppend, RangeData, StorageAction};
use block_object_store::writer::BlockWriter;

/// Performs an append on a list in memory.
fn perform<'a>(append: BlockAppend<'a>, list: &mut Vec<u8>) -> (BlockAppend<'a>, usize) {
    let mut append = append;
    let mut flushes: usize = 0;
    while let Some(action) = append.action() {
        match action {
            StorageAction::Write { bytes } => list.extend_from_slice(bytes),
            StorageAction::Flush => flushes += 1,
            StorageAction::Create { .. } => panic!("the list exists"),
        }
        append = append.advance::<()>(Ok(())).unwrap();
    }
    (append, flushes)
}

#[test]
fn reader_finds_what_writer_wrote() {
    let mut list: Vec<u8> = Vec::new();
    let mut writer = BlockWriter::new(8, 33);
    assert_eq!(writer.entry, FileEntry { staring_block: 33, total_bytes: 0 });
    assert_eq!(writer.oid, 8);
    for buffer in [b"VTXF".as_slice(), b"", b"payload"] {
        let (append, flushes) = perform(writer.write_all(buffer), &mut list);
        assert_eq!(flushes, 1);
        writer.written(append);
    }
    assert_eq!(writer.entry, FileEntry { staring_block: 33, total_bytes: 11 });
    let reader = BlockReader { entry: writer.entry, oid: writer.oid };
    assert_eq!(reader.size(), 11);
    let request = reader.read_byte_range(4, 7);
    assert_eq!(request.relation_oid, 8);
    assert_eq!(request.staring_block, 33);
    assert_eq!(request.range, 4..11);
    assert_eq!(&list[request.range], b"payload");
    assert_eq!(reader.read_byte_range(11, 0).range, 11..11);
}

#[test]
fn writer_writes_then_flushes() {
    let writer = BlockWriter::new(8, 33);
    let append = writer.write_all(b"abc");
    match append.action() {
        Some(StorageAction::Write { bytes }) => assert_eq!(bytes, b"abc"),
        _ => panic!("write first"),
    }
    let append = append.advance::<()>(Ok(())).unwrap();
    assert!(matches!(append.action(), Some(StorageAction::Flush)));
    let append = append.advance::<()>(Ok(())).unwrap();
    assert!(append.action().is_none());
    assert_eq!(append.total_len(), 3);
}

#[test]
fn failed_append_hands_back_the_error() {
    let writer = BlockWriter::new(8, 33);
    match writer.write_all(b"abc").advance(Err("disk full")) {
        Err(source) => assert_eq!(source, "disk full"),
        Ok(_) => panic!("failed"),
    }
    let append = writer.write_all(b"abc").advance::<&str>(Ok(())).unwrap();
    match append.advance(Err("no flush")) {
        Err(source) => assert_eq!(source, "no flush"),
        Ok(_) => panic!("failed"),
    }
    assert_eq!(writer.entry.total_bytes, 0);
}

#[test]
fn range_data_becomes_bytes() {
    let page = [1u8, 2, 3];
    assert_eq!(RangeData::OnePage(&page[1..]).into_bytes(), [2u8, 3].as_slice());
    assert_eq!(RangeData::MultiPage(vec![4, 5]).into_bytes(), [4u8, 5].as_slice());
    assert!(RangeData::MultiPage(Vec::new()).into_bytes().is_empty());
}

#[test]
fn ranges_resolve() {
    assert_eq!(resolve(None, 12), 0..12);
    assert_eq!(resolve(Some(GetRange::Offset(5)), 12), 5..12);
    assert_eq!(resolve(Some(GetRange::Offset(20)), 12), 20..12);
    assert_eq!(resolve(Some(GetRange::Suffix(5)), 12), 7..12);
    assert_eq!(resolve(Some(GetRange::Bounded(3..40)), 12), 3..40);
}

#[test]
fn refusal_names_the_mode() {
    assert_eq!(refusal(String::from("Create")), "Create is not supported, only Overwrite");
}

#[test]
fn lengths_add_up() {
    assert_eq!(checked_total_len(&vec![]), Some(0));
    assert_eq!(checked_total_len(&vec![b"ab".as_slice(), b"", b"cde"]), Some(5));
}
