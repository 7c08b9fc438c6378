use block_object_store::file_map::FileEntry;
use block_object_store::listing::{list_entries, list_entries_with_delimiter};
use block_object_store::store::BlockObjectStore;
use object_store::path::Path;

fn store(locations: &[&str]) -> BlockObjectStore {
    let mut store = BlockObjectStore::new(1);
    for (i, location) in locations.iter().enumerate() {
        store.record(
            Path::parse(location).unwrap(),
            FileEntry { staring_block: i as u32, total_bytes: 10 * i },
        );
    }
    store
}

fn listed(store: &BlockObjectStore, prefix: Option<&str>) -> Vec<(String, usize)> {
    let prefix = prefix.map(|p| Path::parse(p).unwrap());
    let mut found: Vec<(String, usize)> = store
        .list(prefix.as_ref())
        .into_iter()
        .map(|m| (m.location.to_string(), m.size))
        .collect();
    found.sort();
    found
}

fn names(paths: &[Path]) -> Vec<String> {
    paths.iter().map(|p| p.to_string()).collect()
}

#[test]
fn list_without_prefix_lists_everything() {
    let store = store(&["a", "b/c", "b/d/e"]);
    assert_eq!(
        listed(&store, None),
        [
            (String::from("a"), 0),
            (String::from("b/c"), 10),
            (String::from("b/d/e"), 20)
        ]
    );
    assert_eq!(listed(&store, Some("")), listed(&store, None));
}

#[test]
fn list_goes_by_whole_parts() {
    let store = store(&["foo/bar.json", "foo_test.json", "foo", "fo/o", "foo/x/y"]);
    assert_eq!(
        listed(&store, Some("foo")),
        [(String::from("foo/bar.json"), 0), (String::from("foo/x/y"), 40)]
    );
    assert_eq!(listed(&store, Some("foo/x")), [(String::from("foo/x/y"), 40)]);
    assert!(listed(&store, Some("foo/bar.json")).is_empty());
    assert!(listed(&store, Some("none")).is_empty());
}

#[test]
fn list_follows_put_and_delete() {
    let mut store = store(&["p/a", "p/b"]);
    store.record(Path::from("p/c"), FileEntry { staring_block: 9, total_bytes: 99 });
    assert_eq!(listed(&store, Some("p")).len(), 3);
    assert!(listed(&store, Some("p")).contains(&(String::from("p/c"), 99)));
    store.delete(&Path::from("p/a"));
    assert_eq!(
        listed(&store, Some("p")),
        [(String::from("p/b"), 10), (String::from("p/c"), 99)]
    );
}

#[test]
fn list_entries_keeps_the_order() {
    let paths = [
        Path::from("z/1"),
        Path::from("y"),
        Path::from("z/0/q"),
        Path::from("z"),
    ];
    let file = FileEntry { staring_block: 0, total_bytes: 5 };
    let entries: Vec<(&Path, FileEntry)> = paths.iter().map(|p| (p, file)).collect();
    let metas = list_entries(&entries, &Path::from("z"));
    let found: Vec<Path> = metas.into_iter().map(|m| m.location).collect();
    assert_eq!(names(&found), ["z/1", "z/0/q"]);
}

#[test]
fn delimiter_splits_children_and_groups() {
    let store = store(&["t/c", "t/b/1", "t/a/2", "t/b/3/4", "t", "u/v", "t/a"]);
    let result = store.list_with_delimiter(Some(&Path::from("t")));
    let mut objects: Vec<(String, usize)> =
        result.objects.iter().map(|m| (m.location.to_string(), m.size)).collect();
    objects.sort();
    assert_eq!(objects, [(String::from("t/a"), 60), (String::from("t/c"), 0)]);
    assert_eq!(names(&result.common_prefixes), ["t/a", "t/b"]);
    let top = store.list_with_delimiter(None);
    assert_eq!(names(&top.common_prefixes), ["t", "u"]);
    assert_eq!(top.objects.len(), 1);
    assert_eq!(top.objects[0].location, Path::from("t"));
}

#[test]
fn groups_are_ordered_by_code_points() {
    let store = store(&["b/1", "a/1", "B/1", "é/1", "aa/1", "a-/1", "z/1", "\u{1F600}/1", "\u{FFFD}/1"]);
    let result = store.list_with_delimiter(None);
    let mut expected: Vec<String> = names(&result.common_prefixes);
    expected.sort();
    assert_eq!(names(&result.common_prefixes), expected);
    assert_eq!(
        names(&result.common_prefixes),
        ["B", "a", "a-", "aa", "b", "z", "é", "\u{FFFD}", "\u{1F600}"]
    );
}

#[test]
fn group_keeps_an_encoded_part() {
    let store = store(&["x/50%25/y"]);
    let result = store.list_with_delimiter(Some(&Path::from("x")));
    assert_eq!(names(&result.common_prefixes), ["x/50%25"]);
    assert_eq!(store.list(Some(&result.common_prefixes[0])).len(), 1);
}

#[test]
fn group_stands_for_the_objects_under_it() {
    let store = store(&["r/a/1", "r/a/2/3", "r/b/4", "r/c"]);
    let result = store.list_with_delimiter(Some(&Path::from("r")));
    let mut total = result.objects.len();
    for group in &result.common_prefixes {
        total += store.list(Some(group)).len();
    }
    assert_eq!(total, store.list(Some(&Path::from("r"))).len());
    assert_eq!(total, 4);
}

#[test]
fn groups_of_entries_do_not_depend_on_the_order() {
    let paths = [Path::from("d/1"), Path::from("c/1"), Path::from("d/2"), Path::from("e")];
    let file = FileEntry { staring_block: 0, total_bytes: 5 };
    let forward: Vec<(&Path, FileEntry)> = paths.iter().map(|p| (p, file)).collect();
    let backward: Vec<(&Path, FileEntry)> = paths.iter().rev().map(|p| (p, file)).collect();
    let a = list_entries_with_delimiter(&forward, &Path::default());
    let b = list_entries_with_delimiter(&backward, &Path::default());
    assert_eq!(names(&a.common_prefixes), ["c", "d"]);
    assert_eq!(a.common_prefixes, b.common_prefixes);
    assert_eq!(a.objects.len(), 1);
}

#[test]
fn groups_split_the_listing() {
    let store = store(&["a", "a/b", "a/b/c", "a/b/d/e", "a/f/g", "ab/h", "i/j", "k"]);
    for prefix in ["", "a", "a/b", "ab", "i/j", "none"] {
        let prefix = Path::parse(prefix).unwrap();
        let result = store.list_with_delimiter(Some(&prefix));
        let all: Vec<Path> = store.list(Some(&prefix)).into_iter().map(|m| m.location).collect();
        let objects: Vec<Path> = result.objects.into_iter().map(|m| m.location).collect();
        for location in &all {
            let holders = result
                .common_prefixes
                .iter()
                .filter(|c| store.list(Some(c)).iter().any(|m| m.location == *location))
                .count();
            assert_eq!(holders, if objects.contains(location) { 0 } else { 1 });
        }
        assert!(objects.iter().all(|o| all.contains(o)));
        for group in &result.common_prefixes {
            assert!(store.list(Some(group)).iter().any(|m| all.contains(&m.location)));
        }
        assert!(!result.common_prefixes.contains(&prefix));
    }
}

#[test]
fn no_group_is_the_root() {
    let mut store = BlockObjectStore::new(1);
    let file = FileEntry { staring_block: 1, total_bytes: 1 };
    for location in [
        Path::from("/x/y"),
        Path::parse("/z/w").unwrap(),
        Path::default().child("").child("q").child("r"),
        ["", "s", "t"].into_iter().collect::<Path>(),
        Path::default(),
    ] {
        store.record(location, file);
    }
    let result = store.list_with_delimiter(None);
    assert_eq!(names(&result.common_prefixes), ["q", "s", "x", "z"]);
    assert!(result.objects.is_empty());
}

#[test]
fn group_of_the_deleted_object_alone_is_gone() {
    let mut store = store(&["g/a/1", "g/a/2", "g/b/3"]);
    let prefix = Path::from("g");
    store.delete(&Path::from("g/a/1"));
    assert_eq!(names(&store.list_with_delimiter(Some(&prefix)).common_prefixes), ["g/a", "g/b"]);
    store.delete(&Path::from("g/b/3"));
    assert_eq!(names(&store.list_with_delimiter(Some(&prefix)).common_prefixes), ["g/a"]);
    store.delete(&Path::from("g/a/2"));
    assert!(store.list_with_delimiter(Some(&prefix)).common_prefixes.is_empty());
}
