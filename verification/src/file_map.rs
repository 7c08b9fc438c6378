//! The map from locations to the files that hold their objects.

use crate::path::path_text;
use object_store::path::Path;
use rustc_hash::FxHashMap;
use vstd::prelude::*;

verus! {

/// Where an object's bytes lie: the header block of their linked list, and
/// how many they are.
#[derive(Clone, Copy, Debug, PartialEq, Eq, Structural)]
pub struct FileEntry {
    pub staring_block: u32,
    pub total_bytes: usize,
}

/// The hasher of the `rustc_hash` crate's maps.
#[verifier::external_type_specification]
#[verifier::external_body]
pub struct ExFxBuildHasher(rustc_hash::FxBuildHasher);

/// The entries that a map holds, by the texts of their paths. Two paths are
/// equal, and hash alike, if and only if their texts are equal. (The map has a
/// view in vstd too, of which nothing is known for this key and hasher.)
pub uninterp spec fn map_contents(map: FxHashMap<Path, FileEntry>) -> Map<Seq<char>, FileEntry>;

/// The map without entries.
pub open spec fn no_files() -> Map<Seq<char>, FileEntry> {
    Map::empty()
}

/// The texts and files of some entries.
pub open spec fn entries_view(entries: Seq<(&Path, FileEntry)>) -> Seq<(Seq<char>, FileEntry)> {
    entries.map_values(|e: (&Path, FileEntry)| (path_text(*e.0), e.1))
}

/// Whether `entries` holds each entry of `files` once, and nothing else.
pub open spec fn enumerates(
    entries: Seq<(Seq<char>, FileEntry)>,
    files: Map<Seq<char>, FileEntry>,
) -> bool {
    &&& forall|i: int|
        0 <= i < entries.len() ==> files.contains_pair((#[trigger] entries[i]).0, entries[i].1)
    &&& forall|k: Seq<char>| #[trigger]
        files.contains_key(k) ==> exists|i: int| 0 <= i < entries.len() && #[trigger] entries[i].0 == k
    &&& forall|i: int, j: int|
        0 <= i < j < entries.len() ==> (#[trigger] entries[i]).0 != (#[trigger] entries[j]).0
}

/// `FxHashMap::default`: the map without entries.
#[verifier::external_body]
pub(crate) fn empty_map() -> (created: FxHashMap<Path, FileEntry>)
    ensures
        map_contents(created) == no_files(),
{
    FxHashMap::default()
}

/// `FxHashMap::insert`: the path is mapped to the file from then on, whatever
/// it was mapped to before.
#[verifier::external_body]
pub(crate) fn insert(map: &mut FxHashMap<Path, FileEntry>, path: Path, file: FileEntry)
    ensures
        map_contents(*final(map)) == map_contents(*old(map)).insert(path_text(path), file),
{
    map.insert(path, file);
}

/// `FxHashMap::get`: the file that the path is mapped to, if it is.
#[verifier::external_body]
pub(crate) fn get(map: &FxHashMap<Path, FileEntry>, path: &Path) -> (file: Option<FileEntry>)
    ensures
        file == if map_contents(*map).contains_key(path_text(*path)) {
            Some(map_contents(*map)[path_text(*path)])
        } else {
            None
        },
{
    map.get(path).cloned()
}

/// `FxHashMap::remove`: the path is no longer mapped.
#[verifier::external_body]
pub(crate) fn remove(map: &mut FxHashMap<Path, FileEntry>, path: &Path)
    ensures
        map_contents(*final(map)) == map_contents(*old(map)).remove(path_text(*path)),
{
    map.remove(path);
}

/// `FxHashMap::iter`: each entry of the map once. The order is not said: it
/// depends on how the map came to be.
#[verifier::external_body]
pub(crate) fn entries(map: &FxHashMap<Path, FileEntry>) -> (found: Vec<(&Path, FileEntry)>)
    ensures
        enumerates(entries_view(found@), map_contents(*map)),
{
    map.iter().map(|(path, file)| (path, *file)).collect()
}

} // verus!
