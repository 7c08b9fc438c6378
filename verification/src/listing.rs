//! Listings: which objects lie under a prefix, and which of them are grouped
//! by the next part of their location.

use crate::file_map::{entries_view, enumerates, FileEntry};
use crate::path::{
    child, child_text, lemma_precedes_total, lemma_precedes_transitive, part_text, parts_of,
    path_text, precedes, prefix_match, rest_after, text_precedes,
};
use object_store::path::Path;
use vstd::prelude::*;

verus! {

/// What is known of an object.
#[derive(Debug)]
pub struct ObjectMeta {
    pub location: Path,
    /// In seconds after the Unix epoch.
    pub last_modified: u64,
    pub size: usize,
    pub e_tag: Option<String>,
    pub version: Option<String>,
}

/// The objects directly under a prefix, and the prefixes one part longer that
/// group the others.
#[derive(Debug)]
pub struct ListResult {
    pub common_prefixes: Vec<Path>,
    pub objects: Vec<ObjectMeta>,
}

impl ObjectMeta {
    /// Whether this is what is known of the object that `file` holds at the
    /// location `text`: nothing but its location and size.
    pub open spec fn describes(&self, text: Seq<char>, file: FileEntry) -> bool {
        &&& path_text(self.location) == text
        &&& self.last_modified == 0
        &&& self.size == file.total_bytes
        &&& self.e_tag is None
        &&& self.version is None
    }

    /// What is known of the object that `file` holds at `location`.
    pub fn of(location: Path, file: FileEntry) -> (meta: ObjectMeta)
        ensures
            meta.describes(path_text(location), file),
            meta.location == location,
            meta.size == file.total_bytes,
            meta.last_modified == 0,
            meta.e_tag is None,
            meta.version is None,
    {
        ObjectMeta {
            location,
            last_modified: 0,
            size: file.total_bytes,
            e_tag: None,
            version: None,
        }
    }
}

/// The parts of `text` that follow `prefix`; none where `text` does not start
/// with the parts of `prefix`.
pub open spec fn parts_under(text: Seq<char>, prefix: Seq<char>) -> Seq<Seq<char>> {
    match rest_after(text, prefix) {
        Some(rest) => parts_of(rest),
        None => Seq::empty(),
    }
}

/// Whether the location `text` lies under `prefix`, at any depth.
pub open spec fn lies_under(text: Seq<char>, prefix: Seq<char>) -> bool {
    parts_under(text, prefix).len() > 0
}

/// Whether the location `text` is a child of `prefix`.
pub open spec fn is_child(text: Seq<char>, prefix: Seq<char>) -> bool {
    parts_under(text, prefix).len() == 1
}

/// Whether the location `text` lies deeper under `prefix` than a child.
pub open spec fn is_nested(text: Seq<char>, prefix: Seq<char>) -> bool {
    parts_under(text, prefix).len() > 1
}

/// The child of `prefix` on the way to the location `text` under it.
pub open spec fn step_towards(text: Seq<char>, prefix: Seq<char>) -> Seq<char> {
    child_text(prefix, parts_under(text, prefix)[0])
}

/// The entries whose location satisfies `keep`, in order.
pub open spec fn kept(
    entries: Seq<(Seq<char>, FileEntry)>,
    keep: spec_fn(Seq<char>) -> bool,
) -> Seq<(Seq<char>, FileEntry)>
    decreases entries.len(),
{
    if entries.len() == 0 {
        Seq::empty()
    } else if keep(entries.last().0) {
        kept(entries.drop_last(), keep).push(entries.last())
    } else {
        kept(entries.drop_last(), keep)
    }
}

/// Whether `metas` describes `entries`, one for one.
pub open spec fn describe(metas: Seq<ObjectMeta>, entries: Seq<(Seq<char>, FileEntry)>) -> bool {
    &&& metas.len() == entries.len()
    &&& forall|i: int|
        0 <= i < metas.len() ==> (#[trigger] metas[i]).describes(entries[i].0, entries[i].1)
}

/// The texts of some paths.
pub open spec fn texts(paths: Seq<Path>) -> Seq<Seq<char>> {
    paths.map_values(|p: Path| path_text(p))
}

/// Whether each text precedes all that come after it. No text then occurs
/// twice.
pub open spec fn ascending(all: Seq<Seq<char>>) -> bool {
    forall|i: int, j: int|
        0 <= i < j < all.len() ==> text_precedes(#[trigger] all[i], #[trigger] all[j])
}

/// The children of `prefix` on the way to the entries deeper under it.
pub open spec fn steps(entries: Seq<(Seq<char>, FileEntry)>, prefix: Seq<char>) -> Set<Seq<char>>
    decreases entries.len(),
{
    if entries.len() == 0 {
        Set::empty()
    } else if is_nested(entries.last().0, prefix) {
        steps(entries.drop_last(), prefix).insert(step_towards(entries.last().0, prefix))
    } else {
        steps(entries.drop_last(), prefix)
    }
}

/// The files whose location satisfies `keep`.
pub open spec fn files_where(
    files: Map<Seq<char>, FileEntry>,
    keep: spec_fn(Seq<char>) -> bool,
) -> Map<Seq<char>, FileEntry> {
    Map::new(|k: Seq<char>| files.contains_key(k) && keep(k), |k: Seq<char>| files[k])
}

/// The files whose location lies under `prefix`.
pub open spec fn under(
    files: Map<Seq<char>, FileEntry>,
    prefix: Seq<char>,
) -> Map<Seq<char>, FileEntry> {
    files_where(files, |t: Seq<char>| lies_under(t, prefix))
}

/// The files whose location is a child of `prefix`.
pub open spec fn children(
    files: Map<Seq<char>, FileEntry>,
    prefix: Seq<char>,
) -> Map<Seq<char>, FileEntry> {
    files_where(files, |t: Seq<char>| is_child(t, prefix))
}

/// The children of `prefix` on the way to the files deeper under it.
pub open spec fn groups(
    files: Map<Seq<char>, FileEntry>,
    prefix: Seq<char>,
) -> Set<Seq<char>> {
    Set::new(
        |c: Seq<char>|
            exists|k: Seq<char>| #[trigger]
                files.contains_key(k) && is_nested(k, prefix) && step_towards(k, prefix) == c,
    )
}

/// Whether `metas` describes each of `files` once, and nothing else.
pub open spec fn lists(metas: Seq<ObjectMeta>, files: Map<Seq<char>, FileEntry>) -> bool {
    &&& forall|i: int|
        0 <= i < metas.len() ==> files.contains_key(path_text((#[trigger] metas[i]).location))
            && metas[i].describes(
            path_text(metas[i].location),
            files[path_text(metas[i].location)],
        )
    &&& forall|k: Seq<char>| #[trigger]
        files.contains_key(k) ==> exists|i: int|
            0 <= i < metas.len() && path_text((#[trigger] metas[i]).location) == k
    &&& forall|i: int, j: int|
        0 <= i < j < metas.len() ==> path_text((#[trigger] metas[i]).location) != path_text(
            (#[trigger] metas[j]).location,
        )
}

/// The text of a prefix; the empty text where there is none.
pub open spec fn prefix_text(prefix: Option<&Path>) -> Seq<char> {
    match prefix {
        Some(path) => path_text(*path),
        None => Seq::empty(),
    }
}

/// The prefix, or the path under which everything lies.
pub fn prefix_or_root(prefix: Option<&Path>) -> (path: Path)
    ensures
        path_text(path) == prefix_text(prefix),
        prefix matches Some(p) ==> path_text(path) == path_text(*p),
        prefix is None ==> path_text(path).len() == 0,
{
    match prefix {
        Some(path) => path.clone(),
        None => Path::default(),
    }
}

/// What is kept comes from the entries, and is all that satisfies `keep`.
pub proof fn lemma_kept(
    entries: Seq<(Seq<char>, FileEntry)>,
    keep: spec_fn(Seq<char>) -> bool,
)
    ensures
        forall|j: int|
            0 <= j < kept(entries, keep).len() ==> keep((#[trigger] kept(entries, keep)[j]).0)
                && entries.contains(kept(entries, keep)[j]),
        forall|i: int|
            0 <= i < entries.len() && keep((#[trigger] entries[i]).0) ==> kept(
                entries,
                keep,
            ).contains(entries[i]),
    decreases entries.len(),
{
    if entries.len() > 0 {
        let before = entries.drop_last();
        let last = entries.last();
        lemma_kept(before, keep);
        let all = kept(entries, keep);
        assert forall|j: int| 0 <= j < all.len() implies keep((#[trigger] all[j]).0)
            && entries.contains(all[j]) by {
            if j < kept(before, keep).len() {
                let i = choose|i: int| 0 <= i < before.len() && before[i] == kept(before, keep)[j];
                assert(entries[i] == all[j]);
            } else {
                assert(entries[entries.len() - 1] == all[j]);
            }
        }
        assert forall|i: int| 0 <= i < entries.len() && keep(
            (#[trigger] entries[i]).0,
        ) implies all.contains(entries[i]) by {
            if i < before.len() {
                assert(before[i] == entries[i]);
                let j = choose|j: int|
                    0 <= j < kept(before, keep).len() && kept(before, keep)[j] == entries[i];
                assert(all[j] == entries[i]);
            } else {
                assert(all[all.len() - 1] == entries[i]);
            }
        }
    }
}

/// What is kept of different locations are different locations.
pub proof fn lemma_kept_distinct(
    entries: Seq<(Seq<char>, FileEntry)>,
    keep: spec_fn(Seq<char>) -> bool,
)
    requires
        forall|i: int, j: int|
            0 <= i < j < entries.len() ==> (#[trigger] entries[i]).0 != (#[trigger] entries[j]).0,
    ensures
        forall|i: int, j: int|
            0 <= i < j < kept(entries, keep).len() ==> (#[trigger] kept(entries, keep)[i]).0 != (
            #[trigger] kept(entries, keep)[j]).0,
    decreases entries.len(),
{
    if entries.len() > 0 {
        let before = entries.drop_last();
        lemma_kept_distinct(before, keep);
        lemma_kept(before, keep);
        let all = kept(entries, keep);
        assert forall|i: int, j: int| 0 <= i < j < all.len() implies (#[trigger] all[i]).0 != (
        #[trigger] all[j]).0 by {
            if j >= kept(before, keep).len() {
                let n = choose|n: int| 0 <= n < before.len() && before[n] == kept(before, keep)[i];
                assert(entries[n].0 != entries[entries.len() - 1].0);
            }
        }
    }
}

/// Where `entries` holds each of `files` once, describing those of the entries
/// that satisfy `keep` lists the files whose location does.
pub proof fn lemma_kept_enumerates(
    entries: Seq<(Seq<char>, FileEntry)>,
    files: Map<Seq<char>, FileEntry>,
    keep: spec_fn(Seq<char>) -> bool,
)
    requires
        enumerates(entries, files),
    ensures
        enumerates(kept(entries, keep), files_where(files, keep)),
        forall|metas: Seq<ObjectMeta>| #[trigger]
            describe(metas, kept(entries, keep)) ==> lists(metas, files_where(files, keep)),
{
    let all = kept(entries, keep);
    let chosen = files_where(files, keep);
    lemma_kept(entries, keep);
    lemma_kept_distinct(entries, keep);
    assert forall|j: int| 0 <= j < all.len() implies chosen.contains_pair(
        (#[trigger] all[j]).0,
        all[j].1,
    ) by {
        let i = choose|i: int| 0 <= i < entries.len() && entries[i] == all[j];
        assert(files.contains_pair(entries[i].0, entries[i].1));
    }
    assert forall|k: Seq<char>| #[trigger] chosen.contains_key(k) implies exists|j: int|
        0 <= j < all.len() && #[trigger] all[j].0 == k by {
        let i = choose|i: int| 0 <= i < entries.len() && #[trigger] entries[i].0 == k;
        let j = choose|j: int| 0 <= j < all.len() && all[j] == entries[i];
        assert(all[j].0 == k);
    }
    assert forall|metas: Seq<ObjectMeta>| #[trigger] describe(metas, all) implies lists(
        metas,
        chosen,
    ) by {
        assert forall|i: int| 0 <= i < metas.len() implies chosen.contains_key(
            path_text((#[trigger] metas[i]).location),
        ) && metas[i].describes(
            path_text(metas[i].location),
            chosen[path_text(metas[i].location)],
        ) by {
            assert(chosen.contains_pair(all[i].0, all[i].1));
        }
        assert forall|k: Seq<char>| #[trigger] chosen.contains_key(k) implies exists|i: int|
            0 <= i < metas.len() && path_text((#[trigger] metas[i]).location) == k by {
            let j = choose|j: int| 0 <= j < all.len() && #[trigger] all[j].0 == k;
            assert(path_text(metas[j].location) == k);
        }
    }
}

/// Where `entries` holds each of `files` once, the steps to the entries are
/// those to the files.
pub proof fn lemma_steps_group(
    entries: Seq<(Seq<char>, FileEntry)>,
    files: Map<Seq<char>, FileEntry>,
    prefix: Seq<char>,
)
    requires
        enumerates(entries, files),
    ensures
        steps(entries, prefix) == groups(files, prefix),
{
    lemma_steps(entries, prefix);
    assert forall|c: Seq<char>| #[trigger] steps(entries, prefix).contains(c) implies groups(
        files,
        prefix,
    ).contains(c) by {
        let i = choose|i: int|
            0 <= i < entries.len() && is_nested((#[trigger] entries[i]).0, prefix)
                && step_towards(entries[i].0, prefix) == c;
        assert(files.contains_pair(entries[i].0, entries[i].1));
        assert(files.contains_key(entries[i].0));
    }
    assert forall|c: Seq<char>| #[trigger] groups(files, prefix).contains(c) implies steps(
        entries,
        prefix,
    ).contains(c) by {
        let k = choose|k: Seq<char>| #[trigger]
            files.contains_key(k) && is_nested(k, prefix) && step_towards(k, prefix) == c;
        let i = choose|i: int| 0 <= i < entries.len() && #[trigger] entries[i].0 == k;
        assert(is_nested(entries[i].0, prefix));
    }
    assert(steps(entries, prefix) =~= groups(files, prefix));
}

/// The steps, by the entries that they lead to.
pub proof fn lemma_steps(entries: Seq<(Seq<char>, FileEntry)>, prefix: Seq<char>)
    ensures
        forall|c: Seq<char>| #[trigger]
            steps(entries, prefix).contains(c) <==> exists|i: int|
                0 <= i < entries.len() && is_nested((#[trigger] entries[i]).0, prefix)
                    && step_towards(entries[i].0, prefix) == c,
    decreases entries.len(),
{
    if entries.len() > 0 {
        let before = entries.drop_last();
        let last = entries.last();
        lemma_steps(before, prefix);
        assert forall|c: Seq<char>| #[trigger] steps(entries, prefix).contains(c) <==> exists|i: int|
            0 <= i < entries.len() && is_nested((#[trigger] entries[i]).0, prefix)
                && step_towards(entries[i].0, prefix) == c by {
            if steps(before, prefix).contains(c) {
                let i = choose|i: int|
                    0 <= i < before.len() && is_nested((#[trigger] before[i]).0, prefix)
                        && step_towards(before[i].0, prefix) == c;
                assert(entries[i] == before[i]);
            }
            if is_nested(last.0, prefix) && step_towards(last.0, prefix) == c {
                assert(entries[entries.len() - 1] == last);
            }
            if exists|i: int|
                0 <= i < entries.len() && is_nested((#[trigger] entries[i]).0, prefix)
                    && step_towards(entries[i].0, prefix) == c {
                let i = choose|i: int|
                    0 <= i < entries.len() && is_nested((#[trigger] entries[i]).0, prefix)
                        && step_towards(entries[i].0, prefix) == c;
                if i < before.len() {
                    assert(before[i] == entries[i]);
                }
            }
        }
    }
}

/// Describes those of `entries` that lie under `prefix`, in order.
pub fn list_entries(entries: &Vec<(&Path, FileEntry)>, prefix: &Path) -> (metas: Vec<ObjectMeta>)
    ensures
        describe(
            metas@,
            kept(entries_view(entries@), |t: Seq<char>| lies_under(t, path_text(*prefix))),
        ),
{
    let ghost all = entries_view(entries@);
    let ghost under = |t: Seq<char>| lies_under(t, path_text(*prefix));
    let mut metas: Vec<ObjectMeta> = Vec::new();
    let mut i: usize = 0;
    proof {
        assert(all.take(0) =~= Seq::empty());
    }
    while i < entries.len()
        invariant
            all == entries_view(entries@),
            under == (|t: Seq<char>| lies_under(t, path_text(*prefix))),
            i <= entries.len(),
            describe(metas@, kept(all.take(i as int), under)),
        decreases entries.len() - i,
    {
        let (path, file) = entries[i];
        proof {
            assert(all.take(i + 1).drop_last() =~= all.take(i as int));
            assert(all.take(i + 1).last() == (path_text(*path), file));
        }
        let keep = match prefix_match(path, prefix) {
            Some(parts) => {
                proof {
                    assert(parts@.len() == parts_under(path_text(*path), path_text(*prefix)).len());
                }
                parts.len() > 0
            },
            None => false,
        };
        if keep {
            metas.push(ObjectMeta::of(path.clone(), file));
        }
        i = i + 1;
    }
    proof {
        assert(all.take(all.len() as int) =~= all);
    }
    metas
}

/// Puts `path` at its place among `paths`, unless it is there already.
fn insert_ascending(paths: &mut Vec<Path>, path: Path)
    requires
        ascending(texts(old(paths)@)),
    ensures
        ascending(texts(final(paths)@)),
        texts(final(paths)@).to_set() == texts(old(paths)@).to_set().insert(path_text(path)),
{
    let ghost all = texts(paths@);
    let ghost text = path_text(path);
    let mut low: usize = 0;
    let mut high: usize = paths.len();
    while low < high
        invariant
            all == texts(paths@),
            text == path_text(path),
            ascending(all),
            low <= high <= paths.len(),
            forall|i: int| 0 <= i < low ==> text_precedes(#[trigger] all[i], text),
            forall|i: int| high <= i < all.len() ==> !text_precedes(#[trigger] all[i], text),
        decreases high - low,
    {
        let middle: usize = low + (high - low) / 2;
        let ghost at_middle = all[middle as int];
        if precedes(&paths[middle], &path) {
            assert forall|i: int| 0 <= i < middle + 1 implies text_precedes(
                #[trigger] all[i],
                text,
            ) by {
                if i < middle {
                    lemma_precedes_transitive(all[i], at_middle, text);
                }
            }
            low = middle + 1;
        } else {
            assert forall|i: int| middle <= i < all.len() implies !text_precedes(
                #[trigger] all[i],
                text,
            ) by {
                if i > middle && text_precedes(all[i], text) {
                    lemma_precedes_transitive(at_middle, all[i], text);
                }
            }
            high = middle;
        }
    }
    if low < paths.len() && !precedes(&path, &paths[low]) {
        proof {
            lemma_precedes_total(all[low as int], text);
            assert(all[low as int] == text);
            assert(all.to_set().insert(text) =~= all.to_set());
        }
        return;
    }
    paths.insert(low, path);
    proof {
        let after = texts(paths@);
        assert(after =~= all.insert(low as int, text));
        assert forall|i: int, j: int| 0 <= i < j < after.len() implies text_precedes(
            #[trigger] after[i],
            #[trigger] after[j],
        ) by {
            if i == low {
                if j > low + 1 {
                    lemma_precedes_transitive(text, all[low as int], all[j - 1]);
                }
            }
        }
        assert(after.to_set() =~= all.to_set().insert(text)) by {
            assert(after[low as int] == text);
            assert forall|t: Seq<char>| all.contains(t) implies after.contains(t) by {
                let i = choose|i: int| 0 <= i < all.len() && all[i] == t;
                assert(after[if i < low { i } else { i + 1 }] == t);
            }
        }
    }
}

/// Describes those of `entries` that are children of `prefix`, in order, and
/// groups those deeper under it by the child on the way to them. The prefix
/// itself is no group.
pub fn list_entries_with_delimiter(
    entries: &Vec<(&Path, FileEntry)>,
    prefix: &Path,
) -> (result: ListResult)
    ensures
        describe(
            result.objects@,
            kept(entries_view(entries@), |t: Seq<char>| is_child(t, path_text(*prefix))),
        ),
        ascending(texts(result.common_prefixes@)),
        texts(result.common_prefixes@).to_set() == steps(
            entries_view(entries@),
            path_text(*prefix),
        ),
        !texts(result.common_prefixes@).contains(path_text(*prefix)),
{
    let ghost all = entries_view(entries@);
    let ghost child_of = |t: Seq<char>| is_child(t, path_text(*prefix));
    let mut common_prefixes: Vec<Path> = Vec::new();
    let mut objects: Vec<ObjectMeta> = Vec::new();
    let mut i: usize = 0;
    proof {
        assert(all.take(0) =~= Seq::empty());
        assert(texts(common_prefixes@).to_set() =~= Set::empty());
    }
    while i < entries.len()
        invariant
            all == entries_view(entries@),
            child_of == (|t: Seq<char>| is_child(t, path_text(*prefix))),
            i <= entries.len(),
            describe(objects@, kept(all.take(i as int), child_of)),
            ascending(texts(common_prefixes@)),
            texts(common_prefixes@).to_set() == steps(all.take(i as int), path_text(*prefix)),
            !texts(common_prefixes@).to_set().contains(path_text(*prefix)),
        decreases entries.len() - i,
    {
        let (path, file) = entries[i];
        proof {
            assert(all.take(i + 1).drop_last() =~= all.take(i as int));
            assert(all.take(i + 1).last() == (path_text(*path), file));
        }
        i = i + 1;
        if let Some(found) = prefix_match(path, prefix) {
            let ghost under = parts_under(path_text(*path), path_text(*prefix));
            let mut parts = found;
            assert(parts@.len() == under.len());
            if parts.len() > 1 {
                assert(part_text(parts@[0]) == under[0]);
                let first = parts.remove(0);
                insert_ascending(&mut common_prefixes, child(prefix, first));
            } else if parts.len() == 1 {
                objects.push(ObjectMeta::of(path.clone(), file));
            }
        }
    }
    proof {
        assert(all.take(all.len() as int) =~= all);
    }
    ListResult { common_prefixes, objects }
}

} // verus!
