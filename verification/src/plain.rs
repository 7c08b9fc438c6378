//! What the library promises, without the vocabulary of its contracts.
//!
//! A law here takes what the contracts say, in the terms that they define, and
//! concludes in sequences, maps and the fields of results alone.

use crate::file_map::{entries_view, enumerates, no_files, FileEntry};
use crate::file_write::{file_script, FileWriteView};
use crate::laws::{
    law_ascending_texts_differ, law_lies_under_by_parts, lemma_head_len, lemma_head_len_is,
};
use crate::listing::{
    ascending, children, describe, files_where, groups, is_child, is_nested, kept, lemma_steps,
    lies_under, lists, prefix_text, step_towards, steps, texts, under, ListResult, ObjectMeta,
};
use crate::multipart::UploadView;
use crate::options::{
    can_resolve, mode_text, refusal_text, resolved, text_of, update_text, GetRange, PutMode,
    UpdateVersion,
};
use crate::path::{child_text, head_len, parts_of, path_text, rest_after, text_precedes};
use crate::payload::{concat, lemma_concat_add, lemma_concat_one, slices_view};
use crate::storage::{append_script, AppendView, RangeData, StorageAction, StorageOp};
use object_store::path::Path;
use vstd::prelude::*;

verus! {

// Locations.

/// The head of a text ends at its first delimiter, or with the text.
pub proof fn law_head_ends_at_the_first_delimiter(head: Seq<char>, tail: Seq<char>)
    requires
        !head.contains('/'),
    ensures
        head_len(head) == head.len(),
        head_len(head + seq!['/'] + tail) == head.len(),
{
    let text = head + seq!['/'] + tail;
    lemma_head_len(head);
    if head_len(head) < head.len() {
        assert(head.contains(head[head_len(head) as int]));
    }
    assert forall|i: int| 0 <= i < head.len() implies #[trigger] text[i] != '/' by {
        assert(head.contains(head[i]));
    }
    lemma_head_len_is(text, head.len() as int);
}

/// The parts of a text are what the delimiters separate: what comes before the
/// first delimiter, then the parts of what comes after it. A text without a
/// delimiter is one part, unless it is empty.
pub proof fn law_delimiter_separates_parts(head: Seq<char>, tail: Seq<char>)
    requires
        !head.contains('/'),
    ensures
        parts_of(Seq::<char>::empty()) == Seq::<Seq<char>>::empty(),
        head.len() > 0 ==> parts_of(head) == seq![head],
        parts_of(head + seq!['/'] + tail) == seq![head] + parts_of(tail),
{
    let text = head + seq!['/'] + tail;
    law_head_ends_at_the_first_delimiter(head, tail);
    assert(text.take(head.len() as int) =~= head);
    assert(text.skip(head.len() as int + 1) =~= tail);
}

/// What follows a prefix in a text: the rest after the prefix and a delimiter,
/// the whole text after the empty prefix, and nothing after the text itself. A
/// text that goes on in another way does not have the prefix.
pub proof fn law_rest_follows_the_prefix(prefix: Seq<char>, text: Seq<char>)
    ensures
        rest_after(text, Seq::empty()) == Some(text),
        rest_after(prefix, prefix) == Some(Seq::<char>::empty()),
        prefix.len() > 0 ==> rest_after(prefix + seq!['/'] + text, prefix) == Some(text),
        prefix.len() > 0 && text != prefix && !(text.len() > prefix.len() && text.take(
            prefix.len() as int,
        ) == prefix && text[prefix.len() as int] == '/') ==> rest_after(text, prefix) is None,
{
    assert(Seq::<char>::empty().is_prefix_of(text));
    assert(text.skip(0) =~= text);
    assert(prefix.is_prefix_of(prefix));
    assert(prefix.skip(prefix.len() as int) =~= Seq::empty());
    let longer = prefix + seq!['/'] + text;
    assert(prefix.is_prefix_of(longer)) by {
        assert(longer.take(prefix.len() as int) =~= prefix);
    }
    assert(longer.skip(prefix.len() as int).skip(1) =~= text);
    assert(longer.skip(prefix.len() as int)[0] == '/');
    if prefix.len() > 0 && prefix.is_prefix_of(text) {
        assert(text.take(prefix.len() as int) =~= prefix);
        if text.len() == prefix.len() {
            assert(text =~= prefix);
        }
    }
}

/// The text of a child is that of its parent, a delimiter and the part. Of the
/// empty parent it is the part alone.
pub proof fn law_child_extends_its_parent(parent: Seq<char>, part: Seq<char>)
    ensures
        child_text(Seq::empty(), part) == part,
        parent.len() > 0 ==> child_text(parent, part) == parent.push('/') + part,
{
    assert(parent.push('/') + part =~= parent + seq!['/'] + part);
}

/// Of two texts the one precedes the other that has the smaller character where
/// they first differ, or that ends there.
pub proof fn law_first_difference_decides(a: Seq<char>, b: Seq<char>)
    ensures
        text_precedes(a, b) <==> exists|n: int|
            0 <= n <= a.len() && n < b.len() && #[trigger] a.take(n) == b.take(n) && (n == a.len()
                || (a[n] as int) < (b[n] as int)),
    decreases a.len(),
{
    if a.len() == 0 {
        assert(a.take(0) =~= b.take(0));
        if b.len() > 0 {
            assert(text_precedes(a, b));
        }
    } else if b.len() > 0 {
        if a[0] != b[0] {
            assert(a.take(0) =~= b.take(0));
            assert forall|n: int|
                0 <= n <= a.len() && n < b.len() && #[trigger] a.take(n) == b.take(n) implies n
                == 0 by {
                if n > 0 {
                    assert(a.take(n)[0] == b.take(n)[0]);
                }
            }
        } else {
            let (c, d) = (a.skip(1), b.skip(1));
            law_first_difference_decides(c, d);
            if text_precedes(a, b) {
                let n = choose|n: int|
                    0 <= n <= c.len() && n < d.len() && #[trigger] c.take(n) == d.take(n) && (n
                        == c.len() || (c[n] as int) < (d[n] as int));
                assert(a.take(n + 1) =~= seq![a[0]] + c.take(n));
                assert(b.take(n + 1) =~= seq![b[0]] + d.take(n));
            }
            if exists|n: int|
                0 <= n <= a.len() && n < b.len() && #[trigger] a.take(n) == b.take(n) && (n
                    == a.len() || (a[n] as int) < (b[n] as int)) {
                let n = choose|n: int|
                    0 <= n <= a.len() && n < b.len() && #[trigger] a.take(n) == b.take(n) && (n
                        == a.len() || (a[n] as int) < (b[n] as int));
                assert(n > 0);
                assert(c.take(n - 1) =~= a.take(n).skip(1));
                assert(d.take(n - 1) =~= b.take(n).skip(1));
            }
        }
    }
}

proof fn lemma_several_parts(text: Seq<char>)
    ensures
        parts_of(text).len() > 0 <==> text.len() > 0,
        parts_of(text).len() > 1 <==> head_len(text) < text.len() - 1,
        text.len() > 0 ==> parts_of(text)[0] == text.take(head_len(text) as int),
{
    lemma_head_len(text);
    let tail = text.skip(head_len(text) as int + 1);
    if head_len(text) < text.len() {
        assert(parts_of(tail).len() > 0 <==> tail.len() > 0);
    } else {
        assert(text.take(text.len() as int) =~= text);
    }
}

/// A location is a child of a prefix if and only if it goes on after the
/// prefix, and after a delimiter unless the prefix is empty, with one further
/// part: no delimiter comes in it but as its last character. A location that
/// goes on after a further delimiter is deeper under the prefix.
pub proof fn law_child_and_deeper(text: Seq<char>, prefix: Seq<char>)
    ensures
        ({
            let start = if prefix.len() == 0 {
                0int
            } else {
                prefix.len() as int + 1
            };
            let goes_on = text.len() > start && text.take(prefix.len() as int) == prefix && (
            prefix.len() > 0 ==> text[prefix.len() as int] == '/');
            &&& lies_under(text, prefix) <==> goes_on
            &&& is_child(text, prefix) <==> goes_on && forall|i: int|
                start <= i < text.len() - 1 ==> #[trigger] text[i] != '/'
            &&& is_nested(text, prefix) <==> goes_on && exists|i: int|
                start <= i < text.len() - 1 && #[trigger] text[i] == '/'
        }),
{
    let start = if prefix.len() == 0 {
        0int
    } else {
        prefix.len() as int + 1
    };
    let goes_on = text.len() > start && text.take(prefix.len() as int) == prefix && (prefix.len()
        > 0 ==> text[prefix.len() as int] == '/');
    law_lies_under_by_parts(text, prefix);
    if prefix.is_prefix_of(text) {
        assert(text.take(prefix.len() as int) =~= prefix);
    }
    if text.len() >= prefix.len() && text.take(prefix.len() as int) == prefix {
        assert(prefix.is_prefix_of(text)) by {
            assert forall|i: int| 0 <= i < prefix.len() implies prefix[i] == text[i] by {
                assert(text.take(prefix.len() as int)[i] == text[i]);
            }
        }
    }
    assert(lies_under(text, prefix) <==> goes_on);
    if goes_on {
        let rest = text.skip(start);
        assert(rest_after(text, prefix) == Some(rest)) by {
            if prefix.len() > 0 {
                assert(text.skip(prefix.len() as int).skip(1) =~= rest);
            }
        }
        let n = head_len(rest) as int;
        lemma_head_len(rest);
        lemma_several_parts(rest);
        assert forall|i: int| start <= i < start + n implies #[trigger] text[i] != '/' by {
            assert(rest[i - start] == text[i]);
        }
        if n < rest.len() {
            assert(text[start + n] == rest[n]);
        }
    }
}

/// The step towards a location deeper under a prefix ends where the next
/// delimiter after the prefix is.
pub proof fn law_step_ends_at_the_next_delimiter(text: Seq<char>, prefix: Seq<char>, end: int)
    requires
        ({
            let start = if prefix.len() == 0 {
                0int
            } else {
                prefix.len() as int + 1
            };
            &&& text.take(prefix.len() as int) == prefix
            &&& prefix.len() > 0 ==> text[prefix.len() as int] == '/'
            &&& start <= end < text.len() - 1
            &&& text[end] == '/'
            &&& forall|i: int| start <= i < end ==> #[trigger] text[i] != '/'
        }),
    ensures
        is_nested(text, prefix),
        step_towards(text, prefix) == text.take(end),
{
    let start = if prefix.len() == 0 {
        0int
    } else {
        prefix.len() as int + 1
    };
    let rest = text.skip(start);
    law_child_and_deeper(text, prefix);
    assert(prefix.is_prefix_of(text)) by {
        assert forall|i: int| 0 <= i < prefix.len() implies prefix[i] == text[i] by {
            assert(text.take(prefix.len() as int)[i] == text[i]);
        }
    }
    assert(rest_after(text, prefix) == Some(rest)) by {
        if prefix.len() > 0 {
            assert(text.skip(prefix.len() as int).skip(1) =~= rest);
        }
    }
    assert forall|i: int| 0 <= i < end - start implies #[trigger] rest[i] != '/' by {
        assert(text[start + i] != '/');
    }
    lemma_head_len_is(rest, end - start);
    lemma_several_parts(rest);
    assert(step_towards(text, prefix) =~= text.take(end));
}

proof fn lemma_where_the_step_ends(text: Seq<char>, prefix: Seq<char>) -> (end: int)
    requires
        is_nested(text, prefix),
    ensures
        ({
            let start = if prefix.len() == 0 {
                0int
            } else {
                prefix.len() as int + 1
            };
            &&& text.take(prefix.len() as int) == prefix
            &&& prefix.len() > 0 ==> text[prefix.len() as int] == '/'
            &&& start <= end < text.len() - 1
            &&& text[end] == '/'
            &&& forall|i: int| start <= i < end ==> #[trigger] text[i] != '/'
            &&& step_towards(text, prefix) == text.take(end)
        }),
{
    law_child_and_deeper(text, prefix);
    let start = if prefix.len() == 0 {
        0int
    } else {
        prefix.len() as int + 1
    };
    let rest = text.skip(start);
    lemma_head_len(rest);
    let any = choose|i: int| start <= i < text.len() - 1 && #[trigger] text[i] == '/';
    assert(rest[any - start] == '/');
    let end = start + head_len(rest);
    assert(end <= any);
    assert(text[end] == rest[end - start]);
    assert forall|i: int| start <= i < end implies #[trigger] text[i] != '/' by {
        assert(rest[i - start] == text[i]);
    }
    law_step_ends_at_the_next_delimiter(text, prefix, end);
    end
}

/// With one part behind a prefix a location is a child of it. With another
/// part behind that one it is not, but deeper, and the step towards it is that
/// child.
pub proof fn law_one_part_more(prefix: Seq<char>, part: Seq<char>, more: Seq<char>)
    requires
        !part.contains('/'),
        part.len() > 0,
        more.len() > 0,
    ensures
        ({
            let near = if prefix.len() == 0 {
                part
            } else {
                prefix.push('/') + part
            };
            let far = near.push('/') + more;
            &&& lies_under(near, prefix) && is_child(near, prefix) && !is_nested(near, prefix)
            &&& lies_under(far, prefix) && !is_child(far, prefix) && is_nested(far, prefix)
            &&& step_towards(far, prefix) == near
            &&& !lies_under(prefix, prefix)
        }),
{
    let near = if prefix.len() == 0 {
        part
    } else {
        prefix.push('/') + part
    };
    let far = near.push('/') + more;
    let start = near.len() - part.len();
    law_child_and_deeper(near, prefix);
    law_child_and_deeper(far, prefix);
    law_child_and_deeper(prefix, prefix);
    assert(near.take(prefix.len() as int) =~= prefix);
    assert(far.take(prefix.len() as int) =~= prefix);
    assert forall|i: int| start <= i < near.len() implies #[trigger] near[i] != '/' by {
        assert(part.contains(part[i - start]));
    }
    assert forall|i: int| start <= i < near.len() implies #[trigger] far[i] != '/' by {
        assert(near[i] == far[i]);
    }
    assert(far[near.len() as int] == '/');
    law_step_ends_at_the_next_delimiter(far, prefix, near.len() as int);
    assert(far.take(near.len() as int) =~= near);
}

/// The prefix of a listing is the path given, and the empty text where none is.
pub proof fn law_prefix_is_the_path_given(path: &Path)
    ensures
        prefix_text(Some(path)) == path_text(*path),
        prefix_text(None) == Seq::<char>::empty(),
{
}

// Listings.

/// What is said of an object: where it is and how many bytes it has, and
/// nothing else.
pub proof fn law_description(meta: ObjectMeta, text: Seq<char>, file: FileEntry)
    ensures
        meta.describes(text, file) <==> {
            &&& path_text(meta.location) == text
            &&& meta.size == file.total_bytes
            &&& meta.last_modified == 0
            &&& meta.e_tag is None
            &&& meta.version is None
        },
{
}

/// After an object has been written, what is said of it in a get and in the
/// listings is how many bytes were written.
pub proof fn law_size_is_what_was_written(
    files: Map<Seq<char>, FileEntry>,
    write: FileWriteView,
    meta: ObjectMeta,
)
    requires
        concat(write.chunks).len() <= usize::MAX,
        meta.describes(
            write.location,
            files.insert(write.location, write.entry())[write.location],
        ),
    ensures
        path_text(meta.location) == write.location,
        meta.size == concat(write.chunks).len(),
{
}

/// What a listing of an object says after it has been written, wherever it is
/// listed: the number of the bytes written.
pub proof fn law_listed_size_is_what_was_written(
    files: Map<Seq<char>, FileEntry>,
    write: FileWriteView,
    prefix: Seq<char>,
    metas: Seq<ObjectMeta>,
    i: int,
)
    requires
        concat(write.chunks).len() <= usize::MAX,
        ({
            let after = files.insert(write.location, write.entry());
            lists(metas, under(after, prefix)) || lists(metas, children(after, prefix))
        }),
        0 <= i < metas.len(),
        path_text(metas[i].location) == write.location,
    ensures
        metas[i].size == concat(write.chunks).len(),
{
    let meta = metas[i];
}

/// Each object of a listing is an object of the store, with its size, whose
/// location goes on after the prefix.
pub proof fn law_listed_objects_are_under_the_prefix(
    files: Map<Seq<char>, FileEntry>,
    prefix: Seq<char>,
    metas: Seq<ObjectMeta>,
    i: int,
)
    requires
        lists(metas, under(files, prefix)),
        0 <= i < metas.len(),
    ensures
        ({
            let text = path_text(metas[i].location);
            &&& files.contains_key(text)
            &&& metas[i].size == files[text].total_bytes
            &&& metas[i].last_modified == 0
            &&& metas[i].e_tag is None
            &&& metas[i].version is None
            &&& prefix.len() == 0 ==> text.len() > 0
            &&& prefix.len() > 0 ==> text.len() > prefix.len() + 1 && text.take(
                prefix.len() as int,
            ) == prefix && text[prefix.len() as int] == '/'
        }),
{
    let text = path_text(metas[i].location);
    assert(under(files, prefix).contains_key(text));
    law_child_and_deeper(text, prefix);
}

/// Each object of the store whose location goes on after the prefix is listed,
/// and listed once.
pub proof fn law_all_under_the_prefix_are_listed(
    files: Map<Seq<char>, FileEntry>,
    prefix: Seq<char>,
    metas: Seq<ObjectMeta>,
    text: Seq<char>,
)
    requires
        lists(metas, under(files, prefix)),
        files.contains_key(text),
        prefix.len() == 0 ==> text.len() > 0,
        prefix.len() > 0 ==> text.len() > prefix.len() + 1 && text.take(prefix.len() as int)
            == prefix && text[prefix.len() as int] == '/',
    ensures
        exists|i: int|
            0 <= i < metas.len() && path_text((#[trigger] metas[i]).location) == text
                && metas[i].size == files[text].total_bytes,
        forall|i: int, j: int|
            0 <= i < metas.len() && 0 <= j < metas.len() && path_text(
                (#[trigger] metas[i]).location,
            ) == text && path_text((#[trigger] metas[j]).location) == text ==> i == j,
{
    law_child_and_deeper(text, prefix);
    if prefix.len() == 0 {
        assert(text.take(0) =~= prefix);
    }
    assert(under(files, prefix).contains_key(text));
    let i = choose|i: int|
        0 <= i < metas.len() && path_text((#[trigger] metas[i]).location) == text;
    assert(metas[i].size == files[text].total_bytes);
}

/// Each object of a listing with groups is an object of the store, with its
/// size, whose location goes on after the prefix with one part: no delimiter
/// comes in it but as its last character.
pub proof fn law_grouped_listing_shows_children(
    files: Map<Seq<char>, FileEntry>,
    prefix: Seq<char>,
    result: ListResult,
    i: int,
)
    requires
        lists(result.objects@, children(files, prefix)),
        0 <= i < result.objects@.len(),
    ensures
        ({
            let meta = result.objects@[i];
            let text = path_text(meta.location);
            let start = if prefix.len() == 0 {
                0int
            } else {
                prefix.len() as int + 1
            };
            &&& files.contains_key(text)
            &&& meta.size == files[text].total_bytes
            &&& meta.last_modified == 0
            &&& meta.e_tag is None
            &&& meta.version is None
            &&& text.len() > start
            &&& text.take(prefix.len() as int) == prefix
            &&& prefix.len() > 0 ==> text[prefix.len() as int] == '/'
            &&& forall|n: int| start <= n < text.len() - 1 ==> #[trigger] text[n] != '/'
        }),
{
    let text = path_text(result.objects@[i].location);
    assert(children(files, prefix).contains_key(text));
    law_child_and_deeper(text, prefix);
}

/// Each object of the store whose location goes on after the prefix with one
/// part is among the objects of a listing with groups, and there once.
pub proof fn law_grouped_listing_shows_all_children(
    files: Map<Seq<char>, FileEntry>,
    prefix: Seq<char>,
    result: ListResult,
    text: Seq<char>,
)
    requires
        lists(result.objects@, children(files, prefix)),
        files.contains_key(text),
        ({
            let start = if prefix.len() == 0 {
                0int
            } else {
                prefix.len() as int + 1
            };
            &&& text.len() > start
            &&& text.take(prefix.len() as int) == prefix
            &&& prefix.len() > 0 ==> text[prefix.len() as int] == '/'
            &&& forall|n: int| start <= n < text.len() - 1 ==> #[trigger] text[n] != '/'
        }),
    ensures
        exists|i: int|
            0 <= i < result.objects@.len() && path_text((#[trigger] result.objects@[i]).location)
                == text && result.objects@[i].size == files[text].total_bytes,
        forall|i: int, j: int|
            0 <= i < result.objects@.len() && 0 <= j < result.objects@.len() && path_text(
                (#[trigger] result.objects@[i]).location,
            ) == text && path_text((#[trigger] result.objects@[j]).location) == text ==> i == j,
{
    law_child_and_deeper(text, prefix);
    assert(children(files, prefix).contains_key(text));
    let i = choose|i: int|
        0 <= i < result.objects@.len() && path_text((#[trigger] result.objects@[i]).location)
            == text;
    assert(result.objects@[i].size == files[text].total_bytes);
}

/// An object whose location goes on after a delimiter beyond the prefix is not
/// among the objects of a listing with groups. The common prefixes hold what
/// comes before that delimiter.
pub proof fn law_deeper_object_is_behind_its_group(
    files: Map<Seq<char>, FileEntry>,
    prefix: Seq<char>,
    result: ListResult,
    text: Seq<char>,
    end: int,
)
    requires
        lists(result.objects@, children(files, prefix)),
        texts(result.common_prefixes@).to_set() == groups(files, prefix),
        files.contains_key(text),
        ({
            let start = if prefix.len() == 0 {
                0int
            } else {
                prefix.len() as int + 1
            };
            &&& text.take(prefix.len() as int) == prefix
            &&& prefix.len() > 0 ==> text[prefix.len() as int] == '/'
            &&& start <= end < text.len() - 1
            &&& text[end] == '/'
            &&& forall|n: int| start <= n < end ==> #[trigger] text[n] != '/'
        }),
    ensures
        exists|n: int|
            0 <= n < result.common_prefixes@.len() && path_text(
                #[trigger] result.common_prefixes@[n],
            ) == text.take(end),
        forall|i: int|
            0 <= i < result.objects@.len() ==> path_text((#[trigger] result.objects@[i]).location)
                != text,
{
    law_child_and_deeper(text, prefix);
    law_step_ends_at_the_next_delimiter(text, prefix, end);
    assert(files.contains_key(text));
    assert(groups(files, prefix).contains(text.take(end)));
    assert(texts(result.common_prefixes@).to_set().contains(text.take(end)));
    let n = choose|n: int|
        0 <= n < texts(result.common_prefixes@).len() && texts(result.common_prefixes@)[n]
            == text.take(end);
    assert(path_text(result.common_prefixes@[n]) == text.take(end));
    assert forall|i: int| 0 <= i < result.objects@.len() implies path_text(
        (#[trigger] result.objects@[i]).location,
    ) != text by {
        assert(children(files, prefix).contains_key(path_text(result.objects@[i].location)));
    }
}

/// Each common prefix of a listing is the prefix and one part more, and some
/// object of the store goes on after it and a delimiter.
pub proof fn law_group_leads_to_an_object(
    files: Map<Seq<char>, FileEntry>,
    prefix: Seq<char>,
    result: ListResult,
    n: int,
)
    requires
        texts(result.common_prefixes@).to_set() == groups(files, prefix),
        !texts(result.common_prefixes@).contains(prefix),
        0 <= n < result.common_prefixes@.len(),
    ensures
        ({
            let group = path_text(result.common_prefixes@[n]);
            let start = if prefix.len() == 0 {
                0int
            } else {
                prefix.len() as int + 1
            };
            &&& group.len() >= start
            &&& group.len() > prefix.len()
            &&& group.take(prefix.len() as int) == prefix
            &&& prefix.len() > 0 ==> group[prefix.len() as int] == '/'
            &&& forall|i: int| start <= i < group.len() ==> #[trigger] group[i] != '/'
            &&& exists|text: Seq<char>| #[trigger]
                files.contains_key(text) && text.len() > group.len() + 1 && text.take(
                    group.len() as int,
                ) == group && text[group.len() as int] == '/'
        }),
{
    let named = texts(result.common_prefixes@);
    let group = path_text(result.common_prefixes@[n]);
    assert(named[n] == group);
    assert(named.to_set().contains(group));
    let text = choose|k: Seq<char>| #[trigger]
        files.contains_key(k) && is_nested(k, prefix) && step_towards(k, prefix) == group;
    let end = lemma_where_the_step_ends(text, prefix);
    assert(group != prefix);
    if prefix.len() == 0 && group.len() == 0 {
        assert(group =~= prefix);
    }
    assert(group.take(prefix.len() as int) =~= text.take(prefix.len() as int));
    assert(files.contains_key(text) && text.len() > group.len() + 1 && text.take(group.len() as int)
        == group && text[group.len() as int] == '/');
}

/// The common prefixes of a listing ascend: of any two the former has the
/// smaller character where they first differ, or ends there.
pub proof fn law_common_prefixes_ascend(result: ListResult, m: int, n: int)
    requires
        ascending(texts(result.common_prefixes@)),
        0 <= m < n < result.common_prefixes@.len(),
    ensures
        ({
            let a = path_text(result.common_prefixes@[m]);
            let b = path_text(result.common_prefixes@[n]);
            &&& a != b
            &&& exists|i: int|
                0 <= i <= a.len() && i < b.len() && #[trigger] a.take(i) == b.take(i) && (i
                    == a.len() || (a[i] as int) < (b[i] as int))
        }),
{
    let named = texts(result.common_prefixes@);
    let a = path_text(result.common_prefixes@[m]);
    let b = path_text(result.common_prefixes@[n]);
    assert(named[m] == a && named[n] == b);
    assert(text_precedes(a, b));
    law_first_difference_decides(a, b);
    law_ascending_texts_differ(named);
}

/// The texts of paths are ascending if and only if each is smaller than those
/// after it.
pub proof fn law_ascending_by_pairs(paths: Seq<Path>)
    ensures
        texts(paths) == Seq::new(paths.len(), |i: int| path_text(paths[i])),
        ascending(texts(paths)) <==> forall|m: int, n: int|
            0 <= m < n < paths.len() ==> text_precedes(
                path_text(#[trigger] paths[m]),
                path_text(#[trigger] paths[n]),
            ),
{
    let all = texts(paths);
    assert(all =~= Seq::new(paths.len(), |i: int| path_text(paths[i])));
    if ascending(all) {
        assert forall|m: int, n: int| 0 <= m < n < paths.len() implies text_precedes(
            path_text(#[trigger] paths[m]),
            path_text(#[trigger] paths[n]),
        ) by {
            assert(text_precedes(all[m], all[n]));
        }
    }
}

/// Of the entries those are kept, in their order, whose location is to be.
pub proof fn law_kept_by_location(
    entries: Seq<(Seq<char>, FileEntry)>,
    keep: spec_fn(Seq<char>) -> bool,
)
    ensures
        kept(entries, keep) == entries.filter(|e: (Seq<char>, FileEntry)| keep(e.0)),
    decreases entries.len(),
{
    reveal(Seq::filter);
    if entries.len() > 0 {
        law_kept_by_location(entries.drop_last(), keep);
    }
}

/// What describes some entries is as many descriptions, each of which gives
/// the location and the size of its entry.
pub proof fn law_descriptions(metas: Seq<ObjectMeta>, entries: Seq<(Seq<char>, FileEntry)>)
    ensures
        describe(metas, entries) <==> metas.len() == entries.len() && forall|i: int|
            0 <= i < metas.len() ==> path_text((#[trigger] metas[i]).location) == entries[i].0
                && metas[i].size == entries[i].1.total_bytes && metas[i].last_modified == 0
                && metas[i].e_tag is None && metas[i].version is None,
{
    if describe(metas, entries) {
        assert forall|i: int| 0 <= i < metas.len() implies path_text((#[trigger] metas[i]).location)
            == entries[i].0 && metas[i].size == entries[i].1.total_bytes && metas[i].last_modified
            == 0 && metas[i].e_tag is None && metas[i].version is None by {
            assert(metas[i].describes(entries[i].0, entries[i].1));
        }
    }
}

/// The groups of some entries are the steps towards those deeper under the
/// prefix.
pub proof fn law_entries_are_grouped(
    entries: Seq<(Seq<char>, FileEntry)>,
    prefix: Seq<char>,
    group: Seq<char>,
)
    ensures
        steps(entries, prefix).contains(group) <==> exists|i: int|
            0 <= i < entries.len() && is_nested((#[trigger] entries[i]).0, prefix) && step_towards(
                entries[i].0,
                prefix,
            ) == group,
{
    lemma_steps(entries, prefix);
}

/// Of the files those are chosen, each with what it was, whose location is to
/// be, lies under the prefix, or is a child of it.
pub proof fn law_files_by_location(
    files: Map<Seq<char>, FileEntry>,
    keep: spec_fn(Seq<char>) -> bool,
    prefix: Seq<char>,
    text: Seq<char>,
)
    ensures
        files_where(files, keep).contains_key(text) <==> files.contains_key(text) && keep(text),
        under(files, prefix).contains_key(text) <==> files.contains_key(text) && lies_under(
            text,
            prefix,
        ),
        children(files, prefix).contains_key(text) <==> files.contains_key(text) && is_child(
            text,
            prefix,
        ),
        files.contains_key(text) && keep(text) ==> files_where(files, keep)[text] == files[text],
        files.contains_key(text) && lies_under(text, prefix) ==> under(files, prefix)[text]
            == files[text],
        files.contains_key(text) && is_child(text, prefix) ==> children(files, prefix)[text]
            == files[text],
{
}

/// The groups of some files are the steps towards those deeper under the
/// prefix.
pub proof fn law_groups_by_location(
    files: Map<Seq<char>, FileEntry>,
    prefix: Seq<char>,
    group: Seq<char>,
)
    ensures
        groups(files, prefix).contains(group) <==> exists|k: Seq<char>| #[trigger]
            files.contains_key(k) && is_nested(k, prefix) && step_towards(k, prefix) == group,
{
}

/// What lists some files has a description for each file, one and no other.
pub proof fn law_listed_once(metas: Seq<ObjectMeta>, files: Map<Seq<char>, FileEntry>)
    ensures
        lists(metas, files) <==> {
            &&& forall|i: int|
                0 <= i < metas.len() ==> files.contains_key(path_text((#[trigger] metas[i]).location))
                    && metas[i].size == files[path_text(metas[i].location)].total_bytes
                    && metas[i].last_modified == 0 && metas[i].e_tag is None
                    && metas[i].version is None
            &&& forall|k: Seq<char>| #[trigger]
                files.contains_key(k) ==> exists|i: int|
                    0 <= i < metas.len() && path_text((#[trigger] metas[i]).location) == k
            &&& forall|i: int, j: int|
                0 <= i < j < metas.len() ==> path_text((#[trigger] metas[i]).location) != path_text(
                    (#[trigger] metas[j]).location,
                )
        },
{
}

// The map of files.

/// What enumerates some files holds each location with its file, each once,
/// and nothing else.
pub proof fn law_enumerated_once(
    entries: Seq<(Seq<char>, FileEntry)>,
    files: Map<Seq<char>, FileEntry>,
)
    ensures
        enumerates(entries, files) <==> {
            &&& forall|i: int|
                0 <= i < entries.len() ==> files.contains_key((#[trigger] entries[i]).0)
                    && files[entries[i].0] == entries[i].1
            &&& forall|k: Seq<char>| #[trigger]
                files.contains_key(k) ==> exists|i: int|
                    0 <= i < entries.len() && #[trigger] entries[i].0 == k
            &&& forall|i: int, j: int|
                0 <= i < j < entries.len() ==> (#[trigger] entries[i]).0 != (#[trigger] entries[j]).0
        },
{
    if enumerates(entries, files) {
        assert forall|i: int| 0 <= i < entries.len() implies files.contains_key(
            (#[trigger] entries[i]).0,
        ) && files[entries[i].0] == entries[i].1 by {
            assert(files.contains_pair(entries[i].0, entries[i].1));
        }
    }
}

/// Entries are seen by the texts of their paths, and no files are none.
pub proof fn law_entries_by_text(entries: Seq<(&Path, FileEntry)>)
    ensures
        entries_view(entries) == Seq::new(
            entries.len(),
            |i: int| (path_text(*entries[i].0), entries[i].1),
        ),
        no_files() == Map::<Seq<char>, FileEntry>::empty(),
{
    assert(entries_view(entries) =~= Seq::new(
        entries.len(),
        |i: int| (path_text(*entries[i].0), entries[i].1),
    ));
}

// Bytes.

/// The bytes of chunks come in the order of the chunks, none left out and none
/// added.
pub proof fn law_bytes_in_chunk_order(chunks: Seq<Seq<u8>>, chunk: Seq<u8>, more: Seq<Seq<u8>>)
    ensures
        concat(Seq::empty()) == Seq::<u8>::empty(),
        concat(seq![chunk]) == chunk,
        concat(chunks.push(chunk)) == concat(chunks) + chunk,
        concat(chunks + more) == concat(chunks) + concat(more),
{
    lemma_concat_one(chunk);
    lemma_concat_add(chunks, more);
    assert(chunks.push(chunk).drop_last() =~= chunks);
}

/// Slices are seen by their bytes, one for one.
pub proof fn law_slices_by_bytes(slices: Seq<&[u8]>)
    ensures
        slices_view(slices) == Seq::new(slices.len(), |i: int| slices[i]@),
{
    assert(slices_view(slices) =~= Seq::new(slices.len(), |i: int| slices[i]@));
}

/// What a read found are the bytes of the page, or of the copy, all of them.
pub proof fn law_read_data_is_its_bytes(page: &[u8], copy: Vec<u8>)
    ensures
        RangeData::OnePage(page)@ == page@,
        RangeData::MultiPage(copy)@ == copy@,
{
}

// Requests.

/// The positions of a request: all, from an offset to the end, as many as
/// asked for at the end, or those asked for. A suffix longer than the object,
/// and nothing else, has none.
pub proof fn law_positions_asked_for(range: Option<GetRange>, total_bytes: usize)
    ensures
        match range {
            None => resolved(range, total_bytes) == (0int, total_bytes as int) && can_resolve(
                range,
                total_bytes,
            ),
            Some(GetRange::Offset(start)) => resolved(range, total_bytes) == (
                start as int,
                total_bytes as int,
            ) && can_resolve(range, total_bytes),
            Some(GetRange::Suffix(n)) => resolved(range, total_bytes) == (
                total_bytes - n,
                total_bytes as int,
            ) && (can_resolve(range, total_bytes) <==> n <= total_bytes),
            Some(GetRange::Bounded(p)) => resolved(range, total_bytes) == (
                p.start as int,
                p.end as int,
            ) && can_resolve(range, total_bytes),
        },
{
}

/// A mode is refused by its name, with the same words for each mode.
pub proof fn law_refusal_by_name(version: UpdateVersion, mode: Seq<char>)
    ensures
        mode_text(PutMode::Overwrite) == "Overwrite"@,
        mode_text(PutMode::Create) == "Create"@,
        mode_text(PutMode::Update(version)) == update_text(
            text_of(version.e_tag),
            text_of(version.version),
        ),
        refusal_text(mode) == mode + " is not supported, only Overwrite"@,
{
}

/// A string is seen by its characters.
pub proof fn law_string_by_characters(string: String)
    ensures
        text_of(Some(string)) == Some(string@),
        text_of(None) == None::<Seq<char>>,
{
}

// Writes.

/// An action asks for what it says.
pub proof fn law_action_is_its_operation(relation_oid: u32, bytes: &[u8])
    ensures
        (StorageAction::Create { relation_oid })@ == (StorageOp::Create { relation_oid }),
        (StorageAction::Write { bytes })@ == (StorageOp::Write { bytes: bytes@ }),
        StorageAction::Flush@ == StorageOp::Flush,
{
}

/// An append writes each chunk once, in order, then flushes, and is then done.
pub proof fn law_append_writes_then_flushes(append: AppendView, i: int)
    ensures
        append.script() == append_script(append.chunks),
        append_script(append.chunks).len() == append.chunks.len() + 1,
        0 <= i < append.chunks.len() ==> append_script(append.chunks)[i] == (StorageOp::Write {
            bytes: append.chunks[i],
        }),
        append_script(append.chunks)[append.chunks.len() as int] == StorageOp::Flush,
        append.done() <==> append.position == append.chunks.len() + 1,
{
}

/// The write of an object creates a list in the relation, writes each chunk
/// once, in order, then flushes, and is then done.
pub proof fn law_write_creates_writes_and_flushes(write: FileWriteView, i: int)
    ensures
        write.script() == file_script(write.relation_oid, write.chunks),
        file_script(write.relation_oid, write.chunks).len() == write.chunks.len() + 2,
        file_script(write.relation_oid, write.chunks)[0] == (StorageOp::Create {
            relation_oid: write.relation_oid,
        }),
        0 <= i < write.chunks.len() ==> file_script(write.relation_oid, write.chunks)[i + 1] == (
        StorageOp::Write { bytes: write.chunks[i] }),
        file_script(write.relation_oid, write.chunks)[write.chunks.len() as int + 1] == StorageOp::Flush,
        write.done() <==> write.position == write.chunks.len() + 2,
{
}

/// A write is planned for the relation, the location and the chunks that it is
/// asked for, whatever they are. Once it is recorded, its location is mapped
/// to a file with the block of its list and with as many bytes as the chunks
/// have, and every other location to what it was.
pub proof fn law_put_is_recorded_at_its_location(
    files: Map<Seq<char>, FileEntry>,
    relation_oid: u32,
    location: Seq<char>,
    chunks: Seq<Seq<u8>>,
    block: u32,
    position: nat,
    other: Seq<char>,
)
    requires
        concat(chunks).len() <= usize::MAX,
        other != location,
    ensures
        ({
            let planned = FileWriteView::start(relation_oid, location, chunks);
            let write = FileWriteView { block: Some(block), position, ..planned };
            let after = files.insert(write.location, write.entry());
            &&& planned.relation_oid == relation_oid
            &&& planned.location == location
            &&& planned.chunks == chunks
            &&& planned.block is None
            &&& planned.position == 0
            &&& after.contains_key(location)
            &&& after[location].staring_block == block
            &&& after[location].total_bytes == concat(chunks).len()
            &&& after.contains_key(other) == files.contains_key(other)
            &&& files.contains_key(other) ==> after[other] == files[other]
        }),
{
}

/// A part adds its bytes behind those of an open upload and changes nothing
/// else. A closed upload stays closed, without bytes. Neither changes where
/// the upload goes.
pub proof fn law_part_goes_behind(upload: UploadView, chunks: Seq<Seq<u8>>)
    ensures
        upload.with_part(chunks).relation_oid == upload.relation_oid,
        upload.with_part(chunks).location == upload.location,
        match upload.buffer {
            Some(bytes) => upload.with_part(chunks).buffer == Some(bytes + concat(chunks)),
            None => upload.with_part(chunks).buffer is None,
        },
        upload.closed().relation_oid == upload.relation_oid,
        upload.closed().location == upload.location,
        upload.closed().buffer is None,
{
}

} // verus!
