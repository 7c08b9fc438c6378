//! Object locations: the text of a [`Path`], how a location lies under a
//! prefix, and the order of locations.

use object_store::path::{Path, PathPart};
use vstd::prelude::*;

verus! {

/// The path type of the `object_store` crate.
#[verifier::external_type_specification]
#[verifier::external_body]
pub struct ExPath(object_store::path::Path);

/// One segment of a path, in the `object_store` crate.
#[verifier::external_type_specification]
#[verifier::external_body]
pub struct ExPathPart<'a>(object_store::path::PathPart<'a>);

/// The characters that a [`Path`] holds: its raw text, without a leading
/// delimiter.
pub uninterp spec fn path_text(path: Path) -> Seq<char>;

/// The characters that a [`PathPart`] holds.
pub uninterp spec fn part_text(part: PathPart<'_>) -> Seq<char>;

/// How many characters of a text come before its first delimiter `/`: all of
/// them where it has none.
pub open spec fn head_len(text: Seq<char>) -> nat
    decreases text.len(),
{
    if text.len() == 0 || text[0] == '/' {
        0
    } else {
        1 + head_len(text.skip(1))
    }
}

/// The parts of a text that the delimiter `/` separates. A delimiter at the
/// end closes the last part and opens no further one.
pub open spec fn parts_of(text: Seq<char>) -> Seq<Seq<char>>
    decreases text.len(),
{
    if text.len() == 0 {
        Seq::empty()
    } else if head_len(text) < text.len() {
        seq![text.take(head_len(text) as int)] + parts_of(text.skip(head_len(text) as int + 1))
    } else {
        seq![text]
    }
}

/// What follows `prefix` in `text`, when `prefix` ends where a part of `text`
/// ends.
pub open spec fn rest_after(text: Seq<char>, prefix: Seq<char>) -> Option<Seq<char>> {
    if !prefix.is_prefix_of(text) {
        None
    } else {
        let rest = text.skip(prefix.len() as int);
        if rest.len() == 0 || prefix.len() == 0 {
            Some(rest)
        } else if rest[0] == '/' {
            Some(rest.skip(1))
        } else {
            None
        }
    }
}

/// The text of the child `part` of `prefix`.
pub open spec fn child_text(prefix: Seq<char>, part: Seq<char>) -> Seq<char> {
    if prefix.len() == 0 {
        part
    } else {
        prefix + seq!['/'] + part
    }
}

/// The order of texts: by the first character in which they differ, and a text
/// before its extensions.
pub open spec fn text_precedes(a: Seq<char>, b: Seq<char>) -> bool
    decreases a.len(),
{
    if b.len() == 0 {
        false
    } else if a.len() == 0 {
        true
    } else if a[0] != b[0] {
        (a[0] as int) < (b[0] as int)
    } else {
        text_precedes(a.skip(1), b.skip(1))
    }
}

/// `Path::clone`: the clone has the same text.
pub assume_specification[ <Path as Clone>::clone ](path: &Path) -> (copy: Path)
    ensures
        path_text(copy) == path_text(*path),
;

/// `Path::default`: the path with an empty text.
pub assume_specification[ <Path as Default>::default ]() -> (path: Path)
    ensures
        path_text(path) == Seq::<char>::empty(),
;

/// `Path::prefix_match`: nothing where `prefix` is no prefix of `path`, and
/// otherwise the parts of what follows the prefix, in order. After the empty
/// prefix these are the parts of the whole path, the first of which is not
/// empty: no way to make a path (`parse`, `from`, `from_iter`, `child`,
/// `default`) gives a text that starts with the delimiter.
#[verifier::external_body]
pub(crate) fn prefix_match<'a>(path: &'a Path, prefix: &Path) -> (parts: Option<Vec<PathPart<'a>>>)
    ensures
        parts is Some <==> rest_after(path_text(*path), path_text(*prefix)) is Some,
        parts matches Some(found) ==> found@.map_values(|p: PathPart<'a>| part_text(p)) == parts_of(
            rest_after(path_text(*path), path_text(*prefix))->0,
        ),
        parts matches Some(found) ==> path_text(*prefix).len() == 0 ==> found@.len() > 0
            ==> part_text(found@[0]).len() > 0,
{
    path.prefix_match(prefix).map(|parts| parts.collect())
}

/// `Path::child`: the parent's text, a delimiter unless the parent's text is
/// empty, and the part's text.
#[verifier::external_body]
pub(crate) fn child(parent: &Path, part: PathPart<'_>) -> (path: Path)
    ensures
        path_text(path) == child_text(path_text(*parent), part_text(part)),
{
    parent.child(part)
}

/// `<` on `Path`, which is derived and so compares the raw texts as `String`
/// does: lexicographically, by the code points of their characters.
#[verifier::external_body]
pub(crate) fn precedes(a: &Path, b: &Path) -> (less: bool)
    ensures
        less == text_precedes(path_text(*a), path_text(*b)),
{
    a < b
}

/// No text precedes itself.
pub proof fn lemma_precedes_irreflexive(a: Seq<char>)
    ensures
        !text_precedes(a, a),
    decreases a.len(),
{
    if a.len() > 0 {
        lemma_precedes_irreflexive(a.skip(1));
    }
}

/// Of two different texts one precedes the other.
pub proof fn lemma_precedes_total(a: Seq<char>, b: Seq<char>)
    ensures
        a == b || text_precedes(a, b) || text_precedes(b, a),
    decreases a.len(),
{
    if a.len() > 0 && b.len() > 0 && a[0] == b[0] {
        lemma_precedes_total(a.skip(1), b.skip(1));
        if a.skip(1) == b.skip(1) {
            assert(a =~= seq![a[0]] + a.skip(1));
            assert(b =~= seq![b[0]] + b.skip(1));
        }
    } else if a.len() == 0 && b.len() == 0 {
        assert(a =~= b);
    }
}

/// What precedes a text precedes all that the text precedes.
pub proof fn lemma_precedes_transitive(a: Seq<char>, b: Seq<char>, c: Seq<char>)
    requires
        text_precedes(a, b),
        text_precedes(b, c),
    ensures
        text_precedes(a, c),
    decreases a.len(),
{
    if a.len() > 0 && a[0] == b[0] && b[0] == c[0] {
        lemma_precedes_transitive(a.skip(1), b.skip(1), c.skip(1));
    }
}

} // verus!
