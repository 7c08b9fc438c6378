//! What a caller asks of a put or a get, and how a request fails.

use std::ops::Range;
use vstd::prelude::*;
use vstd::string::StringExecFns;

verus! {

/// The name under which the store reports its errors.
pub const STORE_NAME: &'static str = "BlockObjectStore";

/// The version that a conditional put replaces.
#[derive(Debug)]
pub struct UpdateVersion {
    pub e_tag: Option<String>,
    pub version: Option<String>,
}

/// The condition under which a put writes.
#[derive(Debug)]
pub enum PutMode {
    Overwrite,
    Create,
    Update(UpdateVersion),
}

/// The part of an object that a get asks for.
#[derive(Debug)]
pub enum GetRange {
    /// The given positions.
    Bounded(Range<usize>),
    /// All from the given position on.
    Offset(usize),
    /// The given number of bytes at the end.
    Suffix(usize),
}

/// Why a request failed: it asks for what the store does not do, or an
/// operation on the storage failed.
#[allow(inconsistent_fields)]
#[derive(Debug)]
pub enum StoreError<E> {
    NotSupported { source: String },
    Generic { store: &'static str, source: E },
}

/// What a put reports.
#[derive(Debug)]
pub struct PutResult {
    pub e_tag: Option<String>,
    pub version: Option<String>,
}

/// The characters of a string, if there is one.
pub open spec fn text_of(string: Option<String>) -> Option<Seq<char>> {
    match string {
        Some(s) => Some(s@),
        None => None,
    }
}

/// The `Debug` text of `PutMode::Update` in the `object_store` crate, for a
/// version with the given tag and version.
pub uninterp spec fn update_text(
    e_tag: Option<Seq<char>>,
    version: Option<Seq<char>>,
) -> Seq<char>;

/// The text that stands for a mode in a message.
pub open spec fn mode_text(mode: PutMode) -> Seq<char> {
    match mode {
        PutMode::Overwrite => "Overwrite"@,
        PutMode::Create => "Create"@,
        PutMode::Update(v) => update_text(text_of(v.e_tag), text_of(v.version)),
    }
}

/// The message on a mode that the store does not do.
pub open spec fn refusal_text(mode: Seq<char>) -> Seq<char> {
    mode + " is not supported, only Overwrite"@
}

/// `Debug` on `object_store::PutMode`, which is derived: the name of the
/// variant, and for `Update` more, which is not said but that it depends on
/// the two fields of the version alone.
#[verifier::external_body]
pub(crate) fn debug_text(mode: &PutMode) -> (text: String)
    ensures
        *mode is Overwrite ==> text@ == "Overwrite"@,
        *mode is Create ==> text@ == "Create"@,
        *mode matches PutMode::Update(v) ==> text@ == update_text(text_of(v.e_tag), text_of(v.version)),
{
    let mode = match mode {
        PutMode::Overwrite => object_store::PutMode::Overwrite,
        PutMode::Create => object_store::PutMode::Create,
        PutMode::Update(update) => object_store::PutMode::Update(object_store::UpdateVersion {
            e_tag: update.e_tag.clone(),
            version: update.version.clone(),
        }),
    };
    format!("{:?}", mode)
}

/// The message on the mode that `mode` stands for.
pub fn refusal(mode: String) -> (message: String)
    ensures
        message@ == refusal_text(mode@),
        message@ == mode@ + " is not supported, only Overwrite"@,
{
    let mut message = mode;
    message.append(" is not supported, only Overwrite");
    message
}

/// Whether a range can be taken of an object of `total_bytes` bytes: a suffix
/// has to be no longer than the object.
pub open spec fn can_resolve(range: Option<GetRange>, total_bytes: usize) -> bool {
    range matches Some(GetRange::Suffix(n)) ==> n <= total_bytes
}

/// The positions that a request asks for, of an object of `total_bytes`
/// bytes: the first of them, and the one after the last.
pub open spec fn resolved(range: Option<GetRange>, total_bytes: usize) -> (int, int) {
    match range {
        Some(GetRange::Bounded(positions)) => (positions.start as int, positions.end as int),
        Some(GetRange::Offset(start)) => (start as int, total_bytes as int),
        Some(GetRange::Suffix(n)) => (total_bytes - n, total_bytes as int),
        None => (0, total_bytes as int),
    }
}

/// The positions that a request asks for.
pub fn resolve(range: Option<GetRange>, total_bytes: usize) -> (positions: Range<usize>)
    requires
        can_resolve(range, total_bytes),
    ensures
        (positions.start as int, positions.end as int) == resolved(range, total_bytes),
        match range {
            None => positions.start == 0 && positions.end == total_bytes,
            Some(GetRange::Offset(start)) => positions.start == start && positions.end
                == total_bytes,
            Some(GetRange::Suffix(n)) => positions.start + n == total_bytes && positions.end
                == total_bytes,
            Some(GetRange::Bounded(asked)) => positions == asked,
        },
{
    match range {
        Some(GetRange::Bounded(positions)) => positions,
        Some(GetRange::Offset(start)) => start..total_bytes,
        Some(GetRange::Suffix(n)) => (total_bytes - n)..total_bytes,
        None => 0..total_bytes,
    }
}

} // verus!
