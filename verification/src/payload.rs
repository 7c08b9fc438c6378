//! Payloads: the chunks that a put hands over, and the bytes that a get hands
//! back.

use bytes::Bytes;
use object_store::PutPayload;
use vstd::prelude::*;

verus! {

/// The payload type of the `object_store` crate, an ordered collection of
/// byte chunks.
#[verifier::external_type_specification]
#[verifier::external_body]
pub struct ExPutPayload(object_store::PutPayload);

/// The byte buffer of the `bytes` crate.
#[verifier::external_type_specification]
#[verifier::external_body]
pub struct ExBytes(bytes::Bytes);

/// The chunks that a payload holds, in order.
pub uninterp spec fn payload_chunks(payload: PutPayload) -> Seq<Seq<u8>>;

/// The bytes that a buffer holds.
pub uninterp spec fn bytes_contents(buffer: Bytes) -> Seq<u8>;

/// All bytes of the chunks, one chunk after the other.
pub open spec fn concat(chunks: Seq<Seq<u8>>) -> Seq<u8>
    decreases chunks.len(),
{
    if chunks.len() == 0 {
        Seq::empty()
    } else {
        concat(chunks.drop_last()) + chunks.last()
    }
}

/// The bytes of each slice.
pub open spec fn slices_view(slices: Seq<&[u8]>) -> Seq<Seq<u8>> {
    slices.map_values(|s: &[u8]| s@)
}

/// `PutPayload::iter`: the chunks of the payload, in order, each as a slice.
#[verifier::external_body]
pub(crate) fn chunks(payload: &PutPayload) -> (slices: Vec<&[u8]>)
    ensures
        slices_view(slices@) == payload_chunks(*payload),
{
    payload.iter().map(|chunk| chunk.as_ref()).collect()
}

/// `PutPayload::content_length`: the sum of the chunks' lengths. The sum is
/// taken with `usize` addition, so it has to fit.
#[verifier::external_body]
pub(crate) fn content_length(payload: &PutPayload) -> (len: usize)
    requires
        concat(payload_chunks(*payload)).len() <= usize::MAX,
    ensures
        len == concat(payload_chunks(*payload)).len(),
{
    payload.content_length()
}

/// `Bytes::copy_from_slice`: a buffer with the bytes of the slice.
#[verifier::external_body]
pub(crate) fn copy_from_slice(data: &[u8]) -> (buffer: Bytes)
    ensures
        bytes_contents(buffer) == data@,
{
    Bytes::copy_from_slice(data)
}

/// `Bytes::from` of a vector: a buffer with the bytes of the vector.
#[verifier::external_body]
pub(crate) fn bytes_from_vec(data: Vec<u8>) -> (buffer: Bytes)
    ensures
        bytes_contents(buffer) == data@,
{
    Bytes::from(data)
}

/// The total length of the slices, where it can be counted in a `usize`.
pub fn checked_total_len(slices: &Vec<&[u8]>) -> (total: Option<usize>)
    ensures
        total == if concat(slices_view(slices@)).len() <= usize::MAX {
            Some(concat(slices_view(slices@)).len() as usize)
        } else {
            None
        },
{
    let ghost all = slices_view(slices@);
    let mut total: usize = 0;
    let mut i: usize = 0;
    proof {
        assert(all.take(0) =~= Seq::empty());
    }
    while i < slices.len()
        invariant
            all == slices_view(slices@),
            i <= slices.len(),
            total == concat(all.take(i as int)).len(),
        decreases slices.len() - i,
    {
        proof {
            assert(all.take(i + 1).drop_last() =~= all.take(i as int));
            lemma_concat_take(all, i + 1);
        }
        match total.checked_add(slices[i].len()) {
            Some(sum) => total = sum,
            None => {
                return None;
            },
        }
        i = i + 1;
    }
    proof {
        assert(all.take(all.len() as int) =~= all);
    }
    Some(total)
}

/// The first chunks are no longer than all of them.
pub proof fn lemma_concat_take(chunks: Seq<Seq<u8>>, n: int)
    requires
        0 <= n <= chunks.len(),
    ensures
        concat(chunks.take(n)).len() <= concat(chunks).len(),
    decreases chunks.len(),
{
    if n < chunks.len() {
        assert(chunks.drop_last().take(n) =~= chunks.take(n));
        lemma_concat_take(chunks.drop_last(), n);
    } else {
        assert(chunks.take(n) =~= chunks);
    }
}

/// The bytes of one chunk are those of the chunk.
pub proof fn lemma_concat_one(chunk: Seq<u8>)
    ensures
        concat(seq![chunk]) == chunk,
{
    assert(seq![chunk].drop_last() =~= Seq::empty());
    assert(concat(Seq::empty()) + chunk =~= chunk);
}

/// The bytes of two runs of chunks are the bytes of the one, then of the other.
pub proof fn lemma_concat_add(a: Seq<Seq<u8>>, b: Seq<Seq<u8>>)
    ensures
        concat(a + b) == concat(a) + concat(b),
    decreases b.len(),
{
    if b.len() == 0 {
        assert(a + b =~= a);
    } else {
        assert((a + b).drop_last() =~= a + b.drop_last());
        lemma_concat_add(a, b.drop_last());
    }
}

} // verus!
