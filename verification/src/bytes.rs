//! Scalars as the bytes of a device buffer: four to a scalar, in the byte order of the
//! machine.

use crate::scalar::Scalar;
use vstd::endian::{endianness, Endian};
use vstd::prelude::*;

verus! {

/// The word that bytes `4 * i` to `4 * i + 3` hold in the byte order of the machine.
pub open spec fn word_at(bytes: Seq<u8>, i: int) -> int {
    let (a, b, c, d) = (bytes[4 * i], bytes[4 * i + 1], bytes[4 * i + 2], bytes[4 * i + 3]);
    match endianness() {
        Endian::Little => a + 0x100 * b + 0x1_0000 * c + 0x100_0000 * d,
        Endian::Big => d + 0x100 * c + 0x1_0000 * b + 0x100_0000 * a,
    }
}

/// The bytes hold the given scalars: each word stands for its scalar.
pub open spec fn encodes<S: Scalar>(bytes: Seq<u8>, data: Seq<S>) -> bool {
    &&& bytes.len() == 4 * data.len()
    &&& forall|i: int|
        #![trigger data[i]]
        0 <= i < data.len() ==> S::of_bits(word_at(bytes, i) as u32) == data[i]
}

/// The scalars that the bytes hold.
pub open spec fn decoded<S: Scalar>(bytes: Seq<u8>) -> Seq<S> {
    Seq::new(bytes.len() / 4, |i: int| S::of_bits(word_at(bytes, i) as u32))
}

/// `bytemuck::cast_slice` from words to bytes, copied into a vector. The bytes of each
/// word stand in its place, in the byte order of the machine. From a type to one of
/// smaller alignment whose size divides it the function does not panic.
#[verifier::external_body]
fn cast_words(words: &[u32]) -> (r: Vec<u8>)
    ensures
        r@.len() == 4 * words@.len(),
        forall|i: int|
            #![trigger words@[i]]
            0 <= i < words@.len() ==> word_at(r@, i) == words@[i],
{
    bytemuck::cast_slice::<u32, u8>(words).to_vec()
}

/// `bytemuck::pod_collect_to_vec` from bytes to words. It copies the bytes, whatever
/// their alignment, into as many words as hold them; each word is what its four bytes
/// hold in the byte order of the machine.
#[verifier::external_body]
fn collect_words(bytes: &[u8]) -> (r: Vec<u32>)
    requires
        bytes@.len() % 4 == 0,
    ensures
        r@.len() == bytes@.len() / 4,
        forall|i: int| 0 <= i < r@.len() ==> #[trigger] r@[i] == word_at(bytes@, i),
{
    bytemuck::pod_collect_to_vec::<u8, u32>(bytes)
}

/// The bytes of the given scalars.
pub fn encode<S: Scalar>(data: &[S]) -> (r: Vec<u8>)
    ensures
        encodes(r@, data@),
{
    let mut words: Vec<u32> = Vec::new();
    for i in 0..data.len()
        invariant
            words@.len() == i,
            forall|j: int| 0 <= j < i ==> S::of_bits(#[trigger] words@[j]) == data@[j],
    {
        words.push(data[i].to_bits());
    }
    let r = cast_words(words.as_slice());
    assert forall|i: int| #![trigger data@[i]] 0 <= i < data@.len() implies S::of_bits(
        word_at(r@, i) as u32,
    ) == data@[i] by {
        assert(word_at(r@, i) == words@[i]);
    }
    r
}

/// The scalars of the given bytes.
pub fn decode<S: Scalar>(bytes: &[u8]) -> (r: Vec<S>)
    requires
        bytes@.len() % 4 == 0,
    ensures
        r@ == decoded::<S>(bytes@),
{
    let words = collect_words(bytes);
    let mut r: Vec<S> = Vec::new();
    for i in 0..words.len()
        invariant
            r@.len() == i,
            forall|j: int| 0 <= j < i ==> r@[j] == S::of_bits(words@[j]),
    {
        r.push(S::from_bits(words[i]));
    }
    assert forall|i: int| 0 <= i < r@.len() implies r@[i] == decoded::<S>(bytes@)[i] by {
        assert(words@[i] == word_at(bytes@, i));
    }
    assert(r@ =~= decoded::<S>(bytes@));
    r
}

/// Reading the bytes of scalars gives back the scalars.
pub proof fn bytes_round_trip_law<S: Scalar>(bytes: Seq<u8>, data: Seq<S>)
    requires
        encodes(bytes, data),
    ensures
        decoded::<S>(bytes) == data,
{
    assert(decoded::<S>(bytes) =~= data);
}

} // verus!
