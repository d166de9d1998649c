//! Native-endian conversion between 32-bit words and bytes, as the wire uses it.

use vstd::prelude::*;
use vstd::endian::{endianness, Endian};

verus! {

/// The word whose in-memory representation is the four bytes `b`, in the
/// byte order of the machine the code runs on.
pub open spec fn word_of_bytes(b: Seq<u8>) -> u32 {
    match endianness() {
        Endian::Little => (b[0] as u32) | ((b[1] as u32) << 8u32) | ((b[2] as u32) << 16u32) | ((
        b[3] as u32) << 24u32),
        Endian::Big => (b[3] as u32) | ((b[2] as u32) << 8u32) | ((b[1] as u32) << 16u32) | ((
        b[0] as u32) << 24u32),
    }
}

/// The four bytes of the in-memory representation of `w`.
pub open spec fn bytes_of_word(w: u32) -> Seq<u8> {
    match endianness() {
        Endian::Little => seq![
            (w & 0xff) as u8,
            ((w >> 8u32) & 0xff) as u8,
            ((w >> 16u32) & 0xff) as u8,
            ((w >> 24u32) & 0xff) as u8,
        ],
        Endian::Big => seq![
            ((w >> 24u32) & 0xff) as u8,
            ((w >> 16u32) & 0xff) as u8,
            ((w >> 8u32) & 0xff) as u8,
            (w & 0xff) as u8,
        ],
    }
}

/// Number of words needed to hold `n` bytes.
pub open spec fn padded_words(n: nat) -> nat {
    n / 4 + if n % 4 != 0 {
        1nat
    } else {
        0nat
    }
}

/// The four bytes that land in word `i` when `data` is copied to the start of
/// the words `old`: bytes of `data` where it reaches, old bytes after its end.
pub open spec fn packed_chunk(data: Seq<u8>, old: Seq<u32>, i: int) -> Seq<u8> {
    Seq::new(
        4,
        |j: int|
            if 4 * i + j < data.len() {
                data[4 * i + j]
            } else {
                bytes_of_word(old[i])[j]
            },
    )
}

/// The words that result from copying the bytes `data` into the memory of the
/// words `old` (as many words as `data` needs; padding bytes keep their value).
pub open spec fn pack_bytes(data: Seq<u8>, old: Seq<u32>) -> Seq<u32> {
    Seq::new(padded_words(data.len()), |i: int| word_of_bytes(packed_chunk(data, old, i)))
}

/// The first `n` bytes of the memory of `words`.
pub open spec fn unpack_bytes(words: Seq<u32>, n: nat) -> Seq<u8> {
    Seq::new(n, |k: int| bytes_of_word(words[k / 4])[k % 4])
}

pub proof fn lemma_bytes_of_word_len(w: u32)
    ensures
        bytes_of_word(w).len() == 4,
{
}

/// Reading back the bytes of a word built from four bytes gives those bytes.
pub proof fn lemma_bytes_word_bytes(b: Seq<u8>)
    requires
        b.len() == 4,
    ensures
        bytes_of_word(word_of_bytes(b)) == b,
{
    let b0 = b[0];
    let b1 = b[1];
    let b2 = b[2];
    let b3 = b[3];
    let w = (b0 as u32) | ((b1 as u32) << 8u32) | ((b2 as u32) << 16u32) | ((b3 as u32) << 24u32);
    assert((w & 0xff) as u8 == b0 && ((w >> 8u32) & 0xff) as u8 == b1 && ((w >> 16u32) & 0xff) as u8
        == b2 && ((w >> 24u32) & 0xff) as u8 == b3) by (bit_vector)
        requires
            w == (b0 as u32) | ((b1 as u32) << 8u32) | ((b2 as u32) << 16u32) | ((b3 as u32)
                << 24u32),
    ;
    let v = (b3 as u32) | ((b2 as u32) << 8u32) | ((b1 as u32) << 16u32) | ((b0 as u32) << 24u32);
    assert((v & 0xff) as u8 == b3 && ((v >> 8u32) & 0xff) as u8 == b2 && ((v >> 16u32) & 0xff) as u8
        == b1 && ((v >> 24u32) & 0xff) as u8 == b0) by (bit_vector)
        requires
            v == (b3 as u32) | ((b2 as u32) << 8u32) | ((b1 as u32) << 16u32) | ((b0 as u32)
                << 24u32),
    ;
    assert(bytes_of_word(word_of_bytes(b)) =~= b);
}

/// Building a word from the bytes of a word gives that word back.
pub proof fn lemma_word_bytes_word(w: u32)
    ensures
        word_of_bytes(bytes_of_word(w)) == w,
{
    assert(((w & 0xff) as u8 as u32) | ((((w >> 8u32) & 0xff) as u8 as u32) << 8u32) | ((((w
        >> 16u32) & 0xff) as u8 as u32) << 16u32) | ((((w >> 24u32) & 0xff) as u8 as u32)
        << 24u32) == w) by (bit_vector);
}

/// The bytes of packed data read back as the data itself.
pub proof fn lemma_unpack_pack(data: Seq<u8>, old: Seq<u32>)
    requires
        old.len() >= padded_words(data.len()),
    ensures
        pack_bytes(data, old).len() == padded_words(data.len()),
        unpack_bytes(pack_bytes(data, old), data.len()) == data,
{
    let packed = pack_bytes(data, old);
    assert forall|k: int| 0 <= k < data.len() implies #[trigger] unpack_bytes(packed, data.len())[k]
        == data[k] by {
        let i = k / 4;
        let j = k % 4;
        assert(0 <= i < padded_words(data.len()));
        assert(4 * i + j == k);
        let chunk = packed_chunk(data, old, i);
        assert(chunk.len() == 4);
        lemma_bytes_word_bytes(chunk);
        assert(packed[i] == word_of_bytes(chunk));
    }
    assert(unpack_bytes(packed, data.len()) =~= data);
}

/// `u32::from_ne_bytes`: the word whose memory holds the four bytes, in the
/// machine's own byte order.
#[verifier::external_body]
pub(crate) fn word_from_ne_bytes(b: [u8; 4]) -> (w: u32)
    ensures
        w == word_of_bytes(b@),
{
    u32::from_ne_bytes(b)
}

/// `u32::to_ne_bytes`: the four bytes of the word's memory, in the machine's
/// own byte order.
#[verifier::external_body]
pub(crate) fn word_to_ne_bytes(w: u32) -> (b: [u8; 4])
    ensures
        b@ == bytes_of_word(w),
{
    w.to_ne_bytes()
}

} // verus!
