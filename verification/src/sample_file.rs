//! The layout of a sample file: one 4-byte big-endian word per sample, with
//! a trailing partial word ignored.
use vstd::prelude::*;

verus! {

/// Bytes that encode one sample.
pub const ENCODED_NUM_BYTES: usize = 4;

/// The word that four bytes spell, most significant byte first.
pub open spec fn be_word(b0: u8, b1: u8, b2: u8, b3: u8) -> int {
    b0 * 16777216 + b1 * 65536 + b2 * 256 + b3
}

/// Byte `k` (0 is the most significant) of `w` in big-endian order.
pub open spec fn be_byte(w: u32, k: int) -> u8 {
    if k == 0 {
        (w / 16777216) as u8
    } else if k == 1 {
        ((w / 65536) % 256) as u8
    } else if k == 2 {
        ((w / 256) % 256) as u8
    } else {
        (w % 256) as u8
    }
}

/// The words that `bytes` encode: one per complete group of four bytes.
pub open spec fn decoded_words(bytes: Seq<u8>) -> Seq<u32> {
    Seq::new(
        bytes.len() / 4,
        |i: int| be_word(bytes[4 * i], bytes[4 * i + 1], bytes[4 * i + 2], bytes[4 * i + 3]) as u32,
    )
}

/// The bytes that encode `words`, four per word.
pub open spec fn encoded_words(words: Seq<u32>) -> Seq<u8> {
    Seq::new(words.len() * 4, |j: int| be_byte(words[j / 4], j % 4))
}

proof fn lemma_be_word_bits(b0: u8, b1: u8, b2: u8, b3: u8)
    ensures
        ((b0 as u32) << 24u32) | ((b1 as u32) << 16u32) | ((b2 as u32) << 8u32) | (b3 as u32)
            == be_word(b0, b1, b2, b3),
        be_word(b0, b1, b2, b3) <= u32::MAX,
{
    assert(((b0 as u32) << 24u32) | ((b1 as u32) << 16u32) | ((b2 as u32) << 8u32) | (b3 as u32)
        == b0 * 16777216 + b1 * 65536 + b2 * 256 + b3) by (bit_vector);
}

proof fn lemma_be_byte_bits(w: u32)
    ensures
        (w >> 24u32) as u8 == be_byte(w, 0),
        (w >> 16u32) as u8 == be_byte(w, 1),
        (w >> 8u32) as u8 == be_byte(w, 2),
        w as u8 == be_byte(w, 3),
{
    assert((w >> 24u32) as u8 == (w / 16777216) as u8) by (bit_vector);
    assert((w >> 16u32) as u8 == ((w / 65536) % 256) as u8) by (bit_vector);
    assert((w >> 8u32) as u8 == ((w / 256) % 256) as u8) by (bit_vector);
    assert(w as u8 == (w % 256) as u8) by (bit_vector);
}

proof fn lemma_word_bytes_word(w: u32)
    ensures
        be_word(be_byte(w, 0), be_byte(w, 1), be_byte(w, 2), be_byte(w, 3)) == w,
{
    assert(((w / 16777216) as u8) * 16777216 + (((w / 65536) % 256) as u8) * 65536 + (((w / 256)
        % 256) as u8) * 256 + ((w % 256) as u8) == w) by (bit_vector);
}

proof fn lemma_bytes_word_bytes(b0: u8, b1: u8, b2: u8, b3: u8)
    ensures
        be_byte(be_word(b0, b1, b2, b3) as u32, 0) == b0,
        be_byte(be_word(b0, b1, b2, b3) as u32, 1) == b1,
        be_byte(be_word(b0, b1, b2, b3) as u32, 2) == b2,
        be_byte(be_word(b0, b1, b2, b3) as u32, 3) == b3,
{
    lemma_be_word_bits(b0, b1, b2, b3);
    let w: u32 = ((b0 as u32) << 24u32) | ((b1 as u32) << 16u32) | ((b2 as u32) << 8u32) | (
    b3 as u32);
    assert((w / 16777216) as u8 == b0) by (bit_vector)
        requires
            w == ((b0 as u32) << 24u32) | ((b1 as u32) << 16u32) | ((b2 as u32) << 8u32) | (
            b3 as u32),
    ;
    assert(((w / 65536) % 256) as u8 == b1) by (bit_vector)
        requires
            w == ((b0 as u32) << 24u32) | ((b1 as u32) << 16u32) | ((b2 as u32) << 8u32) | (
            b3 as u32),
    ;
    assert(((w / 256) % 256) as u8 == b2) by (bit_vector)
        requires
            w == ((b0 as u32) << 24u32) | ((b1 as u32) << 16u32) | ((b2 as u32) << 8u32) | (
            b3 as u32),
    ;
    assert((w % 256) as u8 == b3) by (bit_vector)
        requires
            w == ((b0 as u32) << 24u32) | ((b1 as u32) << 16u32) | ((b2 as u32) << 8u32) | (
            b3 as u32),
    ;
}

/// Word `i` of a sample file is spelled by its bytes `4 * i .. 4 * i + 4`,
/// most significant first; the words come in file order.
pub proof fn lemma_decoded_word(bytes: Seq<u8>, i: int)
    requires
        0 <= i < bytes.len() / 4,
    ensures
        decoded_words(bytes).len() == bytes.len() / 4,
        decoded_words(bytes)[i] == bytes[4 * i] * 16777216 + bytes[4 * i + 1] * 65536 + bytes[4 * i
            + 2] * 256 + bytes[4 * i + 3],
{
    lemma_be_word_bits(bytes[4 * i], bytes[4 * i + 1], bytes[4 * i + 2], bytes[4 * i + 3]);
}

/// Byte `4 * i + k` of an encoded file is byte `k` of word `i`, most
/// significant first; the words are written in order.
pub proof fn lemma_encoded_byte(words: Seq<u32>, i: int, k: int)
    requires
        0 <= i < words.len(),
        0 <= k < 4,
    ensures
        encoded_words(words).len() == 4 * words.len(),
        encoded_words(words)[4 * i + k] == (if k == 0 {
            words[i] / 16777216
        } else if k == 1 {
            (words[i] / 65536) % 256
        } else if k == 2 {
            (words[i] / 256) % 256
        } else {
            words[i] % 256
        }),
{
    let w = words[i];
    assert((4 * i + k) / 4 == i);
    assert((4 * i + k) % 4 == k);
    assert(w / 16777216 < 256);
}

/// Decodes the samples of a sample file as words; a trailing partial word is
/// ignored.
pub fn decode_be_words(bytes: &[u8]) -> (words: Vec<u32>)
    ensures
        words@ == decoded_words(bytes@),
        words@.len() == bytes@.len() / 4,
        forall|i: int|
            0 <= i < bytes@.len() / 4 ==> #[trigger] words@[i] == bytes@[4 * i] * 16777216 + bytes@[4
                * i + 1] * 65536 + bytes@[4 * i + 2] * 256 + bytes@[4 * i + 3],
{
    let len = bytes.len();
    let n = len / ENCODED_NUM_BYTES;
    let mut words: Vec<u32> = Vec::with_capacity(n);
    let mut i: usize = 0;
    while i < n
        invariant
            len == bytes@.len(),
            n == bytes@.len() / 4,
            i <= n,
            words@.len() == i,
            forall|k: int| 0 <= k < i ==> #[trigger] words@[k] == decoded_words(bytes@)[k],
        decreases n - i,
    {
        assert(i * 4 + 4 <= bytes@.len());
        let base = i * ENCODED_NUM_BYTES;
        let b0 = bytes[base];
        let b1 = bytes[base + 1];
        let b2 = bytes[base + 2];
        let b3 = bytes[base + 3];
        proof {
            lemma_be_word_bits(b0, b1, b2, b3);
        }
        let w: u32 = ((b0 as u32) << 24u32) | ((b1 as u32) << 16u32) | ((b2 as u32) << 8u32) | (
        b3 as u32);
        words.push(w);
        i = i + 1;
    }
    assert(words@ =~= decoded_words(bytes@));
    proof {
        assert forall|i: int| 0 <= i < bytes@.len() / 4 implies #[trigger] words@[i] == bytes@[4 * i]
            * 16777216 + bytes@[4 * i + 1] * 65536 + bytes@[4 * i + 2] * 256 + bytes@[4 * i + 3] by {
            lemma_decoded_word(bytes@, i);
        }
    }
    words
}

/// Encodes words as the bytes of a sample file, four per word.
pub fn encode_be_words(words: &[u32]) -> (bytes: Vec<u8>)
    requires
        words@.len() * 4 <= usize::MAX,
    ensures
        bytes@ == encoded_words(words@),
        bytes@.len() == 4 * words@.len(),
        forall|j: int|
            0 <= j < 4 * words@.len() ==> #[trigger] bytes@[j] == (if j % 4 == 0 {
                words@[j / 4] / 16777216
            } else if j % 4 == 1 {
                (words@[j / 4] / 65536) % 256
            } else if j % 4 == 2 {
                (words@[j / 4] / 256) % 256
            } else {
                words@[j / 4] % 256
            }),
{
    let mut bytes: Vec<u8> = Vec::with_capacity(words.len() * ENCODED_NUM_BYTES);
    let mut i: usize = 0;
    while i < words.len()
        invariant
            words@.len() * 4 <= usize::MAX,
            i <= words@.len(),
            bytes@.len() == 4 * i,
            forall|j: int| 0 <= j < 4 * i ==> #[trigger] bytes@[j] == encoded_words(words@)[j],
        decreases words@.len() - i,
    {
        let w = words[i];
        proof {
            lemma_be_byte_bits(w);
        }
        bytes.push((w >> 24u32) as u8);
        bytes.push((w >> 16u32) as u8);
        bytes.push((w >> 8u32) as u8);
        bytes.push(w as u8);
        assert forall|j: int| 0 <= j < 4 * (i + 1) implies #[trigger] bytes@[j] == encoded_words(
            words@,
        )[j] by {
            if j >= 4 * i {
                assert(j / 4 == i as int);
                assert(j % 4 == j - 4 * i);
            }
        }
        i = i + 1;
    }
    assert(bytes@ =~= encoded_words(words@));
    proof {
        assert forall|j: int| 0 <= j < 4 * words@.len() implies #[trigger] bytes@[j] == (if j % 4 == 0 {
            words@[j / 4] / 16777216
        } else if j % 4 == 1 {
            (words@[j / 4] / 65536) % 256
        } else if j % 4 == 2 {
            (words@[j / 4] / 256) % 256
        } else {
            words@[j / 4] % 256
        }) by {
            lemma_encoded_byte(words@, j / 4, j % 4);
        }
    }
    bytes
}

/// Encoding words and decoding the bytes gives the words back.
pub proof fn lemma_decode_encode(words: Seq<u32>)
    ensures
        decoded_words(encoded_words(words)) == words,
{
    let e = encoded_words(words);
    assert(e.len() / 4 == words.len());
    assert forall|i: int| 0 <= i < words.len() implies #[trigger] decoded_words(e)[i] == words[i] by {
        assert((4 * i) / 4 == i && (4 * i + 1) / 4 == i && (4 * i + 2) / 4 == i && (4 * i + 3) / 4
            == i);
        assert((4 * i) % 4 == 0 && (4 * i + 1) % 4 == 1 && (4 * i + 2) % 4 == 2 && (4 * i + 3) % 4
            == 3);
        lemma_word_bytes_word(words[i]);
    }
    assert(decoded_words(e) =~= words);
}

/// Decoding bytes and encoding the words gives the bytes back, without a
/// trailing partial word.
pub proof fn lemma_encode_decode(bytes: Seq<u8>)
    ensures
        encoded_words(decoded_words(bytes)) == bytes.take(((bytes.len() / 4) * 4) as int),
{
    let d = decoded_words(bytes);
    let t = bytes.take(((bytes.len() / 4) * 4) as int);
    assert forall|j: int| 0 <= j < t.len() implies #[trigger] encoded_words(d)[j] == t[j] by {
        let i = j / 4;
        let k = j % 4;
        assert(j == 4 * i + k);
        lemma_bytes_word_bytes(bytes[4 * i], bytes[4 * i + 1], bytes[4 * i + 2], bytes[4 * i + 3]);
    }
    assert(encoded_words(d) =~= t);
}

} // verus!
