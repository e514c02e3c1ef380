//! Machine words in byte buffers.
//!
//! An index image is laid out in the byte order of the machine. The casts
//! between bytes and words are those of `bytemuck`; the functions here state
//! what these casts do, byte by byte.

use vstd::endian::{endianness, Endian};
use vstd::prelude::*;

use crate::distance::{Vec14I, DIM, DIM_PAD};

verus! {

/// The bit patterns of a centroid's single-precision coordinates.
pub type Vec14Bits = [u32; DIM];

/// The word that the four bytes from `at` on hold.
pub open spec fn word_at(bytes: Seq<u8>, at: int) -> int {
    match endianness() {
        Endian::Little => bytes[at] + 0x100 * bytes[at + 1] + 0x1_0000 * bytes[at + 2]
            + 0x100_0000 * bytes[at + 3],
        Endian::Big => bytes[at + 3] + 0x100 * bytes[at + 2] + 0x1_0000 * bytes[at + 1]
            + 0x100_0000 * bytes[at],
    }
}

/// The signed lane, in two's complement, that the two bytes from `at` on hold.
pub open spec fn lane_at(bytes: Seq<u8>, at: int) -> int {
    let unsigned = match endianness() {
        Endian::Little => bytes[at] + 0x100 * bytes[at + 1],
        Endian::Big => bytes[at + 1] + 0x100 * bytes[at],
    };
    if unsigned < 0x8000 {
        unsigned
    } else {
        unsigned - 0x1_0000
    }
}

/// The bytes hold exactly these words.
pub open spec fn encodes_words(bytes: Seq<u8>, words: Seq<u32>) -> bool {
    &&& bytes.len() == 4 * words.len()
    &&& forall|i: int| 0 <= i < words.len() ==> #[trigger] words[i] == word_at(bytes, 4 * i)
}

/// The bytes hold exactly these centroids, each in fourteen words.
pub open spec fn encodes_centroids(bytes: Seq<u8>, rows: Seq<Vec14Bits>) -> bool {
    &&& bytes.len() == 56 * rows.len()
    &&& forall|r: int, c: int|
        0 <= r < rows.len() && 0 <= c < DIM ==> #[trigger] rows[r][c] == word_at(
            bytes,
            56 * r + 4 * c,
        )
}

/// The bytes hold exactly these quantized vectors, each in sixteen lanes.
pub open spec fn encodes_vectors(bytes: Seq<u8>, rows: Seq<Vec14I>) -> bool {
    &&& bytes.len() == 32 * rows.len()
    &&& forall|r: int, c: int|
        0 <= r < rows.len() && 0 <= c < DIM_PAD ==> #[trigger] rows[r][c] == lane_at(
            bytes,
            32 * r + 2 * c,
        )
}

/// A run of elements: in place where the bytes are suitably aligned, a copy
/// otherwise.
pub enum Section<'a, T> {
    Borrowed(&'a [T]),
    Owned(Vec<T>),
}

impl<'a, T> View for Section<'a, T> {
    type V = Seq<T>;

    open spec fn view(&self) -> Seq<T> {
        match self {
            Section::Borrowed(s) => s@,
            Section::Owned(v) => v@,
        }
    }
}

impl<'a, T> Section<'a, T> {
    /// The elements.
    pub fn as_slice(&self) -> (s: &[T])
        ensures
            s@ == self@,
    {
        match self {
            Section::Borrowed(s) => s,
            Section::Owned(v) => v.as_slice(),
        }
    }

    /// The number of elements.
    pub fn len(&self) -> (n: usize)
        ensures
            n == self@.len(),
    {
        self.as_slice().len()
    }
}

/// `bytemuck::try_cast_slice::<u8, u32>`: bytes seen in place as words. It
/// gives `None` for a length that is no multiple of four and for an unaligned
/// address. Where the bytes lie is not known, so success is not promised.
#[verifier::external_body]
fn try_cast_words<'a>(bytes: &'a [u8]) -> (r: Option<&'a [u32]>)
    ensures
        r matches Some(words) ==> encodes_words(bytes@, words@),
{
    bytemuck::try_cast_slice::<u8, u32>(bytes).ok()
}

/// `bytemuck::try_cast_slice::<u8, [u32; 14]>`: bytes seen in place as
/// centroids. It gives `None` for a length that is no multiple of a centroid's
/// and for an unaligned address. Where the bytes lie is not known, so success is
/// not promised.
#[verifier::external_body]
fn try_cast_centroids<'a>(bytes: &'a [u8]) -> (r: Option<&'a [Vec14Bits]>)
    ensures
        r matches Some(rows) ==> encodes_centroids(bytes@, rows@),
{
    bytemuck::try_cast_slice::<u8, Vec14Bits>(bytes).ok()
}

/// `bytemuck::try_cast_slice::<u8, [i16; 16]>`: bytes seen in place as
/// quantized vectors. It gives `None` for a length that is no multiple of a
/// vector's and for an unaligned address. Where the bytes lie is not known, so
/// success is not promised.
#[verifier::external_body]
fn try_cast_vectors<'a>(bytes: &'a [u8]) -> (r: Option<&'a [Vec14I]>)
    ensures
        r matches Some(rows) ==> encodes_vectors(bytes@, rows@),
{
    bytemuck::try_cast_slice::<u8, Vec14I>(bytes).ok()
}

/// `bytemuck::pod_collect_to_vec::<u8, u32>`: bytes copied into words. It has
/// no alignment demand, and pads a last incomplete word, which the length
/// condition rules out.
#[verifier::external_body]
fn collect_words(bytes: &[u8]) -> (words: Vec<u32>)
    requires
        bytes@.len() % 4 == 0,
    ensures
        encodes_words(bytes@, words@),
{
    bytemuck::pod_collect_to_vec::<u8, u32>(bytes)
}

/// `bytemuck::pod_collect_to_vec::<u8, [u32; 14]>`: bytes copied into
/// centroids, whole ones by the length condition.
#[verifier::external_body]
fn collect_centroids(bytes: &[u8]) -> (rows: Vec<Vec14Bits>)
    requires
        bytes@.len() % 56 == 0,
    ensures
        encodes_centroids(bytes@, rows@),
{
    bytemuck::pod_collect_to_vec::<u8, Vec14Bits>(bytes)
}

/// `bytemuck::pod_collect_to_vec::<u8, [i16; 16]>`: bytes copied into
/// quantized vectors, whole ones by the length condition.
#[verifier::external_body]
fn collect_vectors(bytes: &[u8]) -> (rows: Vec<Vec14I>)
    requires
        bytes@.len() % 32 == 0,
    ensures
        encodes_vectors(bytes@, rows@),
{
    bytemuck::pod_collect_to_vec::<u8, Vec14I>(bytes)
}

/// `bytemuck::cast_slice::<u32, u8>`: the bytes of words. Bytes need no
/// alignment and divide every length, so this cast does not fail.
#[verifier::external_body]
pub(crate) fn bytes_of_words(words: &[u32]) -> (bytes: &[u8])
    ensures
        encodes_words(bytes@, words@),
{
    bytemuck::cast_slice::<u32, u8>(words)
}

/// `bytemuck::cast_slice::<i16, u8>`: the bytes of a quantized vector. Bytes
/// need no alignment and divide every length, so this cast does not fail.
#[verifier::external_body]
pub(crate) fn bytes_of_vector(lanes: &Vec14I) -> (bytes: &[u8])
    ensures
        bytes@.len() == 32,
        forall|c: int| 0 <= c < DIM_PAD ==> #[trigger] lanes[c] == lane_at(bytes@, 2 * c),
{
    bytemuck::cast_slice::<i16, u8>(lanes)
}

/// Reads words.
pub fn read_words<'a>(bytes: &'a [u8]) -> (words: Section<'a, u32>)
    requires
        bytes@.len() % 4 == 0,
    ensures
        encodes_words(bytes@, words@),
{
    match try_cast_words(bytes) {
        Some(words) => Section::Borrowed(words),
        None => Section::Owned(collect_words(bytes)),
    }
}

/// Reads centroids.
pub fn read_centroids<'a>(bytes: &'a [u8]) -> (rows: Section<'a, Vec14Bits>)
    requires
        bytes@.len() % 56 == 0,
    ensures
        encodes_centroids(bytes@, rows@),
{
    match try_cast_centroids(bytes) {
        Some(rows) => Section::Borrowed(rows),
        None => Section::Owned(collect_centroids(bytes)),
    }
}

/// Reads quantized vectors.
pub fn read_vectors<'a>(bytes: &'a [u8]) -> (rows: Section<'a, Vec14I>)
    requires
        bytes@.len() % 32 == 0,
    ensures
        encodes_vectors(bytes@, rows@),
{
    match try_cast_vectors(bytes) {
        Some(rows) => Section::Borrowed(rows),
        None => Section::Owned(collect_vectors(bytes)),
    }
}

/// Bytes hold one run of words at most: two runs that the same bytes hold are
/// equal.
pub proof fn words_are_determined(bytes: Seq<u8>, a: Seq<u32>, b: Seq<u32>)
    requires
        encodes_words(bytes, a),
        encodes_words(bytes, b),
    ensures
        a == b,
{
    assert(a =~= b);
}

/// Bytes hold one run of centroids at most.
pub proof fn centroids_are_determined(bytes: Seq<u8>, a: Seq<Vec14Bits>, b: Seq<Vec14Bits>)
    requires
        encodes_centroids(bytes, a),
        encodes_centroids(bytes, b),
    ensures
        a == b,
{
    assert forall|r: int| 0 <= r < a.len() implies a[r] == b[r] by {
        assert forall|c: int| 0 <= c < DIM implies a[r][c] == b[r][c] by {}
        assert(a[r] =~= b[r]);
    }
    assert(a =~= b);
}

/// Bytes hold one run of quantized vectors at most.
pub proof fn vectors_are_determined(bytes: Seq<u8>, a: Seq<Vec14I>, b: Seq<Vec14I>)
    requires
        encodes_vectors(bytes, a),
        encodes_vectors(bytes, b),
    ensures
        a == b,
{
    assert forall|r: int| 0 <= r < a.len() implies a[r] == b[r] by {
        assert forall|c: int| 0 <= c < DIM_PAD implies a[r][c] == b[r][c] by {}
        assert(a[r] =~= b[r]);
    }
    assert(a =~= b);
}

/// A word takes its four bytes in the byte order of the machine, each worth 256
/// times the one below it.
pub proof fn words_weigh_their_bytes(bytes: Seq<u8>, at: int)
    ensures
        0 <= word_at(bytes, at) <= u32::MAX,
        endianness() == Endian::Little ==> {
            &&& word_at(bytes, at) % 256 == bytes[at]
            &&& word_at(bytes, at) / 256 % 256 == bytes[at + 1]
            &&& word_at(bytes, at) / 65536 % 256 == bytes[at + 2]
            &&& word_at(bytes, at) / 16777216 == bytes[at + 3]
        },
        endianness() == Endian::Big ==> {
            &&& word_at(bytes, at) % 256 == bytes[at + 3]
            &&& word_at(bytes, at) / 256 % 256 == bytes[at + 2]
            &&& word_at(bytes, at) / 65536 % 256 == bytes[at + 1]
            &&& word_at(bytes, at) / 16777216 == bytes[at]
        },
{
    match endianness() {
        Endian::Little => {
            lemma_four_bytes(bytes[at], bytes[at + 1], bytes[at + 2], bytes[at + 3]);
        },
        Endian::Big => {
            lemma_four_bytes(bytes[at + 3], bytes[at + 2], bytes[at + 1], bytes[at]);
        },
    }
}

proof fn lemma_four_bytes(a: u8, b: u8, c: u8, d: u8)
    ensures
        ({
            let w = a + 0x100 * b + 0x1_0000 * c + 0x100_0000 * d;
            &&& w <= u32::MAX
            &&& w % 256 == a
            &&& w / 256 % 256 == b
            &&& w / 65536 % 256 == c
            &&& w / 16777216 == d
        }),
{
    let w = a + 0x100 * b + 0x1_0000 * c + 0x100_0000 * d;
    lemma_split(w, 256, b + 256 * c + 65536 * d, a as int);
    lemma_split(b + 256 * c + 65536 * d, 256, c + 256 * d, b as int);
    lemma_split(w, 65536, c + 256 * d, a + 256 * b);
    lemma_split(c + 256 * d, 256, d as int, c as int);
    lemma_split(w, 16777216, d as int, a + 256 * b + 65536 * c);
}

/// Quotient and remainder.
proof fn lemma_split(w: int, m: int, high: int, low: int)
    requires
        0 <= low < m,
        w == high * m + low,
    ensures
        w / m == high,
        w % m == low,
{
    vstd::arithmetic::div_mod::lemma_fundamental_div_mod_converse(w, m, high, low);
}

/// A lane takes its two bytes in the byte order of the machine, in two's
/// complement.
pub proof fn lanes_weigh_their_bytes(bytes: Seq<u8>, at: int)
    ensures
        i16::MIN <= lane_at(bytes, at) <= i16::MAX,
        endianness() == Endian::Little ==> lane_at(bytes, at) % 65536 == bytes[at] + 256 * bytes[at
            + 1],
        endianness() == Endian::Big ==> lane_at(bytes, at) % 65536 == bytes[at + 1] + 256
            * bytes[at],
{
}

/// Words, centroids and vectors lie one behind the other, four bytes to a word,
/// fourteen words to a centroid, and sixteen lanes of two bytes to a vector.
pub proof fn elements_lie_one_behind_the_other(
    bytes: Seq<u8>,
    words: Seq<u32>,
    centroids: Seq<Vec14Bits>,
    vectors: Seq<Vec14I>,
)
    ensures
        encodes_words(bytes, words) <==> bytes.len() == 4 * words.len() && forall|i: int|
            0 <= i < words.len() ==> #[trigger] words[i] == word_at(bytes, 4 * i),
        encodes_centroids(bytes, centroids) <==> bytes.len() == 4 * 14 * centroids.len()
            && forall|r: int, c: int|
            0 <= r < centroids.len() && 0 <= c < 14 ==> #[trigger] centroids[r][c] == word_at(
                bytes,
                4 * 14 * r + 4 * c,
            ),
        encodes_vectors(bytes, vectors) <==> bytes.len() == 2 * 16 * vectors.len() && forall|
            r: int,
            c: int,
        |
            0 <= r < vectors.len() && 0 <= c < 16 ==> #[trigger] vectors[r][c] == lane_at(
                bytes,
                2 * 16 * r + 2 * c,
            ),
{
}

} // verus!
