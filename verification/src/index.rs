//! The index image: a header, the centroids, the cluster offsets, the quantized
//! vectors and the fraud labels, one after the other.

use vstd::prelude::*;
use vstd::slice::slice_subrange;

use crate::distance::{Vec14I, DIM, DIM_PAD};
use crate::words::{
    bytes_of_vector, bytes_of_words, encodes_centroids, encodes_vectors, encodes_words, lane_at,
    read_centroids, read_vectors, read_words, word_at, Section, Vec14Bits,
};
use crate::words::{centroids_are_determined, vectors_are_determined, words_are_determined};

verus! {

/// The first word of every image.
pub const INDEX_MAGIC: u32 = 0x5249_4E48;

/// The layout that this library reads and writes.
pub const INDEX_VERSION: u32 = 2;

/// Bytes of the header.
pub const HEADER_LEN: usize = 32;

/// The head of an image.
#[derive(Copy, Clone, Debug)]
pub struct IndexHeader {
    pub magic: u32,
    pub version: u32,
    pub n_vectors: u32,
    pub n_centroids: u32,
    pub dim: u32,
    pub _pad: [u32; 3],
}

impl IndexHeader {
    /// The header's words, in the order in which they are stored.
    pub open spec fn spec_words(self) -> Seq<u32> {
        seq![
            self.magic,
            self.version,
            self.n_vectors,
            self.n_centroids,
            self.dim,
            self._pad[0],
            self._pad[1],
            self._pad[2],
        ]
    }

    /// The header's words, in the order in which they are stored.
    pub fn words(&self) -> (w: [u32; 8])
        ensures
            w@ == self.spec_words(),
    {
        let w: [u32; 8] = [
            self.magic,
            self.version,
            self.n_vectors,
            self.n_centroids,
            self.dim,
            self._pad[0],
            self._pad[1],
            self._pad[2],
        ];
        assert(w@ =~= self.spec_words());
        w
    }

    /// The header that eight stored words form.
    pub fn from_words(w: &[u32]) -> (header: IndexHeader)
        requires
            w@.len() == 8,
        ensures
            header.spec_words() == w@,
    {
        let header = IndexHeader {
            magic: w[0],
            version: w[1],
            n_vectors: w[2],
            n_centroids: w[3],
            dim: w[4],
            _pad: [w[5], w[6], w[7]],
        };
        assert(header.spec_words() =~= w@);
        header
    }
}

/// The number of vectors that an image's header announces.
pub open spec fn announced_vectors(bytes: Seq<u8>) -> int {
    word_at(bytes, 8)
}

/// The number of centroids that an image's header announces.
pub open spec fn announced_centroids(bytes: Seq<u8>) -> int {
    word_at(bytes, 12)
}

/// Why bytes are no image of this layout, as far as the header tells.
pub open spec fn header_error(bytes: Seq<u8>) -> Option<Seq<char>> {
    if bytes.len() < HEADER_LEN {
        Some("index file too small for header"@)
    } else if word_at(bytes, 0) != INDEX_MAGIC {
        Some("invalid index magic"@)
    } else if word_at(bytes, 4) != INDEX_VERSION {
        Some("unsupported index version"@)
    } else if word_at(bytes, 16) != DIM {
        Some("index dimension mismatch"@)
    } else {
        None
    }
}

/// Where the offsets start, after `k` centroids.
pub open spec fn offsets_at(k: int) -> int {
    HEADER_LEN + 56 * k
}

/// Where the vectors start.
pub open spec fn vectors_at(k: int) -> int {
    offsets_at(k) + 4 * (k + 1)
}

/// Where the labels start, after `n` vectors.
pub open spec fn labels_at(k: int, n: int) -> int {
    vectors_at(k) + 32 * n
}

/// The length of an image of `k` centroids and `n` vectors.
pub open spec fn image_len(k: int, n: int) -> int {
    labels_at(k, n) + (n + 7) / 8
}

/// An accepted header is followed by at least the bytes it announces.
pub open spec fn is_whole(bytes: Seq<u8>) -> bool {
    header_error(bytes) is None ==> image_len(
        announced_centroids(bytes),
        announced_vectors(bytes),
    ) <= bytes.len()
}

/// The bytes are the header, followed by these sections and nothing else.
pub open spec fn is_image(
    bytes: Seq<u8>,
    header: IndexHeader,
    centroids: Seq<Vec14Bits>,
    offsets: Seq<u32>,
    vectors: Seq<Vec14I>,
    labels: Seq<u8>,
) -> bool {
    let a = HEADER_LEN as int;
    let b = a + 56 * centroids.len();
    let c = b + 4 * offsets.len();
    let d = c + 32 * vectors.len();
    &&& bytes.len() == d + labels.len()
    &&& encodes_words(bytes.subrange(0, a), header.spec_words())
    &&& encodes_centroids(bytes.subrange(a, b), centroids)
    &&& encodes_words(bytes.subrange(b, c), offsets)
    &&& encodes_vectors(bytes.subrange(c, d), vectors)
    &&& bytes.skip(d) == labels
}

/// An index, read from an image. A centroid stands as the bit patterns of its
/// coordinates.
pub struct IndexView<'a> {
    pub centroids: Section<'a, Vec14Bits>,
    pub offsets: Section<'a, u32>,
    pub vectors: Section<'a, Vec14I>,
    pub labels: &'a [u8],
}

impl<'a> IndexView<'a> {
    /// One offset more than centroids, and a label bit for every vector; both
    /// counts fit a word.
    pub open spec fn wf(&self) -> bool {
        &&& self.centroids@.len() <= u32::MAX
        &&& self.vectors@.len() <= u32::MAX
        &&& self.offsets@.len() == self.centroids@.len() + 1
        &&& self.labels@.len() == (self.vectors@.len() + 7) / 8
    }

    /// The index is what the image holds.
    pub open spec fn reads(&self, bytes: Seq<u8>) -> bool {
        let k = announced_centroids(bytes);
        let n = announced_vectors(bytes);
        &&& encodes_centroids(bytes.subrange(HEADER_LEN as int, offsets_at(k)), self.centroids@)
        &&& encodes_words(bytes.subrange(offsets_at(k), vectors_at(k)), self.offsets@)
        &&& encodes_vectors(bytes.subrange(vectors_at(k), labels_at(k, n)), self.vectors@)
        &&& self.labels@ == bytes.subrange(labels_at(k, n), image_len(k, n))
    }

    /// Reads an image. Bytes behind it are left alone.
    pub fn from_bytes(bytes: &'a [u8]) -> (r: Result<Self, &'static str>)
        requires
            is_whole(bytes@),
        ensures
            match header_error(bytes@) {
                Some(message) => r matches Err(e) && e@ == message,
                None => r matches Ok(view) && view.wf() && view.reads(bytes@),
            },
    {
        if bytes.len() < HEADER_LEN {
            return Err("index file too small for header");
        }
        let header = read_header(bytes);
        if header.magic != INDEX_MAGIC {
            return Err("invalid index magic");
        }
        if header.version != INDEX_VERSION {
            return Err("unsupported index version");
        }
        if header.dim as usize != DIM {
            return Err("index dimension mismatch");
        }
        Ok(read_sections(bytes, header.n_centroids as usize, header.n_vectors as usize))
    }
}

/// Reads the sections of an image of `k` centroids and `n` vectors.
fn read_sections<'a>(bytes: &'a [u8], k: usize, n: usize) -> (view: IndexView<'a>)
    requires
        image_len(k as int, n as int) <= bytes@.len(),
        k <= u32::MAX,
        n <= u32::MAX,
    ensures
        view.wf(),
        encodes_centroids(
            bytes@.subrange(HEADER_LEN as int, offsets_at(k as int)),
            view.centroids@,
        ),
        encodes_words(
            bytes@.subrange(offsets_at(k as int), vectors_at(k as int)),
            view.offsets@,
        ),
        encodes_vectors(
            bytes@.subrange(vectors_at(k as int), labels_at(k as int, n as int)),
            view.vectors@,
        ),
        view.labels@ == bytes@.subrange(
            labels_at(k as int, n as int),
            image_len(k as int, n as int),
        ),
{
    assert(bytes.len() == bytes@.len());
    let mut off: usize = HEADER_LEN;
    let centroids_bytes: usize = k * 56;
    let centroids = read_centroids(slice_subrange(bytes, off, off + centroids_bytes));
    off += centroids_bytes;

    let offsets_bytes: usize = (k + 1) * 4;
    let offsets = read_words(slice_subrange(bytes, off, off + offsets_bytes));
    off += offsets_bytes;

    let vectors_bytes: usize = n * 32;
    let vectors = read_vectors(slice_subrange(bytes, off, off + vectors_bytes));
    off += vectors_bytes;

    let labels_bytes: usize = (n + 7) / 8;
    let labels = slice_subrange(bytes, off, off + labels_bytes);

    IndexView { centroids, offsets, vectors, labels }
}

/// Reads the header of an image.
fn read_header(bytes: &[u8]) -> (header: IndexHeader)
    requires
        bytes@.len() >= HEADER_LEN,
    ensures
        header.magic == word_at(bytes@, 0),
        header.version == word_at(bytes@, 4),
        header.n_vectors == word_at(bytes@, 8),
        header.n_centroids == word_at(bytes@, 12),
        header.dim == word_at(bytes@, 16),
{
    let head = slice_subrange(bytes, 0, HEADER_LEN);
    let words = read_words(head);
    let header = IndexHeader::from_words(words.as_slice());
    proof {
        let w = header.spec_words();
        assert(w[0] == word_at(head@, 0));
        assert(w[1] == word_at(head@, 4));
        assert(w[2] == word_at(head@, 8));
        assert(w[3] == word_at(head@, 12));
        assert(w[4] == word_at(head@, 16));
    }
    header
}

/// Whether an accepted header is followed by all the bytes it announces; no
/// demand is made of bytes whose header is rejected.
pub fn is_complete(bytes: &[u8]) -> (r: bool)
    ensures
        r == is_whole(bytes@),
{
    if bytes.len() < HEADER_LEN {
        return true;
    }
    let header = read_header(bytes);
    if header.magic != INDEX_MAGIC || header.version != INDEX_VERSION || header.dim as usize != DIM {
        return true;
    }
    let n: u64 = header.n_vectors as u64;
    let k: u64 = header.n_centroids as u64;
    let need: u64 = 32 + 56 * k + 4 * (k + 1) + 32 * n + (n + 7) / 8;
    need <= bytes.len() as u64
}

/// `after` is `before` with something appended that holds the centroids.
spec fn appends_centroids(before: Seq<u8>, after: Seq<u8>, rows: Seq<Vec14Bits>) -> bool {
    &&& after.len() == before.len() + 56 * rows.len()
    &&& after.take(before.len() as int) == before
    &&& encodes_centroids(after.skip(before.len() as int), rows)
}

/// `after` is `before` with something appended that holds the vectors.
spec fn appends_vectors(before: Seq<u8>, after: Seq<u8>, rows: Seq<Vec14I>) -> bool {
    &&& after.len() == before.len() + 32 * rows.len()
    &&& after.take(before.len() as int) == before
    &&& encodes_vectors(after.skip(before.len() as int), rows)
}

/// Appends bytes.
fn append(out: &mut Vec<u8>, bytes: &[u8])
    ensures
        final(out)@ == old(out)@ + bytes@,
{
    out.extend_from_slice(bytes);
    assert(out@ =~= old(out)@ + bytes@);
}

fn append_centroids(out: &mut Vec<u8>, rows: &[Vec14Bits])
    ensures
        appends_centroids(old(out)@, final(out)@, rows@),
{
    let ghost before = out@;
    assert(before.take(before.len() as int) =~= before);
    for i in 0..rows.len()
        invariant
            appends_centroids(before, out@, rows@.take(i as int)),
    {
        let ghost so_far = out@;
        let bytes = bytes_of_words(&rows[i]);
        append(out, bytes);
        proof {
            let old_tail = so_far.skip(before.len() as int);
            let tail = out@.skip(before.len() as int);
            let done = rows@.take(i + 1);
            assert(out@.take(before.len() as int) =~= before);
            assert forall|r: int, c: int|
                0 <= r < done.len() && 0 <= c < DIM implies #[trigger] done[r][c] == word_at(
                tail,
                56 * r + 4 * c,
            ) by {
                if r < i {
                    assert(rows@.take(i as int)[r][c] == word_at(old_tail, 56 * r + 4 * c));
                } else {
                    assert(rows@[i as int]@[c] == word_at(bytes@, 4 * c));
                }
            }
        }
    }
    assert(rows@.take(rows@.len() as int) =~= rows@);
}

fn append_vectors(out: &mut Vec<u8>, rows: &[Vec14I])
    ensures
        appends_vectors(old(out)@, final(out)@, rows@),
{
    let ghost before = out@;
    assert(before.take(before.len() as int) =~= before);
    for i in 0..rows.len()
        invariant
            appends_vectors(before, out@, rows@.take(i as int)),
    {
        let ghost so_far = out@;
        let bytes = bytes_of_vector(&rows[i]);
        append(out, bytes);
        proof {
            let old_tail = so_far.skip(before.len() as int);
            let tail = out@.skip(before.len() as int);
            let done = rows@.take(i + 1);
            assert(out@.take(before.len() as int) =~= before);
            assert forall|r: int, c: int|
                0 <= r < done.len() && 0 <= c < DIM_PAD implies #[trigger] done[r][c] == lane_at(
                tail,
                32 * r + 2 * c,
            ) by {
                if r < i {
                    assert(rows@.take(i as int)[r][c] == lane_at(old_tail, 32 * r + 2 * c));
                } else {
                    assert(rows@[i as int][c] == lane_at(bytes@, 2 * c));
                }
            }
        }
    }
    assert(rows@.take(rows@.len() as int) =~= rows@);
}

/// The header that is written for `n_vectors` vectors in `n_centroids` clusters.
pub open spec fn new_header(n_centroids: u32, n_vectors: u32) -> IndexHeader {
    IndexHeader {
        magic: INDEX_MAGIC,
        version: INDEX_VERSION,
        n_vectors,
        n_centroids,
        dim: DIM as u32,
        _pad: [0, 0, 0],
    }
}

/// Writes the image of an index.
pub fn encode_index(
    n_centroids: u32,
    centroids: &[Vec14Bits],
    offsets: &[u32],
    vectors: &[Vec14I],
    labels: &[u8],
) -> (bytes: Vec<u8>)
    requires
        vectors@.len() <= u32::MAX,
    ensures
        is_image(
            bytes@,
            new_header(n_centroids, vectors@.len() as u32),
            centroids@,
            offsets@,
            vectors@,
            labels@,
        ),
{
    let header = IndexHeader {
        magic: INDEX_MAGIC,
        version: INDEX_VERSION,
        n_vectors: vectors.len() as u32,
        n_centroids,
        dim: DIM as u32,
        _pad: [0, 0, 0],
    };
    let mut bytes: Vec<u8> = Vec::new();
    let header_words = header.words();
    append(&mut bytes, bytes_of_words(&header_words));
    let ghost s0 = bytes@;
    append_centroids(&mut bytes, centroids);
    let ghost s1 = bytes@;
    append(&mut bytes, bytes_of_words(offsets));
    let ghost s2 = bytes@;
    append_vectors(&mut bytes, vectors);
    let ghost s3 = bytes@;
    append(&mut bytes, labels);
    proof {
        let a = s0.len() as int;
        let b = s1.len() as int;
        let c = s2.len() as int;
        let d = s3.len() as int;
        assert forall|i: int| 0 <= i < c implies bytes@[i] == s2[i] by {
            assert(s3.take(c)[i] == s2[i]);
        }
        assert forall|i: int| 0 <= i < b implies bytes@[i] == s1[i] by {
            assert(s2[i] == s1[i]);
        }
        assert forall|i: int| 0 <= i < a implies bytes@[i] == s0[i] by {
            assert(s1.take(a)[i] == s0[i]);
        }
        assert(bytes@.subrange(0, a) =~= s0);
        assert(bytes@.subrange(a, b) =~= s1.skip(a));
        assert(bytes@.subrange(b, c) =~= s2.skip(b));
        assert(bytes@.subrange(c, d) =~= s3.skip(c));
        assert(bytes@.skip(d) =~= labels@);
    }
    bytes
}

/// An image written of as many centroids as its header announces, with an offset
/// more, and a label bit for every vector, is accepted by the reader.
pub proof fn written_images_are_accepted(
    bytes: Seq<u8>,
    n_centroids: u32,
    centroids: Seq<Vec14Bits>,
    offsets: Seq<u32>,
    vectors: Seq<Vec14I>,
    labels: Seq<u8>,
)
    requires
        vectors.len() <= u32::MAX,
        centroids.len() == n_centroids,
        offsets.len() == n_centroids + 1,
        labels.len() == (vectors.len() + 7) / 8,
        is_image(
            bytes,
            new_header(n_centroids, vectors.len() as u32),
            centroids,
            offsets,
            vectors,
            labels,
        ),
    ensures
        header_error(bytes) is None,
        is_whole(bytes),
        announced_centroids(bytes) == n_centroids,
        announced_vectors(bytes) == vectors.len(),
{
    let header = new_header(n_centroids, vectors.len() as u32);
    let w = header.spec_words();
    let head = bytes.subrange(0, 32);
    assert(w[0] == word_at(head, 0));
    assert(w[1] == word_at(head, 4));
    assert(w[2] == word_at(head, 8));
    assert(w[3] == word_at(head, 12));
    assert(w[4] == word_at(head, 16));
}

/// Reading gives back what was written: an index read from such an image holds
/// the same centroids, offsets, vectors and labels.
pub proof fn reading_gives_back_what_was_written(
    bytes: Seq<u8>,
    n_centroids: u32,
    centroids: Seq<Vec14Bits>,
    offsets: Seq<u32>,
    vectors: Seq<Vec14I>,
    labels: Seq<u8>,
    view: IndexView,
)
    requires
        vectors.len() <= u32::MAX,
        centroids.len() == n_centroids,
        offsets.len() == n_centroids + 1,
        labels.len() == (vectors.len() + 7) / 8,
        is_image(
            bytes,
            new_header(n_centroids, vectors.len() as u32),
            centroids,
            offsets,
            vectors,
            labels,
        ),
        view.reads(bytes),
    ensures
        view.centroids@ == centroids,
        view.offsets@ == offsets,
        view.vectors@ == vectors,
        view.labels@ == labels,
{
    written_images_are_accepted(bytes, n_centroids, centroids, offsets, vectors, labels);
    let k = n_centroids as int;
    let n = vectors.len() as int;
    centroids_are_determined(
        bytes.subrange(HEADER_LEN as int, offsets_at(k)),
        view.centroids@,
        centroids,
    );
    words_are_determined(bytes.subrange(offsets_at(k), vectors_at(k)), view.offsets@, offsets);
    vectors_are_determined(
        bytes.subrange(vectors_at(k), labels_at(k, n)),
        view.vectors@,
        vectors,
    );
    assert(bytes.skip(labels_at(k, n)) =~= bytes.subrange(labels_at(k, n), image_len(k, n)));
}

/// What two readings of the same bytes hold is the same.
pub proof fn readings_of_an_image_agree(bytes: Seq<u8>, a: IndexView, b: IndexView)
    requires
        a.reads(bytes),
        b.reads(bytes),
    ensures
        a.centroids@ == b.centroids@,
        a.offsets@ == b.offsets@,
        a.vectors@ == b.vectors@,
        a.labels@ == b.labels@,
{
    let k = announced_centroids(bytes);
    let n = announced_vectors(bytes);
    centroids_are_determined(
        bytes.subrange(HEADER_LEN as int, offsets_at(k)),
        a.centroids@,
        b.centroids@,
    );
    words_are_determined(bytes.subrange(offsets_at(k), vectors_at(k)), a.offsets@, b.offsets@);
    vectors_are_determined(
        bytes.subrange(vectors_at(k), labels_at(k, n)),
        a.vectors@,
        b.vectors@,
    );
}

/// The words of a header stand in the order magic, version, vectors, centroids,
/// dimensions, padding.
pub proof fn header_words_have_their_places(header: IndexHeader)
    ensures
        header.spec_words().len() == 8,
        header.spec_words()[0] == header.magic,
        header.spec_words()[1] == header.version,
        header.spec_words()[2] == header.n_vectors,
        header.spec_words()[3] == header.n_centroids,
        header.spec_words()[4] == header.dim,
        header.spec_words()[5] == header._pad[0],
        header.spec_words()[6] == header._pad[1],
        header.spec_words()[7] == header._pad[2],
{
}

/// A header is accepted exactly if it is all there and its first, second and
/// fifth word are the magic, the version and the number of dimensions; otherwise
/// the first of these that fails is named.
pub proof fn headers_are_judged_by_length_and_three_words(bytes: Seq<u8>)
    ensures
        header_error(bytes) is None <==> bytes.len() >= 32 && word_at(bytes, 0) == 0x5249_4E48
            && word_at(bytes, 4) == 2 && word_at(bytes, 16) == 14,
        bytes.len() < 32 <==> header_error(bytes) == Some("index file too small for header"@),
        bytes.len() >= 32 && word_at(bytes, 0) != 0x5249_4E48 <==> header_error(bytes) == Some(
            "invalid index magic"@,
        ),
        bytes.len() >= 32 && word_at(bytes, 0) == 0x5249_4E48 && word_at(bytes, 4) != 2
            <==> header_error(bytes) == Some("unsupported index version"@),
        bytes.len() >= 32 && word_at(bytes, 0) == 0x5249_4E48 && word_at(bytes, 4) == 2 && word_at(
            bytes,
            16,
        ) != 14 <==> header_error(bytes) == Some("index dimension mismatch"@),
{
    reveal_strlit("index file too small for header");
    reveal_strlit("invalid index magic");
    reveal_strlit("unsupported index version");
    reveal_strlit("index dimension mismatch");
    assert("index file too small for header"@.len() == 31);
    assert("invalid index magic"@.len() == 19);
    assert("unsupported index version"@.len() == 25);
    assert("index dimension mismatch"@.len() == 24);
}

/// The length of an image: a header of 32 bytes and one offset; for every
/// centroid its 56 bytes and an offset; for every vector 32 bytes and a label bit
/// in as few bytes as will do. An accepted header asks for that much.
pub proof fn images_have_their_length(bytes: Seq<u8>, k: int, n: int)
    requires
        0 <= k,
        0 <= n,
    ensures
        image_len(0, 0) == 36,
        image_len(k + 1, n) == image_len(k, n) + 60,
        image_len(k, n + 1) == image_len(k, n) + 32 + if n % 8 == 0 {
            1int
        } else {
            0
        },
        is_whole(bytes) <==> (header_error(bytes) is Some || image_len(
            word_at(bytes, 12),
            word_at(bytes, 8),
        ) <= bytes.len()),
{
}

/// An index holds what the image holds at these places: the centroids behind the
/// header, then the offsets, the vectors and the labels, as many as the header's
/// third and fourth word say.
pub proof fn sections_lie_where_the_header_says(bytes: Seq<u8>, view: IndexView)
    requires
        header_error(bytes) is None,
        is_whole(bytes),
        view.reads(bytes),
    ensures
        ({
            let n = word_at(bytes, 8);
            let k = word_at(bytes, 12);
            &&& view.centroids@.len() == k
            &&& view.offsets@.len() == k + 1
            &&& view.vectors@.len() == n
            &&& view.labels@.len() == (n + 7) / 8
            &&& forall|r: int, c: int|
                0 <= r < k && 0 <= c < 14 ==> #[trigger] view.centroids@[r][c] == word_at(
                    bytes,
                    32 + 56 * r + 4 * c,
                )
            &&& forall|i: int|
                0 <= i <= k ==> #[trigger] view.offsets@[i] == word_at(bytes, 32 + 56 * k + 4 * i)
            &&& forall|r: int, c: int|
                0 <= r < n && 0 <= c < 16 ==> #[trigger] view.vectors@[r][c] == lane_at(
                    bytes,
                    36 + 60 * k + 32 * r + 2 * c,
                )
            &&& forall|i: int|
                0 <= i < (n + 7) / 8 ==> #[trigger] view.labels@[i] == bytes[36 + 60 * k + 32 * n
                    + i]
        }),
{
    let n = word_at(bytes, 8);
    let k = word_at(bytes, 12);
    let cs = bytes.subrange(HEADER_LEN as int, offsets_at(k));
    let os = bytes.subrange(offsets_at(k), vectors_at(k));
    let vs = bytes.subrange(vectors_at(k), labels_at(k, n));
    assert(0 <= n && 0 <= k);
    assert(encodes_centroids(cs, view.centroids@));
    assert(encodes_words(os, view.offsets@));
    assert(encodes_vectors(vs, view.vectors@));
    assert(view.centroids@.len() == k);
    assert(view.offsets@.len() == k + 1);
    assert(view.vectors@.len() == n);
    assert forall|r: int, c: int| 0 <= r < k && 0 <= c < 14 implies #[trigger] view.centroids@[r][c]
        == word_at(bytes, 32 + 56 * r + 4 * c) by {
        assert(view.centroids@[r][c] == word_at(cs, 56 * r + 4 * c));
    }
    assert forall|i: int| 0 <= i <= k implies #[trigger] view.offsets@[i] == word_at(
        bytes,
        32 + 56 * k + 4 * i,
    ) by {
        assert(view.offsets@[i] == word_at(os, 4 * i));
    }
    assert forall|r: int, c: int| 0 <= r < n && 0 <= c < 16 implies #[trigger] view.vectors@[r][c]
        == lane_at(bytes, 36 + 60 * k + 32 * r + 2 * c) by {
        assert(view.vectors@[r][c] == lane_at(vs, 32 * r + 2 * c));
    }
}

/// An image is written in this order: the eight words of the header, the
/// centroids, the offsets, the vectors, and the labels up to the end.
pub proof fn images_are_written_in_order(
    bytes: Seq<u8>,
    n_centroids: u32,
    n_vectors: u32,
    centroids: Seq<Vec14Bits>,
    offsets: Seq<u32>,
    vectors: Seq<Vec14I>,
    labels: Seq<u8>,
)
    requires
        is_image(
            bytes,
            new_header(n_centroids, n_vectors),
            centroids,
            offsets,
            vectors,
            labels,
        ),
    ensures
        ({
            let b = 32 + 56 * centroids.len();
            let c = b + 4 * offsets.len();
            let d = c + 32 * vectors.len();
            &&& bytes.len() == d + labels.len()
            &&& word_at(bytes, 0) == 0x5249_4E48
            &&& word_at(bytes, 4) == 2
            &&& word_at(bytes, 8) == n_vectors
            &&& word_at(bytes, 12) == n_centroids
            &&& word_at(bytes, 16) == 14
            &&& word_at(bytes, 20) == 0
            &&& word_at(bytes, 24) == 0
            &&& word_at(bytes, 28) == 0
            &&& forall|r: int, i: int|
                0 <= r < centroids.len() && 0 <= i < 14 ==> #[trigger] centroids[r][i] == word_at(
                    bytes,
                    32 + 56 * r + 4 * i,
                )
            &&& forall|i: int|
                0 <= i < offsets.len() ==> #[trigger] offsets[i] == word_at(bytes, b + 4 * i)
            &&& forall|r: int, i: int|
                0 <= r < vectors.len() && 0 <= i < 16 ==> #[trigger] vectors[r][i] == lane_at(
                    bytes,
                    c + 32 * r + 2 * i,
                )
            &&& forall|i: int| 0 <= i < labels.len() ==> #[trigger] labels[i] == bytes[d + i]
        }),
{
    let b: int = 32 + 56 * centroids.len() as int;
    let c: int = b + 4 * offsets.len();
    let d: int = c + 32 * vectors.len();
    let w = new_header(n_centroids, n_vectors).spec_words();
    let head = bytes.subrange(0, 32);
    assert(w[0] == word_at(head, 0));
    assert(w[1] == word_at(head, 4));
    assert(w[2] == word_at(head, 8));
    assert(w[3] == word_at(head, 12));
    assert(w[4] == word_at(head, 16));
    assert(w[5] == word_at(head, 20));
    assert(w[6] == word_at(head, 24));
    assert(w[7] == word_at(head, 28));
    let cs = bytes.subrange(32, b);
    let os = bytes.subrange(b, c);
    let vs = bytes.subrange(c, d);
    assert forall|r: int, i: int|
        0 <= r < centroids.len() && 0 <= i < 14 implies #[trigger] centroids[r][i] == word_at(
        bytes,
        32 + 56 * r + 4 * i,
    ) by {
        assert(centroids[r][i] == word_at(cs, 56 * r + 4 * i));
    }
    assert forall|i: int| 0 <= i < offsets.len() implies #[trigger] offsets[i] == word_at(
        bytes,
        b + 4 * i,
    ) by {
        assert(offsets[i] == word_at(os, 4 * i));
    }
    assert forall|r: int, i: int|
        0 <= r < vectors.len() && 0 <= i < 16 implies #[trigger] vectors[r][i] == lane_at(
        bytes,
        c + 32 * r + 2 * i,
    ) by {
        assert(vectors[r][i] == lane_at(vs, 32 * r + 2 * i));
    }
    assert forall|i: int| 0 <= i < labels.len() implies #[trigger] labels[i] == bytes[d + i] by {
        assert(bytes.skip(d)[i] == labels[i]);
    }
}

} // verus!
