use rinha_2026::distance::{Vec14I, DIM, DIM_PAD};
use rinha_2026::index::{
    encode_index, is_complete, IndexHeader, IndexView, HEADER_LEN, INDEX_MAGIC, INDEX_VERSION,
};
use rinha_2026::search::label_is_fraud;
use rinha_2026::words::{read_centroids, read_vectors, read_words, Section, Vec14Bits};

fn header(n_vectors: u32, n_centroids: u32) -> IndexHeader {
    IndexHeader {
        magic: INDEX_MAGIC,
        version: INDEX_VERSION,
        n_vectors,
        n_centroids,
        dim: DIM as u32,
        _pad: [0; 3],
    }
}

fn header_bytes(header: &IndexHeader) -> Vec<u8> {
    bytemuck::cast_slice::<u32, u8>(&header.words()).to_vec()
}

fn small_image() -> Vec<u8> {
    let centroids: Vec<Vec14Bits> = vec![[0x3f80_0000; DIM], [0x0102_0304; DIM]];
    let vectors: Vec<Vec14I> = vec![[-1; DIM_PAD], [258; DIM_PAD], [-32767; DIM_PAD]];
    encode_index(2, &centroids, &[0, 1, 3], &vectors, &[0b101])
}

fn refusal(bytes: &[u8]) -> &'static str {
    match IndexView::from_bytes(bytes) {
        Ok(_) => panic!("accepted"),
        Err(message) => message,
    }
}

#[test]
fn index_view_roundtrip() {
    let n = 4usize;
    let k = 2usize;
    let header = IndexHeader {
        magic: INDEX_MAGIC,
        version: INDEX_VERSION,
        n_vectors: n as u32,
        n_centroids: k as u32,
        dim: DIM as u32,
        _pad: [0; 3],
    };
    let mut buf: Vec<u8> = Vec::new();
    buf.extend_from_slice(&header_bytes(&header));
    let centroids: Vec<[f32; DIM]> = vec![[0.1; DIM], [0.9; DIM]];
    for c in &centroids {
        buf.extend_from_slice(bytemuck::cast_slice::<f32, u8>(c));
    }
    let offsets: Vec<u32> = vec![0, 2, 4];
    buf.extend_from_slice(bytemuck::cast_slice::<u32, u8>(&offsets));
    let vectors: Vec<Vec14I> = vec![[1; DIM_PAD], [2; DIM_PAD], [3; DIM_PAD], [4; DIM_PAD]];
    for v in &vectors {
        buf.extend_from_slice(bytemuck::cast_slice::<i16, u8>(v));
    }
    let bitmap: Vec<u8> = vec![0b0000_1010];
    buf.extend_from_slice(&bitmap);

    assert!(is_complete(&buf));
    let view = IndexView::from_bytes(&buf).expect("parse roundtrip");
    assert_eq!(view.centroids.len(), k);
    assert_eq!(view.offsets.as_slice(), &[0u32, 2, 4]);
    assert_eq!(view.vectors.len(), n);
    assert_eq!(view.vectors.as_slice()[2], [3i16; DIM_PAD]);
    assert!(!label_is_fraud(view.labels, 0));
    assert!(label_is_fraud(view.labels, 1));
    assert!(!label_is_fraud(view.labels, 2));
    assert!(label_is_fraud(view.labels, 3));

    for (row, centroid) in view.centroids.as_slice().iter().zip(&centroids) {
        for (bits, x) in row.iter().zip(centroid) {
            assert_eq!(f32::from_bits(*bits), *x);
        }
    }
}

#[test]
fn index_view_rejects_bad_magic() {
    let bad = vec![0u8; HEADER_LEN];
    assert!(IndexView::from_bytes(&bad).is_err());
}

#[test]
fn the_header_has_eight_words() {
    assert_eq!(HEADER_LEN, 32);
    let header = header(7, 9);
    assert_eq!(header.words(), [0x5249_4E48, 2, 7, 9, 14, 0, 0, 0]);
    let again = IndexHeader::from_words(&[1, 2, 3, 4, 5, 6, 7, 8]);
    assert_eq!(again.words(), [1, 2, 3, 4, 5, 6, 7, 8]);
    assert_eq!(again.n_vectors, 3);
    assert_eq!(again._pad, [6, 7, 8]);
}

#[test]
fn every_refusal_has_its_message() {
    assert_eq!(refusal(&[]), "index file too small for header");
    assert_eq!(refusal(&[0; HEADER_LEN - 1]), "index file too small for header");
    assert_eq!(refusal(&[0; HEADER_LEN]), "invalid index magic");
    let mut head = header(0, 0);
    head.version = 1;
    assert_eq!(refusal(&header_bytes(&head)), "unsupported index version");
    head.version = INDEX_VERSION;
    head.dim = 15;
    assert_eq!(refusal(&header_bytes(&head)), "index dimension mismatch");
}

#[test]
fn refused_bytes_are_not_asked_for_more() {
    assert!(is_complete(&[]));
    assert!(is_complete(&[0; HEADER_LEN]));
}

#[test]
fn truncated_images_are_noticed() {
    let image = small_image();
    assert_eq!(image.len(), 32 + 2 * 56 + 3 * 4 + 3 * 32 + 1);
    assert!(is_complete(&image));
    for len in HEADER_LEN..image.len() {
        assert!(!is_complete(&image[..len]));
    }
}

#[test]
fn an_empty_index_is_an_index() {
    let image = encode_index(0, &[], &[0], &[], &[]);
    assert_eq!(image.len(), 36);
    assert!(is_complete(&image));
    let view = IndexView::from_bytes(&image).unwrap();
    assert_eq!(view.centroids.len(), 0);
    assert_eq!(view.offsets.as_slice(), &[0]);
    assert_eq!(view.vectors.len(), 0);
    assert_eq!(view.labels.len(), 0);
}

#[test]
fn reading_gives_back_what_was_written_at_every_alignment() {
    let image = small_image();
    for shift in 0..8 {
        let mut buf = vec![0xEEu8; shift];
        buf.extend_from_slice(&image);
        let view = IndexView::from_bytes(&buf[shift..]).unwrap();
        assert_eq!(
            view.centroids.as_slice(),
            &[[0x3f80_0000; DIM], [0x0102_0304; DIM]]
        );
        assert_eq!(view.offsets.as_slice(), &[0, 1, 3]);
        assert_eq!(
            view.vectors.as_slice(),
            &[[-1; DIM_PAD], [258; DIM_PAD], [-32767; DIM_PAD]]
        );
        assert_eq!(view.labels, &[0b101]);
    }
}

#[test]
fn bytes_behind_an_image_are_left_alone() {
    let mut image = small_image();
    image.extend_from_slice(&[9, 9, 9]);
    assert!(is_complete(&image));
    let view = IndexView::from_bytes(&image).unwrap();
    assert_eq!(view.labels, &[0b101]);
}

#[test]
fn unaligned_sections_are_copied() {
    let words = [0x0102_0304u32, u32::MAX, 0];
    let bytes = bytemuck::cast_slice::<u32, u8>(&words);
    for shift in 0..4 {
        let mut buf: Vec<u8> = vec![0; shift];
        buf.extend_from_slice(bytes);
        let at = buf.as_ptr() as usize + shift;
        let section = read_words(&buf[shift..]);
        assert_eq!(section.as_slice(), &words);
        assert_eq!(section.len(), 3);
        assert_eq!(matches!(section, Section::Borrowed(_)), at % 4 == 0);
    }
}

#[test]
fn rows_are_read_in_order() {
    let lanes: Vec<i16> = (0..32).map(|i| i * 1000 - 16000).collect();
    let bytes = bytemuck::cast_slice::<i16, u8>(&lanes);
    let rows = read_vectors(bytes);
    assert_eq!(rows.len(), 2);
    assert_eq!(rows.as_slice()[0][0], -16000);
    assert_eq!(rows.as_slice()[1][15], 15000);

    let words: Vec<u32> = (0..28).map(|i| i * 0x0101_0101).collect();
    let rows = read_centroids(bytemuck::cast_slice::<u32, u8>(&words));
    assert_eq!(rows.len(), 2);
    assert_eq!(rows.as_slice()[0][1], 0x0101_0101);
    assert_eq!(rows.as_slice()[1][13], 27 * 0x0101_0101);
}
