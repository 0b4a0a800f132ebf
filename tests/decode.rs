use mapfile::cursor::DecodeError;
use mapfile::jpeg::read_jpeg;
use mapfile::map::{classify_tag, decode, read_header, MapData, UnitKind};
use mapfile::mask::{align4, check_plane, plane_size};
use mapfile::new_map::{mask_pixels, mask_rgba};
use mapfile::cursor::ByteCursor;

fn le(v: u32) -> [u8; 4] {
    v.to_le_bytes()
}

fn header(width: u32, height: u32, offsets: &[u32]) -> Vec<u8> {
    let mut b = b"0.1M".to_vec();
    b.extend_from_slice(&le(width));
    b.extend_from_slice(&le(height));
    for o in offsets {
        b.extend_from_slice(&le(*o));
    }
    b
}

/// A 320x240 archive: one tile record with `tag` and `payload` at offset 24,
/// and no masks.
fn one_tile_archive(tag: &[u8; 4], payload: &[u8]) -> Vec<u8> {
    let mut b = header(320, 240, &[24]);
    b.extend_from_slice(&le(0));
    b.extend_from_slice(&le(0));
    assert_eq!(b.len(), 24);
    b.extend_from_slice(&le(0));
    b.extend_from_slice(tag);
    b.extend_from_slice(&le(payload.len() as u32));
    b.extend_from_slice(payload);
    b
}

fn ok(b: &[u8]) -> MapData {
    match decode(b) {
        Ok(m) => m,
        Err(e) => panic!("decode failed: {:?}", e),
    }
}

fn err(b: &[u8]) -> DecodeError {
    match decode(b) {
        Ok(_) => panic!("decode succeeded"),
        Err(e) => e,
    }
}

#[test]
fn minimal_archive_with_full_jpeg_tile() {
    let payload = [0xFFu8, 0xD8, 1, 2, 3, 0xFF, 0xD9];
    let b = one_tile_archive(b"2GPJ", &payload);
    let m = ok(&b);
    assert_eq!(m.map_header.rows, 1);
    assert_eq!(m.map_header.cols, 1);
    assert_eq!(m.map_header.width, 320);
    assert_eq!(m.map_header.height, 240);
    assert_eq!(m.map_header.index_size, 1);
    assert_eq!(m.map_header.map_index_list, vec![24]);
    assert_eq!(m.map_header.flag, u32::from_le_bytes(*b"0.1M"));
    assert_eq!(m.units.len(), 1);
    assert_eq!(m.units[0].unit_flag, "2GPJ");
    assert_eq!(m.units[0].size, 7);
    assert_eq!(m.units[0].unit_data, payload.to_vec());
    assert_eq!(m.masks.len(), 0);
}

#[test]
fn grid_geometry_rounds_up() {
    let offsets = vec![0u32; 9];
    let mut b = header(641, 481, &offsets);
    b.extend_from_slice(&le(0));
    b.extend_from_slice(&le(0));
    let mut cur = ByteCursor::new(&b);
    let h = match read_header(&mut cur) {
        Ok(h) => h,
        Err(e) => panic!("{:?}", e),
    };
    assert_eq!(h.rows, 3);
    assert_eq!(h.cols, 3);
    assert_eq!(h.index_size, 9);
    let mut b2 = header(640, 480, &[7, 8, 9, 10]);
    b2.extend_from_slice(&le(0));
    let mut cur2 = ByteCursor::new(&b2);
    let h2 = match read_header(&mut cur2) {
        Ok(h) => h,
        Err(e) => panic!("{:?}", e),
    };
    assert_eq!(h2.rows, 2);
    assert_eq!(h2.cols, 2);
    assert_eq!(h2.map_index_list, vec![7, 8, 9, 10]);
}

#[test]
fn empty_grid_has_no_index() {
    let mut b = header(0, 0, &[]);
    b.extend_from_slice(&le(0));
    b.extend_from_slice(&le(0));
    let m = ok(&b);
    assert_eq!(m.map_header.rows, 0);
    assert_eq!(m.map_header.cols, 0);
    assert!(m.map_header.map_index_list.is_empty());
    assert!(m.units.is_empty());
}

#[test]
fn bad_magic_is_invalid_format() {
    let mut b = one_tile_archive(b"2GPJ", &[1, 2, 3]);
    b[0] = b'1';
    assert_eq!(err(&b), DecodeError::InvalidFormat);
    assert_eq!(err(&[0xFF, 0xFE, 0x00, 0x01, 9, 9]), DecodeError::InvalidFormat);
    assert_eq!(err(b"M1.0"), DecodeError::InvalidFormat);
}

#[test]
fn truncated_archives_fail_with_truncated() {
    let b = one_tile_archive(b"2GPJ", &[1, 2, 3]);
    assert_eq!(err(&b[..0]), DecodeError::Truncated { position: 0, needed: 4 });
    assert_eq!(err(&b[..3]), DecodeError::Truncated { position: 0, needed: 4 });
    assert_eq!(err(&b[..11]), DecodeError::Truncated { position: 4, needed: 8 });
    assert_eq!(err(&b[..15]), DecodeError::Truncated { position: 12, needed: 4 });
    assert_eq!(err(&b[..19]), DecodeError::Truncated { position: 16, needed: 4 });
    assert_eq!(err(&b[..23]), DecodeError::Truncated { position: 20, needed: 4 });
    assert_eq!(err(&b[..24]), DecodeError::Truncated { position: 24, needed: 4 });
    assert_eq!(err(&b[..30]), DecodeError::Truncated { position: 28, needed: 8 });
    assert_eq!(err(&b[..37]), DecodeError::Truncated { position: 36, needed: 3 });
    assert!(decode(&b).is_ok());
}

#[test]
fn tile_offset_past_end_is_out_of_range() {
    let mut b = header(320, 240, &[1000]);
    b.extend_from_slice(&le(0));
    b.extend_from_slice(&le(0));
    assert_eq!(err(&b), DecodeError::OutOfRange { offset: 1000 });
}

#[test]
fn unknown_tag_is_skipped() {
    let b = one_tile_archive(b"ABCD", &[1, 2, 3]);
    let m = ok(&b);
    assert_eq!(m.units.len(), 0);
    assert_eq!(m.map_header.map_index_list.len(), 1);
}

#[test]
fn tag_that_is_not_utf8_is_an_encoding_error() {
    let b = one_tile_archive(&[0xFF, 0xFE, 0x80, 0x81], &[1, 2, 3]);
    assert_eq!(err(&b), DecodeError::EncodingError { position: 28 });
}

#[test]
fn tile_prefix_block_is_skipped() {
    let mut b = header(320, 240, &[24]);
    b.extend_from_slice(&le(0));
    b.extend_from_slice(&le(0));
    b.extend_from_slice(&le(2));
    b.extend_from_slice(&[9u8; 8]);
    b.extend_from_slice(b"2GPJ");
    b.extend_from_slice(&le(2));
    b.extend_from_slice(&[5, 6]);
    let m = ok(&b);
    assert_eq!(m.units[0].unit_data, vec![5, 6]);
}

/// A scan header: FF DA, two length bytes, nine header body bytes.
fn jpeg_sample() -> Vec<u8> {
    let mut p = vec![0xFFu8, 0xD8, 0xFF, 0xDB, 1, 2];
    p.extend_from_slice(&[0xFF, 0xDA, 0x00, 0x08, 1, 0, 0, 2, 0x11, 3, 0x11, 0, 0]);
    p.extend_from_slice(&[0x10, 0xFF, 0x20, 0xFF, 0xFF, 0x30]);
    p.extend_from_slice(&[0xFF, 0xD9]);
    p
}

#[test]
fn jpeg_repair_restores_scan_header_and_stuffing() {
    let src = jpeg_sample();
    let out = read_jpeg(&src);
    let mut expected = vec![0xFFu8, 0xD8, 0xFF, 0xDB, 1, 2];
    expected.extend_from_slice(&[0xFF, 0xDA, 0x00, 0x0C, 1, 0, 0, 2, 0x11, 3, 0x11, 0, 0]);
    expected.extend_from_slice(&[0x00, 0x3F, 0x00]);
    expected.extend_from_slice(&[0x10, 0xFF, 0x00, 0x20, 0xFF, 0x00, 0xFF, 0x00, 0x30]);
    expected.extend_from_slice(&[0xFF, 0xD9]);
    assert_eq!(out, expected);
    assert_eq!(out.len(), src.len() + 3 + 3);
    assert_eq!(out[6 + 3], 0x0C);
    assert_eq!(&out[6 + 13..6 + 16], &[0x00, 0x3F, 0x00]);
}

#[test]
fn jpeg_repair_leaves_payload_without_scan_marker() {
    let src = vec![0xFFu8, 0xD8, 0xFF, 0x00, 0xFF, 0xD9];
    assert_eq!(read_jpeg(&src), src);
    let short = vec![0xFFu8, 0xDA, 0, 8, 1];
    assert_eq!(read_jpeg(&short), short);
    assert_eq!(read_jpeg(&[]), Vec::<u8>::new());
}

#[test]
fn jpeg_tile_is_repaired_in_decode() {
    let src = jpeg_sample();
    let b = one_tile_archive(b"GEPJ", &src);
    let m = ok(&b);
    assert_eq!(m.units.len(), 1);
    assert_eq!(m.units[0].unit_flag, "GEPJ");
    assert_eq!(m.units[0].size as usize, src.len());
    assert_eq!(m.units[0].unit_data, read_jpeg(&src));
    assert_ne!(m.units[0].unit_data, src);
}

#[test]
fn align4_rounds_up_to_multiple_of_four() {
    let ws = [0u32, 1, 2, 3, 4, 5, 8, 9];
    let expected = [0u64, 4, 4, 4, 4, 8, 8, 12];
    for (w, e) in ws.iter().zip(expected.iter()) {
        assert_eq!(align4(*w), *e);
    }
    assert_eq!(align4(u32::MAX), 0x1_0000_0000);
    assert_eq!(plane_size(5, 3), 6);
    assert_eq!(plane_size(4, 4), 4);
}

/// An archive with no tiles and one mask record at offset 24.
fn one_mask_archive(width: u32, height: u32, compressed: &[u8]) -> Vec<u8> {
    let mut b = header(0, 0, &[]);
    b.extend_from_slice(&le(0));
    b.extend_from_slice(&le(1));
    b.extend_from_slice(&le(24));
    assert_eq!(b.len(), 24);
    b.extend_from_slice(&le(11));
    b.extend_from_slice(&le(22));
    b.extend_from_slice(&le(width));
    b.extend_from_slice(&le(height));
    b.extend_from_slice(&le(compressed.len() as u32));
    b.extend_from_slice(compressed);
    b
}

#[test]
fn mask_that_does_not_decompress_fails_the_decode() {
    let b = one_mask_archive(4, 4, &[0x01, 0x02]);
    assert_eq!(err(&b), DecodeError::MaskDecompressionFailed { offset: 24 });
    let mut with_tile = header(320, 240, &[60]);
    with_tile.extend_from_slice(&le(0));
    with_tile.extend_from_slice(&le(1));
    with_tile.extend_from_slice(&le(28));
    with_tile.extend_from_slice(&le(0));
    with_tile.extend_from_slice(&le(0));
    with_tile.extend_from_slice(&le(4));
    with_tile.extend_from_slice(&le(4));
    with_tile.extend_from_slice(&le(3));
    with_tile.extend_from_slice(&[0xEE, 0xEE, 0xEE]);
    with_tile.extend_from_slice(&[0u8; 9]);
    assert_eq!(with_tile.len(), 60);
    with_tile.extend_from_slice(&le(0));
    with_tile.extend_from_slice(b"2GPJ");
    with_tile.extend_from_slice(&le(1));
    with_tile.extend_from_slice(&[7]);
    assert_eq!(err(&with_tile), DecodeError::MaskDecompressionFailed { offset: 28 });
}

fn compress(data: &[u8]) -> Vec<u8> {
    let mut ctx = rust_lzo::LZOContext::new();
    let mut out = Vec::with_capacity(rust_lzo::worst_compress(data.len()));
    let status = ctx.compress(data, &mut out);
    assert!(status == rust_lzo::LZOError::OK);
    out
}

#[test]
fn mask_plane_is_decompressed_and_unpacked() {
    // width 5 aligns to 8: two bytes of 2-bit fields per row, two rows.
    let plane = vec![0b1100_0011u8, 0b0000_0011, 0b0011_0000, 0b0000_0000];
    let compressed = compress(&plane);
    let b = one_mask_archive(5, 2, &compressed);
    let m = ok(&b);
    assert_eq!(m.masks.len(), 1);
    let mask = &m.masks[0];
    assert_eq!((mask.x, mask.y, mask.width, mask.height), (11, 22, 5, 2));
    assert_eq!(mask.size as usize, compressed.len());
    assert_eq!(mask.data, compressed);
    assert_eq!(mask.plane, plane);
    let pixels = mask_pixels(mask);
    assert_eq!(pixels, vec![0xF0, 0, 0, 0xF0, 0xF0, 0, 0, 0xF0, 0, 0]);
}

#[test]
fn mask_plane_of_wrong_length_fails() {
    let compressed = compress(&[1, 2, 3]);
    let b = one_mask_archive(4, 4, &compressed);
    assert_eq!(err(&b), DecodeError::MaskDecompressionFailed { offset: 24 });
}

#[test]
fn mask_offset_past_end_is_out_of_range() {
    let mut b = header(0, 0, &[]);
    b.extend_from_slice(&le(0));
    b.extend_from_slice(&le(1));
    b.extend_from_slice(&le(500));
    assert_eq!(err(&b), DecodeError::OutOfRange { offset: 500 });
    let mut c = header(0, 0, &[]);
    c.extend_from_slice(&le(0));
    c.extend_from_slice(&le(2));
    c.extend_from_slice(&le(1));
    assert_eq!(err(&c), DecodeError::Truncated { position: 20, needed: 8 });
}

#[test]
fn mask_rgba_follows_color_word_layout() {
    assert_eq!(mask_rgba(0), (0, 0, 0, 0));
    assert_eq!(mask_rgba(0xF0), (0, 28, 128, 0));
    assert_eq!(mask_rgba(0xFFFF), (248, 252, 248, 0));
    assert_eq!(mask_rgba(0x1F_0000), (0, 0, 0, 248));
}

#[test]
fn classify_tag_reads_the_four_tag_bytes() {
    assert_eq!(classify_tag(5, b"GEPJ", true), Ok(UnitKind::Jpeg));
    assert_eq!(classify_tag(5, b"2GPJ", true), Ok(UnitKind::FullJpeg));
    assert_eq!(classify_tag(5, b"JPEG", true), Ok(UnitKind::Other));
    assert_eq!(classify_tag(5, b"GEPJ", false), Err(DecodeError::EncodingError { position: 5 }));
}

#[test]
fn check_plane_accepts_only_a_full_plane() {
    assert_eq!(check_plane(9, 3, Some(vec![1, 2, 3])), Ok(vec![1, 2, 3]));
    assert_eq!(
        check_plane(9, 4, Some(vec![1, 2, 3])),
        Err(DecodeError::MaskDecompressionFailed { offset: 9 })
    );
    assert_eq!(check_plane(9, 0, None), Err(DecodeError::MaskDecompressionFailed { offset: 9 }));
}
