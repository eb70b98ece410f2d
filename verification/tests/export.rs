use qualetize_gui::export::{encode_indexed_bmp, indexed_png_chunks};
use qualetize_gui::formats::BGRA8;

fn gray(v: u8) -> BGRA8 {
    BGRA8 { b: v, g: v, r: v, a: 255 }
}

#[test]
fn bmp_rows_are_bottom_up_and_padded() {
    // 3x2 image: top row 1,2,3 / bottom row 4,5,6
    let pixels = [1, 2, 3, 4, 5, 6];
    let bytes = encode_indexed_bmp(&pixels, &[gray(0), gray(10)], 3, 2).unwrap();
    let data_offset = 54 + 256 * 4;
    assert_eq!(bytes.len(), data_offset + 2 * 4);
    assert_eq!(&bytes[data_offset..data_offset + 4], &[4, 5, 6, 0]);
    assert_eq!(&bytes[data_offset + 4..], &[1, 2, 3, 0]);
    // second palette entry, BGRA
    assert_eq!(&bytes[54 + 4..54 + 8], &[10, 10, 10, 255]);
}

#[test]
fn bmp_header_fields_are_little_endian() {
    let bytes = encode_indexed_bmp(&[0; 5 * 3], &[gray(1)], 5, 3).unwrap();
    assert_eq!(&bytes[0..2], b"BM");
    let file_size = 54 + 1024 + 8 * 3;
    assert_eq!(&bytes[2..6], &(file_size as u32).to_le_bytes());
    assert_eq!(&bytes[10..14], &1078u32.to_le_bytes());
    assert_eq!(&bytes[14..18], &40u32.to_le_bytes());
    assert_eq!(&bytes[18..22], &5u32.to_le_bytes());
    assert_eq!(&bytes[22..26], &3u32.to_le_bytes());
    assert_eq!(&bytes[26..28], &1u16.to_le_bytes());
    assert_eq!(&bytes[28..30], &8u16.to_le_bytes());
    assert_eq!(&bytes[34..38], &24u32.to_le_bytes());
    assert_eq!(&bytes[46..50], &256u32.to_le_bytes());
    assert_eq!(bytes.len(), file_size);
    // Palette entries past the image's palette are zero.
    assert_eq!(&bytes[54 + 4..54 + 8], &[0, 0, 0, 0]);
}

#[test]
fn bmp_rejects_a_pixel_buffer_of_the_wrong_size() {
    let error = encode_indexed_bmp(&[0; 5], &[gray(0)], 3, 2).unwrap_err();
    assert_eq!(error, "indexed data has 5 pixels, expected 3x2");
}

#[test]
fn png_chunks_hold_rgb_and_alpha_of_at_most_256_entries() {
    let palette = vec![BGRA8 { b: 3, g: 2, r: 1, a: 9 }; 300];
    let (rgb, alpha) = indexed_png_chunks(&palette);
    assert_eq!(rgb.len(), 256 * 3);
    assert_eq!(alpha.len(), 256);
    assert_eq!(&rgb[0..3], &[1, 2, 3]);
    assert_eq!(alpha[0], 9);

    let (rgb, alpha) = indexed_png_chunks(&[BGRA8 { b: 30, g: 20, r: 10, a: 0 }, gray(7)]);
    assert_eq!(rgb, vec![10, 20, 30, 7, 7, 7]);
    assert_eq!(alpha, vec![0, 255]);
}
