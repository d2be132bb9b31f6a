//! Readback bookkeeping: row padding, pixel access and the checkerboard texture.

use crisol::pixels::{checkerboard, padded_bytes_per_row, Pixels, COPY_ALIGNMENT};

#[test]
fn rows_are_padded_to_the_copy_alignment() {
    assert_eq!(COPY_ALIGNMENT, 256);
    assert_eq!(padded_bytes_per_row(0), 0);
    assert_eq!(padded_bytes_per_row(1), 256);
    assert_eq!(padded_bytes_per_row(64), 256);
    assert_eq!(padded_bytes_per_row(65), 512);
    assert_eq!(padded_bytes_per_row(100), 512);
}

#[test]
fn unpadding_keeps_each_row_and_drops_the_padding() {
    let padded: Vec<u8> = (0..24).collect();
    let pixels = Pixels::from_padded(&padded, 2, 2, 12);
    assert_eq!(pixels.width(), 2);
    assert_eq!(pixels.height(), 2);
    assert_eq!(pixels.as_bytes(), &[0, 1, 2, 3, 4, 5, 6, 7, 12, 13, 14, 15, 16, 17, 18, 19]);
    assert_eq!(pixels.at(0, 0), [0, 1, 2, 3]);
    assert_eq!(pixels.at(1, 1), [16, 17, 18, 19]);
}

#[test]
fn an_image_of_no_rows_is_empty() {
    let pixels = Pixels::from_padded(&[], 5, 0, 256);
    assert!(pixels.as_bytes().is_empty());
    assert_eq!(pixels.width(), 5);
}

#[test]
fn a_pixel_matches_within_the_tolerance_on_every_channel() {
    let padded = [10, 20, 30, 255];
    let pixels = Pixels::from_padded(&padded, 1, 1, 4);
    assert!(pixels.matches(0, 0, [10, 20, 30, 255], 0));
    assert!(pixels.matches(0, 0, [12, 18, 30, 254], 2));
    assert!(!pixels.matches(0, 0, [13, 20, 30, 255], 2));
    assert!(!pixels.matches(0, 0, [10, 20, 30, 250], 4));
}

#[test]
fn a_checkerboard_alternates_by_cell() {
    let a = [1, 2, 3, 4];
    let b = [9, 8, 7, 6];
    let bytes = checkerboard(4, 2, 2, a, b);
    assert_eq!(bytes.len(), 4 * 2 * 4);
    let pixels = Pixels::from_padded(&bytes, 4, 2, 16);
    assert_eq!(pixels.at(0, 0), a);
    assert_eq!(pixels.at(1, 1), a);
    assert_eq!(pixels.at(2, 0), b);
    assert_eq!(pixels.at(3, 1), b);
}

#[test]
fn a_checkerboard_with_no_cell_size_uses_single_pixels() {
    let a = [255, 255, 255, 255];
    let b = [0, 0, 0, 255];
    let bytes = checkerboard(2, 2, 0, a, b);
    assert_eq!(bytes, [a, b, b, a].concat());
}
