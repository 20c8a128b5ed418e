use collider_gen::bitmap::{Bitmap, ImageError};
use collider_gen::scan::{boundary_points, get_at};
use collider_gen::geometry::Pixel;

fn px(x: u32, y: u32) -> Pixel {
    Pixel { x, y }
}

fn filled(width: u32, height: u32) -> Bitmap {
    Bitmap::new(width, height, vec![true; (width * height) as usize]).unwrap()
}

#[test]
fn new_rejects_wrong_pixel_count() {
    let r = Bitmap::new(2, 2, vec![true; 3]);
    assert_eq!(r.unwrap_err(), ImageError::PixelCount { expected: 4, found: 3 });
}

#[test]
fn new_reads_row_major() {
    let b = Bitmap::new(3, 2, vec![true, false, false, false, false, true]).unwrap();
    assert_eq!(b.width(), 3);
    assert_eq!(b.height(), 2);
    assert!(b.is_opaque(0, 0));
    assert!(!b.is_opaque(1, 0));
    assert!(b.is_opaque(2, 1));
    assert!(!b.is_opaque(3, 1));
    assert!(!b.is_opaque(0, 2));
}

#[test]
fn from_bytes_combines_channels() {
    let b = Bitmap::from_bytes(2, 1, &[0, 0, 0, 5]).unwrap();
    assert!(!b.is_opaque(0, 0));
    assert!(b.is_opaque(1, 0));
}

#[test]
fn from_bytes_one_byte_per_pixel() {
    let b = Bitmap::from_bytes(2, 2, &[1, 0, 0, 9]).unwrap();
    assert!(b.is_opaque(0, 0));
    assert!(!b.is_opaque(1, 0));
    assert!(!b.is_opaque(0, 1));
    assert!(b.is_opaque(1, 1));
}

#[test]
fn from_bytes_rejects_uneven_length() {
    let r = Bitmap::from_bytes(2, 1, &[1, 2, 3]);
    assert_eq!(r.unwrap_err(), ImageError::ByteCount { pixels: 2, bytes: 3 });
}

#[test]
fn from_bytes_rejects_short_data() {
    let r = Bitmap::from_bytes(2, 2, &[1, 2, 3]);
    assert_eq!(r.unwrap_err(), ImageError::ByteCount { pixels: 4, bytes: 3 });
}

#[test]
fn from_bytes_empty_image() {
    let b = Bitmap::from_bytes(0, 0, &[]).unwrap();
    assert_eq!(b.width(), 0);
    assert_eq!(Bitmap::from_bytes(0, 3, &[1]).unwrap_err(), ImageError::ByteCount { pixels: 0, bytes: 1 });
}

#[test]
fn from_grid_reads_set_cells() {
    let b = Bitmap::from_grid(&[0, 7, 1, 0], 2, 2);
    assert!(!b.is_opaque(0, 0));
    assert!(b.is_opaque(1, 0));
    assert!(b.is_opaque(0, 1));
    assert!(!b.is_opaque(1, 1));
}

#[test]
fn get_at_reads_cells() {
    let data = [0usize, 3, 0, 0];
    assert_eq!(get_at(0, 0, 2, 2, &data), 0);
    assert_eq!(get_at(0, 1, 2, 2, &data), 1);
    assert_eq!(get_at(-1, 0, 2, 2, &data), 0);
    assert_eq!(get_at(0, -1, 2, 2, &data), 0);
    assert_eq!(get_at(2, 0, 2, 2, &data), 0);
    assert_eq!(get_at(0, 2, 2, 2, &data), 0);
}

#[test]
fn get_at_short_data_reads_zero() {
    assert_eq!(get_at(1, 1, 2, 2, &[1, 1, 1]), 0);
    assert_eq!(get_at(1, 0, 2, 2, &[1, 1, 1]), 1);
}

#[test]
fn boundary_of_full_square_skips_interior() {
    let pts = boundary_points(&filled(3, 3));
    assert_eq!(
        pts,
        vec![px(0, 0), px(1, 0), px(2, 0), px(0, 1), px(2, 1), px(0, 2), px(1, 2), px(2, 2)]
    );
}

#[test]
fn isolated_pixel_is_boundary() {
    let b = Bitmap::new(3, 3, vec![false, false, false, false, true, false, false, false, false]).unwrap();
    assert_eq!(boundary_points(&b), vec![px(1, 1)]);
}

#[test]
fn transparent_image_has_no_boundary() {
    let b = Bitmap::new(4, 3, vec![false; 12]).unwrap();
    assert!(boundary_points(&b).is_empty());
}

#[test]
fn rectangle_boundary_is_perimeter() {
    for w in 2..7u32 {
        for h in 2..7u32 {
            let pts = boundary_points(&filled(w, h));
            assert_eq!(pts.len() as u32, 2 * w + 2 * h - 4);
        }
    }
}
