use collider_gen::anchor::Anchor;
use collider_gen::bitmap::Bitmap;
use collider_gen::edge::{
    image_to_edges, march_edges, multi_image_edge_translated, multi_image_edges_raw,
    points_to_drawing_order, single_image_edge_raw, single_image_edge_translated, translate_vec,
};
use collider_gen::geometry::{Pixel, Vertex};

fn v(x: i64, y: i64) -> Vertex {
    Vertex { x, y }
}

fn px(x: u32, y: u32) -> Pixel {
    Pixel { x, y }
}

fn two_squares() -> Bitmap {
    let row = vec![true, true, false, false, true, true];
    let mut pixels = row.clone();
    pixels.extend(row);
    Bitmap::new(6, 2, pixels).unwrap()
}

#[test]
fn raw_edges_are_pixel_positions() {
    let r = multi_image_edges_raw(&two_squares());
    assert_eq!(
        r,
        vec![vec![v(0, 0), v(2, 0), v(2, 2), v(0, 2)], vec![v(10, 2), v(8, 2), v(8, 0), v(10, 0)]]
    );
}

#[test]
fn translated_edges_are_centred() {
    let r = multi_image_edge_translated(&two_squares());
    assert_eq!(r[0], vec![v(-4, 0), v(-2, 0), v(-2, -2), v(-4, -2)]);
    assert_eq!(r.len(), 2);
}

#[test]
fn single_edges_concatenate_contours() {
    let img = two_squares();
    let raw = single_image_edge_raw(&img);
    assert_eq!(raw.len(), 8);
    assert_eq!(raw[4], v(10, 2));
    let t = single_image_edge_translated(&img);
    assert_eq!(t[0], v(-4, 0));
}

#[test]
fn march_edges_reads_grid() {
    let r = march_edges(&[0, 1, 1, 0, 1, 1], 2, 3, false);
    assert_eq!(r, vec![vec![v(2, 0), v(4, 0), v(4, 2), v(2, 2)]]);
    assert_eq!(r, image_to_edges(&Bitmap::from_grid(&[0, 1, 1, 0, 1, 1], 2, 3), false));
}

#[test]
fn drawing_order_with_translation() {
    let r = points_to_drawing_order(&vec![px(0, 0), px(1, 0)], true, 2, 2);
    assert_eq!(r, vec![vec![v(0, 0), v(2, 0)]]);
    assert_eq!(translate_vec(vec![px(0, 0)], 4, 6), Anchor::Center(4, 6).translate(&vec![px(0, 0)]));
}
