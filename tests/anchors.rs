use collider_gen::anchor::{center_of, Anchor};
use collider_gen::geometry::{Pixel, Vertex};

fn px(x: u32, y: u32) -> Pixel {
    Pixel { x, y }
}

fn v(x: i64, y: i64) -> Vertex {
    Vertex { x, y }
}

#[test]
fn center_maps_origin() {
    // (-(6 / 2 - 1), 4 / 2 - 1) = (-2, 1), in half-pixel units (-4, 2).
    let r = Anchor::Center(4, 6).translate(&vec![px(0, 0)]);
    assert_eq!(r, vec![v(-4, 2)]);
    // Odd sizes land on half pixels: (-(5 / 2 - 1), 3 / 2 - 1) = (-1.5, 0.5).
    let r = Anchor::Center(3, 5).translate(&vec![px(0, 0)]);
    assert_eq!(r, vec![v(-3, 1)]);
}

#[test]
fn center_flips_y() {
    let r = Anchor::Center(4, 4).translate(&vec![px(3, 3), px(1, 0)]);
    assert_eq!(r, vec![v(4, -4), v(0, 2)]);
}

#[test]
fn identity_round_trip() {
    let poly = vec![px(0, 0), px(5, 2), px(7, 9)];
    let r = Anchor::Identity.translate(&poly);
    assert_eq!(r.len(), poly.len());
    for (a, b) in r.iter().zip(poly.iter()) {
        assert_eq!(a.x, 2 * b.x as i64);
        assert_eq!(a.y, 2 * b.y as i64);
    }
}

#[test]
fn horizontal_and_vertical_centres() {
    assert_eq!(Anchor::HorizontalCenter(4).translate(&vec![px(0, 3)]), vec![v(-2, -6)]);
    assert_eq!(Anchor::VerticalCenter(4).translate(&vec![px(1, 3)]), vec![v(2, -4)]);
}

#[test]
fn absolute_center_subtracts_centroid() {
    let poly = vec![px(0, 0), px(2, 0), px(2, 2), px(0, 2)];
    let r = Anchor::AbsoluteCenter.translate(&poly);
    assert_eq!(r, vec![v(-2, -2), v(2, -2), v(2, 2), v(-2, 2)]);
}

#[test]
fn centroid_rounds_down() {
    assert_eq!(center_of(&vec![px(0, 0), px(1, 3)]), Some(px(0, 1)));
    assert_eq!(center_of(&vec![px(4, 6)]), Some(px(4, 6)));
    assert_eq!(center_of(&Vec::new()), None);
}

#[test]
fn batch_absolute_center_is_per_polygon() {
    let polys = vec![vec![px(0, 0), px(2, 0)], vec![px(10, 4), px(12, 4)]];
    let r = Anchor::AbsoluteCenter.translate_polygons(&polys);
    assert_eq!(r, vec![vec![v(-2, 0), v(2, 0)], vec![v(-2, 0), v(2, 0)]]);
}

#[test]
fn batch_center_shares_one_offset() {
    let polys = vec![vec![px(0, 0)], vec![px(3, 1)]];
    let r = Anchor::Center(4, 4).translate_polygons(&polys);
    assert_eq!(r, vec![vec![v(-2, 2)], vec![v(4, 0)]]);
}
