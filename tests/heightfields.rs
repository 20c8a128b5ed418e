use collider_gen::anchor::Anchor;
use collider_gen::geometry::{Pixel, Scale, Vertex};
use collider_gen::tops::heights_from_points;
use collider_gen::heights::{column_profile, heights_and_scale};

fn px(x: u32, y: u32) -> Pixel {
    Pixel { x, y }
}

#[test]
fn flat_strip_gives_equal_samples() {
    let strip: Vec<Pixel> = (0..5).map(|x| px(x, 2)).collect();
    let (h, scale) = heights_and_scale(strip, Anchor::Center(4, 5));
    assert_eq!(h, vec![0, 0, 0, 0]);
    assert_eq!(scale, Scale { x: 4, y: 1 });
}

#[test]
fn scale_x_is_sample_count() {
    let pts = vec![px(3, 0), px(0, 1), px(1, 2), px(0, 3)];
    let (h, scale) = heights_and_scale(pts, Anchor::Identity);
    assert_eq!(h, vec![-4, 0, 0]);
    assert_eq!(scale, Scale { x: h.len(), y: 1 });
}

#[test]
fn profile_keeps_lowest_point_per_column() {
    let pts = vec![px(3, 0), px(0, 1), px(1, 2), px(0, 3), px(1, 1)];
    assert_eq!(column_profile(&pts), vec![px(0, 3), px(1, 2), px(3, 0)]);
}

#[test]
fn single_column_gives_no_samples() {
    let (h, scale) = heights_and_scale(vec![px(2, 0), px(2, 5)], Anchor::Center(8, 8));
    assert!(h.is_empty());
    assert_eq!(scale, Scale { x: 1, y: 1 });
    let (h, scale) = heights_and_scale(Vec::new(), Anchor::AbsoluteCenter);
    assert!(h.is_empty());
    assert_eq!(scale, Scale { x: 1, y: 1 });
}

#[test]
fn absolute_center_measures_from_profile_centroid() {
    let (h, scale) = heights_and_scale(vec![px(0, 4), px(2, 0)], Anchor::AbsoluteCenter);
    assert_eq!(h, vec![4, 4]);
    assert_eq!(scale, Scale { x: 2, y: 1 });
}

#[test]
fn vertical_center_reference_is_half_height() {
    let (h, _) = heights_and_scale(vec![px(0, 1), px(1, 3)], Anchor::VerticalCenter(6));
    assert_eq!(h, vec![0]);
    let (h, _) = heights_and_scale(vec![px(0, 1), px(1, 3)], Anchor::HorizontalCenter(6));
    assert_eq!(h, vec![-6]);
}

#[test]
fn heights_from_points_keeps_first_seen_column_order() {
    let pts = [
        Vertex { x: 0, y: 1 },
        Vertex { x: 2, y: 5 },
        Vertex { x: 0, y: 3 },
        Vertex { x: -4, y: 0 },
        Vertex { x: 2, y: 1 },
    ];
    assert_eq!(heights_from_points(&pts), vec![3, 5, 0]);
    assert!(heights_from_points(&[]).is_empty());
}
