use collider_gen::bitmap::Bitmap;
use collider_gen::contour::drawing_order;
use collider_gen::geometry::Pixel;
use collider_gen::scan::boundary_points;

fn px(x: u32, y: u32) -> Pixel {
    Pixel { x, y }
}

fn contours(width: u32, height: u32, pixels: Vec<bool>) -> Vec<Vec<Pixel>> {
    let b = Bitmap::new(width, height, pixels).unwrap();
    drawing_order(&boundary_points(&b))
}

#[test]
fn square_outline_is_one_loop() {
    let g = contours(3, 3, vec![true; 9]);
    assert_eq!(
        g,
        vec![vec![px(0, 0), px(1, 0), px(2, 0), px(2, 1), px(2, 2), px(1, 2), px(0, 2), px(0, 1)]]
    );
}

#[test]
fn filled_rectangles_give_one_polygon_of_perimeter_length() {
    for w in 2..7u32 {
        for h in 2..7u32 {
            let g = contours(w, h, vec![true; (w * h) as usize]);
            assert_eq!(g.len(), 1);
            assert_eq!(g[0].len() as u32, 2 * w + 2 * h - 4);
        }
    }
}

#[test]
fn two_separated_squares_give_two_polygons() {
    let row = vec![true, true, false, false, true, true];
    let mut pixels = row.clone();
    pixels.extend(row);
    let g = contours(6, 2, pixels);
    assert_eq!(
        g,
        vec![
            vec![px(0, 0), px(1, 0), px(1, 1), px(0, 1)],
            vec![px(5, 1), px(4, 1), px(4, 0), px(5, 0)],
        ]
    );
}

#[test]
fn wider_squares_with_wide_gap_give_two_polygons() {
    let row = vec![true, true, true, false, false, false, true, true, true];
    let mut pixels = Vec::new();
    for _ in 0..3 {
        pixels.extend(row.clone());
    }
    let g = contours(9, 3, pixels);
    assert_eq!(g.len(), 2);
    assert_eq!(g[0].len(), 8);
    assert_eq!(g[1].len(), 8);
}

#[test]
fn diagonal_touch_splits_contours() {
    let g = contours(2, 2, vec![true, false, false, true]);
    assert_eq!(g, vec![vec![px(0, 0)], vec![px(1, 1)]]);
}

#[test]
fn seed_is_taken_by_swap_remove() {
    let g = contours(3, 2, vec![true, true, true, true, false, false]);
    assert_eq!(g, vec![vec![px(0, 0), px(0, 1)], vec![px(1, 0), px(2, 0)]]);
}

#[test]
fn no_points_no_contours() {
    assert!(drawing_order(&Vec::new()).is_empty());
}

#[test]
fn unit_apart_is_four_connected() {
    assert!(px(1, 1).is_unit_apart(&px(1, 2)));
    assert!(px(1, 1).is_unit_apart(&px(0, 1)));
    assert!(!px(1, 1).is_unit_apart(&px(2, 2)));
    assert!(!px(1, 1).is_unit_apart(&px(1, 1)));
    assert!(!px(1, 1).is_unit_apart(&px(3, 1)));
}

#[test]
fn single_pixel_squares_two_columns_apart() {
    let g = contours(4, 1, vec![true, false, false, true]);
    assert_eq!(g, vec![vec![px(0, 0)], vec![px(3, 0)]]);
}

#[test]
fn squares_at_different_heights_give_two_polygons() {
    // a 2 by 2 square at the top left, a 3 by 3 square lower down on the right
    let mut pixels = vec![false; 8 * 5];
    for (x, y) in [(0, 0), (1, 0), (0, 1), (1, 1)] {
        pixels[y * 8 + x] = true;
    }
    for x in 4..7 {
        for y in 2..5 {
            pixels[y * 8 + x] = true;
        }
    }
    let g = contours(8, 5, pixels);
    assert_eq!(g.len(), 2);
    assert_eq!(g[0].len(), 4);
    assert_eq!(g[1].len(), 8);
}
