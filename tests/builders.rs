use collider_gen::anchor::Anchor;
use collider_gen::bitmap::Bitmap;
use collider_gen::builder::Builder;
use collider_gen::collider::{AbstractCollider, ColliderType};
use collider_gen::geometry::{Scale, Vertex};

fn v(x: i64, y: i64) -> Vertex {
    Vertex { x, y }
}

fn all_kinds() -> Vec<ColliderType> {
    vec![
        ColliderType::Polyline,
        ColliderType::ConvexPolyline,
        ColliderType::ConvexHull,
        ColliderType::Heightfield,
    ]
}

#[test]
fn transparent_image_gives_no_collider() {
    for kind in all_kinds() {
        let b = Builder::new(Bitmap::new(3, 3, vec![false; 9]).unwrap()).with_type(kind);
        assert!(b.single().is_none());
        assert!(b.multiple().is_empty());
    }
}

#[test]
fn empty_image_gives_no_collider() {
    let b = Builder::new(Bitmap::new(0, 0, Vec::new()).unwrap());
    assert!(b.single().is_none());
    assert!(b.multiple().is_empty());
}

#[test]
fn default_is_centred_polyline() {
    let b = Builder::new(Bitmap::new(2, 2, vec![true; 4]).unwrap());
    let c = b.single().unwrap();
    assert_eq!(c, AbstractCollider::Polyline(vec![v(0, 0), v(2, 0), v(2, -2), v(0, -2)]));
    assert_eq!(ColliderType::default(), ColliderType::Polyline);
}

#[test]
fn kinds_wrap_the_same_points() {
    let img = Bitmap::new(2, 2, vec![true; 4]).unwrap();
    let pts = vec![v(0, 0), v(2, 0), v(2, 2), v(0, 2)];
    let b = Builder::new(img).with_anchor(Anchor::Identity);
    assert_eq!(b.clone().convex_polyline().single(), Some(AbstractCollider::ConvexPolyline(pts.clone())));
    assert_eq!(b.clone().convex_hull().single(), Some(AbstractCollider::ConvexHull(pts.clone())));
    assert_eq!(b.polyline().single().unwrap().points(), Some(&pts));
}

#[test]
fn heightfield_uses_raw_points() {
    let b = Builder::new(Bitmap::new(3, 1, vec![true; 3]).unwrap()).heightfield();
    let c = b.single().unwrap();
    assert_eq!(c, AbstractCollider::Heightfield(vec![1, 1], Scale { x: 2, y: 1 }));
    assert_eq!(c.points(), None);
}

#[test]
fn multiple_keeps_contour_order() {
    let row = vec![true, true, false, false, true, true];
    let mut pixels = row.clone();
    pixels.extend(row);
    let b = Builder::new(Bitmap::new(6, 2, pixels).unwrap()).with_anchor(Anchor::Identity);
    let r = b.multiple();
    assert_eq!(
        r,
        vec![
            AbstractCollider::Polyline(vec![v(0, 0), v(2, 0), v(2, 2), v(0, 2)]),
            AbstractCollider::Polyline(vec![v(10, 2), v(8, 2), v(8, 0), v(10, 0)]),
        ]
    );
}

#[test]
fn multiple_twice_is_identical() {
    let row = vec![true, true, false, false, true, true, true];
    let mut pixels = row.clone();
    pixels.extend(row.clone());
    pixels.extend(row);
    for kind in all_kinds() {
        let b = Builder::new(Bitmap::new(7, 3, pixels.clone()).unwrap()).with_type(kind).absolute();
        assert_eq!(b.multiple(), b.multiple());
    }
}

#[test]
fn anchor_setters() {
    let img = Bitmap::new(1, 1, vec![true]).unwrap();
    let b = Builder::new(img);
    assert_eq!(b.clone().center(4, 6).single(), Some(AbstractCollider::Polyline(vec![v(-2, 4)])));
    assert_eq!(b.clone().horisontal(4).single(), Some(AbstractCollider::Polyline(vec![v(-2, 0)])));
    assert_eq!(b.clone().vertical(6).single(), Some(AbstractCollider::Polyline(vec![v(0, 4)])));
    assert_eq!(b.absolute().single(), Some(AbstractCollider::Polyline(vec![v(0, 0)])));
}
