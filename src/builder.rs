use vstd::prelude::*;

use crate::anchor::{vertex_views, Anchor};
use crate::bitmap::Bitmap;
use crate::collider::{collider_of, shapes, AbstractCollider, ColliderType, Shape};
use crate::contour::{drawing_order, image_contours, views};
use crate::geometry::Pixel;
use crate::heights::heights_and_scale;
use crate::scan::boundary_points;

verus! {

/// The colliders of kind `kind` for every contour of `image`, in contour order.
pub open spec fn colliders_of(kind: ColliderType, anchor: Anchor, image: Bitmap) -> Seq<Shape> {
    image_contours(image).map_values(|g: Seq<Pixel>| collider_of(kind, anchor, g))
}

/// The collider of kind `kind` for the first contour of `image`, if it has one.
pub open spec fn first_collider_of(kind: ColliderType, anchor: Anchor, image: Bitmap) -> Option<
    Shape,
> {
    if image_contours(image).len() > 0 {
        Some(collider_of(kind, anchor, image_contours(image)[0]))
    } else {
        None
    }
}

/// Generates colliders from a raster, with a chosen anchor and kind.
#[derive(Clone, Debug)]
pub struct Builder {
    image: Bitmap,
    anchor: Anchor,
    collider_type: ColliderType,
}

fn heightfield(polygon: &Vec<Pixel>, anchor: Anchor) -> (c: AbstractCollider)
    ensures
        c@ == collider_of(ColliderType::Heightfield, anchor, polygon@),
{
    let points = polygon.clone();
    assert(points@ =~= polygon@);
    let (heights, scale) = heights_and_scale(points, anchor);
    AbstractCollider::Heightfield(heights, scale)
}

fn wrap(kind: ColliderType, points: Vec<crate::geometry::Vertex>) -> (c: AbstractCollider)
    requires
        kind != ColliderType::Heightfield,
    ensures
        c@ == match kind {
            ColliderType::Polyline => Shape::Polyline(points@),
            ColliderType::ConvexPolyline => Shape::ConvexPolyline(points@),
            _ => Shape::ConvexHull(points@),
        },
{
    match kind {
        ColliderType::Polyline => AbstractCollider::Polyline(points),
        ColliderType::ConvexPolyline => AbstractCollider::ConvexPolyline(points),
        _ => AbstractCollider::ConvexHull(points),
    }
}

impl Builder {
    pub closed spec fn spec_image(&self) -> Bitmap {
        self.image
    }

    pub closed spec fn spec_anchor(&self) -> Anchor {
        self.anchor
    }

    pub closed spec fn spec_type(&self) -> ColliderType {
        self.collider_type
    }

    pub open spec fn wf(&self) -> bool {
        self.spec_image().wf()
    }

    /// A builder for `image`, centred on the image, making polylines.
    pub fn new(image: Bitmap) -> (b: Builder)
        requires
            image.wf(),
        ensures
            b.wf(),
            b.spec_image() == image,
            b.spec_anchor() == Anchor::Center(image.spec_height() as u32, image.spec_width() as u32),
            b.spec_type() == ColliderType::Polyline,
    {
        let anchor = Anchor::Center(image.height(), image.width());
        Builder { image, anchor, collider_type: ColliderType::Polyline }
    }

    pub fn with_anchor(self, anchor: Anchor) -> (b: Builder)
        ensures
            b.spec_image() == self.spec_image(),
            b.spec_anchor() == anchor,
            b.spec_type() == self.spec_type(),
    {
        Builder { anchor, ..self }
    }

    pub fn center(self, width: u32, height: u32) -> (b: Builder)
        ensures
            b.spec_image() == self.spec_image(),
            b.spec_anchor() == Anchor::Center(height, width),
            b.spec_type() == self.spec_type(),
    {
        self.with_anchor(Anchor::Center(height, width))
    }

    pub fn horisontal(self, width: u32) -> (b: Builder)
        ensures
            b.spec_image() == self.spec_image(),
            b.spec_anchor() == Anchor::HorizontalCenter(width),
            b.spec_type() == self.spec_type(),
    {
        self.with_anchor(Anchor::HorizontalCenter(width))
    }

    pub fn vertical(self, height: u32) -> (b: Builder)
        ensures
            b.spec_image() == self.spec_image(),
            b.spec_anchor() == Anchor::VerticalCenter(height),
            b.spec_type() == self.spec_type(),
    {
        self.with_anchor(Anchor::VerticalCenter(height))
    }

    pub fn absolute(self) -> (b: Builder)
        ensures
            b.spec_image() == self.spec_image(),
            b.spec_anchor() == Anchor::AbsoluteCenter,
            b.spec_type() == self.spec_type(),
    {
        self.with_anchor(Anchor::AbsoluteCenter)
    }

    pub fn with_type(self, collider_type: ColliderType) -> (b: Builder)
        ensures
            b.spec_image() == self.spec_image(),
            b.spec_anchor() == self.spec_anchor(),
            b.spec_type() == collider_type,
    {
        Builder { collider_type, ..self }
    }

    pub fn polyline(self) -> (b: Builder)
        ensures
            b.spec_image() == self.spec_image(),
            b.spec_anchor() == self.spec_anchor(),
            b.spec_type() == ColliderType::Polyline,
    {
        self.with_type(ColliderType::Polyline)
    }

    pub fn convex_polyline(self) -> (b: Builder)
        ensures
            b.spec_image() == self.spec_image(),
            b.spec_anchor() == self.spec_anchor(),
            b.spec_type() == ColliderType::ConvexPolyline,
    {
        self.with_type(ColliderType::ConvexPolyline)
    }

    pub fn convex_hull(self) -> (b: Builder)
        ensures
            b.spec_image() == self.spec_image(),
            b.spec_anchor() == self.spec_anchor(),
            b.spec_type() == ColliderType::ConvexHull,
    {
        self.with_type(ColliderType::ConvexHull)
    }

    pub fn heightfield(self) -> (b: Builder)
        ensures
            b.spec_image() == self.spec_image(),
            b.spec_anchor() == self.spec_anchor(),
            b.spec_type() == ColliderType::Heightfield,
    {
        self.with_type(ColliderType::Heightfield)
    }

    /// One collider for every contour of the image, in contour order.
    pub fn multiple(&self) -> (r: Vec<AbstractCollider>)
        requires
            self.wf(),
        ensures
            shapes(r@) == colliders_of(self.spec_type(), self.spec_anchor(), self.spec_image()),
    {
        let points = boundary_points(&self.image);
        let groups = drawing_order(&points);
        let ghost polys = views(groups@);
        let mut r: Vec<AbstractCollider> = Vec::new();
        if self.collider_type == ColliderType::Heightfield {
            let mut i: usize = 0;
            while i < groups.len()
                invariant
                    self.collider_type == ColliderType::Heightfield,
                    polys == views(groups@),
                    i <= groups@.len(),
                    shapes(r@) == polys.subrange(0, i as int).map_values(
                        |g: Seq<Pixel>| collider_of(self.collider_type, self.anchor, g),
                    ),
                decreases groups@.len() - i,
            {
                let ghost before = shapes(r@);
                let c = heightfield(&groups[i], self.anchor);
                r.push(c);
                i += 1;
                assert(shapes(r@) =~= before.push(c@));
                assert(shapes(r@) =~= polys.subrange(0, i as int).map_values(
                    |g: Seq<Pixel>| collider_of(self.collider_type, self.anchor, g),
                ));
            }
            assert(polys.subrange(0, i as int) =~= polys);
        } else {
            let moved = self.anchor.translate_polygons(&groups);
            assert(vertex_views(moved@).len() == moved@.len());
            let mut i: usize = 0;
            while i < moved.len()
                invariant
                    self.collider_type != ColliderType::Heightfield,
                    polys == views(groups@),
                    vertex_views(moved@) == groups@.map_values(
                        |g: Vec<Pixel>| crate::anchor::translated(self.anchor, g@),
                    ),
                    i <= moved@.len(),
                    moved@.len() == polys.len(),
                    shapes(r@) == polys.subrange(0, i as int).map_values(
                        |g: Seq<Pixel>| collider_of(self.collider_type, self.anchor, g),
                    ),
                decreases moved@.len() - i,
            {
                let ghost before = shapes(r@);
                let pts = moved[i].clone();
                assert(pts@ =~= moved@[i as int]@);
                let c = wrap(self.collider_type, pts);
                r.push(c);
                i += 1;
                assert(vertex_views(moved@)[i - 1] == moved@[i - 1]@);
                assert(polys[i - 1] == groups@[i - 1]@);
                assert(shapes(r@) =~= before.push(c@));
                assert(shapes(r@) =~= polys.subrange(0, i as int).map_values(
                    |g: Seq<Pixel>| collider_of(self.collider_type, self.anchor, g),
                ));
            }
            assert(polys.subrange(0, i as int) =~= polys);
        }
        r
    }

    /// The collider for the first contour of the image, or `None` when the
    /// image has no boundary pixel.
    pub fn single(&self) -> (r: Option<AbstractCollider>)
        requires
            self.wf(),
        ensures
            match r {
                Some(c) => first_collider_of(self.spec_type(), self.spec_anchor(), self.spec_image())
                    == Some(c@),
                None => first_collider_of(self.spec_type(), self.spec_anchor(), self.spec_image())
                    is None,
            },
    {
        let points = boundary_points(&self.image);
        let groups = drawing_order(&points);
        if groups.len() == 0 {
            return None;
        }
        assert(views(groups@)[0] == groups@[0]@);
        if self.collider_type == ColliderType::Heightfield {
            Some(heightfield(&groups[0], self.anchor))
        } else {
            let moved = self.anchor.translate(&groups[0]);
            Some(wrap(self.collider_type, moved))
        }
    }
}

} // verus!
