use vstd::prelude::*;

use crate::anchor::{translated, Anchor};
use crate::geometry::{Pixel, Scale, Vertex};
use crate::heights::{column_profile_of, reference_of, samples};

verus! {

/// The kinds of collider that can be generated.
#[derive(Clone, Copy, Debug, PartialEq, Eq, Structural, Hash)]
pub enum ColliderType {
    Polyline,
    ConvexPolyline,
    ConvexHull,
    Heightfield,
}

impl Default for ColliderType {
    fn default() -> (r: ColliderType)
        ensures
            r == ColliderType::Polyline,
    {
        ColliderType::Polyline
    }
}

/// Collider geometry, ready for a physics backend. Vertices are in
/// half-pixel units (see `Vertex`), and so are heightfield samples.
#[derive(Clone, Debug, PartialEq)]
pub enum AbstractCollider {
    Polyline(Vec<Vertex>),
    ConvexPolyline(Vec<Vertex>),
    ConvexHull(Vec<Vertex>),
    /// Height samples and their scale.
    Heightfield(Vec<i64>, Scale),
}

/// The mathematical content of an `AbstractCollider`.
pub enum Shape {
    Polyline(Seq<Vertex>),
    ConvexPolyline(Seq<Vertex>),
    ConvexHull(Seq<Vertex>),
    Heightfield(Seq<i64>, Scale),
}

impl View for AbstractCollider {
    type V = Shape;

    open spec fn view(&self) -> Shape {
        match self {
            AbstractCollider::Polyline(v) => Shape::Polyline(v@),
            AbstractCollider::ConvexPolyline(v) => Shape::ConvexPolyline(v@),
            AbstractCollider::ConvexHull(v) => Shape::ConvexHull(v@),
            AbstractCollider::Heightfield(h, s) => Shape::Heightfield(h@, *s),
        }
    }
}

/// The views of a vector of colliders.
pub open spec fn shapes(v: Seq<AbstractCollider>) -> Seq<Shape> {
    v.map_values(|c: AbstractCollider| c@)
}

/// The heightfield of a polygon given in pixel positions.
pub open spec fn heightfield_of(anchor: Anchor, polygon: Seq<Pixel>) -> Shape {
    let s = column_profile_of(polygon);
    let h = samples(s, reference_of(anchor, s));
    Shape::Heightfield(
        h,
        if s.len() < 2 { Scale { x: 1, y: 1 } } else { Scale { x: h.len() as usize, y: 1 } },
    )
}

/// The collider of kind `kind` for one contour: the contour moved by `anchor`
/// for the point kinds, its heightfield otherwise.
pub open spec fn collider_of(kind: ColliderType, anchor: Anchor, polygon: Seq<Pixel>) -> Shape {
    match kind {
        ColliderType::Polyline => Shape::Polyline(translated(anchor, polygon)),
        ColliderType::ConvexPolyline => Shape::ConvexPolyline(translated(anchor, polygon)),
        ColliderType::ConvexHull => Shape::ConvexHull(translated(anchor, polygon)),
        ColliderType::Heightfield => heightfield_of(anchor, polygon),
    }
}

impl AbstractCollider {
    /// The points of a point collider; a heightfield has none.
    pub fn points(&self) -> (r: Option<&Vec<Vertex>>)
        ensures
            match self {
                AbstractCollider::Polyline(v) => r == Some(v),
                AbstractCollider::ConvexPolyline(v) => r == Some(v),
                AbstractCollider::ConvexHull(v) => r == Some(v),
                AbstractCollider::Heightfield(_, _) => r is None,
            },
    {
        match self {
            AbstractCollider::Polyline(points) => Some(points),
            AbstractCollider::ConvexPolyline(points) => Some(points),
            AbstractCollider::ConvexHull(points) => Some(points),
            AbstractCollider::Heightfield(_, _) => None,
        }
    }
}

} // verus!
