use vstd::prelude::*;

use crate::geometry::{Pixel, Vertex};

verus! {

/// How pixel positions (origin top left, rows growing downwards) are moved
/// into a target frame.
#[derive(Clone, Copy, Debug, PartialEq, Eq, Structural)]
pub enum Anchor {
    /// Centred on an image of the given height and width, with y pointing up.
    Center(u32, u32),
    /// Centred horizontally on an image of the given width, with y pointing up.
    HorizontalCenter(u32),
    /// Centred vertically on an image of the given height, with y pointing up.
    VerticalCenter(u32),
    /// Shifted by the centroid of the points being moved, axes unchanged.
    AbsoluteCenter,
    /// Left as they are.
    Identity,
}

/// The sum of the x coordinates of `s`.
pub open spec fn sum_x(s: Seq<Pixel>) -> int
    decreases s.len(),
{
    if s.len() == 0 {
        0
    } else {
        sum_x(s.drop_last()) + s.last().x
    }
}

/// The sum of the y coordinates of `s`.
pub open spec fn sum_y(s: Seq<Pixel>) -> int
    decreases s.len(),
{
    if s.len() == 0 {
        0
    } else {
        sum_y(s.drop_last()) + s.last().y
    }
}

/// The centroid of a non-empty point set, each coordinate rounded down to a
/// whole pixel.
pub open spec fn centroid(s: Seq<Pixel>) -> (int, int)
    recommends
        s.len() > 0,
{
    (sum_x(s) / s.len() as int, sum_y(s) / s.len() as int)
}

/// Where `anchor` puts `p`, in half-pixel units; `center` is the centroid that
/// `AbsoluteCenter` subtracts.
pub open spec fn anchored(anchor: Anchor, center: (int, int), p: Pixel) -> Vertex {
    let (x, y) = (p.x as int, p.y as int);
    match anchor {
        Anchor::Center(h, w) => Vertex { x: (2 * x - w + 2) as i64, y: (h - 2 - 2 * y) as i64 },
        Anchor::HorizontalCenter(w) => Vertex { x: (2 * x - w + 2) as i64, y: (-2 * y) as i64 },
        Anchor::VerticalCenter(h) => Vertex { x: (2 * x) as i64, y: (h - 2 - 2 * y) as i64 },
        Anchor::AbsoluteCenter => Vertex {
            x: (2 * (x - center.0)) as i64,
            y: (2 * (y - center.1)) as i64,
        },
        Anchor::Identity => Vertex { x: (2 * x) as i64, y: (2 * y) as i64 },
    }
}

/// A polygon moved by `anchor`, point for point; `AbsoluteCenter` uses the
/// centroid of this polygon.
pub open spec fn translated(anchor: Anchor, polygon: Seq<Pixel>) -> Seq<Vertex> {
    polygon.map_values(|p: Pixel| anchored(anchor, centroid(polygon), p))
}

/// The views of a vector of vectors of vertices.
pub open spec fn vertex_views(v: Seq<Vec<Vertex>>) -> Seq<Seq<Vertex>> {
    v.map_values(|g: Vec<Vertex>| g@)
}

proof fn lemma_sums_bounded(s: Seq<Pixel>)
    ensures
        0 <= sum_x(s) <= s.len() * 0xffff_ffff,
        0 <= sum_y(s) <= s.len() * 0xffff_ffff,
    decreases s.len(),
{
    if s.len() > 0 {
        lemma_sums_bounded(s.drop_last());
    }
}

proof fn lemma_quotient_bounded(sum: int, n: int)
    requires
        n > 0,
        0 <= sum <= n * 0xffff_ffff,
    ensures
        0 <= sum / n <= 0xffff_ffff,
{
    assert(sum / n <= (n * 0xffff_ffff) / n) by (nonlinear_arith)
        requires n > 0, 0 <= sum <= n * 0xffff_ffff;
    assert((n * 0xffff_ffff) / n == 0xffff_ffff) by (nonlinear_arith)
        requires n > 0;
    assert(0 <= sum / n) by (nonlinear_arith)
        requires n > 0, 0 <= sum;
}

/// The centroid of `polygon`, each coordinate rounded down, or `None` for an
/// empty polygon.
pub fn center_of(polygon: &Vec<Pixel>) -> (c: Option<Pixel>)
    ensures
        polygon@.len() == 0 <==> c is None,
        c matches Some(p) ==> (p.x as int, p.y as int) == centroid(polygon@),
{
    let n = polygon.len();
    if n == 0 {
        return None;
    }
    let mut sx: u128 = 0;
    let mut sy: u128 = 0;
    let mut i: usize = 0;
    while i < n
        invariant
            n == polygon@.len(),
            i <= n,
            sx == sum_x(polygon@.subrange(0, i as int)),
            sy == sum_y(polygon@.subrange(0, i as int)),
            n <= usize::MAX,
        decreases n - i,
    {
        proof {
            lemma_sums_bounded(polygon@.subrange(0, i as int));
            assert(polygon@.subrange(0, i + 1).drop_last() =~= polygon@.subrange(0, i as int));
            assert(i * 0xffff_ffff + 0xffff_ffff <= 0xffff_ffff_ffff_ffff_ffff_ffff) by (
            nonlinear_arith)
                requires i < n, n <= usize::MAX;
        }
        sx = sx + polygon[i].x as u128;
        sy = sy + polygon[i].y as u128;
        i += 1;
    }
    assert(polygon@.subrange(0, n as int) =~= polygon@);
    proof {
        lemma_sums_bounded(polygon@);
        lemma_quotient_bounded(sx as int, n as int);
        lemma_quotient_bounded(sy as int, n as int);
    }
    Some(Pixel { x: (sx / n as u128) as u32, y: (sy / n as u128) as u32 })
}

fn anchor_point(anchor: Anchor, center: Pixel, p: Pixel) -> (v: Vertex)
    ensures
        v == anchored(anchor, (center.x as int, center.y as int), p),
{
    let (x, y) = (p.x as i64, p.y as i64);
    match anchor {
        Anchor::Center(h, w) => Vertex { x: 2 * x - w as i64 + 2, y: h as i64 - 2 - 2 * y },
        Anchor::HorizontalCenter(w) => Vertex { x: 2 * x - w as i64 + 2, y: 0 - 2 * y },
        Anchor::VerticalCenter(h) => Vertex { x: 2 * x, y: h as i64 - 2 - 2 * y },
        Anchor::AbsoluteCenter => Vertex {
            x: 2 * (x - center.x as i64),
            y: 2 * (y - center.y as i64),
        },
        Anchor::Identity => Vertex { x: 2 * x, y: 2 * y },
    }
}

fn move_points(anchor: Anchor, center: Pixel, polygon: &Vec<Pixel>) -> (r: Vec<Vertex>)
    ensures
        r@ == polygon@.map_values(|p: Pixel| anchored(anchor, (center.x as int, center.y as int), p)),
{
    let mut r: Vec<Vertex> = Vec::new();
    let mut i: usize = 0;
    while i < polygon.len()
        invariant
            i <= polygon@.len(),
            r@ == polygon@.subrange(0, i as int).map_values(
                |p: Pixel| anchored(anchor, (center.x as int, center.y as int), p),
            ),
        decreases polygon@.len() - i,
    {
        r.push(anchor_point(anchor, center, polygon[i]));
        i += 1;
        proof {
            assert(r@ =~= polygon@.subrange(0, i as int).map_values(
                |p: Pixel| anchored(anchor, (center.x as int, center.y as int), p),
            ));
        }
    }
    assert(polygon@.subrange(0, i as int) =~= polygon@);
    r
}

impl Anchor {
    /// Moves every point of `polygon` into this anchor's frame.
    pub fn translate(&self, polygon: &Vec<Pixel>) -> (r: Vec<Vertex>)
        ensures
            r@ == translated(*self, polygon@),
    {
        let center = match center_of(polygon) {
            Some(c) => c,
            None => Pixel { x: 0, y: 0 },
        };
        let r = move_points(*self, center, polygon);
        assert(r@ =~= translated(*self, polygon@));
        r
    }

    /// Moves every polygon into this anchor's frame, in order. The image
    /// anchors use one offset for all polygons; `AbsoluteCenter` takes the
    /// centroid of each polygon on its own.
    pub fn translate_polygons(&self, polygons: &Vec<Vec<Pixel>>) -> (r: Vec<Vec<Vertex>>)
        ensures
            vertex_views(r@) == polygons@.map_values(|g: Vec<Pixel>| translated(*self, g@)),
    {
        let mut r: Vec<Vec<Vertex>> = Vec::new();
        let mut i: usize = 0;
        while i < polygons.len()
            invariant
                i <= polygons@.len(),
                vertex_views(r@) == polygons@.subrange(0, i as int).map_values(
                    |g: Vec<Pixel>| translated(*self, g@),
                ),
            decreases polygons@.len() - i,
        {
            let ghost before = vertex_views(r@);
            let moved = self.translate(&polygons[i]);
            r.push(moved);
            i += 1;
            proof {
                assert(vertex_views(r@) =~= before.push(moved@));
                assert(vertex_views(r@) =~= polygons@.subrange(0, i as int).map_values(
                    |g: Vec<Pixel>| translated(*self, g@),
                ));
            }
        }
        assert(polygons@.subrange(0, i as int) =~= polygons@);
        r
    }
}

} // verus!
