use vstd::prelude::*;

use crate::anchor::{translated, vertex_views, Anchor};
use crate::bitmap::Bitmap;
use crate::contour::{contours_of, drawing_order, image_contours, views};
use crate::geometry::{Pixel, Vertex};
use crate::scan::{boundary_points, cell_at};

verus! {

/// The frame that the edge functions use: centred on a `rows` by `cols`
/// image when `translate` is set, else the pixel positions themselves.
pub open spec fn edge_anchor(translate: bool, rows: u32, cols: u32) -> Anchor {
    if translate {
        Anchor::Center(rows, cols)
    } else {
        Anchor::Identity
    }
}

/// The contours of `points`, each moved into the frame of `edge_anchor`.
pub open spec fn ordered_edges(points: Seq<Pixel>, translate: bool, rows: u32, cols: u32) -> Seq<
    Seq<Vertex>,
> {
    contours_of(points).map_values(
        |g: Seq<Pixel>| translated(edge_anchor(translate, rows, cols), g),
    )
}

/// The contours of a raster, each moved into the frame of `edge_anchor`.
pub open spec fn image_edges(image: Bitmap, translate: bool) -> Seq<Seq<Vertex>> {
    image_contours(image).map_values(
        |g: Seq<Pixel>| translated(
            edge_anchor(translate, image.spec_height() as u32, image.spec_width() as u32),
            g,
        ),
    )
}

/// Moves pixel positions into the frame centred on a `rows` by `cols` image,
/// with y pointing up.
pub fn translate_vec(v: Vec<Pixel>, rows: u32, cols: u32) -> (r: Vec<Vertex>)
    ensures
        r@ == translated(Anchor::Center(rows, cols), v@),
{
    Anchor::Center(rows, cols).translate(&v)
}

/// Orders boundary pixels into contours (see `drawing_order`), moved into the
/// frame centred on a `rows` by `cols` image when `translate` is set.
pub fn points_to_drawing_order(points: &Vec<Pixel>, translate: bool, rows: u32, cols: u32) -> (r: Vec<
    Vec<Vertex>,
>)
    ensures
        vertex_views(r@) == ordered_edges(points@, translate, rows, cols),
{
    let groups = drawing_order(points);
    let anchor = if translate {
        Anchor::Center(rows, cols)
    } else {
        Anchor::Identity
    };
    let r = anchor.translate_polygons(&groups);
    assert(vertex_views(r@) =~= ordered_edges(points@, translate, rows, cols)) by {
        assert(groups@.map_values(|g: Vec<Pixel>| translated(anchor, g@)) =~= views(
            groups@,
        ).map_values(|g: Seq<Pixel>| translated(anchor, g)));
    }
    r
}

/// The contours of a raster, in drawing order, moved into the frame centred
/// on the image when `translate` is set.
pub fn image_to_edges(image: &Bitmap, translate: bool) -> (r: Vec<Vec<Vertex>>)
    requires
        image.wf(),
    ensures
        vertex_views(r@) == image_edges(*image, translate),
{
    let points = boundary_points(image);
    let r = points_to_drawing_order(&points, translate, image.height(), image.width());
    assert(vertex_views(r@) =~= image_edges(*image, translate));
    r
}

/// The contours of a `rows` by `cols` grid stored row-major in `data`, whose
/// set cells (see `cell_at`) are the opaque pixels.
pub fn march_edges(data: &[usize], rows: usize, cols: usize, translate: bool) -> (r: Vec<Vec<Vertex>>)
    requires
        rows <= u32::MAX,
        cols <= u32::MAX,
        rows * cols <= usize::MAX,
    ensures
        exists|b: Bitmap|
            {
                &&& b.wf()
                &&& b.spec_width() == cols
                &&& b.spec_height() == rows
                &&& forall|c: int, r: int|
                    0 <= c < cols && 0 <= r < rows ==> #[trigger] b.opaque(c, r) == (cell_at(
                        r,
                        c,
                        rows as int,
                        cols as int,
                        data@,
                    ) == 1)
                &&& vertex_views(r@) == image_edges(b, translate)
            },
{
    let b = Bitmap::from_grid(data, rows, cols);
    image_to_edges(&b, translate)
}

/// The vertices of all contours, one contour after the other.
fn flatten(groups: Vec<Vec<Vertex>>) -> (r: Vec<Vertex>)
    ensures
        r@ == vertex_views(groups@).flatten(),
{
    let mut r: Vec<Vertex> = Vec::new();
    let mut i: usize = 0;
    while i < groups.len()
        invariant
            i <= groups@.len(),
            r@ == vertex_views(groups@.subrange(0, i as int)).flatten(),
        decreases groups@.len() - i,
    {
        let ghost before = r@;
        let mut j: usize = 0;
        while j < groups[i].len()
            invariant
                i < groups@.len(),
                j <= groups@[i as int]@.len(),
                r@ == before + groups@[i as int]@.subrange(0, j as int),
            decreases groups@[i as int]@.len() - j,
        {
            r.push(groups[i][j]);
            j += 1;
            assert(r@ =~= before + groups@[i as int]@.subrange(0, j as int));
        }
        proof {
            let vs = vertex_views(groups@.subrange(0, i as int));
            assert(vertex_views(groups@.subrange(0, i + 1)) =~= vs.push(groups@[i as int]@));
            vs.lemma_flatten_push(groups@[i as int]@);
            assert(groups@[i as int]@.subrange(0, j as int) =~= groups@[i as int]@);
        }
        i += 1;
    }
    assert(groups@.subrange(0, i as int) =~= groups@);
    r
}

/// The vertices of all contours of the image, one contour after the other,
/// centred on the image.
pub fn single_image_edge_translated(image: &Bitmap) -> (r: Vec<Vertex>)
    requires
        image.wf(),
    ensures
        r@ == image_edges(*image, true).flatten(),
{
    flatten(image_to_edges(image, true))
}

/// The vertices of all contours of the image, one contour after the other,
/// at their own pixel positions.
pub fn single_image_edge_raw(image: &Bitmap) -> (r: Vec<Vertex>)
    requires
        image.wf(),
    ensures
        r@ == image_edges(*image, false).flatten(),
{
    flatten(image_to_edges(image, false))
}

/// Every contour of the image, centred on the image.
pub fn multi_image_edge_translated(image: &Bitmap) -> (r: Vec<Vec<Vertex>>)
    requires
        image.wf(),
    ensures
        vertex_views(r@) == image_edges(*image, true),
{
    image_to_edges(image, true)
}

/// Every contour of the image, at its own positions.
pub fn multi_image_edges_raw(image: &Bitmap) -> (r: Vec<Vec<Vertex>>)
    requires
        image.wf(),
    ensures
        vertex_views(r@) == image_edges(*image, false),
{
    image_to_edges(image, false)
}

} // verus!
