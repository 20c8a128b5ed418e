use vstd::prelude::*;

use crate::anchor::{translated, Anchor};
use crate::bitmap::Bitmap;
use crate::builder::{colliders_of, first_collider_of};
use crate::collider::{heightfield_of, ColliderType, Shape};
use crate::contour::{chain_from, image_contours, lemma_contours_partition, take_first};
use crate::geometry::{Pixel, Vertex};
use crate::heights::{
    column_profile_of, covers_columns, drawn_from, increasing_columns, lemma_column_profile_exists,
    reference_of, samples,
};
use crate::perimeter::{
    far_from, in_rect, lemma_blocks_boundary, lemma_rim_at, lemma_rows_contents,
    lemma_take_first_contents, lemma_seed_unfold, lemma_start, lemma_walk, on_rim, ring_len,
    ring_ok, two_blocks, Rect,
};
use crate::scan::{boundary_of, boundary_upto, is_boundary, row_boundary};

verus! {

proof fn lemma_no_boundary_row(b: Bitmap, r: int, c: int)
    requires
        forall|x: int, y: int| !b.opaque(x, y),
    ensures
        row_boundary(b, r, c) == Seq::<Pixel>::empty(),
    decreases c,
{
    if c > 0 {
        lemma_no_boundary_row(b, r, c - 1);
        assert(!is_boundary(b, c - 1, r));
    }
}

proof fn lemma_no_boundary(b: Bitmap, r: int)
    requires
        forall|x: int, y: int| !b.opaque(x, y),
    ensures
        boundary_upto(b, r) == Seq::<Pixel>::empty(),
    decreases r,
{
    if r > 0 {
        lemma_no_boundary(b, r - 1);
        lemma_no_boundary_row(b, r - 1, b.spec_width() as int);
        assert(Seq::<Pixel>::empty() + Seq::<Pixel>::empty() =~= Seq::<Pixel>::empty());
    }
}

/// A raster without an opaque pixel gives no collider: `single` finds none
/// and `multiple` returns an empty list, whatever the kind and anchor.
pub proof fn lemma_transparent_gives_nothing(kind: ColliderType, anchor: Anchor, image: Bitmap)
    requires
        forall|x: int, y: int| !image.opaque(x, y),
    ensures
        colliders_of(kind, anchor, image).len() == 0,
        first_collider_of(kind, anchor, image) is None,
{
    lemma_no_boundary(image, image.spec_height() as int);
    assert(boundary_of(image) == Seq::<Pixel>::empty());
    assert(image_contours(image) =~= Seq::<Seq<Pixel>>::empty());
}

/// `single` finds no collider exactly when the raster has no boundary pixel.
pub proof fn lemma_single_none_iff_no_boundary(kind: ColliderType, anchor: Anchor, image: Bitmap)
    ensures
        first_collider_of(kind, anchor, image) is None <==> boundary_of(image).len() == 0,
{
    broadcast use vstd::seq_lib::group_to_multiset_ensures;

    let points = boundary_of(image);
    lemma_contours_partition(points);
    if image_contours(image).len() == 0 {
        assert(image_contours(image).flatten() =~= Seq::<Pixel>::empty());
        assert(points.to_multiset().len() == 0);
    }
}

proof fn lemma_group_counts(gs: Seq<Seq<Pixel>>, i: int, x: Pixel)
    requires
        0 <= i < gs.len(),
    ensures
        gs[i].to_multiset().count(x) <= gs.flatten().to_multiset().count(x),
    decreases gs.len(),
{
    broadcast use vstd::seq_lib::lemma_multiset_commutative, vstd::multiset::group_multiset_axioms;

    let n = gs.len() - 1;
    gs.drop_last().lemma_flatten_push(gs.last());
    assert(gs.drop_last().push(gs.last()) =~= gs);
    if i < n {
        lemma_group_counts(gs.drop_last(), i, x);
        assert(gs.drop_last()[i] == gs[i]);
    }
}

/// The pixels of each contour of a raster are distinct.
pub proof fn lemma_contour_pixels_distinct(image: Bitmap, i: int)
    requires
        0 <= i < image_contours(image).len(),
    ensures
        image_contours(image)[i].no_duplicates(),
{
    broadcast use vstd::seq_lib::group_to_multiset_ensures;

    let points = boundary_of(image);
    let gs = image_contours(image);
    lemma_rows_contents(image, image.spec_height() as int);
    lemma_contours_partition(points);
    points.lemma_multiset_has_no_duplicates();
    assert forall|x: Pixel| gs[i].to_multiset().contains(x) implies gs[i].to_multiset().count(x)
        == 1 by {
        lemma_group_counts(gs, i, x);
        assert(gs.flatten().to_multiset().count(x) == points.to_multiset().count(x));
    }
    gs[i].lemma_multiset_has_no_duplicates_conv();
}

/// Every pixel of the raster is opaque.
pub open spec fn all_opaque(b: Bitmap) -> bool {
    forall|x: int, y: int|
        0 <= x < b.spec_width() && 0 <= y < b.spec_height() ==> #[trigger] b.opaque(x, y)
}

proof fn lemma_filled_is_boundary(b: Bitmap, c: int, r: int)
    requires
        all_opaque(b),
        b.spec_width() >= 2,
        b.spec_height() >= 2,
        0 <= c < b.spec_width(),
        0 <= r < b.spec_height(),
    ensures
        is_boundary(b, c, r) == (c == 0 || c == b.spec_width() - 1 || r == 0 || r
            == b.spec_height() - 1),
{
    assert(b.opaque(c, r));
    if 0 < c < b.spec_width() - 1 && 0 < r < b.spec_height() - 1 {
        assert(b.opaque(c, r + 1) && b.opaque(c, r - 1) && b.opaque(c + 1, r) && b.opaque(c - 1, r));
        assert(b.opaque(c + 1, r + 1) && b.opaque(c - 1, r - 1) && b.opaque(c - 1, r + 1)
            && b.opaque(c + 1, r - 1));
    }
}

proof fn lemma_filled_row(b: Bitmap, r: int, c: int)
    requires
        all_opaque(b),
        b.spec_width() >= 2,
        b.spec_height() >= 2,
        0 <= r < b.spec_height(),
        0 <= c <= b.spec_width(),
    ensures
        (r == 0 || r == b.spec_height() - 1) ==> row_boundary(b, r, c).len() == c,
        (0 < r < b.spec_height() - 1) ==> row_boundary(b, r, c).len() == (if c > 0 {
            1int
        } else {
            0
        }) + (if c == b.spec_width() {
            1int
        } else {
            0
        }),
    decreases c,
{
    if c > 0 {
        lemma_filled_row(b, r, c - 1);
        lemma_filled_is_boundary(b, c - 1, r);
    }
}

proof fn lemma_filled_rows(b: Bitmap, r: int)
    requires
        all_opaque(b),
        b.spec_width() >= 2,
        b.spec_height() >= 2,
        0 <= r <= b.spec_height(),
    ensures
        boundary_upto(b, r).len() == if r == 0 {
            0
        } else if r < b.spec_height() {
            b.spec_width() + 2 * (r - 1)
        } else {
            2 * b.spec_width() + 2 * (r - 2)
        },
    decreases r,
{
    if r > 0 {
        lemma_filled_rows(b, r - 1);
        lemma_filled_row(b, r - 1, b.spec_width() as int);
    }
}

/// The boundary of a fully opaque `w` by `h` raster, `w` and `h` at least
/// two, is its perimeter: `2 * w + 2 * h - 4` pixels.
pub proof fn lemma_filled_rectangle_boundary(b: Bitmap)
    requires
        all_opaque(b),
        b.spec_width() >= 2,
        b.spec_height() >= 2,
    ensures
        boundary_of(b).len() == 2 * b.spec_width() + 2 * b.spec_height() - 4,
{
    lemma_filled_rows(b, b.spec_height() as int);
}

/// Chaining a pool that holds the ring of `r` once, and otherwise only pixels
/// of `rest_ring`, starting from a pixel of `r`, closes the ring of `r` as one
/// group and carries on with the pixels of `rest_ring`.
proof fn lemma_walk_from_pool(r: Rect, far: Rect, pool: Seq<Pixel>, groups: Seq<Seq<Pixel>>) -> (res: (
    Seq<Pixel>,
    Seq<Pixel>,
))
    requires
        ring_ok(r),
        pool.no_duplicates(),
        pool.len() > 0,
        on_rim(r, pool[0]),
        forall|p: Pixel| #[trigger] pool.contains(p) <==> (on_rim(r, p) || on_rim(far, p)),
        forall|p: Pixel| on_rim(far, p) ==> #[trigger] far_from(r, p),
    ensures
        chain_from(pool, Seq::empty(), groups) == chain_from(res.0, Seq::empty(), groups.push(res.1)),
        res.1.len() == ring_len(r),
        res.0.no_duplicates(),
        forall|p: Pixel| #[trigger] res.0.contains(p) <==> on_rim(far, p),
{
    lemma_seed_unfold(pool, groups);
    assert forall|p: Pixel| #[trigger] pool.contains(p) implies on_rim(r, p) || far_from(
        r,
        p,
    ) by {
        if !on_rim(r, p) {
            assert(on_rim(far, p));
        }
    }
    lemma_start(r, pool);
    lemma_take_first_contents(pool);
    let res = lemma_walk(r, take_first(pool), seq![pool[0]], groups);
    assert forall|p: Pixel| #[trigger] res.0.contains(p) <==> on_rim(far, p) by {
        if on_rim(far, p) {
            assert(pool.contains(p));
            assert(far_from(r, p));
        }
    }
    res
}

proof fn lemma_ring_ok_in_image(b: Bitmap, a: Rect, c: Rect)
    requires
        two_blocks(b, a, c),
        (a.w >= 3 && a.h >= 3) || (a.w == 2 && a.h == 2),
    ensures
        ring_ok(a),
{
    b.lemma_sides_bounded();
    assert(b.opaque(a.x0, a.y0));
    assert(b.opaque(a.x0 + a.w - 1, a.y0 + a.h - 1));
}

/// A raster opaque on two blocks, the second at least two columns to the
/// right of the first, each a square of side at least two (or a rectangle
/// of sides at least three), has exactly two contours: the ring of each
/// block.
pub proof fn lemma_two_blocks_two_contours(b: Bitmap, a: Rect, c: Rect)
    requires
        two_blocks(b, a, c),
        (a.w >= 3 && a.h >= 3) || (a.w == 2 && a.h == 2),
        (c.w >= 3 && c.h >= 3) || (c.w == 2 && c.h == 2),
    ensures
        image_contours(b).len() == 2,
        (image_contours(b)[0].len() == ring_len(a) && image_contours(b)[1].len() == ring_len(c)) || (
        image_contours(b)[0].len() == ring_len(c) && image_contours(b)[1].len() == ring_len(a)),
{
    lemma_ring_ok_in_image(b, a, c);
    assert(c.x0 >= 0 && c.y0 >= 0 && c.x0 + c.w <= u32::MAX + 1 && c.y0 + c.h <= u32::MAX + 1) by {
        b.lemma_sides_bounded();
        assert(b.opaque(c.x0, c.y0));
        assert(b.opaque(c.x0 + c.w - 1, c.y0 + c.h - 1));
    }
    let pool = boundary_of(b);
    lemma_blocks_boundary(b, a, c);
    let pa = lemma_rim_at(a, 0);
    assert(pool.contains(pa));
    assert(pool.len() > 0);
    assert(pool.contains(pool[0]));
    let first_is_a = on_rim(a, pool[0]);
    let (r1, r2) = if first_is_a { (a, c) } else { (c, a) };
    assert forall|p: Pixel| on_rim(r2, p) implies #[trigger] far_from(r1, p) by {}
    assert forall|p: Pixel| on_rim(r1, p) implies #[trigger] far_from(r2, p) by {}
    let e = Seq::<Seq<Pixel>>::empty();
    let (rest, c1) = lemma_walk_from_pool(r1, r2, pool, e);
    let p2 = lemma_rim_at(r2, 0);
    assert(rest.contains(p2));
    assert(rest.contains(rest[0]));
    let (rest2, c2) = lemma_walk_from_pool(r2, Rect { x0: 0, y0: 0, w: 0, h: 0 }, rest, e.push(c1));
    if rest2.len() > 0 {
        assert(rest2.contains(rest2[0]));
    }
    assert(chain_from(rest2, Seq::empty(), e.push(c1).push(c2)) == e.push(c1).push(c2));
}

/// A fully opaque `w` by `h` raster, `w` and `h` at least three (or both
/// two), has one contour, which runs round its whole perimeter of
/// `2 * w + 2 * h - 4` pixels.
pub proof fn lemma_filled_rectangle_one_contour(b: Bitmap)
    requires
        all_opaque(b),
        (b.spec_width() >= 3 && b.spec_height() >= 3) || (b.spec_width() == 2 && b.spec_height() == 2),
    ensures
        image_contours(b).len() == 1,
        image_contours(b)[0].len() == 2 * b.spec_width() + 2 * b.spec_height() - 4,
{
    let a = Rect { x0: 0, y0: 0, w: b.spec_width() as int, h: b.spec_height() as int };
    let none = Rect { x0: b.spec_width() as int + 2, y0: 0, w: 0, h: 0 };
    assert forall|x: int, y: int| #[trigger] b.opaque(x, y) <==> (in_rect(a, x, y) || in_rect(none, x, y)) by {
        if in_rect(a, x, y) {
            assert(b.opaque(x, y));
        }
    }
    assert(two_blocks(b, a, none));
    lemma_ring_ok_in_image(b, a, none);
    let pool = boundary_of(b);
    lemma_blocks_boundary(b, a, none);
    let pa = lemma_rim_at(a, 0);
    assert(pool.contains(pa));
    assert(pool.contains(pool[0]));
    let e = Seq::<Seq<Pixel>>::empty();
    let (rest, c1) = lemma_walk_from_pool(a, none, pool, e);
    if rest.len() > 0 {
        assert(rest.contains(rest[0]));
    }
    assert(chain_from(rest, Seq::empty(), e.push(c1)) == e.push(c1));
}

/// Centring on an image of height `h` and width `w` puts the top-left pixel
/// at `(-(w / 2 - 1), h / 2 - 1)`, held in half-pixel units.
pub proof fn lemma_center_maps_origin(h: u32, w: u32, polygon: Seq<Pixel>, i: int)
    requires
        0 <= i < polygon.len(),
        polygon[i] == (Pixel { x: 0, y: 0 }),
    ensures
        translated(Anchor::Center(h, w), polygon)[i] == (Vertex {
            x: -(w as int - 2) as i64,
            y: (h as int - 2) as i64,
        }),
{
}

/// The `Identity` anchor leaves a polygon as it is: the same number of points,
/// each at the position of its pixel.
pub proof fn lemma_identity_round_trip(polygon: Seq<Pixel>)
    ensures
        translated(Anchor::Identity, polygon).len() == polygon.len(),
        forall|i: int|
            0 <= i < polygon.len() ==> #[trigger] translated(Anchor::Identity, polygon)[i].x == 2
                * polygon[i].x && translated(Anchor::Identity, polygon)[i].y == 2 * polygon[i].y,
{
}

proof fn lemma_samples_shape(s: Seq<Pixel>, dy2: int)
    requires
        increasing_columns(s),
    ensures
        s.len() >= 2 ==> samples(s, dy2).len() == s.last().x - s[0].x,
        s.len() < 2 ==> samples(s, dy2).len() == 0,
        forall|k: int|
            0 <= k < samples(s, dy2).len() ==> exists|i: int|
                1 <= i < s.len() && #[trigger] samples(s, dy2)[k] == (dy2 - 2 * s[i].y) as i64,
    decreases s.len(),
{
    reveal(increasing_columns);
    if s.len() >= 2 {
        let t = s.drop_last();
        assert(increasing_columns(t)) by {
            reveal(increasing_columns);
            assert forall|i: int, j: int| 0 <= i < j < t.len() implies #[trigger] t[i].x
                < #[trigger] t[j].x by {
                assert(s[i].x < s[j].x);
            }
        }
        lemma_samples_shape(t, dy2);
        let n = s.len() as int;
        if n > 2 {
            assert(t.last() == s[n - 2]);
            assert(s[0].x < s[n - 2].x);
        }
        assert(s[n - 2].x < s[n - 1].x);
        let tail = Seq::new((s.last().x - s[n - 2].x) as nat, |k: int| (dy2 - 2 * s.last().y) as i64);
        let whole = samples(t, dy2) + tail;
        assert forall|k: int| 0 <= k < whole.len() implies exists|i: int|
            1 <= i < s.len() && #[trigger] whole[k] == (dy2 - 2 * s[i].y) as i64 by {
            if k < samples(t, dy2).len() {
                let i = choose|i: int| 1 <= i < t.len() && #[trigger] samples(t, dy2)[k] == (dy2 - 2
                    * t[i].y) as i64;
                assert(whole[k] == (dy2 - 2 * s[i].y) as i64);
            } else {
                assert(whole[k] == (dy2 - 2 * s[n - 1].y) as i64);
            }
        }
    }
}

/// A heightfield's x scale is its number of samples, and its y scale is one;
/// a polygon of fewer than two columns has no samples and the scale `(1, 1)`.
pub proof fn lemma_heightfield_scale(anchor: Anchor, polygon: Seq<Pixel>)
    ensures
        heightfield_of(anchor, polygon) matches Shape::Heightfield(h, scale) && scale.y == 1 && (
        h.len() > 0 ==> scale.x == h.len()) && (h.len() == 0 ==> scale.x == 1),
{
    lemma_column_profile_exists(polygon);
    let s = column_profile_of(polygon);
    lemma_samples_shape(s, reference_of(anchor, s));
    if s.len() >= 2 {
        reveal(increasing_columns);
        assert(s[0].x < s.last().x);
    }
}

/// Some pixel of `polygon` lies in column `x`.
pub open spec fn has_column(polygon: Seq<Pixel>, x: int) -> bool {
    exists|k: int| 0 <= k < polygon.len() && (#[trigger] polygon[k]).x == x
}

/// A flat strip, one row `y0` covering the columns `a .. a + w`, gives
/// `w - 1` equal height samples.
pub proof fn lemma_flat_strip(anchor: Anchor, polygon: Seq<Pixel>, y0: u32, a: int, w: int)
    requires
        w >= 1,
        forall|k: int| 0 <= k < polygon.len() ==> (#[trigger] polygon[k]).y == y0,
        forall|k: int| 0 <= k < polygon.len() ==> a <= (#[trigger] polygon[k]).x < a + w,
        forall|x: int| a <= x < a + w ==> #[trigger] has_column(polygon, x),
    ensures
        heightfield_of(anchor, polygon) matches Shape::Heightfield(h, _) && h.len() == w - 1 && (
        forall|k: int| 0 <= k < h.len() ==> #[trigger] h[k] == h[0]),
{
    lemma_column_profile_exists(polygon);
    let s = column_profile_of(polygon);
    let dy2 = reference_of(anchor, s);
    lemma_samples_shape(s, dy2);
    assert forall|i: int| 0 <= i < s.len() implies (#[trigger] s[i]).y == y0 && a <= s[i].x < a
        + w by {
        reveal(drawn_from);
        assert(polygon.contains(s[i]));
    }
    assert(has_column(polygon, a) && has_column(polygon, a + w - 1));
    let k0 = choose|k: int| 0 <= k < polygon.len() && (#[trigger] polygon[k]).x == a;
    let k1 = choose|k: int| 0 <= k < polygon.len() && (#[trigger] polygon[k]).x == a + w - 1;
    assert(exists|i: int| 0 <= i < s.len() && (#[trigger] s[i]).x == polygon[k0].x) by {
        reveal(covers_columns);
        assert(0 <= k0 < polygon.len());
    }
    assert(exists|i: int| 0 <= i < s.len() && (#[trigger] s[i]).x == polygon[k1].x) by {
        reveal(covers_columns);
        assert(0 <= k1 < polygon.len());
    }
    let i0 = choose|i: int| 0 <= i < s.len() && (#[trigger] s[i]).x == polygon[k0].x;
    let i1 = choose|i: int| 0 <= i < s.len() && (#[trigger] s[i]).x == polygon[k1].x;
    reveal(increasing_columns);
    if i0 > 0 {
        assert(s[0].x < s[i0].x);
    }
    if i1 < s.len() - 1 {
        assert(s[i1].x < s.last().x);
    }
    if w >= 2 {
        assert(i0 != i1);
    }
    let h = samples(s, dy2);
    assert forall|k: int| 0 <= k < h.len() implies h[k] == (dy2 - 2 * y0) as i64 by {
        let i = choose|i: int| 1 <= i < s.len() && #[trigger] h[k] == (dy2 - 2 * s[i].y) as i64;
    }
}

/// Two runs of `multiple` on the same builder state give the same colliders
/// in the same order: the result is a function of the image, anchor and kind.
pub proof fn lemma_multiple_deterministic(
    kind: ColliderType,
    anchor: Anchor,
    image: Bitmap,
    first: Seq<Shape>,
    second: Seq<Shape>,
)
    requires
        first == colliders_of(kind, anchor, image),
        second == colliders_of(kind, anchor, image),
    ensures
        first == second,
{
}

} // verus!
