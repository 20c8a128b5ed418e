use vstd::prelude::*;

use crate::bitmap::Bitmap;
use crate::contour::{chain_from, chaining_measure, find_from, take_first};
use crate::geometry::{unit_apart, Pixel};
use crate::scan::{boundary_of, boundary_upto, is_boundary, row_boundary};

verus! {

/// An axis-aligned rectangle of pixels: columns `x0 .. x0 + w`, rows
/// `y0 .. y0 + h`.
pub struct Rect {
    pub x0: int,
    pub y0: int,
    pub w: int,
    pub h: int,
}

/// `p` lies in the rectangle.
pub open spec fn in_rect(r: Rect, x: int, y: int) -> bool {
    r.x0 <= x < r.x0 + r.w && r.y0 <= y < r.y0 + r.h
}

/// `p` lies on the outer ring of the rectangle.
pub open spec fn on_rim(r: Rect, p: Pixel) -> bool {
    in_rect(r, p.x as int, p.y as int) && (p.x == r.x0 || p.x == r.x0 + r.w - 1 || p.y == r.y0
        || p.y == r.y0 + r.h - 1)
}

/// No pixel of the rectangle is one unit from `p`.
pub open spec fn far_from(r: Rect, p: Pixel) -> bool {
    !(r.x0 - 1 <= p.x <= r.x0 + r.w && r.y0 - 1 <= p.y <= r.y0 + r.h)
}

/// The rectangle's ring is a simple cycle of pixel positions.
pub open spec fn ring_ok(r: Rect) -> bool {
    &&& r.x0 >= 0
    &&& r.y0 >= 0
    &&& r.x0 + r.w <= u32::MAX + 1
    &&& r.y0 + r.h <= u32::MAX + 1
    &&& (r.w >= 3 && r.h >= 3) || (r.w == 2 && r.h == 2)
}

/// The number of pixels on the rectangle's ring.
pub open spec fn ring_len(r: Rect) -> int {
    2 * r.w + 2 * r.h - 4
}

proof fn lemma_row_contents(b: Bitmap, r: int, c: int)
    requires
        0 <= r <= u32::MAX,
        0 <= c <= u32::MAX + 1,
    ensures
        forall|i: int|
            0 <= i < row_boundary(b, r, c).len() ==> (#[trigger] row_boundary(b, r, c)[i]).y == r
                && row_boundary(b, r, c)[i].x < c,
        forall|i: int, j: int|
            0 <= i < j < row_boundary(b, r, c).len() ==> (#[trigger] row_boundary(b, r, c)[i]).x
                < (#[trigger] row_boundary(b, r, c)[j]).x,
        forall|p: Pixel|
            #[trigger] row_boundary(b, r, c).contains(p) <==> (p.y == r && p.x < c && is_boundary(
                b,
                p.x as int,
                r,
            )),
    decreases c,
{
    if c > 0 {
        lemma_row_contents(b, r, c - 1);
        let rest = row_boundary(b, r, c - 1);
        let q = Pixel { x: (c - 1) as u32, y: r as u32 };
        if is_boundary(b, c - 1, r) {
            assert forall|p: Pixel| #[trigger] rest.push(q).contains(p) <==> (rest.contains(p) || p
                == q) by {
                if p == q {
                    assert(rest.push(q)[rest.len() as int] == q);
                }
                if rest.contains(p) {
                    let i = choose|i: int| 0 <= i < rest.len() && rest[i] == p;
                    assert(rest.push(q)[i] == p);
                }
            }
        }
    }
}

pub(crate) proof fn lemma_rows_contents(b: Bitmap, r: int)
    requires
        0 <= r <= b.spec_height(),
    ensures
        forall|i: int|
            0 <= i < boundary_upto(b, r).len() ==> (#[trigger] boundary_upto(b, r)[i]).y < r,
        boundary_upto(b, r).no_duplicates(),
        forall|p: Pixel|
            #[trigger] boundary_upto(b, r).contains(p) <==> (p.y < r && p.x < b.spec_width()
                && is_boundary(b, p.x as int, p.y as int)),
    decreases r,
{
    if r > 0 {
        b.lemma_sides_bounded();
        lemma_rows_contents(b, r - 1);
        let w = b.spec_width() as int;
        lemma_row_contents(b, r - 1, w);
        let a = boundary_upto(b, r - 1);
        let row = row_boundary(b, r - 1, w);
        assert(row.no_duplicates()) by {
            assert forall|i: int, j: int| 0 <= i < row.len() && 0 <= j < row.len() && i != j implies row[i]
                != row[j] by {
                if i < j {
                    assert(row[i].x < row[j].x);
                } else {
                    assert(row[j].x < row[i].x);
                }
            }
        }
        assert forall|i: int, j: int| 0 <= i < a.len() && 0 <= j < row.len() implies a[i] != row[j] by {
            assert(a[i].y < r - 1);
            assert(row[j].y == r - 1);
        }
        vstd::seq_lib::lemma_no_dup_in_concat(a, row);
        assert forall|p: Pixel| #[trigger] (a + row).contains(p) <==> (a.contains(p) || row.contains(
            p,
        )) by {
            vstd::seq_lib::lemma_seq_concat_contains_all_elements(a, row, p);
            if (a + row).contains(p) {
                let i = choose|i: int| 0 <= i < (a + row).len() && (a + row)[i] == p;
                if i < a.len() {
                    assert(a[i] == p);
                } else {
                    assert(row[i - a.len()] == p);
                }
            }
        }
        assert forall|i: int| 0 <= i < (a + row).len() implies (#[trigger] (a + row)[i]).y < r by {
            if i < a.len() {
                assert((a + row)[i] == a[i]);
            } else {
                assert((a + row)[i] == row[i - a.len()]);
            }
        }
    }
}

/// The position of a rim pixel along the ring, clockwise from the top-left
/// corner: the top row, the right column, the bottom row, the left column.
pub open spec fn rim_pos(r: Rect, p: Pixel) -> int {
    let x = p.x - r.x0;
    let y = p.y - r.y0;
    if y == 0 {
        x
    } else if x == r.w - 1 {
        r.w - 1 + y
    } else if y == r.h - 1 {
        2 * r.w + r.h - 3 - x
    } else {
        2 * r.w + 2 * r.h - 4 - y
    }
}

/// `q` follows `p` clockwise on the ring.
pub open spec fn rim_next(r: Rect, p: Pixel, q: Pixel) -> bool {
    rim_pos(r, q) == if rim_pos(r, p) == ring_len(r) - 1 {
        0
    } else {
        rim_pos(r, p) + 1
    }
}

proof fn lemma_unit_apart_steps(a: Pixel, b: Pixel)
    ensures
        unit_apart(a, b) <==> (a.x == b.x && (a.y == b.y + 1 || b.y == a.y + 1)) || (a.y == b.y && (
        a.x == b.x + 1 || b.x == a.x + 1)),
{
    let dx = a.x as int - b.x as int;
    let dy = a.y as int - b.y as int;
    if dx != 0 && dy != 0 {
        assert(dx * dx + dy * dy >= 2) by (nonlinear_arith)
            requires dx != 0, dy != 0;
    } else if dx == 0 {
        assert(dx * dx + dy * dy == 1 <==> (dy == 1 || dy == -1)) by (nonlinear_arith)
            requires dx == 0;
    } else {
        assert(dx * dx + dy * dy == 1 <==> (dx == 1 || dx == -1)) by (nonlinear_arith)
            requires dy == 0;
    }
}

/// Positions on the ring are in range and tell rim pixels apart.
proof fn lemma_rim_pos(r: Rect, p: Pixel, q: Pixel)
    requires
        ring_ok(r),
        on_rim(r, p),
        on_rim(r, q),
    ensures
        0 <= rim_pos(r, p) < ring_len(r),
        rim_pos(r, p) == rim_pos(r, q) ==> p == q,
{
}

/// Two rim pixels are one unit apart exactly when one follows the other.
proof fn lemma_rim_adjacent(r: Rect, p: Pixel, q: Pixel)
    requires
        ring_ok(r),
        on_rim(r, p),
        on_rim(r, q),
    ensures
        unit_apart(p, q) <==> rim_next(r, p, q) || rim_next(r, q, p),
{
    lemma_unit_apart_steps(p, q);
}

/// For every ring position there is a rim pixel there.
pub(crate) proof fn lemma_rim_at(r: Rect, k: int) -> (p: Pixel)
    requires
        ring_ok(r),
        0 <= k < ring_len(r),
    ensures
        on_rim(r, p),
        rim_pos(r, p) == k,
{
    if k < r.w {
        Pixel { x: (r.x0 + k) as u32, y: r.y0 as u32 }
    } else if k <= r.w + r.h - 2 {
        Pixel { x: (r.x0 + r.w - 1) as u32, y: (r.y0 + k - r.w + 1) as u32 }
    } else if k <= 2 * r.w + r.h - 3 {
        Pixel { x: (r.x0 + 2 * r.w + r.h - 3 - k) as u32, y: (r.y0 + r.h - 1) as u32 }
    } else {
        Pixel { x: r.x0 as u32, y: (r.y0 + 2 * r.w + 2 * r.h - 4 - k) as u32 }
    }
}

pub(crate) proof fn lemma_take_first_contents(pool: Seq<Pixel>)
    requires
        pool.len() > 0,
        pool.no_duplicates(),
    ensures
        take_first(pool).no_duplicates(),
        take_first(pool).len() == pool.len() - 1,
        forall|p: Pixel| #[trigger] take_first(pool).contains(p) <==> (pool.contains(p) && p != pool[0]),
{
    let t = take_first(pool);
    let n = pool.len() as int;
    assert forall|i: int| 0 <= i < t.len() implies #[trigger] t[i] == if i == 0 {
        pool[n - 1]
    } else {
        pool[i]
    } by {}
    assert forall|p: Pixel| #[trigger] t.contains(p) <==> (pool.contains(p) && p != pool[0]) by {
        if t.contains(p) {
            let i = choose|i: int| 0 <= i < t.len() && t[i] == p;
            if i == 0 {
                assert(pool[n - 1] == p);
            } else {
                assert(pool[i] == p);
            }
        }
        if pool.contains(p) && p != pool[0] {
            let j = choose|j: int| 0 <= j < n && pool[j] == p;
            if j == n - 1 {
                assert(t[0] == p);
            } else {
                assert(t[j] == p);
            }
        }
    }
}

proof fn lemma_remove_contents(pool: Seq<Pixel>, i: int)
    requires
        0 <= i < pool.len(),
        pool.no_duplicates(),
    ensures
        pool.remove(i).no_duplicates(),
        forall|p: Pixel| #[trigger] pool.remove(i).contains(p) <==> (pool.contains(p) && p != pool[i]),
{
    let t = pool.remove(i);
    assert forall|p: Pixel| #[trigger] t.contains(p) <==> (pool.contains(p) && p != pool[i]) by {
        if t.contains(p) {
            let k = choose|k: int| 0 <= k < t.len() && t[k] == p;
            if k < i {
                assert(pool[k] == p);
            } else {
                assert(pool[k + 1] == p);
            }
        }
        if pool.contains(p) && p != pool[i] {
            let j = choose|j: int| 0 <= j < pool.len() && pool[j] == p;
            if j < i {
                assert(t[j] == p);
            } else {
                assert(t[j - 1] == p);
            }
        }
    }
}

proof fn lemma_find_some(pool: Seq<Pixel>, p: Pixel, t: int, i: nat)
    requires
        0 <= i <= t < pool.len(),
        unit_apart(pool[t], p),
    ensures
        find_from(pool, p, i) < pool.len(),
        unit_apart(pool[find_from(pool, p, i) as int], p),
    decreases t - i,
{
    if !unit_apart(pool[i as int], p) {
        lemma_find_some(pool, p, t, i + 1);
    }
}

proof fn lemma_find_none(pool: Seq<Pixel>, p: Pixel, i: nat)
    requires
        i <= pool.len(),
        forall|t: int| 0 <= t < pool.len() ==> !unit_apart(#[trigger] pool[t], p),
    ensures
        find_from(pool, p, i) == pool.len(),
    decreases pool.len() - i,
{
    if i < pool.len() {
        lemma_find_none(pool, p, i + 1);
    }
}

/// A position `x` in `-n .. 2n` folded onto the ring of length `n`.
pub open spec fn wrap(x: int, n: int) -> int {
    if x >= n {
        x - n
    } else if x < 0 {
        x + n
    } else {
        x
    }
}

/// The chain runs one way round the ring, one pixel per step.
pub open spec fn runs_round(r: Rect, chain: Seq<Pixel>) -> bool {
    let p0 = rim_pos(r, chain[0]);
    (forall|k: int|
        0 <= k < chain.len() ==> rim_pos(r, #[trigger] chain[k]) == wrap(p0 + k, ring_len(r))) || (
    forall|k: int|
        0 <= k < chain.len() ==> rim_pos(r, #[trigger] chain[k]) == wrap(p0 - k, ring_len(r)))
}

/// A state of the chaining while it walks the ring of `r`: the chain holds
/// part of the ring, the pool the rest of it and pixels far from `r`.
pub open spec fn walk_state(r: Rect, pool: Seq<Pixel>, chain: Seq<Pixel>) -> bool {
    &&& ring_ok(r)
    &&& pool.no_duplicates()
    &&& chain.no_duplicates()
    &&& forall|p: Pixel| #[trigger] chain.contains(p) ==> on_rim(r, p)
    &&& forall|p: Pixel| #[trigger] on_rim(r, p) ==> (pool.contains(p) <==> !chain.contains(p))
    &&& forall|p: Pixel| #[trigger] pool.contains(p) ==> (on_rim(r, p) || far_from(r, p))
    &&& chain.len() > 0 ==> runs_round(r, chain)
}

proof fn lemma_far_not_adjacent(r: Rect, p: Pixel, q: Pixel)
    requires
        far_from(r, p),
        on_rim(r, q),
    ensures
        !unit_apart(p, q),
{
    lemma_unit_apart_steps(p, q);
}

/// Greedy chaining seeds from an empty chain the way it continues from a
/// one-pixel chain.
pub(crate) proof fn lemma_seed_unfold(pool: Seq<Pixel>, groups: Seq<Seq<Pixel>>)
    requires
        pool.len() > 0,
    ensures
        chain_from(pool, Seq::empty(), groups) == chain_from(take_first(pool), seq![pool[0]], groups),
{
    let pool1 = take_first(pool);
    let chain1 = seq![pool[0]];
    assert(chain1.len() > 0 && chain1.last() == pool[0]);
    if pool1.len() == 0 {
        assert(find_from(pool1, chain1.last(), 0) == 0);
        assert(chain_from(pool1, Seq::empty(), groups.push(chain1)) == groups.push(chain1));
        assert(chain_from(pool1, chain1, groups) == groups.push(chain1));
    } else {
        let i = find_from(pool1, chain1.last(), 0);
        if i < pool1.len() {
            assert(chain_from(pool1, chain1, groups) == chain_from(
                pool1.remove(i as int),
                chain1.push(pool1[i as int]),
                groups,
            ));
        } else {
            assert(chain_from(pool1, chain1, groups) == chain_from(
                pool1,
                Seq::empty(),
                groups.push(chain1),
            ));
        }
    }
}

/// Seeding from a pool that holds the whole ring of `r` and otherwise only
/// pixels far from `r`, with the first pixel on the ring, starts a walk.
pub(crate) proof fn lemma_start(r: Rect, pool: Seq<Pixel>)
    requires
        ring_ok(r),
        pool.no_duplicates(),
        pool.len() > 0,
        on_rim(r, pool[0]),
        forall|p: Pixel| #[trigger] on_rim(r, p) ==> pool.contains(p),
        forall|p: Pixel| #[trigger] pool.contains(p) ==> on_rim(r, p) || far_from(r, p),
    ensures
        walk_state(r, take_first(pool), seq![pool[0]]),
{
    let chain1 = seq![pool[0]];
    lemma_take_first_contents(pool);
    assert forall|p: Pixel| #[trigger] chain1.contains(p) <==> p == pool[0] by {
        if p == pool[0] {
            assert(chain1[0] == p);
        }
    }
    assert(pool.contains(pool[0]));
    assert(runs_round(r, chain1)) by {
        lemma_rim_pos(r, pool[0], pool[0]);
        assert(forall|k: int| 0 <= k < chain1.len() ==> #[trigger] chain1[k] == pool[0]);
    }
}

/// A walking chain is never longer than the ring, and a chain as long as the
/// ring holds all of it.
proof fn lemma_chain_len(r: Rect, pool: Seq<Pixel>, chain: Seq<Pixel>)
    requires
        walk_state(r, pool, chain),
        chain.len() > 0,
    ensures
        chain.len() <= ring_len(r),
        chain.len() == ring_len(r) ==> forall|p: Pixel| #[trigger] on_rim(r, p) ==> chain.contains(p),
{
    let n = ring_len(r);
    let p0 = rim_pos(r, chain[0]);
    assert(chain.contains(chain[0]));
    lemma_rim_pos(r, chain[0], chain[0]);
    let fwd = forall|k: int| 0 <= k < chain.len() ==> rim_pos(r, #[trigger] chain[k]) == wrap(p0 + k, n);
    if chain.len() > n {
        assert(chain.contains(chain[n]));
        lemma_rim_pos(r, chain[n], chain[0]);
        if fwd {
            assert(rim_pos(r, chain[n]) == wrap(p0 + n, n));
        } else {
            assert(rim_pos(r, chain[n]) == wrap(p0 - n, n));
        }
    }
    if chain.len() == n {
        assert forall|p: Pixel| #[trigger] on_rim(r, p) implies chain.contains(p) by {
            lemma_rim_pos(r, p, p);
            let k = if fwd { wrap(rim_pos(r, p) - p0, n) } else { wrap(p0 - rim_pos(r, p), n) };
            assert(chain.contains(chain[k]));
            lemma_rim_pos(r, p, chain[k]);
            if fwd {
                assert(rim_pos(r, chain[k]) == wrap(p0 + k, n));
            } else {
                assert(rim_pos(r, chain[k]) == wrap(p0 - k, n));
            }
        }
    }
}

/// While the chain is shorter than the ring, the ring pixel it heads for is in
/// the pool, one unit from the chain's end.
proof fn lemma_ahead(r: Rect, pool: Seq<Pixel>, chain: Seq<Pixel>) -> (t: int)
    requires
        walk_state(r, pool, chain),
        0 < chain.len() < ring_len(r),
    ensures
        0 <= t < pool.len(),
        unit_apart(pool[t], chain.last()),
{
    let n = ring_len(r);
    let len = chain.len() as int;
    let last = chain.last();
    let p0 = rim_pos(r, chain[0]);
    assert(chain.contains(last) && chain.contains(chain[0]));
    lemma_rim_pos(r, last, last);
    lemma_rim_pos(r, chain[0], chain[0]);
    let fwd = forall|k: int| 0 <= k < len ==> rim_pos(r, #[trigger] chain[k]) == wrap(p0 + k, n);
    let target = if fwd { wrap(p0 + len, n) } else { wrap(p0 - len, n) };
    let f = lemma_rim_at(r, target);
    assert(!chain.contains(f)) by {
        if chain.contains(f) {
            let j = choose|j: int| 0 <= j < len && chain[j] == f;
            if fwd {
                assert(rim_pos(r, chain[j]) == wrap(p0 + j, n));
            } else {
                assert(rim_pos(r, chain[j]) == wrap(p0 - j, n));
            }
        }
    }
    assert(pool.contains(f));
    let t = choose|t: int| 0 <= t < pool.len() && pool[t] == f;
    if fwd {
        assert(rim_pos(r, chain[len - 1]) == wrap(p0 + len - 1, n));
    } else {
        assert(rim_pos(r, chain[len - 1]) == wrap(p0 - (len - 1), n));
    }
    lemma_rim_adjacent(r, f, last);
    t
}

/// Moving the pool pixel found one unit from the chain's end onto the chain
/// keeps the walk going: that pixel is the next one round the ring.
proof fn lemma_extend(r: Rect, pool: Seq<Pixel>, chain: Seq<Pixel>, i: int)
    requires
        walk_state(r, pool, chain),
        chain.len() > 0,
        0 <= i < pool.len(),
        unit_apart(pool[i], chain.last()),
    ensures
        on_rim(r, pool[i]),
        walk_state(r, pool.remove(i), chain.push(pool[i])),
{
    let n = ring_len(r);
    let len = chain.len() as int;
    let last = chain.last();
    let q = pool[i];
    let p0 = rim_pos(r, chain[0]);
    let chain2 = chain.push(q);
    assert(chain.contains(last) && pool.contains(q));
    if far_from(r, q) {
        lemma_far_not_adjacent(r, q, last);
    }
    assert(!chain.contains(q));
    assert(chain.contains(chain[0]));
    lemma_chain_len(r, pool, chain);
    assert(len < n);
    lemma_rim_adjacent(r, q, last);
    lemma_rim_pos(r, q, last);
    lemma_rim_pos(r, chain[0], chain[0]);
    lemma_remove_contents(pool, i);
    assert forall|p: Pixel| #[trigger] chain2.contains(p) <==> (chain.contains(p) || p == q) by {
        if p == q {
            assert(chain2[len] == q);
        }
        if chain.contains(p) {
            let j = choose|j: int| 0 <= j < len && chain[j] == p;
            assert(chain2[j] == p);
        }
        if chain2.contains(p) {
            let j = choose|j: int| 0 <= j < len + 1 && chain2[j] == p;
            if j < len {
                assert(chain[j] == p);
            }
        }
    }
    assert(chain2.no_duplicates()) by {
        assert forall|a: int, b: int| 0 <= a < chain2.len() && 0 <= b < chain2.len() && a != b implies chain2[a]
            != chain2[b] by {
            if a < len && b < len {
                assert(chain2[a] == chain[a] && chain2[b] == chain[b]);
            } else if a < len {
                assert(chain.contains(chain2[a]));
            } else if b < len {
                assert(chain.contains(chain2[b]));
            }
        }
    }
    let fwd = forall|k: int| 0 <= k < len ==> rim_pos(r, #[trigger] chain[k]) == wrap(p0 + k, n);
    if fwd {
        assert(rim_pos(r, last) == wrap(p0 + len - 1, n));
    } else {
        assert(rim_pos(r, last) == wrap(p0 - (len - 1), n));
    }
    if len >= 2 {
        let back = chain[len - 2];
        assert(chain.contains(back));
        lemma_rim_pos(r, q, back);
        if fwd {
            assert(rim_pos(r, back) == wrap(p0 + len - 2, n));
        } else {
            assert(rim_pos(r, back) == wrap(p0 - (len - 2), n));
        }
        assert(q != back);
        if fwd {
            assert(rim_pos(r, q) == wrap(p0 + len, n));
        } else {
            assert(rim_pos(r, q) == wrap(p0 - len, n));
        }
    }
    assert(chain2[0] == chain[0]);
    assert(chain2[len] == q);
    if len == 1 {
        if rim_pos(r, q) == wrap(p0 + 1, n) {
            assert(forall|k: int| 0 <= k < len + 1 ==> rim_pos(r, #[trigger] chain2[k]) == wrap(p0 + k, n));
        } else {
            assert(forall|k: int| 0 <= k < len + 1 ==> rim_pos(r, #[trigger] chain2[k]) == wrap(p0 - k, n));
        }
    } else if fwd {
        assert(forall|k: int| 0 <= k < len + 1 ==> rim_pos(r, #[trigger] chain2[k]) == wrap(p0 + k, n));
    } else {
        assert(forall|k: int| 0 <= k < len + 1 ==> rim_pos(r, #[trigger] chain2[k]) == wrap(p0 - k, n));
    }
}

/// Walking the ring of `r` from a started chain: the chaining goes once
/// round the whole ring, closes it as one group, and carries on with the
/// pixels of the pool that are off the ring.
pub(crate) proof fn lemma_walk(r: Rect, pool: Seq<Pixel>, chain: Seq<Pixel>, groups: Seq<
    Seq<Pixel>,
>) -> (res: (Seq<Pixel>, Seq<Pixel>))
    requires
        walk_state(r, pool, chain),
        chain.len() > 0,
    ensures
        chain_from(pool, chain, groups) == chain_from(res.0, Seq::empty(), groups.push(res.1)),
        res.1.len() == ring_len(r),
        res.0.no_duplicates(),
        forall|p: Pixel| #[trigger] res.0.contains(p) <==> (pool.contains(p) && !on_rim(r, p)),
    decreases chaining_measure(pool, chain),
{
    lemma_chain_len(r, pool, chain);
    if chain.len() == ring_len(r) {
        assert forall|t: int| 0 <= t < pool.len() implies !unit_apart(#[trigger] pool[t], chain.last()) by {
            assert(pool.contains(pool[t]));
            assert(chain.contains(chain.last()));
            if on_rim(r, pool[t]) {
                assert(chain.contains(pool[t]));
            } else {
                lemma_far_not_adjacent(r, pool[t], chain.last());
            }
        }
        assert forall|p: Pixel| #[trigger] pool.contains(p) implies !on_rim(r, p) by {
            if on_rim(r, p) {
                assert(chain.contains(p));
            }
        }
        if pool.len() > 0 {
            lemma_find_none(pool, chain.last(), 0);
        }
        (pool, chain)
    } else {
        let t = lemma_ahead(r, pool, chain);
        lemma_find_some(pool, chain.last(), t, 0);
        let i = find_from(pool, chain.last(), 0);
        let q = pool[i as int];
        lemma_extend(r, pool, chain, i as int);
        lemma_remove_contents(pool, i as int);
        lemma_walk(r, pool.remove(i as int), chain.push(q), groups)
    }
}

/// `b` is opaque exactly on `a` and `c`, and `c` lies at least two columns
/// to the right of `a`.
pub open spec fn two_blocks(b: Bitmap, a: Rect, c: Rect) -> bool {
    &&& c.x0 >= a.x0 + a.w + 2
    &&& a.w >= 1 && a.h >= 1
    &&& forall|x: int, y: int| #[trigger] b.opaque(x, y) <==> (in_rect(a, x, y) || in_rect(c, x, y))
}

proof fn lemma_block_boundary(b: Bitmap, a: Rect, c: Rect, x: int, y: int)
    requires
        two_blocks(b, a, c),
        0 <= x,
        0 <= y,
        x <= u32::MAX,
        y <= u32::MAX,
    ensures
        is_boundary(b, x, y) <==> (on_rim(a, Pixel { x: x as u32, y: y as u32 }) || on_rim(
            c,
            Pixel { x: x as u32, y: y as u32 },
        )),
{
    assert(b.opaque(x, y) == (in_rect(a, x, y) || in_rect(c, x, y)));
    assert(b.opaque(x, y + 1) == (in_rect(a, x, y + 1) || in_rect(c, x, y + 1)));
    assert(b.opaque(x, y - 1) == (in_rect(a, x, y - 1) || in_rect(c, x, y - 1)));
    assert(b.opaque(x + 1, y) == (in_rect(a, x + 1, y) || in_rect(c, x + 1, y)));
    assert(b.opaque(x - 1, y) == (in_rect(a, x - 1, y) || in_rect(c, x - 1, y)));
    assert(b.opaque(x + 1, y + 1) == (in_rect(a, x + 1, y + 1) || in_rect(c, x + 1, y + 1)));
    assert(b.opaque(x - 1, y - 1) == (in_rect(a, x - 1, y - 1) || in_rect(c, x - 1, y - 1)));
    assert(b.opaque(x - 1, y + 1) == (in_rect(a, x - 1, y + 1) || in_rect(c, x - 1, y + 1)));
    assert(b.opaque(x + 1, y - 1) == (in_rect(a, x + 1, y - 1) || in_rect(c, x + 1, y - 1)));
}

/// The boundary of a raster made of two separated blocks lists each rim
/// pixel of the two blocks once, and nothing else.
pub(crate) proof fn lemma_blocks_boundary(b: Bitmap, a: Rect, c: Rect)
    requires
        two_blocks(b, a, c),
    ensures
        boundary_of(b).no_duplicates(),
        forall|p: Pixel| #[trigger] boundary_of(b).contains(p) <==> (on_rim(a, p) || on_rim(c, p)),
{
    b.lemma_sides_bounded();
    lemma_rows_contents(b, b.spec_height() as int);
    assert forall|p: Pixel| #[trigger] boundary_of(b).contains(p) <==> (on_rim(a, p) || on_rim(c, p)) by {
        lemma_block_boundary(b, a, c, p.x as int, p.y as int);
        assert(b.opaque(p.x as int, p.y as int) == (in_rect(a, p.x as int, p.y as int) || in_rect(
            c,
            p.x as int,
            p.y as int,
        )));
    }
}

} // verus!
