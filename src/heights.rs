use vstd::prelude::*;

use crate::anchor::{center_of, centroid, Anchor};
use crate::geometry::{Pixel, Scale};

verus! {

/// The columns of `s` increase strictly from left to right.
#[verifier::opaque]
pub open spec fn increasing_columns(s: Seq<Pixel>) -> bool {
    forall|i: int, j: int| 0 <= i < j < s.len() ==> #[trigger] s[i].x < #[trigger] s[j].x
}

/// Every point of `s` is a point of `pts`.
#[verifier::opaque]
pub open spec fn drawn_from(pts: Seq<Pixel>, s: Seq<Pixel>) -> bool {
    forall|i: int| 0 <= i < s.len() ==> pts.contains(#[trigger] s[i])
}

/// No point of `pts` lies lower (larger y) than the point of `s` in its column.
#[verifier::opaque]
pub open spec fn lowest_in_column(pts: Seq<Pixel>, s: Seq<Pixel>) -> bool {
    forall|i: int, k: int|
        0 <= i < s.len() && 0 <= k < pts.len() && (#[trigger] pts[k]).x == (#[trigger] s[i]).x
            ==> pts[k].y <= s[i].y
}

/// Every column of `pts` has a point in `s`.
#[verifier::opaque]
pub open spec fn covers_columns(pts: Seq<Pixel>, s: Seq<Pixel>) -> bool {
    forall|k: int|
        0 <= k < pts.len() ==> exists|i: int| 0 <= i < s.len() && (#[trigger] s[i]).x == (#[trigger] pts[k]).x
}

/// `s` lists the columns of `pts` left to right, each once, with the lowest
/// point (largest y) of `pts` in that column.
pub open spec fn is_column_profile(pts: Seq<Pixel>, s: Seq<Pixel>) -> bool {
    &&& increasing_columns(s)
    &&& drawn_from(pts, s)
    &&& lowest_in_column(pts, s)
    &&& covers_columns(pts, s)
}

/// The column profile of `pts` (there is exactly one, see
/// `lemma_column_profile_unique`).
pub open spec fn column_profile_of(pts: Seq<Pixel>) -> Seq<Pixel> {
    choose|s: Seq<Pixel>| is_column_profile(pts, s)
}

/// Twice the reference height that samples are measured from: half the
/// anchor's image height, or for `AbsoluteCenter` the centroid row of the
/// profile `s`.
pub open spec fn reference_of(anchor: Anchor, s: Seq<Pixel>) -> int {
    match anchor {
        Anchor::Center(h, _) => h as int,
        Anchor::VerticalCenter(h) => h as int,
        Anchor::HorizontalCenter(_) => 0,
        Anchor::AbsoluteCenter => if s.len() > 0 { 2 * centroid(s).1 } else { 0 },
        Anchor::Identity => 0,
    }
}

/// Height samples, in half-pixel units, of a profile `s`: for each pair of
/// neighbouring points, one sample per column from the first up to (not
/// including) the second, each `dy2 - 2 * y` of the second point.
pub open spec fn samples(s: Seq<Pixel>, dy2: int) -> Seq<i64>
    decreases s.len(),
{
    if s.len() < 2 {
        Seq::empty()
    } else {
        samples(s.drop_last(), dy2) + Seq::new(
            (s.last().x - s[s.len() - 2].x) as nat,
            |k: int| (dy2 - 2 * s.last().y) as i64,
        )
    }
}

proof fn lemma_prev_in_next(prev: Seq<Pixel>, next: Seq<Pixel>, p: Pixel)
    requires
        next == prev.push(p),
    ensures
        forall|q: Pixel| prev.contains(q) ==> next.contains(q),
        next.contains(p),
{
    assert forall|q: Pixel| prev.contains(q) implies next.contains(q) by {
        let t = choose|t: int| 0 <= t < prev.len() && prev[t] == q;
        assert(next[t] == q);
    }
    assert(next[prev.len() as int] == p);
}

proof fn lemma_profile_merge(
    prev: Seq<Pixel>,
    next: Seq<Pixel>,
    p: Pixel,
    s0: Seq<Pixel>,
    j: int,
    s: Seq<Pixel>,
)
    requires
        is_column_profile(prev, s0),
        next == prev.push(p),
        0 <= j < s0.len(),
        s0[j].x == p.x,
        s == if p.y > s0[j].y { s0.update(j, p) } else { s0 },
    ensures
        is_column_profile(next, s),
{
    let k = prev.len() as int;
    lemma_prev_in_next(prev, next, p);
    assert(forall|i: int| 0 <= i < s.len() ==> #[trigger] s[i].x == s0[i].x);
    assert(increasing_columns(s)) by {
        reveal(increasing_columns);
    }
    assert(drawn_from(next, s)) by {
        reveal(drawn_from);
        assert forall|i: int| 0 <= i < s.len() implies next.contains(#[trigger] s[i]) by {
            if s[i] != p {
                assert(s[i] == s0[i]);
                assert(prev.contains(s0[i]));
            }
        }
    }
    assert(lowest_in_column(next, s)) by {
        reveal(lowest_in_column);
        reveal(increasing_columns);
        assert forall|i: int, m: int|
            0 <= i < s.len() && 0 <= m < next.len() && (#[trigger] next[m]).x == (
            #[trigger] s[i]).x implies next[m].y <= s[i].y by {
            if m < k {
                assert(prev[m] == next[m]);
                assert(prev[m].x == s0[i].x);
            } else if i < j {
                assert(s0[i].x < s0[j].x);
            } else if i > j {
                assert(s0[j].x < s0[i].x);
            }
        }
    }
    assert(covers_columns(next, s)) by {
        reveal(covers_columns);
        assert forall|m: int| 0 <= m < next.len() implies exists|i: int|
            0 <= i < s.len() && (#[trigger] s[i]).x == (#[trigger] next[m]).x by {
            if m < k {
                assert(prev[m] == next[m]);
                let i = choose|i: int| 0 <= i < s0.len() && (#[trigger] s0[i]).x == prev[m].x;
                assert(s[i].x == next[m].x);
            } else {
                assert(s[j].x == next[m].x);
            }
        }
    }
}

proof fn lemma_profile_insert(
    prev: Seq<Pixel>,
    next: Seq<Pixel>,
    p: Pixel,
    s0: Seq<Pixel>,
    j: int,
    s: Seq<Pixel>,
)
    requires
        is_column_profile(prev, s0),
        next == prev.push(p),
        0 <= j <= s0.len(),
        forall|t: int| 0 <= t < j ==> #[trigger] s0[t].x < p.x,
        j < s0.len() ==> s0[j].x > p.x,
        s == s0.insert(j, p),
    ensures
        is_column_profile(next, s),
{
    let k = prev.len() as int;
    lemma_prev_in_next(prev, next, p);
    assert forall|t: int| j <= t < s0.len() implies #[trigger] s0[t].x > p.x by {
        if t > j {
            reveal(increasing_columns);
            assert(s0[j].x < s0[t].x);
        }
    }
    assert(forall|i: int| 0 <= i < j ==> #[trigger] s[i] == s0[i]);
    assert(forall|i: int| j < i < s.len() ==> #[trigger] s[i] == s0[i - 1]);
    assert(s[j] == p);
    assert(increasing_columns(s)) by {
        reveal(increasing_columns);
        assert forall|a: int, b: int| 0 <= a < b < s.len() implies #[trigger] s[a].x
            < #[trigger] s[b].x by {
            if b < j {
                assert(s0[a].x < s0[b].x);
            } else if a > j {
                assert(s0[a - 1].x < s0[b - 1].x);
            } else if a < j && b > j {
                assert(s0[a].x < s0[b - 1].x);
            }
        }
    }
    assert(drawn_from(next, s)) by {
        reveal(drawn_from);
        assert forall|i: int| 0 <= i < s.len() implies next.contains(#[trigger] s[i]) by {
            if i < j {
                assert(prev.contains(s0[i]));
            } else if i > j {
                assert(prev.contains(s0[i - 1]));
            }
        }
    }
    assert(lowest_in_column(next, s)) by {
        reveal(lowest_in_column);
        reveal(covers_columns);
        assert forall|i: int, m: int|
            0 <= i < s.len() && 0 <= m < next.len() && (#[trigger] next[m]).x == (
            #[trigger] s[i]).x implies next[m].y <= s[i].y by {
            if m < k {
                assert(prev[m] == next[m]);
                if i == j {
                    let i0 = choose|i0: int| 0 <= i0 < s0.len() && (#[trigger] s0[i0]).x == prev[m].x;
                    if i0 < j {
                        assert(s0[i0].x < p.x);
                    } else {
                        assert(s0[i0].x > p.x);
                    }
                } else if i < j {
                    assert(prev[m].x == s0[i].x);
                } else {
                    assert(prev[m].x == s0[i - 1].x);
                }
            } else if i < j {
                assert(s0[i].x < p.x);
            } else if i > j {
                assert(s0[i - 1].x > p.x);
            }
        }
    }
    assert(covers_columns(next, s)) by {
        reveal(covers_columns);
        assert forall|m: int| 0 <= m < next.len() implies exists|i: int|
            0 <= i < s.len() && (#[trigger] s[i]).x == (#[trigger] next[m]).x by {
            if m < k {
                assert(prev[m] == next[m]);
                let i = choose|i: int| 0 <= i < s0.len() && (#[trigger] s0[i]).x == prev[m].x;
                if i < j {
                    assert(s[i].x == next[m].x);
                } else {
                    assert(s[i + 1].x == next[m].x);
                }
            } else {
                assert(s[j].x == next[m].x);
            }
        }
    }
}

/// The first index at or after `j` whose column is at least `x`, or `s.len()`.
pub open spec fn first_at_least(s: Seq<Pixel>, x: u32, j: nat) -> nat
    decreases s.len() - j,
{
    if j >= s.len() || s[j as int].x >= x {
        j
    } else {
        first_at_least(s, x, j + 1)
    }
}

proof fn lemma_first_at_least(s: Seq<Pixel>, x: u32, j: nat)
    requires
        j <= s.len(),
        forall|t: int| 0 <= t < j ==> #[trigger] s[t].x < x,
    ensures
        first_at_least(s, x, j) <= s.len(),
        forall|t: int| 0 <= t < first_at_least(s, x, j) ==> #[trigger] s[t].x < x,
        first_at_least(s, x, j) < s.len() ==> s[first_at_least(s, x, j) as int].x >= x,
    decreases s.len() - j,
{
    if j < s.len() && s[j as int].x < x {
        lemma_first_at_least(s, x, j + 1);
    }
}

/// Every point set has a column profile.
pub proof fn lemma_column_profile_exists(pts: Seq<Pixel>) -> (s: Seq<Pixel>)
    ensures
        is_column_profile(pts, s),
        is_column_profile(pts, column_profile_of(pts)),
    decreases pts.len(),
{
    if pts.len() == 0 {
        reveal(increasing_columns);
        reveal(drawn_from);
        reveal(lowest_in_column);
        reveal(covers_columns);
        let s = Seq::<Pixel>::empty();
        assert(is_column_profile(pts, s));
        s
    } else {
        let prev = pts.drop_last();
        let p = pts.last();
        let s0 = lemma_column_profile_exists(prev);
        assert(pts =~= prev.push(p));
        lemma_first_at_least(s0, p.x, 0);
        let j = first_at_least(s0, p.x, 0) as int;
        let s = if j < s0.len() && s0[j].x == p.x {
            let s = if p.y > s0[j].y { s0.update(j, p) } else { s0 };
            lemma_profile_merge(prev, pts, p, s0, j, s);
            s
        } else {
            let s = s0.insert(j, p);
            lemma_profile_insert(prev, pts, p, s0, j, s);
            s
        };
        s
    }
}

/// Keeps, of each column of `points`, the point with the largest y, and lists
/// those points left to right.
pub fn column_profile(points: &Vec<Pixel>) -> (s: Vec<Pixel>)
    ensures
        is_column_profile(points@, s@),
{
    let mut s: Vec<Pixel> = Vec::new();
    let mut k: usize = 0;
    proof {
        reveal(increasing_columns);
        reveal(drawn_from);
        reveal(lowest_in_column);
        reveal(covers_columns);
    }
    while k < points.len()
        invariant
            k <= points@.len(),
            is_column_profile(points@.subrange(0, k as int), s@),
        decreases points@.len() - k,
    {
        let p = points[k];
        let ghost prev = points@.subrange(0, k as int);
        let ghost next = points@.subrange(0, k + 1);
        let ghost s0 = s@;
        assert(next =~= prev.push(p));
        let mut j: usize = 0;
        while j < s.len() && s[j].x < p.x
            invariant
                j <= s@.len(),
                forall|t: int| 0 <= t < j ==> #[trigger] s@[t].x < p.x,
            decreases s@.len() - j,
        {
            j += 1;
        }
        proof {
            if j < s@.len() {
                reveal(increasing_columns);
            }
        }
        if j < s.len() && s[j].x == p.x {
            if p.y > s[j].y {
                s.set(j, p);
            }
            proof {
                lemma_profile_merge(prev, next, p, s0, j as int, s@);
            }
        } else {
            s.insert(j, p);
            proof {
                lemma_profile_insert(prev, next, p, s0, j as int, s@);
            }
        }
        k += 1;
    }
    assert(points@.subrange(0, k as int) =~= points@);
    s
}

proof fn lemma_profiles_align(pts: Seq<Pixel>, a: Seq<Pixel>, b: Seq<Pixel>, i: int)
    requires
        is_column_profile(pts, a),
        is_column_profile(pts, b),
        0 <= i <= a.len(),
        0 <= i <= b.len(),
    ensures
        forall|t: int| 0 <= t < i ==> #[trigger] a[t].x == b[t].x,
    decreases i,
{
    if i > 0 {
        let n = i - 1;
        lemma_profiles_align(pts, a, b, n);
        lemma_column_in(pts, a, b, n);
        lemma_column_in(pts, b, a, n);
        let m = choose|m: int| 0 <= m < b.len() && (#[trigger] b[m]).x == a[n].x;
        let m2 = choose|m2: int| 0 <= m2 < a.len() && (#[trigger] a[m2]).x == b[n].x;
        reveal(increasing_columns);
        if m < n {
            assert(a[m].x < a[n].x);
        }
        if m2 < n {
            assert(b[m2].x < b[n].x);
        }
        if m > n {
            assert(b[n].x < b[m].x);
            if m2 > n {
                assert(a[n].x < a[m2].x);
            }
        }
    }
}

/// A column of profile `a` of `pts` is a column of any other profile `b`.
proof fn lemma_column_in(pts: Seq<Pixel>, a: Seq<Pixel>, b: Seq<Pixel>, i: int)
    requires
        drawn_from(pts, a),
        covers_columns(pts, b),
        0 <= i < a.len(),
    ensures
        exists|m: int| 0 <= m < b.len() && (#[trigger] b[m]).x == a[i].x,
{
    reveal(drawn_from);
    reveal(covers_columns);
    assert(pts.contains(a[i]));
    let k = choose|k: int| 0 <= k < pts.len() && pts[k] == a[i];
    assert(exists|m: int| 0 <= m < b.len() && (#[trigger] b[m]).x == (#[trigger] pts[k]).x);
}

/// A point set has exactly one column profile.
pub proof fn lemma_column_profile_unique(pts: Seq<Pixel>, a: Seq<Pixel>, b: Seq<Pixel>)
    requires
        is_column_profile(pts, a),
        is_column_profile(pts, b),
    ensures
        a == b,
{
    reveal(increasing_columns);
    if a.len() > b.len() {
        let n = b.len() as int;
        lemma_profiles_align(pts, a, b, n);
        lemma_column_in(pts, a, b, n);
        let m = choose|m: int| 0 <= m < b.len() && (#[trigger] b[m]).x == a[n].x;
        assert(a[m].x < a[n].x);
    } else if b.len() > a.len() {
        let n = a.len() as int;
        lemma_profiles_align(pts, a, b, n);
        lemma_column_in(pts, b, a, n);
        let m = choose|m: int| 0 <= m < a.len() && (#[trigger] a[m]).x == b[n].x;
        assert(b[m].x < b[n].x);
    }
    lemma_profiles_align(pts, a, b, a.len() as int);
    assert forall|i: int| 0 <= i < a.len() implies #[trigger] a[i] == b[i] by {
        reveal(drawn_from);
        reveal(lowest_in_column);
        assert(pts.contains(a[i]) && pts.contains(b[i]));
        let k = choose|k: int| 0 <= k < pts.len() && pts[k] == a[i];
        let k2 = choose|k2: int| 0 <= k2 < pts.len() && pts[k2] == b[i];
        assert(pts[k].x == b[i].x);
        assert(pts[k2].x == a[i].x);
    }
    assert(a =~= b);
}

/// Whatever `column_profile` returns is `column_profile_of(pts)`.
pub proof fn lemma_column_profile_is(pts: Seq<Pixel>, s: Seq<Pixel>)
    requires
        is_column_profile(pts, s),
    ensures
        column_profile_of(pts) == s,
{
    lemma_column_profile_unique(pts, column_profile_of(pts), s);
}

/// The heightfield of a polygon: its column profile reduced to one height
/// sample per column step, in half-pixel units below the anchor's reference
/// height, and the scale `(samples, 1)`. A profile of fewer than two columns
/// gives no samples and the scale `(1, 1)`.
pub fn heights_and_scale(points: Vec<Pixel>, anchor: Anchor) -> (r: (Vec<i64>, Scale))
    ensures
        r.0@ == samples(
            column_profile_of(points@),
            reference_of(anchor, column_profile_of(points@)),
        ),
        column_profile_of(points@).len() < 2 ==> r.1 == (Scale { x: 1, y: 1 }),
        column_profile_of(points@).len() >= 2 ==> r.1 == (Scale { x: r.0@.len() as usize, y: 1 }),
{
    let s = column_profile(&points);
    proof {
        lemma_column_profile_is(points@, s@);
    }
    let dy2: i64 = match anchor {
        Anchor::Center(h, _) => h as i64,
        Anchor::VerticalCenter(h) => h as i64,
        Anchor::HorizontalCenter(_) => 0,
        Anchor::AbsoluteCenter => match center_of(&s) {
            Some(c) => 2 * c.y as i64,
            None => 0,
        },
        Anchor::Identity => 0,
    };
    assert(dy2 == reference_of(anchor, s@));
    let mut heights: Vec<i64> = Vec::new();
    if s.len() < 2 {
        assert(heights@ =~= samples(s@, dy2 as int));
        return (heights, Scale { x: 1, y: 1 });
    }
    assert(s@.subrange(0, 1).drop_last() =~= Seq::<Pixel>::empty());
    assert(heights@ =~= samples(s@.subrange(0, 1), dy2 as int));
    let mut i: usize = 1;
    while i < s.len()
        invariant
            1 <= i <= s@.len(),
            heights@ == samples(s@.subrange(0, i as int), dy2 as int),
            increasing_columns(s@),
            0 <= dy2 <= 0x1_ffff_fffe,
        decreases s@.len() - i,
    {
        let x0 = s[i - 1].x;
        let x1 = s[i].x;
        let v: i64 = dy2 - 2 * s[i].y as i64;
        let ghost done = heights@;
        proof {
            reveal(increasing_columns);
            assert(s@.subrange(0, i + 1).drop_last() =~= s@.subrange(0, i as int));
        }
        let mut c: u32 = x0;
        while c < x1
            invariant
                x0 <= c <= x1,
                heights@ == done + Seq::new((c - x0) as nat, |k: int| v),
            decreases x1 - c,
        {
            heights.push(v);
            c += 1;
            assert(heights@ =~= done + Seq::new((c - x0) as nat, |k: int| v));
        }
        i += 1;
        assert(heights@ =~= samples(s@.subrange(0, i as int), dy2 as int));
    }
    assert(s@.subrange(0, i as int) =~= s@);
    let n = heights.len();
    (heights, Scale { x: n, y: 1 })
}

} // verus!