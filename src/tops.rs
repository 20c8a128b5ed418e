use vstd::prelude::*;

use crate::geometry::Vertex;

verus! {

/// The columns of `s` are distinct.
#[verifier::opaque]
pub open spec fn distinct_columns(s: Seq<Vertex>) -> bool {
    forall|i: int, j: int| 0 <= i < j < s.len() ==> (#[trigger] s[i]).x != (#[trigger] s[j]).x
}

/// Each point of `s` is a point of `pts`, and lies at least as low (y at
/// least as large) as every point of `pts` in its column.
#[verifier::opaque]
pub open spec fn lowest_points_of(pts: Seq<Vertex>, s: Seq<Vertex>) -> bool {
    &&& forall|i: int| 0 <= i < s.len() ==> pts.contains(#[trigger] s[i])
    &&& forall|i: int, k: int|
        0 <= i < s.len() && 0 <= k < pts.len() && (#[trigger] pts[k]).x == (#[trigger] s[i]).x
            ==> pts[k].y <= s[i].y
}

/// Every column of `pts` has a point in `s`.
#[verifier::opaque]
pub open spec fn covers_vertex_columns(pts: Seq<Vertex>, s: Seq<Vertex>) -> bool {
    forall|k: int|
        0 <= k < pts.len() ==> exists|i: int| 0 <= i < s.len() && (#[trigger] s[i]).x == (#[trigger] pts[k]).x
}

/// Some point of `pts` before index `k` lies in column `x`.
pub open spec fn seen_before(pts: Seq<Vertex>, x: i64, k: int) -> bool {
    exists|m: int| 0 <= m < k && m < pts.len() && (#[trigger] pts[m]).x == x
}

/// The columns of `s` come in the order in which `pts` first reaches them.
#[verifier::opaque]
pub open spec fn first_seen_order(pts: Seq<Vertex>, s: Seq<Vertex>) -> bool {
    forall|i: int, j: int, k: int|
        #![trigger s[i], s[j], pts[k]]
        0 <= i < j < s.len() && 0 <= k < pts.len() && pts[k].x == s[j].x ==> seen_before(
            pts,
            s[i].x,
            k,
        )
}

/// `s` holds one point per column of `pts`, the lowest one, with the columns
/// in the order in which `pts` first reaches them.
pub open spec fn is_top_list(pts: Seq<Vertex>, s: Seq<Vertex>) -> bool {
    &&& distinct_columns(s)
    &&& lowest_points_of(pts, s)
    &&& covers_vertex_columns(pts, s)
    &&& first_seen_order(pts, s)
}

proof fn lemma_prefix_facts(prev: Seq<Vertex>, p: Vertex, next: Seq<Vertex>)
    requires
        next == prev.push(p),
    ensures
        next[prev.len() as int] == p,
        forall|k: int| 0 <= k < prev.len() ==> #[trigger] next[k] == prev[k],
        forall|q: Vertex| prev.contains(q) ==> next.contains(q),
        next.contains(p),
        forall|x: i64, k: int| #[trigger] seen_before(prev, x, k) ==> seen_before(next, x, k),
{
    assert forall|q: Vertex| prev.contains(q) implies next.contains(q) by {
        let t = choose|t: int| 0 <= t < prev.len() && prev[t] == q;
        assert(next[t] == q);
    }
    assert(next[prev.len() as int] == p);
    assert forall|x: i64, k: int| #[trigger] seen_before(prev, x, k) implies seen_before(next, x, k) by {
        let m = choose|m: int| 0 <= m < k && m < prev.len() && (#[trigger] prev[m]).x == x;
        assert(next[m] == prev[m]);
    }
}

/// A point in a column already listed: the column's entry keeps the lower
/// of the two points.
proof fn lemma_top_list_merge(prev: Seq<Vertex>, p: Vertex, s0: Seq<Vertex>, j: int, s: Seq<Vertex>)
    requires
        is_top_list(prev, s0),
        0 <= j < s0.len(),
        s0[j].x == p.x,
        s == if s0[j].y < p.y { s0.update(j, p) } else { s0 },
    ensures
        is_top_list(prev.push(p), s),
{
    let next = prev.push(p);
    let n = prev.len() as int;
    lemma_prefix_facts(prev, p, next);
    assert(forall|i: int| 0 <= i < s.len() ==> (#[trigger] s[i]).x == s0[i].x);
    assert(distinct_columns(s)) by {
        reveal(distinct_columns);
    }
    assert(lowest_points_of(next, s)) by {
        reveal(lowest_points_of);
        reveal(distinct_columns);
        assert forall|i: int| 0 <= i < s.len() implies next.contains(#[trigger] s[i]) by {
            if s[i] != p {
                assert(s[i] == s0[i]);
                assert(prev.contains(s0[i]));
            }
        }
        assert forall|i: int, k: int|
            0 <= i < s.len() && 0 <= k < next.len() && (#[trigger] next[k]).x == (
            #[trigger] s[i]).x implies next[k].y <= s[i].y by {
            if k < n {
                assert(prev[k].x == s0[i].x);
            } else if i < j {
                assert(s0[i].x != s0[j].x);
            } else if i > j {
                assert(s0[j].x != s0[i].x);
            }
        }
    }
    assert(covers_vertex_columns(next, s)) by {
        reveal(covers_vertex_columns);
        assert forall|k: int| 0 <= k < next.len() implies exists|i: int|
            0 <= i < s.len() && (#[trigger] s[i]).x == (#[trigger] next[k]).x by {
            if k < n {
                let i = choose|i: int| 0 <= i < s0.len() && (#[trigger] s0[i]).x == (
                #[trigger] prev[k]).x;
                assert(s[i].x == next[k].x);
            } else {
                assert(s[j].x == next[k].x);
            }
        }
    }
    assert(first_seen_order(next, s)) by {
        reveal(first_seen_order);
        reveal(lowest_points_of);
        assert forall|a: int, b: int, k: int|
            #![trigger s[a], s[b], next[k]]
            0 <= a < b < s.len() && 0 <= k < next.len() && next[k].x == s[b].x implies seen_before(
            next,
            s[a].x,
            k,
        ) by {
            assert(s[a].x == s0[a].x && s[b].x == s0[b].x);
            if k < n {
                assert(prev[k].x == s0[b].x);
                assert(seen_before(prev, s0[a].x, k));
            } else {
                assert(prev.contains(s0[b]));
                let k2 = choose|k2: int| 0 <= k2 < prev.len() && prev[k2] == s0[b];
                assert(seen_before(prev, s0[a].x, k2));
                let m = choose|m: int| 0 <= m < k2 && m < prev.len() && (#[trigger] prev[m]).x
                    == s0[a].x;
                assert(next[m].x == s[a].x);
            }
        }
    }
}

/// A point in a new column: it is listed last.
proof fn lemma_top_list_push(prev: Seq<Vertex>, p: Vertex, s0: Seq<Vertex>)
    requires
        is_top_list(prev, s0),
        forall|t: int| 0 <= t < s0.len() ==> (#[trigger] s0[t]).x != p.x,
    ensures
        is_top_list(prev.push(p), s0.push(p)),
{
    let next = prev.push(p);
    let s = s0.push(p);
    let n = prev.len() as int;
    let j = s0.len() as int;
    lemma_prefix_facts(prev, p, next);
    assert(forall|i: int| 0 <= i < j ==> #[trigger] s[i] == s0[i]);
    assert(s[j] == p);
    assert forall|k: int| 0 <= k < n implies (#[trigger] prev[k]).x != p.x by {
        reveal(covers_vertex_columns);
        let i = choose|i: int| 0 <= i < s0.len() && (#[trigger] s0[i]).x == (#[trigger] prev[k]).x;
    }
    assert(distinct_columns(s)) by {
        reveal(distinct_columns);
        assert forall|a: int, b: int| 0 <= a < b < s.len() implies (#[trigger] s[a]).x != (
        #[trigger] s[b]).x by {
            if b < j {
                assert(s0[a].x != s0[b].x);
            }
        }
    }
    assert(lowest_points_of(next, s)) by {
        reveal(lowest_points_of);
        assert forall|i: int| 0 <= i < s.len() implies next.contains(#[trigger] s[i]) by {
            if i < j {
                assert(prev.contains(s0[i]));
            }
        }
        assert forall|i: int, k: int|
            0 <= i < s.len() && 0 <= k < next.len() && (#[trigger] next[k]).x == (
            #[trigger] s[i]).x implies next[k].y <= s[i].y by {
            if k < n && i < j {
                assert(prev[k].x == s0[i].x);
            }
        }
    }
    assert(covers_vertex_columns(next, s)) by {
        reveal(covers_vertex_columns);
        assert forall|k: int| 0 <= k < next.len() implies exists|i: int|
            0 <= i < s.len() && (#[trigger] s[i]).x == (#[trigger] next[k]).x by {
            if k < n {
                let i = choose|i: int| 0 <= i < s0.len() && (#[trigger] s0[i]).x == (
                #[trigger] prev[k]).x;
                assert(s[i].x == next[k].x);
            } else {
                assert(s[j].x == next[k].x);
            }
        }
    }
    assert(first_seen_order(next, s)) by {
        reveal(first_seen_order);
        reveal(lowest_points_of);
        assert forall|a: int, b: int, k: int|
            #![trigger s[a], s[b], next[k]]
            0 <= a < b < s.len() && 0 <= k < next.len() && next[k].x == s[b].x implies seen_before(
            next,
            s[a].x,
            k,
        ) by {
            if b < j {
                assert(s[b] == s0[b] && s[a] == s0[a]);
                if k < n {
                    assert(prev[k].x == s0[b].x);
                    assert(seen_before(prev, s0[a].x, k));
                } else {
                    assert(prev.contains(s0[b]));
                    let k2 = choose|k2: int| 0 <= k2 < prev.len() && prev[k2] == s0[b];
                    assert(prev[k2].x == s0[b].x);
                }
            } else {
                assert(s[a] == s0[a]);
                assert(prev.contains(s0[a]));
                let m = choose|m: int| 0 <= m < prev.len() && prev[m] == s0[a];
                if k < n {
                    assert(prev[k].x != p.x);
                }
                assert(next[m].x == s[a].x);
            }
        }
    }
}

/// The y of the lowest point (largest y) of each column of `points`, the
/// columns in the order in which `points` first reaches them.
pub fn heights_from_points(points: &[Vertex]) -> (r: Vec<i64>)
    ensures
        exists|s: Seq<Vertex>| is_top_list(points@, s) && r@ == s.map_values(|v: Vertex| v.y),
{
    let mut tops: Vec<Vertex> = Vec::new();
    let mut n: usize = 0;
    proof {
        reveal(distinct_columns);
        reveal(lowest_points_of);
        reveal(covers_vertex_columns);
        reveal(first_seen_order);
    }
    while n < points.len()
        invariant
            n <= points@.len(),
            is_top_list(points@.subrange(0, n as int), tops@),
        decreases points@.len() - n,
    {
        let p = points[n];
        let ghost s0 = tops@;
        assert(points@.subrange(0, n + 1) =~= points@.subrange(0, n as int).push(p));
        let mut j: usize = 0;
        while j < tops.len() && tops[j].x != p.x
            invariant
                j <= tops@.len(),
                forall|t: int| 0 <= t < j ==> (#[trigger] tops@[t]).x != p.x,
            decreases tops@.len() - j,
        {
            j += 1;
        }
        if j < tops.len() {
            if tops[j].y < p.y {
                tops.set(j, p);
            }
            proof {
                lemma_top_list_merge(points@.subrange(0, n as int), p, s0, j as int, tops@);
            }
        } else {
            tops.push(p);
            proof {
                lemma_top_list_push(points@.subrange(0, n as int), p, s0);
            }
        }
        n += 1;
    }
    assert(points@.subrange(0, n as int) =~= points@);
    let mut r: Vec<i64> = Vec::new();
    let mut i: usize = 0;
    while i < tops.len()
        invariant
            i <= tops@.len(),
            r@ == tops@.subrange(0, i as int).map_values(|v: Vertex| v.y),
        decreases tops@.len() - i,
    {
        r.push(tops[i].y);
        i += 1;
        assert(r@ =~= tops@.subrange(0, i as int).map_values(|v: Vertex| v.y));
    }
    assert(tops@.subrange(0, i as int) =~= tops@);
    r
}

} // verus!
