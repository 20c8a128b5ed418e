use vstd::prelude::*;

use crate::bitmap::Bitmap;
use crate::geometry::{unit_apart, Pixel};
use crate::scan::boundary_of;

verus! {

/// The first index at or after `i` whose pixel is one unit from `p`, or
/// `pool.len()` if there is none.
pub open spec fn find_from(pool: Seq<Pixel>, p: Pixel, i: nat) -> nat
    decreases pool.len() - i,
{
    if i >= pool.len() {
        pool.len()
    } else if unit_apart(pool[i as int], p) {
        i
    } else {
        find_from(pool, p, i + 1)
    }
}

/// `pool` after taking out its first pixel the way `Vec::swap_remove(0)` does:
/// the last pixel takes its place.
pub open spec fn take_first(pool: Seq<Pixel>) -> Seq<Pixel> {
    pool.update(0, pool.last()).drop_last()
}

/// The measure that each step of the chaining lowers.
pub open spec fn chaining_measure(pool: Seq<Pixel>, chain: Seq<Pixel>) -> nat {
    2 * pool.len() + if chain.len() > 0 { 1nat } else { 0nat }
}

/// Greedy chaining, from a state of remaining pixels `pool`, the chain being
/// built and the finished groups. While pixels remain: an empty chain is
/// seeded with the first remaining pixel; then the first remaining pixel one
/// unit from the chain's end is moved onto the chain, or, if none is, the
/// chain is closed as a group. At the end a non-empty chain is closed too.
pub open spec fn chain_from(pool: Seq<Pixel>, chain: Seq<Pixel>, groups: Seq<Seq<Pixel>>) -> Seq<
    Seq<Pixel>,
>
    decreases chaining_measure(pool, chain),
{
    if pool.len() == 0 {
        if chain.len() > 0 {
            groups.push(chain)
        } else {
            groups
        }
    } else {
        let pool1 = if chain.len() == 0 { take_first(pool) } else { pool };
        let chain1 = if chain.len() == 0 { seq![pool[0]] } else { chain };
        let i = find_from(pool1, chain1.last(), 0);
        if i < pool1.len() {
            chain_from(pool1.remove(i as int), chain1.push(pool1[i as int]), groups)
        } else {
            chain_from(pool1, Seq::empty(), groups.push(chain1))
        }
    }
}

/// The contours of a scan-ordered set of boundary pixels: each is a maximal
/// greedy run of pixels one unit apart.
pub open spec fn contours_of(points: Seq<Pixel>) -> Seq<Seq<Pixel>> {
    chain_from(points, Seq::empty(), Seq::empty())
}

/// The contours of a raster, in the order they are assembled.
pub open spec fn image_contours(image: Bitmap) -> Seq<Seq<Pixel>> {
    contours_of(boundary_of(image))
}

/// The views of a vector of vectors.
pub open spec fn views(v: Seq<Vec<Pixel>>) -> Seq<Seq<Pixel>> {
    v.map_values(|g: Vec<Pixel>| g@)
}

/// Consecutive pixels of `s` are one unit apart.
pub open spec fn is_chained(s: Seq<Pixel>) -> bool {
    forall|j: int| 0 <= j < s.len() - 1 ==> unit_apart(#[trigger] s[j], s[j + 1])
}

/// Every group is non-empty and chained.
pub open spec fn groups_chained(groups: Seq<Seq<Pixel>>) -> bool {
    forall|i: int| 0 <= i < groups.len() ==> #[trigger] groups[i].len() > 0 && is_chained(groups[i])
}

proof fn lemma_find_in_range(pool: Seq<Pixel>, p: Pixel, i: nat)
    requires
        i <= pool.len(),
    ensures
        i <= find_from(pool, p, i) <= pool.len(),
        find_from(pool, p, i) < pool.len() ==> unit_apart(pool[find_from(pool, p, i) as int], p),
    decreases pool.len() - i,
{
    if i < pool.len() && !unit_apart(pool[i as int], p) {
        lemma_find_in_range(pool, p, i + 1);
    }
}

proof fn lemma_take_first_multiset(pool: Seq<Pixel>)
    requires
        pool.len() > 0,
    ensures
        take_first(pool).to_multiset() =~= pool.to_multiset().remove(pool[0]),
{
    broadcast use vstd::seq_lib::group_to_multiset_ensures, vstd::multiset::group_multiset_properties;

    let u = pool.update(0, pool.last());
    assert(u =~= u.drop_last().push(pool.last()));
    assert(u.to_multiset() == u.drop_last().to_multiset().insert(pool.last()));
    assert(u.to_multiset() == pool.to_multiset().insert(pool.last()).remove(pool[0]));
    assert(pool.to_multiset().count(pool[0]) > 0);
    assert forall|x: Pixel|
        u.drop_last().to_multiset().count(x) == #[trigger] pool.to_multiset().remove(pool[0]).count(
            x,
        ) by {
        assert(u.to_multiset().count(x) == u.drop_last().to_multiset().count(x) + if x
            == pool.last() {
            1int
        } else {
            0
        });
    }
}

proof fn lemma_unit_apart_symmetric(a: Pixel, b: Pixel)
    ensures
        unit_apart(a, b) == unit_apart(b, a),
{
    let dx = a.x as int - b.x as int;
    let dy = a.y as int - b.y as int;
    assert(dx * dx == (-dx) * (-dx) && dy * dy == (-dy) * (-dy)) by (nonlinear_arith);
}

/// What greedy chaining hands back from any state whose chain and groups are
/// chained: chained, non-empty groups holding exactly the pixels of the state.
proof fn lemma_chain_from_shape(pool: Seq<Pixel>, chain: Seq<Pixel>, groups: Seq<Seq<Pixel>>)
    requires
        is_chained(chain),
        groups_chained(groups),
    ensures
        groups_chained(chain_from(pool, chain, groups)),
        chain_from(pool, chain, groups).flatten().to_multiset() =~= groups.flatten().to_multiset().add(
            chain.to_multiset(),
        ).add(pool.to_multiset()),
    decreases chaining_measure(pool, chain),
{
    broadcast use vstd::seq_lib::group_to_multiset_ensures, vstd::multiset::group_multiset_properties,
        vstd::seq_lib::lemma_multiset_commutative;

    if pool.len() == 0 {
        if chain.len() > 0 {
            assert(groups.push(chain)[groups.len() as int] == chain);
            groups.lemma_flatten_push(chain);
        }
    } else {
        let pool1 = if chain.len() == 0 { take_first(pool) } else { pool };
        let chain1 = if chain.len() == 0 { seq![pool[0]] } else { chain };
        if chain.len() == 0 {
            lemma_take_first_multiset(pool);
            assert(chain1.to_multiset() =~= vstd::multiset::Multiset::empty().insert(pool[0])) by {
                assert(chain1 =~= Seq::<Pixel>::empty().push(pool[0]));
            }
        }
        assert(pool1.to_multiset().add(chain1.to_multiset()) =~= pool.to_multiset().add(
            chain.to_multiset(),
        ));
        let i = find_from(pool1, chain1.last(), 0);
        lemma_find_in_range(pool1, chain1.last(), 0);
        if i < pool1.len() {
            let chain2 = chain1.push(pool1[i as int]);
            assert(is_chained(chain2)) by {
                assert forall|j: int| 0 <= j < chain2.len() - 1 implies unit_apart(
                    #[trigger] chain2[j],
                    chain2[j + 1],
                ) by {
                    if j == chain2.len() - 2 {
                        let a = chain2[j];
                        let b = chain2[j + 1];
                        assert(a == chain1.last());
                        assert(b == pool1[i as int]);
                        lemma_unit_apart_symmetric(a, b);
                    } else {
                        assert(chain2[j] == chain1[j] && chain2[j + 1] == chain1[j + 1]);
                    }
                }
            }
            lemma_chain_from_shape(pool1.remove(i as int), chain2, groups);
        } else {
            let groups2 = groups.push(chain1);
            groups.lemma_flatten_push(chain1);
            assert(groups_chained(groups2)) by {
                assert forall|k: int| 0 <= k < groups2.len() implies #[trigger] groups2[k].len() > 0
                    && is_chained(groups2[k]) by {
                    if k < groups.len() {
                        assert(groups2[k] == groups[k]);
                    }
                }
            }
            lemma_chain_from_shape(pool1, Seq::empty(), groups2);
        }
    }
}

/// The contours of `points` are non-empty, step one unit at a time, and
/// together hold each pixel of `points` as often as `points` does.
pub proof fn lemma_contours_partition(points: Seq<Pixel>)
    ensures
        groups_chained(contours_of(points)),
        contours_of(points).flatten().to_multiset() =~= points.to_multiset(),
{
    broadcast use vstd::seq_lib::group_to_multiset_ensures, vstd::multiset::group_multiset_properties;

    lemma_chain_from_shape(points, Seq::empty(), Seq::empty());
    assert(Seq::<Seq<Pixel>>::empty().flatten() =~= Seq::<Pixel>::empty());
}

proof fn lemma_find_skips(pool: Seq<Pixel>, p: Pixel, i: nat)
    requires
        i <= pool.len(),
        forall|k: int| 0 <= k < i ==> !unit_apart(#[trigger] pool[k], p),
    ensures
        find_from(pool, p, 0) == find_from(pool, p, i),
    decreases i,
{
    if i > 0 {
        lemma_find_skips(pool, p, (i - 1) as nat);
    }
}

/// Orders boundary pixels into contours: consecutive pixels of a contour are
/// one unit apart, and a new contour starts wherever no remaining pixel
/// continues the current one.
pub fn drawing_order(points: &Vec<Pixel>) -> (groups: Vec<Vec<Pixel>>)
    ensures
        views(groups@) == contours_of(points@),
        groups_chained(views(groups@)),
        views(groups@).flatten().to_multiset() =~= points@.to_multiset(),
{
    proof {
        lemma_contours_partition(points@);
    }
    let mut pool: Vec<Pixel> = Vec::new();
    let mut k: usize = 0;
    while k < points.len()
        invariant
            k <= points@.len(),
            pool@ == points@.subrange(0, k as int),
        decreases points@.len() - k,
    {
        pool.push(points[k]);
        k += 1;
        proof {
            assert(pool@ =~= points@.subrange(0, k as int));
        }
    }
    assert(pool@ =~= points@);
    let mut chain: Vec<Pixel> = Vec::new();
    let mut groups: Vec<Vec<Pixel>> = Vec::new();
    assert(views(groups@) =~= Seq::<Seq<Pixel>>::empty());
    while pool.len() > 0
        invariant
            chain_from(pool@, chain@, views(groups@)) == contours_of(points@),
        decreases chaining_measure(pool@, chain@),
    {
        let ghost pool0 = pool@;
        let ghost chain0 = chain@;
        if chain.len() == 0 {
            let seed = pool.swap_remove(0);
            chain.push(seed);
            assert(chain@ =~= seq![pool0[0]]);
        }
        let last = chain[chain.len() - 1];
        let mut i: usize = 0;
        while i < pool.len() && !pool[i].is_unit_apart(&last)
            invariant
                i <= pool@.len(),
                forall|t: int| 0 <= t < i ==> !unit_apart(#[trigger] pool@[t], last),
            decreases pool@.len() - i,
        {
            i += 1;
        }
        proof {
            lemma_find_skips(pool@, last, i as nat);
        }
        if i < pool.len() {
            let next = pool.remove(i);
            chain.push(next);
        } else {
            let ghost g0 = views(groups@);
            let ghost closed = chain@;
            groups.push(chain);
            chain = Vec::new();
            assert(views(groups@) =~= g0.push(closed));
        }
    }
    if chain.len() > 0 {
        let ghost g0 = views(groups@);
        groups.push(chain);
        assert(views(groups@) =~= g0.push(chain@));
    }
    groups
}

} // verus!
