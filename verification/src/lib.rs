pub mod hull_model;
pub mod location_trait;
pub mod point_in_polygon;

use vstd::prelude::*;

use crate::hull_model::{
    all_below, chain_fold, chain_push, insert_sorted, key_le, lemma_insert_sorted_below,
    lemma_sort_spec_below, sort_spec,
};
use crate::location_trait::{
    all_bounded, bounded_coord, coords_of, lemma_mul_bound, LocationTrait,
};

verus! {

/// Exact signed orientation value for the turn a -> b -> c.  Positive means a
/// clockwise turn, negative counter-clockwise, zero collinear (the sign
/// convention the chain construction pops on).
pub open spec fn cross_val(a: (int, int), b: (int, int), c: (int, int)) -> int {
    (b.1 - a.1) * (c.0 - a.0) - (b.0 - a.0) * (c.1 - a.1)
}

/// Exact orientation test for three points: returns a value whose sign
/// classifies c against the directed line a -> b.  Computed in 128-bit
/// arithmetic, which is exact for bounded coordinates.
fn cross<T: LocationTrait>(a: &T, b: &T, c: &T) -> (r: i128)
    requires
        bounded_coord(a.loc()),
        bounded_coord(b.loc()),
        bounded_coord(c.loc()),
    ensures
        r as int == cross_val(a.loc(), b.loc(), c.loc()),
{
    let ax: i128 = a.get_x() as i128;
    let ay: i128 = a.get_y() as i128;
    let bx: i128 = b.get_x() as i128;
    let by: i128 = b.get_y() as i128;
    let cx: i128 = c.get_x() as i128;
    let cy: i128 = c.get_y() as i128;
    proof {
        lemma_mul_bound((by - ay) as int, (cx - ax) as int, 0x2000_0000_0000_0000int);
        lemma_mul_bound((bx - ax) as int, (cy - ay) as int, 0x2000_0000_0000_0000int);
    }
    (by - ay) * (cx - ax) - (bx - ax) * (cy - ay)
}

/// Whether candidate a orders no later than candidate b under the
/// (x, y, index) key that the hull sort uses.
fn le_key<T: LocationTrait>(points: &[T], a: usize, b: usize) -> (r: bool)
    requires
        a < points@.len(),
        b < points@.len(),
    ensures
        r == key_le(coords_of(points@), a, b),
{
    let ax = points[a].get_x();
    let bx = points[b].get_x();
    if ax != bx {
        ax < bx
    } else {
        let ay = points[a].get_y();
        let by = points[b].get_y();
        if ay != by {
            ay < by
        } else {
            a <= b
        }
    }
}

/// Insert one candidate index into an already ascending run.
fn insert_candidate<T: LocationTrait>(points: &[T], sorted: Vec<usize>, v: usize) -> (r: Vec<
    usize,
>)
    requires
        v < points@.len(),
        all_below(sorted@, points@.len() as int),
    ensures
        r@ == insert_sorted(coords_of(points@), sorted@, v),
        all_below(r@, points@.len() as int),
    decreases sorted@.len(),
{
    proof {
        lemma_insert_sorted_below(coords_of(points@), sorted@, v, points@.len() as int);
    }
    let mut sorted = sorted;
    if sorted.len() == 0 {
        sorted.push(v);
        sorted
    } else {
        let last = sorted[sorted.len() - 1];
        if le_key(points, last, v) {
            sorted.push(v);
            sorted
        } else {
            let ghost whole = sorted@;
            let popped = sorted.pop().unwrap();
            proof {
                assert(sorted@ =~= whole.drop_last());
            }
            let mut r = insert_candidate(points, sorted, v);
            r.push(popped);
            r
        }
    }
}

/// Sort the candidate indices ascending under the (x, y, index) key.
fn sort_candidates<T: LocationTrait>(points: &[T], filtered: Vec<usize>) -> (r: Vec<usize>)
    requires
        all_below(filtered@, points@.len() as int),
    ensures
        r@ == sort_spec(coords_of(points@), filtered@),
        r@.len() == filtered@.len(),
        all_below(r@, points@.len() as int),
{
    proof {
        lemma_sort_spec_below(coords_of(points@), filtered@, points@.len() as int);
    }
    let ghost coords = coords_of(points@);
    let mut sorted: Vec<usize> = Vec::new();
    let mut i: usize = 0;
    while i < filtered.len()
        invariant
            i <= filtered@.len(),
            all_below(filtered@, points@.len() as int),
            all_below(sorted@, points@.len() as int),
            coords == coords_of(points@),
            sorted@ == sort_spec(coords, filtered@.take(i as int)),
        decreases filtered@.len() - i,
    {
        let ghost prefix = filtered@.take(i as int);
        proof {
            assert(filtered@.take(i + 1).drop_last() =~= prefix);
            assert(filtered@.take(i + 1).last() == filtered@[i as int]);
        }
        sorted = insert_candidate(points, sorted, filtered[i]);
        i = i + 1;
    }
    proof {
        assert(filtered@.take(filtered@.len() as int) =~= filtered@);
    }
    sorted
}

/// Andrew's monotone chain over a candidate index list: sorts the
/// candidates, builds the two boundary chains with the exact orientation
/// test, and returns the closed hull index sequence.  The result is exactly
/// the mathematical hull of the candidate list; callers therefore get the
/// same answer for the same input, every time.
pub fn convex_hull<T: LocationTrait>(points: &[T], filtered: Vec<usize>) -> (r: Vec<usize>)
    requires
        all_bounded(coords_of(points@)),
        all_below(filtered@, points@.len() as int),
    ensures
        r@ == hull_model::hull_spec(coords_of(points@), filtered@),
        all_below(r@, points@.len() as int),
{
    let ghost coords = coords_of(points@);
    proof {
        hull_model::lemma_hull_spec_below(coords, filtered@, points@.len() as int);
    }
    if filtered.len() == 0 {
        let r: Vec<usize> = Vec::new();
        return r;
    }
    let sorted = sort_candidates(points, filtered);

    let mut lower: Vec<usize> = Vec::new();
    let mut i: usize = 0;
    while i < sorted.len()
        invariant
            i <= sorted@.len(),
            all_bounded(coords),
            coords == coords_of(points@),
            all_below(sorted@, points@.len() as int),
            all_below(lower@, points@.len() as int),
            lower@ == chain_fold(coords, sorted@.take(i as int)),
        decreases sorted@.len() - i,
    {
        let c = sorted[i];
        let ghost start = lower@;
        while lower.len() >= 2 && cross(
            &points[lower[lower.len() - 2]],
            &points[lower[lower.len() - 1]],
            &points[c],
        ) <= 0
            invariant
                all_bounded(coords),
                coords == coords_of(points@),
                c < points@.len(),
                all_below(lower@, points@.len() as int),
                chain_push(coords, lower@, c) == chain_push(coords, start, c),
            decreases lower@.len(),
        {
            let ghost before = lower@;
            let _ = lower.pop();
            proof {
                assert(lower@ =~= before.drop_last());
            }
        }
        lower.push(c);
        proof {
            assert(sorted@.take(i + 1).drop_last() =~= sorted@.take(i as int));
            assert(sorted@.take(i + 1).last() == sorted@[i as int]);
        }
        i = i + 1;
    }

    let mut upper: Vec<usize> = Vec::new();
    let mut j: usize = sorted.len();
    while j > 0
        invariant
            j <= sorted@.len(),
            all_bounded(coords),
            coords == coords_of(points@),
            all_below(sorted@, points@.len() as int),
            all_below(upper@, points@.len() as int),
            upper@ == chain_fold(coords, sorted@.reverse().take(sorted@.len() - j)),
        decreases j,
    {
        j = j - 1;
        let c = sorted[j];
        let ghost start = upper@;
        while upper.len() >= 2 && cross(
            &points[upper[upper.len() - 2]],
            &points[upper[upper.len() - 1]],
            &points[c],
        ) <= 0
            invariant
                all_bounded(coords),
                coords == coords_of(points@),
                c < points@.len(),
                all_below(upper@, points@.len() as int),
                chain_push(coords, upper@, c) == chain_push(coords, start, c),
            decreases upper@.len(),
        {
            let ghost before = upper@;
            let _ = upper.pop();
            proof {
                assert(upper@ =~= before.drop_last());
            }
        }
        upper.push(c);
        proof {
            let rev = sorted@.reverse();
            assert(rev.take(sorted@.len() - j).drop_last() =~= rev.take(sorted@.len() - j - 1));
            assert(rev.take(sorted@.len() - j).last() == rev[sorted@.len() - j - 1]);
            assert(rev[sorted@.len() - j - 1] == sorted@[j as int]);
        }
    }

    proof {
        assert(sorted@.take(sorted@.len() as int) =~= sorted@);
        assert(sorted@.reverse().take(sorted@.len() as int) =~= sorted@.reverse());
        hull_model::lemma_sort_spec_below(coords, filtered@, points@.len() as int);
        hull_model::lemma_chain_fold_below(coords, sorted@, points@.len() as int);
        hull_model::lemma_chain_fold_below(coords, sorted@.reverse(), points@.len() as int);
        assert(all_below(sorted@.reverse(), points@.len() as int));
    }
    let ghost lower_full = lower@;
    let ghost upper_full = upper@;
    let _ = upper.pop();
    let _ = lower.pop();
    proof {
        assert(lower@ =~= lower_full.drop_last());
        assert(upper@ =~= upper_full.drop_last());
    }
    lower.append(&mut upper);
    lower
}

/// Extremal-point culling followed by the monotone-chain hull: one linear
/// scan finds the four extremal indices, the even-odd containment test
/// against the region they span discards interior points, and the hull is
/// built from the surviving candidates.
pub fn fast_convex_hull<T: LocationTrait>(points: &[T]) -> (r: Vec<usize>)
    requires
        points@.len() >= 1,
        all_bounded(coords_of(points@)),
    ensures
        r@ == hull_model::hull_pipeline(coords_of(points@)),
        all_below(r@, points@.len() as int),
{
    let ghost coords = coords_of(points@);
    let mut left: usize = 0;
    let mut right: usize = 0;
    let mut top: usize = 0;
    let mut bottom: usize = 0;

    let mut i: usize = 1;
    while i < points.len()
        invariant
            1 <= i <= points@.len(),
            coords == coords_of(points@),
            left < points@.len(),
            right < points@.len(),
            top < points@.len(),
            bottom < points@.len(),
            left as int == hull_model::min_x_scan(coords, i as int),
            right as int == hull_model::max_x_scan(coords, i as int),
            top as int == hull_model::min_y_scan(coords, i as int),
            bottom as int == hull_model::max_y_scan(coords, i as int),
        decreases points@.len() - i,
    {
        if points[i].get_x() < points[left].get_x() {
            left = i;
        }
        if points[i].get_x() > points[right].get_x() {
            right = i;
        }
        if points[i].get_y() < points[top].get_y() {
            top = i;
        }
        if points[i].get_y() > points[bottom].get_y() {
            bottom = i;
        }
        i = i + 1;
    }

    let mut cull: Vec<&T> = Vec::new();
    cull.push(&points[left]);
    cull.push(&points[top]);
    cull.push(&points[right]);
    cull.push(&points[bottom]);
    proof {
        assert(crate::point_in_polygon::coords_of_refs(cull@) =~= hull_model::quad_spec(coords));
    }

    let mut filtered: Vec<usize> = Vec::new();
    filtered.push(left);
    filtered.push(top);
    filtered.push(right);
    filtered.push(bottom);
    let ghost seed = filtered@;

    let mut k: usize = 0;
    while k < points.len()
        invariant
            k <= points@.len(),
            coords == coords_of(points@),
            all_bounded(coords),
            cull@.len() == 4,
            crate::point_in_polygon::coords_of_refs(cull@) == hull_model::quad_spec(coords),
            all_below(filtered@, points@.len() as int),
            filtered@ == seed + hull_model::outside_list(
                coords,
                hull_model::quad_spec(coords),
                k as int,
            ),
            forall|m: int| 0 <= m < cull@.len() ==> #[trigger] bounded_coord(cull@[m].loc()),
        decreases points@.len() - k,
    {
        proof {
            assert(bounded_coord(coords[k as int]));
            assert(points@[k as int].loc() == coords[k as int]);
        }
        if !crate::point_in_polygon::point_in_polygon(&points[k], cull.as_slice()) {
            filtered.push(k);
        }
        k = k + 1;
    }

    proof {
        assert(filtered@ =~= hull_model::cand_spec(coords));
    }
    convex_hull(points, filtered)
}

/// The convex hull of a nonempty point sequence, returned as concrete
/// coordinate pairs.  Every returned pair is the coordinate pair of some
/// input point, in the order the hull boundary visits them; the result is a
/// function of the input coordinates alone.
pub fn concaveman_convex<T: LocationTrait>(points: &[T]) -> (r: Vec<(i64, i64)>)
    requires
        points@.len() >= 1,
        all_bounded(coords_of(points@)),
    ensures
        r@.len() == hull_model::hull_pipeline(coords_of(points@)).len(),
        forall|k: int|
            0 <= k < r@.len() ==> ((#[trigger] r@[k]).0 as int, r@[k].1 as int)
                == coords_of(points@)[hull_model::hull_pipeline(coords_of(points@))[k] as int],
        forall|k: int|
            0 <= k < r@.len() ==> exists|i: int|
                0 <= i < points@.len() && ((#[trigger] r@[k]).0 as int, r@[k].1 as int)
                    == coords_of(points@)[i],
{
    let ghost coords = coords_of(points@);
    let hull = fast_convex_hull(points);
    let mut out: Vec<(i64, i64)> = Vec::new();
    let mut i: usize = 0;
    while i < hull.len()
        invariant
            i <= hull@.len(),
            coords == coords_of(points@),
            hull@ == hull_model::hull_pipeline(coords),
            all_below(hull@, points@.len() as int),
            out@.len() == i,
            forall|k: int|
                0 <= k < i ==> ((#[trigger] out@[k]).0 as int, out@[k].1 as int)
                    == coords[hull@[k] as int],
        decreases hull@.len() - i,
    {
        let idx = hull[i];
        let px = points[idx].get_x();
        let py = points[idx].get_y();
        out.push((px, py));
        i = i + 1;
    }
    proof {
        assert forall|k: int| 0 <= k < out@.len() implies exists|i2: int|
            0 <= i2 < points@.len() && ((#[trigger] out@[k]).0 as int, out@[k].1 as int)
                == coords_of(points@)[i2] by {
            let w = hull@[k] as int;
            assert(0 <= w < points@.len());
            assert(((out@[k]).0 as int, out@[k].1 as int) == coords_of(points@)[w]);
        }
    }
    out
}

} // verus!

