use vstd::prelude::*;

use crate::location_trait::{bounded_coord, lemma_mul_bound, LocationTrait};

verus! {

/// Whether the horizontal ray from p leftward crosses the edge from ci to cj,
/// by the classic even-odd rule: the endpoints must straddle p's height
/// (strictly above on exactly one side) and the edge's x at p's height,
/// obtained by linear interpolation, must lie strictly right of p.  The
/// interpolated comparison is stated exactly, with the division cleared
/// against the sign of the edge's height difference.
pub open spec fn ray_hits(p: (int, int), ci: (int, int), cj: (int, int)) -> bool {
    &&& (ci.1 > p.1) != (cj.1 > p.1)
    &&& if cj.1 - ci.1 > 0 {
        (p.0 - ci.0) * (cj.1 - ci.1) < (cj.0 - ci.0) * (p.1 - ci.1)
    } else {
        (p.0 - ci.0) * (cj.1 - ci.1) > (cj.0 - ci.0) * (p.1 - ci.1)
    }
}

/// Even-odd crossing parity of the first k edges of the closed boundary,
/// where edge k - 1 runs from vertex k - 1 back to its predecessor (the last
/// vertex for the first edge, wrapping around).
pub open spec fn crossing_parity(p: (int, int), cull: Seq<(int, int)>, k: int) -> bool
    decreases k,
{
    if k <= 0 {
        false
    } else {
        crossing_parity(p, cull, k - 1) != ray_hits(
            p,
            cull[k - 1],
            cull[if k == 1 { cull.len() - 1 } else { k - 2 }],
        )
    }
}

/// The even-odd containment rule over a whole closed boundary.
pub open spec fn inside_polygon(p: (int, int), cull: Seq<(int, int)>) -> bool {
    crossing_parity(p, cull, cull.len() as int)
}

/// The coordinate sequence of a sequence of borrowed points.
pub open spec fn coords_of_refs<T: LocationTrait>(points: Seq<&T>) -> Seq<(int, int)> {
    Seq::new(points.len(), |i: int| points[i].loc())
}

/// Ray-casting even-odd containment test of a point against a small closed
/// boundary, exact on bounded integer coordinates.
pub fn point_in_polygon<T: LocationTrait>(point: &T, cull: &[&T]) -> (r: bool)
    requires
        cull@.len() >= 1,
        bounded_coord(point.loc()),
        forall|i: int| 0 <= i < cull@.len() ==> #[trigger] bounded_coord(cull@[i].loc()),
    ensures
        r == inside_polygon(point.loc(), coords_of_refs(cull@)),
{
    let mut inside = false;
    let mut j: usize = cull.len() - 1;
    let x = point.get_x();
    let y = point.get_y();

    let mut i: usize = 0;
    while i < cull.len()
        invariant
            cull@.len() >= 1,
            i <= cull@.len(),
            j == if i == 0 { cull@.len() - 1 } else { i - 1 },
            x as int == point.loc().0,
            y as int == point.loc().1,
            bounded_coord(point.loc()),
            forall|k: int| 0 <= k < cull@.len() ==> #[trigger] bounded_coord(cull@[k].loc()),
            inside == crossing_parity(point.loc(), coords_of_refs(cull@), i as int),
        decreases cull@.len() - i,
    {
        let xi = cull[i].get_x();
        let xj = cull[j].get_x();
        let yi = cull[i].get_y();
        let yj = cull[j].get_y();

        proof {
            assert(bounded_coord(cull@[i as int].loc()));
            assert(bounded_coord(cull@[j as int].loc()));
        }
        if (yi > y) != (yj > y) {
            let d: i128 = yj as i128 - yi as i128;
            proof {
                lemma_mul_bound(
                    (x as i128 - xi as i128) as int,
                    d as int,
                    0x2000_0000_0000_0000int,
                );
                lemma_mul_bound(
                    (xj as i128 - xi as i128) as int,
                    (y as i128 - yi as i128) as int,
                    0x2000_0000_0000_0000int,
                );
            }
            let lhs: i128 = (x as i128 - xi as i128) * d;
            let rhs: i128 = (xj as i128 - xi as i128) * (y as i128 - yi as i128);
            let hit = if d > 0 {
                lhs < rhs
            } else {
                lhs > rhs
            };
            if hit {
                inside = !inside;
            }
        }

        j = i;
        i = i + 1;
    }
    inside
}

} // verus!
