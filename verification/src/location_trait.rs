use vstd::prelude::*;

verus! {

/// Largest coordinate magnitude the hull routines accept.  Keeping every
/// coordinate within this bound lets all cross products and edge
/// interpolations be computed exactly in 128-bit arithmetic.
pub const COORD_LIMIT: i64 = 0x1000_0000_0000_0000;

/// Capability any point type must offer: two exact integer coordinate
/// accessors.  Nothing else is required of a point; two distinct points may
/// share coordinates.
pub trait LocationTrait: Sized {
    /// The mathematical coordinates of this point.
    spec fn loc(&self) -> (int, int);

    fn get_x(&self) -> (r: i64)
        ensures
            r as int == self.loc().0,
    ;

    fn get_y(&self) -> (r: i64)
        ensures
            r as int == self.loc().1,
    ;
}

/// A plain coordinate pair, the simplest point type.
#[derive(Clone, Copy, PartialEq, Eq, Structural, Debug)]
pub struct Point {
    pub x: i64,
    pub y: i64,
}

impl LocationTrait for Point {
    open spec fn loc(&self) -> (int, int) {
        (self.x as int, self.y as int)
    }

    fn get_x(&self) -> i64 {
        self.x
    }

    fn get_y(&self) -> i64 {
        self.y
    }
}

/// A product of two factors of magnitude at most m has magnitude at most m * m.
pub proof fn lemma_mul_bound(x: int, y: int, m: int)
    by (nonlinear_arith)
    requires
        0 <= m,
        -m <= x <= m,
        -m <= y <= m,
    ensures
        -(m * m) <= x * y <= m * m,
{
}

/// Whether a coordinate pair lies within the accepted magnitude bound.
pub open spec fn bounded_coord(c: (int, int)) -> bool {
    &&& -(COORD_LIMIT as int) <= c.0 <= COORD_LIMIT as int
    &&& -(COORD_LIMIT as int) <= c.1 <= COORD_LIMIT as int
}

/// The coordinate sequence of a point sequence.
pub open spec fn coords_of<T: LocationTrait>(points: Seq<T>) -> Seq<(int, int)> {
    Seq::new(points.len(), |i: int| points[i].loc())
}

/// Whether every coordinate pair in the sequence is bounded.
pub open spec fn all_bounded(coords: Seq<(int, int)>) -> bool {
    forall|i: int| 0 <= i < coords.len() ==> #[trigger] bounded_coord(coords[i])
}

} // verus!
