//! The lattice model: cells of the first octant, their mirror images in
//! the full sphere, and the strict total orders in which both are
//! enumerated.
use vstd::prelude::*;
use vstd::relations::total_ordering;

verus! {

/// A lattice cell in the first octant: the non-negative number of
/// chunk-size steps from the origin chunk along each axis.
pub type Cell = (usize, usize, usize);

/// A lattice cell anywhere in the sphere: signed steps from the origin
/// chunk along each axis.
pub type SignedCell = (i64, i64, i64);

/// Squared distance of a first-octant cell from the origin cell, in
/// chunk-size units.
pub open spec fn dist2(c: Cell) -> int {
    c.0 * c.0 + c.1 * c.1 + c.2 * c.2
}

/// Largest coordinate of a first-octant cell.
pub open spec fn max_coord(c: Cell) -> int {
    if c.0 >= c.1 && c.0 >= c.2 {
        c.0 as int
    } else if c.1 >= c.2 {
        c.1 as int
    } else {
        c.2 as int
    }
}

/// The enumeration region of radius `r`: cells inside the cube [0, r)³
/// whose squared distance from the origin cell is at most r².
pub open spec fn in_ball(c: Cell, r: int) -> bool {
    c.0 < r && c.1 < r && c.2 < r && dist2(c) <= r * r
}

/// Lexicographic order on first-octant cells.
pub open spec fn lex_lt(a: Cell, b: Cell) -> bool {
    ||| a.0 < b.0
    ||| (a.0 == b.0 && a.1 < b.1)
    ||| (a.0 == b.0 && a.1 == b.1 && a.2 < b.2)
}

/// The strict total order in which first-octant cells are enumerated:
/// ascending squared distance from the origin cell, ties broken by the
/// largest coordinate and then lexicographically. Breaking ties on the
/// largest coordinate keeps every cell of an inner region strictly before
/// every cell outside of it, so that shell outputs concatenate into one
/// uninterrupted enumeration.
pub open spec fn cell_lt(a: Cell, b: Cell) -> bool {
    ||| dist2(a) < dist2(b)
    ||| (dist2(a) == dist2(b) && max_coord(a) < max_coord(b))
    ||| (dist2(a) == dist2(b) && max_coord(a) == max_coord(b) && lex_lt(a, b))
}

/// Weak counterpart of the enumeration order.
pub open spec fn cell_le(a: Cell, b: Cell) -> bool {
    cell_lt(a, b) || a == b
}

/// The weak enumeration order as a first-class relation.
pub open spec fn cell_le_fn() -> spec_fn(Cell, Cell) -> bool {
    |a: Cell, b: Cell| cell_le(a, b)
}

/// A sequence of first-octant cells in strictly ascending enumeration
/// order.
pub open spec fn cell_sorted(s: Seq<Cell>) -> bool {
    forall|i: int, j: int| 0 <= i < j < s.len() ==> #[trigger] cell_lt(s[i], s[j])
}

/// The arithmetic of the enumerator stays inside `usize` as long as three
/// squares of the radius fit.
pub open spec fn radius_fits(r: int) -> bool {
    0 <= r && 3 * (r * r) <= usize::MAX
}

/// Bounds under which a cell's coordinates convert to signed values.
pub open spec fn cell_fits(c: Cell) -> bool {
    dist2(c) <= usize::MAX && c.0 <= i64::MAX && c.1 <= i64::MAX && c.2 <= i64::MAX
}

/// Two cells that compare equal in all three tiers of the enumeration
/// order are the same cell.
pub proof fn lemma_cell_lt_connected(a: Cell, b: Cell)
    ensures
        cell_lt(a, b) || cell_lt(b, a) || a == b,
{
    if !cell_lt(a, b) && !cell_lt(b, a) {
        assert(a.0 == b.0 && a.1 == b.1 && a.2 == b.2);
        assert(a == b);
    }
}

/// The enumeration order chains.
pub proof fn lemma_cell_lt_trans(a: Cell, b: Cell, c: Cell)
    requires
        cell_lt(a, b),
        cell_lt(b, c),
    ensures
        cell_lt(a, c),
{
}

/// The weak enumeration order is a total ordering.
pub proof fn lemma_cell_le_total()
    ensures
        total_ordering(cell_le_fn()),
{
    let leq = cell_le_fn();
    assert forall|a: Cell, b: Cell| a != b implies #[trigger] leq(a, b) || #[trigger] leq(b, a) by {
        lemma_cell_lt_connected(a, b);
    }
    assert forall|a: Cell, b: Cell| #[trigger] leq(a, b) && #[trigger] leq(b, a) implies a == b by {
        if a != b {
            assert(cell_lt(a, b) && cell_lt(b, a));
        }
    }
}

/// Every cell of the region of radius `r` is enumerated strictly before
/// every cell outside that region. This is what makes shell outputs
/// concatenate seamlessly.
pub proof fn lemma_ball_boundary(a: Cell, b: Cell, r: int)
    requires
        0 <= r,
        in_ball(a, r),
        !in_ball(b, r),
    ensures
        cell_lt(a, b),
{
    assert(a.0 * a.0 >= 0 && a.1 * a.1 >= 0 && a.2 * a.2 >= 0) by (nonlinear_arith);
    assert(b.0 * b.0 >= 0 && b.1 * b.1 >= 0 && b.2 * b.2 >= 0) by (nonlinear_arith);
    assert(max_coord(a) < r);
    if dist2(b) > r * r {
        assert(dist2(a) < dist2(b));
    } else {
        // some coordinate of b reaches r, so its squared distance is at
        // least r² while its largest coordinate is at least r
        assert(max_coord(b) >= r);
        assert(dist2(b) >= max_coord(b) * max_coord(b)) by (nonlinear_arith);
        assert(max_coord(b) * max_coord(b) >= r * r) by (nonlinear_arith)
            requires max_coord(b) >= r >= 0;
        if dist2(a) == dist2(b) {
            assert(max_coord(a) < max_coord(b));
        }
    }
}

/// Enumeration regions grow with the radius.
pub proof fn lemma_ball_monotone(c: Cell, r1: int, r2: int)
    requires
        0 <= r1 <= r2,
        in_ball(c, r1),
    ensures
        in_ball(c, r2),
{
    assert(r1 * r1 <= r2 * r2) by (nonlinear_arith)
        requires 0 <= r1 <= r2;
}

/// Squared distance of a cell, computed executably.
pub fn squared_distance(c: Cell) -> (d: usize)
    requires
        dist2(c) <= usize::MAX,
    ensures
        d == dist2(c),
{
    proof {
        assert(c.0 * c.0 >= 0 && c.1 * c.1 >= 0 && c.2 * c.2 >= 0) by (nonlinear_arith);
    }
    c.0 * c.0 + c.1 * c.1 + c.2 * c.2
}

/// Largest coordinate of a cell, computed executably.
pub fn largest_coordinate(c: Cell) -> (m: usize)
    ensures
        m == max_coord(c),
{
    if c.0 >= c.1 && c.0 >= c.2 {
        c.0
    } else if c.1 >= c.2 {
        c.1
    } else {
        c.2
    }
}

/// Whether `a` is enumerated strictly before `b`.
pub fn cell_cmp_lt(a: Cell, b: Cell) -> (r: bool)
    requires
        dist2(a) <= usize::MAX,
        dist2(b) <= usize::MAX,
    ensures
        r == cell_lt(a, b),
{
    let da = squared_distance(a);
    let db = squared_distance(b);
    if da != db {
        return da < db;
    }
    let ma = largest_coordinate(a);
    let mb = largest_coordinate(b);
    if ma != mb {
        return ma < mb;
    }
    if a.0 != b.0 {
        return a.0 < b.0;
    }
    if a.1 != b.1 {
        return a.1 < b.1;
    }
    a.2 < b.2
}

} // verus!
