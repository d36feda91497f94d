//! Mirroring the first-octant cells into the full sphere: every cell is
//! expanded into its images under the eight sign combinations, suppressing
//! the duplicates that would negate a zero coordinate, and the origin
//! chunk is emitted exactly once as an explicit anchor.
use vstd::prelude::*;
use vstd::relations::sorted_by;
use vstd::relations::total_ordering;
use vstd::seq_lib::lemma_sorted_unique;
use crate::cell::{Cell, SignedCell, cell_fits, cell_lt, cell_sorted, dist2, in_ball, max_coord,
    radius_fits};
use crate::octant::{lemma_same_elements_multiset, octant_cells};

verus! {

/// Absolute value.
pub open spec fn abs_val(x: int) -> int {
    if x < 0 {
        -x
    } else {
        x
    }
}

/// Whether the signed cell `s` is a mirror image of the first-octant cell
/// `c`: the absolute values of its coordinates match the cell.
pub open spec fn mirrors(s: SignedCell, c: Cell) -> bool {
    abs_val(s.0 as int) == c.0 && abs_val(s.1 as int) == c.1 && abs_val(s.2 as int) == c.2
}

/// Squared distance of a signed cell from the origin cell.
pub open spec fn signed_dist2(s: SignedCell) -> int {
    s.0 * s.0 + s.1 * s.1 + s.2 * s.2
}

/// Largest absolute coordinate of a signed cell.
pub open spec fn signed_max_abs(s: SignedCell) -> int {
    if abs_val(s.0 as int) >= abs_val(s.1 as int) && abs_val(s.0 as int) >= abs_val(s.2 as int) {
        abs_val(s.0 as int)
    } else if abs_val(s.1 as int) >= abs_val(s.2 as int) {
        abs_val(s.1 as int)
    } else {
        abs_val(s.2 as int)
    }
}

/// Lexicographic order on the absolute coordinates of signed cells.
pub open spec fn signed_abs_lex_lt(a: SignedCell, b: SignedCell) -> bool {
    ||| abs_val(a.0 as int) < abs_val(b.0 as int)
    ||| (abs_val(a.0 as int) == abs_val(b.0 as int) && abs_val(a.1 as int) < abs_val(b.1 as int))
    ||| (abs_val(a.0 as int) == abs_val(b.0 as int) && abs_val(a.1 as int) == abs_val(b.1 as int)
        && abs_val(a.2 as int) < abs_val(b.2 as int))
}

/// Whether two signed cells are mirror images of the same first-octant
/// cell.
pub open spec fn same_abs(a: SignedCell, b: SignedCell) -> bool {
    abs_val(a.0 as int) == abs_val(b.0 as int) && abs_val(a.1 as int) == abs_val(b.1 as int)
        && abs_val(a.2 as int) == abs_val(b.2 as int)
}

/// Position of a signed cell among the mirror images of its cell: the
/// fixed order in which the eight sign patterns are emitted.
pub open spec fn sign_code(s: SignedCell) -> int {
    (if s.0 < 0 {
        4int
    } else {
        0int
    }) + (if s.1 < 0 {
        2int
    } else {
        0int
    }) + (if s.2 < 0 {
        1int
    } else {
        0int
    })
}

/// Strict total order on the chunks of the generated sphere: ascending
/// squared distance from the origin chunk, then the enumeration order of
/// the underlying first-octant cells, then the fixed order of the sign
/// patterns.
pub open spec fn signed_lt(a: SignedCell, b: SignedCell) -> bool {
    ||| signed_dist2(a) < signed_dist2(b)
    ||| (signed_dist2(a) == signed_dist2(b) && signed_max_abs(a) < signed_max_abs(b))
    ||| (signed_dist2(a) == signed_dist2(b) && signed_max_abs(a) == signed_max_abs(b)
        && signed_abs_lex_lt(a, b))
    ||| (signed_dist2(a) == signed_dist2(b) && signed_max_abs(a) == signed_max_abs(b) && same_abs(
        a,
        b,
    ) && sign_code(a) < sign_code(b))
}

/// Weak counterpart of the sphere order.
pub open spec fn signed_le(a: SignedCell, b: SignedCell) -> bool {
    signed_lt(a, b) || a == b
}

/// The weak sphere order as a first-class relation.
pub open spec fn signed_le_fn() -> spec_fn(SignedCell, SignedCell) -> bool {
    |a: SignedCell, b: SignedCell| signed_le(a, b)
}

/// A sequence of signed cells in strictly ascending sphere order.
pub open spec fn signed_sorted(s: Seq<SignedCell>) -> bool {
    forall|i: int, j: int| 0 <= i < j < s.len() ==> #[trigger] signed_lt(s[i], s[j])
}

/// The origin cell: the chunk that contains the observer.
pub open spec fn origin_cell() -> SignedCell {
    (0i64, 0i64, 0i64)
}

/// The signed cells that make up the generated sphere for axis count `n`:
/// the origin cell plus every mirror image of a first-octant cell of the
/// region of radius `n`.
pub open spec fn in_sphere(s: SignedCell, n: int) -> bool {
    s == origin_cell() || exists|c: Cell| #[trigger] mirrors(s, c) && in_ball(c, n)
}

/// The origin cell lies at squared distance zero from itself.
pub proof fn lemma_origin_dist(s: SignedCell)
    requires
        s == origin_cell(),
    ensures
        signed_dist2(s) == 0,
{
    assert(s.0 == 0i64 && s.1 == 0i64 && s.2 == 0i64);
    assert(signed_dist2(s) == 0) by (nonlinear_arith)
        requires
            s.0 == 0i64,
            s.1 == 0i64,
            s.2 == 0i64,
    ;
}

/// A mirror image keeps the squared distance and the largest absolute
/// coordinate of its cell.
pub proof fn lemma_mirror_key(s: SignedCell, c: Cell)
    requires
        mirrors(s, c),
    ensures
        signed_dist2(s) == dist2(c),
        signed_max_abs(s) == max_coord(c),
{
    assert(s.0 * s.0 == abs_val(s.0 as int) * abs_val(s.0 as int)) by (nonlinear_arith);
    assert(s.1 * s.1 == abs_val(s.1 as int) * abs_val(s.1 as int)) by (nonlinear_arith);
    assert(s.2 * s.2 == abs_val(s.2 as int) * abs_val(s.2 as int)) by (nonlinear_arith);
}

/// Mirror images of distinct cells follow the order of their cells.
pub proof fn lemma_mirror_order(s1: SignedCell, c1: Cell, s2: SignedCell, c2: Cell)
    requires
        mirrors(s1, c1),
        mirrors(s2, c2),
        cell_lt(c1, c2),
    ensures
        signed_lt(s1, s2),
{
    lemma_mirror_key(s1, c1);
    lemma_mirror_key(s2, c2);
}

/// Mirror images of one cell share every key of the sphere order except
/// the sign pattern, and the sign pattern identifies the image.
pub proof fn lemma_mirror_same_cell(s1: SignedCell, s2: SignedCell, c: Cell)
    requires
        mirrors(s1, c),
        mirrors(s2, c),
    ensures
        sign_code(s1) < sign_code(s2) ==> signed_lt(s1, s2),
        sign_code(s1) == sign_code(s2) ==> s1 == s2,
{
    lemma_mirror_key(s1, c);
    lemma_mirror_key(s2, c);
    if sign_code(s1) == sign_code(s2) {
        assert(s1.0 == s2.0 && s1.1 == s2.1 && s1.2 == s2.2);
        assert(s1 == s2);
    }
}

/// Two signed cells that compare equal in all four tiers of the sphere
/// order are the same cell.
pub proof fn lemma_signed_lt_connected(a: SignedCell, b: SignedCell)
    ensures
        signed_lt(a, b) || signed_lt(b, a) || a == b,
{
    if !signed_lt(a, b) && !signed_lt(b, a) {
        assert(same_abs(a, b));
        assert(sign_code(a) == sign_code(b));
        assert(a.0 == b.0 && a.1 == b.1 && a.2 == b.2);
        assert(a == b);
    }
}

/// The weak sphere order is a total ordering.
pub proof fn lemma_signed_le_total()
    ensures
        total_ordering(signed_le_fn()),
{
    let leq = signed_le_fn();
    assert forall|a: SignedCell, b: SignedCell| a != b implies #[trigger] leq(a, b) || #[trigger] leq(
        b,
        a,
    ) by {
        lemma_signed_lt_connected(a, b);
    }
    assert forall|a: SignedCell, b: SignedCell| #[trigger] leq(a, b) && #[trigger] leq(
        b,
        a,
    ) implies a == b by {
        if a != b {
            assert(signed_lt(a, b) && signed_lt(b, a));
        }
    }
}

/// A strictly sorted sequence of signed cells holds no chunk twice: no two
/// chunks of a generated result share a corner.
pub proof fn lemma_no_duplicate_chunks(s: Seq<SignedCell>)
    requires
        signed_sorted(s),
    ensures
        s.no_duplicates(),
{
    assert forall|i: int, j: int|
        0 <= i < s.len() && 0 <= j < s.len() && i != j implies s[i] != s[j] by {
        if i < j {
            assert(signed_lt(s[i], s[j]));
        } else {
            assert(signed_lt(s[j], s[i]));
        }
    }
}

/// Chunks of a generated result are non-decreasing in squared distance
/// from the origin chunk.
pub proof fn lemma_distance_monotone(s: Seq<SignedCell>, i: int, j: int)
    requires
        signed_sorted(s),
        0 <= i <= j < s.len(),
    ensures
        signed_dist2(s[i]) <= signed_dist2(s[j]),
{
    if i < j {
        assert(signed_lt(s[i], s[j]));
    }
}

/// Any two generation orders of the same sphere are the same sequence:
/// the output is uniquely determined by its membership and its order.
pub proof fn lemma_signed_sorted_unique(x: Seq<SignedCell>, y: Seq<SignedCell>)
    requires
        signed_sorted(x),
        signed_sorted(y),
        forall|s: SignedCell| #[trigger] x.contains(s) <==> y.contains(s),
    ensures
        x == y,
{
    lemma_no_duplicate_chunks(x);
    lemma_no_duplicate_chunks(y);
    lemma_same_elements_multiset(x, y);
    lemma_signed_le_total();
    assert(sorted_by(x, signed_le_fn()));
    assert(sorted_by(y, signed_le_fn()));
    lemma_sorted_unique(x, y, signed_le_fn());
    assert(x =~= y);
}

/// Append one mirror image of the cell `c`, keeping the group complete up
/// to its sign pattern and sorted.
fn push_image(out: &mut Vec<SignedCell>, t: SignedCell, Ghost(c): Ghost<Cell>, Ghost(k): Ghost<int>)
    requires
        mirrors(t, c),
        sign_code(t) == k,
        forall|s: SignedCell|
            #[trigger] old(out)@.contains(s) <==> (mirrors(s, c) && sign_code(s) < k),
        signed_sorted(old(out)@),
    ensures
        forall|s: SignedCell|
            #[trigger] final(out)@.contains(s) <==> (mirrors(s, c) && sign_code(s) < k + 1),
        signed_sorted(final(out)@),
{
    let ghost pre = out@;
    out.push(t);
    proof {
        broadcast use vstd::seq_lib::lemma_seq_contains_after_push;

        assert forall|s: SignedCell|
            #[trigger] out@.contains(s) <==> (mirrors(s, c) && sign_code(s) < k + 1) by {
            if mirrors(s, c) && sign_code(s) == k {
                lemma_mirror_same_cell(s, t, c);
            }
        }
        assert forall|i: int, j: int|
            0 <= i < j < out@.len() implies #[trigger] signed_lt(out@[i], out@[j]) by {
            if j == out@.len() - 1 {
                assert(pre.contains(pre[i]));
                lemma_mirror_same_cell(out@[i], t, c);
            }
        }
    }
}

/// The mirror images of one first-octant cell, each emitted once, in the
/// fixed order of the sign patterns.
fn mirror_one(c: Cell) -> (group: Vec<SignedCell>)
    requires
        cell_fits(c),
    ensures
        forall|s: SignedCell| #[trigger] group@.contains(s) <==> mirrors(s, c),
        signed_sorted(group@),
{
    let mut group: Vec<SignedCell> = Vec::new();
    let x = c.0 as i64;
    let y = c.1 as i64;
    let z = c.2 as i64;
    push_image(&mut group, (x, y, z), Ghost(c), Ghost(0));
    if z > 0 {
        push_image(&mut group, (x, y, -z), Ghost(c), Ghost(1));
    }
    proof {
        assert forall|s: SignedCell|
            #[trigger] group@.contains(s) <==> (mirrors(s, c) && sign_code(s) < 2) by {
            if mirrors(s, c) && sign_code(s) == 1 && c.2 == 0 {
                assert(abs_val(s.2 as int) == 0 && s.2 < 0);
            }
        }
    }
    if y > 0 {
        push_image(&mut group, (x, -y, z), Ghost(c), Ghost(2));
    }
    proof {
        assert forall|s: SignedCell|
            #[trigger] group@.contains(s) <==> (mirrors(s, c) && sign_code(s) < 3) by {
            if mirrors(s, c) && sign_code(s) == 2 && c.1 == 0 {
                assert(abs_val(s.1 as int) == 0 && s.1 < 0);
            }
        }
    }
    if y > 0 && z > 0 {
        push_image(&mut group, (x, -y, -z), Ghost(c), Ghost(3));
    }
    proof {
        assert forall|s: SignedCell|
            #[trigger] group@.contains(s) <==> (mirrors(s, c) && sign_code(s) < 4) by {
            if mirrors(s, c) && sign_code(s) == 3 && (c.1 == 0 || c.2 == 0) {
                assert(s.1 < 0 && s.2 < 0);
                assert(abs_val(s.1 as int) > 0 && abs_val(s.2 as int) > 0);
            }
        }
    }
    if x > 0 {
        push_image(&mut group, (-x, y, z), Ghost(c), Ghost(4));
    }
    proof {
        assert forall|s: SignedCell|
            #[trigger] group@.contains(s) <==> (mirrors(s, c) && sign_code(s) < 5) by {
            if mirrors(s, c) && sign_code(s) == 4 && c.0 == 0 {
                assert(abs_val(s.0 as int) == 0 && s.0 < 0);
            }
        }
    }
    if x > 0 && z > 0 {
        push_image(&mut group, (-x, y, -z), Ghost(c), Ghost(5));
    }
    proof {
        assert forall|s: SignedCell|
            #[trigger] group@.contains(s) <==> (mirrors(s, c) && sign_code(s) < 6) by {
            if mirrors(s, c) && sign_code(s) == 5 && (c.0 == 0 || c.2 == 0) {
                assert(s.0 < 0 && s.2 < 0);
                assert(abs_val(s.0 as int) > 0 && abs_val(s.2 as int) > 0);
            }
        }
    }
    if x > 0 && y > 0 {
        push_image(&mut group, (-x, -y, z), Ghost(c), Ghost(6));
    }
    proof {
        assert forall|s: SignedCell|
            #[trigger] group@.contains(s) <==> (mirrors(s, c) && sign_code(s) < 7) by {
            if mirrors(s, c) && sign_code(s) == 6 && (c.0 == 0 || c.1 == 0) {
                assert(s.0 < 0 && s.1 < 0);
                assert(abs_val(s.0 as int) > 0 && abs_val(s.1 as int) > 0);
            }
        }
    }
    if x > 0 && y > 0 && z > 0 {
        push_image(&mut group, (-x, -y, -z), Ghost(c), Ghost(7));
    }
    proof {
        assert forall|s: SignedCell| #[trigger] group@.contains(s) <==> mirrors(s, c) by {
            if mirrors(s, c) {
                assert(0 <= sign_code(s) < 8);
                if sign_code(s) == 7 && (c.0 == 0 || c.1 == 0 || c.2 == 0) {
                    assert(s.0 < 0 && s.1 < 0 && s.2 < 0);
                    assert(abs_val(s.0 as int) > 0 && abs_val(s.1 as int) > 0 && abs_val(
                        s.2 as int,
                    ) > 0);
                }
            }
        }
    }
    group
}

/// Expand a list of first-octant cells, given in ascending enumeration
/// order, into the corresponding chunks of the full sphere, in sphere
/// order: each cell contributes every mirror image exactly once.
pub fn mirror_cells(cells: &Vec<Cell>) -> (out: Vec<SignedCell>)
    requires
        cell_sorted(cells@),
        forall|i: int| 0 <= i < cells@.len() ==> #[trigger] cell_fits(cells@[i]),
    ensures
        forall|s: SignedCell|
            #[trigger] out@.contains(s) <==> (exists|c: Cell|
                #[trigger] mirrors(s, c) && cells@.contains(c)),
        signed_sorted(out@),
{
    let mut out: Vec<SignedCell> = Vec::new();
    let mut i: usize = 0;
    while i < cells.len()
        invariant
            i <= cells@.len(),
            cell_sorted(cells@),
            forall|k: int| 0 <= k < cells@.len() ==> #[trigger] cell_fits(cells@[k]),
            forall|s: SignedCell|
                #[trigger] out@.contains(s) <==> (exists|c: Cell|
                    #[trigger] mirrors(s, c) && cells@.subrange(0, i as int).contains(c)),
            signed_sorted(out@),
        decreases cells@.len() - i,
    {
        let c = cells[i];
        let mut group = mirror_one(c);
        let ghost pre = out@;
        let ghost grp = group@;
        out.append(&mut group);
        proof {
            broadcast use vstd::seq_lib::lemma_seq_concat_contains_all_elements;

            assert(out@ == pre + grp);
            assert forall|s: SignedCell|
                #[trigger] out@.contains(s) <==> (exists|e: Cell|
                    #[trigger] mirrors(s, e) && cells@.subrange(0, i + 1).contains(e)) by {
                if out@.contains(s) {
                    if pre.contains(s) {
                        let e = choose|e: Cell|
                            #[trigger] mirrors(s, e) && cells@.subrange(0, i as int).contains(e);
                        assert(cells@.subrange(0, i + 1).contains(e)) by {
                            let k = choose|k: int|
                                0 <= k < i && #[trigger] cells@.subrange(0, i as int)[k] == e;
                            assert(cells@.subrange(0, i + 1)[k] == e);
                        }
                    } else {
                        assert(mirrors(s, c));
                        assert(cells@.subrange(0, i + 1)[i as int] == c);
                        assert(cells@.subrange(0, i + 1).contains(c));
                    }
                } else {
                    if exists|e: Cell| #[trigger] mirrors(s, e) && cells@.subrange(
                        0,
                        i + 1,
                    ).contains(e) {
                        let e = choose|e: Cell|
                            #[trigger] mirrors(s, e) && cells@.subrange(0, i + 1).contains(e);
                        let k = choose|k: int|
                            0 <= k < i + 1 && #[trigger] cells@.subrange(0, i + 1)[k] == e;
                        if k < i {
                            assert(cells@.subrange(0, i as int)[k] == e);
                            assert(cells@.subrange(0, i as int).contains(e));
                            assert(pre.contains(s));
                        } else {
                            assert(e == c);
                            assert(grp.contains(s));
                        }
                        assert(false);
                    }
                }
            }
            assert forall|a: int, b: int|
                0 <= a < b < out@.len() implies #[trigger] signed_lt(out@[a], out@[b]) by {
                if a < pre.len() && b >= pre.len() {
                    assert(pre.contains(pre[a]));
                    let e = choose|e: Cell|
                        #[trigger] mirrors(pre[a], e) && cells@.subrange(0, i as int).contains(e);
                    let k = choose|k: int|
                        0 <= k < i && #[trigger] cells@.subrange(0, i as int)[k] == e;
                    assert(cells@[k] == e);
                    assert(cell_lt(e, c));
                    assert(grp.contains(grp[b - pre.len()]));
                    assert(mirrors(out@[b], c));
                    lemma_mirror_order(out@[a], e, out@[b], c);
                }
            }
        }
        i += 1;
    }
    proof {
        assert(cells@.subrange(0, cells@.len() as int) =~= cells@);
    }
    out
}

/// Generate the chunks that tile the sphere of axis count `n` around the
/// observer: the origin chunk exactly once, first, as the explicit anchor,
/// followed by every mirror image of every other first-octant cell of the
/// region, in ascending squared distance from the origin chunk.
pub fn generate_chunks(n: usize) -> (chunks: Vec<SignedCell>)
    requires
        radius_fits(n as int),
    ensures
        chunks@.len() >= 1,
        chunks@[0] == origin_cell(),
        forall|s: SignedCell| #[trigger] chunks@.contains(s) <==> in_sphere(s, n as int),
        signed_sorted(chunks@),
        n <= 1 ==> chunks@ == seq![origin_cell()],
{
    let mut chunks: Vec<SignedCell> = Vec::new();
    chunks.push((0i64, 0i64, 0i64));
    if n >= 1 {
        let cells = octant_cells(1, n);
        proof {
            assert forall|k: int| 0 <= k < cells@.len() implies #[trigger] cell_fits(
                cells@[k],
            ) by {
                assert(cells@.contains(cells@[k]));
                lemma_cell_in_ball_fits(cells@[k], n as int);
            }
        }
        let mut rest = mirror_cells(&cells);
        let ghost pre = chunks@;
        let ghost tail = rest@;
        chunks.append(&mut rest);
        proof {
            broadcast use vstd::seq_lib::lemma_seq_concat_contains_all_elements;
            broadcast use vstd::seq_lib::lemma_seq_contains_after_push;

            assert(chunks@ == pre + tail);
            assert(pre =~= seq![origin_cell()]);
            assert forall|s: SignedCell|
                #[trigger] chunks@.contains(s) <==> in_sphere(s, n as int) by {
                assert(pre.contains(origin_cell()));
                if tail.contains(s) {
                    let c = choose|c: Cell| #[trigger] mirrors(s, c) && cells@.contains(c);
                    assert(in_ball(c, n as int));
                }
                if s == origin_cell() {
                    assert(chunks@.contains(s));
                } else if in_sphere(s, n as int) {
                    let c = choose|c: Cell| #[trigger] mirrors(s, c) && in_ball(c, n as int);
                    if c == (0usize, 0usize, 0usize) {
                        assert(s.0 == 0 && s.1 == 0 && s.2 == 0);
                        assert(s == origin_cell());
                    } else {
                        assert(!in_ball(c, 1));
                        assert(cells@.contains(c));
                        assert(tail.contains(s));
                    }
                }
            }
            assert forall|a: int, b: int|
                0 <= a < b < chunks@.len() implies #[trigger] signed_lt(chunks@[a], chunks@[b]) by {
                assert(chunks@[b] == tail[b - 1]);
                if a == 0 {
                    assert(chunks@[a] == origin_cell());
                    assert(tail.contains(tail[b - 1]));
                    let c = choose|c: Cell| #[trigger] mirrors(chunks@[b], c) && cells@.contains(c);
                    lemma_mirror_key(chunks@[b], c);
                    lemma_cell_outside_origin_far(c);
                    assert(chunks@[a].0 == 0i64 && chunks@[a].1 == 0i64 && chunks@[a].2
                        == 0i64);
                    assert(signed_dist2(chunks@[a]) == 0) by (nonlinear_arith)
                        requires
                            chunks@[a].0 == 0i64,
                            chunks@[a].1 == 0i64,
                            chunks@[a].2 == 0i64,
                    ;
                } else {
                    assert(chunks@[a] == tail[a - 1]);
                    assert(signed_lt(tail[a - 1], tail[b - 1]));
                }
            }
        }
    } else {
        proof {
            broadcast use vstd::seq_lib::lemma_seq_contains_after_push;

            assert forall|s: SignedCell|
                #[trigger] chunks@.contains(s) <==> in_sphere(s, 0) by {
                if in_sphere(s, 0) && s != origin_cell() {
                    let c = choose|c: Cell| #[trigger] mirrors(s, c) && in_ball(c, 0);
                }
                if chunks@.contains(s) {
                    assert(chunks@ =~= seq![origin_cell()]);
                }
            }
        }
    }
    proof {
        if n <= 1 {
            assert forall|s: SignedCell| chunks@.contains(s) implies s == origin_cell() by {
                if in_sphere(s, n as int) && s != origin_cell() {
                    let c = choose|c: Cell| #[trigger] mirrors(s, c) && in_ball(c, n as int);
                    assert(c == (0usize, 0usize, 0usize));
                    assert(s == origin_cell());
                }
            }
            assert(chunks@ =~= seq![origin_cell()]) by {
                if chunks@.len() > 1 {
                    assert(chunks@.contains(chunks@[1]));
                    assert(signed_lt(chunks@[0], chunks@[1]));
                }
            }
        }
    }
    chunks
}

/// A cell of the enumeration region converts to signed coordinates.
pub(crate) proof fn lemma_cell_in_ball_fits(c: Cell, n: int)
    requires
        in_ball(c, n),
        radius_fits(n),
    ensures
        cell_fits(c),
{
    assert(c.0 * c.0 >= 0 && c.1 * c.1 >= 0 && c.2 * c.2 >= 0) by (nonlinear_arith);
    assert(n * n <= usize::MAX);
    assert(n <= i64::MAX) by (nonlinear_arith)
        requires 3 * (n * n) <= usize::MAX, usize::MAX <= u64::MAX, 0 <= n;
    assert(dist2(c) <= n * n);
}

/// A first-octant cell other than the origin cell lies at squared distance
/// at least one.
pub(crate) proof fn lemma_cell_outside_origin_far(c: Cell)
    requires
        !in_ball(c, 1),
    ensures
        dist2(c) >= 1,
{
    assert(c.0 * c.0 >= 0 && c.1 * c.1 >= 0 && c.2 * c.2 >= 0) by (nonlinear_arith);
    if c.0 < 1 && c.1 < 1 && c.2 < 1 {
        assert(dist2(c) == 0);
        assert(in_ball(c, 1));
    } else {
        assert(c.0 >= 1 || c.1 >= 1 || c.2 >= 1);
        assert(c.0 >= 1 ==> c.0 * c.0 >= 1) by (nonlinear_arith);
        assert(c.1 >= 1 ==> c.1 * c.1 >= 1) by (nonlinear_arith);
        assert(c.2 >= 1 ==> c.2 * c.2 >= 1) by (nonlinear_arith);
    }
}

} // verus!
