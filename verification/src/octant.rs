//! Enumerating the first-octant lattice cells of a radius-bounded shell,
//! in ascending enumeration order, and the law that shell outputs
//! concatenate into one uninterrupted enumeration.
use vstd::prelude::*;
use vstd::relations::sorted_by;
use vstd::seq_lib::group_to_multiset_ensures;
use vstd::seq_lib::lemma_sorted_unique;
use crate::cell::{Cell, cell_cmp_lt, cell_le, cell_le_fn, cell_lt, cell_sorted, dist2, in_ball,
    lemma_ball_boundary, lemma_ball_monotone, lemma_cell_le_total, lemma_cell_lt_connected,
    lemma_cell_lt_trans, lex_lt, radius_fits, squared_distance};

verus! {

/// Insert one cell into a weakly sorted vector, keeping it sorted.
fn insert_sorted(v: &mut Vec<Cell>, c: Cell)
    requires
        forall|i: int, j: int|
            0 <= i < j < old(v)@.len() ==> #[trigger] cell_le(old(v)@[i], old(v)@[j]),
        forall|i: int| 0 <= i < old(v)@.len() ==> #[trigger] dist2(old(v)@[i]) <= usize::MAX,
        dist2(c) <= usize::MAX,
    ensures
        final(v)@.len() == old(v)@.len() + 1,
        final(v)@.to_multiset() == old(v)@.to_multiset().insert(c),
        forall|i: int, j: int|
            0 <= i < j < final(v)@.len() ==> #[trigger] cell_le(final(v)@[i], final(v)@[j]),
        forall|i: int| 0 <= i < final(v)@.len() ==> #[trigger] dist2(final(v)@[i]) <= usize::MAX,
{
    let mut j: usize = 0;
    while j < v.len() && cell_cmp_lt(v[j], c)
        invariant
            j <= v@.len(),
            v@ == old(v)@,
            forall|k: int| 0 <= k < j ==> #[trigger] cell_lt(v@[k], c),
            forall|i: int, k: int|
                0 <= i < k < v@.len() ==> #[trigger] cell_le(v@[i], v@[k]),
            forall|i: int| 0 <= i < v@.len() ==> #[trigger] dist2(v@[i]) <= usize::MAX,
            dist2(c) <= usize::MAX,
        decreases v@.len() - j,
    {
        j += 1;
    }
    proof {
        if j < v@.len() {
            lemma_cell_lt_connected(v@[j as int], c);
        }
    }
    let ghost pre = v@;
    v.insert(j, c);
    proof {
        broadcast use group_to_multiset_ensures;

        assert(v@ == pre.insert(j as int, c));
        assert forall|i: int, k: int| 0 <= i < k < v@.len() implies #[trigger] cell_le(
            v@[i],
            v@[k],
        ) by {
            if i < j && k == j {
                assert(cell_lt(pre[i], c));
            } else if i == j && k > j {
                // c is not past the first element it does not precede
                assert(cell_le(c, pre[j as int]));
                if k > j + 1 {
                    assert(cell_le(pre[j as int], pre[k - 1]));
                    lemma_cell_lt_connected(c, pre[k - 1]);
                }
            } else if i < j && k > j {
                assert(cell_le(pre[i], pre[k - 1]));
            }
        }
    }
}

/// Sort cells into the weak enumeration order.
fn sort_cells(input: Vec<Cell>) -> (out: Vec<Cell>)
    requires
        forall|i: int| 0 <= i < input@.len() ==> #[trigger] dist2(input@[i]) <= usize::MAX,
    ensures
        out@.to_multiset() == input@.to_multiset(),
        forall|i: int, j: int|
            0 <= i < j < out@.len() ==> #[trigger] cell_le(out@[i], out@[j]),
{
    let mut out: Vec<Cell> = Vec::new();
    let mut i: usize = 0;
    proof {
        broadcast use group_to_multiset_ensures;

        assert(input@.subrange(0, 0) =~= Seq::<Cell>::empty());
        assert(out@.to_multiset() =~= input@.subrange(0, 0).to_multiset());
    }
    while i < input.len()
        invariant
            i <= input@.len(),
            out@.len() == i,
            out@.to_multiset() == input@.subrange(0, i as int).to_multiset(),
            forall|k: int, j: int|
                0 <= k < j < out@.len() ==> #[trigger] cell_le(out@[k], out@[j]),
            forall|k: int| 0 <= k < out@.len() ==> #[trigger] dist2(out@[k]) <= usize::MAX,
            forall|k: int| 0 <= k < input@.len() ==> #[trigger] dist2(input@[k]) <= usize::MAX,
        decreases input@.len() - i,
    {
        let ghost pre = out@;
        insert_sorted(&mut out, input[i]);
        proof {
            broadcast use group_to_multiset_ensures;

            assert(input@.subrange(0, i + 1) =~= input@.subrange(0, i as int).push(input@[i as int]));
            assert(out@.to_multiset() =~= input@.subrange(0, i + 1).to_multiset());
        }
        i += 1;
    }
    proof {
        assert(input@.subrange(0, i as int) =~= input@);
    }
    out
}

/// Collect, in lexicographic order, the cells of the region of radius
/// `r_max` that lie outside the region of radius `r_min`.
fn collect_shell(r_min: usize, r_max: usize) -> (raw: Vec<Cell>)
    requires
        r_min <= r_max,
        radius_fits(r_max as int),
    ensures
        forall|c: Cell|
            #[trigger] raw@.contains(c) <==> (in_ball(c, r_max as int) && !in_ball(
                c,
                r_min as int,
            )),
        forall|i: int, j: int|
            0 <= i < j < raw@.len() ==> #[trigger] lex_lt(raw@[i], raw@[j]),
        forall|i: int| 0 <= i < raw@.len() ==> #[trigger] dist2(raw@[i]) <= usize::MAX,
{
    let mut raw: Vec<Cell> = Vec::new();
    proof {
        assert(r_max * r_max >= 0) by (nonlinear_arith);
        assert(r_min * r_min <= r_max * r_max) by (nonlinear_arith)
            requires 0 <= r_min <= r_max;
    }
    let outer_bound = r_max * r_max;
    let inner_bound = r_min * r_min;
    let mut x: usize = 0;
    while x < r_max
        invariant
            x <= r_max,
            radius_fits(r_max as int),
            r_min <= r_max,
            outer_bound == r_max * r_max,
            inner_bound == r_min * r_min,
            forall|c: Cell|
                #[trigger] raw@.contains(c) <==> (in_ball(c, r_max as int) && !in_ball(
                    c,
                    r_min as int,
                ) && c.0 < x),
            forall|i: int, j: int|
                0 <= i < j < raw@.len() ==> #[trigger] lex_lt(raw@[i], raw@[j]),
            forall|i: int| 0 <= i < raw@.len() ==> #[trigger] dist2(raw@[i]) <= usize::MAX,
        decreases r_max - x,
    {
        let mut y: usize = 0;
        while y < r_max
            invariant
                x < r_max,
                y <= r_max,
                radius_fits(r_max as int),
                r_min <= r_max,
                outer_bound == r_max * r_max,
                inner_bound == r_min * r_min,
                forall|c: Cell|
                    #[trigger] raw@.contains(c) <==> (in_ball(c, r_max as int) && !in_ball(
                        c,
                        r_min as int,
                    ) && (c.0 < x || (c.0 == x && c.1 < y))),
                forall|i: int, j: int|
                    0 <= i < j < raw@.len() ==> #[trigger] lex_lt(raw@[i], raw@[j]),
                forall|i: int| 0 <= i < raw@.len() ==> #[trigger] dist2(raw@[i]) <= usize::MAX,
            decreases r_max - y,
        {
            proof {
                assert(x * x <= r_max * r_max && y * y <= r_max * r_max) by (nonlinear_arith)
                    requires 0 <= x <= r_max, 0 <= y <= r_max;
            }
            if x * x + y * y > outer_bound {
                // no cell of this column lies inside the ball
                proof {
                    assert forall|c: Cell|
                        #[trigger] raw@.contains(c) <==> (in_ball(c, r_max as int) && !in_ball(
                            c,
                            r_min as int,
                        ) && (c.0 < x || (c.0 == x && c.1 < y + 1))) by {
                        if in_ball(c, r_max as int) && c.0 == x && c.1 == y {
                            assert(c.2 * c.2 >= 0) by (nonlinear_arith);
                            assert(false);
                        }
                    }
                }
            } else {
                let mut z: usize = 0;
                while z < r_max
                    invariant
                        x < r_max,
                        y < r_max,
                        z <= r_max,
                        radius_fits(r_max as int),
                        r_min <= r_max,
                        outer_bound == r_max * r_max,
                        inner_bound == r_min * r_min,
                        forall|c: Cell|
                            #[trigger] raw@.contains(c) <==> (in_ball(c, r_max as int) && !in_ball(
                                c,
                                r_min as int,
                            ) && (c.0 < x || (c.0 == x && c.1 < y) || (c.0 == x && c.1 == y && c.2
                                < z))),
                        forall|i: int, j: int|
                            0 <= i < j < raw@.len() ==> #[trigger] lex_lt(raw@[i], raw@[j]),
                        forall|i: int| 0 <= i < raw@.len() ==> #[trigger] dist2(raw@[i]) <= usize::MAX,
                    decreases r_max - z,
                {
                    proof {
                        assert(x * x <= r_max * r_max && y * y <= r_max * r_max && z * z <= r_max
                            * r_max) by (nonlinear_arith)
                            requires 0 <= x <= r_max, 0 <= y <= r_max, 0 <= z <= r_max;
                    }
                    let d = squared_distance((x, y, z));
                    let keep = d <= outer_bound && !(x < r_min && y < r_min && z < r_min && d
                        <= inner_bound);
                    let ghost pre = raw@;
                    if keep {
                        raw.push((x, y, z));
                    }
                    proof {
                        broadcast use vstd::seq_lib::lemma_seq_contains_after_push;

                        let c: Cell = (x, y, z);
                        assert(keep == (in_ball(c, r_max as int) && !in_ball(c, r_min as int)));
                        assert forall|e: Cell|
                            #[trigger] raw@.contains(e) <==> (in_ball(e, r_max as int) && !in_ball(
                                e,
                                r_min as int,
                            ) && (e.0 < x || (e.0 == x && e.1 < y) || (e.0 == x && e.1 == y && e.2
                                < z + 1))) by {
                            if e.0 == x && e.1 == y && e.2 == z {
                                assert(e == c);
                            }
                            if keep {
                                assert(raw@ == pre.push(c));
                                assert(raw@.contains(e) <==> pre.contains(e) || e == c);
                            }
                        }
                        assert forall|i: int, j: int|
                            0 <= i < j < raw@.len() implies #[trigger] lex_lt(
                            raw@[i],
                            raw@[j],
                        ) by {
                            if keep && j == raw@.len() - 1 {
                                assert(pre.contains(pre[i]));
                            }
                        }
                    }
                    z += 1;
                }
            }
            y += 1;
        }
        x += 1;
    }
    raw
}

/// All cells of the region of radius `r_max` that lie outside the region
/// of radius `r_min`, in strictly ascending enumeration order. The
/// exclusion test is the inner region predicate itself, which coincides
/// with membership in any previously produced enumeration of the inner
/// region.
pub fn octant_cells(r_min: usize, r_max: usize) -> (cells: Vec<Cell>)
    requires
        r_min <= r_max,
        radius_fits(r_max as int),
    ensures
        forall|c: Cell|
            #[trigger] cells@.contains(c) <==> (in_ball(c, r_max as int) && !in_ball(
                c,
                r_min as int,
            )),
        cell_sorted(cells@),
{
    let raw = collect_shell(r_min, r_max);
    let cells = sort_cells(raw);
    proof {
        broadcast use group_to_multiset_ensures;

        assert forall|c: Cell|
            #[trigger] cells@.contains(c) <==> (in_ball(c, r_max as int) && !in_ball(
                c,
                r_min as int,
            )) by {
            if cells@.contains(c) {
                assert(cells@.to_multiset().count(c) > 0);
                assert(raw@.contains(c));
            }
            if raw@.contains(c) {
                assert(raw@.to_multiset().count(c) > 0);
                assert(cells@.contains(c));
            }
        }
        assert forall|i: int, j: int|
            0 <= i < raw@.len() && 0 <= j < raw@.len() && i != j implies raw@[i] != raw@[j] by {
            if i < j {
                assert(lex_lt(raw@[i], raw@[j]));
            } else {
                assert(lex_lt(raw@[j], raw@[i]));
            }
        }
        assert(raw@.no_duplicates());
        raw@.lemma_multiset_has_no_duplicates();
        cells@.lemma_multiset_has_no_duplicates_conv();
        assert forall|i: int, j: int|
            0 <= i < j < cells@.len() implies #[trigger] cell_lt(cells@[i], cells@[j]) by {
            assert(cell_le(cells@[i], cells@[j]));
            assert(cells@[i] != cells@[j]);
        }
    }
    cells
}

/// The first-octant cells of the region of radius `n`, in ascending
/// enumeration order: the cells of the cube [0, n)³ within squared
/// distance n² of the origin cell.
pub fn chunk_numbers_in_first_octant(n: usize) -> (cells: Vec<Cell>)
    requires
        radius_fits(n as int),
    ensures
        forall|c: Cell| #[trigger] cells@.contains(c) <==> in_ball(c, n as int),
        cell_sorted(cells@),
{
    octant_cells(0, n)
}

/// A strictly sorted sequence of cells holds no cell twice.
pub proof fn lemma_sorted_no_dup(s: Seq<Cell>)
    requires
        cell_sorted(s),
    ensures
        s.no_duplicates(),
{
    assert forall|i: int, j: int|
        0 <= i < s.len() && 0 <= j < s.len() && i != j implies s[i] != s[j] by {
        if i < j {
            assert(cell_lt(s[i], s[j]));
        } else {
            assert(cell_lt(s[j], s[i]));
        }
    }
}

/// Whether the sorted cell list `v` holds `c`, decided by binary search.
pub fn cells_contain(v: &Vec<Cell>, c: Cell) -> (present: bool)
    requires
        cell_sorted(v@),
        forall|i: int| 0 <= i < v@.len() ==> #[trigger] dist2(v@[i]) <= usize::MAX,
        dist2(c) <= usize::MAX,
    ensures
        present == v@.contains(c),
{
    let mut lo: usize = 0;
    let mut hi: usize = v.len();
    while lo < hi
        invariant
            lo <= hi <= v@.len(),
            cell_sorted(v@),
            forall|i: int| 0 <= i < v@.len() ==> #[trigger] dist2(v@[i]) <= usize::MAX,
            dist2(c) <= usize::MAX,
            forall|i: int| 0 <= i < lo ==> #[trigger] cell_lt(v@[i], c),
            forall|i: int| hi <= i < v@.len() ==> #[trigger] cell_lt(c, v@[i]),
        decreases hi - lo,
    {
        let mid = lo + (hi - lo) / 2;
        if cell_cmp_lt(v[mid], c) {
            proof {
                assert forall|i: int| 0 <= i < mid + 1 implies #[trigger] cell_lt(v@[i], c) by {
                    if i < mid {
                        lemma_cell_lt_trans(v@[i], v@[mid as int], c);
                    }
                }
            }
            lo = mid + 1;
        } else if cell_cmp_lt(c, v[mid]) {
            proof {
                assert forall|i: int| mid <= i < v@.len() implies #[trigger] cell_lt(c, v@[i]) by {
                    if i > mid {
                        lemma_cell_lt_trans(c, v@[mid as int], v@[i]);
                    }
                }
            }
            hi = mid;
        } else {
            proof {
                lemma_cell_lt_connected(v@[mid as int], c);
                assert(v@[mid as int] == c);
            }
            return true;
        }
    }
    proof {
        if v@.contains(c) {
            let i = choose|i: int| 0 <= i < v@.len() && v@[i] == c;
            if i < lo {
                assert(cell_lt(v@[i], c));
            } else {
                assert(cell_lt(c, v@[i]));
            }
            assert(false);
        }
    }
    false
}

/// All cells of the region of radius `r_max` not already produced for the
/// inner radius, in strictly ascending enumeration order. The exclusion is
/// decided by binary searches against `inner`, the enumeration of the
/// inner region exactly as the preceding shell handed it over.
pub fn octant_cells_after(inner: &Vec<Cell>, r_min: usize, r_max: usize) -> (cells: Vec<Cell>)
    requires
        r_min <= r_max,
        radius_fits(r_max as int),
        cell_sorted(inner@),
        forall|c: Cell| #[trigger] inner@.contains(c) <==> in_ball(c, r_min as int),
    ensures
        forall|c: Cell|
            #[trigger] cells@.contains(c) <==> (in_ball(c, r_max as int) && !in_ball(
                c,
                r_min as int,
            )),
        cell_sorted(cells@),
{
    proof {
        assert forall|i: int| 0 <= i < inner@.len() implies #[trigger] dist2(inner@[i])
            <= usize::MAX by {
            assert(inner@.contains(inner@[i]));
            assert(r_min * r_min <= 3 * ((r_max as int) * (r_max as int))) by (nonlinear_arith)
                requires 0 <= r_min <= r_max;
        }
    }
    let all = octant_cells(0, r_max);
    let mut cells: Vec<Cell> = Vec::new();
    let mut i: usize = 0;
    while i < all.len()
        invariant
            i <= all@.len(),
            r_min <= r_max,
            radius_fits(r_max as int),
            cell_sorted(all@),
            cell_sorted(inner@),
            forall|k: int| 0 <= k < inner@.len() ==> #[trigger] dist2(inner@[k]) <= usize::MAX,
            forall|c: Cell| #[trigger] inner@.contains(c) <==> in_ball(c, r_min as int),
            forall|c: Cell| #[trigger] all@.contains(c) <==> in_ball(c, r_max as int),
            forall|c: Cell|
                #[trigger] cells@.contains(c) <==> (all@.subrange(0, i as int).contains(c)
                    && !in_ball(c, r_min as int)),
            cell_sorted(cells@),
            forall|k: int|
                0 <= k < cells@.len() && i < all@.len() ==> #[trigger] cell_lt(
                    cells@[k],
                    all@[i as int],
                ),
        decreases all@.len() - i,
    {
        let c = all[i];
        proof {
            assert(all@.contains(c));
            assert(c.0 * c.0 >= 0 && c.1 * c.1 >= 0 && c.2 * c.2 >= 0) by (nonlinear_arith);
        }
        let ghost pre = cells@;
        if !cells_contain(inner, c) {
            cells.push(c);
        }
        proof {
            broadcast use vstd::seq_lib::lemma_seq_contains_after_push;

            assert forall|e: Cell|
                #[trigger] cells@.contains(e) <==> (all@.subrange(0, i + 1).contains(e)
                    && !in_ball(e, r_min as int)) by {
                assert(all@.subrange(0, i + 1) =~= all@.subrange(0, i as int).push(c));
                assert(all@.subrange(0, i + 1).contains(e) <==> all@.subrange(
                    0,
                    i as int,
                ).contains(e) || e == c);
            }
            assert forall|k: int, j: int|
                0 <= k < j < cells@.len() implies #[trigger] cell_lt(cells@[k], cells@[j]) by {
                if j == cells@.len() - 1 && cells@.len() > pre.len() {
                    assert(cells@[k] == pre[k]);
                }
            }
            assert forall|k: int|
                0 <= k < cells@.len() && i + 1 < all@.len() implies #[trigger] cell_lt(
                cells@[k],
                all@[i + 1],
            ) by {
                assert(cell_lt(all@[i as int], all@[i + 1]));
                if k < pre.len() {
                    lemma_cell_lt_trans(cells@[k], all@[i as int], all@[i + 1]);
                }
            }
        }
        i += 1;
    }
    proof {
        assert(all@.subrange(0, all@.len() as int) =~= all@);
    }
    cells
}

/// The enumeration of a shell does not depend on how the inner exclusion
/// is decided: two strictly sorted cell lists with the same membership are
/// the same list.
pub proof fn lemma_cell_sorted_unique(x: Seq<Cell>, y: Seq<Cell>)
    requires
        cell_sorted(x),
        cell_sorted(y),
        forall|c: Cell| #[trigger] x.contains(c) <==> y.contains(c),
    ensures
        x == y,
{
    lemma_sorted_no_dup(x);
    lemma_sorted_no_dup(y);
    lemma_same_elements_multiset(x, y);
    lemma_cell_le_total();
    assert(sorted_by(x, cell_le_fn()));
    assert(sorted_by(y, cell_le_fn()));
    lemma_sorted_unique(x, y, cell_le_fn());
    assert(x =~= y);
}

/// Two sequences without duplicates that hold the same elements carry the
/// same multiset.
pub(crate) proof fn lemma_same_elements_multiset<A>(x: Seq<A>, y: Seq<A>)
    requires
        x.no_duplicates(),
        y.no_duplicates(),
        forall|a: A| #[trigger] x.contains(a) <==> y.contains(a),
    ensures
        x.to_multiset() == y.to_multiset(),
{
    broadcast use group_to_multiset_ensures;

    x.lemma_multiset_has_no_duplicates();
    y.lemma_multiset_has_no_duplicates();
    assert forall|a: A| x.to_multiset().count(a) == y.to_multiset().count(a) by {
        if x.contains(a) {
            assert(x.to_multiset().count(a) == 1 && y.to_multiset().count(a) == 1);
        } else {
            assert(x.to_multiset().count(a) == 0 && y.to_multiset().count(a) == 0);
        }
    }
    assert(x.to_multiset() =~= y.to_multiset());
}

/// Enumerating up to any split radius and then enumerating the remaining
/// shell on top of it yields, concatenated, exactly the single enumeration
/// of the full region: the same cells in the same order.
pub proof fn lemma_split_enumeration(
    s1: Seq<Cell>,
    s2: Seq<Cell>,
    s3: Seq<Cell>,
    r_split: int,
    r: int,
)
    requires
        0 <= r_split <= r,
        forall|c: Cell| #[trigger] s1.contains(c) <==> in_ball(c, r_split),
        forall|c: Cell| #[trigger] s2.contains(c) <==> (in_ball(c, r) && !in_ball(c, r_split)),
        forall|c: Cell| #[trigger] s3.contains(c) <==> in_ball(c, r),
        cell_sorted(s1),
        cell_sorted(s2),
        cell_sorted(s3),
    ensures
        s1 + s2 == s3,
{
    broadcast use vstd::seq_lib::lemma_seq_concat_contains_all_elements;

    let s12 = s1 + s2;
    assert forall|c: Cell| #[trigger] s12.contains(c) <==> in_ball(c, r) by {
        assert(s12.contains(c) <==> s1.contains(c) || s2.contains(c));
        if s1.contains(c) {
            lemma_ball_monotone(c, r_split, r);
        }
    }
    assert forall|i: int, j: int|
        0 <= i < j < s12.len() implies #[trigger] cell_lt(s12[i], s12[j]) by {
        if i < s1.len() && j >= s1.len() {
            assert(s1.contains(s1[i]));
            assert(s2.contains(s2[j - s1.len()]));
            lemma_ball_boundary(s12[i], s12[j], r_split);
        }
    }
    lemma_sorted_no_dup(s3);
    lemma_sorted_no_dup(s12);
    lemma_same_elements_multiset(s12, s3);
    lemma_cell_le_total();
    assert(sorted_by(s12, cell_le_fn()));
    assert(sorted_by(s3, cell_le_fn()));
    lemma_sorted_unique(s12, s3, cell_le_fn());
    assert(s1 + s2 =~= s3);
}

} // verus!
