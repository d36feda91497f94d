//! Sizing a generation request: the volume-based estimate of the total
//! chunk count, its inverse for capping batch sizes, the subdivision of a
//! target radius into bounded shells, and the batched generator that
//! refuses requests beyond the safety ceiling.
use vstd::prelude::*;
use vstd::arithmetic::div_mod::lemma_div_is_ordered;
use vstd::arithmetic::div_mod::lemma_div_multiples_vanish;
use vstd::arithmetic::div_mod::lemma_hoist_over_denominator;
use crate::cell::{Cell, SignedCell, in_ball, radius_fits};
use crate::mirror::{generate_chunks, in_sphere, lemma_cell_outside_origin_far, lemma_mirror_key,
    lemma_mirror_order, mirror_cells, mirrors, origin_cell, signed_lt, signed_sorted};
use crate::octant::octant_cells;

verus! {

/// Volume-of-sphere estimate of the total chunk count within a radius of
/// `r` chunk-size steps: ⌊4189·r³ / 1000⌋, a fixed-point rendering of
/// (4/3)·π·r³. It sizes batches; it is not an exact cell count.
pub open spec fn estimated_total_chunks(r: int) -> int {
    (4189 * (r * (r * r))) / 1000
}

/// The volume estimate, computed executably.
pub fn estimate_total_chunks(r: usize) -> (est: u128)
    requires
        r <= 0xffff_ffff,
    ensures
        est as int == estimated_total_chunks(r as int),
{
    let rr = r as u128;
    proof {
        assert((r as int) * (r as int) <= 0xffff_ffff * 0xffff_ffff) by (nonlinear_arith)
            requires 0 <= r as int <= 0xffff_ffff;
        assert((r as int) * ((r as int) * (r as int)) <= 0xffff_ffff * (0xffff_ffff
            * 0xffff_ffff)) by (nonlinear_arith)
            requires 0 <= r as int <= 0xffff_ffff;
    }
    (4189u128 * (rr * (rr * rr))) / 1000
}

/// The estimate never decreases when the radius grows.
pub proof fn lemma_estimate_monotone(a: int, b: int)
    requires
        0 <= a <= b,
    ensures
        estimated_total_chunks(a) <= estimated_total_chunks(b),
{
    assert(a * (a * a) <= b * (b * b)) by (nonlinear_arith)
        requires 0 <= a <= b;
    lemma_div_is_ordered(4189 * (a * (a * a)), 4189 * (b * (b * b)), 1000);
}

/// One more step of radius adds at least four estimated chunks: the
/// estimate grows strictly.
pub proof fn lemma_estimate_strict(r: int)
    requires
        0 <= r,
    ensures
        estimated_total_chunks(r) + 4 <= estimated_total_chunks(r + 1),
{
    let va = 4189 * (r * (r * r));
    let vb = 4189 * ((r + 1) * ((r + 1) * (r + 1)));
    assert(4189 * (r * (r * r)) + 4000 <= 4189 * ((r + 1) * ((r + 1) * (r + 1))))
        by (nonlinear_arith)
        requires 0 <= r;
    lemma_hoist_over_denominator(va, 4, 1000nat);
    lemma_div_is_ordered(va + 4 * 1000, vb, 1000);
}

/// The estimate of a radius of zero steps is zero, and the estimate is
/// never negative.
pub proof fn lemma_estimate_at_zero(r: int)
    requires
        0 <= r,
    ensures
        estimated_total_chunks(0) == 0,
        estimated_total_chunks(r) >= 0,
{
    assert(4189 * (0 * (0 * 0)) == 0);
    lemma_div_multiples_vanish(0, 1000);
    assert(0 <= r * (r * r)) by (nonlinear_arith)
        requires 0 <= r;
    lemma_div_is_ordered(0, 4189 * (r * (r * r)), 1000);
}

/// Applying the volume estimate and then the chunk-budget inverse
/// recovers the original radius exactly: if `r2` answers a budget of
/// exactly the estimate at `r`, then `r2` is `r`.
pub proof fn lemma_budget_radius_roundtrip(r: int, r2: int)
    requires
        0 <= r,
        0 <= r2,
        estimated_total_chunks(r2) <= estimated_total_chunks(r),
        estimated_total_chunks(r2 + 1) > estimated_total_chunks(r),
    ensures
        r2 == r,
{
    if r2 < r {
        lemma_estimate_strict(r2);
        lemma_estimate_monotone(r2 + 1, r);
    }
    if r2 > r {
        lemma_estimate_strict(r);
        lemma_estimate_monotone(r + 1, r2);
    }
}

/// The largest radius whose estimated total chunk count stays within
/// `budget`, found by walking the strictly growing estimate.
pub fn radius_for_chunk_budget(budget: u64) -> (r: usize)
    ensures
        estimated_total_chunks(r as int) <= budget as int,
        estimated_total_chunks(r as int + 1) > budget as int,
{
    proof {
        lemma_estimate_at_zero(0);
    }
    let mut r: usize = 0;
    while estimate_total_chunks(r + 1) <= budget as u128
        invariant
            r <= 1_650_000,
            estimated_total_chunks(r as int) <= budget as int,
        decreases 1_650_000 - r,
    {
        r = r + 1;
        proof {
            if r >= 1_650_000 {
                lemma_estimate_monotone(1_650_000, r as int);
                assert(4189 * (1_650_000int * (1_650_000 * 1_650_000)) == 1000
                    * 18_817_511_625_000_000_000) by (nonlinear_arith);
                lemma_div_multiples_vanish(18_817_511_625_000_000_000, 1000);
                assert(estimated_total_chunks(1_650_000) == 18_817_511_625_000_000_000);
                assert(estimated_total_chunks(r as int) > u64::MAX);
            }
        }
    }
    r
}

/// One shell of the enumeration: a radius interval of the sphere, planned
/// so that a single pass stays within the configured batch budget.
#[derive(Clone, Copy, Debug, PartialEq, Eq, Structural)]
pub struct Shell {
    /// The radius already covered when this shell starts.
    pub r_min: usize,
    /// The radius covered once this shell is done.
    pub r_max: usize,
}

/// What the planner promises of one shell's outer radius: the largest
/// radius whose estimate stays within `budget` above the inner radius'
/// estimate, clamped to the target, with a minimum progress of one step
/// when even a single step exceeds the budget.
pub open spec fn shell_outer_ok(r_min: int, r_max: int, target: int, budget: int) -> bool {
    let allowed = estimated_total_chunks(r_min) + budget;
    ||| (r_max == target && estimated_total_chunks(target) <= allowed)
    ||| (r_max <= target && estimated_total_chunks(r_max) <= allowed && estimated_total_chunks(
        r_max + 1,
    ) > allowed)
    ||| (r_max == r_min + 1 && estimated_total_chunks(r_min + 1) > allowed)
}

/// The planner's promise for a whole shell sequence over [0, target]:
/// contiguous shells in strictly increasing radius order, covering the
/// interval exactly, each outer radius set by the budget rule.
pub open spec fn shells_plan_ok(shells: Seq<Shell>, target: int, budget: int) -> bool {
    &&& (shells.len() == 0 <==> target == 0)
    &&& (shells.len() > 0 ==> shells[0].r_min == 0 && shells[shells.len() - 1].r_max == target)
    &&& (forall|i: int|
        0 <= i < shells.len() ==> (#[trigger] shells[i]).r_min < shells[i].r_max && shells[i].r_max
            <= target)
    &&& (forall|i: int|
        0 < i < shells.len() ==> (#[trigger] shells[i]).r_min == shells[i - 1].r_max)
    &&& (forall|i: int|
        0 <= i < shells.len() ==> #[trigger] shell_outer_ok(
            shells[i].r_min as int,
            shells[i].r_max as int,
            target,
            budget,
        ))
}

/// Subdivide the radius interval [0, target] into contiguous shells in
/// strictly increasing order, each sized by the chunk-budget inverse of
/// the volume estimate relative to its inner radius.
pub fn plan_shells(target: usize, max_cells_per_batch: u64) -> (shells: Vec<Shell>)
    requires
        target <= 0xffff_fffe,
    ensures
        shells_plan_ok(shells@, target as int, max_cells_per_batch as int),
{
    let mut shells: Vec<Shell> = Vec::new();
    let mut inner: usize = 0;
    while inner < target
        invariant
            target <= 0xffff_fffe,
            inner <= target,
            shells@.len() == 0 ==> inner == 0,
            shells@.len() > 0 ==> shells@[0].r_min == 0,
            shells@.len() > 0 ==> shells@[shells@.len() - 1].r_max == inner,
            forall|i: int|
                0 <= i < shells@.len() ==> (#[trigger] shells@[i]).r_min < shells@[i].r_max
                    && shells@[i].r_max <= target,
            forall|i: int|
                0 < i < shells@.len() ==> (#[trigger] shells@[i]).r_min == shells@[i - 1].r_max,
            forall|i: int|
                0 <= i < shells@.len() ==> #[trigger] shell_outer_ok(
                    shells@[i].r_min as int,
                    shells@[i].r_max as int,
                    target as int,
                    max_cells_per_batch as int,
                ),
        decreases target - inner,
    {
        let base = estimate_total_chunks(inner);
        let mut cap: usize = inner;
        proof {
            lemma_estimate_at_zero(inner as int);
            lemma_estimate_monotone(inner as int, inner as int + 1);
        }
        while cap < target && estimate_total_chunks(cap + 1) - base <= max_cells_per_batch as u128
            invariant
                inner <= cap <= target,
                target <= 0xffff_fffe,
                base as int == estimated_total_chunks(inner as int),
                estimated_total_chunks(cap as int + 1) >= base as int,
                cap > inner ==> estimated_total_chunks(cap as int) <= base as int
                    + max_cells_per_batch,
            decreases target - cap,
        {
            cap = cap + 1;
            proof {
                lemma_estimate_monotone(inner as int, cap as int + 1);
            }
        }
        let outer = if cap <= inner {
            inner + 1
        } else {
            cap
        };
        proof {
            let t = target as int;
            let budget = max_cells_per_batch as int;
            let allowed = estimated_total_chunks(inner as int) + budget;
            if cap <= inner {
                assert(cap == inner);
                assert(estimated_total_chunks(inner as int + 1) > allowed);
                assert(shell_outer_ok(inner as int, outer as int, t, budget));
            } else if cap == target {
                assert(estimated_total_chunks(cap as int) <= allowed);
                assert(shell_outer_ok(inner as int, outer as int, t, budget));
            } else {
                assert(estimated_total_chunks(cap as int + 1) > allowed);
                assert(shell_outer_ok(inner as int, outer as int, t, budget));
            }
        }
        let ghost pre = shells@;
        shells.push(Shell { r_min: inner, r_max: outer });
        proof {
            assert forall|i: int|
                0 <= i < shells@.len() implies (#[trigger] shells@[i]).r_min < shells@[i].r_max
                    && shells@[i].r_max <= target by {
                if i < pre.len() {
                    assert(shells@[i] == pre[i]);
                }
            }
        }
        inner = outer;
    }
    shells
}

/// Why a generation request is refused.
#[derive(Clone, Copy, Debug, PartialEq, Eq, Structural)]
pub enum ChunkError {
    /// A parameter makes the geometry ill-defined.
    InvalidParameter,
    /// The estimated total chunk count exceeds the safety ceiling: the
    /// request is rejected rather than attempted.
    ResourceBound,
}

/// Flattened view of a sequence of batches: the batches' contents, in
/// batch order.
pub open spec fn flat(batches: Seq<Vec<SignedCell>>) -> Seq<SignedCell>
    decreases batches.len(),
{
    if batches.len() == 0 {
        Seq::empty()
    } else {
        flat(batches.drop_last()) + batches.last()@
    }
}

/// Appending a batch appends its contents to the flattened view.
pub proof fn lemma_flat_push(batches: Seq<Vec<SignedCell>>, b: Vec<SignedCell>)
    ensures
        flat(batches.push(b)) == flat(batches) + b@,
{
    assert(batches.push(b).drop_last() =~= batches);
    assert(batches.push(b).last() == b);
}

/// Which chunks belong to the batch of one shell: for the first shell the
/// whole inner sphere, origin anchor included; for every later shell the
/// mirror images of the cells the shell adds.
pub open spec fn batch_member(s: SignedCell, sh: Shell, first: bool) -> bool {
    if first {
        in_sphere(s, sh.r_max as int)
    } else {
        exists|c: Cell|
            #[trigger] mirrors(s, c) && in_ball(c, sh.r_max as int) && !in_ball(c, sh.r_min as int)
    }
}

/// One batch holds exactly its shell's chunks, in sphere order.
pub open spec fn batch_matches_shell(batch: Seq<SignedCell>, sh: Shell, first: bool) -> bool {
    &&& signed_sorted(batch)
    &&& (forall|s: SignedCell| #[trigger] batch.contains(s) <==> batch_member(s, sh, first))
}

/// Generate the sphere of axis count `n` in bounded batches, one per
/// shell: concatenated in order, the batches hold exactly the chunks of
/// the single-pass generation, in the same ascending-distance order. A
/// request whose estimated total exceeds `safety_ceiling` is refused with
/// `ResourceBound` before anything is allocated; a batch budget of zero
/// is refused as `InvalidParameter`.
pub fn generate_chunk_batches(n: usize, max_cells_per_batch: u64, safety_ceiling: u64) -> (result:
    Result<Vec<Vec<SignedCell>>, ChunkError>)
    requires
        radius_fits(n as int),
    ensures
        match result {
            Result::Err(e) => (e == ChunkError::InvalidParameter && max_cells_per_batch == 0) || (
            e == ChunkError::ResourceBound && max_cells_per_batch > 0 && estimated_total_chunks(
                n as int,
            ) > safety_ceiling as int),
            Result::Ok(batches) => {
                &&& max_cells_per_batch > 0
                &&& estimated_total_chunks(n as int) <= safety_ceiling as int
                &&& flat(batches@).len() >= 1
                &&& flat(batches@)[0] == origin_cell()
                &&& forall|s: SignedCell|
                    #[trigger] flat(batches@).contains(s) <==> in_sphere(s, n as int)
                &&& signed_sorted(flat(batches@))
                &&& (n == 0 ==> batches@.len() == 1)
                &&& (n > 0 ==> exists|plan: Seq<Shell>|
                    #[trigger] shells_plan_ok(plan, n as int, max_cells_per_batch as int)
                        && batches@.len() == plan.len() && (forall|k: int|
                        #![trigger batches@[k]]
                        0 <= k < plan.len() ==> batch_matches_shell(
                            batches@[k]@,
                            plan[k],
                            k == 0,
                        )))
            },
        },
{
    if max_cells_per_batch == 0 {
        return Result::Err(ChunkError::InvalidParameter);
    }
    proof {
        assert(n <= 0xffff_fffe) by (nonlinear_arith)
            requires 3 * ((n as int) * (n as int)) <= usize::MAX, usize::MAX <= u64::MAX, 0 <= n;
    }
    let est = estimate_total_chunks(n);
    if est > safety_ceiling as u128 {
        return Result::Err(ChunkError::ResourceBound);
    }
    let mut batches: Vec<Vec<SignedCell>> = Vec::new();
    if n == 0 {
        let first = generate_chunks(n);
        batches.push(first);
        proof {
            lemma_flat_push(Seq::empty(), first);
            assert(batches@ =~= Seq::<Vec<SignedCell>>::empty().push(first));
            assert(flat(Seq::<Vec<SignedCell>>::empty()) + first@ =~= first@);
        }
        return Result::Ok(batches);
    }
    let shells = plan_shells(n, max_cells_per_batch);
    let mut idx: usize = 0;
    while idx < shells.len()
        invariant
            radius_fits(n as int),
            0 < n <= 0xffff_fffe,
            shells@.len() > 0,
            idx <= shells@.len(),
            shells_plan_ok(shells@, n as int, max_cells_per_batch as int),
            batches@.len() == idx,
            forall|k: int|
                #![trigger batches@[k]]
                0 <= k < idx ==> batch_matches_shell(batches@[k]@, shells@[k], k == 0),
            idx == 0 ==> flat(batches@) =~= Seq::<SignedCell>::empty(),
            idx > 0 ==> flat(batches@).len() >= 1 && flat(batches@)[0] == origin_cell(),
            idx > 0 ==> forall|s: SignedCell|
                #[trigger] flat(batches@).contains(s) <==> in_sphere(
                    s,
                    shells@[idx - 1].r_max as int,
                ),
            idx > 0 ==> signed_sorted(flat(batches@)),
        decreases shells@.len() - idx,
    {
        let sh = shells[idx];
        let ghost pre = batches@;
        let ghost covered = flat(pre);
        if idx == 0 {
            proof {
                lemma_radius_fits_monotone(sh.r_max as int, n as int);
            }
            let first = generate_chunks(sh.r_max);
            batches.push(first);
            proof {
                lemma_flat_push(pre, first);
                assert(covered =~= Seq::<SignedCell>::empty());
                assert(flat(batches@) =~= first@);
                assert(batches@[0] == first);
                assert(shells@[0] == sh);
                assert(batch_matches_shell(first@, sh, true));
            }
        } else {
            proof {
                lemma_radius_fits_monotone(sh.r_max as int, n as int);
            }
            let cells = octant_cells(sh.r_min, sh.r_max);
            proof {
                assert forall|k: int| 0 <= k < cells@.len() implies #[trigger]
                    crate::cell::cell_fits(cells@[k]) by {
                    assert(cells@.contains(cells@[k]));
                    crate::mirror::lemma_cell_in_ball_fits(cells@[k], sh.r_max as int);
                }
            }
            let batch = mirror_cells(&cells);
            batches.push(batch);
            proof {
                broadcast use vstd::seq_lib::lemma_seq_concat_contains_all_elements;

                lemma_flat_push(pre, batch);
                let r_in = sh.r_min as int;
                let r_out = sh.r_max as int;
                assert(shells@[idx as int] == sh);
                assert(sh.r_min == shells@[idx - 1].r_max);
                assert(1 <= r_in < r_out);
                assert forall|s: SignedCell|
                    #[trigger] flat(batches@).contains(s) <==> in_sphere(s, r_out) by {
                    assert(flat(batches@).contains(s) <==> covered.contains(s)
                        || batch@.contains(s));
                    if covered.contains(s) {
                        if s != origin_cell() {
                            let c = choose|c: Cell| #[trigger] mirrors(s, c) && in_ball(c, r_in);
                            crate::cell::lemma_ball_monotone(c, r_in, r_out);
                        }
                    }
                    if batch@.contains(s) {
                        let c = choose|c: Cell| #[trigger] mirrors(s, c) && cells@.contains(c);
                        assert(in_ball(c, r_out));
                    }
                    if in_sphere(s, r_out) && s != origin_cell() {
                        let c = choose|c: Cell| #[trigger] mirrors(s, c) && in_ball(c, r_out);
                        if in_ball(c, r_in) {
                            assert(in_sphere(s, r_in));
                        } else {
                            assert(cells@.contains(c));
                            assert(batch@.contains(s));
                        }
                    }
                }
                assert forall|a: int, b: int|
                    0 <= a < b < flat(batches@).len() implies #[trigger] signed_lt(
                    flat(batches@)[a],
                    flat(batches@)[b],
                ) by {
                    let whole = flat(batches@);
                    assert(whole == covered + batch@);
                    if a < covered.len() && b >= covered.len() {
                        assert(whole[a] == covered[a] && whole[b] == batch@[b - covered.len()]);
                        assert(covered.contains(covered[a]));
                        assert(batch@.contains(batch@[b - covered.len()]));
                        let c2 = choose|c: Cell|
                            #[trigger] mirrors(whole[b], c) && cells@.contains(c);
                        if whole[a] == origin_cell() {
                            lemma_mirror_key(whole[b], c2);
                            if in_ball(c2, 1) {
                                crate::cell::lemma_ball_monotone(c2, 1, r_in);
                            }
                            lemma_cell_outside_origin_far(c2);
                            crate::mirror::lemma_origin_dist(whole[a]);
                            assert(signed_lt(whole[a], whole[b]));
                        } else {
                            let c1 = choose|c: Cell| #[trigger] mirrors(whole[a], c) && in_ball(c, r_in);
                            crate::cell::lemma_ball_boundary(c1, c2, r_in);
                            lemma_mirror_order(whole[a], c1, whole[b], c2);
                        }
                    } else if a >= covered.len() {
                        assert(whole[a] == batch@[a - covered.len()]);
                        assert(whole[b] == batch@[b - covered.len()]);
                        assert(signed_lt(batch@[a - covered.len()], batch@[b - covered.len()]));
                    } else {
                        assert(whole[a] == covered[a] && whole[b] == covered[b]);
                        assert(signed_lt(covered[a], covered[b]));
                    }
                }
                assert(flat(batches@)[0] == covered[0]);
                assert(batches@[idx as int] == batch);
                assert forall|s: SignedCell|
                    #[trigger] batch@.contains(s) <==> batch_member(s, sh, false) by {
                    if batch@.contains(s) {
                        let c = choose|c: Cell| #[trigger] mirrors(s, c) && cells@.contains(c);
                        assert(in_ball(c, sh.r_max as int) && !in_ball(c, sh.r_min as int));
                    }
                    if batch_member(s, sh, false) {
                        let c = choose|c: Cell|
                            #[trigger] mirrors(s, c) && in_ball(c, sh.r_max as int) && !in_ball(
                                c,
                                sh.r_min as int,
                            );
                        assert(cells@.contains(c));
                    }
                }
                assert(batch_matches_shell(batch@, sh, false));
            }
        }
        proof {
            assert forall|k: int| #![trigger batches@[k]]
                0 <= k < idx + 1 implies batch_matches_shell(
                batches@[k]@,
                shells@[k],
                k == 0,
            ) by {
                if k < idx {
                    assert(batches@[k] == pre[k]);
                }
            }
        }
        idx += 1;
    }
    proof {
        assert(shells@[shells@.len() - 1].r_max == n);
        assert(shells_plan_ok(shells@, n as int, max_cells_per_batch as int) && batches@.len()
            == shells@.len() && (forall|k: int|
            #![trigger batches@[k]]
            0 <= k < shells@.len() ==> batch_matches_shell(batches@[k]@, shells@[k], k == 0)));
    }
    Result::Ok(batches)
}

/// A radius within a fitting radius fits.
pub proof fn lemma_radius_fits_monotone(a: int, b: int)
    requires
        0 <= a <= b,
        radius_fits(b),
    ensures
        radius_fits(a),
{
    assert(a * a <= b * b) by (nonlinear_arith)
        requires 0 <= a <= b;
}

} // verus!
