use galactic_chunks::mirror::generate_chunks;
use galactic_chunks::planner::estimate_total_chunks;
use galactic_chunks::planner::generate_chunk_batches;
use galactic_chunks::planner::plan_shells;
use galactic_chunks::planner::radius_for_chunk_budget;
use galactic_chunks::planner::ChunkError;

#[test]
fn estimate_is_the_volume_of_the_sphere() {
    // 4189 * 10^3 / 1000
    assert_eq!(estimate_total_chunks(10), 4189);
    assert_eq!(estimate_total_chunks(0), 0);
    assert_eq!(estimate_total_chunks(1), 4);
    // 4189 * 100^3 / 1000
    assert_eq!(estimate_total_chunks(100), 4_189_000);
}

#[test]
fn volume_estimate_roundtrips_through_budget_inverse() {
    for radius in 1..=100 {
        let estimate = estimate_total_chunks(radius);
        let recovered = radius_for_chunk_budget(estimate as u64);
        assert_eq!(recovered, radius);
    }
}

#[test]
fn shells_partition_the_target_radius() {
    let shells = plan_shells(100, 5_000);
    assert!(shells.len() > 1);
    assert_eq!(shells[0].r_min, 0);
    assert_eq!(shells[shells.len() - 1].r_max, 100);
    for pair in shells.windows(2) {
        assert_eq!(pair[0].r_max, pair[1].r_min);
    }
    for shell in &shells {
        assert!(shell.r_min < shell.r_max);
    }
}

#[test]
fn no_shells_are_planned_for_an_empty_target() {
    assert_eq!(plan_shells(0, 1_000).len(), 0);
}

#[test]
fn batched_generation_matches_single_generation() {
    let single = generate_chunks(10);
    let batches = generate_chunk_batches(10, 900, u64::MAX).unwrap();
    assert!(batches.len() > 1);
    let mut joined = Vec::new();
    for batch in batches {
        joined.extend(batch);
    }
    assert_eq!(joined, single);
}

#[test]
fn one_batch_is_produced_per_planned_shell() {
    let shells = plan_shells(10, 900);
    let batches = generate_chunk_batches(10, 900, u64::MAX).unwrap();
    assert_eq!(batches.len(), shells.len());
}

#[test]
fn an_empty_target_yields_one_batch_with_the_origin_chunk() {
    let batches = generate_chunk_batches(0, 10, 10).unwrap();
    assert_eq!(batches, vec![vec![(0, 0, 0)]]);
}

#[test]
fn oversized_requests_are_rejected() {
    // estimated total for radius 100 is 4_189_000, beyond this ceiling
    let result = generate_chunk_batches(100, 1_000, 10_000);
    assert_eq!(result, Err(ChunkError::ResourceBound));
}

#[test]
fn a_zero_batch_budget_is_rejected() {
    let result = generate_chunk_batches(10, 0, u64::MAX);
    assert_eq!(result, Err(ChunkError::InvalidParameter));
}

#[test]
fn requests_at_the_ceiling_are_generated() {
    let result = generate_chunk_batches(2, 1_000, 34);
    assert!(result.is_ok());
}
