use galactic_chunks::mirror::generate_chunks;
use galactic_chunks::octant::chunk_numbers_in_first_octant;
use galactic_chunks::octant::octant_cells;
use galactic_chunks::octant::octant_cells_after;

const ACCURACY: f64 = 1e-2;

/// Snap an observer position down to the chunk-size grid.
fn origin_corner(observer: (f64, f64, f64), chunksize: f64) -> (f64, f64, f64) {
    (
        observer.0 - observer.0 % chunksize,
        observer.1 - observer.1 % chunksize,
        observer.2 - observer.2 % chunksize,
    )
}

/// Real-world corner of a generated lattice cell.
fn corner_of(origin: (f64, f64, f64), cell: (i64, i64, i64), chunksize: f64) -> (f64, f64, f64) {
    (
        origin.0 + cell.0 as f64 * chunksize,
        origin.1 + cell.1 as f64 * chunksize,
        origin.2 + cell.2 as f64 * chunksize,
    )
}

fn corners_eq(a: (f64, f64, f64), b: (f64, f64, f64)) -> bool {
    (a.0 - b.0).abs() < ACCURACY && (a.1 - b.1).abs() < ACCURACY && (a.2 - b.2).abs() < ACCURACY
}

/// Axis chunk count for a maximum distance, using the floor policy.
fn axis_count(max_distance: f64, chunksize: f64) -> usize {
    (max_distance / chunksize).floor() as usize
}

#[test]
fn test_chunk_numbers_in_first_octant() {
    assert_eq!(chunk_numbers_in_first_octant(1), vec![(0, 0, 0)]);
    assert_eq!(
        chunk_numbers_in_first_octant(2),
        vec![
            (0, 0, 0),
            (0, 0, 1),
            (0, 1, 0),
            (1, 0, 0),
            (0, 1, 1),
            (1, 0, 1),
            (1, 1, 0),
            (1, 1, 1)
        ]
    );
}

#[test]
fn chunks_with_small_max_generation_distance_contain_origin_chunk() {
    let observer = (10., 20., 30.);
    let chunksize = 10.;
    let origin = origin_corner(observer, chunksize);

    let n = axis_count(0.1, chunksize);
    let chunks = generate_chunks(n);

    assert_eq!(chunks.len(), 1);
    assert!(corners_eq(corner_of(origin, chunks[0], chunksize), origin));
}

#[test]
fn chunks_with_max_distance_equal_chunk_size_contain_origin_chunk() {
    let observer = (3., -7., 0.5);
    let chunksize = 10.;
    let origin = origin_corner(observer, chunksize);

    let n = axis_count(10., chunksize);
    let chunks = generate_chunks(n);

    assert_eq!(chunks.len(), 1);
    assert!(corners_eq(corner_of(origin, chunks[0], chunksize), origin));
}

#[test]
fn chunks_do_not_contain_duplications() {
    let chunksize = 10.;
    for n in 1..10 {
        let max_distance = 10. * n as f64;
        let origin = origin_corner((0., 0., 0.), chunksize);
        let chunks = generate_chunks(axis_count(max_distance, chunksize));
        for (i, chunk) in chunks.iter().enumerate() {
            let corner = corner_of(origin, *chunk, chunksize);
            for other_chunk in chunks.iter().skip(i + 1) {
                let other_corner = corner_of(origin, *other_chunk, chunksize);
                assert!(!corners_eq(corner, other_corner));
            }
        }
    }
}

#[test]
fn chunks_are_sorted_by_distance() {
    const DISTANCE_ACCURACY: f64 = 1.;
    let chunksize = 10.;
    let (x0, y0, z0) = origin_corner((0., 0., 0.), chunksize);
    let chunks = generate_chunks(axis_count(101., chunksize));
    assert!(chunks.len() > 1);
    for (i, chunk) in chunks.iter().enumerate() {
        for other_chunk in chunks.iter().skip(i + 1) {
            let (x1, y1, z1) = corner_of((x0, y0, z0), *chunk, chunksize);
            let (dx1, dy1, dz1) = (x1 - x0, y1 - y0, z1 - z0);
            let (x2, y2, z2) = corner_of((x0, y0, z0), *other_chunk, chunksize);
            let (dx2, dy2, dz2) = (x2 - x0, y2 - y0, z2 - z0);
            let distance1 = dx1 * dx1 + dy1 * dy1 + dz1 * dz1;
            let distance2 = dx2 * dx2 + dy2 * dy2 + dz2 * dz2;
            assert!(distance1 <= distance2 + DISTANCE_ACCURACY);
        }
    }
}

#[test]
fn full_sphere_counts_every_mirror_image_once() {
    // the 8 first-octant cells of radius 2 mirror into the 3x3x3 block
    let chunks = generate_chunks(2);
    assert_eq!(chunks.len(), 27);
    for (i, chunk) in chunks.iter().enumerate() {
        assert!(chunk.0.abs() <= 1 && chunk.1.abs() <= 1 && chunk.2.abs() <= 1);
        for other in chunks.iter().skip(i + 1) {
            assert_ne!(chunk, other);
        }
    }
}

#[test]
fn split_enumeration_matches_single_enumeration() {
    let full = octant_cells(0, 5);
    for r_split in 1..5 {
        let mut joined = octant_cells(0, r_split);
        joined.extend(octant_cells(r_split, 5));
        assert_eq!(joined, full);
    }
}

#[test]
fn dedup_against_the_inner_shell_matches_the_region_filter() {
    for r_split in 1..5 {
        let inner = octant_cells(0, r_split);
        assert_eq!(octant_cells_after(&inner, r_split, 5), octant_cells(r_split, 5));
    }
}

#[test]
fn shells_fed_with_the_prior_output_rebuild_the_full_enumeration() {
    let full = octant_cells(0, 6);
    for r_split in 1..6 {
        let mut joined = octant_cells(0, r_split);
        let second = octant_cells_after(&joined, r_split, 6);
        joined.extend(second);
        assert_eq!(joined, full);
    }
}

#[test]
fn first_octant_enumeration_is_sorted_by_distance() {
    let cells = chunk_numbers_in_first_octant(6);
    for pair in cells.windows(2) {
        let d0 = pair[0].0 * pair[0].0 + pair[0].1 * pair[0].1 + pair[0].2 * pair[0].2;
        let d1 = pair[1].0 * pair[1].0 + pair[1].1 * pair[1].1 + pair[1].2 * pair[1].2;
        assert!(d0 <= d1);
    }
}
