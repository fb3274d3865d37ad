use platformer_core::assembly::assemble_rings;
use platformer_core::collinear::{find_pair, is_mergeable, merge_collinear};
use platformer_core::geometry::{Aabb, Point, Segment};
use platformer_core::level::{
    calculate_winding_order, compute_polygon_aabb, emit_edges, generate_level_polygons, Polygon,
};
use platformer_core::loader::{check_grid, load_level, LevelError};

fn p(x: i64, y: i64) -> Point {
    Point { x, y }
}

fn s(ax: i64, ay: i64, bx: i64, by: i64) -> Segment {
    Segment { start: p(ax, ay), end: p(bx, by) }
}

fn distinct_vertices(poly: &Polygon) -> usize {
    let n = poly.points.len();
    assert_eq!(poly.points[0], poly.points[n - 1]);
    n - 1
}

#[test]
fn one_cell_floor() {
    let grid = vec![vec![0, 0, 0], vec![0, 1, 0], vec![0, 0, 0]];
    let polys = generate_level_polygons(&grid).polygons;
    assert_eq!(polys.len(), 1);
    assert_eq!(distinct_vertices(&polys[0]), 4);
    assert_ne!(polys[0].collision_side, 0);
    assert_eq!(
        polys[0].points,
        vec![p(-1, 1), p(-1, -1), p(1, -1), p(1, 1), p(-1, 1)]
    );
    assert_eq!(polys[0].aabb, Aabb { min: p(-1, -1), max: p(1, 1) });
}

#[test]
fn colinear_collapse() {
    let grid = vec![vec![1, 1, 1]];
    let polys = generate_level_polygons(&grid).polygons;
    assert_eq!(polys.len(), 1);
    assert_eq!(distinct_vertices(&polys[0]), 4);
    // three cells wide and one high: six by two half-cell units
    assert_eq!(polys[0].aabb, Aabb { min: p(-3, -1), max: p(3, 1) });
    assert_eq!(polys[0].collision_side, -1);
}

#[test]
fn side_matches_shoelace_sign() {
    for grid in [
        vec![vec![1]],
        vec![vec![2]],
        vec![vec![1, 1], vec![1, 0]],
        vec![vec![1, 0, 1]],
        vec![vec![3, 1, 4], vec![1, 1, 1]],
    ] {
        for poly in generate_level_polygons(&grid).polygons {
            let sum = calculate_winding_order(&poly.points);
            assert_eq!(poly.collision_side as i128, sum.signum());
        }
    }
}

#[test]
fn full_block_gives_one_square() {
    let level = generate_level_polygons(&vec![vec![1, 1], vec![1, 1]]);
    assert_eq!(level.polygons.len(), 1);
    assert_eq!(
        level.polygons[0].points,
        vec![p(-2, 2), p(-2, -2), p(2, -2), p(2, 2), p(-2, 2)]
    );
    assert_eq!(level.polygons[0].aabb, Aabb { min: p(-2, -2), max: p(2, 2) });
    assert_eq!(level.dropped_edges, 0);
}

#[test]
fn pinched_ring_without_area_is_left_out() {
    // two squares touching at one corner chain into a single ring whose
    // shoelace sum is zero
    let level = generate_level_polygons(&vec![vec![1, 0], vec![0, 1]]);
    assert!(level.polygons.is_empty());
    assert_eq!(level.flat_rings, 1);
    assert_eq!(level.dropped_edges, 0);
}

#[test]
fn level_polygons_have_a_solid_side() {
    for grid in [vec![vec![1, 0], vec![0, 1]], vec![vec![2, 1, 5]], vec![vec![1, 0, 1]]] {
        for poly in generate_level_polygons(&grid).polygons {
            assert!(poly.collision_side == 1 || poly.collision_side == -1);
        }
    }
}

#[test]
fn triangle_tile_ring() {
    let polys = generate_level_polygons(&vec![vec![2]]).polygons;
    assert_eq!(polys.len(), 1);
    assert_eq!(polys[0].points, vec![p(-1, 1), p(1, -1), p(-1, -1), p(-1, 1)]);
    assert_eq!(calculate_winding_order(&polys[0].points), 4);
    assert_eq!(polys[0].collision_side, 1);
}

#[test]
fn l_shaped_block() {
    let polys = generate_level_polygons(&vec![vec![1, 1], vec![1, 0]]).polygons;
    assert_eq!(polys.len(), 1);
    assert_eq!(distinct_vertices(&polys[0]), 6);
    assert_eq!(calculate_winding_order(&polys[0].points), 24);
    assert_eq!(polys[0].collision_side, 1);
}

#[test]
fn separate_blocks_make_separate_polygons() {
    let polys = generate_level_polygons(&vec![vec![1, 0, 1]]).polygons;
    assert_eq!(polys.len(), 2);
    assert_eq!(polys[0].aabb, Aabb { min: p(-3, -1), max: p(-1, 1) });
    assert_eq!(polys[1].aabb, Aabb { min: p(1, -1), max: p(3, 1) });
}

#[test]
fn reserved_tiles_emit_nothing() {
    let level = generate_level_polygons(&vec![vec![6, 7], vec![8, 9]]);
    assert!(level.polygons.is_empty());
    assert_eq!(level.dropped_edges, 0);
    assert_eq!(level.flat_rings, 0);
    assert!(generate_level_polygons(&vec![vec![0, 0]]).polygons.is_empty());
}

#[test]
fn unclosed_rings_are_dropped() {
    let level = generate_level_polygons(&vec![vec![0, 2], vec![2, 1]]);
    assert!(level.polygons.is_empty());
    // all six edges lie on chains that never close
    assert_eq!(level.dropped_edges, 6);
    assert_eq!(level.flat_rings, 0);
}

#[test]
fn square_cell_emits_four_sides() {
    let edges = emit_edges(&vec![vec![1]]);
    assert_eq!(
        edges,
        vec![s(0, 0, 0, 1), s(1, 0, 1, 1), s(0, 0, 1, 0), s(0, 1, 1, 1)]
    );
}

#[test]
fn shared_sides_are_not_emitted() {
    let edges = emit_edges(&vec![vec![1, 1]]);
    assert_eq!(edges.len(), 6);
    assert!(!edges.contains(&s(1, 0, 1, 1)));
}

#[test]
fn triangle_emits_hypotenuse_and_open_legs() {
    let edges = emit_edges(&vec![vec![5]]);
    assert_eq!(edges, vec![s(1, 1, 0, 0), s(0, 0, 1, 0), s(1, 0, 1, 1)]);
    let edges = emit_edges(&vec![vec![1, 3]]);
    // the leg facing the square is closed by it
    assert_eq!(edges[3..].to_vec(), vec![s(2, 0, 1, 1), s(1, 1, 2, 1), s(2, 0, 2, 1)]);
}

#[test]
fn collinear_run_merges_to_one_edge() {
    let merged = merge_collinear(vec![s(0, 0, 1, 0), s(1, 0, 2, 0), s(2, 0, 3, 0)]);
    assert_eq!(merged, vec![s(3, 0, 0, 0)]);
}

#[test]
fn perpendicular_edges_stay_apart() {
    let edges = vec![s(0, 0, 1, 0), s(1, 0, 1, 1)];
    assert!(!is_mergeable(edges[0], edges[1]));
    assert_eq!(merge_collinear(edges.clone()), edges);
    assert_eq!(find_pair(&edges), None);
}

#[test]
fn merged_edges_have_no_mergeable_pair() {
    let grid = vec![vec![1, 1, 1, 1], vec![1, 2, 0, 5], vec![1, 1, 1, 1]];
    let merged = merge_collinear(emit_edges(&grid));
    for i in 0..merged.len() {
        for j in 0..merged.len() {
            if i != j {
                assert!(!is_mergeable(merged[i], merged[j]));
            }
        }
    }
}

#[test]
fn mergeable_needs_exactly_one_shared_endpoint() {
    assert!(is_mergeable(s(0, 0, 1, 0), s(2, 0, 1, 0)));
    assert!(!is_mergeable(s(0, 0, 1, 0), s(1, 0, 0, 0)));
    assert!(!is_mergeable(s(0, 0, 1, 0), s(2, 0, 3, 0)));
    assert!(!is_mergeable(s(0, 0, 0, 0), s(0, 0, 1, 0)));
    assert_eq!(find_pair(&vec![s(5, 5, 6, 6), s(0, 0, 1, 1), s(1, 1, 2, 2)]), Some((1, 2)));
}

#[test]
fn winding_of_square_rings() {
    let ccw = vec![p(0, 0), p(2, 0), p(2, 2), p(0, 2), p(0, 0)];
    assert_eq!(calculate_winding_order(&ccw), -8);
    let cw: Vec<Point> = ccw.iter().rev().copied().collect();
    assert_eq!(calculate_winding_order(&cw), 8);
    assert_eq!(calculate_winding_order(&vec![]), 0);
}

#[test]
fn polygon_aabb_bounds() {
    let pts = vec![p(3, -2), p(-1, 5), p(4, 0)];
    assert_eq!(compute_polygon_aabb(&pts), Aabb { min: p(-1, -2), max: p(4, 5) });
    assert_eq!(compute_polygon_aabb(&vec![]), Aabb { min: p(0, 0), max: p(0, 0) });
}

#[test]
fn load_level_from_json() {
    let polys = load_level("[[0,0,0],[0,1,0],[0,0,0]]").unwrap().polygons;
    assert_eq!(polys.len(), 1);
    assert_eq!(distinct_vertices(&polys[0]), 4);
    let polys = load_level(" [ [1, 1, 1] ] ").unwrap().polygons;
    assert_eq!(polys[0].aabb, Aabb { min: p(-3, -1), max: p(3, 1) });
}

#[test]
fn load_level_errors() {
    assert_eq!(load_level("not json").unwrap_err(), LevelError::Malformed);
    assert_eq!(load_level("[[1,-1]]").unwrap_err(), LevelError::Malformed);
    assert_eq!(load_level("[[1.5]]").unwrap_err(), LevelError::Malformed);
    assert_eq!(load_level("[]").unwrap_err(), LevelError::Empty);
    assert_eq!(load_level("[[]]").unwrap_err(), LevelError::Empty);
    assert_eq!(load_level("[[1],[1,1]]").unwrap_err(), LevelError::Ragged);
    assert_eq!(load_level("[[1,1],[]]").unwrap_err(), LevelError::Ragged);
    let wide = format!("[[{}0]]", "0,".repeat(0x8000));
    assert_eq!(load_level(&wide).unwrap_err(), LevelError::TooLarge);
}

#[test]
fn check_grid_accepts_rectangles() {
    assert_eq!(check_grid(&vec![vec![0, 1], vec![2, 3]]), Ok(()));
    assert_eq!(check_grid(&vec![vec![0, 1], vec![2]]), Err(LevelError::Ragged));
    assert_eq!(check_grid(&vec![]), Err(LevelError::Empty));
}

#[test]
fn assembly_drops_open_chains() {
    let (rings, dropped) = assemble_rings(vec![
        s(0, 0, 1, 0),
        s(5, 5, 6, 5),
        s(1, 0, 1, 1),
        s(0, 0, 1, 1),
    ]);
    assert_eq!(rings, vec![vec![p(0, 0), p(1, 0), p(1, 1), p(0, 0)]]);
    assert_eq!(dropped, 1);
}
