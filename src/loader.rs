use vstd::prelude::*;

use crate::assembly::{assembled, closed_ring_of};
use crate::level::{
    bounds_points, flat_count, generate_level_polygons, level_edges, level_rings, rings_of,
    shoelace, solid_rings, steps_unmergeable, well_formed_grid, Level, MAX_GRID_DIM,
};
use crate::geometry::sign;

verus! {

/// Why a level text could not be turned into polygons.
#[derive(Clone, Copy, Debug, PartialEq, Eq, Structural)]
pub enum LevelError {
    /// The text is not a JSON array of arrays of non-negative integers.
    Malformed,
    /// The grid has no rows, or its first row has no cells.
    Empty,
    /// Some row is longer or shorter than the first.
    Ragged,
    /// More than `MAX_GRID_DIM` rows or columns.
    TooLarge,
}

/// The grid that `serde_json` reads from a text, if it reads one.
pub uninterp spec fn json_grid(text: Seq<char>) -> Option<Seq<Seq<u32>>>;

/// Relies on `serde_json::from_str::<Vec<Vec<u32>>>`: its result depends on
/// the text alone.
#[verifier::external_body]
fn parse_grid(text: &str) -> (r: Option<Vec<Vec<u32>>>)
    ensures
        match r {
            Some(g) => json_grid(text@) == Some(g.deep_view()),
            None => json_grid(text@) == None::<Seq<Seq<u32>>>,
        },
{
    serde_json::from_str::<Vec<Vec<u32>>>(text).ok()
}

/// What is wrong with a parsed grid, if anything.
pub open spec fn grid_error(g: Seq<Seq<u32>>) -> Option<LevelError> {
    if g.len() == 0 || g[0].len() == 0 {
        Some(LevelError::Empty)
    } else if exists|y: int| 0 <= y < g.len() && #[trigger] g[y].len() != g[0].len() {
        Some(LevelError::Ragged)
    } else if g.len() > MAX_GRID_DIM || g[0].len() > MAX_GRID_DIM {
        Some(LevelError::TooLarge)
    } else {
        None
    }
}

/// Checks that a grid is non-empty, rectangular and not too large.
pub fn check_grid(grid: &Vec<Vec<u32>>) -> (r: Result<(), LevelError>)
    ensures
        match grid_error(grid.deep_view()) {
            Some(e) => r == Err::<(), LevelError>(e),
            None => r is Ok && well_formed_grid(grid.deep_view()),
        },
{
    let ghost g = grid.deep_view();
    if grid.len() == 0 || grid[0].len() == 0 {
        return Err(LevelError::Empty);
    }
    let cols = grid[0].len();
    let mut y: usize = 0;
    while y < grid.len()
        invariant
            g == grid.deep_view(),
            g.len() > 0,
            cols == g[0].len(),
            cols > 0,
            y <= g.len(),
            forall|k: int| 0 <= k < y ==> #[trigger] g[k].len() == cols,
        decreases g.len() - y,
    {
        if grid[y].len() != cols {
            assert(g[y as int].len() != g[0].len());
            return Err(LevelError::Ragged);
        }
        y = y + 1;
    }
    if grid.len() > MAX_GRID_DIM || cols > MAX_GRID_DIM {
        return Err(LevelError::TooLarge);
    }
    Ok(())
}

/// The level is the one the builder makes of `g`.
pub open spec fn built_from(g: Seq<Seq<u32>>, level: Level) -> bool {
    let polys = level.polygons@;
    &&& rings_of(polys) == solid_rings(level_rings(g))
    &&& level.dropped_edges as int == assembled(level_edges(g)).1
    &&& level.flat_rings as int == flat_count(level_rings(g))
    &&& forall|k: int| 0 <= k < polys.len() ==> closed_ring_of(#[trigger] polys[k].points@, level_edges(g))
    &&& forall|k: int| 0 <= k < polys.len() ==> (#[trigger] polys[k]).collision_side as int == sign(shoelace(polys[k].points@))
    &&& forall|k: int| 0 <= k < polys.len() ==> (#[trigger] polys[k]).collision_side != 0
    &&& forall|k: int| 0 <= k < polys.len() ==> bounds_points((#[trigger] polys[k]).aabb, polys[k].points@)
    &&& steps_unmergeable(rings_of(polys))
}

/// Reads a level given as JSON text and builds its polygons.
pub fn load_level(text: &str) -> (r: Result<Level, LevelError>)
    ensures
        match json_grid(text@) {
            None => r == Err::<Level, LevelError>(LevelError::Malformed),
            Some(g) => match grid_error(g) {
                Some(e) => r == Err::<Level, LevelError>(e),
                None => r is Ok && built_from(g, r->Ok_0),
            },
        },
{
    let grid = match parse_grid(text) {
        Some(g) => g,
        None => {
            return Err(LevelError::Malformed);
        },
    };
    match check_grid(&grid) {
        Err(e) => Err(e),
        Ok(()) => Ok(generate_level_polygons(&grid)),
    }
}

} // verus!
