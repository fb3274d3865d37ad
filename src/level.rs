use vstd::prelude::*;

use crate::assembly::{assemble_rings, assembled, closed_ring_of, has_edge, ring_views};
use crate::collinear::{
    endpoints_from, first_pair, is_endpoint_of, is_pair, lemma_merge_at_facts,
    lemma_merge_fixed_point, merge_all, merge_at, merge_collinear, mergeable, no_mergeable_pair,
};
use crate::geometry::{sign, Aabb, Point, Segment};

verus! {

/// Largest number of rows or columns a level grid may have.
pub const MAX_GRID_DIM: usize = 0x8000;

/// A rectangular, non-empty grid small enough for every coordinate the builder
/// derives from it to be exact.
pub open spec fn well_formed_grid(g: Seq<Seq<u32>>) -> bool {
    &&& 0 < g.len() <= MAX_GRID_DIM
    &&& 0 < g[0].len() <= MAX_GRID_DIM
    &&& forall|y: int| 0 <= y < g.len() ==> #[trigger] g[y].len() == g[0].len()
}

/// The tile at column `x`, row `y`; cells outside the grid read as empty.
pub open spec fn tile(g: Seq<Seq<u32>>, x: int, y: int) -> u32 {
    if 0 <= y < g.len() && 0 <= x < g[y].len() {
        g[y][x]
    } else {
        0
    }
}

pub open spec fn open_at(g: Seq<Seq<u32>>, x: int, y: int) -> bool {
    tile(g, x, y) == 0
}

/// The grid corner `(x, y)` (rows grow downwards).
pub open spec fn corner(x: int, y: int) -> Point {
    Point { x: x as i64, y: y as i64 }
}

pub open spec fn seg(ax: int, ay: int, bx: int, by: int) -> Segment {
    Segment { start: corner(ax, ay), end: corner(bx, by) }
}

pub open spec fn when(c: bool, s: Segment) -> Seq<Segment> {
    if c {
        seq![s]
    } else {
        seq![]
    }
}

/// The border edges that the cell at `(x, y)` contributes.
///
/// A full square (1) has a side wherever its neighbour is empty. A right
/// triangle (2 bottom-left, 3 bottom-right, 4 top-left, 5 top-right) always
/// has its hypotenuse, and each of its two legs where that neighbour is empty.
/// Every other code contributes nothing.
pub open spec fn cell_edges(g: Seq<Seq<u32>>, x: int, y: int) -> Seq<Segment> {
    let t = tile(g, x, y);
    if t == 1 {
        left_side(g, x, y) + right_side(g, x, y) + top_side(g, x, y) + bottom_side(g, x, y)
    } else if t == 2 {
        seq![seg(x, y, x + 1, y + 1)] + bottom_side(g, x, y) + left_side(g, x, y)
    } else if t == 3 {
        seq![seg(x + 1, y, x, y + 1)] + bottom_side(g, x, y) + right_side(g, x, y)
    } else if t == 4 {
        seq![seg(x, y + 1, x + 1, y)] + top_side(g, x, y) + left_side(g, x, y)
    } else if t == 5 {
        seq![seg(x + 1, y + 1, x, y)] + top_side(g, x, y) + right_side(g, x, y)
    } else {
        seq![]
    }
}

pub open spec fn left_side(g: Seq<Seq<u32>>, x: int, y: int) -> Seq<Segment> {
    when(open_at(g, x - 1, y), seg(x, y, x, y + 1))
}

pub open spec fn right_side(g: Seq<Seq<u32>>, x: int, y: int) -> Seq<Segment> {
    when(open_at(g, x + 1, y), seg(x + 1, y, x + 1, y + 1))
}

pub open spec fn top_side(g: Seq<Seq<u32>>, x: int, y: int) -> Seq<Segment> {
    when(open_at(g, x, y - 1), seg(x, y, x + 1, y))
}

pub open spec fn bottom_side(g: Seq<Seq<u32>>, x: int, y: int) -> Seq<Segment> {
    when(open_at(g, x, y + 1), seg(x, y + 1, x + 1, y + 1))
}

/// The edges of the first `n` cells in row-major order.
pub open spec fn emitted(g: Seq<Seq<u32>>, n: int) -> Seq<Segment>
    decreases n,
{
    if n <= 0 {
        seq![]
    } else {
        let k = n - 1;
        let cols = g[0].len() as int;
        emitted(g, k) + cell_edges(g, k % cols, k / cols)
    }
}

/// All border edges of the grid, cell by cell in row-major order.
pub open spec fn grid_edges(g: Seq<Seq<u32>>) -> Seq<Segment> {
    emitted(g, (g.len() * g[0].len()) as int)
}

fn is_open(grid: &Vec<Vec<u32>>, x: usize, y: usize, dx: i8, dy: i8) -> (r: bool)
    requires
        well_formed_grid(grid.deep_view()),
        (x as int) < grid.deep_view()[0].len(),
        (y as int) < grid.deep_view().len(),
        -1 <= dx <= 1,
        -1 <= dy <= 1,
    ensures
        r == open_at(grid.deep_view(), x + dx, y + dy),
{
    let ghost g = grid.deep_view();
    let nx = x as i64 + dx as i64;
    let ny = y as i64 + dy as i64;
    if nx < 0 || ny < 0 || ny as usize >= grid.len() {
        return true;
    }
    assert(g[ny as int].len() == g[0].len());
    if nx as usize >= grid[ny as usize].len() {
        return true;
    }
    grid[ny as usize][nx as usize] == 0
}

fn corner_at(x: usize, y: usize) -> (r: Point)
    requires
        x <= MAX_GRID_DIM,
        y <= MAX_GRID_DIM,
    ensures
        r == corner(x as int, y as int),
{
    Point { x: x as i64, y: y as i64 }
}

fn segment_at(ax: usize, ay: usize, bx: usize, by: usize) -> (r: Segment)
    requires
        ax <= MAX_GRID_DIM,
        ay <= MAX_GRID_DIM,
        bx <= MAX_GRID_DIM,
        by <= MAX_GRID_DIM,
    ensures
        r == seg(ax as int, ay as int, bx as int, by as int),
{
    Segment { start: corner_at(ax, ay), end: corner_at(bx, by) }
}

fn push_when(out: &mut Vec<Segment>, c: bool, s: Segment)
    ensures
        final(out)@ == old(out)@ + when(c, s),
{
    if c {
        out.push(s);
    } else {
        assert(old(out)@ + when(c, s) =~= old(out)@);
    }
}

fn emit_square(x: usize, y: usize, left: bool, right: bool, top: bool, bottom: bool, out: &mut Vec<Segment>)
    requires
        x < MAX_GRID_DIM,
        y < MAX_GRID_DIM,
    ensures
        final(out)@ == old(out)@ + (when(left, seg(x as int, y as int, x as int, y + 1))
            + when(right, seg(x + 1, y as int, x + 1, y + 1)) + when(top, seg(x as int, y as int, x + 1, y as int))
            + when(bottom, seg(x as int, y + 1, x + 1, y + 1))),
{
    let ghost start = out@;
    push_when(out, left, segment_at(x, y, x, y + 1));
    push_when(out, right, segment_at(x + 1, y, x + 1, y + 1));
    push_when(out, top, segment_at(x, y, x + 1, y));
    push_when(out, bottom, segment_at(x, y + 1, x + 1, y + 1));
    assert(out@ =~= start + (when(left, seg(x as int, y as int, x as int, y + 1))
            + when(right, seg(x + 1, y as int, x + 1, y + 1)) + when(top, seg(x as int, y as int, x + 1, y as int))
            + when(bottom, seg(x as int, y + 1, x + 1, y + 1))));
}

fn emit_triangle(hyp: Segment, leg1: bool, s1: Segment, leg2: bool, s2: Segment, out: &mut Vec<Segment>)
    ensures
        final(out)@ == old(out)@ + (seq![hyp] + when(leg1, s1) + when(leg2, s2)),
{
    let ghost start = out@;
    out.push(hyp);
    push_when(out, leg1, s1);
    push_when(out, leg2, s2);
    assert(out@ =~= start + (seq![hyp] + when(leg1, s1) + when(leg2, s2)));
}

/// Appends the border edges of the cell at `(x, y)`.
fn emit_cell(grid: &Vec<Vec<u32>>, x: usize, y: usize, out: &mut Vec<Segment>)
    requires
        well_formed_grid(grid.deep_view()),
        (x as int) < grid.deep_view()[0].len(),
        (y as int) < grid.deep_view().len(),
    ensures
        final(out)@ == old(out)@ + cell_edges(grid.deep_view(), x as int, y as int),
{
    let ghost g = grid.deep_view();
    let ghost xi = x as int;
    let ghost yi = y as int;
    assert(g[yi].len() == g[0].len());
    let t = grid[y][x];
    assert(t == tile(g, xi, yi));
    let left = is_open(grid, x, y, -1, 0);
    let right = is_open(grid, x, y, 1, 0);
    let top = is_open(grid, x, y, 0, -1);
    let bottom = is_open(grid, x, y, 0, 1);
    if t == 1 {
        emit_square(x, y, left, right, top, bottom, out);
    } else if t == 2 {
        emit_triangle(
            segment_at(x, y, x + 1, y + 1),
            bottom,
            segment_at(x, y + 1, x + 1, y + 1),
            left,
            segment_at(x, y, x, y + 1),
            out,
        );
    } else if t == 3 {
        emit_triangle(
            segment_at(x + 1, y, x, y + 1),
            bottom,
            segment_at(x, y + 1, x + 1, y + 1),
            right,
            segment_at(x + 1, y, x + 1, y + 1),
            out,
        );
    } else if t == 4 {
        emit_triangle(
            segment_at(x, y + 1, x + 1, y),
            top,
            segment_at(x, y, x + 1, y),
            left,
            segment_at(x, y, x, y + 1),
            out,
        );
    } else if t == 5 {
        emit_triangle(
            segment_at(x + 1, y + 1, x, y),
            top,
            segment_at(x, y, x + 1, y),
            right,
            segment_at(x + 1, y, x + 1, y + 1),
            out,
        );
    } else {
        assert(old(out)@ + cell_edges(g, xi, yi) =~= old(out)@);
    }
}

proof fn lemma_row_major(k: int, cols: int, x: int, y: int)
    requires
        0 < cols,
        0 <= x < cols,
        0 <= y,
        k == y * cols + x,
    ensures
        k % cols == x,
        k / cols == y,
{
    vstd::arithmetic::div_mod::lemma_fundamental_div_mod_converse(k, cols, y, x);
}

/// Emits the border edges of every cell, row by row.
pub fn emit_edges(grid: &Vec<Vec<u32>>) -> (r: Vec<Segment>)
    requires
        well_formed_grid(grid.deep_view()),
    ensures
        r@ == grid_edges(grid.deep_view()),
{
    let ghost g = grid.deep_view();
    let rows = grid.len();
    let cols = grid[0].len();
    let mut out: Vec<Segment> = Vec::new();
    let mut y: usize = 0;
    while y < rows
        invariant
            g == grid.deep_view(),
            well_formed_grid(g),
            rows == g.len(),
            cols == g[0].len(),
            y <= rows,
            out@ == emitted(g, y * cols),
        decreases rows - y,
    {
        let mut x: usize = 0;
        while x < cols
            invariant
                g == grid.deep_view(),
                well_formed_grid(g),
                rows == g.len(),
                cols == g[0].len(),
                y < rows,
                x <= cols,
                out@ == emitted(g, y * cols + x),
            decreases cols - x,
        {
            proof {
                lemma_row_major(y * cols + x, cols as int, x as int, y as int);
            }
            emit_cell(grid, x, y, &mut out);
            assert(y * cols + x + 1 == y * cols + (x + 1));
            x = x + 1;
        }
        assert(y * cols + cols == (y + 1) * cols) by (nonlinear_arith);
        y = y + 1;
    }
    out
}

/// Both endpoints lie in the rectangle `[0, w] x [0, h]`.
pub open spec fn within(s: Segment, w: int, h: int) -> bool {
    &&& 0 <= s.start.x <= w
    &&& 0 <= s.start.y <= h
    &&& 0 <= s.end.x <= w
    &&& 0 <= s.end.y <= h
}

pub open spec fn all_within(s: Seq<Segment>, w: int, h: int) -> bool {
    forall|k: int| 0 <= k < s.len() ==> within(#[trigger] s[k], w, h)
}

proof fn lemma_cell_edges_within(g: Seq<Seq<u32>>, x: int, y: int)
    requires
        well_formed_grid(g),
        0 <= x < g[0].len(),
        0 <= y < g.len(),
    ensures
        all_within(cell_edges(g, x, y), g[0].len() as int, g.len() as int),
{
    let e = cell_edges(g, x, y);
    assert forall|k: int| 0 <= k < e.len() implies within(#[trigger] e[k], g[0].len() as int, g.len() as int) by {
        let t = tile(g, x, y);
        let l = left_side(g, x, y);
        let r = right_side(g, x, y);
        let tp = top_side(g, x, y);
        let b = bottom_side(g, x, y);
        if t == 1 {
            let lr = l + r;
            let lrt = lr + tp;
            assert(e == lrt + b);
            if k < lrt.len() {
                if k < lr.len() {
                    if k < l.len() {
                        assert(e[k] == l[k]);
                    } else {
                        assert(e[k] == r[k - l.len()]);
                    }
                } else {
                    assert(e[k] == tp[k - lr.len()]);
                }
            } else {
                assert(e[k] == b[k - lrt.len()]);
            }
        } else if t == 2 || t == 3 || t == 4 || t == 5 {
            let h = if t == 2 {
                seg(x, y, x + 1, y + 1)
            } else if t == 3 {
                seg(x + 1, y, x, y + 1)
            } else if t == 4 {
                seg(x, y + 1, x + 1, y)
            } else {
                seg(x + 1, y + 1, x, y)
            };
            let a = if t == 2 || t == 3 { b } else { tp };
            let c = if t == 2 || t == 4 { l } else { r };
            let ha = seq![h] + a;
            assert(e == ha + c);
            if k < ha.len() {
                if k == 0 {
                    assert(e[k] == h);
                } else {
                    assert(e[k] == a[k - 1]);
                }
            } else {
                assert(e[k] == c[k - ha.len()]);
            }
        }
    }
}

proof fn lemma_emitted_within(g: Seq<Seq<u32>>, n: int)
    requires
        well_formed_grid(g),
        0 <= n <= g.len() * g[0].len(),
    ensures
        all_within(emitted(g, n), g[0].len() as int, g.len() as int),
    decreases n,
{
    if n > 0 {
        let k = n - 1;
        let cols = g[0].len() as int;
        lemma_emitted_within(g, k);
        vstd::arithmetic::div_mod::lemma_mod_pos_bound(k, cols);
        vstd::arithmetic::div_mod::lemma_div_pos_is_pos(k, cols);
        vstd::arithmetic::mul::lemma_mul_is_commutative(g.len() as int, cols);
        vstd::arithmetic::div_mod::lemma_multiply_divide_lt(k, cols, g.len() as int);
        lemma_cell_edges_within(g, k % cols, k / cols);
        let a = emitted(g, k);
        let c = cell_edges(g, k % cols, k / cols);
        assert forall|i: int| 0 <= i < a.len() + c.len() implies within(
            #[trigger] (a + c)[i],
            cols,
            g.len() as int,
        ) by {
            if i < a.len() {
                assert((a + c)[i] == a[i]);
            } else {
                assert((a + c)[i] == c[i - a.len()]);
            }
        }
    }
}

proof fn lemma_within_from_endpoints(r: Seq<Segment>, s: Seq<Segment>, w: int, h: int)
    requires
        endpoints_from(r, s),
        all_within(s, w, h),
    ensures
        all_within(r, w, h),
{
    assert forall|k: int| 0 <= k < r.len() implies within(#[trigger] r[k], w, h) by {
        let p = r[k].start;
        let q = r[k].end;
        assert(is_endpoint_of(s, p));
        assert(is_endpoint_of(s, q));
        let m1 = choose|m: int| 0 <= m < s.len() && (#[trigger] s[m].start == p || s[m].end == p);
        let m2 = choose|m: int| 0 <= m < s.len() && (#[trigger] s[m].start == q || s[m].end == q);
        assert(within(s[m1], w, h));
        assert(within(s[m2], w, h));
    }
}

/// A grid corner moved to centred half-cell coordinates with rows growing
/// upwards: the grid's centre becomes the origin and one cell spans two units.
pub open spec fn centered(p: Point, rows: int, cols: int) -> Point {
    Point { x: (2 * p.x - cols) as i64, y: (rows - 2 * p.y) as i64 }
}

pub open spec fn centered_segment(s: Segment, rows: int, cols: int) -> Segment {
    Segment { start: centered(s.start, rows, cols), end: centered(s.end, rows, cols) }
}

/// The collision edges of a level: the grid's border edges with collinear runs
/// joined, in centred coordinates.
pub open spec fn level_edges(g: Seq<Seq<u32>>) -> Seq<Segment> {
    merge_all(grid_edges(g)).map_values(
        |s: Segment| centered_segment(s, g.len() as int, g[0].len() as int),
    )
}

/// Both coordinates are at most `MAX_GRID_DIM` in magnitude.
pub open spec fn level_point(p: Point) -> bool {
    -(MAX_GRID_DIM as int) <= p.x <= MAX_GRID_DIM && -(MAX_GRID_DIM as int) <= p.y <= MAX_GRID_DIM
}

fn center_edges(edges: Vec<Segment>, rows: usize, cols: usize) -> (r: Vec<Segment>)
    requires
        0 < rows <= MAX_GRID_DIM,
        0 < cols <= MAX_GRID_DIM,
        all_within(edges@, cols as int, rows as int),
    ensures
        r@ == edges@.map_values(|s: Segment| centered_segment(s, rows as int, cols as int)),
        forall|k: int| 0 <= k < r@.len() ==> level_point(#[trigger] r@[k].start) && level_point(r@[k].end),
{
    let mut out: Vec<Segment> = Vec::new();
    let mut i: usize = 0;
    let ri = rows as i64;
    let ci = cols as i64;
    while i < edges.len()
        invariant
            0 < rows <= MAX_GRID_DIM,
            0 < cols <= MAX_GRID_DIM,
            ri == rows,
            ci == cols,
            i <= edges@.len(),
            all_within(edges@, cols as int, rows as int),
            out@ == edges@.subrange(0, i as int).map_values(
                |s: Segment| centered_segment(s, rows as int, cols as int),
            ),
            forall|k: int| 0 <= k < out@.len() ==> level_point(#[trigger] out@[k].start) && level_point(out@[k].end),
        decreases edges@.len() - i,
    {
        let e = edges[i];
        assert(within(edges@[i as int], cols as int, rows as int));
        let c = Segment {
            start: Point { x: 2 * e.start.x - ci, y: ri - 2 * e.start.y },
            end: Point { x: 2 * e.end.x - ci, y: ri - 2 * e.end.y },
        };
        out.push(c);
        assert(edges@.subrange(0, i + 1) =~= edges@.subrange(0, i as int).push(e));
        i = i + 1;
    }
    assert(edges@.subrange(0, edges@.len() as int) =~= edges@);
    out
}

/// One step of the signed-area sum.
pub open spec fn shoelace_term(u: Point, v: Point) -> int {
    (v.x - u.x) * (v.y + u.y)
}

/// The sum of the first `n` terms, each vertex paired with the next one (the
/// last with the first).
pub open spec fn shoelace_prefix(s: Seq<Point>, n: int) -> int
    decreases n,
{
    if n <= 0 {
        0
    } else {
        shoelace_prefix(s, n - 1) + shoelace_term(s[n - 1], s[n % (s.len() as int)])
    }
}

/// `sum (v.x - u.x) * (v.y + u.y)` over consecutive vertices: twice the
/// area enclosed, positive for a clockwise ring.
pub open spec fn shoelace(s: Seq<Point>) -> int {
    shoelace_prefix(s, s.len() as int)
}

proof fn lemma_term_bound(u: Point, v: Point)
    requires
        level_point(u),
        level_point(v),
    ensures
        -0x1_0000_0000 <= shoelace_term(u, v) <= 0x1_0000_0000,
{
    let k: int = 0x10000;
    assert(k * k == 0x1_0000_0000);
    assert(-(k * k) <= (v.x - u.x) * (v.y + u.y) <= k * k) by (nonlinear_arith)
        requires
            -k <= v.x - u.x <= k,
            -k <= v.y + u.y <= k,
    ;
}

/// Twice the signed area of the ring, by the shoelace sum.
pub fn calculate_winding_order(vertices: &Vec<Point>) -> (r: i128)
    requires
        forall|k: int| 0 <= k < vertices@.len() ==> level_point(#[trigger] vertices@[k]),
    ensures
        r == shoelace(vertices@),
{
    let n = vertices.len();
    let mut sum: i128 = 0;
    let mut i: usize = 0;
    while i < n
        invariant
            n == vertices@.len(),
            forall|k: int| 0 <= k < vertices@.len() ==> level_point(#[trigger] vertices@[k]),
            i <= n,
            sum == shoelace_prefix(vertices@, i as int),
            -(i as int) * 0x1_0000_0000 <= sum <= (i as int) * 0x1_0000_0000,
        decreases n - i,
    {
        let next: usize = if i + 1 == n { 0 } else { i + 1 };
        assert(((i + 1) as int) % (n as int) == next) by {
            if i + 1 == n {
                vstd::arithmetic::div_mod::lemma_mod_self_0(n as int);
            } else {
                vstd::arithmetic::div_mod::lemma_small_mod((i + 1) as nat, n as nat);
            }
        }
        let u = vertices[i];
        let v = vertices[next];
        proof {
            lemma_term_bound(u, v);
        }
        let term = (v.x - u.x) * (v.y + u.y);
        sum = sum + term as i128;
        i = i + 1;
    }
    sum
}

/// `b` is the smallest box holding every point of `s`; the zero box when `s`
/// is empty.
pub open spec fn bounds_points(b: Aabb, s: Seq<Point>) -> bool {
    if s.len() == 0 {
        b == Aabb { min: Point { x: 0, y: 0 }, max: Point { x: 0, y: 0 } }
    } else {
        &&& forall|k: int|
            0 <= k < s.len() ==> b.min.x <= (#[trigger] s[k]).x <= b.max.x && b.min.y <= s[k].y
                <= b.max.y
        &&& exists|k: int| 0 <= k < s.len() && (#[trigger] s[k]).x == b.min.x
        &&& exists|k: int| 0 <= k < s.len() && (#[trigger] s[k]).y == b.min.y
        &&& exists|k: int| 0 <= k < s.len() && (#[trigger] s[k]).x == b.max.x
        &&& exists|k: int| 0 <= k < s.len() && (#[trigger] s[k]).y == b.max.y
    }
}

/// The axis-aligned bounding box of the points.
pub fn compute_polygon_aabb(points: &Vec<Point>) -> (r: Aabb)
    ensures
        bounds_points(r, points@),
{
    if points.len() == 0 {
        return Aabb { min: Point { x: 0, y: 0 }, max: Point { x: 0, y: 0 } };
    }
    let mut min_x = points[0].x;
    let mut min_y = points[0].y;
    let mut max_x = points[0].x;
    let mut max_y = points[0].y;
    let ghost mut a: int = 0;
    let ghost mut b: int = 0;
    let ghost mut c: int = 0;
    let ghost mut d: int = 0;
    let mut i: usize = 1;
    while i < points.len()
        invariant
            1 <= i <= points@.len(),
            forall|k: int|
                0 <= k < i ==> min_x <= (#[trigger] points@[k]).x <= max_x && min_y <= points@[k].y
                    <= max_y,
            0 <= a < i && points@[a].x == min_x,
            0 <= b < i && points@[b].y == min_y,
            0 <= c < i && points@[c].x == max_x,
            0 <= d < i && points@[d].y == max_y,
        decreases points@.len() - i,
    {
        let p = points[i];
        if p.x < min_x {
            min_x = p.x;
            proof { a = i as int; }
        }
        if p.y < min_y {
            min_y = p.y;
            proof { b = i as int; }
        }
        if p.x > max_x {
            max_x = p.x;
            proof { c = i as int; }
        }
        if p.y > max_y {
            max_y = p.y;
            proof { d = i as int; }
        }
        i = i + 1;
    }
    let r = Aabb { min: Point { x: min_x, y: min_y }, max: Point { x: max_x, y: max_y } };
    assert(points@[a].x == r.min.x);
    assert(points@[b].y == r.min.y);
    assert(points@[c].x == r.max.x);
    assert(points@[d].y == r.max.y);
    r
}

/// A closed ring of the level with its solid side and cached bounding box.
#[derive(Debug)]
pub struct Polygon {
    pub points: Vec<Point>,
    /// Sign of the ring's shoelace sum: which side of each edge is solid.
    pub collision_side: i8,
    pub aabb: Aabb,
}

/// The vertex rings of the polygons.
pub open spec fn rings_of(polys: Seq<Polygon>) -> Seq<Seq<Point>> {
    polys.map_values(|p: Polygon| p.points@)
}

/// The polygon's side and box are those of its ring.
pub open spec fn polygon_consistent(p: Polygon) -> bool {
    &&& p.collision_side as int == sign(shoelace(p.points@))
    &&& bounds_points(p.aabb, p.points@)
}

proof fn lemma_ring_points(r: Seq<Point>, s: Seq<Segment>)
    requires
        closed_ring_of(r, s),
        forall|k: int| 0 <= k < s.len() ==> level_point(#[trigger] s[k].start) && level_point(s[k].end),
    ensures
        forall|k: int| 0 <= k < r.len() ==> level_point(#[trigger] r[k]),
{
    assert forall|k: int| 0 <= k < r.len() implies level_point(#[trigger] r[k]) by {
        let j = if k == r.len() - 1 { 0 } else { k };
        assert(r[j] == r[k]);
        assert(has_edge(s, r[j], r[j + 1]));
        let m = choose|m: int|
            0 <= m < s.len() && (#[trigger] s[m] == Segment { start: r[j], end: r[j + 1] } || s[m]
                == Segment { start: r[j + 1], end: r[j] });
        assert(level_point(s[m].start) && level_point(s[m].end));
    }
}

/// The rings whose shoelace sum is not zero, in order: those that enclose area
/// and so have a solid side.
pub open spec fn solid_rings(rs: Seq<Seq<Point>>) -> Seq<Seq<Point>>
    decreases rs.len(),
{
    if rs.len() == 0 {
        seq![]
    } else {
        let init = solid_rings(rs.subrange(0, rs.len() - 1));
        let last = rs[rs.len() - 1];
        if shoelace(last) != 0 {
            init.push(last)
        } else {
            init
        }
    }
}

/// How many of the rings enclose no area (shoelace sum zero).
pub open spec fn flat_count(rs: Seq<Seq<Point>>) -> nat
    decreases rs.len(),
{
    if rs.len() == 0 {
        0
    } else {
        let init = flat_count(rs.subrange(0, rs.len() - 1));
        if shoelace(rs[rs.len() - 1]) != 0 {
            init
        } else {
            init + 1
        }
    }
}

/// The closed rings that the greedy assembly makes of the level's edges.
pub open spec fn level_rings(g: Seq<Seq<u32>>) -> Seq<Seq<Point>> {
    assembled(level_edges(g)).0
}

/// The polygons of a level, with what the builder had to leave out.
#[derive(Debug)]
pub struct Level {
    pub polygons: Vec<Polygon>,
    /// Edges on chains that could not be closed into a ring.
    pub dropped_edges: usize,
    /// Closed rings that enclose no area, and so have no solid side.
    pub flat_rings: usize,
}

/// Builds the level's polygons from a tile grid.
///
/// Border edges are emitted cell by cell, collinear runs are joined, the edges
/// are moved to centred half-cell coordinates and chained into closed rings.
/// Each ring that encloses area becomes a polygon, with the sign of its
/// shoelace sum as its solid side, and its bounding box. Edges on chains that
/// do not close, and rings that enclose no area, are counted and left out.
pub fn generate_level_polygons(grid: &Vec<Vec<u32>>) -> (r: Level)
    requires
        well_formed_grid(grid.deep_view()),
    ensures
        rings_of(r.polygons@) == solid_rings(level_rings(grid.deep_view())),
        r.dropped_edges as int == assembled(level_edges(grid.deep_view())).1,
        r.flat_rings as int == flat_count(level_rings(grid.deep_view())),
        forall|k: int| 0 <= k < r.polygons@.len() ==> closed_ring_of(#[trigger] r.polygons@[k].points@, level_edges(grid.deep_view())),
        forall|k: int| 0 <= k < r.polygons@.len() ==> (#[trigger] r.polygons@[k]).collision_side as int == sign(shoelace(r.polygons@[k].points@)),
        forall|k: int| 0 <= k < r.polygons@.len() ==> (#[trigger] r.polygons@[k]).collision_side != 0,
        forall|k: int| 0 <= k < r.polygons@.len() ==> bounds_points((#[trigger] r.polygons@[k]).aabb, r.polygons@[k].points@),
        steps_unmergeable(rings_of(r.polygons@)),
{
    let ghost g = grid.deep_view();
    let rows = grid.len();
    let cols = grid[0].len();
    let edges = emit_edges(grid);
    proof {
        lemma_emitted_within(g, (g.len() * g[0].len()) as int);
        assert forall|k: int| 0 <= k < edges@.len() implies crate::geometry::segment_in_range(#[trigger] edges@[k]) by {
            assert(within(edges@[k], cols as int, rows as int));
        }
    }
    let merged = merge_collinear(edges);
    proof {
        lemma_within_from_endpoints(merged@, grid_edges(g), cols as int, rows as int);
    }
    let centred = center_edges(merged, rows, cols);
    let ghost lev = centred@;
    assert(lev == level_edges(g));
    let (rings, dropped_edges) = assemble_rings(centred);
    let ghost all = ring_views(rings@);
    let mut out: Vec<Polygon> = Vec::new();
    let mut flat: usize = 0;
    let mut i: usize = 0;
    assert(all.subrange(0, 0) =~= seq![]);
    assert(rings_of(out@) =~= seq![]);
    while i < rings.len()
        invariant
            i <= rings@.len(),
            all == ring_views(rings@),
            lev == level_edges(g),
            forall|k: int| 0 <= k < lev.len() ==> level_point(#[trigger] lev[k].start) && level_point(lev[k].end),
            forall|k: int| 0 <= k < rings@.len() ==> closed_ring_of(#[trigger] rings@[k]@, lev),
            rings_of(out@) == solid_rings(all.subrange(0, i as int)),
            flat as int == flat_count(all.subrange(0, i as int)),
            flat <= i,
            forall|k: int| 0 <= k < out@.len() ==> closed_ring_of(#[trigger] out@[k].points@, lev),
            forall|k: int| 0 <= k < out@.len() ==> polygon_consistent(#[trigger] out@[k]),
            forall|k: int| 0 <= k < out@.len() ==> (#[trigger] out@[k]).collision_side != 0,
        decreases rings@.len() - i,
    {
        let ring = rings[i].clone();
        assert(ring@ == rings@[i as int]@);
        assert(all[i as int] == ring@);
        let ghost pre = all.subrange(0, i as int);
        let ghost next = all.subrange(0, i + 1);
        assert(next.subrange(0, next.len() - 1) =~= pre);
        assert(next[next.len() - 1] == ring@);
        proof {
            lemma_ring_points(ring@, lev);
        }
        let sum = calculate_winding_order(&ring);
        if sum == 0 {
            flat = flat + 1;
        } else {
            let side: i8 = if sum > 0 { 1 } else { -1 };
            let aabb = compute_polygon_aabb(&ring);
            let ghost before = out@;
            out.push(Polygon { points: ring, collision_side: side, aabb });
            assert(rings_of(out@) =~= rings_of(before).push(ring@));
        }
        i = i + 1;
    }
    assert(all.subrange(0, rings@.len() as int) =~= all);
    proof {
        lemma_level_edges_fixed_point(g);
        assert forall|k: int| 0 <= k < rings_of(out@).len() implies closed_ring_of(
            #[trigger] rings_of(out@)[k],
            lev,
        ) by {
            assert(rings_of(out@)[k] == out@[k].points@);
        }
        lemma_ring_steps_unmergeable(rings_of(out@), lev);
    }
    Level { polygons: out, dropped_edges, flat_rings: flat }
}

proof fn lemma_merge_all_within(s: Seq<Segment>, w: int, h: int)
    requires
        all_within(s, w, h),
    ensures
        all_within(merge_all(s), w, h),
    decreases s.len(),
{
    if exists|p: (int, int)| first_pair(s, p.0, p.1) {
        let p = choose|p: (int, int)| first_pair(s, p.0, p.1);
        lemma_merge_at_facts(s, p.0, p.1);
        lemma_within_from_endpoints(merge_at(s, p.0, p.1), s, w, h);
        lemma_merge_all_within(merge_at(s, p.0, p.1), w, h);
    }
}

proof fn lemma_centered_mergeable(a: Segment, b: Segment, rows: int, cols: int)
    requires
        0 < rows <= MAX_GRID_DIM,
        0 < cols <= MAX_GRID_DIM,
        within(a, cols, rows),
        within(b, cols, rows),
    ensures
        mergeable(centered_segment(a, rows, cols), centered_segment(b, rows, cols)) == mergeable(a, b),
{
    let ca = centered_segment(a, rows, cols);
    let cb = centered_segment(b, rows, cols);
    assert forall|p: Point, q: Point|
        0 <= p.x <= cols && 0 <= p.y <= rows && 0 <= q.x <= cols && 0 <= q.y <= rows implies
        (centered(p, rows, cols) == centered(q, rows, cols)) == (p == q) by {
        if centered(p, rows, cols) == centered(q, rows, cols) {
            assert(p.x == q.x && p.y == q.y);
        }
    }
    let (ax, ay, bx, by) = (
        a.end.x - a.start.x,
        a.end.y - a.start.y,
        b.end.x - b.start.x,
        b.end.y - b.start.y,
    );
    assert(ca.end.x - ca.start.x == 2 * ax);
    assert(ca.end.y - ca.start.y == -2 * ay);
    assert(cb.end.x - cb.start.x == 2 * bx);
    assert(cb.end.y - cb.start.y == -2 * by);
    assert((2 * ax) * (-2 * by) - (-2 * ay) * (2 * bx) == -4 * (ax * by - ay * bx)) by (nonlinear_arith);
}

/// The builder's edges are a fixed point of collinear merging: no two of them
/// share exactly one endpoint while lying on a common line.
pub proof fn lemma_level_edges_fixed_point(g: Seq<Seq<u32>>)
    requires
        well_formed_grid(g),
    ensures
        no_mergeable_pair(level_edges(g)),
{
    let rows = g.len() as int;
    let cols = g[0].len() as int;
    let m = merge_all(grid_edges(g));
    let l = level_edges(g);
    lemma_emitted_within(g, (g.len() * g[0].len()) as int);
    lemma_merge_all_within(grid_edges(g), cols, rows);
    lemma_merge_fixed_point(grid_edges(g));
    assert forall|i: int, j: int| !#[trigger] is_pair(l, i, j) by {
        if 0 <= i < l.len() && 0 <= j < l.len() && i != j {
            lemma_centered_mergeable(m[i], m[j], rows, cols);
            assert(!is_pair(m, i, j));
        }
    }
}

/// The `k`-th edge of a ring: from vertex `k` to vertex `k + 1`.
pub open spec fn ring_step(r: Seq<Point>, k: int) -> Segment {
    Segment { start: r[k], end: r[k + 1] }
}

/// No two edges of the rings, within one ring or across two, share exactly one
/// endpoint while lying on a common line.
pub open spec fn steps_unmergeable(rings: Seq<Seq<Point>>) -> bool {
    forall|a: int, b: int, k: int, l: int|
        0 <= a < rings.len() && 0 <= b < rings.len() && 0 <= k < rings[a].len() - 1 && 0 <= l
            < rings[b].len() - 1 ==> !mergeable(
            #[trigger] ring_step(rings[a], k),
            #[trigger] ring_step(rings[b], l),
        )
}

pub open spec fn reversed(s: Segment) -> Segment {
    Segment { start: s.end, end: s.start }
}

proof fn lemma_mergeable_reversal(a: Segment, b: Segment)
    ensures
        mergeable(reversed(a), b) == mergeable(a, b),
        mergeable(a, reversed(b)) == mergeable(a, b),
{
    let (ax, ay, bx, by) = (
        a.end.x - a.start.x,
        a.end.y - a.start.y,
        b.end.x - b.start.x,
        b.end.y - b.start.y,
    );
    assert((-ax) * by - (-ay) * bx == -(ax * by - ay * bx)) by (nonlinear_arith);
    assert(ax * (-by) - ay * (-bx) == -(ax * by - ay * bx)) by (nonlinear_arith);
}

/// Walking closed rings along segments that admit no merge yields ring edges
/// that admit none either.
pub proof fn lemma_ring_steps_unmergeable(rings: Seq<Seq<Point>>, s: Seq<Segment>)
    requires
        no_mergeable_pair(s),
        forall|i: int| 0 <= i < rings.len() ==> closed_ring_of(#[trigger] rings[i], s),
    ensures
        steps_unmergeable(rings),
{
    assert forall|a: int, b: int, k: int, l: int|
        0 <= a < rings.len() && 0 <= b < rings.len() && 0 <= k < rings[a].len() - 1 && 0 <= l
            < rings[b].len() - 1 implies !mergeable(
        #[trigger] ring_step(rings[a], k),
        #[trigger] ring_step(rings[b], l),
    ) by {
        let x = ring_step(rings[a], k);
        let y = ring_step(rings[b], l);
        assert(closed_ring_of(rings[a], s));
        assert(closed_ring_of(rings[b], s));
        assert(has_edge(s, rings[a][k], rings[a][k + 1]));
        assert(has_edge(s, rings[b][l], rings[b][l + 1]));
        let m1 = choose|m: int| 0 <= m < s.len() && (#[trigger] s[m] == x || s[m] == reversed(x));
        let m2 = choose|m: int| 0 <= m < s.len() && (#[trigger] s[m] == y || s[m] == reversed(y));
        if m1 == m2 {
            assert(!mergeable(x, y));
        } else {
            assert(!is_pair(s, m1, m2));
            lemma_mergeable_reversal(x, y);
            lemma_mergeable_reversal(reversed(x), y);
            lemma_mergeable_reversal(x, reversed(y));
            assert(reversed(reversed(x)) == x);
            assert(reversed(reversed(y)) == y);
        }
    }
}

} // verus!
