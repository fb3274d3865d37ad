use vstd::prelude::*;

use crate::geometry::{Point, Segment};

verus! {

/// Some segment of `s` joins `a` and `b`, in either direction.
pub open spec fn has_edge(s: Seq<Segment>, a: Point, b: Point) -> bool {
    exists|m: int|
        0 <= m < s.len() && (#[trigger] s[m] == Segment { start: a, end: b } || s[m] == Segment {
            start: b,
            end: a,
        })
}

/// `r` is a closed walk along segments of `s`: it ends where it starts and
/// each step follows one segment.
pub open spec fn closed_ring_of(r: Seq<Point>, s: Seq<Segment>) -> bool {
    &&& r.len() >= 2
    &&& r[0] == r[r.len() - 1]
    &&& forall|k: int| 0 <= k < r.len() - 1 ==> #[trigger] has_edge(s, r[k], r[k + 1])
}

pub open spec fn drawn_from(r: Seq<Segment>, s: Seq<Segment>) -> bool {
    forall|i: int| 0 <= i < r.len() ==> s.contains(#[trigger] r[i])
}

/// The first segment of `s` at or after index `i` with an endpoint at `p`,
/// and whether that endpoint is its start (a segment's start is tried first).
pub open spec fn attached_from(s: Seq<Segment>, p: Point, i: int) -> Option<(int, bool)>
    decreases s.len() - i,
{
    if i < 0 || i >= s.len() {
        None
    } else if s[i].start == p {
        Some((i, true))
    } else if s[i].end == p {
        Some((i, false))
    } else {
        attached_from(s, p, i + 1)
    }
}

/// Extends the open ring `ring`, whose walk began at `start` and now stands at
/// `current`, by the first remaining segment attached to its open end, until
/// it comes back to `start` (closed) or no segment continues it (dead end).
/// Gives the segments left over, the ring, and whether it closed.
pub open spec fn walk(rest: Seq<Segment>, start: Point, current: Point, ring: Seq<Point>) -> (
    Seq<Segment>,
    Seq<Point>,
    bool,
)
    decreases rest.len(),
{
    if start == current {
        (rest, ring, true)
    } else {
        match attached_from(rest, current, 0) {
            None => (rest, ring, false),
            Some(found) => {
                if 0 <= found.0 < rest.len() {
                    let e = rest[found.0];
                    let next = if found.1 {
                        e.end
                    } else {
                        e.start
                    };
                    walk(rest.remove(found.0), start, next, ring.push(next))
                } else {
                    (rest, ring, false)
                }
            },
        }
    }
}

/// The greedy ring assembly: take the first segment left, walk from its end
/// back to its start, keep the ring if it closed, and go on with the segments
/// left over. Gives the closed rings in the order found, and how many
/// segments were dropped on walks that reached a dead end.
pub open spec fn assembled(rest: Seq<Segment>) -> (Seq<Seq<Point>>, nat)
    decreases rest.len(),
{
    if rest.len() == 0 {
        (seq![], 0)
    } else {
        let f = rest[0];
        let w = walk(rest.remove(0), f.start, f.end, seq![f.start, f.end]);
        if w.0.len() < rest.len() {
            let later = assembled(w.0);
            if w.2 {
                (seq![w.1] + later.0, later.1)
            } else {
                (later.0, later.1 + (w.1.len() - 1) as nat)
            }
        } else {
            (seq![], 0)
        }
    }
}

/// A walk never adds segments, so the test in `assembled` that the segments
/// left over are fewer always holds.
pub proof fn lemma_walk_consumes(rest: Seq<Segment>, start: Point, current: Point, ring: Seq<Point>)
    ensures
        walk(rest, start, current, ring).0.len() <= rest.len(),
    decreases rest.len(),
{
    if start != current {
        match attached_from(rest, current, 0) {
            None => {},
            Some(found) => {
                if 0 <= found.0 < rest.len() {
                    let e = rest[found.0];
                    let next = if found.1 {
                        e.end
                    } else {
                        e.start
                    };
                    lemma_walk_consumes(rest.remove(found.0), start, next, ring.push(next));
                }
            },
        }
    }
}

/// The number of steps (edges walked) over all the rings.
pub open spec fn steps_total(rs: Seq<Seq<Point>>) -> int
    decreases rs.len(),
{
    if rs.len() == 0 {
        0
    } else {
        steps_total(rs.subrange(0, rs.len() - 1)) + rs[rs.len() - 1].len() - 1
    }
}

pub open spec fn ring_views(rs: Seq<Vec<Point>>) -> Seq<Seq<Point>> {
    rs.map_values(|r: Vec<Point>| r@)
}

fn same_point(p: Point, q: Point) -> (r: bool)
    ensures
        r == (p == q),
{
    p.x == q.x && p.y == q.y
}

/// The first segment with an endpoint at `p`, and whether that endpoint is
/// its start.
fn find_attached(edges: &Vec<Segment>, p: Point) -> (r: Option<(usize, bool)>)
    ensures
        match r {
            Some(found) => {
                &&& found.0 < edges@.len()
                &&& found.1 ==> edges@[found.0 as int].start == p
                &&& !found.1 ==> edges@[found.0 as int].end == p
            },
            None => forall|i: int|
                0 <= i < edges@.len() ==> #[trigger] edges@[i].start != p && edges@[i].end != p,
        },
        match r {
            Some(found) => attached_from(edges@, p, 0) == Some((found.0 as int, found.1)),
            None => attached_from(edges@, p, 0) == None::<(int, bool)>,
        },
{
    let mut i: usize = 0;
    while i < edges.len()
        invariant
            i <= edges@.len(),
            forall|k: int| 0 <= k < i ==> (#[trigger] edges@[k]).start != p && edges@[k].end != p,
            attached_from(edges@, p, 0) == attached_from(edges@, p, i as int),
        decreases edges@.len() - i,
    {
        if same_point(edges[i].start, p) {
            return Some((i, true));
        } else if same_point(edges[i].end, p) {
            return Some((i, false));
        }
        i = i + 1;
    }
    None
}

proof fn lemma_drawn_from_remove(r: Seq<Segment>, s: Seq<Segment>, i: int)
    requires
        drawn_from(r, s),
        0 <= i < r.len(),
    ensures
        drawn_from(r.remove(i), s),
{
    let t = r.remove(i);
    assert forall|k: int| 0 <= k < t.len() implies s.contains(#[trigger] t[k]) by {
        if k < i {
            assert(t[k] == r[k]);
        } else {
            assert(t[k] == r[k + 1]);
        }
    }
}

/// Chains the segments into closed rings.
///
/// Each ring starts with the first segment left over and repeatedly follows
/// the first remaining segment attached to its open end, until it comes back
/// to its start. A walk that reaches a dead end is dropped; the second result
/// counts the segments dropped that way. Every segment is walked once, so the
/// rings' steps and the dropped segments add up to all of them.
pub fn assemble_rings(edges: Vec<Segment>) -> (r: (Vec<Vec<Point>>, usize))
    ensures
        ring_views(r.0@) == assembled(edges@).0,
        r.1 as int == assembled(edges@).1,
        steps_total(ring_views(r.0@)) + r.1 == edges@.len(),
        forall|k: int| 0 <= k < r.0@.len() ==> closed_ring_of(#[trigger] r.0@[k]@, edges@),
{
    let ghost orig = edges@;
    let mut rest = edges;
    let mut rings: Vec<Vec<Point>> = Vec::new();
    let mut dropped: usize = 0;
    assert(orig.len() == rest.len());
    assert(ring_views(rings@) =~= seq![]);
    proof {
        assert forall|i: int| 0 <= i < rest@.len() implies orig.contains(#[trigger] rest@[i]) by {
            assert(rest@[i] == orig[i]);
        }
        assert(ring_views(rings@) + assembled(rest@).0 =~= assembled(orig).0);
    }
    while rest.len() > 0
        invariant
            orig == edges@,
            drawn_from(rest@, orig),
            forall|k: int| 0 <= k < rings@.len() ==> closed_ring_of(#[trigger] rings@[k]@, orig),
            ring_views(rings@) + assembled(rest@).0 == assembled(orig).0,
            dropped + assembled(rest@).1 == assembled(orig).1,
            dropped + rest@.len() <= orig.len(),
            steps_total(ring_views(rings@)) + dropped + rest@.len() == orig.len(),
            orig.len() <= usize::MAX,
        decreases rest@.len(),
    {
        proof {
            lemma_drawn_from_remove(rest@, orig, 0);
        }
        assert(orig.contains(rest@[0]));
        let ghost m0 = choose|m: int| 0 <= m < orig.len() && orig[m] == rest@[0];
        let ghost outer_len = rest@.len();
        let first = rest.remove(0);
        let start = first.start;
        let mut current = first.end;
        let mut ring: Vec<Point> = Vec::new();
        ring.push(first.start);
        ring.push(first.end);
        let ghost w = walk(rest@, start, current, ring@);
        assert(ring@ == seq![first.start, first.end]);
        assert(has_edge(orig, ring@[0], ring@[1])) by {
            assert(orig[m0] == Segment { start: ring@[0], end: ring@[1] });
        }
        let mut dead_end = false;
        loop
            invariant_except_break
                !dead_end,
                walk(rest@, start, current, ring@) == w,
            invariant
                orig == edges@,
                drawn_from(rest@, orig),
                rest@.len() < outer_len,
                rest@.len() + ring@.len() - 1 == outer_len,
                dropped + outer_len <= orig.len(),
                orig.len() <= usize::MAX,
                ring@.len() >= 2,
                ring@[0] == start,
                ring@[ring@.len() - 1] == current,
                forall|k: int|
                    0 <= k < ring@.len() - 1 ==> #[trigger] has_edge(orig, ring@[k], ring@[k + 1]),
            ensures
                !dead_end ==> closed_ring_of(ring@, orig),
                w == (rest@, ring@, !dead_end),
            decreases rest@.len(),
        {
            if same_point(start, current) {
                break;
            }
            match find_attached(&rest, current) {
                None => {
                    dead_end = true;
                    break;
                },
                Some(found) => {
                    let (i, at_start) = found;
                    proof {
                        lemma_drawn_from_remove(rest@, orig, i as int);
                    }
                    assert(orig.contains(rest@[i as int]));
                    let ghost m = choose|m: int| 0 <= m < orig.len() && orig[m] == rest@[i as int];
                    let e = rest.remove(i);
                    let next = if at_start {
                        e.end
                    } else {
                        e.start
                    };
                    let ghost before = ring@;
                    ring.push(next);
                    proof {
                        assert(orig[m] == e);
                        assert(has_edge(orig, current, next));
                        assert forall|k: int| 0 <= k < ring@.len() - 1 implies #[trigger] has_edge(
                            orig,
                            ring@[k],
                            ring@[k + 1],
                        ) by {
                            if k < before.len() - 1 {
                                assert(ring@[k] == before[k] && ring@[k + 1] == before[k + 1]);
                                assert(has_edge(orig, before[k], before[k + 1]));
                            }
                        }
                    }
                    current = next;
                },
            }
        }
        let ghost later = assembled(rest@);
        if !dead_end {
            let ghost prev = ring_views(rings@);
            rings.push(ring);
            proof {
                assert(ring_views(rings@) =~= prev.push(w.1));
                assert(prev.push(w.1).subrange(0, prev.len() as int) =~= prev);
                assert(prev.push(w.1) + later.0 =~= prev + (seq![w.1] + later.0));
            }
        } else {
            dropped = dropped + (ring.len() - 1);
        }
    }
    assert(assembled(rest@).0 =~= seq![]);
    assert(ring_views(rings@) + seq![] =~= ring_views(rings@));
    (rings, dropped)
}

} // verus!
