use vstd::prelude::*;

use crate::geometry::{cross_of, cross_product, segment_in_range, Point, Segment};

verus! {

pub open spec fn degenerate(s: Segment) -> bool {
    s.start == s.end
}

/// How many of the four endpoint pairings of `a` and `b` coincide.
pub open spec fn shared_count(a: Segment, b: Segment) -> int {
    (if a.start == b.start { 1int } else { 0int }) + (if a.start == b.end { 1int } else { 0int })
        + (if a.end == b.start { 1int } else { 0int }) + (if a.end == b.end { 1int } else { 0int })
}

/// The directions of `a` and `b` are parallel or antiparallel.
pub open spec fn parallel(a: Segment, b: Segment) -> bool {
    cross_of(a.start, a.end, b.start, b.end) == 0
}

/// Two proper segments that meet in exactly one endpoint and lie on one line.
pub open spec fn mergeable(a: Segment, b: Segment) -> bool {
    &&& !degenerate(a)
    &&& !degenerate(b)
    &&& shared_count(a, b) == 1
    &&& parallel(a, b)
}

/// The segment from the far end of `a` to the far end of `b`, dropping the
/// endpoint they share.
pub open spec fn joined(a: Segment, b: Segment) -> Segment {
    if a.start == b.start {
        Segment { start: a.end, end: b.end }
    } else if a.start == b.end {
        Segment { start: a.end, end: b.start }
    } else if a.end == b.start {
        Segment { start: a.start, end: b.end }
    } else {
        Segment { start: a.start, end: b.start }
    }
}

pub open spec fn is_pair(s: Seq<Segment>, i: int, j: int) -> bool {
    &&& 0 <= i < s.len()
    &&& 0 <= j < s.len()
    &&& i != j
    &&& mergeable(s[i], s[j])
}

pub open spec fn lex_before(i1: int, j1: int, i2: int, j2: int) -> bool {
    i1 < i2 || (i1 == i2 && j1 < j2)
}

/// `(i, j)` is the mergeable pair that comes first in lexicographic order.
pub open spec fn first_pair(s: Seq<Segment>, i: int, j: int) -> bool {
    &&& is_pair(s, i, j)
    &&& forall|a: int, b: int| #[trigger] is_pair(s, a, b) ==> !lex_before(a, b, i, j)
}

pub open spec fn no_mergeable_pair(s: Seq<Segment>) -> bool {
    forall|i: int, j: int| !#[trigger] is_pair(s, i, j)
}

/// Removes the segments at `i` and `j` (the others keep their order) and
/// appends the segment that joins them.
pub open spec fn merge_at(s: Seq<Segment>, i: int, j: int) -> Seq<Segment> {
    let lo = if i < j { i } else { j };
    let hi = if i < j { j } else { i };
    s.remove(hi).remove(lo).push(joined(s[i], s[j]))
}

/// Merges the first mergeable pair until none is left.
pub open spec fn merge_all(s: Seq<Segment>) -> Seq<Segment>
    decreases s.len(),
{
    if exists|p: (int, int)| first_pair(s, p.0, p.1) {
        let p = choose|p: (int, int)| first_pair(s, p.0, p.1);
        merge_all(merge_at(s, p.0, p.1))
    } else {
        s
    }
}

pub open spec fn is_endpoint_of(s: Seq<Segment>, p: Point) -> bool {
    exists|m: int| 0 <= m < s.len() && (#[trigger] s[m].start == p || s[m].end == p)
}

pub open spec fn endpoints_from(r: Seq<Segment>, s: Seq<Segment>) -> bool {
    forall|k: int|
        0 <= k < r.len() ==> is_endpoint_of(s, #[trigger] r[k].start) && is_endpoint_of(s, r[k].end)
}

pub open spec fn all_in_range(s: Seq<Segment>) -> bool {
    forall|k: int| 0 <= k < s.len() ==> segment_in_range(#[trigger] s[k])
}

proof fn lemma_first_pair_unique(s: Seq<Segment>, i: int, j: int, a: int, b: int)
    requires
        first_pair(s, i, j),
        first_pair(s, a, b),
    ensures
        i == a && j == b,
{
    assert(!lex_before(a, b, i, j));
    assert(!lex_before(i, j, a, b));
}

fn same_point(p: Point, q: Point) -> (r: bool)
    ensures
        r == (p == q),
{
    p.x == q.x && p.y == q.y
}

/// Whether `a` and `b` meet in exactly one endpoint along a common line.
pub fn is_mergeable(a: Segment, b: Segment) -> (r: bool)
    requires
        segment_in_range(a),
        segment_in_range(b),
    ensures
        r == mergeable(a, b),
{
    if same_point(a.start, a.end) || same_point(b.start, b.end) {
        return false;
    }
    let mut shared: u8 = 0;
    if same_point(a.start, b.start) {
        shared = shared + 1;
    }
    if same_point(a.start, b.end) {
        shared = shared + 1;
    }
    if same_point(a.end, b.start) {
        shared = shared + 1;
    }
    if same_point(a.end, b.end) {
        shared = shared + 1;
    }
    if shared != 1 {
        return false;
    }
    let c = cross_product(
        a.end.x - a.start.x,
        a.end.y - a.start.y,
        b.end.x - b.start.x,
        b.end.y - b.start.y,
    );
    c == 0
}

fn join(a: Segment, b: Segment) -> (r: Segment)
    ensures
        r == joined(a, b),
{
    if same_point(a.start, b.start) {
        Segment { start: a.end, end: b.end }
    } else if same_point(a.start, b.end) {
        Segment { start: a.end, end: b.start }
    } else if same_point(a.end, b.start) {
        Segment { start: a.start, end: b.end }
    } else {
        Segment { start: a.start, end: b.start }
    }
}

/// The first mergeable pair in lexicographic order of indices, if any.
pub fn find_pair(edges: &Vec<Segment>) -> (r: Option<(usize, usize)>)
    requires
        all_in_range(edges@),
    ensures
        match r {
            Some(p) => first_pair(edges@, p.0 as int, p.1 as int),
            None => no_mergeable_pair(edges@),
        },
{
    let n = edges.len();
    let mut i: usize = 0;
    while i < n
        invariant
            n == edges@.len(),
            all_in_range(edges@),
            i <= n,
            forall|a: int, b: int| 0 <= a < i ==> !#[trigger] is_pair(edges@, a, b),
        decreases n - i,
    {
        let mut j: usize = 0;
        while j < n
            invariant
                n == edges@.len(),
                all_in_range(edges@),
                i < n,
                j <= n,
                forall|a: int, b: int| 0 <= a < i ==> !#[trigger] is_pair(edges@, a, b),
                forall|b: int| 0 <= b < j ==> !#[trigger] is_pair(edges@, i as int, b),
            decreases n - j,
        {
            if i != j && is_mergeable(edges[i], edges[j]) {
                assert(is_pair(edges@, i as int, j as int));
                return Some((i, j));
            }
            j = j + 1;
        }
        i = i + 1;
    }
    None
}

pub(crate) proof fn lemma_merge_at_facts(s: Seq<Segment>, i: int, j: int)
    requires
        is_pair(s, i, j),
    ensures
        merge_at(s, i, j).len() == s.len() - 1,
        endpoints_from(merge_at(s, i, j), s),
        all_in_range(s) ==> all_in_range(merge_at(s, i, j)),
{
    let lo = if i < j { i } else { j };
    let hi = if i < j { j } else { i };
    let t = s.remove(hi).remove(lo);
    let r = merge_at(s, i, j);
    assert forall|k: int| 0 <= k < t.len() implies exists|m: int|
        0 <= m < s.len() && #[trigger] t[k] == s[m] by {
        if k < lo {
            assert(t[k] == s[k]);
        } else if k + 1 < hi {
            assert(t[k] == s[k + 1]);
        } else {
            assert(t[k] == s[k + 2]);
        }
    }
    assert forall|k: int| 0 <= k < r.len() implies is_endpoint_of(s, #[trigger] r[k].start)
        && is_endpoint_of(s, r[k].end) by {
        if k < t.len() {
            let m = choose|m: int| 0 <= m < s.len() && t[k] == s[m];
            assert(r[k] == s[m]);
        } else {
            assert(s[i].start == r[k].start || s[i].end == r[k].start);
            assert(s[j].start == r[k].end || s[j].end == r[k].end);
        }
    }
    if all_in_range(s) {
        assert forall|k: int| 0 <= k < r.len() implies segment_in_range(#[trigger] r[k]) by {
            if k < t.len() {
                let m = choose|m: int| 0 <= m < s.len() && t[k] == s[m];
                assert(r[k] == s[m]);
            } else {
                assert(segment_in_range(s[i]));
                assert(segment_in_range(s[j]));
            }
        }
    }
}

proof fn lemma_endpoint_trans(s: Seq<Segment>, o: Seq<Segment>, p: Point)
    requires
        is_endpoint_of(s, p),
        endpoints_from(s, o),
    ensures
        is_endpoint_of(o, p),
{
    let m = choose|m: int| 0 <= m < s.len() && (#[trigger] s[m].start == p || s[m].end == p);
    assert(is_endpoint_of(o, s[m].start) && is_endpoint_of(o, s[m].end));
}

proof fn lemma_endpoints_trans(r: Seq<Segment>, s: Seq<Segment>, o: Seq<Segment>)
    requires
        endpoints_from(r, s),
        endpoints_from(s, o),
    ensures
        endpoints_from(r, o),
{
    assert forall|k: int| 0 <= k < r.len() implies is_endpoint_of(o, #[trigger] r[k].start)
        && is_endpoint_of(o, r[k].end) by {
        lemma_endpoint_trans(s, o, r[k].start);
        lemma_endpoint_trans(s, o, r[k].end);
    }
}

/// Joins collinear edges that meet end to end, until no two edges share exactly
/// one endpoint along a common line.
pub fn merge_collinear(edges: Vec<Segment>) -> (r: Vec<Segment>)
    requires
        all_in_range(edges@),
    ensures
        r@ == merge_all(edges@),
        no_mergeable_pair(r@),
        r@.len() <= edges@.len(),
        endpoints_from(r@, edges@),
        all_in_range(r@),
{
    let ghost orig = edges@;
    let mut cur = edges;
    proof {
        assert forall|k: int| 0 <= k < cur@.len() implies is_endpoint_of(orig, #[trigger] cur@[k].start)
            && is_endpoint_of(orig, cur@[k].end) by {
            assert(orig[k] == cur@[k]);
        }
    }
    loop
        invariant
            orig == edges@,
            all_in_range(cur@),
            merge_all(cur@) == merge_all(orig),
            cur@.len() <= orig.len(),
            endpoints_from(cur@, orig),
        decreases cur@.len(),
    {
        match find_pair(&cur) {
            None => {
                assert(!exists|p: (int, int)| first_pair(cur@, p.0, p.1));
                assert(merge_all(cur@) == cur@);
                return cur;
            },
            Some(p) => {
                let (i, j) = p;
                let ghost before = cur@;
                proof {
                    let q = choose|q: (int, int)| first_pair(before, q.0, q.1);
                    lemma_first_pair_unique(before, i as int, j as int, q.0, q.1);
                    lemma_merge_at_facts(before, i as int, j as int);
                }
                let joined_edge = join(cur[i], cur[j]);
                let lo = if i < j { i } else { j };
                let hi = if i < j { j } else { i };
                cur.remove(hi);
                cur.remove(lo);
                cur.push(joined_edge);
                proof {
                    assert(cur@ =~= merge_at(before, i as int, j as int));
                    lemma_endpoints_trans(cur@, before, orig);
                }
            },
        }
    }
}

proof fn lemma_first_pair_exists(s: Seq<Segment>, i: int, j: int)
    requires
        is_pair(s, i, j),
    ensures
        exists|p: (int, int)| first_pair(s, p.0, p.1),
    decreases i * s.len() + j,
{
    if first_pair(s, i, j) {
        assert(first_pair(s, (i, j).0, (i, j).1));
    } else {
        assert(exists|a: int, b: int| #[trigger] is_pair(s, a, b) && lex_before(a, b, i, j));
        let (a, b) = choose|a: int, b: int| #[trigger] is_pair(s, a, b) && lex_before(a, b, i, j);
        let n = s.len() as int;
        assert(a * n + b < i * n + j) by (nonlinear_arith)
            requires
                0 <= a,
                0 <= b < n,
                0 <= j < n,
                a < i || (a == i && b < j),
        ;
        assert(0 <= a * n + b) by (nonlinear_arith)
            requires
                0 <= a,
                0 <= b,
                0 <= n,
        ;
        lemma_first_pair_exists(s, a, b);
    }
}

/// Merging reaches a fixed point: once `merge_all` is done, no two of the
/// remaining segments share exactly one endpoint while lying on a common line.
pub proof fn lemma_merge_fixed_point(s: Seq<Segment>)
    ensures
        no_mergeable_pair(merge_all(s)),
    decreases s.len(),
{
    if exists|p: (int, int)| first_pair(s, p.0, p.1) {
        let p = choose|p: (int, int)| first_pair(s, p.0, p.1);
        lemma_merge_at_facts(s, p.0, p.1);
        lemma_merge_fixed_point(merge_at(s, p.0, p.1));
    } else {
        assert forall|i: int, j: int| !#[trigger] is_pair(s, i, j) by {
            if is_pair(s, i, j) {
                lemma_first_pair_exists(s, i, j);
            }
        }
    }
}

} // verus!
