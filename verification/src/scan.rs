//! Scanline filling of a polygon: which pixels it covers, scanline by scanline.

use vstd::prelude::*;
use crate::active_edge_table::{
    AET, EDGE_MAX, STEP_MAX, EdgeEntry, PixelPos, Span, Table, lemma_slope_within, pair_pixels,
    positions, scanline, scanline_of, span_pixels, spans_pixels,
};
use crate::crossing::{
    CROSSING_MAX, edge_of, first_row, is_arrangement, lemma_covered_pixels_by_table,
    lemma_entry_within, lemma_table_on_scanline, lemma_vertex_order_arrangement, rises, starts_at,
    table_before, table_on,
};
use crate::fixed::{ONE, ceil_spec, floor_spec, lemma_div_monotone, within};
use crate::sorting::{
    is_insert_position, lemma_insert_sorted_at, lemma_stable_sort_properties, stable_sort,
};
use crate::vector::{Vec3, Vector};

verus! {

/// The vertex before vertex `p` on the way around a polygon of `n` vertices.
pub open spec fn previous_vertex(p: int, n: int) -> int {
    if p == 0 {
        n - 1
    } else {
        p - 1
    }
}

/// The vertex after vertex `p` on the way around a polygon of `n` vertices.
pub open spec fn next_vertex(p: int, n: int) -> int {
    if p == n - 1 {
        0
    } else {
        p + 1
    }
}

impl Table {
    /// The table after the edge from the vertex `current` to its neighbour
    /// `other` is looked at: an edge to a neighbour that lies as high or
    /// higher enters the table, an edge to a lower neighbour leaves it.
    pub open spec fn check_point(self, current: Vector, other: Vector, current_id: int, other_id: int) -> Table {
        if other.y >= current.y {
            self.add_edge(current, other, current_id, other_id)
        } else {
            self.remove_edge(current_id, other_id)
        }
    }

    /// The table after both edges of vertex `p` are looked at: first the edge
    /// to the vertex before it, then the edge to the vertex after it.
    pub open spec fn visit_vertex(self, polygon: Seq<Vector>, p: int) -> Table {
        let n = polygon.len() as int;
        let before = previous_vertex(p, n);
        let after = next_vertex(p, n);
        self.check_point(polygon[p], polygon[before], p, before).check_point(polygon[p], polygon[after], p, after)
    }

    /// The table after the first `count` vertices of `order` are gone
    /// through for scanline `y`: those that lie on the scanline before are
    /// visited.
    pub open spec fn visit_row(self, polygon: Seq<Vector>, order: Seq<int>, y: int, count: nat) -> Table
        decreases count,
    {
        if count == 0 {
            self
        } else {
            let t = self.visit_row(polygon, order, y, (count - 1) as nat);
            let p = order[count - 1];
            if scanline(polygon[p].y) == y - 1 {
                t.visit_vertex(polygon, p)
            } else {
                t
            }
        }
    }

    /// The table as scanline `y` is filled: the vertices of the scanline
    /// before are visited, and the edges are put in order.
    pub open spec fn prepare_row(self, polygon: Seq<Vector>, order: Seq<int>, y: int) -> Table {
        self.visit_row(polygon, order, y, order.len()).sort_by_x()
    }

    /// No stretch reaches further out than `b`.
    pub open spec fn spans_within(self, b: int) -> bool {
        forall|k: int| 0 <= k < self.spans.len() ==> within((#[trigger] self.spans[k]).x_start, b) && within(self.spans[k].x_end, b)
    }
}

/// The indices of the vertices in ascending order of their heights; vertices
/// of the same height in the order of the polygon.
pub open spec fn vertex_order(polygon: Seq<Vector>) -> Seq<int> {
    stable_sort(Seq::new(polygon.len(), |i: int| i), |i: int| polygon[i].y)
}

/// The pixels that the scanlines from `y` to `y_end` fill, starting with the
/// table `t`: each scanline is prepared and filled, then the crossings move
/// on.
pub open spec fn scan_rows(t: Table, polygon: Seq<Vector>, order: Seq<int>, y: int, y_end: int) -> Seq<(int, int)>
    decreases y_end - y + 1,
{
    if y > y_end {
        Seq::empty()
    } else {
        let row = t.prepare_row(polygon, order, y);
        row.line_pixels(y) + scan_rows(row.after_fill().update_x(), polygon, order, y + 1, y_end)
    }
}

/// The pixels that filling a polygon covers, in the order they are filled:
/// the scanlines from that of the lowest vertex to that of the highest are
/// gone through with an empty table to start with. Which pixels these are,
/// edge by edge and row by row, is shown in [`crate::crossing`].
pub open spec fn covered_pixels(polygon: Seq<Vector>) -> Seq<(int, int)> {
    let order = vertex_order(polygon);
    scan_rows(
        Table::empty(),
        polygon,
        order,
        scanline(polygon[order[0]].y),
        scanline(polygon[order[polygon.len() - 1]].y),
    )
}

/// The vectors that the vertices stand for.
pub open spec fn vectors(s: Seq<Vec3>) -> Seq<Vector> {
    s.map_values(|v: Vec3| v@)
}

/// The indices as mathematical integers.
pub open spec fn index_seq(s: Seq<usize>) -> Seq<int> {
    s.map_values(|i: usize| i as int)
}

/// Every vertex lies within `b`.
pub open spec fn all_bounded(polygon: Seq<Vector>, b: int) -> bool {
    forall|k: int| 0 <= k < polygon.len() ==> (#[trigger] polygon[k]).bounded(b)
}

/// Largest magnitude of the column or row of a pixel that a scan gives: a
/// round number above `CROSSING_MAX`, counted in pixels. A pixel within it,
/// a million times enlarged, fits 64 bits.
pub const PIXEL_MAX: i64 = 5_000_000_000_000;

/// The order of the vertices holds every index once, and the heights do not
/// fall along it.
pub proof fn lemma_vertex_order(polygon: Seq<Vector>)
    ensures
        vertex_order(polygon).len() == polygon.len(),
        forall|k: int| 0 <= k < polygon.len() ==> 0 <= #[trigger] vertex_order(polygon)[k] < polygon.len(),
        forall|i: int, j: int|
            0 <= i <= j < polygon.len() ==> polygon[vertex_order(polygon)[i]].y <= polygon[vertex_order(polygon)[j]].y,
        vertex_order(polygon).to_multiset() == Seq::new(polygon.len(), |i: int| i).to_multiset(),
{
    let ids = Seq::new(polygon.len(), |i: int| i);
    let key = |i: int| polygon[i].y;
    lemma_stable_sort_properties(ids, key);
    let order = vertex_order(polygon);
    assert forall|k: int| 0 <= k < polygon.len() implies 0 <= #[trigger] order[k] < polygon.len() by {
        assert(ids.contains(order[k]));
        let w = choose|w: int| 0 <= w < ids.len() && ids[w] == order[k];
    }
    assert forall|i: int, j: int| 0 <= i <= j < polygon.len() implies polygon[order[i]].y <= polygon[order[j]].y by {
        assert(key(order[i]) <= key(order[j]));
    }
}

/// Looking at an edge keeps the table within its bounds.
pub proof fn lemma_check_point_within(t: Table, current: Vector, other: Vector, current_id: int, other_id: int, bx: int)
    requires
        t.edges_within(bx, STEP_MAX as int),
        t.spans_within(EDGE_MAX as int),
        current.bounded(EDGE_MAX as int),
        other.bounded(EDGE_MAX as int),
        bx >= EDGE_MAX,
    ensures
        t.check_point(current, other, current_id, other_id).edges_within(bx, STEP_MAX as int),
        t.check_point(current, other, current_id, other_id).spans_within(EDGE_MAX as int),
{
    let r = t.check_point(current, other, current_id, other_id);
    if other.y >= current.y {
        if current.y != other.y {
            lemma_slope_within(current, other);
            assert forall|k: int| 0 <= k < r.edges.len() implies within((#[trigger] r.edges[k]).x, bx) && within(
                r.edges[k].x_diff,
                STEP_MAX as int,
            ) by {
                if k < t.edges.len() {
                    assert(r.edges[k] == t.edges[k]);
                }
            }
        } else {
            assert forall|k: int| 0 <= k < r.spans.len() implies within((#[trigger] r.spans[k]).x_start, EDGE_MAX as int)
                && within(r.spans[k].x_end, EDGE_MAX as int) by {
                if k < t.spans.len() {
                    assert(r.spans[k] == t.spans[k]);
                }
            }
        }
    } else {
        let keep = |e: EdgeEntry| !e.has_key(current_id, other_id);
        assert forall|k: int| 0 <= k < r.edges.len() implies within((#[trigger] r.edges[k]).x, bx) && within(
            r.edges[k].x_diff,
            STEP_MAX as int,
        ) by {
            assert(t.edges.filter(keep).contains(r.edges[k]));
            t.edges.lemma_filter_contains_rev(keep, r.edges[k]);
            let w = choose|w: int| 0 <= w < t.edges.len() && t.edges[w] == r.edges[k];
            assert(within(t.edges[w].x, bx));
        }
    }
}

/// Visiting a vertex keeps the table within its bounds.
pub proof fn lemma_visit_vertex_within(t: Table, polygon: Seq<Vector>, p: int, bx: int)
    requires
        t.edges_within(bx, STEP_MAX as int),
        t.spans_within(EDGE_MAX as int),
        all_bounded(polygon, EDGE_MAX as int),
        0 <= p < polygon.len(),
        bx >= EDGE_MAX,
    ensures
        t.visit_vertex(polygon, p).edges_within(bx, STEP_MAX as int),
        t.visit_vertex(polygon, p).spans_within(EDGE_MAX as int),
{
    let n = polygon.len() as int;
    let before = previous_vertex(p, n);
    let after = next_vertex(p, n);
    assert(polygon[p].bounded(EDGE_MAX as int));
    assert(polygon[before].bounded(EDGE_MAX as int));
    assert(polygon[after].bounded(EDGE_MAX as int));
    lemma_check_point_within(t, polygon[p], polygon[before], p, before, bx);
    lemma_check_point_within(t.check_point(polygon[p], polygon[before], p, before), polygon[p], polygon[after], p, after, bx);
}

/// Vertices that lie on the scanline or above it are not visited: going
/// through the order can stop at the first of them.
pub proof fn lemma_visit_row_rest(t: Table, polygon: Seq<Vector>, order: Seq<int>, y: int, from: nat, count: nat)
    requires
        from <= count <= order.len(),
        forall|k: int| from <= k < order.len() ==> scanline(polygon[#[trigger] order[k]].y) >= y,
    ensures
        t.visit_row(polygon, order, y, count) == t.visit_row(polygon, order, y, from),
    decreases count,
{
    if count > from {
        lemma_visit_row_rest(t, polygon, order, y, from, (count - 1) as nat);
        assert(scanline(polygon[order[count - 1]].y) >= y);
    }
}

/// Ordering the edges keeps the table within its bounds.
pub proof fn lemma_sort_within(t: Table, bx: int, bd: int)
    requires
        t.edges_within(bx, bd),
    ensures
        t.sort_by_x().edges_within(bx, bd),
        t.sort_by_x().edges.len() == t.edges.len(),
{
    let key = |e: EdgeEntry| e.x;
    lemma_stable_sort_properties(t.edges, key);
    let r = t.sort_by_x();
    assert forall|k: int| 0 <= k < r.edges.len() implies within((#[trigger] r.edges[k]).x, bx) && within(
        r.edges[k].x_diff,
        bd,
    ) by {
        assert(t.edges.contains(r.edges[k]));
        let w = choose|w: int| 0 <= w < t.edges.len() && t.edges[w] == r.edges[k];
        assert(within(t.edges[w].x, bx));
    }
}

/// The pixels between two coordinates lie between them.
pub proof fn lemma_span_pixels_within(a: int, b: int, row: int, bx: int)
    requires
        within(a, bx),
        within(b, bx),
    ensures
        forall|k: int|
            0 <= k < span_pixels(a, b, row).len() ==> {
                let q = #[trigger] span_pixels(a, b, row)[k];
                a <= q.0 * ONE <= b && within(q.0 * ONE, bx) && q.1 == row
            },
{
    let first = ceil_spec(a);
    let last = floor_spec(b);
    vstd::arithmetic::div_mod::lemma_fundamental_div_mod(a + ONE - 1, ONE as int);
    vstd::arithmetic::div_mod::lemma_fundamental_div_mod(b, ONE as int);
    assert forall|k: int| 0 <= k < span_pixels(a, b, row).len() implies ({
        let q = #[trigger] span_pixels(a, b, row)[k];
        a <= q.0 * ONE <= b && within(q.0 * ONE, bx) && q.1 == row
    }) by {
        let x = first + k;
        assert(first <= x <= last);
        assert(first * ONE <= x * ONE <= last * ONE) by (nonlinear_arith)
            requires
                first <= x <= last,
        ;
        assert(ONE * first == first * ONE && ONE * last == last * ONE) by (nonlinear_arith);
    }
}

/// The pixels of stretches within `bx` lie within `bx`, in row `row`.
pub proof fn lemma_spans_pixels_within(spans: Seq<Span>, row: int, bx: int)
    requires
        forall|k: int| 0 <= k < spans.len() ==> within((#[trigger] spans[k]).x_start, bx) && within(spans[k].x_end, bx),
    ensures
        forall|k: int|
            0 <= k < spans_pixels(spans, row).len() ==> {
                let q = #[trigger] spans_pixels(spans, row)[k];
                within(q.0 * ONE, bx) && q.1 == row
            },
    decreases spans.len(),
{
    if spans.len() > 0 {
        let rest = spans.drop_last();
        assert forall|k: int| 0 <= k < rest.len() implies within((#[trigger] rest[k]).x_start, bx) && within(
            rest[k].x_end,
            bx,
        ) by {
            assert(rest[k] == spans[k]);
        }
        lemma_spans_pixels_within(rest, row, bx);
        let last = spans.last();
        assert(last == spans[spans.len() - 1]);
        lemma_span_pixels_within(last.x_start, last.x_end, row, bx);
        let left = spans_pixels(rest, row);
        let right = span_pixels(last.x_start, last.x_end, row);
        assert forall|k: int| 0 <= k < spans_pixels(spans, row).len() implies ({
            let q = #[trigger] spans_pixels(spans, row)[k];
            within(q.0 * ONE, bx) && q.1 == row
        }) by {
            if k < left.len() {
                assert((left + right)[k] == left[k]);
            } else {
                assert((left + right)[k] == right[k - left.len()]);
            }
        }
    }
}

/// The pixels between edges within `bx` lie within `bx`, in row `row`.
pub proof fn lemma_pair_pixels_within(edges: Seq<EdgeEntry>, row: int, pairs: nat, bx: int)
    requires
        2 * pairs <= edges.len(),
        forall|k: int| 0 <= k < edges.len() ==> within((#[trigger] edges[k]).x, bx),
    ensures
        forall|k: int|
            0 <= k < pair_pixels(edges, row, pairs).len() ==> {
                let q = #[trigger] pair_pixels(edges, row, pairs)[k];
                within(q.0 * ONE, bx) && q.1 == row
            },
    decreases pairs,
{
    if pairs > 0 {
        lemma_pair_pixels_within(edges, row, (pairs - 1) as nat, bx);
        let a = edges[2 * (pairs - 1)];
        let b = edges[2 * (pairs - 1) + 1];
        lemma_span_pixels_within(a.x, b.x, row, bx);
        let left = pair_pixels(edges, row, (pairs - 1) as nat);
        let right = span_pixels(a.x, b.x, row);
        assert forall|k: int| 0 <= k < pair_pixels(edges, row, pairs).len() implies ({
            let q = #[trigger] pair_pixels(edges, row, pairs)[k];
            within(q.0 * ONE, bx) && q.1 == row
        }) by {
            if k < left.len() {
                assert((left + right)[k] == left[k]);
            } else {
                assert((left + right)[k] == right[k - left.len()]);
            }
        }
    }
}

/// The pixels of a scanline lie within the bounds of the table, in the row of
/// the scanline or in the row below.
pub proof fn lemma_line_pixels_within(t: Table, y: int, bx: int, bd: int)
    requires
        t.edges_within(bx, bd),
        t.spans_within(bx),
    ensures
        forall|k: int|
            0 <= k < t.line_pixels(y).len() ==> {
                let q = #[trigger] t.line_pixels(y)[k];
                within(q.0 * ONE, bx) && y - 1 <= q.1 <= y
            },
{
    lemma_spans_pixels_within(t.spans, y - 1, bx);
    lemma_pair_pixels_within(t.edges, y, (t.edges.len() / 2) as nat, bx);
    let left = spans_pixels(t.spans, y - 1);
    let right = pair_pixels(t.edges, y, (t.edges.len() / 2) as nat);
    assert forall|k: int| 0 <= k < t.line_pixels(y).len() implies ({
        let q = #[trigger] t.line_pixels(y)[k];
        within(q.0 * ONE, bx) && y - 1 <= q.1 <= y
    }) by {
        if k < left.len() {
            assert((left + right)[k] == left[k]);
        } else {
            assert((left + right)[k] == right[k - left.len()]);
        }
    }
}

/// The indices of the vertices in ascending order of their heights; vertices
/// of the same height stay in the order of the polygon.
pub fn sorted_vertex_indices(vertices: &Vec<Vec3>) -> (r: Vec<usize>)
    ensures
        index_seq(r@) == vertex_order(vectors(vertices@)),
        r@.len() == vertices@.len(),
        forall|k: int| 0 <= k < r@.len() ==> #[trigger] r@[k] < vertices@.len(),
{
    let ghost polygon = vectors(vertices@);
    let ghost key = |i: int| polygon[i].y;
    let ghost ids = Seq::new(polygon.len(), |i: int| i);
    let mut sorted: Vec<usize> = Vec::new();
    let mut i: usize = 0;
    proof {
        assert(ids.take(0) =~= Seq::empty());
        assert(index_seq(sorted@) =~= stable_sort(ids.take(0), key));
    }
    while i < vertices.len()
        invariant
            i <= vertices@.len(),
            polygon == vectors(vertices@),
            key == (|i: int| polygon[i].y),
            ids == Seq::new(polygon.len(), |i: int| i),
            sorted@.len() == i,
            forall|k: int| 0 <= k < sorted@.len() ==> #[trigger] sorted@[k] < vertices@.len(),
            index_seq(sorted@) == stable_sort(ids.take(i as int), key),
        decreases vertices@.len() - i,
    {
        let y: i64 = vertices[i].y;
        let ghost so_far = index_seq(sorted@);
        let mut pos: usize = sorted.len();
        while pos > 0 && vertices[sorted[pos - 1]].y > y
            invariant
                pos <= sorted@.len(),
                i < vertices@.len(),
                y == vertices@[i as int].y,
                polygon == vectors(vertices@),
                so_far == index_seq(sorted@),
                forall|k: int| 0 <= k < sorted@.len() ==> #[trigger] sorted@[k] < vertices@.len(),
                forall|k: int| pos <= k < sorted@.len() ==> polygon[#[trigger] so_far[k]].y > y,
            decreases pos,
        {
            pos = pos - 1;
        }
        proof {
            assert(is_insert_position(so_far, i as int, key, pos as int)) by {
                assert forall|k: int| pos <= k < so_far.len() implies key(#[trigger] so_far[k]) > key(i as int) by {
                    assert(polygon[so_far[k]].y > y);
                }
                if pos > 0 {
                    assert(so_far[pos - 1] == sorted@[pos - 1]);
                }
            }
            lemma_insert_sorted_at(so_far, i as int, key, pos as int);
            assert(ids.take(i + 1).drop_last() =~= ids.take(i as int));
            assert(ids.take(i + 1).last() == i);
        }
        sorted.insert(pos, i);
        proof {
            assert(index_seq(sorted@) =~= so_far.insert(pos as int, i as int));
        }
        i = i + 1;
    }
    proof {
        assert(ids.take(i as int) =~= ids);
    }
    sorted
}

/// Looks at the edge from the vertex `current_index` to its neighbour
/// `other_index`: the edge enters the table if the neighbour lies as high or
/// higher, and leaves it otherwise.
pub fn check_point(aet: &mut AET, current_index: usize, current_p: Vec3, other_index: usize, other_p: Vec3)
    requires
        current_p@.bounded(EDGE_MAX as int),
        other_p@.bounded(EDGE_MAX as int),
    ensures
        final(aet)@ == old(aet)@.check_point(current_p@, other_p@, current_index as int, other_index as int),
{
    if other_p.y >= current_p.y {
        aet.add_edge(current_p, other_p, current_index, other_index);
    } else {
        aet.remove_edge(current_index, other_index);
    }
}

/// Appends `more` to `out`.
fn append_pixels(out: &mut Vec<PixelPos>, more: Vec<PixelPos>)
    ensures
        final(out)@ == old(out)@ + more@,
        positions(final(out)@) == positions(old(out)@) + positions(more@),
{
    let ghost added = more@;
    let mut rest = more;
    out.append(&mut rest);
    assert(positions(out@) =~= positions(old(out)@) + positions(added));
}

/// The pixels that filling the polygon with these vertices covers, in the
/// order they are filled. A polygon has three vertices at least.
pub fn scan_polygon(vertices: &Vec<Vec3>) -> (r: Vec<PixelPos>)
    requires
        vertices@.len() >= 3,
        all_bounded(vectors(vertices@), EDGE_MAX as int),
    ensures
        positions(r@) == covered_pixels(vectors(vertices@)),
        forall|k: int| 0 <= k < r@.len() ==> within((#[trigger] r@[k]).x as int, PIXEL_MAX as int) && within(r@[k].y as int, PIXEL_MAX as int),
{
    let n: usize = vertices.len();
    let ghost polygon = vectors(vertices@);
    let ghost order = vertex_order(polygon);
    let sorted: Vec<usize> = sorted_vertex_indices(vertices);
    proof {
        lemma_vertex_order(polygon);
        lemma_vertex_order_arrangement(polygon);
        lemma_covered_pixels_by_table(polygon);
    }
    let mut rows: Vec<i64> = Vec::new();
    let mut k: usize = 0;
    while k < n
        invariant
            k <= n,
            n == vertices@.len(),
            sorted@.len() == n,
            polygon == vectors(vertices@),
            order == index_seq(sorted@),
            all_bounded(polygon, EDGE_MAX as int),
            forall|t: int| 0 <= t < n ==> #[trigger] sorted@[t] < n,
            rows@.len() == k,
            forall|t: int| 0 <= t < k ==> #[trigger] rows@[t] == scanline(polygon[order[t]].y),
            forall|t: int| 0 <= t < k ==> within(#[trigger] rows@[t] as int, 1_000_000),
        decreases n - k,
    {
        let v: Vec3 = vertices[sorted[k]];
        proof {
            assert(polygon[order[k as int]] == v@);
            assert(polygon[sorted@[k as int] as int].bounded(EDGE_MAX as int));
            lemma_div_monotone(v.y as int, EDGE_MAX as int, ONE as int);
            lemma_div_monotone(-EDGE_MAX as int, v.y as int, ONE as int);
        }
        rows.push(scanline_of(v.y));
        k = k + 1;
    }
    let y_min: i64 = rows[0];
    let y_max: i64 = rows[n - 1];
    let mut aet = AET::new();
    let mut out: Vec<PixelPos> = Vec::new();
    let mut y: i64 = y_min;
    proof {
        assert(positions(out@) =~= Seq::empty());
        assert(positions(out@) + scan_rows(aet@, polygon, order, y as int, y_max as int) =~= covered_pixels(polygon));
    }
    while y <= y_max
        invariant
            n == vertices@.len(),
            n >= 3,
            sorted@.len() == n,
            rows@.len() == n,
            polygon == vectors(vertices@),
            order == index_seq(sorted@),
            order == vertex_order(polygon),
            all_bounded(polygon, EDGE_MAX as int),
            forall|t: int| 0 <= t < n ==> #[trigger] sorted@[t] < n,
            forall|t: int| 0 <= t < n ==> #[trigger] rows@[t] == scanline(polygon[order[t]].y),
            forall|i: int, j: int| 0 <= i <= j < n ==> polygon[order[i]].y <= polygon[order[j]].y,
            within(y_min as int, 1_000_000),
            within(y_max as int, 1_000_000),
            y_min <= y,
            y <= y_max + 1 || y_max < y_min,
            y_min == first_row(polygon),
            is_arrangement(order, n as int),
            rises(polygon, order),
            starts_at(polygon, y_min as int),
            aet@ == table_before(polygon, order, y_min as int, y as int),
            aet@.edges_within(CROSSING_MAX as int, STEP_MAX as int),
            aet@.spans_within(EDGE_MAX as int),
            positions(out@) + scan_rows(aet@, polygon, order, y as int, y_max as int) == covered_pixels(polygon),
            forall|k: int| 0 <= k < out@.len() ==> within((#[trigger] out@[k]).x as int, PIXEL_MAX as int) && within(out@[k].y as int, PIXEL_MAX as int),
        decreases y_max - y + 1,
    {
        let ghost t0 = aet@;
        let ghost bx = CROSSING_MAX as int;
        let mut i: usize = 0;
        while i < n && rows[i] < y
            invariant
                i <= n,
                n == vertices@.len(),
                n >= 3,
                sorted@.len() == n,
                rows@.len() == n,
                polygon == vectors(vertices@),
                order == index_seq(sorted@),
                all_bounded(polygon, EDGE_MAX as int),
                forall|t: int| 0 <= t < n ==> #[trigger] sorted@[t] < n,
                forall|t: int| 0 <= t < n ==> #[trigger] rows@[t] == scanline(polygon[order[t]].y),
                within(y as int, 1_000_001),
                bx >= EDGE_MAX,
                aet@ == t0.visit_row(polygon, order, y as int, i as nat),
                aet@.edges_within(bx, STEP_MAX as int),
                aet@.spans_within(EDGE_MAX as int),
            decreases n - i,
        {
            if rows[i] == y - 1 {
                let p_index: usize = sorted[i];
                let p: Vec3 = vertices[p_index];
                // At this point we know p was on previous scan line
                // Check previous
                let previous_index: usize = if p_index == 0 {
                    n - 1
                } else {
                    p_index - 1
                };
                let previous_p: Vec3 = vertices[previous_index];
                // Check next
                let next_index: usize = if p_index == n - 1 {
                    0
                } else {
                    p_index + 1
                };
                let next_p: Vec3 = vertices[next_index];
                proof {
                    assert(polygon[p_index as int] == p@);
                    assert(polygon[previous_index as int] == previous_p@);
                    assert(polygon[next_index as int] == next_p@);
                    assert(p@.bounded(EDGE_MAX as int));
                    assert(previous_p@.bounded(EDGE_MAX as int));
                    assert(next_p@.bounded(EDGE_MAX as int));
                    assert(order[i as int] == p_index);
                    lemma_visit_vertex_within(aet@, polygon, p_index as int, bx);
                }
                check_point(&mut aet, p_index, p, previous_index, previous_p);
                check_point(&mut aet, p_index, p, next_index, next_p);
            }
            i = i + 1;
        }
        proof {
            assert forall|t: int| i <= t < order.len() implies scanline(polygon[#[trigger] order[t]].y) >= y by {
                assert(rows@[i as int] >= y);
                assert(polygon[order[i as int]].y <= polygon[order[t]].y);
                lemma_div_monotone(polygon[order[i as int]].y, polygon[order[t]].y, ONE as int);
            }
            lemma_visit_row_rest(t0, polygon, order, y as int, i as nat, n as nat);
            lemma_sort_within(aet@, bx, STEP_MAX as int);
            assert(aet@.sort_by_x().spans_within(bx));
            lemma_line_pixels_within(aet@.sort_by_x(), y as int, bx, STEP_MAX as int);
        }
        aet.sort_by_x();
        let ghost row = aet@;
        let filled: Vec<PixelPos> = aet.fill_line(y);
        proof {
            assert(row == t0.prepare_row(polygon, order, y as int));
            assert(row == table_on(polygon, order, y_min as int, y as int));
            lemma_table_on_scanline(polygon, order, y_min as int, y as int);
            assert forall|k: int| 0 <= k < filled@.len() implies within((#[trigger] filled@[k]).x as int, PIXEL_MAX as int)
                && within(filled@[k].y as int, PIXEL_MAX as int) by {
                let q = row.line_pixels(y as int)[k];
                assert(q == positions(filled@)[k]);
                assert(within(q.0 * ONE, bx));
                assert(within(q.0, PIXEL_MAX as int)) by (nonlinear_arith)
                    requires
                        within(q.0 * ONE, 5_000_000_000_000_000_000),
                ;
            }
        }
        let ghost before = out@;
        append_pixels(&mut out, filled);
        proof {
            assert(aet@ == row.after_fill());
            assert forall|k: int| 0 <= k < aet@.edges.len() implies within(
                (#[trigger] aet@.edges[k]).advanced().x,
                CROSSING_MAX as int,
            ) by {
                let e = row.edges[k];
                assert(aet@.edges[k] == e);
                lemma_entry_within(polygon, edge_of(e, n as int), y as int);
            }
        }
        aet.update_x();
        proof {
            let next = aet@;
            assert(next == row.after_fill().update_x());
            assert forall|k: int| 0 <= k < next.edges.len() implies within((#[trigger] next.edges[k]).x, bx) && within(
                next.edges[k].x_diff,
                STEP_MAX as int,
            ) by {
                let e = row.edges[k];
                assert(row.after_fill().edges[k] == e);
                assert(next.edges[k] == e.advanced());
                assert(within(e.advanced().x, CROSSING_MAX as int));
                assert(within(e.x_diff, STEP_MAX as int));
            }
            assert(next.spans =~= Seq::empty());
            assert(positions(before) + (row.line_pixels(y as int) + scan_rows(next, polygon, order, y + 1, y_max as int))
                =~= (positions(before) + row.line_pixels(y as int)) + scan_rows(next, polygon, order, y + 1, y_max as int));
        }
        y = y + 1;
    }
    proof {
        assert(scan_rows(aet@, polygon, order, y as int, y_max as int) =~= Seq::empty());
        assert(positions(out@) + Seq::empty() =~= positions(out@));
    }
    out
}

} // verus!
