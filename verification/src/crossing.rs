//! Which edges the active edge table holds on a scanline, and where each of
//! them crosses it.

use vstd::prelude::*;
use crate::fixed::{ONE, ceil_spec, floor_spec, lemma_div_exact, lemma_div_monotone, within};
use crate::active_edge_table::{
    EDGE_MAX, STEP_MAX, EdgeEntry, Span, Table, lemma_slope_within, max_of, min_of, pair_pixels,
    scanline, slope, span_pixels, spans_pixels,
};
use crate::scan::{
    PIXEL_MAX, all_bounded, covered_pixels, lemma_line_pixels_within, lemma_vertex_order,
    next_vertex, previous_vertex, scan_rows, vertex_order,
};
use crate::sorting::{
    is_sorted, lemma_filter_filter, lemma_filter_map_values, lemma_filter_stable_sort,
    lemma_stable_sort_properties, lemma_stable_sort_short,
};
use crate::vector::Vector;

verus! {

/// The entry is that of edge `i` of a polygon of `n` vertices: the edge from
/// vertex `i` to the vertex after it.
pub open spec fn is_entry_of(i: int, n: int) -> spec_fn(EdgeEntry) -> bool {
    |e: EdgeEntry| e.has_key(i, next_vertex(i, n))
}

/// The entries of edge `i` in the table.
pub open spec fn entries_of(t: Table, i: int, n: int) -> Seq<EdgeEntry> {
    t.edges.filter(is_entry_of(i, n))
}

/// The lower end of edge `i`; the vertex `i` if both ends lie at the same
/// height.
pub open spec fn lower_end(polygon: Seq<Vector>, i: int) -> int {
    let j = next_vertex(i, polygon.len() as int);
    if polygon[i].y <= polygon[j].y {
        i
    } else {
        j
    }
}

/// The upper end of edge `i`.
pub open spec fn upper_end(polygon: Seq<Vector>, i: int) -> int {
    let j = next_vertex(i, polygon.len() as int);
    if polygon[i].y <= polygon[j].y {
        j
    } else {
        i
    }
}

/// Both ends of edge `i` lie at the same height.
pub open spec fn is_level(polygon: Seq<Vector>, i: int) -> bool {
    polygon[i].y == polygon[next_vertex(i, polygon.len() as int)].y
}

/// The lower end of an edge lies on no higher a scanline than its upper end.
pub proof fn lemma_end_rows(polygon: Seq<Vector>, i: int)
    ensures
        vertex_row(polygon, lower_end(polygon, i)) <= vertex_row(polygon, upper_end(polygon, i)),
        polygon[lower_end(polygon, i)].y <= polygon[upper_end(polygon, i)].y,
        is_level(polygon, i) <==> polygon[lower_end(polygon, i)].y == polygon[upper_end(polygon, i)].y,
{
    lemma_div_monotone(polygon[lower_end(polygon, i)].y, polygon[upper_end(polygon, i)].y, ONE as int);
}

/// The scanline of vertex `v`.
pub open spec fn vertex_row(polygon: Seq<Vector>, v: int) -> int {
    scanline(polygon[v].y)
}

/// How far the crossing of edge `i` moves from one scanline to the next: the
/// width of the edge divided by its height, rounded down.
pub open spec fn edge_step(polygon: Seq<Vector>, i: int) -> int {
    slope(polygon[lower_end(polygon, i)], polygon[upper_end(polygon, i)])
}

/// Edge `i` is in the table when scanline `y` is filled: its lower end lies
/// on a scanline below, and its upper end on the scanline or above.
pub open spec fn edge_crosses(polygon: Seq<Vector>, i: int, y: int) -> bool {
    vertex_row(polygon, lower_end(polygon, i)) < y <= vertex_row(polygon, upper_end(polygon, i))
}

/// The entry of edge `i` when scanline `y` is filled: it started at its
/// lower end on the scanline after that of the end, and has moved by its
/// step on every scanline since.
pub open spec fn edge_entry(polygon: Seq<Vector>, i: int, y: int) -> EdgeEntry {
    let n = polygon.len() as int;
    let lo = lower_end(polygon, i);
    EdgeEntry {
        x: polygon[lo].x + (y - 1 - vertex_row(polygon, lo)) * edge_step(polygon, i),
        x_diff: edge_step(polygon, i),
        start: min_of(i, next_vertex(i, n)),
        end: max_of(i, next_vertex(i, n)),
    }
}

/// The entries of edge `i` that belong in the table when scanline `y` is
/// filled: its entry if it crosses, none if it does not.
pub open spec fn crossing(polygon: Seq<Vector>, i: int, y: int) -> Seq<EdgeEntry> {
    if edge_crosses(polygon, i, y) {
        seq![edge_entry(polygon, i, y)]
    } else {
        Seq::empty()
    }
}

/// The entries of an edge among those that are not of another edge are the
/// entries of the edge; among those that are not its own there is none.
pub proof fn lemma_without_edge(s: Seq<EdgeEntry>, a: int, b: int, i: int, n: int)
    ensures
        ({
            let left = s.filter(|e: EdgeEntry| !e.has_key(a, b)).filter(is_entry_of(i, n));
            if min_of(a, b) == min_of(i, next_vertex(i, n)) && max_of(a, b) == max_of(i, next_vertex(i, n)) {
                left == Seq::<EdgeEntry>::empty()
            } else {
                left == s.filter(is_entry_of(i, n))
            }
        }),
{
    let keep = |e: EdgeEntry| !e.has_key(a, b);
    let mine = is_entry_of(i, n);
    if min_of(a, b) == min_of(i, next_vertex(i, n)) && max_of(a, b) == max_of(i, next_vertex(i, n)) {
        let kept = s.filter(keep);
        assert forall|k: int| 0 <= k < kept.len() implies !mine(#[trigger] kept[k]) by {
            s.lemma_filter_pred(keep, k);
        }
        lemma_filter_none(kept, mine);
    } else {
        assert forall|e: EdgeEntry| #[trigger] mine(e) implies keep(e) by {}
        lemma_filter_filter(s, keep, mine);
    }
}

/// A filter that no element passes leaves nothing.
pub proof fn lemma_filter_none<T>(s: Seq<T>, pred: spec_fn(T) -> bool)
    requires
        forall|k: int| 0 <= k < s.len() ==> !pred(#[trigger] s[k]),
    ensures
        s.filter(pred) == Seq::<T>::empty(),
    decreases s.len(),
{
    reveal(Seq::filter);
    if s.len() > 0 {
        let rest = s.drop_last();
        assert forall|k: int| 0 <= k < rest.len() implies !pred(#[trigger] rest[k]) by {
            assert(rest[k] == s[k]);
        }
        lemma_filter_none(rest, pred);
        assert(!pred(s[s.len() - 1]));
    } else {
        assert(s.filter(pred) =~= Seq::<T>::empty());
    }
}

/// What looking at the edge from `current` to `other` does to the entries of
/// that edge: towards a higher neighbour the entry of the edge is added,
/// towards a neighbour at the same height nothing changes, and towards a
/// lower neighbour the entries are taken out.
pub open spec fn checked(entries: Seq<EdgeEntry>, current: Vector, other: Vector, current_id: int, other_id: int) -> Seq<
    EdgeEntry,
> {
    if other.y >= current.y {
        if current.y == other.y {
            entries
        } else {
            entries.push(
                EdgeEntry {
                    x: current.x,
                    x_diff: slope(current, other),
                    start: min_of(current_id, other_id),
                    end: max_of(current_id, other_id),
                },
            )
        }
    } else {
        Seq::empty()
    }
}

/// Looking at an edge changes the entries of that edge as `checked` says,
/// and leaves the entries of every other edge as they are.
pub proof fn lemma_check_point_entries(t: Table, current: Vector, other: Vector, a: int, b: int, i: int, n: int)
    ensures
        ({
            let after = entries_of(t.check_point(current, other, a, b), i, n);
            if min_of(a, b) == min_of(i, next_vertex(i, n)) && max_of(a, b) == max_of(i, next_vertex(i, n)) {
                after == checked(entries_of(t, i, n), current, other, a, b)
            } else {
                after == entries_of(t, i, n)
            }
        }),
{
    let mine = is_entry_of(i, n);
    if other.y >= current.y {
        if current.y != other.y {
            let added = t.add_edge(current, other, a, b);
            let entry = added.edges.last();
            assert(added.edges == t.edges.push(entry));
            t.edges.lemma_filter_push(entry, mine);
        }
    } else {
        lemma_without_edge(t.edges, a, b, i, n);
    }
}

/// Visiting vertex `p` looks at edge `i` once if the edge ends in `p`, and
/// leaves the entries of every other edge as they are.
pub proof fn lemma_visit_vertex_entries(t: Table, polygon: Seq<Vector>, p: int, i: int)
    requires
        polygon.len() >= 3,
        0 <= p < polygon.len(),
        0 <= i < polygon.len(),
    ensures
        ({
            let n = polygon.len() as int;
            let after = entries_of(t.visit_vertex(polygon, p), i, n);
            if i == previous_vertex(p, n) {
                after == checked(entries_of(t, i, n), polygon[p], polygon[i], p, i)
            } else if i == p {
                after == checked(entries_of(t, i, n), polygon[p], polygon[next_vertex(p, n)], p, next_vertex(p, n))
            } else {
                after == entries_of(t, i, n)
            }
        }),
{
    let n = polygon.len() as int;
    let before = previous_vertex(p, n);
    let after = next_vertex(p, n);
    let first = t.check_point(polygon[p], polygon[before], p, before);
    lemma_check_point_entries(t, polygon[p], polygon[before], p, before, i, n);
    lemma_check_point_entries(first, polygon[p], polygon[after], p, after, i, n);
}

/// Vertex `v` is among the first `count` vertices of the order.
pub open spec fn seen(order: Seq<int>, count: int, v: int) -> bool {
    exists|j: int| 0 <= j < count && #[trigger] order[j] == v
}

/// The order holds every vertex of a polygon of `n` vertices once.
pub open spec fn is_arrangement(order: Seq<int>, n: int) -> bool {
    &&& order.len() == n
    &&& forall|k: int| 0 <= k < n ==> 0 <= #[trigger] order[k] < n
    &&& forall|j: int, k: int| 0 <= j < k < n ==> order[j] != order[k]
    &&& forall|v: int| 0 <= v < n ==> seen(order, n, v)
}

/// Along the order the heights of the vertices do not fall.
pub open spec fn rises(polygon: Seq<Vector>, order: Seq<int>) -> bool {
    forall|j: int, k: int| 0 <= j <= k < polygon.len() ==> polygon[order[j]].y <= polygon[order[k]].y
}

/// Of two vertices of different height, the lower one stands in front of the
/// higher one in the order.
proof fn lemma_lower_first(polygon: Seq<Vector>, order: Seq<int>, count: int, low: int, high: int)
    requires
        is_arrangement(order, polygon.len() as int),
        rises(polygon, order),
        0 <= low < polygon.len(),
        0 <= high < polygon.len(),
        polygon[low].y < polygon[high].y,
        0 <= count <= polygon.len(),
    ensures
        seen(order, count, high) ==> seen(order, count, low),
{
    let n = polygon.len() as int;
    if seen(order, count, high) {
        let a = choose|a: int| 0 <= a < count && #[trigger] order[a] == high;
        assert(seen(order, n, low));
        let b = choose|b: int| 0 <= b < n && #[trigger] order[b] == low;
        if b >= a {
            assert(polygon[order[a]].y <= polygon[order[b]].y);
        }
        assert(0 <= b < count && order[b] == low);
    }
}

/// The entries of edge `i` after the first `count` vertices of the order
/// were gone through for scanline `y`. An edge that crossed the scanline
/// before is there, moved on by one step, until its upper end on the
/// scanline before is visited. An edge whose lower end lies on the scanline
/// before is there once that end is visited, and until its upper end is, if
/// that lies on the same scanline.
pub open spec fn entries_during(polygon: Seq<Vector>, order: Seq<int>, i: int, y: int, count: int) -> Seq<EdgeEntry> {
    let lo = lower_end(polygon, i);
    let hi = upper_end(polygon, i);
    let low_row = vertex_row(polygon, lo);
    let high_row = vertex_row(polygon, hi);
    let present = if is_level(polygon, i) {
        false
    } else if high_row == y - 1 {
        (low_row < y - 1 || seen(order, count, lo)) && !seen(order, count, hi)
    } else if low_row == y - 1 {
        seen(order, count, lo)
    } else {
        low_row < y - 1 < high_row
    };
    if present {
        seq![edge_entry(polygon, i, y)]
    } else {
        Seq::empty()
    }
}

/// Before a vertex is visited, the table holds the edges that crossed the
/// scanline before; after all are visited, those that cross the scanline.
pub proof fn lemma_entries_during_ends(polygon: Seq<Vector>, order: Seq<int>, i: int, y: int)
    requires
        polygon.len() >= 3,
        0 <= i < polygon.len(),
        is_arrangement(order, polygon.len() as int),
    ensures
        entries_during(polygon, order, i, y, 0) == if edge_crosses(polygon, i, y - 1) {
            seq![edge_entry(polygon, i, y)]
        } else {
            Seq::empty()
        },
        entries_during(polygon, order, i, y, polygon.len() as int) == crossing(polygon, i, y),
{
    let n = polygon.len() as int;
    lemma_end_rows(polygon, i);
    assert(seen(order, n, lower_end(polygon, i)));
    assert(seen(order, n, upper_end(polygon, i)));
}

/// An edge that starts on the scanline before starts at its lower end.
proof fn lemma_entry_at_start(polygon: Seq<Vector>, i: int, y: int)
    requires
        vertex_row(polygon, lower_end(polygon, i)) == y - 1,
    ensures
        edge_entry(polygon, i, y).x == polygon[lower_end(polygon, i)].x,
{
    assert(0 * edge_step(polygon, i) == 0);
}

/// Going through the first `count` vertices of the order changes the entries
/// of edge `i` as `entries_during` says.
pub proof fn lemma_visit_row_entries(t: Table, polygon: Seq<Vector>, order: Seq<int>, i: int, y: int, count: int)
    requires
        polygon.len() >= 3,
        0 <= i < polygon.len(),
        is_arrangement(order, polygon.len() as int),
        rises(polygon, order),
        0 <= count <= polygon.len(),
        entries_of(t, i, polygon.len() as int) == entries_during(polygon, order, i, y, 0),
    ensures
        entries_of(t.visit_row(polygon, order, y, count as nat), i, polygon.len() as int) == entries_during(
            polygon,
            order,
            i,
            y,
            count,
        ),
    decreases count,
{
    let n = polygon.len() as int;
    if count > 0 {
        lemma_visit_row_entries(t, polygon, order, i, y, count - 1);
        let t0 = t.visit_row(polygon, order, y, (count - 1) as nat);
        let p = order[count - 1];
        let lo = lower_end(polygon, i);
        let hi = upper_end(polygon, i);
        // whether a vertex other than `p` is seen does not change
        assert forall|v: int| v != p implies seen(order, count, v) == seen(order, count - 1, v) by {
            if seen(order, count, v) {
                let j = choose|j: int| 0 <= j < count && #[trigger] order[j] == v;
                assert(j < count - 1);
            }
            if seen(order, count - 1, v) {
                let j = choose|j: int| 0 <= j < count - 1 && #[trigger] order[j] == v;
                assert(0 <= j < count && order[j] == v);
            }
        }
        // `p` is seen now, and was not before
        assert(seen(order, count, p)) by {
            assert(order[count - 1] == p);
        }
        assert(!seen(order, count - 1, p)) by {
            if seen(order, count - 1, p) {
                let j = choose|j: int| 0 <= j < count - 1 && #[trigger] order[j] == p;
                assert(order[j] != order[count - 1]);
            }
        }
        lemma_end_rows(polygon, i);
        if !is_level(polygon, i) {
            lemma_lower_first(polygon, order, count, lo, hi);
            lemma_lower_first(polygon, order, count - 1, lo, hi);
        }
        if scanline(polygon[p].y) == y - 1 {
            lemma_visit_vertex_entries(t0, polygon, p, i);
            if i == previous_vertex(p, n) || i == p {
                if vertex_row(polygon, lo) == y - 1 {
                    lemma_entry_at_start(polygon, i, y);
                }
                assert(seq![edge_entry(polygon, i, y)] =~= Seq::<EdgeEntry>::empty().push(edge_entry(polygon, i, y)));
            }
        }
    }
}

/// The order of the vertices holds every vertex once, and the heights do not
/// fall along it.
pub proof fn lemma_vertex_order_arrangement(polygon: Seq<Vector>)
    ensures
        is_arrangement(vertex_order(polygon), polygon.len() as int),
        rises(polygon, vertex_order(polygon)),
{
    let n = polygon.len() as int;
    let order = vertex_order(polygon);
    let ids = Seq::new(polygon.len(), |i: int| i);
    lemma_vertex_order(polygon);
    assert(ids.no_duplicates());
    ids.lemma_multiset_has_no_duplicates();
    order.lemma_multiset_has_no_duplicates_conv();
    assert forall|v: int| 0 <= v < n implies seen(order, n, v) by {
        assert(ids[v] == v);
        assert(ids.contains(v));
        vstd::seq_lib::to_multiset_contains(ids, v);
        vstd::seq_lib::to_multiset_contains(order, v);
        let j = choose|j: int| 0 <= j < order.len() && order[j] == v;
        assert(0 <= j < n && order[j] == v);
    }
}

/// Ordering the edges of the table leaves the entries of an edge as they
/// are, if there is one at most.
pub proof fn lemma_sort_entries(t: Table, i: int, n: int)
    requires
        entries_of(t, i, n).len() <= 1,
    ensures
        entries_of(t.sort_by_x(), i, n) == entries_of(t, i, n),
{
    let key = |e: EdgeEntry| e.x;
    lemma_filter_stable_sort(t.edges, key, is_entry_of(i, n));
    lemma_stable_sort_short(entries_of(t, i, n), key);
}

/// Moving the table to the next scanline moves the entries of every edge.
pub proof fn lemma_update_entries(t: Table, i: int, n: int)
    ensures
        entries_of(t.update_x(), i, n) == entries_of(t, i, n).map_values(|e: EdgeEntry| e.advanced()),
        entries_of(t.after_fill(), i, n) == entries_of(t, i, n),
{
    let advance = |e: EdgeEntry| e.advanced();
    let mine = is_entry_of(i, n);
    assert forall|e: EdgeEntry| #[trigger] mine(advance(e)) == mine(e) by {}
    lemma_filter_map_values(t.edges, advance, mine);
}

/// The entry of an edge on a scanline, moved by its step, is its entry on
/// the next scanline.
pub proof fn lemma_entry_advanced(polygon: Seq<Vector>, i: int, y: int)
    ensures
        edge_entry(polygon, i, y).advanced() == edge_entry(polygon, i, y + 1),
{
    let step = edge_step(polygon, i);
    let k = y - 1 - vertex_row(polygon, lower_end(polygon, i));
    assert(k * step + step == (k + 1) * step) by (nonlinear_arith);
}

/// The table as the vertices are gone through for scanline `y`, for a scan
/// that starts on scanline `from` with an empty table.
pub open spec fn table_before(polygon: Seq<Vector>, order: Seq<int>, from: int, y: int) -> Table
    decreases y - from,
{
    if y <= from {
        Table::empty()
    } else {
        table_before(polygon, order, from, y - 1).prepare_row(polygon, order, y - 1).after_fill().update_x()
    }
}

/// The table as scanline `y` is filled.
pub open spec fn table_on(polygon: Seq<Vector>, order: Seq<int>, from: int, y: int) -> Table {
    table_before(polygon, order, from, y).prepare_row(polygon, order, y)
}

/// No vertex lies below scanline `from`.
pub open spec fn starts_at(polygon: Seq<Vector>, from: int) -> bool {
    forall|v: int| 0 <= v < polygon.len() ==> #[trigger] vertex_row(polygon, v) >= from
}

/// While a polygon of at least three vertices is filled, the table holds of
/// every edge exactly what crosses the scanline: one entry if the lower end
/// of the edge lies on a scanline below and its upper end on the scanline or
/// above, with the crossing where `edge_entry` says, and none otherwise.
pub proof fn lemma_entries_on_scanline(polygon: Seq<Vector>, order: Seq<int>, from: int, y: int, i: int)
    requires
        polygon.len() >= 3,
        0 <= i < polygon.len(),
        is_arrangement(order, polygon.len() as int),
        rises(polygon, order),
        starts_at(polygon, from),
        from <= y,
    ensures
        entries_of(table_before(polygon, order, from, y), i, polygon.len() as int) == entries_during(
            polygon,
            order,
            i,
            y,
            0,
        ),
        entries_of(table_on(polygon, order, from, y), i, polygon.len() as int) == crossing(polygon, i, y),
    decreases y - from,
{
    let n = polygon.len() as int;
    let before = table_before(polygon, order, from, y);
    lemma_entries_during_ends(polygon, order, i, y);
    assert(vertex_row(polygon, lower_end(polygon, i)) >= from);
    assert(vertex_row(polygon, upper_end(polygon, i)) >= from);
    if y <= from {
        lemma_filter_none(before.edges, is_entry_of(i, n));
    } else {
        lemma_entries_on_scanline(polygon, order, from, y - 1, i);
        let row = table_on(polygon, order, from, y - 1);
        lemma_update_entries(row, i, n);
        lemma_update_entries(row.after_fill(), i, n);
        lemma_entry_advanced(polygon, i, y - 1);
        let advance = |e: EdgeEntry| e.advanced();
        if edge_crosses(polygon, i, y - 1) {
            assert(seq![edge_entry(polygon, i, y - 1)].map_values(advance) =~= seq![edge_entry(polygon, i, y)]);
        } else {
            assert(Seq::<EdgeEntry>::empty().map_values(advance) =~= Seq::<EdgeEntry>::empty());
        }
    }
    lemma_visit_row_entries(before, polygon, order, i, y, n);
    lemma_sort_entries(before.visit_row(polygon, order, y, order.len()), i, n);
}

/// The pixels that the scanlines from `y` to `y_end` fill, by the table on
/// each of them.
pub open spec fn rows_pixels(polygon: Seq<Vector>, order: Seq<int>, from: int, y: int, y_end: int) -> Seq<(int, int)>
    decreases y_end - y + 1,
{
    if y > y_end {
        Seq::empty()
    } else {
        table_on(polygon, order, from, y).line_pixels(y) + rows_pixels(polygon, order, from, y + 1, y_end)
    }
}

/// A scan fills, scanline by scanline, what the table on each scanline
/// gives.
pub proof fn lemma_scan_rows_by_table(polygon: Seq<Vector>, order: Seq<int>, from: int, y: int, y_end: int)
    requires
        from <= y,
    ensures
        scan_rows(table_before(polygon, order, from, y), polygon, order, y, y_end) == rows_pixels(
            polygon,
            order,
            from,
            y,
            y_end,
        ),
    decreases y_end - y + 1,
{
    if y <= y_end {
        lemma_scan_rows_by_table(polygon, order, from, y + 1, y_end);
    }
}

/// The lowest scanline of a polygon: that of the first vertex of the order.
pub open spec fn first_row(polygon: Seq<Vector>) -> int {
    scanline(polygon[vertex_order(polygon)[0]].y)
}

/// The highest scanline of a polygon: that of the last vertex of the order.
pub open spec fn last_row(polygon: Seq<Vector>) -> int {
    scanline(polygon[vertex_order(polygon)[polygon.len() - 1]].y)
}

/// Filling a polygon gives, for every scanline from its lowest to its
/// highest, the pixels of the table on that scanline; and no vertex lies
/// below the lowest scanline or above the highest.
pub proof fn lemma_covered_pixels_by_table(polygon: Seq<Vector>)
    requires
        polygon.len() >= 1,
    ensures
        covered_pixels(polygon) == rows_pixels(
            polygon,
            vertex_order(polygon),
            first_row(polygon),
            first_row(polygon),
            last_row(polygon),
        ),
        starts_at(polygon, first_row(polygon)),
        forall|v: int| 0 <= v < polygon.len() ==> #[trigger] vertex_row(polygon, v) <= last_row(polygon),
{
    let order = vertex_order(polygon);
    let n = polygon.len() as int;
    lemma_scan_rows_by_table(polygon, order, first_row(polygon), first_row(polygon), last_row(polygon));
    lemma_vertex_order(polygon);
    lemma_vertex_order_arrangement(polygon);
    assert forall|v: int| 0 <= v < polygon.len() implies first_row(polygon) <= #[trigger] vertex_row(polygon, v)
        <= last_row(polygon) by {
        assert(seen(order, n, v));
        let j = choose|j: int| 0 <= j < n && #[trigger] order[j] == v;
        assert(polygon[order[0]].y <= polygon[order[j]].y);
        assert(polygon[order[j]].y <= polygon[order[n - 1]].y);
        crate::fixed::lemma_div_monotone(polygon[order[0]].y, polygon[v].y, crate::fixed::ONE as int);
        crate::fixed::lemma_div_monotone(polygon[v].y, polygon[order[n - 1]].y, crate::fixed::ONE as int);
    }
}

/// The edge that an entry belongs to, by the two vertices it joins.
pub open spec fn edge_of(e: EdgeEntry, n: int) -> int {
    if e.start == 0 && e.end == n - 1 {
        n - 1
    } else {
        e.start
    }
}

/// Every entry of the table is that of an edge of the polygon.
pub open spec fn holds_edges_only(t: Table, n: int) -> bool {
    forall|k: int|
        0 <= k < t.edges.len() ==> 0 <= edge_of(#[trigger] t.edges[k], n) < n && is_entry_of(edge_of(t.edges[k], n), n)(
            t.edges[k],
        )
}

/// Visiting a vertex brings no entries into the table but those of edges.
proof fn lemma_visit_vertex_holds_edges(t: Table, polygon: Seq<Vector>, p: int)
    requires
        polygon.len() >= 3,
        0 <= p < polygon.len(),
        holds_edges_only(t, polygon.len() as int),
    ensures
        holds_edges_only(t.visit_vertex(polygon, p), polygon.len() as int),
{
    let n = polygon.len() as int;
    let before = previous_vertex(p, n);
    let after = next_vertex(p, n);
    let first = t.check_point(polygon[p], polygon[before], p, before);
    lemma_check_point_holds_edges(t, polygon[p], polygon[before], p, before, n);
    lemma_check_point_holds_edges(first, polygon[p], polygon[after], p, after, n);
}

/// Looking at the edge between two neighbours brings no entries into the
/// table but those of edges.
proof fn lemma_check_point_holds_edges(t: Table, current: Vector, other: Vector, a: int, b: int, n: int)
    requires
        n >= 3,
        0 <= a < n,
        b == next_vertex(a, n) || b == previous_vertex(a, n),
        holds_edges_only(t, n),
    ensures
        holds_edges_only(t.check_point(current, other, a, b), n),
{
    let r = t.check_point(current, other, a, b);
    if other.y >= current.y {
        if scanline(current.y) != scanline(other.y) {
            assert forall|k: int| 0 <= k < r.edges.len() implies 0 <= edge_of(#[trigger] r.edges[k], n) < n && is_entry_of(
                edge_of(r.edges[k], n),
                n,
            )(r.edges[k]) by {
                if k < t.edges.len() {
                    assert(r.edges[k] == t.edges[k]);
                }
            }
        }
    } else {
        let keep = |e: EdgeEntry| !e.has_key(a, b);
        assert forall|k: int| 0 <= k < r.edges.len() implies 0 <= edge_of(#[trigger] r.edges[k], n) < n && is_entry_of(
            edge_of(r.edges[k], n),
            n,
        )(r.edges[k]) by {
            assert(t.edges.filter(keep).contains(r.edges[k]));
            t.edges.lemma_filter_contains_rev(keep, r.edges[k]);
            let w = choose|w: int| 0 <= w < t.edges.len() && t.edges[w] == r.edges[k];
            assert(0 <= edge_of(t.edges[w], n) < n);
        }
    }
}

/// Going through the vertices brings no entries into the table but those of
/// edges.
proof fn lemma_visit_row_holds_edges(t: Table, polygon: Seq<Vector>, order: Seq<int>, y: int, count: nat)
    requires
        polygon.len() >= 3,
        is_arrangement(order, polygon.len() as int),
        count <= polygon.len(),
        holds_edges_only(t, polygon.len() as int),
    ensures
        holds_edges_only(t.visit_row(polygon, order, y, count), polygon.len() as int),
    decreases count,
{
    if count > 0 {
        lemma_visit_row_holds_edges(t, polygon, order, y, (count - 1) as nat);
        let t0 = t.visit_row(polygon, order, y, (count - 1) as nat);
        let p = order[count - 1];
        if scanline(polygon[p].y) == y - 1 {
            lemma_visit_vertex_holds_edges(t0, polygon, p);
        }
    }
}

/// While a polygon is filled, the table holds no entries but those of edges,
/// and on every scanline they stand in the order of their crossings.
pub proof fn lemma_table_holds_edges(polygon: Seq<Vector>, order: Seq<int>, from: int, y: int)
    requires
        polygon.len() >= 3,
        is_arrangement(order, polygon.len() as int),
        from <= y,
    ensures
        holds_edges_only(table_before(polygon, order, from, y), polygon.len() as int),
        holds_edges_only(table_on(polygon, order, from, y), polygon.len() as int),
        is_sorted(table_on(polygon, order, from, y).edges, |e: EdgeEntry| e.x),
    decreases y - from,
{
    let n = polygon.len() as int;
    let before = table_before(polygon, order, from, y);
    if y > from {
        lemma_table_holds_edges(polygon, order, from, y - 1);
        let row = table_on(polygon, order, from, y - 1);
        assert forall|k: int| 0 <= k < before.edges.len() implies 0 <= edge_of(#[trigger] before.edges[k], n) < n
            && is_entry_of(edge_of(before.edges[k], n), n)(before.edges[k]) by {
            assert(before.edges[k] == row.edges[k].advanced());
            assert(0 <= edge_of(row.edges[k], n) < n);
        }
    }
    lemma_visit_row_holds_edges(before, polygon, order, y, order.len());
    let visited = before.visit_row(polygon, order, y, order.len());
    let key = |e: EdgeEntry| e.x;
    lemma_stable_sort_properties(visited.edges, key);
    let on = table_on(polygon, order, from, y);
    assert forall|k: int| 0 <= k < on.edges.len() implies 0 <= edge_of(#[trigger] on.edges[k], n) < n && is_entry_of(
        edge_of(on.edges[k], n),
        n,
    )(on.edges[k]) by {
        assert(visited.edges.contains(on.edges[k]));
        let w = choose|w: int| 0 <= w < visited.edges.len() && visited.edges[w] == on.edges[k];
        assert(0 <= edge_of(visited.edges[w], n) < n);
    }
}

/// On every scanline of a polygon of at least three vertices, the table is
/// made of the edges that cross the scanline: every entry is the entry of an
/// edge that crosses, every edge that crosses has its entry in the table,
/// once, and the entries stand in the order of their crossings.
pub proof fn lemma_table_on_scanline(polygon: Seq<Vector>, order: Seq<int>, from: int, y: int)
    requires
        polygon.len() >= 3,
        is_arrangement(order, polygon.len() as int),
        rises(polygon, order),
        starts_at(polygon, from),
        from <= y,
    ensures
        forall|k: int|
            0 <= k < table_on(polygon, order, from, y).edges.len() ==> {
                let e = #[trigger] table_on(polygon, order, from, y).edges[k];
                let i = edge_of(e, polygon.len() as int);
                0 <= i < polygon.len() && edge_crosses(polygon, i, y) && e == edge_entry(polygon, i, y)
            },
        forall|i: int|
            0 <= i < polygon.len() && edge_crosses(polygon, i, y) ==> table_on(polygon, order, from, y).edges.contains(
                #[trigger] edge_entry(polygon, i, y),
            ),
        forall|i: int|
            0 <= i < polygon.len() ==> #[trigger] entries_of(table_on(polygon, order, from, y), i, polygon.len() as int)
                == crossing(polygon, i, y),
        is_sorted(table_on(polygon, order, from, y).edges, |e: EdgeEntry| e.x),
{
    let n = polygon.len() as int;
    let on = table_on(polygon, order, from, y);
    lemma_table_holds_edges(polygon, order, from, y);
    assert forall|i: int| 0 <= i < polygon.len() implies #[trigger] entries_of(on, i, n) == crossing(polygon, i, y) by {
        lemma_entries_on_scanline(polygon, order, from, y, i);
    }
    assert forall|k: int| 0 <= k < on.edges.len() implies ({
        let e = #[trigger] on.edges[k];
        let i = edge_of(e, n);
        0 <= i < n && edge_crosses(polygon, i, y) && e == edge_entry(polygon, i, y)
    }) by {
        let e = on.edges[k];
        let i = edge_of(e, n);
        on.edges.lemma_filter_contains(is_entry_of(i, n), k);
        assert(entries_of(on, i, n) == crossing(polygon, i, y));
        let w = choose|w: int| 0 <= w < entries_of(on, i, n).len() && entries_of(on, i, n)[w] == e;
        assert(crossing(polygon, i, y)[w] == e);
    }
    assert forall|i: int| 0 <= i < polygon.len() && edge_crosses(polygon, i, y) implies on.edges.contains(
        #[trigger] edge_entry(polygon, i, y),
    ) by {
        let f = entries_of(on, i, n);
        assert(f == crossing(polygon, i, y));
        assert(f[0] == edge_entry(polygon, i, y));
        assert(f.contains(edge_entry(polygon, i, y)));
        on.edges.lemma_filter_contains_rev(is_entry_of(i, n), edge_entry(polygon, i, y));
    }
}

/// The column `x` lies between the fixed-point coordinates `a` and `b`.
pub open spec fn column_between(x: int, a: int, b: int) -> bool {
    a <= x * ONE <= b
}

/// A stretch holds the pixels of its row whose columns lie between its ends,
/// and no others.
pub proof fn lemma_span_pixels_contains(a: int, b: int, row: int, x: int, r: int)
    ensures
        span_pixels(a, b, row).contains((x, r)) <==> r == row && column_between(x, a, b),
{
    let first = ceil_spec(a);
    let last = floor_spec(b);
    let s = span_pixels(a, b, row);
    vstd::arithmetic::div_mod::lemma_fundamental_div_mod(a + ONE - 1, ONE as int);
    vstd::arithmetic::div_mod::lemma_fundamental_div_mod(b, ONE as int);
    if s.contains((x, r)) {
        let k = choose|k: int| 0 <= k < s.len() && s[k] == (x, r);
        assert(first <= x <= last);
        assert(first * ONE <= x * ONE <= last * ONE) by (nonlinear_arith)
            requires
                first <= x <= last,
        ;
        assert(ONE * first == first * ONE && ONE * last == last * ONE) by (nonlinear_arith);
    }
    if r == row && column_between(x, a, b) {
        lemma_div_monotone(x * ONE, b, ONE as int);
        lemma_div_exact(x, ONE as int);
        lemma_div_monotone(a + ONE - 1, x * ONE + ONE - 1, ONE as int);
        vstd::arithmetic::div_mod::lemma_fundamental_div_mod_converse(x * ONE + ONE - 1, ONE as int, x, ONE - 1);
        assert(first <= x <= last);
        assert(s[x - first] == (x, r));
    }
}

/// A pixel is among those of some stretches just if one of the stretches
/// holds it.
pub proof fn lemma_spans_pixels_contains(spans: Seq<Span>, row: int, x: int, r: int)
    ensures
        spans_pixels(spans, row).contains((x, r)) <==> r == row && exists|k: int|
            0 <= k < spans.len() && column_between(x, (#[trigger] spans[k]).x_start, spans[k].x_end),
    decreases spans.len(),
{
    if spans.len() > 0 {
        let rest = spans.drop_last();
        let last = spans.last();
        lemma_spans_pixels_contains(rest, row, x, r);
        lemma_span_pixels_contains(last.x_start, last.x_end, row, x, r);
        let left = spans_pixels(rest, row);
        let right = span_pixels(last.x_start, last.x_end, row);
        lemma_concat_contains(left, right, (x, r));
        if r == row && exists|k: int| 0 <= k < spans.len() && column_between(x, (#[trigger] spans[k]).x_start, spans[k].x_end) {
            let k = choose|k: int| 0 <= k < spans.len() && column_between(x, (#[trigger] spans[k]).x_start, spans[k].x_end);
            if k < rest.len() {
                assert(rest[k] == spans[k]);
            }
        }
        if left.contains((x, r)) {
            let k = choose|k: int| 0 <= k < rest.len() && column_between(x, (#[trigger] rest[k]).x_start, rest[k].x_end);
            assert(spans[k] == rest[k]);
        }
        if right.contains((x, r)) {
            assert(spans[spans.len() - 1] == last);
        }
    }
}

/// An element is in two sequences put together just if it is in one of
/// them.
pub proof fn lemma_concat_contains<T>(a: Seq<T>, b: Seq<T>, e: T)
    ensures
        (a + b).contains(e) <==> a.contains(e) || b.contains(e),
{
    if (a + b).contains(e) {
        let k = choose|k: int| 0 <= k < (a + b).len() && (a + b)[k] == e;
        if k < a.len() {
            assert(a[k] == e);
        } else {
            assert(b[k - a.len()] == e);
        }
    }
    if a.contains(e) {
        let k = choose|k: int| 0 <= k < a.len() && a[k] == e;
        assert((a + b)[k] == e);
    }
    if b.contains(e) {
        let k = choose|k: int| 0 <= k < b.len() && b[k] == e;
        assert((a + b)[k + a.len()] == e);
    }
}

/// The column `x` lies between the two edges of pair `k`.
pub open spec fn in_pair(edges: Seq<EdgeEntry>, k: int, x: int) -> bool {
    column_between(x, edges[2 * k].x, edges[2 * k + 1].x)
}

/// A pixel is among those of the first `pairs` pairs of edges just if it
/// lies between the edges of one of them.
pub proof fn lemma_pair_pixels_contains(edges: Seq<EdgeEntry>, row: int, pairs: nat, x: int, r: int)
    ensures
        pair_pixels(edges, row, pairs).contains((x, r)) <==> r == row && exists|k: int|
            0 <= k < pairs && #[trigger] in_pair(edges, k, x),
    decreases pairs,
{
    if pairs > 0 {
        lemma_pair_pixels_contains(edges, row, (pairs - 1) as nat, x, r);
        let a = edges[2 * (pairs - 1)].x;
        let b = edges[2 * (pairs - 1) + 1].x;
        lemma_span_pixels_contains(a, b, row, x, r);
        let left = pair_pixels(edges, row, (pairs - 1) as nat);
        let right = span_pixels(a, b, row);
        lemma_concat_contains(left, right, (x, r));
        if right.contains((x, r)) {
            assert(in_pair(edges, pairs - 1, x));
        }
        if left.contains((x, r)) {
            let k = choose|k: int| 0 <= k < pairs - 1 && #[trigger] in_pair(edges, k, x);
            assert(0 <= k < pairs && in_pair(edges, k, x));
        }
    }
}

/// What a scanline fills: in the row below, the columns of the stretches
/// that wait; in its own row, the columns between the edges of a pair.
pub open spec fn line_holds(t: Table, y: int, x: int, r: int) -> bool {
    ||| r == y - 1 && exists|k: int|
        0 <= k < t.spans.len() && column_between(x, (#[trigger] t.spans[k]).x_start, t.spans[k].x_end)
    ||| r == y && exists|k: int| 0 <= k < t.edges.len() / 2 && #[trigger] in_pair(t.edges, k, x)
}

/// A scanline fills the pixels that `line_holds` names, and no others.
pub proof fn lemma_line_pixels_contains(t: Table, y: int, x: int, r: int)
    ensures
        t.line_pixels(y).contains((x, r)) <==> line_holds(t, y, x, r),
{
    lemma_spans_pixels_contains(t.spans, y - 1, x, r);
    lemma_pair_pixels_contains(t.edges, y, (t.edges.len() / 2) as nat, x, r);
    lemma_concat_contains(
        spans_pixels(t.spans, y - 1),
        pair_pixels(t.edges, y, (t.edges.len() / 2) as nat),
        (x, r),
    );
}

/// The scanlines from `y` to `y_end` fill a pixel just if one of them does.
pub proof fn lemma_rows_pixels_contains(polygon: Seq<Vector>, order: Seq<int>, from: int, y: int, y_end: int, x: int, r: int)
    ensures
        rows_pixels(polygon, order, from, y, y_end).contains((x, r)) <==> exists|row: int|
            y <= row <= y_end && #[trigger] line_holds(table_on(polygon, order, from, row), row, x, r),
    decreases y_end - y + 1,
{
    if y <= y_end {
        lemma_rows_pixels_contains(polygon, order, from, y + 1, y_end, x, r);
        let t = table_on(polygon, order, from, y);
        lemma_line_pixels_contains(t, y, x, r);
        lemma_concat_contains(t.line_pixels(y), rows_pixels(polygon, order, from, y + 1, y_end), (x, r));
        if rows_pixels(polygon, order, from, y + 1, y_end).contains((x, r)) {
            let row = choose|row: int| y + 1 <= row <= y_end && #[trigger] line_holds(table_on(polygon, order, from, row), row, x, r);
            assert(y <= row <= y_end && line_holds(table_on(polygon, order, from, row), row, x, r));
        }
        if exists|row: int| y <= row <= y_end && #[trigger] line_holds(table_on(polygon, order, from, row), row, x, r) {
            let row = choose|row: int| y <= row <= y_end && #[trigger] line_holds(table_on(polygon, order, from, row), row, x, r);
            if row > y {
                assert(y + 1 <= row <= y_end && line_holds(table_on(polygon, order, from, row), row, x, r));
            }
        }
    }
}

/// The stretch between two vertices.
pub open spec fn stretch(a: Vector, b: Vector) -> Span {
    Span { x_start: min_of(a.x, b.x), x_end: max_of(a.x, b.x) }
}

/// The stretch that looking from `current` to `other` records: that between
/// them, if they lie at the same height.
pub open spec fn checked_spans(current: Vector, other: Vector) -> Seq<Span> {
    if other.y == current.y {
        seq![stretch(current, other)]
    } else {
        Seq::empty()
    }
}

/// The stretches that visiting vertex `p` records.
pub open spec fn vertex_spans(polygon: Seq<Vector>, p: int) -> Seq<Span> {
    let n = polygon.len() as int;
    checked_spans(polygon[p], polygon[previous_vertex(p, n)]) + checked_spans(polygon[p], polygon[next_vertex(p, n)])
}

/// The stretches that going through the first `count` vertices of the order
/// records for scanline `y`.
pub open spec fn row_spans(polygon: Seq<Vector>, order: Seq<int>, y: int, count: nat) -> Seq<Span>
    decreases count,
{
    if count == 0 {
        Seq::empty()
    } else {
        let rest = row_spans(polygon, order, y, (count - 1) as nat);
        let p = order[count - 1];
        if scanline(polygon[p].y) == y - 1 {
            rest + vertex_spans(polygon, p)
        } else {
            rest
        }
    }
}

/// Going through the vertices adds the stretches of the row to those of the
/// table.
pub proof fn lemma_visit_row_spans(t: Table, polygon: Seq<Vector>, order: Seq<int>, y: int, count: nat)
    ensures
        t.visit_row(polygon, order, y, count).spans == t.spans + row_spans(polygon, order, y, count),
    decreases count,
{
    if count == 0 {
        assert(t.spans + Seq::<Span>::empty() =~= t.spans);
    } else {
        lemma_visit_row_spans(t, polygon, order, y, (count - 1) as nat);
        let t0 = t.visit_row(polygon, order, y, (count - 1) as nat);
        let p = order[count - 1];
        let n = polygon.len() as int;
        if scanline(polygon[p].y) == y - 1 {
            let before = previous_vertex(p, n);
            let after = next_vertex(p, n);
            let first = t0.check_point(polygon[p], polygon[before], p, before);
            assert(first.spans =~= t0.spans + checked_spans(polygon[p], polygon[before]));
            let second = first.check_point(polygon[p], polygon[after], p, after);
            assert(second.spans =~= first.spans + checked_spans(polygon[p], polygon[after]));
            assert(second.spans =~= t.spans + (row_spans(polygon, order, y, (count - 1) as nat) + vertex_spans(polygon, p)));
        }
    }
}

/// When the vertices are gone through for a scanline, no stretch waits in
/// the table; when the scanline is filled, those of the row wait.
pub proof fn lemma_table_spans(polygon: Seq<Vector>, order: Seq<int>, from: int, y: int)
    ensures
        table_before(polygon, order, from, y).spans == Seq::<Span>::empty(),
        table_on(polygon, order, from, y).spans == row_spans(polygon, order, y, order.len()),
    decreases y - from,
{
    let before = table_before(polygon, order, from, y);
    if y > from {
        lemma_table_spans(polygon, order, from, y - 1);
    }
    lemma_visit_row_spans(before, polygon, order, y, order.len());
    assert(Seq::<Span>::empty() + row_spans(polygon, order, y, order.len()) =~= row_spans(polygon, order, y, order.len()));
}

/// Edge `i` is level and lies on scanline `row`.
pub open spec fn edge_lies_on(polygon: Seq<Vector>, i: int, row: int) -> bool {
    is_level(polygon, i) && vertex_row(polygon, i) == row
}

/// The stretch of edge `i`.
pub open spec fn edge_stretch(polygon: Seq<Vector>, i: int) -> Span {
    stretch(polygon[i], polygon[next_vertex(i, polygon.len() as int)])
}

/// The stretches recorded for a scanline are those of the level edges on the
/// scanline before.
pub proof fn lemma_row_spans_contains(polygon: Seq<Vector>, order: Seq<int>, y: int, count: nat, span: Span)
    requires
        polygon.len() >= 3,
        is_arrangement(order, polygon.len() as int),
        count <= polygon.len(),
    ensures
        row_spans(polygon, order, y, count).contains(span) ==> exists|i: int|
            0 <= i < polygon.len() && edge_lies_on(polygon, i, y - 1) && #[trigger] edge_stretch(polygon, i) == span,
        forall|i: int|
            0 <= i < polygon.len() && edge_lies_on(polygon, i, y - 1) && seen(order, count as int, i) && seen(
                order,
                count as int,
                next_vertex(i, polygon.len() as int),
            ) && #[trigger] edge_stretch(polygon, i) == span ==> row_spans(polygon, order, y, count).contains(span),
    decreases count,
{
    let n = polygon.len() as int;
    if count > 0 {
        lemma_row_spans_contains(polygon, order, y, (count - 1) as nat, span);
        let rest = row_spans(polygon, order, y, (count - 1) as nat);
        let p = order[count - 1];
        let before = previous_vertex(p, n);
        let after = next_vertex(p, n);
        let first = checked_spans(polygon[p], polygon[before]);
        let second = checked_spans(polygon[p], polygon[after]);
        if scanline(polygon[p].y) == y - 1 {
            lemma_concat_contains(rest, vertex_spans(polygon, p), span);
            lemma_concat_contains(first, second, span);
            if first.contains(span) {
                assert(first[0] == span);
                assert(edge_lies_on(polygon, before, y - 1) && edge_stretch(polygon, before) == span);
            }
            if second.contains(span) {
                assert(second[0] == span);
                assert(edge_lies_on(polygon, p, y - 1) && edge_stretch(polygon, p) == span);
            }
        }
        assert forall|i: int|
            0 <= i < polygon.len() && edge_lies_on(polygon, i, y - 1) && seen(order, count as int, i) && seen(
                order,
                count as int,
                next_vertex(i, n),
            ) && #[trigger] edge_stretch(polygon, i) == span implies row_spans(polygon, order, y, count).contains(span) by {
            let j = next_vertex(i, n);
            if seen(order, count - 1, i) && seen(order, count - 1, j) {
            } else {
                // one end of the edge is the vertex visited now; both ends are seen, so it is
                // the later of the two, and the stretch was recorded from the end that does
                // not lie higher
                let ki = choose|k: int| 0 <= k < count && #[trigger] order[k] == i;
                let kj = choose|k: int| 0 <= k < count && #[trigger] order[k] == j;
                if !seen(order, count - 1, i) {
                    assert(ki == count - 1);
                }
                if !seen(order, count - 1, j) {
                    assert(kj == count - 1);
                }
                lemma_edge_recorded(polygon, order, y, count, i, ki, kj);
            }
        }
    }
}

/// Once both ends of a level edge on the scanline before were visited, its
/// stretch is recorded.
proof fn lemma_edge_recorded(polygon: Seq<Vector>, order: Seq<int>, y: int, count: nat, i: int, ki: int, kj: int)
    requires
        polygon.len() >= 3,
        is_arrangement(order, polygon.len() as int),
        count <= polygon.len(),
        0 <= i < polygon.len(),
        edge_lies_on(polygon, i, y - 1),
        0 <= ki < count,
        0 <= kj < count,
        order[ki] == i,
        order[kj] == next_vertex(i, polygon.len() as int),
    ensures
        row_spans(polygon, order, y, count).contains(edge_stretch(polygon, i)),
{
    let n = polygon.len() as int;
    let j = next_vertex(i, n);
    let span = edge_stretch(polygon, i);
    if polygon[j].y >= polygon[i].y {
        // recorded when vertex `i` was visited, from `i` to the vertex after it
        let first = checked_spans(polygon[i], polygon[previous_vertex(i, n)]);
        let second = checked_spans(polygon[i], polygon[j]);
        assert(second[0] == span);
        assert(second.contains(span));
        lemma_concat_contains(first, second, span);
        lemma_recorded_at(polygon, order, y, count, ki, span);
    } else {
        // recorded when the vertex after `i` was visited, from it back to `i`
        assert(previous_vertex(j, n) == i);
        let first = checked_spans(polygon[j], polygon[i]);
        let second = checked_spans(polygon[j], polygon[next_vertex(j, n)]);
        assert(first[0] == span);
        assert(first.contains(span));
        lemma_concat_contains(first, second, span);
        lemma_recorded_at(polygon, order, y, count, kj, span);
    }
}

/// What the visit of the vertex at place `k` of the order records is among
/// the stretches of the row.
proof fn lemma_recorded_at(polygon: Seq<Vector>, order: Seq<int>, y: int, count: nat, k: int, span: Span)
    requires
        0 <= k < count,
        scanline(polygon[order[k]].y) == y - 1,
    ensures
        vertex_spans(polygon, order[k]).contains(span) ==> row_spans(polygon, order, y, count).contains(span),
    decreases count,
{
    let rest = row_spans(polygon, order, y, (count - 1) as nat);
    let p = order[count - 1];
    if scanline(polygon[p].y) == y - 1 {
        lemma_concat_contains(rest, vertex_spans(polygon, p), span);
    }
    if k < count - 1 {
        lemma_recorded_at(polygon, order, y, (count - 1) as nat, k, span);
    }
}

/// The table as scanline `y` of the polygon is filled.
pub open spec fn scanline_table(polygon: Seq<Vector>, y: int) -> Table {
    table_on(polygon, vertex_order(polygon), first_row(polygon), y)
}

/// The pixel in column `x` and row `r` lies on a level edge on a scanline
/// that is not the highest of the polygon.
pub open spec fn on_level_edge(polygon: Seq<Vector>, x: int, r: int) -> bool {
    r < last_row(polygon) && exists|i: int|
        0 <= i < polygon.len() && edge_lies_on(polygon, i, r) && column_between(
            x,
            (#[trigger] edge_stretch(polygon, i)).x_start,
            edge_stretch(polygon, i).x_end,
        )
}

/// The pixel in column `x` and row `r` lies between the crossings of a pair
/// of edges of the table on scanline `r`.
pub open spec fn between_crossings(polygon: Seq<Vector>, x: int, r: int) -> bool {
    first_row(polygon) <= r <= last_row(polygon) && exists|k: int|
        0 <= k < scanline_table(polygon, r).edges.len() / 2 && #[trigger] in_pair(scanline_table(polygon, r).edges, k, x)
}

/// Filling a polygon of at least three vertices covers a pixel just if the
/// pixel lies on a level edge below the highest scanline, or between the
/// crossings of a pair of edges on its scanline.
pub proof fn lemma_covered_pixels_contains(polygon: Seq<Vector>, x: int, r: int)
    requires
        polygon.len() >= 3,
    ensures
        covered_pixels(polygon).contains((x, r)) <==> on_level_edge(polygon, x, r) || between_crossings(polygon, x, r),
{
    let n = polygon.len() as int;
    let order = vertex_order(polygon);
    let first = first_row(polygon);
    let last = last_row(polygon);
    lemma_covered_pixels_by_table(polygon);
    lemma_vertex_order_arrangement(polygon);
    lemma_rows_pixels_contains(polygon, order, first, first, last, x, r);
    if covered_pixels(polygon).contains((x, r)) {
        let row = choose|row: int| first <= row <= last && #[trigger] line_holds(table_on(polygon, order, first, row), row, x, r);
        let t = table_on(polygon, order, first, row);
        lemma_table_spans(polygon, order, first, row);
        if r == row - 1 && exists|k: int| 0 <= k < t.spans.len() && column_between(x, (#[trigger] t.spans[k]).x_start, t.spans[k].x_end) {
            let k = choose|k: int| 0 <= k < t.spans.len() && column_between(x, (#[trigger] t.spans[k]).x_start, t.spans[k].x_end);
            assert(row_spans(polygon, order, row, order.len()).contains(t.spans[k]));
            lemma_row_spans_contains(polygon, order, row, order.len(), t.spans[k]);
            let i = choose|i: int|
                0 <= i < polygon.len() && edge_lies_on(polygon, i, row - 1) && #[trigger] edge_stretch(polygon, i) == t.spans[k];
            assert(on_level_edge(polygon, x, r));
        } else {
            assert(r == row);
            let k = choose|k: int| 0 <= k < t.edges.len() / 2 && #[trigger] in_pair(t.edges, k, x);
            assert(scanline_table(polygon, r) == t);
            assert(0 <= k < scanline_table(polygon, r).edges.len() / 2 && in_pair(scanline_table(polygon, r).edges, k, x));
            assert(between_crossings(polygon, x, r));
        }
    }
    if on_level_edge(polygon, x, r) {
        let i = choose|i: int|
            0 <= i < polygon.len() && edge_lies_on(polygon, i, r) && column_between(
                x,
                (#[trigger] edge_stretch(polygon, i)).x_start,
                edge_stretch(polygon, i).x_end,
            );
        let row = r + 1;
        assert(vertex_row(polygon, i) >= first);
        let t = table_on(polygon, order, first, row);
        lemma_table_spans(polygon, order, first, row);
        lemma_row_spans_contains(polygon, order, row, order.len(), edge_stretch(polygon, i));
        assert(seen(order, n, i));
        assert(seen(order, n, next_vertex(i, n)));
        assert(t.spans.contains(edge_stretch(polygon, i)));
        let k = choose|k: int| 0 <= k < t.spans.len() && t.spans[k] == edge_stretch(polygon, i);
        assert(column_between(x, t.spans[k].x_start, t.spans[k].x_end));
        assert(line_holds(t, row, x, r));
    }
    if between_crossings(polygon, x, r) {
        assert(line_holds(table_on(polygon, order, first, r), r, x, r));
    }
}

/// If at most one element passes a filter, two elements at different places
/// do not both pass.
pub proof fn lemma_filter_single<T>(s: Seq<T>, pred: spec_fn(T) -> bool, a: int, b: int)
    requires
        s.filter(pred).len() <= 1,
        0 <= a < b < s.len(),
    ensures
        !(pred(s[a]) && pred(s[b])),
    decreases s.len(),
{
    reveal(Seq::filter);
    let rest = s.drop_last();
    rest.lemma_filter_len(pred);
    if b == s.len() - 1 {
        if pred(s[a]) && pred(s[b]) {
            assert(rest[a] == s[a]);
            rest.lemma_filter_contains(pred, a);
            assert(rest.filter(pred).len() >= 1);
        }
    } else {
        assert(rest[a] == s[a] && rest[b] == s[b]);
        lemma_filter_single(rest, pred, a, b);
    }
}

/// Where just two edges cross a scanline, the table holds their two entries,
/// the one that crosses further left in front.
pub proof fn lemma_two_crossings(polygon: Seq<Vector>, y: int, i: int, j: int)
    requires
        polygon.len() >= 3,
        first_row(polygon) <= y,
        0 <= i < polygon.len(),
        0 <= j < polygon.len(),
        i != j,
        edge_crosses(polygon, i, y),
        edge_crosses(polygon, j, y),
        forall|k: int| 0 <= k < polygon.len() && k != i && k != j ==> !edge_crosses(polygon, k, y),
    ensures
        scanline_table(polygon, y).edges.len() == 2,
        scanline_table(polygon, y).edges[0].x == min_of(edge_entry(polygon, i, y).x, edge_entry(polygon, j, y).x),
        scanline_table(polygon, y).edges[1].x == max_of(edge_entry(polygon, i, y).x, edge_entry(polygon, j, y).x),
{
    let n = polygon.len() as int;
    let order = vertex_order(polygon);
    let t = scanline_table(polygon, y);
    lemma_vertex_order_arrangement(polygon);
    lemma_covered_pixels_by_table(polygon);
    lemma_table_on_scanline(polygon, order, first_row(polygon), y);
    let ei = edge_entry(polygon, i, y);
    let ej = edge_entry(polygon, j, y);
    assert(t.edges.contains(ei));
    assert(t.edges.contains(ej));
    let a = choose|a: int| 0 <= a < t.edges.len() && t.edges[a] == ei;
    let b = choose|b: int| 0 <= b < t.edges.len() && t.edges[b] == ej;
    assert(edge_of(ei, n) == i);
    assert(edge_of(ej, n) == j);
    assert(a != b);
    assert(entries_of(t, i, n) == crossing(polygon, i, y));
    assert(entries_of(t, j, n) == crossing(polygon, j, y));
    if t.edges.len() > 2 {
        let e0 = t.edges[0];
        let e1 = t.edges[1];
        let e2 = t.edges[2];
        let k0 = edge_of(e0, n);
        let k1 = edge_of(e1, n);
        let k2 = edge_of(e2, n);
        assert(k0 == i || k0 == j);
        assert(k1 == i || k1 == j);
        assert(k2 == i || k2 == j);
        lemma_filter_single(t.edges, is_entry_of(i, n), 0, 1);
        lemma_filter_single(t.edges, is_entry_of(i, n), 0, 2);
        lemma_filter_single(t.edges, is_entry_of(i, n), 1, 2);
        lemma_filter_single(t.edges, is_entry_of(j, n), 0, 1);
        lemma_filter_single(t.edges, is_entry_of(j, n), 0, 2);
        lemma_filter_single(t.edges, is_entry_of(j, n), 1, 2);
    }
    let key = |e: EdgeEntry| e.x;
    assert(key(t.edges[0]) <= key(t.edges[1]));
}

/// Of the three edges of a triangle, two cross every scanline above the
/// lowest up to the highest, and none crosses any other scanline.
pub proof fn lemma_triangle_crossings(polygon: Seq<Vector>, y: int)
    requires
        polygon.len() == 3,
    ensures
        first_row(polygon) < y <= last_row(polygon) ==> {
            let c0 = edge_crosses(polygon, 0, y);
            let c1 = edge_crosses(polygon, 1, y);
            let c2 = edge_crosses(polygon, 2, y);
            (c0 && c1 && !c2) || (c0 && c2 && !c1) || (c1 && c2 && !c0)
        },
        !(first_row(polygon) < y <= last_row(polygon)) ==> !edge_crosses(polygon, 0, y) && !edge_crosses(polygon, 1, y)
            && !edge_crosses(polygon, 2, y),
{
    lemma_covered_pixels_by_table(polygon);
    lemma_vertex_order(polygon);
    let order = vertex_order(polygon);
    assert(vertex_row(polygon, 0) >= first_row(polygon));
    assert(vertex_row(polygon, 1) >= first_row(polygon));
    assert(vertex_row(polygon, 2) >= first_row(polygon));
    assert(vertex_row(polygon, 0) <= last_row(polygon));
    assert(vertex_row(polygon, 1) <= last_row(polygon));
    assert(vertex_row(polygon, 2) <= last_row(polygon));
    assert(0 <= order[0] < 3);
    assert(0 <= order[2] < 3);
    assert(first_row(polygon) == vertex_row(polygon, order[0]));
    assert(last_row(polygon) == vertex_row(polygon, order[2]));
}

/// The two edges of a triangle that cross scanline `y`, the one with the
/// smaller number first.
pub open spec fn triangle_edges(polygon: Seq<Vector>, y: int) -> (int, int) {
    if !edge_crosses(polygon, 2, y) {
        (0, 1)
    } else if !edge_crosses(polygon, 1, y) {
        (0, 2)
    } else {
        (1, 2)
    }
}

/// Where the filled part of row `y` of a triangle begins: at the crossing
/// further left.
pub open spec fn triangle_left(polygon: Seq<Vector>, y: int) -> int {
    let (i, j) = triangle_edges(polygon, y);
    min_of(edge_entry(polygon, i, y).x, edge_entry(polygon, j, y).x)
}

/// Where the filled part of row `y` of a triangle ends: at the crossing
/// further right.
pub open spec fn triangle_right(polygon: Seq<Vector>, y: int) -> int {
    let (i, j) = triangle_edges(polygon, y);
    max_of(edge_entry(polygon, i, y).x, edge_entry(polygon, j, y).x)
}

/// Filling a triangle covers a pixel just if it lies on a level edge below
/// the highest scanline, or in a row above the lowest scanline up to the
/// highest between the two crossings of that row. The crossings of a row
/// are those of the edges with the scanline before: each edge starts at its
/// lower end one row above that end.
pub proof fn lemma_triangle_pixels(polygon: Seq<Vector>, x: int, r: int)
    requires
        polygon.len() == 3,
    ensures
        covered_pixels(polygon).contains((x, r)) <==> on_level_edge(polygon, x, r) || (first_row(polygon) < r <= last_row(
            polygon,
        ) && column_between(x, triangle_left(polygon, r), triangle_right(polygon, r))),
{
    lemma_covered_pixels_contains(polygon, x, r);
    lemma_triangle_crossings(polygon, r);
    let t = scanline_table(polygon, r);
    if first_row(polygon) < r <= last_row(polygon) {
        let (i, j) = triangle_edges(polygon, r);
        lemma_two_crossings(polygon, r, i, j);
        assert(t.edges.len() / 2 == 1);
        assert(in_pair(t.edges, 0, x) == column_between(x, triangle_left(polygon, r), triangle_right(polygon, r)));
        if between_crossings(polygon, x, r) {
            let k = choose|k: int| 0 <= k < t.edges.len() / 2 && #[trigger] in_pair(t.edges, k, x);
            assert(k == 0);
        }
    } else if first_row(polygon) <= r <= last_row(polygon) {
        lemma_vertex_order_arrangement(polygon);
        lemma_covered_pixels_by_table(polygon);
        lemma_table_on_scanline(polygon, vertex_order(polygon), first_row(polygon), r);
        if t.edges.len() > 0 {
            let e = t.edges[0];
            assert(edge_crosses(polygon, edge_of(e, 3), r));
        }
    }
}

/// The number of entries of the first `count` edges in the table.
pub open spec fn entries_count(t: Table, n: int, count: int) -> int
    decreases count,
{
    if count <= 0 {
        0
    } else {
        entries_count(t, n, count - 1) + entries_of(t, count - 1, n).len()
    }
}

/// The number of the first `count` edges that cross scanline `y`.
pub open spec fn crossing_count(polygon: Seq<Vector>, y: int, count: int) -> int
    decreases count,
{
    if count <= 0 {
        0
    } else {
        crossing_count(polygon, y, count - 1) + if edge_crosses(polygon, count - 1, y) {
            1int
        } else {
            0int
        }
    }
}

/// One more entry of edge `c` in the table is one more entry among those of
/// the edges up to `count`, if `c` is among them.
proof fn lemma_entries_count_push(edges: Seq<EdgeEntry>, e: EdgeEntry, n: int, count: int)
    requires
        n >= 3,
        0 <= count <= n,
        0 <= edge_of(e, n) < n,
        is_entry_of(edge_of(e, n), n)(e),
    ensures
        entries_count(Table { edges: edges.push(e), spans: Seq::empty() }, n, count) == entries_count(
            Table { edges, spans: Seq::empty() },
            n,
            count,
        ) + if edge_of(e, n) < count {
            1int
        } else {
            0int
        },
    decreases count,
{
    if count > 0 {
        lemma_entries_count_push(edges, e, n, count - 1);
        edges.lemma_filter_push(e, is_entry_of(count - 1, n));
    }
}

/// A table that holds entries of edges only holds as many entries as the
/// edges have in it together.
proof fn lemma_entries_count_all(edges: Seq<EdgeEntry>, n: int)
    requires
        n >= 3,
        forall|k: int|
            0 <= k < edges.len() ==> 0 <= edge_of(#[trigger] edges[k], n) < n && is_entry_of(edge_of(edges[k], n), n)(
                edges[k],
            ),
    ensures
        entries_count(Table { edges, spans: Seq::empty() }, n, n) == edges.len(),
    decreases edges.len(),
{
    if edges.len() == 0 {
        lemma_entries_count_none(edges, n, n);
    } else {
        let rest = edges.drop_last();
        assert forall|k: int| 0 <= k < rest.len() implies 0 <= edge_of(#[trigger] rest[k], n) < n && is_entry_of(
            edge_of(rest[k], n),
            n,
        )(rest[k]) by {
            assert(rest[k] == edges[k]);
        }
        lemma_entries_count_all(rest, n);
        assert(edges[edges.len() - 1] == edges.last());
        lemma_entries_count_push(rest, edges.last(), n, n);
        assert(rest.push(edges.last()) =~= edges);
    }
}

/// An empty table holds no entries.
proof fn lemma_entries_count_none(edges: Seq<EdgeEntry>, n: int, count: int)
    requires
        edges.len() == 0,
    ensures
        entries_count(Table { edges, spans: Seq::empty() }, n, count) == 0,
    decreases count,
{
    if count > 0 {
        lemma_entries_count_none(edges, n, count - 1);
        lemma_filter_none(edges, is_entry_of(count - 1, n));
    }
}

/// The entries of the edges in a table do not depend on its stretches.
proof fn lemma_entries_count_edges(t: Table, n: int, count: int)
    ensures
        entries_count(t, n, count) == entries_count(Table { edges: t.edges, spans: Seq::empty() }, n, count),
    decreases count,
{
    if count > 0 {
        lemma_entries_count_edges(t, n, count - 1);
    }
}

/// Vertex `v` lies below scanline `y`.
pub open spec fn lies_below(polygon: Seq<Vector>, v: int, y: int) -> bool {
    vertex_row(polygon, v) < y
}

/// Along the vertices from the first to vertex `k`, the side of the scanline
/// changes an even number of times just if vertex `k` lies on the side of
/// the first vertex.
proof fn lemma_crossings_along(polygon: Seq<Vector>, y: int, k: int)
    requires
        polygon.len() >= 3,
        0 <= k < polygon.len(),
    ensures
        (crossing_count(polygon, y, k) % 2 == 0) == (lies_below(polygon, 0, y) == lies_below(polygon, k, y)),
        crossing_count(polygon, y, k) >= 0,
    decreases k,
{
    if k > 0 {
        lemma_crossings_along(polygon, y, k - 1);
        assert(next_vertex(k - 1, polygon.len() as int) == k);
    }
}

/// The number of edges of a polygon that cross a scanline is even: going
/// around the polygon, the side of the scanline changes as often one way as
/// the other.
pub proof fn lemma_crossing_count_even(polygon: Seq<Vector>, y: int)
    requires
        polygon.len() >= 3,
    ensures
        crossing_count(polygon, y, polygon.len() as int) % 2 == 0,
{
    let n = polygon.len() as int;
    lemma_crossings_along(polygon, y, n - 1);
    assert(next_vertex(n - 1, n) == 0);
}

/// The table on a scanline holds as many entries as edges cross the
/// scanline.
proof fn lemma_entries_count_crossing(polygon: Seq<Vector>, y: int, count: int)
    requires
        polygon.len() >= 3,
        first_row(polygon) <= y,
        0 <= count <= polygon.len(),
    ensures
        entries_count(scanline_table(polygon, y), polygon.len() as int, count) == crossing_count(polygon, y, count),
    decreases count,
{
    if count > 0 {
        lemma_entries_count_crossing(polygon, y, count - 1);
        lemma_vertex_order_arrangement(polygon);
        lemma_covered_pixels_by_table(polygon);
        lemma_entries_on_scanline(polygon, vertex_order(polygon), first_row(polygon), y, count - 1);
    }
}

/// On every scanline of a polygon of at least three vertices the table holds
/// an even number of edges, as many as cross the scanline: the pairs use up
/// every edge.
pub proof fn lemma_table_length_even(polygon: Seq<Vector>, y: int)
    requires
        polygon.len() >= 3,
        first_row(polygon) <= y,
    ensures
        scanline_table(polygon, y).edges.len() == crossing_count(polygon, y, polygon.len() as int),
        scanline_table(polygon, y).edges.len() % 2 == 0,
{
    let n = polygon.len() as int;
    let t = scanline_table(polygon, y);
    lemma_vertex_order_arrangement(polygon);
    lemma_table_holds_edges(polygon, vertex_order(polygon), first_row(polygon), y);
    lemma_entries_count_edges(t, n, n);
    assert forall|k: int| 0 <= k < t.edges.len() implies 0 <= edge_of(#[trigger] t.edges[k], n) < n && is_entry_of(
        edge_of(t.edges[k], n),
        n,
    )(t.edges[k]) by {}
    lemma_entries_count_all(t.edges, n);
    lemma_entries_count_crossing(polygon, y, n);
    lemma_crossing_count_even(polygon, y);
}

/// Largest magnitude of a crossing of an edge between bounded ends: the
/// lower end and one step (`lemma_steps_within`).
pub const CROSSING_MAX: i64 = 2_000_001_000_000_000_000;

/// An edge that is followed from its lower end for no more scanlines than it
/// rises stays within bounds: where it rises by less than a scanline, it is
/// followed for one step at most, and where it rises by more, its steps add
/// up to little more than its width.
pub proof fn lemma_steps_within(lower: Vector, upper: Vector, k: int)
    requires
        lower.bounded(EDGE_MAX as int),
        upper.bounded(EDGE_MAX as int),
        lower.y < upper.y,
        0 <= k <= scanline(upper.y) - scanline(lower.y),
    ensures
        within(lower.x + k * slope(lower, upper), CROSSING_MAX as int),
        within(slope(lower, upper), STEP_MAX as int),
{
    let dx = upper.x - lower.x;
    let dy = upper.y - lower.y;
    let q = slope(lower, upper);
    let a = k * q;
    lemma_slope_within(lower, upper);
    if k <= 1 {
        assert(a == 0 || a == q) by (nonlinear_arith)
            requires
                a == k * q,
                0 <= k <= 1,
        ;
    } else {
        vstd::arithmetic::div_mod::lemma_fundamental_div_mod(upper.y, ONE as int);
        vstd::arithmetic::div_mod::lemma_fundamental_div_mod(lower.y, ONE as int);
        vstd::arithmetic::div_mod::lemma_fundamental_div_mod(dx * ONE, dy);
        lemma_div_monotone(upper.y, EDGE_MAX as int, ONE as int);
        lemma_div_monotone(-(EDGE_MAX as int), lower.y, ONE as int);
        let r = (dx * ONE) % dy;
        let m = k * ONE;
        let d = 2 * EDGE_MAX;
        assert(m < 2 * dy);
        assert(k <= 2_000_001);
        assert(dy * a == m * dx - k * r) by (nonlinear_arith)
            requires
                dx * ONE == dy * q + r,
                a == k * q,
                m == k * ONE,
        ;
        assert(-(2 * dy * d) <= m * dx <= 2 * dy * d) by (nonlinear_arith)
            requires
                0 <= m < 2 * dy,
                -d <= dx <= d,
        ;
        assert(0 <= k * r <= k * dy) by (nonlinear_arith)
            requires
                0 <= r < dy,
                k >= 0,
        ;
        assert(-(2 * d + k) <= a <= 2 * d) by (nonlinear_arith)
            requires
                dy > 0,
                dy * a <= 2 * dy * d,
                dy * a >= -(2 * dy * d) - k * dy,
        ;
    }
}

/// The entry of an edge that crosses a scanline, and the entry moved to the
/// next scanline, lie within bounds.
pub proof fn lemma_entry_within(polygon: Seq<Vector>, i: int, y: int)
    requires
        polygon.len() >= 1,
        0 <= i < polygon.len(),
        all_bounded(polygon, EDGE_MAX as int),
        edge_crosses(polygon, i, y),
    ensures
        within(edge_entry(polygon, i, y).x, CROSSING_MAX as int),
        within(edge_entry(polygon, i, y).x_diff, STEP_MAX as int),
        within(edge_entry(polygon, i, y).advanced().x, CROSSING_MAX as int),
{
    let lo = lower_end(polygon, i);
    let hi = upper_end(polygon, i);
    lemma_end_rows(polygon, i);
    assert(polygon[lo].bounded(EDGE_MAX as int));
    assert(polygon[hi].bounded(EDGE_MAX as int));
    let k = y - 1 - vertex_row(polygon, lo);
    lemma_steps_within(polygon[lo], polygon[hi], k);
    lemma_steps_within(polygon[lo], polygon[hi], k + 1);
    lemma_entry_advanced(polygon, i, y);
}

/// Edge `i` of the polygon `p` and edge `j` of the polygon `q` join the same
/// two points.
pub open spec fn same_edge(p: Seq<Vector>, i: int, q: Seq<Vector>, j: int) -> bool {
    let a = p[i];
    let b = p[next_vertex(i, p.len() as int)];
    let c = q[j];
    let d = q[next_vertex(j, q.len() as int)];
    (a == c && b == d) || (a == d && b == c)
}

/// Two edges that join the same two points cross the same scanlines at the
/// same places, and are level together, with the same stretch.
pub proof fn lemma_same_edge(p: Seq<Vector>, i: int, q: Seq<Vector>, j: int, y: int)
    requires
        same_edge(p, i, q, j),
    ensures
        edge_crosses(p, i, y) == edge_crosses(q, j, y),
        edge_crosses(p, i, y) ==> edge_entry(p, i, y).x == edge_entry(q, j, y).x,
        is_level(p, i) == is_level(q, j),
        is_level(p, i) ==> edge_stretch(p, i) == edge_stretch(q, j) && vertex_row(p, i) == vertex_row(q, j),
{
    lemma_end_rows(p, i);
    lemma_end_rows(q, j);
}

/// The polygon `q` has the corners of the triangle `p`, in some order.
pub open spec fn same_corners(p: Seq<Vector>, q: Seq<Vector>) -> bool {
    &&& p.len() == 3
    &&& q.len() == 3
    &&& {
        ||| (q[0] == p[0] && q[1] == p[1] && q[2] == p[2])
        ||| (q[0] == p[1] && q[1] == p[2] && q[2] == p[0])
        ||| (q[0] == p[2] && q[1] == p[0] && q[2] == p[1])
        ||| (q[0] == p[0] && q[1] == p[2] && q[2] == p[1])
        ||| (q[0] == p[2] && q[1] == p[1] && q[2] == p[0])
        ||| (q[0] == p[1] && q[1] == p[0] && q[2] == p[2])
    }
}

/// The lowest scanline of a triangle is that of its lowest corner, and the
/// highest that of its highest.
pub proof fn lemma_triangle_rows(p: Seq<Vector>)
    requires
        p.len() == 3,
    ensures
        first_row(p) <= vertex_row(p, 0) && first_row(p) <= vertex_row(p, 1) && first_row(p) <= vertex_row(p, 2),
        first_row(p) == vertex_row(p, 0) || first_row(p) == vertex_row(p, 1) || first_row(p) == vertex_row(p, 2),
        last_row(p) >= vertex_row(p, 0) && last_row(p) >= vertex_row(p, 1) && last_row(p) >= vertex_row(p, 2),
        last_row(p) == vertex_row(p, 0) || last_row(p) == vertex_row(p, 1) || last_row(p) == vertex_row(p, 2),
{
    lemma_covered_pixels_by_table(p);
    lemma_vertex_order(p);
    let order = vertex_order(p);
    assert(vertex_row(p, 0) >= first_row(p));
    assert(vertex_row(p, 1) >= first_row(p));
    assert(vertex_row(p, 2) >= first_row(p));
    assert(vertex_row(p, 0) <= last_row(p));
    assert(vertex_row(p, 1) <= last_row(p));
    assert(vertex_row(p, 2) <= last_row(p));
    assert(0 <= order[0] < 3);
    assert(0 <= order[2] < 3);
    assert(first_row(p) == vertex_row(p, order[0]));
    assert(last_row(p) == vertex_row(p, order[2]));
}

/// The pixel lies on the stretch of the level edge `i` on scanline `r`.
pub open spec fn on_edge(p: Seq<Vector>, i: int, x: int, r: int) -> bool {
    edge_lies_on(p, i, r) && column_between(x, edge_stretch(p, i).x_start, edge_stretch(p, i).x_end)
}

/// A pixel lies on a level edge of a triangle just if it lies on one of its
/// three edges.
proof fn lemma_triangle_level_edges(p: Seq<Vector>, x: int, r: int)
    requires
        p.len() == 3,
    ensures
        on_level_edge(p, x, r) <==> r < last_row(p) && (on_edge(p, 0, x, r) || on_edge(p, 1, x, r) || on_edge(p, 2, x, r)),
{
    if on_level_edge(p, x, r) {
        let i = choose|i: int|
            0 <= i < p.len() && edge_lies_on(p, i, r) && column_between(
                x,
                (#[trigger] edge_stretch(p, i)).x_start,
                edge_stretch(p, i).x_end,
            );
        assert(on_edge(p, i, x, r));
    }
    if r < last_row(p) {
        if on_edge(p, 0, x, r) {
            assert(column_between(x, edge_stretch(p, 0).x_start, edge_stretch(p, 0).x_end));
        }
        if on_edge(p, 1, x, r) {
            assert(column_between(x, edge_stretch(p, 1).x_start, edge_stretch(p, 1).x_end));
        }
        if on_edge(p, 2, x, r) {
            assert(column_between(x, edge_stretch(p, 2).x_start, edge_stretch(p, 2).x_end));
        }
    }
}

/// Where the three edges of one triangle are the three edges of another, the
/// two triangles cover the same pixels.
proof fn lemma_same_edges_cover(p: Seq<Vector>, q: Seq<Vector>, a: int, b: int, c: int, x: int, r: int)
    requires
        p.len() == 3,
        q.len() == 3,
        same_edge(p, 0, q, a),
        same_edge(p, 1, q, b),
        same_edge(p, 2, q, c),
        0 <= a < 3 && 0 <= b < 3 && 0 <= c < 3,
        a != b && a != c && b != c,
        first_row(p) == first_row(q),
        last_row(p) == last_row(q),
    ensures
        covered_pixels(p).contains((x, r)) <==> covered_pixels(q).contains((x, r)),
{
    lemma_triangle_pixels(p, x, r);
    lemma_triangle_pixels(q, x, r);
    lemma_triangle_level_edges(p, x, r);
    lemma_triangle_level_edges(q, x, r);
    lemma_same_edge(p, 0, q, a, r);
    lemma_same_edge(p, 1, q, b, r);
    lemma_same_edge(p, 2, q, c, r);
    lemma_triangle_crossings(p, r);
    lemma_triangle_crossings(q, r);
    assert(on_edge(p, 0, x, r) == on_edge(q, a, x, r));
    assert(on_edge(p, 1, x, r) == on_edge(q, b, x, r));
    assert(on_edge(p, 2, x, r) == on_edge(q, c, x, r));
}

/// The pixels that filling a triangle covers do not depend on the order in
/// which its corners are given.
pub proof fn lemma_triangle_any_order(p: Seq<Vector>, q: Seq<Vector>, x: int, r: int)
    requires
        same_corners(p, q),
    ensures
        covered_pixels(p).contains((x, r)) <==> covered_pixels(q).contains((x, r)),
{
    lemma_triangle_rows(p);
    lemma_triangle_rows(q);
    if q[0] == p[0] && q[1] == p[1] && q[2] == p[2] {
        lemma_same_edges_cover(p, q, 0, 1, 2, x, r);
    } else if q[0] == p[1] && q[1] == p[2] && q[2] == p[0] {
        lemma_same_edges_cover(p, q, 2, 0, 1, x, r);
    } else if q[0] == p[2] && q[1] == p[0] && q[2] == p[1] {
        lemma_same_edges_cover(p, q, 1, 2, 0, x, r);
    } else if q[0] == p[0] && q[1] == p[2] && q[2] == p[1] {
        lemma_same_edges_cover(p, q, 2, 1, 0, x, r);
    } else if q[0] == p[2] && q[1] == p[1] && q[2] == p[0] {
        lemma_same_edges_cover(p, q, 1, 0, 2, x, r);
    } else {
        lemma_same_edges_cover(p, q, 0, 2, 1, x, r);
    }
}

/// The pixels that the scanlines from `y` to `y_end` of a bounded polygon
/// fill lie within `PIXEL_MAX`.
proof fn lemma_rows_pixels_within(polygon: Seq<Vector>, order: Seq<int>, from: int, y: int, y_end: int)
    requires
        polygon.len() >= 3,
        is_arrangement(order, polygon.len() as int),
        rises(polygon, order),
        starts_at(polygon, from),
        all_bounded(polygon, EDGE_MAX as int),
        from <= y,
        -1_000_000 <= y,
        y_end <= 1_000_000,
    ensures
        forall|k: int|
            0 <= k < rows_pixels(polygon, order, from, y, y_end).len() ==> {
                let q = #[trigger] rows_pixels(polygon, order, from, y, y_end)[k];
                within(q.0, PIXEL_MAX as int) && within(q.1, PIXEL_MAX as int)
            },
    decreases y_end - y + 1,
{
    if y <= y_end {
        let n = polygon.len() as int;
        let t = table_on(polygon, order, from, y);
        lemma_rows_pixels_within(polygon, order, from, y + 1, y_end);
        lemma_table_on_scanline(polygon, order, from, y);
        assert forall|k: int| 0 <= k < t.edges.len() implies within((#[trigger] t.edges[k]).x, CROSSING_MAX as int)
            && within(t.edges[k].x_diff, STEP_MAX as int) by {
            lemma_entry_within(polygon, edge_of(t.edges[k], n), y);
        }
        lemma_table_spans(polygon, order, from, y);
        assert forall|k: int| 0 <= k < t.spans.len() implies within((#[trigger] t.spans[k]).x_start, CROSSING_MAX as int)
            && within(t.spans[k].x_end, CROSSING_MAX as int) by {
            let span = t.spans[k];
            assert(row_spans(polygon, order, y, order.len()).contains(span));
            lemma_row_spans_contains(polygon, order, y, order.len(), span);
            let i = choose|i: int|
                0 <= i < polygon.len() && edge_lies_on(polygon, i, y - 1) && #[trigger] edge_stretch(polygon, i) == span;
            assert(polygon[i].bounded(EDGE_MAX as int));
            assert(polygon[next_vertex(i, n)].bounded(EDGE_MAX as int));
        }
        lemma_line_pixels_within(t, y, CROSSING_MAX as int, STEP_MAX as int);
        let left = t.line_pixels(y);
        let right = rows_pixels(polygon, order, from, y + 1, y_end);
        assert forall|k: int| 0 <= k < (left + right).len() implies ({
            let q = #[trigger] (left + right)[k];
            within(q.0, PIXEL_MAX as int) && within(q.1, PIXEL_MAX as int)
        }) by {
            if k < left.len() {
                let q = left[k];
                assert((left + right)[k] == q);
                assert(within(q.0 * ONE, CROSSING_MAX as int));
                assert(within(q.0, PIXEL_MAX as int)) by (nonlinear_arith)
                    requires
                        within(q.0 * ONE, 5_000_000_000_000_000_000),
                ;
            } else {
                assert((left + right)[k] == right[k - left.len()]);
            }
        }
    }
}

/// The pixels that filling a bounded polygon covers lie within `PIXEL_MAX`.
pub proof fn lemma_covered_pixels_within(polygon: Seq<Vector>)
    requires
        polygon.len() >= 3,
        all_bounded(polygon, EDGE_MAX as int),
    ensures
        forall|k: int|
            0 <= k < covered_pixels(polygon).len() ==> {
                let q = #[trigger] covered_pixels(polygon)[k];
                within(q.0, PIXEL_MAX as int) && within(q.1, PIXEL_MAX as int)
            },
{
    let order = vertex_order(polygon);
    let n = polygon.len() as int;
    lemma_covered_pixels_by_table(polygon);
    lemma_vertex_order(polygon);
    lemma_vertex_order_arrangement(polygon);
    assert(0 <= order[0] < n && 0 <= order[n - 1] < n);
    assert(polygon[order[0]].bounded(EDGE_MAX as int));
    assert(polygon[order[n - 1]].bounded(EDGE_MAX as int));
    lemma_div_monotone(-(EDGE_MAX as int), polygon[order[0]].y, ONE as int);
    lemma_div_monotone(polygon[order[n - 1]].y, EDGE_MAX as int, ONE as int);
    lemma_rows_pixels_within(polygon, order, first_row(polygon), first_row(polygon), last_row(polygon));
}

} // verus!
