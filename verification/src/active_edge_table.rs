//! The active edge table: the edges that cross the current scanline, and what a
//! scanline fills between them.

use vstd::prelude::*;
use crate::fixed::{
    ONE, ceil_spec, floor_div, floor_spec, lemma_div_monotone, lemma_div_within, within,
};
use crate::sorting::{is_insert_position, lemma_insert_sorted_at, stable_sort};
use crate::vector::{Vec3, Vector};

verus! {

/// Largest magnitude of a coordinate of an edge that the table takes: a
/// million. It is set by the step of an edge, its width a million times
/// enlarged and divided by its height, which has to fit 64 bits together with
/// the crossing it is added to.
pub const EDGE_MAX: i64 = 1_000_000_000_000;

/// The scanline that holds the fixed-point height `y`.
pub open spec fn scanline(y: int) -> int {
    floor_spec(y)
}

/// An edge that crosses the current scanline, as mathematical integers: what
/// an [`AETData`] stands for.
pub struct EdgeEntry {
    /// Where the edge crosses the scanline.
    pub x: int,
    /// How far the crossing moves from one scanline to the next.
    pub x_diff: int,
    /// The smaller index of the two ends of the edge.
    pub start: int,
    /// The larger index of the two ends of the edge.
    pub end: int,
}

impl EdgeEntry {
    /// The entry on the next scanline.
    pub open spec fn advanced(self) -> EdgeEntry {
        EdgeEntry { x: self.x + self.x_diff, ..self }
    }

    /// The entry is that of the edge between the vertices `a` and `b`, in
    /// either order.
    pub open spec fn has_key(self, a: int, b: int) -> bool {
        self.start == min_of(a, b) && self.end == max_of(a, b)
    }
}

pub open spec fn min_of(a: int, b: int) -> int {
    if a <= b {
        a
    } else {
        b
    }
}

pub open spec fn max_of(a: int, b: int) -> int {
    if a <= b {
        b
    } else {
        a
    }
}

/// A horizontal stretch that is filled once: what a [`SameY`] stands for.
pub struct Span {
    pub x_start: int,
    pub x_end: int,
}

/// An edge in the active edge table.
#[derive(Clone, Copy, Debug, PartialEq, Eq, Structural)]
pub struct AETData {
    pub x: i64,
    pub x_diff: i64,
    // Edge info (e.g. edge 1-2 => start=1, end=2), start < end
    pub start: usize,
    pub end: usize,
}

impl View for AETData {
    type V = EdgeEntry;

    open spec fn view(&self) -> EdgeEntry {
        EdgeEntry { x: self.x as int, x_diff: self.x_diff as int, start: self.start as int, end: self.end as int }
    }
}

impl AETData {
    /// Moves the crossing to the next scanline.
    pub fn update_x(&mut self)
        requires
            i64::MIN <= old(self).x + old(self).x_diff <= i64::MAX,
        ensures
            final(self)@ == old(self)@.advanced(),
    {
        self.x += self.x_diff
    }
}

/// The stretch of an edge whose ends lie at the same height.
#[derive(Clone, Copy, Debug, PartialEq, Eq, Structural)]
pub struct SameY {
    pub x_start: i64,
    pub x_end: i64,
}

impl View for SameY {
    type V = Span;

    open spec fn view(&self) -> Span {
        Span { x_start: self.x_start as int, x_end: self.x_end as int }
    }
}

/// A pixel: a column and a row.
#[derive(Clone, Copy, Debug, PartialEq, Eq, Structural)]
pub struct PixelPos {
    pub x: i64,
    pub y: i64,
}

/// The pixels as pairs of column and row.
pub open spec fn positions(s: Seq<PixelPos>) -> Seq<(int, int)> {
    Seq::new(s.len(), |k: int| (s[k].x as int, s[k].y as int))
}

/// The pixels of row `row` whose columns lie between the fixed-point
/// coordinates `a` and `b`, both included, from left to right.
pub open spec fn span_pixels(a: int, b: int, row: int) -> Seq<(int, int)> {
    let first = ceil_spec(a);
    let last = floor_spec(b);
    if first > last {
        Seq::empty()
    } else {
        Seq::new((last - first + 1) as nat, |k: int| (first + k, row))
    }
}

/// The pixels of all the stretches, one stretch after the other.
pub open spec fn spans_pixels(spans: Seq<Span>, row: int) -> Seq<(int, int)>
    decreases spans.len(),
{
    if spans.len() == 0 {
        Seq::empty()
    } else {
        spans_pixels(spans.drop_last(), row) + span_pixels(spans.last().x_start, spans.last().x_end, row)
    }
}

/// The pixels between the edges of the first `pairs` pairs: between the
/// first edge and the second, between the third and the fourth, and so on.
pub open spec fn pair_pixels(edges: Seq<EdgeEntry>, row: int, pairs: nat) -> Seq<(int, int)>
    decreases pairs,
{
    if pairs == 0 {
        Seq::empty()
    } else {
        pair_pixels(edges, row, (pairs - 1) as nat) + span_pixels(
            edges[2 * (pairs - 1)].x,
            edges[2 * (pairs - 1) + 1].x,
            row,
        )
    }
}

/// How far the crossing of the edge from `lower` up to `upper` moves from one
/// scanline to the next: the width of the edge divided by its height, as a
/// fixed-point number, rounded down.
pub open spec fn slope(lower: Vector, upper: Vector) -> int {
    ((upper.x - lower.x) * ONE) / (upper.y - lower.y)
}

/// Largest magnitude of the step of an edge: that of the widest edge, twice
/// `EDGE_MAX`, which rises by a millionth.
pub const STEP_MAX: i64 = 2_000_000_000_000_000_000;

/// The step of an edge between bounded ends is bounded.
pub proof fn lemma_slope_within(lower: Vector, upper: Vector)
    requires
        lower.bounded(EDGE_MAX as int),
        upper.bounded(EDGE_MAX as int),
        lower.y < upper.y,
    ensures
        within(slope(lower, upper), STEP_MAX as int),
{
    let width = upper.x - lower.x;
    assert(within(width * ONE, STEP_MAX as int)) by (nonlinear_arith)
        requires
            within(width, 2_000_000_000_000),
    ;
    lemma_div_within(width * ONE, upper.y - lower.y, STEP_MAX as int);
}

/// The active edge table as mathematical values: what an [`AET`] stands for.
pub struct Table {
    /// The edges that cross the current scanline.
    pub edges: Seq<EdgeEntry>,
    /// The horizontal stretches met on the scanline before.
    pub spans: Seq<Span>,
}

impl Table {
    pub open spec fn empty() -> Table {
        Table { edges: Seq::empty(), spans: Seq::empty() }
    }

    /// The table with the edge from `start` to `end` taken in. An edge whose
    /// ends lie at the same height gives a stretch to fill. Any other edge
    /// gives an entry that starts at its lower end and moves, from one
    /// scanline to the next, by the width of the edge divided by its height.
    pub open spec fn add_edge(self, start: Vector, end: Vector, start_id: int, end_id: int) -> Table {
        if start.y == end.y {
            Table {
                spans: self.spans.push(Span { x_start: min_of(start.x, end.x), x_end: max_of(start.x, end.x) }),
                ..self
            }
        } else {
            let lower = if start.y < end.y { start } else { end };
            let upper = if start.y < end.y { end } else { start };
            Table {
                edges: self.edges.push(
                    EdgeEntry {
                        x: lower.x,
                        x_diff: slope(lower, upper),
                        start: min_of(start_id, end_id),
                        end: max_of(start_id, end_id),
                    },
                ),
                ..self
            }
        }
    }

    /// The table without the entries of the edge between the two vertices.
    pub open spec fn remove_edge(self, start_id: int, end_id: int) -> Table {
        Table { edges: self.edges.filter(|e: EdgeEntry| !e.has_key(start_id, end_id)), ..self }
    }

    /// The table on the next scanline: every crossing moved by its step.
    pub open spec fn update_x(self) -> Table {
        Table { edges: self.edges.map_values(|e: EdgeEntry| e.advanced()), ..self }
    }

    /// The table with its edges in the order of their crossings, from left
    /// to right.
    pub open spec fn sort_by_x(self) -> Table {
        Table { edges: stable_sort(self.edges, |e: EdgeEntry| e.x), ..self }
    }

    /// The pixels that scanline `y` fills: the stretches recorded on the
    /// scanline before, in the row below, and then the pixels between the
    /// pairs of edges.
    pub open spec fn line_pixels(self, y: int) -> Seq<(int, int)> {
        spans_pixels(self.spans, y - 1) + pair_pixels(self.edges, y, (self.edges.len() / 2) as nat)
    }

    /// The table after the scanline is filled: the stretches are used up.
    pub open spec fn after_fill(self) -> Table {
        Table { spans: Seq::empty(), ..self }
    }

    /// No crossing and no step is further out than `bx` and `bd`.
    pub open spec fn edges_within(self, bx: int, bd: int) -> bool {
        forall|k: int| 0 <= k < self.edges.len() ==> within((#[trigger] self.edges[k]).x, bx) && within(self.edges[k].x_diff, bd)
    }
}

/// The active edge table: the edges that cross the current scanline, and the
/// horizontal stretches that wait to be filled.
#[allow(clippy::upper_case_acronyms)]
pub struct AET {
    data: Vec<AETData>,
    same_y: Vec<SameY>,
}

impl View for AET {
    type V = Table;

    closed spec fn view(&self) -> Table {
        Table { edges: self.data@.map_values(|d: AETData| d@), spans: self.same_y@.map_values(|s: SameY| s@) }
    }
}

impl AET {
    pub fn new() -> (r: Self)
        ensures
            r@ == Table::empty(),
    {
        let r = AET { data: Vec::new(), same_y: Vec::new() };
        assert(r@.edges =~= Seq::empty());
        assert(r@.spans =~= Seq::empty());
        r
    }

    /// The number of edges in the table.
    pub fn len(&self) -> (r: usize)
        ensures
            r == self@.edges.len(),
    {
        self.data.len()
    }

    /// The edge at place `k` of the table.
    pub fn entry(&self, k: usize) -> (r: AETData)
        requires
            k < self@.edges.len(),
        ensures
            r@ == self@.edges[k as int],
    {
        self.data[k]
    }

    /// The number of stretches that wait to be filled.
    pub fn pending_spans(&self) -> (r: usize)
        ensures
            r == self@.spans.len(),
    {
        self.same_y.len()
    }

    /// Takes in the edge between the vertices `start_id` and `end_id`, which
    /// lie at `start` and `end`.
    pub fn add_edge(&mut self, start: Vec3, end: Vec3, start_id: usize, end_id: usize)
        requires
            start@.bounded(EDGE_MAX as int),
            end@.bounded(EDGE_MAX as int),
        ensures
            final(self)@ == old(self)@.add_edge(start@, end@, start_id as int, end_id as int),
    {
        if start.y == end.y {
            let x_start: i64 = if start.x <= end.x { start.x } else { end.x };
            let x_end: i64 = if start.x <= end.x { end.x } else { start.x };
            self.same_y.push(SameY { x_start, x_end });
            proof {
                assert(self@.spans =~= old(self)@.spans.push(Span { x_start: x_start as int, x_end: x_end as int }));
            }
            return ;
        }
        let (lower, upper) = if start.y < end.y {
            (start, end)
        } else {
            (end, start)
        };
        let x: i64 = lower.x;
        proof {
            lemma_slope_within(lower@, upper@);
            assert(within((upper.x - lower.x) * ONE, STEP_MAX as int)) by (nonlinear_arith)
                requires
                    within(upper.x - lower.x, 2_000_000_000_000),
            ;
        }
        let x_diff: i128 = floor_div(
            ((upper.x as i128) - (lower.x as i128)) * (ONE as i128),
            (upper.y as i128) - (lower.y as i128),
        );
        let start_index: usize = if start_id <= end_id { start_id } else { end_id };
        let end_index: usize = if start_id <= end_id { end_id } else { start_id };
        let entry = AETData { x, x_diff: x_diff as i64, start: start_index, end: end_index };
        self.data.push(entry);
        proof {
            assert(self@.edges =~= old(self)@.edges.push(entry@));
        }
    }

    /// Takes out the edge between the vertices `start_id` and `end_id`.
    pub fn remove_edge(&mut self, start_id: usize, end_id: usize)
        ensures
            final(self)@ == old(self)@.remove_edge(start_id as int, end_id as int),
    {
        let start: usize = if start_id <= end_id { start_id } else { end_id };
        let end: usize = if start_id <= end_id { end_id } else { start_id };
        let ghost before = self@.edges;
        let ghost keep = |e: EdgeEntry| !e.has_key(start_id as int, end_id as int);
        let mut kept: Vec<AETData> = Vec::new();
        let mut i: usize = 0;
        proof {
            assert(before.take(0) =~= Seq::empty());
            before.take(0).lemma_filter_len(keep);
            assert(before.take(0).filter(keep) =~= Seq::empty());
        }
        while i < self.data.len()
            invariant
                i <= self.data@.len(),
                self.data == old(self).data,
                self.same_y == old(self).same_y,
                before == old(self)@.edges,
                before.len() == self.data@.len(),
                keep == (|e: EdgeEntry| !e.has_key(start_id as int, end_id as int)),
                start == min_of(start_id as int, end_id as int),
                end == max_of(start_id as int, end_id as int),
                kept@.map_values(|d: AETData| d@) == before.take(i as int).filter(keep),
            decreases self.data@.len() - i,
        {
            let p: AETData = self.data[i];
            proof {
                assert(before.take(i + 1) =~= before.take(i as int).push(p@));
                before.take(i as int).lemma_filter_push(p@, keep);
                assert(keep(p@) == (p.start != start || p.end != end));
            }
            if p.start != start || p.end != end {
                kept.push(p);
                proof {
                    assert(kept@.map_values(|d: AETData| d@) =~= before.take(i as int).filter(keep).push(p@));
                }
            }
            i = i + 1;
        }
        proof {
            assert(before.take(i as int) =~= before);
        }
        self.data = kept;
    }

    /// Moves every crossing to the next scanline.
    pub fn update_x(&mut self)
        requires
            forall|k: int|
                0 <= k < old(self)@.edges.len() ==> i64::MIN <= (#[trigger] old(self)@.edges[k]).advanced().x <= i64::MAX,
        ensures
            final(self)@ == old(self)@.update_x(),
    {
        let mut i: usize = 0;
        while i < self.data.len()
            invariant
                i <= self.data@.len(),
                self.data@.len() == old(self).data@.len(),
                self.same_y == old(self).same_y,
                forall|k: int| 0 <= k < i ==> (#[trigger] self.data@[k])@ == old(self).data@[k]@.advanced(),
                forall|k: int| i <= k < self.data@.len() ==> #[trigger] self.data@[k] == old(self).data@[k],
                forall|k: int|
                    0 <= k < old(self)@.edges.len() ==> i64::MIN <= (#[trigger] old(self)@.edges[k]).advanced().x <= i64::MAX,
            decreases self.data@.len() - i,
        {
            let mut d: AETData = self.data[i];
            proof {
                assert(old(self)@.edges[i as int] == d@);
            }
            d.update_x();
            self.data.set(i, d);
            i = i + 1;
        }
        proof {
            assert(self@.edges =~= old(self)@.update_x().edges);
        }
    }

    /// Puts the edges in the order of their crossings, from left to right.
    /// Edges that cross at the same place stay in the order they had.
    pub fn sort_by_x(&mut self)
        ensures
            final(self)@ == old(self)@.sort_by_x(),
    {
        let ghost key = |e: EdgeEntry| e.x;
        let ghost before = self@.edges;
        let mut sorted: Vec<AETData> = Vec::new();
        let mut i: usize = 0;
        proof {
            assert(before.take(0) =~= Seq::empty());
            assert(sorted@.map_values(|d: AETData| d@) =~= stable_sort(before.take(0), key));
        }
        while i < self.data.len()
            invariant
                i <= self.data@.len(),
                self.data == old(self).data,
                self.same_y == old(self).same_y,
                before == old(self)@.edges,
                before.len() == self.data@.len(),
                key == (|e: EdgeEntry| e.x),
                sorted@.map_values(|d: AETData| d@) == stable_sort(before.take(i as int), key),
            decreases self.data@.len() - i,
        {
            let e: AETData = self.data[i];
            let ghost so_far = sorted@.map_values(|d: AETData| d@);
            let mut pos: usize = sorted.len();
            while pos > 0 && sorted[pos - 1].x > e.x
                invariant
                    pos <= sorted@.len(),
                    so_far == sorted@.map_values(|d: AETData| d@),
                    forall|k: int| pos <= k < sorted@.len() ==> (#[trigger] so_far[k]).x > e.x,
                decreases pos,
            {
                pos = pos - 1;
            }
            proof {
                assert(is_insert_position(so_far, e@, key, pos as int)) by {
                    assert forall|k: int| pos <= k < so_far.len() implies key(#[trigger] so_far[k]) > key(e@) by {
                        assert(so_far[k].x > e.x);
                    }
                    if pos > 0 {
                        assert(so_far[pos - 1] == sorted@[pos - 1]@);
                    }
                }
                lemma_insert_sorted_at(so_far, e@, key, pos as int);
                assert(before.take(i + 1).drop_last() =~= before.take(i as int));
                assert(before.take(i + 1).last() == e@);
            }
            sorted.insert(pos, e);
            proof {
                assert(sorted@.map_values(|d: AETData| d@) =~= so_far.insert(pos as int, e@));
            }
            i = i + 1;
        }
        proof {
            assert(before.take(i as int) =~= before);
        }
        self.data = sorted;
    }

    /// Returns the pixels that scanline `y` fills, and uses up the stretches
    /// that were waiting.
    pub fn fill_line(&mut self, y: i64) -> (r: Vec<PixelPos>)
        requires
            y > i64::MIN,
        ensures
            positions(r@) == old(self)@.line_pixels(y as int),
            final(self)@ == old(self)@.after_fill(),
    {
        let mut out: Vec<PixelPos> = Vec::new();
        let ghost table = self@;
        assert(positions(out@) =~= Seq::empty());
        let mut i: usize = 0;
        while i < self.same_y.len()
            invariant
                i <= self.same_y@.len(),
                self.data == old(self).data,
                self.same_y == old(self).same_y,
                table == old(self)@,
                y > i64::MIN,
                positions(out@) == spans_pixels(table.spans.take(i as int), y - 1),
            decreases self.same_y@.len() - i,
        {
            let same_y: SameY = self.same_y[i];
            proof {
                assert(table.spans.take(i + 1).drop_last() =~= table.spans.take(i as int));
                assert(table.spans.take(i + 1).last() == same_y@);
            }
            push_span(&mut out, same_y.x_start, same_y.x_end, y - 1);
            i = i + 1;
        }
        proof {
            assert(table.spans.take(i as int) =~= table.spans);
        }
        self.same_y.clear();
        let len: usize = self.data.len();
        let mut k: usize = 0;
        while k + 1 < len
            invariant
                k <= len,
                k % 2 == 0,
                len == self.data@.len(),
                self.data == old(self).data,
                self.same_y@.len() == 0,
                table == old(self)@,
                positions(out@) == spans_pixels(table.spans, y - 1) + pair_pixels(table.edges, y as int, (k / 2) as nat),
            decreases len - k,
        {
            let start: i64 = self.data[k].x;
            let end: i64 = self.data[k + 1].x;
            proof {
                assert(table.edges[k as int] == self.data@[k as int]@);
                assert(table.edges[k + 1] == self.data@[k + 1]@);
                assert((k + 2) / 2 == k / 2 + 1);
                assert(2 * (k / 2) == k);
            }
            push_span(&mut out, start, end, y);
            proof {
                assert(positions(out@) =~= spans_pixels(table.spans, y - 1) + pair_pixels(
                    table.edges,
                    y as int,
                    ((k + 2) / 2) as nat,
                ));
            }
            k = k + 2;
        }
        proof {
            assert(k / 2 == len / 2);
        }
        proof {
            assert(self@.spans =~= Seq::empty());
            assert(self@.edges =~= table.edges);
        }
        out
    }
}

/// The scanline that holds the height `y`.
pub fn scanline_of(y: i64) -> (r: i64)
    ensures
        r == scanline(y as int),
        y >= 0 ==> 0 <= r <= y,
        y < 0 ==> y <= r < 0,
{
    proof {
        lemma_div_within(y as int, ONE as int, if y >= 0 { y as int } else { -(y as int) });
    }
    let q: i128 = floor_div(y as i128, ONE as i128);
    q as i64
}

/// Appends the pixels of row `row` between `a` and `b`.
fn push_span(out: &mut Vec<PixelPos>, a: i64, b: i64, row: i64)
    ensures
        positions(final(out)@) == positions(old(out)@) + span_pixels(a as int, b as int, row as int),
{
    proof {
        lemma_div_within(b as int, ONE as int, if b >= 0 { b as int } else { -(b as int) });
        lemma_div_monotone(a as int, a + ONE - 1, ONE as int);
        lemma_div_monotone(a + ONE - 1, a + ONE, ONE as int);
        lemma_div_within(a as int, ONE as int, if a >= 0 { a as int } else { -(a as int) });
        assert((a + ONE) / (ONE as int) == (a as int) / (ONE as int) + 1) by {
            vstd::arithmetic::div_mod::lemma_div_plus_one(a as int, ONE as int);
        }
    }
    let first128: i128 = floor_div((a as i128) + (ONE as i128) - 1, ONE as i128);
    let last128: i128 = floor_div(b as i128, ONE as i128);
    if first128 > last128 {
        proof {
            assert(positions(out@) =~= positions(old(out)@) + span_pixels(a as int, b as int, row as int));
        }
        return ;
    }
    let ghost base = positions(out@);
    let ghost want = span_pixels(a as int, b as int, row as int);
    let mut x: i128 = first128;
    assert(positions(out@) =~= base + want.take(0));
    while x <= last128
        invariant
            first128 <= x <= last128 + 1,
            first128 == ceil_spec(a as int),
            last128 == floor_spec(b as int),
            i64::MIN <= first128,
            last128 <= i64::MAX,
            base == positions(old(out)@),
            want == span_pixels(a as int, b as int, row as int),
            want.len() == last128 - first128 + 1,
            positions(out@) == base + want.take(x - first128),
        decreases last128 + 1 - x,
    {
        let ghost prev = out@;
        out.push(PixelPos { x: x as i64, y: row });
        proof {
            let n = x - first128;
            assert(want[n] == (x as int, row as int));
            assert(positions(out@) =~= positions(prev).push((x as int, row as int)));
            assert(want.take(n + 1) =~= want.take(n).push(want[n]));
            assert(positions(out@) =~= base + want.take(n + 1));
        }
        x = x + 1;
    }
    proof {
        assert(want.take(last128 - first128 + 1) =~= want);
    }
}

/// A filter that every element passes keeps the sequence as it is.
pub proof fn lemma_filter_keeps_all<T>(s: Seq<T>, pred: spec_fn(T) -> bool)
    requires
        forall|k: int| 0 <= k < s.len() ==> pred(#[trigger] s[k]),
    ensures
        s.filter(pred) == s,
    decreases s.len(),
{
    reveal(Seq::filter);
    if s.len() > 0 {
        let rest = s.drop_last();
        assert forall|k: int| 0 <= k < rest.len() implies pred(#[trigger] rest[k]) by {
            assert(rest[k] == s[k]);
        }
        lemma_filter_keeps_all(rest, pred);
        assert(pred(s[s.len() - 1]));
        assert(rest.push(s.last()) =~= s);
    }
}

/// Taking an edge in and out again, with its ends named in either order,
/// leaves in the table the entries of the other edges, as they were; the
/// stretch that a level edge gave stays to be filled. Where
/// the table held no entry of that edge before, its edges are as they were.
pub proof fn lemma_add_then_remove_edge(t: Table, start: Vector, end: Vector, start_id: int, end_id: int)
    ensures
        t.add_edge(start, end, start_id, end_id).remove_edge(start_id, end_id).edges == t.remove_edge(start_id, end_id).edges,
        t.add_edge(start, end, start_id, end_id).remove_edge(end_id, start_id).edges == t.remove_edge(start_id, end_id).edges,
        (forall|k: int| 0 <= k < t.edges.len() ==> !(#[trigger] t.edges[k]).has_key(start_id, end_id)) ==> {
            &&& t.add_edge(start, end, start_id, end_id).remove_edge(start_id, end_id).edges == t.edges
            &&& t.add_edge(start, end, start_id, end_id).remove_edge(end_id, start_id).edges == t.edges
        },
{
    let keep = |e: EdgeEntry| !e.has_key(start_id, end_id);
    let keep_swapped = |e: EdgeEntry| !e.has_key(end_id, start_id);
    assert forall|e: EdgeEntry| #[trigger] keep(e) == keep_swapped(e) by {}
    assert(keep =~= keep_swapped);
    let added = t.add_edge(start, end, start_id, end_id);
    if start.y != end.y {
        let entry = added.edges.last();
        assert(added.edges == t.edges.push(entry));
        assert(entry.has_key(start_id, end_id));
        t.edges.lemma_filter_push(entry, keep);
    }
    if forall|k: int| 0 <= k < t.edges.len() ==> !(#[trigger] t.edges[k]).has_key(start_id, end_id) {
        assert forall|k: int| 0 <= k < t.edges.len() implies keep(#[trigger] t.edges[k]) by {
            assert(!t.edges[k].has_key(start_id, end_id));
        }
        lemma_filter_keeps_all(t.edges, keep);
    }
}

} // verus!
