//! Bernstein basis polynomials and weighted sums over a grid of control
//! values.

use vstd::prelude::*;
use crate::fixed::{ONE, floor_div, lemma_div_exact, lemma_div_monotone, lemma_div_within, within};

verus! {

/// The cubic Bernstein polynomial `C(3,i) u^i (1-u)^(3-i)` of a fixed-point
/// `u`, before rounding: a number with eighteen fractional digits.
pub open spec fn bernstein3_exact(i: int, u: int) -> int {
    let w = ONE - u;
    if i == 0 {
        w * w * w
    } else if i == 1 {
        3 * (u * w * w)
    } else if i == 2 {
        3 * (u * u * w)
    } else {
        u * u * u
    }
}

/// The quadratic Bernstein polynomial `C(2,i) u^i (1-u)^(2-i)` of a
/// fixed-point `u`, before rounding: a number with twelve fractional digits.
pub open spec fn bernstein2_exact(i: int, u: int) -> int {
    let w = ONE - u;
    if i == 0 {
        w * w
    } else if i == 1 {
        2 * (u * w)
    } else {
        u * u
    }
}

/// The cubic Bernstein polynomial as a fixed-point number, rounded down.
pub open spec fn bernstein3(i: int, u: int) -> int {
    bernstein3_exact(i, u) / (ONE * ONE)
}

/// The quadratic Bernstein polynomial as a fixed-point number, rounded down.
pub open spec fn bernstein2(i: int, u: int) -> int {
    bernstein2_exact(i, u) / (ONE as int)
}

/// The four cubic basis values at `u`.
pub open spec fn cubic_weights(u: int) -> Seq<int> {
    seq![bernstein3(0, u), bernstein3(1, u), bernstein3(2, u), bernstein3(3, u)]
}

/// The three quadratic basis values at `u`.
pub open spec fn quadratic_weights(u: int) -> Seq<int> {
    seq![bernstein2(0, u), bernstein2(1, u), bernstein2(2, u)]
}

/// The sum of the numbers in `w`.
pub open spec fn total(w: Seq<int>) -> int
    decreases w.len(),
{
    if w.len() == 0 {
        0
    } else {
        total(w.drop_last()) + w.last()
    }
}

/// The sum of `a[k] * w[k]` over the indices of `w`.
pub open spec fn blend(a: Seq<int>, w: Seq<int>) -> int
    decreases w.len(),
{
    if w.len() == 0 {
        0
    } else {
        blend(a, w.drop_last()) + a[w.len() - 1] * w.last()
    }
}

/// Row `i` of a grid stored row by row with `cols` values in a row.
pub open spec fn grid_row(vals: Seq<int>, i: int, cols: int) -> Seq<int> {
    Seq::new(cols as nat, |j: int| vals[i * cols + j])
}

/// The sum of `vals[i][j] * wu[i] * wv[j]` over a grid stored row by row.
pub open spec fn patch_sum(vals: Seq<int>, wu: Seq<int>, wv: Seq<int>) -> int {
    blend(Seq::new(wu.len(), |i: int| blend(grid_row(vals, i, wv.len() as int), wv)), wu)
}

/// Every weight is at least zero.
pub open spec fn nonnegative(w: Seq<int>) -> bool {
    forall|k: int| 0 <= k < w.len() ==> w[k] >= 0
}

/// Weights that are not negative and add up to at most one.
pub open spec fn is_partition(w: Seq<int>) -> bool {
    nonnegative(w) && total(w) <= ONE
}

/// A sum of bounded values with weights that are not negative is bounded by
/// the bound times the sum of the weights.
pub proof fn lemma_blend_within(a: Seq<int>, w: Seq<int>, bound: int)
    requires
        nonnegative(w),
        forall|k: int| 0 <= k < w.len() ==> within(#[trigger] a[k], bound),
    ensures
        within(blend(a, w), bound * total(w)),
        total(w) >= 0,
    decreases w.len(),
{
    if w.len() > 0 {
        let w0 = w.drop_last();
        lemma_blend_within(a, w0, bound);
        let last = a[w.len() - 1];
        let wl = w.last();
        assert(within(last, bound));
        assert(within(last * wl, bound * wl)) by (nonlinear_arith)
            requires
                -bound <= last <= bound,
                wl >= 0,
        ;
        assert(bound * (total(w0) + wl) == bound * total(w0) + bound * wl) by (nonlinear_arith);
    } else {
        assert(bound * 0 == 0) by (nonlinear_arith);
    }
}

/// With the whole weight on index `at`, the sum is the value there.
pub proof fn lemma_blend_single(a: Seq<int>, w: Seq<int>, at: int)
    requires
        0 <= at < w.len(),
        forall|k: int| 0 <= k < w.len() && k != at ==> w[k] == 0,
    ensures
        blend(a, w) == a[at] * w[at],
    decreases w.len(),
{
    let w0 = w.drop_last();
    if at == w.len() - 1 {
        lemma_blend_zero(a, w0);
    } else {
        lemma_blend_single(a, w0, at);
        assert(a[w.len() - 1] * 0 == 0) by (nonlinear_arith);
    }
}

/// With no weight anywhere, the sum is zero.
pub proof fn lemma_blend_zero(a: Seq<int>, w: Seq<int>)
    requires
        forall|k: int| 0 <= k < w.len() ==> w[k] == 0,
    ensures
        blend(a, w) == 0,
    decreases w.len(),
{
    if w.len() > 0 {
        lemma_blend_zero(a, w.drop_last());
        assert(a[w.len() - 1] * 0 == 0) by (nonlinear_arith);
    }
}

/// The cubic basis polynomials add up to one, before rounding.
pub proof fn lemma_bernstein3_exact_sum(u: int)
    ensures
        bernstein3_exact(0, u) + bernstein3_exact(1, u) + bernstein3_exact(2, u)
            + bernstein3_exact(3, u) == ONE * ONE * ONE,
{
    let w = ONE - u;
    assert(w * w * w + 3 * (u * w * w) + 3 * (u * u * w) + u * u * u == (u + w) * (u + w) * (u
        + w)) by (nonlinear_arith);
}

/// The quadratic basis polynomials add up to one, before rounding.
pub proof fn lemma_bernstein2_exact_sum(u: int)
    ensures
        bernstein2_exact(0, u) + bernstein2_exact(1, u) + bernstein2_exact(2, u) == ONE * ONE,
{
    let w = ONE - u;
    assert(w * w + 2 * (u * w) + u * u == (u + w) * (u + w)) by (nonlinear_arith);
}

/// Each basis polynomial lies between zero and one, before rounding.
pub proof fn lemma_bernstein_exact_range(i: int, u: int)
    requires
        0 <= u <= ONE,
    ensures
        0 <= bernstein3_exact(i, u),
        0 <= bernstein2_exact(i, u),
{
    let w = ONE - u;
    assert(0 <= w * w && 0 <= u * w && 0 <= u * u) by (nonlinear_arith)
        requires
            0 <= u,
            0 <= w,
    ;
    assert(0 <= w * w * w && 0 <= u * w * w && 0 <= u * u * w && 0 <= u * u * u)
        by (nonlinear_arith)
        requires
            0 <= u,
            0 <= w,
    ;
}

/// Rounding down the parts of a sum gives no more than the sum rounded down.
proof fn lemma_floor_sum(a: int, b: int, d: int)
    requires
        d > 0,
    ensures
        a / d + b / d <= (a + b) / d,
{
    vstd::arithmetic::div_mod::lemma_fundamental_div_mod(a, d);
    vstd::arithmetic::div_mod::lemma_fundamental_div_mod(b, d);
    let q = a / d + b / d;
    assert(d * q == d * (a / d) + d * (b / d)) by (nonlinear_arith)
        requires
            q == a / d + b / d,
    ;
    assert(d * q <= a + b);
    lemma_div_monotone(d * q, a + b, d);
    lemma_div_exact(q, d);
}

/// The cubic weights are not negative and add up to at most one.
pub proof fn lemma_cubic_weights_partition(u: int)
    requires
        0 <= u <= ONE,
    ensures
        is_partition(cubic_weights(u)),
        cubic_weights(u).len() == 4,
        forall|k: int| 0 <= k < 4 ==> 0 <= #[trigger] cubic_weights(u)[k] <= ONE,
{
    let w = cubic_weights(u);
    let d = ONE * ONE;
    lemma_bernstein_exact_range(0, u);
    lemma_bernstein_exact_range(1, u);
    lemma_bernstein_exact_range(2, u);
    lemma_bernstein_exact_range(3, u);
    let e0 = bernstein3_exact(0, u);
    let e1 = bernstein3_exact(1, u);
    let e2 = bernstein3_exact(2, u);
    let e3 = bernstein3_exact(3, u);
    lemma_div_within(e0, d, e0);
    lemma_div_within(e1, d, e1);
    lemma_div_within(e2, d, e2);
    lemma_div_within(e3, d, e3);
    lemma_bernstein3_exact_sum(u);
    lemma_floor_sum(e0, e1, d);
    lemma_floor_sum(e0 + e1, e2, d);
    lemma_floor_sum(e0 + e1 + e2, e3, d);
    assert(ONE * ONE * ONE == ONE * d) by (nonlinear_arith)
        requires
            d == ONE * ONE,
    ;
    lemma_div_exact(ONE as int, d);
    lemma_total4(w);
}

/// The quadratic weights are not negative and add up to at most one.
pub proof fn lemma_quadratic_weights_partition(u: int)
    requires
        0 <= u <= ONE,
    ensures
        is_partition(quadratic_weights(u)),
        quadratic_weights(u).len() == 3,
        forall|k: int| 0 <= k < 3 ==> 0 <= #[trigger] quadratic_weights(u)[k] <= ONE,
{
    let w = quadratic_weights(u);
    let d = ONE as int;
    lemma_bernstein_exact_range(0, u);
    lemma_bernstein_exact_range(1, u);
    lemma_bernstein_exact_range(2, u);
    let e0 = bernstein2_exact(0, u);
    let e1 = bernstein2_exact(1, u);
    let e2 = bernstein2_exact(2, u);
    lemma_div_within(e0, d, e0);
    lemma_div_within(e1, d, e1);
    lemma_div_within(e2, d, e2);
    lemma_bernstein2_exact_sum(u);
    lemma_floor_sum(e0, e1, d);
    lemma_floor_sum(e0 + e1, e2, d);
    lemma_div_exact(ONE as int, d);
    lemma_total3(w);
}

/// The sum of four numbers.
pub proof fn lemma_total4(w: Seq<int>)
    requires
        w.len() == 4,
    ensures
        total(w) == w[0] + w[1] + w[2] + w[3],
{
    let w3 = w.drop_last();
    let w2 = w3.drop_last();
    let w1 = w2.drop_last();
    let w0 = w1.drop_last();
    assert(total(w0) == 0);
    assert(total(w1) == w[0]);
    assert(total(w2) == w[0] + w[1]);
    assert(total(w3) == w[0] + w[1] + w[2]);
}

/// The sum of three numbers.
pub proof fn lemma_total3(w: Seq<int>)
    requires
        w.len() == 3,
    ensures
        total(w) == w[0] + w[1] + w[2],
{
    let w2 = w.drop_last();
    let w1 = w2.drop_last();
    let w0 = w1.drop_last();
    assert(total(w0) == 0);
    assert(total(w1) == w[0]);
    assert(total(w2) == w[0] + w[1]);
}

/// At the ends of the parameter range all the weight lies on the first or on
/// the last basis polynomial.
pub proof fn lemma_weights_at_ends()
    ensures
        cubic_weights(0) == seq![ONE as int, 0int, 0int, 0int],
        cubic_weights(ONE as int) == seq![0int, 0int, 0int, ONE as int],
        quadratic_weights(0) == seq![ONE as int, 0int, 0int],
        quadratic_weights(ONE as int) == seq![0int, 0int, ONE as int],
{
    assert(bernstein3_exact(0, 0) == ONE * (ONE * ONE)) by (nonlinear_arith);
    assert(bernstein3_exact(3, ONE as int) == ONE * (ONE * ONE)) by (nonlinear_arith);
    assert(bernstein3_exact(1, 0) == 0 && bernstein3_exact(2, 0) == 0 && bernstein3_exact(3, 0)
        == 0) by (nonlinear_arith);
    assert(bernstein3_exact(0, ONE as int) == 0 && bernstein3_exact(1, ONE as int) == 0
        && bernstein3_exact(2, ONE as int) == 0) by (nonlinear_arith);
    assert(bernstein2_exact(0, 0) == ONE * ONE && bernstein2_exact(1, 0) == 0 && bernstein2_exact(
        2,
        0,
    ) == 0) by (nonlinear_arith);
    assert(bernstein2_exact(2, ONE as int) == ONE * ONE && bernstein2_exact(1, ONE as int) == 0
        && bernstein2_exact(0, ONE as int) == 0) by (nonlinear_arith);
    lemma_div_exact(ONE as int, ONE * ONE);
    lemma_div_exact(ONE as int, ONE as int);
    assert(cubic_weights(0) =~= seq![ONE as int, 0int, 0int, 0int]);
    assert(cubic_weights(ONE as int) =~= seq![0int, 0int, 0int, ONE as int]);
    assert(quadratic_weights(0) =~= seq![ONE as int, 0int, 0int]);
    assert(quadratic_weights(ONE as int) =~= seq![0int, 0int, ONE as int]);
}

/// A sum over a grid of bounded values, weighted by two partitions, is
/// bounded by the bound times `ONE * ONE`.
pub proof fn lemma_patch_sum_within(vals: Seq<int>, wu: Seq<int>, wv: Seq<int>, bound: int)
    requires
        is_partition(wu),
        is_partition(wv),
        bound >= 0,
        forall|k: int| 0 <= k < wu.len() * wv.len() ==> within(#[trigger] vals[k], bound),
    ensures
        within(patch_sum(vals, wu, wv), bound * ONE * ONE),
{
    let m = wv.len() as int;
    let rows = Seq::new(wu.len(), |i: int| blend(grid_row(vals, i, m), wv));
    assert forall|i: int| 0 <= i < wu.len() implies within(#[trigger] rows[i], bound * ONE) by {
        lemma_patch_row_within(vals, wu.len() as int, wv, i, bound);
    }
    lemma_blend_within(rows, wu, bound * ONE);
    let tu = total(wu);
    assert(within(blend(rows, wu), bound * ONE * ONE)) by (nonlinear_arith)
        requires
            within(blend(rows, wu), (bound * ONE) * tu),
            0 <= tu <= ONE,
            bound >= 0,
    ;
}

/// One row of a grid of bounded values, weighted by a partition, is bounded
/// by the bound times `ONE`.
pub proof fn lemma_patch_row_within(vals: Seq<int>, rows: int, wv: Seq<int>, i: int, bound: int)
    requires
        is_partition(wv),
        bound >= 0,
        0 <= i < rows,
        forall|k: int| 0 <= k < rows * wv.len() ==> within(#[trigger] vals[k], bound),
    ensures
        within(blend(grid_row(vals, i, wv.len() as int), wv), bound * ONE),
{
    let m = wv.len() as int;
    let row = grid_row(vals, i, m);
    assert forall|j: int| 0 <= j < m implies within(#[trigger] row[j], bound) by {
        assert(0 <= i * m + j < rows * m) by (nonlinear_arith)
            requires
                0 <= i < rows,
                0 <= j < m,
        ;
        assert(within(vals[i * m + j], bound));
    }
    lemma_blend_within(row, wv, bound);
    let tv = total(wv);
    assert(within(blend(row, wv), bound * ONE)) by (nonlinear_arith)
        requires
            within(blend(row, wv), bound * tv),
            0 <= tv <= ONE,
            bound >= 0,
    ;
}

/// The numbers of `s` as mathematical integers.
pub open spec fn ints(s: Seq<i64>) -> Seq<int> {
    Seq::new(s.len(), |k: int| s[k] as int)
}

/// Largest magnitude of a value that [`patch_sum_of`] weighs. It is set by
/// the sum of sixteen values, each times two weights, which is held in 128
/// bits.
pub const GRID_VALUE_MAX: i64 = 1_000_000_000_000;

/// The four cubic basis values at `u`.
pub fn cubic_basis(u: i64) -> (w: Vec<i64>)
    requires
        0 <= u <= ONE,
    ensures
        ints(w@) == cubic_weights(u as int),
        w@.len() == 4,
        forall|k: int| 0 <= k < 4 ==> 0 <= #[trigger] w@[k] <= ONE,
{
    proof {
        lemma_cubic_weights_partition(u as int);
        lemma_bernstein_exact_range(0, u as int);
        lemma_bernstein_exact_range(1, u as int);
        lemma_bernstein_exact_range(2, u as int);
        lemma_bernstein_exact_range(3, u as int);
        lemma_bernstein3_exact_sum(u as int);
    }
    let a: i128 = u as i128;
    let b: i128 = (ONE - u) as i128;
    let d: i128 = (ONE as i128) * (ONE as i128);
    assert(0 <= b * b <= ONE * ONE && 0 <= a * b <= ONE * ONE && 0 <= a * a <= ONE * ONE)
        by (nonlinear_arith)
        requires
            0 <= a <= ONE,
            0 <= b <= ONE,
    ;
    let bb: i128 = b * b;
    let ab: i128 = a * b;
    let aa: i128 = a * a;
    assert(0 <= bb * b <= ONE * ONE * ONE && 0 <= ab * b <= ONE * ONE * ONE && 0 <= aa * b <= ONE
        * ONE * ONE && 0 <= aa * a <= ONE * ONE * ONE) by (nonlinear_arith)
        requires
            0 <= a <= ONE,
            0 <= b <= ONE,
            0 <= bb <= ONE * ONE,
            0 <= ab <= ONE * ONE,
            0 <= aa <= ONE * ONE,
    ;
    let w0: i128 = floor_div(bb * b, d);
    let w1: i128 = floor_div(3 * (ab * b), d);
    let w2: i128 = floor_div(3 * (aa * b), d);
    let w3: i128 = floor_div(aa * a, d);
    let mut w: Vec<i64> = Vec::new();
    assert(cubic_weights(u as int)[0] == w0);
    assert(cubic_weights(u as int)[1] == w1);
    assert(cubic_weights(u as int)[2] == w2);
    assert(cubic_weights(u as int)[3] == w3);
    w.push(w0 as i64);
    w.push(w1 as i64);
    w.push(w2 as i64);
    w.push(w3 as i64);
    assert(ints(w@) =~= cubic_weights(u as int));
    w
}

/// The three quadratic basis values at `u`.
pub fn quadratic_basis(u: i64) -> (w: Vec<i64>)
    requires
        0 <= u <= ONE,
    ensures
        ints(w@) == quadratic_weights(u as int),
        w@.len() == 3,
        forall|k: int| 0 <= k < 3 ==> 0 <= #[trigger] w@[k] <= ONE,
{
    proof {
        lemma_quadratic_weights_partition(u as int);
        lemma_bernstein_exact_range(0, u as int);
        lemma_bernstein_exact_range(1, u as int);
        lemma_bernstein_exact_range(2, u as int);
        lemma_bernstein2_exact_sum(u as int);
    }
    let a: i128 = u as i128;
    let b: i128 = (ONE - u) as i128;
    assert(0 <= b * b <= ONE * ONE && 0 <= a * b <= ONE * ONE && 0 <= a * a <= ONE * ONE)
        by (nonlinear_arith)
        requires
            0 <= a <= ONE,
            0 <= b <= ONE,
    ;
    let w0: i128 = floor_div(b * b, ONE as i128);
    let w1: i128 = floor_div(2 * (a * b), ONE as i128);
    let w2: i128 = floor_div(a * a, ONE as i128);
    let mut w: Vec<i64> = Vec::new();
    assert(quadratic_weights(u as int)[0] == w0);
    assert(quadratic_weights(u as int)[1] == w1);
    assert(quadratic_weights(u as int)[2] == w2);
    w.push(w0 as i64);
    w.push(w1 as i64);
    w.push(w2 as i64);
    assert(ints(w@) =~= quadratic_weights(u as int));
    w
}

/// The sum of `vals[i][j] * wu[i] * wv[j]` over a grid of at most four rows
/// and columns, stored row by row.
pub fn patch_sum_of(vals: &Vec<i64>, wu: &Vec<i64>, wv: &Vec<i64>) -> (r: i128)
    requires
        wu@.len() <= 4,
        wv@.len() <= 4,
        vals@.len() == wu@.len() * wv@.len(),
        forall|k: int| 0 <= k < wu@.len() ==> 0 <= #[trigger] wu@[k] <= ONE,
        forall|k: int| 0 <= k < wv@.len() ==> 0 <= #[trigger] wv@[k] <= ONE,
        forall|k: int| 0 <= k < vals@.len() ==> within(#[trigger] vals@[k] as int, GRID_VALUE_MAX as int),
    ensures
        r == patch_sum(ints(vals@), ints(wu@), ints(wv@)),
{
    let n: usize = wu.len();
    let m: usize = wv.len();
    let ghost gv = ints(vals@);
    let ghost gu = ints(wu@);
    let ghost gw = ints(wv@);
    let ghost rows = Seq::new(gu.len(), |i: int| blend(grid_row(gv, i, m as int), gw));
    let mut acc: i128 = 0;
    let mut i: usize = 0;
    while i < n
        invariant
            i <= n,
            n == wu@.len(),
            m == wv@.len(),
            n <= 4,
            m <= 4,
            vals@.len() == n * m,
            gv == ints(vals@),
            gu == ints(wu@),
            gw == ints(wv@),
            rows == Seq::new(gu.len(), |i: int| blend(grid_row(gv, i, m as int), gw)),
            forall|k: int| 0 <= k < wu@.len() ==> 0 <= #[trigger] wu@[k] <= ONE,
            forall|k: int| 0 <= k < wv@.len() ==> 0 <= #[trigger] wv@[k] <= ONE,
            forall|k: int| 0 <= k < vals@.len() ==> within(#[trigger] vals@[k] as int, GRID_VALUE_MAX as int),
            acc == blend(rows, gu.take(i as int)),
            within(acc as int, i * 4_000_000_000_000_000_000_000_000),
        decreases n - i,
    {
        let ghost row = grid_row(gv, i as int, m as int);
        let mut inner: i128 = 0;
        let mut j: usize = 0;
        while j < m
            invariant
                j <= m,
                i < n,
                n <= 4,
                m <= 4,
                m == wv@.len(),
                vals@.len() == n * m,
                gv == ints(vals@),
                gw == ints(wv@),
                row == grid_row(gv, i as int, m as int),
                forall|k: int| 0 <= k < wv@.len() ==> 0 <= #[trigger] wv@[k] <= ONE,
                forall|k: int| 0 <= k < vals@.len() ==> within(#[trigger] vals@[k] as int, GRID_VALUE_MAX as int),
                inner == blend(row, gw.take(j as int)),
                within(inner as int, j * 1_000_000_000_000_000_000),
            decreases m - j,
        {
            assert(0 <= i * m + j < n * m) by (nonlinear_arith)
                requires
                    0 <= i < n,
                    0 <= j < m,
            ;
            assert(i * m + j < 16) by (nonlinear_arith)
                requires
                    0 <= i < 4,
                    0 <= j < m,
                    m <= 4,
            ;
            let v: i64 = vals[i * m + j];
            let w: i64 = wv[j];
            proof {
                assert(within(vals@[i * m + j] as int, GRID_VALUE_MAX as int));
                crate::fixed::lemma_mul_within(v as int, w as int, GRID_VALUE_MAX as int, ONE as int);
                assert(GRID_VALUE_MAX * ONE == 1_000_000_000_000_000_000);
                assert(gw.take(j + 1).drop_last() =~= gw.take(j as int));
                assert(row[j as int] == v);
                assert(gw.take(j + 1).last() == w);
            }
            inner = inner + (v as i128) * (w as i128);
            j = j + 1;
        }
        let wi: i64 = wu[i];
        proof {
            assert(gw.take(m as int) =~= gw);
            assert(rows[i as int] == inner);
            crate::fixed::lemma_mul_within(inner as int, wi as int, 4_000_000_000_000_000_000, ONE as int);
            assert(4_000_000_000_000_000_000 * ONE == 4_000_000_000_000_000_000_000_000);
            assert(gu.take(i + 1).drop_last() =~= gu.take(i as int));
            assert(gu.take(i + 1).last() == wi);
        }
        acc = acc + inner * (wi as i128);
        i = i + 1;
    }
    proof {
        assert(gu.take(n as int) =~= gu);
    }
    acc
}

} // verus!
